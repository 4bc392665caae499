//! A problem instance: the yard size, the obstacles and the order in which the
//! containers arrive; and its text form.

use vstd::prelude::*;

use crate::text::{
    chars_of, decimal, lemma_decimal, lemma_parse_decimal, lemma_tokens_word, parse_usize,
    parse_usize_at, push_decimal, token_ranges, tokens,
};

verus! {

/// A problem instance.
#[derive(Clone, Debug)]
pub struct Input {
    /// The yard is `D x D` squares.
    pub D: usize,
    /// The obstacles, as `(row, column)`.
    pub rs: Vec<(usize, usize)>,
    /// The containers, in the order in which they are put into the yard.
    pub ts: Vec<usize>,
}

/// The values an instance holds.
pub open spec fn input_model(inp: Input) -> (usize, Seq<(usize, usize)>, Seq<usize>) {
    (inp.D, inp.rs@, inp.ts@)
}

/// One line `i j` per obstacle.
pub open spec fn pair_lines(s: Seq<(usize, usize)>) -> Seq<char>
    decreases s.len(),
{
    if s.len() == 0 {
        seq![]
    } else {
        decimal(s[0].0 as nat) + seq![' '] + decimal(s[0].1 as nat) + seq!['\n'] + pair_lines(
            s.drop_first(),
        )
    }
}

/// One line per number.
pub open spec fn number_lines(s: Seq<usize>) -> Seq<char>
    decreases s.len(),
{
    if s.len() == 0 {
        seq![]
    } else {
        decimal(s[0] as nat) + seq!['\n'] + number_lines(s.drop_first())
    }
}

/// The text of an instance: `D N` on the first line, then the `N` obstacles,
/// one `i j` per line, then the containers, one per line.
pub open spec fn input_text(inp: Input) -> Seq<char> {
    decimal(inp.D as nat) + seq![' '] + decimal(inp.rs@.len()) + seq!['\n'] + pair_lines(inp.rs@)
        + number_lines(inp.ts@)
}

/// The number a token reads as (only meaningful when it reads as one).
pub open spec fn token_value(t: Seq<char>) -> usize {
    parse_usize(t).unwrap()
}

/// Reads an instance from its tokens: `D` and `N`, then `N` pairs for the
/// obstacles, then `D * D - 1 - N` containers; later tokens are ignored. `None`
/// when a token is missing or not a number, or `D * D - 1 - N` cannot be computed.
pub open spec fn read_input(t: Seq<Seq<char>>) -> Option<(usize, Seq<(usize, usize)>, Seq<usize>)> {
    if t.len() < 2 {
        None
    } else {
        match (parse_usize(t[0]), parse_usize(t[1])) {
            (Some(d), Some(n)) => {
                if d * d > usize::MAX || n >= d * d {
                    None
                } else {
                    let m = d * d - 1 - n;
                    if t.len() < 2 + 2 * n + m {
                        None
                    } else if forall|k: int| 0 <= k < 2 * n + m ==> #[trigger] parse_usize(t[2 + k]) is Some {
                        Some(
                            (
                                d,
                                Seq::new(
                                    n as nat,
                                    |i: int| (token_value(t[2 + 2 * i]), token_value(t[3 + 2 * i])),
                                ),
                                Seq::new(m as nat, |i: int| token_value(t[2 + 2 * n + i])),
                            ),
                        )
                    } else {
                        None
                    }
                }
            },
            _ => None,
        }
    }
}

proof fn lemma_pair_lines_append(a: Seq<(usize, usize)>, b: Seq<(usize, usize)>)
    ensures
        pair_lines(a + b) == pair_lines(a) + pair_lines(b),
    decreases a.len(),
{
    if a.len() == 0 {
        assert(a + b =~= b);
    } else {
        lemma_pair_lines_append(a.drop_first(), b);
        assert((a + b).drop_first() =~= a.drop_first() + b);
        assert((a + b)[0] == a[0]);
        let x = a[0];
        assert(pair_lines(a + b) =~= decimal(x.0 as nat) + seq![' '] + decimal(x.1 as nat) + seq!['\n']
            + pair_lines(a.drop_first() + b));
        assert(pair_lines(a) + pair_lines(b) =~= decimal(x.0 as nat) + seq![' '] + decimal(x.1 as nat)
            + seq!['\n'] + (pair_lines(a.drop_first()) + pair_lines(b)));
    }
}

proof fn lemma_number_lines_append(a: Seq<usize>, b: Seq<usize>)
    ensures
        number_lines(a + b) == number_lines(a) + number_lines(b),
    decreases a.len(),
{
    if a.len() == 0 {
        assert(a + b =~= b);
    } else {
        lemma_number_lines_append(a.drop_first(), b);
        assert((a + b).drop_first() =~= a.drop_first() + b);
        assert((a + b)[0] == a[0]);
        assert(number_lines(a + b) =~= decimal(a[0] as nat) + seq!['\n'] + number_lines(
            a.drop_first() + b,
        ));
        assert(number_lines(a) + number_lines(b) =~= decimal(a[0] as nat) + seq!['\n'] + (
        number_lines(a.drop_first()) + number_lines(b)));
    }
}

proof fn lemma_pair_lines_one(p: (usize, usize))
    ensures
        pair_lines(seq![p]) == decimal(p.0 as nat) + seq![' '] + decimal(p.1 as nat) + seq!['\n'],
{
    assert(seq![p].drop_first() =~= Seq::<(usize, usize)>::empty());
    assert(pair_lines(Seq::<(usize, usize)>::empty()) =~= Seq::<char>::empty());
    assert(seq![p][0] == p);
    assert(pair_lines(seq![p]) =~= decimal(p.0 as nat) + seq![' '] + decimal(p.1 as nat) + seq!['\n']);
}

proof fn lemma_number_lines_one(x: usize)
    ensures
        number_lines(seq![x]) == decimal(x as nat) + seq!['\n'],
{
    assert(seq![x].drop_first() =~= Seq::<usize>::empty());
    assert(number_lines(Seq::<usize>::empty()) =~= Seq::<char>::empty());
    assert(seq![x][0] == x);
    assert(number_lines(seq![x]) =~= decimal(x as nat) + seq!['\n']);
}

/// The tokens of `pair_lines(s)`.
spec fn pair_tokens(s: Seq<(usize, usize)>) -> Seq<Seq<char>>
    decreases s.len(),
{
    if s.len() == 0 {
        seq![]
    } else {
        seq![decimal(s[0].0 as nat), decimal(s[0].1 as nat)] + pair_tokens(s.drop_first())
    }
}

/// The tokens of `number_lines(s)`.
spec fn number_tokens(s: Seq<usize>) -> Seq<Seq<char>>
    decreases s.len(),
{
    if s.len() == 0 {
        seq![]
    } else {
        seq![decimal(s[0] as nat)] + number_tokens(s.drop_first())
    }
}

proof fn lemma_pair_tokens(s: Seq<(usize, usize)>, rest: Seq<char>)
    ensures
        tokens(pair_lines(s) + rest) == pair_tokens(s) + tokens(rest),
        pair_tokens(s).len() == 2 * s.len(),
        forall|i: int|
            0 <= i < s.len() ==> pair_tokens(s)[2 * i] == decimal(#[trigger] s[i].0 as nat)
                && pair_tokens(s)[2 * i + 1] == decimal(s[i].1 as nat),
    decreases s.len(),
{
    if s.len() == 0 {
        assert(pair_lines(s) + rest =~= rest);
        assert(pair_tokens(s) + tokens(rest) =~= tokens(rest));
    } else {
        let x = s[0];
        let t = s.drop_first();
        lemma_pair_tokens(t, rest);
        lemma_decimal(x.0 as nat);
        lemma_decimal(x.1 as nat);
        let inner = decimal(x.1 as nat) + seq!['\n'] + (pair_lines(t) + rest);
        assert(pair_lines(s) + rest =~= decimal(x.0 as nat) + seq![' '] + inner);
        lemma_tokens_word(decimal(x.0 as nat), ' ', inner);
        lemma_tokens_word(decimal(x.1 as nat), '\n', pair_lines(t) + rest);
        assert(tokens(pair_lines(s) + rest) =~= pair_tokens(s) + tokens(rest));
        assert forall|i: int| 0 <= i < s.len() implies pair_tokens(s)[2 * i] == decimal(
            #[trigger] s[i].0 as nat,
        ) && pair_tokens(s)[2 * i + 1] == decimal(s[i].1 as nat) by {
            if i > 0 {
                assert(s[i] == t[i - 1]);
                assert(pair_tokens(s)[2 * i] == pair_tokens(t)[2 * (i - 1)]);
                assert(pair_tokens(s)[2 * i + 1] == pair_tokens(t)[2 * (i - 1) + 1]);
            }
        }
    }
}

proof fn lemma_number_tokens(s: Seq<usize>, rest: Seq<char>)
    ensures
        tokens(number_lines(s) + rest) == number_tokens(s) + tokens(rest),
        number_tokens(s).len() == s.len(),
        forall|i: int| 0 <= i < s.len() ==> number_tokens(s)[i] == decimal(#[trigger] s[i] as nat),
    decreases s.len(),
{
    if s.len() == 0 {
        assert(number_lines(s) + rest =~= rest);
        assert(number_tokens(s) + tokens(rest) =~= tokens(rest));
    } else {
        let t = s.drop_first();
        lemma_number_tokens(t, rest);
        lemma_decimal(s[0] as nat);
        assert(number_lines(s) + rest =~= decimal(s[0] as nat) + seq!['\n'] + (number_lines(t) + rest));
        lemma_tokens_word(decimal(s[0] as nat), '\n', number_lines(t) + rest);
        assert(tokens(number_lines(s) + rest) =~= number_tokens(s) + tokens(rest));
        assert forall|i: int| 0 <= i < s.len() implies number_tokens(s)[i] == decimal(
            #[trigger] s[i] as nat,
        ) by {
            if i > 0 {
                assert(s[i] == t[i - 1]);
                assert(number_tokens(s)[i] == number_tokens(t)[i - 1]);
            }
        }
    }
}

/// Reading the text of an instance gives the instance back, when the instance is
/// consistent: there are `D * D - 1 - N` containers, and `D * D` fits in a
/// `usize` (reading computes `D * D - 1 - N`, which would overflow otherwise).
pub proof fn lemma_text_roundtrip(inp: Input)
    requires
        inp.D * inp.D <= usize::MAX,
        inp.ts@.len() == inp.D * inp.D - 1 - inp.rs@.len(),
    ensures
        read_input(tokens(input_text(inp))) == Some(input_model(inp)),
{
    let d = inp.D;
    let rs = inp.rs@;
    let ts = inp.ts@;
    let n = rs.len() as usize;
    lemma_decimal(d as nat);
    lemma_decimal(n as nat);
    lemma_parse_decimal(d);
    lemma_parse_decimal(n);
    lemma_number_tokens(ts, seq![]);
    lemma_pair_tokens(rs, number_lines(ts));
    let body = pair_lines(rs) + number_lines(ts);
    let second = decimal(n as nat) + seq!['\n'] + body;
    assert(input_text(inp) =~= decimal(d as nat) + seq![' '] + second);
    lemma_tokens_word(decimal(d as nat), ' ', second);
    lemma_tokens_word(decimal(n as nat), '\n', body);
    assert(number_lines(ts) + seq![] =~= number_lines(ts));
    assert(tokens(Seq::<char>::empty()) =~= Seq::<Seq<char>>::empty());
    let t = tokens(input_text(inp));
    let pt = pair_tokens(rs);
    let nt = number_tokens(ts);
    assert(t =~= seq![decimal(d as nat), decimal(n as nat)] + pt + nt);
    assert(t[0] == decimal(d as nat));
    assert(t[1] == decimal(n as nat));
    let m = d * d - 1 - n;
    assert forall|k: int| 0 <= k < 2 * n + m implies #[trigger] parse_usize(t[2 + k]) is Some by {
        if k < 2 * n {
            let i = k / 2;
            assert(0 <= i < n);
            assert(t[2 + k] == pt[k]);
            if k % 2 == 0 {
                assert(k == 2 * i);
                lemma_parse_decimal(rs[i].0);
                assert(pt[2 * i] == decimal(rs[i].0 as nat));
                assert(parse_usize(pt[k]) is Some);
            } else {
                assert(k == 2 * i + 1);
                lemma_parse_decimal(rs[i].1);
                assert(pt[2 * i] == decimal(rs[i].0 as nat));
                assert(pt[2 * i + 1] == decimal(rs[i].1 as nat));
                assert(parse_usize(pt[k]) is Some);
            }
        } else {
            assert(t[2 + k] == nt[k - 2 * n]);
            lemma_parse_decimal(ts[k - 2 * n]);
            assert(nt[k - 2 * n] == decimal(ts[k - 2 * n] as nat));
        }
    }
    let got_rs = Seq::new(n as nat, |i: int| (token_value(t[2 + 2 * i]), token_value(t[3 + 2 * i])));
    assert forall|i: int| 0 <= i < n implies got_rs[i] == rs[i] by {
        assert(t[2 + 2 * i] == pt[2 * i]);
        assert(t[3 + 2 * i] == pt[2 * i + 1]);
        lemma_parse_decimal(rs[i].0);
        lemma_parse_decimal(rs[i].1);
    }
    assert(got_rs =~= rs);
    let got_ts = Seq::new(m as nat, |i: int| token_value(t[2 + 2 * n + i]));
    assert forall|i: int| 0 <= i < m implies got_ts[i] == ts[i] by {
        assert(t[2 + 2 * n + i] == nt[i]);
        lemma_parse_decimal(ts[i]);
    }
    assert(got_ts =~= ts);
}

impl Input {
    /// The text of this instance (see `input_text`).
    pub fn to_string(&self) -> (r: String)
        ensures
            r@ == input_text(*self),
    {
        proof {
            reveal_strlit(" ");
            reveal_strlit("\n");
        }
        let mut s = String::new();
        push_decimal(&mut s, self.D);
        s.append(" ");
        push_decimal(&mut s, self.rs.len());
        s.append("\n");
        let ghost head = s@;
        let mut k: usize = 0;
        proof {
            assert(self.rs@.take(0) =~= Seq::<(usize, usize)>::empty());
            assert(s@ =~= head + pair_lines(self.rs@.take(0)));
        }
        while k < self.rs.len()
            invariant
                k <= self.rs@.len(),
                s@ == head + pair_lines(self.rs@.take(k as int)),
                " "@ == seq![' '],
                "\n"@ == seq!['\n'],
            decreases self.rs@.len() - k,
        {
            let (i, j) = self.rs[k];
            push_decimal(&mut s, i);
            s.append(" ");
            push_decimal(&mut s, j);
            s.append("\n");
            proof {
                assert(self.rs@.take(k + 1) =~= self.rs@.take(k as int) + seq![(i, j)]);
                lemma_pair_lines_append(self.rs@.take(k as int), seq![(i, j)]);
                lemma_pair_lines_one((i, j));
                assert(s@ =~= head + pair_lines(self.rs@.take(k + 1)));
            }
            k += 1;
        }
        let ghost mid = s@;
        let mut k: usize = 0;
        proof {
            assert(self.rs@.take(self.rs@.len() as int) =~= self.rs@);
            assert(self.ts@.take(0) =~= Seq::<usize>::empty());
            assert(s@ =~= mid + number_lines(self.ts@.take(0)));
        }
        while k < self.ts.len()
            invariant
                k <= self.ts@.len(),
                s@ == mid + number_lines(self.ts@.take(k as int)),
                "\n"@ == seq!['\n'],
            decreases self.ts@.len() - k,
        {
            let t = self.ts[k];
            push_decimal(&mut s, t);
            s.append("\n");
            proof {
                assert(self.ts@.take(k + 1) =~= self.ts@.take(k as int) + seq![t]);
                lemma_number_lines_append(self.ts@.take(k as int), seq![t]);
                lemma_number_lines_one(t);
                assert(s@ =~= mid + number_lines(self.ts@.take(k + 1)));
            }
            k += 1;
        }
        proof {
            assert(self.ts@.take(self.ts@.len() as int) =~= self.ts@);
            assert(s@ =~= input_text(*self));
        }
        s
    }
}

/// Reads an instance from its text (see `read_input` on its tokens). `None`
/// exactly when the text holds no instance.
pub fn try_parse_input(f: &str) -> (r: Option<Input>)
    ensures
        match r {
            Some(inp) => read_input(tokens(f@)) == Some(input_model(inp)),
            None => read_input(tokens(f@)) is None,
        },
{
    let cs = chars_of(f);
    let toks = token_ranges(&cs, 0, cs.len());
    let ghost t = tokens(f@);
    proof {
        assert(cs@.subrange(0, cs@.len() as int) =~= f@);
    }
    let nt = toks.len();
    if nt < 2 {
        return None;
    }
    let d = match parse_usize_at(&cs, toks[0].0, toks[0].1) {
        Some(v) => v,
        None => {
            return None;
        },
    };
    let n = match parse_usize_at(&cs, toks[1].0, toks[1].1) {
        Some(v) => v,
        None => {
            return None;
        },
    };
    let dd = match d.checked_mul(d) {
        Some(v) => v,
        None => {
            return None;
        },
    };
    if n >= dd {
        return None;
    }
    let m = dd - 1 - n;
    if n > (nt - 2) / 2 {
        return None;
    }
    if nt - 2 - 2 * n < m {
        return None;
    }
    let mut rs: Vec<(usize, usize)> = Vec::new();
    let mut i: usize = 0;
    while i < n
        invariant
            nt == toks@.len() == t.len(),
            t == tokens(f@),
            forall|k: int|
                0 <= k < toks@.len() ==> #[trigger] toks@[k].0 <= toks@[k].1 <= cs@.len() && cs@.subrange(
                    toks@[k].0 as int,
                    toks@[k].1 as int,
                ) == t[k],
            parse_usize(t[0]) == Some(d),
            parse_usize(t[1]) == Some(n),
            dd == d * d,
            n < dd,
            m == dd - 1 - n,
            2 + 2 * n + m <= nt,
            i <= n,
            rs@ == Seq::new(i as nat, |q: int| (token_value(t[2 + 2 * q]), token_value(t[3 + 2 * q]))),
            forall|k: int| 0 <= k < 2 * i ==> #[trigger] parse_usize(t[2 + k]) is Some,
        decreases n - i,
    {
        let a = toks[2 + 2 * i];
        let x = match parse_usize_at(&cs, a.0, a.1) {
            Some(v) => v,
            None => {
                proof {
                    assert(parse_usize(t[2 + (2 * i) as int]) is None);
                }
                return None;
            },
        };
        let b = toks[3 + 2 * i];
        let y = match parse_usize_at(&cs, b.0, b.1) {
            Some(v) => v,
            None => {
                proof {
                    assert(parse_usize(t[2 + (2 * i + 1) as int]) is None);
                }
                return None;
            },
        };
        rs.push((x, y));
        proof {
            assert(parse_usize(t[2 + (2 * i) as int]) is Some);
            assert(parse_usize(t[2 + (2 * i + 1) as int]) is Some);
            assert(rs@ =~= Seq::new(
                (i + 1) as nat,
                |q: int| (token_value(t[2 + 2 * q]), token_value(t[3 + 2 * q])),
            ));
        }
        i += 1;
    }
    let mut ts: Vec<usize> = Vec::new();
    let mut i: usize = 0;
    while i < m
        invariant
            nt == toks@.len() == t.len(),
            t == tokens(f@),
            forall|k: int|
                0 <= k < toks@.len() ==> #[trigger] toks@[k].0 <= toks@[k].1 <= cs@.len() && cs@.subrange(
                    toks@[k].0 as int,
                    toks@[k].1 as int,
                ) == t[k],
            parse_usize(t[0]) == Some(d),
            parse_usize(t[1]) == Some(n),
            dd == d * d,
            n < dd,
            m == dd - 1 - n,
            2 + 2 * n + m <= nt,
            rs@ == Seq::new(n as nat, |q: int| (token_value(t[2 + 2 * q]), token_value(t[3 + 2 * q]))),
            i <= m,
            ts@ == Seq::new(i as nat, |q: int| token_value(t[2 + 2 * n + q])),
            forall|k: int| 0 <= k < 2 * n + i ==> #[trigger] parse_usize(t[2 + k]) is Some,
        decreases m - i,
    {
        let a = toks[2 + 2 * n + i];
        let x = match parse_usize_at(&cs, a.0, a.1) {
            Some(v) => v,
            None => {
                proof {
                    assert(parse_usize(t[2 + (2 * n + i) as int]) is None);
                }
                return None;
            },
        };
        ts.push(x);
        proof {
            assert(parse_usize(t[2 + (2 * n + i) as int]) is Some);
            assert(ts@ =~= Seq::new((i + 1) as nat, |q: int| token_value(t[2 + 2 * n + q])));
        }
        i += 1;
    }
    Some(Input { D: d, rs, ts })
}

/// Reads an instance from its text, which must hold one (see `try_parse_input`).
pub fn parse_input(f: &str) -> (r: Input)
    requires
        read_input(tokens(f@)) is Some,
    ensures
        read_input(tokens(f@)) == Some(input_model(r)),
{
    try_parse_input(f).unwrap()
}

} // verus!
