//! Text in the tools' files: decimal numbers, white space, tokens, lines.

use vstd::prelude::*;

verus! {

/// The decimal digits, in order.
pub open spec fn digit_chars() -> Seq<char> {
    seq!['0', '1', '2', '3', '4', '5', '6', '7', '8', '9']
}

/// The decimal representation of `n`, without sign or leading zeros.
pub open spec fn decimal(n: nat) -> Seq<char>
    decreases n,
{
    if n < 10 {
        seq![digit_chars()[n as int]]
    } else {
        decimal(n / 10) + seq![digit_chars()[(n % 10) as int]]
    }
}

/// `c` is an ASCII decimal digit.
pub open spec fn is_digit(c: char) -> bool {
    '0' <= c && c <= '9'
}

/// The value of the ASCII digit `c`.
pub open spec fn digit_value(c: char) -> nat {
    (c as int - '0' as int) as nat
}

/// The value of a run of ASCII digits.
pub open spec fn digits_value(s: Seq<char>) -> nat
    decreases s.len(),
{
    if s.len() == 0 {
        0
    } else {
        digits_value(s.drop_last()) * 10 + digit_value(s.last())
    }
}

/// Every character of `s` is an ASCII digit.
pub open spec fn all_digits(s: Seq<char>) -> bool {
    forall|k: int| 0 <= k < s.len() ==> is_digit(#[trigger] s[k])
}

/// The number that `str::parse::<usize>` reads from `s`: an optional `+`, then one
/// or more ASCII digits, whose value fits in a `usize`; `None` for anything else.
pub open spec fn parse_usize(s: Seq<char>) -> Option<usize> {
    let body = if s.len() > 0 && s[0] == '+' {
        s.drop_first()
    } else {
        s
    };
    if body.len() > 0 && all_digits(body) && digits_value(body) <= usize::MAX {
        Some(digits_value(body) as usize)
    } else {
        None
    }
}

/// `c` has the Unicode `White_Space` property, as `char::is_whitespace` checks.
pub open spec fn is_space(c: char) -> bool {
    ||| '\t' <= c && c <= '\r'
    ||| c == ' '
    ||| c == '\u{85}'
    ||| c == '\u{a0}'
    ||| c == '\u{1680}'
    ||| '\u{2000}' <= c && c <= '\u{200a}'
    ||| c == '\u{2028}'
    ||| c == '\u{2029}'
    ||| c == '\u{202f}'
    ||| c == '\u{205f}'
    ||| c == '\u{3000}'
}

/// No character of `s` is white space.
pub open spec fn no_space(s: Seq<char>) -> bool {
    forall|k: int| 0 <= k < s.len() ==> !is_space(#[trigger] s[k])
}

/// Length of the run of non-space characters at the start of `s`.
pub open spec fn token_len(s: Seq<char>) -> nat
    decreases s.len(),
{
    if s.len() == 0 || is_space(s[0]) {
        0
    } else {
        1 + token_len(s.drop_first())
    }
}

/// The maximal runs of non-space characters of `s`, in order, as
/// `str::split_whitespace` yields them.
pub open spec fn tokens(s: Seq<char>) -> Seq<Seq<char>>
    decreases s.len(),
{
    if s.len() == 0 {
        seq![]
    } else if is_space(s[0]) {
        tokens(s.drop_first())
    } else {
        let e = token_len(s);
        proof {
            lemma_token_len(s);
        }
        seq![s.take(e as int)] + tokens(s.skip(e as int))
    }
}

/// `s` with its leading white space removed.
pub open spec fn trim_start(s: Seq<char>) -> Seq<char>
    decreases s.len(),
{
    if s.len() > 0 && is_space(s[0]) {
        trim_start(s.drop_first())
    } else {
        s
    }
}

/// `s` with its trailing white space removed.
pub open spec fn trim_end(s: Seq<char>) -> Seq<char>
    decreases s.len(),
{
    if s.len() > 0 && is_space(s.last()) {
        trim_end(s.drop_last())
    } else {
        s
    }
}

/// `s` with white space removed at both ends, as `str::trim` does.
pub open spec fn trim(s: Seq<char>) -> Seq<char> {
    trim_end(trim_start(s))
}

/// Length of the text before the first `'\n'` of `s` (all of it if there is none).
pub open spec fn line_len(s: Seq<char>) -> nat
    decreases s.len(),
{
    if s.len() == 0 || s[0] == '\n' {
        0
    } else {
        1 + line_len(s.drop_first())
    }
}

/// The pieces of `s` between its `'\n'` characters, in order. The last piece is
/// the text after the last `'\n'`, empty when `s` ends with one.
pub open spec fn lines(s: Seq<char>) -> Seq<Seq<char>>
    decreases s.len(),
{
    let e = line_len(s);
    proof {
        lemma_line_len(s);
    }
    if e >= s.len() {
        seq![s]
    } else {
        seq![s.take(e as int)] + lines(s.skip(e + 1 as int))
    }
}

pub proof fn lemma_token_len(s: Seq<char>)
    ensures
        token_len(s) <= s.len(),
        s.len() > 0 && !is_space(s[0]) ==> token_len(s) >= 1,
        no_space(s.take(token_len(s) as int)),
        token_len(s) < s.len() ==> is_space(s[token_len(s) as int]),
    decreases s.len(),
{
    if s.len() > 0 && !is_space(s[0]) {
        lemma_token_len(s.drop_first());
        let e = token_len(s.drop_first());
        assert forall|k: int| 0 <= k < token_len(s) implies !is_space(
            #[trigger] s.take(token_len(s) as int)[k],
        ) by {
            if k > 0 {
                assert(s.take(token_len(s) as int)[k] == s.drop_first().take(e as int)[k - 1]);
            }
        }
        if token_len(s) < s.len() {
            assert(s[token_len(s) as int] == s.drop_first()[e as int]);
        }
    }
}

pub proof fn lemma_line_len(s: Seq<char>)
    ensures
        line_len(s) <= s.len(),
        line_len(s) < s.len() ==> s[line_len(s) as int] == '\n',
        forall|k: int| 0 <= k < line_len(s) ==> #[trigger] s[k] != '\n',
    decreases s.len(),
{
    if s.len() > 0 && s[0] != '\n' {
        lemma_line_len(s.drop_first());
        assert forall|k: int| 0 <= k < line_len(s) implies #[trigger] s[k] != '\n' by {
            if k > 0 {
                assert(s[k] == s.drop_first()[k - 1]);
            }
        }
    }
}

pub proof fn lemma_token_len_exact(s: Seq<char>, e: int)
    requires
        0 <= e <= s.len(),
        no_space(s.take(e)),
        e == s.len() || is_space(s[e]),
    ensures
        token_len(s) == e,
    decreases e,
{
    if e > 0 {
        assert(!is_space(s.take(e)[0]));
        let t = s.drop_first();
        assert forall|k: int| 0 <= k < e - 1 implies !is_space(#[trigger] t.take(e - 1)[k]) by {
            assert(t.take(e - 1)[k] == s.take(e)[k + 1]);
        }
        if e < s.len() {
            assert(t[e - 1] == s[e]);
        }
        lemma_token_len_exact(t, e - 1);
    }
}

pub proof fn lemma_line_len_exact(s: Seq<char>, e: int)
    requires
        0 <= e <= s.len(),
        forall|k: int| 0 <= k < e ==> #[trigger] s[k] != '\n',
        e == s.len() || s[e] == '\n',
    ensures
        line_len(s) == e,
    decreases e,
{
    if e > 0 {
        assert(s[0] != '\n');
        let t = s.drop_first();
        assert forall|k: int| 0 <= k < e - 1 implies #[trigger] t[k] != '\n' by {
            assert(t[k] == s[k + 1]);
        }
        if e < s.len() {
            assert(t[e - 1] == s[e]);
        }
        lemma_line_len_exact(t, e - 1);
    }
}

/// Whether `c` is white space (see `is_space`).
pub fn is_space_char(c: char) -> (r: bool)
    ensures
        r == is_space(c),
{
    ('\t' <= c && c <= '\r') || c == ' ' || c == '\u{85}' || c == '\u{a0}' || c == '\u{1680}' || (
    '\u{2000}' <= c && c <= '\u{200a}') || c == '\u{2028}' || c == '\u{2029}' || c == '\u{202f}'
        || c == '\u{205f}' || c == '\u{3000}'
}

/// Reads `cs[a..b]` as `str::parse::<usize>` does.
pub fn parse_usize_at(cs: &Vec<char>, a: usize, b: usize) -> (r: Option<usize>)
    requires
        a <= b <= cs@.len(),
    ensures
        r == parse_usize(cs@.subrange(a as int, b as int)),
{
    let ghost s = cs@.subrange(a as int, b as int);
    let mut start = a;
    if a < b && cs[a] == '+' {
        start = a + 1;
    }
    let ghost body = cs@.subrange(start as int, b as int);
    proof {
        if a < b {
            assert(s[0] == cs@[a as int]);
        }
        if a < b && cs@[a as int] == '+' {
            assert(body =~= s.drop_first());
        } else {
            assert(body =~= s);
        }
    }
    if start == b {
        return None;
    }
    let mut value: usize = 0;
    let mut too_big = false;
    let mut k = start;
    while k < b
        invariant
            start <= k <= b <= cs@.len(),
            body == cs@.subrange(start as int, b as int),
            s == cs@.subrange(a as int, b as int),
            body == (if s.len() > 0 && s[0] == '+' {
                s.drop_first()
            } else {
                s
            }),
            all_digits(cs@.subrange(start as int, k as int)),
            !too_big ==> value == digits_value(cs@.subrange(start as int, k as int)),
            too_big ==> digits_value(cs@.subrange(start as int, k as int)) > usize::MAX,
        decreases b - k,
    {
        let c = cs[k];
        if !('0' <= c && c <= '9') {
            proof {
                assert(body[k - start] == c);
                assert(!is_digit(body[k - start]));
                assert(!all_digits(body));
            }
            return None;
        }
        let ghost pre = cs@.subrange(start as int, k as int);
        let ghost cur = cs@.subrange(start as int, k + 1);
        proof {
            assert(cur.drop_last() =~= pre);
            assert(cur.last() == c);
            assert forall|i: int| 0 <= i < cur.len() implies is_digit(#[trigger] cur[i]) by {
                if i < pre.len() {
                    assert(cur[i] == pre[i]);
                }
            }
        }
        let d = (c as u32 - '0' as u32) as usize;
        if !too_big {
            if value > (usize::MAX - d) / 10 {
                too_big = true;
                proof {
                    assert(value * 10 + d > usize::MAX) by (nonlinear_arith)
                        requires
                            value > (usize::MAX - d) / 10,
                            d <= 9,
                    ;
                }
            } else {
                proof {
                    assert(value * 10 + d <= usize::MAX) by (nonlinear_arith)
                        requires
                            value <= (usize::MAX - d) / 10,
                            d <= 9,
                    ;
                }
                value = value * 10 + d;
            }
        }
        k = k + 1;
    }
    proof {
        assert(cs@.subrange(start as int, b as int) =~= body);
    }
    if too_big {
        None
    } else {
        Some(value)
    }
}

/// The tokens of `cs[a..b]` (see `tokens`), each as the range of `cs` it spans.
pub fn token_ranges(cs: &Vec<char>, a: usize, b: usize) -> (r: Vec<(usize, usize)>)
    requires
        a <= b <= cs@.len(),
    ensures
        r@.len() == tokens(cs@.subrange(a as int, b as int)).len(),
        forall|k: int|
            0 <= k < r@.len() ==> a <= #[trigger] r@[k].0 <= r@[k].1 <= b && cs@.subrange(
                r@[k].0 as int,
                r@[k].1 as int,
            ) == tokens(cs@.subrange(a as int, b as int))[k],
{
    let mut r: Vec<(usize, usize)> = Vec::new();
    let mut i = a;
    while i < b
        invariant
            a <= i <= b <= cs@.len(),
            forall|k: int| 0 <= k < r@.len() ==> a <= #[trigger] r@[k].0 <= r@[k].1 <= b,
            r@.map_values(|p: (usize, usize)| cs@.subrange(p.0 as int, p.1 as int)) + tokens(
                cs@.subrange(i as int, b as int),
            ) == tokens(cs@.subrange(a as int, b as int)),
        decreases b - i,
    {
        let ghost rest = cs@.subrange(i as int, b as int);
        let ghost before = r@.map_values(|p: (usize, usize)| cs@.subrange(p.0 as int, p.1 as int));
        if is_space_char(cs[i]) {
            proof {
                assert(rest[0] == cs@[i as int]);
                assert(rest.drop_first() =~= cs@.subrange(i + 1, b as int));
            }
            i = i + 1;
        } else {
            let mut j = i;
            while j < b && !is_space_char(cs[j])
                invariant
                    i <= j <= b <= cs@.len(),
                    forall|k: int| i <= k < j ==> !is_space(#[trigger] cs@[k]),
                decreases b - j,
            {
                j = j + 1;
            }
            proof {
                assert forall|k: int| 0 <= k < j - i implies !is_space(
                    #[trigger] rest.take(j - i)[k],
                ) by {
                    assert(rest.take(j - i)[k] == cs@[i + k]);
                }
                if j < b {
                    assert(rest[j - i] == cs@[j as int]);
                }
                lemma_token_len_exact(rest, j - i);
                assert(rest[0] == cs@[i as int]);
                assert(rest.take(j - i) =~= cs@.subrange(i as int, j as int));
                assert(rest.skip(j - i) =~= cs@.subrange(j as int, b as int));
            }
            r.push((i, j));
            proof {
                let after = r@.map_values(|p: (usize, usize)| cs@.subrange(p.0 as int, p.1 as int));
                assert(after =~= before.push(cs@.subrange(i as int, j as int)));
                assert(after + tokens(cs@.subrange(j as int, b as int)) =~= before + tokens(rest));
            }
            i = j;
        }
    }
    proof {
        let whole = tokens(cs@.subrange(a as int, b as int));
        let got = r@.map_values(|p: (usize, usize)| cs@.subrange(p.0 as int, p.1 as int));
        assert(cs@.subrange(b as int, b as int).len() == 0);
        assert(got =~= whole);
        assert forall|k: int| 0 <= k < r@.len() implies cs@.subrange(
            #[trigger] r@[k].0 as int,
            r@[k].1 as int,
        ) == whole[k] by {
            assert(got[k] == whole[k]);
        }
    }
    r
}

/// `s` with its leading `'#'` characters removed, as `trim_start_matches("#")`.
pub open spec fn strip_hashes(s: Seq<char>) -> Seq<char>
    decreases s.len(),
{
    if s.len() > 0 && s[0] == '#' {
        strip_hashes(s.drop_first())
    } else {
        s
    }
}

pub proof fn lemma_trim_start_exact(s: Seq<char>, k: int)
    requires
        0 <= k <= s.len(),
        forall|i: int| 0 <= i < k ==> is_space(#[trigger] s[i]),
        k == s.len() || !is_space(s[k]),
    ensures
        trim_start(s) == s.skip(k),
    decreases k,
{
    if k > 0 {
        let t = s.drop_first();
        assert(is_space(s[0]));
        assert forall|i: int| 0 <= i < k - 1 implies is_space(#[trigger] t[i]) by {
            assert(t[i] == s[i + 1]);
        }
        if k < s.len() {
            assert(t[k - 1] == s[k]);
        }
        lemma_trim_start_exact(t, k - 1);
        assert(t.skip(k - 1) =~= s.skip(k));
    } else {
        assert(s.skip(0) =~= s);
    }
}

pub proof fn lemma_trim_end_exact(s: Seq<char>, k: int)
    requires
        0 <= k <= s.len(),
        forall|i: int| k <= i < s.len() ==> is_space(#[trigger] s[i]),
        k == 0 || !is_space(s[k - 1]),
    ensures
        trim_end(s) == s.take(k),
    decreases s.len() - k,
{
    if k < s.len() {
        let t = s.drop_last();
        assert(is_space(s[s.len() - 1]));
        assert forall|i: int| k <= i < t.len() implies is_space(#[trigger] t[i]) by {
            assert(t[i] == s[i]);
        }
        if k > 0 {
            assert(t[k - 1] == s[k - 1]);
        }
        lemma_trim_end_exact(t, k);
        assert(t.take(k) =~= s.take(k));
    } else {
        assert(s.take(s.len() as int) =~= s);
    }
}

pub proof fn lemma_strip_hashes_exact(s: Seq<char>, k: int)
    requires
        0 <= k <= s.len(),
        forall|i: int| 0 <= i < k ==> #[trigger] s[i] == '#',
        k == s.len() || s[k] != '#',
    ensures
        strip_hashes(s) == s.skip(k),
    decreases k,
{
    if k > 0 {
        let t = s.drop_first();
        assert(s[0] == '#');
        assert forall|i: int| 0 <= i < k - 1 implies #[trigger] t[i] == '#' by {
            assert(t[i] == s[i + 1]);
        }
        if k < s.len() {
            assert(t[k - 1] == s[k]);
        }
        lemma_strip_hashes_exact(t, k - 1);
        assert(t.skip(k - 1) =~= s.skip(k));
    } else {
        assert(s.skip(0) =~= s);
    }
}

/// A decimal representation is a non-empty run of digits without white space
/// that reads back as its number.
pub proof fn lemma_decimal(n: nat)
    ensures
        decimal(n).len() >= 1,
        all_digits(decimal(n)),
        no_space(decimal(n)),
        digits_value(decimal(n)) == n,
        decimal(n)[0] != '+',
    decreases n,
{
    let dc = digit_chars();
    assert(forall|r: int| 0 <= r < 10 ==> is_digit(#[trigger] dc[r]) && !is_space(dc[r]) && digit_value(dc[r]) == r && dc[r] != '+') by {
        assert(dc[0] == '0' && dc[1] == '1' && dc[2] == '2' && dc[3] == '3' && dc[4] == '4');
        assert(dc[5] == '5' && dc[6] == '6' && dc[7] == '7' && dc[8] == '8' && dc[9] == '9');
    }
    if n < 10 {
        assert(decimal(n) =~= seq![dc[n as int]]);
        assert(decimal(n).drop_last() =~= Seq::<char>::empty());
        assert(digits_value(Seq::<char>::empty()) == 0);
        assert(decimal(n).last() == dc[n as int]);
    } else {
        lemma_decimal(n / 10);
        let s = decimal(n);
        let p = decimal(n / 10);
        assert(s =~= p + seq![dc[(n % 10) as int]]);
        assert(s.drop_last() =~= p);
        assert(s.last() == dc[(n % 10) as int]);
        assert(digits_value(s) == digits_value(p) * 10 + digit_value(dc[(n % 10) as int]));
        assert(s[0] == p[0]);
        assert forall|k: int| 0 <= k < s.len() implies is_digit(#[trigger] s[k]) && !is_space(s[k]) by {
            if k < p.len() {
                assert(s[k] == p[k]);
            }
        }
    }
}

/// The text of a number reads back as that number.
pub proof fn lemma_parse_decimal(x: usize)
    ensures
        parse_usize(decimal(x as nat)) == Some(x),
{
    lemma_decimal(x as nat);
}

/// A word followed by a white-space character and more text splits into that
/// word and the tokens of the rest.
pub proof fn lemma_tokens_word(w: Seq<char>, c: char, rest: Seq<char>)
    requires
        w.len() >= 1,
        no_space(w),
        is_space(c),
    ensures
        tokens(w + seq![c] + rest) == seq![w] + tokens(rest),
{
    let s = w + seq![c] + rest;
    let e = w.len() as int;
    assert(s.take(e) =~= w);
    assert(s[e] == c);
    lemma_token_len_exact(s, e);
    assert(s[0] == w[0]);
    assert(!is_space(w[0]));
    assert(tokens(s) == seq![s.take(e)] + tokens(s.skip(e)));
    let tail = seq![c] + rest;
    assert(s.skip(e) =~= tail);
    assert(tail[0] == c);
    assert(tail.drop_first() =~= rest);
    assert(tokens(tail) == tokens(tail.drop_first()));
}

/// The one-character text of digit `d`.
fn digit_str(d: usize) -> (r: &'static str)
    requires
        d < 10,
    ensures
        r@ == seq![digit_chars()[d as int]],
{
    proof {
        reveal_strlit("0");
        reveal_strlit("1");
        reveal_strlit("2");
        reveal_strlit("3");
        reveal_strlit("4");
        reveal_strlit("5");
        reveal_strlit("6");
        reveal_strlit("7");
        reveal_strlit("8");
        reveal_strlit("9");
    }
    if d == 0 {
        "0"
    } else if d == 1 {
        "1"
    } else if d == 2 {
        "2"
    } else if d == 3 {
        "3"
    } else if d == 4 {
        "4"
    } else if d == 5 {
        "5"
    } else if d == 6 {
        "6"
    } else if d == 7 {
        "7"
    } else if d == 8 {
        "8"
    } else {
        "9"
    }
}

/// Appends the decimal representation of `n` to `s`.
pub fn push_decimal(s: &mut String, n: usize)
    ensures
        final(s)@ == old(s)@ + decimal(n as nat),
    decreases n,
{
    if n >= 10 {
        push_decimal(s, n / 10);
    }
    s.append(digit_str(n % 10));
    proof {
        assert(final(s)@ =~= old(s)@ + decimal(n as nat));
    }
}

/// The characters of `s`, in order.
pub fn chars_of(s: &str) -> (r: Vec<char>)
    ensures
        r@ == s@,
{
    let mut r: Vec<char> = Vec::new();
    for c in it: s.chars()
        invariant
            r@ == it.seq().take(it.index() as int),
    {
        r.push(c);
    }
    r
}

/// The characters `cs[a..b]`, as a vector of their own.
pub fn copy_range(cs: &Vec<char>, a: usize, b: usize) -> (r: Vec<char>)
    requires
        a <= b <= cs@.len(),
    ensures
        r@ == cs@.subrange(a as int, b as int),
{
    let mut r: Vec<char> = Vec::new();
    let mut k = a;
    while k < b
        invariant
            a <= k <= b <= cs@.len(),
            r@ == cs@.subrange(a as int, k as int),
        decreases b - k,
    {
        r.push(cs[k]);
        proof {
            assert(r@ =~= cs@.subrange(a as int, k + 1));
        }
        k += 1;
    }
    r
}

/// The text made of the characters `cs`.
///
/// Trusted: calls std's `String::from_iter` on the characters, which yields
/// exactly those characters in order.
#[verifier::external_body]
pub(crate) fn string_from_chars(cs: Vec<char>) -> (r: String)
    ensures
        r@ == cs@,
{
    String::from_iter(cs)
}

} // verus!
