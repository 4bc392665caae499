//! Reading a contestant's answer: one action `i j` per line, with comment lines
//! starting with `#` attached to the action that follows them.

use vstd::prelude::*;

use crate::input::Input;
use crate::text::{
    chars_of, copy_range, decimal, is_space, is_space_char, lemma_line_len_exact, lemma_strip_hashes_exact,
    lemma_trim_end_exact, lemma_trim_start_exact, lines, parse_usize, parse_usize_at,
    push_decimal, string_from_chars, strip_hashes, token_ranges, tokens, trim,
};

verus! {

/// A contestant's answer.
pub struct Output {
    /// The actions, as squares `(row, column)`.
    pub actions: Vec<(usize, usize)>,
    /// For each action, the comment lines that came before it (after the previous
    /// action), with the leading `#`s removed and each followed by `'\n'`.
    pub comments: Vec<String>,
}

/// The text of a `Result` whose error is a `String`.
pub open spec fn result_text(r: Result<usize, String>) -> Result<usize, Seq<char>> {
    match r {
        Ok(x) => Ok(x),
        Err(s) => Err(s@),
    }
}

/// What `read` gives for a token: its number when it reads as one within
/// `lb..=ub`, otherwise the message that says why not.
pub open spec fn read_result(token: Option<Seq<char>>, lb: usize, ub: usize) -> Result<
    usize,
    Seq<char>,
> {
    match token {
        None => Err("Unexpected EOF"@),
        Some(v) => match parse_usize(v) {
            Some(x) => if x < lb || ub < x {
                Err("Out of range: "@ + decimal(x as nat))
            } else {
                Ok(x)
            },
            None => Err("Parse error: "@ + v),
        },
    }
}

/// Reads the characters `cs[t.0..t.1]` of token `t`, if there is one (see `read_result`).
pub fn read_chars(cs: &Vec<char>, tok: Option<(usize, usize)>, lb: usize, ub: usize) -> (r: Result<
    usize,
    String,
>)
    requires
        tok matches Some(t) ==> t.0 <= t.1 <= cs@.len(),
    ensures
        result_text(r) == read_result(
            match tok {
                Some(t) => Some(cs@.subrange(t.0 as int, t.1 as int)),
                None => None,
            },
            lb,
            ub,
        ),
{
    match tok {
        None => Err(String::from_str("Unexpected EOF")),
        Some((a, b)) => match parse_usize_at(cs, a, b) {
            Some(x) => {
                if x < lb || ub < x {
                    let mut s = String::from_str("Out of range: ");
                    push_decimal(&mut s, x);
                    Err(s)
                } else {
                    Ok(x)
                }
            },
            None => {
                let mut s = String::from_str("Parse error: ");
                let t = string_from_chars(copy_range(cs, a, b));
                s.append(t.as_str());
                Err(s)
            },
        },
    }
}

/// Reads a number within `lb..=ub` from `token` (see `read_result`).
pub fn read(token: Option<&str>, lb: usize, ub: usize) -> (r: Result<usize, String>)
    ensures
        result_text(r) == read_result(
            match token {
                Some(t) => Some(t@),
                None => None,
            },
            lb,
            ub,
        ),
{
    match token {
        None => read_chars(&Vec::new(), None, lb, ub),
        Some(v) => {
            let cs = chars_of(v);
            proof {
                assert(cs@.subrange(0, cs@.len() as int) =~= v@);
            }
            read_chars(&cs, Some((0, cs.len())), lb, ub)
        },
    }
}

/// What has been read of an answer so far.
pub struct AnswerSoFar {
    /// The actions read.
    pub actions: Seq<(usize, usize)>,
    /// The comments of the actions read.
    pub comments: Seq<Seq<char>>,
    /// The comment lines read since the last action.
    pub comment: Seq<char>,
}

/// The `i`-th token, if there is one.
pub open spec fn token_at(t: Seq<Seq<char>>, i: int) -> Option<Seq<char>> {
    if 0 <= i < t.len() {
        Some(t[i])
    } else {
        None
    }
}

/// Reads one line of an answer.
pub open spec fn scan_line(d: usize, st: AnswerSoFar, line: Seq<char>) -> Result<
    AnswerSoFar,
    Seq<char>,
> {
    let v = trim(line);
    if v.len() == 0 {
        Ok(st)
    } else if v[0] == '#' {
        Ok(
            AnswerSoFar {
                actions: st.actions,
                comments: st.comments,
                comment: st.comment + strip_hashes(v) + seq!['\n'],
            },
        )
    } else {
        let t = tokens(v);
        match read_result(token_at(t, 0), 0, d) {
            Err(e) => Err(e),
            Ok(x) => match read_result(token_at(t, 1), 0, d) {
                Err(e) => Err(e),
                Ok(y) => if t.len() > 2 {
                    Err("Illegal output: "@ + v)
                } else {
                    Ok(
                        AnswerSoFar {
                            actions: st.actions.push((x, y)),
                            comments: st.comments.push(st.comment),
                            comment: seq![],
                        },
                    )
                },
            },
        }
    }
}

/// Reads the first `k` lines of an answer.
pub open spec fn scan_lines(d: usize, ls: Seq<Seq<char>>, k: nat) -> Result<AnswerSoFar, Seq<char>>
    decreases k,
{
    if k == 0 {
        Ok(AnswerSoFar { actions: seq![], comments: seq![], comment: seq![] })
    } else {
        match scan_lines(d, ls, (k - 1) as nat) {
            Ok(st) => scan_line(d, st, ls[k - 1]),
            Err(e) => Err(e),
        }
    }
}

/// Reads an answer for a yard of `d x d` squares: every line is read in turn,
/// blank ones are skipped; then there may be at most `2 * (d * d - 1)` actions.
pub open spec fn parse_output_result(d: usize, text: Seq<char>) -> Result<
    (Seq<(usize, usize)>, Seq<Seq<char>>),
    Seq<char>,
> {
    let ls = lines(text);
    match scan_lines(d, ls, ls.len()) {
        Err(e) => Err(e),
        Ok(st) => if st.actions.len() > 2 * (d * d - 1) {
            Err("Too many output"@)
        } else {
            Ok((st.actions, st.comments))
        },
    }
}

/// Reading this answer is undefined: every line reads, but the action limit
/// `2 * (d * d - 1)` does not fit in a `usize`.
pub open spec fn parse_output_panics(d: usize, text: Seq<char>) -> bool {
    let ls = lines(text);
    &&& scan_lines(d, ls, ls.len()) is Ok
    &&& !(d >= 1 && 2 * (d * d - 1) <= usize::MAX)
}

proof fn lemma_lines_step(s: Seq<char>, p: int, e: int)
    requires
        0 <= p <= e <= s.len(),
        forall|k: int| p <= k < e ==> #[trigger] s[k] != '\n',
        e == s.len() || s[e] == '\n',
    ensures
        e == s.len() ==> lines(s.skip(p)) == seq![s.subrange(p, e)],
        e < s.len() ==> lines(s.skip(p)) == seq![s.subrange(p, e)] + lines(s.skip(e + 1)),
{
    let rest = s.skip(p);
    assert forall|k: int| 0 <= k < e - p implies #[trigger] rest[k] != '\n' by {
        assert(rest[k] == s[p + k]);
    }
    if e < s.len() {
        assert(rest[e - p] == s[e]);
    }
    lemma_line_len_exact(rest, e - p);
    assert(rest.take(e - p) =~= s.subrange(p, e));
    if e == s.len() {
        assert(rest =~= s.subrange(p, e));
    } else {
        assert(rest.skip(e - p + 1) =~= s.skip(e + 1));
    }
}

/// The answer text of one line, `cs[a..b]` after trimming.
fn trimmed_bounds(cs: &Vec<char>, p: usize, e: usize) -> (r: (usize, usize))
    requires
        p <= e <= cs@.len(),
    ensures
        p <= r.0 <= r.1 <= e,
        trim(cs@.subrange(p as int, e as int)) == cs@.subrange(r.0 as int, r.1 as int),
{
    let mut a = p;
    while a < e && is_space_char(cs[a])
        invariant
            p <= a <= e <= cs@.len(),
            forall|k: int| p <= k < a ==> is_space(#[trigger] cs@[k]),
        decreases e - a,
    {
        a += 1;
    }
    let mut b = e;
    while b > a && is_space_char(cs[b - 1])
        invariant
            p <= a <= b <= e <= cs@.len(),
            forall|k: int| b <= k < e ==> is_space(#[trigger] cs@[k]),
        decreases b - a,
    {
        b -= 1;
    }
    proof {
        let line = cs@.subrange(p as int, e as int);
        assert forall|i: int| 0 <= i < a - p implies is_space(#[trigger] line[i]) by {
            assert(line[i] == cs@[p + i]);
        }
        if a < e {
            assert(line[a - p] == cs@[a as int]);
        }
        lemma_trim_start_exact(line, a - p);
        let rest = cs@.subrange(a as int, e as int);
        assert(line.skip(a - p) =~= rest);
        assert forall|i: int| b - a <= i < rest.len() implies is_space(#[trigger] rest[i]) by {
            assert(rest[i] == cs@[a + i]);
        }
        if b > a {
            assert(rest[b - a - 1] == cs@[b - 1]);
        }
        lemma_trim_end_exact(rest, b - a);
        assert(rest.take(b - a) =~= cs@.subrange(a as int, b as int));
    }
    (a, b)
}

/// Reads one line `cs[p..e]` of an answer into `actions`, `comments` and
/// `comment` (see `scan_line`); `Err` with the message when the line is refused.
fn scan_line_exec(
    d: usize,
    cs: &Vec<char>,
    p: usize,
    e: usize,
    actions: &mut Vec<(usize, usize)>,
    comments: &mut Vec<String>,
    comment: &mut Vec<char>,
) -> (r: Result<(), String>)
    requires
        p <= e <= cs@.len(),
    ensures
        match scan_line(
            d,
            AnswerSoFar {
                actions: old(actions)@,
                comments: old(comments)@.map_values(|s: String| s@),
                comment: old(comment)@,
            },
            cs@.subrange(p as int, e as int),
        ) {
            Ok(st) => r is Ok && st == AnswerSoFar {
                actions: final(actions)@,
                comments: final(comments)@.map_values(|s: String| s@),
                comment: final(comment)@,
            },
            Err(m) => r matches Err(msg) && msg@ == m,
        },
{
    let ghost st = AnswerSoFar {
        actions: actions@,
        comments: comments@.map_values(|s: String| s@),
        comment: comment@,
    };
    let (a, b) = trimmed_bounds(cs, p, e);
    let ghost v = cs@.subrange(a as int, b as int);
    if a == b {
        return Ok(());
    }
    proof {
        assert(v[0] == cs@[a as int]);
    }
    if cs[a] == '#' {
        let mut h = a;
        while h < b && cs[h] == '#'
            invariant
                a <= h <= b <= cs@.len(),
                forall|k: int| a <= k < h ==> #[trigger] cs@[k] == '#',
            decreases b - h,
        {
            h += 1;
        }
        proof {
            assert forall|i: int| 0 <= i < h - a implies #[trigger] v[i] == '#' by {
                assert(v[i] == cs@[a + i]);
            }
            if h < b {
                assert(v[h - a] == cs@[h as int]);
            }
            lemma_strip_hashes_exact(v, h - a);
            assert(v.skip(h - a) =~= cs@.subrange(h as int, b as int));
        }
        let ghost c0 = comment@;
        let mut q = h;
        while q < b
            invariant
                h <= q <= b <= cs@.len(),
                comment@ == c0 + cs@.subrange(h as int, q as int),
            decreases b - q,
        {
            comment.push(cs[q]);
            proof {
                assert(comment@ =~= c0 + cs@.subrange(h as int, q + 1));
            }
            q += 1;
        }
        comment.push('\n');
        proof {
            assert(comment@ =~= c0 + strip_hashes(v) + seq!['\n']);
        }
        return Ok(());
    }
    let toks = token_ranges(cs, a, b);
    let t0 = if toks.len() > 0 {
        Some(toks[0])
    } else {
        None
    };
    let x = match read_chars(cs, t0, 0, d) {
        Ok(x) => x,
        Err(m) => {
            return Err(m);
        },
    };
    let t1 = if toks.len() > 1 {
        Some(toks[1])
    } else {
        None
    };
    let y = match read_chars(cs, t1, 0, d) {
        Ok(y) => y,
        Err(m) => {
            return Err(m);
        },
    };
    if toks.len() > 2 {
        let mut m = String::from_str("Illegal output: ");
        let line = string_from_chars(copy_range(cs, a, b));
        m.append(line.as_str());
        return Err(m);
    }
    let ghost cm = comments@;
    actions.push((x, y));
    let c = string_from_chars(copy_range(comment, 0, comment.len()));
    proof {
        assert(comment@.subrange(0, comment@.len() as int) =~= comment@);
    }
    comments.push(c);
    *comment = Vec::new();
    proof {
        assert(comments@.map_values(|s: String| s@) =~= cm.map_values(|s: String| s@).push(
            st.comment,
        ));
    }
    Ok(())
}

/// Reads an answer `f` for `input` (see `parse_output_result`).
pub fn parse_output(input: &Input, f: &str) -> (r: Result<Output, String>)
    requires
        !parse_output_panics(input.D, f@),
    ensures
        match parse_output_result(input.D, f@) {
            Ok((acts, coms)) => r matches Ok(o) && o.actions@ == acts && o.comments@.map_values(
                |s: String| s@,
            ) == coms,
            Err(m) => r matches Err(msg) && msg@ == m,
        },
{
    let cs = chars_of(f);
    let n = cs.len();
    let ghost ls = lines(cs@);
    let mut actions: Vec<(usize, usize)> = Vec::new();
    let mut comments: Vec<String> = Vec::new();
    let mut comment: Vec<char> = Vec::new();
    let mut p: usize = 0;
    let mut done = false;
    let ghost mut cnt: nat = 0;
    proof {
        assert(cs@.skip(0) =~= cs@);
        assert(ls.skip(0) =~= ls);
        assert(comments@.map_values(|s: String| s@) =~= Seq::<Seq<char>>::empty());
    }
    while !done
        invariant
            n == cs@.len(),
            cs@ == f@,
            ls == lines(cs@),
            p <= n,
            cnt <= ls.len(),
            !done ==> lines(cs@.skip(p as int)) == ls.skip(cnt as int),
            done ==> cnt == ls.len(),
            scan_lines(input.D, ls, cnt) == Ok::<AnswerSoFar, Seq<char>>(
                AnswerSoFar {
                    actions: actions@,
                    comments: comments@.map_values(|s: String| s@),
                    comment: comment@,
                },
            ),
        decreases (if done {
            0
        } else {
            n - p + 1
        }),
    {
        let mut e = p;
        while e < n && cs[e] != '\n'
            invariant
                p <= e <= n == cs@.len(),
                forall|k: int| p <= k < e ==> #[trigger] cs@[k] != '\n',
            decreases n - e,
        {
            e += 1;
        }
        proof {
            lemma_lines_step(cs@, p as int, e as int);
            assert(ls.skip(cnt as int).len() >= 1);
            assert(ls[cnt as int] == ls.skip(cnt as int)[0]);
            assert(ls[cnt as int] == cs@.subrange(p as int, e as int));
        }
        match scan_line_exec(input.D, &cs, p, e, &mut actions, &mut comments, &mut comment) {
            Ok(()) => {},
            Err(m) => {
                proof {
                    lemma_scan_settled(input.D, ls, cnt + 1, ls.len());
                }
                return Err(m);
            },
        }
        proof {
            cnt = cnt + 1;
        }
        if e == n {
            proof {
                assert(ls.skip((cnt - 1) as int).len() == 1);
            }
            done = true;
        } else {
            proof {
                assert(ls.skip(cnt as int) =~= ls.skip((cnt - 1) as int).skip(1));
                assert(seq![cs@.subrange(p as int, e as int)] + lines(cs@.skip(e + 1)) == ls.skip(
                    (cnt - 1) as int,
                ));
                assert((seq![cs@.subrange(p as int, e as int)] + lines(cs@.skip(e + 1))).skip(1)
                    =~= lines(cs@.skip(e + 1)));
            }
            p = e + 1;
        }
    }
    proof {
        assert(scan_lines(input.D, ls, ls.len()) is Ok);
        assert(input.D >= 1 && 2 * (input.D * input.D - 1) <= usize::MAX);
        assert(input.D * input.D >= 1) by (nonlinear_arith)
            requires
                input.D >= 1,
        ;
    }
    if actions.len() > 2 * (input.D * input.D - 1) {
        return Err(String::from_str("Too many output"));
    }
    Ok(Output { actions, comments })
}

proof fn lemma_scan_settled(d: usize, ls: Seq<Seq<char>>, k: nat, n: nat)
    requires
        k <= n,
        scan_lines(d, ls, k) is Err,
    ensures
        scan_lines(d, ls, n) == scan_lines(d, ls, k),
    decreases n - k,
{
    if k < n {
        lemma_scan_settled(d, ls, k, (n - 1) as nat);
    }
}

/// Lines after the first `k` have no say in what reading the first `k` gives.
proof fn lemma_scan_prefix(d: usize, ls: Seq<Seq<char>>, more: Seq<Seq<char>>, k: nat)
    requires
        k <= ls.len(),
    ensures
        scan_lines(d, ls + more, k) == scan_lines(d, ls, k),
    decreases k,
{
    if k > 0 {
        lemma_scan_prefix(d, ls, more, (k - 1) as nat);
        assert((ls + more)[k - 1] == ls[k - 1]);
    }
}

/// The text that a comment line adds to the comment of the next action: the
/// line without its leading `#`s, then `'\n'`.
pub open spec fn comment_piece(line: Seq<char>) -> Seq<char> {
    strip_hashes(trim(line)) + seq!['\n']
}

/// Comment lines pile up: after reading comment lines `cs` (lines that start
/// with `#` once trimmed), the comment waiting for the next action is what
/// waited before followed by every one of them, in order, each without its
/// leading `#`s and followed by `'\n'`; the actions and their comments are
/// unchanged.
pub proof fn lemma_comment_lines_gathered(d: usize, ls: Seq<Seq<char>>, cs: Seq<Seq<char>>)
    requires
        forall|q: int| 0 <= q < cs.len() ==> trim(#[trigger] cs[q]).len() > 0 && trim(cs[q])[0] == '#',
    ensures
        scan_lines(d, ls, ls.len()) matches Ok(st) ==> scan_lines(d, ls + cs, (ls + cs).len()) == Ok::<
            AnswerSoFar,
            Seq<char>,
        >(
            AnswerSoFar {
                actions: st.actions,
                comments: st.comments,
                comment: st.comment + cs.map_values(|l: Seq<char>| comment_piece(l)).flatten(),
            },
        ),
    decreases cs.len(),
{
    if cs.len() == 0 {
        assert(ls + cs =~= ls);
        assert(cs.map_values(|l: Seq<char>| comment_piece(l)) =~= Seq::<Seq<char>>::empty());
        if scan_lines(d, ls, ls.len()) is Ok {
            let st = scan_lines(d, ls, ls.len())->Ok_0;
            assert(st.comment + Seq::<Seq<char>>::empty().flatten() =~= st.comment);
        }
    } else {
        let front = cs.drop_last();
        let v = cs.last();
        assert forall|q: int| 0 <= q < front.len() implies trim(#[trigger] front[q]).len() > 0 && trim(
            front[q],
        )[0] == '#' by {
            assert(front[q] == cs[q]);
        }
        assert(trim(cs[cs.len() - 1]).len() > 0);
        lemma_comment_lines_gathered(d, ls, front);
        let all = ls + cs;
        assert(all =~= (ls + front).push(v));
        lemma_scan_prefix(d, ls + front, seq![v], (ls + front).len());
        assert((ls + front) + seq![v] =~= all);
        assert(all[all.len() - 1] == v);
        let pieces = cs.map_values(|l: Seq<char>| comment_piece(l));
        let front_pieces = front.map_values(|l: Seq<char>| comment_piece(l));
        assert(pieces =~= front_pieces.push(comment_piece(v)));
        front_pieces.lemma_flatten_push(comment_piece(v));
        if scan_lines(d, ls, ls.len()) is Ok {
            let st = scan_lines(d, ls, ls.len())->Ok_0;
            let st1 = scan_lines(d, ls + front, (ls + front).len())->Ok_0;
            assert(scan_lines(d, all, (all.len() - 1) as nat) == scan_lines(d, ls + front, (ls + front).len()));
            assert(scan_lines(d, all, all.len()) == scan_line(d, st1, v));
            assert(st1.comment + strip_hashes(trim(v)) + seq!['\n'] =~= st.comment + pieces.flatten());
        }
    }
}

/// An action line hands over the comment that waited for it: the action gets
/// that comment, and the next action starts with none.
pub proof fn lemma_action_takes_comment(d: usize, ls: Seq<Seq<char>>, w: Seq<char>)
    ensures
        scan_lines(d, ls, ls.len()) matches Ok(st) ==> (scan_lines(d, ls.push(w), ls.len() + 1) matches Ok(
            st2,
        ) ==> (st2.actions.len() > st.actions.len() ==> {
            &&& st2.actions.len() == st.actions.len() + 1
            &&& st2.comments == st.comments.push(st.comment)
            &&& st2.comment.len() == 0
        })),
{
    lemma_scan_prefix(d, ls, seq![w], ls.len());
    assert(ls + seq![w] =~= ls.push(w));
    assert(ls.push(w)[ls.len() as int] == w);
}

/// The action limit: an answer whose every line reads is accepted exactly when
/// it has at most `2 * (d * d - 1)` actions, and then its actions and comments
/// are those read.
pub proof fn lemma_action_limit(d: usize, text: Seq<char>)
    ensures
        scan_lines(d, lines(text), lines(text).len()) matches Ok(st) ==> {
            &&& (parse_output_result(d, text) is Ok <==> st.actions.len() <= 2 * (d * d - 1))
            &&& st.actions.len() <= 2 * (d * d - 1) ==> parse_output_result(d, text) == Ok::<
                (Seq<(usize, usize)>, Seq<Seq<char>>),
                Seq<char>,
            >((st.actions, st.comments))
        },
        scan_lines(d, lines(text), lines(text).len()) matches Err(e) ==> parse_output_result(d, text)
            == Err::<(Seq<(usize, usize)>, Seq<Seq<char>>), Seq<char>>(e),
{
}

/// Each line read keeps one comment per action and every square within `0..=d`.
proof fn lemma_scan_shape(d: usize, ls: Seq<Seq<char>>, k: nat)
    ensures
        scan_lines(d, ls, k) matches Ok(st) ==> st.actions.len() == st.comments.len() && forall|q: int|
            0 <= q < st.actions.len() ==> #[trigger] st.actions[q].0 <= d && st.actions[q].1 <= d,
    decreases k,
{
    if k > 0 {
        lemma_scan_shape(d, ls, (k - 1) as nat);
    }
}

/// An answer that reads has one comment per action, every square within
/// `0..=D`, and at most `2 * (D * D - 1)` actions.
pub proof fn lemma_answer_shape(d: usize, text: Seq<char>)
    ensures
        parse_output_result(d, text) matches Ok((acts, coms)) ==> {
            &&& acts.len() == coms.len()
            &&& acts.len() <= 2 * (d * d - 1)
            &&& forall|q: int| 0 <= q < acts.len() ==> #[trigger] acts[q].0 <= d && acts[q].1 <= d
        },
{
    lemma_scan_shape(d, lines(text), lines(text).len());
}

} // verus!
