//! Carrying out a sequence of actions on a problem instance and scoring it.
//!
//! The first `D * D - 1 - rs.len()` actions put the containers, in the order of
//! `ts`, onto the squares they name; every later action takes the container off
//! the square it names. A square can only be used if it can be walked to from the
//! entrance over empty squares. The score counts how far the order in which the
//! containers were taken out is from sorted.

use vstd::multiset::Multiset;
use vstd::prelude::*;

use crate::grid::{accessible, cell_index, reachable, EMPTY, OBSTACLE};
use crate::input::Input;
use crate::text::{decimal, push_decimal};

verus! {

/// Why an action was refused, with the square it named; or, at the end, that not
/// every container was taken out.
#[derive(Clone, Copy, Debug, PartialEq, Eq, Structural)]
pub enum ScoreError {
    /// A container was to be put on the entrance.
    Entrance(usize, usize),
    /// A container was to be put on an obstacle.
    Obstacle(usize, usize),
    /// A container was to be put on a square that already holds one.
    Occupied(usize, usize),
    /// The square cannot be walked to from the entrance.
    Unreachable(usize, usize),
    /// A container was to be taken from a square that holds none.
    NoContainer(usize, usize),
    /// Some containers were never taken out.
    Remaining,
}

/// `(i, j)`, as the messages write a square.
pub open spec fn square_text(i: usize, j: usize) -> Seq<char> {
    "("@ + decimal(i as nat) + ", "@ + decimal(j as nat) + ")"@
}

/// The message for an error.
pub open spec fn error_text(e: ScoreError) -> Seq<char> {
    match e {
        ScoreError::Entrance(i, j) => "You cannot put containers on the entrance "@ + square_text(i, j),
        ScoreError::Obstacle(i, j) => square_text(i, j) + " contains an obstacle"@,
        ScoreError::Occupied(i, j) => square_text(i, j) + " already contains a container"@,
        ScoreError::Unreachable(i, j) => square_text(i, j) + " is not reachalbe"@,
        ScoreError::NoContainer(i, j) => square_text(i, j) + " does not contain a container"@,
        ScoreError::Remaining => "Containers are still remaining."@,
    }
}

fn push_square(s: &mut String, i: usize, j: usize)
    ensures
        final(s)@ == old(s)@ + square_text(i, j),
{
    s.append("(");
    push_decimal(s, i);
    s.append(", ");
    push_decimal(s, j);
    s.append(")");
    proof {
        assert(final(s)@ =~= old(s)@ + square_text(i, j));
    }
}

impl ScoreError {
    /// The message for this error.
    pub fn message(&self) -> (r: String)
        ensures
            r@ == error_text(*self),
    {
        let mut s = String::new();
        match *self {
            ScoreError::Entrance(i, j) => {
                s.append("You cannot put containers on the entrance ");
                push_square(&mut s, i, j);
            },
            ScoreError::Obstacle(i, j) => {
                push_square(&mut s, i, j);
                s.append(" contains an obstacle");
            },
            ScoreError::Occupied(i, j) => {
                push_square(&mut s, i, j);
                s.append(" already contains a container");
            },
            ScoreError::Unreachable(i, j) => {
                push_square(&mut s, i, j);
                s.append(" is not reachalbe");
            },
            ScoreError::NoContainer(i, j) => {
                push_square(&mut s, i, j);
                s.append(" does not contain a container");
            },
            ScoreError::Remaining => {
                s.append("Containers are still remaining.");
            },
        }
        proof {
            assert(s@ =~= error_text(*self));
        }
        s
    }
}

/// The state of the yard while the actions are carried out.
pub struct Yard {
    /// Square contents, row by row: `EMPTY`, `OBSTACLE` or a container.
    pub cs: Seq<usize>,
    /// How many containers have been put.
    pub num_put: nat,
    /// The containers taken out so far, in order.
    pub order: Seq<usize>,
    /// The last action looked at.
    pub last: Option<(usize, usize)>,
}

/// Where carrying out the actions stands.
pub enum Progress {
    /// Every action so far was carried out.
    Running(Yard),
    /// An action was refused; the yard is as it was before it.
    Stopped(Yard, ScoreError),
    /// Carrying out cannot go on: an action names a position outside the grid
    /// storage, or a container is to be put after `ts` ran out.
    Fault,
}

/// Some obstacle of `rs` sits at position `k` of the storage.
pub open spec fn obstacle_at(d: int, rs: Seq<(usize, usize)>, k: int) -> bool {
    exists|r: int| 0 <= r < rs.len() && cell_index(d, (#[trigger] rs[r].0 as int, rs[r].1 as int)) == k
}

/// The yard before any action: obstacles where `rs` says, empty elsewhere.
pub open spec fn initial_cells(d: int, rs: Seq<(usize, usize)>) -> Seq<usize> {
    Seq::new((d * d) as nat, |k: int| if obstacle_at(d, rs, k) { OBSTACLE } else { EMPTY })
}

/// The instance can be set up: the yard has a square and fits in memory, every
/// obstacle lies inside the storage, and there are fewer obstacles than squares.
pub open spec fn setup_ok(input: Input) -> bool {
    let d = input.D as int;
    &&& d >= 1
    &&& d * d <= usize::MAX
    &&& input.rs@.len() < d * d
    &&& forall|r: int|
        0 <= r < input.rs@.len() ==> cell_index(d, (#[trigger] input.rs@[r].0 as int, input.rs@[r].1 as int)) < d * d
}

/// How many containers are to be put: one per square that is neither the
/// entrance nor an obstacle.
pub open spec fn put_total(input: Input) -> int {
    input.D * input.D - 1 - input.rs@.len()
}

/// The number of inversions of an order of `m` containers when it is reversed
/// plus `m`: the scale of the score.
pub open spec fn score_scale(m: int) -> int {
    (m + 1) * m / 2
}

/// The yard after one action `a`.
pub open spec fn sim_step(d: int, m: int, ts: Seq<usize>, y: Yard, a: (usize, usize)) -> Progress {
    let y1 = Yard { cs: y.cs, num_put: y.num_put, order: y.order, last: Some(a) };
    let c = (a.0 as int, a.1 as int);
    let k = cell_index(d, c);
    if y.num_put < m {
        if a.0 == 0 && a.1 as int == d / 2 {
            Progress::Stopped(y1, ScoreError::Entrance(a.0, a.1))
        } else if k >= d * d {
            Progress::Fault
        } else if y.cs[k] == OBSTACLE {
            Progress::Stopped(y1, ScoreError::Obstacle(a.0, a.1))
        } else if y.cs[k] != EMPTY {
            Progress::Stopped(y1, ScoreError::Occupied(a.0, a.1))
        } else if !accessible(d, y.cs, c) {
            Progress::Stopped(y1, ScoreError::Unreachable(a.0, a.1))
        } else if y.num_put >= ts.len() {
            Progress::Fault
        } else {
            Progress::Running(
                Yard {
                    cs: y.cs.update(k, ts[y.num_put as int]),
                    num_put: y.num_put + 1,
                    order: y.order,
                    last: Some(a),
                },
            )
        }
    } else {
        if k >= d * d {
            Progress::Fault
        } else if y.cs[k] == EMPTY || y.cs[k] == OBSTACLE {
            Progress::Stopped(y1, ScoreError::NoContainer(a.0, a.1))
        } else if !accessible(d, y.cs.update(k, EMPTY), c) {
            Progress::Stopped(y1, ScoreError::Unreachable(a.0, a.1))
        } else {
            Progress::Running(
                Yard {
                    cs: y.cs.update(k, EMPTY),
                    num_put: y.num_put,
                    order: y.order.push(y.cs[k]),
                    last: Some(a),
                },
            )
        }
    }
}

/// Where things stand after the first `k` actions of `out`.
pub open spec fn run(input: Input, out: Seq<(usize, usize)>, k: nat) -> Progress
    decreases k,
{
    if k == 0 {
        Progress::Running(
            Yard {
                cs: initial_cells(input.D as int, input.rs@),
                num_put: 0,
                order: seq![],
                last: None,
            },
        )
    } else {
        match run(input, out, (k - 1) as nat) {
            Progress::Running(y) => sim_step(
                input.D as int,
                put_total(input),
                input.ts@,
                y,
                out[k - 1],
            ),
            p => p,
        }
    }
}

/// Scoring `out` is undefined: the instance cannot be set up, an action cannot be
/// carried out, or the scale of the score overflows.
pub open spec fn score_faults(input: Input, out: Seq<(usize, usize)>) -> bool {
    ||| !setup_ok(input)
    ||| run(input, out, out.len()) is Fault
    ||| (run(input, out, out.len()) is Running && (put_total(input) + 1) * put_total(input)
        > usize::MAX)
}

/// Number of `j` from `j` on whose entry is smaller than the entry at `i`.
pub open spec fn smaller_after(s: Seq<usize>, i: int, j: int) -> nat
    decreases s.len() - j,
{
    if j >= s.len() {
        0
    } else {
        (if s[i] > s[j] { 1nat } else { 0nat }) + smaller_after(s, i, j + 1)
    }
}

/// Number of pairs `i0 < j` with `i <= i0` whose entries are out of order.
pub open spec fn inversions_from(s: Seq<usize>, i: int) -> nat
    decreases s.len() - i,
{
    if i >= s.len() {
        0
    } else {
        smaller_after(s, i, i + 1) + inversions_from(s, i + 1)
    }
}

/// Number of pairs of positions whose entries are out of order.
pub open spec fn inversions(s: Seq<usize>) -> nat {
    inversions_from(s, 0)
}

/// What scoring gives back.
pub struct ScoreDetails {
    /// When every action was carried out: `(K - inversions, K)`, where `K` is the
    /// scale of the score; the score is their ratio. `None` when an action was
    /// refused (the score is then 0).
    pub ratio: Option<(usize, usize)>,
    /// Why the actions were refused, or that containers remain.
    pub error: Option<ScoreError>,
    /// The yard at the end, row by row.
    pub cs: Vec<usize>,
    /// The containers taken out, in order.
    pub order: Vec<usize>,
    /// The last action looked at.
    pub last: Option<(usize, usize)>,
}

/// `r` is what scoring `out` on `input` gives back.
pub open spec fn details_match(input: Input, out: Seq<(usize, usize)>, r: ScoreDetails) -> bool {
    match run(input, out, out.len()) {
        Progress::Stopped(y, e) => {
            &&& r.ratio is None
            &&& r.error == Some(e)
            &&& r.cs@ == y.cs
            &&& r.order@ == y.order
            &&& r.last == y.last
        },
        Progress::Running(y) => {
            let scale = score_scale(put_total(input));
            &&& inversions(y.order) <= scale
            &&& r.ratio == Some(((scale - inversions(y.order)) as usize, scale as usize))
            &&& r.error == (if y.order.len() < put_total(input) {
                Some(ScoreError::Remaining)
            } else {
                None
            })
            &&& r.cs@ == y.cs
            &&& r.order@ == y.order
            &&& r.last == y.last
        },
        Progress::Fault => false,
    }
}

/// The yard `cs` has the obstacles of `input` and no others, and its entrance is
/// empty unless an obstacle sits on it.
pub open spec fn obstacles_as_placed(input: Input, cs: Seq<usize>) -> bool {
    let d = input.D as int;
    &&& cs.len() == d * d
    &&& forall|p: int| 0 <= p < d * d ==> ((#[trigger] cs[p] == OBSTACLE) <==> obstacle_at(d, input.rs@, p))
    &&& !obstacle_at(d, input.rs@, d / 2) ==> cs[d / 2] == EMPTY
}

/// A square that holds a container.
pub open spec fn holds_container(v: usize) -> bool {
    v != EMPTY && v != OBSTACLE
}

/// Number of squares that hold a container.
pub open spec fn container_count(s: Seq<usize>) -> nat
    decreases s.len(),
{
    if s.len() == 0 {
        0
    } else {
        container_count(s.drop_last()) + (if holds_container(s.last()) { 1nat } else { 0nat })
    }
}

proof fn lemma_container_count_update(s: Seq<usize>, k: int, v: usize)
    requires
        0 <= k < s.len(),
    ensures
        container_count(s.update(k, v)) + (if holds_container(s[k]) { 1int } else { 0int })
            == container_count(s) + (if holds_container(v) { 1int } else { 0int }),
    decreases s.len(),
{
    let u = s.update(k, v);
    if k == s.len() - 1 {
        assert(u.drop_last() =~= s.drop_last());
    } else {
        lemma_container_count_update(s.drop_last(), k, v);
        assert(u.drop_last() =~= s.drop_last().update(k, v));
    }
}

proof fn lemma_container_count_zero(s: Seq<usize>)
    requires
        forall|k: int| 0 <= k < s.len() ==> !holds_container(#[trigger] s[k]),
    ensures
        container_count(s) == 0,
    decreases s.len(),
{
    if s.len() > 0 {
        assert forall|k: int| 0 <= k < s.drop_last().len() implies !holds_container(
            #[trigger] s.drop_last()[k],
        ) by {
            assert(s.drop_last()[k] == s[k]);
        }
        lemma_container_count_zero(s.drop_last());
    }
}

proof fn lemma_smaller_after_bound(s: Seq<usize>, i: int, j: int)
    requires
        0 <= j <= s.len(),
    ensures
        smaller_after(s, i, j) <= s.len() - j,
    decreases s.len() - j,
{
    if j < s.len() {
        lemma_smaller_after_bound(s, i, j + 1);
    }
}

proof fn lemma_inversions_bound(s: Seq<usize>, i: int)
    requires
        0 <= i <= s.len(),
    ensures
        2 * inversions_from(s, i) <= (s.len() - i) * (s.len() - i - 1),
    decreases s.len() - i,
{
    if i < s.len() {
        lemma_smaller_after_bound(s, i, i + 1);
        lemma_inversions_bound(s, i + 1);
        let r = s.len() - i;
        assert((s.len() - (i + 1)) * (s.len() - (i + 1) - 1) == (r - 1) * (r - 2));
        assert((s.len() - i) * (s.len() - i - 1) == r * (r - 1));
        assert((r - 1) * (r - 2) + 2 * (r - 1) == r * (r - 1)) by (nonlinear_arith);
    } else {
        assert((s.len() - i) * (s.len() - i - 1) == 0) by (nonlinear_arith)
            requires
                i == s.len(),
        ;
    }
}

/// The positions `q` from `j` on whose entry is smaller than the entry at `i`
/// are as many as `smaller_after` counts.
proof fn lemma_smaller_after_counts(s: Seq<usize>, i: int, j: int)
    requires
        0 <= j,
    ensures
        Set::new(|q: int| j <= q < s.len() && s[i] > s[q]).finite(),
        smaller_after(s, i, j) == Set::new(|q: int| j <= q < s.len() && s[i] > s[q]).len(),
    decreases s.len() - j,
{
    broadcast use vstd::set::group_set_axioms;

    let a = Set::new(|q: int| j <= q < s.len() && s[i] > s[q]);
    if j >= s.len() {
        assert(a =~= Set::<int>::empty());
    } else {
        lemma_smaller_after_counts(s, i, j + 1);
        let b = Set::new(|q: int| j + 1 <= q < s.len() && s[i] > s[q]);
        if s[i] > s[j] {
            assert(a =~= b.insert(j));
            assert(!b.contains(j));
        } else {
            assert(a =~= b);
        }
    }
}

/// The out-of-order pairs whose first position is at least `i` are as many as
/// `inversions_from` counts.
proof fn lemma_inversions_from_counts(s: Seq<usize>, i: int)
    requires
        0 <= i,
    ensures
        Set::new(|p: (int, int)| i <= p.0 < p.1 < s.len() && s[p.0] > s[p.1]).finite(),
        inversions_from(s, i) == Set::new(|p: (int, int)| i <= p.0 < p.1 < s.len() && s[p.0] > s[p.1]).len(),
    decreases s.len() - i,
{
    broadcast use vstd::set::group_set_axioms;

    let all = Set::new(|p: (int, int)| i <= p.0 < p.1 < s.len() && s[p.0] > s[p.1]);
    if i >= s.len() {
        assert(all =~= Set::<(int, int)>::empty());
    } else {
        lemma_inversions_from_counts(s, i + 1);
        lemma_smaller_after_counts(s, i, i + 1);
        let rest = Set::new(|p: (int, int)| i + 1 <= p.0 < p.1 < s.len() && s[p.0] > s[p.1]);
        let a = Set::new(|q: int| i + 1 <= q < s.len() && s[i] > s[q]);
        let f = |q: int| (i, q);
        let b = a.map(f);
        assert(vstd::relations::injective_on(f, a));
        vstd::set_lib::lemma_map_size(a, b, f);
        assert forall|p: (int, int)| #[trigger] all.contains(p) <==> (rest + b).contains(p) by {
            if all.contains(p) && p.0 == i {
                assert(a.contains(p.1));
                assert(f(p.1) == p);
                assert(b.contains(p));
            }
            if b.contains(p) {
                let q = choose|q: int| a.contains(q) && f(q) == p;
                assert(p == (i, q));
            }
        }
        assert(all =~= rest + b);
        assert(rest.disjoint(b)) by {
            assert forall|p: (int, int)| rest.contains(p) implies !b.contains(p) by {
                if b.contains(p) {
                    let q = choose|q: int| a.contains(q) && f(q) == p;
                }
            }
        }
        vstd::set_lib::lemma_set_disjoint_lens(rest, b);
    }
}

/// The inversions of an order are its out-of-order pairs: the number of
/// positions `i < j` whose entries have `s[i] > s[j]`, over all such pairs.
pub proof fn lemma_inversions_are_pairs(s: Seq<usize>)
    ensures
        Set::new(|p: (int, int)| 0 <= p.0 < p.1 < s.len() && s[p.0] > s[p.1]).finite(),
        inversions(s) == Set::new(|p: (int, int)| 0 <= p.0 < p.1 < s.len() && s[p.0] > s[p.1]).len(),
{
    lemma_inversions_from_counts(s, 0);
}

/// The scale of the score bounds the inversions of any order of at most `m`
/// containers.
proof fn lemma_inversions_within_scale(s: Seq<usize>, m: int)
    requires
        s.len() <= m,
    ensures
        inversions(s) <= score_scale(m),
{
    lemma_inversions_bound(s, 0);
    let l = s.len() as int;
    assert(l * (l - 1) <= (m + 1) * m) by (nonlinear_arith)
        requires
            0 <= l <= m,
    ;
}

/// Once an action is refused or cannot be carried out, the later ones change
/// nothing.
proof fn lemma_run_settled(input: Input, out: Seq<(usize, usize)>, k: nat, n: nat)
    requires
        k <= n,
        !(run(input, out, k) is Running),
    ensures
        run(input, out, n) == run(input, out, k),
    decreases n - k,
{
    if k < n {
        lemma_run_settled(input, out, k, (n - 1) as nat);
    }
}

/// Storage position of square `(i, j)`, when it lies inside the storage.
fn flat_index(d: usize, dd: usize, i: usize, j: usize) -> (r: Option<usize>)
    requires
        d >= 1,
        dd == d * d,
    ensures
        match r {
            Some(k) => k == cell_index(d as int, (i as int, j as int)) && k < dd,
            None => cell_index(d as int, (i as int, j as int)) >= dd,
        },
{
    if i >= d {
        proof {
            assert(i * d + j >= d * d) by (nonlinear_arith)
                requires
                    i >= d,
                    d >= 1,
                    j >= 0,
            ;
        }
        None
    } else {
        proof {
            assert(i * d + d <= d * d) by (nonlinear_arith)
                requires
                    i < d,
                    d >= 1,
            ;
        }
        let base = i * d;
        if j < dd - base {
            Some(base + j)
        } else {
            None
        }
    }
}

pub proof fn lemma_obstacles_extend(d: int, rs: Seq<(usize, usize)>, r: int, k: int)
    requires
        0 <= r < rs.len(),
    ensures
        obstacle_at(d, rs.take(r + 1), k) <==> (obstacle_at(d, rs.take(r), k) || cell_index(
            d,
            (rs[r].0 as int, rs[r].1 as int),
        ) == k),
{
    let a = rs.take(r);
    let b = rs.take(r + 1);
    if obstacle_at(d, b, k) {
        let q = choose|q: int| 0 <= q < b.len() && cell_index(d, (#[trigger] b[q].0 as int, b[q].1 as int)) == k;
        if q < r {
            assert(a[q] == b[q]);
        } else {
            assert(b[q] == rs[r]);
        }
    }
    if obstacle_at(d, a, k) {
        let q = choose|q: int| 0 <= q < a.len() && cell_index(d, (#[trigger] a[q].0 as int, a[q].1 as int)) == k;
        assert(a[q] == b[q]);
    }
    if cell_index(d, (rs[r].0 as int, rs[r].1 as int)) == k {
        assert(b[r] == rs[r]);
    }
}

/// Carries out the actions `out` on `input` and scores them. `None` exactly when
/// scoring is undefined (see `score_faults`); otherwise the yard at the
/// end, the order in which containers were taken out, the refused action if any,
/// and the score as a ratio.
pub fn try_compute_score_details(input: &Input, out: &[(usize, usize)]) -> (res: Option<
    ScoreDetails,
>)
    ensures
        res is None <==> score_faults(*input, out@),
        res matches Some(r) ==> details_match(*input, out@, r),
{
    let d = input.D;
    if d == 0 {
        return None;
    }
    let dd = match d.checked_mul(d) {
        Some(v) => v,
        None => {
            return None;
        },
    };
    let mut cs: Vec<usize> = vec![EMPTY; dd];
    let mut visited: Vec<usize> = vec![0; dd];
    let mut iter: usize = 0;
    let nr = input.rs.len();
    let mut r: usize = 0;
    while r < nr
        invariant
            r <= nr == input.rs@.len(),
            d == input.D,
            d >= 1,
            dd == d * d,
            cs@.len() == dd,
            forall|q: int|
                0 <= q < r ==> cell_index(d as int, (#[trigger] input.rs@[q].0 as int, input.rs@[q].1 as int)) < dd,
            forall|k: int|
                0 <= k < dd ==> #[trigger] cs@[k] == (if obstacle_at(d as int, input.rs@.take(r as int), k) {
                    OBSTACLE
                } else {
                    EMPTY
                }),
        decreases nr - r,
    {
        let (i, j) = input.rs[r];
        match flat_index(d, dd, i, j) {
            Some(k) => {
                let ghost before = cs@;
                cs.set(k, OBSTACLE);
                proof {
                    assert forall|q: int| 0 <= q < dd implies #[trigger] cs@[q] == (if obstacle_at(
                        d as int,
                        input.rs@.take(r + 1),
                        q,
                    ) {
                        OBSTACLE
                    } else {
                        EMPTY
                    }) by {
                        lemma_obstacles_extend(d as int, input.rs@, r as int, q);
                        if q != k {
                            assert(cs@[q] == before[q]);
                        }
                    }
                }
            },
            None => {
                return None;
            },
        }
        r += 1;
    }
    if nr >= dd {
        return None;
    }
    let m = dd - 1 - nr;
    proof {
        assert(input.rs@.take(nr as int) =~= input.rs@);
        assert(cs@ =~= initial_cells(d as int, input.rs@));
        lemma_container_count_zero(cs@);
        assert(setup_ok(*input));
        assert(d / 2 < dd) by (nonlinear_arith)
            requires
                dd == d * d,
                d >= 1,
        ;
    }
    let mut num_put: usize = 0;
    let mut order: Vec<usize> = Vec::new();
    let mut last: Option<(usize, usize)> = None;
    let mut k: usize = 0;
    while k < out.len()
        invariant
            k <= out@.len(),
            d == input.D,
            d >= 1,
            dd == d * d,
            d / 2 < dd,
            m == put_total(*input),
            setup_ok(*input),
            cs@.len() == dd,
            visited@.len() == dd,
            iter <= k,
            forall|q: int| 0 <= q < visited@.len() ==> #[trigger] visited@[q] <= iter,
            run(*input, out@, k as nat) == Progress::Running(
                Yard { cs: cs@, num_put: num_put as nat, order: order@, last },
            ),
            container_count(cs@) + order@.len() <= num_put <= m,
        decreases out.len() - k,
    {
        let a = out[k];
        let ghost y = Yard { cs: cs@, num_put: num_put as nat, order: order@, last };
        let ghost n_out = out@.len();
        proof {
            assert(run(*input, out@, (k + 1) as nat) == sim_step(
                d as int,
                m as int,
                input.ts@,
                y,
                a,
            ));
        }
        last = Some(a);
        if num_put < m {
            if a.0 == 0 && a.1 == d / 2 {
                proof {
                    lemma_run_settled(*input, out@, (k + 1) as nat, n_out);
                }
                return Some(
                    ScoreDetails {
                        ratio: None,
                        error: Some(ScoreError::Entrance(a.0, a.1)),
                        cs,
                        order,
                        last,
                    },
                );
            }
            let idx = match flat_index(d, dd, a.0, a.1) {
                Some(v) => v,
                None => {
                    proof {
                        lemma_run_settled(*input, out@, (k + 1) as nat, n_out);
                    }
                    return None;
                },
            };
            if cs[idx] == OBSTACLE {
                proof {
                    lemma_run_settled(*input, out@, (k + 1) as nat, n_out);
                }
                return Some(
                    ScoreDetails {
                        ratio: None,
                        error: Some(ScoreError::Obstacle(a.0, a.1)),
                        cs,
                        order,
                        last,
                    },
                );
            }
            if cs[idx] != EMPTY {
                proof {
                    lemma_run_settled(*input, out@, (k + 1) as nat, n_out);
                }
                return Some(
                    ScoreDetails {
                        ratio: None,
                        error: Some(ScoreError::Occupied(a.0, a.1)),
                        cs,
                        order,
                        last,
                    },
                );
            }
            if !reachable(d, &cs, a.0, a.1, &mut visited, &mut iter) {
                proof {
                    lemma_run_settled(*input, out@, (k + 1) as nat, n_out);
                }
                return Some(
                    ScoreDetails {
                        ratio: None,
                        error: Some(ScoreError::Unreachable(a.0, a.1)),
                        cs,
                        order,
                        last,
                    },
                );
            }
            if num_put >= input.ts.len() {
                proof {
                    lemma_run_settled(*input, out@, (k + 1) as nat, n_out);
                }
                return None;
            }
            let t = input.ts[num_put];
            let ghost before = cs@;
            cs.set(idx, t);
            num_put += 1;
            proof {
                lemma_container_count_update(before, idx as int, t);
            }
        } else {
            let idx = match flat_index(d, dd, a.0, a.1) {
                Some(v) => v,
                None => {
                    proof {
                        lemma_run_settled(*input, out@, (k + 1) as nat, n_out);
                    }
                    return None;
                },
            };
            let c = cs[idx];
            if c == EMPTY || c == OBSTACLE {
                proof {
                    lemma_run_settled(*input, out@, (k + 1) as nat, n_out);
                }
                return Some(
                    ScoreDetails {
                        ratio: None,
                        error: Some(ScoreError::NoContainer(a.0, a.1)),
                        cs,
                        order,
                        last,
                    },
                );
            }
            let ghost before = cs@;
            cs.set(idx, EMPTY);
            if !reachable(d, &cs, a.0, a.1, &mut visited, &mut iter) {
                cs.set(idx, c);
                proof {
                    assert(cs@ =~= before);
                    lemma_run_settled(*input, out@, (k + 1) as nat, n_out);
                }
                return Some(
                    ScoreDetails {
                        ratio: None,
                        error: Some(ScoreError::Unreachable(a.0, a.1)),
                        cs,
                        order,
                        last,
                    },
                );
            }
            order.push(c);
            proof {
                lemma_container_count_update(before, idx as int, EMPTY);
            }
        }
        k += 1;
    }
    let ghost n_out = out@.len();
    let scale = match (m + 1).checked_mul(m) {
        Some(v) => v / 2,
        None => {
            return None;
        },
    };
    proof {
        lemma_inversions_within_scale(order@, m as int);
    }
    let len = order.len();
    let mut inv: usize = 0;
    let mut i: usize = 0;
    while i < len
        invariant
            len == order@.len(),
            i <= len,
            inv + inversions_from(order@, i as int) == inversions(order@),
            inversions(order@) <= scale,
        decreases len - i,
    {
        let mut j = i + 1;
        while j < len
            invariant
                len == order@.len(),
                i < len,
                i + 1 <= j <= len,
                inv + smaller_after(order@, i as int, j as int) + inversions_from(order@, i + 1)
                    == inversions(order@),
                inversions(order@) <= scale,
            decreases len - j,
        {
            if order[i] > order[j] {
                inv += 1;
            }
            j += 1;
        }
        i += 1;
    }
    let error = if order.len() < m {
        Some(ScoreError::Remaining)
    } else {
        None
    };
    Some(ScoreDetails { ratio: Some((scale - inv, scale)), error, cs, order, last })
}

/// The counts of the yard `y` agree: the containers in it and those taken out
/// are at most those put, which are at most the `m` to put.
pub open spec fn counts_agree(y: Yard, m: int) -> bool {
    container_count(y.cs) + y.order.len() <= y.num_put <= m
}

/// Containers only leave the yard after they were put in: at every point of
/// carrying out the actions, the containers in the yard and those taken out
/// together are at most the containers put, and at most `D * D - 1 - N` are put.
pub proof fn lemma_containers_conserved(input: Input, out: Seq<(usize, usize)>, k: nat)
    requires
        setup_ok(input),
        k <= out.len(),
    ensures
        run(input, out, k) matches Progress::Running(y) ==> counts_agree(y, put_total(input))
            && y.cs.len() == input.D * input.D,
        run(input, out, k) matches Progress::Stopped(y, _) ==> counts_agree(y, put_total(input))
            && y.cs.len() == input.D * input.D,
    decreases k,
{
    let d = input.D as int;
    let m = put_total(input);
    if k == 0 {
        let cs = initial_cells(d, input.rs@);
        assert forall|q: int| 0 <= q < cs.len() implies !holds_container(#[trigger] cs[q]) by {}
        lemma_container_count_zero(cs);
    } else {
        lemma_containers_conserved(input, out, (k - 1) as nat);
        match run(input, out, (k - 1) as nat) {
            Progress::Running(y) => {
                let a = out[k - 1];
                let c = (a.0 as int, a.1 as int);
                let q = cell_index(d, c);
                if y.num_put < m {
                    if !(a.0 == 0 && a.1 as int == d / 2) && q < d * d && y.cs[q] == EMPTY
                        && accessible(d, y.cs, c) && y.num_put < input.ts@.len() {
                        lemma_container_count_update(y.cs, q, input.ts@[y.num_put as int]);
                    }
                } else {
                    if q < d * d && holds_container(y.cs[q]) && accessible(d, y.cs.update(q, EMPTY), c) {
                        lemma_container_count_update(y.cs, q, EMPTY);
                    }
                }
            },
            _ => {},
        }
    }
}

/// The last action looked at always names a position inside the storage.
pub proof fn lemma_last_in_storage(input: Input, out: Seq<(usize, usize)>, k: nat)
    requires
        setup_ok(input),
        k <= out.len(),
    ensures
        run(input, out, k) matches Progress::Running(y) ==> (y.last matches Some(a) ==> cell_index(
            input.D as int,
            (a.0 as int, a.1 as int),
        ) < input.D * input.D),
        run(input, out, k) matches Progress::Stopped(y, _) ==> (y.last matches Some(a)
            ==> cell_index(input.D as int, (a.0 as int, a.1 as int)) < input.D * input.D),
    decreases k,
{
    if k > 0 {
        lemma_last_in_storage(input, out, (k - 1) as nat);
        let d = input.D as int;
        assert(d / 2 < d * d) by (nonlinear_arith)
            requires
                d >= 1,
        ;
    }
}

/// The container that the value `v` stands for, if any, as a multiset.
pub open spec fn as_container(v: usize) -> Multiset<usize> {
    if holds_container(v) {
        Multiset::singleton(v)
    } else {
        Multiset::empty()
    }
}

/// The containers among the values of `s`.
pub open spec fn containers_in(s: Seq<usize>) -> Multiset<usize>
    decreases s.len(),
{
    if s.len() == 0 {
        Multiset::empty()
    } else {
        containers_in(s.drop_last()).add(as_container(s.last()))
    }
}

proof fn lemma_containers_in_update(s: Seq<usize>, k: int, v: usize)
    requires
        0 <= k < s.len(),
    ensures
        containers_in(s.update(k, v)).add(as_container(s[k])) == containers_in(s).add(
            as_container(v),
        ),
    decreases s.len(),
{
    broadcast use vstd::multiset::group_multiset_axioms;

    let u = s.update(k, v);
    let dl = s.drop_last();
    assert(containers_in(s) == containers_in(dl).add(as_container(s.last())));
    assert(containers_in(u) == containers_in(u.drop_last()).add(as_container(u.last())));
    if k == s.len() - 1 {
        assert(u.drop_last() =~= dl);
        assert(u.last() == v);
        assert(s.last() == s[k]);
        assert(containers_in(u).add(as_container(s[k])) =~= containers_in(s).add(as_container(v)));
    } else {
        lemma_containers_in_update(dl, k, v);
        assert(u.drop_last() =~= dl.update(k, v));
        assert(u.last() == s.last());
        assert(dl[k] == s[k]);
        let a = containers_in(dl.update(k, v));
        assert(a.add(as_container(s[k])) == containers_in(dl).add(as_container(v)));
        assert(containers_in(u) == a.add(as_container(s.last())));
        assert forall|x: usize| #[trigger] containers_in(u).add(as_container(s[k])).count(x)
            == containers_in(s).add(as_container(v)).count(x) by {
            assert(a.add(as_container(s[k])).count(x) == containers_in(dl).add(as_container(v)).count(
                x,
            ));
        }
        assert(containers_in(u).add(as_container(s[k])) =~= containers_in(s).add(as_container(v)));
    }
}

proof fn lemma_containers_in_none(s: Seq<usize>)
    requires
        forall|q: int| 0 <= q < s.len() ==> !holds_container(#[trigger] s[q]),
    ensures
        containers_in(s) == Multiset::<usize>::empty(),
    decreases s.len(),
{
    broadcast use vstd::multiset::group_multiset_axioms;

    if s.len() > 0 {
        assert forall|q: int| 0 <= q < s.drop_last().len() implies !holds_container(
            #[trigger] s.drop_last()[q],
        ) by {
            assert(s.drop_last()[q] == s[q]);
        }
        lemma_containers_in_none(s.drop_last());
        assert(containers_in(s) =~= Multiset::<usize>::empty());
    }
}

/// No container is lost or made up: at every point of carrying out the
/// actions, the containers in the yard together with those taken out are
/// exactly the containers put so far (numbers of `ts` that stand for an empty
/// square or an obstacle are left out, as they leave no container behind).
pub proof fn lemma_containers_kept(input: Input, out: Seq<(usize, usize)>, k: nat)
    requires
        setup_ok(input),
        k <= out.len(),
    ensures
        run(input, out, k) matches Progress::Running(y) ==> containers_in(y.cs).add(
            y.order.to_multiset(),
        ) == containers_in(input.ts@.take(y.num_put as int)),
        run(input, out, k) matches Progress::Stopped(y, _) ==> containers_in(y.cs).add(
            y.order.to_multiset(),
        ) == containers_in(input.ts@.take(y.num_put as int)),
    decreases k,
{
    broadcast use vstd::multiset::group_multiset_axioms;
    broadcast use vstd::seq_lib::group_to_multiset_ensures;

    let d = input.D as int;
    let m = put_total(input);
    let ts = input.ts@;
    if k == 0 {
        let cs = initial_cells(d, input.rs@);
        assert forall|q: int| 0 <= q < cs.len() implies !holds_container(#[trigger] cs[q]) by {}
        lemma_containers_in_none(cs);
        assert(ts.take(0) =~= Seq::<usize>::empty());
        assert(Seq::<usize>::empty().to_multiset() =~= Multiset::<usize>::empty());
        assert(containers_in(cs).add(Seq::<usize>::empty().to_multiset()) =~= containers_in(ts.take(0)));
    } else {
        lemma_containers_kept(input, out, (k - 1) as nat);
        lemma_containers_conserved(input, out, (k - 1) as nat);
        match run(input, out, (k - 1) as nat) {
            Progress::Running(y) => {
                let a = out[k - 1];
                let c = (a.0 as int, a.1 as int);
                let q = cell_index(d, c);
                if y.num_put < m {
                    if !(a.0 == 0 && a.1 as int == d / 2) && q < d * d && y.cs[q] == EMPTY
                        && accessible(d, y.cs, c) && y.num_put < ts.len() {
                        let t = ts[y.num_put as int];
                        lemma_containers_in_update(y.cs, q, t);
                        let grown = ts.take(y.num_put + 1 as int);
                        let before = ts.take(y.num_put as int);
                        assert(grown.drop_last() =~= before);
                        assert(grown.last() == t);
                        assert(containers_in(grown) == containers_in(before).add(as_container(t)));
                        assert(as_container(y.cs[q]) =~= Multiset::<usize>::empty());
                        let after = containers_in(y.cs.update(q, t));
                        assert(after.add(Multiset::<usize>::empty()) =~= after);
                        assert(after == containers_in(y.cs).add(as_container(t)));
                        assert(containers_in(y.cs).add(y.order.to_multiset()) == containers_in(before));
                        assert(after.add(y.order.to_multiset()) =~= containers_in(grown));
                    }
                } else {
                    if q < d * d && holds_container(y.cs[q]) && accessible(d, y.cs.update(q, EMPTY), c) {
                        let v = y.cs[q];
                        lemma_containers_in_update(y.cs, q, EMPTY);
                        assert(as_container(EMPTY) =~= Multiset::<usize>::empty());
                        assert(as_container(v) == Multiset::singleton(v));
                        let after = containers_in(y.cs.update(q, EMPTY));
                        assert(after.add(Multiset::singleton(v)) =~= containers_in(y.cs).add(
                            Multiset::<usize>::empty(),
                        ));
                        assert(containers_in(y.cs).add(Multiset::<usize>::empty()) =~= containers_in(y.cs));
                        assert(y.order.push(v).to_multiset() =~= y.order.to_multiset().insert(v));
                        assert(containers_in(y.cs).add(y.order.to_multiset()) == containers_in(
                            ts.take(y.num_put as int),
                        ));
                        assert(after.add(y.order.push(v).to_multiset()) =~= containers_in(
                            ts.take(y.num_put as int),
                        ));
                    }
                }
            },
            _ => {},
        }
    }
}

/// Actions after the first `k` have no say in where things stand after `k`.
proof fn lemma_run_prefix(input: Input, out: Seq<(usize, usize)>, more: Seq<(usize, usize)>, k: nat)
    requires
        k <= out.len(),
    ensures
        run(input, out + more, k) == run(input, out, k),
    decreases k,
{
    if k > 0 {
        lemma_run_prefix(input, out, more, (k - 1) as nat);
        assert((out + more)[k - 1] == out[k - 1]);
    }
}

/// A refused action leaves no trace: the yard, the containers taken out and the
/// number put are as they were before it; only the action is recorded as the
/// last one looked at.
pub proof fn lemma_refusal_leaves_no_trace(input: Input, out: Seq<(usize, usize)>, k: nat)
    requires
        k < out.len(),
        run(input, out, k) is Running,
        run(input, out, k + 1) is Stopped,
    ensures
        ({
            let y = run(input, out, k)->Running_0;
            let z = run(input, out, k + 1)->Stopped_0;
            z == Yard { cs: y.cs, num_put: y.num_put, order: y.order, last: Some(out[k as int]) }
        }),
{
}

/// Once an action is refused, the actions after it are never looked at: scoring
/// `out` followed by any `more` gives back exactly what scoring `out` does.
pub proof fn lemma_refusal_is_final(input: Input, out: Seq<(usize, usize)>, more: Seq<(usize, usize)>)
    requires
        run(input, out, out.len()) is Stopped,
    ensures
        run(input, out + more, (out + more).len()) == run(input, out, out.len()),
        score_faults(input, out + more) == score_faults(input, out),
        forall|r: ScoreDetails| #[trigger] details_match(input, out + more, r) <==> details_match(input, out, r),
{
    lemma_run_prefix(input, out, more, out.len());
    lemma_run_settled(input, out + more, out.len(), (out + more).len());
}

/// Obstacles stay where they are and the entrance stays empty: at every point
/// of carrying out the actions, a square holds an obstacle exactly when `rs`
/// puts one there, and the entrance is empty unless `rs` puts an obstacle on
/// it. (Container numbers of `ts` are taken to be neither `EMPTY` nor
/// `OBSTACLE`.)
pub proof fn lemma_obstacles_kept(input: Input, out: Seq<(usize, usize)>, k: nat)
    requires
        setup_ok(input),
        k <= out.len(),
        forall|q: int| 0 <= q < input.ts@.len() ==> holds_container(#[trigger] input.ts@[q]),
    ensures
        run(input, out, k) matches Progress::Running(y) ==> obstacles_as_placed(input, y.cs),
        run(input, out, k) matches Progress::Stopped(y, _) ==> obstacles_as_placed(input, y.cs),
    decreases k,
{
    let d = input.D as int;
    let m = put_total(input);
    let rs = input.rs@;
    assert(d / 2 < d * d) by (nonlinear_arith)
        requires
            d >= 1,
    ;
    if k == 0 {
        let cs = initial_cells(d, rs);
        assert(obstacles_as_placed(input, cs));
    } else {
        lemma_obstacles_kept(input, out, (k - 1) as nat);
        match run(input, out, (k - 1) as nat) {
            Progress::Running(y) => {
                let a = out[k - 1];
                let c = (a.0 as int, a.1 as int);
                let q = cell_index(d, c);
                if q < d * d {
                    if a.0 > 0 {
                        assert(q >= d) by (nonlinear_arith)
                            requires
                                q == c.0 * d + c.1,
                                c.0 >= 1,
                                c.1 >= 0,
                                d >= 1,
                        ;
                    }
                    if y.num_put < m && !(a.0 == 0 && a.1 as int == d / 2) && y.cs[q] == EMPTY
                        && accessible(d, y.cs, c) && y.num_put < input.ts@.len() {
                        let t = input.ts@[y.num_put as int];
                        assert(holds_container(t));
                        let cs2 = y.cs.update(q, t);
                        assert forall|p: int| 0 <= p < d * d implies ((#[trigger] cs2[p] == OBSTACLE)
                            <==> obstacle_at(d, rs, p)) by {
                            if p != q {
                                assert(cs2[p] == y.cs[p]);
                            }
                        }
                        assert(q != d / 2);
                        assert(cs2[d / 2] == y.cs[d / 2]);
                        assert(obstacles_as_placed(input, cs2));
                    }
                    if y.num_put >= m && holds_container(y.cs[q]) && accessible(d, y.cs.update(q, EMPTY), c) {
                        let cs2 = y.cs.update(q, EMPTY);
                        assert forall|p: int| 0 <= p < d * d implies ((#[trigger] cs2[p] == OBSTACLE)
                            <==> obstacle_at(d, rs, p)) by {
                            if p != q {
                                assert(cs2[p] == y.cs[p]);
                            }
                        }
                        assert(obstacles_as_placed(input, cs2));
                    }
                }
            },
            _ => {},
        }
    }
}

/// Carries out the actions `out` on `input` and scores them, where scoring is
/// defined (see `try_compute_score_details`).
pub fn compute_score_details(input: &Input, out: &[(usize, usize)]) -> (r: ScoreDetails)
    requires
        !score_faults(*input, out@),
    ensures
        details_match(*input, out@, r),
{
    try_compute_score_details(input, out).unwrap()
}

impl ScoreDetails {
    /// The error message, empty when there is no error.
    pub fn err(&self) -> (r: String)
        ensures
            r@ == (match self.error {
                Some(e) => error_text(e),
                None => Seq::<char>::empty(),
            }),
    {
        match self.error {
            Some(e) => e.message(),
            None => String::new(),
        }
    }
}

} // verus!
