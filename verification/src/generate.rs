//! Generating a random instance from a seed: obstacles away from the entrance,
//! placed so that every other square can still be walked to, and a random order
//! of the containers.

use vstd::prelude::*;

use rand::seq::SliceRandom;
use rand::Rng;
use rand::SeedableRng;
use rand_chacha::ChaCha20Rng;

use crate::grid::{accessible, cell_index, entrance, in_grid, reachable, seen, EMPTY, OBSTACLE};
use crate::input::{input_model, Input};
use crate::score::{initial_cells, obstacle_at};

verus! {

/// The random number generator of `rand_chacha`, used as an opaque value.
#[verifier::external_type_specification]
#[verifier::external_body]
pub struct ExChaCha20Rng(ChaCha20Rng);

/// The number that `gen_range(lo..=hi)` draws from a `ChaCha20Rng` seeded by
/// `seed_from_u64(seed)` after the draws `draws` (see `SeededRng`).
pub uninterp spec fn chacha_range(seed: u64, draws: Seq<(int, int, int)>, lo: int, hi: int) -> int;

/// The order into which `shuffle` puts a slice of length `len`, taken with a
/// `ChaCha20Rng` seeded by `seed_from_u64(seed)` after the draws `draws`: item
/// `k` of the result is item `p[k]` of the slice, for `p` this sequence.
pub uninterp spec fn chacha_shuffle(seed: u64, draws: Seq<(int, int, int)>, len: int) -> Seq<int>;

/// A `ChaCha20Rng` together with what fixes its state: the seed it was made
/// with and the draws made from it since, oldest first. A draw from
/// `gen_range(lo..=hi)` is recorded as `(0, lo, hi)`, a shuffle of a slice of
/// length `len` as `(1, len, 0)`.
struct SeededRng {
    rng: ChaCha20Rng,
    seed: Ghost<u64>,
    draws: Ghost<Seq<(int, int, int)>>,
}

/// `s` put in the order `p`: item `k` of the result is item `p[k]` of `s`.
pub open spec fn permuted<T>(s: Seq<T>, p: Seq<int>) -> Seq<T> {
    Seq::new(s.len(), |k: int| s[p[k]])
}

/// A generator seeded with `seed`, with no draws made yet.
///
/// Trusted: calls `SeedableRng::seed_from_u64` of `ChaCha20Rng`, which builds the
/// generator from `seed` alone.
#[verifier::external_body]
fn seeded_rng(seed: u64) -> (g: SeededRng)
    ensures
        g.seed@ == seed,
        g.draws@ == Seq::<(int, int, int)>::empty(),
{
    SeededRng { rng: ChaCha20Rng::seed_from_u64(seed), seed: Ghost(seed), draws: Ghost(Seq::empty()) }
}

/// A number drawn from `lo..=hi`.
///
/// Trusted: calls `Rng::gen_range` with the inclusive range `lo..=hi`, which
/// returns a value of the range and panics when it is empty (excluded here).
/// The value depends only on the state of the generator and on `lo` and `hi`;
/// it is named `chacha_range` and the draw is recorded.
#[verifier::external_body]
fn random_in(g: &mut SeededRng, lo: i32, hi: i32) -> (r: i32)
    requires
        lo <= hi,
    ensures
        lo <= r <= hi,
        r == chacha_range(old(g).seed@, old(g).draws@, lo as int, hi as int),
        final(g).seed@ == old(g).seed@,
        final(g).draws@ == old(g).draws@.push((0int, lo as int, hi as int)),
{
    let r = g.rng.gen_range(lo..=hi);
    g.draws = Ghost(g.draws@.push((0int, lo as int, hi as int)));
    r
}

/// Puts the items of `v` in a random order.
///
/// Trusted: calls `SliceRandom::shuffle`, which only swaps items of the slice,
/// each time with an index drawn from the generator below a bound that depends
/// only on the length. So the result is a permutation of the items, and which
/// one depends only on the state of the generator and on the length; it is
/// named `chacha_shuffle` and the draw is recorded.
#[verifier::external_body]
fn shuffle<T>(v: &mut Vec<T>, g: &mut SeededRng)
    ensures
        final(v)@.len() == old(v)@.len(),
        final(v)@.to_multiset() == old(v)@.to_multiset(),
        final(v)@ == permuted(old(v)@, chacha_shuffle(old(g).seed@, old(g).draws@, old(v)@.len() as int)),
        final(g).seed@ == old(g).seed@,
        final(g).draws@ == old(g).draws@.push((1int, old(v)@.len() as int, 0int)),
{
    v.shuffle(&mut g.rng);
    g.draws = Ghost(g.draws@.push((1int, v.len() as int, 0int)));
}

/// The size of the yard: `fix_D`, or 9.
pub open spec fn gen_size(fix_D: Option<usize>) -> usize {
    match fix_D {
        Some(d) => d,
        None => 9,
    }
}

/// Square `c` may hold an obstacle: it lies in the grid and is neither the
/// entrance nor next to it.
pub open spec fn is_candidate(d: int, c: (int, int)) -> bool {
    in_grid(d, c) && c.0 + (if c.1 >= d / 2 {
        c.1 - d / 2
    } else {
        d / 2 - c.1
    }) >= 2
}

/// The squares of storage position below `k` that may hold an obstacle, row by row.
pub open spec fn candidates_before(d: int, k: int) -> Seq<(usize, usize)>
    decreases k,
{
    if k <= 0 || d <= 0 {
        seq![]
    } else {
        let c = (((k - 1) / d) as usize, ((k - 1) % d) as usize);
        candidates_before(d, k - 1) + (if is_candidate(d, (c.0 as int, c.1 as int)) {
            seq![c]
        } else {
            seq![]
        })
    }
}

/// All squares that may hold an obstacle, row by row.
pub open spec fn candidate_list(d: int) -> Seq<(usize, usize)> {
    candidates_before(d, d * d)
}

/// Every square of the `d x d` yard without an obstacle of `rs` can be walked to
/// from the entrance.
pub open spec fn layout_connected(d: int, rs: Seq<(usize, usize)>) -> bool {
    forall|c: (int, int)|
        in_grid(d, c) && #[trigger] initial_cells(d, rs)[cell_index(d, c)] == EMPTY ==> accessible(
            d,
            initial_cells(d, rs),
            c,
        )
}

/// `ts` holds each of `0..ts.len()` once.
pub open spec fn is_arrangement(ts: Seq<usize>) -> bool {
    ts.no_duplicates() && forall|k: int| 0 <= k < ts.len() ==> #[trigger] ts[k] < ts.len()
}

/// What a generated instance for size `d` looks like: distinct obstacles away
/// from the entrance, `min(n, number of such squares)` of them, with every other
/// square reachable; and the containers `0..d * d - 1 - n` in some order, where
/// `n` is `fix_n` when given and a number in `0..=d` otherwise.
pub open spec fn generated(inp: Input, d: usize, fix_n: Option<usize>) -> bool {
    let rs = inp.rs@;
    &&& inp.D == d
    &&& rs.no_duplicates()
    &&& forall|k: int| 0 <= k < rs.len() ==> is_candidate(d as int, (#[trigger] rs[k].0 as int, rs[k].1 as int))
    &&& layout_connected(d as int, rs)
    &&& is_arrangement(inp.ts@)
    &&& exists|n: int|
        #![trigger (d * d - 1 - n)]
        (match fix_n {
            Some(x) => n == x,
            None => 0 <= n <= d,
        }) && rs.len() == (if n <= candidate_list(d as int).len() {
            n
        } else {
            candidate_list(d as int).len() as int
        }) && inp.ts@.len() == d * d - 1 - n
}

/// The draws made from the generator before the `k`-th layout (counting from 0)
/// of a `d x d` yard is shuffled: the number of obstacles, then one shuffle of
/// the candidate squares for each earlier layout.
pub open spec fn draws_before_layout(d: int, k: int) -> Seq<(int, int, int)> {
    seq![(0int, 0int, d)] + Seq::new(k as nat, |i: int| (1int, candidate_list(d).len() as int, 0int))
}

/// The number of obstacles: `fix_n` when given, else the first number drawn,
/// from `0..=d`, by the generator seeded with `seed ^ 6`.
pub open spec fn obstacle_count(seed: u64, d: int, fix_n: Option<usize>) -> int {
    match fix_n {
        Some(n) => n as int,
        None => chacha_range(seed ^ 6u64, Seq::empty(), 0, d),
    }
}

/// The `k`-th layout drawn for `n` obstacles: the candidate squares shuffled,
/// and the first `n` of them kept (all of them when there are fewer).
pub open spec fn drawn_layout(seed: u64, d: int, n: int, k: int) -> Seq<(usize, usize)> {
    let c = candidate_list(d);
    let p = chacha_shuffle(seed ^ 6u64, draws_before_layout(d, k), c.len() as int);
    permuted(c, p).take(if n <= c.len() { n } else { c.len() as int })
}

/// The order of the containers `0..d * d - 1 - n` drawn once the `k`-th layout
/// is kept.
pub open spec fn drawn_order(seed: u64, d: int, n: int, k: int) -> Seq<usize> {
    let m = d * d - 1 - n;
    permuted(
        Seq::new(m as nat, |i: int| i as usize),
        chacha_shuffle(seed ^ 6u64, draws_before_layout(d, k + 1), m),
    )
}

/// Layout `k` is the first one drawn that leaves every free square reachable,
/// and the count of layouts tried has not run out before it.
pub open spec fn first_connected(seed: u64, d: int, n: int, k: int) -> bool {
    &&& 0 <= k < usize::MAX
    &&& layout_connected(d, drawn_layout(seed, d, n, k))
    &&& forall|j: int| 0 <= j < k ==> !layout_connected(d, #[trigger] drawn_layout(seed, d, n, j))
}

/// The instance that belongs to `seed`, as `(D, rs, ts)`: the first layout that
/// leaves every free square reachable, and the container order drawn after it.
/// `None` when the number of obstacles leaves no room for the containers, or
/// when no layout tried before the count runs out is good.
pub open spec fn gen_instance(seed: u64, fix_D: Option<usize>, fix_N: Option<usize>) -> Option<
    (usize, Seq<(usize, usize)>, Seq<usize>),
> {
    let d = gen_size(fix_D) as int;
    let n = obstacle_count(seed, d, fix_N);
    if n >= d * d || !(exists|k: int| first_connected(seed, d, n, k)) {
        None
    } else {
        let k = choose|k: int| first_connected(seed, d, n, k);
        Some((d as usize, drawn_layout(seed, d, n, k), drawn_order(seed, d, n, k)))
    }
}

/// Only one layout is the first good one.
proof fn lemma_first_connected_unique(seed: u64, d: int, n: int, a: int, b: int)
    requires
        first_connected(seed, d, n, a),
        first_connected(seed, d, n, b),
    ensures
        a == b,
{
    if a < b {
        assert(!layout_connected(d, drawn_layout(seed, d, n, a)));
    } else if b < a {
        assert(!layout_connected(d, drawn_layout(seed, d, n, b)));
    }
}

proof fn lemma_candidates_before(d: int, k: int)
    requires
        d >= 1,
        0 <= k <= d * d,
        d * d <= usize::MAX,
    ensures
        forall|m: int|
            0 <= m < candidates_before(d, k).len() ==> is_candidate(
                d,
                (#[trigger] candidates_before(d, k)[m].0 as int, candidates_before(d, k)[m].1 as int),
            ) && cell_index(d, (candidates_before(d, k)[m].0 as int, candidates_before(d, k)[m].1 as int))
                < k,
        candidates_before(d, k).no_duplicates(),
    decreases k,
{
    if k > 0 {
        lemma_candidates_before(d, k - 1);
        let c = (((k - 1) / d) as usize, ((k - 1) % d) as usize);
        let prev = candidates_before(d, k - 1);
        let s = candidates_before(d, k);
        assert(0 <= (k - 1) / d && 0 <= (k - 1) % d < d) by {
            vstd::arithmetic::div_mod::lemma_div_pos_is_pos(k - 1, d);
            vstd::arithmetic::div_mod::lemma_mod_pos_bound(k - 1, d);
        }
        assert(k - 1 == d * ((k - 1) / d) + (k - 1) % d) by {
            vstd::arithmetic::div_mod::lemma_fundamental_div_mod(k - 1, d);
        }
        assert((k - 1) / d <= k - 1) by (nonlinear_arith)
            requires
                k - 1 == d * ((k - 1) / d) + (k - 1) % d,
                0 <= (k - 1) % d,
                0 <= (k - 1) / d,
                d >= 1,
        ;
        assert(c.0 as int == (k - 1) / d);
        assert(c.1 as int == (k - 1) % d);
        assert(cell_index(d, (c.0 as int, c.1 as int)) == k - 1) by (nonlinear_arith)
            requires
                k - 1 == d * ((k - 1) / d) + (k - 1) % d,
                c.0 as int == (k - 1) / d,
                c.1 as int == (k - 1) % d,
        ;
        assert forall|m: int| 0 <= m < s.len() implies is_candidate(
            d,
            (#[trigger] s[m].0 as int, s[m].1 as int),
        ) && cell_index(d, (s[m].0 as int, s[m].1 as int)) < k by {
            if m < prev.len() {
                assert(s[m] == prev[m]);
            } else {
                assert(s[m] == c);
            }
        }
        assert forall|a: int, b: int| 0 <= a < s.len() && 0 <= b < s.len() && a != b implies s[a]
            != s[b] by {
            if a < prev.len() && b < prev.len() {
                assert(s[a] == prev[a] && s[b] == prev[b]);
            } else if a < prev.len() {
                assert(s[a] == prev[a] && s[b] == c);
            } else if b < prev.len() {
                assert(s[b] == prev[b] && s[a] == c);
            }
        }
    }
}

/// Every square of the grid that `is_candidate` admits and that comes before
/// storage position `k` is among `candidates_before(d, k)`.
proof fn lemma_candidates_cover(d: int, k: int, i: int, j: int)
    requires
        d >= 1,
        0 <= k <= d * d,
        d * d <= usize::MAX,
        0 <= i < d,
        0 <= j < d,
        i * d + j < k,
        is_candidate(d, (i, j)),
    ensures
        candidates_before(d, k).contains((i as usize, j as usize)),
    decreases k,
{
    let s = candidates_before(d, k);
    let prev = candidates_before(d, k - 1);
    if i * d + j == k - 1 {
        vstd::arithmetic::div_mod::lemma_fundamental_div_mod_converse(k - 1, d, i, j);
        assert(s[s.len() - 1] == (i as usize, j as usize));
    } else {
        lemma_candidates_cover(d, k - 1, i, j);
        let m = choose|m: int| 0 <= m < prev.len() && prev[m] == (i as usize, j as usize);
        assert(s[m] == prev[m]);
    }
}

/// The squares before storage position `k` come in storage order.
proof fn lemma_candidates_ordered(d: int, k: int)
    requires
        d >= 1,
        0 <= k <= d * d,
        d * d <= usize::MAX,
    ensures
        forall|a: int, b: int|
            0 <= a < b < candidates_before(d, k).len() ==> cell_index(
                d,
                (#[trigger] candidates_before(d, k)[a].0 as int, candidates_before(d, k)[a].1 as int),
            ) < cell_index(d, (#[trigger] candidates_before(d, k)[b].0 as int, candidates_before(d, k)[b].1 as int)),
    decreases k,
{
    if k > 0 {
        lemma_candidates_ordered(d, k - 1);
        lemma_candidates_before(d, k - 1);
        lemma_candidates_before(d, k);
        let s = candidates_before(d, k);
        let prev = candidates_before(d, k - 1);
        assert forall|a: int, b: int| 0 <= a < b < s.len() implies cell_index(
            d,
            (#[trigger] s[a].0 as int, s[a].1 as int),
        ) < cell_index(d, (#[trigger] s[b].0 as int, s[b].1 as int)) by {
            assert(s[a] == prev[a]);
            if b < prev.len() {
                assert(s[b] == prev[b]);
            } else {
                let c = (((k - 1) / d) as usize, ((k - 1) % d) as usize);
                assert(s[b] == c);
                assert(0 <= (k - 1) / d && 0 <= (k - 1) % d < d) by {
                    vstd::arithmetic::div_mod::lemma_div_pos_is_pos(k - 1, d);
                    vstd::arithmetic::div_mod::lemma_mod_pos_bound(k - 1, d);
                }
                assert(k - 1 == d * ((k - 1) / d) + (k - 1) % d) by {
                    vstd::arithmetic::div_mod::lemma_fundamental_div_mod(k - 1, d);
                }
                assert((k - 1) / d <= k - 1) by (nonlinear_arith)
                    requires
                        k - 1 == d * ((k - 1) / d) + (k - 1) % d,
                        0 <= (k - 1) % d,
                        0 <= (k - 1) / d,
                        d >= 1,
                ;
                assert(cell_index(d, (c.0 as int, c.1 as int)) == k - 1) by (nonlinear_arith)
                    requires
                        k - 1 == d * ((k - 1) / d) + (k - 1) % d,
                        c.0 as int == (k - 1) / d,
                        c.1 as int == (k - 1) % d,
                ;
                assert(cell_index(d, (prev[a].0 as int, prev[a].1 as int)) < k - 1);
            }
        }
    }
}

/// The squares that may hold an obstacle are exactly the squares `(i, j)` of the
/// grid with `i + |j - d / 2| >= 2`: neither the entrance nor a square next to
/// it. Each of them is listed once, row by row and from left to right.
pub proof fn lemma_candidate_squares(d: int)
    requires
        d >= 1,
        d * d <= usize::MAX,
    ensures
        forall|i: int, j: int|
            0 <= i < d && 0 <= j < d ==> (#[trigger] candidate_list(d).contains((i as usize, j as usize))
                <==> i + (if j >= d / 2 {
                j - d / 2
            } else {
                d / 2 - j
            }) >= 2),
        forall|m: int|
            0 <= m < candidate_list(d).len() ==> (#[trigger] candidate_list(d)[m]).0 < d
                && candidate_list(d)[m].1 < d,
        candidate_list(d).no_duplicates(),
        forall|a: int, b: int|
            0 <= a < b < candidate_list(d).len() ==> (#[trigger] candidate_list(d)[a]).0 * d
                + candidate_list(d)[a].1 < (#[trigger] candidate_list(d)[b]).0 * d + candidate_list(d)[b].1,
{
    lemma_candidates_before(d, d * d);
    lemma_candidates_ordered(d, d * d);
    let c = candidate_list(d);
    assert forall|i: int, j: int| 0 <= i < d && 0 <= j < d implies (#[trigger] c.contains(
        (i as usize, j as usize),
    ) <==> i + (if j >= d / 2 {
        j - d / 2
    } else {
        d / 2 - j
    }) >= 2) by {
        assert(i * d + j < d * d) by (nonlinear_arith)
            requires
                0 <= i < d,
                0 <= j < d,
        ;
        assert(d <= d * d) by (nonlinear_arith)
            requires
                d >= 1,
        ;
        if c.contains((i as usize, j as usize)) {
            let m = choose|m: int| 0 <= m < c.len() && c[m] == (i as usize, j as usize);
            assert(is_candidate(d, (c[m].0 as int, c[m].1 as int)));
        }
        if i + (if j >= d / 2 {
            j - d / 2
        } else {
            d / 2 - j
        }) >= 2 {
            lemma_candidates_cover(d, d * d, i, j);
        }
    }
    assert forall|m: int| 0 <= m < c.len() implies (#[trigger] c[m]).0 < d && c[m].1 < d by {
        assert(is_candidate(d, (c[m].0 as int, c[m].1 as int)));
    }
}

/// The squares that may hold an obstacle, row by row.
fn candidates(d: usize, dd: usize) -> (r: Vec<(usize, usize)>)
    requires
        d >= 1,
        dd == d * d,
    ensures
        r@ == candidate_list(d as int),
{
    let mut r: Vec<(usize, usize)> = Vec::new();
    let h = d / 2;
    let mut i: usize = 0;
    proof {
        assert(candidates_before(d as int, 0) =~= Seq::<(usize, usize)>::empty());
        if d >= 2 {
            assert(d + d <= d * d) by (nonlinear_arith)
                requires
                    d >= 2,
            ;
        }
    }
    while i < d
        invariant
            d >= 1,
            dd == d * d,
            h == d / 2,
            d == 1 || d + d <= usize::MAX,
            i <= d,
            r@ == candidates_before(d as int, i * d),
        decreases d - i,
    {
        let mut j: usize = 0;
        while j < d
            invariant
                d >= 1,
                dd == d * d,
                h == d / 2,
                d == 1 || d + d <= usize::MAX,
                i < d,
                j <= d,
                r@ == candidates_before(d as int, i * d + j),
            decreases d - j,
        {
            proof {
                assert(i * d + j < d * d) by (nonlinear_arith)
                    requires
                        i < d,
                        j < d,
                ;
                vstd::arithmetic::div_mod::lemma_fundamental_div_mod_converse(
                    i * d + j,
                    d as int,
                    i as int,
                    j as int,
                );
            }
            let far = if j >= h {
                j - h
            } else {
                h - j
            };
            if i + far >= 2 {
                r.push((i, j));
            }
            j += 1;
        }
        proof {
            assert(i * d + d == (i + 1) * d) by (nonlinear_arith);
        }
        i += 1;
    }
    r
}

/// Whether every square of the `d x d` yard without an obstacle of `rs` can be
/// walked to from the entrance (see `layout_connected`). Uses `visited` and
/// `iter` as `reachable` does. `gen` asks this of each drawn layout.
pub fn check_layout(
    d: usize,
    dd: usize,
    rs: &Vec<(usize, usize)>,
    visited: &mut Vec<usize>,
    iter: &mut usize,
) -> (ok: bool)
    requires
        d >= 1,
        dd == d * d,
        forall|k: int| 0 <= k < rs@.len() ==> is_candidate(d as int, (#[trigger] rs@[k].0 as int, rs@[k].1 as int)),
        old(visited)@.len() == dd,
        *old(iter) < usize::MAX,
        forall|k: int| 0 <= k < old(visited)@.len() ==> #[trigger] old(visited)@[k] <= *old(iter),
    ensures
        ok == layout_connected(d as int, rs@),
        final(visited)@.len() == dd,
        *final(iter) == *old(iter) + 1,
        forall|k: int| 0 <= k < final(visited)@.len() ==> #[trigger] final(visited)@[k] <= *final(iter),
{
    let ghost di = d as int;
    let mut cs: Vec<usize> = vec![EMPTY; dd];
    let nr = rs.len();
    let mut r: usize = 0;
    while r < nr
        invariant
            r <= nr == rs@.len(),
            d >= 1,
            dd == d * d,
            di == d as int,
            cs@.len() == dd,
            forall|k: int| 0 <= k < rs@.len() ==> is_candidate(di, (#[trigger] rs@[k].0 as int, rs@[k].1 as int)),
            forall|k: int|
                0 <= k < dd ==> #[trigger] cs@[k] == (if obstacle_at(di, rs@.take(r as int), k) {
                    OBSTACLE
                } else {
                    EMPTY
                }),
        decreases nr - r,
    {
        let (i, j) = rs[r];
        proof {
            assert(is_candidate(di, (rs@[r as int].0 as int, rs@[r as int].1 as int)));
            assert(i * d + j < d * d) by (nonlinear_arith)
                requires
                    i < d,
                    j < d,
            ;
        }
        let k = i * d + j;
        let ghost before = cs@;
        cs.set(k, OBSTACLE);
        proof {
            assert forall|q: int| 0 <= q < dd implies #[trigger] cs@[q] == (if obstacle_at(
                di,
                rs@.take(r + 1),
                q,
            ) {
                OBSTACLE
            } else {
                EMPTY
            }) by {
                crate::score::lemma_obstacles_extend(di, rs@, r as int, q);
                if q != k {
                    assert(cs@[q] == before[q]);
                }
            }
        }
        r += 1;
    }
    proof {
        assert(rs@.take(nr as int) =~= rs@);
        assert(cs@ =~= initial_cells(di, rs@));
        let ent = entrance(di);
        assert(di / 2 < di);
        assert(in_grid(di, ent));
        crate::grid::lemma_index_bounds(di, ent);
        assert(0 * di == 0);
        assert(cell_index(di, ent) == di / 2);
        if obstacle_at(di, rs@, di / 2) {
            let q = choose|q: int|
                0 <= q < rs@.len() && cell_index(di, (#[trigger] rs@[q].0 as int, rs@[q].1 as int))
                    == di / 2;
            let c = (rs@[q].0 as int, rs@[q].1 as int);
            assert(is_candidate(di, c));
            crate::grid::lemma_index_injective(di, c, ent);
        }
        assert(!obstacle_at(di, rs@, di / 2));
        assert(initial_cells(di, rs@)[di / 2] == EMPTY);
        assert(crate::grid::is_free(di, cs@, ent));
    }
    reachable(d, &cs, usize::MAX, usize::MAX, visited, iter);
    let it = *iter;
    let mut ok = true;
    let mut i: usize = 0;
    while i < d
        invariant
            d >= 1,
            dd == d * d,
            di == d as int,
            cs@ == initial_cells(di, rs@),
            visited@.len() == dd,
            it == *iter,
            i <= d,
            forall|c: (int, int)|
                in_grid(di, c) ==> (#[trigger] seen(visited@, it, di, c) <==> crate::grid::reaches(
                    di,
                    cs@,
                    entrance(di),
                    c,
                )),
            crate::grid::is_free(di, cs@, entrance(di)),
            ok == (forall|c: (int, int)|
                in_grid(di, c) && c.0 < i && #[trigger] cs@[cell_index(di, c)] == EMPTY ==> seen(
                    visited@,
                    it,
                    di,
                    c,
                )),
        decreases d - i,
    {
        let mut j: usize = 0;
        while j < d
            invariant
                d >= 1,
                dd == d * d,
                di == d as int,
                cs@.len() == dd,
                visited@.len() == dd,
                i < d,
                j <= d,
                ok == (forall|c: (int, int)|
                    in_grid(di, c) && (c.0 < i || (c.0 == i && c.1 < j)) && #[trigger] cs@[cell_index(
                        di,
                        c,
                    )] == EMPTY ==> seen(visited@, it, di, c)),
            decreases d - j,
        {
            proof {
                assert(i * d + j < d * d) by (nonlinear_arith)
                    requires
                        i < d,
                        j < d,
                ;
            }
            let k = i * d + j;
            if cs[k] == EMPTY && visited[k] != it {
                ok = false;
            }
            proof {
                let c0 = (i as int, j as int);
                assert(cell_index(di, c0) == k);
            }
            j += 1;
        }
        i += 1;
    }
    proof {
        assert(ok == layout_connected(di, rs@));
    }
    ok
}

/// In a yard without obstacles every square can be walked to from the entrance.
proof fn lemma_open_yard_connected(d: int)
    requires
        d >= 1,
    ensures
        layout_connected(d, Seq::<(usize, usize)>::empty()),
{
    let cs = initial_cells(d, Seq::<(usize, usize)>::empty());
    let ent = entrance(d);
    assert forall|c: (int, int)| in_grid(d, c) implies crate::grid::is_free(d, cs, c) by {
        crate::grid::lemma_index_bounds(d, c);
        assert(!obstacle_at(d, Seq::<(usize, usize)>::empty(), cell_index(d, c)));
    }
    assert(in_grid(d, ent));
    assert(crate::grid::is_walk(d, cs, seq![ent]));
    assert(crate::grid::reaches(d, cs, ent, ent));
    assert forall|c: (int, int)|
        in_grid(d, c) && #[trigger] cs[cell_index(d, c)] == EMPTY implies accessible(d, cs, c) by {
        lemma_open_row(d, cs, c.1);
        lemma_open_column(d, cs, c.0, c.1);
    }
}

/// Every square of the top row of an open yard can be walked to.
proof fn lemma_open_row(d: int, cs: Seq<usize>, j: int)
    requires
        0 <= j < d,
        forall|c: (int, int)| in_grid(d, c) ==> crate::grid::is_free(d, cs, c),
        crate::grid::reaches(d, cs, entrance(d), entrance(d)),
    ensures
        crate::grid::reaches(d, cs, entrance(d), (0int, j)),
    decreases (if j >= d / 2 { j - d / 2 } else { d / 2 - j }),
{
    let h = d / 2;
    if j > h {
        lemma_open_row(d, cs, j - 1);
        assert(crate::grid::step((0int, j - 1), 0) == (0int, j));
        assert(in_grid(d, (0int, j)));
        crate::grid::lemma_reach_extend(d, cs, entrance(d), (0int, j - 1), (0, j));
    } else if j < h {
        lemma_open_row(d, cs, j + 1);
        assert(crate::grid::step((0int, j + 1), 2) == (0int, j));
        assert(in_grid(d, (0int, j)));
        crate::grid::lemma_reach_extend(d, cs, entrance(d), (0int, j + 1), (0, j));
    }
}

/// Every square of an open yard can be walked to: down its column from the top row.
proof fn lemma_open_column(d: int, cs: Seq<usize>, i: int, j: int)
    requires
        0 <= i < d,
        0 <= j < d,
        forall|c: (int, int)| in_grid(d, c) ==> crate::grid::is_free(d, cs, c),
        crate::grid::reaches(d, cs, entrance(d), (0int, j)),
    ensures
        crate::grid::reaches(d, cs, entrance(d), (i, j)),
    decreases i,
{
    if i > 0 {
        lemma_open_column(d, cs, i - 1, j);
        assert(crate::grid::step((i - 1, j), 1) == (i, j));
        assert(in_grid(d, (i, j)));
        crate::grid::lemma_reach_extend(d, cs, entrance(d), (i - 1, j), (i, j));
    }
}

/// The random instance that belongs to `seed`: the yard is `fix_D x fix_D`
/// (9 x 9 when not given) with `fix_N` obstacles (a number drawn from `0..=D`
/// when not given); obstacle layouts are drawn until every other square can be
/// walked to from the entrance, then the order of the containers is drawn. The
/// generator is `ChaCha20Rng` seeded with `seed ^ 6`, so equal arguments give
/// equal instances. `None` when the number of obstacles leaves no room for the
/// containers (a 1 x 1 yard with one obstacle), or when `usize::MAX` layouts all
/// failed and the count of layouts would overflow. With no obstacles asked for
/// (`fix_N` is `Some(0)`) the first layout always succeeds.
pub fn gen(seed: u64, fix_D: Option<usize>, fix_N: Option<usize>) -> (r: Option<Input>)
    requires
        1 <= gen_size(fix_D) <= i32::MAX,
        gen_size(fix_D) * gen_size(fix_D) <= usize::MAX,
        fix_N matches Some(n) ==> n < gen_size(fix_D) * gen_size(fix_D),
    ensures
        gen_instance(seed, fix_D, fix_N) == (match r {
            Some(inp) => Some(input_model(inp)),
            None => None,
        }),
        r matches Some(inp) ==> generated(inp, gen_size(fix_D), fix_N),
        fix_N == Some(0usize) ==> r is Some,
{
    let mut rng = seeded_rng(seed ^ 6);
    let mut D: usize = 9;
    if let Some(fix_D) = fix_D {
        D = fix_D;
    }
    let mut N: usize = random_in(&mut rng, 0, D as i32) as usize;
    if let Some(fix_N) = fix_N {
        N = fix_N;
    }
    let ghost d = D as int;
    let ghost n = N as int;
    let dd = D * D;
    proof {
        assert(dd >= 1) by (nonlinear_arith)
            requires
                dd == D * D,
                D >= 1,
        ;
        assert(n == obstacle_count(seed, d, fix_N));
        assert(rng.draws@ =~= draws_before_layout(d, 0));
    }
    if N >= dd {
        proof {
            assert(gen_size(fix_D) as int == d);
            assert(n >= d * d);
        }
        return None;
    }
    let mut visited: Vec<usize> = vec![0; dd];
    let mut iter: usize = 0;
    let mut rs: Vec<(usize, usize)> = Vec::new();
    let mut ok = false;
    proof {
        lemma_candidates_before(d, d * d);
    }
    while !ok
        invariant
            D >= 1,
            dd == D * D,
            d == D as int,
            n == N as int,
            n == obstacle_count(seed, d, fix_N),
            gen_size(fix_D) as int == d,
            N < dd,
            rng.seed@ == seed ^ 6u64,
            rng.draws@ == draws_before_layout(d, iter as int),
            visited@.len() == dd,
            forall|k: int| 0 <= k < visited@.len() ==> #[trigger] visited@[k] <= iter,
            forall|m: int|
                0 <= m < candidate_list(d).len() ==> is_candidate(
                    d,
                    (#[trigger] candidate_list(d)[m].0 as int, candidate_list(d)[m].1 as int),
                ),
            candidate_list(d).no_duplicates(),
            N == 0 ==> (ok || iter == 0),
            fix_N == Some(0usize) ==> N == 0,
            !ok ==> forall|j: int| 0 <= j < iter ==> !layout_connected(d, #[trigger] drawn_layout(seed, d, n, j)),
            ok ==> iter >= 1 && rs@ == drawn_layout(seed, d, n, iter - 1) && first_connected(seed, d, n, iter - 1),
            ok ==> {
                &&& rs@.no_duplicates()
                &&& forall|k: int| 0 <= k < rs@.len() ==> is_candidate(d, (#[trigger] rs@[k].0 as int, rs@[k].1 as int))
                &&& layout_connected(d, rs@)
                &&& rs@.len() == (if N <= candidate_list(d).len() {
                    N as int
                } else {
                    candidate_list(d).len() as int
                })
            },
        decreases usize::MAX - iter,
    {
        if iter == usize::MAX {
            proof {
                assert forall|k: int| !first_connected(seed, d, n, k) by {
                    if 0 <= k < usize::MAX {
                        assert(!layout_connected(d, drawn_layout(seed, d, n, k)));
                    }
                }
            }
            return None;
        }
        let mut cand = candidates(D, dd);
        let ghost all = cand@;
        let ghost k = iter as int;
        shuffle(&mut cand, &mut rng);
        let ghost shuffled = cand@;
        cand.truncate(N);
        proof {
            assert(rng.draws@ =~= draws_before_layout(d, k + 1));
            assert(cand@ =~= drawn_layout(seed, d, n, k));
            all.lemma_multiset_has_no_duplicates();
            assert forall|x: (usize, usize)| shuffled.to_multiset().contains(x) implies shuffled.to_multiset().count(x) == 1 by {}
            shuffled.lemma_multiset_has_no_duplicates_conv();
            assert forall|k: int| 0 <= k < cand@.len() implies is_candidate(d, (#[trigger] cand@[k].0 as int, cand@[k].1 as int)) by {
                assert(cand@[k] == shuffled[k]);
                broadcast use vstd::seq_lib::group_to_multiset_ensures;
                let x = shuffled[k];
                assert(shuffled.contains(x));
                assert(shuffled.to_multiset().count(x) > 0);
                assert(all.to_multiset().count(x) > 0);
                assert(all.contains(x));
                let m = choose|m: int| 0 <= m < all.len() && all[m] == shuffled[k];
                assert(is_candidate(d, (all[m].0 as int, all[m].1 as int)));
            }
            assert forall|a: int, b: int| 0 <= a < cand@.len() && 0 <= b < cand@.len() && a != b implies cand@[a] != cand@[b] by {
                assert(cand@[a] == shuffled[a] && cand@[b] == shuffled[b]);
            }
        }
        proof {
            if N == 0 {
                assert(cand@ =~= Seq::<(usize, usize)>::empty());
                lemma_open_yard_connected(d);
            }
        }
        ok = check_layout(D, dd, &cand, &mut visited, &mut iter);
        rs = cand;
        proof {
            if !ok {
                assert forall|j: int| 0 <= j < iter implies !layout_connected(d, #[trigger] drawn_layout(seed, d, n, j)) by {
                    if j < k {
                    }
                }
            }
        }
    }
    let m = dd - 1 - N;
    let mut ts: Vec<usize> = Vec::new();
    let mut t: usize = 0;
    while t < m
        invariant
            t <= m,
            ts@ == Seq::new(t as nat, |k: int| k as usize),
        decreases m - t,
    {
        ts.push(t);
        proof {
            assert(ts@ =~= Seq::new((t + 1) as nat, |k: int| k as usize));
        }
        t += 1;
    }
    let ghost ordered = ts@;
    proof {
        assert(d * d - 1 - n == m);
    }
    shuffle(&mut ts, &mut rng);
    proof {
        assert(ts@ =~= drawn_order(seed, d, n, iter - 1));
        assert(ordered.no_duplicates());
        ordered.lemma_multiset_has_no_duplicates();
        assert forall|x: usize| ts@.to_multiset().contains(x) implies ts@.to_multiset().count(x) == 1 by {}
        ts@.lemma_multiset_has_no_duplicates_conv();
        assert forall|k: int| 0 <= k < ts@.len() implies #[trigger] ts@[k] < ts@.len() by {
            broadcast use vstd::seq_lib::group_to_multiset_ensures;
            let x = ts@[k];
            assert(ts@.contains(x));
            assert(ts@.to_multiset().count(x) > 0);
            assert(ordered.to_multiset().count(x) > 0);
            assert(ordered.contains(x));
        }
    }
    let inp = Input { D, rs, ts };
    proof {
        assert(inp.ts@.len() == d * d - 1 - n);
        let k0 = iter - 1;
        assert(exists|k: int| first_connected(seed, d, n, k));
        let kc = choose|k: int| first_connected(seed, d, n, k);
        lemma_first_connected_unique(seed, d, n, kc, k0);
    }
    Some(inp)
}

} // verus!
