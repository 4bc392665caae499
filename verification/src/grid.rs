//! The yard: an `n x n` grid stored row by row, its free squares, and which squares
//! can be walked to from the entrance at the middle of the top row.

use vstd::prelude::*;

use crate::minmax::SetMinMax;

verus! {

/// Content of a square that holds nothing.
pub const EMPTY: usize = usize::MAX;

/// Content of a square that holds an obstacle.
pub const OBSTACLE: usize = usize::MAX - 1;

/// `c` is a square of the `n x n` grid.
pub open spec fn in_grid(n: int, c: (int, int)) -> bool {
    0 <= c.0 < n && 0 <= c.1 < n
}

/// Position of square `c` in the row-by-row storage of the grid.
pub open spec fn cell_index(n: int, c: (int, int)) -> int {
    c.0 * n + c.1
}

/// Square `c` lies in the grid and holds nothing.
pub open spec fn is_free(n: int, cs: Seq<usize>, c: (int, int)) -> bool {
    in_grid(n, c) && cs[cell_index(n, c)] == EMPTY
}

/// The entrance: the middle square of the top row.
pub open spec fn entrance(n: int) -> (int, int) {
    (0, n / 2)
}

/// The neighbour of `c` in direction `d`: right, down, left, up.
pub open spec fn step(c: (int, int), d: int) -> (int, int) {
    if d == 0 {
        (c.0, c.1 + 1)
    } else if d == 1 {
        (c.0 + 1, c.1)
    } else if d == 2 {
        (c.0, c.1 - 1)
    } else {
        (c.0 - 1, c.1)
    }
}

/// `a` and `b` share a side.
pub open spec fn adjacent(a: (int, int), b: (int, int)) -> bool {
    exists|d: int| 0 <= d < 4 && #[trigger] step(a, d) == b
}

/// `p` is a walk over free squares, each step to a square that shares a side.
pub open spec fn is_walk(n: int, cs: Seq<usize>, p: Seq<(int, int)>) -> bool {
    &&& p.len() > 0
    &&& forall|k: int| 0 <= k < p.len() ==> is_free(n, cs, #[trigger] p[k])
    &&& forall|k: int| 0 <= k < p.len() - 1 ==> adjacent(#[trigger] p[k], p[k + 1])
}

/// Some walk over free squares leads from `s` to `t`.
pub open spec fn reaches(n: int, cs: Seq<usize>, s: (int, int), t: (int, int)) -> bool {
    exists|p: Seq<(int, int)>| #[trigger] is_walk(n, cs, p) && p[0] == s && p.last() == t
}

/// The entrance is free and some walk over free squares leads from it to `t`.
pub open spec fn accessible(n: int, cs: Seq<usize>, t: (int, int)) -> bool {
    is_free(n, cs, entrance(n)) && reaches(n, cs, entrance(n), t)
}

/// Square `c` carries the mark `it` in `vis`.
pub open spec fn seen(vis: Seq<usize>, it: usize, n: int, c: (int, int)) -> bool {
    vis[cell_index(n, c)] == it
}

/// Every free neighbour of `c` carries the mark `it`.
pub open spec fn closed_at(n: int, cs: Seq<usize>, vis: Seq<usize>, it: usize, c: (int, int)) -> bool {
    forall|d: int| 0 <= d < 4 && is_free(n, cs, #[trigger] step(c, d)) ==> seen(vis, it, n, step(c, d))
}

/// `c` is one of the squares on the stack.
pub open spec fn on_stack(stack: Seq<(usize, usize)>, c: (int, int)) -> bool {
    exists|k: int| 0 <= k < stack.len() && #[trigger] stack[k].0 as int == c.0 && stack[k].1 as int == c.1
}

/// Number of marks in `vis` below `it`.
pub open spec fn count_below(vis: Seq<usize>, it: usize) -> nat
    decreases vis.len(),
{
    if vis.len() == 0 {
        0
    } else {
        count_below(vis.drop_last(), it) + (if vis.last() < it { 1nat } else { 0nat })
    }
}

/// What the search keeps true: marked squares are free, accessible and the target
/// is found among them only through the stack; a marked square that has left the
/// stack (other than `except`, which is being expanded) has all its free
/// neighbours marked.
pub open spec fn search_inv(
    n: int,
    cs: Seq<usize>,
    vis: Seq<usize>,
    it: usize,
    stack: Seq<(usize, usize)>,
    target: (int, int),
    except: (int, int),
) -> bool {
    &&& n >= 1
    &&& cs.len() >= n * n
    &&& vis.len() >= n * n
    &&& forall|k: int| 0 <= k < n * n ==> #[trigger] vis[k] <= it
    &&& is_free(n, cs, entrance(n))
    &&& forall|c: (int, int)|
        in_grid(n, c) && #[trigger] seen(vis, it, n, c) ==> is_free(n, cs, c) && reaches(
            n,
            cs,
            entrance(n),
            c,
        )
    &&& forall|k: int|
        0 <= k < stack.len() ==> in_grid(n, (#[trigger] stack[k].0 as int, stack[k].1 as int))
            && seen(vis, it, n, (stack[k].0 as int, stack[k].1 as int))
    &&& forall|c: (int, int)|
        in_grid(n, c) && #[trigger] seen(vis, it, n, c) && !on_stack(stack, c) && c != except
            ==> c != target && closed_at(n, cs, vis, it, c)
}

pub proof fn lemma_index_bounds(n: int, c: (int, int))
    requires
        in_grid(n, c),
    ensures
        0 <= cell_index(n, c) < n * n,
{
    assert(0 <= c.0 * n + c.1 < n * n) by (nonlinear_arith)
        requires
            0 <= c.0 < n,
            0 <= c.1 < n,
    ;
}

pub proof fn lemma_index_injective(n: int, a: (int, int), b: (int, int))
    requires
        in_grid(n, a),
        in_grid(n, b),
        cell_index(n, a) == cell_index(n, b),
    ensures
        a == b,
{
    if a.0 < b.0 {
        assert(a.0 * n + a.1 < b.0 * n + b.1) by (nonlinear_arith)
            requires
                a.0 < b.0,
                0 <= a.1 < n,
                0 <= b.1,
        ;
    } else if b.0 < a.0 {
        assert(b.0 * n + b.1 < a.0 * n + a.1) by (nonlinear_arith)
            requires
                b.0 < a.0,
                0 <= b.1 < n,
                0 <= a.1,
        ;
    }
}

/// Marking one more square keeps every other mark as it was.
proof fn lemma_mark(n: int, vis: Seq<usize>, it: usize, q: (int, int))
    requires
        vis.len() >= n * n,
        in_grid(n, q),
    ensures
        forall|c: (int, int)|
            in_grid(n, c) ==> (#[trigger] seen(vis.update(cell_index(n, q), it), it, n, c) <==> (
            seen(vis, it, n, c) || c == q)),
{
    lemma_index_bounds(n, q);
    assert forall|c: (int, int)| in_grid(n, c) implies (#[trigger] seen(
        vis.update(cell_index(n, q), it),
        it,
        n,
        c,
    ) <==> (seen(vis, it, n, c) || c == q)) by {
        lemma_index_bounds(n, c);
        if cell_index(n, c) == cell_index(n, q) {
            lemma_index_injective(n, c, q);
        }
    }
}

proof fn lemma_count_mark(vis: Seq<usize>, it: usize, k: int)
    requires
        0 <= k < vis.len(),
        vis[k] < it,
    ensures
        count_below(vis, it) >= 1,
        count_below(vis.update(k, it), it) == count_below(vis, it) - 1,
    decreases vis.len(),
{
    let u = vis.update(k, it);
    if k == vis.len() - 1 {
        assert(u.drop_last() =~= vis.drop_last());
    } else {
        lemma_count_mark(vis.drop_last(), it, k);
        assert(u.drop_last() =~= vis.drop_last().update(k, it));
    }
}

/// A walk that stays on free squares can be followed by one more free square.
pub proof fn lemma_reach_extend(n: int, cs: Seq<usize>, s: (int, int), a: (int, int), b: (int, int))
    requires
        reaches(n, cs, s, a),
        is_free(n, cs, b),
        adjacent(a, b),
    ensures
        reaches(n, cs, s, b),
{
    let p = choose|p: Seq<(int, int)>| #[trigger] is_walk(n, cs, p) && p[0] == s && p.last() == a;
    let q = p.push(b);
    assert forall|k: int| 0 <= k < q.len() implies is_free(n, cs, #[trigger] q[k]) by {
        if k < p.len() {
            assert(q[k] == p[k]);
        }
    }
    assert forall|k: int| 0 <= k < q.len() - 1 implies adjacent(#[trigger] q[k], q[k + 1]) by {
        assert(q[k] == p[k]);
        if k < p.len() - 1 {
            assert(q[k + 1] == p[k + 1]);
        }
    }
    assert(is_walk(n, cs, q));
}

/// A set of marked squares that holds the start of a walk and every free
/// neighbour of its members holds the whole walk.
proof fn lemma_walk_marked(n: int, cs: Seq<usize>, vis: Seq<usize>, it: usize, p: Seq<(int, int)>)
    requires
        is_walk(n, cs, p),
        seen(vis, it, n, p[0]),
        forall|c: (int, int)|
            in_grid(n, c) && #[trigger] seen(vis, it, n, c) ==> closed_at(n, cs, vis, it, c),
    ensures
        seen(vis, it, n, p.last()),
    decreases p.len(),
{
    if p.len() > 1 {
        let q = p.drop_last();
        assert forall|k: int| 0 <= k < q.len() implies is_free(n, cs, #[trigger] q[k]) by {
            assert(q[k] == p[k]);
        }
        assert forall|k: int| 0 <= k < q.len() - 1 implies adjacent(#[trigger] q[k], q[k + 1]) by {
            assert(q[k] == p[k]);
            assert(q[k + 1] == p[k + 1]);
        }
        lemma_walk_marked(n, cs, vis, it, q);
        let a = p[p.len() - 2];
        assert(a == q.last());
        assert(is_free(n, cs, a));
        assert(adjacent(a, p.last()));
        let d = choose|d: int| 0 <= d < 4 && #[trigger] step(a, d) == p.last();
        assert(closed_at(n, cs, vis, it, a));
        assert(is_free(n, cs, step(a, d)));
    }
}

/// One step of the search from square `(i, j)`: look at its neighbour in direction
/// `d` and mark and stack it when it is free and not yet marked.
fn visit(
    n: usize,
    cs: &Vec<usize>,
    visited: &mut Vec<usize>,
    stack: &mut Vec<(usize, usize)>,
    it: usize,
    i: usize,
    j: usize,
    d: usize,
    Ghost(target): Ghost<(int, int)>,
)
    requires
        d < 4,
        search_inv(n as int, cs@, old(visited)@, it, old(stack)@, target, (i as int, j as int)),
        in_grid(n as int, (i as int, j as int)),
        seen(old(visited)@, it, n as int, (i as int, j as int)),
        (i as int, j as int) != target,
    ensures
        search_inv(n as int, cs@, final(visited)@, it, final(stack)@, target, (i as int, j as int)),
        forall|c: (int, int)|
            in_grid(n as int, c) && #[trigger] seen(old(visited)@, it, n as int, c) ==> seen(
                final(visited)@,
                it,
                n as int,
                c,
            ),
        is_free(n as int, cs@, step((i as int, j as int), d as int)) ==> seen(
            final(visited)@,
            it,
            n as int,
            step((i as int, j as int), d as int),
        ),
        2 * count_below(final(visited)@, it) + final(stack)@.len() <= 2 * count_below(
            old(visited)@,
            it,
        ) + old(stack)@.len(),
        final(visited)@.len() == old(visited)@.len(),
        forall|k: int|
            0 <= k < final(visited)@.len() ==> #[trigger] final(visited)@[k] == old(visited)@[k]
                || final(visited)@[k] == it,
{
    let ghost ni = n as int;
    let ghost p = (i as int, j as int);
    let (di, dj): (usize, usize) = if d == 0 {
        (0, 1)
    } else if d == 1 {
        (1, 0)
    } else if d == 2 {
        (0, usize::MAX)
    } else {
        (usize::MAX, 0)
    };
    let i2 = i.wrapping_add(di);
    let j2 = j.wrapping_add(dj);
    let ghost q = step(p, d as int);
    proof {
        assert(n * n <= usize::MAX) by {
            assert(cs.len() >= ni * ni);
        }
        if ni > 1 {
            assert(ni <= ni * ni) by (nonlinear_arith)
                requires
                    ni > 1,
            ;
        }
        assert(in_grid(ni, q) <==> (i2 < n && j2 < n));
        assert(in_grid(ni, q) ==> q == (i2 as int, j2 as int));
    }
    if i2 < n && j2 < n {
        proof {
            lemma_index_bounds(ni, q);
        }
        let k = i2 * n + j2;
        if cs[k] == EMPTY {
            let mut v = visited[k];
            if v.setmax(it) {
                let ghost old_vis = visited@;
                let ghost old_stack = stack@;
                visited.set(k, v);
                stack.push((i2, j2));
                proof {
                    lemma_mark(ni, old_vis, it, q);
                    lemma_count_mark(old_vis, it, k as int);
                    assert(reaches(ni, cs@, entrance(ni), p));
                    assert(adjacent(p, q));
                    lemma_reach_extend(ni, cs@, entrance(ni), p, q);
                    assert forall|kk: int| 0 <= kk < visited@.len() implies (kk < ni * ni ==> #[trigger] visited@[kk]
                        <= it) && (visited@[kk] == old_vis[kk] || visited@[kk] == it) by {
                        if kk != k {
                            assert(visited@[kk] == old_vis[kk]);
                        }
                    }
                    assert forall|kk: int| 0 <= kk < stack@.len() implies in_grid(
                        ni,
                        (#[trigger] stack@[kk].0 as int, stack@[kk].1 as int),
                    ) && seen(visited@, it, ni, (stack@[kk].0 as int, stack@[kk].1 as int)) by {
                        if kk < old_stack.len() {
                            assert(stack@[kk] == old_stack[kk]);
                            assert(seen(old_vis, it, ni, (old_stack[kk].0 as int, old_stack[kk].1 as int)));
                        }
                    }
                    assert forall|c: (int, int)|
                        in_grid(ni, c) && #[trigger] seen(visited@, it, ni, c) && !on_stack(
                            stack@,
                            c,
                        ) && c != p implies c != target && closed_at(ni, cs@, visited@, it, c) by {
                        if c == q {
                            assert(stack@[stack@.len() - 1] == (i2, j2));
                            assert(on_stack(stack@, c));
                        } else {
                            assert(seen(old_vis, it, ni, c));
                            if on_stack(old_stack, c) {
                                let kk = choose|kk: int|
                                    0 <= kk < old_stack.len() && #[trigger] old_stack[kk].0 as int
                                        == c.0 && old_stack[kk].1 as int == c.1;
                                assert(stack@[kk] == old_stack[kk]);
                                assert(on_stack(stack@, c));
                            }
                            assert(closed_at(ni, cs@, old_vis, it, c));
                            assert forall|dd: int|
                                0 <= dd < 4 && is_free(ni, cs@, #[trigger] step(c, dd)) implies seen(
                                visited@,
                                it,
                                ni,
                                step(c, dd),
                            ) by {
                                assert(seen(old_vis, it, ni, step(c, dd)));
                            }
                        }
                    }
                }
            }
        }
    }
}

/// Whether square `(ti, tj)` can be walked to from the entrance over free squares
/// (those holding `EMPTY`); never when the entrance itself is not free, and then
/// nothing is changed. Otherwise the search marks the squares it reaches in
/// `visited` with a fresh round number, which it stores in `iter`, so that
/// `visited` can be reused between calls without being cleared; every other mark
/// keeps its value.
pub fn reachable(
    n: usize,
    cs: &Vec<usize>,
    ti: usize,
    tj: usize,
    visited: &mut Vec<usize>,
    iter: &mut usize,
) -> (found: bool)
    requires
        cs@.len() > n / 2,
        cs@[(n / 2) as int] == EMPTY ==> {
            &&& n >= 1
            &&& cs@.len() >= n * n
            &&& old(visited)@.len() >= n * n
            &&& *old(iter) < usize::MAX
            &&& forall|k: int| 0 <= k < n * n ==> #[trigger] old(visited)@[k] <= *old(iter)
        },
    ensures
        found == accessible(n as int, cs@, (ti as int, tj as int)),
        final(visited)@.len() == old(visited)@.len(),
        forall|k: int|
            0 <= k < final(visited)@.len() ==> #[trigger] final(visited)@[k] == old(visited)@[k]
                || final(visited)@[k] == *final(iter),
        cs@[(n / 2) as int] != EMPTY ==> *final(iter) == *old(iter) && final(visited)@ == old(visited)@,
        cs@[(n / 2) as int] == EMPTY ==> *final(iter) == *old(iter) + 1,
        cs@[(n / 2) as int] == EMPTY ==> forall|k: int|
            0 <= k < n * n ==> #[trigger] final(visited)@[k] <= *final(iter),
        cs@[(n / 2) as int] == EMPTY && !found ==> forall|c: (int, int)|
            in_grid(n as int, c) ==> (#[trigger] seen(final(visited)@, *final(iter), n as int, c)
                <==> reaches(n as int, cs@, entrance(n as int), c)),
{
    let ghost ni = n as int;
    let ghost ent = entrance(ni);
    let ghost target = (ti as int, tj as int);
    if cs[n / 2] != EMPTY {
        proof {
            if ni >= 1 {
                assert(ni / 2 < ni);
                assert(cell_index(ni, ent) == ni / 2);
            }
        }
        return false;
    }
    proof {
        assert(ni / 2 < ni);
        lemma_index_bounds(ni, ent);
        assert(cell_index(ni, ent) == ni / 2);
    }
    *iter += 1;
    let it = *iter;
    let ghost vis0 = visited@;
    let mut stack: Vec<(usize, usize)> = Vec::new();
    stack.push((0, n / 2));
    visited.set(n / 2, it);
    proof {
        lemma_mark(ni, vis0, it, ent);
        assert(is_walk(ni, cs@, seq![ent]));
        assert(reaches(ni, cs@, ent, ent));
        assert forall|k: int| 0 <= k < visited@.len() implies (k < ni * ni ==> #[trigger] visited@[k] <= it) && (visited@[k]
            == vis0[k] || visited@[k] == it) by {
            if k != ni / 2 {
                assert(visited@[k] == vis0[k]);
            }
        }
        assert forall|c: (int, int)| in_grid(ni, c) && #[trigger] seen(visited@, it, ni, c) implies c
            == ent by {
            lemma_index_bounds(ni, c);
            assert(!seen(vis0, it, ni, c));
        }
        assert forall|k: int| 0 <= k < stack@.len() implies in_grid(
            ni,
            (#[trigger] stack@[k].0 as int, stack@[k].1 as int),
        ) && seen(visited@, it, ni, (stack@[k].0 as int, stack@[k].1 as int)) by {
            assert(stack@[k] == (0usize, n / 2));
        }
        assert(on_stack(stack@, ent)) by {
            assert(stack@[0] == (0usize, n / 2));
        }
        assert(search_inv(ni, cs@, visited@, it, stack@, target, (-1, -1)));
        assert(seen(visited@, it, ni, ent));
    }
    while stack.len() > 0
        invariant
            ni == n as int,
            ent == entrance(ni),
            target == (ti as int, tj as int),
            it == *iter,
            it == *old(iter) + 1,
            cs@[(n / 2) as int] == EMPTY,
            visited@.len() == old(visited)@.len(),
            forall|k: int|
                0 <= k < visited@.len() ==> #[trigger] visited@[k] == old(visited)@[k] || visited@[k] == it,
            seen(visited@, it, ni, ent),
            search_inv(ni, cs@, visited@, it, stack@, target, (-1, -1)),
        decreases 2 * count_below(visited@, it) + stack@.len(),
    {
        let ghost vis1 = visited@;
        let ghost stack1 = stack@;
        let (i, j) = stack.pop().unwrap();
        let ghost p = (i as int, j as int);
        proof {
            assert(stack1[stack1.len() - 1] == (i, j));
            assert(in_grid(ni, p) && seen(vis1, it, ni, p));
        }
        if i == ti && j == tj {
            return true;
        }
        proof {
            assert forall|k: int| 0 <= k < stack@.len() implies in_grid(
                ni,
                (#[trigger] stack@[k].0 as int, stack@[k].1 as int),
            ) && seen(visited@, it, ni, (stack@[k].0 as int, stack@[k].1 as int)) by {
                assert(stack@[k] == stack1[k]);
            }
            assert forall|c: (int, int)|
                in_grid(ni, c) && #[trigger] seen(visited@, it, ni, c) && !on_stack(stack@, c) && c
                    != p implies c != target && closed_at(ni, cs@, visited@, it, c) by {
                if on_stack(stack1, c) {
                    let k = choose|k: int|
                        0 <= k < stack1.len() && #[trigger] stack1[k].0 as int == c.0 && stack1[k].1
                            as int == c.1;
                    if k < stack1.len() - 1 {
                        assert(stack@[k] == stack1[k]);
                    }
                }
            }
        }
        visit(n, cs, visited, &mut stack, it, i, j, 0, Ghost(target));
        let ghost vis_a = visited@;
        visit(n, cs, visited, &mut stack, it, i, j, 1, Ghost(target));
        let ghost vis_b = visited@;
        visit(n, cs, visited, &mut stack, it, i, j, 2, Ghost(target));
        let ghost vis_c = visited@;
        visit(n, cs, visited, &mut stack, it, i, j, 3, Ghost(target));
        proof {
            assert forall|k: int| 0 <= k < visited@.len() implies #[trigger] visited@[k] == old(
                visited,
            )@[k] || visited@[k] == it by {
                assert(vis_c[k] == vis_b[k] || vis_c[k] == it);
                assert(vis_b[k] == vis_a[k] || vis_b[k] == it);
                assert(vis_a[k] == vis1[k] || vis_a[k] == it);
                assert(vis1[k] == old(visited)@[k] || vis1[k] == it);
            }
            assert(closed_at(ni, cs@, visited@, it, p)) by {
                assert forall|d: int|
                    0 <= d < 4 && is_free(ni, cs@, #[trigger] step(p, d)) implies seen(
                    visited@,
                    it,
                    ni,
                    step(p, d),
                ) by {
                    lemma_index_bounds(ni, step(p, d));
                    if d == 0 {
                        assert(seen(vis_a, it, ni, step(p, d)));
                        assert(seen(vis_b, it, ni, step(p, d)));
                        assert(seen(vis_c, it, ni, step(p, d)));
                    } else if d == 1 {
                        assert(seen(vis_b, it, ni, step(p, d)));
                        assert(seen(vis_c, it, ni, step(p, d)));
                    } else if d == 2 {
                        assert(seen(vis_c, it, ni, step(p, d)));
                    }
                }
            }
            assert(p != target);
        }
    }
    proof {
        assert forall|c: (int, int)| in_grid(ni, c) implies (#[trigger] seen(visited@, it, ni, c)
            <==> reaches(ni, cs@, ent, c)) by {
            if reaches(ni, cs@, ent, c) {
                let w = choose|w: Seq<(int, int)>| #[trigger] is_walk(ni, cs@, w) && w[0] == ent && w.last() == c;
                lemma_walk_marked(ni, cs@, visited@, it, w);
            }
        }
        if accessible(ni, cs@, target) {
            let w = choose|w: Seq<(int, int)>| #[trigger] is_walk(ni, cs@, w) && w[0] == ent && w.last() == target;
            assert(is_free(ni, cs@, w.last()));
            lemma_walk_marked(ni, cs@, visited@, it, w);
            assert(!on_stack(stack@, target));
        }
    }
    false
}

} // verus!
