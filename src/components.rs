//! Connected regions of unmarked cells, counted by an explicit-stack flood fill.
use vstd::prelude::*;
use vstd::relations::injective_on;
use crate::grid::{rows, is_square};

verus! {

/// `p` lies inside an `n` by `n` grid.
pub open spec fn in_grid(n: int, p: (int, int)) -> bool {
    0 <= p.0 < n && 0 <= p.1 < n
}

/// `p` is an unmarked cell of the marking `m`.
pub open spec fn is_open(m: Seq<Seq<bool>>, p: (int, int)) -> bool {
    in_grid(m.len() as int, p) && !m[p.0][p.1]
}

/// `p` and `q` share a side.
pub open spec fn adjacent(p: (int, int), q: (int, int)) -> bool {
    (p.0 == q.0 && (p.1 == q.1 + 1 || q.1 == p.1 + 1)) || (p.1 == q.1 && (p.0 == q.0 + 1
        || q.0 == p.0 + 1))
}

/// Step `k` of `path` goes to a neighbouring cell.
pub open spec fn step_ok(path: Seq<(int, int)>, k: int) -> bool {
    adjacent(path[k], path[k + 1])
}

/// `path` is a non-empty walk through unmarked cells, each step to a neighbour.
pub open spec fn is_path(m: Seq<Seq<bool>>, path: Seq<(int, int)>) -> bool {
    &&& path.len() > 0
    &&& forall|k: int| 0 <= k < path.len() ==> is_open(m, #[trigger] path[k])
    &&& forall|k: int| 0 <= k < path.len() - 1 ==> #[trigger] step_ok(path, k)
}

/// Some walk through unmarked cells leads from `p` to `q`.
pub open spec fn connected(m: Seq<Seq<bool>>, p: (int, int), q: (int, int)) -> bool {
    exists|path: Seq<(int, int)>| #[trigger] is_path(m, path) && path[0] == p && path.last() == q
}

/// `p` comes strictly before `q` in row-major order.
pub open spec fn earlier(p: (int, int), q: (int, int)) -> bool {
    p.0 < q.0 || (p.0 == q.0 && p.1 < q.1)
}

/// `q` is the first cell, in row-major order, of its region of unmarked cells.
pub open spec fn is_leader(m: Seq<Seq<bool>>, q: (int, int)) -> bool {
    is_open(m, q) && forall|p: (int, int)| #[trigger] connected(m, p, q) ==> !earlier(p, q)
}

/// The number of region leaders among the first `c` cells of row `r`.
pub open spec fn leaders_in_row(m: Seq<Seq<bool>>, r: int, c: int) -> int
    decreases c,
{
    if c <= 0 {
        0
    } else {
        leaders_in_row(m, r, c - 1) + if is_leader(m, (r, c - 1)) {
            1int
        } else {
            0int
        }
    }
}

/// The number of region leaders in the first `r` rows.
pub open spec fn leaders_in_rows(m: Seq<Seq<bool>>, r: int) -> int
    decreases r,
{
    if r <= 0 {
        0
    } else {
        leaders_in_rows(m, r - 1) + leaders_in_row(m, r - 1, m.len() as int)
    }
}

/// The number of 4-connected regions of unmarked cells: each region has
/// exactly one first cell in row-major order.
pub open spec fn regions(m: Seq<Seq<bool>>) -> int {
    leaders_in_rows(m, m.len() as int)
}

/// Some unmarked cell before `k` in row-major order reaches `q`.
pub open spec fn reached_before(m: Seq<Seq<bool>>, k: (int, int), q: (int, int)) -> bool {
    exists|p: (int, int)| earlier(p, k) && #[trigger] connected(m, p, q)
}

/// Cell `p` of the grid of flags `v` is set.
pub open spec fn flag(v: Seq<Seq<bool>>, p: (int, int)) -> bool {
    v[p.0][p.1]
}

/// Every set cell's unmarked neighbours are set too.
pub open spec fn closed(m: Seq<Seq<bool>>, v: Seq<Seq<bool>>) -> bool {
    forall|q: (int, int), s: (int, int)|
        in_grid(m.len() as int, q) && #[trigger] flag(v, q) && #[trigger] adjacent(q, s) && is_open(
            m,
            s,
        ) ==> flag(v, s)
}

/// `q` stands somewhere on the stack.
pub open spec fn on_stack(stack: Seq<(usize, usize)>, q: (int, int)) -> bool {
    exists|k: int| 0 <= k < stack.len() && #[trigger] stack[k].0 == q.0 && stack[k].1 == q.1
}

/// Every set cell but `u` with an unset unmarked neighbour is still on the stack.
pub open spec fn frontier_except(
    m: Seq<Seq<bool>>,
    v: Seq<Seq<bool>>,
    stack: Seq<(usize, usize)>,
    u: (int, int),
) -> bool {
    forall|q: (int, int), s: (int, int)|
        in_grid(m.len() as int, q) && q != u && #[trigger] flag(v, q) && #[trigger] adjacent(q, s)
            && is_open(m, s) && !flag(v, s) ==> on_stack(stack, q)
}

/// The number of set flags in a row.
pub open spec fn count_row(s: Seq<bool>) -> int
    decreases s.len(),
{
    if s.len() == 0 {
        0
    } else {
        count_row(s.drop_last()) + if s.last() {
            1int
        } else {
            0int
        }
    }
}

/// The number of set flags in a grid.
pub open spec fn count_grid(v: Seq<Seq<bool>>) -> int
    decreases v.len(),
{
    if v.len() == 0 {
        0
    } else {
        count_grid(v.drop_last()) + count_row(v.last())
    }
}

proof fn lemma_count_row_bounds(s: Seq<bool>)
    ensures
        0 <= count_row(s) <= s.len(),
    decreases s.len(),
{
    if s.len() > 0 {
        lemma_count_row_bounds(s.drop_last());
    }
}

proof fn lemma_count_row_set(s: Seq<bool>, i: int)
    requires
        0 <= i < s.len(),
        !s[i],
    ensures
        count_row(s.update(i, true)) == count_row(s) + 1,
    decreases s.len(),
{
    let t = s.update(i, true);
    if i == s.len() - 1 {
        assert(t.drop_last() =~= s.drop_last());
    } else {
        assert(t.drop_last() =~= s.drop_last().update(i, true));
        lemma_count_row_set(s.drop_last(), i);
    }
}

proof fn lemma_count_grid_bounds(v: Seq<Seq<bool>>, n: int)
    requires
        n >= 0,
        forall|i: int| 0 <= i < v.len() ==> #[trigger] v[i].len() == n,
    ensures
        0 <= count_grid(v) <= v.len() * n,
    decreases v.len(),
{
    if v.len() > 0 {
        lemma_count_grid_bounds(v.drop_last(), n);
        lemma_count_row_bounds(v.last());
        let k = v.len() - 1;
        assert(k * n + n == v.len() * n) by (nonlinear_arith)
            requires k == v.len() - 1;
    }
}

proof fn lemma_count_grid_set(v: Seq<Seq<bool>>, i: int, j: int)
    requires
        0 <= i < v.len(),
        0 <= j < v[i].len(),
        !v[i][j],
    ensures
        count_grid(v.update(i, v[i].update(j, true))) == count_grid(v) + 1,
    decreases v.len(),
{
    let w = v.update(i, v[i].update(j, true));
    lemma_count_row_set(v[i], j);
    if i == v.len() - 1 {
        assert(w.drop_last() =~= v.drop_last());
    } else {
        assert(w.drop_last() =~= v.drop_last().update(i, v[i].update(j, true)));
        lemma_count_grid_set(v.drop_last(), i, j);
    }
}

proof fn lemma_path_extend(m: Seq<Seq<bool>>, path: Seq<(int, int)>, s: (int, int))
    requires
        is_path(m, path),
        adjacent(path.last(), s),
        is_open(m, s),
    ensures
        is_path(m, path.push(s)),
{
    let longer = path.push(s);
    assert forall|k: int| 0 <= k < longer.len() implies is_open(m, #[trigger] longer[k]) by {
        if k < path.len() {
            assert(longer[k] == path[k]);
        }
    }
    assert forall|k: int| 0 <= k < longer.len() - 1 implies #[trigger] step_ok(longer, k) by {
        if k < path.len() - 1 {
            assert(step_ok(path, k));
        }
    }
}

/// Regions are transitive: a walk from `p` to `q` and one from `q` to `s`
/// join into one from `p` to `s`.
pub proof fn lemma_connected_trans(m: Seq<Seq<bool>>, p: (int, int), q: (int, int), s: (int, int))
    requires
        connected(m, p, q),
        connected(m, q, s),
    ensures
        connected(m, p, s),
{
    let a = choose|path: Seq<(int, int)>| #[trigger] is_path(m, path) && path[0] == p && path.last() == q;
    let b = choose|path: Seq<(int, int)>| #[trigger] is_path(m, path) && path[0] == q && path.last() == s;
    let c = a + b.drop_first();
    assert forall|k: int| 0 <= k < c.len() implies is_open(m, #[trigger] c[k]) by {
        if k < a.len() {
            assert(c[k] == a[k]);
        } else {
            assert(c[k] == b[k - a.len() + 1]);
        }
    }
    assert forall|k: int| 0 <= k < c.len() - 1 implies #[trigger] step_ok(c, k) by {
        if k < a.len() - 1 {
            assert(step_ok(a, k));
        } else if k == a.len() - 1 {
            assert(step_ok(b, 0));
            assert(c[k] == a.last());
            assert(c[k + 1] == b[1]);
        } else {
            assert(step_ok(b, k - a.len() + 1));
            assert(c[k] == b[k - a.len() + 1]);
            assert(c[k + 1] == b[k - a.len() + 2]);
        }
    }
    assert(c[0] == p);
    if b.len() == 1 {
        assert(c =~= a);
    } else {
        assert(c.last() == b.last());
    }
    assert(is_path(m, c));
}

proof fn lemma_connected_step(m: Seq<Seq<bool>>, p: (int, int), u: (int, int), s: (int, int))
    requires
        connected(m, p, u),
        adjacent(u, s),
        is_open(m, s),
    ensures
        connected(m, p, s),
{
    let a = choose|path: Seq<(int, int)>| #[trigger] is_path(m, path) && path[0] == p && path.last() == u;
    lemma_path_extend(m, a, s);
    let b = a.push(s);
    assert(b[0] == p && b.last() == s);
}

/// Both ends of a walk are unmarked cells.
proof fn lemma_connected_open(m: Seq<Seq<bool>>, p: (int, int), q: (int, int))
    requires
        connected(m, p, q),
    ensures
        is_open(m, p),
        is_open(m, q),
{
    let a = choose|path: Seq<(int, int)>| #[trigger] is_path(m, path) && path[0] == p && path.last() == q;
    assert(is_open(m, a[0]));
    assert(is_open(m, a[a.len() - 1]));
}

proof fn lemma_closed_reach(m: Seq<Seq<bool>>, v: Seq<Seq<bool>>, path: Seq<(int, int)>)
    requires
        closed(m, v),
        is_path(m, path),
        flag(v, path[0]),
    ensures
        flag(v, path.last()),
    decreases path.len(),
{
    if path.len() > 1 {
        let pre = path.drop_last();
        assert forall|k: int| 0 <= k < pre.len() implies is_open(m, #[trigger] pre[k]) by {
            assert(pre[k] == path[k]);
        }
        assert forall|k: int| 0 <= k < pre.len() - 1 implies #[trigger] step_ok(pre, k) by {
            assert(step_ok(path, k));
        }
        lemma_closed_reach(m, v, pre);
        assert(step_ok(path, path.len() - 2));
        assert(is_open(m, path[path.len() - 1]));
        assert(flag(v, pre.last()) && adjacent(pre.last(), path.last()));
    }
}

proof fn lemma_connected_refl(m: Seq<Seq<bool>>, p: (int, int))
    requires
        is_open(m, p),
    ensures
        connected(m, p, p),
{
    let path = seq![p];
    assert(path[0] == p);
    assert(is_path(m, path));
}

/// Sets flag `(r, c)` of `v`.
pub(crate) fn set_flag(v: &mut Vec<Vec<bool>>, r: usize, c: usize)
    requires
        r < old(v)@.len(),
        c < old(v)@[r as int]@.len(),
    ensures
        final(v)@.len() == old(v)@.len(),
        rows(final(v)@) == rows(old(v)@).update(r as int, rows(old(v)@)[r as int].update(c as int, true)),
{
    let mut row: Vec<bool> = Vec::new();
    v.set_and_swap(r, &mut row);
    row.set(c, true);
    v.set_and_swap(r, &mut row);
    assert(rows(v@) =~= rows(old(v)@).update(r as int, rows(old(v)@)[r as int].update(c as int, true)));
}


/// Sets and pushes cell `(x, y)` when it is unmarked and not yet set.
fn visit(
    marks: &Vec<Vec<bool>>,
    visited: &mut Vec<Vec<bool>>,
    stack: &mut Vec<(usize, usize)>,
    x: usize,
    y: usize,
    Ghost(u): Ghost<(int, int)>,
    Ghost(start): Ghost<(int, int)>,
    Ghost(v0): Ghost<Seq<Seq<bool>>>,
)
    requires
        is_open(rows(marks@), (x as int, y as int)) ==> connected(rows(marks@), start, (x as int, y as int)),
        forall|q: (int, int)|
            in_grid(marks@.len() as int, q) && #[trigger] flag(rows(old(visited)@), q) ==> flag(v0, q)
                || connected(rows(marks@), start, q),
        forall|k: int|
            0 <= k < old(stack)@.len() ==> #[trigger] old(stack)@[k].0 < marks@.len() && old(stack)@[k].1
                < marks@.len() && connected(
                rows(marks@),
                start,
                (old(stack)@[k].0 as int, old(stack)@[k].1 as int),
            ),
        is_square(rows(marks@), marks@.len() as int),
        is_square(rows(old(visited)@), marks@.len() as int),
        x < marks@.len(),
        y < marks@.len(),
        frontier_except(rows(marks@), rows(old(visited)@), old(stack)@, u),
    ensures
        is_square(rows(final(visited)@), marks@.len() as int),
        frontier_except(rows(marks@), rows(final(visited)@), final(stack)@, u),
        forall|q: (int, int)|
            in_grid(marks@.len() as int, q) && #[trigger] flag(rows(final(visited)@), q) ==> flag(v0, q)
                || connected(rows(marks@), start, q),
        forall|k: int|
            0 <= k < final(stack)@.len() ==> #[trigger] final(stack)@[k].0 < marks@.len() && final(stack)@[k].1
                < marks@.len() && connected(
                rows(marks@),
                start,
                (final(stack)@[k].0 as int, final(stack)@[k].1 as int),
            ),
        flag(rows(final(visited)@), (x as int, y as int)) <==> (flag(rows(old(visited)@), (x as int, y as int))
            || is_open(rows(marks@), (x as int, y as int))),
        forall|q: (int, int)|
            in_grid(marks@.len() as int, q) ==> (#[trigger] flag(rows(final(visited)@), q) <==> (flag(
                rows(old(visited)@),
                q,
            ) || (q == (x as int, y as int) && is_open(rows(marks@), q)))),
        count_grid(rows(final(visited)@)) - count_grid(rows(old(visited)@)) == final(stack)@.len()
            - old(stack)@.len(),
        final(stack)@.len() >= old(stack)@.len(),
        forall|k: int| 0 <= k < old(stack)@.len() ==> #[trigger] final(stack)@[k] == old(stack)@[k],
        forall|k: int|
            old(stack)@.len() <= k < final(stack)@.len() ==> #[trigger] final(stack)@[k] == (x, y)
                && is_open(rows(marks@), (x as int, y as int)),
{
    let ghost m = rows(marks@);
    let ghost w0 = rows(visited@);
    let ghost n = marks@.len() as int;
    assert(m[x as int] == marks@[x as int]@ && m[x as int].len() == n);
    assert(w0[x as int] == visited@[x as int]@ && w0[x as int].len() == n);
    if !marks[x][y] && !visited[x][y] {
        set_flag(visited, x, y);
        stack.push((x, y));
        let ghost v1 = rows(visited@);
        proof {
            lemma_count_grid_set(w0, x as int, y as int);
            assert forall|i: int| 0 <= i < n implies #[trigger] v1[i].len() == n by {
                assert(w0[i].len() == n);
            }
            assert forall|q: (int, int), s: (int, int)|
                in_grid(n, q) && q != u && #[trigger] flag(v1, q) && #[trigger] adjacent(q, s)
                    && is_open(m, s) && !flag(v1, s) implies on_stack(stack@, q) by {
                if q == (x as int, y as int) {
                    assert(stack@[stack@.len() - 1] == (x, y));
                } else {
                    assert(flag(w0, q));
                    assert(!flag(w0, s));
                    assert(on_stack(old(stack)@, q));
                    let k = choose|k: int| 0 <= k < old(stack)@.len() && #[trigger] old(stack)@[k].0 == q.0
                        && old(stack)@[k].1 == q.1;
                    assert(stack@[k] == old(stack)@[k]);
                }
            }
            assert forall|q: (int, int)|
                in_grid(n, q) && #[trigger] flag(v1, q) implies flag(v0, q) || connected(m, start, q) by {
                if q != (x as int, y as int) {
                    assert(flag(w0, q));
                }
            }
        }
    }
}

/// Sets every cell reachable from `(r, c)` through unmarked cells.
fn flood(marks: &Vec<Vec<bool>>, visited: &mut Vec<Vec<bool>>, r: usize, c: usize)
    requires
        is_square(rows(marks@), marks@.len() as int),
        marks@.len() * marks@.len() <= usize::MAX,
        is_square(rows(old(visited)@), marks@.len() as int),
        is_open(rows(marks@), (r as int, c as int)),
        !flag(rows(old(visited)@), (r as int, c as int)),
        closed(rows(marks@), rows(old(visited)@)),
    ensures
        is_square(rows(final(visited)@), marks@.len() as int),
        closed(rows(marks@), rows(final(visited)@)),
        forall|q: (int, int)|
            in_grid(marks@.len() as int, q) ==> (#[trigger] flag(rows(final(visited)@), q) <==> (flag(
                rows(old(visited)@),
                q,
            ) || connected(rows(marks@), (r as int, c as int), q))),
{
    let ghost m = rows(marks@);
    let ghost v0 = rows(visited@);
    let ghost start = (r as int, c as int);
    let n = marks.len();
    let mut stack: Vec<(usize, usize)> = Vec::new();
    proof {
        lemma_connected_refl(m, start);
    }
    // a cell off the grid: no cell is exempt from the frontier condition
    let ghost outside = (-1int, -1int);
    visit(marks, visited, &mut stack, r, c, Ghost(outside), Ghost(start), Ghost(v0));
    proof {
        assert forall|q: (int, int), s: (int, int)|
            in_grid(n as int, q) && q != outside && #[trigger] flag(rows(visited@), q) && #[trigger] adjacent(q, s)
                && is_open(m, s) && !flag(rows(visited@), s) implies on_stack(stack@, q) by {
            if q != start {
                assert(flag(v0, q) && flag(v0, s));
            }
        }
        assert(frontier_except(m, rows(visited@), stack@, outside));
        lemma_count_grid_bounds(rows(visited@), n as int);
    }
    while stack.len() > 0
        invariant
            m == rows(marks@),
            is_square(m, n as int),
            n == marks@.len(),
            n * n <= usize::MAX,
            in_grid(n as int, start),
            outside == (-1int, -1int),
            is_square(rows(visited@), n as int),
            forall|q: (int, int)| in_grid(n as int, q) && #[trigger] flag(v0, q) ==> flag(rows(visited@), q),
            forall|q: (int, int)|
                in_grid(n as int, q) && #[trigger] flag(rows(visited@), q) ==> flag(v0, q) || connected(
                    m,
                    start,
                    q,
                ),
            flag(rows(visited@), start),
            forall|k: int|
                0 <= k < stack@.len() ==> #[trigger] stack@[k].0 < n && stack@[k].1 < n && connected(
                    m,
                    start,
                    (stack@[k].0 as int, stack@[k].1 as int),
                ),
            frontier_except(m, rows(visited@), stack@, outside),
            0 <= count_grid(rows(visited@)) <= n * n,
        decreases n * n - count_grid(rows(visited@)) + stack@.len(),
    {
        let ghost s0 = stack@;
        let ghost w0 = rows(visited@);
        let (a, b) = stack.pop().unwrap();
        let ghost u = (a as int, b as int);
        proof {
            assert(s0[s0.len() - 1] == (a, b));
            assert forall|q: (int, int), s: (int, int)|
                in_grid(n as int, q) && q != u && #[trigger] flag(w0, q) && #[trigger] adjacent(q, s)
                    && is_open(m, s) && !flag(w0, s) implies on_stack(stack@, q) by {
                if q != outside {
                    assert(on_stack(s0, q));
                    let k = choose|k: int| 0 <= k < s0.len() && #[trigger] s0[k].0 == q.0 && s0[k].1 == q.1;
                    assert(k != s0.len() - 1);
                    assert(stack@[k] == s0[k]);
                } else {
                }
            }
        }
        assert(connected(m, start, u));
        if a > 0 {
            proof {
                if is_open(m, (u.0 - 1, u.1)) {
                    lemma_connected_step(m, start, u, (u.0 - 1, u.1));
                }
            }
            visit(marks, visited, &mut stack, a - 1, b, Ghost(u), Ghost(start), Ghost(v0));
        }
        assert(is_open(m, (u.0 - 1, u.1)) ==> flag(rows(visited@), (u.0 - 1, u.1)));
        if a + 1 < n {
            proof {
                if is_open(m, (u.0 + 1, u.1)) {
                    lemma_connected_step(m, start, u, (u.0 + 1, u.1));
                }
            }
            visit(marks, visited, &mut stack, a + 1, b, Ghost(u), Ghost(start), Ghost(v0));
        }
        assert(is_open(m, (u.0 - 1, u.1)) ==> flag(rows(visited@), (u.0 - 1, u.1)));
        assert(is_open(m, (u.0 + 1, u.1)) ==> flag(rows(visited@), (u.0 + 1, u.1)));
        if b > 0 {
            proof {
                if is_open(m, (u.0, u.1 - 1)) {
                    lemma_connected_step(m, start, u, (u.0, u.1 - 1));
                }
            }
            visit(marks, visited, &mut stack, a, b - 1, Ghost(u), Ghost(start), Ghost(v0));
        }
        assert(is_open(m, (u.0 - 1, u.1)) ==> flag(rows(visited@), (u.0 - 1, u.1)));
        assert(is_open(m, (u.0 + 1, u.1)) ==> flag(rows(visited@), (u.0 + 1, u.1)));
        assert(is_open(m, (u.0, u.1 - 1)) ==> flag(rows(visited@), (u.0, u.1 - 1)));
        if b + 1 < n {
            proof {
                if is_open(m, (u.0, u.1 + 1)) {
                    lemma_connected_step(m, start, u, (u.0, u.1 + 1));
                }
            }
            visit(marks, visited, &mut stack, a, b + 1, Ghost(u), Ghost(start), Ghost(v0));
        }
        proof {
            let w = rows(visited@);
            assert(is_open(m, (u.0 - 1, u.1)) ==> flag(w, (u.0 - 1, u.1)));
            assert(is_open(m, (u.0 + 1, u.1)) ==> flag(w, (u.0 + 1, u.1)));
            assert(is_open(m, (u.0, u.1 - 1)) ==> flag(w, (u.0, u.1 - 1)));
            assert(is_open(m, (u.0, u.1 + 1)) ==> flag(w, (u.0, u.1 + 1)));
            assert forall|q: (int, int), s: (int, int)|
                in_grid(n as int, q) && q != outside && #[trigger] flag(w, q) && #[trigger] adjacent(q, s)
                    && is_open(m, s) && !flag(w, s) implies on_stack(stack@, q) by {
                if q == u {
                    assert(s == (u.0 - 1, u.1) || s == (u.0 + 1, u.1) || s == (u.0, u.1 - 1) || s == (
                        u.0,
                        u.1 + 1,
                    ));
                }
            }
            lemma_count_grid_bounds(w, n as int);
        }
    }
    proof {
        let w = rows(visited@);
        assert forall|q: (int, int), s: (int, int)|
            in_grid(n as int, q) && #[trigger] flag(w, q) && #[trigger] adjacent(q, s) && is_open(m, s)
                implies flag(w, s) by {
            if !flag(w, s) {
                assert(q != outside);
                assert(on_stack(stack@, q));
            }
        }
        assert(closed(m, w));
        assert forall|q: (int, int)| in_grid(n as int, q) && connected(m, start, q) implies #[trigger] flag(w, q) by {
            let path = choose|path: Seq<(int, int)>| #[trigger] is_path(m, path) && path[0] == start && path.last() == q;
            lemma_closed_reach(m, w, path);
        }
    }
}

proof fn lemma_leaders_in_row_mono(m: Seq<Seq<bool>>, r: int, c1: int, c2: int)
    requires
        0 <= c1 <= c2,
    ensures
        0 <= leaders_in_row(m, r, c1) <= leaders_in_row(m, r, c2),
    decreases c2,
{
    if c2 > c1 {
        lemma_leaders_in_row_mono(m, r, c1, c2 - 1);
    } else if c1 > 0 {
        lemma_leaders_in_row_mono(m, r, 0, c1 - 1);
    }
}

proof fn lemma_leaders_in_rows_mono(m: Seq<Seq<bool>>, r1: int, r2: int)
    requires
        0 <= r1 <= r2,
    ensures
        0 <= leaders_in_rows(m, r1) <= leaders_in_rows(m, r2),
    decreases r2,
{
    if r2 > 0 {
        lemma_leaders_in_row_mono(m, r2 - 1, 0, m.len() as int);
    }
    if r2 > r1 {
        lemma_leaders_in_rows_mono(m, r1, r2 - 1);
    } else if r1 > 0 {
        lemma_leaders_in_rows_mono(m, 0, r1 - 1);
    }
}

/// Every unmarked cell is reached from the leader of its region.
proof fn lemma_leader_exists(m: Seq<Seq<bool>>, q: (int, int))
    requires
        is_open(m, q),
    ensures
        exists|p: (int, int)| #[trigger] is_leader(m, p) && connected(m, p, q),
    decreases q.0, q.1,
{
    lemma_connected_refl(m, q);
    if !is_leader(m, q) {
        let p = choose|p: (int, int)| #[trigger] connected(m, p, q) && earlier(p, q);
        lemma_connected_open(m, p, q);
        lemma_leader_exists(m, p);
        let l = choose|l: (int, int)| #[trigger] is_leader(m, l) && connected(m, l, p);
        lemma_connected_trans(m, l, p, q);
    } else {
        assert(is_leader(m, q) && connected(m, q, q));
    }
}

/// The number of regions is never negative, and is zero only when every cell
/// is marked.
pub proof fn lemma_regions_zero(m: Seq<Seq<bool>>)
    requires
        is_square(m, m.len() as int),
    ensures
        regions(m) >= 0,
        regions(m) == 0 ==> forall|a: int, b: int| 0 <= a < m.len() && 0 <= b < m.len() ==> #[trigger] m[a][b],
{
    let n = m.len() as int;
    lemma_leaders_in_rows_mono(m, 0, n);
    if regions(m) == 0 {
        assert forall|a: int, b: int| 0 <= a < n && 0 <= b < n implies #[trigger] m[a][b] by {
            if !m[a][b] {
                assert(is_open(m, (a, b)));
                lemma_leader_exists(m, (a, b));
                let l = choose|l: (int, int)| #[trigger] is_leader(m, l) && connected(m, l, (a, b));
                lemma_leaders_in_row_mono(m, l.0, 0, l.1);
                lemma_leaders_in_row_mono(m, l.0, l.1 + 1, n);
                lemma_leaders_in_rows_mono(m, 0, l.0);
                lemma_leaders_in_rows_mono(m, l.0 + 1, n);
                assert(leaders_in_rows(m, l.0 + 1) >= 1);
            }
        }
    }
}

pub(crate) fn all_unset(n: usize) -> (r: Vec<Vec<bool>>)
    ensures
        is_square(rows(r@), n as int),
        forall|q: (int, int)| in_grid(n as int, q) ==> !#[trigger] flag(rows(r@), q),
{
    let mut r: Vec<Vec<bool>> = Vec::new();
    let mut i: usize = 0;
    while i < n
        invariant
            0 <= i <= n,
            r@.len() == i,
            forall|a: int| 0 <= a < i ==> #[trigger] r@[a]@.len() == n,
            forall|a: int, b: int| 0 <= a < i && 0 <= b < n ==> !#[trigger] r@[a]@[b],
        decreases n - i,
    {
        let mut row: Vec<bool> = Vec::new();
        let mut j: usize = 0;
        while j < n
            invariant
                0 <= j <= n,
                row@.len() == j,
                forall|b: int| 0 <= b < j ==> !#[trigger] row@[b],
            decreases n - j,
        {
            row.push(false);
            j += 1;
        }
        r.push(row);
        i += 1;
    }
    proof {
        assert forall|q: (int, int)| in_grid(n as int, q) implies !#[trigger] flag(rows(r@), q) by {
            assert(rows(r@)[q.0] == r@[q.0]@);
        }
        assert forall|a: int| 0 <= a < n implies #[trigger] rows(r@)[a].len() == n by {
            assert(rows(r@)[a] == r@[a]@);
        }
    }
    r
}

/// Counts the 4-connected regions of unmarked cells of a square marking; a
/// grid whose cells are all marked has none.
pub fn get_component_count(marks: &Vec<Vec<bool>>) -> (r: usize)
    requires
        is_square(rows(marks@), marks@.len() as int),
        marks@.len() * marks@.len() <= usize::MAX,
    ensures
        r == regions(rows(marks@)),
        r <= marks@.len() * marks@.len(),
{
    let ghost m = rows(marks@);
    let n = marks.len();
    let mut visited = all_unset(n);
    let mut count: usize = 0;
    proof {
        let v = rows(visited@);
        assert forall|q: (int, int)| in_grid(n as int, q) implies (#[trigger] flag(v, q) <==> reached_before(m, (0, 0), q)) by {
            if reached_before(m, (0, 0), q) {
                let p = choose|p: (int, int)| earlier(p, (0, 0)) && #[trigger] connected(m, p, q);
                lemma_connected_open(m, p, q);
            }
        }
    }
    let mut i: usize = 0;
    while i < n
        invariant
            m == rows(marks@),
            is_square(m, n as int),
            n == marks@.len(),
            n * n <= usize::MAX,
            0 <= i <= n,
            is_square(rows(visited@), n as int),
            forall|q: (int, int)| in_grid(n as int, q) ==> (#[trigger] flag(rows(visited@), q) <==> reached_before(m, (i as int, 0), q)),
            closed(m, rows(visited@)),
            count == leaders_in_rows(m, i as int),
            count <= i * n,
        decreases n - i,
    {
        assert(m[i as int] == marks@[i as int]@ && m[i as int].len() == n);
        let mut j: usize = 0;
        while j < n
            invariant
                m == rows(marks@),
                is_square(m, n as int),
                n == marks@.len(),
                n * n <= usize::MAX,
                0 <= i < n,
                0 <= j <= n,
                m[i as int] == marks@[i as int]@,
                is_square(rows(visited@), n as int),
                forall|q: (int, int)| in_grid(n as int, q) ==> (#[trigger] flag(rows(visited@), q) <==> reached_before(m, (i as int, j as int), q)),
                closed(m, rows(visited@)),
                count == leaders_in_rows(m, i as int) + leaders_in_row(m, i as int, j as int),
                count <= i * n + j,
            decreases n - j,
        {
            let ghost k = (i as int, j as int);
            let ghost next = (i as int, j as int + 1);
            let ghost v = rows(visited@);
            assert(v[i as int] == visited@[i as int]@ && v[i as int].len() == n);
            if !marks[i][j] && !visited[i][j] {
                assert(in_grid(n as int, k));
                assert(!flag(v, k));
                assert(!reached_before(m, k, k));
                assert(is_leader(m, k));
                flood(marks, &mut visited, i, j);
                proof {
                    let w = rows(visited@);
                    assert forall|q: (int, int)| in_grid(n as int, q) implies (#[trigger] flag(w, q) <==> reached_before(m, next, q)) by {
                        if reached_before(m, next, q) {
                            let p = choose|p: (int, int)| earlier(p, next) && #[trigger] connected(m, p, q);
                            if p != k {
                                assert(earlier(p, k));
                                assert(reached_before(m, k, q));
                            }
                        }
                        if flag(w, q) && !flag(v, q) {
                            assert(connected(m, k, q));
                            assert(earlier(k, next));
                        }
                    }
                }
                proof {
                    assert(i * n + j + 1 <= n * n) by (nonlinear_arith)
                        requires i < n, j < n;
                    assert(n * n <= usize::MAX);
                }
                count += 1;
            } else {
                proof {
                    if is_open(m, k) {
                        assert(flag(v, k));
                        let first = choose|p: (int, int)| earlier(p, k) && #[trigger] connected(m, p, k);
                        assert(!is_leader(m, k));
                    }
                    assert(!is_leader(m, k));
                    assert forall|q: (int, int)| in_grid(n as int, q) implies (#[trigger] flag(v, q) <==> reached_before(m, next, q)) by {
                        if reached_before(m, next, q) {
                            let p = choose|p: (int, int)| earlier(p, next) && #[trigger] connected(m, p, q);
                            if p != k {
                                assert(earlier(p, k));
                            } else {
                                lemma_connected_open(m, p, q);
                                assert(flag(v, k));
                                let first = choose|p: (int, int)| earlier(p, k) && #[trigger] connected(m, p, k);
                                lemma_connected_trans(m, first, k, q);
                                assert(earlier(first, k));
                            }
                            assert(reached_before(m, k, q));
                        }
                        if flag(v, q) {
                            let p = choose|p: (int, int)| earlier(p, k) && #[trigger] connected(m, p, q);
                            assert(earlier(p, next));
                        }
                    }
                }
            }
            j += 1;
        }
        proof {
            assert forall|q: (int, int)| in_grid(n as int, q) implies (#[trigger] flag(rows(visited@), q) <==> reached_before(m, (i as int + 1, 0), q)) by {
                if reached_before(m, (i as int + 1, 0), q) {
                    let p = choose|p: (int, int)| earlier(p, (i as int + 1, 0)) && #[trigger] connected(m, p, q);
                    lemma_connected_open(m, p, q);
                    assert(earlier(p, (i as int, n as int)));
                }
                if reached_before(m, (i as int, n as int), q) {
                    let p = choose|p: (int, int)| earlier(p, (i as int, n as int)) && #[trigger] connected(m, p, q);
                    lemma_connected_open(m, p, q);
                    assert(earlier(p, (i as int + 1, 0)));
                }
            }
            assert(i * n + n == (i + 1) * n) by (nonlinear_arith);
        }
        i += 1;
    }
    count
}

} // verus!
