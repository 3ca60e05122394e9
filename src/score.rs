//! The badness score of a marking: 0 exactly on a solved puzzle.
use vstd::prelude::*;
use std::collections::HashMap;
use crate::grid::{rows, is_square, is_puzzle, MAX_CELLS, lemma_cells_fit};
use crate::components::{regions, get_component_count, lemma_regions_zero};

verus! {

broadcast use vstd::std_specs::hash::group_hash_axioms;

/// `f(0) + f(1) + ... + f(k - 1)`.
pub open spec fn sum_upto(k: int, f: spec_fn(int) -> int) -> int
    decreases k,
{
    if k <= 0 {
        0
    } else {
        sum_upto(k - 1, f) + f(k - 1)
    }
}

/// `1` for `true`, `0` for `false`.
pub open spec fn ind(b: bool) -> int {
    if b {
        1
    } else {
        0
    }
}

/// Cell `(r, j)` is unmarked and an unmarked cell to its left holds the same number.
pub open spec fn row_repeat(g: Seq<Seq<u16>>, m: Seq<Seq<bool>>, r: int, j: int) -> bool {
    !m[r][j] && exists|k: int| 0 <= k < j && !m[r][k] && #[trigger] g[r][k] == g[r][j]
}

/// Cell `(i, c)` is unmarked and an unmarked cell above it holds the same number.
pub open spec fn col_repeat(g: Seq<Seq<u16>>, m: Seq<Seq<bool>>, c: int, i: int) -> bool {
    !m[i][c] && exists|k: int| 0 <= k < i && !m[k][c] && #[trigger] g[k][c] == g[i][c]
}

/// The duplicates among the first `j` unmarked cells of row `r`: for each
/// number met `k > 1` times this counts `k - 1`.
pub open spec fn row_dups_upto(g: Seq<Seq<u16>>, m: Seq<Seq<bool>>, r: int, j: int) -> int {
    sum_upto(j, |t: int| ind(row_repeat(g, m, r, t)))
}

/// The duplicates among the first `i` unmarked cells of column `c`.
pub open spec fn col_dups_upto(g: Seq<Seq<u16>>, m: Seq<Seq<bool>>, c: int, i: int) -> int {
    sum_upto(i, |t: int| ind(col_repeat(g, m, c, t)))
}

/// Row duplicates summed over the first `k` rows.
pub open spec fn row_dups(g: Seq<Seq<u16>>, m: Seq<Seq<bool>>, k: int) -> int {
    sum_upto(k, |r: int| row_dups_upto(g, m, r, g.len() as int))
}

/// Column duplicates summed over the first `k` columns.
pub open spec fn col_dups(g: Seq<Seq<u16>>, m: Seq<Seq<bool>>, k: int) -> int {
    sum_upto(k, |c: int| col_dups_upto(g, m, c, g.len() as int))
}

/// Marked neighbours of marked cell `(r, c)` to its right and below it.
pub open spec fn adj_at(m: Seq<Seq<bool>>, r: int, c: int) -> int {
    ind(m[r][c] && c + 1 < m.len() && m[r][c + 1]) + ind(m[r][c] && r + 1 < m.len() && m[r + 1][c])
}

/// Adjacent marked pairs met in the first `c` cells of row `r`.
pub open spec fn adj_row_upto(m: Seq<Seq<bool>>, r: int, c: int) -> int {
    sum_upto(c, |t: int| adj_at(m, r, t))
}

/// Adjacent marked pairs met in the first `k` rows: each pair once.
pub open spec fn adj_pairs(m: Seq<Seq<bool>>, k: int) -> int {
    sum_upto(k, |r: int| adj_row_upto(m, r, m.len() as int))
}

/// The badness of marking `m` on puzzle `g`: row duplicates, column
/// duplicates, adjacent marked pairs, and the regions of unmarked cells
/// beyond the first.
pub open spec fn score(g: Seq<Seq<u16>>, m: Seq<Seq<bool>>) -> int {
    let n = g.len() as int;
    row_dups(g, m, n) + col_dups(g, m, n) + adj_pairs(m, n) + regions(m) - 1
}

/// A sum of non-negative terms is zero exactly when every term is.
pub proof fn lemma_sum_zero(k: int, f: spec_fn(int) -> int)
    requires
        k >= 0,
        forall|i: int| 0 <= i < k ==> 0 <= #[trigger] f(i),
    ensures
        sum_upto(k, f) >= 0,
        sum_upto(k, f) == 0 <==> forall|i: int| 0 <= i < k ==> #[trigger] f(i) == 0,
        forall|i: int| 0 <= i < k ==> #[trigger] f(i) <= sum_upto(k, f),
    decreases k,
{
    if k > 0 {
        lemma_sum_zero(k - 1, f);
    }
}

/// No line repeats an unmarked number, no two marked cells share a side, and
/// the unmarked cells form one region.
pub open spec fn is_solution(g: Seq<Seq<u16>>, m: Seq<Seq<bool>>) -> bool {
    let n = g.len() as int;
    &&& forall|r: int, k: int, j: int|
        0 <= r < n && 0 <= k < j < n && !m[r][k] && !m[r][j] ==> #[trigger] g[r][k] != #[trigger] g[r][j]
    &&& forall|c: int, k: int, i: int|
        0 <= c < n && 0 <= k < i < n && !m[k][c] && !m[i][c] ==> #[trigger] g[k][c] != #[trigger] g[i][c]
    &&& forall|r: int, c: int|
        0 <= r < n && 0 <= c < n && #[trigger] m[r][c] ==> !(c + 1 < n && m[r][c + 1]) && !(r + 1 < n
            && m[r + 1][c])
    &&& regions(m) == 1
}

proof fn lemma_row_terms(g: Seq<Seq<u16>>, m: Seq<Seq<bool>>)
    requires
        is_puzzle(g),
        is_square(m, g.len() as int),
    ensures
        row_dups(g, m, g.len() as int) >= 0,
        row_dups(g, m, g.len() as int) == 0 <==> forall|r: int, j: int|
            0 <= r < g.len() && 0 <= j < g.len() ==> !#[trigger] row_repeat(g, m, r, j),
{
    let n = g.len() as int;
    let f = |r: int| row_dups_upto(g, m, r, n);
    assert forall|r: int| 0 <= r < n implies 0 <= #[trigger] f(r) && (f(r) == 0 <==> forall|j: int|
        0 <= j < n ==> !#[trigger] row_repeat(g, m, r, j)) by {
        let h = |t: int| ind(row_repeat(g, m, r, t));
        lemma_sum_zero(n, h);
        assert(f(r) == sum_upto(n, h));
        if f(r) == 0 {
            assert forall|j: int| 0 <= j < n implies !#[trigger] row_repeat(g, m, r, j) by {
                assert(h(j) == 0);
            }
        }
        if forall|j: int| 0 <= j < n ==> !#[trigger] row_repeat(g, m, r, j) {
            assert forall|j: int| 0 <= j < n implies #[trigger] h(j) == 0 by {
                assert(!row_repeat(g, m, r, j));
            }
        }
    }
    lemma_sum_zero(n, f);
    assert(row_dups(g, m, n) == sum_upto(n, f));
    if row_dups(g, m, n) == 0 {
        assert forall|r: int, j: int| 0 <= r < n && 0 <= j < n implies !#[trigger] row_repeat(g, m, r, j) by {
            assert(f(r) == 0);
        }
    }
    if forall|r: int, j: int| 0 <= r < n && 0 <= j < n ==> !#[trigger] row_repeat(g, m, r, j) {
        assert forall|r: int| 0 <= r < n implies #[trigger] f(r) == 0 by {
            assert forall|j: int| 0 <= j < n implies !#[trigger] row_repeat(g, m, r, j) by {}
        }
    }
}

proof fn lemma_col_terms(g: Seq<Seq<u16>>, m: Seq<Seq<bool>>)
    requires
        is_puzzle(g),
        is_square(m, g.len() as int),
    ensures
        col_dups(g, m, g.len() as int) >= 0,
        col_dups(g, m, g.len() as int) == 0 <==> forall|c: int, i: int|
            0 <= c < g.len() && 0 <= i < g.len() ==> !#[trigger] col_repeat(g, m, c, i),
{
    let n = g.len() as int;
    let f = |c: int| col_dups_upto(g, m, c, n);
    assert forall|c: int| 0 <= c < n implies 0 <= #[trigger] f(c) && (f(c) == 0 <==> forall|i: int|
        0 <= i < n ==> !#[trigger] col_repeat(g, m, c, i)) by {
        let h = |t: int| ind(col_repeat(g, m, c, t));
        lemma_sum_zero(n, h);
        assert(f(c) == sum_upto(n, h));
        if f(c) == 0 {
            assert forall|i: int| 0 <= i < n implies !#[trigger] col_repeat(g, m, c, i) by {
                assert(h(i) == 0);
            }
        }
        if forall|i: int| 0 <= i < n ==> !#[trigger] col_repeat(g, m, c, i) {
            assert forall|i: int| 0 <= i < n implies #[trigger] h(i) == 0 by {
                assert(!col_repeat(g, m, c, i));
            }
        }
    }
    lemma_sum_zero(n, f);
    assert(col_dups(g, m, n) == sum_upto(n, f));
    if col_dups(g, m, n) == 0 {
        assert forall|c: int, i: int| 0 <= c < n && 0 <= i < n implies !#[trigger] col_repeat(g, m, c, i) by {
            assert(f(c) == 0);
        }
    }
    if forall|c: int, i: int| 0 <= c < n && 0 <= i < n ==> !#[trigger] col_repeat(g, m, c, i) {
        assert forall|c: int| 0 <= c < n implies #[trigger] f(c) == 0 by {
            assert forall|i: int| 0 <= i < n implies !#[trigger] col_repeat(g, m, c, i) by {}
        }
    }
}

proof fn lemma_adj_terms(m: Seq<Seq<bool>>)
    requires
        is_square(m, m.len() as int),
    ensures
        adj_pairs(m, m.len() as int) >= 0,
        adj_pairs(m, m.len() as int) == 0 <==> forall|r: int, c: int|
            0 <= r < m.len() && 0 <= c < m.len() ==> #[trigger] adj_at(m, r, c) == 0,
        forall|r: int, c: int|
            0 <= r < m.len() && 0 <= c < m.len() ==> #[trigger] adj_at(m, r, c) <= adj_pairs(m, m.len() as int),
{
    let n = m.len() as int;
    let f = |r: int| adj_row_upto(m, r, n);
    assert forall|r: int| 0 <= r < n implies 0 <= #[trigger] f(r) && (f(r) == 0 <==> forall|c: int|
        0 <= c < n ==> #[trigger] adj_at(m, r, c) == 0) && (forall|c: int| 0 <= c < n ==> #[trigger] adj_at(m, r, c) <= f(r)) by {
        let h = |t: int| adj_at(m, r, t);
        lemma_sum_zero(n, h);
        assert(f(r) == sum_upto(n, h));
        assert forall|c: int| 0 <= c < n implies #[trigger] adj_at(m, r, c) <= f(r) by {
            assert(h(c) <= sum_upto(n, h));
        }
        if f(r) == 0 {
            assert forall|c: int| 0 <= c < n implies #[trigger] adj_at(m, r, c) == 0 by {
                assert(h(c) == 0);
            }
        }
        if forall|c: int| 0 <= c < n ==> #[trigger] adj_at(m, r, c) == 0 {
            assert forall|c: int| 0 <= c < n implies #[trigger] h(c) == 0 by {
                assert(adj_at(m, r, c) == 0);
            }
        }
    }
    lemma_sum_zero(n, f);
    assert(adj_pairs(m, n) == sum_upto(n, f));
    assert forall|r: int, c: int| 0 <= r < n && 0 <= c < n implies #[trigger] adj_at(m, r, c) <= adj_pairs(m, n) by {
        assert(f(r) <= sum_upto(n, f));
    }
    if adj_pairs(m, n) == 0 {
        assert forall|r: int, c: int| 0 <= r < n && 0 <= c < n implies #[trigger] adj_at(m, r, c) == 0 by {
            assert(f(r) == 0);
        }
    }
    if forall|r: int, c: int| 0 <= r < n && 0 <= c < n ==> #[trigger] adj_at(m, r, c) == 0 {
        assert forall|r: int| 0 <= r < n implies #[trigger] f(r) == 0 by {
            assert forall|c: int| 0 <= c < n implies #[trigger] adj_at(m, r, c) == 0 by {}
        }
    }
}

/// The score of a marking is 0 exactly when the marking solves the puzzle.
pub proof fn lemma_score_zero_iff_solution(g: Seq<Seq<u16>>, m: Seq<Seq<bool>>)
    requires
        is_puzzle(g),
        is_square(m, g.len() as int),
    ensures
        score(g, m) == 0 <==> is_solution(g, m),
{
    let n = g.len() as int;
    lemma_row_terms(g, m);
    lemma_col_terms(g, m);
    lemma_adj_terms(m);
    lemma_regions_zero(m);
    let rows_ok = forall|r: int, j: int| 0 <= r < n && 0 <= j < n ==> !#[trigger] row_repeat(g, m, r, j);
    let cols_ok = forall|c: int, i: int| 0 <= c < n && 0 <= i < n ==> !#[trigger] col_repeat(g, m, c, i);
    let adj_ok = forall|r: int, c: int| 0 <= r < n && 0 <= c < n ==> #[trigger] adj_at(m, r, c) == 0;
    // the three line conditions of a solution, each against its term
    assert(rows_ok <==> forall|r: int, k: int, j: int|
        0 <= r < n && 0 <= k < j < n && !m[r][k] && !m[r][j] ==> #[trigger] g[r][k] != #[trigger] g[r][j]) by {
        if rows_ok {
            assert forall|r: int, k: int, j: int|
                0 <= r < n && 0 <= k < j < n && !m[r][k] && !m[r][j] implies #[trigger] g[r][k] != #[trigger] g[r][j] by {
                assert(!row_repeat(g, m, r, j));
            }
        }
        if !rows_ok {
            let (r, j) = choose|r: int, j: int| 0 <= r < n && 0 <= j < n && #[trigger] row_repeat(g, m, r, j);
            let k = choose|k: int| 0 <= k < j && !m[r][k] && #[trigger] g[r][k] == g[r][j];
            assert(0 <= k < j < n && !m[r][k] && !m[r][j] && g[r][k] == g[r][j]);
        }
    }
    assert(cols_ok <==> forall|c: int, k: int, i: int|
        0 <= c < n && 0 <= k < i < n && !m[k][c] && !m[i][c] ==> #[trigger] g[k][c] != #[trigger] g[i][c]) by {
        if cols_ok {
            assert forall|c: int, k: int, i: int|
                0 <= c < n && 0 <= k < i < n && !m[k][c] && !m[i][c] implies #[trigger] g[k][c] != #[trigger] g[i][c] by {
                assert(!col_repeat(g, m, c, i));
            }
        }
        if !cols_ok {
            let (c, i) = choose|c: int, i: int| 0 <= c < n && 0 <= i < n && #[trigger] col_repeat(g, m, c, i);
            let k = choose|k: int| 0 <= k < i && !m[k][c] && #[trigger] g[k][c] == g[i][c];
            assert(0 <= k < i < n && !m[k][c] && !m[i][c] && g[k][c] == g[i][c]);
        }
    }
    assert(adj_ok <==> forall|r: int, c: int|
        0 <= r < n && 0 <= c < n && #[trigger] m[r][c] ==> !(c + 1 < n && m[r][c + 1]) && !(r + 1 < n
            && m[r + 1][c])) by {
        if !adj_ok {
            let (r, c) = choose|r: int, c: int| 0 <= r < n && 0 <= c < n && #[trigger] adj_at(m, r, c) != 0;
            assert(m[r][c]);
        }
        if adj_ok {
            assert forall|r: int, c: int|
                0 <= r < n && 0 <= c < n && #[trigger] m[r][c] implies !(c + 1 < n && m[r][c + 1]) && !(r + 1 < n
                    && m[r + 1][c]) by {
                assert(adj_at(m, r, c) == 0);
            }
        }
    }
    if score(g, m) == 0 && regions(m) != 1 {
        // then no region is left, so every cell is marked
        assert(regions(m) == 0);
        if n >= 2 {
            assert(m[0][0] && m[0][1] && m[1][0]);
            assert(adj_at(m, 0, 0) == 2);
        } else {
            assert(row_dups(g, m, n) == 0) by {
                assert forall|r: int, j: int| 0 <= r < n && 0 <= j < n implies !#[trigger] row_repeat(g, m, r, j) by {
                    assert(m[r][j]);
                }
            }
            assert(col_dups(g, m, n) == 0) by {
                assert forall|c: int, i: int| 0 <= c < n && 0 <= i < n implies !#[trigger] col_repeat(g, m, c, i) by {
                    assert(m[i][c]);
                }
            }
            assert(adj_pairs(m, n) == 0) by {
                assert forall|r: int, c: int| 0 <= r < n && 0 <= c < n implies #[trigger] adj_at(m, r, c) == 0 by {}
            }
        }
    }
}

/// A sum whose terms are all zero but the one at `i` equals that term.
proof fn lemma_sum_single(k: int, f: spec_fn(int) -> int, i: int)
    requires
        0 <= i < k,
        forall|j: int| 0 <= j < k && j != i ==> #[trigger] f(j) == 0,
    ensures
        sum_upto(k, f) == f(i),
    decreases k,
{
    if k - 1 == i {
        lemma_sum_zero(i, f);
    } else {
        lemma_sum_single(k - 1, f, i);
    }
}

/// When the only marks are two cells sharing a side, the adjacency term is
/// exactly 1: each marked pair is counted once, not twice.
pub proof fn lemma_pair_counted_once(m: Seq<Seq<bool>>, p: (int, int), q: (int, int))
    requires
        is_square(m, m.len() as int),
        0 <= p.0 < m.len() && 0 <= p.1 < m.len(),
        0 <= q.0 < m.len() && 0 <= q.1 < m.len(),
        q == (p.0, p.1 + 1) || q == (p.0 + 1, p.1),
        forall|r: int, c: int|
            0 <= r < m.len() && 0 <= c < m.len() ==> (#[trigger] m[r][c] <==> ((r, c) == p || (r, c) == q)),
    ensures
        adj_pairs(m, m.len() as int) == 1,
{
    let n = m.len() as int;
    assert forall|r: int, c: int| 0 <= r < n && 0 <= c < n implies #[trigger] adj_at(m, r, c) == if (r, c) == p {
        1int
    } else {
        0int
    } by {
        if (r, c) == p {
            assert(m[r][c]);
            if q == (p.0, p.1 + 1) {
                assert(m[r][c + 1]);
                if r + 1 < n {
                    assert(!m[r + 1][c]);
                }
            } else {
                assert(m[r + 1][c]);
                if c + 1 < n {
                    assert(!m[r][c + 1]);
                }
            }
        } else if (r, c) == q {
            if c + 1 < n {
                assert(!m[r][c + 1]);
            }
            if r + 1 < n {
                assert(!m[r + 1][c]);
            }
        } else {
            assert(!m[r][c]);
        }
    }
    let f = |r: int| adj_row_upto(m, r, n);
    assert forall|r: int| 0 <= r < n implies #[trigger] f(r) == if r == p.0 {
        1int
    } else {
        0int
    } by {
        let h = |t: int| adj_at(m, r, t);
        assert(f(r) == sum_upto(n, h));
        if r == p.0 {
            assert forall|j: int| 0 <= j < n && j != p.1 implies #[trigger] h(j) == 0 by {
                assert(adj_at(m, r, j) == 0);
            }
            lemma_sum_single(n, h, p.1);
            assert(h(p.1) == 1);
        } else {
            assert forall|j: int| 0 <= j < n implies #[trigger] h(j) == 0 by {
                assert(adj_at(m, r, j) == 0);
            }
            lemma_sum_zero(n, h);
        }
    }
    assert(adj_pairs(m, n) == sum_upto(n, f));
    lemma_sum_single(n, f, p.0);
}

/// The row duplicates of a marking.
fn row_duplicates(grid: &Vec<Vec<u16>>, sol: &Vec<Vec<bool>>) -> (t: i64)
    requires
        is_puzzle(rows(grid@)),
        is_square(rows(sol@), grid@.len() as int),
    ensures
        t == row_dups(rows(grid@), rows(sol@), grid@.len() as int),
        0 <= t <= grid@.len() * grid@.len(),
{
    let ghost g = rows(grid@);
    let ghost m = rows(sol@);
    let n = grid.len();
    let mut total: i64 = 0;
    let mut r: usize = 0;
    while r < n
        invariant
            g == rows(grid@),
            m == rows(sol@),
            is_puzzle(g),
            is_square(m, n as int),
            n == grid@.len(),
            0 <= r <= n,
            total == row_dups(g, m, r as int),
            0 <= total <= r * n,
        decreases n - r,
    {
        assert(g[r as int] == grid@[r as int]@ && g[r as int].len() == n);
        assert(m[r as int] == sol@[r as int]@ && m[r as int].len() == n);
        // how often each number was met so far among the unmarked cells
        let mut occurences: HashMap<u16, usize> = HashMap::with_capacity(n);
        let mut cnt: i64 = 0;
        let mut j: usize = 0;
        while j < n
            invariant
                g == rows(grid@),
                m == rows(sol@),
                is_puzzle(g),
                is_square(m, n as int),
                n == grid@.len(),
                r < n,
                g[r as int] == grid@[r as int]@,
                m[r as int] == sol@[r as int]@,
                0 <= j <= n,
                cnt == row_dups_upto(g, m, r as int, j as int),
                0 <= cnt <= j,
                forall|v: u16| #[trigger] occurences@.contains_key(v) <==> exists|k: int|
                    0 <= k < j && !m[r as int][k] && #[trigger] g[r as int][k] == v,
                forall|v: u16| #[trigger] occurences@.contains_key(v) ==> occurences@[v] <= j,
            decreases n - j,
        {
            proof {
                lemma_cells_fit(n as int);
            }
            if !sol[r][j] {
                let v = grid[r][j];
                let seen: usize = match occurences.get(&v) {
                    Some(c) => *c,
                    None => 0,
                };
                if occurences.contains_key(&v) {
                    assert(row_repeat(g, m, r as int, j as int));
                    cnt += 1;
                } else {
                    assert(!row_repeat(g, m, r as int, j as int));
                }
                let ghost before = occurences@;
                occurences.insert(v, seen + 1);
                proof {
                    assert forall|w: u16| #[trigger] occurences@.contains_key(w) <==> exists|k: int|
                        0 <= k < j + 1 && !m[r as int][k] && #[trigger] g[r as int][k] == w by {
                        if w == v {
                            assert(!m[r as int][j as int] && g[r as int][j as int] == w);
                        }
                        if exists|k: int| 0 <= k < j + 1 && !m[r as int][k] && #[trigger] g[r as int][k] == w {
                            let k = choose|k: int| 0 <= k < j + 1 && !m[r as int][k] && #[trigger] g[r as int][k] == w;
                            if w != v {
                                assert(k < j);
                                assert(before.contains_key(w));
                            }
                        }
                    }
                }
            } else {
                assert(!row_repeat(g, m, r as int, j as int));
                proof {
                    assert forall|w: u16| #[trigger] occurences@.contains_key(w) <==> exists|k: int|
                        0 <= k < j + 1 && !m[r as int][k] && #[trigger] g[r as int][k] == w by {
                        if exists|k: int| 0 <= k < j + 1 && !m[r as int][k] && #[trigger] g[r as int][k] == w {
                            let k = choose|k: int| 0 <= k < j + 1 && !m[r as int][k] && #[trigger] g[r as int][k] == w;
                            assert(k < j);
                        }
                    }
                }
            }
            j += 1;
        }
        proof {
            assert(r * n + n == (r + 1) * n) by (nonlinear_arith);
            assert((r + 1) * n <= n * n) by (nonlinear_arith)
                requires r < n;
            assert(n * n <= MAX_CELLS);
        }
        total += cnt;
        r += 1;
    }
    total
}

/// The column duplicates of a marking.
fn col_duplicates(grid: &Vec<Vec<u16>>, sol: &Vec<Vec<bool>>) -> (t: i64)
    requires
        is_puzzle(rows(grid@)),
        is_square(rows(sol@), grid@.len() as int),
    ensures
        t == col_dups(rows(grid@), rows(sol@), grid@.len() as int),
        0 <= t <= grid@.len() * grid@.len(),
{
    let ghost g = rows(grid@);
    let ghost m = rows(sol@);
    let n = grid.len();
    let mut total: i64 = 0;
    let mut c: usize = 0;
    while c < n
        invariant
            g == rows(grid@),
            m == rows(sol@),
            is_puzzle(g),
            is_square(m, n as int),
            n == grid@.len(),
            0 <= c <= n,
            total == col_dups(g, m, c as int),
            0 <= total <= c * n,
        decreases n - c,
    {
        // how often each number was met so far among the unmarked cells
        let mut occurences: HashMap<u16, usize> = HashMap::with_capacity(n);
        let mut cnt: i64 = 0;
        let mut i: usize = 0;
        while i < n
            invariant
                g == rows(grid@),
                m == rows(sol@),
                is_puzzle(g),
                is_square(m, n as int),
                n == grid@.len(),
                c < n,
                0 <= i <= n,
                cnt == col_dups_upto(g, m, c as int, i as int),
                0 <= cnt <= i,
                forall|v: u16| #[trigger] occurences@.contains_key(v) <==> exists|k: int|
                    0 <= k < i && !m[k][c as int] && #[trigger] g[k][c as int] == v,
                forall|v: u16| #[trigger] occurences@.contains_key(v) ==> occurences@[v] <= i,
            decreases n - i,
        {
            proof {
                lemma_cells_fit(n as int);
            }
            assert(g[i as int] == grid@[i as int]@ && g[i as int].len() == n);
            assert(m[i as int] == sol@[i as int]@ && m[i as int].len() == n);
            if !sol[i][c] {
                let v = grid[i][c];
                let seen: usize = match occurences.get(&v) {
                    Some(k) => *k,
                    None => 0,
                };
                if occurences.contains_key(&v) {
                    assert(col_repeat(g, m, c as int, i as int));
                    cnt += 1;
                } else {
                    assert(!col_repeat(g, m, c as int, i as int));
                }
                let ghost before = occurences@;
                occurences.insert(v, seen + 1);
                proof {
                    assert forall|w: u16| #[trigger] occurences@.contains_key(w) <==> exists|k: int|
                        0 <= k < i + 1 && !m[k][c as int] && #[trigger] g[k][c as int] == w by {
                        if w == v {
                            assert(!m[i as int][c as int] && g[i as int][c as int] == w);
                        }
                        if exists|k: int| 0 <= k < i + 1 && !m[k][c as int] && #[trigger] g[k][c as int] == w {
                            let k = choose|k: int| 0 <= k < i + 1 && !m[k][c as int] && #[trigger] g[k][c as int] == w;
                            if w != v {
                                assert(k < i);
                                assert(before.contains_key(w));
                            }
                        }
                    }
                }
            } else {
                assert(!col_repeat(g, m, c as int, i as int));
                proof {
                    assert forall|w: u16| #[trigger] occurences@.contains_key(w) <==> exists|k: int|
                        0 <= k < i + 1 && !m[k][c as int] && #[trigger] g[k][c as int] == w by {
                        if exists|k: int| 0 <= k < i + 1 && !m[k][c as int] && #[trigger] g[k][c as int] == w {
                            let k = choose|k: int| 0 <= k < i + 1 && !m[k][c as int] && #[trigger] g[k][c as int] == w;
                            assert(k < i);
                        }
                    }
                }
            }
            i += 1;
        }
        proof {
            assert(c * n + n == (c + 1) * n) by (nonlinear_arith);
            assert((c + 1) * n <= n * n) by (nonlinear_arith)
                requires c < n;
            assert(n * n <= MAX_CELLS);
        }
        total += cnt;
        c += 1;
    }
    total
}

/// The adjacent marked pairs of a marking, each counted once.
fn adjacent_marks(sol: &Vec<Vec<bool>>) -> (t: i64)
    requires
        is_square(rows(sol@), sol@.len() as int),
        sol@.len() * sol@.len() <= MAX_CELLS,
    ensures
        t == adj_pairs(rows(sol@), sol@.len() as int),
        0 <= t <= 2 * sol@.len() * sol@.len(),
{
    let ghost m = rows(sol@);
    let n = sol.len();
    let mut total: i64 = 0;
    let mut r: usize = 0;
    while r < n
        invariant
            m == rows(sol@),
            is_square(m, n as int),
            n == sol@.len(),
            n * n <= MAX_CELLS,
            0 <= r <= n,
            total == adj_pairs(m, r as int),
            0 <= total <= 2 * r * n,
        decreases n - r,
    {
        assert(m[r as int] == sol@[r as int]@ && m[r as int].len() == n);
        let mut cnt: i64 = 0;
        let mut c: usize = 0;
        while c < n
            invariant
                m == rows(sol@),
                is_square(m, n as int),
                n == sol@.len(),
                r < n,
                n * n <= MAX_CELLS,
                m[r as int] == sol@[r as int]@,
                0 <= c <= n,
                cnt == adj_row_upto(m, r as int, c as int),
                0 <= cnt <= 2 * c,
            decreases n - c,
        {
            proof {
                lemma_cells_fit(n as int);
            }
            if sol[r][c] {
                if c + 1 < n && sol[r][c + 1] {
                    cnt += 1;
                }
                if r + 1 < n {
                    assert(m[r + 1] == sol@[r + 1]@ && m[r + 1].len() == n);
                    if sol[r + 1][c] {
                        cnt += 1;
                    }
                }
            }
            c += 1;
        }
        proof {
            lemma_cells_fit(n as int);
            assert(2 * n * n == 2 * (n * n)) by (nonlinear_arith);
            assert(2 * r * n + 2 * n == 2 * (r + 1) * n) by (nonlinear_arith);
            assert(2 * (r + 1) * n <= 2 * n * n) by (nonlinear_arith)
                requires r < n;
            assert(n * n <= MAX_CELLS);
        }
        total += cnt;
        r += 1;
    }
    total
}

/// The badness score of marking `solution` on puzzle `grid`: 0 exactly when
/// the marking solves the puzzle.
pub fn bad_points(grid: &Vec<Vec<u16>>, solution: &Vec<Vec<bool>>) -> (r: i64)
    requires
        is_puzzle(rows(grid@)),
        is_square(rows(solution@), grid@.len() as int),
    ensures
        r == score(rows(grid@), rows(solution@)),
{
    let n = grid.len();
    let a = row_duplicates(grid, solution);
    let b = col_duplicates(grid, solution);
    let c = adjacent_marks(solution);
    let d = get_component_count(solution);
    proof {
        assert(solution@.len() == n);
        assert(n * n <= MAX_CELLS);
        assert(2 * n * n == 2 * (n * n)) by (nonlinear_arith);
    }
    proof {
        lemma_cells_fit(n as int);
    }
    a + b + c + d as i64 - 1
}

} // verus!
