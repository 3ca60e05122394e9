//! Square grids of puzzle numbers and of marks, and the cells worth marking.
use vstd::prelude::*;

verus! {

/// Largest number of cells accepted for a puzzle: a sixteenth of the address
/// range, so that a count of cells, and five times it, fits both in `usize`
/// and in `i64`.
pub const MAX_CELLS: usize = usize::MAX / 16;

/// The rows of a grid of vectors, as sequences.
pub open spec fn rows<T>(v: Seq<Vec<T>>) -> Seq<Seq<T>> {
    v.map_values(|r: Vec<T>| r@)
}

/// `s` has `n` rows of `n` entries each.
pub open spec fn is_square<T>(s: Seq<Seq<T>>, n: int) -> bool {
    &&& s.len() == n
    &&& forall|i: int| 0 <= i < n ==> #[trigger] s[i].len() == n
}

/// A well-formed puzzle: a non-empty square of at most `MAX_CELLS` cells.
pub open spec fn is_puzzle(g: Seq<Seq<u16>>) -> bool {
    0 < g.len() && g.len() * g.len() <= MAX_CELLS && is_square(g, g.len() as int)
}

/// Some other cell of row `i` holds the number of cell `(i, j)`.
pub open spec fn repeated_in_row(g: Seq<Seq<u16>>, i: int, j: int) -> bool {
    exists|k: int| 0 <= k < g.len() && k != j && #[trigger] g[i][k] == g[i][j]
}

/// Some other cell of column `j` holds the number of cell `(i, j)`.
pub open spec fn repeated_in_col(g: Seq<Seq<u16>>, i: int, j: int) -> bool {
    exists|k: int| 0 <= k < g.len() && k != i && #[trigger] g[k][j] == g[i][j]
}

/// A cell is worth marking when its number occurs again on its row or column.
pub open spec fn markable(g: Seq<Seq<u16>>, i: int, j: int) -> bool {
    repeated_in_row(g, i, j) || repeated_in_col(g, i, j)
}

/// `(a, b)` comes strictly before `(c, d)` in row-major order.
pub open spec fn before(p: (usize, usize), q: (usize, usize)) -> bool {
    p.0 < q.0 || (p.0 == q.0 && p.1 < q.1)
}

/// Why a grid handed in is not a puzzle.
#[derive(Debug, Clone, Copy, PartialEq, Eq, Structural)]
pub enum ShapeError {
    /// The grid has no rows.
    Empty,
    /// The grid has more than `MAX_CELLS` cells.
    TooLarge,
    /// Some row's length differs from the number of rows.
    ShapeMismatch,
}

/// Checks that `grid` is a puzzle and returns its side length.
pub fn check_shape(grid: &Vec<Vec<u16>>) -> (r: Result<usize, ShapeError>)
    ensures
        r == Ok::<usize, ShapeError>(grid.len()) <==> is_puzzle(rows(grid@)),
        r == Err::<usize, ShapeError>(ShapeError::Empty) <==> grid@.len() == 0,
        r == Err::<usize, ShapeError>(ShapeError::TooLarge) <==> grid@.len() * grid@.len() > MAX_CELLS,
        r == Err::<usize, ShapeError>(ShapeError::ShapeMismatch) <==> (0 < grid@.len()
            && grid@.len() * grid@.len() <= MAX_CELLS && !is_square(rows(grid@), grid@.len() as int)),
{
    let n = grid.len();
    if n == 0 {
        return Err(ShapeError::Empty);
    }
    if n > MAX_CELLS / n {
        assert(n * n > MAX_CELLS) by (nonlinear_arith)
            requires n > MAX_CELLS / n, n > 0;
        return Err(ShapeError::TooLarge);
    }
    assert(n * n <= MAX_CELLS) by (nonlinear_arith)
        requires n <= MAX_CELLS / n, n > 0;
    let mut i: usize = 0;
    while i < n
        invariant
            n == grid@.len(),
            0 < n,
            n * n <= MAX_CELLS,
            0 <= i <= n,
            forall|k: int| 0 <= k < i ==> #[trigger] grid@[k]@.len() == n,
        decreases n - i,
    {
        if grid[i].len() != n {
            assert(rows(grid@)[i as int] == grid@[i as int]@);
            assert(!is_square(rows(grid@), n as int));
            return Err(ShapeError::ShapeMismatch);
        }
        i += 1;
    }
    assert(is_square(rows(grid@), n as int)) by {
        assert forall|k: int| 0 <= k < n implies #[trigger] rows(grid@)[k].len() == n by {
            assert(grid@[k]@.len() == n);
        }
    }
    Ok(n)
}

/// A side whose square is at most `MAX_CELLS` is itself at most that, and
/// five times `MAX_CELLS` fits in `i64`.
pub proof fn lemma_cells_fit(n: int)
    requires
        0 <= n,
        n * n <= MAX_CELLS,
    ensures
        n <= n * n,
        n <= MAX_CELLS,
        5 * MAX_CELLS < i64::MAX,
{
    if n > 0 {
        assert(n <= n * n) by (nonlinear_arith)
            requires n > 0;
    }
    if usize::MAX == 0xffff_ffff {
        assert(MAX_CELLS == 0x0fff_ffff);
    } else {
        assert(usize::MAX == 0xffff_ffff_ffff_ffff);
        assert(MAX_CELLS == 0x0fff_ffff_ffff_ffff);
    }
}

/// The number of cells of an `n` by `n` grid.
pub fn cell_count(n: usize) -> (r: usize)
    requires
        n * n <= MAX_CELLS,
    ensures
        r == n * n,
{
    n * n
}

/// Tells whether cell `(i, j)` of the puzzle is worth marking.
fn is_markable(grid: &Vec<Vec<u16>>, i: usize, j: usize) -> (r: bool)
    requires
        is_puzzle(rows(grid@)),
        i < grid@.len(),
        j < grid@.len(),
    ensures
        r == markable(rows(grid@), i as int, j as int),
{
    let ghost g = rows(grid@);
    let n = grid.len();
    assert(g[i as int] == grid@[i as int]@);
    assert(g[i as int].len() == n);
    let v = grid[i][j];
    let mut k: usize = 0;
    while k < n
        invariant
            g == rows(grid@),
            is_puzzle(g),
            n == g.len(),
            i < n,
            j < n,
            v == g[i as int][j as int],
            0 <= k <= n,
            forall|t: int| 0 <= t < k && t != j ==> g[i as int][t] != v,
            forall|t: int| 0 <= t < k && t != i ==> g[t][j as int] != v,
        decreases n - k,
    {
        assert(g[k as int] == grid@[k as int]@);
        assert(g[k as int].len() == n);
        if k != j && grid[i][k] == v {
            assert(g[i as int][k as int] == v);
            return true;
        }
        if k != i && grid[k][j] == v {
            assert(g[k as int][j as int] == v);
            return true;
        }
        k += 1;
    }
    false
}

/// The grid of cells worth marking: `true` exactly where a cell's number
/// occurs again on its row or its column.
pub fn find_markables(grid: &Vec<Vec<u16>>) -> (r: Vec<Vec<bool>>)
    requires
        is_puzzle(rows(grid@)),
    ensures
        is_square(rows(r@), grid@.len() as int),
        forall|i: int, j: int|
            0 <= i < grid@.len() && 0 <= j < grid@.len() ==> #[trigger] rows(r@)[i][j]
                == markable(rows(grid@), i, j),
{
    let n = grid.len();
    let mut result: Vec<Vec<bool>> = Vec::new();
    let mut i: usize = 0;
    while i < n
        invariant
            is_puzzle(rows(grid@)),
            n == grid@.len(),
            0 <= i <= n,
            result@.len() == i,
            forall|a: int| 0 <= a < i ==> #[trigger] result@[a]@.len() == n,
            forall|a: int, b: int|
                0 <= a < i && 0 <= b < n ==> #[trigger] result@[a]@[b] == markable(
                    rows(grid@),
                    a,
                    b,
                ),
        decreases n - i,
    {
        let mut row: Vec<bool> = Vec::new();
        let mut j: usize = 0;
        while j < n
            invariant
                is_puzzle(rows(grid@)),
                n == grid@.len(),
                i < n,
                0 <= j <= n,
                row@.len() == j,
                forall|b: int| 0 <= b < j ==> #[trigger] row@[b] == markable(rows(grid@), i as int, b),
            decreases n - j,
        {
            let m = is_markable(grid, i, j);
            row.push(m);
            j += 1;
        }
        result.push(row);
        i += 1;
    }
    result
}

/// The coordinates of the marked cells, in row-major order.
pub fn get_markable_coords(marks: &Vec<Vec<bool>>) -> (r: Vec<(usize, usize)>)
    requires
        is_square(rows(marks@), marks@.len() as int),
    ensures
        forall|k: int|
            0 <= k < r@.len() ==> #[trigger] r@[k].0 < marks@.len() && r@[k].1 < marks@.len()
                && rows(marks@)[r@[k].0 as int][r@[k].1 as int],
        forall|k: int, l: int| 0 <= k < l < r@.len() ==> before(#[trigger] r@[k], #[trigger] r@[l]),
        forall|i: int, j: int|
            0 <= i < marks@.len() && 0 <= j < marks@.len() && #[trigger] rows(marks@)[i][j]
                ==> exists|k: int| 0 <= k < r@.len() && r@[k] == (i as usize, j as usize),
{
    let ghost m = rows(marks@);
    let n = marks.len();
    let mut coords: Vec<(usize, usize)> = Vec::new();
    let mut i: usize = 0;
    while i < n
        invariant
            m == rows(marks@),
            is_square(m, n as int),
            0 <= i <= n,
            forall|k: int|
                0 <= k < coords@.len() ==> #[trigger] coords@[k].0 < i && coords@[k].1 < n
                    && m[coords@[k].0 as int][coords@[k].1 as int],
            forall|k: int, l: int|
                0 <= k < l < coords@.len() ==> before(#[trigger] coords@[k], #[trigger] coords@[l]),
            forall|a: int, b: int|
                0 <= a < i && 0 <= b < n && #[trigger] m[a][b] ==> exists|k: int|
                    0 <= k < coords@.len() && coords@[k] == (a as usize, b as usize),
        decreases n - i,
    {
        assert(m[i as int] == marks@[i as int]@);
        assert(m[i as int].len() == n);
        let mut j: usize = 0;
        while j < n
            invariant
                m == rows(marks@),
                is_square(m, n as int),
                0 <= i < n,
                0 <= j <= n,
                m[i as int].len() == n,
                m[i as int] == marks@[i as int]@,
                forall|k: int|
                    0 <= k < coords@.len() ==> #[trigger] coords@[k].0 <= i && coords@[k].1 < n
                        && m[coords@[k].0 as int][coords@[k].1 as int] && (coords@[k].0 == i
                        ==> coords@[k].1 < j),
                forall|k: int, l: int|
                    0 <= k < l < coords@.len() ==> before(#[trigger] coords@[k], #[trigger] coords@[l]),
                forall|a: int, b: int|
                    ((0 <= a < i && 0 <= b < n) || (a == i && 0 <= b < j)) && #[trigger] m[a][b]
                        ==> exists|k: int| 0 <= k < coords@.len() && coords@[k] == (a as usize, b as usize),
            decreases n - j,
        {
            if marks[i][j] {
                let ghost old_coords = coords@;
                coords.push((i, j));
                assert(m[i as int][j as int]);
                assert forall|k: int| 0 <= k < coords@.len() implies #[trigger] coords@[k].0 <= i
                    && coords@[k].1 < n && m[coords@[k].0 as int][coords@[k].1 as int]
                    && (coords@[k].0 == i ==> coords@[k].1 < j + 1) by {
                    if k < old_coords.len() {
                        assert(coords@[k] == old_coords[k]);
                    }
                }
                assert forall|a: int, b: int|
                    ((0 <= a < i && 0 <= b < n) || (a == i && 0 <= b < j + 1)) && #[trigger] m[a][b]
                    implies exists|k: int| 0 <= k < coords@.len() && coords@[k] == (a as usize, b as usize) by {
                    if a == i && b == j {
                        assert(coords@[old_coords.len() as int] == (a as usize, b as usize));
                    } else {
                        let k = choose|k: int| 0 <= k < old_coords.len() && old_coords[k] == (a as usize, b as usize);
                        assert(coords@[k] == old_coords[k]);
                    }
                }
            }
            j += 1;
        }
        i += 1;
    }
    coords
}

} // verus!
