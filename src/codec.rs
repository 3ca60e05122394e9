//! Candidates: one flag per markable cell, decoded into full markings.
use vstd::prelude::*;
use crate::grid::{rows, is_square};
use crate::components::{all_unset, set_flag, flag, in_grid};

verus! {

/// Every coordinate lies inside an `n` by `n` grid.
pub open spec fn coords_within(coords: Seq<(usize, usize)>, n: int) -> bool {
    forall|i: int| 0 <= i < coords.len() ==> #[trigger] coords[i].0 < n && coords[i].1 < n
}

/// Every coordinate whose flag is set, within the common length of the two
/// lists, lies inside an `n` by `n` grid.
pub open spec fn chosen_within(bits: Seq<bool>, coords: Seq<(usize, usize)>, n: int) -> bool {
    forall|i: int|
        0 <= i < bits.len() && i < coords.len() && #[trigger] bits[i] ==> coords[i].0 < n && coords[i].1 < n
}

/// Coordinate `p` names cell `(r, c)`.
pub open spec fn at(p: (usize, usize), r: int, c: int) -> bool {
    p.0 as int == r && p.1 as int == c
}

/// Cell `(r, c)` is marked by the candidate: some chosen flag stands for it.
pub open spec fn decoded(bits: Seq<bool>, coords: Seq<(usize, usize)>, r: int, c: int) -> bool {
    exists|i: int|
        0 <= i < bits.len() && i < coords.len() && bits[i] && at(#[trigger] coords[i], r, c)
}

/// The `n` by `n` marking that a candidate stands for.
pub open spec fn decode_view(bits: Seq<bool>, coords: Seq<(usize, usize)>, n: int) -> Seq<Seq<bool>> {
    Seq::new(n as nat, |a: int| Seq::new(n as nat, |b: int| decoded(bits, coords, a, b)))
}

/// The flags that marking `m` gives to the listed cells.
pub open spec fn extracted(m: Seq<Seq<bool>>, coords: Seq<(usize, usize)>) -> Seq<bool> {
    Seq::new(coords.len(), |i: int| m[coords[i].0 as int][coords[i].1 as int])
}

/// Builds the `size` by `size` marking in which exactly the cells whose flag
/// is set are marked.
pub fn generate_solution_from_markable_coords(
    markable_coords_bool: &Vec<bool>,
    markable_coords: &Vec<(usize, usize)>,
    size: usize,
) -> (r: Vec<Vec<bool>>)
    requires
        chosen_within(markable_coords_bool@, markable_coords@, size as int),
    ensures
        is_square(rows(r@), size as int),
        rows(r@) == decode_view(markable_coords_bool@, markable_coords@, size as int),
        forall|a: int, b: int|
            0 <= a < size && 0 <= b < size ==> (#[trigger] rows(r@)[a][b] == decoded(
                markable_coords_bool@,
                markable_coords@,
                a,
                b,
            )),
{
    let ghost bits = markable_coords_bool@;
    let ghost coords = markable_coords@;
    let mut sol = all_unset(size);
    let len = if markable_coords_bool.len() < markable_coords.len() {
        markable_coords_bool.len()
    } else {
        markable_coords.len()
    };
    let mut i: usize = 0;
    while i < len
        invariant
            bits == markable_coords_bool@,
            coords == markable_coords@,
            chosen_within(bits, coords, size as int),
            len <= bits.len(),
            len <= coords.len(),
            len == bits.len() || len == coords.len(),
            0 <= i <= len,
            is_square(rows(sol@), size as int),
            forall|q: (int, int)|
                in_grid(size as int, q) ==> (#[trigger] flag(rows(sol@), q) <==> exists|k: int|
                    0 <= k < i && bits[k] && at(#[trigger] coords[k], q.0, q.1)),
        decreases len - i,
    {
        let ghost before = rows(sol@);
        if markable_coords_bool[i] {
            let (a, b) = markable_coords[i];
            assert(before[a as int].len() == size);
            set_flag(&mut sol, a, b);
            proof {
                let after = rows(sol@);
                assert forall|a2: int| 0 <= a2 < size implies #[trigger] after[a2].len() == size by {
                    assert(before[a2].len() == size);
                }
                assert forall|q: (int, int)| in_grid(size as int, q) implies (#[trigger] flag(after, q) <==> exists|k: int|
                    0 <= k < i + 1 && bits[k] && at(#[trigger] coords[k], q.0, q.1)) by {
                    if q == (a as int, b as int) {
                        assert(bits[i as int]);
                        assert(at(coords[i as int], q.0, q.1));
                    } else {
                        assert(flag(after, q) == flag(before, q));
                        if flag(before, q) {
                            let k = choose|k: int| 0 <= k < i && bits[k] && at(#[trigger] coords[k], q.0, q.1);
                            assert(0 <= k < i + 1 && bits[k] && at(coords[k], q.0, q.1));
                        }
                    }
                    if exists|k: int| 0 <= k < i + 1 && bits[k] && at(#[trigger] coords[k], q.0, q.1) {
                        let k = choose|k: int| 0 <= k < i + 1 && bits[k] && at(#[trigger] coords[k], q.0, q.1);
                        if k == i {
                            assert(q == (a as int, b as int));
                        } else {
                            assert(flag(before, q));
                        }
                    }
                }
            }
        } else {
            proof {
                assert forall|q: (int, int)| in_grid(size as int, q) implies (#[trigger] flag(before, q) <==> exists|k: int|
                    0 <= k < i + 1 && bits[k] && at(#[trigger] coords[k], q.0, q.1)) by {
                    if exists|k: int| 0 <= k < i + 1 && bits[k] && at(#[trigger] coords[k], q.0, q.1) {
                        let k = choose|k: int| 0 <= k < i + 1 && bits[k] && at(#[trigger] coords[k], q.0, q.1);
                        assert(k != i);
                    }
                }
            }
        }
        i += 1;
    }
    proof {
        assert forall|a: int, b: int| 0 <= a < size && 0 <= b < size implies (#[trigger] rows(sol@)[a][b] == decoded(
                bits, coords, a, b)) by {
            assert(flag(rows(sol@), (a, b)) == rows(sol@)[a][b]);
            if decoded(bits, coords, a, b) {
                let k = choose|k: int| 0 <= k < bits.len() && k < coords.len() && bits[k] && at(#[trigger] coords[k], a, b);
                assert(k < len);
            }
        }
        let d = decode_view(bits, coords, size as int);
        assert forall|a: int| 0 <= a < size implies #[trigger] rows(sol@)[a] =~= d[a] by {
            assert forall|b: int| 0 <= b < size implies rows(sol@)[a][b] == #[trigger] d[a][b] by {
                assert(flag(rows(sol@), (a, b)) == rows(sol@)[a][b]);
            }
        }
        assert(rows(sol@) =~= d);
    }
    sol
}

/// The flags that `marks` gives to the listed cells, in the order of the list.
pub fn extract_candidate(marks: &Vec<Vec<bool>>, coords: &Vec<(usize, usize)>) -> (r: Vec<bool>)
    requires
        is_square(rows(marks@), marks@.len() as int),
        coords_within(coords@, marks@.len() as int),
    ensures
        r@ == extracted(rows(marks@), coords@),
{
    let ghost m = rows(marks@);
    let mut bits: Vec<bool> = Vec::new();
    let mut i: usize = 0;
    while i < coords.len()
        invariant
            m == rows(marks@),
            is_square(m, marks@.len() as int),
            coords_within(coords@, marks@.len() as int),
            0 <= i <= coords@.len(),
            bits@.len() == i,
            forall|k: int| 0 <= k < i ==> #[trigger] bits@[k] == m[coords@[k].0 as int][coords@[k].1 as int],
        decreases coords@.len() - i,
    {
        let (a, b) = coords[i];
        assert(m[a as int] == marks@[a as int]@ && m[a as int].len() == marks@.len());
        bits.push(marks[a][b]);
        i += 1;
    }
    assert(bits@ =~= extracted(m, coords@));
    bits
}

/// Decoding the flags taken from a marking gives that marking back, when
/// every cell it marks is listed.
pub proof fn lemma_decode_extracted(m: Seq<Seq<bool>>, coords: Seq<(usize, usize)>)
    requires
        is_square(m, m.len() as int),
        coords_within(coords, m.len() as int),
        forall|a: int, b: int|
            0 <= a < m.len() && 0 <= b < m.len() && #[trigger] m[a][b] ==> exists|k: int|
                0 <= k < coords.len() && at(#[trigger] coords[k], a, b),
    ensures
        forall|a: int, b: int|
            0 <= a < m.len() && 0 <= b < m.len() ==> #[trigger] decoded(extracted(m, coords), coords, a, b)
                == m[a][b],
{
    let bits = extracted(m, coords);
    assert forall|a: int, b: int| 0 <= a < m.len() && 0 <= b < m.len() implies #[trigger] decoded(bits, coords, a, b)
        == m[a][b] by {
        if m[a][b] {
            let k = choose|k: int| 0 <= k < coords.len() && at(#[trigger] coords[k], a, b);
            assert(bits[k]);
        }
        if decoded(bits, coords, a, b) {
            let k = choose|k: int| 0 <= k < bits.len() && k < coords.len() && bits[k] && at(#[trigger] coords[k], a, b);
            assert(bits[k] == m[coords[k].0 as int][coords[k].1 as int]);
        }
    }
}

} // verus!
