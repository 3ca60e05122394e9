//! The decisions of the simulated-annealing search: random candidates,
//! one-flag neighbours, the median of sampled scores, and acceptance of
//! proposals. Temperatures and the Metropolis draw belong to the caller.
use vstd::prelude::*;
use rand::Rng;
use rand::rngs::ThreadRng;
use crate::grid::{rows, is_puzzle, markable, before, find_markables, get_markable_coords, cell_count};
use crate::codec::{coords_within, decode_view, generate_solution_from_markable_coords};
use crate::score::{score, bad_points};

verus! {

#[verifier::external_type_specification]
#[verifier::external_body]
pub struct ExThreadRng(ThreadRng);

/// Relies on rand's `Rng::gen::<bool>` (the `Standard` distribution): a fair
/// coin; nothing is promised of its value. Like every draw from `ThreadRng`,
/// it panics only if the system's entropy source fails on a reseed.
#[verifier::external_body]
fn coin(rng: &mut ThreadRng) -> bool {
    rng.gen::<bool>()
}

/// Relies on `rand::seq::index::sample` and `IndexVec::into_vec`: exactly
/// `amount` distinct indices below `length`, in random order; it panics when
/// `amount > length`.
#[verifier::external_body]
fn sample_indices(rng: &mut ThreadRng, length: usize, amount: usize) -> (r: Vec<usize>)
    requires
        amount <= length,
    ensures
        r@.len() == amount,
        r@.no_duplicates(),
        forall|k: int| 0 <= k < r@.len() ==> #[trigger] r@[k] < length,
{
    rand::seq::index::sample(rng, length, amount).into_vec()
}

/// Relies on `slice::select_nth_unstable`: the entries are reordered so that
/// the one at `k` is where a sort would put it, none before it greater and
/// none after it smaller; it panics when `k` is out of range.
#[verifier::external_body]
fn select_nth(v: &mut Vec<i64>, k: usize) -> (r: i64)
    requires
        k < old(v)@.len(),
    ensures
        final(v)@.to_multiset() == old(v)@.to_multiset(),
        final(v)@.len() == old(v)@.len(),
        final(v)@[k as int] == r,
        forall|i: int| 0 <= i < k ==> #[trigger] final(v)@[i] <= r,
        forall|i: int| k < i < final(v)@.len() ==> #[trigger] final(v)@[i] >= r,
{
    *v.select_nth_unstable(k).1
}

/// `r` is the `k`-th smallest of `s` (from 0): some reordering of `s` puts it
/// at `k`, with nothing greater before it and nothing smaller after it.
pub open spec fn order_statistic(s: Seq<i64>, k: int, r: i64) -> bool {
    exists|w: Seq<i64>|
        #[trigger] w.to_multiset() == s.to_multiset() && w.len() == s.len() && 0 <= k < w.len()
            && w[k] == r && (forall|i: int| 0 <= i < k ==> #[trigger] w[i] <= r) && (forall|i: int|
            k < i < w.len() ==> #[trigger] w[i] >= r)
}

/// `y` is `x` with exactly the flags at the listed distinct positions flipped.
pub open spec fn flipped(x: Seq<bool>, y: Seq<bool>, idx: Seq<usize>) -> bool {
    &&& y.len() == x.len()
    &&& idx.no_duplicates()
    &&& forall|k: int| 0 <= k < idx.len() ==> #[trigger] idx[k] < x.len()
    &&& forall|i: int| 0 <= i < x.len() ==> #[trigger] y[i] == (x[i] != idx.contains(i as usize))
}

/// `size` random flags, each set with probability one half.
pub fn get_random_bools(size: usize, rng: &mut ThreadRng) -> (r: Vec<bool>)
    ensures
        r@.len() == size,
{
    let mut bools: Vec<bool> = Vec::new();
    let mut i: usize = 0;
    while i < size
        invariant
            0 <= i <= size,
            bools@.len() == i,
        decreases size - i,
    {
        let b = coin(rng);
        bools.push(b);
        i += 1;
    }
    bools
}

/// The flagwise OR of two flag vectors of one length.
pub fn or_bools(a: &Vec<bool>, b: &Vec<bool>) -> (r: Vec<bool>)
    requires
        a@.len() == b@.len(),
    ensures
        r@.len() == a@.len(),
        forall|i: int| 0 <= i < a@.len() ==> #[trigger] r@[i] == (a@[i] || b@[i]),
{
    let mut r: Vec<bool> = Vec::new();
    let mut i: usize = 0;
    while i < a.len()
        invariant
            a@.len() == b@.len(),
            0 <= i <= a@.len(),
            r@.len() == i,
            forall|t: int| 0 <= t < i ==> #[trigger] r@[t] == (a@[t] || b@[t]),
        decreases a@.len() - i,
    {
        r.push(a[i] || b[i]);
        i += 1;
    }
    r
}

/// `size` random flags, each the OR of two fair coins, so set with
/// probability three quarters: all first coins are drawn, then all second ones.
pub fn get_biased_bools(size: usize, rng: &mut ThreadRng) -> (r: Vec<bool>)
    ensures
        r@.len() == size,
{
    let first = get_random_bools(size, rng);
    let second = get_random_bools(size, rng);
    or_bools(&first, &second)
}

/// A copy of `x` with the flags at the distinct positions `idx` flipped.
pub fn flip_at(x: &Vec<bool>, idx: &Vec<usize>) -> (r: Vec<bool>)
    requires
        idx@.no_duplicates(),
        forall|k: int| 0 <= k < idx@.len() ==> #[trigger] idx@[k] < x@.len(),
    ensures
        flipped(x@, r@, idx@),
{
    let mut neighbour: Vec<bool> = Vec::new();
    let mut i: usize = 0;
    while i < x.len()
        invariant
            0 <= i <= x@.len(),
            neighbour@.len() == i,
            forall|t: int| 0 <= t < i ==> #[trigger] neighbour@[t] == x@[t],
        decreases x@.len() - i,
    {
        neighbour.push(x[i]);
        i += 1;
    }
    let blen = x.len();
    let mut k: usize = 0;
    while k < idx.len()
        invariant
            blen == x@.len(),
            0 <= k <= idx@.len(),
            neighbour@.len() == x@.len(),
            idx@.no_duplicates(),
            forall|j: int| 0 <= j < idx@.len() ==> #[trigger] idx@[j] < x@.len(),
            forall|t: int|
                0 <= t < x@.len() ==> #[trigger] neighbour@[t] == (x@[t] != idx@.subrange(
                    0,
                    k as int,
                ).contains(t as usize)),
        decreases idx@.len() - k,
    {
        let t = idx[k];
        let flippedv = !neighbour[t];
        neighbour.set(t, flippedv);
        proof {
            let before_k = idx@.subrange(0, k as int);
            let after_k = idx@.subrange(0, k as int + 1);
            assert forall|u: int| 0 <= u < x@.len() implies #[trigger] after_k.contains(u as usize) == (before_k.contains(u as usize) || u == t as int) by {
                let uu = u as usize;
                assert(uu as int == u);
                if after_k.contains(uu) {
                    let j = choose|j: int| 0 <= j < after_k.len() && after_k[j] == uu;
                    if j < k {
                        assert(before_k[j] == uu);
                        assert(before_k.contains(uu));
                    } else {
                        assert(after_k[j] == t);
                    }
                }
                if u == t as int {
                    assert(after_k[k as int] == t);
                    assert(after_k.contains(uu));
                }
                if before_k.contains(uu) {
                    let j = choose|j: int| 0 <= j < before_k.len() && before_k[j] == uu;
                    assert(after_k[j] == uu);
                    assert(after_k.contains(uu));
                }
            }
            assert(!before_k.contains(t)) by {
                if before_k.contains(t) {
                    let j = choose|j: int| 0 <= j < before_k.len() && before_k[j] == t;
                    assert(idx@[j] == idx@[k as int]);
                }
            }
        }
        k += 1;
    }
    proof {
        assert(idx@.subrange(0, idx@.len() as int) =~= idx@);
    }
    neighbour
}

/// A copy of `bools` with `distance` distinct flags, chosen at random,
/// flipped (all of them when `distance` exceeds the length).
pub fn bools_random_neighbour(bools: &Vec<bool>, rng: &mut ThreadRng, distance: usize) -> (r: Vec<bool>)
    ensures
        exists|idx: Seq<usize>|
            #[trigger] flipped(bools@, r@, idx) && idx.len() == if distance < bools@.len() {
                distance as int
            } else {
                bools@.len() as int
            },
{
    let amount = if distance < bools.len() {
        distance
    } else {
        bools.len()
    };
    let indexes = sample_indices(rng, bools.len(), amount);
    let r = flip_at(bools, &indexes);
    assert(flipped(bools@, r@, indexes@));
    r
}

/// The median of `scores`: the entry at position `len / 2` in sorted order.
pub fn median(scores: &mut Vec<i64>) -> (r: i64)
    requires
        old(scores)@.len() > 0,
    ensures
        order_statistic(old(scores)@, old(scores)@.len() as int / 2, r),
{
    let k = scores.len() / 2;
    let r = select_nth(scores, k);
    assert(order_statistic(old(scores)@, k as int, r)) by {
        let w = scores@;
        assert(w.to_multiset() == old(scores)@.to_multiset());
    }
    r
}

/// `coords` lists the cells of puzzle `g` worth marking, in row-major order.
pub open spec fn lists_markables(g: Seq<Seq<u16>>, coords: Seq<(usize, usize)>) -> bool {
    &&& forall|k: int|
        0 <= k < coords.len() ==> #[trigger] coords[k].0 < g.len() && coords[k].1 < g.len()
            && markable(g, coords[k].0 as int, coords[k].1 as int)
    &&& forall|k: int, l: int| 0 <= k < l < coords.len() ==> before(#[trigger] coords[k], #[trigger] coords[l])
    &&& forall|i: int, j: int|
        0 <= i < g.len() && 0 <= j < g.len() && #[trigger] markable(g, i, j) ==> exists|k: int|
            0 <= k < coords.len() && coords[k] == (i as usize, j as usize)
}

/// The score of the marking that candidate `bits` stands for.
pub open spec fn candidate_score(g: Seq<Seq<u16>>, coords: Seq<(usize, usize)>, bits: Seq<bool>) -> int {
    score(g, decode_view(bits, coords, g.len() as int))
}

/// What a proposed neighbour turned out to be.
#[derive(Debug, Clone, Copy, PartialEq, Eq, Structural)]
pub enum Verdict {
    /// It scores 0: the puzzle is solved.
    Solved,
    /// It scores less than the current candidate and has replaced it.
    Improved,
    /// It scores no less than the current candidate: a chance draw decides.
    Worse,
}

/// Judges a proposal scoring `points_y` against a current score `points_x`.
pub fn judge(points_x: i64, points_y: i64) -> (v: Verdict)
    ensures
        v == Verdict::Solved <==> points_y == 0,
        v == Verdict::Improved <==> points_y != 0 && points_y < points_x,
        v == Verdict::Worse <==> points_y != 0 && points_y >= points_x,
{
    if points_y == 0 {
        Verdict::Solved
    } else if points_y < points_x {
        Verdict::Improved
    } else {
        Verdict::Worse
    }
}

/// A copy of a vector of flags.
fn copy_bools(v: &Vec<bool>) -> (r: Vec<bool>)
    ensures
        r@ == v@,
{
    let mut r: Vec<bool> = Vec::new();
    let mut i: usize = 0;
    while i < v.len()
        invariant
            0 <= i <= v@.len(),
            r@ == v@.subrange(0, i as int),
        decreases v@.len() - i,
    {
        r.push(v[i]);
        i += 1;
        assert(r@ =~= v@.subrange(0, i as int));
    }
    assert(v@.subrange(0, v@.len() as int) =~= v@);
    r
}

/// An all-unset candidate of `len` flags.
fn no_flags(len: usize) -> (r: Vec<bool>)
    ensures
        r@.len() == len,
{
    let mut r: Vec<bool> = Vec::new();
    let mut i: usize = 0;
    while i < len
        invariant
            0 <= i <= len,
            r@.len() == i,
        decreases len - i,
    {
        r.push(false);
        i += 1;
    }
    r
}

/// The scores of the candidates `samples`, in order.
pub open spec fn sample_scores(
    g: Seq<Seq<u16>>,
    coords: Seq<(usize, usize)>,
    samples: Seq<Vec<bool>>,
) -> Seq<i64> {
    Seq::new(samples.len(), |t: int| candidate_score(g, coords, samples[t]@) as i64)
}

/// The state of an annealing search on one puzzle: the markable cells, the
/// median score of the sampled candidates, the current candidate `x` and the
/// last proposal `y`, each with its score.
pub struct Search {
    pub grid: Vec<Vec<u16>>,
    pub coords: Vec<(usize, usize)>,
    pub median: i64,
    pub x: Vec<bool>,
    pub points_x: i64,
    pub y: Vec<bool>,
    pub points_y: i64,
}

impl Search {
    /// The coordinates are the markable cells, and both candidates flag them
    /// and carry their true scores.
    pub open spec fn wf(&self) -> bool {
        let g = rows(self.grid@);
        &&& is_puzzle(g)
        &&& lists_markables(g, self.coords@)
        &&& coords_within(self.coords@, g.len() as int)
        &&& self.x@.len() == self.coords@.len()
        &&& self.y@.len() == self.coords@.len()
        &&& self.points_x == candidate_score(g, self.coords@, self.x@)
        &&& self.points_y == candidate_score(g, self.coords@, self.y@)
    }

    /// The median of the scores of the candidates `samples`: the score at
    /// position `len / 2` in sorted order.
    pub fn median_of(&self, samples: &Vec<Vec<bool>>) -> (r: i64)
        requires
            self.wf(),
            samples@.len() > 0,
            forall|t: int| 0 <= t < samples@.len() ==> #[trigger] samples@[t]@.len() == self.coords@.len(),
        ensures
            order_statistic(
                sample_scores(rows(self.grid@), self.coords@, samples@),
                samples@.len() as int / 2,
                r,
            ),
    {
        let ghost g = rows(self.grid@);
        let n = self.grid.len();
        let mut scores: Vec<i64> = Vec::new();
        let mut t: usize = 0;
        while t < samples.len()
            invariant
                self.wf(),
                g == rows(self.grid@),
                n == self.grid@.len(),
                0 <= t <= samples@.len(),
                scores@.len() == t,
                forall|u: int| 0 <= u < t ==> #[trigger] scores@[u] == candidate_score(g, self.coords@, samples@[u]@),
            decreases samples@.len() - t,
        {
            let sol = generate_solution_from_markable_coords(&samples[t], &self.coords, n);
            let p = bad_points(&self.grid, &sol);
            scores.push(p);
            t += 1;
        }
        assert(scores@ =~= sample_scores(g, self.coords@, samples@));
        median(&mut scores)
    }

    /// Starts a search: finds the markable cells, scores `n * n` random
    /// candidates (each flag the OR of two fair coins) and keeps their
    /// median, then draws a first candidate, each flag set with
    /// probability one half.
    pub fn new(grid: Vec<Vec<u16>>, rng: &mut ThreadRng) -> (s: Search)
        requires
            is_puzzle(rows(grid@)),
        ensures
            s.wf(),
            s.grid@ == grid@,
            s.y@ == s.x@,
            exists|samples: Seq<Vec<bool>>|
                #[trigger] samples.len() == grid@.len() * grid@.len() && (forall|t: int|
                    0 <= t < samples.len() ==> #[trigger] samples[t]@.len() == s.coords@.len())
                    && order_statistic(
                    sample_scores(rows(grid@), s.coords@, samples),
                    samples.len() as int / 2,
                    s.median,
                ),
    {
        let n = grid.len();
        let markables = find_markables(&grid);
        let coords = get_markable_coords(&markables);
        proof {
            let g = rows(grid@);
            let mk = rows(markables@);
            assert forall|k: int| 0 <= k < coords@.len() implies #[trigger] coords@[k].0 < g.len()
                && coords@[k].1 < g.len() && markable(g, coords@[k].0 as int, coords@[k].1 as int) by {
                assert(mk[coords@[k].0 as int][coords@[k].1 as int]);
            }
            assert forall|i: int, j: int| 0 <= i < g.len() && 0 <= j < g.len() && #[trigger] markable(g, i, j)
                implies exists|k: int| 0 <= k < coords@.len() && coords@[k] == (i as usize, j as usize) by {
                assert(mk[i][j]);
            }
        }
        let blank = no_flags(coords.len());
        let sol0 = generate_solution_from_markable_coords(&blank, &coords, n);
        let points0 = bad_points(&grid, &sol0);
        let blank_y = copy_bools(&blank);
        let mut s = Search { grid, coords, median: 0, x: blank, points_x: points0, y: blank_y, points_y: points0 };
        assert(s.y@ =~= s.x@);
        let samples_count = cell_count(n);
        assert(n * n >= 1) by (nonlinear_arith)
            requires n >= 1;
        let mut samples: Vec<Vec<bool>> = Vec::new();
        let mut k: usize = 0;
        while k < samples_count
            invariant
                s.wf(),
                0 <= k <= samples_count,
                samples@.len() == k,
                forall|t: int| 0 <= t < k ==> #[trigger] samples@[t]@.len() == s.coords@.len(),
            decreases samples_count - k,
        {
            let c = get_biased_bools(s.coords.len(), rng);
            samples.push(c);
            k += 1;
        }
        let med = s.median_of(&samples);
        s.median = med;
        let x = get_random_bools(s.coords.len(), rng);
        let sol = generate_solution_from_markable_coords(&x, &s.coords, n);
        let points_x = bad_points(&s.grid, &sol);
        s.y = copy_bools(&x);
        s.x = x;
        s.points_x = points_x;
        s.points_y = points_x;
        s
    }

    /// Proposes a neighbour of the current candidate, one flag flipped at
    /// random, scores it, and adopts it when it scores less.
    pub fn step(&mut self, rng: &mut ThreadRng) -> (v: Verdict)
        requires
            old(self).wf(),
        ensures
            final(self).wf(),
            final(self).grid == old(self).grid,
            final(self).coords == old(self).coords,
            exists|idx: Seq<usize>|
                #[trigger] flipped(old(self).x@, final(self).y@, idx) && idx.len() == if old(self).x@.len() > 0 {
                    1int
                } else {
                    0int
                },
            v == Verdict::Solved <==> final(self).points_y == 0,
            v == Verdict::Improved <==> final(self).points_y != 0 && final(self).points_y < old(self).points_x,
            v == Verdict::Worse <==> final(self).points_y != 0 && final(self).points_y >= old(self).points_x,
            v == Verdict::Improved ==> final(self).x@ == final(self).y@ && final(self).points_x == final(self).points_y,
            v != Verdict::Improved ==> final(self).x@ == old(self).x@ && final(self).points_x == old(self).points_x,
    {
        let n = self.grid.len();
        let y = bools_random_neighbour(&self.x, rng, 1);
        let ghost idx = choose|idx: Seq<usize>| #[trigger] flipped(self.x@, y@, idx) && idx.len() == if 1 < self.x@.len() {
            1int
        } else {
            self.x@.len() as int
        };
        let sol = generate_solution_from_markable_coords(&y, &self.coords, n);
        let points_y = bad_points(&self.grid, &sol);
        let v = judge(self.points_x, points_y);
        if v == Verdict::Improved {
            self.x = copy_bools(&y);
            self.points_x = points_y;
        }
        self.y = y;
        self.points_y = points_y;
        assert(flipped(old(self).x@, self.y@, idx));
        v
    }

    /// Adopts the last proposal as the current candidate.
    pub fn accept(&mut self)
        requires
            old(self).wf(),
        ensures
            final(self).wf(),
            final(self).grid == old(self).grid,
            final(self).coords == old(self).coords,
            final(self).x@ == old(self).y@,
            final(self).points_x == old(self).points_y,
            final(self).y@ == old(self).y@,
            final(self).points_y == old(self).points_y,
    {
        self.x = copy_bools(&self.y);
        self.points_x = self.points_y;
    }

    /// The marking that the last proposal stands for; it scores
    /// `points_y`, so 0 once `step` has answered `Solved`.
    pub fn solution(&self) -> (r: Vec<Vec<bool>>)
        requires
            self.wf(),
        ensures
            rows(r@) == decode_view(self.y@, self.coords@, self.grid@.len() as int),
            score(rows(self.grid@), rows(r@)) == self.points_y,
    {
        generate_solution_from_markable_coords(&self.y, &self.coords, self.grid.len())
    }
}

} // verus!
