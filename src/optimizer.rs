//! The daily assignment search: a positional matching between ready tasks
//! and free workers, refined by annealed swaps of the worker column.
use crate::anneal::{accept, Acceptor};
use crate::rng::index_below;
use rand_pcg::Mcg128Xsl64;
use vstd::prelude::*;

verus! {

/// Iterations of one daily swap search.
pub const SWAP_ITERATIONS: u64 = 10000;

/// The number of workers (columns) of the table.
pub open spec fn width(ests: Seq<Vec<i32>>) -> nat {
    if ests.len() > 0 {
        ests[0]@.len()
    } else {
        0
    }
}

/// `ests` is a rectangular table of non-negative predicted durations.
pub open spec fn valid_ests(ests: Seq<Vec<i32>>) -> bool {
    forall|t: int|
        0 <= t < ests.len() ==> (#[trigger] ests[t])@.len() == width(ests) && forall|w: int|
            0 <= w < width(ests) ==> 0 <= #[trigger] ests[t]@[w]
}

/// Positions hold tasks of the table or holes, and workers of the table or
/// holes, in columns of one length.
pub open spec fn valid_slots(
    ests: Seq<Vec<i32>>,
    tis: Seq<Option<usize>>,
    ris: Seq<Option<usize>>,
) -> bool {
    &&& valid_ests(ests)
    &&& tis.len() == ris.len()
    &&& tis.len() <= 0xffff_ffff
    &&& forall|p: int| 0 <= p < tis.len() && (#[trigger] tis[p]).is_some() ==> tis[p].unwrap() < ests.len()
    &&& forall|p: int| 0 <= p < ris.len() && (#[trigger] ris[p]).is_some() ==> ris[p].unwrap() < width(ests)
}

/// The cost of one position: the predicted duration, or nothing for a hole.
pub open spec fn pair_cost(ests: Seq<Vec<i32>>, t: Option<usize>, w: Option<usize>) -> int {
    match (t, w) {
        (Some(t), Some(w)) => ests[t as int]@[w as int] as int,
        _ => 0,
    }
}

/// The cost of the first `n` positions.
pub open spec fn objective_prefix(
    ests: Seq<Vec<i32>>,
    tis: Seq<Option<usize>>,
    ris: Seq<Option<usize>>,
    n: nat,
) -> int
    decreases n,
{
    if n == 0 {
        0
    } else {
        objective_prefix(ests, tis, ris, (n - 1) as nat) + pair_cost(ests, tis[n - 1], ris[n - 1])
    }
}

/// `Σ_p est[tis[p]][ris[p]]`, holes contributing nothing.
pub open spec fn objective(ests: Seq<Vec<i32>>, tis: Seq<Option<usize>>, ris: Seq<Option<usize>>) -> int {
    objective_prefix(ests, tis, ris, tis.len())
}

/// `s` with the entries at `i` and `j` exchanged.
pub open spec fn swapped<T>(s: Seq<T>, i: int, j: int) -> Seq<T> {
    s.update(i, s[j]).update(j, s[i])
}

/// No worker appears at two positions.
pub open spec fn distinct_workers(s: Seq<Option<usize>>) -> bool {
    forall|i: int, j: int|
        0 <= i < s.len() && 0 <= j < s.len() && i != j && (#[trigger] s[i]).is_some() ==> s[i]
            != #[trigger] s[j]
}

/// Every worker of `orig` still has a position in `s`.
pub open spec fn covers(s: Seq<Option<usize>>, orig: Seq<Option<usize>>) -> bool {
    forall|i: int| 0 <= i < orig.len() && (#[trigger] orig[i]).is_some() ==> s.contains(orig[i])
}

/// Every entry of `s` is an entry of `orig`.
pub open spec fn drawn_from(s: Seq<Option<usize>>, orig: Seq<Option<usize>>) -> bool {
    forall|i: int| 0 <= i < s.len() ==> orig.contains(#[trigger] s[i])
}

proof fn lemma_objective_bounds(
    ests: Seq<Vec<i32>>,
    tis: Seq<Option<usize>>,
    ris: Seq<Option<usize>>,
    n: nat,
)
    requires
        valid_slots(ests, tis, ris),
        n <= tis.len(),
    ensures
        0 <= objective_prefix(ests, tis, ris, n) <= n * 0x7fff_ffff,
    decreases n,
{
    if n > 0 {
        lemma_objective_bounds(ests, tis, ris, (n - 1) as nat);
        let p = n - 1;
        if tis[p].is_some() && ris[p].is_some() {
            let t = tis[p].unwrap() as int;
            let w = ris[p].unwrap() as int;
            assert(ests[t]@.len() == width(ests));
            assert(0 <= ests[t]@[w]);
        }
    }
}

/// The objective over the whole column fits an `i64`.
proof fn lemma_objective_fits(
    ests: Seq<Vec<i32>>,
    tis: Seq<Option<usize>>,
    ris: Seq<Option<usize>>,
)
    requires
        valid_slots(ests, tis, ris),
    ensures
        0 <= objective(ests, tis, ris) <= 0x7fff_fffe_8000_0001,
{
    lemma_objective_bounds(ests, tis, ris, tis.len());
    let n = tis.len();
    assert(n * 0x7fff_ffff <= 0xffff_ffff * 0x7fff_ffff) by (nonlinear_arith)
        requires
            n <= 0xffff_ffff,
    ;
}

/// Changing the worker at one position changes the objective by the change
/// of that position's cost.
proof fn lemma_objective_update(
    ests: Seq<Vec<i32>>,
    tis: Seq<Option<usize>>,
    ris: Seq<Option<usize>>,
    i: int,
    x: Option<usize>,
    n: nat,
)
    requires
        0 <= i < ris.len(),
        n <= tis.len() == ris.len(),
    ensures
        objective_prefix(ests, tis, ris.update(i, x), n) == objective_prefix(ests, tis, ris, n) - (
        if i < n {
            pair_cost(ests, tis[i], ris[i]) - pair_cost(ests, tis[i], x)
        } else {
            0
        }),
    decreases n,
{
    if n > 0 {
        lemma_objective_update(ests, tis, ris, i, x, (n - 1) as nat);
    }
}

/// The objective after exchanging the workers at `fm` and `to`.
proof fn lemma_objective_swapped(
    ests: Seq<Vec<i32>>,
    tis: Seq<Option<usize>>,
    ris: Seq<Option<usize>>,
    fm: int,
    to: int,
)
    requires
        0 <= fm < ris.len(),
        0 <= to < ris.len(),
        tis.len() == ris.len(),
    ensures
        objective(ests, tis, swapped(ris, fm, to)) == objective(ests, tis, ris) - pair_cost(
            ests,
            tis[fm],
            ris[fm],
        ) - pair_cost(ests, tis[to], ris[to]) + pair_cost(ests, tis[fm], ris[to]) + pair_cost(
            ests,
            tis[to],
            ris[fm],
        ),
{
    let r1 = ris.update(fm, ris[to]);
    lemma_objective_update(ests, tis, ris, fm, ris[to], tis.len());
    lemma_objective_update(ests, tis, r1, to, ris[fm], tis.len());
}

/// Exchanging the same two positions twice restores the column, and the two
/// changes of the objective cancel.
pub proof fn lemma_swap_twice(
    ests: Seq<Vec<i32>>,
    tis: Seq<Option<usize>>,
    ris: Seq<Option<usize>>,
    fm: int,
    to: int,
)
    requires
        0 <= fm < ris.len(),
        0 <= to < ris.len(),
        tis.len() == ris.len(),
    ensures
        swapped(swapped(ris, fm, to), fm, to) == ris,
        (objective(ests, tis, swapped(ris, fm, to)) - objective(ests, tis, ris)) + (objective(
            ests,
            tis,
            swapped(swapped(ris, fm, to), fm, to),
        ) - objective(ests, tis, swapped(ris, fm, to))) == 0,
{
    assert(swapped(swapped(ris, fm, to), fm, to) =~= ris);
}

/// Exchanging two positions keeps workers distinct and drawn from `orig`.
proof fn lemma_swap_keeps_workers(
    s: Seq<Option<usize>>,
    orig: Seq<Option<usize>>,
    fm: int,
    to: int,
)
    requires
        0 <= fm < s.len(),
        0 <= to < s.len(),
        distinct_workers(s),
        drawn_from(s, orig),
        covers(s, orig),
    ensures
        distinct_workers(swapped(s, fm, to)),
        drawn_from(swapped(s, fm, to), orig),
        covers(swapped(s, fm, to), orig),
        swapped(s, fm, to).len() == s.len(),
{
    let r = swapped(s, fm, to);
    assert forall|i: int| 0 <= i < orig.len() && (#[trigger] orig[i]).is_some() implies r.contains(orig[i]) by {
        let j = choose|j: int| 0 <= j < s.len() && s[j] == orig[i];
        if j == fm {
            assert(r[to] == orig[i]);
        } else if j == to {
            assert(r[fm] == orig[i]);
        } else {
            assert(r[j] == orig[i]);
        }
    }
    assert forall|i: int| 0 <= i < r.len() implies orig.contains(#[trigger] r[i]) by {
        if i == to {
            assert(orig.contains(s[fm]));
        } else if i == fm {
            assert(orig.contains(s[to]));
        } else {
            assert(orig.contains(s[i]));
        }
    }
    assert forall|i: int, j: int|
        0 <= i < r.len() && 0 <= j < r.len() && i != j && (#[trigger] r[i]).is_some() implies r[i]
        != #[trigger] r[j] by {
        let si = if i == to {
            fm
        } else if i == fm {
            to
        } else {
            i
        };
        let sj = if j == to {
            fm
        } else if j == fm {
            to
        } else {
            j
        };
        assert(r[i] == s[si]);
        assert(r[j] == s[sj]);
    }
}

/// The cost of one position.
fn position_cost(ests: &Vec<Vec<i32>>, t: Option<usize>, w: Option<usize>) -> (r: i64)
    requires
        valid_ests(ests@),
        t.is_some() ==> t.unwrap() < ests@.len(),
        w.is_some() ==> w.unwrap() < width(ests@),
    ensures
        r == pair_cost(ests@, t, w),
        0 <= r <= i32::MAX,
{
    match (t, w) {
        (Some(t), Some(w)) => {
            assert(ests@[t as int]@.len() == width(ests@));
            ests[t][w] as i64
        },
        _ => 0,
    }
}

/// The exact change of the objective that exchanging the workers at `fm` and
/// `to` causes.
pub fn swap_delta(
    ests: &Vec<Vec<i32>>,
    tis: &Vec<Option<usize>>,
    ris: &Vec<Option<usize>>,
    fm: usize,
    to: usize,
) -> (r: i64)
    requires
        valid_slots(ests@, tis@, ris@),
        fm < tis@.len(),
        to < tis@.len(),
    ensures
        r == objective(ests@, tis@, swapped(ris@, fm as int, to as int)) - objective(
            ests@,
            tis@,
            ris@,
        ),
{
    proof {
        lemma_objective_swapped(ests@, tis@, ris@, fm as int, to as int);
    }
    let a = position_cost(ests, tis[fm], ris[fm]);
    let b = position_cost(ests, tis[to], ris[to]);
    let c = position_cost(ests, tis[fm], ris[to]);
    let d = position_cost(ests, tis[to], ris[fm]);
    c + d - a - b
}

/// A copy of a column.
pub fn copy_slots(v: &Vec<Option<usize>>) -> (r: Vec<Option<usize>>)
    ensures
        r@ == v@,
{
    let mut r: Vec<Option<usize>> = Vec::new();
    let mut i: usize = 0;
    while i < v.len()
        invariant
            i <= v@.len(),
            r@ == v@.subrange(0, i as int),
        decreases v@.len() - i,
    {
        r.push(v[i]);
        i = i + 1;
        assert(r@ =~= v@.subrange(0, i as int));
    }
    assert(r@ =~= v@);
    r
}

/// The state of a swap search over the worker column: the current column,
/// the best column seen, and their objectives relative to the start column.
pub struct SwapSearch {
    pub ris: Vec<Option<usize>>,
    pub best_ris: Vec<Option<usize>>,
    pub cur: i64,
    pub best: i64,
    pub start: Ghost<Seq<Option<usize>>>,
}

impl SwapSearch {
    pub open spec fn inv(&self, ests: Seq<Vec<i32>>, tis: Seq<Option<usize>>) -> bool {
        &&& valid_slots(ests, tis, self.start@)
        &&& valid_slots(ests, tis, self.ris@)
        &&& valid_slots(ests, tis, self.best_ris@)
        &&& self.cur == objective(ests, tis, self.ris@) - objective(ests, tis, self.start@)
        &&& self.best == objective(ests, tis, self.best_ris@) - objective(ests, tis, self.start@)
        &&& self.best <= 0
        &&& distinct_workers(self.ris@)
        &&& distinct_workers(self.best_ris@)
        &&& drawn_from(self.ris@, self.start@)
        &&& drawn_from(self.best_ris@, self.start@)
        &&& covers(self.ris@, self.start@)
        &&& covers(self.best_ris@, self.start@)
    }

    /// A search that starts from `ris`.
    pub fn new(ests: &Vec<Vec<i32>>, tis: &Vec<Option<usize>>, ris: Vec<Option<usize>>) -> (r: SwapSearch)
        requires
            valid_slots(ests@, tis@, ris@),
            distinct_workers(ris@),
        ensures
            r.inv(ests@, tis@),
            r.start@ == ris@,
            r.ris@ == ris@,
            r.best_ris@ == ris@,
            r.cur == 0,
            r.best == 0,
    {
        let best_ris = copy_slots(&ris);
        let ghost start = ris@;
        assert forall|i: int| 0 <= i < start.len() implies start.contains(#[trigger] start[i]) by {}
        assert forall|i: int| 0 <= i < start.len() && (#[trigger] start[i]).is_some() implies best_ris@.contains(start[i]) by {
            assert(best_ris@[i] == start[i]);
        }
        SwapSearch { ris, best_ris, cur: 0, best: 0, start: Ghost(start) }
    }

    /// One iteration: exchange the workers at `fm` and `to`, record the column
    /// if it beats the best, and undo the exchange unless `anl` accepts it.
    /// The best objective never rises.
    pub fn step<A: Acceptor>(
        &mut self,
        ests: &Vec<Vec<i32>>,
        tis: &Vec<Option<usize>>,
        fm: usize,
        to: usize,
        anl: &mut A,
    )
        requires
            old(self).inv(ests@, tis@),
            fm < tis@.len(),
            to < tis@.len(),
        ensures
            final(self).inv(ests@, tis@),
            final(self).start == old(self).start,
            final(self).best <= old(self).best,
            final(self).ris@ == old(self).ris@ || final(self).ris@ == swapped(
                old(self).ris@,
                fm as int,
                to as int,
            ),
            final(self).best_ris@ == old(self).best_ris@ || (final(self).best_ris@ == swapped(
                old(self).ris@,
                fm as int,
                to as int,
            ) && final(self).best < old(self).best),
            objective(ests@, tis@, swapped(old(self).ris@, fm as int, to as int)) - objective(
                ests@,
                tis@,
                old(self).start@,
            ) < old(self).best ==> final(self).best_ris@ == swapped(
                old(self).ris@,
                fm as int,
                to as int,
            ),
            objective(ests@, tis@, swapped(old(self).ris@, fm as int, to as int)) - objective(
                ests@,
                tis@,
                old(self).start@,
            ) >= old(self).best ==> final(self).best_ris@ == old(self).best_ris@ && final(self).best
                == old(self).best,
            objective(ests@, tis@, swapped(old(self).ris@, fm as int, to as int)) <= objective(
                ests@,
                tis@,
                old(self).ris@,
            ) ==> final(self).ris@ == swapped(old(self).ris@, fm as int, to as int),
    {
        let ghost before = self.ris@;
        let delta_sum = swap_delta(ests, tis, &self.ris, fm, to);
        proof {
            lemma_swap_keeps_workers(before, self.start@, fm as int, to as int);
            lemma_objective_fits(ests@, tis@, before);
            lemma_objective_fits(ests@, tis@, self.start@);
            lemma_objective_fits(ests@, tis@, swapped(before, fm as int, to as int));
        }
        let a = self.ris[fm];
        let b = self.ris[to];
        self.ris.set(fm, b);
        self.ris.set(to, a);
        assert(self.ris@ =~= swapped(before, fm as int, to as int));
        self.cur = self.cur + delta_sum;
        if self.cur < self.best {
            self.best_ris = copy_slots(&self.ris);
            self.best = self.cur;
        }
        if !accept(anl, -delta_sum) {
            self.ris.set(fm, a);
            self.ris.set(to, b);
            assert(self.ris@ =~= before);
            self.cur = self.cur - delta_sum;
        }
    }
}

/// Refines the worker column `ris` against the task column `tis` by
/// `SWAP_ITERATIONS` annealed swaps, with positions drawn from `rng`, and
/// returns the best column seen: a rearrangement of `ris` whose objective is
/// no higher.
pub fn optimize_assignment<A: Acceptor>(
    ests: &Vec<Vec<i32>>,
    tis: &Vec<Option<usize>>,
    ris: Vec<Option<usize>>,
    rng: &mut Mcg128Xsl64,
    anl: &mut A,
) -> (best: Vec<Option<usize>>)
    requires
        valid_slots(ests@, tis@, ris@),
        distinct_workers(ris@),
        tis@.len() > 0,
    ensures
        valid_slots(ests@, tis@, best@),
        distinct_workers(best@),
        drawn_from(best@, ris@),
        covers(best@, ris@),
        objective(ests@, tis@, best@) <= objective(ests@, tis@, ris@),
{
    let ghost start = ris@;
    let mut search = SwapSearch::new(ests, tis, ris);
    let n = tis.len();
    let mut i: u64 = 0;
    while i < SWAP_ITERATIONS
        invariant
            search.inv(ests@, tis@),
            search.start@ == start,
            n == tis@.len() > 0,
            i <= SWAP_ITERATIONS,
        decreases SWAP_ITERATIONS - i,
    {
        anl.set_progress(i, SWAP_ITERATIONS);
        let fm = index_below(rng, n);
        let to = index_below(rng, n);
        if fm != to {
            search.step(ests, tis, fm, to, anl);
        }
        i = i + 1;
    }
    search.best_ris
}

} // verus!
