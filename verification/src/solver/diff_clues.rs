//! Difference clues: the areas of the two pieces on the sides of a clue edge
//! differ by the clue's value. When one side's component can no longer grow,
//! the other side's area is narrowed down to the candidates that this leaves.
use vstd::prelude::*;
use super::Solver;
use super::edge_state::{any_undecided, ops_in_range, set_all, EdgeForcer};
use super::validation::both_exist;
use crate::types::{EdgeId, EdgeState};

verus! {

/// Component `ci` can no longer grow.
pub open spec fn comp_sealed(s: &Solver, ci: int) -> bool {
    0 <= ci < s.can_grow_buf@.len() && !s.can_grow_buf@[ci]
}

/// The component tables: one entry per component, a component for every
/// existing cell, and growth edges that are edges of the grid.
pub open spec fn area_tables_ok(s: &Solver) -> bool {
    let k = s.curr_comp_sz@.len();
    &&& s.curr_comp_id@.len() == s.grid.n_cells()
    &&& forall|c: int| 0 <= c < s.grid.n_cells() && s.grid.cell_exists@[c] ==> #[trigger] s.curr_comp_id@[c] < k
    &&& s.curr_target_area@.len() == k
    &&& s.curr_min_area@.len() == k
    &&& s.curr_max_area@.len() == k
    &&& s.growth_edges@.len() == k
    &&& forall|i: int, j: int|
        0 <= i < k && 0 <= j < s.growth_edges@[i]@.len() ==> #[trigger] s.growth_edges@[i]@[j] < s.grid.n_edges()
}

/// The difference clues name edges of the grid, and a component's size plus
/// a clue's value fits in a `usize`.
pub open spec fn diff_clues_fit(s: &Solver) -> bool {
    &&& forall|k: int| 0 <= k < s.diff_clues@.len() ==> (#[trigger] s.diff_clues@[k]).0 < s.grid.n_edges()
    &&& forall|k: int, i: int|
        0 <= k < s.diff_clues@.len() && 0 <= i < s.curr_comp_sz@.len() ==> (#[trigger] s.diff_clues@[k]).1
            + #[trigger] s.curr_comp_sz@[i] <= usize::MAX
}

/// The areas in [lo, hi] that differ by `value` from `sz`: `sz + value`,
/// then `sz - value` when `sz` is larger than `value`.
pub open spec fn diff_candidates(sz: int, value: int, lo: int, hi: int) -> Seq<int> {
    let up: Seq<int> = if lo <= sz + value <= hi {
        seq![sz + value]
    } else {
        seq![]
    };
    let down: Seq<int> = if sz > value && lo <= sz - value <= hi {
        seq![sz - value]
    } else {
        seq![]
    };
    up + down
}

/// What the difference clue `value` on edge `e` decides, given the target
/// areas so far: a contradiction, nothing, or a target area for a component.
/// Only a cut clue edge between two existing cells of different components
/// counts. Both components sealed: their sizes must differ by `value`. One
/// sealed: the other's area must be among the candidates; a known target
/// must be one of them, and a single candidate becomes the target unless the
/// component is already larger.
pub open spec fn diff_decision(s: &Solver, targets: Seq<Option<usize>>, e: int, value: int) -> Result<
    Option<(int, int)>,
    (),
> {
    let g = s.grid;
    let ci1 = s.curr_comp_id@[g.edge_cells_of(e).0] as int;
    let ci2 = s.curr_comp_id@[g.edge_cells_of(e).1] as int;
    let sz = s.curr_comp_sz@;
    if s.edges@[e] != EdgeState::Cut || !both_exist(g, e) || ci1 == ci2 {
        Ok(None)
    } else if comp_sealed(s, ci1) && comp_sealed(s, ci2) {
        if sz[ci1] - sz[ci2] != value && sz[ci2] - sz[ci1] != value {
            Err(())
        } else {
            Ok(None)
        }
    } else if !comp_sealed(s, ci1) && !comp_sealed(s, ci2) {
        Ok(None)
    } else {
        let sc = if comp_sealed(s, ci1) {
            ci1
        } else {
            ci2
        };
        let oc = if comp_sealed(s, ci1) {
            ci2
        } else {
            ci1
        };
        let cands = diff_candidates(sz[sc] as int, value, s.curr_min_area@[oc] as int, s.curr_max_area@[oc] as int);
        if cands.len() == 0 {
            Err(())
        } else {
            match targets[oc] {
                Some(t) => if cands.contains(t as int) {
                    Ok(None)
                } else {
                    Err(())
                },
                None => if cands.len() == 1 {
                    if sz[oc] > cands[0] {
                        Err(())
                    } else {
                        Ok(Some((oc, cands[0])))
                    }
                } else {
                    Ok(None)
                },
            }
        }
    }
}

/// The undecided edges among `ges`, each to be cut, in order.
pub open spec fn undecided_cuts(edges: Seq<EdgeState>, ges: Seq<EdgeId>) -> Seq<(EdgeId, EdgeState)>
    decreases ges.len(),
{
    if ges.len() == 0 {
        seq![]
    } else {
        undecided_cuts(edges, ges.drop_last()) + if edges[ges.last() as int] == EdgeState::Unknown {
            seq![(ges.last(), EdgeState::Cut)]
        } else {
            seq![]
        }
    }
}

/// The first `n` difference clues in order: the target areas, the cuts
/// collected (the growth edges of a component that reached its new target),
/// and whether a contradiction stopped the run.
pub open spec fn diff_run(s: &Solver, n: int) -> (Seq<Option<usize>>, Seq<(EdgeId, EdgeState)>, bool)
    decreases n,
{
    if n <= 0 {
        (s.curr_target_area@, seq![], false)
    } else {
        let prev = diff_run(s, n - 1);
        if prev.2 {
            prev
        } else {
            let (e, value) = s.diff_clues@[n - 1];
            match diff_decision(s, prev.0, e as int, value as int) {
                Err(()) => (prev.0, prev.1, true),
                Ok(None) => prev,
                Ok(Some((oc, t))) => (
                    prev.0.update(oc, Some(t as usize)),
                    if s.curr_comp_sz@[oc] == t {
                        prev.1 + undecided_cuts(s.edges@, s.growth_edges@[oc]@)
                    } else {
                        prev.1
                    },
                    false,
                ),
            }
        }
    }
}

impl Solver {
    /// Component `ci` can no longer grow.
    pub fn is_sealed(&self, ci: usize) -> (r: bool)
        ensures
            r == comp_sealed(self, ci as int),
    {
        ci < self.can_grow_buf.len() && !self.can_grow_buf[ci]
    }

    /// What the difference clue `value` on edge `e` decides (see `diff_decision`).
    fn diff_decide(&self, e: EdgeId, value: usize) -> (r: Result<Option<(usize, usize)>, ()>)
        requires
            self.wf(),
            area_tables_ok(self),
            e < self.grid.n_edges(),
            forall|i: int| 0 <= i < self.curr_comp_sz@.len() ==> value + #[trigger] self.curr_comp_sz@[i] <= usize::MAX,
        ensures
            (r is Err) == (diff_decision(self, self.curr_target_area@, e as int, value as int) is Err),
            (r == Ok::<Option<(usize, usize)>, ()>(None)) == (diff_decision(
                self,
                self.curr_target_area@,
                e as int,
                value as int,
            ) == Ok::<Option<(int, int)>, ()>(None)),
            r matches Ok(Some(p)) ==> diff_decision(self, self.curr_target_area@, e as int, value as int) == Ok::<
                Option<(int, int)>,
                (),
            >(Some((p.0 as int, p.1 as int))) && p.0 < self.curr_comp_sz@.len(),
    {
        if self.edges[e] != EdgeState::Cut {
            return Ok(None);
        }
        proof {
            crate::grid::lemma_edge_cells_range(self.grid, e as int);
        }
        let (c1, c2) = self.grid.edge_cells(e);
        if !self.grid.cell_exists[c1] || !self.grid.cell_exists[c2] {
            return Ok(None);
        }
        let ci1 = self.curr_comp_id[c1];
        let ci2 = self.curr_comp_id[c2];
        if ci1 == ci2 {
            return Ok(None);
        }
        let sealed1 = self.is_sealed(ci1);
        let sealed2 = self.is_sealed(ci2);
        if sealed1 && sealed2 {
            let a = self.curr_comp_sz[ci1];
            let b = self.curr_comp_sz[ci2];
            let diff = if a >= b {
                a - b
            } else {
                b - a
            };
            if diff != value {
                return Err(());
            }
            return Ok(None);
        }
        let (sealed_ci, other_ci) = if sealed1 {
            (ci1, ci2)
        } else if sealed2 {
            (ci2, ci1)
        } else {
            return Ok(None);
        };
        let sealed_sz = self.curr_comp_sz[sealed_ci];
        let min_area = self.curr_min_area[other_ci];
        let max_area = self.curr_max_area[other_ci];
        let ghost spec_cands = diff_candidates(sealed_sz as int, value as int, min_area as int, max_area as int);
        let mut candidates: Vec<usize> = Vec::new();
        let up = sealed_sz + value;
        if up >= min_area && up <= max_area {
            candidates.push(up);
        }
        if sealed_sz > value {
            let down = sealed_sz - value;
            if down >= min_area && down <= max_area {
                candidates.push(down);
            }
        }
        proof {
            assert(candidates@.len() == spec_cands.len());
            assert(forall|i: int| 0 <= i < candidates@.len() ==> candidates@[i] as int == #[trigger] spec_cands[i]);
        }
        if candidates.len() == 0 {
            return Err(());
        }
        if let Some(existing) = self.curr_target_area[other_ci] {
            let found = candidates[0] == existing || (candidates.len() == 2 && candidates[1] == existing);
            proof {
                if spec_cands.contains(existing as int) {
                    let i = choose|i: int| 0 <= i < spec_cands.len() && spec_cands[i] == existing as int;
                    assert(candidates@[i] == existing);
                }
                if found {
                    if candidates[0] == existing {
                        assert(spec_cands[0] == existing as int);
                    } else {
                        assert(spec_cands[1] == existing as int);
                    }
                }
            }
            if !found {
                return Err(());
            }
            return Ok(None);
        }
        if candidates.len() == 1 {
            let new_target = candidates[0];
            if self.curr_comp_sz[other_ci] > new_target {
                return Err(());
            }
            return Ok(Some((other_ci, new_target)));
        }
        Ok(None)
    }

    /// Adds a cut for each undecided growth edge of component `ci`.
    fn push_growth_cuts(&self, ci: usize, ef: &mut EdgeForcer)
        requires
            self.wf(),
            area_tables_ok(self),
            ci < self.curr_comp_sz@.len(),
        ensures
            final(ef).edges@ == old(ef).edges@ + undecided_cuts(self.edges@, self.growth_edges@[ci as int]@),
    {
        let ges = &self.growth_edges[ci];
        let mut j: usize = 0;
        proof {
            assert(ges@.take(0) =~= seq![]);
            assert(old(ef).edges@ + undecided_cuts(self.edges@, ges@.take(0)) =~= old(ef).edges@);
        }
        while j < ges.len()
            invariant
                self.wf(),
                area_tables_ok(self),
                ci < self.curr_comp_sz@.len(),
                ges == &self.growth_edges@[ci as int],
                j <= ges@.len(),
                ef.edges@ == old(ef).edges@ + undecided_cuts(self.edges@, ges@.take(j as int)),
            decreases ges@.len() - j,
        {
            let ge = ges[j];
            proof {
                assert(ges@[j as int] < self.grid.n_edges());
                assert(ges@.take(j + 1).drop_last() =~= ges@.take(j as int));
                assert(ges@.take(j + 1).last() == ge);
            }
            if self.edges[ge] == EdgeState::Unknown {
                ef.force_cut(ge);
                proof {
                    assert(ef.edges@ =~= old(ef).edges@ + undecided_cuts(self.edges@, ges@.take(j + 1)));
                }
            } else {
                proof {
                    assert(ef.edges@ =~= old(ef).edges@ + undecided_cuts(self.edges@, ges@.take(j + 1)));
                }
            }
            j = j + 1;
        }
        proof {
            assert(ges@.take(ges@.len() as int) =~= ges@);
        }
    }

    /// Difference clues, in order (see `diff_decision` and `diff_run`). A
    /// contradiction returns an error at once, keeping the target areas set
    /// so far and deciding no edge. Otherwise the collected cuts are made and
    /// the flag says whether one of them found its edge undecided.
    pub fn propagate_diff_clues(&mut self) -> (r: Result<bool, ()>)
        requires
            old(self).wf(),
            area_tables_ok(old(self)),
            diff_clues_fit(old(self)),
        ensures
            final(self).wf(),
            area_tables_ok(final(self)),
            final(self).same_fixed(old(self)),
            final(self).is_pre_cut == old(self).is_pre_cut,
            final(self).manual_diffs == old(self).manual_diffs,
            final(self).manual_sames == old(self).manual_sames,
            ({
                let run = diff_run(old(self), old(self).diff_clues@.len() as int);
                &&& final(self).curr_target_area@ == run.0
                &&& run.2 ==> {
                    &&& r is Err
                    &&& final(self).edges@ == old(self).edges@
                    &&& final(self).changed@ == old(self).changed@
                }
                &&& !run.2 ==> {
                    &&& (final(self).edges@, final(self).changed@) == set_all(
                        old(self).edges@,
                        old(self).changed@,
                        run.1,
                    )
                    &&& r == Ok::<bool, ()>(any_undecided(old(self).edges@, old(self).changed@, run.1))
                }
            }),
    {
        let ghost base = *self;
        let mut diff_ef = EdgeForcer::new();
        let mut k: usize = 0;
        while k < self.diff_clues.len()
            invariant
                base == *old(self),
                self.wf(),
                area_tables_ok(self),
                diff_clues_fit(self),
                self.same_fixed(&base),
                self.is_pre_cut == base.is_pre_cut,
                self.manual_diffs == base.manual_diffs,
                self.manual_sames == base.manual_sames,
                self.edges == base.edges,
                self.changed == base.changed,
                k <= base.diff_clues@.len(),
                !diff_run(&base, k as int).2,
                self.curr_target_area@ == diff_run(&base, k as int).0,
                diff_ef.edges@ == diff_run(&base, k as int).1,
                ops_in_range(diff_ef.edges@, base.edges@.len() as int),
            decreases base.diff_clues@.len() - k,
        {
            let (e, value) = self.diff_clues[k];
            proof {
                assert(self.diff_clues@[k as int].0 < self.grid.n_edges());
                assert forall|i: int| 0 <= i < self.curr_comp_sz@.len() implies value + #[trigger] self.curr_comp_sz@[i]
                    <= usize::MAX by {
                    assert(self.diff_clues@[k as int].1 + self.curr_comp_sz@[i] <= usize::MAX);
                }
            }
            let ghost before_ops = diff_ef.edges@;
            match self.diff_decide(e, value) {
                Err(()) => {
                    proof {
                        assert(diff_run(&base, k + 1).2);
                        lemma_diff_run_stopped(&base, k + 1, base.diff_clues@.len() as int);
                    }
                    return Err(());
                },
                Ok(None) => {},
                Ok(Some((oc, new_target))) => {
                    self.curr_target_area.set(oc, Some(new_target));
                    if self.curr_comp_sz[oc] == new_target {
                        self.push_growth_cuts(oc, &mut diff_ef);
                        proof {
                            let added = undecided_cuts(self.edges@, self.growth_edges@[oc as int]@);
                            assert forall|q: int| 0 <= q < diff_ef.edges@.len() implies (#[trigger] diff_ef.edges@[q]).0
                                < base.edges@.len() by {
                                if q >= before_ops.len() {
                                    lemma_undecided_cuts_in(self.edges@, self.growth_edges@[oc as int]@, q - before_ops.len());
                                    assert(diff_ef.edges@[q] == added[q - before_ops.len()]);
                                    let j = choose|j: int| 0 <= j < self.growth_edges@[oc as int]@.len() && self.growth_edges@[oc as int]@[j] == added[q - before_ops.len()].0;
                                    assert(self.growth_edges@[oc as int]@[j] < self.grid.n_edges());
                                } else {
                                    assert(diff_ef.edges@[q] == before_ops[q]);
                                }
                            }
                        }
                    }
                },
            }
            k = k + 1;
        }
        proof {
            assert(base.diff_clues@.len() == k);
        }
        diff_ef.apply(self)
    }
}

/// Once a contradiction has stopped the run, later clues change nothing.
proof fn lemma_diff_run_stopped(s: &Solver, k: int, n: int)
    requires
        0 <= k <= n,
        diff_run(s, k).2,
    ensures
        diff_run(s, n) == diff_run(s, k),
    decreases n - k,
{
    if k < n {
        lemma_diff_run_stopped(s, k, n - 1);
    }
}

/// Each cut collected from a list of growth edges names one of them.
proof fn lemma_undecided_cuts_in(edges: Seq<EdgeState>, ges: Seq<EdgeId>, q: int)
    requires
        0 <= q < undecided_cuts(edges, ges).len(),
    ensures
        exists|j: int| 0 <= j < ges.len() && ges[j] == undecided_cuts(edges, ges)[q].0,
    decreases ges.len(),
{
    let pre = undecided_cuts(edges, ges.drop_last());
    if q < pre.len() {
        lemma_undecided_cuts_in(edges, ges.drop_last(), q);
        let j = choose|j: int| 0 <= j < ges.drop_last().len() && ges.drop_last()[j] == pre[q].0;
        assert(ges[j] == ges.drop_last()[j]);
    } else {
        assert(undecided_cuts(edges, ges)[q].0 == ges.last());
        assert(ges[ges.len() - 1] == ges.last());
    }
}

} // verus!
