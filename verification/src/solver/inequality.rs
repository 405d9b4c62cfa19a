//! Inequality clues: the piece on one side of a clue edge is smaller than
//! the piece on the other. With the components' sizes, target areas and the
//! most cells they can still reach, some clues can already be seen to fail.
use vstd::prelude::*;
use super::Solver;
use super::diff_clues::{area_tables_ok, comp_sealed};
use super::reach::{comp_cells_ok, growth_bound};
use super::validation::both_exist;
use crate::types::{EdgeClue, EdgeClueKind, EdgeId, EdgeState};

verus! {

/// The inequality clues in order: the edge, and whether the cell with the
/// smaller index lies in the smaller piece.
pub open spec fn ineq_clues_of(clues: Seq<EdgeClue>) -> Seq<(EdgeId, bool)>
    decreases clues.len(),
{
    if clues.len() == 0 {
        seq![]
    } else {
        let rest = ineq_clues_of(clues.drop_last());
        match clues.last().kind {
            EdgeClueKind::Inequality { smaller_first } => rest.push((clues.last().edge, smaller_first)),
            _ => rest,
        }
    }
}

/// The inequality clue on edge `e` cannot hold. Only a cut clue edge between
/// existing cells of two different components counts; `small` is the
/// component that must be smaller and `large` the other.
/// Both sealed: `small` is not smaller. `large` sealed and no larger than
/// `small`. Only `small` sealed: `small` is at least as large as the most
/// cells `large` can end with (see `growth_bound`). Only `large` sealed:
/// `small` has a target area at least the size of `large`. Neither sealed:
/// the size or target of `small` reaches the bound of `large`, or `large`
/// has a target no larger than the size of `small`.
pub open spec fn ineq_violated(s: &Solver, e: int, smaller_first: bool) -> bool {
    let g = s.grid;
    let ci1 = s.curr_comp_id@[g.edge_cells_of(e).0] as int;
    let ci2 = s.curr_comp_id@[g.edge_cells_of(e).1] as int;
    let sz = s.curr_comp_sz@;
    let small = if smaller_first {
        ci1
    } else {
        ci2
    };
    let large = if smaller_first {
        ci2
    } else {
        ci1
    };
    let sd = comp_sealed(s, small);
    let ld = comp_sealed(s, large);
    if s.edges@[e] != EdgeState::Cut || !both_exist(g, e) || ci1 == ci2 {
        false
    } else if sd && ld {
        sz[small] >= sz[large]
    } else if ld && sz[large] <= sz[small] {
        true
    } else if sd {
        sz[small] >= growth_bound(s, large)
    } else if ld {
        match s.curr_target_area@[small] {
            Some(t) => t >= sz[large],
            None => false,
        }
    } else {
        let m = growth_bound(s, large);
        ||| sz[small] >= m
        ||| (s.curr_target_area@[small] matches Some(t) && t >= m)
        ||| (s.curr_target_area@[large] matches Some(t) && t <= sz[small])
    }
}

impl Solver {
    /// The inequality clues of the puzzle, in order.
    fn inequality_clues(&self) -> (v: Vec<(EdgeId, bool)>)
        requires
            self.wf(),
        ensures
            v@ == ineq_clues_of(self.puzzle.edge_clues@),
            forall|k: int| 0 <= k < v@.len() ==> (#[trigger] v@[k]).0 < self.grid.n_edges(),
    {
        let clues = &self.puzzle.edge_clues;
        let mut v: Vec<(EdgeId, bool)> = Vec::new();
        let mut k: usize = 0;
        while k < clues.len()
            invariant
                self.wf(),
                clues == &self.puzzle.edge_clues,
                k <= clues@.len(),
                v@ == ineq_clues_of(clues@.take(k as int)),
                forall|j: int| 0 <= j < v@.len() ==> (#[trigger] v@[j]).0 < self.grid.n_edges(),
            decreases clues@.len() - k,
        {
            let cl = clues[k];
            proof {
                assert(clues@.take(k + 1).drop_last() =~= clues@.take(k as int));
                assert(clues@.take(k + 1).last() == cl);
                assert(clues@[k as int].edge < self.grid.n_edges());
            }
            if let EdgeClueKind::Inequality { smaller_first } = cl.kind {
                v.push((cl.edge, smaller_first));
            }
            k = k + 1;
        }
        proof {
            assert(clues@.take(clues@.len() as int) =~= clues@);
        }
        v
    }

    /// Whether the inequality clue on edge `e` cannot hold (see `ineq_violated`).
    fn inequality_fails(&mut self, e: EdgeId, smaller_first: bool) -> (bad: bool)
        requires
            old(self).wf(),
            area_tables_ok(old(self)),
            forall|ci: int| 0 <= ci < old(self).curr_comp_sz@.len() ==> #[trigger] comp_cells_ok(old(self), ci),
            e < old(self).grid.n_edges(),
        ensures
            *final(self) == *old(self),
            bad == ineq_violated(old(self), e as int, smaller_first),
    {
        if self.edges[e] != EdgeState::Cut {
            return false;
        }
        let (c1, c2) = self.grid.edge_cells(e);
        if !self.grid.cell_exists[c1] || !self.grid.cell_exists[c2] {
            return false;
        }
        let ci1 = self.curr_comp_id[c1];
        let ci2 = self.curr_comp_id[c2];
        if ci1 == ci2 {
            return false;
        }
        let (smaller_ci, larger_ci) = if smaller_first {
            (ci1, ci2)
        } else {
            (ci2, ci1)
        };
        let smaller_done = self.is_sealed(smaller_ci);
        let larger_done = self.is_sealed(larger_ci);
        if smaller_done && larger_done {
            if self.curr_comp_sz[smaller_ci] >= self.curr_comp_sz[larger_ci] {
                return true;
            }
        } else if larger_done && self.curr_comp_sz[larger_ci] <= self.curr_comp_sz[smaller_ci] {
            return true;
        } else if smaller_done {
            if self.curr_comp_sz[smaller_ci] >= self.growth_potential(larger_ci) {
                return true;
            }
        } else if larger_done {
            if let Some(t) = self.curr_target_area[smaller_ci] {
                if t >= self.curr_comp_sz[larger_ci] {
                    return true;
                }
            }
        } else {
            let max_larger = self.growth_potential(larger_ci);
            if self.curr_comp_sz[smaller_ci] >= max_larger {
                return true;
            }
            if let Some(t) = self.curr_target_area[smaller_ci] {
                if t >= max_larger {
                    return true;
                }
            }
            if let Some(t) = self.curr_target_area[larger_ci] {
                if t <= self.curr_comp_sz[smaller_ci] {
                    return true;
                }
            }
        }
        false
    }

    /// Inequality clues: an error when some clue cannot hold (see
    /// `ineq_violated`); nothing is decided and nothing changes.
    pub fn propagate_inequality_clues(&mut self) -> (r: Result<bool, ()>)
        requires
            old(self).wf(),
            area_tables_ok(old(self)),
            forall|ci: int| 0 <= ci < old(self).curr_comp_sz@.len() ==> #[trigger] comp_cells_ok(old(self), ci),
        ensures
            *final(self) == *old(self),
            r == if exists|k: int|
                0 <= k < ineq_clues_of(old(self).puzzle.edge_clues@).len() && #[trigger] ineq_violated(
                    old(self),
                    ineq_clues_of(old(self).puzzle.edge_clues@)[k].0 as int,
                    ineq_clues_of(old(self).puzzle.edge_clues@)[k].1,
                ) {
                Err::<bool, ()>(())
            } else {
                Ok::<bool, ()>(false)
            },
    {
        let ineq = self.inequality_clues();
        let mut k: usize = 0;
        while k < ineq.len()
            invariant
                *self == *old(self),
                self.wf(),
                area_tables_ok(self),
                forall|ci: int| 0 <= ci < self.curr_comp_sz@.len() ==> #[trigger] comp_cells_ok(self, ci),
                ineq@ == ineq_clues_of(self.puzzle.edge_clues@),
                forall|j: int| 0 <= j < ineq@.len() ==> (#[trigger] ineq@[j]).0 < self.grid.n_edges(),
                k <= ineq@.len(),
                forall|j: int| 0 <= j < k ==> !#[trigger] ineq_violated(self, ineq@[j].0 as int, ineq@[j].1),
            decreases ineq@.len() - k,
        {
            let (e, smaller_first) = ineq[k];
            proof {
                assert(ineq@[k as int].0 < self.grid.n_edges());
            }
            if self.inequality_fails(e, smaller_first) {
                proof {
                    assert(ineq_violated(old(self), ineq@[k as int].0 as int, ineq@[k as int].1));
                }
                return Err(());
            }
            k = k + 1;
        }
        Ok(false)
    }
}

} // verus!
