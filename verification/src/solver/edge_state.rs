//! Deciding edges, with an undo log.
use vstd::prelude::*;
use super::{Snapshot, Solver};
use crate::types::{EdgeId, EdgeState};

verus! {

/// One decision: an undecided edge gets the state `s`; anything else is left alone.
pub open spec fn set_step(
    edges: Seq<EdgeState>,
    log: Seq<(EdgeId, EdgeState)>,
    e: EdgeId,
    s: EdgeState,
) -> (Seq<EdgeState>, Seq<(EdgeId, EdgeState)>) {
    if edges[e as int] == EdgeState::Unknown && s != EdgeState::Unknown {
        (edges.update(e as int, s), log.push((e, EdgeState::Unknown)))
    } else {
        (edges, log)
    }
}

/// The decisions `ops`, made in order.
pub open spec fn set_all(
    edges: Seq<EdgeState>,
    log: Seq<(EdgeId, EdgeState)>,
    ops: Seq<(EdgeId, EdgeState)>,
) -> (Seq<EdgeState>, Seq<(EdgeId, EdgeState)>)
    decreases ops.len(),
{
    if ops.len() == 0 {
        (edges, log)
    } else {
        let (e1, l1) = set_all(edges, log, ops.drop_last());
        set_step(e1, l1, ops.last().0, ops.last().1)
    }
}

/// Some decision of `ops` finds its edge undecided when its turn comes.
pub open spec fn any_undecided(
    edges: Seq<EdgeState>,
    log: Seq<(EdgeId, EdgeState)>,
    ops: Seq<(EdgeId, EdgeState)>,
) -> bool
    decreases ops.len(),
{
    if ops.len() == 0 {
        false
    } else {
        any_undecided(edges, log, ops.drop_last()) || set_all(edges, log, ops.drop_last()).0[ops.last().0 as int]
            == EdgeState::Unknown
    }
}

/// The edge states after popping the log down to `k` entries, each popped
/// entry putting its edge back to the state it records.
pub open spec fn undo_to(edges: Seq<EdgeState>, log: Seq<(EdgeId, EdgeState)>, k: int) -> Seq<EdgeState>
    decreases log.len(),
{
    if log.len() == 0 || log.len() <= k {
        edges
    } else {
        undo_to(edges.update(log.last().0 as int, log.last().1), log.drop_last(), k)
    }
}

/// How many of the entries popped down to `k` entries put back an
/// undecided state on an edge that was decided (each adds one to the count
/// of undecided edges).
pub open spec fn undo_count(edges: Seq<EdgeState>, log: Seq<(EdgeId, EdgeState)>, k: int) -> nat
    decreases log.len(),
{
    if log.len() == 0 || log.len() <= k {
        0
    } else {
        (if edges[log.last().0 as int] != EdgeState::Unknown && log.last().1 == EdgeState::Unknown {
            1nat
        } else {
            0nat
        }) + undo_count(edges.update(log.last().0 as int, log.last().1), log.drop_last(), k)
    }
}

/// Every decision names an edge among `n`.
pub open spec fn ops_in_range(ops: Seq<(EdgeId, EdgeState)>, n: int) -> bool {
    forall|k: int| 0 <= k < ops.len() ==> (#[trigger] ops[k]).0 < n
}

/// Making decisions keeps the edge count and only adds to the log.
pub proof fn lemma_set_all(edges: Seq<EdgeState>, log: Seq<(EdgeId, EdgeState)>, ops: Seq<(EdgeId, EdgeState)>)
    requires
        ops_in_range(ops, edges.len() as int),
    ensures
        set_all(edges, log, ops).0.len() == edges.len(),
        set_all(edges, log, ops).1.len() >= log.len(),
        set_all(edges, log, ops).1.subrange(0, log.len() as int) == log,
        forall|k: int|
            log.len() <= k < set_all(edges, log, ops).1.len() ==> (#[trigger] set_all(edges, log, ops).1[k]).0
                < edges.len(),
        forall|e: int|
            0 <= e < edges.len() && edges[e] != EdgeState::Unknown ==> #[trigger] set_all(edges, log, ops).0[e]
                == edges[e],
    decreases ops.len(),
{
    if ops.len() > 0 {
        let pre = ops.drop_last();
        assert forall|k: int| 0 <= k < pre.len() implies (#[trigger] pre[k]).0 < edges.len() by {
            assert(pre[k] == ops[k]);
        }
        lemma_set_all(edges, log, pre);
        let (e1, l1) = set_all(edges, log, pre);
        assert(ops[ops.len() - 1] == ops.last());
        if e1[ops.last().0 as int] == EdgeState::Unknown && ops.last().1 != EdgeState::Unknown {
            assert(l1.push((ops.last().0, EdgeState::Unknown)).subrange(0, log.len() as int) =~= l1.subrange(
                0,
                log.len() as int,
            ));
        }
    }
}

/// Restoring undoes decisions: after any decisions made from a state, popping
/// the log back to its length in that state gives back its edge states.
pub proof fn law_restore_undoes_decisions(
    edges: Seq<EdgeState>,
    log: Seq<(EdgeId, EdgeState)>,
    ops: Seq<(EdgeId, EdgeState)>,
)
    requires
        ops_in_range(ops, edges.len() as int),
    ensures
        undo_to(set_all(edges, log, ops).0, set_all(edges, log, ops).1, log.len() as int) == edges,
    decreases ops.len(),
{
    if ops.len() > 0 {
        let pre = ops.drop_last();
        assert forall|k: int| 0 <= k < pre.len() implies (#[trigger] pre[k]).0 < edges.len() by {
            assert(pre[k] == ops[k]);
        }
        law_restore_undoes_decisions(edges, log, pre);
        lemma_set_all(edges, log, pre);
        let (e1, l1) = set_all(edges, log, pre);
        let (e, s) = ops.last();
        assert(ops[ops.len() - 1] == ops.last());
        if e1[e as int] == EdgeState::Unknown && s != EdgeState::Unknown {
            let e2 = e1.update(e as int, s);
            let l2 = l1.push((e, EdgeState::Unknown));
            assert(l2.drop_last() =~= l1);
            assert(e2.update(e as int, EdgeState::Unknown) =~= e1);
        }
    }
}

/// The number of undecided edges.
pub open spec fn unknown_count(edges: Seq<EdgeState>) -> nat
    decreases edges.len(),
{
    if edges.len() == 0 {
        0
    } else {
        unknown_count(edges.drop_last()) + if edges.last() == EdgeState::Unknown {
            1nat
        } else {
            0nat
        }
    }
}

proof fn lemma_unknown_count_update(edges: Seq<EdgeState>, i: int, s: EdgeState)
    requires
        0 <= i < edges.len(),
    ensures
        unknown_count(edges.update(i, s)) + (if edges[i] == EdgeState::Unknown { 1int } else { 0int })
            == unknown_count(edges) + (if s == EdgeState::Unknown { 1int } else { 0int }),
    decreases edges.len(),
{
    let u = edges.update(i, s);
    if i < edges.len() - 1 {
        lemma_unknown_count_update(edges.drop_last(), i, s);
        assert(u.drop_last() =~= edges.drop_last().update(i, s));
    } else {
        assert(u.drop_last() =~= edges.drop_last());
    }
}

/// Restoring gives back the count of undecided edges: after any decisions
/// made from a state, the entries that popping the log back to its length
/// there counts are exactly the edges that the decisions decided.
pub proof fn law_restore_counts_decided(
    edges: Seq<EdgeState>,
    log: Seq<(EdgeId, EdgeState)>,
    ops: Seq<(EdgeId, EdgeState)>,
)
    requires
        ops_in_range(ops, edges.len() as int),
    ensures
        undo_count(set_all(edges, log, ops).0, set_all(edges, log, ops).1, log.len() as int) + unknown_count(
            set_all(edges, log, ops).0,
        ) == unknown_count(edges),
    decreases ops.len(),
{
    if ops.len() > 0 {
        let pre = ops.drop_last();
        assert forall|k: int| 0 <= k < pre.len() implies (#[trigger] pre[k]).0 < edges.len() by {
            assert(pre[k] == ops[k]);
        }
        law_restore_counts_decided(edges, log, pre);
        lemma_set_all(edges, log, pre);
        let (e1, l1) = set_all(edges, log, pre);
        let (e, s) = ops.last();
        assert(ops[ops.len() - 1] == ops.last());
        if e1[e as int] == EdgeState::Unknown && s != EdgeState::Unknown {
            let e2 = e1.update(e as int, s);
            let l2 = l1.push((e, EdgeState::Unknown));
            assert(l2.drop_last() =~= l1);
            assert(l2.last() == (e, EdgeState::Unknown));
            assert(e2.update(e as int, EdgeState::Unknown) =~= e1);
            lemma_unknown_count_update(e1, e as int, s);
        }
    }
}

impl Solver {
    /// The fields that deciding edges leaves alone.
    pub open spec fn same_tables(&self, o: &Solver) -> bool {
        &&& self.same_fixed(o)
        &&& self.curr_target_area == o.curr_target_area
    }

    /// The fields that deciding edges leaves alone, but for the target areas.
    pub open spec fn same_fixed(&self, o: &Solver) -> bool {
        &&& self.curr_comp_sz == o.curr_comp_sz
        &&& self.curr_min_area == o.curr_min_area
        &&& self.curr_max_area == o.curr_max_area
        &&& self.growth_edges == o.growth_edges
        &&& self.puzzle == o.puzzle
        &&& self.grid == o.grid
        &&& self.eff_min_area == o.eff_min_area
        &&& self.eff_max_area == o.eff_max_area
        &&& self.total_cells == o.total_cells
        &&& self.curr_comp_id == o.curr_comp_id
        &&& self.can_grow_buf == o.can_grow_buf
        &&& self.cell_clues_indexed == o.cell_clues_indexed
        &&& self.has_any_clue == o.has_any_clue
        &&& self.diff_clues == o.diff_clues
        &&& self.clue_cut_edges == o.clue_cut_edges
        &&& self.watchtower_vertices == o.watchtower_vertices
        &&& self.rose_bits_all == o.rose_bits_all
        &&& self.cell_rose_sym == o.cell_rose_sym
        &&& self.rose_exact_piece_count == o.rose_exact_piece_count
        &&& self.in_probing == o.in_probing
        &&& self.has_palisade_clue == o.has_palisade_clue
        &&& self.has_compass_clue == o.has_compass_clue
    }

    /// Deciding edges only: the tables, the drawing's cuts and the manual
    /// constraints stay, and the edges and log change as `set_all` says.
    pub open spec fn decided_from(&self, o: &Solver) -> bool {
        &&& self.same_tables(o)
        &&& self.is_pre_cut == o.is_pre_cut
        &&& self.manual_diffs == o.manual_diffs
        &&& self.manual_sames == o.manual_sames
        &&& exists|ops: Seq<(EdgeId, EdgeState)>|
            ops_in_range(ops, o.edges@.len() as int) && (#[trigger] set_all(o.edges@, o.changed@, ops))
                == (self.edges@, self.changed@)
    }

    /// The drawing cuts edge `e`: it is marked, and cut if it was undecided.
    pub fn mark_pre_cut(&mut self, e: EdgeId)
        requires
            old(self).wf(),
            e < old(self).edges@.len(),
        ensures
            final(self).wf(),
            final(self).same_tables(old(self)),
            final(self).is_pre_cut@ == old(self).is_pre_cut@.update(e as int, true),
            (final(self).edges@, final(self).changed@) == set_step(
                old(self).edges@,
                old(self).changed@,
                e,
                EdgeState::Cut,
            ),
            final(self).curr_unknown == old(self).curr_unknown,
            final(self).manual_diffs == old(self).manual_diffs,
            final(self).manual_sames == old(self).manual_sames,
    {
        self.is_pre_cut.set(e, true);
        if self.edges[e] == EdgeState::Unknown {
            self.edges.set(e, EdgeState::Cut);
            self.changed.push((e, EdgeState::Unknown));
        }
    }

    /// The current lengths of the log and of the manual constraint lists.
    pub fn snapshot(&self) -> (s: Snapshot)
        ensures
            s.edges == self.changed@.len(),
            s.manual_diffs == self.manual_diffs@.len(),
            s.manual_sames == self.manual_sames@.len(),
    {
        Snapshot {
            edges: self.changed.len(),
            manual_diffs: self.manual_diffs.len(),
            manual_sames: self.manual_sames.len(),
        }
    }

    /// Decides edge `e` as `s`. True when the edge already had that state or
    /// was undecided; false, with nothing changed, when it had the other state.
    pub fn set_edge(&mut self, e: EdgeId, s: EdgeState) -> (r: bool)
        requires
            old(self).wf(),
            e < old(self).edges@.len(),
        ensures
            final(self).wf(),
            final(self).same_tables(old(self)),
            final(self).is_pre_cut == old(self).is_pre_cut,
            final(self).manual_diffs == old(self).manual_diffs,
            final(self).manual_sames == old(self).manual_sames,
            r == (old(self).edges@[e as int] == s || old(self).edges@[e as int] == EdgeState::Unknown),
            (final(self).edges@, final(self).changed@) == set_step(old(self).edges@, old(self).changed@, e, s),
            final(self).curr_unknown == (if old(self).edges@[e as int] == EdgeState::Unknown && s
                != EdgeState::Unknown {
                (if old(self).curr_unknown == 0 {
                    usize::MAX as int
                } else {
                    old(self).curr_unknown - 1
                }) as usize
            } else {
                old(self).curr_unknown
            }),
    {
        if self.edges[e] == s {
            return true;
        }
        if self.edges[e] != EdgeState::Unknown {
            return false;
        }
        self.edges.set(e, s);
        self.curr_unknown = self.curr_unknown.wrapping_sub(1);
        self.changed.push((e, EdgeState::Unknown));
        true
    }

    /// Decides the listed edges in order, each one only if it is still
    /// undecided. Never fails; the flag says whether some listed edge was
    /// undecided when its turn came.
    pub fn apply_forced_edges(&mut self, forced: &[(EdgeId, EdgeState)]) -> (r: Result<bool, ()>)
        requires
            old(self).wf(),
            ops_in_range(forced@, old(self).edges@.len() as int),
        ensures
            final(self).wf(),
            final(self).same_tables(old(self)),
            final(self).is_pre_cut == old(self).is_pre_cut,
            final(self).manual_diffs == old(self).manual_diffs,
            final(self).manual_sames == old(self).manual_sames,
            (final(self).edges@, final(self).changed@) == set_all(old(self).edges@, old(self).changed@, forced@),
            r == Ok::<bool, ()>(any_undecided(old(self).edges@, old(self).changed@, forced@)),
    {
        let mut progress = false;
        let mut i: usize = 0;
        while i < forced.len()
            invariant
                i <= forced@.len(),
                self.wf(),
                self.same_tables(old(self)),
                self.is_pre_cut == old(self).is_pre_cut,
                self.manual_diffs == old(self).manual_diffs,
                self.manual_sames == old(self).manual_sames,
                ops_in_range(forced@, old(self).edges@.len() as int),
                self.edges@.len() == old(self).edges@.len(),
                (self.edges@, self.changed@) == set_all(
                    old(self).edges@,
                    old(self).changed@,
                    forced@.take(i as int),
                ),
                progress == any_undecided(old(self).edges@, old(self).changed@, forced@.take(i as int)),
            decreases forced@.len() - i,
        {
            let (e, state) = forced[i];
            proof {
                assert(forced@.take(i + 1).drop_last() =~= forced@.take(i as int));
                assert(forced@[i as int].0 < old(self).edges@.len());
            }
            if self.edges[e] == EdgeState::Unknown {
                self.set_edge(e, state);
                progress = true;
            }
            i = i + 1;
        }
        proof {
            assert(forced@.take(forced@.len() as int) =~= forced@);
        }
        Ok(progress)
    }

    /// Pops the log back to the snapshot, putting every popped edge back to
    /// the state it records, and cuts the manual constraint lists back too.
    pub fn restore(&mut self, snap: Snapshot)
        requires
            old(self).wf(),
        ensures
            final(self).wf(),
            final(self).same_tables(old(self)),
            final(self).is_pre_cut == old(self).is_pre_cut,
            final(self).edges@ == undo_to(old(self).edges@, old(self).changed@, snap.edges as int),
            final(self).curr_unknown as int == (old(self).curr_unknown + undo_count(
                old(self).edges@,
                old(self).changed@,
                snap.edges as int,
            )) % (usize::MAX as int + 1),
            snap.edges <= old(self).changed@.len() ==> final(self).changed@ == old(self).changed@.subrange(
                0,
                snap.edges as int,
            ),
            snap.edges > old(self).changed@.len() ==> final(self).changed@ == old(self).changed@,
            snap.manual_diffs <= old(self).manual_diffs@.len() ==> final(self).manual_diffs@
                == old(self).manual_diffs@.subrange(0, snap.manual_diffs as int),
            snap.manual_diffs > old(self).manual_diffs@.len() ==> final(self).manual_diffs@
                == old(self).manual_diffs@,
            snap.manual_sames <= old(self).manual_sames@.len() ==> final(self).manual_sames@
                == old(self).manual_sames@.subrange(0, snap.manual_sames as int),
            snap.manual_sames > old(self).manual_sames@.len() ==> final(self).manual_sames@
                == old(self).manual_sames@,
    {
        while self.changed.len() > snap.edges
            invariant
                self.wf(),
                self.same_tables(old(self)),
                self.is_pre_cut == old(self).is_pre_cut,
                self.manual_diffs == old(self).manual_diffs,
                self.manual_sames == old(self).manual_sames,
                self.changed@.len() <= old(self).changed@.len(),
                self.changed@.len() >= snap.edges || self.changed@.len() == old(self).changed@.len(),
                self.changed@ == old(self).changed@.subrange(0, self.changed@.len() as int),
                undo_to(self.edges@, self.changed@, snap.edges as int) == undo_to(
                    old(self).edges@,
                    old(self).changed@,
                    snap.edges as int,
                ),
                (self.curr_unknown + undo_count(self.edges@, self.changed@, snap.edges as int)) % (usize::MAX as int + 1)
                    == (old(self).curr_unknown + undo_count(old(self).edges@, old(self).changed@, snap.edges as int)) % (
                usize::MAX as int + 1),
            decreases self.changed@.len(),
        {
            let ghost cu0 = self.curr_unknown;
            let ghost before_edges = self.edges@;
            let ghost before_log = self.changed@;
            let (e, old_state) = self.changed.pop().unwrap();
            proof {
                assert(before_log.last() == (e, old_state));
                assert(before_log.drop_last() =~= self.changed@);
                assert(before_log[before_log.len() - 1].0 < self.grid.n_edges());
            }
            if self.edges[e] != EdgeState::Unknown && old_state == EdgeState::Unknown {
                self.curr_unknown = self.curr_unknown.wrapping_add(1);
            }
            self.edges.set(e, old_state);
            proof {
                assert(self.changed@ =~= old(self).changed@.subrange(0, self.changed@.len() as int));
                let m = usize::MAX as int + 1;
                let rest = undo_count(self.edges@, self.changed@, snap.edges as int);
                if before_edges[e as int] != EdgeState::Unknown && old_state == EdgeState::Unknown {
                    if cu0 == usize::MAX {
                        vstd::arithmetic::div_mod::lemma_mod_add_multiples_vanish(rest as int, m);
                        assert(cu0 + 1 + rest == m + rest);
                    }
                }
            }
        }
        proof {
            if snap.edges > old(self).changed@.len() {
                assert(self.changed@ =~= old(self).changed@);
            }
            assert(undo_to(self.edges@, self.changed@, snap.edges as int) == self.edges@);
            assert(undo_count(self.edges@, self.changed@, snap.edges as int) == 0);
            vstd::arithmetic::div_mod::lemma_small_mod(self.curr_unknown as nat, (usize::MAX as int + 1) as nat);
        }
        self.manual_diffs.truncate(snap.manual_diffs);
        self.manual_sames.truncate(snap.manual_sames);
    }
}

/// Edge decisions collected by a propagator and made together.
pub struct EdgeForcer {
    pub edges: Vec<(EdgeId, EdgeState)>,
}

impl EdgeForcer {
    pub fn new() -> (f: Self)
        ensures
            f.edges@.len() == 0,
    {
        EdgeForcer { edges: Vec::new() }
    }

    pub fn force_cut(&mut self, e: EdgeId)
        ensures
            final(self).edges@ == old(self).edges@.push((e, EdgeState::Cut)),
    {
        self.edges.push((e, EdgeState::Cut));
    }

    pub fn force_uncut(&mut self, e: EdgeId)
        ensures
            final(self).edges@ == old(self).edges@.push((e, EdgeState::Uncut)),
    {
        self.edges.push((e, EdgeState::Uncut));
    }

    pub fn force(&mut self, e: EdgeId, s: EdgeState)
        ensures
            final(self).edges@ == old(self).edges@.push((e, s)),
    {
        self.edges.push((e, s));
    }

    pub fn is_empty(&self) -> (r: bool)
        ensures
            r == (self.edges@.len() == 0),
    {
        self.edges.len() == 0
    }

    pub fn has_cuts(&self) -> (r: bool)
        ensures
            r == exists|k: int| 0 <= k < self.edges@.len() && (#[trigger] self.edges@[k]).1 == EdgeState::Cut,
    {
        let mut k: usize = 0;
        while k < self.edges.len()
            invariant
                k <= self.edges@.len(),
                forall|j: int| 0 <= j < k ==> (#[trigger] self.edges@[j]).1 != EdgeState::Cut,
            decreases self.edges@.len() - k,
        {
            if self.edges[k].1 == EdgeState::Cut {
                return true;
            }
            k = k + 1;
        }
        false
    }

    /// Makes the collected decisions on the solver and empties the list.
    pub fn apply(&mut self, solver: &mut Solver) -> (r: Result<bool, ()>)
        requires
            old(solver).wf(),
            ops_in_range(old(self).edges@, old(solver).edges@.len() as int),
        ensures
            final(self).edges@.len() == 0,
            final(solver).wf(),
            final(solver).same_tables(old(solver)),
            final(solver).is_pre_cut == old(solver).is_pre_cut,
            final(solver).manual_diffs == old(solver).manual_diffs,
            final(solver).manual_sames == old(solver).manual_sames,
            (final(solver).edges@, final(solver).changed@) == set_all(
                old(solver).edges@,
                old(solver).changed@,
                old(self).edges@,
            ),
            r == Ok::<bool, ()>(any_undecided(old(solver).edges@, old(solver).changed@, old(self).edges@)),
    {
        let progress = solver.apply_forced_edges(self.edges.as_slice());
        self.edges.clear();
        progress
    }
}


/// What a batch of decisions does to each edge: a decided edge keeps its
/// state, an edge that changes takes the state of some decision on it, and
/// every edge named by a decision other than `Unknown` ends up decided.
pub proof fn lemma_set_all_effects(
    edges: Seq<EdgeState>,
    log: Seq<(EdgeId, EdgeState)>,
    ops: Seq<(EdgeId, EdgeState)>,
)
    requires
        ops_in_range(ops, edges.len() as int),
    ensures
        forall|e: int|
            0 <= e < edges.len() && #[trigger] set_all(edges, log, ops).0[e] != edges[e] ==> edges[e]
                == EdgeState::Unknown && exists|k: int|
                0 <= k < ops.len() && ops[k].0 == e && ops[k].1 == set_all(edges, log, ops).0[e],
        forall|k: int|
            0 <= k < ops.len() && (#[trigger] ops[k]).1 != EdgeState::Unknown ==> set_all(edges, log, ops).0[ops[k].0 as int]
                != EdgeState::Unknown,
        set_all(edges, log, ops).0.len() == edges.len(),
    decreases ops.len(),
{
    lemma_set_all(edges, log, ops);
    if ops.len() > 0 {
        let pre = ops.drop_last();
        assert forall|k: int| 0 <= k < pre.len() implies (#[trigger] pre[k]).0 < edges.len() by {
            assert(pre[k] == ops[k]);
        }
        lemma_set_all_effects(edges, log, pre);
        lemma_set_all(edges, log, pre);
        let (e1, l1) = set_all(edges, log, pre);
        let (e, st) = ops.last();
        assert(ops[ops.len() - 1] == ops.last());
        let fe = set_all(edges, log, ops).0;
        assert forall|x: int| 0 <= x < edges.len() && #[trigger] fe[x] != edges[x] implies edges[x]
            == EdgeState::Unknown && exists|k: int| 0 <= k < ops.len() && ops[k].0 == x && ops[k].1 == fe[x] by {
            if e1[x] != edges[x] {
                let k = choose|k: int| 0 <= k < pre.len() && pre[k].0 == x && pre[k].1 == e1[x];
                assert(ops[k] == pre[k]);
                if x == e as int && e1[x] == EdgeState::Unknown {
                } else {
                    assert(fe[x] == e1[x]);
                }
            } else {
                assert(ops[ops.len() - 1].0 == x);
            }
        }
        assert forall|k: int| 0 <= k < ops.len() && (#[trigger] ops[k]).1 != EdgeState::Unknown implies fe[ops[k].0 as int]
            != EdgeState::Unknown by {
            if k < pre.len() {
                assert(ops[k] == pre[k]);
                assert(e1[pre[k].0 as int] != EdgeState::Unknown);
            }
        }
    }
}


/// A state decides no edge of itself.
pub proof fn lemma_decided_refl(a: &Solver)
    ensures
        a.decided_from(a),
{
    let ops: Seq<(EdgeId, EdgeState)> = seq![];
    assert(set_all(a.edges@, a.changed@, ops) == (a.edges@, a.changed@));
    assert(ops_in_range(ops, a.edges@.len() as int));
}

/// One more decision keeps a state decided from the base.
pub proof fn lemma_decided_step(a: &Solver, b: &Solver, c: &Solver, e: EdgeId, s: EdgeState)
    requires
        b.decided_from(a),
        c.same_tables(b),
        c.is_pre_cut == b.is_pre_cut,
        c.manual_diffs == b.manual_diffs,
        c.manual_sames == b.manual_sames,
        (c.edges@, c.changed@) == set_step(b.edges@, b.changed@, e, s),
        e < a.edges@.len(),
    ensures
        c.decided_from(a),
{
    let ops = choose|ops: Seq<(EdgeId, EdgeState)>|
        ops_in_range(ops, a.edges@.len() as int) && (#[trigger] set_all(a.edges@, a.changed@, ops)) == (
        b.edges@,
        b.changed@,
    );
    let ops2 = ops.push((e, s));
    assert(ops2.drop_last() =~= ops);
    assert(ops_in_range(ops2, a.edges@.len() as int));
    assert(set_all(a.edges@, a.changed@, ops2) == (c.edges@, c.changed@));
}

/// A state decided from a well-formed base has as many edges as the base.
pub proof fn lemma_decided_len(a: &Solver, b: &Solver)
    requires
        b.decided_from(a),
    ensures
        b.edges@.len() == a.edges@.len(),
        forall|e: int| 0 <= e < a.edges@.len() && a.edges@[e] != EdgeState::Unknown ==> #[trigger] b.edges@[e] == a.edges@[e],
{
    let ops = choose|ops: Seq<(EdgeId, EdgeState)>|
        ops_in_range(ops, a.edges@.len() as int) && (#[trigger] set_all(a.edges@, a.changed@, ops)) == (
        b.edges@,
        b.changed@,
    );
    lemma_set_all(a.edges@, a.changed@, ops);
}


impl Solver {
    /// Decides edge `e` and keeps the record that the state was reached from
    /// `base` by decisions alone.
    pub(crate) fn decide_edge(&mut self, e: EdgeId, s: EdgeState, Ghost(base): Ghost<Solver>) -> (r: bool)
        requires
            old(self).wf(),
            old(self).decided_from(&base),
            e < old(self).edges@.len(),
        ensures
            final(self).wf(),
            final(self).decided_from(&base),
            final(self).same_tables(old(self)),
            r == (old(self).edges@[e as int] == s || old(self).edges@[e as int] == EdgeState::Unknown),
            (final(self).edges@, final(self).changed@) == set_step(old(self).edges@, old(self).changed@, e, s),
    {
        let ghost mid = *self;
        proof {
            lemma_decided_len(&base, &mid);
        }
        let r = self.set_edge(e, s);
        proof {
            lemma_decided_step(&base, &mid, self, e, s);
        }
        r
    }
}

} // verus!
