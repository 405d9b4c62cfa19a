//! Size separation: pieces that share an edge have different areas. The
//! sizes that the neighbours of a component will end with are forbidden to
//! it; an edge whose joining would give such a size is cut, and a component
//! whose present size is forbidden must grow.
use vstd::prelude::*;
use super::Solver;
use super::comp_tables::{comp_ids_ok, edges_decided};
use super::diff_clues::{area_tables_ok, comp_sealed};
use super::edge_state::{lemma_decided_refl, ops_in_range, set_all};
use super::shape_rules::cut_between;
use crate::types::{EdgeId, EdgeState};

verus! {

/// The area that component `cj` will end with, when known: its size once it
/// can no longer grow, else its target area.
pub open spec fn known_size(s: &Solver, cj: int, x: int) -> bool {
    if comp_sealed(s, cj) {
        x == s.curr_comp_sz@[cj]
    } else {
        match s.curr_target_area@[cj] {
            Some(t) => x == t,
            None => false,
        }
    }
}

/// Edge `e` is cut between component `ci` and a neighbour that will end with area `x`.
pub open spec fn neighbour_size(s: &Solver, e: int, ci: int, x: int) -> bool {
    match cut_between(s, e) {
        Some(p) => (p.0 == ci && known_size(s, p.1, x)) || (p.1 == ci && known_size(s, p.0, x)),
        None => false,
    }
}

/// Area `x` is forbidden to component `ci`: a neighbour across a cut edge
/// among the first `m` edges will end with it.
pub open spec fn forbidden_below(s: &Solver, ci: int, x: int, m: int) -> bool {
    exists|e: int| 0 <= e < m && #[trigger] neighbour_size(s, e, ci, x)
}

/// Component `ci` breaks size separation at once: it is complete and a
/// neighbour will end with its size, or its target area is one a neighbour
/// will end with, or its present size is and no undecided edge (in `edges`)
/// leads out of it.
pub open spec fn sep_fails_at(s: &Solver, edges: Seq<EdgeState>, ci: int) -> bool {
    let m = s.grid.n_edges();
    ||| comp_sealed(s, ci) && forbidden_below(s, ci, s.curr_comp_sz@[ci] as int, m)
    ||| !comp_sealed(s, ci) && (s.curr_target_area@[ci] matches Some(t) && forbidden_below(s, ci, t as int, m))
    ||| !comp_sealed(s, ci) && forbidden_below(s, ci, s.curr_comp_sz@[ci] as int, m) && forall|k: int|
        0 <= k < s.growth_edges@[ci]@.len() ==> edges[#[trigger] s.growth_edges@[ci]@[k] as int] != EdgeState::Unknown
}

/// The tables that size separation reads for `num` components.
pub open spec fn sep_ready(s: &Solver, num: int) -> bool {
    &&& comp_ids_ok(s, num)
    &&& area_tables_ok(s)
    &&& s.can_grow_buf@.len() == num
    &&& forall|i: int| 0 <= i < num ==> #[trigger] s.curr_comp_sz@[i] <= s.grid.n_cells()
}

fn insert_size(v: &mut Vec<usize>, x: usize)
    ensures
        forall|y: usize| #[trigger] final(v)@.contains(y) <==> old(v)@.contains(y) || y == x,
{
    let mut i: usize = 0;
    while i < v.len()
        invariant
            i <= v@.len(),
            forall|j: int| 0 <= j < i ==> v@[j] != x,
        decreases v@.len() - i,
    {
        if v[i] == x {
            proof {
                assert(v@[i as int] == x);
            }
            return;
        }
        i = i + 1;
    }
    let ghost v0 = v@;
    v.push(x);
    proof {
        assert forall|y: usize| #[trigger] v@.contains(y) <==> v0.contains(y) || y == x by {
            if v0.contains(y) {
                let j = choose|j: int| 0 <= j < v0.len() && v0[j] == y;
                assert(v@[j] == y);
            }
            if y == x {
                assert(v@[v0.len() as int] == x);
            }
            if v@.contains(y) {
                let j = choose|j: int| 0 <= j < v@.len() && v@[j] == y;
                if j < v0.len() {
                    assert(v0[j] == y);
                }
            }
        }
    }
}

fn has_size(v: &Vec<usize>, x: usize) -> (r: bool)
    ensures
        r == v@.contains(x),
{
    let mut i: usize = 0;
    while i < v.len()
        invariant
            i <= v@.len(),
            forall|j: int| 0 <= j < i ==> v@[j] != x,
        decreases v@.len() - i,
    {
        if v[i] == x {
            proof {
                assert(v@[i as int] == x);
            }
            return true;
        }
        i = i + 1;
    }
    false
}

/// Adds area `x` to the list of component `ci`.
fn insert_at(lists: &mut Vec<Vec<usize>>, ci: usize, x: usize)
    requires
        ci < old(lists)@.len(),
    ensures
        final(lists)@.len() == old(lists)@.len(),
        forall|i: int| 0 <= i < old(lists)@.len() && i != ci ==> #[trigger] final(lists)@[i] == old(lists)@[i],
        forall|y: usize| #[trigger] final(lists)@[ci as int]@.contains(y) <==> old(lists)@[ci as int]@.contains(y) || y == x,
{
    let mut l = Vec::new();
    std::mem::swap(&mut l, &mut lists[ci]);
    insert_size(&mut l, x);
    lists.set(ci, l);
}

impl Solver {
    /// The area that component `cj` will end with, when known (see `known_size`).
    fn known_size_of(&self, cj: usize) -> (r: Option<usize>)
        requires
            sep_ready(self, self.can_grow_buf@.len() as int),
            cj < self.can_grow_buf@.len(),
        ensures
            forall|x: usize| #[trigger] known_size(self, cj as int, x as int) <==> r == Some(x),
            r matches Some(v) ==> known_size(self, cj as int, v as int),
            forall|x: int| known_size(self, cj as int, x) ==> 0 <= x <= usize::MAX,
    {
        if self.is_sealed(cj) {
            Some(self.curr_comp_sz[cj])
        } else {
            self.curr_target_area[cj]
        }
    }

    /// Size separation over `num_comp` components: records for each
    /// component the areas that its neighbours will end with, cuts the
    /// undecided edges whose joining would give a component such an area, and
    /// fails on a complete component, or a target area, whose area a
    /// neighbour has; a component whose present size a neighbour has must
    /// grow, and fails when no undecided edge leads out of it, or takes its
    /// only one. Returns whether an edge was decided.
    pub fn propagate_size_separation(&mut self, num_comp: usize) -> (r: Result<bool, ()>)
        requires
            old(self).wf(),
            sep_ready(old(self), num_comp as int),
        ensures
            final(self).wf(),
            final(self).grid == old(self).grid,
            final(self).curr_comp_id == old(self).curr_comp_id,
            final(self).curr_comp_sz == old(self).curr_comp_sz,
            final(self).curr_target_area == old(self).curr_target_area,
            edges_decided(old(self), final(self)),
            r == Ok::<bool, ()>(false) ==> final(self).edges == old(self).edges,
            !old(self).puzzle.rules.size_separation ==> r == Ok::<bool, ()>(false) && final(self).sealed_neighbor_sizes
                is None,
            r is Err ==> exists|ci: int| 0 <= ci < num_comp && #[trigger] sep_fails_at(old(self), final(self).edges@, ci),
            old(self).puzzle.rules.size_separation && r is Ok ==> {
                &&& final(self).sealed_neighbor_sizes matches Some(v) && v@.len() == num_comp && forall|ci: int, x: usize|
                    0 <= ci < num_comp ==> (#[trigger] v@[ci]@.contains(x) <==> forbidden_below(
                        old(self),
                        ci,
                        x as int,
                        old(self).grid.n_edges(),
                    ))
                &&& forall|ci: int|
                    #![trigger old(self).curr_comp_sz@[ci]]
                    0 <= ci < num_comp && comp_sealed(old(self), ci) ==> !forbidden_below(
                        old(self),
                        ci,
                        old(self).curr_comp_sz@[ci] as int,
                        old(self).grid.n_edges(),
                    )
                &&& forall|ci: int|
                    #![trigger old(self).curr_target_area@[ci]]
                    0 <= ci < num_comp && !comp_sealed(old(self), ci) && old(self).curr_target_area@[ci] is Some
                        ==> !forbidden_below(
                        old(self),
                        ci,
                        old(self).curr_target_area@[ci]->0 as int,
                        old(self).grid.n_edges(),
                    )
            },
    {
        let ghost s0 = *self;
        if !self.puzzle.rules.size_separation {
            self.sealed_neighbor_sizes = None;
            proof {
                let ops: Seq<(EdgeId, EdgeState)> = seq![];
                assert(set_all(s0.edges@, s0.changed@, ops) == (self.edges@, self.changed@));
                assert(ops_in_range(ops, s0.edges@.len() as int));
            }
            return Ok(false);
        }
        let num = num_comp;
        let ne = self.grid.num_edges();
        let mut sns: Vec<Vec<usize>> = Vec::new();
        let mut z: usize = 0;
        while z < num
            invariant
                z <= num,
                sns@.len() == z,
                forall|i: int, y: usize| 0 <= i < z ==> !(#[trigger] sns@[i]@.contains(y)),
            decreases num - z,
        {
            sns.push(Vec::new());
            z = z + 1;
        }
        // Step 1: the areas that the neighbours of each component will end with.
        let mut e: usize = 0;
        while e < ne
            invariant
                self.wf(),
                *self == s0,
                sep_ready(self, num as int),
                ne == self.grid.n_edges(),
                e <= ne,
                sns@.len() == num,
                forall|ci: int, x: usize|
                    0 <= ci < num ==> (#[trigger] sns@[ci]@.contains(x) <==> forbidden_below(self, ci, x as int, e as int)),
            decreases ne - e,
        {
            let ghost sns0 = sns@;
            let sides = self.cut_sides(e, num);
            if let Some((ci1, ci2)) = sides {
                let k1 = self.known_size_of(ci1);
                let k2 = self.known_size_of(ci2);
                if let Some(x1) = k1 {
                    insert_at(&mut sns, ci2, x1);
                }
                let ghost sns1 = sns@;
                if let Some(x2) = k2 {
                    insert_at(&mut sns, ci1, x2);
                }
                proof {
                    assert forall|ci: int, x: usize|
                        0 <= ci < num implies (#[trigger] sns@[ci]@.contains(x) <==> forbidden_below(
                            self,
                            ci,
                            x as int,
                            e + 1,
                        )) by {
                        if neighbour_size(self, e as int, ci, x as int) {
                            assert(forbidden_below(self, ci, x as int, e + 1));
                        }
                        if forbidden_below(self, ci, x as int, e + 1) && !forbidden_below(self, ci, x as int, e as int) {
                            let w = choose|w: int| 0 <= w < e + 1 && #[trigger] neighbour_size(self, w, ci, x as int);
                            assert(w == e);
                        }
                        if forbidden_below(self, ci, x as int, e as int) {
                            let w = choose|w: int| 0 <= w < e && #[trigger] neighbour_size(self, w, ci, x as int);
                            assert(forbidden_below(self, ci, x as int, e + 1));
                        }
                    }
                }
            } else {
                proof {
                    assert forall|ci: int, x: usize|
                        0 <= ci < num implies (#[trigger] sns@[ci]@.contains(x) <==> forbidden_below(
                            self,
                            ci,
                            x as int,
                            e + 1,
                        )) by {
                        if forbidden_below(self, ci, x as int, e + 1) {
                            let w = choose|w: int| 0 <= w < e + 1 && #[trigger] neighbour_size(self, w, ci, x as int);
                            assert(w != e);
                            assert(forbidden_below(self, ci, x as int, e as int));
                        }
                        if forbidden_below(self, ci, x as int, e as int) {
                            let w = choose|w: int| 0 <= w < e && #[trigger] neighbour_size(self, w, ci, x as int);
                            assert(forbidden_below(self, ci, x as int, e + 1));
                        }
                    }
                }
            }
            e = e + 1;
        }
        let ghost base = *self;
        proof {
            lemma_decided_refl(&base);
        }
        // Step 2: joining across an undecided edge must not give a forbidden area.
        let mut conflict: Vec<(EdgeId, EdgeState)> = Vec::new();
        let mut e: usize = 0;
        while e < ne
            invariant
                self.wf(),
                *self == s0,
                sep_ready(self, num as int),
                ne == self.grid.n_edges(),
                e <= ne,
                sns@.len() == num,
                forall|q: int| 0 <= q < conflict@.len() ==> (#[trigger] conflict@[q]).0 < ne,
            decreases ne - e,
        {
            if self.edges[e] == EdgeState::Unknown {
                let (c1, c2) = self.grid.edge_cells(e);
                if self.grid.cell_exists[c1] && self.grid.cell_exists[c2] {
                    let ci1 = self.curr_comp_id[c1];
                    let ci2 = self.curr_comp_id[c2];
                    if ci1 != ci2 {
                        proof {
                            self.grid.lemma_sizes();
                            assert(self.grid.rows * self.grid.cols <= (self.grid.rows + 1) * (self.grid.cols + 1))
                                by (nonlinear_arith);
                        }
                        let merged = self.curr_comp_sz[ci1] + self.curr_comp_sz[ci2];
                        if has_size(&sns[ci1], merged) || has_size(&sns[ci2], merged) {
                            conflict.push((e, EdgeState::Cut));
                        }
                    }
                }
            }
            e = e + 1;
        }
        let mut progress = false;
        let mut q: usize = 0;
        while q < conflict.len()
            invariant
                self.wf(),
                self.decided_from(&base),
                base == s0,
                s0 == *old(self),
                s0.puzzle.rules.size_separation,
                num == num_comp,
                self.grid == s0.grid,
                forall|j: int| 0 <= j < conflict@.len() ==> (#[trigger] conflict@[j]).0 < ne,
                ne == self.grid.n_edges(),
                q <= conflict@.len(),
                !progress ==> self.edges == base.edges,
            decreases conflict@.len() - q,
        {
            let (ce, st) = conflict[q];
            if self.edges[ce] == EdgeState::Unknown {
                let _ = self.decide_edge(ce, st, Ghost(base));
                progress = true;
            }
            q = q + 1;
        }
        // Step 3: forbidden areas.
        let mut forced: Vec<(EdgeId, EdgeState)> = Vec::new();
        let mut ci: usize = 0;
        while ci < num
            invariant
                self.wf(),
                self.decided_from(&base),
                base == s0,
                s0 == *old(self),
                s0.puzzle.rules.size_separation,
                num == num_comp,
                self.grid == s0.grid,
                sep_ready(self, num as int),
                ne == self.grid.n_edges(),
                ci <= num,
                sns@.len() == num,
                forall|c: int, x: usize|
                    0 <= c < num ==> (#[trigger] sns@[c]@.contains(x) <==> forbidden_below(&s0, c, x as int, ne as int)),
                forall|j: int| 0 <= j < forced@.len() ==> (#[trigger] forced@[j]).0 < ne,
                forall|c: int|
                    #![trigger s0.curr_comp_sz@[c]]
                    0 <= c < ci && comp_sealed(&s0, c) ==> !forbidden_below(&s0, c, s0.curr_comp_sz@[c] as int, ne as int),
                forall|c: int|
                    #![trigger s0.curr_target_area@[c]]
                    0 <= c < ci && !comp_sealed(&s0, c) && s0.curr_target_area@[c] is Some ==> !forbidden_below(
                        &s0,
                        c,
                        s0.curr_target_area@[c]->0 as int,
                        ne as int,
                    ),
            decreases num - ci,
        {
            if sns[ci].len() > 0 {
                if self.is_sealed(ci) {
                    if has_size(&sns[ci], self.curr_comp_sz[ci]) {
                        proof {
                            assert(sep_fails_at(&s0, self.edges@, ci as int));
                                assert(sep_fails_at(old(self), self.edges@, ci as int));
                        }
                        return Err(());
                    }
                } else {
                    if let Some(t) = self.curr_target_area[ci] {
                        if has_size(&sns[ci], t) {
                            proof {
                                assert(sep_fails_at(&s0, self.edges@, ci as int));
                                assert(sep_fails_at(old(self), self.edges@, ci as int));
                            }
                            return Err(());
                        }
                    }
                    if has_size(&sns[ci], self.curr_comp_sz[ci]) {
                        let mut unk_count: usize = 0;
                        let mut last_unk: usize = 0;
                        let ge = &self.growth_edges[ci];
                        let mut j: usize = 0;
                        while j < ge.len()
                            invariant
                                self.wf(),
                                self.decided_from(&base),
                                base == s0,
                s0 == *old(self),
                s0.puzzle.rules.size_separation,
                num == num_comp,
                                self.grid == s0.grid,
                                sep_ready(self, num as int),
                                ci < num,
                                ge == &self.growth_edges@[ci as int],
                                j <= ge@.len(),
                                unk_count <= j,
                                unk_count > 0 ==> last_unk < self.grid.n_edges(),
                                unk_count == 0 ==> forall|k: int|
                                    0 <= k < j ==> self.edges@[#[trigger] ge@[k] as int] != EdgeState::Unknown,
                            decreases ge@.len() - j,
                        {
                            let x = ge[j];
                            if self.edges[x] == EdgeState::Unknown {
                                unk_count = unk_count + 1;
                                last_unk = x;
                            }
                            j = j + 1;
                        }
                        if unk_count == 0 {
                            proof {
                                assert(sep_fails_at(&s0, self.edges@, ci as int));
                                assert(sep_fails_at(old(self), self.edges@, ci as int));
                            }
                            return Err(());
                        }
                        if unk_count == 1 {
                            forced.push((last_unk, EdgeState::Uncut));
                        }
                    }
                }
            } else {
                proof {
                    assert forall|x: usize| !forbidden_below(&s0, ci as int, x as int, ne as int) by {
                        if forbidden_below(&s0, ci as int, x as int, ne as int) {
                            assert(sns@[ci as int]@.contains(x));
                        }
                    }
                }
            }
            proof {
                if comp_sealed(&s0, ci as int) {
                    assert(!sns@[ci as int]@.contains(s0.curr_comp_sz@[ci as int]));
                }
                if !comp_sealed(&s0, ci as int) && s0.curr_target_area@[ci as int] is Some {
                    assert(!sns@[ci as int]@.contains(s0.curr_target_area@[ci as int]->0));
                }
            }
            ci = ci + 1;
        }
        let mut q: usize = 0;
        while q < forced.len()
            invariant
                self.wf(),
                self.decided_from(&base),
                base == s0,
                s0 == *old(self),
                s0.puzzle.rules.size_separation,
                num == num_comp,
                self.grid == s0.grid,
                forall|j: int| 0 <= j < forced@.len() ==> (#[trigger] forced@[j]).0 < ne,
                ne == self.grid.n_edges(),
                q <= forced@.len(),
                !progress ==> self.edges == base.edges,
            decreases forced@.len() - q,
        {
            let (fe, st) = forced[q];
            if self.edges[fe] == EdgeState::Unknown {
                let _ = self.decide_edge(fe, st, Ghost(base));
                progress = true;
            }
            q = q + 1;
        }
        self.sealed_neighbor_sizes = Some(sns);
        Ok(progress)
    }
}

} // verus!
