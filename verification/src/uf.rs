//! Union-Find with XOR parity.
//!
//! Tracks equivalence classes with a parity bit between elements.
//! `par[i]` stores the XOR-parity from node `i` to its parent.
//! A parity of 0 means "same group" and 1 means "different group"
//! (e.g., same/different piece for cell-level UF, or Cut/Uncut for edge-level UF).
use vstd::prelude::*;
use vstd::arithmetic::power2::{pow2, lemma2_to64, lemma_pow2_strictly_increases, lemma_pow2_unfold};
use vstd::set_lib::{set_int_range, lemma_int_range, lemma_len_subset, lemma_set_disjoint_lens};

verus! {

/// XOR of two bits.
pub open spec fn xor01(a: u8, b: u8) -> u8 {
    if a == b {
        0
    } else {
        1
    }
}

proof fn lemma_xor_bits(a: u8, b: u8)
    requires
        a <= 1,
        b <= 1,
    ensures
        a ^ b == xor01(a, b),
{
    assert(a ^ b == (if a == b { 0u8 } else { 1u8 })) by (bit_vector)
        requires
            a <= 1,
            b <= 1,
    ;
}

/// Every node points inside the forest, and the ranks strictly grow along parent links.
pub open spec fn ranked(parent: Seq<usize>, rank: Seq<u8>) -> bool {
    &&& rank.len() == parent.len()
    &&& forall|i: int| 0 <= i < parent.len() ==> #[trigger] parent[i] < parent.len()
    &&& forall|i: int|
        0 <= i < parent.len() && #[trigger] parent[i] != i ==> rank[i] < rank[parent[i] as int]
}

/// The guard under which the walk to the root takes one more step from `i`.
pub open spec fn steps(parent: Seq<usize>, rank: Seq<u8>, i: int) -> bool {
    &&& 0 <= i < parent.len()
    &&& i < rank.len()
    &&& parent[i] != i
    &&& parent[i] < rank.len()
    &&& rank[i] < rank[parent[i] as int]
}

/// The root reached from `i` by following parent links.
pub open spec fn root_by(parent: Seq<usize>, rank: Seq<u8>, i: int) -> int
    decreases 256 - rank[i],
{
    if steps(parent, rank, i) {
        root_by(parent, rank, parent[i] as int)
    } else {
        i
    }
}

/// The XOR of the parity bits on the path from `i` to its root.
pub open spec fn parity_by(parent: Seq<usize>, rank: Seq<u8>, par: Seq<u8>, i: int) -> u8
    decreases 256 - rank[i],
{
    if steps(parent, rank, i) {
        xor01(par[i], parity_by(parent, rank, par, parent[i] as int))
    } else {
        0
    }
}

/// The parent links form a forest (some ranking exists).
pub open spec fn is_forest(parent: Seq<usize>) -> bool {
    exists|rank: Seq<u8>| ranked(parent, rank)
}

pub open spec fn some_ranking(parent: Seq<usize>) -> Seq<u8> {
    choose|rank: Seq<u8>| ranked(parent, rank)
}

/// The root of the class of `i`.
pub open spec fn root_of(parent: Seq<usize>, i: int) -> int {
    root_by(parent, some_ranking(parent), i)
}

/// The parity between `i` and the root of its class.
pub open spec fn parity_of(parent: Seq<usize>, par: Seq<u8>, i: int) -> u8 {
    parity_by(parent, some_ranking(parent), par, i)
}

/// The members of the class whose root is `r`.
pub open spec fn class_by(parent: Seq<usize>, rank: Seq<u8>, r: int) -> Set<int> {
    Set::new(|i: int| 0 <= i < parent.len() && root_by(parent, rank, i) == r)
}

/// A root of rank k heads a class of at least 2^k members.
pub open spec fn rank_bounded(parent: Seq<usize>, rank: Seq<u8>) -> bool {
    forall|r: int|
        0 <= r < parent.len() && #[trigger] parent[r] == r ==> pow2(rank[r] as nat) <= class_by(
            parent,
            rank,
            r,
        ).len()
}

/// Well-formed parity union-find arrays.
pub open spec fn uf_wf(parent: Seq<usize>, rank: Seq<u8>, par: Seq<u8>) -> bool {
    &&& ranked(parent, rank)
    &&& par.len() == parent.len()
    &&& forall|i: int| 0 <= i < par.len() ==> #[trigger] par[i] <= 1
    &&& rank_bounded(parent, rank)
}

/// `i` and `j` are in the same class.
pub open spec fn same_class(parent: Seq<usize>, i: int, j: int) -> bool {
    root_of(parent, i) == root_of(parent, j)
}

/// The parity relation between `i` and `j` (0 = same group, 1 = different group).
pub open spec fn relation(parent: Seq<usize>, par: Seq<u8>, i: int, j: int) -> u8 {
    xor01(parity_of(parent, par, i), parity_of(parent, par, j))
}

/// Under a ranking, the root is a root, and the parity is a bit.
proof fn lemma_root_by(parent: Seq<usize>, rank: Seq<u8>, par: Seq<u8>, i: int)
    requires
        ranked(parent, rank),
        0 <= i < parent.len(),
    ensures
        0 <= root_by(parent, rank, i) < parent.len(),
        parent[root_by(parent, rank, i)] == root_by(parent, rank, i),
        parity_by(parent, rank, par, i) <= 1,
        parent[i] == i ==> root_by(parent, rank, i) == i && parity_by(parent, rank, par, i) == 0,
        parent[i] != i ==> root_by(parent, rank, i) == root_by(parent, rank, parent[i] as int),
        parent[i] != i ==> parity_by(parent, rank, par, i) == xor01(
            par[i],
            parity_by(parent, rank, par, parent[i] as int),
        ),
    decreases 256 - rank[i],
{
    assert(parent[i] < parent.len());
    if parent[i] != i {
        lemma_root_by(parent, rank, par, parent[i] as int);
    }
}

/// The root and parity do not depend on which ranking is used.
proof fn lemma_ranking_irrelevant(
    parent: Seq<usize>,
    r1: Seq<u8>,
    r2: Seq<u8>,
    par: Seq<u8>,
    i: int,
)
    requires
        ranked(parent, r1),
        ranked(parent, r2),
        0 <= i < parent.len(),
    ensures
        root_by(parent, r1, i) == root_by(parent, r2, i),
        parity_by(parent, r1, par, i) == parity_by(parent, r2, par, i),
    decreases 256 - r1[i],
{
    assert(parent[i] < parent.len());
    if parent[i] != i {
        lemma_ranking_irrelevant(parent, r1, r2, par, parent[i] as int);
    }
}

/// The chosen ranking agrees with a given one.
proof fn lemma_root_of(parent: Seq<usize>, rank: Seq<u8>, par: Seq<u8>, i: int)
    requires
        ranked(parent, rank),
        0 <= i < parent.len(),
    ensures
        root_of(parent, i) == root_by(parent, rank, i),
        parity_of(parent, par, i) == parity_by(parent, rank, par, i),
        is_forest(parent),
{
    assert(is_forest(parent));
    let rk = some_ranking(parent);
    lemma_ranking_irrelevant(parent, rank, rk, par, i);
}

/// A class is a finite set of at most `n` members.
proof fn lemma_class_bounded(parent: Seq<usize>, rank: Seq<u8>, r: int)
    ensures
        class_by(parent, rank, r).finite(),
        class_by(parent, rank, r).len() <= parent.len(),
{
    lemma_int_range(0, parent.len() as int);
    lemma_len_subset(class_by(parent, rank, r), set_int_range(0, parent.len() as int));
}

/// The rank of a root is small (below 64), so it can be incremented.
proof fn lemma_rank_small(parent: Seq<usize>, rank: Seq<u8>, par: Seq<u8>, r: int)
    requires
        uf_wf(parent, rank, par),
        parent.len() <= usize::MAX,
        0 <= r < parent.len(),
        parent[r] == r,
    ensures
        rank[r] < 64,
{
    lemma_class_bounded(parent, rank, r);
    lemma2_to64();
    if rank[r] >= 64 {
        if rank[r] > 64 {
            lemma_pow2_strictly_increases(64, rank[r] as nat);
        }
        assert(pow2(64) > usize::MAX);
    }
}

/// Find the root of `x` and the parity from `x` to it.
pub fn uf_find(parent: &[usize], par: &[u8], x: usize) -> (res: (usize, u8))
    requires
        is_forest(parent@),
        par@.len() == parent@.len(),
        forall|i: int| 0 <= i < par@.len() ==> #[trigger] par@[i] <= 1,
        x < parent@.len(),
    ensures
        res.0 == root_of(parent@, x as int),
        res.1 == parity_of(parent@, par@, x as int),
        res.0 < parent@.len(),
        parent@[res.0 as int] == res.0,
        res.1 <= 1,
{
    let ghost rk = some_ranking(parent@);
    proof {
        lemma_root_by(parent@, rk, par@, x as int);
    }
    let mut cur = x;
    let mut p = 0u8;
    while parent[cur] != cur
        invariant
            ranked(parent@, rk),
            rk == some_ranking(parent@),
            par@.len() == parent@.len(),
            forall|i: int| 0 <= i < par@.len() ==> #[trigger] par@[i] <= 1,
            cur < parent@.len(),
            p <= 1,
            root_by(parent@, rk, cur as int) == root_by(parent@, rk, x as int),
            xor01(p, parity_by(parent@, rk, par@, cur as int)) == parity_by(
                parent@,
                rk,
                par@,
                x as int,
            ),
        decreases 256 - rk[cur as int],
    {
        proof {
            lemma_root_by(parent@, rk, par@, cur as int);
            lemma_root_by(parent@, rk, par@, parent@[cur as int] as int);
            lemma_xor_bits(p, par@[cur as int]);
        }
        p = p ^ par[cur];
        cur = parent[cur];
    }
    proof {
        lemma_root_by(parent@, rk, par@, cur as int);
    }
    (cur, p)
}

/// The root and parity of every node after linking root `lo` below root `hi`
/// with parity `lp`.
proof fn lemma_link(
    parent: Seq<usize>,
    rank: Seq<u8>,
    par: Seq<u8>,
    parent2: Seq<usize>,
    rank2: Seq<u8>,
    par2: Seq<u8>,
    lo: int,
    hi: int,
    lp: u8,
    i: int,
)
    requires
        ranked(parent, rank),
        ranked(parent2, rank2),
        par.len() == parent.len(),
        0 <= lo < parent.len(),
        0 <= hi < parent.len(),
        lo != hi,
        parent[lo] == lo,
        parent[hi] == hi,
        parent2 == parent.update(lo, hi as usize),
        par2 == par.update(lo, lp),
        lp <= 1,
        forall|k: int| 0 <= k < par.len() ==> #[trigger] par[k] <= 1,
        forall|k: int| 0 <= k < rank.len() && k != hi ==> #[trigger] rank2[k] == rank[k],
        rank2[hi] >= rank[hi],
        0 <= i < parent.len(),
    ensures
        root_by(parent2, rank2, i) == (if root_by(parent, rank, i) == lo {
            hi
        } else {
            root_by(parent, rank, i)
        }),
        parity_by(parent2, rank2, par2, i) == (if root_by(parent, rank, i) == lo {
            xor01(parity_by(parent, rank, par, i), lp)
        } else {
            parity_by(parent, rank, par, i)
        }),
    decreases 256 - rank[i],
{
    lemma_root_by(parent, rank, par, i);
    lemma_root_by(parent2, rank2, par2, i);
    lemma_root_by(parent2, rank2, par2, hi);
    if parent[i] == i {
        if i == lo {
            assert(parent2[lo] == hi);
            assert(parent2[hi] == hi);
        } else {
            assert(parent2[i] == i);
        }
    } else {
        assert(i != lo);
        assert(parent2[i] == parent[i]);
        assert(par2[i] == par[i]);
        lemma_link(parent, rank, par, parent2, rank2, par2, lo, hi, lp, parent[i] as int);
    }
}

/// Union c1 and c2 with parity rel (0=same, 1=different).
/// Returns Ok(true) if newly merged, Ok(false) if already consistent, Err if contradiction.
pub fn uf_union(
    parent: &mut Vec<usize>,
    rank: &mut Vec<u8>,
    par: &mut Vec<u8>,
    c1: usize,
    c2: usize,
    rel: u8,
) -> (res: Result<bool, ()>)
    requires
        uf_wf(old(parent)@, old(rank)@, old(par)@),
        c1 < old(parent)@.len(),
        c2 < old(parent)@.len(),
        rel <= 1,
    ensures
        uf_wf(final(parent)@, final(rank)@, final(par)@),
        final(parent)@.len() == old(parent)@.len(),
        same_class(old(parent)@, c1 as int, c2 as int) ==> *final(parent) == *old(parent)
            && *final(rank) == *old(rank) && *final(par) == *old(par),
        res is Err <==> same_class(old(parent)@, c1 as int, c2 as int) && relation(
            old(parent)@,
            old(par)@,
            c1 as int,
            c2 as int,
        ) != rel,
        res == Ok::<bool, ()>(false) <==> same_class(old(parent)@, c1 as int, c2 as int)
            && relation(old(parent)@, old(par)@, c1 as int, c2 as int) == rel,
        res == Ok::<bool, ()>(true) <==> !same_class(old(parent)@, c1 as int, c2 as int),
        res is Ok ==> same_class(final(parent)@, c1 as int, c2 as int) && relation(
            final(parent)@,
            final(par)@,
            c1 as int,
            c2 as int,
        ) == rel,
        forall|i: int, j: int|
            0 <= i < old(parent)@.len() && 0 <= j < old(parent)@.len() ==> (same_class(
                final(parent)@,
                i,
                j,
            ) <==> (same_class(old(parent)@, i, j) || (same_class(old(parent)@, i, c1 as int)
                && same_class(old(parent)@, j, c2 as int)) || (same_class(
                old(parent)@,
                i,
                c2 as int,
            ) && same_class(old(parent)@, j, c1 as int)))),
        forall|i: int, j: int|
            0 <= i < old(parent)@.len() && 0 <= j < old(parent)@.len() && same_class(
                old(parent)@,
                i,
                j,
            ) ==> relation(final(parent)@, final(par)@, i, j) == relation(
                old(parent)@,
                old(par)@,
                i,
                j,
            ),
        res is Ok ==> forall|i: int, j: int|
            0 <= i < old(parent)@.len() && 0 <= j < old(parent)@.len() && same_class(
                old(parent)@,
                i,
                c1 as int,
            ) && same_class(old(parent)@, j, c2 as int) ==> relation(
                final(parent)@,
                final(par)@,
                i,
                j,
            ) == xor01(
                xor01(relation(old(parent)@, old(par)@, i, c1 as int), rel),
                relation(old(parent)@, old(par)@, c2 as int, j),
            ),
{
    let n = parent.len();
    let ghost p0 = parent@;
    let ghost k0 = rank@;
    let ghost q0 = par@;
    proof {
        assert forall|i: int| 0 <= i < p0.len() implies root_of(p0, i) == root_by(p0, k0, i)
            && parity_of(p0, q0, i) == parity_by(p0, k0, q0, i) && parity_by(p0, k0, q0, i) <= 1
            && 0 <= root_by(p0, k0, i) < p0.len() by {
            lemma_root_of(p0, k0, q0, i);
            lemma_root_by(p0, k0, q0, i);
        }
    }
    let (r1, p1) = uf_find(parent, par, c1);
    let (r2, p2) = uf_find(parent, par, c2);
    proof {
        lemma_xor_bits(p1, p2);
    }
    if r1 == r2 {
        return if (p1 ^ p2) == rel {
            Ok(false)
        } else {
            Err(())
        };
    }
    proof {
        lemma_xor_bits(p1 ^ p2, rel);
    }
    let lp = p1 ^ p2 ^ rel;
    let ghost lo: int;
    let ghost hi: int;
    // Merge smaller rank into larger
    if rank[r1] < rank[r2] {
        parent.set(r1, r2);
        par.set(r1, lp);
        proof {
            lo = r1 as int;
            hi = r2 as int;
        }
    } else if rank[r1] > rank[r2] {
        parent.set(r2, r1);
        par.set(r2, lp);
        proof {
            lo = r2 as int;
            hi = r1 as int;
        }
    } else {
        proof {
            lemma_rank_small(p0, k0, q0, r1 as int);
        }
        parent.set(r2, r1);
        par.set(r2, lp);
        let r = rank[r1] + 1;
        rank.set(r1, r);
        proof {
            lo = r2 as int;
            hi = r1 as int;
        }
    }
    let ghost p1s = parent@;
    let ghost k1 = rank@;
    let ghost q1 = par@;
    proof {
        // The new arrays are still ranked.
        assert forall|i: int| 0 <= i < p1s.len() && #[trigger] p1s[i] != i implies k1[i]
            < k1[p1s[i] as int] by {
            if i != lo {
                assert(p0[i] != i);
                assert(k0[i] < k0[p0[i] as int]);
            }
        }
        assert(ranked(p1s, k1));
        assert forall|i: int| 0 <= i < p1s.len() implies root_by(p1s, k1, i) == (if root_by(
            p0,
            k0,
            i,
        ) == lo {
            hi
        } else {
            root_by(p0, k0, i)
        }) && parity_by(p1s, k1, q1, i) == (if root_by(p0, k0, i) == lo {
            xor01(parity_by(p0, k0, q0, i), lp)
        } else {
            parity_by(p0, k0, q0, i)
        }) && root_of(p1s, i) == root_by(p1s, k1, i) && parity_of(p1s, q1, i) == parity_by(
            p1s,
            k1,
            q1,
            i,
        ) by {
            lemma_link(p0, k0, q0, p1s, k1, q1, lo, hi, lp, i);
            lemma_root_of(p1s, k1, q1, i);
        }
        // Class sizes: the class of `hi` absorbs the class of `lo`; other classes stay.
        assert forall|r: int| 0 <= r < p1s.len() && #[trigger] p1s[r] == r implies pow2(
            k1[r] as nat,
        ) <= class_by(p1s, k1, r).len() by {
            assert(r != lo);
            assert(p0[r] == r);
            lemma_class_bounded(p0, k0, r);
            lemma_class_bounded(p0, k0, lo);
            lemma_class_bounded(p1s, k1, r);
            if r == hi {
                let a = class_by(p0, k0, hi);
                let b = class_by(p0, k0, lo);
                assert forall|i: int| #[trigger] class_by(p1s, k1, r).contains(i) <==> (a
                    + b).contains(i) by {
                    if 0 <= i < p1s.len() {
                        lemma_link(p0, k0, q0, p1s, k1, q1, lo, hi, lp, i);
                    }
                }
                assert(class_by(p1s, k1, r) =~= a + b);
                assert(a.disjoint(b));
                lemma_set_disjoint_lens(a, b);
                if k1[hi] != k0[hi] {
                    assert(p0[lo] == lo);
                    lemma_pow2_unfold(k1[hi] as nat);
                }
            } else {
                assert forall|i: int| #[trigger] class_by(p1s, k1, r).contains(i) <==> class_by(
                    p0,
                    k0,
                    r,
                ).contains(i) by {
                    if 0 <= i < p1s.len() {
                        lemma_link(p0, k0, q0, p1s, k1, q1, lo, hi, lp, i);
                    }
                }
                assert(class_by(p1s, k1, r) =~= class_by(p0, k0, r));
            }
        }
        assert forall|i: int| 0 <= i < q1.len() implies #[trigger] q1[i] <= 1 by {}
        lemma_root_by(p0, k0, q0, c1 as int);
        lemma_root_by(p0, k0, q0, c2 as int);
        lemma_link(p0, k0, q0, p1s, k1, q1, lo, hi, lp, c1 as int);
        lemma_link(p0, k0, q0, p1s, k1, q1, lo, hi, lp, c2 as int);
        lemma_root_of(p1s, k1, q1, c1 as int);
        lemma_root_of(p1s, k1, q1, c2 as int);
        assert forall|i: int, j: int|
            0 <= i < p0.len() && 0 <= j < p0.len() && same_class(p0, i, j) implies relation(
            p1s,
            q1,
            i,
            j,
        ) == relation(p0, q0, i, j) by {
            lemma_link(p0, k0, q0, p1s, k1, q1, lo, hi, lp, i);
            lemma_link(p0, k0, q0, p1s, k1, q1, lo, hi, lp, j);
            lemma_root_of(p1s, k1, q1, i);
            lemma_root_of(p1s, k1, q1, j);
            lemma_root_of(p0, k0, q0, i);
            lemma_root_of(p0, k0, q0, j);
            lemma_root_by(p0, k0, q0, i);
            lemma_root_by(p0, k0, q0, j);
        }
        assert forall|i: int, j: int|
            0 <= i < p0.len() && 0 <= j < p0.len() && same_class(p0, i, c1 as int) && same_class(
                p0,
                j,
                c2 as int,
            ) implies relation(p1s, q1, i, j) == xor01(
            xor01(relation(p0, q0, i, c1 as int), rel),
            relation(p0, q0, c2 as int, j),
        ) by {
            lemma_link(p0, k0, q0, p1s, k1, q1, lo, hi, lp, i);
            lemma_link(p0, k0, q0, p1s, k1, q1, lo, hi, lp, j);
            lemma_root_of(p1s, k1, q1, i);
            lemma_root_of(p1s, k1, q1, j);
            lemma_root_of(p0, k0, q0, i);
            lemma_root_of(p0, k0, q0, j);
            lemma_root_by(p0, k0, q0, i);
            lemma_root_by(p0, k0, q0, j);
        }
    }
    Ok(true)
}

/// Owning wrapper around the parity union-find arrays.
pub struct ParityUF {
    parent: Vec<usize>,
    rank: Vec<u8>,
    par: Vec<u8>,
}

impl ParityUF {
    pub closed spec fn wf(&self) -> bool {
        uf_wf(self.parent@, self.rank@, self.par@)
    }

    /// Number of elements.
    pub closed spec fn len(&self) -> nat {
        self.parent@.len()
    }

    /// `i` and `j` are in the same class.
    pub closed spec fn same(&self, i: int, j: int) -> bool {
        same_class(self.parent@, i, j)
    }

    /// The parity relation between `i` and `j`.
    pub closed spec fn rel(&self, i: int, j: int) -> u8 {
        relation(self.parent@, self.par@, i, j)
    }

    /// The root of the class of `i`.
    pub closed spec fn root(&self, i: int) -> int {
        root_of(self.parent@, i)
    }

    /// The parity from `i` to its root.
    pub closed spec fn parity(&self, i: int) -> u8 {
        parity_of(self.parent@, self.par@, i)
    }

    /// `n` singleton classes.
    pub fn new(n: usize) -> (u: Self)
        ensures
            u.wf(),
            u.len() == n,
            forall|i: int, j: int| 0 <= i < n && 0 <= j < n ==> (u.same(i, j) <==> i == j),
    {
        let mut parent: Vec<usize> = Vec::new();
        let mut i: usize = 0;
        while i < n
            invariant
                i <= n,
                parent@.len() == i,
                forall|k: int| 0 <= k < i ==> parent@[k] == k,
            decreases n - i,
        {
            parent.push(i);
            i = i + 1;
        }
        let rank = vec![0u8; n];
        let par = vec![0u8; n];
        let u = Self { parent, rank, par };
        proof {
            let p = u.parent@;
            let k = u.rank@;
            let q = u.par@;
            assert(ranked(p, k));
            assert forall|r: int| 0 <= r < p.len() implies root_by(p, k, r) == r by {
                lemma_root_by(p, k, q, r);
            }
            assert forall|r: int| 0 <= r < p.len() && #[trigger] p[r] == r implies pow2(
                k[r] as nat,
            ) <= class_by(p, k, r).len() by {
                assert(class_by(p, k, r) =~= set![r]);
                lemma2_to64();
            }
            assert forall|a: int, b: int| 0 <= a < n && 0 <= b < n implies (u.same(a, b) <==> a
                == b) by {
                lemma_root_of(p, k, q, a);
                lemma_root_of(p, k, q, b);
            }
        }
        u
    }

    pub fn find(&self, x: usize) -> (res: (usize, u8))
        requires
            self.wf(),
            x < self.len(),
        ensures
            res.0 == self.root(x as int),
            res.1 == self.parity(x as int),
            res.1 <= 1,
            res.0 < self.len(),
    {
        proof {
            lemma_root_of(self.parent@, self.rank@, self.par@, x as int);
        }
        uf_find(&self.parent, &self.par, x)
    }

    /// Union c1 and c2 with parity rel (0=same, 1=different).
    /// Returns Ok(true) if newly merged, Ok(false) if already consistent, Err if contradiction.
    pub fn union(&mut self, c1: usize, c2: usize, rel: u8) -> (res: Result<bool, ()>)
        requires
            old(self).wf(),
            c1 < old(self).len(),
            c2 < old(self).len(),
            rel <= 1,
        ensures
            final(self).wf(),
            final(self).len() == old(self).len(),
            res is Err <==> old(self).same(c1 as int, c2 as int) && old(self).rel(c1 as int, c2 as int)
                != rel,
            res == Ok::<bool, ()>(true) <==> !old(self).same(c1 as int, c2 as int),
            res is Ok ==> final(self).same(c1 as int, c2 as int) && final(self).rel(
                c1 as int,
                c2 as int,
            ) == rel,
            forall|i: int, j: int|
                0 <= i < old(self).len() && 0 <= j < old(self).len() ==> (final(self).same(i, j)
                    <==> (old(self).same(i, j) || (old(self).same(i, c1 as int) && old(self).same(
                    j,
                    c2 as int,
                )) || (old(self).same(i, c2 as int) && old(self).same(j, c1 as int)))),
            forall|i: int, j: int|
                0 <= i < old(self).len() && 0 <= j < old(self).len() && old(self).same(i, j)
                    ==> final(self).rel(i, j) == old(self).rel(i, j),
            res is Ok ==> forall|i: int, j: int|
                0 <= i < old(self).len() && 0 <= j < old(self).len() && old(self).same(i, c1 as int)
                    && old(self).same(j, c2 as int) ==> final(self).rel(i, j) == xor01(
                    xor01(old(self).rel(i, c1 as int), rel),
                    old(self).rel(c2 as int, j),
                ),
    {
        uf_union(&mut self.parent, &mut self.rank, &mut self.par, c1, c2, rel)
    }

    /// Two elements are in one class exactly when `find` gives them one root,
    /// and the relation between them is the xor of their parities to it.
    pub proof fn lemma_find_class(&self, i: int, j: int)
        ensures
            self.same(i, j) <==> self.root(i) == self.root(j),
            self.rel(i, j) == xor01(self.parity(i), self.parity(j)),
    {
    }
}

} // verus!
