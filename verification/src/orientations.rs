//! The eight orientations of a shape form a group: turning an orientation
//! gives another orientation. From this, the canonical form is the same for
//! every orientation of a shape, and taking it twice changes nothing.
use vstd::prelude::*;
use vstd::seq_lib::{group_to_multiset_ensures, lemma_sorted_unique, to_multiset_remove};
use crate::polyomino::{
    canonical_spec, canonical_upto, cell_leq, lemma_cell_leq_total, lemma_extrema, lemma_rotated_spread, lemma_shape_order,
    max_col, max_row, min_col, min_row, negatable, normalized, orientation, rotated, shape_lt, shape_of, shifted, spread_ok,
    Rotation, ShapeView,
};

verus! {

// ── Permutations ─────────────────────────────────────────────────────────────

/// Mapping two permutations of each other gives two permutations of each other.
proof fn lemma_map_perm(x: Seq<(i32, i32)>, y: Seq<(i32, i32)>, f: spec_fn((i32, i32)) -> (i32, i32))
    requires
        x.to_multiset() == y.to_multiset(),
    ensures
        x.map_values(f).to_multiset() == y.map_values(f).to_multiset(),
    decreases x.len(),
{
    broadcast use group_to_multiset_ensures;
    broadcast use vstd::multiset::group_multiset_axioms;

    vstd::seq_lib::to_multiset_len(x);
    vstd::seq_lib::to_multiset_len(y);
    if x.len() == 0 {
        assert(y.len() == 0);
        assert(x.map_values(f) =~= Seq::<(i32, i32)>::empty());
        assert(y.map_values(f) =~= Seq::<(i32, i32)>::empty());
    } else {
        let a = x.last();
        let x0 = x.drop_last();
        assert(x =~= x0.push(a));
        assert(y.to_multiset().count(a) > 0);
        assert(y.contains(a));
        let j = choose|j: int| 0 <= j < y.len() && y[j] == a;
        let y0 = y.remove(j);
        assert(y0.to_multiset() =~= y.to_multiset().remove(a));
        assert(x0.to_multiset() =~= x.to_multiset().remove(a));
        lemma_map_perm(x0, y0, f);
        let my = y.map_values(f);
        assert(y0.map_values(f) =~= my.remove(j));
        assert(my.remove(j).to_multiset() =~= my.to_multiset().remove(my[j]));
        assert(my.to_multiset().count(f(a)) > 0) by {
            assert(my[j] == f(a));
            assert(my.contains(f(a)));
        }
        assert(x.map_values(f) =~= x0.map_values(f).push(f(a)));
        assert(my.to_multiset() =~= my.to_multiset().remove(f(a)).insert(f(a)));
    }
}

/// Two permutations of each other have the same smallest and largest row and column.
proof fn lemma_extrema_perm(x: Seq<(i32, i32)>, y: Seq<(i32, i32)>)
    requires
        x.to_multiset() == y.to_multiset(),
    ensures
        min_row(x) == min_row(y),
        min_col(x) == min_col(y),
        max_row(x) == max_row(y),
        max_col(x) == max_col(y),
        x.len() == y.len(),
{
    broadcast use group_to_multiset_ensures;

    lemma_extrema(x);
    lemma_extrema(y);
    vstd::seq_lib::to_multiset_len(x);
    vstd::seq_lib::to_multiset_len(y);
    if x.len() > 0 {
        assert forall|i: int| 0 <= i < x.len() implies exists|k: int| 0 <= k < y.len() && y[k] == #[trigger] x[i] by {
            assert(x.contains(x[i]));
            assert(x.to_multiset().count(x[i]) > 0);
            assert(y.contains(x[i]));
        }
        assert forall|i: int| 0 <= i < y.len() implies exists|k: int| 0 <= k < x.len() && x[k] == #[trigger] y[i] by {
            assert(y.contains(y[i]));
            assert(y.to_multiset().count(y[i]) > 0);
            assert(x.contains(y[i]));
        }
        let a = choose|i: int| 0 <= i < x.len() && #[trigger] x[i].0 == min_row(x);
        let b = choose|i: int| 0 <= i < y.len() && #[trigger] y[i].0 == min_row(y);
        let ka = choose|k: int| 0 <= k < y.len() && y[k] == x[a];
        let kb = choose|k: int| 0 <= k < x.len() && x[k] == y[b];
        assert(min_row(y) <= y[ka].0 && min_row(x) <= x[kb].0);
        let a = choose|i: int| 0 <= i < x.len() && #[trigger] x[i].1 == min_col(x);
        let b = choose|i: int| 0 <= i < y.len() && #[trigger] y[i].1 == min_col(y);
        let ka = choose|k: int| 0 <= k < y.len() && y[k] == x[a];
        let kb = choose|k: int| 0 <= k < x.len() && x[k] == y[b];
        assert(min_row(y) <= y[ka].0 && min_row(x) <= x[kb].0);
        assert(min_col(y) <= y[ka].1 && min_col(x) <= x[kb].1);
        let a = choose|i: int| 0 <= i < x.len() && #[trigger] x[i].0 == max_row(x);
        let b = choose|i: int| 0 <= i < y.len() && #[trigger] y[i].0 == max_row(y);
        let ka = choose|k: int| 0 <= k < y.len() && y[k] == x[a];
        let kb = choose|k: int| 0 <= k < x.len() && x[k] == y[b];
        assert(max_row(y) >= y[ka].0 && max_row(x) >= x[kb].0);
        let a = choose|i: int| 0 <= i < x.len() && #[trigger] x[i].1 == max_col(x);
        let b = choose|i: int| 0 <= i < y.len() && #[trigger] y[i].1 == max_col(y);
        let ka = choose|k: int| 0 <= k < y.len() && y[k] == x[a];
        let kb = choose|k: int| 0 <= k < x.len() && x[k] == y[b];
        assert(max_row(y) >= y[ka].0 && max_row(x) >= x[kb].0);
        assert(max_col(y) >= y[ka].1 && max_col(x) >= x[kb].1);
    }
}

/// The shifted cells, as a map.
proof fn lemma_shifted_map(s: Seq<(i32, i32)>, dr: int, dc: int)
    ensures
        shifted(s, dr, dc) == s.map_values(|p: (i32, i32)| ((p.0 - dr) as i32, (p.1 - dc) as i32)),
{
    assert(shifted(s, dr, dc) =~= s.map_values(|p: (i32, i32)| ((p.0 - dr) as i32, (p.1 - dc) as i32)));
}

/// The shape formed by cells depends only on which cells, not on their order.
pub proof fn lemma_shape_of_perm(x: Seq<(i32, i32)>, y: Seq<(i32, i32)>)
    requires
        x.to_multiset() == y.to_multiset(),
    ensures
        shape_of(x) == shape_of(y),
{
    lemma_extrema_perm(x, y);
    let dr = min_row(x);
    let dc = min_col(x);
    let f = |p: (i32, i32)| ((p.0 - dr) as i32, (p.1 - dc) as i32);
    lemma_shifted_map(x, dr, dc);
    lemma_shifted_map(y, dr, dc);
    lemma_map_perm(x, y, f);
    let sx = shifted(x, dr, dc);
    let sy = shifted(y, dr, dc);
    lemma_cell_leq_total();
    sx.lemma_sort_by_ensures(cell_leq());
    sy.lemma_sort_by_ensures(cell_leq());
    lemma_sorted_unique(sx.sort_by(cell_leq()), sy.sort_by(cell_leq()), cell_leq());
    assert(normalized(x) == normalized(y));
}

// ── The eight turns ──────────────────────────────────────────────────────────

/// The `k`-th of the eight turns applied to (r, c): rotation by `k / 2`
/// quarter turns, then a mirror when `k` is odd.
pub open spec fn turn(k: int, r: int, c: int) -> (int, int) {
    let (nr, nc) = Rotation::of_index(k / 2).spec_transform(r, c);
    if k % 2 == 1 {
        (nr, -nc)
    } else {
        (nr, nc)
    }
}

/// The turn that does turn `i`, then turn `j`.
pub open spec fn compose(i: int, j: int) -> int {
    if i % 2 == 0 {
        (i + j) % 8
    } else {
        (i - j + 8) % 8
    }
}

/// Turning by `i` and then by `j` is turning by `compose(i, j)`.
proof fn lemma_turn_compose(i: int, j: int, r: int, c: int)
    requires
        0 <= i < 8,
        0 <= j < 8,
    ensures
        turn(j, turn(i, r, c).0, turn(i, r, c).1) == turn(compose(i, j), r, c),
        0 <= compose(i, j) < 8,
{
    assert(i == 0 || i == 1 || i == 2 || i == 3 || i == 4 || i == 5 || i == 6 || i == 7);
    assert(j == 0 || j == 1 || j == 2 || j == 3 || j == 4 || j == 5 || j == 6 || j == 7);
}

/// Every turn `m` is turn `i` followed by some turn.
proof fn lemma_compose_onto(i: int, m: int)
    requires
        0 <= i < 8,
        0 <= m < 8,
    ensures
        exists|j: int| 0 <= j < 8 && #[trigger] compose(i, j) == m,
{
    let j = if i % 2 == 0 {
        (m - i + 8) % 8
    } else {
        (i - m + 8) % 8
    };
    assert(compose(i, j) == m);
}

/// A turn maps differences to differences.
proof fn lemma_turn_linear(k: int, r: int, c: int, a: int, b: int)
    requires
        0 <= k < 8,
    ensures
        turn(k, r - a, c - b) == (turn(k, r, c).0 - turn(k, a, b).0, turn(k, r, c).1 - turn(k, a, b).1),
{
    assert(k == 0 || k == 1 || k == 2 || k == 3 || k == 4 || k == 5 || k == 6 || k == 7);
}

/// A turn moves each coordinate to plus or minus another.
proof fn lemma_turn_size(k: int, r: int, c: int)
    requires
        0 <= k < 8,
    ensures
        turn(k, r, c).0 == r || turn(k, r, c).0 == -r || turn(k, r, c).0 == c || turn(k, r, c).0 == -c,
        turn(k, r, c).1 == r || turn(k, r, c).1 == -r || turn(k, r, c).1 == c || turn(k, r, c).1 == -c,
{
    assert(k == 0 || k == 1 || k == 2 || k == 3 || k == 4 || k == 5 || k == 6 || k == 7);
}

/// The cells turned by the `k`-th turn.
pub open spec fn turned(s: Seq<(i32, i32)>, k: int) -> Seq<(i32, i32)> {
    rotated(s, Rotation::of_index(k / 2), k % 2 == 1)
}

/// Coordinates above `i32::MIN`: they can be negated.
pub open spec fn bounded(s: Seq<(i32, i32)>) -> bool {
    forall|i: int| #![trigger s[i]] 0 <= i < s.len() ==> -i32::MAX <= s[i].0 && -i32::MAX <= s[i].1
}

/// The `k`-th turn of the cells, when every coordinate can be negated.
proof fn lemma_rotated_turn(s: Seq<(i32, i32)>, k: int)
    requires
        0 <= k < 8,
        bounded(s),
    ensures
        turned(s, k).len() == s.len(),
        bounded(turned(s, k)),
        forall|i: int|
            0 <= i < s.len() ==> (#[trigger] turned(s, k)[i]).0 == turn(k, s[i].0 as int, s[i].1 as int).0 && turned(
                s,
                k,
            )[i].1 == turn(k, s[i].0 as int, s[i].1 as int).1,
{
    let t = turned(s, k);
    assert forall|i: int| 0 <= i < s.len() implies (#[trigger] t[i]).0 == turn(k, s[i].0 as int, s[i].1 as int).0
        && t[i].1 == turn(k, s[i].0 as int, s[i].1 as int).1 by {
        assert(-i32::MAX <= s[i].0 && -i32::MAX <= s[i].1);
        assert(k == 0 || k == 1 || k == 2 || k == 3 || k == 4 || k == 5 || k == 6 || k == 7);
    }
    assert forall|i: int| #![trigger t[i]] 0 <= i < t.len() implies -i32::MAX <= t[i].0 && -i32::MAX <= t[i].1 by {
        lemma_turn_size(k, s[i].0 as int, s[i].1 as int);
        assert(t[i].0 == turn(k, s[i].0 as int, s[i].1 as int).0);
    }
}

// ── Moving cells ─────────────────────────────────────────────────────────────

/// Moving the cells does not change the shape they form.
proof fn lemma_shape_of_shift(s: Seq<(i32, i32)>, a: int, b: int)
    requires
        forall|i: int|
            0 <= i < s.len() ==> i32::MIN <= #[trigger] s[i].0 - a <= i32::MAX && i32::MIN <= s[i].1 - b <= i32::MAX,
    ensures
        shape_of(shifted(s, a, b)) == shape_of(s),
{
    let t = shifted(s, a, b);
    lemma_extrema(s);
    lemma_extrema(t);
    if s.len() > 0 {
        assert forall|i: int| 0 <= i < s.len() implies (#[trigger] t[i]).0 == s[i].0 - a && t[i].1 == s[i].1 - b by {}
        let m1 = choose|i: int| 0 <= i < s.len() && #[trigger] s[i].0 == min_row(s);
        let m2 = choose|i: int| 0 <= i < t.len() && #[trigger] t[i].0 == min_row(t);
        assert(t[m1].0 == s[m1].0 - a);
        assert(t[m2].0 == s[m2].0 - a);
        assert(min_row(t) == min_row(s) - a);
        let n1 = choose|i: int| 0 <= i < s.len() && #[trigger] s[i].1 == min_col(s);
        let n2 = choose|i: int| 0 <= i < t.len() && #[trigger] t[i].1 == min_col(t);
        assert(t[n1].1 == s[n1].1 - b && t[n1].0 == s[n1].0 - a);
        assert(t[n2].1 == s[n2].1 - b && t[n2].0 == s[n2].0 - a);
        assert(min_col(t) == min_col(s) - b);
        assert(shifted(t, min_row(t), min_col(t)) =~= shifted(s, min_row(s), min_col(s)));
    } else {
        assert(shifted(t, min_row(t), min_col(t)) =~= shifted(s, min_row(s), min_col(s)));
    }
}

/// Turning moved cells is moving the turned cells.
proof fn lemma_turn_shift(s: Seq<(i32, i32)>, k: int, a: int, b: int)
    requires
        0 <= k < 8,
        bounded(s),
        forall|i: int| #![trigger s[i]] 0 <= i < s.len() ==> 0 <= s[i].0 - a < i32::MAX && 0 <= s[i].1 - b < i32::MAX,
    ensures
        turned(shifted(s, a, b), k) == shifted(turned(s, k), turn(k, a, b).0, turn(k, a, b).1),
        forall|i: int|
            #![trigger turned(s, k)[i]]
            0 <= i < s.len() ==> -i32::MAX < turned(s, k)[i].0 - turn(k, a, b).0 < i32::MAX && -i32::MAX < turned(s, k)[i].1
                - turn(k, a, b).1 < i32::MAX,
{
    let z = shifted(s, a, b);
    assert forall|i: int| #![trigger z[i]] 0 <= i < z.len() implies -i32::MAX <= z[i].0 && -i32::MAX <= z[i].1 by {
        assert(0 <= s[i].0 - a < i32::MAX);
    }
    lemma_rotated_turn(z, k);
    lemma_rotated_turn(s, k);
    let lhs = turned(z, k);
    let rhs = shifted(turned(s, k), turn(k, a, b).0, turn(k, a, b).1);
    assert forall|i: int| #![trigger turned(s, k)[i]] 0 <= i < s.len() implies -i32::MAX < turned(s, k)[i].0 - turn(
        k,
        a,
        b,
    ).0 < i32::MAX && -i32::MAX < turned(s, k)[i].1 - turn(k, a, b).1 < i32::MAX by {
        assert(0 <= s[i].0 - a < i32::MAX && 0 <= s[i].1 - b < i32::MAX);
        lemma_turn_linear(k, s[i].0 as int, s[i].1 as int, a, b);
        lemma_turn_size(k, s[i].0 - a, s[i].1 - b);
    }
    assert forall|i: int| 0 <= i < lhs.len() implies #[trigger] lhs[i] == rhs[i] by {
        assert(0 <= s[i].0 - a < i32::MAX && 0 <= s[i].1 - b < i32::MAX);
        assert(z[i].0 == s[i].0 - a && z[i].1 == s[i].1 - b);
        lemma_turn_linear(k, s[i].0 as int, s[i].1 as int, a, b);
        lemma_turn_size(k, s[i].0 - a, s[i].1 - b);
        assert(lhs[i].0 == turn(k, z[i].0 as int, z[i].1 as int).0);
        assert(turned(s, k)[i].0 == turn(k, s[i].0 as int, s[i].1 as int).0);
    }
    assert(lhs =~= rhs);
}

/// The turned cells, as a map.
proof fn lemma_turned_map(s: Seq<(i32, i32)>, k: int)
    ensures
        turned(s, k) == s.map_values(
            |p: (i32, i32)|
                {
                    let (nr, nc) = Rotation::of_index(k / 2).spec_transform(p.0 as int, p.1 as int);
                    if k % 2 == 1 {
                        (nr as i32, (-nc) as i32)
                    } else {
                        (nr as i32, nc as i32)
                    }
                },
        ),
{
    assert(turned(s, k) =~= s.map_values(
        |p: (i32, i32)|
            {
                let (nr, nc) = Rotation::of_index(k / 2).spec_transform(p.0 as int, p.1 as int);
                if k % 2 == 1 {
                    (nr as i32, (-nc) as i32)
                } else {
                    (nr as i32, nc as i32)
                }
            },
    ));
}

/// Turning the shape of some cells gives the shape of the turned cells.
proof fn lemma_turn_shape(x: Seq<(i32, i32)>, j: int)
    requires
        0 <= j < 8,
        bounded(x),
        spread_ok(x),
    ensures
        shape_of(turned(shape_of(x).2, j)) == shape_of(turned(x, j)),
{
    broadcast use group_to_multiset_ensures;

    if x.len() == 0 {
        assert(turned(shape_of(x).2, j) =~= Seq::<(i32, i32)>::empty());
        assert(turned(x, j) =~= Seq::<(i32, i32)>::empty());
    } else {
        lemma_extrema(x);
        let mr = min_row(x);
        let mc = min_col(x);
        let z = shifted(x, mr, mc);
        let w = normalized(x);
        lemma_cell_leq_total();
        z.lemma_sort_by_ensures(cell_leq());
        assert(w.to_multiset() == z.to_multiset());
        let m1 = choose|i: int| 0 <= i < x.len() && #[trigger] x[i].0 == min_row(x);
        let m2 = choose|i: int| 0 <= i < x.len() && #[trigger] x[i].1 == min_col(x);
        assert forall|i: int| #![trigger x[i]] 0 <= i < x.len() implies 0 <= x[i].0 - mr < i32::MAX && 0 <= x[i].1 - mc
            < i32::MAX by {
            assert(x[i].0 - x[m1].0 < i32::MAX);
            assert(x[i].1 - x[m2].1 < i32::MAX);
            assert(mr <= x[i].0 && mc <= x[i].1);
        }
        lemma_turned_map(w, j);
        lemma_turned_map(z, j);
        lemma_map_perm(w, z, |p: (i32, i32)|
            {
                let (nr, nc) = Rotation::of_index(j / 2).spec_transform(p.0 as int, p.1 as int);
                if j % 2 == 1 {
                    (nr as i32, (-nc) as i32)
                } else {
                    (nr as i32, nc as i32)
                }
            });
        lemma_shape_of_perm(turned(w, j), turned(z, j));
        lemma_turn_shift(x, j, mr, mc);
        lemma_rotated_turn(x, j);
        let t = turned(x, j);
        assert forall|i: int| 0 <= i < t.len() implies i32::MIN <= #[trigger] t[i].0 - turn(j, mr, mc).0 <= i32::MAX
            && i32::MIN <= t[i].1 - turn(j, mr, mc).1 <= i32::MAX by {
            assert(-i32::MAX < turned(x, j)[i].0 - turn(j, mr, mc).0 < i32::MAX);
        }
        lemma_shape_of_shift(t, turn(j, mr, mc).0, turn(j, mr, mc).1);
    }
}

/// Turning twice is turning once.
proof fn lemma_turned_compose(x: Seq<(i32, i32)>, i: int, j: int)
    requires
        0 <= i < 8,
        0 <= j < 8,
        bounded(x),
    ensures
        turned(turned(x, i), j) == turned(x, compose(i, j)),
{
    lemma_rotated_turn(x, i);
    let y = turned(x, i);
    lemma_rotated_turn(y, j);
    lemma_turn_compose(i, j, 0, 0);
    lemma_rotated_turn(x, compose(i, j));
    assert forall|k: int| 0 <= k < x.len() implies #[trigger] turned(y, j)[k] == turned(x, compose(i, j))[k] by {
        lemma_turn_compose(i, j, x[k].0 as int, x[k].1 as int);
        assert(y[k].0 == turn(i, x[k].0 as int, x[k].1 as int).0);
        assert(y[k].1 == turn(i, x[k].0 as int, x[k].1 as int).1);
    }
    assert(turned(y, j) =~= turned(x, compose(i, j)));
}

/// Cells that can be negated have no coordinate below `-i32::MAX`.
proof fn lemma_negatable_bounded(x: Seq<(i32, i32)>)
    requires
        negatable(x),
    ensures
        bounded(x),
{
    assert forall|i: int| #![trigger x[i]] 0 <= i < x.len() implies -i32::MAX <= x[i].0 && -i32::MAX <= x[i].1 by {
        assert(x[i].0 > i32::MIN && x[i].1 > i32::MIN);
    }
}

/// Turning an orientation of a shape gives an orientation of the shape:
/// orientation `j` of orientation `i` is orientation `compose(i, j)`.
pub proof fn law_orientation_compose(v: ShapeView, i: int, j: int)
    requires
        0 <= i < 8,
        0 <= j < 8,
        spread_ok(v.2),
        negatable(v.2),
    ensures
        orientation(orientation(v, i), j) == orientation(v, compose(i, j)),
{
    lemma_negatable_bounded(v.2);
    let y = turned(v.2, i);
    lemma_rotated_turn(v.2, i);
    lemma_rotated_spread(v.2, Rotation::of_index(i / 2), i % 2 == 1);
    lemma_turn_shape(y, j);
    lemma_turned_compose(v.2, i, j);
}

// ── The canonical form ───────────────────────────────────────────────────────

/// The smallest of a shape and its first `k` orientations is one of them,
/// and none of them is smaller.
proof fn lemma_canonical_min(s: ShapeView, k: int)
    requires
        0 <= k <= 8,
    ensures
        canonical_upto(s, k) == s || exists|m: int| 0 <= m < k && canonical_upto(s, k) == #[trigger] orientation(s, m),
        !shape_lt(s, canonical_upto(s, k)),
        forall|m: int| 0 <= m < k ==> !shape_lt(#[trigger] orientation(s, m), canonical_upto(s, k)),
    decreases k,
{
    if k == 0 {
        lemma_shape_order(s, s, s);
    } else {
        lemma_canonical_min(s, k - 1);
        let b = canonical_upto(s, k - 1);
        let c = orientation(s, k - 1);
        lemma_shape_order(c, c, c);
        if shape_lt(c, b) {
            lemma_shape_order(s, c, b);
            assert forall|m: int| 0 <= m < k implies !shape_lt(#[trigger] orientation(s, m), c) by {
                lemma_shape_order(orientation(s, m), c, b);
            }
        }
    }
}

/// An orientation of a shape formed by cells: orientation 0 is the shape itself.
proof fn lemma_orientation_zero(v: ShapeView)
    requires
        v == shape_of(v.2),
    ensures
        orientation(v, 0) == v,
{
    assert(rotated(v.2, Rotation::of_index(0), false) =~= v.2);
}

/// The canonical form is the same for every orientation of a shape.
pub proof fn law_canonical_orientation(v: ShapeView, i: int)
    requires
        0 <= i < 8,
        v == shape_of(v.2),
        spread_ok(v.2),
        negatable(v.2),
    ensures
        canonical_spec(orientation(v, i)) == canonical_spec(v),
{
    let u = orientation(v, i);
    assert forall|j: int| 0 <= j < 8 implies #[trigger] orientation(u, j) == orientation(v, compose(i, j)) by {
        law_orientation_compose(v, i, j);
    }
    lemma_orientation_zero(v);
    lemma_canonical_min(u, 8);
    lemma_canonical_min(v, 8);
    let c1 = canonical_spec(u);
    let c2 = canonical_spec(v);
    // The canonical form of `u` is an orientation of `v`, so it is not below `c2`.
    assert(!shape_lt(c1, c2)) by {
        if c1 == u {
        } else {
            let j = choose|j: int| 0 <= j < 8 && c1 == #[trigger] orientation(u, j);
            lemma_turn_compose(i, j, 0, 0);
            assert(!shape_lt(orientation(v, compose(i, j)), c2));
        }
    }
    // The canonical form of `v` is an orientation of `u`, so it is not below `c1`.
    assert(!shape_lt(c2, c1)) by {
        let m = if c2 == v {
            0
        } else {
            choose|m: int| 0 <= m < 8 && c2 == #[trigger] orientation(v, m)
        };
        assert(c2 == orientation(v, m));
        lemma_compose_onto(i, m);
        let j = choose|j: int| 0 <= j < 8 && #[trigger] compose(i, j) == m;
        assert(orientation(u, j) == orientation(v, m));
        assert(!shape_lt(orientation(u, j), c1));
    }
    lemma_shape_order(c1, c2, c1);
}

/// The canonical form of a turned shape is that of the shape: turning the
/// cells by `rot` and mirroring them when `flip`, before forming the shape,
/// does not change the canonical form.
pub proof fn law_canonical_turn(v: ShapeView, rot: Rotation, flip: bool)
    requires
        v == shape_of(v.2),
        spread_ok(v.2),
        negatable(v.2),
    ensures
        canonical_spec(shape_of(rotated(v.2, rot, flip))) == canonical_spec(v),
{
    let k = 2 * (rot.rot_index() as int) + if flip {
        1int
    } else {
        0int
    };
    assert(Rotation::of_index(k / 2) == rot);
    assert((k % 2 == 1) == flip);
    law_canonical_orientation(v, k);
}

/// Taking the canonical form twice gives the canonical form.
pub proof fn law_canonical_idempotent(v: ShapeView)
    requires
        v == shape_of(v.2),
        spread_ok(v.2),
        negatable(v.2),
    ensures
        canonical_spec(canonical_spec(v)) == canonical_spec(v),
{
    lemma_canonical_min(v, 8);
    let c = canonical_spec(v);
    if c != v {
        let m = choose|m: int| 0 <= m < 8 && c == #[trigger] orientation(v, m);
        law_canonical_orientation(v, m);
    }
}

/// Forming a shape from the cells of a shape gives the same shape.
pub proof fn law_shape_of_shape(c: Seq<(i32, i32)>)
    requires
        spread_ok(c),
    ensures
        shape_of(shape_of(c).2) == shape_of(c),
{
    broadcast use group_to_multiset_ensures;

    if c.len() > 0 {
        lemma_extrema(c);
        let mr = min_row(c);
        let mc = min_col(c);
        let z = shifted(c, mr, mc);
        lemma_cell_leq_total();
        z.lemma_sort_by_ensures(cell_leq());
        lemma_shape_of_perm(normalized(c), z);
        let m1 = choose|i: int| 0 <= i < c.len() && #[trigger] c[i].0 == min_row(c);
        let m2 = choose|i: int| 0 <= i < c.len() && #[trigger] c[i].1 == min_col(c);
        assert forall|i: int| 0 <= i < c.len() implies i32::MIN <= #[trigger] c[i].0 - mr <= i32::MAX && i32::MIN <= c[i].1
            - mc <= i32::MAX by {
            assert(c[i].0 - c[m1].0 < i32::MAX);
            assert(c[i].1 - c[m2].1 < i32::MAX);
        }
        lemma_shape_of_shift(c, mr, mc);
    } else {
        assert(shape_of(c).2 =~= c);
    }
}

} // verus!
