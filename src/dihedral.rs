use vstd::prelude::*;
use vstd::relations::{sorted_by, total_ordering};
use crate::grid::{Color, Coord};
use crate::pattern::{bounded, dihedral_trail, mirrored, GridPattern, canonical_of, color_rank, entry_le, entry_order, is_min_i, is_min_j, shifted, turned, COORD_LIMIT};

verus! {

/// A pattern entry read as plain integers.
pub open spec fn ient(e: (Coord, Color)) -> (int, int, Color) {
    (e.0.i as int, e.0.j as int, e.1)
}

pub open spec fn ipts(x: Seq<(Coord, Color)>) -> Seq<(int, int, Color)> {
    x.map_values(|e: (Coord, Color)| ient(e))
}

pub open spec fn ile(a: (int, int, Color), b: (int, int, Color)) -> bool {
    a.0 < b.0 || (a.0 == b.0 && (a.1 < b.1 || (a.1 == b.1 && color_rank(a.2) <= color_rank(b.2))))
}

pub open spec fn iorder() -> spec_fn((int, int, Color), (int, int, Color)) -> bool {
    |a: (int, int, Color), b: (int, int, Color)| ile(a, b)
}

proof fn lemma_iorder_total()
    ensures
        total_ordering(iorder()),
{
    assert forall|a: (int, int, Color), b: (int, int, Color)|
        #[trigger] (iorder())(a, b) && #[trigger] (iorder())(b, a) implies a == b by {
        assert(color_rank(a.2) == color_rank(b.2));
        assert(a.2 == b.2);
    }
}

proof fn lemma_insert_mset<A>(s: Seq<A>, i: int, a: A)
    requires
        0 <= i <= s.len(),
    ensures
        s.insert(i, a).to_multiset() == s.to_multiset().insert(a),
{
    broadcast use vstd::multiset::group_multiset_axioms;
    let t = s.insert(i, a);
    t.to_multiset_ensures();
    assert(t.remove(i) =~= s);
    assert(t[i] == a);
    assert(t.to_multiset().count(a) > 0) by {
        assert(t.contains(a));
    }
    assert(t.to_multiset() =~= t.to_multiset().remove(a).insert(a));
}

/// Mapping both sides keeps two sequences with the same elements alike.
proof fn lemma_map_mset<A, B>(x: Seq<A>, y: Seq<A>, f: spec_fn(A) -> B)
    requires
        x.to_multiset() == y.to_multiset(),
    ensures
        x.map_values(f).to_multiset() == y.map_values(f).to_multiset(),
    decreases x.len(),
{
    broadcast use vstd::multiset::group_multiset_axioms;
    x.to_multiset_ensures();
    y.to_multiset_ensures();
    if x.len() == 0 {
        assert(y.len() == 0);
        assert(x.map_values(f) =~= Seq::<B>::empty());
        assert(y.map_values(f) =~= Seq::<B>::empty());
    } else {
        let e = x.last();
        assert(x.contains(e));
        assert(x.to_multiset().count(e) > 0);
        assert(y.to_multiset().count(e) > 0);
        assert(y.contains(e));
        let i = choose|i: int| 0 <= i < y.len() && y[i] == e;
        let xs = x.drop_last();
        let ys = y.remove(i);
        assert(x =~= xs.push(e));
        xs.to_multiset_ensures();
        assert(xs.to_multiset() =~= x.to_multiset().remove(e));
        assert(ys.to_multiset() =~= y.to_multiset().remove(e));
        lemma_map_mset(xs, ys, f);
        assert(x.map_values(f) =~= xs.map_values(f).push(f(e)));
        xs.map_values(f).to_multiset_ensures();
        assert(y.map_values(f) =~= ys.map_values(f).insert(i, f(e)));
        lemma_insert_mset(ys.map_values(f), i, f(e));
    }
}

proof fn lemma_contains_transfer<A>(x: Seq<A>, y: Seq<A>, e: A)
    requires
        x.to_multiset() == y.to_multiset(),
        y.contains(e),
    ensures
        x.contains(e),
{
    x.to_multiset_ensures();
    y.to_multiset_ensures();
    assert(y.to_multiset().count(e) > 0);
    assert(x.to_multiset().count(e) > 0);
}

/// One quarter turn in integers, followed by a shift.
pub open spec fn turn_shift(e: (int, int, Color), a: int, b: int) -> (int, int, Color) {
    (-e.1 + a, e.0 + b, e.2)
}

/// The canonical form of a turned bounded pattern is the turn, shifted, in integers.
proof fn lemma_turn_step(x: Seq<(Coord, Color)>, r: Seq<(Coord, Color)>) -> (d: (int, int))
    requires
        bounded(x),
        x.len() > 0,
        canonical_of(turned(x), r),
    ensures
        ipts(r).to_multiset() == ipts(x).map_values(|e: (int, int, Color)| turn_shift(e, d.0, d.1)).to_multiset(),
        forall|k: int| 0 <= k < r.len() ==> 0 <= (#[trigger] r[k]).0.i && 0 <= r[k].0.j,
        exists|k: int| 0 <= k < r.len() && (#[trigger] r[k]).0.i == 0,
        exists|k: int| 0 <= k < r.len() && (#[trigger] r[k]).0.j == 0,
{
    let t = turned(x);
    let (lo_i, lo_j) = choose|lo_i: int, lo_j: int|
        is_min_i(t, lo_i) && is_min_j(t, lo_j) && sorted_by(r, entry_order())
            && r.to_multiset() == #[trigger] shifted(t, -lo_i, -lo_j).to_multiset();
    let sh = shifted(t, -lo_i, -lo_j);
    let qi = choose|q: int| 0 <= q < t.len() && t[q].0.i == lo_i;
    let qj = choose|q: int| 0 <= q < t.len() && t[q].0.j == lo_j;
    lemma_map_mset(r, sh, |e: (Coord, Color)| ient(e));
    let g = |e: (int, int, Color)| turn_shift(e, -lo_i, -lo_j);
    assert forall|k: int| 0 <= k < x.len() implies #[trigger] ipts(sh)[k] == ipts(x).map_values(g)[k] by {
        assert(-COORD_LIMIT <= x[k].0.i - x[qj].0.i <= COORD_LIMIT);
        assert(-COORD_LIMIT <= x[k].0.j - x[qi].0.j <= COORD_LIMIT);
    }
    assert(ipts(sh) =~= ipts(x).map_values(g));
    assert forall|k: int| 0 <= k < r.len() implies 0 <= (#[trigger] r[k]).0.i && 0 <= r[k].0.j by {
        assert(r.contains(r[k]));
        lemma_contains_transfer(sh, r, r[k]);
        let q = choose|q: int| 0 <= q < sh.len() && sh[q] == r[k];
        assert(-COORD_LIMIT <= x[q].0.j - x[qi].0.j <= COORD_LIMIT);
        assert(-COORD_LIMIT <= x[q].0.i - x[qj].0.i <= COORD_LIMIT);
    }
    assert(-COORD_LIMIT <= x[qi].0.i - x[qj].0.i <= COORD_LIMIT);
    assert(sh.contains(sh[qi]));
    lemma_contains_transfer(r, sh, sh[qi]);
    assert(sh[qi].0.i == 0);
    assert(-COORD_LIMIT <= x[qj].0.j - x[qi].0.j <= COORD_LIMIT);
    assert(sh.contains(sh[qj]));
    lemma_contains_transfer(r, sh, sh[qj]);
    assert(sh[qj].0.j == 0);
    (-lo_i, -lo_j)
}

pub open spec fn shift_by(e: (int, int, Color), a: int, b: int) -> (int, int, Color) {
    (e.0 + a, e.1 + b, e.2)
}

/// The canonical form of a bounded pattern is the pattern shifted, in integers.
proof fn lemma_shift_step(x: Seq<(Coord, Color)>, r: Seq<(Coord, Color)>) -> (d: (int, int))
    requires
        bounded(x),
        x.len() > 0,
        canonical_of(x, r),
    ensures
        ipts(r).to_multiset() == ipts(x).map_values(|e: (int, int, Color)| shift_by(e, d.0, d.1)).to_multiset(),
        sorted_by(r, entry_order()),
        is_min_i(x, -d.0),
        is_min_j(x, -d.1),
{
    let (lo_i, lo_j) = choose|lo_i: int, lo_j: int|
        is_min_i(x, lo_i) && is_min_j(x, lo_j) && sorted_by(r, entry_order())
            && r.to_multiset() == #[trigger] shifted(x, -lo_i, -lo_j).to_multiset();
    let sh = shifted(x, -lo_i, -lo_j);
    let qi = choose|q: int| 0 <= q < x.len() && x[q].0.i == lo_i;
    let qj = choose|q: int| 0 <= q < x.len() && x[q].0.j == lo_j;
    lemma_map_mset(r, sh, |e: (Coord, Color)| ient(e));
    let g = |e: (int, int, Color)| shift_by(e, -lo_i, -lo_j);
    assert forall|k: int| 0 <= k < x.len() implies #[trigger] ipts(sh)[k] == ipts(x).map_values(g)[k] by {
        assert(-COORD_LIMIT <= x[k].0.i - x[qi].0.i <= COORD_LIMIT);
        assert(-COORD_LIMIT <= x[k].0.j - x[qj].0.j <= COORD_LIMIT);
    }
    assert(ipts(sh) =~= ipts(x).map_values(g));
    (-lo_i, -lo_j)
}

proof fn lemma_sorted_of(x: Seq<(Coord, Color)>, r: Seq<(Coord, Color)>)
    requires
        canonical_of(x, r),
    ensures
        sorted_by(r, entry_order()),
{
}

/// Four quarter turns bring a pattern back to its canonical form: if `r1` to `r4` are
/// what `rotate` returns for `p`, `r1`, `r2` and `r3`, and `c` is the canonical form of
/// `p`, then `r4` and `c` are equal.
pub proof fn lemma_four_turns(
    p: GridPattern,
    r1: GridPattern,
    r2: GridPattern,
    r3: GridPattern,
    r4: GridPattern,
    c: Seq<(Coord, Color)>,
)
    requires
        p.valid(),
        canonical_of(turned(p.pattern@), r1.pattern@),
        r1.valid(),
        canonical_of(turned(r1.pattern@), r2.pattern@),
        r2.valid(),
        canonical_of(turned(r2.pattern@), r3.pattern@),
        r3.valid(),
        canonical_of(turned(r3.pattern@), r4.pattern@),
        canonical_of(p.pattern@, c),
    ensures
        r4.pattern@ == c,
{
    let s = p.pattern@;
    let x1 = r1.pattern@;
    let x2 = r2.pattern@;
    let x3 = r3.pattern@;
    let x4 = r4.pattern@;
    let d1 = lemma_turn_step(s, x1);
    let d2 = lemma_turn_step(x1, x2);
    let d3 = lemma_turn_step(x2, x3);
    let d4 = lemma_turn_step(x3, x4);
    let d0 = lemma_shift_step(s, c);
    lemma_sorted_of(turned(x3), x4);
    let g1 = |e: (int, int, Color)| turn_shift(e, d1.0, d1.1);
    let g2 = |e: (int, int, Color)| turn_shift(e, d2.0, d2.1);
    let g3 = |e: (int, int, Color)| turn_shift(e, d3.0, d3.1);
    let g4 = |e: (int, int, Color)| turn_shift(e, d4.0, d4.1);
    let a = d1.1 - d2.0 - d3.1 + d4.0;
    let b = -d1.0 - d2.1 + d3.0 + d4.1;
    let w = ipts(s).map_values(|e: (int, int, Color)| shift_by(e, a, b));
    // Carry the multiset equality back through the four steps.
    let m1 = ipts(s).map_values(g1);
    lemma_map_mset(ipts(x1), m1, g2);
    let m2 = m1.map_values(g2);
    lemma_map_mset(ipts(x2), m2, g3);
    let m3 = m2.map_values(g3);
    lemma_map_mset(ipts(x3), m3, g4);
    let m4 = m3.map_values(g4);
    assert(m4 =~= w);
    assert(ipts(x4).to_multiset() == w.to_multiset());
    // The shifts agree: both put the least row and column at 0.
    assert forall|k: int| 0 <= k < s.len() implies (#[trigger] s[k]).0.i + a >= 0 && s[k].0.j + b >= 0 by {
        assert(w.contains(w[k]));
        lemma_contains_transfer(ipts(x4), w, w[k]);
        let q = choose|q: int| 0 <= q < x4.len() && ipts(x4)[q] == w[k];
        assert(0 <= x4[q].0.i && 0 <= x4[q].0.j);
    }
    let qi = choose|k: int| 0 <= k < x4.len() && (#[trigger] x4[k]).0.i == 0;
    let qj = choose|k: int| 0 <= k < x4.len() && (#[trigger] x4[k]).0.j == 0;
    assert(ipts(x4).contains(ipts(x4)[qi]));
    lemma_contains_transfer(w, ipts(x4), ipts(x4)[qi]);
    assert(ipts(x4).contains(ipts(x4)[qj]));
    lemma_contains_transfer(w, ipts(x4), ipts(x4)[qj]);
    let ki = choose|k: int| 0 <= k < w.len() && w[k] == ipts(x4)[qi];
    let kj = choose|k: int| 0 <= k < w.len() && w[k] == ipts(x4)[qj];
    let pi = choose|q: int| 0 <= q < s.len() && s[q].0.i == -d0.0;
    let pj = choose|q: int| 0 <= q < s.len() && s[q].0.j == -d0.1;
    assert(s[pi].0.i + a >= 0);
    assert(s[ki].0.i >= -d0.0);
    assert(s[pj].0.j + b >= 0);
    assert(s[kj].0.j >= -d0.1);
    assert(a == d0.0);
    assert(b == d0.1);
    assert(w =~= ipts(s).map_values(|e: (int, int, Color)| shift_by(e, d0.0, d0.1)));
    // Both are sorted with the same elements.
    assert(sorted_by(ipts(x4), iorder())) by {
        assert forall|u: int, v: int| 0 <= u < v < ipts(x4).len() implies #[trigger] (iorder())(
            ipts(x4)[u],
            ipts(x4)[v],
        ) by {
            assert((entry_order())(x4[u], x4[v]));
        }
    }
    assert(sorted_by(ipts(c), iorder())) by {
        assert forall|u: int, v: int| 0 <= u < v < ipts(c).len() implies #[trigger] (iorder())(
            ipts(c)[u],
            ipts(c)[v],
        ) by {
            assert((entry_order())(c[u], c[v]));
        }
    }
    lemma_iorder_total();
    vstd::seq_lib::lemma_sorted_unique(ipts(x4), ipts(c), iorder());
    assert forall|k: int| 0 <= k < x4.len() implies x4[k] == c[k] by {
        assert(ipts(x4)[k] == ipts(c)[k]);
    }
    assert(x4 =~= c);
}

proof fn lemma_turned_bounded(x: Seq<(Coord, Color)>)
    requires
        bounded(x),
    ensures
        bounded(turned(x)),
{
    let t = turned(x);
    assert forall|a: int, b: int| 0 <= a < t.len() && 0 <= b < t.len() implies -COORD_LIMIT
        <= (#[trigger] t[a]).0.i - (#[trigger] t[b]).0.i <= COORD_LIMIT && -COORD_LIMIT <= t[a].0.j
        - t[b].0.j <= COORD_LIMIT by {
        assert(-COORD_LIMIT <= x[a].0.j - x[b].0.j <= COORD_LIMIT);
        assert(-COORD_LIMIT <= x[a].0.i - x[b].0.i <= COORD_LIMIT);
    }
}

proof fn lemma_mirrored_bounded(x: Seq<(Coord, Color)>)
    requires
        bounded(x),
    ensures
        bounded(mirrored(x)),
{
    let t = mirrored(x);
    assert forall|a: int, b: int| 0 <= a < t.len() && 0 <= b < t.len() implies -COORD_LIMIT
        <= (#[trigger] t[a]).0.i - (#[trigger] t[b]).0.i <= COORD_LIMIT && -COORD_LIMIT <= t[a].0.j
        - t[b].0.j <= COORD_LIMIT by {
        assert(-COORD_LIMIT <= x[a].0.j - x[b].0.j <= COORD_LIMIT);
        assert(-COORD_LIMIT <= x[a].0.i - x[b].0.i <= COORD_LIMIT);
    }
}

proof fn lemma_isorted(r: Seq<(Coord, Color)>)
    requires
        sorted_by(r, entry_order()),
    ensures
        sorted_by(ipts(r), iorder()),
{
    assert forall|u: int, v: int| 0 <= u < v < ipts(r).len() implies #[trigger] (iorder())(
        ipts(r)[u],
        ipts(r)[v],
    ) by {
        assert((entry_order())(r[u], r[v]));
    }
}

/// A bounded pattern has one canonical form.
pub proof fn lemma_canonical_unique(s: Seq<(Coord, Color)>, r1: Seq<(Coord, Color)>, r2: Seq<(Coord, Color)>)
    requires
        bounded(s),
        s.len() > 0,
        canonical_of(s, r1),
        canonical_of(s, r2),
    ensures
        r1 == r2,
{
    let d1 = lemma_shift_step(s, r1);
    let d2 = lemma_shift_step(s, r2);
    let p1 = choose|q: int| 0 <= q < s.len() && s[q].0.i == -d1.0;
    let p2 = choose|q: int| 0 <= q < s.len() && s[q].0.i == -d2.0;
    let q1 = choose|q: int| 0 <= q < s.len() && s[q].0.j == -d1.1;
    let q2 = choose|q: int| 0 <= q < s.len() && s[q].0.j == -d2.1;
    assert(s[p1].0.i >= -d2.0 && s[p2].0.i >= -d1.0);
    assert(s[q1].0.j >= -d2.1 && s[q2].0.j >= -d1.1);
    assert(d1 == d2);
    lemma_isorted(r1);
    lemma_isorted(r2);
    lemma_iorder_total();
    vstd::seq_lib::lemma_sorted_unique(ipts(r1), ipts(r2), iorder());
    assert forall|k: int| 0 <= k < r1.len() implies r1[k] == r2[k] by {
        assert(ipts(r1)[k] == ipts(r2)[k]);
    }
    assert(r1 =~= r2);
}

/// The quarter turns and mirror images listed by `all_rotations_and_reflections` are
/// determined by the pattern: two trails of one valid pattern agree.
pub proof fn lemma_trail_unique(
    p: Seq<(Coord, Color)>,
    cur1: Seq<Seq<(Coord, Color)>>,
    refl1: Seq<Seq<(Coord, Color)>>,
    cur2: Seq<Seq<(Coord, Color)>>,
    refl2: Seq<Seq<(Coord, Color)>>,
)
    requires
        bounded(p),
        p.len() > 0,
        dihedral_trail(p, cur1, refl1),
        dihedral_trail(p, cur2, refl2),
    ensures
        cur1 == cur2,
        refl1 == refl2,
{
    assert forall|k: int| 0 <= k < 4 implies #[trigger] cur1[k] == cur2[k] by {
        lemma_trail_prefix(p, cur1, refl1, cur2, refl2, k);
    }
    assert(cur1 =~= cur2);
    assert forall|k: int| 0 <= k < 4 implies #[trigger] refl1[k] == refl2[k] by {
        lemma_mirrored_bounded(cur1[k]);
        lemma_canonical_unique(mirrored(cur1[k]), refl1[k], refl2[k]);
    }
    assert(refl1 =~= refl2);
}

proof fn lemma_trail_prefix(
    p: Seq<(Coord, Color)>,
    cur1: Seq<Seq<(Coord, Color)>>,
    refl1: Seq<Seq<(Coord, Color)>>,
    cur2: Seq<Seq<(Coord, Color)>>,
    refl2: Seq<Seq<(Coord, Color)>>,
    k: int,
)
    requires
        bounded(p),
        p.len() > 0,
        dihedral_trail(p, cur1, refl1),
        dihedral_trail(p, cur2, refl2),
        0 <= k < 4,
    ensures
        cur1[k] == cur2[k],
    decreases k,
{
    if k == 0 {
        lemma_canonical_unique(p, cur1[0], cur2[0]);
    } else {
        lemma_trail_prefix(p, cur1, refl1, cur2, refl2, k - 1);
        let j = k - 1;
        assert(bounded(cur1[j]) && cur1[j].len() > 0);
        lemma_turned_bounded(cur1[j]);
        assert(canonical_of(turned(cur1[j]), cur1[j + 1]));
        assert(canonical_of(turned(cur2[j]), cur2[j + 1]));
        lemma_canonical_unique(turned(cur1[j]), cur1[k], cur2[k]);
    }
}

} // verus!

