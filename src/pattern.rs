use vstd::prelude::*;
use vstd::relations::sorted_by;
use crate::grid::{Color, Coord};

verus! {

/// Bound on pattern coordinates and on their spread. Rotating, reflecting and
/// canonicalizing subtract one coordinate from another, and the difference of two values
/// within this bound must fit `isize` on every target, including 32-bit ones: this is the
/// largest bound for which `2 * COORD_LIMIT <= i32::MAX`.
pub const COORD_LIMIT: isize = 1073741823;

/// A shaped pattern: cells at relative coordinates, each with a required color.
#[derive(Clone, Debug)]
pub struct GridPattern {
    pub pattern: Vec<(Coord, Color)>,
}

pub open spec fn color_rank(c: Color) -> int {
    match c {
        Color::Light => 0,
        Color::Dark => 1,
    }
}

/// Order of pattern entries: by row, then column, then color (Light first).
pub open spec fn entry_le(a: (Coord, Color), b: (Coord, Color)) -> bool {
    a.0.i < b.0.i || (a.0.i == b.0.i && (a.0.j < b.0.j || (a.0.j == b.0.j && color_rank(a.1)
        <= color_rank(b.1))))
}

pub open spec fn entry_order() -> spec_fn((Coord, Color), (Coord, Color)) -> bool {
    |a: (Coord, Color), b: (Coord, Color)| entry_le(a, b)
}

/// The entries are bounded and spread by at most `COORD_LIMIT` in each axis.
pub open spec fn bounded(s: Seq<(Coord, Color)>) -> bool {
    &&& forall|k: int|
        0 <= k < s.len() ==> -COORD_LIMIT <= (#[trigger] s[k]).0.i <= COORD_LIMIT && -COORD_LIMIT
            <= s[k].0.j <= COORD_LIMIT
    &&& forall|a: int, b: int|
        0 <= a < s.len() && 0 <= b < s.len() ==> -COORD_LIMIT <= (#[trigger] s[a]).0.i
            - (#[trigger] s[b]).0.i <= COORD_LIMIT && -COORD_LIMIT <= s[a].0.j - s[b].0.j
            <= COORD_LIMIT
}

pub open spec fn shift_entry(e: (Coord, Color), di: int, dj: int) -> (Coord, Color) {
    (Coord { i: (e.0.i + di) as isize, j: (e.0.j + dj) as isize }, e.1)
}

/// Every entry moved by `(di, dj)`.
pub open spec fn shifted(s: Seq<(Coord, Color)>, di: int, dj: int) -> Seq<(Coord, Color)> {
    s.map_values(|e: (Coord, Color)| shift_entry(e, di, dj))
}

/// Every entry turned a quarter: `(i, j)` to `(-j, i)`.
pub open spec fn turned(s: Seq<(Coord, Color)>) -> Seq<(Coord, Color)> {
    s.map_values(|e: (Coord, Color)| (Coord { i: (-e.0.j) as isize, j: e.0.i }, e.1))
}

/// Every entry mirrored: `(i, j)` to `(-i, j)`.
pub open spec fn mirrored(s: Seq<(Coord, Color)>) -> Seq<(Coord, Color)> {
    s.map_values(|e: (Coord, Color)| (Coord { i: (-e.0.i) as isize, j: e.0.j }, e.1))
}

/// `lo` is the least row of the entries.
pub open spec fn is_min_i(s: Seq<(Coord, Color)>, lo: int) -> bool {
    &&& exists|k: int| 0 <= k < s.len() && s[k].0.i == lo
    &&& forall|k: int| 0 <= k < s.len() ==> lo <= (#[trigger] s[k]).0.i
}

/// `lo` is the least column of the entries.
pub open spec fn is_min_j(s: Seq<(Coord, Color)>, lo: int) -> bool {
    &&& exists|k: int| 0 <= k < s.len() && s[k].0.j == lo
    &&& forall|k: int| 0 <= k < s.len() ==> lo <= (#[trigger] s[k]).0.j
}

/// `r` is the canonical form of `s`: the entries of `s` moved so that the least row and the
/// least column are 0, in ascending entry order.
pub open spec fn canonical_of(s: Seq<(Coord, Color)>, r: Seq<(Coord, Color)>) -> bool {
    exists|lo_i: int, lo_j: int|
        is_min_i(s, lo_i) && is_min_j(s, lo_j) && sorted_by(r, entry_order())
            && r.to_multiset() == #[trigger] shifted(s, -lo_i, -lo_j).to_multiset()
}

fn entry_le_exec(a: (Coord, Color), b: (Coord, Color)) -> (r: bool)
    ensures
        r == entry_le(a, b),
{
    let ra: u8 = match a.1 {
        Color::Light => 0,
        Color::Dark => 1,
    };
    let rb: u8 = match b.1 {
        Color::Light => 0,
        Color::Dark => 1,
    };
    a.0.i < b.0.i || (a.0.i == b.0.i && (a.0.j < b.0.j || (a.0.j == b.0.j && ra <= rb)))
}

proof fn lemma_entry_le_total()
    ensures
        forall|a: (Coord, Color), b: (Coord, Color)| entry_le(a, b) || entry_le(b, a),
        forall|a: (Coord, Color), b: (Coord, Color), c: (Coord, Color)|
            entry_le(a, b) && entry_le(b, c) ==> entry_le(a, c),
        forall|a: (Coord, Color), b: (Coord, Color)| entry_le(a, b) && entry_le(b, a) ==> a == b,
{
    assert forall|a: (Coord, Color), b: (Coord, Color)| entry_le(a, b) && entry_le(b, a) implies a
        == b by {
        assert(color_rank(a.1) == color_rank(b.1));
        assert(a.1 == b.1);
    }
}

/// The same entries in ascending entry order.
fn sort_entries(v: Vec<(Coord, Color)>) -> (r: Vec<(Coord, Color)>)
    ensures
        sorted_by(r@, entry_order()),
        r@.to_multiset() == v@.to_multiset(),
{
    broadcast use vstd::seq_lib::group_to_multiset_ensures;
    proof {
        lemma_entry_le_total();
    }
    let mut res: Vec<(Coord, Color)> = Vec::new();
    let mut k: usize = 0;
    while k < v.len()
        invariant
            k <= v@.len(),
            sorted_by(res@, entry_order()),
            res@.to_multiset() == v@.subrange(0, k as int).to_multiset(),
        decreases v.len() - k,
    {
        let x = v[k];
        let mut pos: usize = 0;
        while pos < res.len() && entry_le_exec(res[pos], x)
            invariant
                pos <= res@.len(),
                forall|q: int| 0 <= q < pos ==> entry_le(#[trigger] res@[q], x),
            decreases res.len() - pos,
        {
            pos += 1;
        }
        let ghost before = res@;
        res.insert(pos, x);
        proof {
            let a_part = before.subrange(0, pos as int);
            let b_part = before.subrange(pos as int, before.len() as int);
            assert(res@ =~= a_part + seq![x] + b_part);
            assert(before =~= a_part + b_part);
            assert(a_part + seq![x] =~= a_part.push(x));
            vstd::seq_lib::lemma_multiset_commutative(a_part + seq![x], b_part);
            vstd::seq_lib::lemma_multiset_commutative(a_part, b_part);
            a_part.to_multiset_ensures();
            v@.subrange(0, k as int).to_multiset_ensures();
            assert(a_part.push(x).to_multiset() == a_part.to_multiset().insert(x));
            assert(res@.to_multiset() == a_part.to_multiset().insert(x).add(b_part.to_multiset()));
            assert(before.to_multiset() == a_part.to_multiset().add(b_part.to_multiset()));
            assert(res@.to_multiset() =~= before.to_multiset().insert(x)) by {
                broadcast use vstd::multiset::group_multiset_axioms;
            }
            assert(v@.subrange(0, k + 1) =~= v@.subrange(0, k as int).push(x));
            assert forall|a: int, b: int| 0 <= a < b < res@.len() implies #[trigger] (entry_order())(
                res@[a],
                res@[b],
            ) by {
                if pos < before.len() {
                    assert(!entry_le(before[pos as int], x));
                }
                if a < pos && b == pos {
                } else if a < pos && b > pos {
                    assert((entry_order())(before[a], before[b - 1]));
                } else if a == pos && b > pos {
                    assert((entry_order())(before[pos as int], before[b - 1]) || b - 1 == pos);
                } else if a > pos {
                    assert((entry_order())(before[a - 1], before[b - 1]));
                } else {
                    assert((entry_order())(before[a], before[b]));
                }
            }
        }
        k += 1;
    }
    assert(v@.subrange(0, v@.len() as int) =~= v@);
    res
}

proof fn lemma_bounded_perm(a: Seq<(Coord, Color)>, b: Seq<(Coord, Color)>)
    requires
        bounded(b),
        a.to_multiset() == b.to_multiset(),
    ensures
        bounded(a),
        a.len() == b.len(),
{
    a.to_multiset_ensures();
    b.to_multiset_ensures();
    assert forall|k: int| 0 <= k < a.len() implies exists|q: int| 0 <= q < b.len() && b[q] == #[trigger] a[k] by {
        assert(a.contains(a[k]));
        assert(a.to_multiset().count(a[k]) > 0);
        assert(b.to_multiset().count(a[k]) > 0);
        assert(b.contains(a[k]));
    }
    assert forall|k: int| 0 <= k < a.len() implies -COORD_LIMIT <= (#[trigger] a[k]).0.i
        <= COORD_LIMIT && -COORD_LIMIT <= a[k].0.j <= COORD_LIMIT by {
        let q = choose|q: int| 0 <= q < b.len() && b[q] == a[k];
        assert(b[q] == a[k]);
    }
    assert forall|x: int, y: int| 0 <= x < a.len() && 0 <= y < a.len() implies -COORD_LIMIT <= (
    #[trigger] a[x]).0.i - (#[trigger] a[y]).0.i <= COORD_LIMIT && -COORD_LIMIT <= a[x].0.j
        - a[y].0.j <= COORD_LIMIT by {
        let qx = choose|q: int| 0 <= q < b.len() && b[q] == a[x];
        let qy = choose|q: int| 0 <= q < b.len() && b[q] == a[y];
        assert(b[qx] == a[x] && b[qy] == a[y]);
    }
}

impl GridPattern {
    /// A pattern has at least one entry, and bounded coordinates.
    pub open spec fn valid(&self) -> bool {
        self.pattern@.len() > 0 && bounded(self.pattern@)
    }

    /// The 2×2 block with colors `a`, `b` on top and `c`, `d` below.
    pub fn square2x2(a: Color, b: Color, c: Color, d: Color) -> (r: GridPattern)
        ensures
            r.pattern@ == seq![
                (Coord { i: 0, j: 0 }, a),
                (Coord { i: 0, j: 1 }, b),
                (Coord { i: 1, j: 0 }, c),
                (Coord { i: 1, j: 1 }, d),
            ],
            r.valid(),
    {
        let r = GridPattern {
            pattern: vec![
                (Coord { i: 0, j: 0 }, a),
                (Coord { i: 0, j: 1 }, b),
                (Coord { i: 1, j: 0 }, c),
                (Coord { i: 1, j: 1 }, d),
            ],
        };
        assert(bounded(r.pattern@));
        r
    }

    /// Moves the pattern so that its least row and column are 0, and orders its entries.
    fn canonicalize(self) -> (r: GridPattern)
        requires
            self.valid(),
        ensures
            canonical_of(self.pattern@, r.pattern@),
            r.valid(),
            r.pattern@.len() == self.pattern@.len(),
    {
        let GridPattern { pattern } = self;
        let mut min_x: isize = pattern[0].0.i;
        let mut min_y: isize = pattern[0].0.j;
        let mut k: usize = 1;
        while k < pattern.len()
            invariant
                1 <= k <= pattern@.len(),
                exists|q: int| 0 <= q < k && pattern@[q].0.i == min_x,
                exists|q: int| 0 <= q < k && pattern@[q].0.j == min_y,
                forall|q: int| 0 <= q < k ==> min_x <= (#[trigger] pattern@[q]).0.i,
                forall|q: int| 0 <= q < k ==> min_y <= (#[trigger] pattern@[q]).0.j,
            decreases pattern.len() - k,
        {
            if pattern[k].0.i < min_x {
                min_x = pattern[k].0.i;
            }
            if pattern[k].0.j < min_y {
                min_y = pattern[k].0.j;
            }
            k += 1;
        }
        let ghost s = pattern@;
        let mut moved: Vec<(Coord, Color)> = Vec::new();
        let mut k: usize = 0;
        while k < pattern.len()
            invariant
                s == pattern@,
                bounded(s),
                k <= s.len(),
                exists|q: int| 0 <= q < s.len() && s[q].0.i == min_x,
                exists|q: int| 0 <= q < s.len() && s[q].0.j == min_y,
                moved@ == shifted(s, -min_x, -min_y).subrange(0, k as int),
            decreases pattern.len() - k,
        {
            let (c, col) = pattern[k];
            proof {
                let qx = choose|q: int| 0 <= q < s.len() && s[q].0.i == min_x;
                let qy = choose|q: int| 0 <= q < s.len() && s[q].0.j == min_y;
                assert(-COORD_LIMIT <= s[k as int].0.i - s[qx].0.i <= COORD_LIMIT);
                assert(-COORD_LIMIT <= s[k as int].0.j - s[qy].0.j <= COORD_LIMIT);
            }
            moved.push((Coord { i: c.i - min_x, j: c.j - min_y }, col));
            proof {
                assert(moved@ =~= shifted(s, -min_x, -min_y).subrange(0, k + 1));
            }
            k += 1;
        }
        let ghost t = shifted(s, -min_x, -min_y);
        assert(moved@ =~= t);
        proof {
            assert forall|q: int| 0 <= q < t.len() implies -COORD_LIMIT <= (#[trigger] t[q]).0.i
                <= COORD_LIMIT && -COORD_LIMIT <= t[q].0.j <= COORD_LIMIT by {
                let qx = choose|q: int| 0 <= q < s.len() && s[q].0.i == min_x;
                let qy = choose|q: int| 0 <= q < s.len() && s[q].0.j == min_y;
                assert(-COORD_LIMIT <= s[q].0.i - s[qx].0.i <= COORD_LIMIT);
                assert(-COORD_LIMIT <= s[q].0.j - s[qy].0.j <= COORD_LIMIT);
            }
            assert forall|a: int, b: int| 0 <= a < t.len() && 0 <= b < t.len() implies -COORD_LIMIT
                <= (#[trigger] t[a]).0.i - (#[trigger] t[b]).0.i <= COORD_LIMIT && -COORD_LIMIT
                <= t[a].0.j - t[b].0.j <= COORD_LIMIT by {
                assert(-COORD_LIMIT <= s[a].0.i - s[b].0.i <= COORD_LIMIT);
            }
        }
        let sorted = sort_entries(moved);
        proof {
            lemma_bounded_perm(sorted@, t);
            assert(is_min_i(s, min_x as int) && is_min_j(s, min_y as int));
        }
        GridPattern { pattern: sorted }
    }

    /// The pattern turned a quarter, `(i, j)` to `(-j, i)`, in canonical form.
    pub fn rotate(&self) -> (r: GridPattern)
        requires
            self.valid(),
        ensures
            canonical_of(turned(self.pattern@), r.pattern@),
            r.valid(),
            r.pattern@.len() == self.pattern@.len(),
    {
        let mut pattern: Vec<(Coord, Color)> = Vec::new();
        let mut k: usize = 0;
        while k < self.pattern.len()
            invariant
                self.valid(),
                k <= self.pattern@.len(),
                pattern@ == turned(self.pattern@).subrange(0, k as int),
            decreases self.pattern.len() - k,
        {
            let (c, col) = self.pattern[k];
            pattern.push((Coord { i: -c.j, j: c.i }, col));
            assert(pattern@ =~= turned(self.pattern@).subrange(0, k + 1));
            k += 1;
        }
        assert(pattern@ =~= turned(self.pattern@));
        let ghost s = self.pattern@;
        let ghost t = turned(s);
        assert(bounded(t)) by {
            assert forall|a: int, b: int| 0 <= a < t.len() && 0 <= b < t.len() implies -COORD_LIMIT
                <= (#[trigger] t[a]).0.i - (#[trigger] t[b]).0.i <= COORD_LIMIT && -COORD_LIMIT
                <= t[a].0.j - t[b].0.j <= COORD_LIMIT by {
                assert(-COORD_LIMIT <= s[a].0.j - s[b].0.j <= COORD_LIMIT);
                assert(-COORD_LIMIT <= s[a].0.i - s[b].0.i <= COORD_LIMIT);
            }
        }
        GridPattern { pattern }.canonicalize()
    }

    /// The pattern mirrored, `(i, j)` to `(-i, j)`, in canonical form.
    pub fn reflect(&self) -> (r: GridPattern)
        requires
            self.valid(),
        ensures
            canonical_of(mirrored(self.pattern@), r.pattern@),
            r.valid(),
            r.pattern@.len() == self.pattern@.len(),
    {
        let mut pattern: Vec<(Coord, Color)> = Vec::new();
        let mut k: usize = 0;
        while k < self.pattern.len()
            invariant
                self.valid(),
                k <= self.pattern@.len(),
                pattern@ == mirrored(self.pattern@).subrange(0, k as int),
            decreases self.pattern.len() - k,
        {
            let (c, col) = self.pattern[k];
            pattern.push((Coord { i: -c.i, j: c.j }, col));
            assert(pattern@ =~= mirrored(self.pattern@).subrange(0, k + 1));
            k += 1;
        }
        assert(pattern@ =~= mirrored(self.pattern@));
        let ghost s = self.pattern@;
        let ghost t = mirrored(s);
        assert(bounded(t)) by {
            assert forall|a: int, b: int| 0 <= a < t.len() && 0 <= b < t.len() implies -COORD_LIMIT
                <= (#[trigger] t[a]).0.i - (#[trigger] t[b]).0.i <= COORD_LIMIT && -COORD_LIMIT
                <= t[a].0.j - t[b].0.j <= COORD_LIMIT by {
                assert(-COORD_LIMIT <= s[a].0.j - s[b].0.j <= COORD_LIMIT);
                assert(-COORD_LIMIT <= s[a].0.i - s[b].0.i <= COORD_LIMIT);
            }
        }
        GridPattern { pattern }.canonicalize()
    }

    /// The pattern moved by `by`, without reordering.
    pub fn offset(&self, by: Coord) -> (r: GridPattern)
        requires
            forall|k: int|
                0 <= k < self.pattern@.len() ==> isize::MIN <= (#[trigger] self.pattern@[k]).0.i
                    + by.i <= isize::MAX && isize::MIN <= self.pattern@[k].0.j + by.j
                    <= isize::MAX,
        ensures
            r.pattern@ == shifted(self.pattern@, by.i as int, by.j as int),
    {
        let mut pattern: Vec<(Coord, Color)> = Vec::new();
        let mut k: usize = 0;
        while k < self.pattern.len()
            invariant
                forall|k: int|
                    0 <= k < self.pattern@.len() ==> isize::MIN <= (#[trigger] self.pattern@[k]).0.i
                        + by.i <= isize::MAX && isize::MIN <= self.pattern@[k].0.j + by.j
                        <= isize::MAX,
                k <= self.pattern@.len(),
                pattern@ == shifted(self.pattern@, by.i as int, by.j as int).subrange(0, k as int),
            decreases self.pattern.len() - k,
        {
            let (c, col) = self.pattern[k];
            pattern.push((Coord { i: c.i + by.i, j: c.j + by.j }, col));
            assert(pattern@ =~= shifted(self.pattern@, by.i as int, by.j as int).subrange(0, k + 1));
            k += 1;
        }
        assert(pattern@ =~= shifted(self.pattern@, by.i as int, by.j as int));
        GridPattern { pattern }
    }

    /// Whether both patterns list the same entries in the same order.
    pub fn same_as(&self, other: &GridPattern) -> (r: bool)
        ensures
            r == (self.pattern@ == other.pattern@),
    {
        if self.pattern.len() != other.pattern.len() {
            return false;
        }
        let mut k: usize = 0;
        while k < self.pattern.len()
            invariant
                self.pattern@.len() == other.pattern@.len(),
                k <= self.pattern@.len(),
                forall|q: int| 0 <= q < k ==> self.pattern@[q] == other.pattern@[q],
            decreases self.pattern.len() - k,
        {
            let (a, ca) = self.pattern[k];
            let (b, cb) = other.pattern[k];
            if a.i != b.i || a.j != b.j || ca != cb {
                return false;
            }
            k += 1;
        }
        assert(self.pattern@ =~= other.pattern@);
        true
    }

    /// Every distinct rotation and reflection of the pattern: for each of four quarter
    /// turns, the turned pattern and its mirror image, each kept once, in that order.
    pub fn all_rotations_and_reflections(&self) -> (r: Vec<GridPattern>)
        requires
            self.valid(),
        ensures
            exists|cur: Seq<Seq<(Coord, Color)>>, refl: Seq<Seq<(Coord, Color)>>|
                dihedral_trail(self.pattern@, cur, refl) && #[trigger] patterns_of(r@) == dedup(
                    candidates(cur, refl),
                ),
            1 <= r@.len() <= 8,
            canonical_of(self.pattern@, r@[0].pattern@),
            forall|k: int| 0 <= k < r@.len() ==> (#[trigger] r@[k]).valid(),
            forall|a: int, b: int|
                0 <= a < b < r@.len() ==> (#[trigger] r@[a]).pattern@ != (#[trigger] r@[b]).pattern@,
    {
        let mut result: Vec<GridPattern> = Vec::new();
        let mut current = self.clone_pattern().canonicalize();
        let ghost first = current.pattern@;
        let ghost mut cur: Seq<Seq<(Coord, Color)>> = seq![first];
        let ghost mut refl: Seq<Seq<(Coord, Color)>> = Seq::empty();
        let ghost mut cand: Seq<Seq<(Coord, Color)>> = Seq::empty();
        let mut turn: usize = 0;
        while turn < 4
            invariant
                turn <= 4,
                current.valid(),
                canonical_of(self.pattern@, first),
                turn == 0 ==> current.pattern@ == first,
                turn > 0 ==> 1 <= result@.len() && result@[0].pattern@ == first,
                result@.len() <= 2 * turn,
                forall|k: int| 0 <= k < result@.len() ==> (#[trigger] result@[k]).valid(),
                forall|a: int, b: int|
                    0 <= a < b < result@.len() ==> (#[trigger] result@[a]).pattern@ != (
                    #[trigger] result@[b]).pattern@,
                cur.len() == turn + 1,
                cur[0] == first,
                cur[turn as int] == current.pattern@,
                forall|k: int| 0 <= k <= turn ==> bounded(#[trigger] cur[k]) && cur[k].len() > 0,
                forall|k: int| 0 <= k < turn ==> canonical_of(turned(#[trigger] cur[k]), cur[k + 1]),
                refl.len() == turn,
                forall|k: int| 0 <= k < turn ==> canonical_of(mirrored(#[trigger] cur[k]), refl[k]),
                cand.len() == 2 * turn,
                forall|k: int| 0 <= k < turn ==> cand[2 * k] == #[trigger] cur[k] && cand[2 * k + 1] == refl[k],
                patterns_of(result@) == dedup(cand),
            decreases 4 - turn,
        {
            let ghost before = cand;
            if !contains_pattern(&result, &current) {
                result.push(current.clone_pattern());
                proof {
                    assert(!dedup(before).contains(current.pattern@)) by {
                        if dedup(before).contains(current.pattern@) {
                            let q = choose|q: int| 0 <= q < dedup(before).len() && dedup(before)[q] == current.pattern@;
                            assert(patterns_of(result@)[q] == result@[q].pattern@);
                        }
                    }
                }
            } else {
                proof {
                    let q = choose|q: int| 0 <= q < result@.len() && (#[trigger] result@[q]).pattern@ == current.pattern@;
                    assert(patterns_of(result@)[q] == current.pattern@);
                }
            }
            proof {
                cand = cand.push(current.pattern@);
                assert(cand.drop_last() =~= before);
                assert(patterns_of(result@) =~= dedup(cand));
            }
            let reflected = current.reflect();
            let ghost mid = cand;
            if !contains_pattern(&result, &reflected) {
                result.push(reflected);
                proof {
                    assert(!dedup(mid).contains(result@.last().pattern@)) by {
                        if dedup(mid).contains(result@.last().pattern@) {
                            let q = choose|q: int| 0 <= q < dedup(mid).len() && dedup(mid)[q] == result@.last().pattern@;
                            assert(patterns_of(result@)[q] == result@[q].pattern@);
                            assert(q < result@.len() - 1);
                        }
                    }
                }
            } else {
                proof {
                    let q = choose|q: int| 0 <= q < result@.len() && (#[trigger] result@[q]).pattern@ == reflected.pattern@;
                    assert(patterns_of(result@)[q] == reflected.pattern@);
                }
            }
            proof {
                cand = cand.push(reflected.pattern@);
                assert(cand.drop_last() =~= mid);
                assert(patterns_of(result@) =~= dedup(cand));
                refl = refl.push(reflected.pattern@);
            }
            current = current.rotate();
            proof {
                cur = cur.push(current.pattern@);
            }
            turn += 1;
        }
        proof {
            let cur4 = cur.subrange(0, 4);
            assert(candidates(cur4, refl) =~= cand) by {
                let (k0, k1, k2, k3) = (0int, 1int, 2int, 3int);
                assert(cand[2 * k0] == cur[k0] && cand[2 * k0 + 1] == refl[k0]);
                assert(cand[2 * k1] == cur[k1] && cand[2 * k1 + 1] == refl[k1]);
                assert(cand[2 * k2] == cur[k2] && cand[2 * k2 + 1] == refl[k2]);
                assert(cand[2 * k3] == cur[k3] && cand[2 * k3 + 1] == refl[k3]);
            }
            assert(dihedral_trail(self.pattern@, cur4, refl));
        }
        result
    }

    /// A copy with the same entries.
    pub fn clone_pattern(&self) -> (r: GridPattern)
        ensures
            r.pattern@ == self.pattern@,
    {
        let mut pattern: Vec<(Coord, Color)> = Vec::new();
        let mut k: usize = 0;
        while k < self.pattern.len()
            invariant
                k <= self.pattern@.len(),
                pattern@ == self.pattern@.subrange(0, k as int),
            decreases self.pattern.len() - k,
        {
            pattern.push(self.pattern[k]);
            assert(pattern@ =~= self.pattern@.subrange(0, k + 1));
            k += 1;
        }
        assert(pattern@ =~= self.pattern@);
        GridPattern { pattern }
    }
}

fn contains_pattern(v: &Vec<GridPattern>, p: &GridPattern) -> (r: bool)
    ensures
        r == exists|k: int| 0 <= k < v@.len() && (#[trigger] v@[k]).pattern@ == p.pattern@,
{
    let mut k: usize = 0;
    while k < v.len()
        invariant
            k <= v@.len(),
            forall|q: int| 0 <= q < k ==> (#[trigger] v@[q]).pattern@ != p.pattern@,
        decreases v.len() - k,
    {
        if v[k].same_as(p) {
            return true;
        }
        k += 1;
    }
    false
}

impl GridPattern {
    /// Whether the pattern has entries and its coordinates and their spread are within
    /// `COORD_LIMIT`.
    pub fn is_valid(&self) -> (r: bool)
        ensures
            r == self.valid(),
    {
        let n = self.pattern.len();
        if n == 0 {
            return false;
        }
        let mut k: usize = 0;
        while k < n
            invariant
                n == self.pattern@.len(),
                k <= n,
                forall|q: int|
                    0 <= q < k ==> -COORD_LIMIT <= (#[trigger] self.pattern@[q]).0.i <= COORD_LIMIT
                        && -COORD_LIMIT <= self.pattern@[q].0.j <= COORD_LIMIT,
            decreases n - k,
        {
            let c = self.pattern[k].0;
            if c.i < -COORD_LIMIT || c.i > COORD_LIMIT || c.j < -COORD_LIMIT || c.j > COORD_LIMIT {
                return false;
            }
            k += 1;
        }
        let mut a: usize = 0;
        while a < n
            invariant
                n == self.pattern@.len(),
                a <= n,
                forall|q: int|
                    0 <= q < n ==> -COORD_LIMIT <= (#[trigger] self.pattern@[q]).0.i <= COORD_LIMIT
                        && -COORD_LIMIT <= self.pattern@[q].0.j <= COORD_LIMIT,
                forall|x: int, y: int|
                    0 <= x < a && 0 <= y < n ==> -COORD_LIMIT <= (#[trigger] self.pattern@[x]).0.i
                        - (#[trigger] self.pattern@[y]).0.i <= COORD_LIMIT && -COORD_LIMIT
                        <= self.pattern@[x].0.j - self.pattern@[y].0.j <= COORD_LIMIT,
            decreases n - a,
        {
            let mut b: usize = 0;
            while b < n
                invariant
                    n == self.pattern@.len(),
                    a < n,
                    b <= n,
                    forall|q: int|
                        0 <= q < n ==> -COORD_LIMIT <= (#[trigger] self.pattern@[q]).0.i
                            <= COORD_LIMIT && -COORD_LIMIT <= self.pattern@[q].0.j <= COORD_LIMIT,
                    forall|x: int, y: int|
                        0 <= x < a && 0 <= y < n ==> -COORD_LIMIT <= (#[trigger] self.pattern@[x]).0.i
                            - (#[trigger] self.pattern@[y]).0.i <= COORD_LIMIT && -COORD_LIMIT
                            <= self.pattern@[x].0.j - self.pattern@[y].0.j <= COORD_LIMIT,
                    forall|y: int|
                        0 <= y < b ==> -COORD_LIMIT <= self.pattern@[a as int].0.i - (
                        #[trigger] self.pattern@[y]).0.i <= COORD_LIMIT && -COORD_LIMIT
                            <= self.pattern@[a as int].0.j - self.pattern@[y].0.j <= COORD_LIMIT,
                decreases n - b,
            {
                let p = self.pattern[a].0;
                let q = self.pattern[b].0;
                assert(-COORD_LIMIT <= self.pattern@[a as int].0.i <= COORD_LIMIT);
                assert(-COORD_LIMIT <= self.pattern@[b as int].0.i <= COORD_LIMIT);
                let di = p.i - q.i;
                let dj = p.j - q.j;
                if di < -COORD_LIMIT || di > COORD_LIMIT || dj < -COORD_LIMIT || dj > COORD_LIMIT {
                    return false;
                }
                b += 1;
            }
            a += 1;
        }
        true
    }
}

/// The entries of each pattern.
pub open spec fn patterns_of(v: Seq<GridPattern>) -> Seq<Seq<(Coord, Color)>> {
    v.map_values(|g: GridPattern| g.pattern@)
}

/// The first occurrence of each element, in order.
pub open spec fn dedup(s: Seq<Seq<(Coord, Color)>>) -> Seq<Seq<(Coord, Color)>>
    decreases s.len(),
{
    if s.len() == 0 {
        Seq::empty()
    } else {
        let d = dedup(s.drop_last());
        if d.contains(s.last()) {
            d
        } else {
            d.push(s.last())
        }
    }
}

/// `cur` holds the canonical form of `p` and its canonical quarter turns, one after another, and `refl[k]` is the
/// canonical mirror image of `cur[k]`.
pub open spec fn dihedral_trail(
    p: Seq<(Coord, Color)>,
    cur: Seq<Seq<(Coord, Color)>>,
    refl: Seq<Seq<(Coord, Color)>>,
) -> bool {
    &&& cur.len() == 4
    &&& refl.len() == 4
    &&& canonical_of(p, cur[0])
    &&& forall|k: int| 0 <= k < 4 ==> bounded(#[trigger] cur[k]) && cur[k].len() > 0
    &&& forall|k: int| 0 <= k < 3 ==> canonical_of(turned(#[trigger] cur[k]), cur[k + 1])
    &&& forall|k: int| 0 <= k < 4 ==> canonical_of(mirrored(#[trigger] cur[k]), refl[k])
}

/// Each quarter turn followed by its mirror image.
pub open spec fn candidates(
    cur: Seq<Seq<(Coord, Color)>>,
    refl: Seq<Seq<(Coord, Color)>>,
) -> Seq<Seq<(Coord, Color)>> {
    seq![cur[0], refl[0], cur[1], refl[1], cur[2], refl[2], cur[3], refl[3]]
}

} // verus!
