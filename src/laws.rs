use vstd::prelude::*;
use crate::constraints::{
    basic_ok, cell_ok, count_colored, count_led_by, holds_all, is_leader, region_leader,
    region_rank, region_size, rule_ok, same_color, steps_down_to, visible, visible_total,
    GridConstraints, Valuation,
};
use crate::grid::{prepared_from, row_major_lt, row_major_sorted, Color, Coord, Direction, Grid, SquareIndex};
use crate::prepare::{PreparedGrid, PreparedRule};

verus! {

pub open spec fn points_to(o: Option<SquareIndex>, n: int) -> bool {
    o matches Some(x) && x.0 as int == n
}

/// `n` is one of the recorded neighbours of `c`.
pub open spec fn adjacent(g: &PreparedGrid, c: int, n: int) -> bool {
    let s = g.squares@[c];
    points_to(s.left, n) || points_to(s.right, n) || points_to(s.above, n) || points_to(s.below, n)
}

/// A walk over neighbouring cells of one color whose rank drops by one at each step.
pub open spec fn descending_path(g: &PreparedGrid, m: Valuation, p: Seq<int>) -> bool {
    &&& p.len() >= 1
    &&& forall|k: int| 0 <= k < p.len() ==> 0 <= #[trigger] p[k] < g.num_cells()
    &&& forall|k: int|
        0 <= k < p.len() - 1 ==> {
            &&& adjacent(g, #[trigger] p[k], p[k + 1])
            &&& same_color(m, p[k], p[k + 1])
            &&& region_rank(m, p[k + 1]) < region_rank(m, p[k])
        }
}

/// Under the structural constraints, ranks are non-negative and a rank is zero exactly
/// at the cell that leads its region.
pub proof fn lemma_rank_marks_leader(g: &PreparedGrid, m: Valuation, c: int)
    requires
        g.wf(),
        basic_ok(g, m),
        0 <= c < g.num_cells(),
    ensures
        region_rank(m, c) >= 0,
        (region_rank(m, c) == 0) == is_leader(m, c),
{
    assert(cell_ok(g, m, c));
}

/// Under the structural constraints, two neighbouring cells have the same color exactly
/// when they have the same region leader.
pub proof fn lemma_neighbors_share_leader_iff_color(g: &PreparedGrid, m: Valuation, c: int, n: int)
    requires
        g.wf(),
        basic_ok(g, m),
        0 <= c < g.num_cells(),
        adjacent(g, c, n),
    ensures
        same_color(m, c, n) == (region_leader(m, c) == region_leader(m, n)),
        same_color(m, c, n) ==> (region_rank(m, c) - region_rank(m, n) == 1 || region_rank(m, n)
            - region_rank(m, c) == 1),
{
    let s = g.squares@[c];
    assert(cell_ok(g, m, c));
    if points_to(s.right, n) || points_to(s.below, n) {
    } else {
        assert(0 <= n < g.num_cells());
        assert(cell_ok(g, m, n));
    }
}

/// Under the structural constraints, every cell reaches its region leader by a walk over
/// same-colored neighbours with strictly decreasing rank.
pub proof fn lemma_path_to_leader(g: &PreparedGrid, m: Valuation, c: int) -> (p: Seq<int>)
    requires
        g.wf(),
        basic_ok(g, m),
        0 <= c < g.num_cells(),
    ensures
        descending_path(g, m, p),
        p[0] == c,
        p.last() == region_leader(m, c),
    decreases region_rank(m, c),
{
    assert(cell_ok(g, m, c));
    if region_rank(m, c) == 0 {
        seq![c]
    } else {
        let s = g.squares@[c];
        let n: int = if steps_down_to(m, c, s.left) {
            s.left.unwrap().0 as int
        } else if steps_down_to(m, c, s.right) {
            s.right.unwrap().0 as int
        } else if steps_down_to(m, c, s.above) {
            s.above.unwrap().0 as int
        } else {
            s.below.unwrap().0 as int
        };
        assert(adjacent(g, c, n));
        assert(0 <= n < g.num_cells());
        assert(same_color(m, c, n));
        assert(region_rank(m, c) == region_rank(m, n) + 1);
        lemma_neighbors_share_leader_iff_color(g, m, c, n);
        lemma_rank_marks_leader(g, m, n);
        let rest = lemma_path_to_leader(g, m, n);
        let p = seq![c] + rest;
        assert forall|k: int| 0 <= k < p.len() - 1 implies {
            &&& adjacent(g, #[trigger] p[k], p[k + 1])
            &&& same_color(m, p[k], p[k + 1])
            &&& region_rank(m, p[k + 1]) < region_rank(m, p[k])
        } by {
            if k > 0 {
                assert(p[k] == rest[k - 1]);
                assert(p[k + 1] == rest[k]);
            }
        }
        assert forall|k: int| 0 <= k < p.len() implies 0 <= #[trigger] p[k] < g.num_cells() by {
            if k > 0 {
                assert(p[k] == rest[k - 1]);
            }
        }
        p
    }
}

/// The cells whose leader is `l`, among the first `k`.
pub open spec fn led_by(m: Valuation, l: int, k: int) -> Set<int> {
    Set::new(|o: int| 0 <= o < k && region_leader(m, o) == l)
}

proof fn lemma_count_is_card(m: Valuation, l: int, k: int)
    requires
        k >= 0,
    ensures
        led_by(m, l, k).finite(),
        led_by(m, l, k).len() == count_led_by(m, l, k),
    decreases k,
{
    if k == 0 {
        assert(led_by(m, l, 0) =~= Set::empty());
    } else {
        lemma_count_is_card(m, l, k - 1);
        if region_leader(m, k - 1) == l {
            assert(led_by(m, l, k) =~= led_by(m, l, k - 1).insert(k - 1));
        } else {
            assert(led_by(m, l, k) =~= led_by(m, l, k - 1));
        }
    }
}

/// Under the structural constraints, a cell's region size is the number of cells that
/// share its leader.
pub proof fn lemma_region_size_counts_region(g: &PreparedGrid, m: Valuation, c: int)
    requires
        g.wf(),
        basic_ok(g, m),
        0 <= c < g.num_cells(),
    ensures
        led_by(m, region_leader(m, c), g.num_cells()).finite(),
        region_size(m, c) == led_by(m, region_leader(m, c), g.num_cells()).len(),
{
    assert(cell_ok(g, m, c));
    lemma_count_is_card(m, region_leader(m, c), g.num_cells());
}

/// Under the structural constraints, visibility in a direction is zero where the
/// neighbour is missing or of the other color, and one more than the neighbour's otherwise;
/// the total adds the four directions and the cell itself.
pub proof fn lemma_visibility_recurrence(g: &PreparedGrid, m: Valuation, c: int, d: Direction)
    requires
        g.wf(),
        basic_ok(g, m),
        0 <= c < g.num_cells(),
    ensures
        ({
            let s = g.squares@[c];
            let nb = match d {
                Direction::Up => s.above,
                Direction::Down => s.below,
                Direction::Left => s.left,
                Direction::Right => s.right,
            };
            match nb {
                None => visible(m, d, c) == 0,
                Some(x) => if same_color(m, c, x.0 as int) {
                    visible(m, d, c) == visible(m, d, x.0 as int) + 1
                } else {
                    visible(m, d, c) == 0
                },
            }
        }),
        visible_total(m, c) == visible(m, Direction::Left, c) + visible(m, Direction::Right, c)
            + visible(m, Direction::Up, c) + visible(m, Direction::Down, c) + 1,
{
    assert(cell_ok(g, m, c));
}

/// A valuation that satisfies every formula of an encoding meets every structural
/// constraint and every rule of the prepared grid.
pub proof fn lemma_model_meets_rules(g: &PreparedGrid, gc: &GridConstraints, m: Valuation)
    requires
        gc.encodes(g),
        holds_all(gc.basic_constraints@, m),
        holds_all(gc.rule_constraints@, m),
    ensures
        basic_ok(g, m),
        forall|r: int| 0 <= r < g.rules@.len() ==> rule_ok(g, #[trigger] g.rules@[r], m),
{
}

/// The two grids have the same bounding box and the same existing cells.
pub open spec fn same_shape(g1: &Grid, g2: &Grid) -> bool {
    &&& g1.size_spec() == g2.size_spec()
    &&& forall|i: int, j: int|
        0 <= i < g1.rows() && 0 <= j < g1.cols() ==> (#[trigger] g1.cell(i, j)).exists == g2.cell(
            i,
            j,
        ).exists
}

proof fn lemma_coords_agree(g1: &Grid, g2: &Grid, a: &PreparedGrid, b: &PreparedGrid, k: int)
    requires
        same_shape(g1, g2),
        prepared_from(g1, a),
        prepared_from(g2, b),
        row_major_sorted(a),
        row_major_sorted(b),
        0 <= k < a.num_cells(),
        k < b.num_cells(),
    ensures
        forall|m: int| 0 <= m <= k ==> #[trigger] a.squares@[m].coord == b.squares@[m].coord,
    decreases k,
{
    if k > 0 {
        lemma_coords_agree(g1, g2, a, b, k - 1);
    }
    let ca = a.squares@[k].coord;
    let cb = b.squares@[k].coord;
    assert(a.index_at(ca.i as int, ca.j as int) == Some(SquareIndex(k as usize)));
    assert(b.index_at(cb.i as int, cb.j as int) == Some(SquareIndex(k as usize)));
    assert(g1.cell(ca.i as int, ca.j as int).exists);
    assert(b.index_at(ca.i as int, ca.j as int).is_some());
    let m = b.index_at(ca.i as int, ca.j as int).unwrap().0 as int;
    assert(b.squares@[m].coord == ca);
    assert(g2.cell(cb.i as int, cb.j as int).exists);
    assert(a.index_at(cb.i as int, cb.j as int).is_some());
    let p = a.index_at(cb.i as int, cb.j as int).unwrap().0 as int;
    assert(a.squares@[p].coord == cb);
    if m < k {
        assert(a.squares@[m].coord == b.squares@[m].coord);
        assert(row_major_lt(a.squares@[m].coord, a.squares@[k].coord));
    }
    if p < k {
        assert(a.squares@[p].coord == b.squares@[p].coord);
        assert(row_major_lt(b.squares@[p].coord, b.squares@[k].coord));
    }
    if m > k {
        assert(row_major_lt(b.squares@[k].coord, b.squares@[m].coord));
        if p > k {
            assert(row_major_lt(a.squares@[k].coord, a.squares@[p].coord));
        }
    }
}

/// Preparation depends only on the board's shape: grids with the same bounding box and
/// the same existing cells get the same dense indices, coordinates and adjacency. So
/// preparing a grid twice gives the same structure, and so does preparing it again after
/// a model has colored its cells.
pub proof fn lemma_preparation_determined(g1: &Grid, g2: &Grid, a: &PreparedGrid, b: &PreparedGrid)
    requires
        g1.wf(),
        g2.wf(),
        same_shape(g1, g2),
        prepared_from(g1, a),
        prepared_from(g2, b),
        row_major_sorted(a),
        row_major_sorted(b),
    ensures
        a.num_cells() == b.num_cells(),
        forall|i: int, j: int| #[trigger] a.index_at(i, j) == b.index_at(i, j),
        forall|k: int| 0 <= k < a.num_cells() ==> #[trigger] a.squares@[k] == b.squares@[k],
{
    let na = a.num_cells();
    let nb = b.num_cells();
    if na > 0 && nb > 0 {
        let lo = if na < nb {
            na - 1
        } else {
            nb - 1
        };
        lemma_coords_agree(g1, g2, a, b, lo);
    }
    if na < nb {
        let cb = b.squares@[na].coord;
        assert(g2.cell(cb.i as int, cb.j as int).exists);
        assert(a.index_at(cb.i as int, cb.j as int).is_some());
        let p = a.index_at(cb.i as int, cb.j as int).unwrap().0 as int;
        assert(a.squares@[p].coord == b.squares@[p].coord);
        assert(row_major_lt(b.squares@[p].coord, b.squares@[na].coord));
    }
    if nb < na {
        let ca = a.squares@[nb].coord;
        assert(g1.cell(ca.i as int, ca.j as int).exists);
        assert(b.index_at(ca.i as int, ca.j as int).is_some());
        let p = b.index_at(ca.i as int, ca.j as int).unwrap().0 as int;
        assert(a.squares@[p].coord == b.squares@[p].coord);
        assert(row_major_lt(a.squares@[p].coord, a.squares@[nb].coord));
    }
    assert(na == nb);
    assert forall|i: int, j: int| #[trigger] a.index_at(i, j) == b.index_at(i, j) by {
        if 0 <= i < g1.rows() && 0 <= j < g1.cols() && g1.cell(i, j).exists {
            let x = a.index_at(i, j).unwrap().0 as int;
            let y = b.index_at(i, j).unwrap().0 as int;
            assert(a.squares@[x].coord == b.squares@[x].coord);
            assert(b.squares@[y].coord == a.squares@[y].coord);
            assert(a.index_at(a.squares@[y].coord.i as int, a.squares@[y].coord.j as int) == Some(
                SquareIndex(y as usize),
            ));
        }
    }
}

/// A cell with no recorded neighbours sees nothing in any direction, under the structural
/// constraints.
pub proof fn lemma_isolated_cell_sees_nothing(g: &PreparedGrid, m: Valuation, c: int, d: Direction)
    requires
        g.wf(),
        basic_ok(g, m),
        0 <= c < g.num_cells(),
        g.squares@[c].left is None,
        g.squares@[c].right is None,
        g.squares@[c].above is None,
        g.squares@[c].below is None,
    ensures
        visible(m, d, c) == 0,
        region_rank(m, c) == 0,
        visible_total(m, c) == 1,
{
    assert(cell_ok(g, m, c));
}

/// On a board of one cell, the structural constraints leave one region of size 1, rank 0
/// and visibility 1.
pub proof fn lemma_single_cell(g: &PreparedGrid, m: Valuation)
    requires
        g.wf(),
        g.num_cells() == 1,
        basic_ok(g, m),
    ensures
        region_size(m, 0) == 1,
        visible_total(m, 0) == 1,
        region_rank(m, 0) == 0,
        is_leader(m, 0),
{
    let s = g.squares@[0];
    let c = s.coord;
    assert(g.index_at(c.i as int, c.j as int) == Some(SquareIndex(0)));
    if let Some(x) = s.left {
        assert(g.squares@[x.0 as int].coord == Coord { i: c.i, j: (c.j - 1) as isize });
    }
    if let Some(x) = s.right {
        assert(g.squares@[x.0 as int].coord == Coord { i: c.i, j: (c.j + 1) as isize });
    }
    if let Some(x) = s.above {
        assert(g.squares@[x.0 as int].coord == Coord { i: (c.i - 1) as isize, j: c.j });
    }
    if let Some(x) = s.below {
        assert(g.squares@[x.0 as int].coord == Coord { i: (c.i + 1) as isize, j: c.j });
    }
    lemma_isolated_cell_sees_nothing(g, m, 0, Direction::Up);
    lemma_rank_marks_leader(g, m, 0);
    assert(cell_ok(g, m, 0));
    assert(count_led_by(m, 0, 1) == 1) by {
        assert(count_led_by(m, 0, 0) == 0);
    }
}

/// Counting a color over an empty set gives 0: the count rule holds exactly when its
/// number is 0, whatever the valuation.
pub proof fn lemma_empty_count(g: &PreparedGrid, m: Valuation, n: usize, c: Color, v: Vec<SquareIndex>)
    requires
        v@.len() == 0,
    ensures
        rule_ok(g, PreparedRule::ColorCountInSet(n, c, v), m) <==> n == 0,
{
    assert(count_colored(m, c, v@, 0) == 0);
}

} // verus!
