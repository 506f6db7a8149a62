use vstd::prelude::*;
use crate::grid::{existing_cells, prepared_from, Color, Coord, Grid, Square};
use crate::prepare::PreparedGrid;

verus! {

/// What one solver call on a grid came back with.
pub enum GridSolveResult {
    /// A model exists; the grid carries every existing cell colored from it.
    Solved(Grid),
    Unsolvable,
    Unknown,
}

/// The answer of the solver without the model.
#[derive(Clone, Copy, Debug, PartialEq, Eq, Structural)]
pub enum Outcome {
    Solved,
    Unsolvable,
    Unknown,
}

/// What one round of the deduction loop learned about a cell.
#[derive(Clone, Copy, Debug, PartialEq, Eq, Structural)]
pub enum SolveResult {
    /// The rules force this color.
    Definitely(Color),
    /// Both colors admit a solution: no deduction is possible for this cell.
    Unfillable,
    Unknown,
}

impl GridSolveResult {
    pub open spec fn outcome_spec(&self) -> Outcome {
        match self {
            GridSolveResult::Solved(_) => Outcome::Solved,
            GridSolveResult::Unsolvable => Outcome::Unsolvable,
            GridSolveResult::Unknown => Outcome::Unknown,
        }
    }

    pub fn outcome(&self) -> (r: Outcome)
        ensures
            r == self.outcome_spec(),
    {
        match self {
            GridSolveResult::Solved(_) => Outcome::Solved,
            GridSolveResult::Unsolvable => Outcome::Unsolvable,
            GridSolveResult::Unknown => Outcome::Unknown,
        }
    }
}

/// The verdict on a cell from its two hypotheses: a color is forced when its hypothesis
/// is solvable and the other is not; both solvable makes the cell unfillable.
pub open spec fn verdict_spec(light: Outcome, dark: Outcome) -> SolveResult {
    match (light, dark) {
        (Outcome::Solved, Outcome::Unsolvable) => SolveResult::Definitely(Color::Light),
        (Outcome::Unsolvable, Outcome::Solved) => SolveResult::Definitely(Color::Dark),
        (Outcome::Solved, Outcome::Solved) => SolveResult::Unfillable,
        _ => SolveResult::Unknown,
    }
}

pub fn verdict(light: Outcome, dark: Outcome) -> (r: SolveResult)
    ensures
        r == verdict_spec(light, dark),
{
    match (light, dark) {
        (Outcome::Solved, Outcome::Unsolvable) => SolveResult::Definitely(Color::Light),
        (Outcome::Unsolvable, Outcome::Solved) => SolveResult::Definitely(Color::Dark),
        (Outcome::Solved, Outcome::Solved) => SolveResult::Unfillable,
        _ => SolveResult::Unknown,
    }
}

/// The outcome recorded first for hypothesis `color` on cell `c`, or `Unknown`.
pub open spec fn outcome_of(results: Seq<(Coord, Color, Outcome)>, c: Coord, color: Color) -> Outcome
    decreases results.len(),
{
    if results.len() == 0 {
        Outcome::Unknown
    } else if results[0].0 == c && results[0].1 == color {
        results[0].2
    } else {
        outcome_of(results.drop_first(), c, color)
    }
}

fn find_outcome(results: &Vec<(Coord, Color, Outcome)>, c: Coord, color: Color) -> (r: Outcome)
    ensures
        r == outcome_of(results@, c, color),
{
    let mut k: usize = 0;
    assert(results@.subrange(0, results@.len() as int) =~= results@);
    while k < results.len()
        invariant
            k <= results@.len(),
            outcome_of(results@.subrange(k as int, results@.len() as int), c, color) == outcome_of(
                results@,
                c,
                color,
            ),
        decreases results.len() - k,
    {
        let (rc, rcol, out) = results[k];
        let ghost rest = results@.subrange(k as int, results@.len() as int);
        assert(rest.drop_first() =~= results@.subrange(k + 1, results@.len() as int));
        if rc == c && rcol == color {
            return out;
        }
        k += 1;
    }
    Outcome::Unknown
}

fn contains_coord(v: &Vec<Coord>, c: Coord) -> (r: bool)
    ensures
        r == v@.contains(c),
{
    let mut k: usize = 0;
    while k < v.len()
        invariant
            k <= v@.len(),
            forall|q: int| 0 <= q < k ==> v@[q] != c,
        decreases v.len() - k,
    {
        if v[k] == c {
            return true;
        }
        k += 1;
    }
    false
}

/// Some returned hypothesis is about cell `c`.
pub open spec fn mentions(results: Seq<(Coord, Color, Outcome)>, c: Coord) -> bool {
    exists|k: int| 0 <= k < results.len() && (#[trigger] results[k]).0 == c
}

/// Aggregates the returned hypotheses, in any order, into one verdict per cell: the cells
/// in order of first appearance, each with `verdict_spec` of its two outcomes.
pub fn aggregate(results: &Vec<(Coord, Color, Outcome)>) -> (r: Vec<(Coord, SolveResult)>)
    ensures
        forall|k: int| 0 <= k < r@.len() ==> (#[trigger] r@[k]).1 == verdict_spec(
            outcome_of(results@, r@[k].0, Color::Light),
            outcome_of(results@, r@[k].0, Color::Dark),
        ),
        forall|a: int, b: int| 0 <= a < b < r@.len() ==> (#[trigger] r@[a]).0 != (#[trigger] r@[b]).0,
        forall|k: int| 0 <= k < results@.len() ==> exists|q: int| 0 <= q < r@.len() && (#[trigger] r@[q]).0 == (#[trigger] results@[k]).0,
        forall|q: int| 0 <= q < r@.len() ==> mentions(results@, (#[trigger] r@[q]).0),
{
    let mut seen: Vec<Coord> = Vec::new();
    let mut out: Vec<(Coord, SolveResult)> = Vec::new();
    let mut k: usize = 0;
    while k < results.len()
        invariant
            k <= results@.len(),
            seen@.len() == out@.len(),
            forall|q: int| 0 <= q < out@.len() ==> (#[trigger] out@[q]).0 == seen@[q],
            forall|q: int| 0 <= q < out@.len() ==> (#[trigger] out@[q]).1 == verdict_spec(
                outcome_of(results@, out@[q].0, Color::Light),
                outcome_of(results@, out@[q].0, Color::Dark),
            ),
            forall|a: int, b: int| 0 <= a < b < seen@.len() ==> (#[trigger] seen@[a]) != (#[trigger] seen@[b]),
            forall|p: int| 0 <= p < k ==> seen@.contains((#[trigger] results@[p]).0),
            forall|q: int| 0 <= q < out@.len() ==> mentions(results@, (#[trigger] out@[q]).0),
        decreases results.len() - k,
    {
        let c = results[k].0;
        let ghost old_seen = seen@;
        if !contains_coord(&seen, c) {
            let light = find_outcome(results, c, Color::Light);
            let dark = find_outcome(results, c, Color::Dark);
            out.push((c, verdict(light, dark)));
            assert(mentions(results@, results@[k as int].0));
            seen.push(c);
            assert(seen@[seen@.len() - 1] == c);
        }
        assert(seen@.contains(c));
        assert forall|p: int| 0 <= p < k implies seen@.contains((#[trigger] results@[p]).0) by {
            assert(old_seen.contains(results@[p].0));
            let q = choose|q: int| 0 <= q < old_seen.len() && old_seen[q] == results@[p].0;
            assert(seen@[q] == old_seen[q]);
        }
        k += 1;
    }
    proof {
        assert forall|p: int| 0 <= p < results@.len() implies exists|q: int| 0 <= q < out@.len() && (#[trigger] out@[q]).0 == (#[trigger] results@[p]).0 by {
            assert(seen@.contains(results@[p].0));
            let q = choose|q: int| 0 <= q < seen@.len() && seen@[q] == results@[p].0;
            assert(out@[q].0 == results@[p].0);
        }
    }
    out
}

/// Whether the round coloured any cell.
pub open spec fn any_definite(verdicts: Seq<(Coord, SolveResult)>) -> bool {
    exists|k: int| 0 <= k < verdicts.len() && (#[trigger] verdicts[k]).1 is Definitely
}

/// The timeout of the next round: unchanged after progress, doubled (up to the largest
/// `u32`) otherwise.
pub fn next_timeout(timeout: u32, any_filled: bool) -> (r: u32)
    ensures
        any_filled ==> r == timeout,
        !any_filled ==> r == if 2 * timeout <= u32::MAX {
            (2 * timeout) as u32
        } else {
            u32::MAX
        },
{
    if any_filled {
        timeout
    } else if timeout <= u32::MAX / 2 {
        timeout * 2
    } else {
        u32::MAX
    }
}

/// The cells of `cells` that have no color clue and are not in `unfillable`, in order.
pub open spec fn pending_of(cells: Seq<(Coord, Square)>, unfillable: Seq<Coord>) -> Seq<Coord>
    decreases cells.len(),
{
    if cells.len() == 0 {
        Seq::empty()
    } else {
        let rest = pending_of(cells.drop_last(), unfillable);
        let (c, sq) = cells.last();
        if sq.color.is_none() && !unfillable.contains(c) {
            rest.push(c)
        } else {
            rest
        }
    }
}

/// The cells a round of the deduction loop hypothesises on: existing cells without a color
/// clue and not known to be unfillable, in row-major order.
pub fn pending_cells(grid: &Grid, unfillable: &Vec<Coord>) -> (r: Vec<Coord>)
    requires
        grid.wf(),
    ensures
        r@ == pending_of(existing_cells(grid), unfillable@),
{
    let cells = grid.squares();
    let mut out: Vec<Coord> = Vec::new();
    let mut k: usize = 0;
    while k < cells.len()
        invariant
            k <= cells@.len(),
            out@ == pending_of(cells@.subrange(0, k as int), unfillable@),
        decreases cells.len() - k,
    {
        let (c, sq) = cells[k];
        assert(cells@.subrange(0, k + 1).drop_last() =~= cells@.subrange(0, k as int));
        if sq.color.is_none() && !contains_coord(unfillable, c) {
            out.push(c);
        }
        k += 1;
    }
    assert(cells@.subrange(0, cells@.len() as int) =~= cells@);
    out
}

/// The color of the last `Definitely` verdict on cell `at`, if any.
pub open spec fn forced_color(v: Seq<(Coord, SolveResult)>, at: Coord) -> Option<Color>
    decreases v.len(),
{
    if v.len() == 0 {
        None
    } else if v.last().0 == at && v.last().1 is Definitely {
        Some(v.last().1->Definitely_0)
    } else {
        forced_color(v.drop_last(), at)
    }
}

/// The coordinates of the `Unfillable` verdicts, in order.
pub open spec fn unfillable_coords(v: Seq<(Coord, SolveResult)>) -> Seq<Coord>
    decreases v.len(),
{
    if v.len() == 0 {
        Seq::empty()
    } else if v.last().1 is Unfillable {
        unfillable_coords(v.drop_last()).push(v.last().0)
    } else {
        unfillable_coords(v.drop_last())
    }
}

/// The square at `(r, c)` after the verdicts: colored by its forced color if it has one,
/// otherwise unchanged.
pub open spec fn after_verdicts(g: &Grid, v: Seq<(Coord, SolveResult)>, r: int, c: int) -> Square {
    match forced_color(v, Coord { i: r as isize, j: c as isize }) {
        Some(col) => Square { color: Some(col), ..g.cell(r, c) },
        None => g.cell(r, c),
    }
}

/// Applies a round's verdicts: forced cells get their color, unfillable cells are
/// recorded. Returns whether any cell was forced. Nothing else changes.
pub fn apply_verdicts(
    grid: &mut Grid,
    unfillable: &mut Vec<Coord>,
    verdicts: &Vec<(Coord, SolveResult)>,
) -> (r: bool)
    requires
        old(grid).wf(),
        forall|k: int|
            0 <= k < verdicts@.len() ==> 0 <= (#[trigger] verdicts@[k]).0.i < old(grid).rows() && 0
                <= verdicts@[k].0.j < old(grid).cols(),
    ensures
        r == any_definite(verdicts@),
        final(grid).wf(),
        final(grid).size_spec() == old(grid).size_spec(),
        final(grid).rule_list() == old(grid).rule_list(),
        forall|r: int, c: int|
            0 <= r < old(grid).rows() && 0 <= c < old(grid).cols() ==> #[trigger] final(grid).cell(r, c)
                == after_verdicts(old(grid), verdicts@, r, c),
        final(unfillable)@ == old(unfillable)@ + unfillable_coords(verdicts@),
{
    let ghost g0 = *grid;
    let ghost u0 = unfillable@;
    let mut any_filled = false;
    let mut k: usize = 0;
    while k < verdicts.len()
        invariant
            grid.wf(),
            grid.size_spec() == g0.size_spec(),
            grid.rule_list() == g0.rule_list(),
            g0.wf(),
            k <= verdicts@.len(),
            forall|k: int|
                0 <= k < verdicts@.len() ==> 0 <= (#[trigger] verdicts@[k]).0.i < g0.rows() && 0
                    <= verdicts@[k].0.j < g0.cols(),
            any_filled == exists|q: int| 0 <= q < k && (#[trigger] verdicts@[q]).1 is Definitely,
            forall|r: int, c: int|
                0 <= r < g0.rows() && 0 <= c < g0.cols() ==> #[trigger] grid.cell(r, c)
                    == after_verdicts(&g0, verdicts@.subrange(0, k as int), r, c),
            unfillable@ == u0 + unfillable_coords(verdicts@.subrange(0, k as int)),
        decreases verdicts.len() - k,
    {
        let (c, result) = verdicts[k];
        let ghost pre = verdicts@.subrange(0, k as int);
        let ghost post = verdicts@.subrange(0, k + 1);
        assert(post.drop_last() =~= pre);
        assert(post.last() == verdicts@[k as int]);
        match result {
            SolveResult::Definitely(color) => {
                grid.set_color(c.i as usize, c.j as usize, color);
                any_filled = true;
            },
            SolveResult::Unfillable => {
                unfillable.push(c);
            },
            SolveResult::Unknown => {},
        }
        assert forall|r: int, cc: int|
            0 <= r < g0.rows() && 0 <= cc < g0.cols() implies #[trigger] grid.cell(r, cc)
                == after_verdicts(&g0, post, r, cc) by {
            assert(forced_color(post, Coord { i: r as isize, j: cc as isize }) == if c == (Coord {
                i: r as isize,
                j: cc as isize,
            }) && result is Definitely {
                Some(result->Definitely_0)
            } else {
                forced_color(pre, Coord { i: r as isize, j: cc as isize })
            });
        }
        assert(unfillable@ =~= u0 + unfillable_coords(post));
        k += 1;
    }
    assert(verdicts@.subrange(0, verdicts@.len() as int) =~= verdicts@);
    any_filled
}

impl Grid {
    /// Colors every existing cell from a model: cell `k` of `pg` is Light where
    /// `light[k]` holds and Dark otherwise.
    pub fn apply_model_colors(&mut self, pg: &PreparedGrid, light: &Vec<bool>)
        requires
            old(self).wf(),
            prepared_from(old(self), pg),
            light@.len() == pg.num_cells(),
        ensures
            final(self).wf(),
            final(self).size_spec() == old(self).size_spec(),
            final(self).rule_list() == old(self).rule_list(),
            forall|k: int|
                0 <= k < pg.num_cells() ==> final(self).cell(
                    (#[trigger] pg.squares@[k]).coord.i as int,
                    pg.squares@[k].coord.j as int,
                ) == (Square {
                    color: Some(if light@[k] {
                        Color::Light
                    } else {
                        Color::Dark
                    }),
                    ..old(self).cell(pg.squares@[k].coord.i as int, pg.squares@[k].coord.j as int)
                }),
            forall|r: int, c: int|
                0 <= r < old(self).rows() && 0 <= c < old(self).cols() && !old(self).cell(r, c).exists
                    ==> #[trigger] final(self).cell(r, c) == old(self).cell(r, c),
    {
        let ghost g0 = *self;
        let n = pg.squares.len();
        let mut k: usize = 0;
        while k < n
            invariant
                self.wf(),
                g0.wf(),
                prepared_from(&g0, pg),
                n == pg.num_cells(),
                light@.len() == n,
                k <= n,
                self.size_spec() == g0.size_spec(),
                self.rule_list() == g0.rule_list(),
                forall|q: int|
                    0 <= q < k ==> self.cell(
                        (#[trigger] pg.squares@[q]).coord.i as int,
                        pg.squares@[q].coord.j as int,
                    ) == (Square {
                        color: Some(if light@[q] {
                            Color::Light
                        } else {
                            Color::Dark
                        }),
                        ..g0.cell(pg.squares@[q].coord.i as int, pg.squares@[q].coord.j as int)
                    }),
                forall|q: int|
                    k <= q < n ==> self.cell(
                        (#[trigger] pg.squares@[q]).coord.i as int,
                        pg.squares@[q].coord.j as int,
                    ) == g0.cell(pg.squares@[q].coord.i as int, pg.squares@[q].coord.j as int),
                forall|r: int, c: int|
                    0 <= r < g0.rows() && 0 <= c < g0.cols() && !g0.cell(r, c).exists
                        ==> #[trigger] self.cell(r, c) == g0.cell(r, c),
            decreases n - k,
        {
            let c = pg.squares[k].coord;
            let color = if light[k] {
                Color::Light
            } else {
                Color::Dark
            };
            self.set_color(c.i as usize, c.j as usize, color);
            proof {
                assert forall|q: int| 0 <= q < n && q != k implies pg.squares@[q].coord != c by {
                    assert(pg.index_at(c.i as int, c.j as int) == Some(crate::grid::SquareIndex(k)));
                    let cq = pg.squares@[q].coord;
                    assert(pg.index_at(cq.i as int, cq.j as int) == Some(crate::grid::SquareIndex(q as usize)));
                }
                assert(pg.index_at(c.i as int, c.j as int).is_some());
            }
            k += 1;
        }
    }
}

} // verus!
