use vstd::prelude::*;
use crate::pattern::{canonical_of, candidates, dedup, dihedral_trail, patterns_of, GridPattern};
use crate::prepare::{rule_indices_ok, PreparedGrid, PreparedRule, PreparedSquare};

verus! {

/// One of the four axis directions on the board.
#[derive(Clone, Copy, Debug, PartialEq, Eq, Hash, Structural)]
pub enum Direction {
    Up,
    Down,
    Left,
    Right,
}

/// The two colors a cell can take.
#[derive(Clone, Copy, Debug, PartialEq, Eq, Hash, PartialOrd, Ord, Structural)]
pub enum Color {
    Light,
    Dark,
}

pub open spec fn opposite_of(c: Color) -> Color {
    match c {
        Color::Light => Color::Dark,
        Color::Dark => Color::Light,
    }
}

impl Color {
    pub fn opposite(&self) -> (r: Color)
        ensures
            r == opposite_of(*self),
    {
        match self {
            Color::Light => Color::Dark,
            Color::Dark => Color::Light,
        }
    }
}

/// Dense index of an existing cell of a prepared grid.
#[derive(Clone, Copy, Debug, PartialEq, Eq, Hash, Structural)]
pub struct SquareIndex(pub usize);

/// A row-major board coordinate.
#[derive(Clone, Copy, Debug, PartialEq, Eq, Hash, PartialOrd, Ord, Structural)]
pub struct Coord {
    pub i: isize,
    pub j: isize,
}

/// The coordinate one step away in `d`, without any bound check.
pub open spec fn step(c: Coord, d: Direction) -> (int, int) {
    match d {
        Direction::Up => (c.i - 1, c.j as int),
        Direction::Down => (c.i + 1, c.j as int),
        Direction::Left => (c.i as int, c.j - 1),
        Direction::Right => (c.i as int, c.j + 1),
    }
}

/// The neighbour of `c` in direction `d` inside a box of the given size.
pub open spec fn neighbor_of(c: Coord, d: Direction, size: Coord) -> Option<Coord> {
    let (i, j) = step(c, d);
    if 0 <= i < size.i && 0 <= j < size.j {
        Some(Coord { i: i as isize, j: j as isize })
    } else {
        None
    }
}

pub open spec fn in_box(c: Coord, size: Coord) -> bool {
    0 <= c.i < size.i && 0 <= c.j < size.j
}

impl Coord {
    pub(crate) fn right(self, size: Coord) -> (r: Option<Coord>)
        requires
            in_box(self, size),
        ensures
            r == neighbor_of(self, Direction::Right, size),
    {
        if self.j < size.j - 1 {
            Some(Coord { i: self.i, j: self.j + 1 })
        } else {
            None
        }
    }

    pub(crate) fn below(self, size: Coord) -> (r: Option<Coord>)
        requires
            in_box(self, size),
        ensures
            r == neighbor_of(self, Direction::Down, size),
    {
        if self.i < size.i - 1 {
            Some(Coord { i: self.i + 1, j: self.j })
        } else {
            None
        }
    }

    pub(crate) fn left(self, size: Coord) -> (r: Option<Coord>)
        requires
            in_box(self, size),
        ensures
            r == neighbor_of(self, Direction::Left, size),
    {
        if self.j > 0 {
            Some(Coord { i: self.i, j: self.j - 1 })
        } else {
            None
        }
    }

    pub(crate) fn above(self, size: Coord) -> (r: Option<Coord>)
        requires
            in_box(self, size),
        ensures
            r == neighbor_of(self, Direction::Up, size),
    {
        if self.i > 0 {
            Some(Coord { i: self.i - 1, j: self.j })
        } else {
            None
        }
    }

    pub(crate) fn neighbor(self, direction: Direction, size: Coord) -> (r: Option<Coord>)
        requires
            in_box(self, size),
        ensures
            r == neighbor_of(self, direction, size),
    {
        match direction {
            Direction::Up => self.above(size),
            Direction::Down => self.below(size),
            Direction::Left => self.left(size),
            Direction::Right => self.right(size),
        }
    }
}

/// A cell of the authoring view, with its clues.
#[derive(Clone, Copy, Debug)]
pub struct Square {
    pub exists: bool,
    pub merge_with_right: bool,
    pub merge_with_bottom: bool,
    pub color: Option<Color>,
    pub area_number: Option<usize>,
    pub visible_count: Option<usize>,
    pub dart_number: Option<(Direction, usize)>,
}

/// A dart clue always comes with the color of its cell.
pub open spec fn dart_has_color(s: Square) -> bool {
    s.dart_number.is_some() ==> s.color.is_some()
}

pub open spec fn blank_square() -> Square {
    Square {
        exists: true,
        merge_with_right: false,
        merge_with_bottom: false,
        color: None,
        area_number: None,
        visible_count: None,
        dart_number: None,
    }
}

/// A declarative puzzle rule.
#[derive(Clone, Debug)]
pub enum Rule {
    BanPattern(GridPattern),
    ConnectAll(Color),
    RegionAreaEqualsNumber,
    RegionFixedSize(Color, usize),
    ExactlyOneNumberPerRegion(Color),
    VisibleCellCount,
    RegionsHaveDifferentShapes(Color),
    NumbersAreOffByOne,
    DartNumbers,
}

/// The mutable puzzle description: a rectangular bounding box of squares and a rule list.
#[derive(Clone, Debug)]
pub struct Grid {
    size: Coord,
    squares: Vec<Vec<Square>>,
    rules: Vec<Rule>,
}

impl Grid {
    pub open spec fn rows(&self) -> int {
        self.size_spec().i as int
    }

    pub open spec fn cols(&self) -> int {
        self.size_spec().j as int
    }

    pub closed spec fn size_spec(&self) -> Coord {
        self.size
    }

    /// The square at row `r`, column `c` of the bounding box.
    pub closed spec fn cell(&self, r: int, c: int) -> Square {
        self.squares@[r]@[c]
    }

    pub closed spec fn rule_list(&self) -> Seq<Rule> {
        self.rules@
    }

    /// The bounding box matches the stored rows and columns.
    pub closed spec fn wf(&self) -> bool {
        &&& self.size.i >= 0
        &&& self.size.j >= 0
        &&& self.squares@.len() == self.size.i
        &&& forall|r: int| 0 <= r < self.squares@.len() ==> #[trigger] self.squares@[r]@.len()
            == self.size.j
        &&& forall|r: int, c: int|
            0 <= r < self.size.i && 0 <= c < self.size.j ==> dart_has_color(
                #[trigger] self.squares@[r]@[c],
            )
    }

    pub fn size(&self) -> (r: Coord)
        ensures
            r == self.size_spec(),
    {
        self.size
    }

    /// Whether the cell at `coord` is present on the board.
    pub open spec fn exists_at(&self, coord: Coord) -> bool {
        in_box(coord, self.size_spec()) && self.cell(coord.i as int, coord.j as int).exists
    }

    pub fn new(rows: usize, cols: usize) -> (g: Grid)
        requires
            rows <= isize::MAX,
            cols <= isize::MAX,
        ensures
            g.wf(),
            g.rows() == rows,
            g.cols() == cols,
            g.rule_list() == Seq::<Rule>::empty(),
            forall|r: int, c: int| 0 <= r < rows && 0 <= c < cols ==> #[trigger] g.cell(r, c)
                == blank_square(),
    {
        let blank = Square {
            exists: true,
            merge_with_right: false,
            merge_with_bottom: false,
            color: None,
            area_number: None,
            visible_count: None,
            dart_number: None,
        };
        let mut squares: Vec<Vec<Square>> = Vec::new();
        let mut r: usize = 0;
        while r < rows
            invariant
                r <= rows,
                squares@.len() == r,
                blank == blank_square(),
                forall|k: int| 0 <= k < r ==> #[trigger] squares@[k]@.len() == cols,
                forall|k: int, c: int| 0 <= k < r && 0 <= c < cols ==> #[trigger] squares@[k]@[c]
                    == blank_square(),
            decreases rows - r,
        {
            let mut row: Vec<Square> = Vec::new();
            let mut c: usize = 0;
            while c < cols
                invariant
                    c <= cols,
                    row@.len() == c,
                    blank == blank_square(),
                    forall|k: int| 0 <= k < c ==> #[trigger] row@[k] == blank_square(),
                decreases cols - c,
            {
                row.push(blank);
                c += 1;
            }
            squares.push(row);
            r += 1;
        }
        Grid { size: Coord { i: rows as isize, j: cols as isize }, squares, rules: Vec::new() }
    }

    /// The grid with the square at (row, col) replaced by `sq`; everything else unchanged.
    pub open spec fn updated(&self, other: &Grid, row: int, col: int, sq: Square) -> bool {
        &&& other.wf()
        &&& other.size_spec() == self.size_spec()
        &&& other.rule_list() == self.rule_list()
        &&& other.cell(row, col) == sq
        &&& forall|r: int, c: int|
            0 <= r < self.rows() && 0 <= c < self.cols() && !(r == row && c == col)
                ==> #[trigger] other.cell(r, c) == self.cell(r, c)
    }

    fn replace_square(&mut self, row: usize, col: usize, sq: Square)
        requires
            old(self).wf(),
            dart_has_color(sq),
            row < old(self).rows(),
            col < old(self).cols(),
        ensures
            old(self).updated(final(self), row as int, col as int, sq),
    {
        let mut line = self.squares[row].clone();
        line.set(col, sq);
        self.squares.set(row, line);
        assert(forall|r: int| 0 <= r < self.squares@.len() && r != row ==> self.squares@[r]
            == old(self).squares@[r]);
    }

    pub fn remove_square(&mut self, row: usize, col: usize)
        requires
            old(self).wf(),
            row < old(self).rows(),
            col < old(self).cols(),
        ensures
            old(self).updated(
                final(self),
                row as int,
                col as int,
                Square { exists: false, ..old(self).cell(row as int, col as int) },
            ),
    {
        let mut sq = self.squares[row][col];
        assert(dart_has_color(self.squares@[row as int]@[col as int]));
        sq.exists = false;
        self.replace_square(row, col, sq);
    }

    pub fn set_area_number(&mut self, row: usize, col: usize, number: usize)
        requires
            old(self).wf(),
            row < old(self).rows(),
            col < old(self).cols(),
        ensures
            old(self).updated(
                final(self),
                row as int,
                col as int,
                Square { area_number: Some(number), ..old(self).cell(row as int, col as int) },
            ),
    {
        let mut sq = self.squares[row][col];
        assert(dart_has_color(self.squares@[row as int]@[col as int]));
        sq.area_number = Some(number);
        self.replace_square(row, col, sq);
    }

    pub fn set_color(&mut self, row: usize, col: usize, color: Color)
        requires
            old(self).wf(),
            row < old(self).rows(),
            col < old(self).cols(),
        ensures
            old(self).updated(
                final(self),
                row as int,
                col as int,
                Square { color: Some(color), ..old(self).cell(row as int, col as int) },
            ),
    {
        let mut sq = self.squares[row][col];
        sq.color = Some(color);
        self.replace_square(row, col, sq);
    }

    pub fn color_light(&mut self, row: usize, col: usize)
        requires
            old(self).wf(),
            row < old(self).rows(),
            col < old(self).cols(),
        ensures
            old(self).updated(
                final(self),
                row as int,
                col as int,
                Square { color: Some(Color::Light), ..old(self).cell(row as int, col as int) },
            ),
    {
        self.set_color(row, col, Color::Light);
    }

    pub fn color_dark(&mut self, row: usize, col: usize)
        requires
            old(self).wf(),
            row < old(self).rows(),
            col < old(self).cols(),
        ensures
            old(self).updated(
                final(self),
                row as int,
                col as int,
                Square { color: Some(Color::Dark), ..old(self).cell(row as int, col as int) },
            ),
    {
        self.set_color(row, col, Color::Dark);
    }

    pub fn join_right(&mut self, row: usize, col: usize)
        requires
            old(self).wf(),
            row < old(self).rows(),
            col < old(self).cols(),
        ensures
            old(self).updated(
                final(self),
                row as int,
                col as int,
                Square { merge_with_right: true, ..old(self).cell(row as int, col as int) },
            ),
    {
        let mut sq = self.squares[row][col];
        assert(dart_has_color(self.squares@[row as int]@[col as int]));
        sq.merge_with_right = true;
        self.replace_square(row, col, sq);
    }

    pub fn join_bottom(&mut self, row: usize, col: usize)
        requires
            old(self).wf(),
            row < old(self).rows(),
            col < old(self).cols(),
        ensures
            old(self).updated(
                final(self),
                row as int,
                col as int,
                Square { merge_with_bottom: true, ..old(self).cell(row as int, col as int) },
            ),
    {
        let mut sq = self.squares[row][col];
        assert(dart_has_color(self.squares@[row as int]@[col as int]));
        sq.merge_with_bottom = true;
        self.replace_square(row, col, sq);
    }

    pub fn visible_count(&mut self, row: usize, col: usize, count: usize)
        requires
            old(self).wf(),
            row < old(self).rows(),
            col < old(self).cols(),
        ensures
            old(self).updated(
                final(self),
                row as int,
                col as int,
                Square { visible_count: Some(count), ..old(self).cell(row as int, col as int) },
            ),
    {
        let mut sq = self.squares[row][col];
        assert(dart_has_color(self.squares@[row as int]@[col as int]));
        sq.visible_count = Some(count);
        self.replace_square(row, col, sq);
    }

    /// Puts a dart clue on the cell, together with the cell's own color.
    pub fn dart_number(
        &mut self,
        row: usize,
        col: usize,
        direction: Direction,
        number: usize,
        color: Color,
    )
        requires
            old(self).wf(),
            row < old(self).rows(),
            col < old(self).cols(),
        ensures
            old(self).updated(
                final(self),
                row as int,
                col as int,
                Square {
                    dart_number: Some((direction, number)),
                    color: Some(color),
                    ..old(self).cell(row as int, col as int)
                },
            ),
    {
        let mut sq = self.squares[row][col];
        sq.dart_number = Some((direction, number));
        sq.color = Some(color);
        self.replace_square(row, col, sq);
    }

    pub fn add_rule(&mut self, rule: Rule)
        requires
            old(self).wf(),
        ensures
            final(self).wf(),
            final(self).size_spec() == old(self).size_spec(),
            final(self).rule_list() == old(self).rule_list().push(rule),
            forall|r: int, c: int| #[trigger] final(self).cell(r, c) == old(self).cell(r, c),
    {
        self.rules.push(rule);
    }

    /// The square at `coord`, if it lies in the box and exists.
    pub fn square(&self, coord: Coord) -> (r: Option<&Square>)
        requires
            self.wf(),
        ensures
            self.exists_at(coord) ==> r == Some(&self.cell(coord.i as int, coord.j as int)),
            !self.exists_at(coord) ==> r.is_none(),
    {
        if coord.i < 0 || coord.i >= self.size.i || coord.j < 0 || coord.j >= self.size.j
            || !self.squares[coord.i as usize][coord.j as usize].exists {
            None
        } else {
            Some(&self.squares[coord.i as usize][coord.j as usize])
        }
    }

    /// The existing squares in row-major order, with their coordinates.
    pub fn squares(&self) -> (r: Vec<(Coord, Square)>)
        requires
            self.wf(),
        ensures
            r@ == existing_cells(self),
    {
        let mut out: Vec<(Coord, Square)> = Vec::new();
        let mut x: isize = 0;
        while x < self.size.i
            invariant
                self.wf(),
                0 <= x <= self.size.i,
                out@ == existing_prefix(self, x as int, 0),
            decreases self.size.i - x,
        {
            let mut y: isize = 0;
            while y < self.size.j
                invariant
                    self.wf(),
                    0 <= x < self.size.i,
                    0 <= y <= self.size.j,
                    out@ == existing_prefix(self, x as int, y as int),
                decreases self.size.j - y,
            {
                let sq = self.squares[x as usize][y as usize];
                if sq.exists {
                    out.push((Coord { i: x, j: y }, sq));
                }
                y += 1;
            }
            proof {
                lemma_prefix_row_end(self, x as int);
            }
            x += 1;
        }
        out
    }
}

/// The existing cells of the rows before `x`, then those of row `x` before column `y`.
pub open spec fn existing_prefix(g: &Grid, x: int, y: int) -> Seq<(Coord, Square)>
    decreases x, y,
{
    if x <= 0 && y <= 0 {
        Seq::empty()
    } else if y <= 0 {
        existing_prefix(g, x - 1, g.cols())
    } else {
        let rest = existing_prefix(g, x, y - 1);
        let c = Coord { i: x as isize, j: (y - 1) as isize };
        if g.cell(x, y - 1).exists {
            rest.push((c, g.cell(x, y - 1)))
        } else {
            rest
        }
    }
}

/// All existing cells of the grid, in row-major order.
pub open spec fn existing_cells(g: &Grid) -> Seq<(Coord, Square)> {
    existing_prefix(g, g.rows(), 0)
}

proof fn lemma_prefix_row_end(g: &Grid, x: int)
    requires
        x >= 0,
    ensures
        existing_prefix(g, x + 1, 0) == existing_prefix(g, x, g.cols()),
{
}

/// Why a grid could not be prepared.
#[derive(Clone, Copy, Debug, PartialEq, Eq, Structural)]
pub enum PrepareError {
    /// A clue or pattern the rules cannot use: an empty or oversized banned pattern, or a
    /// clue of 0 (or of the largest `usize`) under numbers that are off by one.
    MalformedPuzzle,
}

/// `a` comes before `b` in row-major order.
pub open spec fn row_major_lt(a: Coord, b: Coord) -> bool {
    a.i < b.i || (a.i == b.i && a.j < b.j)
}

/// The prepared cells are numbered in row-major order of their coordinates.
pub open spec fn row_major_sorted(pg: &PreparedGrid) -> bool {
    forall|k1: int, k2: int|
        0 <= k1 < k2 < pg.num_cells() ==> row_major_lt(
            #[trigger] pg.squares@[k1].coord,
            #[trigger] pg.squares@[k2].coord,
        )
}

/// The square of the bounding box that prepared cell `k` stands for.
pub open spec fn clue_of(g: &Grid, pg: &PreparedGrid, k: int) -> Square {
    g.cell(pg.squares@[k].coord.i as int, pg.squares@[k].coord.j as int)
}

/// Whether the rule list holds the off-by-one modifier.
pub open spec fn has_off_by_one(rules: Seq<Rule>) -> bool {
    exists|t: int| 0 <= t < rules.len() && rules[t] is NumbersAreOffByOne
}

/// A clue that cannot be shifted by one in both directions.
pub open spec fn unshiftable(n: Option<usize>) -> bool {
    n matches Some(x) && (x == 0 || x == usize::MAX)
}

/// The rule cannot be expanded on this grid.
pub open spec fn rule_malformed(g: &Grid, rule: Rule, off: bool) -> bool {
    match rule {
        Rule::BanPattern(p) => !p.valid(),
        Rule::RegionAreaEqualsNumber => off && exists|i: int, j: int|
            0 <= i < g.rows() && 0 <= j < g.cols() && (#[trigger] g.cell(i, j)).exists
                && unshiftable(g.cell(i, j).area_number),
        Rule::VisibleCellCount => off && exists|i: int, j: int|
            0 <= i < g.rows() && 0 <= j < g.cols() && (#[trigger] g.cell(i, j)).exists
                && unshiftable(g.cell(i, j).visible_count),
        _ => false,
    }
}

/// `pg` holds exactly the existing cells of `g`.
pub open spec fn prepared_from(g: &Grid, pg: &PreparedGrid) -> bool {
    &&& pg.wf()
    &&& pg.size == g.size_spec()
    &&& forall|i: int, j: int|
        0 <= i < g.rows() && 0 <= j < g.cols() ==> (#[trigger] pg.index_at(i, j)).is_some()
            == g.cell(i, j).exists
}

/// The clue rule of an area or visibility number `n` on cell `k`.
pub open spec fn number_rule(k: int, n: usize, off: bool, area: bool) -> PreparedRule {
    let i = SquareIndex(k as usize);
    if area {
        if off {
            PreparedRule::RegionAreaEqualsEither(i, (n - 1) as usize, (n + 1) as usize)
        } else {
            PreparedRule::RegionAreaEqualsNumber(i, n)
        }
    } else {
        if off {
            PreparedRule::VisibleCellCountEither(i, (n - 1) as usize, (n + 1) as usize)
        } else {
            PreparedRule::VisibleCellCount(i, n)
        }
    }
}

/// The number rules of the first `k` cells, in index order.
pub open spec fn number_rules(g: &Grid, pg: &PreparedGrid, k: int, off: bool, area: bool) -> Seq<
    PreparedRule,
>
    decreases k,
{
    if k <= 0 {
        Seq::empty()
    } else {
        let prev = number_rules(g, pg, k - 1, off, area);
        let clue = if area {
            clue_of(g, pg, k - 1).area_number
        } else {
            clue_of(g, pg, k - 1).visible_count
        };
        match clue {
            Some(n) => prev.push(number_rule(k - 1, n, off, area)),
            None => prev,
        }
    }
}

/// The cells among the first `k` that carry an area number, in index order.
pub open spec fn numbered_cells(g: &Grid, pg: &PreparedGrid, k: int) -> Seq<SquareIndex>
    decreases k,
{
    if k <= 0 {
        Seq::empty()
    } else if clue_of(g, pg, k - 1).area_number.is_some() {
        numbered_cells(g, pg, k - 1).push(SquareIndex((k - 1) as usize))
    } else {
        numbered_cells(g, pg, k - 1)
    }
}

/// The cells among the first `k` that carry a dart clue, in index order.
pub open spec fn dart_cells(g: &Grid, pg: &PreparedGrid, k: int) -> Seq<int>
    decreases k,
{
    if k <= 0 {
        Seq::empty()
    } else if clue_of(g, pg, k - 1).dart_number.is_some() {
        dart_cells(g, pg, k - 1).push(k - 1)
    } else {
        dart_cells(g, pg, k - 1)
    }
}

pub open spec fn ray_measure(size: Coord, i: int, j: int, d: Direction) -> int {
    match d {
        Direction::Up => i,
        Direction::Down => size.i - i,
        Direction::Left => j,
        Direction::Right => size.j - j,
    }
}

/// The existing cells met by stepping from `(i, j)` in direction `d` up to the edge,
/// skipping missing cells; `(i, j)` itself excluded.
pub open spec fn ray(pg: &PreparedGrid, i: int, j: int, d: Direction) -> Seq<SquareIndex>
    decreases ray_measure(pg.size, i, j, d),
{
    let (ni, nj) = step(Coord { i: i as isize, j: j as isize }, d);
    if 0 <= ni < pg.size.i && 0 <= nj < pg.size.j && 0 <= i < pg.size.i && 0 <= j < pg.size.j {
        let rest = ray(pg, ni, nj, d);
        match pg.index_at(ni, nj) {
            Some(x) => seq![x] + rest,
            None => rest,
        }
    } else {
        Seq::empty()
    }
}

/// `r` is the dart rule of cell `k`.
pub open spec fn dart_rule_of(g: &Grid, pg: &PreparedGrid, k: int, r: PreparedRule) -> bool {
    let sq = clue_of(g, pg, k);
    let c = pg.squares@[k].coord;
    match (sq.dart_number, sq.color, r) {
        (Some((d, n)), Some(col), PreparedRule::ColorCountInSet(m, rc, v)) => m == n && rc
            == opposite_of(col) && v@ == ray(pg, c.i as int, c.j as int, d),
        _ => false,
    }
}

/// `new` is what rule `rule` expands to on the prepared cells of `pg`.
pub open spec fn expansion_ok(
    g: &Grid,
    pg: &PreparedGrid,
    rule: Rule,
    off: bool,
    new: Seq<PreparedRule>,
) -> bool {
    let n = pg.num_cells();
    match rule {
        Rule::BanPattern(p) => ban_expansion(&p, new),
        Rule::ConnectAll(c) => new == seq![PreparedRule::ConnectAll(c)],
        Rule::RegionAreaEqualsNumber => new == number_rules(g, pg, n, off, true),
        Rule::RegionFixedSize(c, k) => new == seq![PreparedRule::RegionFixedSize(c, k)],
        Rule::ExactlyOneNumberPerRegion(c) => new.len() == 1 && (new[0] matches PreparedRule::ExactlyOneNumberPerRegion(
            rc,
            v,
        ) && rc == c && v@ == numbered_cells(g, pg, n)),
        Rule::VisibleCellCount => new == number_rules(g, pg, n, off, false),
        Rule::RegionsHaveDifferentShapes(c) => new == seq![PreparedRule::RegionsHaveDifferentShapes(c)],
        Rule::NumbersAreOffByOne => new.len() == 0,
        Rule::DartNumbers => {
            let cells = dart_cells(g, pg, n);
            &&& new.len() == cells.len()
            &&& forall|t: int| 0 <= t < new.len() ==> dart_rule_of(g, pg, cells[t], #[trigger] new[t])
        },
    }
}

/// The clue rules of cell `k`: its fixed color, then its merges right and down.
pub open spec fn cell_rules(g: &Grid, pg: &PreparedGrid, k: int) -> Seq<PreparedRule> {
    let sq = clue_of(g, pg, k);
    let s = pg.squares@[k];
    let i = SquareIndex(k as usize);
    let a = match sq.color {
        Some(c) => seq![PreparedRule::SquareIsColor(i, c)],
        None => Seq::empty(),
    };
    let b = match (sq.merge_with_right, s.right) {
        (true, Some(x)) => seq![PreparedRule::SquaresAreSameColor(i, x)],
        _ => Seq::empty(),
    };
    let c = match (sq.merge_with_bottom, s.below) {
        (true, Some(x)) => seq![PreparedRule::SquaresAreSameColor(i, x)],
        _ => Seq::empty(),
    };
    a + b + c
}

/// The clue rules of the first `k` cells, in index order.
pub open spec fn clue_rules(g: &Grid, pg: &PreparedGrid, k: int) -> Seq<PreparedRule>
    decreases k,
{
    if k <= 0 {
        Seq::empty()
    } else {
        clue_rules(g, pg, k - 1) + cell_rules(g, pg, k - 1)
    }
}

/// The pieces joined in order.
pub open spec fn joined(chunks: Seq<Seq<PreparedRule>>) -> Seq<PreparedRule>
    decreases chunks.len(),
{
    if chunks.len() == 0 {
        Seq::empty()
    } else {
        joined(chunks.drop_last()) + chunks.last()
    }
}

proof fn lemma_joined_push(chunks: Seq<Seq<PreparedRule>>, c: Seq<PreparedRule>)
    ensures
        joined(chunks.push(c)) == joined(chunks) + c,
{
    assert(chunks.push(c).drop_last() =~= chunks);
}

impl Grid {
    /// Indexes the existing cells in row-major order: the index map and each index's
    /// coordinate.
    fn index_cells(&self) -> (r: (Vec<Vec<Option<SquareIndex>>>, Vec<Coord>))
        requires
            self.wf(),
        ensures
            r.0@.len() == self.rows(),
            forall|a: int| 0 <= a < self.rows() ==> (#[trigger] r.0@[a])@.len() == self.cols(),
            forall|a: int, b: int|
                0 <= a < self.rows() && 0 <= b < self.cols() ==> (#[trigger] r.0@[a]@[b]).is_some()
                    == self.cell(a, b).exists,
            forall|a: int, b: int|
                0 <= a < self.rows() && 0 <= b < self.cols() && (#[trigger] r.0@[a]@[b]).is_some()
                    ==> r.0@[a]@[b].unwrap().0 < r.1@.len() && r.1@[r.0@[a]@[b].unwrap().0 as int]
                    == (Coord { i: a as isize, j: b as isize }),
            forall|k: int|
                0 <= k < r.1@.len() ==> 0 <= (#[trigger] r.1@[k]).i < self.rows() && 0 <= r.1@[k].j
                    < self.cols() && r.0@[r.1@[k].i as int]@[r.1@[k].j as int] == Some(
                    SquareIndex(k as usize),
                ),
            forall|k1: int, k2: int|
                0 <= k1 < k2 < r.1@.len() ==> row_major_lt(#[trigger] r.1@[k1], #[trigger] r.1@[k2]),
    {
        let mut map: Vec<Vec<Option<SquareIndex>>> = Vec::new();
        let mut coords: Vec<Coord> = Vec::new();
        let mut x: isize = 0;
        while x < self.size.i
            invariant
                self.wf(),
                0 <= x <= self.size.i,
                map@.len() == x,
                forall|a: int| 0 <= a < x ==> (#[trigger] map@[a])@.len() == self.cols(),
                forall|a: int, b: int|
                    0 <= a < x && 0 <= b < self.cols() ==> (#[trigger] map@[a]@[b]).is_some()
                        == self.cell(a, b).exists,
                forall|a: int, b: int|
                    0 <= a < x && 0 <= b < self.cols() && (#[trigger] map@[a]@[b]).is_some()
                        ==> map@[a]@[b].unwrap().0 < coords@.len() && coords@[map@[a]@[b].unwrap().0 as int]
                        == (Coord { i: a as isize, j: b as isize }),
                forall|k: int|
                    0 <= k < coords@.len() ==> 0 <= (#[trigger] coords@[k]).i < x && 0 <= coords@[k].j
                        < self.cols() && map@[coords@[k].i as int]@[coords@[k].j as int] == Some(
                        SquareIndex(k as usize),
                    ),
                forall|k1: int, k2: int|
                    0 <= k1 < k2 < coords@.len() ==> row_major_lt(
                        #[trigger] coords@[k1],
                        #[trigger] coords@[k2],
                    ),
            decreases self.size.i - x,
        {
            let mut row: Vec<Option<SquareIndex>> = Vec::new();
            let ghost start = coords@.len();
            let mut y: isize = 0;
            while y < self.size.j
                invariant
                    self.wf(),
                    0 <= x < self.size.i,
                    0 <= y <= self.size.j,
                    map@.len() == x,
                    start <= coords@.len(),
                    row@.len() == y,
                    forall|a: int| 0 <= a < x ==> (#[trigger] map@[a])@.len() == self.cols(),
                    forall|a: int, b: int|
                        0 <= a < x && 0 <= b < self.cols() ==> (#[trigger] map@[a]@[b]).is_some()
                            == self.cell(a, b).exists,
                    forall|a: int, b: int|
                        0 <= a < x && 0 <= b < self.cols() && (#[trigger] map@[a]@[b]).is_some()
                            ==> map@[a]@[b].unwrap().0 < start && coords@[map@[a]@[b].unwrap().0 as int]
                            == (Coord { i: a as isize, j: b as isize }),
                    forall|b: int| 0 <= b < y ==> (#[trigger] row@[b]).is_some() == self.cell(x as int, b).exists,
                    forall|b: int|
                        0 <= b < y && (#[trigger] row@[b]).is_some() ==> start <= row@[b].unwrap().0
                            < coords@.len() && coords@[row@[b].unwrap().0 as int] == (Coord {
                            i: x,
                            j: b as isize,
                        }),
                    forall|k: int|
                        0 <= k < start ==> 0 <= (#[trigger] coords@[k]).i < x && 0 <= coords@[k].j
                            < self.cols() && map@[coords@[k].i as int]@[coords@[k].j as int] == Some(
                            SquareIndex(k as usize),
                        ),
                    forall|k: int|
                        start <= k < coords@.len() ==> (#[trigger] coords@[k]).i == x && 0
                            <= coords@[k].j < y && row@[coords@[k].j as int] == Some(
                            SquareIndex(k as usize),
                        ),
                    forall|k1: int, k2: int|
                        0 <= k1 < k2 < coords@.len() ==> row_major_lt(
                            #[trigger] coords@[k1],
                            #[trigger] coords@[k2],
                        ),
                    forall|k: int| 0 <= k < coords@.len() ==> row_major_lt(#[trigger] coords@[k], Coord { i: x, j: y }),
                decreases self.size.j - y,
            {
                if self.squares[x as usize][y as usize].exists {
                    row.push(Some(SquareIndex(coords.len())));
                    coords.push(Coord { i: x, j: y });
                } else {
                    row.push(None);
                }
                y += 1;
            }
            map.push(row);
            proof {
                assert forall|a: int, b: int|
                    0 <= a < x + 1 && 0 <= b < self.cols() && (#[trigger] map@[a]@[b]).is_some()
                        implies map@[a]@[b].unwrap().0 < coords@.len() && coords@[map@[a]@[b].unwrap().0 as int]
                        == (Coord { i: a as isize, j: b as isize }) by {
                    if a == x {
                        assert(map@[a] == row);
                    }
                }
            }
            x += 1;
        }
        (map, coords)
    }

    /// Prepares the rules of one declarative rule, appending them to `prepared`.
    pub fn prepare_rule(
        &self,
        rule: &Rule,
        grid: &PreparedGrid,
        off_by_one: bool,
        prepared: &mut Vec<PreparedRule>,
    ) -> (r: Result<(), PrepareError>)
        requires
            self.wf(),
            prepared_from(self, grid),
        ensures
            r is Err <==> rule_malformed(self, *rule, off_by_one),
            r is Err ==> final(prepared)@ == old(prepared)@,
            r is Ok ==> exists|new: Seq<PreparedRule>|
                final(prepared)@ == old(prepared)@ + new && expansion_ok(
                    self,
                    grid,
                    *rule,
                    off_by_one,
                    new,
                ) && forall|t: int|
                    0 <= t < new.len() ==> rule_indices_ok(#[trigger] new[t], grid.num_cells()),
    {
        let ghost start = prepared@;
        let n = grid.squares.len();
        match rule {
            Rule::BanPattern(pattern) => {
                if !pattern.is_valid() {
                    return Err(PrepareError::MalformedPuzzle);
                }
                push_ban_images(pattern, prepared);
                assert(prepared@ =~= start + prepared@.subrange(start.len() as int, prepared@.len() as int));
                assert(expansion_ok(self, grid, *rule, off_by_one, prepared@.subrange(start.len() as int, prepared@.len() as int)));
            },
            Rule::ConnectAll(color) => {
                prepared.push(PreparedRule::ConnectAll(*color));
                assert(prepared@.subrange(start.len() as int, prepared@.len() as int) =~= seq![PreparedRule::ConnectAll(*color)]);
                assert(expansion_ok(self, grid, *rule, off_by_one, prepared@.subrange(start.len() as int, prepared@.len() as int)));
            },
            Rule::RegionAreaEqualsNumber => {
                if off_by_one && self.any_unshiftable(grid, true) {
                    return Err(PrepareError::MalformedPuzzle);
                }
                self.push_number_rules(grid, off_by_one, true, prepared);
                assert(prepared@.subrange(start.len() as int, prepared@.len() as int) =~= number_rules(self, grid, n as int, off_by_one, true));
                assert(expansion_ok(self, grid, *rule, off_by_one, prepared@.subrange(start.len() as int, prepared@.len() as int)));
            },
            Rule::RegionFixedSize(color, size) => {
                prepared.push(PreparedRule::RegionFixedSize(*color, *size));
                assert(prepared@.subrange(start.len() as int, prepared@.len() as int) =~= seq![PreparedRule::RegionFixedSize(*color, *size)]);
                assert(expansion_ok(self, grid, *rule, off_by_one, prepared@.subrange(start.len() as int, prepared@.len() as int)));
            },
            Rule::ExactlyOneNumberPerRegion(color) => {
                let mut squares_with_number: Vec<SquareIndex> = Vec::new();
                let mut k: usize = 0;
                while k < n
                    invariant
                        self.wf(),
                        prepared_from(self, grid),
                        n == grid.num_cells(),
                        k <= n,
                        squares_with_number@ == numbered_cells(self, grid, k as int),
                        forall|t: int| 0 <= t < squares_with_number@.len() ==> (#[trigger] squares_with_number@[t]).0 < k,
                    decreases n - k,
                {
                    let c = grid.squares[k].coord;
                    if self.squares[c.i as usize][c.j as usize].area_number.is_some() {
                        squares_with_number.push(SquareIndex(k));
                    }
                    k += 1;
                }
                prepared.push(PreparedRule::ExactlyOneNumberPerRegion(*color, squares_with_number));
                assert(prepared@.subrange(start.len() as int, prepared@.len() as int) =~= seq![prepared@.last()]);
                assert(expansion_ok(self, grid, *rule, off_by_one, prepared@.subrange(start.len() as int, prepared@.len() as int)));
            },
            Rule::VisibleCellCount => {
                if off_by_one && self.any_unshiftable(grid, false) {
                    return Err(PrepareError::MalformedPuzzle);
                }
                self.push_number_rules(grid, off_by_one, false, prepared);
                assert(prepared@.subrange(start.len() as int, prepared@.len() as int) =~= number_rules(self, grid, n as int, off_by_one, false));
                assert(expansion_ok(self, grid, *rule, off_by_one, prepared@.subrange(start.len() as int, prepared@.len() as int)));
            },
            Rule::RegionsHaveDifferentShapes(color) => {
                prepared.push(PreparedRule::RegionsHaveDifferentShapes(*color));
                assert(prepared@.subrange(start.len() as int, prepared@.len() as int) =~= seq![PreparedRule::RegionsHaveDifferentShapes(*color)]);
                assert(expansion_ok(self, grid, *rule, off_by_one, prepared@.subrange(start.len() as int, prepared@.len() as int)));
            },
            Rule::NumbersAreOffByOne => {
                assert(prepared@.subrange(start.len() as int, prepared@.len() as int) =~= Seq::<PreparedRule>::empty());
                assert(expansion_ok(self, grid, *rule, off_by_one, prepared@.subrange(start.len() as int, prepared@.len() as int)));
            },
            Rule::DartNumbers => {
                self.push_dart_rules(grid, prepared);
                proof {
                    let w = choose|new: Seq<PreparedRule>|
                        prepared@ == start + new && new.len() == dart_cells(
                            self,
                            grid,
                            grid.num_cells(),
                        ).len() && (forall|t: int|
                            0 <= t < new.len() ==> dart_rule_of(
                                self,
                                grid,
                                dart_cells(self, grid, grid.num_cells())[t],
                                #[trigger] new[t],
                            )) && forall|t: int|
                            0 <= t < new.len() ==> rule_indices_ok(#[trigger] new[t], grid.num_cells());
                    assert(prepared@.subrange(start.len() as int, prepared@.len() as int) =~= w);
                    assert(expansion_ok(self, grid, *rule, off_by_one, prepared@.subrange(start.len() as int, prepared@.len() as int)));
                }
            },
        }
        proof {
            let new = prepared@.subrange(start.len() as int, prepared@.len() as int);
            assert(prepared@ =~= start + new);
            assert(expansion_ok(self, grid, *rule, off_by_one, new));
            assert(forall|t: int| 0 <= t < new.len() ==> rule_indices_ok(#[trigger] new[t], grid.num_cells()));
        }
        Ok(())
    }
}

impl Grid {
    /// Whether some existing cell has an area number (`area`) or a visibility count
    /// (otherwise) that cannot be shifted by one.
    fn any_unshiftable(&self, grid: &PreparedGrid, area: bool) -> (r: bool)
        requires
            self.wf(),
            prepared_from(self, grid),
        ensures
            r == exists|i: int, j: int|
                0 <= i < self.rows() && 0 <= j < self.cols() && (#[trigger] self.cell(i, j)).exists
                    && unshiftable(
                    if area {
                        self.cell(i, j).area_number
                    } else {
                        self.cell(i, j).visible_count
                    },
                ),
    {
        let n = grid.squares.len();
        let mut k: usize = 0;
        while k < n
            invariant
                self.wf(),
                prepared_from(self, grid),
                n == grid.num_cells(),
                k <= n,
                forall|q: int|
                    0 <= q < k ==> !unshiftable(
                        if area {
                            (#[trigger] clue_of(self, grid, q)).area_number
                        } else {
                            clue_of(self, grid, q).visible_count
                        },
                    ),
            decreases n - k,
        {
            let c = grid.squares[k].coord;
            let sq = self.squares[c.i as usize][c.j as usize];
            let clue = if area {
                sq.area_number
            } else {
                sq.visible_count
            };
            if let Some(v) = clue {
                if v == 0 || v == usize::MAX {
                    proof {
                        assert(self.cell(c.i as int, c.j as int).exists == grid.index_at(
                            c.i as int,
                            c.j as int,
                        ).is_some());
                    }
                    return true;
                }
            }
            k += 1;
        }
        proof {
            assert forall|i: int, j: int|
                0 <= i < self.rows() && 0 <= j < self.cols() && (#[trigger] self.cell(i, j)).exists
                    implies !unshiftable(
                    if area {
                        self.cell(i, j).area_number
                    } else {
                        self.cell(i, j).visible_count
                    },
                ) by {
                assert(grid.index_at(i, j).is_some());
                let x = grid.index_at(i, j).unwrap();
                assert(grid.squares@[x.0 as int].coord == Coord { i: i as isize, j: j as isize });
                assert(clue_of(self, grid, x.0 as int) == self.cell(i, j));
            }
        }
        false
    }

    /// Appends the area rules (`area`) or visibility rules of every numbered cell.
    fn push_number_rules(
        &self,
        grid: &PreparedGrid,
        off_by_one: bool,
        area: bool,
        prepared: &mut Vec<PreparedRule>,
    )
        requires
            self.wf(),
            prepared_from(self, grid),
            off_by_one ==> forall|q: int|
                0 <= q < grid.num_cells() ==> !unshiftable(
                    if area {
                        (#[trigger] clue_of(self, grid, q)).area_number
                    } else {
                        clue_of(self, grid, q).visible_count
                    },
                ),
        ensures
            final(prepared)@ == old(prepared)@ + number_rules(
                self,
                grid,
                grid.num_cells(),
                off_by_one,
                area,
            ),
            forall|t: int|
                0 <= t < number_rules(self, grid, grid.num_cells(), off_by_one, area).len()
                    ==> rule_indices_ok(
                    #[trigger] number_rules(self, grid, grid.num_cells(), off_by_one, area)[t],
                    grid.num_cells(),
                ),
    {
        let ghost start = prepared@;
        let n = grid.squares.len();
        let mut k: usize = 0;
        while k < n
            invariant
                self.wf(),
                prepared_from(self, grid),
                n == grid.num_cells(),
                k <= n,
                off_by_one ==> forall|q: int|
                    0 <= q < grid.num_cells() ==> !unshiftable(
                        if area {
                            (#[trigger] clue_of(self, grid, q)).area_number
                        } else {
                            clue_of(self, grid, q).visible_count
                        },
                    ),
                prepared@ == start + number_rules(self, grid, k as int, off_by_one, area),
                forall|t: int|
                    0 <= t < number_rules(self, grid, k as int, off_by_one, area).len()
                        ==> rule_indices_ok(
                        #[trigger] number_rules(self, grid, k as int, off_by_one, area)[t],
                        k as int,
                    ),
            decreases n - k,
        {
            let c = grid.squares[k].coord;
            let sq = self.squares[c.i as usize][c.j as usize];
            let clue = if area {
                sq.area_number
            } else {
                sq.visible_count
            };
            assert(clue_of(self, grid, k as int) == sq);
            let ghost before = number_rules(self, grid, k as int, off_by_one, area);
            if let Some(number) = clue {
                let index = SquareIndex(k);
                let rule = if area {
                    if off_by_one {
                        PreparedRule::RegionAreaEqualsEither(index, number - 1, number + 1)
                    } else {
                        PreparedRule::RegionAreaEqualsNumber(index, number)
                    }
                } else {
                    if off_by_one {
                        PreparedRule::VisibleCellCountEither(index, number - 1, number + 1)
                    } else {
                        PreparedRule::VisibleCellCount(index, number)
                    }
                };
                prepared.push(rule);
                assert(number_rules(self, grid, k + 1, off_by_one, area) == before.push(rule));
            }
            proof {
                let now = number_rules(self, grid, k + 1, off_by_one, area);
                assert(prepared@ =~= start + now);
                assert forall|t: int| 0 <= t < now.len() implies rule_indices_ok(#[trigger] now[t], k + 1) by {
                    if t < before.len() {
                        assert(now[t] == before[t]);
                    }
                }
            }
            k += 1;
        }
    }

    /// Appends one count rule per dart clue: the cells of the opposite color along the
    /// dart's direction must number as the clue says.
    fn push_dart_rules(&self, grid: &PreparedGrid, prepared: &mut Vec<PreparedRule>)
        requires
            self.wf(),
            prepared_from(self, grid),
        ensures
            exists|new: Seq<PreparedRule>|
                final(prepared)@ == old(prepared)@ + new && new.len() == dart_cells(
                    self,
                    grid,
                    grid.num_cells(),
                ).len() && (forall|t: int|
                    0 <= t < new.len() ==> dart_rule_of(
                        self,
                        grid,
                        dart_cells(self, grid, grid.num_cells())[t],
                        #[trigger] new[t],
                    )) && forall|t: int|
                    0 <= t < new.len() ==> rule_indices_ok(#[trigger] new[t], grid.num_cells()),
    {
        let ghost start = prepared@;
        let n = grid.squares.len();
        let mut k: usize = 0;
        while k < n
            invariant
                self.wf(),
                prepared_from(self, grid),
                n == grid.num_cells(),
                k <= n,
                start.len() <= prepared@.len(),
                prepared@.subrange(0, start.len() as int) == start,
                prepared@.len() - start.len() == dart_cells(self, grid, k as int).len(),
                forall|t: int|
                    0 <= t < dart_cells(self, grid, k as int).len() ==> dart_rule_of(
                        self,
                        grid,
                        dart_cells(self, grid, k as int)[t],
                        #[trigger] prepared@[start.len() + t],
                    ) && rule_indices_ok(prepared@[start.len() + t], n as int),
                forall|t: int|
                    0 <= t < dart_cells(self, grid, k as int).len() ==> 0 <= #[trigger] dart_cells(
                        self,
                        grid,
                        k as int,
                    )[t] < k,
            decreases n - k,
        {
            let c = grid.squares[k].coord;
            let sq = self.squares[c.i as usize][c.j as usize];
            assert(clue_of(self, grid, k as int) == sq);
            let ghost before = dart_cells(self, grid, k as int);
            if let Some((direction, number)) = sq.dart_number {
                assert(dart_has_color(self.squares@[c.i as int]@[c.j as int]));
                let color = sq.color.unwrap();
                let squares = ray_indices(grid, c, direction);
                let rule = PreparedRule::ColorCountInSet(number, color.opposite(), squares);
                prepared.push(rule);
                proof {
                    let now = dart_cells(self, grid, k + 1);
                    assert(now == before.push(k as int));
                    assert forall|t: int| 0 <= t < now.len() implies dart_rule_of(
                        self,
                        grid,
                        now[t],
                        #[trigger] prepared@[start.len() + t],
                    ) && rule_indices_ok(prepared@[start.len() + t], n as int) by {
                        if t < before.len() {
                            assert(now[t] == before[t]);
                        }
                    }
                }
            }
            proof {
                assert(prepared@.subrange(0, start.len() as int) =~= start);
            }
            k += 1;
        }
        let ghost new = prepared@.subrange(start.len() as int, prepared@.len() as int);
        assert(prepared@ =~= start + new);
        assert forall|t: int| 0 <= t < new.len() implies dart_rule_of(
            self,
            grid,
            dart_cells(self, grid, grid.num_cells())[t],
            #[trigger] new[t],
        ) && rule_indices_ok(new[t], grid.num_cells()) by {
            assert(new[t] == prepared@[start.len() + t]);
        }
    }
}

proof fn lemma_ray_indices_ok(pg: &PreparedGrid, i: int, j: int, d: Direction)
    requires
        pg.wf(),
    ensures
        forall|t: int| 0 <= t < ray(pg, i, j, d).len() ==> (#[trigger] ray(pg, i, j, d)[t]).0
            < pg.num_cells(),
    decreases ray_measure(pg.size, i, j, d),
{
    let (ni, nj) = step(Coord { i: i as isize, j: j as isize }, d);
    if 0 <= ni < pg.size.i && 0 <= nj < pg.size.j && 0 <= i < pg.size.i && 0 <= j < pg.size.j {
        lemma_ray_indices_ok(pg, ni, nj, d);
        let rest = ray(pg, ni, nj, d);
        assert(crate::prepare::index_ok(pg.index_at(ni, nj), pg.num_cells()));
        match pg.index_at(ni, nj) {
            Some(x) => {
                assert forall|t: int| 0 <= t < ray(pg, i, j, d).len() implies (#[trigger] ray(
                    pg,
                    i,
                    j,
                    d,
                )[t]).0 < pg.num_cells() by {
                    if t > 0 {
                        assert(ray(pg, i, j, d)[t] == rest[t - 1]);
                    }
                }
            },
            None => {},
        }
    }
}

/// The existing cells from `c` (excluded) to the edge in direction `d`.
fn ray_indices(grid: &PreparedGrid, c: Coord, d: Direction) -> (r: Vec<SquareIndex>)
    requires
        grid.wf(),
        in_box(c, grid.size),
    ensures
        r@ == ray(grid, c.i as int, c.j as int, d),
        forall|t: int| 0 <= t < r@.len() ==> (#[trigger] r@[t]).0 < grid.num_cells(),
{
    proof {
        lemma_ray_indices_ok(grid, c.i as int, c.j as int, d);
    }
    let mut squares: Vec<SquareIndex> = Vec::new();
    let mut cur = c;
    let mut next = cur.neighbor(d, grid.size);
    while next.is_some()
        invariant
            grid.wf(),
            in_box(cur, grid.size),
            next == neighbor_of(cur, d, grid.size),
            squares@ + ray(grid, cur.i as int, cur.j as int, d) == ray(grid, c.i as int, c.j as int, d),
        decreases ray_measure(grid.size, cur.i as int, cur.j as int, d),
    {
        let at = next.unwrap();
        let ghost old_sq = squares@;
        match grid.lookup(at.i, at.j) {
            Some(index) => {
                squares.push(index);
                assert(squares@ + ray(grid, at.i as int, at.j as int, d) =~= old_sq + ray(
                    grid,
                    cur.i as int,
                    cur.j as int,
                    d,
                ));
            },
            None => {},
        }
        cur = at;
        next = cur.neighbor(d, grid.size);
    }
    assert(ray(grid, cur.i as int, cur.j as int, d) =~= Seq::<SquareIndex>::empty());
    assert(squares@ =~= squares@ + Seq::<SquareIndex>::empty());
    squares
}

impl Grid {
    /// Appends the clue rules of prepared cell `k`.
    fn prepare_square(&self, grid: &PreparedGrid, k: usize, prepared: &mut Vec<PreparedRule>)
        requires
            self.wf(),
            prepared_from(self, grid),
            k < grid.num_cells(),
        ensures
            final(prepared)@ == old(prepared)@ + cell_rules(self, grid, k as int),
            forall|t: int|
                0 <= t < cell_rules(self, grid, k as int).len() ==> rule_indices_ok(
                    #[trigger] cell_rules(self, grid, k as int)[t],
                    grid.num_cells(),
                ),
    {
        let ghost start = prepared@;
        let s = &grid.squares[k];
        let c = s.coord;
        let square = self.squares[c.i as usize][c.j as usize];
        assert(clue_of(self, grid, k as int) == square);
        let index = SquareIndex(k);
        if let Some(color) = square.color {
            prepared.push(PreparedRule::SquareIsColor(index, color));
        }
        if square.merge_with_right {
            if let Some(right) = s.right {
                prepared.push(PreparedRule::SquaresAreSameColor(index, right));
            }
        }
        if square.merge_with_bottom {
            if let Some(below) = s.below {
                prepared.push(PreparedRule::SquaresAreSameColor(index, below));
            }
        }
        assert(prepared@ =~= start + cell_rules(self, grid, k as int));
    }

    /// The prepared cells of the grid, with no rules yet.
    fn prepare_structure(&self) -> (pg: PreparedGrid)
        requires
            self.wf(),
        ensures
            prepared_from(self, &pg),
            pg.rules@.len() == 0,
            forall|k1: int, k2: int|
                0 <= k1 < k2 < pg.num_cells() ==> row_major_lt(
                    #[trigger] pg.squares@[k1].coord,
                    #[trigger] pg.squares@[k2].coord,
                ),
    {
        let (square_indexes, coords) = self.index_cells();
        let ghost idx = square_indexes@;
        let mut index_grid = PreparedGrid {
            size: self.size,
            square_indexes,
            squares: Vec::new(),
            rules: Vec::new(),
        };
        let mut prepared_squares: Vec<PreparedSquare> = Vec::new();
        let mut k: usize = 0;
        while k < coords.len()
            invariant
                self.wf(),
                index_grid.size == self.size,
                index_grid.square_indexes@ == idx,
                index_grid.index_shape(),
                idx.len() == self.rows(),
                forall|a: int| 0 <= a < self.rows() ==> (#[trigger] idx[a])@.len() == self.cols(),
                forall|k: int|
                    0 <= k < coords@.len() ==> 0 <= (#[trigger] coords@[k]).i < self.rows() && 0
                        <= coords@[k].j < self.cols() && idx[coords@[k].i as int]@[coords@[k].j as int]
                        == Some(SquareIndex(k as usize)),
                k <= coords@.len(),
                prepared_squares@.len() == k,
                forall|q: int|
                    0 <= q < k ==> {
                        let s = #[trigger] prepared_squares@[q];
                        &&& s.index.0 == q
                        &&& s.coord == coords@[q]
                        &&& s.left == index_grid.index_at(s.coord.i as int, s.coord.j - 1)
                        &&& s.right == index_grid.index_at(s.coord.i as int, s.coord.j + 1)
                        &&& s.above == index_grid.index_at(s.coord.i - 1, s.coord.j as int)
                        &&& s.below == index_grid.index_at(s.coord.i + 1, s.coord.j as int)
                    },
            decreases coords.len() - k,
        {
            let c = coords[k];
            let square = PreparedSquare {
                index: SquareIndex(k),
                coord: c,
                left: index_grid.lookup(c.i, c.j - 1),
                right: index_grid.lookup(c.i, c.j + 1),
                above: index_grid.lookup(c.i - 1, c.j),
                below: index_grid.lookup(c.i + 1, c.j),
            };
            prepared_squares.push(square);
            k += 1;
        }
        index_grid.squares = prepared_squares;
        let ghost n = coords@.len() as int;
        proof {
            assert(index_grid.num_cells() == n);
            assert forall|i: int, j: int| crate::prepare::index_ok(#[trigger] index_grid.index_at(i, j), n) by {
                if 0 <= i < self.rows() && 0 <= j < self.cols() {
                }
            }
            assert forall|i: int, j: int| (#[trigger] index_grid.index_at(i, j)).is_some() implies index_grid.squares@[index_grid.index_at(i, j).unwrap().0 as int].coord
                    == (Coord { i: i as isize, j: j as isize }) by {
            }
            assert(index_grid.symmetric()) by {
                assert forall|k: int| 0 <= k < n implies {
                    let s = #[trigger] index_grid.squares@[k];
                    &&& (s.right matches Some(x) ==> index_grid.squares@[x.0 as int].left == Some(SquareIndex(k as usize)))
                    &&& (s.left matches Some(x) ==> index_grid.squares@[x.0 as int].right == Some(SquareIndex(k as usize)))
                    &&& (s.below matches Some(x) ==> index_grid.squares@[x.0 as int].above == Some(SquareIndex(k as usize)))
                    &&& (s.above matches Some(x) ==> index_grid.squares@[x.0 as int].below == Some(SquareIndex(k as usize)))
                } by {
                    let s = index_grid.squares@[k];
                    let c = s.coord;
                    assert(index_grid.index_at(c.i as int, c.j as int) == Some(SquareIndex(k as usize)));
                    if let Some(x) = s.right {
                        assert(index_grid.squares@[x.0 as int].coord == Coord { i: c.i, j: (c.j + 1) as isize });
                    }
                    if let Some(x) = s.left {
                        assert(index_grid.squares@[x.0 as int].coord == Coord { i: c.i, j: (c.j - 1) as isize });
                    }
                    if let Some(x) = s.below {
                        assert(index_grid.squares@[x.0 as int].coord == Coord { i: (c.i + 1) as isize, j: c.j });
                    }
                    if let Some(x) = s.above {
                        assert(index_grid.squares@[x.0 as int].coord == Coord { i: (c.i - 1) as isize, j: c.j });
                    }
                }
            }
            assert(index_grid.wf());
        }
        index_grid
    }

    /// Whether the rule list holds the off-by-one modifier.
    fn numbers_off_by_one(&self) -> (r: bool)
        ensures
            r == has_off_by_one(self.rule_list()),
    {
        let mut off_by_one = false;
        let mut t: usize = 0;
        while t < self.rules.len()
            invariant
                t <= self.rules@.len(),
                off_by_one == exists|q: int| 0 <= q < t && self.rules@[q] is NumbersAreOffByOne,
            decreases self.rules.len() - t,
        {
            if let Rule::NumbersAreOffByOne = self.rules[t] {
                off_by_one = true;
            }
            t += 1;
        }
        off_by_one
    }

    /// Expands every rule of the rule list, in order.
    fn prepare_rules(&self, grid: &PreparedGrid, off_by_one: bool) -> (r: Result<
        Vec<PreparedRule>,
        PrepareError,
    >)
        requires
            self.wf(),
            prepared_from(self, grid),
        ensures
            r is Err <==> exists|t: int|
                0 <= t < self.rule_list().len() && rule_malformed(
                    self,
                    #[trigger] self.rule_list()[t],
                    off_by_one,
                ),
            r matches Ok(rules) ==> {
                &&& exists|chunks: Seq<Seq<PreparedRule>>|
                    chunks.len() == self.rule_list().len() && (forall|t: int|
                        0 <= t < chunks.len() ==> expansion_ok(
                            self,
                            grid,
                            self.rule_list()[t],
                            off_by_one,
                            #[trigger] chunks[t],
                        )) && rules@ == joined(chunks)
                &&& forall|q: int|
                    0 <= q < rules@.len() ==> rule_indices_ok(#[trigger] rules@[q], grid.num_cells())
            },
    {
        let mut rules: Vec<PreparedRule> = Vec::new();
        let ghost mut chunks: Seq<Seq<PreparedRule>> = Seq::empty();
        let mut t: usize = 0;
        while t < self.rules.len()
            invariant
                self.wf(),
                prepared_from(self, grid),
                t <= self.rules@.len(),
                chunks.len() == t,
                forall|q: int| 0 <= q < t ==> !rule_malformed(self, #[trigger] self.rules@[q], off_by_one),
                forall|q: int|
                    0 <= q < t ==> expansion_ok(
                        self,
                        grid,
                        self.rules@[q],
                        off_by_one,
                        #[trigger] chunks[q],
                    ),
                rules@ == joined(chunks),
                forall|q: int|
                    0 <= q < rules@.len() ==> rule_indices_ok(#[trigger] rules@[q], grid.num_cells()),
            decreases self.rules.len() - t,
        {
            let ghost before = rules@;
            match self.prepare_rule(&self.rules[t], grid, off_by_one, &mut rules) {
                Err(e) => {
                    assert(rule_malformed(self, self.rule_list()[t as int], off_by_one));
                    return Err(e);
                },
                Ok(()) => {},
            }
            proof {
                let new = choose|new: Seq<PreparedRule>|
                    rules@ == before + new && expansion_ok(
                        self,
                        grid,
                        self.rules@[t as int],
                        off_by_one,
                        new,
                    ) && forall|q: int|
                        0 <= q < new.len() ==> rule_indices_ok(#[trigger] new[q], grid.num_cells());
                lemma_joined_push(chunks, new);
                chunks = chunks.push(new);
                assert forall|q: int| 0 <= q < rules@.len() implies rule_indices_ok(#[trigger] rules@[q], grid.num_cells()) by {
                    if q >= before.len() {
                        assert(rules@[q] == new[q - before.len()]);
                    } else {
                        assert(rules@[q] == before[q]);
                    }
                }
            }
            t += 1;
        }
        Ok(rules)
    }

    /// Appends the clue rules of every cell, in index order.
    fn prepare_clue_rules(&self, grid: &PreparedGrid, rules: &mut Vec<PreparedRule>)
        requires
            self.wf(),
            prepared_from(self, grid),
            forall|q: int|
                0 <= q < old(rules)@.len() ==> rule_indices_ok(#[trigger] old(rules)@[q], grid.num_cells()),
        ensures
            final(rules)@ == old(rules)@ + clue_rules(self, grid, grid.num_cells()),
            forall|q: int|
                0 <= q < final(rules)@.len() ==> rule_indices_ok(#[trigger] final(rules)@[q], grid.num_cells()),
    {
        let ghost rule_part = rules@;
        let mut k: usize = 0;
        while k < grid.squares.len()
            invariant
                self.wf(),
                prepared_from(self, grid),
                k <= grid.num_cells(),
                rules@ == rule_part + clue_rules(self, grid, k as int),
                forall|q: int|
                    0 <= q < rules@.len() ==> rule_indices_ok(#[trigger] rules@[q], grid.num_cells()),
            decreases grid.squares.len() - k,
        {
            let ghost before = rules@;
            self.prepare_square(grid, k, rules);
            proof {
                assert(rules@ =~= rule_part + clue_rules(self, grid, k + 1));
                assert forall|q: int| 0 <= q < rules@.len() implies rule_indices_ok(#[trigger] rules@[q], grid.num_cells()) by {
                    if q >= before.len() {
                        assert(rules@[q] == cell_rules(self, grid, k as int)[q - before.len()]);
                    } else {
                        assert(rules@[q] == before[q]);
                    }
                }
            }
            k += 1;
        }
    }

    /// Compiles the grid: dense row-major indices for the existing cells, their
    /// neighbours, and the prepared rules (those of the rule list in order, each expanded,
    /// then the clue rules of each cell in index order).
    pub fn prepare(&self) -> (r: Result<PreparedGrid, PrepareError>)
        requires
            self.wf(),
        ensures
            r is Err <==> exists|t: int|
                0 <= t < self.rule_list().len() && rule_malformed(
                    self,
                    #[trigger] self.rule_list()[t],
                    has_off_by_one(self.rule_list()),
                ),
            r matches Ok(pg) ==> {
                &&& prepared_from(self, &pg)
                &&& row_major_sorted(&pg)
                &&& exists|chunks: Seq<Seq<PreparedRule>>|
                    chunks.len() == self.rule_list().len() && (forall|t: int|
                        0 <= t < chunks.len() ==> expansion_ok(
                            self,
                            &pg,
                            self.rule_list()[t],
                            has_off_by_one(self.rule_list()),
                            #[trigger] chunks[t],
                        )) && pg.rules@ == joined(chunks) + clue_rules(self, &pg, pg.num_cells())
            },
    {
        let structure = self.prepare_structure();
        let off_by_one = self.numbers_off_by_one();
        let mut rules = match self.prepare_rules(&structure, off_by_one) {
            Ok(rules) => rules,
            Err(e) => {
                return Err(e);
            },
        };
        self.prepare_clue_rules(&structure, &mut rules);
        let ghost before = structure;
        let PreparedGrid { size, square_indexes, squares, rules: _ } = structure;
        let pg = PreparedGrid { size, square_indexes, squares, rules };
        proof {
            lemma_same_cells(self, &before, &pg);
        }
        Ok(pg)
    }
}

/// Two prepared grids with the same cells agree on everything the rule specs read.
proof fn lemma_same_cells(g: &Grid, a: &PreparedGrid, b: &PreparedGrid)
    requires
        prepared_from(g, a),
        a.size == b.size,
        a.square_indexes == b.square_indexes,
        a.squares == b.squares,
        forall|q: int| 0 <= q < b.rules@.len() ==> rule_indices_ok(#[trigger] b.rules@[q], b.num_cells()),
    ensures
        prepared_from(g, b),
        forall|rule: Rule, off: bool, new: Seq<PreparedRule>| #[trigger] expansion_ok(g, a, rule, off, new) == expansion_ok(g, b, rule, off, new),
        clue_rules(g, a, a.num_cells()) == clue_rules(g, b, b.num_cells()),
{
    assert(b.num_cells() == a.num_cells());
    assert forall|i: int, j: int| #[trigger] b.index_at(i, j) == a.index_at(i, j) by {}
    assert(b.index_shape());
    assert(b.symmetric());
    assert(b.wf());
    assert forall|k: int| #[trigger] clue_of(g, a, k) == clue_of(g, b, k) by {}
    assert forall|k: int| #[trigger] numbered_cells(g, a, k) == numbered_cells(g, b, k) by {
        lemma_same_numbered(g, a, b, k);
    }
    assert forall|k: int| #[trigger] dart_cells(g, a, k) == dart_cells(g, b, k) by {
        lemma_same_darts(g, a, b, k);
    }
    assert forall|k: int, off: bool, area: bool| #[trigger] number_rules(g, a, k, off, area) == number_rules(g, b, k, off, area) by {
        lemma_same_numbers(g, a, b, k, off, area);
    }
    assert forall|k: int| #[trigger] clue_rules(g, a, k) == clue_rules(g, b, k) by {
        lemma_same_clues(g, a, b, k);
    }
    assert forall|i: int, j: int, d: Direction| #[trigger] ray(a, i, j, d) == ray(b, i, j, d) by {
        lemma_same_ray(a, b, i, j, d);
    }
    assert forall|rule: Rule, off: bool, new: Seq<PreparedRule>| #[trigger] expansion_ok(g, a, rule, off, new) == expansion_ok(g, b, rule, off, new) by {
        assert forall|k: int, r: PreparedRule| #[trigger] dart_rule_of(g, a, k, r) == dart_rule_of(g, b, k, r) by {}
    }
}

proof fn lemma_same_numbered(g: &Grid, a: &PreparedGrid, b: &PreparedGrid, k: int)
    requires
        a.squares == b.squares,
    ensures
        numbered_cells(g, a, k) == numbered_cells(g, b, k),
    decreases k,
{
    if k > 0 {
        lemma_same_numbered(g, a, b, k - 1);
    }
}

proof fn lemma_same_darts(g: &Grid, a: &PreparedGrid, b: &PreparedGrid, k: int)
    requires
        a.squares == b.squares,
    ensures
        dart_cells(g, a, k) == dart_cells(g, b, k),
    decreases k,
{
    if k > 0 {
        lemma_same_darts(g, a, b, k - 1);
    }
}

proof fn lemma_same_numbers(g: &Grid, a: &PreparedGrid, b: &PreparedGrid, k: int, off: bool, area: bool)
    requires
        a.squares == b.squares,
    ensures
        number_rules(g, a, k, off, area) == number_rules(g, b, k, off, area),
    decreases k,
{
    if k > 0 {
        lemma_same_numbers(g, a, b, k - 1, off, area);
    }
}

proof fn lemma_same_clues(g: &Grid, a: &PreparedGrid, b: &PreparedGrid, k: int)
    requires
        a.squares == b.squares,
    ensures
        clue_rules(g, a, k) == clue_rules(g, b, k),
    decreases k,
{
    if k > 0 {
        lemma_same_clues(g, a, b, k - 1);
        assert(cell_rules(g, a, k - 1) == cell_rules(g, b, k - 1));
    }
}

proof fn lemma_same_ray(a: &PreparedGrid, b: &PreparedGrid, i: int, j: int, d: Direction)
    requires
        a.size == b.size,
        a.square_indexes == b.square_indexes,
    ensures
        ray(a, i, j, d) == ray(b, i, j, d),
    decreases ray_measure(a.size, i, j, d),
{
    let (ni, nj) = step(Coord { i: i as isize, j: j as isize }, d);
    if 0 <= ni < a.size.i && 0 <= nj < a.size.j && 0 <= i < a.size.i && 0 <= j < a.size.j {
        lemma_same_ray(a, b, ni, nj, d);
    }
}

/// Appends one ban rule per distinct rotation and reflection of `pattern`.
fn push_ban_images(pattern: &GridPattern, prepared: &mut Vec<PreparedRule>)
    requires
        pattern.valid(),
    ensures
        final(prepared)@.len() >= old(prepared)@.len(),
        final(prepared)@.subrange(0, old(prepared)@.len() as int) == old(prepared)@,
        ban_expansion(
            pattern,
            final(prepared)@.subrange(old(prepared)@.len() as int, final(prepared)@.len() as int),
        ),
{
    let ghost start = prepared@;
        let rots = pattern.all_rotations_and_reflections();
        let mut k: usize = 0;
        while k < rots.len()
            invariant
                k <= rots@.len(),
                1 <= rots@.len() <= 8,
                canonical_of(pattern.pattern@, rots@[0].pattern@),
                prepared@.len() == start.len() + k,
                prepared@.subrange(0, start.len() as int) == start,
                forall|t: int|
                    0 <= t < k ==> (#[trigger] prepared@[start.len() + t] matches PreparedRule::BanPattern(q)
                        && q.pattern@ == rots@[t].pattern@ && q.valid()),
                forall|t: int| 0 <= t < rots@.len() ==> (#[trigger] rots@[t]).valid(),
            decreases rots.len() - k,
        {
            prepared.push(PreparedRule::BanPattern(rots[k].clone_pattern()));
            proof {
                assert(prepared@.subrange(0, start.len() as int) =~= start);
            }
            k += 1;
        }
        let ghost new = prepared@.subrange(start.len() as int, prepared@.len() as int);
        assert(prepared@ =~= start + new);
        assert forall|a: int, b: int| 0 <= a < b < new.len() implies (#[trigger] new[a])
            != #[trigger] new[b] by {
            assert(new[a] == prepared@[start.len() + a]);
            assert(new[b] == prepared@[start.len() + b]);
            assert(rots@[a].pattern@ != rots@[b].pattern@);
        }
        assert forall|t: int| 0 <= t < new.len() implies (#[trigger] new[t] matches PreparedRule::BanPattern(q)
            && q.valid()) by {
            assert(new[t] == prepared@[start.len() + t]);
        }
        assert(new[0] == prepared@[start.len() as int]);
        assert(new.len() == rots@.len());
        assert(1 <= new.len() <= 8);
        let ghost t0: int = 0;
        assert(prepared@[start.len() + t0] matches PreparedRule::BanPattern(q) && q.pattern@ == rots@[t0].pattern@);
        assert(new[0] matches PreparedRule::BanPattern(q) && canonical_of(pattern.pattern@, q.pattern@));
        proof {
            let (cur, refl) = choose|cur: Seq<Seq<(Coord, Color)>>, refl: Seq<Seq<(Coord, Color)>>|
                dihedral_trail(pattern.pattern@, cur, refl) && #[trigger] patterns_of(rots@) == dedup(
                    candidates(cur, refl),
                );
            assert forall|t: int| 0 <= t < new.len() implies (#[trigger] new[t] matches PreparedRule::BanPattern(q)
                && q.pattern@ == dedup(candidates(cur, refl))[t] && q.valid()) by {
                assert(new[t] == prepared@[start.len() + t]);
                assert(patterns_of(rots@)[t] == rots@[t].pattern@);
            }
            assert(ban_rules_for(new, dedup(candidates(cur, refl))));
        }
        assert(ban_expansion(pattern, new));
}

/// `new` bans exactly the given patterns, one valid rule each, in order.
pub open spec fn ban_rules_for(new: Seq<PreparedRule>, pats: Seq<Seq<(Coord, Color)>>) -> bool {
    &&& new.len() == pats.len()
    &&& forall|t: int|
        0 <= t < new.len() ==> (#[trigger] new[t] matches PreparedRule::BanPattern(q)
            && q.pattern@ == pats[t] && q.valid())
}

/// `new` bans the distinct rotations and reflections of `pattern`, in the order in which
/// `all_rotations_and_reflections` lists them: at most eight, each in canonical form, the
/// first the canonical form of `pattern` itself.
pub open spec fn ban_expansion(pattern: &GridPattern, new: Seq<PreparedRule>) -> bool {
    &&& exists|cur: Seq<Seq<(Coord, Color)>>, refl: Seq<Seq<(Coord, Color)>>|
        dihedral_trail(pattern.pattern@, cur, refl) && #[trigger] ban_rules_for(
            new,
            dedup(candidates(cur, refl)),
        )
    &&& 1 <= new.len() <= 8
    &&& (new[0] matches PreparedRule::BanPattern(q) && canonical_of(pattern.pattern@, q.pattern@))
    &&& forall|a: int, b: int| 0 <= a < b < new.len() ==> (#[trigger] new[a]) != #[trigger] new[b]
}

} // verus!
