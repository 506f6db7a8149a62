use vstd::prelude::*;
use crate::grid::{Color, Coord, SquareIndex};
use crate::pattern::GridPattern;

verus! {

/// A rule in normalized form, referring to cells by dense index.
#[derive(Debug)]
pub enum PreparedRule {
    SquareIsColor(SquareIndex, Color),
    SquaresAreSameColor(SquareIndex, SquareIndex),
    BanPattern(GridPattern),
    ConnectAll(Color),
    RegionFixedSize(Color, usize),
    ExactlyOneNumberPerRegion(Color, Vec<SquareIndex>),
    RegionAreaEqualsNumber(SquareIndex, usize),
    VisibleCellCount(SquareIndex, usize),
    RegionAreaEqualsEither(SquareIndex, usize, usize),
    VisibleCellCountEither(SquareIndex, usize, usize),
    RegionsHaveDifferentShapes(Color),
    ColorCountInSet(usize, Color, Vec<SquareIndex>),
}

/// An existing cell with its resolved neighbours.
#[derive(Debug)]
pub struct PreparedSquare {
    pub index: SquareIndex,
    pub coord: Coord,
    pub left: Option<SquareIndex>,
    pub right: Option<SquareIndex>,
    pub above: Option<SquareIndex>,
    pub below: Option<SquareIndex>,
}

/// The compiled puzzle: dense cells with adjacency, and normalized rules.
/// `square_indexes[i][j]` is the index of the cell at row `i`, column `j`, if it exists.
#[derive(Debug)]
pub struct PreparedGrid {
    pub size: Coord,
    pub square_indexes: Vec<Vec<Option<SquareIndex>>>,
    pub squares: Vec<PreparedSquare>,
    pub rules: Vec<PreparedRule>,
}

pub open spec fn index_ok(o: Option<SquareIndex>, n: int) -> bool {
    match o {
        Some(x) => x.0 < n,
        None => true,
    }
}

pub open spec fn indices_ok(v: Seq<SquareIndex>, n: int) -> bool {
    forall|k: int| 0 <= k < v.len() ==> #[trigger] v[k].0 < n
}

pub open spec fn rule_indices_ok(r: PreparedRule, n: int) -> bool {
    match r {
        PreparedRule::SquareIsColor(a, _) => a.0 < n,
        PreparedRule::SquaresAreSameColor(a, b) => a.0 < n && b.0 < n,
        PreparedRule::ExactlyOneNumberPerRegion(_, v) => indices_ok(v@, n),
        PreparedRule::RegionAreaEqualsNumber(a, _) => a.0 < n,
        PreparedRule::VisibleCellCount(a, _) => a.0 < n,
        PreparedRule::RegionAreaEqualsEither(a, _, _) => a.0 < n,
        PreparedRule::VisibleCellCountEither(a, _, _) => a.0 < n,
        PreparedRule::ColorCountInSet(_, _, v) => indices_ok(v@, n),
        _ => true,
    }
}

impl PreparedGrid {
    pub open spec fn num_cells(&self) -> int {
        self.squares@.len() as int
    }

    /// The index recorded for a coordinate, if it lies in the box and exists.
    pub open spec fn index_at(&self, i: int, j: int) -> Option<SquareIndex> {
        if 0 <= i < self.size.i && 0 <= j < self.size.j {
            self.square_indexes@[i]@[j]
        } else {
            None
        }
    }

    /// The index map covers the bounding box.
    pub open spec fn index_shape(&self) -> bool {
        &&& self.size.i >= 0
        &&& self.size.j >= 0
        &&& self.square_indexes@.len() == self.size.i
        &&& forall|i: int| 0 <= i < self.size.i ==> #[trigger] self.square_indexes@[i]@.len()
            == self.size.j
    }

    /// Structural invariants: dense indices, symmetric adjacency, in-range references.
    pub open spec fn wf(&self) -> bool {
        let n = self.num_cells();
        &&& self.index_shape()
        &&& forall|i: int, j: int| index_ok(#[trigger] self.index_at(i, j), n)
        &&& forall|k: int|
            0 <= k < n ==> {
                let s = #[trigger] self.squares@[k];
                &&& s.index.0 == k
                &&& 0 <= s.coord.i < self.size.i
                &&& 0 <= s.coord.j < self.size.j
                &&& self.index_at(s.coord.i as int, s.coord.j as int) == Some(SquareIndex(k as usize))
                &&& s.left == self.index_at(s.coord.i as int, s.coord.j - 1)
                &&& s.right == self.index_at(s.coord.i as int, s.coord.j + 1)
                &&& s.above == self.index_at(s.coord.i - 1, s.coord.j as int)
                &&& s.below == self.index_at(s.coord.i + 1, s.coord.j as int)
            }
        &&& forall|i: int, j: int| #[trigger]
            self.index_at(i, j) matches Some(x) ==> self.squares@[x.0 as int].coord == (Coord {
                i: i as isize,
                j: j as isize,
            })
        &&& forall|r: int| 0 <= r < self.rules@.len() ==> rule_indices_ok(#[trigger] self.rules@[r], n)
        &&& self.symmetric()
    }

    /// Every adjacency recorded on a cell is recorded back on its neighbour.
    pub open spec fn symmetric(&self) -> bool {
        forall|k: int|
            0 <= k < self.num_cells() ==> {
                let s = #[trigger] self.squares@[k];
                &&& (s.right matches Some(x) ==> self.squares@[x.0 as int].left == Some(SquareIndex(k as usize)))
                &&& (s.left matches Some(x) ==> self.squares@[x.0 as int].right == Some(SquareIndex(k as usize)))
                &&& (s.below matches Some(x) ==> self.squares@[x.0 as int].above == Some(SquareIndex(k as usize)))
                &&& (s.above matches Some(x) ==> self.squares@[x.0 as int].below == Some(SquareIndex(k as usize)))
            }
    }
}

impl PreparedGrid {
    /// The index of the existing cell at `(i, j)`, if there is one.
    pub fn lookup(&self, i: isize, j: isize) -> (r: Option<SquareIndex>)
        requires
            self.index_shape(),
        ensures
            r == self.index_at(i as int, j as int),
    {
        if i < 0 || j < 0 || i >= self.size.i || j >= self.size.j {
            None
        } else {
            self.square_indexes[i as usize][j as usize]
        }
    }
}

} // verus!
