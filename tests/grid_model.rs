use grid_puzzle::grid::{Color, Coord, Direction, Grid, PrepareError, Rule, SquareIndex};
use grid_puzzle::pattern::GridPattern;
use grid_puzzle::prepare::{PreparedGrid, PreparedRule};

fn prepared(grid: &Grid) -> PreparedGrid {
    match grid.prepare() {
        Ok(pg) => pg,
        Err(e) => panic!("prepare failed: {:?}", e),
    }
}

fn entries(p: &GridPattern) -> Vec<(isize, isize, Color)> {
    p.pattern.iter().map(|(c, col)| (c.i, c.j, *col)).collect()
}

#[test]
fn opposite_swaps_colors() {
    assert_eq!(Color::Light.opposite(), Color::Dark);
    assert_eq!(Color::Dark.opposite(), Color::Light);
}

#[test]
fn new_grid_has_every_cell_blank() {
    let g = Grid::new(2, 3);
    assert_eq!(g.size(), Coord { i: 2, j: 3 });
    let sq = g.square(Coord { i: 1, j: 2 }).unwrap();
    assert!(sq.exists);
    assert!(sq.color.is_none());
    assert!(g.square(Coord { i: 2, j: 0 }).is_none());
    assert!(g.square(Coord { i: 0, j: -1 }).is_none());
}

#[test]
fn setters_record_clues() {
    let mut g = Grid::new(3, 3);
    g.color_light(0, 0);
    g.color_dark(0, 1);
    g.set_area_number(1, 1, 4);
    g.visible_count(2, 2, 5);
    g.join_right(1, 0);
    g.join_bottom(0, 2);
    g.dart_number(2, 0, Direction::Up, 1, Color::Dark);
    g.remove_square(2, 1);
    assert_eq!(g.square(Coord { i: 0, j: 0 }).unwrap().color, Some(Color::Light));
    assert_eq!(g.square(Coord { i: 0, j: 1 }).unwrap().color, Some(Color::Dark));
    assert_eq!(g.square(Coord { i: 1, j: 1 }).unwrap().area_number, Some(4));
    assert_eq!(g.square(Coord { i: 2, j: 2 }).unwrap().visible_count, Some(5));
    assert!(g.square(Coord { i: 1, j: 0 }).unwrap().merge_with_right);
    assert!(g.square(Coord { i: 0, j: 2 }).unwrap().merge_with_bottom);
    let dart = g.square(Coord { i: 2, j: 0 }).unwrap();
    assert_eq!(dart.dart_number, Some((Direction::Up, 1)));
    assert_eq!(dart.color, Some(Color::Dark));
    assert!(g.square(Coord { i: 2, j: 1 }).is_none());
}

#[test]
fn squares_lists_existing_cells_row_major() {
    let mut g = Grid::new(2, 2);
    g.remove_square(0, 1);
    let coords: Vec<Coord> = g.squares().iter().map(|(c, _)| *c).collect();
    assert_eq!(
        coords,
        vec![Coord { i: 0, j: 0 }, Coord { i: 1, j: 0 }, Coord { i: 1, j: 1 }]
    );
}

#[test]
fn square2x2_lists_its_four_cells() {
    let p = GridPattern::square2x2(Color::Light, Color::Dark, Color::Dark, Color::Light);
    assert_eq!(
        entries(&p),
        vec![
            (0, 0, Color::Light),
            (0, 1, Color::Dark),
            (1, 0, Color::Dark),
            (1, 1, Color::Light)
        ]
    );
}

fn l_shape() -> GridPattern {
    GridPattern {
        pattern: vec![
            (Coord { i: 0, j: 0 }, Color::Dark),
            (Coord { i: 1, j: 0 }, Color::Dark),
            (Coord { i: 1, j: 1 }, Color::Light),
        ],
    }
}

#[test]
fn rotate_turns_a_quarter_and_canonicalizes() {
    // (0,0),(1,0),(1,1) -> (0,0),(0,1),(-1,1) -> shifted by (1,0), sorted.
    let r = l_shape().rotate();
    assert_eq!(
        entries(&r),
        vec![(0, 1, Color::Light), (1, 0, Color::Dark), (1, 1, Color::Dark)]
    );
}

#[test]
fn reflect_mirrors_rows() {
    // (0,0),(1,0),(1,1) -> (0,0),(-1,0),(-1,1) -> shifted by (1,0), sorted.
    let r = l_shape().reflect();
    assert_eq!(
        entries(&r),
        vec![(0, 0, Color::Dark), (0, 1, Color::Light), (1, 0, Color::Dark)]
    );
}

#[test]
fn four_rotations_return_to_the_canonical_form() {
    let p = GridPattern {
        pattern: vec![
            (Coord { i: 5, j: 3 }, Color::Light),
            (Coord { i: 4, j: 3 }, Color::Dark),
            (Coord { i: 4, j: 5 }, Color::Dark),
        ],
    };
    let start = p.rotate().rotate().rotate().rotate();
    let canonical = p.rotate().rotate().rotate().rotate().rotate().rotate().rotate().rotate();
    assert_eq!(entries(&start), entries(&canonical));
    assert_eq!(
        entries(&start),
        vec![(0, 0, Color::Dark), (0, 2, Color::Dark), (1, 0, Color::Light)]
    );
}

#[test]
fn closure_of_an_asymmetric_pattern_has_eight_members() {
    let p = GridPattern {
        pattern: vec![
            (Coord { i: 0, j: 0 }, Color::Dark),
            (Coord { i: 1, j: 0 }, Color::Dark),
            (Coord { i: 2, j: 0 }, Color::Dark),
            (Coord { i: 2, j: 1 }, Color::Dark),
        ],
    };
    let all = p.all_rotations_and_reflections();
    assert_eq!(all.len(), 8);
    assert_eq!(entries(&all[0]), entries(&p));
}

#[test]
fn closure_of_a_uniform_block_has_one_member() {
    let p = GridPattern::square2x2(Color::Dark, Color::Dark, Color::Dark, Color::Dark);
    assert_eq!(p.all_rotations_and_reflections().len(), 1);
    let q = GridPattern::square2x2(Color::Light, Color::Dark, Color::Dark, Color::Light);
    assert_eq!(q.all_rotations_and_reflections().len(), 2);
}

#[test]
fn offset_translates_without_reordering() {
    let o = l_shape().offset(Coord { i: 2, j: -1 });
    assert_eq!(
        entries(&o),
        vec![(2, -1, Color::Dark), (3, -1, Color::Dark), (3, 0, Color::Light)]
    );
}

#[test]
fn prepare_indexes_existing_cells_row_major() {
    let mut g = Grid::new(2, 3);
    g.remove_square(0, 1);
    let pg = prepared(&g);
    assert_eq!(pg.squares.len(), 5);
    assert_eq!(pg.square_indexes[0][0], Some(SquareIndex(0)));
    assert_eq!(pg.square_indexes[0][1], None);
    assert_eq!(pg.square_indexes[0][2], Some(SquareIndex(1)));
    assert_eq!(pg.square_indexes[1][0], Some(SquareIndex(2)));
    assert_eq!(pg.square_indexes[1][2], Some(SquareIndex(4)));
    // No adjacency across the missing cell.
    assert_eq!(pg.squares[0].right, None);
    assert_eq!(pg.squares[0].below, Some(SquareIndex(2)));
    assert_eq!(pg.squares[3].above, None);
    assert_eq!(pg.squares[3].left, Some(SquareIndex(2)));
    assert_eq!(pg.squares[2].right, Some(SquareIndex(3)));
    assert_eq!(pg.lookup(1, 1), Some(SquareIndex(3)));
    assert_eq!(pg.lookup(-1, 0), None);
}

#[test]
fn prepare_is_deterministic() {
    let mut g = Grid::new(3, 3);
    g.remove_square(1, 1);
    g.color_dark(0, 0);
    let a = prepared(&g);
    let b = prepared(&g);
    assert_eq!(a.square_indexes, b.square_indexes);
    assert_eq!(a.squares.len(), b.squares.len());
    for k in 0..a.squares.len() {
        assert_eq!(a.squares[k].coord, b.squares[k].coord);
        assert_eq!(a.squares[k].left, b.squares[k].left);
        assert_eq!(a.squares[k].below, b.squares[k].below);
    }
}

#[test]
fn isolated_cell_has_no_neighbours() {
    let mut g = Grid::new(3, 3);
    g.remove_square(0, 1);
    g.remove_square(1, 0);
    g.remove_square(1, 2);
    g.remove_square(2, 1);
    let pg = prepared(&g);
    let centre = pg.square_indexes[1][1].unwrap();
    let s = &pg.squares[centre.0];
    assert_eq!((s.left, s.right, s.above, s.below), (None, None, None, None));
}

#[test]
fn clue_rules_follow_the_rule_list() {
    let mut g = Grid::new(1, 3);
    g.add_rule(Rule::ConnectAll(Color::Dark));
    g.add_rule(Rule::RegionFixedSize(Color::Light, 2));
    g.color_light(0, 1);
    g.join_right(0, 0);
    g.join_right(0, 2);
    let pg = prepared(&g);
    assert_eq!(pg.rules.len(), 4);
    assert!(matches!(pg.rules[0], PreparedRule::ConnectAll(Color::Dark)));
    assert!(matches!(pg.rules[1], PreparedRule::RegionFixedSize(Color::Light, 2)));
    assert!(matches!(
        pg.rules[2],
        PreparedRule::SquaresAreSameColor(SquareIndex(0), SquareIndex(1))
    ));
    assert!(matches!(pg.rules[3], PreparedRule::SquareIsColor(SquareIndex(1), Color::Light)));
}

#[test]
fn ban_pattern_expands_to_distinct_images() {
    let mut g = Grid::new(3, 3);
    g.add_rule(Rule::BanPattern(GridPattern::square2x2(
        Color::Light,
        Color::Dark,
        Color::Dark,
        Color::Light,
    )));
    let pg = prepared(&g);
    assert_eq!(pg.rules.len(), 2);
    assert!(pg.rules.iter().all(|r| matches!(r, PreparedRule::BanPattern(_))));
}

#[test]
fn dart_rule_counts_cells_towards_the_edge() {
    let mut g = Grid::new(4, 4);
    g.dart_number(3, 0, Direction::Right, 2, Color::Dark);
    g.add_rule(Rule::DartNumbers);
    let pg = prepared(&g);
    match &pg.rules[0] {
        PreparedRule::ColorCountInSet(n, c, set) => {
            assert_eq!(*n, 2);
            assert_eq!(*c, Color::Light);
            assert_eq!(set, &vec![SquareIndex(13), SquareIndex(14), SquareIndex(15)]);
        }
        other => panic!("unexpected rule {:?}", other),
    }
    assert!(matches!(pg.rules[1], PreparedRule::SquareIsColor(SquareIndex(12), Color::Dark)));
}

#[test]
fn dart_rule_skips_missing_cells_and_stops_at_the_edge() {
    let mut g = Grid::new(1, 4);
    g.remove_square(0, 2);
    g.dart_number(0, 0, Direction::Right, 1, Color::Light);
    g.dart_number(0, 3, Direction::Right, 0, Color::Light);
    g.add_rule(Rule::DartNumbers);
    let pg = prepared(&g);
    match &pg.rules[0] {
        PreparedRule::ColorCountInSet(1, Color::Dark, set) => {
            assert_eq!(set, &vec![SquareIndex(1), SquareIndex(2)]);
        }
        other => panic!("unexpected rule {:?}", other),
    }
    match &pg.rules[1] {
        PreparedRule::ColorCountInSet(0, Color::Dark, set) => assert!(set.is_empty()),
        other => panic!("unexpected rule {:?}", other),
    }
}

#[test]
fn area_numbers_become_area_rules() {
    let mut g = Grid::new(1, 5);
    g.set_area_number(0, 0, 3);
    g.color_light(0, 0);
    g.add_rule(Rule::RegionAreaEqualsNumber);
    let pg = prepared(&g);
    assert_eq!(pg.rules.len(), 2);
    assert!(matches!(pg.rules[0], PreparedRule::RegionAreaEqualsNumber(SquareIndex(0), 3)));
    assert!(matches!(pg.rules[1], PreparedRule::SquareIsColor(SquareIndex(0), Color::Light)));
}

#[test]
fn off_by_one_turns_numbers_into_either() {
    let mut g = Grid::new(1, 5);
    g.set_area_number(0, 0, 3);
    g.visible_count(0, 4, 2);
    g.add_rule(Rule::RegionAreaEqualsNumber);
    g.add_rule(Rule::VisibleCellCount);
    g.add_rule(Rule::NumbersAreOffByOne);
    let pg = prepared(&g);
    assert!(matches!(pg.rules[0], PreparedRule::RegionAreaEqualsEither(SquareIndex(0), 2, 4)));
    assert!(matches!(pg.rules[1], PreparedRule::VisibleCellCountEither(SquareIndex(4), 1, 3)));
}

#[test]
fn exactly_one_number_lists_numbered_cells() {
    let mut g = Grid::new(2, 2);
    g.set_area_number(0, 1, 1);
    g.set_area_number(1, 0, 2);
    g.add_rule(Rule::ExactlyOneNumberPerRegion(Color::Light));
    let pg = prepared(&g);
    match &pg.rules[0] {
        PreparedRule::ExactlyOneNumberPerRegion(Color::Light, v) => {
            assert_eq!(v, &vec![SquareIndex(1), SquareIndex(2)]);
        }
        other => panic!("unexpected rule {:?}", other),
    }
}

#[test]
fn zero_clue_off_by_one_is_malformed() {
    let mut g = Grid::new(1, 2);
    g.set_area_number(0, 0, 0);
    g.add_rule(Rule::NumbersAreOffByOne);
    g.add_rule(Rule::RegionAreaEqualsNumber);
    assert!(matches!(g.prepare(), Err(PrepareError::MalformedPuzzle)));
}

#[test]
fn empty_ban_pattern_is_malformed() {
    let mut g = Grid::new(2, 2);
    g.add_rule(Rule::BanPattern(GridPattern { pattern: vec![] }));
    assert!(matches!(g.prepare(), Err(PrepareError::MalformedPuzzle)));
}

/// The closure built step by step from `rotate` and `reflect`, starting from the canonical
/// form (four quarter turns): each turn, then its mirror image, first occurrences only.
fn expected_closure(p: &GridPattern) -> Vec<Vec<(isize, isize, Color)>> {
    let mut out: Vec<Vec<(isize, isize, Color)>> = Vec::new();
    let mut current = p.rotate().rotate().rotate().rotate();
    for _ in 0..4 {
        for candidate in [entries(&current), entries(&current.reflect())] {
            if !out.contains(&candidate) {
                out.push(candidate);
            }
        }
        current = current.rotate();
    }
    out
}

#[test]
fn closure_lists_turns_and_mirrors_in_order() {
    let p = l_shape();
    let got: Vec<_> = p.all_rotations_and_reflections().iter().map(entries).collect();
    assert_eq!(got, expected_closure(&p));
    assert_eq!(got.len(), 8);
    assert_eq!(got[1], vec![(0, 0, Color::Dark), (0, 1, Color::Light), (1, 0, Color::Dark)]);
}

#[test]
fn ban_rule_expands_to_the_closure() {
    let p = GridPattern {
        pattern: vec![
            (Coord { i: 0, j: 0 }, Color::Dark),
            (Coord { i: 1, j: 0 }, Color::Light),
            (Coord { i: 2, j: 0 }, Color::Dark),
            (Coord { i: 2, j: 1 }, Color::Dark),
        ],
    };
    let mut g = Grid::new(4, 4);
    g.add_rule(Rule::BanPattern(p.clone()));
    let pg = prepared(&g);
    let bans: Vec<_> = pg
        .rules
        .iter()
        .map(|r| match r {
            PreparedRule::BanPattern(q) => entries(q),
            other => panic!("unexpected rule {:?}", other),
        })
        .collect();
    assert_eq!(bans, expected_closure(&p));
    assert_eq!(bans.len(), 8);
}

#[test]
fn large_pattern_coordinates_are_accepted_up_to_the_bound() {
    let mut g = Grid::new(2, 2);
    g.add_rule(Rule::BanPattern(GridPattern {
        pattern: vec![(Coord { i: 1_000_000_000, j: -1_000_000_000 }, Color::Dark)],
    }));
    assert!(g.prepare().is_ok());
    let mut h = Grid::new(2, 2);
    h.add_rule(Rule::BanPattern(GridPattern {
        pattern: vec![(Coord { i: 1_073_741_824, j: 0 }, Color::Dark)],
    }));
    assert!(matches!(h.prepare(), Err(PrepareError::MalformedPuzzle)));
}

#[test]
fn closure_members_have_distinct_canonical_forms() {
    let p = GridPattern { pattern: vec![(Coord { i: 1, j: 0 }, Color::Dark)] };
    let all = p.all_rotations_and_reflections();
    assert_eq!(all.len(), 1);
    assert_eq!(entries(&all[0]), vec![(0, 0, Color::Dark)]);
    let shifted = GridPattern {
        pattern: vec![
            (Coord { i: 3, j: 5 }, Color::Dark),
            (Coord { i: 4, j: 5 }, Color::Dark),
            (Coord { i: 4, j: 6 }, Color::Light),
        ],
    };
    let got: Vec<_> = shifted.all_rotations_and_reflections().iter().map(entries).collect();
    let plain: Vec<_> = l_shape().all_rotations_and_reflections().iter().map(entries).collect();
    assert_eq!(got, plain);
    assert_eq!(got[0], entries(&l_shape()));
}

#[test]
fn offset_ban_pattern_reaches_the_board_edge() {
    let mut g = Grid::new(1, 2);
    g.add_rule(Rule::BanPattern(GridPattern {
        pattern: vec![(Coord { i: 5, j: 7 }, Color::Dark), (Coord { i: 5, j: 8 }, Color::Light)],
    }));
    let pg = prepared(&g);
    match &pg.rules[0] {
        PreparedRule::BanPattern(q) => {
            assert_eq!(entries(q), vec![(0, 0, Color::Dark), (0, 1, Color::Light)])
        }
        other => panic!("unexpected rule {:?}", other),
    }
}
