use grid_puzzle::constraints::{EncodeError, GridConstraints, PrintKind};
use grid_puzzle::evaluate::{holds, Assignment};
use grid_puzzle::grid::{Color, Grid, Rule};
use grid_puzzle::pattern::GridPattern;
use grid_puzzle::prepare::PreparedGrid;

fn prepared(grid: &Grid) -> PreparedGrid {
    match grid.prepare() {
        Ok(pg) => pg,
        Err(e) => panic!("prepare failed: {:?}", e),
    }
}

fn encoded(pg: &PreparedGrid) -> GridConstraints {
    match GridConstraints::new(pg) {
        Ok(gc) => gc,
        Err(e) => panic!("encoding failed: {:?}", e),
    }
}

/// Visibility runs of a full rectangular board in row-major order, computed directly.
fn runs(rows: usize, cols: usize, light: &[bool]) -> [Vec<i64>; 4] {
    let at = |r: usize, c: usize| light[r * cols + c];
    let mut up = vec![0; rows * cols];
    let mut down = vec![0; rows * cols];
    let mut left = vec![0; rows * cols];
    let mut right = vec![0; rows * cols];
    for r in 0..rows {
        for c in 0..cols {
            let k = r * cols + c;
            let mut n = 0;
            while r >= n + 1 && at(r - n - 1, c) == at(r, c) {
                n += 1;
            }
            up[k] = n as i64;
            n = 0;
            while r + n + 1 < rows && at(r + n + 1, c) == at(r, c) {
                n += 1;
            }
            down[k] = n as i64;
            n = 0;
            while c >= n + 1 && at(r, c - n - 1) == at(r, c) {
                n += 1;
            }
            left[k] = n as i64;
            n = 0;
            while c + n + 1 < cols && at(r, c + n + 1) == at(r, c) {
                n += 1;
            }
            right[k] = n as i64;
        }
    }
    [up, down, left, right]
}

fn board(
    rows: usize,
    cols: usize,
    light: &[bool],
    leader: &[i64],
    rank: &[i64],
    size: &[i64],
) -> Assignment {
    let [up, down, left, right] = runs(rows, cols, light);
    Assignment {
        light: light.to_vec(),
        region_leader: leader.to_vec(),
        region_rank: rank.to_vec(),
        region_size: size.to_vec(),
        visible_up: up,
        visible_down: down,
        visible_left: left,
        visible_right: right,
        dark_leader: 0,
        light_leader: 0,
    }
}

const L: bool = true;
const D: bool = false;

#[test]
fn single_cell_alone_is_its_own_region() {
    let pg = prepared(&Grid::new(1, 1));
    let gc = encoded(&pg);
    let good = board(1, 1, &[L], &[0], &[0], &[1]);
    assert_eq!(holds(&gc.basic_constraints, &good), Some(true));
    assert_eq!(holds(&gc.rule_constraints, &good), Some(true));
    let bigger = board(1, 1, &[L], &[0], &[0], &[2]);
    assert_eq!(holds(&gc.basic_constraints, &bigger), Some(false));
    let ranked = board(1, 1, &[D], &[0], &[1], &[1]);
    assert_eq!(holds(&gc.basic_constraints, &ranked), Some(false));
    let mut seeing = board(1, 1, &[L], &[0], &[0], &[1]);
    seeing.visible_left = vec![1];
    assert_eq!(holds(&gc.basic_constraints, &seeing), Some(false));
}

#[test]
fn isolated_cell_sees_nothing() {
    let mut g = Grid::new(1, 3);
    g.remove_square(0, 1);
    let pg = prepared(&g);
    let gc = encoded(&pg);
    let mut a = board(1, 2, &[L, L], &[0, 1], &[0, 0], &[1, 1]);
    a.visible_left = vec![0, 0];
    a.visible_right = vec![0, 0];
    assert_eq!(holds(&gc.basic_constraints, &a), Some(true));
    a.visible_right = vec![1, 0];
    assert_eq!(holds(&gc.basic_constraints, &a), Some(false));
    // Same color across the gap does not join the two cells into one region.
    let joined = board(1, 2, &[L, L], &[0, 0], &[0, 1], &[2, 2]);
    let mut joined = joined;
    joined.visible_left = vec![0, 0];
    joined.visible_right = vec![0, 0];
    assert_eq!(holds(&gc.basic_constraints, &joined), Some(false));
}

#[test]
fn two_by_two_all_light_connected() {
    let mut g = Grid::new(2, 2);
    g.add_rule(Rule::ConnectAll(Color::Light));
    let pg = prepared(&g);
    let gc = encoded(&pg);
    let a = board(2, 2, &[L, L, L, L], &[0, 0, 0, 0], &[0, 1, 1, 2], &[4, 4, 4, 4]);
    assert_eq!(holds(&gc.basic_constraints, &a), Some(true));
    assert_eq!(holds(&gc.rule_constraints, &a), Some(true));
    // Two light regions cannot both point at the light leader.
    let split = board(2, 2, &[L, D, D, L], &[0, 1, 2, 3], &[0, 0, 0, 0], &[1, 1, 1, 1]);
    assert_eq!(holds(&gc.basic_constraints, &split), Some(true));
    assert_eq!(holds(&gc.rule_constraints, &split), Some(false));
}

#[test]
fn rank_must_descend_to_the_leader() {
    let pg = prepared(&Grid::new(1, 2));
    let gc = encoded(&pg);
    // Both ranks 1 with no rank-0 cell: the grounding fails.
    let floating = board(1, 2, &[L, L], &[0, 0], &[1, 2], &[2, 2]);
    assert_eq!(holds(&gc.basic_constraints, &floating), Some(false));
    // A leader that is not the least index of its region.
    let late = board(1, 2, &[L, L], &[1, 1], &[1, 0], &[2, 2]);
    assert_eq!(holds(&gc.basic_constraints, &late), Some(false));
    let ok = board(1, 2, &[L, L], &[0, 0], &[0, 1], &[2, 2]);
    assert_eq!(holds(&gc.basic_constraints, &ok), Some(true));
}

#[test]
fn checkerboard_bans_reject_uniform_blocks() {
    let mut g = Grid::new(2, 2);
    g.add_rule(Rule::BanPattern(GridPattern::square2x2(Color::Dark, Color::Dark, Color::Dark, Color::Dark)));
    g.add_rule(Rule::BanPattern(GridPattern::square2x2(
        Color::Light,
        Color::Light,
        Color::Light,
        Color::Light,
    )));
    let pg = prepared(&g);
    let gc = encoded(&pg);
    let mixed = board(2, 2, &[L, L, L, D], &[0, 0, 0, 3], &[0, 1, 1, 0], &[3, 3, 3, 1]);
    assert_eq!(holds(&gc.basic_constraints, &mixed), Some(true));
    assert_eq!(holds(&gc.rule_constraints, &mixed), Some(true));
    let light = board(2, 2, &[L, L, L, L], &[0, 0, 0, 0], &[0, 1, 1, 2], &[4, 4, 4, 4]);
    assert_eq!(holds(&gc.rule_constraints, &light), Some(false));
    let dark = board(2, 2, &[D, D, D, D], &[0, 0, 0, 0], &[0, 1, 1, 2], &[4, 4, 4, 4]);
    assert_eq!(holds(&gc.rule_constraints, &dark), Some(false));
}

#[test]
fn area_clue_fixes_the_light_run() {
    let mut g = Grid::new(1, 5);
    g.set_area_number(0, 0, 3);
    g.color_light(0, 0);
    g.add_rule(Rule::RegionAreaEqualsNumber);
    let pg = prepared(&g);
    let gc = encoded(&pg);
    let three = board(1, 5, &[L, L, L, D, D], &[0, 0, 0, 3, 3], &[0, 1, 2, 0, 1], &[3, 3, 3, 2, 2]);
    assert_eq!(holds(&gc.basic_constraints, &three), Some(true));
    assert_eq!(holds(&gc.rule_constraints, &three), Some(true));
    let four = board(1, 5, &[L, L, L, L, D], &[0, 0, 0, 0, 4], &[0, 1, 2, 3, 0], &[4, 4, 4, 4, 1]);
    assert_eq!(holds(&gc.basic_constraints, &four), Some(true));
    assert_eq!(holds(&gc.rule_constraints, &four), Some(false));
    let dark_clue = board(1, 5, &[D, D, D, L, L], &[0, 0, 0, 3, 3], &[0, 1, 2, 0, 1], &[3, 3, 3, 2, 2]);
    assert_eq!(holds(&gc.rule_constraints, &dark_clue), Some(false));
}

#[test]
fn off_by_one_accepts_runs_of_two_or_four() {
    let mut g = Grid::new(1, 5);
    g.set_area_number(0, 0, 3);
    g.color_light(0, 0);
    g.add_rule(Rule::RegionAreaEqualsNumber);
    g.add_rule(Rule::NumbersAreOffByOne);
    let pg = prepared(&g);
    let gc = encoded(&pg);
    let three = board(1, 5, &[L, L, L, D, D], &[0, 0, 0, 3, 3], &[0, 1, 2, 0, 1], &[3, 3, 3, 2, 2]);
    assert_eq!(holds(&gc.rule_constraints, &three), Some(false));
    let four = board(1, 5, &[L, L, L, L, D], &[0, 0, 0, 0, 4], &[0, 1, 2, 3, 0], &[4, 4, 4, 4, 1]);
    assert_eq!(holds(&gc.basic_constraints, &four), Some(true));
    assert_eq!(holds(&gc.rule_constraints, &four), Some(true));
    let two = board(1, 5, &[L, L, D, D, D], &[0, 0, 2, 2, 2], &[0, 1, 0, 1, 2], &[2, 2, 3, 3, 3]);
    assert_eq!(holds(&gc.basic_constraints, &two), Some(true));
    assert_eq!(holds(&gc.rule_constraints, &two), Some(true));
}

#[test]
fn dart_counts_light_cells_in_its_row() {
    let mut g = Grid::new(1, 4);
    g.dart_number(0, 0, grid_puzzle::grid::Direction::Right, 2, Color::Dark);
    g.add_rule(Rule::DartNumbers);
    let pg = prepared(&g);
    let gc = encoded(&pg);
    let two = board(1, 4, &[D, L, D, L], &[0, 1, 2, 3], &[0, 0, 0, 0], &[1, 1, 1, 1]);
    assert_eq!(holds(&gc.basic_constraints, &two), Some(true));
    assert_eq!(holds(&gc.rule_constraints, &two), Some(true));
    let three = board(1, 4, &[D, L, L, L], &[0, 1, 1, 1], &[0, 0, 1, 2], &[1, 3, 3, 3]);
    assert_eq!(holds(&gc.basic_constraints, &three), Some(true));
    assert_eq!(holds(&gc.rule_constraints, &three), Some(false));
}

#[test]
fn dart_off_the_edge_counts_nothing() {
    let mut g = Grid::new(1, 2);
    g.dart_number(0, 1, grid_puzzle::grid::Direction::Right, 0, Color::Dark);
    g.add_rule(Rule::DartNumbers);
    let gc = encoded(&prepared(&g));
    let a = board(1, 2, &[L, D], &[0, 1], &[0, 0], &[1, 1]);
    assert_eq!(holds(&gc.rule_constraints, &a), Some(true));
    let mut g1 = Grid::new(1, 2);
    g1.dart_number(0, 1, grid_puzzle::grid::Direction::Right, 1, Color::Dark);
    g1.add_rule(Rule::DartNumbers);
    let gc1 = encoded(&prepared(&g1));
    assert_eq!(holds(&gc1.rule_constraints, &a), Some(false));
    let b = board(1, 2, &[D, D], &[0, 0], &[0, 1], &[2, 2]);
    assert_eq!(holds(&gc1.rule_constraints, &b), Some(false));
}

#[test]
fn visible_count_adds_the_cell_itself() {
    let mut g = Grid::new(1, 3);
    g.visible_count(0, 1, 3);
    g.add_rule(Rule::VisibleCellCount);
    let gc = encoded(&prepared(&g));
    let all = board(1, 3, &[L, L, L], &[0, 0, 0], &[0, 1, 2], &[3, 3, 3]);
    assert_eq!(holds(&gc.basic_constraints, &all), Some(true));
    assert_eq!(holds(&gc.rule_constraints, &all), Some(true));
    let part = board(1, 3, &[L, L, D], &[0, 0, 2], &[0, 1, 0], &[2, 2, 1]);
    assert_eq!(holds(&gc.rule_constraints, &part), Some(false));
}

#[test]
fn one_number_per_region() {
    let mut g = Grid::new(1, 3);
    g.set_area_number(0, 0, 1);
    g.set_area_number(0, 2, 1);
    g.add_rule(Rule::ExactlyOneNumberPerRegion(Color::Light));
    let gc = encoded(&prepared(&g));
    let separate = board(1, 3, &[L, D, L], &[0, 1, 2], &[0, 0, 0], &[1, 1, 1]);
    assert_eq!(holds(&gc.rule_constraints, &separate), Some(true));
    let shared = board(1, 3, &[L, L, L], &[0, 0, 0], &[0, 1, 2], &[3, 3, 3]);
    assert_eq!(holds(&gc.rule_constraints, &shared), Some(false));
}

#[test]
fn fixed_size_and_merges() {
    let mut g = Grid::new(1, 3);
    g.add_rule(Rule::RegionFixedSize(Color::Dark, 1));
    g.join_right(0, 0);
    let gc = encoded(&prepared(&g));
    let a = board(1, 3, &[L, L, D], &[0, 0, 2], &[0, 1, 0], &[2, 2, 1]);
    assert_eq!(holds(&gc.rule_constraints, &a), Some(true));
    let b = board(1, 3, &[L, D, D], &[0, 1, 1], &[0, 0, 1], &[1, 2, 2]);
    assert_eq!(holds(&gc.rule_constraints, &b), Some(false));
}

#[test]
fn different_shapes_is_not_encoded() {
    let mut g = Grid::new(1, 1);
    g.add_rule(Rule::RegionsHaveDifferentShapes(Color::Light));
    let pg = prepared(&g);
    assert!(matches!(GridConstraints::new(&pg), Err(EncodeError::UnsupportedRule)));
}

#[test]
fn column_widths() {
    assert_eq!(PrintKind::Color.column_width(), 2);
    assert_eq!(PrintKind::RegionSize.column_width(), 3);
    assert_eq!(PrintKind::RegionLeader.column_width(), 4);
    assert_eq!(PrintKind::RegionRank.column_width(), 3);
    assert_eq!(PrintKind::VisibleTotal.column_width(), 3);
}

#[test]
fn evaluation_reports_overflow() {
    let pg = prepared(&Grid::new(1, 2));
    let gc = encoded(&pg);
    let mut a = board(1, 2, &[L, L], &[0, 0], &[0, 1], &[2, 2]);
    a.region_rank = vec![0, i64::MAX];
    assert_eq!(holds(&gc.basic_constraints, &a), None);
}
