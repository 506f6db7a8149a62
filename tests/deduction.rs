use grid_puzzle::grid::{Color, Coord, Grid};
use grid_puzzle::solve::{
    aggregate, apply_verdicts, next_timeout, pending_cells, verdict, Outcome, SolveResult,
};

#[test]
fn verdict_table() {
    assert_eq!(verdict(Outcome::Solved, Outcome::Unsolvable), SolveResult::Definitely(Color::Light));
    assert_eq!(verdict(Outcome::Unsolvable, Outcome::Solved), SolveResult::Definitely(Color::Dark));
    assert_eq!(verdict(Outcome::Solved, Outcome::Solved), SolveResult::Unfillable);
    assert_eq!(verdict(Outcome::Unknown, Outcome::Unsolvable), SolveResult::Unknown);
    assert_eq!(verdict(Outcome::Unsolvable, Outcome::Unsolvable), SolveResult::Unknown);
    assert_eq!(verdict(Outcome::Solved, Outcome::Unknown), SolveResult::Unknown);
}

#[test]
fn aggregate_groups_by_cell_in_any_order() {
    let a = Coord { i: 0, j: 0 };
    let b = Coord { i: 0, j: 1 };
    let c = Coord { i: 1, j: 1 };
    let results = vec![
        (b, Color::Dark, Outcome::Solved),
        (a, Color::Light, Outcome::Unsolvable),
        (c, Color::Light, Outcome::Unknown),
        (a, Color::Dark, Outcome::Solved),
        (b, Color::Light, Outcome::Solved),
        (c, Color::Dark, Outcome::Solved),
    ];
    let out = aggregate(&results);
    assert_eq!(
        out,
        vec![
            (b, SolveResult::Unfillable),
            (a, SolveResult::Definitely(Color::Dark)),
            (c, SolveResult::Unknown),
        ]
    );
}

#[test]
fn pending_skips_clued_and_unfillable_cells() {
    let mut g = Grid::new(2, 2);
    g.color_light(0, 0);
    g.remove_square(1, 0);
    let unfillable = vec![Coord { i: 1, j: 1 }];
    assert_eq!(pending_cells(&g, &unfillable), vec![Coord { i: 0, j: 1 }]);
    assert_eq!(
        pending_cells(&g, &vec![]),
        vec![Coord { i: 0, j: 1 }, Coord { i: 1, j: 1 }]
    );
}

#[test]
fn applying_a_round_colors_forced_cells() {
    let mut g = Grid::new(3, 3);
    let mut unfillable = Vec::new();
    let verdicts = vec![
        (Coord { i: 0, j: 0 }, SolveResult::Definitely(Color::Dark)),
        (Coord { i: 2, j: 2 }, SolveResult::Unfillable),
        (Coord { i: 1, j: 1 }, SolveResult::Unknown),
    ];
    assert!(apply_verdicts(&mut g, &mut unfillable, &verdicts));
    assert_eq!(g.square(Coord { i: 0, j: 0 }).unwrap().color, Some(Color::Dark));
    assert_eq!(g.square(Coord { i: 1, j: 1 }).unwrap().color, None);
    assert_eq!(unfillable, vec![Coord { i: 2, j: 2 }]);
}

#[test]
fn an_all_unknown_round_doubles_the_timeout() {
    let mut g = Grid::new(3, 3);
    g.color_light(1, 1);
    let mut unfillable = Vec::new();
    let verdicts: Vec<(Coord, SolveResult)> = pending_cells(&g, &unfillable)
        .into_iter()
        .map(|c| (c, SolveResult::Unknown))
        .collect();
    assert_eq!(verdicts.len(), 8);
    let filled = apply_verdicts(&mut g, &mut unfillable, &verdicts);
    assert!(!filled);
    assert_eq!(next_timeout(1, filled), 2);
    assert_eq!(next_timeout(3, true), 3);
    assert_eq!(next_timeout(u32::MAX, false), u32::MAX);
}

#[test]
fn model_colors_reach_every_existing_cell() {
    let mut g = Grid::new(2, 2);
    g.remove_square(0, 1);
    let pg = match g.prepare() {
        Ok(pg) => pg,
        Err(e) => panic!("{:?}", e),
    };
    let mut solved = g.clone();
    solved.apply_model_colors(&pg, &vec![true, false, true]);
    assert_eq!(solved.square(Coord { i: 0, j: 0 }).unwrap().color, Some(Color::Light));
    assert_eq!(solved.square(Coord { i: 1, j: 0 }).unwrap().color, Some(Color::Dark));
    assert_eq!(solved.square(Coord { i: 1, j: 1 }).unwrap().color, Some(Color::Light));
    // Re-preparing the colored grid keeps the same cells and adjacency.
    let again = match solved.prepare() {
        Ok(pg) => pg,
        Err(e) => panic!("{:?}", e),
    };
    assert_eq!(again.square_indexes, pg.square_indexes);
    for k in 0..pg.squares.len() {
        assert_eq!(again.squares[k].coord, pg.squares[k].coord);
        assert_eq!(again.squares[k].right, pg.squares[k].right);
        assert_eq!(again.squares[k].above, pg.squares[k].above);
    }
    assert_eq!(again.rules.len(), 3);
}

#[test]
fn a_round_changes_only_forced_cells() {
    let mut g = Grid::new(2, 2);
    g.join_right(0, 1);
    g.join_bottom(1, 0);
    g.color_light(1, 1);
    let mut unfillable = vec![Coord { i: 1, j: 1 }];
    let verdicts = vec![
        (Coord { i: 0, j: 1 }, SolveResult::Unknown),
        (Coord { i: 1, j: 0 }, SolveResult::Unfillable),
        (Coord { i: 0, j: 0 }, SolveResult::Unfillable),
    ];
    assert!(!apply_verdicts(&mut g, &mut unfillable, &verdicts));
    assert_eq!(g.square(Coord { i: 0, j: 1 }).unwrap().color, None);
    assert!(g.square(Coord { i: 0, j: 1 }).unwrap().merge_with_right);
    assert!(g.square(Coord { i: 1, j: 0 }).unwrap().merge_with_bottom);
    assert_eq!(g.square(Coord { i: 1, j: 1 }).unwrap().color, Some(Color::Light));
    assert_eq!(
        unfillable,
        vec![Coord { i: 1, j: 1 }, Coord { i: 1, j: 0 }, Coord { i: 0, j: 0 }]
    );
}
