use connectgrid::circuit::{chip, dense};
use connectgrid::eval::{better_eval, dummy_eval};
use connectgrid::walker::{Board, Direction, DirectionPrefs, Game, Status, Walker};
use connectgrid::{layout, point_add, Circuit, Point};

const ALL: [Direction; 8] = [
    Direction::E,
    Direction::NE,
    Direction::N,
    Direction::NW,
    Direction::W,
    Direction::SW,
    Direction::S,
    Direction::SE,
];

fn east_first(_p: Point, _d: Point, _b: &Board) -> DirectionPrefs {
    ALL
}

/// One component per listed terminal, each placed at the origin, and one
/// connection per (source, destination) pair.
fn circuit_of(pairs: &[(Point, Point)]) -> (Circuit, Vec<Point>) {
    let mut components = Vec::new();
    let mut connections = Vec::new();
    for (i, (s, d)) in pairs.iter().enumerate() {
        components.push((vec![*s, *d], (1, 1)));
        connections.push(((i, 0), (i, 1)));
    }
    let placements = vec![(0, 0); pairs.len()];
    ((components, connections, (30, 30)), placements)
}

#[test]
fn point_add_sums_coordinates() {
    assert_eq!(point_add((3, -4), (-1, 10)), (2, 6));
}

#[test]
fn direction_vectors_and_diagonals() {
    let expected = [(1, 0), (1, 1), (0, 1), (-1, 1), (-1, 0), (-1, -1), (0, -1), (1, -1)];
    for (d, v) in ALL.iter().zip(expected.iter()) {
        assert_eq!(d.vector(), *v);
        assert_eq!(d.diagonal(), v.0 != 0 && v.1 != 0);
    }
}

#[test]
fn walker_accessors() {
    let mut w = Walker::new((1, 2), (3, 2));
    assert_eq!(w.position(), (1, 2));
    assert!(!w.finished());
    w.history.push((2, 2));
    w.history.push((3, 2));
    assert_eq!(w.position(), (3, 2));
    assert!(w.finished());
    assert_eq!(w.route(), vec![(1, 2), (2, 2), (3, 2)]);
}

#[test]
fn claim_then_reclaim_fails() {
    let mut board = Board::new();
    assert!(board.try_insert((0, 0), Direction::E));
    assert!(board.is_claimed((1, 0)));
    assert!(!board.is_claimed((0, 0)));
    assert!(!board.try_insert((0, 0), Direction::E));
    assert!(!board.init_point((1, 0)));
}

#[test]
fn crossing_diagonal_is_refused() {
    let mut board = Board::new();
    assert!(board.try_insert((0, 0), Direction::NE));
    assert!(board.is_claimed((1, 1)));
    assert!(!board.try_insert((1, 0), Direction::NW));
    assert!(!board.is_claimed((0, 1)));
    // The same crossing taken the other way round is refused too.
    assert!(!board.try_insert((0, 1), Direction::SE));
    // A parallel diagonal is fine.
    assert!(board.try_insert((1, 0), Direction::NE));
}

#[test]
fn init_point_reports_fresh_cells() {
    let mut board = Board::new();
    assert!(board.init_point((4, 4)));
    assert!(!board.init_point((4, 4)));
    assert!(board.is_claimed((4, 4)));
    assert!(!board.try_insert((3, 4), Direction::E));
}

#[test]
fn new_game_seeds_sources_only() {
    let (circuit, placements) = circuit_of(&[((0, 0), (5, 0)), ((0, 3), (5, 3))]);
    let game = Game::new(&circuit, &placements);
    assert_eq!(game.walkers.len(), 2);
    assert_eq!(game.walkers[0].history, vec![(0, 0)]);
    assert_eq!(game.walkers[0].dest, (5, 0));
    assert_eq!(game.walkers[1].history, vec![(0, 3)]);
    assert!(game.board.is_claimed((0, 0)));
    assert!(game.board.is_claimed((0, 3)));
    assert!(!game.board.is_claimed((5, 0)));
    assert!(game.routes.is_empty());
}

#[test]
fn new_game_adds_placement_offsets() {
    let components = vec![(vec![(0, -1), (2, 3)], (2, 2))];
    let circuit: Circuit = (components, vec![((0, 0), (0, 1))], (10, 10));
    let game = Game::new(&circuit, &[(4, 5)]);
    assert_eq!(game.walkers[0].history, vec![(4, 4)]);
    assert_eq!(game.walkers[0].dest, (6, 8));
}

#[test]
fn source_equal_to_destination_finishes_at_once() {
    let (circuit, placements) = circuit_of(&[((2, 2), (2, 2))]);
    let mut game = Game::new(&circuit, &placements);
    assert_eq!(game.step(east_first), Status::Finished);
    assert!(game.walkers.is_empty());
    assert_eq!(game.routes, vec![vec![(2, 2)]]);
    assert!(!game.board.is_claimed((3, 2)));
}

#[test]
fn boxed_in_walker_is_stuck_and_nothing_changes() {
    let (circuit, placements) = circuit_of(&[((0, 0), (9, 9))]);
    let mut game = Game::new(&circuit, &placements);
    for d in ALL.iter() {
        let v = d.vector();
        assert!(game.board.init_point(v));
    }
    assert_eq!(game.step(east_first), Status::Stuck(0));
    assert_eq!(game.walkers[0].history, vec![(0, 0)]);
    assert!(!game.board.is_claimed((2, 0)));
    assert_eq!(game.step(better_eval), Status::Stuck(0));
    assert_eq!(game.walkers[0].history, vec![(0, 0)]);
}

#[test]
fn stuck_later_walker_keeps_earlier_progress() {
    let (circuit, placements) = circuit_of(&[((20, 20), (25, 20)), ((0, 0), (9, 9))]);
    let mut game = Game::new(&circuit, &placements);
    for d in ALL.iter() {
        assert!(game.board.init_point(d.vector()));
    }
    assert_eq!(game.step(east_first), Status::Stuck(1));
    assert_eq!(game.walkers[0].history, vec![(20, 20), (21, 20)]);
    assert_eq!(game.walkers[1].history, vec![(0, 0)]);
}

#[test]
fn running_step_extends_every_walker_by_one() {
    let (circuit, placements) = circuit_of(&[((0, 0), (5, 0)), ((0, 3), (5, 3))]);
    let mut game = Game::new(&circuit, &placements);
    assert_eq!(game.step(better_eval), Status::Running);
    assert_eq!(game.walkers[0].history, vec![(0, 0), (1, 0)]);
    assert_eq!(game.walkers[1].history, vec![(0, 3), (1, 3)]);
    assert!(game.board.is_claimed((1, 0)));
    assert!(game.board.is_claimed((1, 3)));
}

#[test]
fn retired_routes_never_change() {
    let (circuit, placements) = circuit_of(&[((0, 0), (1, 0)), ((0, 5), (6, 5))]);
    let mut game = Game::new(&circuit, &placements);
    assert_eq!(game.step(better_eval), Status::Running);
    assert_eq!(game.routes, vec![vec![(0, 0), (1, 0)]]);
    assert_eq!(game.walkers.len(), 1);
    for _ in 0..3 {
        assert_eq!(game.step(better_eval), Status::Running);
        assert_eq!(game.routes, vec![vec![(0, 0), (1, 0)]]);
    }
}

#[test]
fn finished_snapshot_is_the_retired_routes() {
    let (circuit, placements) = circuit_of(&[((0, 0), (3, 0)), ((0, 4), (2, 6))]);
    let mut game = Game::new(&circuit, &placements);
    let mut status = Status::Running;
    for _ in 0..10 {
        status = game.step(better_eval);
        if status != Status::Running {
            break;
        }
    }
    assert_eq!(status, Status::Finished);
    assert!(game.walkers.is_empty());
    assert_eq!(game.unfinished_routes(), game.routes);
    assert!(game.routes.contains(&vec![(0, 0), (1, 0), (2, 0), (3, 0)]));
    assert!(game.routes.contains(&vec![(0, 4), (1, 5), (2, 6)]));
}

#[test]
fn unfinished_routes_lists_retired_then_active() {
    let (circuit, placements) = circuit_of(&[((0, 0), (9, 0)), ((0, 5), (1, 5))]);
    let mut game = Game::new(&circuit, &placements);
    assert_eq!(game.step(better_eval), Status::Running);
    let snapshot = game.unfinished_routes();
    assert_eq!(snapshot, vec![vec![(0, 5), (1, 5)], vec![(0, 0), (1, 0)]]);
}

#[test]
fn board_claims_exactly_the_route_cells() {
    let (circuit, placements) = circuit_of(&[((0, 0), (4, 4)), ((4, 0), (0, 4)), ((2, -3), (2, 6))]);
    let mut game = Game::new(&circuit, &placements);
    for _ in 0..20 {
        if game.step(better_eval) != Status::Running {
            break;
        }
    }
    let routes = game.unfinished_routes();
    let mut cells: Vec<Point> = routes.iter().flatten().cloned().collect();
    for p in cells.iter() {
        assert!(game.board.is_claimed(*p));
    }
    // No cell is shared between two routes, nor visited twice.
    let n = cells.len();
    cells.sort();
    cells.dedup();
    assert_eq!(cells.len(), n);
    for x in -10..15 {
        for y in -10..15 {
            assert_eq!(game.board.is_claimed((x, y)), cells.contains(&(x, y)));
        }
    }
    // No two diagonal steps cross through the same unit square.
    let mut steps = Vec::new();
    for r in routes.iter() {
        for w in r.windows(2) {
            steps.push((w[0], w[1]));
        }
    }
    for (a, b) in steps.iter() {
        if a.0 != b.0 && a.1 != b.1 {
            let c = ((a.0, b.1), (b.0, a.1));
            assert!(!steps.contains(&c));
            assert!(!steps.contains(&(c.1, c.0)));
        }
    }
}

#[test]
fn can_step_detects_the_grid_edge() {
    let (circuit, placements) = circuit_of(&[((0, 0), (1, 1))]);
    let game = Game::new(&circuit, &placements);
    assert!(game.can_step());
    let (circuit, placements) = circuit_of(&[((i32::MAX, 0), (1, 1))]);
    let game = Game::new(&circuit, &placements);
    assert!(!game.can_step());
}

#[test]
fn advance_takes_first_granted_direction() {
    let (circuit, placements) = circuit_of(&[((0, 0), (5, 0))]);
    let mut game = Game::new(&circuit, &placements);
    assert!(game.board.init_point((1, 0)));
    let prefs = [
        Direction::E,
        Direction::N,
        Direction::NE,
        Direction::W,
        Direction::S,
        Direction::SW,
        Direction::NW,
        Direction::SE,
    ];
    assert!(game.advance(0, &prefs));
    assert_eq!(game.walkers[0].history, vec![(0, 0), (0, 1)]);
}

#[test]
fn dummy_eval_is_compass_order() {
    let board = Board::new();
    assert_eq!(dummy_eval((0, 0), (3, 3), &board), ALL);
}

#[test]
fn better_eval_prefers_heading_to_destination() {
    let board = Board::new();
    let prefs = better_eval((0, 0), (5, 0), &board);
    assert_eq!(
        prefs,
        [
            Direction::E,
            Direction::NE,
            Direction::SE,
            Direction::N,
            Direction::S,
            Direction::NW,
            Direction::W,
            Direction::SW,
        ]
    );
    let prefs = better_eval((2, 2), (0, 0), &board);
    assert_eq!(prefs[0], Direction::SW);
    assert_eq!(prefs[7], Direction::NE);
}

#[test]
fn chip_terminals_surround_the_outline() {
    let (terms, size) = chip((2, 1), true, false);
    assert_eq!(size, (2, 1));
    assert_eq!(terms, vec![(0, -1), (0, 1), (1, -1), (1, 1)]);
    let (terms, _) = chip((1, 2), false, true);
    assert_eq!(terms, vec![(-1, 0), (1, 0), (-1, 1), (1, 1)]);
    let (terms, _) = chip((3, 3), true, true);
    assert_eq!(terms.len(), 12);
    assert_eq!(terms[6], (-1, 0));
}

#[test]
fn layout_places_four_components_and_joins_terminals() {
    let components = vec![
        (vec![(0, 0)], (1, 1)),
        (vec![(1, 1)], (1, 1)),
        (vec![(0, 2)], (1, 1)),
        (vec![(3, 0)], (1, 1)),
    ];
    let circuit: Circuit = (components, vec![((0, 0), (1, 0)), ((2, 0), (3, 0))], (30, 30));
    let (placements, routes) = layout(&circuit).unwrap();
    assert_eq!(placements, vec![(5, 5), (12, 11), (22, 21), (22, 8)]);
    assert_eq!(routes, vec![vec![(5, 5), (13, 12)], vec![(22, 23), (25, 8)]]);
}

#[test]
fn dense_pairs_terminals_across_components() {
    let components = vec![
        (vec![(0, 0), (1, 0)], (2, 1)),
        (vec![(0, 0), (0, 1), (0, 2)], (1, 3)),
        (vec![(5, 5), (6, 6)], (2, 2)),
    ];
    assert_eq!(
        dense(&components),
        vec![((0, 0), (1, 0)), ((0, 1), (1, 1)), ((2, 0), (1, 2))]
    );
}

#[test]
fn dense_needs_two_components() {
    assert!(dense(&[]).is_empty());
    assert!(dense(&[(vec![(0, 0)], (1, 1))]).is_empty());
    let components = vec![(vec![(0, 0)], (1, 1)), (vec![], (1, 1))];
    assert!(dense(&components).is_empty());
}

#[test]
fn dense_on_chips_joins_first_two() {
    let components = vec![chip((2, 1), true, false), chip((1, 2), false, true)];
    let connections = dense(&components);
    assert_eq!(
        connections,
        vec![((0, 0), (1, 0)), ((0, 1), (1, 1)), ((0, 2), (1, 2)), ((0, 3), (1, 3))]
    );
}
