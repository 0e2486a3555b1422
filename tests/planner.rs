use rand::rngs::StdRng;
use rand::SeedableRng;
use scrap_bot::actions::Action;
use scrap_bot::grid::{bool_from_i32, Cell, Game, Owner};
use scrap_bot::spawn::spawns_from_draws;

fn cell(scrap_amount: u32, owner: Owner, unit_count: u32) -> Cell {
    Cell {
        scrap_amount,
        owner,
        unit_count,
        is_recycler: false,
        can_build: false,
        can_spawn: false,
        in_range_of_recycler: false,
    }
}

fn game(width: usize, height: usize, cells: Vec<Cell>, my_matter: u32) -> Game {
    assert_eq!(cells.len(), width * height);
    Game { width, height, cells, my_matter, enemy_matter: 0 }
}

fn scenario() -> Game {
    game(
        3,
        1,
        vec![
            cell(5, Owner::Mine, 3),
            cell(4, Owner::Neutral, 0),
            cell(4, Owner::Enemy, 0),
        ],
        25,
    )
}

/// 3x3 board: a stack of `n` units in the middle, neutral cells east, south
/// and west, `north` on the north side, impassable corners.
fn cross(n: u32, north: Cell) -> Game {
    let wall = cell(0, Owner::Neutral, 0);
    let free = cell(3, Owner::Neutral, 0);
    game(
        3,
        3,
        vec![
            wall, north, wall,
            free, cell(3, Owner::Mine, n), free,
            wall, free, wall,
        ],
        0,
    )
}

fn amounts(actions: &[Action]) -> Vec<u32> {
    actions
        .iter()
        .map(|a| match a {
            Action::Move { amount, .. } => *amount,
            _ => panic!("not a move: {:?}", a),
        })
        .collect()
}

#[test]
fn scenario_distance_field() {
    let g = scenario();
    assert_eq!(g.distance_field(), vec![Some(1), Some(0), Some(0)]);
}

#[test]
fn scenario_moves() {
    let g = scenario();
    let dist = g.distance_field();
    assert_eq!(
        g.plan_moves(&dist),
        vec![Action::Move { amount: 3, from_x: 0, from_y: 0, to_x: 1, to_y: 0 }]
    );
}

#[test]
fn scenario_spawns() {
    let g = scenario();
    assert_eq!(g.frontier(), vec![(0, 0)]);
    for seed in 0..20u64 {
        let mut rng = StdRng::seed_from_u64(seed);
        assert_eq!(
            g.plan_spawns(&mut rng),
            vec![
                Action::Spawn { amount: 1, x: 0, y: 0 },
                Action::Spawn { amount: 1, x: 0, y: 0 },
            ]
        );
    }
}

#[test]
fn scenario_whole_turn() {
    let g = scenario();
    let mut rng = StdRng::seed_from_u64(7);
    assert_eq!(
        g.compute_actions(&mut rng),
        vec![
            Action::Move { amount: 3, from_x: 0, from_y: 0, to_x: 1, to_y: 0 },
            Action::Spawn { amount: 1, x: 0, y: 0 },
            Action::Spawn { amount: 1, x: 0, y: 0 },
        ]
    );
}

#[test]
fn bfs_shortest_paths_around_wall() {
    // row 0: E M M M
    // row 1: # # # M
    // row 2: M M M M
    let m = cell(2, Owner::Mine, 0);
    let wall = cell(0, Owner::Neutral, 0);
    let g = game(
        4,
        3,
        vec![
            cell(2, Owner::Enemy, 0), m, m, m,
            wall, wall, wall, m,
            m, m, m, m,
        ],
        0,
    );
    assert_eq!(
        g.distance_field(),
        vec![
            Some(0), Some(1), Some(2), Some(3),
            None, None, None, Some(4),
            Some(8), Some(7), Some(6), Some(5),
        ]
    );
}

#[test]
fn bfs_enclosed_cell_is_unreachable() {
    let m = cell(1, Owner::Mine, 0);
    let wall = cell(0, Owner::Neutral, 0);
    let g = game(3, 3, vec![m, wall, cell(1, Owner::Neutral, 0), wall, wall, m, m, m, m], 0);
    assert_eq!(
        g.distance_field(),
        vec![None, None, Some(0), None, None, Some(1), Some(4), Some(3), Some(2)]
    );
}

#[test]
fn bfs_adjacent_distances_differ_by_at_most_one() {
    let m = cell(1, Owner::Mine, 0);
    let wall = cell(0, Owner::Neutral, 0);
    let cells = vec![
        m, m, m, m, m,
        m, wall, wall, m, m,
        m, m, wall, m, cell(3, Owner::Enemy, 0),
        m, m, m, m, m,
    ];
    let g = game(5, 4, cells, 0);
    let d = g.distance_field();
    for r in 0..4 {
        for c in 0..5 {
            for (r2, c2) in g.neighbors(r, c) {
                if let (Some(a), Some(b)) = (d[r * 5 + c], d[r2 * 5 + c2]) {
                    assert!(a.abs_diff(b) <= 1, "({r},{c}) {a} vs ({r2},{c2}) {b}");
                }
            }
        }
    }
    assert_eq!(d[0], Some(6));
}

#[test]
fn no_outside_cell_gives_no_orders() {
    let g = game(2, 1, vec![cell(2, Owner::Mine, 4), cell(2, Owner::Mine, 1)], 100);
    assert_eq!(g.distance_field(), vec![None, None]);
    let mut rng = StdRng::seed_from_u64(1);
    assert_eq!(g.compute_actions(&mut rng), vec![]);
}

#[test]
fn stack_without_passable_neighbour_stays() {
    let wall = cell(0, Owner::Neutral, 0);
    let g = game(3, 1, vec![cell(1, Owner::Mine, 5), wall, cell(1, Owner::Enemy, 0)], 0);
    let dist = g.distance_field();
    assert_eq!(dist, vec![None, None, Some(0)]);
    assert_eq!(g.plan_moves(&dist), vec![]);
}

#[test]
fn empty_board_gives_no_orders() {
    let g = game(0, 0, vec![], 50);
    let mut rng = StdRng::seed_from_u64(3);
    assert_eq!(g.distance_field(), vec![]);
    assert_eq!(g.compute_actions(&mut rng), vec![]);
}

#[test]
fn units_are_conserved_over_equal_destinations() {
    for n in 1..20u32 {
        let g = cross(n, cell(3, Owner::Neutral, 0));
        let dist = g.distance_field();
        let moves = g.plan_moves(&dist);
        assert_eq!(amounts(&moves).iter().sum::<u32>(), n);
    }
}

#[test]
fn remainder_goes_to_first_destinations() {
    let g = cross(7, cell(0, Owner::Neutral, 0));
    let dist = g.distance_field();
    assert_eq!(
        g.plan_moves(&dist),
        vec![
            Action::Move { amount: 3, from_x: 1, from_y: 1, to_x: 2, to_y: 1 },
            Action::Move { amount: 2, from_x: 1, from_y: 1, to_x: 1, to_y: 2 },
            Action::Move { amount: 2, from_x: 1, from_y: 1, to_x: 0, to_y: 1 },
        ]
    );
    let g = cross(7, cell(3, Owner::Enemy, 0));
    let dist = g.distance_field();
    assert_eq!(amounts(&g.plan_moves(&dist)), vec![2, 2, 2, 1]);
}

#[test]
fn fewer_units_than_destinations_skips_the_rest() {
    let g = cross(2, cell(3, Owner::Enemy, 0));
    let dist = g.distance_field();
    assert_eq!(
        g.plan_moves(&dist),
        vec![
            Action::Move { amount: 1, from_x: 1, from_y: 1, to_x: 2, to_y: 1 },
            Action::Move { amount: 1, from_x: 1, from_y: 1, to_x: 1, to_y: 2 },
        ]
    );
}

#[test]
fn moves_prefer_the_closer_neighbour() {
    // East of the stack is an owned cell at distance 1, south a neutral
    // cell at distance 0: all units go south.
    let m = cell(1, Owner::Mine, 0);
    let g = game(
        3,
        2,
        vec![cell(1, Owner::Mine, 4), m, cell(1, Owner::Enemy, 0), cell(1, Owner::Neutral, 0), m, m],
        0,
    );
    let dist = g.distance_field();
    assert_eq!(dist, vec![Some(1), Some(1), Some(0), Some(0), Some(1), Some(1)]);
    let moves = g.plan_moves(&dist);
    assert_eq!(
        moves,
        vec![
            Action::Move { amount: 4, from_x: 0, from_y: 0, to_x: 0, to_y: 1 },
        ]
    );
}

#[test]
fn spawn_budget_on_large_frontier() {
    let m = cell(1, Owner::Mine, 0);
    let n = cell(1, Owner::Neutral, 0);
    let g = game(3, 2, vec![m, m, m, n, n, n], 57);
    let f = g.frontier();
    assert_eq!(f, vec![(0, 0), (0, 1), (0, 2)]);
    for seed in 0..10u64 {
        let mut rng = StdRng::seed_from_u64(seed);
        let s = g.plan_spawns(&mut rng);
        assert_eq!(s.len(), 5);
        for a in &s {
            match a {
                Action::Spawn { amount: 1, x, y } => assert!(f.contains(&(*y, *x))),
                _ => panic!("not a spawn: {:?}", a),
            }
        }
    }
}

#[test]
fn no_frontier_means_no_spawns() {
    let g = game(2, 1, vec![cell(1, Owner::Mine, 0), cell(0, Owner::Enemy, 0)], 90);
    assert_eq!(g.frontier(), vec![]);
    let mut rng = StdRng::seed_from_u64(5);
    assert_eq!(g.plan_spawns(&mut rng), vec![]);
}

#[test]
fn matter_below_cost_spawns_nothing() {
    let g = scenario();
    let g = Game { my_matter: 9, ..g };
    let mut rng = StdRng::seed_from_u64(5);
    assert_eq!(g.plan_spawns(&mut rng), vec![]);
}

#[test]
fn spawns_follow_the_draws() {
    let f = vec![(0, 2), (3, 1)];
    assert_eq!(
        spawns_from_draws(&f, &vec![1, 0, 1]),
        vec![
            Action::Spawn { amount: 1, x: 1, y: 3 },
            Action::Spawn { amount: 1, x: 2, y: 0 },
            Action::Spawn { amount: 1, x: 1, y: 3 },
        ]
    );
}

#[test]
fn neighbours_in_fixed_order() {
    let g = game(3, 3, vec![cell(1, Owner::Mine, 0); 9], 0);
    assert_eq!(g.neighbors(1, 1), vec![(1, 2), (2, 1), (1, 0), (0, 1)]);
    assert_eq!(g.neighbors(0, 0), vec![(0, 1), (1, 0)]);
    assert_eq!(g.neighbors(2, 2), vec![(2, 1), (1, 2)]);
}

#[test]
fn owner_codes_round_trip() {
    assert_eq!(Owner::from_code(-1), Some(Owner::Neutral));
    assert_eq!(Owner::from_code(0), Some(Owner::Enemy));
    assert_eq!(Owner::from_code(1), Some(Owner::Mine));
    assert_eq!(Owner::from_code(2), None);
    for o in [Owner::Neutral, Owner::Enemy, Owner::Mine] {
        assert_eq!(Owner::from_code(o.code()), Some(o));
    }
}

#[test]
fn flags_from_integers() {
    assert!(!bool_from_i32(0));
    assert!(bool_from_i32(1));
    assert!(bool_from_i32(-3));
}

#[test]
fn robots_listed_in_row_major_order() {
    let g = game(
        2,
        2,
        vec![
            cell(1, Owner::Enemy, 2),
            cell(1, Owner::Mine, 1),
            cell(1, Owner::Mine, 0),
            cell(0, Owner::Mine, 4),
        ],
        0,
    );
    assert_eq!(g.my_robots(), vec![(0, 1), (1, 1)]);
}
