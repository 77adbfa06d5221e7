use algo_bench::coordinator::{aggregate_trials, count_obstacles, find_path_by_key, run_algorithm, PathfinderCoordinator};
use algo_bench::counter::PerformanceCounter;
use algo_bench::error::Error;
use algo_bench::generator::{create_maze_like_grid, create_simple_connected_grid, get_protected_positions, is_grid_connected, percent_of, place_drawn, place_off_staircase, GridGenerator};
use algo_bench::grid::{CellType, Grid, Position};
use algo_bench::menu_choice::PathfinderAlgorithm;
use algo_bench::pathfinder::{astar, breadth_first, depth_first, dijkstra, greedy_best_first};

fn all_paths(grid: &Grid) -> Vec<Vec<Position>> {
    vec![
        astar::find_path(grid).unwrap().0,
        dijkstra::find_path(grid).unwrap().0,
        breadth_first::find_path(grid).unwrap().0,
        depth_first::find_path(grid).unwrap().0,
        depth_first::find_path_iterative(grid).unwrap().0,
        greedy_best_first::find_path(grid).unwrap().0,
    ]
}

fn is_walk(grid: &Grid, path: &[Position]) -> bool {
    if path.is_empty() || path[0] != grid.start || path[path.len() - 1] != grid.end {
        return false;
    }
    for (i, p) in path.iter().enumerate() {
        if grid.cells[p.row][p.col] == CellType::Blocked {
            return false;
        }
        if i > 0 {
            let q = path[i - 1];
            let d = q.row.abs_diff(p.row) + q.col.abs_diff(p.col);
            if d != 1 {
                return false;
            }
        }
    }
    true
}

#[test]
fn generated_grids_are_connected() {
    for &(w, h) in &[(3usize, 3usize), (5, 4), (10, 10), (20, 7)] {
        for &p in &[0u64, 30, 50, 80] {
            let g = GridGenerator::generate(w, h, p);
            assert!(is_grid_connected(&g));
            assert!(!breadth_first::find_path(&g).unwrap().0.is_empty());
        }
    }
}

#[test]
fn random_placement_blocks_cells() {
    let g = GridGenerator::generate(10, 10, 30);
    assert!(count_obstacles(&g) > 0);
    assert!(count_obstacles(&g) <= 30);
}

#[test]
fn paths_are_walks_on_generated_grids() {
    for _ in 0..5 {
        let g = GridGenerator::generate(12, 9, 40);
        for path in all_paths(&g) {
            assert!(is_walk(&g, &path));
        }
    }
}

#[test]
fn optimal_lengths_agree() {
    for _ in 0..5 {
        let g = GridGenerator::generate(15, 15, 35);
        let b = breadth_first::find_path(&g).unwrap().0.len();
        let d = dijkstra::find_path(&g).unwrap().0.len();
        let a = astar::find_path(&g).unwrap().0.len();
        assert_eq!(b, d);
        assert_eq!(b, a);
    }
}

#[test]
fn sealed_corner_has_no_path() {
    let mut grid = Grid::new(3, 3, Position::new(0, 0), Position::new(2, 2));
    grid.add_obstacle(Position::new(0, 1));
    grid.add_obstacle(Position::new(1, 0));
    grid.add_obstacle(Position::new(1, 1));
    let runs = vec![
        astar::find_path(&grid).unwrap(),
        dijkstra::find_path(&grid).unwrap(),
        breadth_first::find_path(&grid).unwrap(),
        depth_first::find_path(&grid).unwrap(),
        greedy_best_first::find_path(&grid).unwrap(),
    ];
    for (path, counter) in runs {
        assert!(path.is_empty());
        assert!(counter.nodes_explored > 0);
    }
}

#[test]
fn open_three_by_three_shortest_length() {
    let grid = Grid::new(3, 3, Position::new(0, 0), Position::new(2, 2));
    assert_eq!(astar::find_path(&grid).unwrap().0.len(), 5);
    assert_eq!(dijkstra::find_path(&grid).unwrap().0.len(), 5);
    assert_eq!(breadth_first::find_path(&grid).unwrap().0.len(), 5);
    assert_eq!(greedy_best_first::find_path(&grid).unwrap().0.len(), 5);
}

#[test]
fn open_three_by_three_depth_first_walk() {
    let grid = Grid::new(3, 3, Position::new(0, 0), Position::new(2, 2));
    let path = depth_first::find_path(&grid).unwrap().0;
    assert_eq!(path.len(), 9);
    assert!(is_walk(&grid, &path));
}

#[test]
fn single_row_straight_line() {
    let grid = Grid::new(4, 1, Position::new(0, 0), Position::new(0, 3));
    let expected = vec![Position::new(0, 0), Position::new(0, 1), Position::new(0, 2), Position::new(0, 3)];
    assert_eq!(breadth_first::find_path(&grid).unwrap().0, expected);
    assert_eq!(dijkstra::find_path(&grid).unwrap().0, expected);
}

#[test]
fn small_grid_gets_no_obstacles() {
    let g = GridGenerator::generate(2, 2, 50);
    assert_eq!(count_obstacles(&g), 0);
    let g = GridGenerator::generate(2, 9, 80);
    assert_eq!(count_obstacles(&g), 0);
}

#[test]
fn heuristic_is_manhattan() {
    assert_eq!(astar::heuristic(&Position::new(0, 0), &Position::new(3, 4)), 7);
    assert_eq!(astar::heuristic(&Position::new(5, 1), &Position::new(2, 6)), 8);
    assert_eq!(Position::new(4, 4).manhattan_distance_to(&Position::new(1, 9)), 8);
}

#[test]
fn neighbours_in_order() {
    let mut grid = Grid::new(3, 3, Position::new(0, 0), Position::new(2, 2));
    let n = grid.get_neighbors(&Position::new(1, 1));
    assert_eq!(n, vec![Position::new(1, 2), Position::new(1, 0), Position::new(2, 1), Position::new(0, 1)]);
    grid.add_obstacle(Position::new(1, 2));
    grid.add_obstacle(Position::new(0, 0));
    let n = grid.get_neighbors(&Position::new(1, 1));
    assert_eq!(n, vec![Position::new(1, 0), Position::new(2, 1), Position::new(0, 1)]);
    assert_eq!(grid.cells[0][0], CellType::Start);
    assert!(grid.is_valid_position(&Position::new(0, 0)));
    assert!(!grid.is_valid_position(&Position::new(1, 2)));
    assert!(!grid.is_valid_position(&Position::new(3, 0)));
}

#[test]
fn maze_grid_layout() {
    let g = create_maze_like_grid(7, 5);
    assert_eq!(g.cells[2][2], CellType::Blocked);
    assert_eq!(g.cells[2][4], CellType::Blocked);
    assert_eq!(g.cells[0][2], CellType::Blocked);
    assert_eq!(g.cells[2][6], CellType::Blocked);
    assert_eq!(g.cells[1][2], CellType::Open);
    assert_eq!(g.cells[0][0], CellType::Start);
    assert_eq!(g.cells[4][6], CellType::End);
    assert_eq!(count_obstacles(&g), 10);
    assert!(is_grid_connected(&g));
    let narrow = create_maze_like_grid(1, 5);
    assert_eq!(narrow.cells[2][0], CellType::Blocked);
    assert!(!is_grid_connected(&narrow));
}

#[test]
fn fallback_grid_keeps_staircase_open() {
    let g = create_simple_connected_grid(12, 12, 80);
    for c in 0..12 {
        assert_ne!(g.cells[0][c], CellType::Blocked);
    }
    for r in 0..12 {
        assert_ne!(g.cells[r][11], CellType::Blocked);
    }
    assert!(is_grid_connected(&g));
}

#[test]
fn rounded_obstacle_target() {
    assert_eq!(percent_of(100, 30), 30);
    assert_eq!(percent_of(9, 50), 5);
    assert_eq!(percent_of(9, 30), 3);
}

#[test]
fn key_selects_algorithm() {
    let grid = Grid::new(3, 3, Position::new(0, 0), Position::new(2, 2));
    assert_eq!(find_path_by_key("BFS", &grid).unwrap().0.len(), 5);
    assert_eq!(find_path_by_key("astar", &grid).unwrap().0.len(), 5);
    match find_path_by_key("bogus", &grid) {
        Err(Error::NotFound(m)) => assert_eq!(m, "bogus"),
        _ => panic!("expected an unknown algorithm"),
    }
    assert!(find_path_by_key("all", &grid).is_err());
    assert!(run_algorithm(PathfinderAlgorithm::All, &grid).is_err());
}

#[test]
fn benchmark_rows_per_grid() {
    let mut c = PathfinderCoordinator::new();
    let rows = c.run_benchmarks((6, 6), 2).unwrap();
    assert_eq!(c.grids().len(), 3);
    assert_eq!(rows.len(), 15);
    assert_eq!(rows[0].algorithm_name, "A*");
    assert_eq!(rows[0].theoretical_complexity, "O(b^d)");
    assert_eq!(rows[0].path_length, 11);
    assert_eq!(rows[0].obstacle_count, 0);
    assert_eq!(rows[0].grid_size, (6, 6));
    assert!(rows.iter().all(|m| m.path_found && m.path_length == m.path.len()));
    assert_eq!(rows[14].algorithm_name, "Greedy Best-First");
}

#[test]
fn benchmark_without_trials_has_no_rows() {
    let mut c = PathfinderCoordinator::new();
    c.generate_test_grids((5, 5), 30).unwrap();
    assert_eq!(c.benchmark_algorithm(PathfinderAlgorithm::BreadthFirst, 0).unwrap().len(), 0);
    assert!(c.benchmark_algorithm(PathfinderAlgorithm::All, 1).is_err());
    assert_eq!(c.benchmark_algorithm(PathfinderAlgorithm::All, 0).unwrap().len(), 0);
}

#[test]
fn drawn_cell_placement() {
    let mut g = Grid::new(5, 5, Position::new(0, 0), Position::new(4, 4));
    let protected = get_protected_positions(&g);
    assert!(!place_drawn(&mut g, &protected, Position::new(1, 1)));
    assert_eq!(g.cells[1][1], CellType::Open);
    assert!(place_drawn(&mut g, &protected, Position::new(2, 2)));
    assert_eq!(g.cells[2][2], CellType::Blocked);
    assert!(!place_drawn(&mut g, &protected, Position::new(2, 2)));
    assert!(place_drawn(&mut g, &protected, Position::new(2, 1)));
    assert!(place_drawn(&mut g, &protected, Position::new(2, 3)));
    assert!(place_drawn(&mut g, &protected, Position::new(2, 0)));
    assert!(!place_drawn(&mut g, &protected, Position::new(2, 4)));
    assert_eq!(g.cells[2][4], CellType::Open);
    assert!(is_grid_connected(&g));
}

#[test]
fn staircase_placement() {
    let mut g = Grid::new(6, 6, Position::new(0, 0), Position::new(5, 5));
    let protected = get_protected_positions(&g);
    assert!(!place_off_staircase(&mut g, &protected, Position::new(1, 2)));
    assert!(!place_off_staircase(&mut g, &protected, Position::new(0, 3)));
    assert!(place_off_staircase(&mut g, &protected, Position::new(3, 2)));
    assert_eq!(g.cells[3][2], CellType::Blocked);
    assert!(!place_off_staircase(&mut g, &protected, Position::new(3, 2)));
    assert_eq!(count_obstacles(&g), 1);
}

#[test]
fn aggregate_uses_last_success_and_mean_time() {
    let grid = Grid::new(3, 1, Position::new(0, 0), Position::new(0, 2));
    let walk = vec![Position::new(0, 0), Position::new(0, 1), Position::new(0, 2)];
    let mut c1 = PerformanceCounter::new();
    c1.explore_node();
    let mut c2 = PerformanceCounter::new();
    c2.explore_node();
    c2.explore_node();
    c2.add_to_frontier();
    let trials = vec![(walk.clone(), c1, 100u128), (Vec::new(), c1, 1000u128), (walk.clone(), c2, 300u128)];
    let m = aggregate_trials(PathfinderAlgorithm::BreadthFirst, &grid, trials).unwrap();
    assert_eq!(m.duration_nanos, 200);
    assert_eq!(m.nodes_explored, 2);
    assert_eq!(m.nodes_in_frontier, 1);
    assert_eq!(m.path, walk);
    assert_eq!(m.path_length, 3);
    assert_eq!(m.algorithm_name, "Breadth-First Search");
    assert!(aggregate_trials(PathfinderAlgorithm::BreadthFirst, &grid, vec![(Vec::new(), c1, 5u128)]).is_none());
}
