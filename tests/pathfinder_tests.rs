use algo_bench::grid::{CellType, Grid, Position};
use algo_bench::pathfinder::{astar, breadth_first, depth_first, dijkstra, greedy_best_first};

#[test]
fn test_astar_empty_grid() {
    let start = Position::new(0, 0);
    let end = Position::new(2, 2);
    let grid = Grid::new(3, 3, start, end);
    let result = astar::find_path(&grid);
    assert!(result.is_ok());
    let (path, _) = result.unwrap();
    assert!(!path.is_empty());
    assert_eq!(path[0], start);
    assert_eq!(path[path.len() - 1], end);
}

#[test]
fn test_astar_with_obstacles() {
    let start = Position::new(0, 0);
    let end = Position::new(2, 2);
    let mut grid = Grid::new(3, 3, start, end);
    grid.add_obstacle(Position::new(1, 1));
    let result = astar::find_path(&grid);
    assert!(result.is_ok());
    let (path, _) = result.unwrap();
    assert!(!path.is_empty());
    assert_eq!(path[0], start);
    assert_eq!(path[path.len() - 1], end);
    for pos in &path {
        assert_ne!(grid.cells[pos.row][pos.col], CellType::Blocked);
    }
}

#[test]
fn test_astar_no_path() {
    let start = Position::new(0, 0);
    let end = Position::new(2, 2);
    let mut grid = Grid::new(3, 3, start, end);
    grid.add_obstacle(Position::new(0, 1));
    grid.add_obstacle(Position::new(1, 0));
    grid.add_obstacle(Position::new(1, 1));
    let result = astar::find_path(&grid);
    assert!(result.is_ok());
    let (path, _) = result.unwrap();
    assert!(path.is_empty());
}

#[test]
fn test_bfs_empty_grid() {
    let start = Position::new(0, 0);
    let end = Position::new(2, 2);
    let grid = Grid::new(3, 3, start, end);
    let result = breadth_first::find_path(&grid);
    assert!(result.is_ok());
    let (path, _) = result.unwrap();
    assert!(!path.is_empty());
    assert_eq!(path[0], start);
    assert_eq!(path[path.len() - 1], end);
}

#[test]
fn test_bfs_with_obstacles() {
    let start = Position::new(0, 0);
    let end = Position::new(2, 2);
    let mut grid = Grid::new(3, 3, start, end);
    grid.add_obstacle(Position::new(1, 1));
    let result = breadth_first::find_path(&grid);
    assert!(result.is_ok());
    let (path, _) = result.unwrap();
    assert!(!path.is_empty());
    assert_eq!(path[0], start);
    assert_eq!(path[path.len() - 1], end);
    for pos in &path {
        assert_ne!(grid.cells[pos.row][pos.col], CellType::Blocked);
    }
}

#[test]
fn test_bfs_no_path() {
    let start = Position::new(0, 0);
    let end = Position::new(2, 2);
    let mut grid = Grid::new(3, 3, start, end);
    grid.add_obstacle(Position::new(0, 1));
    grid.add_obstacle(Position::new(1, 0));
    grid.add_obstacle(Position::new(1, 1));
    let result = breadth_first::find_path(&grid);
    assert!(result.is_ok());
    let (path, _) = result.unwrap();
    assert!(path.is_empty());
}

#[test]
fn test_dfs_empty_grid() {
    let start = Position::new(0, 0);
    let end = Position::new(2, 2);
    let grid = Grid::new(3, 3, start, end);
    let result = depth_first::find_path(&grid);
    assert!(result.is_ok());
    let (path, _) = result.unwrap();
    assert!(!path.is_empty());
    assert_eq!(path[0], start);
    assert_eq!(path[path.len() - 1], end);
}

#[test]
fn test_dfs_with_obstacles() {
    let start = Position::new(0, 0);
    let end = Position::new(2, 2);
    let mut grid = Grid::new(3, 3, start, end);
    grid.add_obstacle(Position::new(1, 1));
    let result = depth_first::find_path(&grid);
    assert!(result.is_ok());
    let (path, _) = result.unwrap();
    assert!(!path.is_empty());
    assert_eq!(path[0], start);
    assert_eq!(path[path.len() - 1], end);
    for pos in &path {
        assert_ne!(grid.cells[pos.row][pos.col], CellType::Blocked);
    }
}

#[test]
fn test_dfs_no_path() {
    let start = Position::new(0, 0);
    let end = Position::new(2, 2);
    let mut grid = Grid::new(3, 3, start, end);
    grid.add_obstacle(Position::new(0, 1));
    grid.add_obstacle(Position::new(1, 0));
    grid.add_obstacle(Position::new(1, 1));
    let result = depth_first::find_path(&grid);
    assert!(result.is_ok());
    let (path, _) = result.unwrap();
    assert!(path.is_empty());
}

#[test]
fn test_dijkstra_empty_grid() {
    let start = Position::new(0, 0);
    let end = Position::new(2, 2);
    let grid = Grid::new(3, 3, start, end);
    let result = dijkstra::find_path(&grid);
    assert!(result.is_ok());
    let (path, _) = result.unwrap();
    assert!(!path.is_empty());
    assert_eq!(path[0], start);
    assert_eq!(path[path.len() - 1], end);
}

#[test]
fn test_dijkstra_with_obstacles() {
    let start = Position::new(0, 0);
    let end = Position::new(2, 2);
    let mut grid = Grid::new(3, 3, start, end);
    grid.add_obstacle(Position::new(1, 1));
    let result = dijkstra::find_path(&grid);
    assert!(result.is_ok());
    let (path, _) = result.unwrap();
    assert!(!path.is_empty());
    assert_eq!(path[0], start);
    assert_eq!(path[path.len() - 1], end);
    for pos in &path {
        assert_ne!(grid.cells[pos.row][pos.col], CellType::Blocked);
    }
}

#[test]
fn test_dijkstra_no_path() {
    let start = Position::new(0, 0);
    let end = Position::new(2, 2);
    let mut grid = Grid::new(3, 3, start, end);
    grid.add_obstacle(Position::new(0, 1));
    grid.add_obstacle(Position::new(1, 0));
    grid.add_obstacle(Position::new(1, 1));
    let result = dijkstra::find_path(&grid);
    assert!(result.is_ok());
    let (path, _) = result.unwrap();
    assert!(path.is_empty());
}

#[test]
fn test_greedy_best_first_empty_grid() {
    let start = Position::new(0, 0);
    let end = Position::new(2, 2);
    let grid = Grid::new(3, 3, start, end);
    let result = greedy_best_first::find_path(&grid);
    assert!(result.is_ok());
    let (path, _) = result.unwrap();
    assert!(!path.is_empty());
    assert_eq!(path[0], start);
    assert_eq!(path[path.len() - 1], end);
}

#[test]
fn test_greedy_best_first_with_obstacles() {
    let start = Position::new(0, 0);
    let end = Position::new(2, 2);
    let mut grid = Grid::new(3, 3, start, end);
    grid.add_obstacle(Position::new(1, 1));
    let result = greedy_best_first::find_path(&grid);
    assert!(result.is_ok());
    let (path, _) = result.unwrap();
    assert!(!path.is_empty());
    assert_eq!(path[0], start);
    assert_eq!(path[path.len() - 1], end);
    for pos in &path {
        assert_ne!(grid.cells[pos.row][pos.col], CellType::Blocked);
    }
}

#[test]
fn test_greedy_best_first_no_path() {
    let start = Position::new(0, 0);
    let end = Position::new(2, 2);
    let mut grid = Grid::new(3, 3, start, end);
    grid.add_obstacle(Position::new(0, 1));
    grid.add_obstacle(Position::new(1, 0));
    grid.add_obstacle(Position::new(1, 1));
    let result = greedy_best_first::find_path(&grid);
    assert!(result.is_ok());
    let (path, _) = result.unwrap();
    assert!(path.is_empty());
}

#[test]
fn test_bfs_shortest_path() {
    let start = Position::new(0, 0);
    let end = Position::new(0, 2);
    let grid = Grid::new(3, 1, start, end);
    let result = breadth_first::find_path(&grid);
    assert!(result.is_ok());
    let (path, _) = result.unwrap();
    assert_eq!(path.len(), 3);
}

#[test]
fn test_dfs_iterative_empty_grid() {
    let start = Position::new(0, 0);
    let end = Position::new(2, 2);
    let grid = Grid::new(3, 3, start, end);
    let result = depth_first::find_path_iterative(&grid);
    assert!(result.is_ok());
    let (path, _) = result.unwrap();
    assert!(!path.is_empty());
    assert_eq!(path[0], start);
    assert_eq!(path[path.len() - 1], end);
}

#[test]
fn test_dijkstra_optimal_path() {
    let start = Position::new(0, 0);
    let end = Position::new(0, 3);
    let grid = Grid::new(4, 1, start, end);
    let result = dijkstra::find_path(&grid);
    assert!(result.is_ok());
    let (path, _) = result.unwrap();
    assert_eq!(path.len(), 4);
}

#[test]
fn test_heuristic_calculation() {
    let pos1 = Position::new(0, 0);
    let pos2 = Position::new(3, 4);
    let h = greedy_best_first::heuristic(&pos1, &pos2);
    assert_eq!(h as f64, 7.0);
}

#[test]
fn test_greedy_best_first_direct_path() {
    let start = Position::new(0, 0);
    let end = Position::new(0, 3);
    let grid = Grid::new(4, 1, start, end);
    let result = greedy_best_first::find_path(&grid);
    assert!(result.is_ok());
    let (path, _) = result.unwrap();
    assert_eq!(path.len(), 4);
    for (i, pos) in path.iter().enumerate() {
        assert_eq!(pos.row, 0);
        assert_eq!(pos.col, i);
    }
}
