use maze_runner::maze::Maze;
use maze_runner::path::{Direction, Path};

fn grid_of(rows: &[&str]) -> Maze {
    Maze { grid: rows.iter().map(|r| r.chars().collect()).collect() }
}

fn check_shape(maze: &Maze, dx: usize, dy: usize) {
    let g = &maze.grid;
    assert_eq!(g.len(), 2 * dy + 1);
    assert!(g.iter().all(|row| row.len() == 2 * dx + 1));
    for (y, row) in g.iter().enumerate() {
        for (x, &c) in row.iter().enumerate() {
            assert!(c == '#' || c == ' ' || c == 'S' || c == 'E');
            if y == 0 || y == 2 * dy || (x % 2 == 0 && y % 2 == 0) {
                assert_eq!(c, '#');
            }
            if c == 'S' {
                assert!(x == 2 * dx && y % 2 == 1);
            }
            if c == 'E' {
                assert!(x == 0 && y % 2 == 1);
            }
        }
    }
    assert_eq!(g[1][1], ' ');
}

#[test]
fn new_maze_has_the_expected_shape() {
    for (dx, dy) in [(1, 1), (2, 3), (5, 5), (8, 4)] {
        let maze = Maze::new(dx, dy);
        check_shape(&maze, dx, dy);
        assert_eq!(maze.bounds(), (2 * dx + 1, 2 * dy + 1));
    }
}

#[test]
fn new_maze_opens_every_cell_and_both_ends() {
    // The depth-first walk reaches every cell.
    let maze = Maze::new(6, 6);
    for y in 0..6 {
        for x in 0..6 {
            assert_eq!(maze.grid[2 * y + 1][2 * x + 1], ' ');
        }
    }
    assert_eq!(maze.start_position(), Some((12, 1)));
    assert_eq!(maze.end_position(), Some((0, 11)));
}

#[test]
fn walls_are_listed_row_by_row() {
    let maze = grid_of(&["###", "S E", "# #"]);
    assert_eq!(maze.walls(), vec![(0, 0), (1, 0), (2, 0), (0, 2), (2, 2)]);
    assert_eq!(maze.bounds(), (3, 3));
}

#[test]
fn start_and_end_positions() {
    let maze = grid_of(&["#####", "#  S#", "#E  #", "#####"]);
    assert_eq!(maze.start_position(), Some((3, 1)));
    assert_eq!(maze.end_position(), Some((1, 2)));
    let bare = grid_of(&["###", "# #", "###"]);
    assert_eq!(bare.start_position(), None);
    assert_eq!(bare.end_position(), None);
}

#[test]
fn simulate_walks_around_walls() {
    let maze = grid_of(&["#####", "#   #", "# # #", "#   #", "#####"]);
    let path = Path::new(vec![Direction::Right, Direction::Right, Direction::Down, Direction::Left]);
    let r = path.simulate(&maze, 1, 1, 1, 3);
    // Down from (3, 1) reaches (3, 2); Left from there hits the wall at (2, 2).
    assert_eq!((r.end_x, r.end_y), (3, 2));
    assert_eq!(r.steps_taken, 4);
    assert!(!r.reached_goal);
    assert_eq!(r.distance_squared, 4 + 1);
}

#[test]
fn simulate_stops_at_the_goal() {
    let maze = grid_of(&["#####", "#   #", "#####"]);
    let path = Path::new(vec![Direction::Right, Direction::Right, Direction::Left, Direction::Left]);
    let r = path.simulate(&maze, 1, 1, 3, 1);
    assert_eq!((r.end_x, r.end_y), (3, 1));
    assert_eq!(r.steps_taken, 2);
    assert!(r.reached_goal);
    assert_eq!(r.distance_squared, 0);
}

#[test]
fn simulate_stays_inside_the_grid() {
    let maze = grid_of(&["  ", "  "]);
    let path = Path::new(vec![Direction::Up, Direction::Left, Direction::Up]);
    let r = path.simulate(&maze, 0, 0, 1, 1);
    assert_eq!((r.end_x, r.end_y), (0, 0));
    assert_eq!(r.steps_taken, 3);
    assert_eq!(r.distance_squared, 2);
    let empty = Path::new(Vec::new());
    let s = empty.simulate(&maze, 1, 1, 1, 1);
    assert_eq!(s.steps_taken, 0);
    assert!(s.reached_goal);
}

#[test]
fn new_maze_connects_every_cell() {
    let (dx, dy) = (7, 5);
    let maze = Maze::new(dx, dy);
    let g = &maze.grid;
    let mut seen = vec![vec![false; dx]; dy];
    let mut todo = vec![(0usize, 0usize)];
    seen[0][0] = true;
    while let Some((x, y)) = todo.pop() {
        let mut next = Vec::new();
        if x + 1 < dx && g[2 * y + 1][2 * x + 2] == ' ' {
            next.push((x + 1, y));
        }
        if x > 0 && g[2 * y + 1][2 * x] == ' ' {
            next.push((x - 1, y));
        }
        if y + 1 < dy && g[2 * y + 2][2 * x + 1] == ' ' {
            next.push((x, y + 1));
        }
        if y > 0 && g[2 * y][2 * x + 1] == ' ' {
            next.push((x, y - 1));
        }
        for (a, b) in next {
            if !seen[b][a] {
                seen[b][a] = true;
                todo.push((a, b));
            }
        }
    }
    assert!(seen.iter().all(|row| row.iter().all(|&s| s)));
}
