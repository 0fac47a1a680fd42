//! A path through a maze: a list of moves, and the walk that follows it.
use crate::maze::{is_rectangular, Maze};
use vstd::prelude::*;

verus! {

/// One move of a walker.
#[derive(Clone, Copy, Debug, PartialEq, Eq, Structural)]
pub enum Direction {
    Up,
    Down,
    Left,
    Right,
}

/// A sequence of moves.
#[derive(Debug)]
pub struct Path {
    pub moves: Vec<Direction>,
}

/// Where a walk ended and how it went. `distance_squared` is the square of the
/// straight-line distance, in cells, from the end of the walk to the goal.
#[derive(Debug)]
pub struct AgentResult {
    pub end_x: usize,
    pub end_y: usize,
    pub reached_goal: bool,
    pub steps_taken: usize,
    pub distance_squared: u128,
}

/// The cell that a move from `(x, y)` aims at, kept inside a grid of `w` by
/// `h` cells.
pub open spec fn aim(x: int, y: int, d: Direction, w: int, h: int) -> (int, int) {
    match d {
        Direction::Up => (x, if y > 0 { y - 1 } else { 0 }),
        Direction::Down => (x, if y + 1 < h - 1 { y + 1 } else { h - 1 }),
        Direction::Left => (if x > 0 { x - 1 } else { 0 }, y),
        Direction::Right => (if x + 1 < w - 1 { x + 1 } else { w - 1 }, y),
    }
}

/// Where one move from `(x, y)` leads: the aimed-at cell, unless it is a wall.
pub open spec fn step(grid: Seq<Seq<char>>, x: int, y: int, d: Direction) -> (int, int) {
    let t = aim(x, y, d, grid[0].len() as int, grid.len() as int);
    if grid[t.1][t.0] != '#' {
        t
    } else {
        (x, y)
    }
}

/// The walk along `moves` from `(x, y)`: the cell where it ends and the number
/// of moves made. It stops as soon as a move lands on the goal `(gx, gy)`.
pub open spec fn walk(
    grid: Seq<Seq<char>>,
    moves: Seq<Direction>,
    x: int,
    y: int,
    gx: int,
    gy: int,
) -> (int, int, int)
    decreases moves.len(),
{
    if moves.len() == 0 {
        (x, y, 0)
    } else {
        let p = step(grid, x, y, moves[0]);
        if p.0 == gx && p.1 == gy {
            (p.0, p.1, 1)
        } else {
            let r = walk(grid, moves.skip(1), p.0, p.1, gx, gy);
            (r.0, r.1, r.2 + 1)
        }
    }
}

proof fn lemma_step_in_grid(grid: Seq<Seq<char>>, x: int, y: int, d: Direction)
    requires
        is_rectangular(grid),
        0 <= x < grid[0].len(),
        0 <= y < grid.len(),
    ensures
        0 <= step(grid, x, y, d).0 < grid[0].len(),
        0 <= step(grid, x, y, d).1 < grid.len(),
{
}

impl Path {
    /// A path of the given moves.
    pub fn new(moves: Vec<Direction>) -> (r: Path)
        ensures
            r.moves@ == moves@,
    {
        Path { moves }
    }

    /// Walks the moves from `(start_x, start_y)` through `maze`. A move that
    /// would leave the grid stays at its edge, and a move into a wall is not
    /// made but still counts. The walk stops as soon as it lands on the goal
    /// `(goal_x, goal_y)`.
    pub fn simulate(
        &self,
        maze: &Maze,
        start_x: usize,
        start_y: usize,
        goal_x: usize,
        goal_y: usize,
    ) -> (r: AgentResult)
        requires
            is_rectangular(maze@),
            maze@[0].len() <= u32::MAX,
            maze@.len() <= u32::MAX,
            start_x < maze@[0].len(),
            start_y < maze@.len(),
            goal_x < maze@[0].len(),
            goal_y < maze@.len(),
        ensures
            ({
                let w = walk(maze@, self.moves@, start_x as int, start_y as int, goal_x as int, goal_y as int);
                &&& r.end_x == w.0
                &&& r.end_y == w.1
                &&& r.steps_taken == w.2
            }),
            r.reached_goal == (r.end_x == goal_x && r.end_y == goal_y),
            r.distance_squared == (r.end_x - goal_x) * (r.end_x - goal_x) + (r.end_y - goal_y) * (
            r.end_y - goal_y),
    {
        let ghost g = maze@;
        let ghost whole = walk(g, self.moves@, start_x as int, start_y as int, goal_x as int, goal_y as int);
        let width: usize = maze.grid[0].len();
        let height: usize = maze.grid.len();
        let n = self.moves.len();
        let mut x: usize = start_x;
        let mut y: usize = start_y;
        let mut steps: usize = 0;
        let mut done: bool = false;
        assert(self.moves@.skip(0) =~= self.moves@);
        while steps < n && !done
            invariant
                g == maze@,
                is_rectangular(g),
                width == g[0].len(),
                height == g.len(),
                n == self.moves@.len(),
                steps <= n,
                x < width,
                y < height,
                done ==> whole == (x as int, y as int, steps as int),
                !done ==> ({
                    let rest = walk(g, self.moves@.skip(steps as int), x as int, y as int, goal_x as int, goal_y as int);
                    whole == (rest.0, rest.1, rest.2 + steps)
                }),
                done ==> x == goal_x && y == goal_y,
            decreases n - steps,
        {
            let mv = self.moves[steps];
            let (new_x, new_y) = match mv {
                Direction::Up => (x, if y > 0 { y - 1 } else { 0 }),
                Direction::Down => (x, if y + 1 < height - 1 { y + 1 } else { height - 1 }),
                Direction::Left => (if x > 0 { x - 1 } else { 0 }, y),
                Direction::Right => (if x + 1 < width - 1 { x + 1 } else { width - 1 }, y),
            };
            assert(g[new_y as int] == maze.grid@[new_y as int]@);
            if maze.grid[new_y][new_x] != '#' {
                x = new_x;
                y = new_y;
            }
            proof {
                let rest = self.moves@.skip(steps as int);
                assert(rest[0] == mv);
                assert(rest.skip(1) =~= self.moves@.skip(steps as int + 1));
            }
            steps = steps + 1;
            if x == goal_x && y == goal_y {
                done = true;
            }
        }
        if !done {
            assert(self.moves@.skip(steps as int).len() == 0);
        }
        let ox: u128 = if x >= goal_x { (x - goal_x) as u128 } else { (goal_x - x) as u128 };
        let oy: u128 = if y >= goal_y { (y - goal_y) as u128 } else { (goal_y - y) as u128 };
        proof {
            assert(ox * ox <= 0xffff_ffff * 0xffff_ffff) by (nonlinear_arith)
                requires
                    ox <= 0xffff_ffff,
            ;
            assert(oy * oy <= 0xffff_ffff * 0xffff_ffff) by (nonlinear_arith)
                requires
                    oy <= 0xffff_ffff,
            ;
            assert(ox * ox == (x - goal_x) * (x - goal_x)) by (nonlinear_arith)
                requires
                    ox == x - goal_x || ox == goal_x - x,
            ;
            assert(oy * oy == (y - goal_y) * (y - goal_y)) by (nonlinear_arith)
                requires
                    oy == y - goal_y || oy == goal_y - y,
            ;
        }
        AgentResult {
            end_x: x,
            end_y: y,
            reached_goal: x == goal_x && y == goal_y,
            steps_taken: steps,
            distance_squared: ox * ox + oy * oy,
        }
    }
}

} // verus!
