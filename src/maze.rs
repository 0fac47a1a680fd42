//! A maze drawn as a grid of characters: `#` for wall, a space for open floor,
//! `S` for the start and `E` for the end. Positions are `(x, y)` cells, `x`
//! the column and `y` the row.
use crate::random::choose_cell;
use vstd::prelude::*;

verus! {

/// One cell while the maze is carved: the cells it is joined to, whether it is
/// still solid, and whether the carving has yet to reach it.
#[derive(Debug)]
struct Cell {
    neighbors: Vec<(usize, usize)>,
    wall: bool,
    open: bool,
}

impl Cell {
    fn new(is_wall: bool) -> (r: Cell)
        ensures
            r.neighbors@.len() == 0,
            r.wall == is_wall,
            r.open,
    {
        Cell { neighbors: Vec::new(), wall: is_wall, open: true }
    }

    /// Joins this cell to `neighbor`, once.
    fn add_neighbor(&mut self, neighbor: (usize, usize))
        ensures
            final(self).neighbors@ == if old(self).neighbors@.contains(neighbor) {
                old(self).neighbors@
            } else {
                old(self).neighbors@.push(neighbor)
            },
            final(self).wall == old(self).wall,
            final(self).open == old(self).open,
    {
        let mut i: usize = 0;
        while i < self.neighbors.len()
            invariant
                i <= self.neighbors@.len(),
                forall|j: int| 0 <= j < i ==> self.neighbors@[j] != neighbor,
            decreases self.neighbors@.len() - i,
        {
            let n = self.neighbors[i];
            if n.0 == neighbor.0 && n.1 == neighbor.1 {
                return;
            }
            i = i + 1;
        }
        self.neighbors.push(neighbor);
    }
}

/// `(a, b)` and `(c, d)` are side by side: they differ by one step along
/// exactly one axis.
pub open spec fn adjacent(a: int, b: int, c: int, d: int) -> bool {
    (b == d && (a == c + 1 || c == a + 1)) || (a == c && (b == d + 1 || d == b + 1))
}

/// `dx` columns of `dy` cells, where every join links side-by-side cells of
/// the maze and the first cell is carved.
spec fn joins_sound(cells: Seq<Vec<Cell>>, dx: int, dy: int) -> bool {
    &&& cells.len() == dx
    &&& forall|x: int| 0 <= x < dx ==> (#[trigger] cells[x])@.len() == dy
    &&& forall|x: int, y: int, k: int|
        0 <= x < dx && 0 <= y < dy && 0 <= k < cells[x]@[y].neighbors@.len() ==> {
            let n = #[trigger] cells[x]@[y].neighbors@[k];
            &&& n.0 < dx
            &&& n.1 < dy
            &&& adjacent(x, y, n.0 as int, n.1 as int)
        }
    &&& !cells[0]@[0].wall
}

/// Every side neighbour of cell `(x, y)` has been visited.
spec fn neighbours_visited(cells: Seq<Vec<Cell>>, x: int, y: int, dx: int, dy: int) -> bool {
    &&& x + 1 < dx ==> !cells[x + 1]@[y].open
    &&& y + 1 < dy ==> !cells[x]@[y + 1].open
    &&& x > 0 ==> !cells[x - 1]@[y].open
    &&& y > 0 ==> !cells[x]@[y - 1].open
}

/// The carving state is sound, and a cell is unvisited exactly when its number
/// is not in `closed`. An unvisited cell is solid, a visited one is carved,
/// and a visited cell either waits on `stack` or has no unvisited neighbour.
spec fn carving(
    cells: Seq<Vec<Cell>>,
    dx: int,
    dy: int,
    closed: Set<int>,
    stack: Seq<(usize, usize)>,
) -> bool {
    &&& joins_sound(cells, dx, dy)
    &&& forall|x: int, y: int|
        0 <= x < dx && 0 <= y < dy ==> ((#[trigger] cells[x]@[y]).open ==> cells[x]@[y].wall)
    &&& forall|x: int, y: int|
        0 <= x < dx && 0 <= y < dy ==> (!(#[trigger] cells[x]@[y]).open ==> !cells[x]@[y].wall)
    &&& forall|x: int, y: int|
        0 <= x < dx && 0 <= y < dy && !(#[trigger] cells[x]@[y]).open ==> (stack.contains(
            (x as usize, y as usize),
        ) || neighbours_visited(cells, x, y, dx, dy))
    &&& forall|x: int, y: int|
        0 <= x < dx && 0 <= y < dy ==> ((#[trigger] cells[x]@[y]).open <==> !closed.contains(
            x * dy + y,
        ))
    &&& closed.subset_of(vstd::set_lib::set_int_range(0, dx * dy))
}

/// Cell `(x, y)` is the first cell or is joined to a cell from which a chain
/// of fewer than `d` joins leads to the first cell.
spec fn joined(cells: Seq<Vec<Cell>>, x: int, y: int, d: nat) -> bool
    decreases d,
{
    (x == 0 && y == 0) || (d > 0 && exists|k: int|
        0 <= k < cells[x]@[y].neighbors@.len() && joined(
            cells,
            (#[trigger] cells[x]@[y].neighbors@[k]).0 as int,
            cells[x]@[y].neighbors@[k].1 as int,
            (d - 1) as nat,
        ))
}

/// Some chain of joins leads from cell `(x, y)` to the first cell.
spec fn joined_somehow(cells: Seq<Vec<Cell>>, x: int, y: int) -> bool {
    exists|d: nat| joined(cells, x, y, d)
}

/// `after` keeps every join of `before`, at the same place in each list.
spec fn joins_grow(before: Seq<Vec<Cell>>, after: Seq<Vec<Cell>>, dx: int, dy: int) -> bool {
    &&& after.len() == dx
    &&& forall|a: int| 0 <= a < dx ==> (#[trigger] after[a])@.len() == dy
    &&& forall|a: int, b: int|
        0 <= a < dx && 0 <= b < dy ==> before[a]@[b].neighbors@.len() <= (#[trigger] after[a]@[b]).neighbors@.len()
    &&& forall|a: int, b: int, k: int|
        0 <= a < dx && 0 <= b < dy && 0 <= k < before[a]@[b].neighbors@.len() ==> #[trigger] after[a]@[b].neighbors@[k]
            == before[a]@[b].neighbors@[k]
}

/// Chains of joins survive when joins are only added.
proof fn lemma_joined_grows(
    before: Seq<Vec<Cell>>,
    after: Seq<Vec<Cell>>,
    dx: int,
    dy: int,
    x: int,
    y: int,
    d: nat,
)
    requires
        joins_sound(before, dx, dy),
        joins_grow(before, after, dx, dy),
        0 <= x < dx,
        0 <= y < dy,
        joined(before, x, y, d),
    ensures
        joined(after, x, y, d),
    decreases d,
{
    if !(x == 0 && y == 0) {
        let k = choose|k: int|
            0 <= k < before[x]@[y].neighbors@.len() && joined(
                before,
                (#[trigger] before[x]@[y].neighbors@[k]).0 as int,
                before[x]@[y].neighbors@[k].1 as int,
                (d - 1) as nat,
            );
        let n = before[x]@[y].neighbors@[k];
        lemma_joined_grows(before, after, dx, dy, n.0 as int, n.1 as int, (d - 1) as nat);
        assert(after[x]@[y].neighbors@[k] == n);
    }
}

/// After cell `(nx, ny)` is visited and joined to the visited cell `(x, y)`,
/// every visited cell is joined to the first cell, `(nx, ny)` one join further
/// than `(x, y)`.
proof fn lemma_joined_step(
    before: Seq<Vec<Cell>>,
    after: Seq<Vec<Cell>>,
    dx: int,
    dy: int,
    x: int,
    y: int,
    nx: int,
    ny: int,
    depth: Map<(int, int), nat>,
)
    requires
        joins_sound(before, dx, dy),
        joins_grow(before, after, dx, dy),
        dx <= usize::MAX,
        dy <= usize::MAX,
        0 <= x < dx,
        0 <= y < dy,
        0 <= nx < dx,
        0 <= ny < dy,
        !(x == nx && y == ny),
        after[nx]@[ny].neighbors@.contains((x as usize, y as usize)),
        !before[x]@[y].open,
        forall|a: int, b: int|
            0 <= a < dx && 0 <= b < dy && !(#[trigger] before[a]@[b]).open ==> joined(
                before,
                a,
                b,
                depth[(a, b)],
            ),
        forall|a: int, b: int|
            0 <= a < dx && 0 <= b < dy && !(#[trigger] after[a]@[b]).open ==> (!before[a]@[b].open
                || (a == nx && b == ny)),
    ensures
        forall|a: int, b: int|
            0 <= a < dx && 0 <= b < dy && !(#[trigger] after[a]@[b]).open ==> joined(
                after,
                a,
                b,
                depth.insert((nx, ny), depth[(x, y)] + 1)[(a, b)],
            ),
{
    let dd = depth[(x, y)];
    let nd = depth.insert((nx, ny), dd + 1);
    assert(!before[x]@[y].open);
    lemma_joined_grows(before, after, dx, dy, x, y, dd);
    assert forall|a: int, b: int|
        0 <= a < dx && 0 <= b < dy && !(#[trigger] after[a]@[b]).open implies joined(
            after,
            a,
            b,
            nd[(a, b)],
        ) by {
        if a == nx && b == ny {
            let k = choose|k: int|
                0 <= k < after[a]@[b].neighbors@.len() && after[a]@[b].neighbors@[k] == (
                x as usize,
                y as usize,
            );
            assert(after[a]@[b].neighbors@[k] == (x as usize, y as usize));
            assert(nd[(a, b)] == dd + 1);
            assert(joined(after, x, y, dd));
            assert((dd + 1 - 1) as nat == dd);
        } else {
            assert(!before[a]@[b].open);
            lemma_joined_grows(before, after, dx, dy, a, b, depth[(a, b)]);
        }
    }
}

proof fn lemma_cell_number(x: int, y: int, a: int, b: int, dy: int, dx: int)
    requires
        0 <= x < dx,
        0 <= a < dx,
        0 <= y < dy,
        0 <= b < dy,
    ensures
        0 <= x * dy + y < dx * dy,
        x * dy + y == a * dy + b ==> x == a && y == b,
{
    assert(0 <= x * dy + y < dx * dy) by (nonlinear_arith)
        requires
            0 <= x < dx,
            0 <= y < dy,
    ;
    assert(x * dy + y == a * dy + b ==> x == a && y == b) by (nonlinear_arith)
        requires
            0 <= x,
            0 <= a,
            0 <= y < dy,
            0 <= b < dy,
    ;
}

/// The cells next to `(x, y)`, in the order right, down, left, up, that are
/// still solid and unvisited.
fn open_neighbors(cells: &Vec<Vec<Cell>>, x: usize, y: usize, dx: usize, dy: usize) -> (r: Vec<(usize, usize)>)
    requires
        joins_sound(cells@, dx as int, dy as int),
        x < dx,
        y < dy,
    ensures
        forall|k: int| 0 <= k < r@.len() ==> {
            let n = #[trigger] r@[k];
            &&& n.0 < dx
            &&& n.1 < dy
            &&& adjacent(x as int, y as int, n.0 as int, n.1 as int)
            &&& cells@[n.0 as int]@[n.1 as int].open
        },
        r@.len() == 0 ==> {
            &&& x + 1 < dx ==> !(cells@[x + 1]@[y as int].wall && cells@[x + 1]@[y as int].open)
            &&& y + 1 < dy ==> !(cells@[x as int]@[y + 1].wall && cells@[x as int]@[y + 1].open)
            &&& x > 0 ==> !(cells@[x - 1]@[y as int].wall && cells@[x - 1]@[y as int].open)
            &&& y > 0 ==> !(cells@[x as int]@[y - 1].wall && cells@[x as int]@[y - 1].open)
        },
{
    let mut r: Vec<(usize, usize)> = Vec::new();
    if x + 1 < dx && cells[x + 1][y].wall && cells[x + 1][y].open {
        r.push((x + 1, y));
    }
    if y + 1 < dy && cells[x][y + 1].wall && cells[x][y + 1].open {
        r.push((x, y + 1));
    }
    if x > 0 && cells[x - 1][y].wall && cells[x - 1][y].open {
        r.push((x - 1, y));
    }
    if y > 0 && cells[x][y - 1].wall && cells[x][y - 1].open {
        r.push((x, y - 1));
    }
    r
}

/// Where the first cell is visited and no visited cell has an unvisited
/// neighbour, every cell is visited.
proof fn lemma_all_visited(cells: Seq<Vec<Cell>>, dx: int, dy: int)
    requires
        dx >= 1,
        dy >= 1,
        cells.len() == dx,
        forall|x: int| 0 <= x < dx ==> (#[trigger] cells[x])@.len() == dy,
        !cells[0]@[0].open,
        forall|x: int, y: int|
            0 <= x < dx && 0 <= y < dy && !(#[trigger] cells[x]@[y]).open ==> neighbours_visited(
                cells,
                x,
                y,
                dx,
                dy,
            ),
    ensures
        forall|x: int, y: int| 0 <= x < dx && 0 <= y < dy ==> !(#[trigger] cells[x]@[y]).open,
{
    assert forall|x: int, y: int| 0 <= x < dx && 0 <= y < dy implies !(#[trigger] cells[x]@[y]).open by {
        lemma_visited_at(cells, dx, dy, x, y);
    }
}

proof fn lemma_visited_at(cells: Seq<Vec<Cell>>, dx: int, dy: int, x: int, y: int)
    requires
        dx >= 1,
        dy >= 1,
        cells.len() == dx,
        forall|i: int| 0 <= i < dx ==> (#[trigger] cells[i])@.len() == dy,
        !cells[0]@[0].open,
        forall|i: int, j: int|
            0 <= i < dx && 0 <= j < dy && !(#[trigger] cells[i]@[j]).open ==> neighbours_visited(
                cells,
                i,
                j,
                dx,
                dy,
            ),
        0 <= x < dx,
        0 <= y < dy,
    ensures
        !cells[x]@[y].open,
    decreases x + y,
{
    if x > 0 {
        lemma_visited_at(cells, dx, dy, x - 1, y);
        assert(neighbours_visited(cells, x - 1, y, dx, dy));
    } else if y > 0 {
        lemma_visited_at(cells, dx, dy, x, y - 1);
        assert(neighbours_visited(cells, x, y - 1, dx, dy));
    }
}

/// `dx` columns of `dy` solid, unvisited cells without joins.
fn solid_cells(dx: usize, dy: usize) -> (r: Vec<Vec<Cell>>)
    ensures
        r@.len() == dx,
        forall|x: int| 0 <= x < dx ==> (#[trigger] r@[x])@.len() == dy,
        forall|x: int, y: int| 0 <= x < dx && 0 <= y < dy ==> {
            let c = #[trigger] r@[x]@[y];
            &&& c.wall
            &&& c.open
            &&& c.neighbors@.len() == 0
        },
{
    let mut cols: Vec<Vec<Cell>> = Vec::new();
    let mut x: usize = 0;
    while x < dx
        invariant
            x <= dx,
            cols@.len() == x,
            forall|i: int| 0 <= i < x ==> (#[trigger] cols@[i])@.len() == dy,
            forall|i: int, j: int| 0 <= i < x && 0 <= j < dy ==> {
                let c = #[trigger] cols@[i]@[j];
                &&& c.wall
                &&& c.open
                &&& c.neighbors@.len() == 0
            },
        decreases dx - x,
    {
        let mut col: Vec<Cell> = Vec::new();
        let mut y: usize = 0;
        while y < dy
            invariant
                y <= dy,
                col@.len() == y,
                forall|j: int| 0 <= j < y ==> {
                    let c = #[trigger] col@[j];
                    &&& c.wall
                    &&& c.open
                    &&& c.neighbors@.len() == 0
                },
            decreases dy - y,
        {
            col.push(Cell::new(true));
            y = y + 1;
        }
        cols.push(col);
        x = x + 1;
    }
    cols
}

/// Carves passages by a randomised depth-first walk from the first cell: from
/// the cell on top of the stack, an unvisited solid neighbour is drawn, the two
/// are joined, and the walk goes on from there; a cell without such neighbours
/// is dropped.
#[verifier::rlimit(80)]
fn carve(cells: &mut Vec<Vec<Cell>>, dx: usize, dy: usize)
    requires
        dx >= 1,
        dy >= 1,
        old(cells)@.len() == dx,
        forall|x: int| 0 <= x < dx ==> (#[trigger] old(cells)@[x])@.len() == dy,
        forall|x: int, y: int| 0 <= x < dx && 0 <= y < dy ==> {
            let c = #[trigger] old(cells)@[x]@[y];
            &&& c.wall
            &&& c.open
            &&& c.neighbors@.len() == 0
        },
    ensures
        joins_sound(final(cells)@, dx as int, dy as int),
        forall|x: int, y: int|
            0 <= x < dx && 0 <= y < dy ==> !(#[trigger] final(cells)@[x]@[y]).wall,
        forall|x: int, y: int|
            0 <= x < dx && 0 <= y < dy ==> #[trigger] joined_somehow(final(cells)@, x, y),
{
    let ghost fresh = cells@;
    let ghost mut depth: Map<(int, int), nat> = Map::empty();
    cells[0][0].wall = false;
    cells[0][0].open = false;
    let ghost mut closed: Set<int> = set![0];
    let mut stack: Vec<(usize, usize)> = Vec::new();
    stack.push((0, 0));
    proof {
        vstd::set_lib::lemma_int_range(0, dx * dy);
        assert(dx * dy >= 1) by (nonlinear_arith)
            requires
                dx >= 1,
                dy >= 1,
        ;
        assert forall|x: int, y: int| 0 <= x < dx && 0 <= y < dy implies {
            &&& ((#[trigger] cells@[x]@[y]).open <==> !closed.contains(x * dy + y))
            &&& (cells@[x]@[y].open ==> cells@[x]@[y].wall)
            &&& (!cells@[x]@[y].open ==> !cells@[x]@[y].wall)
            &&& (!cells@[x]@[y].open ==> stack@.contains((x as usize, y as usize)))
            &&& (x != 0 || y != 0) ==> cells@[x]@[y] == fresh[x]@[y]
        } by {
            lemma_cell_number(x, y, 0, 0, dy as int, dx as int);
            if x == 0 && y == 0 {
                assert(stack@[0] == (0usize, 0usize));
            } else {
                assert(cells@[x]@[y] == fresh[x]@[y]);
            }
        }
        vstd::set_lib::lemma_len_subset(closed, vstd::set_lib::set_int_range(0, dx * dy));
    }
    while stack.len() > 0
        invariant
            dx >= 1,
            dy >= 1,
            carving(cells@, dx as int, dy as int, closed, stack@),
            closed.finite(),
            closed.len() <= dx * dy,
            forall|k: int|
                0 <= k < stack@.len() ==> {
                    let c = #[trigger] stack@[k];
                    &&& c.0 < dx
                    &&& c.1 < dy
                    &&& !cells@[c.0 as int]@[c.1 as int].open
                },
            forall|a: int, b: int|
                0 <= a < dx && 0 <= b < dy && !(#[trigger] cells@[a]@[b]).open ==> joined(
                    cells@,
                    a,
                    b,
                    depth[(a, b)],
                ),
        decreases 2 * (dx * dy - closed.len()) + stack@.len(),
    {
        let ghost st = stack@;
        let (x, y) = stack.pop().unwrap();
        proof {
            assert(st.last() == (x, y));
            assert(stack@ =~= st.drop_last());
        }
        let candidates = open_neighbors(cells, x, y, dx, dy);
        if candidates.len() > 0 {
            let (nx, ny) = choose_cell(candidates.as_slice()).unwrap();
            assert(candidates@.contains((nx, ny)));
            let ghost before = cells@;
            stack.push((x, y));
            cells[x][y].add_neighbor((nx, ny));
            cells[x][y].wall = false;
            cells[nx][ny].add_neighbor((x, y));
            let ghost joined_list = cells@[nx as int]@[ny as int].neighbors@;
            proof {
                let nb0 = before[nx as int]@[ny as int].neighbors@;
                if !nb0.contains((x, y)) {
                    assert(joined_list[nb0.len() as int] == (x, y));
                }
                assert(joined_list.contains((x, y)));
            }
            cells[nx][ny].wall = false;
            cells[nx][ny].open = false;
            stack.push((nx, ny));
            proof {
                let num = nx * dy + ny;
                lemma_cell_number(nx as int, ny as int, 0, 0, dy as int, dx as int);
                assert(!closed.contains(num));
                let old_closed = closed;
                closed = closed.insert(num);
                assert(stack@ =~= st.drop_last().push((x, y)).push((nx, ny)));
                assert forall|a: int, b: int| 0 <= a < dx && 0 <= b < dy implies {
                    &&& ((#[trigger] cells@[a]@[b]).open <==> !closed.contains(a * dy + b))
                    &&& (cells@[a]@[b].open ==> cells@[a]@[b].wall)
                    &&& (!cells@[a]@[b].open ==> !cells@[a]@[b].wall)
                    &&& (!cells@[a]@[b].open ==> (stack@.contains((a as usize, b as usize))
                        || neighbours_visited(cells@, a, b, dx as int, dy as int)))
                } by {
                    lemma_cell_number(a, b, nx as int, ny as int, dy as int, dx as int);
                    if a == nx && b == ny {
                        assert(stack@[stack@.len() - 1] == (nx, ny));
                    } else if a == x && b == y {
                        assert(stack@[stack@.len() - 2] == (x, y));
                    } else {
                        assert(cells@[a]@[b] == before[a]@[b]);
                        if !cells@[a]@[b].open {
                            if st.contains((a as usize, b as usize)) {
                                let k = choose|k: int| 0 <= k < st.len() && st[k] == (a as usize, b as usize);
                                assert(k != st.len() - 1);
                                assert(stack@[k] == st[k]);
                            } else {
                                assert(neighbours_visited(before, a, b, dx as int, dy as int));
                                assert(a + 1 < dx ==> cells@[a + 1]@[b].open == before[a + 1]@[b].open
                                    || (a + 1 == nx && b == ny));
                                assert(b + 1 < dy ==> cells@[a]@[b + 1].open == before[a]@[b + 1].open
                                    || (a == nx && b + 1 == ny));
                                assert(a > 0 ==> cells@[a - 1]@[b].open == before[a - 1]@[b].open
                                    || (a - 1 == nx && b == ny));
                                assert(b > 0 ==> cells@[a]@[b - 1].open == before[a]@[b - 1].open
                                    || (a == nx && b - 1 == ny));
                            }
                        }
                    }
                }
                assert forall|a: int, b: int, k: int|
                    0 <= a < dx && 0 <= b < dy && 0 <= k < cells@[a]@[b].neighbors@.len() implies {
                        let n = #[trigger] cells@[a]@[b].neighbors@[k];
                        &&& n.0 < dx
                        &&& n.1 < dy
                        &&& adjacent(a, b, n.0 as int, n.1 as int)
                    } by {
                    if (a == x && b == y) || (a == nx && b == ny) {
                        if k < before[a]@[b].neighbors@.len() {
                            assert(cells@[a]@[b].neighbors@[k] == before[a]@[b].neighbors@[k]);
                        }
                    } else {
                        assert(cells@[a]@[b] == before[a]@[b]);
                    }
                }
                assert forall|k: int| 0 <= k < stack@.len() implies {
                    let c = #[trigger] stack@[k];
                    &&& c.0 < dx
                    &&& c.1 < dy
                    &&& !cells@[c.0 as int]@[c.1 as int].open
                } by {
                    if k < st.len() - 1 {
                        assert(stack@[k] == st[k]);
                        let c = st[k];
                        if !(c.0 == nx && c.1 == ny) && !(c.0 == x && c.1 == y) {
                            assert(cells@[c.0 as int]@[c.1 as int] == before[c.0 as int]@[c.1 as int]);
                        }
                    }
                }
                assert forall|a: int, b: int|
                    0 <= a < dx && 0 <= b < dy implies before[a]@[b].neighbors@.len() <= (
                    #[trigger] cells@[a]@[b]).neighbors@.len() by {
                    if !((a == x && b == y) || (a == nx && b == ny)) {
                        assert(cells@[a]@[b] == before[a]@[b]);
                    }
                }
                assert forall|a: int, b: int, k: int|
                    0 <= a < dx && 0 <= b < dy && 0 <= k < before[a]@[b].neighbors@.len() implies #[trigger] cells@[a]@[b].neighbors@[k]
                        == before[a]@[b].neighbors@[k] by {
                    if !((a == x && b == y) || (a == nx && b == ny)) {
                        assert(cells@[a]@[b] == before[a]@[b]);
                    }
                }
                assert(cells@[nx as int]@[ny as int].neighbors@ == joined_list);
                lemma_joined_step(
                    before,
                    cells@,
                    dx as int,
                    dy as int,
                    x as int,
                    y as int,
                    nx as int,
                    ny as int,
                    depth,
                );
                depth = depth.insert((nx as int, ny as int), depth[(x as int, y as int)] + 1);
                assert(old_closed.subset_of(closed));
                vstd::set_lib::lemma_int_range(0, dx * dy);
                vstd::set_lib::lemma_len_subset(closed, vstd::set_lib::set_int_range(0, dx * dy));
            }
        } else {
            proof {
                assert(neighbours_visited(cells@, x as int, y as int, dx as int, dy as int));
                assert forall|a: int, b: int|
                    0 <= a < dx && 0 <= b < dy && !(#[trigger] cells@[a]@[b]).open implies (
                    stack@.contains((a as usize, b as usize)) || neighbours_visited(
                        cells@,
                        a,
                        b,
                        dx as int,
                        dy as int,
                    )) by {
                    if !(a == x && b == y) && st.contains((a as usize, b as usize)) {
                        let k = choose|k: int| 0 <= k < st.len() && st[k] == (a as usize, b as usize);
                        assert(k != st.len() - 1);
                        assert(stack@[k] == st[k]);
                    }
                }
                assert forall|k: int| 0 <= k < stack@.len() implies {
                    let c = #[trigger] stack@[k];
                    &&& c.0 < dx
                    &&& c.1 < dy
                    &&& !cells@[c.0 as int]@[c.1 as int].open
                } by {
                    assert(stack@[k] == st[k]);
                }
            }
        }
    }
    proof {
        lemma_all_visited(cells@, dx as int, dy as int);
        assert forall|x: int, y: int|
            0 <= x < dx && 0 <= y < dy implies #[trigger] joined_somehow(cells@, x, y) by {
            assert(!cells@[x]@[y].open);
            assert(joined(cells@, x, y, depth[(x, y)]));
        }
    }
}

/// The shape every generated maze has, for `dx` by `dy` cells: a grid of
/// `2 * dy + 1` rows of `2 * dx + 1` characters, each a wall, a floor, `S` or
/// `E`; solid walls along the top and bottom rows and at every even row and
/// column; an `S` only on the right edge and an `E` only on the left edge,
/// each at most once and on an odd row; and the first cell open.
pub open spec fn is_maze_of(grid: Seq<Seq<char>>, dx: int, dy: int) -> bool {
    &&& grid.len() == 2 * dy + 1
    &&& forall|y: int| 0 <= y < grid.len() ==> (#[trigger] grid[y]).len() == 2 * dx + 1
    &&& forall|x: int, y: int|
        0 <= y < grid.len() && 0 <= x < 2 * dx + 1 ==> {
            let c = #[trigger] grid[y][x];
            &&& c == '#' || c == ' ' || c == 'S' || c == 'E'
            &&& (y == 0 || y == 2 * dy || (x % 2 == 0 && y % 2 == 0)) ==> c == '#'
            &&& c == 'S' ==> x == 2 * dx && y % 2 == 1
            &&& c == 'E' ==> x == 0 && y % 2 == 1
            &&& (x == 0 || x == 2 * dx) ==> c != ' '
        }
    &&& forall|y1: int, y2: int|
        0 <= y1 < grid.len() && 0 <= y2 < grid.len() && #[trigger] grid[y1][2 * dx] == 'S'
            && #[trigger] grid[y2][2 * dx] == 'S' ==> y1 == y2
    &&& forall|y1: int, y2: int|
        0 <= y1 < grid.len() && 0 <= y2 < grid.len() && #[trigger] grid[y1][0] == 'E'
            && #[trigger] grid[y2][0] == 'E' ==> y1 == y2
    &&& grid[1][1] == ' '
}

/// The character at the centre of cell `(x, y)` of a drawn grid.
spec fn centre_of(g: Seq<Vec<char>>, x: int, y: int) -> char {
    g[2 * y + 1]@[2 * x + 1]
}

/// The passage between cell `(a, b)` and its `k`-th join, halfway between
/// the two centres, is floor in `g`.
spec fn passage_floor(g: Seq<Vec<char>>, cells: Seq<Vec<Cell>>, a: int, b: int, k: int) -> bool {
    let n = cells[a]@[b].neighbors@[k];
    g[b + n.1 + 1]@[a + n.0 + 1] == ' '
}

/// A grid of `2 * dy + 1` rows of `2 * dx + 1` walls and floors, solid along
/// the border and at every even row and column.
spec fn drawn(g: Seq<Vec<char>>, dx: int, dy: int) -> bool {
    &&& g.len() == 2 * dy + 1
    &&& forall|y: int| 0 <= y < g.len() ==> (#[trigger] g[y])@.len() == 2 * dx + 1
    &&& forall|x: int, y: int|
        0 <= y < g.len() && 0 <= x < 2 * dx + 1 ==> {
            let c = #[trigger] g[y]@[x];
            &&& c == '#' || c == ' '
            &&& (y == 0 || y == 2 * dy || x == 0 || x == 2 * dx || (x % 2 == 0 && y % 2 == 0))
                ==> c == '#'
        }
}

/// A row of `n` wall characters.
fn wall_row(n: usize) -> (r: Vec<char>)
    ensures
        r@.len() == n,
        forall|i: int| 0 <= i < n ==> #[trigger] r@[i] == '#',
{
    let mut r: Vec<char> = Vec::new();
    let mut i: usize = 0;
    while i < n
        invariant
            i <= n,
            r@.len() == i,
            forall|j: int| 0 <= j < i ==> #[trigger] r@[j] == '#',
        decreases n - i,
    {
        r.push('#');
        i = i + 1;
    }
    r
}

/// Draws the carved cells: each carved cell and each join between two cells
/// becomes floor.
fn draw_grid(cells: &Vec<Vec<Cell>>, dx: usize, dy: usize) -> (r: Vec<Vec<char>>)
    requires
        dx >= 1,
        dy >= 1,
        2 * dx + 1 <= usize::MAX,
        2 * dy + 1 <= usize::MAX,
        joins_sound(cells@, dx as int, dy as int),
        forall|x: int, y: int| 0 <= x < dx && 0 <= y < dy ==> !(#[trigger] cells@[x]@[y]).wall,
    ensures
        drawn(r@, dx as int, dy as int),
        r@[1]@[1] == ' ',
        forall|x: int, y: int| 0 <= x < dx && 0 <= y < dy ==> #[trigger] centre_of(r@, x, y) == ' ',
        forall|a: int, b: int, k: int|
            0 <= a < dx && 0 <= b < dy && 0 <= k < cells@[a]@[b].neighbors@.len() ==> #[trigger] passage_floor(r@, cells@, a, b, k),
{
    let w: usize = 2 * dx + 1;
    let h: usize = 2 * dy + 1;
    let mut grid: Vec<Vec<char>> = Vec::new();
    let mut i: usize = 0;
    while i < h
        invariant
            w == 2 * dx + 1,
            i <= h,
            grid@.len() == i,
            forall|y: int| 0 <= y < i ==> (#[trigger] grid@[y])@.len() == w,
            forall|x: int, y: int| 0 <= y < i && 0 <= x < w ==> #[trigger] grid@[y]@[x] == '#',
        decreases h - i,
    {
        grid.push(wall_row(w));
        i = i + 1;
    }
    let mut y: usize = 0;
    while y < dy
        invariant
            w == 2 * dx + 1,
            h == 2 * dy + 1,
            y <= dy,
            dx >= 1,
            joins_sound(cells@, dx as int, dy as int),
            drawn(grid@, dx as int, dy as int),
            y > 0 ==> grid@[1]@[1] == ' ',
            forall|a: int, b: int| 0 <= a < dx && 0 <= b < dy ==> !(#[trigger] cells@[a]@[b]).wall,
            forall|a: int, b: int| 0 <= a < dx && 0 <= b < y ==> #[trigger] centre_of(grid@, a, b) == ' ',
            forall|a: int, b: int, k: int|
                    0 <= a < dx && 0 <= b < dy && 0 <= k < cells@[a]@[b].neighbors@.len() && (b < y) ==> #[trigger] passage_floor(grid@, cells@, a, b, k),
        decreases dy - y,
    {
        let mut x: usize = 0;
        while x < dx
            invariant
                w == 2 * dx + 1,
                h == 2 * dy + 1,
                y < dy,
                x <= dx,
                dx >= 1,
                joins_sound(cells@, dx as int, dy as int),
                drawn(grid@, dx as int, dy as int),
                (y > 0 || x > 0) ==> grid@[1]@[1] == ' ',
                forall|a: int, b: int| 0 <= a < dx && 0 <= b < dy ==> !(#[trigger] cells@[a]@[b]).wall,
                forall|a: int, b: int|
                    0 <= a < dx && 0 <= b < dy && (b < y || (b == y && a < x)) ==> #[trigger] centre_of(
                        grid@,
                        a,
                        b,
                    ) == ' ',
                forall|a: int, b: int, k: int|
                    0 <= a < dx && 0 <= b < dy && 0 <= k < cells@[a]@[b].neighbors@.len() && (b < y || (b == y && a < x)) ==> #[trigger] passage_floor(grid@, cells@, a, b, k),
            decreases dx - x,
        {
            let gx: usize = x * 2 + 1;
            let gy: usize = y * 2 + 1;
            assert(!cells@[x as int]@[y as int].wall);
            let ghost unset = grid@;
            if !cells[x][y].wall {
                grid[gy][gx] = ' ';
            }
            proof {
                assert(centre_of(grid@, x as int, y as int) == ' ');
                assert forall|a: int, b: int|
                    0 <= a < dx && 0 <= b < dy && (b < y || (b == y && a <= x)) implies #[trigger] centre_of(
                        grid@,
                        a,
                        b,
                    ) == ' ' by {
                    if !(a == x && b == y) {
                        assert(centre_of(unset, a, b) == ' ');
                        assert(grid@[2 * b + 1]@[2 * a + 1] == unset[2 * b + 1]@[2 * a + 1]);
                    }
                }
                assert forall|a: int, b: int, j: int|
                    0 <= a < dx && 0 <= b < dy && 0 <= j < cells@[a]@[b].neighbors@.len() && (b < y || (b
                        == y && a < x)) implies #[trigger] passage_floor(grid@, cells@, a, b, j) by {
                    assert(passage_floor(unset, cells@, a, b, j));
                    let n = cells@[a]@[b].neighbors@[j];
                    assert(grid@[b + n.1 + 1]@[a + n.0 + 1] == ' ' || grid@[b + n.1 + 1]@[a + n.0 + 1]
                        == unset[b + n.1 + 1]@[a + n.0 + 1]);
                }
            }
            assert(x == 0 && y == 0 ==> grid@[1]@[1] == ' ');
            let nbs = &cells[x][y].neighbors;
            let mut k: usize = 0;
            while k < nbs.len()
                invariant
                    w == 2 * dx + 1,
                    h == 2 * dy + 1,
                    x < dx,
                    y < dy,
                    gx == 2 * x + 1,
                    gy == 2 * y + 1,
                    k <= nbs@.len(),
                    nbs@ == cells@[x as int]@[y as int].neighbors@,
                    joins_sound(cells@, dx as int, dy as int),
                    drawn(grid@, dx as int, dy as int),
                    grid@[1]@[1] == ' ',
                    forall|a: int, b: int|
                        0 <= a < dx && 0 <= b < dy && (b < y || (b == y && a <= x)) ==> #[trigger] centre_of(
                            grid@,
                            a,
                            b,
                        ) == ' ',
                    forall|a: int, b: int, j: int|
                    0 <= a < dx && 0 <= b < dy && 0 <= j < cells@[a]@[b].neighbors@.len() && (b < y || (b == y && a < x) || (a == x && b == y && j < k)) ==> #[trigger] passage_floor(grid@, cells@, a, b, j),
                decreases nbs@.len() - k,
            {
                let (nx, ny) = nbs[k];
                assert(adjacent(x as int, y as int, nx as int, ny as int));
                // The midpoint between the centres of the two cells.
                let px: usize = x + nx + 1;
                let py: usize = y + ny + 1;
                let ghost unset = grid@;
                grid[py][px] = ' ';
                proof {
                    assert forall|a: int, b: int|
                        0 <= a < dx && 0 <= b < dy && (b < y || (b == y && a <= x)) implies #[trigger] centre_of(
                            grid@,
                            a,
                            b,
                        ) == ' ' by {
                        assert(centre_of(unset, a, b) == ' ');
                        if !(2 * b + 1 == py && 2 * a + 1 == px) {
                            assert(grid@[2 * b + 1]@[2 * a + 1] == unset[2 * b + 1]@[2 * a + 1]);
                        }
                    }
                    assert forall|a: int, b: int, j: int|
                        0 <= a < dx && 0 <= b < dy && 0 <= j < cells@[a]@[b].neighbors@.len() && (b < y
                            || (b == y && a < x) || (a == x && b == y && j < k + 1)) implies #[trigger] passage_floor(
                        grid@,
                        cells@,
                        a,
                        b,
                        j,
                    ) by {
                        let n = cells@[a]@[b].neighbors@[j];
                        if a == x && b == y && j == k {
                            assert(n == (nx, ny));
                        } else {
                            assert(passage_floor(unset, cells@, a, b, j));
                            assert(grid@[b + n.1 + 1]@[a + n.0 + 1] == ' ' || grid@[b + n.1 + 1]@[a + n.0
                                + 1] == unset[b + n.1 + 1]@[a + n.0 + 1]);
                        }
                    }
                }
                k = k + 1;
            }
            x = x + 1;
        }
        y = y + 1;
    }
    grid
}

/// Cell `(x, y)` of a maze grid is the first cell, or sits beside a cell of
/// the grid, with floor halfway between their centres, from which fewer than
/// `d` such steps lead to the first cell.
pub open spec fn reachable(grid: Seq<Seq<char>>, x: int, y: int, d: nat) -> bool
    decreases d,
{
    (x == 0 && y == 0) || (d > 0 && exists|a: int, b: int|
        0 <= a && 2 * a + 1 < grid[0].len() && 0 <= b && 2 * b + 1 < grid.len() && #[trigger] adjacent(
            x,
            y,
            a,
            b,
        ) && grid[y + b + 1][x + a + 1] == ' ' && reachable(grid, a, b, (d - 1) as nat))
}

/// Some chain of open passages between side-by-side cells leads from cell
/// `(x, y)` to the first cell.
pub open spec fn connected_to_first(grid: Seq<Seq<char>>, x: int, y: int) -> bool {
    exists|d: nat| reachable(grid, x, y, d)
}

/// The passage between cell `(a, b)` and its `k`-th join is floor in `v`.
spec fn passage_open(v: Seq<Seq<char>>, cells: Seq<Vec<Cell>>, a: int, b: int, k: int) -> bool {
    let n = cells[a]@[b].neighbors@[k];
    v[b + n.1 + 1][a + n.0 + 1] == ' '
}

/// A chain of joins whose passages are all open is a chain of open passages.
proof fn lemma_joined_reachable(
    cells: Seq<Vec<Cell>>,
    v: Seq<Seq<char>>,
    dx: int,
    dy: int,
    x: int,
    y: int,
    d: nat,
)
    requires
        joins_sound(cells, dx, dy),
        dx <= usize::MAX,
        dy <= usize::MAX,
        v.len() == 2 * dy + 1,
        v[0].len() == 2 * dx + 1,
        forall|a: int, b: int, k: int|
            0 <= a < dx && 0 <= b < dy && 0 <= k < cells[a]@[b].neighbors@.len() ==> #[trigger] passage_open(
                v,
                cells,
                a,
                b,
                k,
            ),
        0 <= x < dx,
        0 <= y < dy,
        joined(cells, x, y, d),
    ensures
        reachable(v, x, y, d),
    decreases d,
{
    if !(x == 0 && y == 0) {
        let k = choose|k: int|
            0 <= k < cells[x]@[y].neighbors@.len() && joined(
                cells,
                (#[trigger] cells[x]@[y].neighbors@[k]).0 as int,
                cells[x]@[y].neighbors@[k].1 as int,
                (d - 1) as nat,
            );
        let n = cells[x]@[y].neighbors@[k];
        lemma_joined_reachable(cells, v, dx, dy, n.0 as int, n.1 as int, (d - 1) as nat);
        assert(passage_open(v, cells, x, y, k));
        let a = n.0 as int;
        let b = n.1 as int;
        assert(adjacent(x, y, a, b));
        assert(v[y + b + 1][x + a + 1] == ' ');
        assert(0 <= a && 2 * a + 1 < v[0].len() && 0 <= b && 2 * b + 1 < v.len());
        assert(reachable(v, a, b, (d - 1) as nat));
    }
}

/// A maze grid, row by row.
pub struct Maze {
    pub grid: Vec<Vec<char>>,
}

/// `grid` is a non-empty rectangle.
pub open spec fn is_rectangular(grid: Seq<Seq<char>>) -> bool {
    &&& grid.len() > 0
    &&& grid[0].len() > 0
    &&& forall|y: int| 0 <= y < grid.len() ==> (#[trigger] grid[y]).len() == grid[0].len()
}

/// Cell `(x, y)` of `grid` holds `c`.
pub open spec fn cell_is(grid: Seq<Seq<char>>, x: int, y: int, c: char) -> bool {
    0 <= y < grid.len() && 0 <= x < grid[y].len() && grid[y][x] == c
}

/// The character at the centre of cell `(x, y)`: row `2 * y + 1`, column
/// `2 * x + 1` of the grid.
pub open spec fn cell_centre(grid: Seq<Seq<char>>, x: int, y: int) -> char {
    grid[2 * y + 1][2 * x + 1]
}

/// `(x1, y1)` comes before `(x2, y2)` when the grid is read row by row.
pub open spec fn reads_before(x1: int, y1: int, x2: int, y2: int) -> bool {
    y1 < y2 || (y1 == y2 && x1 < x2)
}

/// `r` is where `c` first occurs when `grid` is read row by row, or `None`
/// where it does not occur.
pub open spec fn first_cell(grid: Seq<Seq<char>>, c: char, r: Option<(usize, usize)>) -> bool {
    match r {
        Some(p) => cell_is(grid, p.0 as int, p.1 as int, c) && forall|x: int, y: int|
            #[trigger] cell_is(grid, x, y, c) ==> !reads_before(x, y, p.0 as int, p.1 as int),
        None => forall|x: int, y: int| !#[trigger] cell_is(grid, x, y, c),
    }
}

impl View for Maze {
    type V = Seq<Seq<char>>;

    /// The grid as rows of characters.
    open spec fn view(&self) -> Seq<Seq<char>> {
        self.grid@.map_values(|row: Vec<char>| row@)
    }
}

impl Maze {
    /// A random maze of `dimension_x` by `dimension_y` cells, carved by a
    /// randomised depth-first walk from the top-left cell. The start `S` is
    /// put on the right edge beside the topmost open cell of the last column,
    /// and the end `E` on the left edge beside the bottommost open cell of the
    /// first column. The walk reaches every cell and opens a passage for each
    /// step it takes, so every cell is connected to the first one through open
    /// passages, `S` lands in the first row of cells and `E` in the last.
    pub fn new(dimension_x: usize, dimension_y: usize) -> (r: Maze)
        requires
            dimension_x >= 1,
            dimension_y >= 1,
            2 * dimension_x + 1 <= usize::MAX,
            2 * dimension_y + 1 <= usize::MAX,
        ensures
            is_maze_of(r@, dimension_x as int, dimension_y as int),
            forall|x: int, y: int|
                0 <= x < dimension_x && 0 <= y < dimension_y ==> #[trigger] cell_centre(r@, x, y)
                    == ' ',
            r@[1][2 * dimension_x] == 'S',
            r@[2 * dimension_y - 1][0] == 'E',
            forall|x: int, y: int|
                0 <= x < dimension_x && 0 <= y < dimension_y ==> #[trigger] connected_to_first(
                    r@,
                    x,
                    y,
                ),
    {
        let dx = dimension_x;
        let dy = dimension_y;
        let mut cells = solid_cells(dx, dy);
        carve(&mut cells, dx, dy);
        let mut grid = draw_grid(&cells, dx, dy);
        let ghost drawn_grid = grid@;
        let gx: usize = dx * 2;
        let mut placed: bool = false;
        let mut y: usize = 0;
        while y < dy && !placed
            invariant
                gx == 2 * dx,
                dx >= 1,
                y <= dy,
                2 * dy + 1 <= usize::MAX,
                forall|rr: int, cc: int|
                    0 <= rr < 2 * dy + 1 && 1 <= cc < 2 * dx ==> #[trigger] grid@[rr]@[cc] == drawn_grid[rr]@[cc],
                grid@.len() == 2 * dy + 1,
                forall|yy: int| 0 <= yy < grid@.len() ==> (#[trigger] grid@[yy])@.len() == 2 * dx + 1,
                forall|xx: int, yy: int|
                    0 <= yy < grid@.len() && 0 <= xx < 2 * dx + 1 && !(xx == gx && placed) ==> {
                        let c = #[trigger] grid@[yy]@[xx];
                        &&& c == '#' || c == ' '
                        &&& (yy == 0 || yy == 2 * dy || xx == 0 || xx == 2 * dx || (xx % 2 == 0
                            && yy % 2 == 0)) ==> c == '#'
                    },
                placed ==> forall|yy: int|
                    0 <= yy < grid@.len() ==> (#[trigger] grid@[yy])@[gx as int] == '#' || (
                    grid@[yy]@[gx as int] == 'S' && yy == 2 * y - 1),
                placed ==> y >= 1,
                grid@[1]@[1] == ' ',
                y > 0 ==> placed && grid@[1]@[gx as int] == 'S',
                forall|a: int, b: int| 0 <= a < dx && 0 <= b < dy ==> #[trigger] centre_of(grid@, a, b) == ' ',
            decreases dy - y,
        {
            let gy: usize = y * 2 + 1;
            let ghost unset = grid@;
            assert(y == 0 ==> centre_of(grid@, dx - 1, 0) == ' ');
            if grid[gy][gx - 1] == ' ' {
                grid[gy][gx] = 'S';
                placed = true;
            }
            proof {
                assert forall|a: int, b: int| 0 <= a < dx && 0 <= b < dy implies #[trigger] centre_of(grid@, a, b) == ' ' by {
                    assert(centre_of(unset, a, b) == ' ');
                    assert(grid@[2 * b + 1]@[2 * a + 1] == unset[2 * b + 1]@[2 * a + 1]);
                }
            }
            y = y + 1;
        }
        let ghost start_row = 2 * y - 1;
        assert(forall|rr: int, cc: int|
            0 <= rr < 2 * dy + 1 && 1 <= cc < 2 * dx ==> #[trigger] grid@[rr]@[cc] == drawn_grid[rr]@[cc]);
        let mut placed_end: bool = false;
        let mut y: usize = dy;
        while y > 0 && !placed_end
            invariant
                gx == 2 * dx,
                dx >= 1,
                y <= dy,
                2 * dy + 1 <= usize::MAX,
                forall|rr: int, cc: int|
                    0 <= rr < 2 * dy + 1 && 1 <= cc < 2 * dx ==> #[trigger] grid@[rr]@[cc] == drawn_grid[rr]@[cc],
                grid@.len() == 2 * dy + 1,
                forall|yy: int| 0 <= yy < grid@.len() ==> (#[trigger] grid@[yy])@.len() == 2 * dx + 1,
                forall|xx: int, yy: int|
                    0 <= yy < grid@.len() && 0 <= xx < 2 * dx + 1 && !(xx == gx && placed) && !(
                    xx == 0 && placed_end) ==> {
                        let c = #[trigger] grid@[yy]@[xx];
                        &&& c == '#' || c == ' '
                        &&& (yy == 0 || yy == 2 * dy || xx == 0 || xx == 2 * dx || (xx % 2 == 0
                            && yy % 2 == 0)) ==> c == '#'
                    },
                placed ==> forall|yy: int|
                    0 <= yy < grid@.len() ==> (#[trigger] grid@[yy])@[gx as int] == '#' || (
                    grid@[yy]@[gx as int] == 'S' && yy == start_row),
                placed ==> start_row % 2 == 1 && 0 < start_row < 2 * dy,
                placed_end ==> forall|yy: int|
                    0 <= yy < grid@.len() ==> (#[trigger] grid@[yy])@[0] == '#' || (grid@[yy]@[0]
                        == 'E' && yy == 2 * y + 1),
                grid@[1]@[1] == ' ',
                placed && grid@[1]@[gx as int] == 'S',
                y < dy ==> placed_end && grid@[2 * dy - 1]@[0] == 'E',
                placed_end ==> y < dy,
                dy >= 1,
                forall|a: int, b: int| 0 <= a < dx && 0 <= b < dy ==> #[trigger] centre_of(grid@, a, b) == ' ',
            decreases y,
        {
            y = y - 1;
            let gy: usize = y * 2 + 1;
            let ghost unset = grid@;
            assert(centre_of(grid@, 0, y as int) == ' ');
            if grid[gy][1] == ' ' {
                grid[gy][0] = 'E';
                placed_end = true;
            }
            proof {
                assert forall|a: int, b: int| 0 <= a < dx && 0 <= b < dy implies #[trigger] centre_of(grid@, a, b) == ' ' by {
                    assert(centre_of(unset, a, b) == ' ');
                    assert(grid@[2 * b + 1]@[2 * a + 1] == unset[2 * b + 1]@[2 * a + 1]);
                }
                assert(grid@[1]@[gx as int] == unset[1]@[gx as int]);
            }
        }
        let r = Maze { grid };
        proof {
            let v = r@;
            assert forall|yy: int| 0 <= yy < v.len() implies (#[trigger] v[yy]).len() == 2 * dx + 1 by {
                assert(v[yy] == r.grid@[yy]@);
            }
            assert forall|xx: int, yy: int|
                0 <= yy < v.len() && 0 <= xx < 2 * dx + 1 implies {
                    let c = #[trigger] v[yy][xx];
                    &&& c == '#' || c == ' ' || c == 'S' || c == 'E'
                    &&& (yy == 0 || yy == 2 * dy || (xx % 2 == 0 && yy % 2 == 0)) ==> c == '#'
                    &&& c == 'S' ==> xx == 2 * dx && yy % 2 == 1
                    &&& c == 'E' ==> xx == 0 && yy % 2 == 1
                    &&& (xx == 0 || xx == 2 * dx) ==> c != ' '
                } by {
                assert(v[yy] == r.grid@[yy]@);
            }
            assert forall|y1: int, y2: int|
                0 <= y1 < v.len() && 0 <= y2 < v.len() && #[trigger] v[y1][2 * dx] == 'S'
                    && #[trigger] v[y2][2 * dx] == 'S' implies y1 == y2 by {
                assert(v[y1] == r.grid@[y1]@);
                assert(v[y2] == r.grid@[y2]@);
            }
            assert forall|y1: int, y2: int|
                0 <= y1 < v.len() && 0 <= y2 < v.len() && #[trigger] v[y1][0] == 'E'
                    && #[trigger] v[y2][0] == 'E' implies y1 == y2 by {
                assert(v[y1] == r.grid@[y1]@);
                assert(v[y2] == r.grid@[y2]@);
            }
            assert(v[1] == r.grid@[1]@);
            assert(v[2 * dy - 1] == r.grid@[2 * dy - 1]@);
            assert(v[0] == r.grid@[0]@);
            assert forall|a: int, b: int, k: int|
                0 <= a < dx && 0 <= b < dy && 0 <= k < cells@[a]@[b].neighbors@.len() implies #[trigger] passage_open(
                    v,
                    cells@,
                    a,
                    b,
                    k,
                ) by {
                assert(passage_floor(drawn_grid, cells@, a, b, k));
                let n = cells@[a]@[b].neighbors@[k];
                assert(v[b + n.1 + 1] == r.grid@[b + n.1 + 1]@);
                assert(r.grid@[b + n.1 + 1]@[a + n.0 + 1] == drawn_grid[b + n.1 + 1]@[a + n.0 + 1]);
            }
            assert forall|x: int, y: int|
                0 <= x < dx && 0 <= y < dy implies #[trigger] connected_to_first(v, x, y) by {
                assert(joined_somehow(cells@, x, y));
                let d = choose|d: nat| joined(cells@, x, y, d);
                lemma_joined_reachable(cells@, v, dx as int, dy as int, x, y, d);
            }
            assert forall|x: int, y: int| 0 <= x < dx && 0 <= y < dy implies #[trigger] cell_centre(v, x, y) == ' ' by {
                assert(v[2 * y + 1] == r.grid@[2 * y + 1]@);
                assert(centre_of(r.grid@, x, y) == ' ');
            }
        }
        r
    }

    /// The cells that hold `c`, read row by row.
    fn cells_with(&self, c: char) -> (r: Vec<(usize, usize)>)
        ensures
            forall|k: int| 0 <= k < r@.len() ==> cell_is(self@, r@[k].0 as int, r@[k].1 as int, c),
            forall|k: int, l: int| 0 <= k < l < r@.len() ==> reads_before(r@[k].0 as int, r@[k].1 as int, r@[l].0 as int, r@[l].1 as int),
            forall|x: int, y: int| #[trigger] cell_is(self@, x, y, c) ==> r@.contains((x as usize, y as usize)),
    {
        let ghost g = self@;
        let mut found: Vec<(usize, usize)> = Vec::new();
        let mut y: usize = 0;
        while y < self.grid.len()
            invariant
                g == self@,
                y <= g.len(),
                forall|k: int| 0 <= k < found@.len() ==> cell_is(g, found@[k].0 as int, found@[k].1 as int, c),
                forall|k: int| 0 <= k < found@.len() ==> found@[k].1 < y,
                forall|k: int, l: int| 0 <= k < l < found@.len() ==> reads_before(found@[k].0 as int, found@[k].1 as int, found@[l].0 as int, found@[l].1 as int),
                forall|x: int, yy: int| #[trigger] cell_is(g, x, yy, c) && yy < y ==> found@.contains((x as usize, yy as usize)),
            decreases g.len() - y,
        {
            let row = &self.grid[y];
            let mut x: usize = 0;
            while x < row.len()
                invariant
                    g == self@,
                    y < g.len(),
                    row@ == g[y as int],
                    x <= row@.len(),
                    forall|k: int| 0 <= k < found@.len() ==> cell_is(g, found@[k].0 as int, found@[k].1 as int, c),
                    forall|k: int| 0 <= k < found@.len() ==> reads_before(found@[k].0 as int, found@[k].1 as int, x as int, y as int),
                    forall|k: int, l: int| 0 <= k < l < found@.len() ==> reads_before(found@[k].0 as int, found@[k].1 as int, found@[l].0 as int, found@[l].1 as int),
                    forall|xx: int, yy: int| #[trigger] cell_is(g, xx, yy, c) && (yy < y || (yy == y && xx < x)) ==> found@.contains((xx as usize, yy as usize)),
                decreases row@.len() - x,
            {
                if row[x] == c {
                    let ghost prev = found@;
                    found.push((x, y));
                    proof {
                        assert forall|xx: int, yy: int| #[trigger] cell_is(g, xx, yy, c) && (yy < y || (yy == y && xx < x + 1)) implies found@.contains((xx as usize, yy as usize)) by {
                            if yy == y && xx == x {
                                assert(found@[prev.len() as int] == (x, y));
                            } else {
                                let w = choose|w: int| 0 <= w < prev.len() && prev[w] == (xx as usize, yy as usize);
                                assert(found@[w] == prev[w]);
                            }
                        }
                    }
                }
                x = x + 1;
            }
            y = y + 1;
        }
        found
    }

    /// The wall cells, read row by row.
    pub fn walls(&self) -> (r: Vec<(usize, usize)>)
        ensures
            forall|k: int| 0 <= k < r@.len() ==> cell_is(self@, r@[k].0 as int, r@[k].1 as int, '#'),
            forall|k: int, l: int| 0 <= k < l < r@.len() ==> reads_before(r@[k].0 as int, r@[k].1 as int, r@[l].0 as int, r@[l].1 as int),
            forall|x: int, y: int| #[trigger] cell_is(self@, x, y, '#') ==> r@.contains((x as usize, y as usize)),
    {
        self.cells_with('#')
    }

    /// The size of the grid in cells: its width, then its height.
    pub fn bounds(&self) -> (r: (usize, usize))
        requires
            self@.len() > 0,
        ensures
            r.0 == self@[0].len(),
            r.1 == self@.len(),
    {
        (self.grid[0].len(), self.grid.len())
    }

    fn first_with(&self, c: char) -> (r: Option<(usize, usize)>)
        ensures
            first_cell(self@, c, r),
    {
        let found = self.cells_with(c);
        if found.len() == 0 {
            proof {
                assert forall|x: int, y: int| !#[trigger] cell_is(self@, x, y, c) by {
                    if cell_is(self@, x, y, c) {
                        assert(found@.contains((x as usize, y as usize)));
                    }
                }
            }
            None
        } else {
            let p = found[0];
            proof {
                assert forall|x: int, y: int| #[trigger] cell_is(self@, x, y, c) implies !reads_before(
                    x,
                    y,
                    p.0 as int,
                    p.1 as int,
                ) by {
                    assert(found@.contains((x as usize, y as usize)));
                    let k = choose|k: int| 0 <= k < found@.len() && found@[k] == (x as usize, y as usize);
                    if k > 0 {
                        assert(reads_before(p.0 as int, p.1 as int, found@[k].0 as int, found@[k].1 as int));
                    }
                }
            }
            Some(p)
        }
    }

    /// The first start cell `S`, read row by row, if there is one.
    pub fn start_position(&self) -> (r: Option<(usize, usize)>)
        ensures
            first_cell(self@, 'S', r),
    {
        self.first_with('S')
    }

    /// The first end cell `E`, read row by row, if there is one.
    pub fn end_position(&self) -> (r: Option<(usize, usize)>)
        ensures
            first_cell(self@, 'E', r),
    {
        self.first_with('E')
    }
}

} // verus!
