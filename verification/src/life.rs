//! Conway's Game of Life on a fixed board that wraps around at its edges.

use vstd::prelude::*;
use crate::coords::Coords;

verus! {

/// Number of rows of the board.
pub const GRID_ROWS: usize = 40;

/// Number of columns of the board.
pub const GRID_COLS: usize = 100;

/// Whether a cell is alive.
#[derive(Clone, Copy, Debug, PartialEq, Eq, Structural)]
pub enum Status {
    ALIVE,
    DEAD,
}

/// A cell of the board: where it is and whether it lives.
#[derive(Clone, Copy, Debug)]
pub struct Cell {
    pub coords: Coords,
    pub status: Status,
}

/// The board, row by row.
pub type Board = [[Status; GRID_COLS]; GRID_ROWS];

/// The status at column `x` of row `y`.
pub open spec fn at(grid: Board, x: int, y: int) -> Status {
    grid@[y]@[x]
}

/// `c` lies on the board.
pub open spec fn on_board(c: Coords) -> bool {
    c.x < GRID_COLS && c.y < GRID_ROWS
}

/// Sets the status of one cell.
pub fn set_cell(grid: &mut Board, cell: Cell)
    requires
        on_board(cell.coords),
    ensures
        forall|x: int, y: int|
            0 <= x < GRID_COLS && 0 <= y < GRID_ROWS ==> #[trigger] at(*final(grid), x, y) == if x
                == cell.coords.x && y == cell.coords.y {
                cell.status
            } else {
                at(*old(grid), x, y)
            },
{
    grid[cell.coords.y][cell.coords.x] = cell.status;
}

/// The status of the cell at `coords`.
pub fn get_cell(grid: &Board, coords: Coords) -> (s: Status)
    requires
        on_board(coords),
    ensures
        s == at(*grid, coords.x as int, coords.y as int),
{
    grid[coords.y][coords.x]
}

/// Wraps a coordinate pair onto the board: each component is reduced modulo
/// the board's size, so that negative and overlarge values land inside.
pub fn get_unbound_coords(x: isize, y: isize) -> (c: Coords)
    ensures
        c.x == x as int % (GRID_COLS as int),
        c.y == y as int % (GRID_ROWS as int),
        on_board(c),
{
    let cols: isize = GRID_COLS as isize;
    let rows: isize = GRID_ROWS as isize;
    let corrected_x = ((x % cols) + cols) % cols;
    let corrected_y = ((y % rows) + rows) % rows;
    Coords { x: corrected_x as usize, y: corrected_y as usize }
}

/// 1 when the cell that `(x, y)` wraps onto is alive, else 0.
pub open spec fn alive_at(grid: Board, x: int, y: int) -> int {
    if at(grid, x % (GRID_COLS as int), y % (GRID_ROWS as int)) == Status::ALIVE {
        1
    } else {
        0
    }
}

/// The `k`-th cell of the three by three block around `(x, y)`, row by row.
pub open spec fn block_cell(x: int, y: int, k: int) -> (int, int) {
    (x - 1 + k % 3, y - 1 + k / 3)
}

/// The number of live cells among the first `k` cells of the block around
/// `(x, y)`, the centre left out.
pub open spec fn alive_among(grid: Board, x: int, y: int, k: int) -> int
    decreases k,
{
    if k <= 0 {
        0
    } else {
        let c = block_cell(x, y, k - 1);
        alive_among(grid, x, y, k - 1) + if k - 1 == 4 {
            0
        } else {
            alive_at(grid, c.0, c.1)
        }
    }
}

/// The number of live cells among the eight neighbours of `(x, y)` on the
/// wrapped board.
pub open spec fn alive_neighbours(grid: Board, x: int, y: int) -> int {
    alive_among(grid, x, y, 9)
}

/// The neighbours are the eight cells around the centre.
pub proof fn lemma_alive_neighbours(grid: Board, x: int, y: int)
    ensures
        alive_neighbours(grid, x, y) == alive_at(grid, x - 1, y - 1) + alive_at(grid, x, y - 1)
            + alive_at(grid, x + 1, y - 1) + alive_at(grid, x - 1, y) + alive_at(grid, x + 1, y)
            + alive_at(grid, x - 1, y + 1) + alive_at(grid, x, y + 1) + alive_at(
            grid,
            x + 1,
            y + 1,
        ),
        0 <= alive_neighbours(grid, x, y) <= 8,
{
    reveal_with_fuel(alive_among, 10);
}

/// Counts the live cells among the eight neighbours of `coords`; the board
/// wraps around at its edges, and `coords` itself may lie off the board.
pub fn get_alive_neighbour(grid: &Board, coords: Coords) -> (n: i8)
    requires
        coords.x + 2 <= isize::MAX,
        coords.y + 2 <= isize::MAX,
    ensures
        n == alive_neighbours(*grid, coords.x as int, coords.y as int),
        0 <= n <= 8,
{
    let mut counter: i8 = 0;
    let cx: isize = coords.x as isize;
    let cy: isize = coords.y as isize;
    let mut y: isize = cy - 1;
    while y <= cy + 1
        invariant
            cx == coords.x,
            cy == coords.y,
            cx + 2 <= isize::MAX,
            cy + 2 <= isize::MAX,
            cy - 1 <= y <= cy + 2,
            counter == alive_among(*grid, cx as int, cy as int, 3 * (y - (cy - 1))),
            0 <= counter <= 3 * (y - (cy - 1)),
        decreases cy + 2 - y,
    {
        let mut x: isize = cx - 1;
        while x <= cx + 1
            invariant
                cx == coords.x,
                cy == coords.y,
                cx + 2 <= isize::MAX,
            cy + 2 <= isize::MAX,
                cy - 1 <= y <= cy + 1,
                cx - 1 <= x <= cx + 2,
                counter == alive_among(
                    *grid,
                    cx as int,
                    cy as int,
                    3 * (y - (cy - 1)) + (x - (cx - 1)),
                ),
                0 <= counter <= 3 * (y - (cy - 1)) + (x - (cx - 1)),
            decreases cx + 2 - x,
        {
            let ghost k = 3 * (y - (cy - 1)) + (x - (cx - 1));
            assert(block_cell(cx as int, cy as int, k) == (x as int, y as int));
            if !(y == cy && x == cx) {
                let neighbour_coords = get_unbound_coords(x, y);
                if get_cell(grid, neighbour_coords) == Status::ALIVE {
                    counter += 1;
                }
            }
            x += 1;
        }
        y += 1;
    }
    proof {
        lemma_alive_neighbours(*grid, cx as int, cy as int);
    }
    counter
}

/// The status that Conway's rules give a cell with status `s` and `n` live
/// neighbours: a live cell survives with two or three, a dead one is born with
/// exactly three.
pub open spec fn next_status(s: Status, n: int) -> Status {
    if s == Status::ALIVE {
        if n == 2 || n == 3 {
            Status::ALIVE
        } else {
            Status::DEAD
        }
    } else {
        if n == 3 {
            Status::ALIVE
        } else {
            Status::DEAD
        }
    }
}

/// Writes into `grid2` the generation that follows `grid1`.
pub fn update_grid(grid1: &Board, grid2: &mut Board)
    ensures
        forall|x: int, y: int|
            0 <= x < GRID_COLS && 0 <= y < GRID_ROWS ==> #[trigger] at(*final(grid2), x, y)
                == next_status(at(*grid1, x, y), alive_neighbours(*grid1, x, y)),
{
    let mut y: usize = 0;
    while y < GRID_ROWS
        invariant
            y <= GRID_ROWS,
            forall|i: int, j: int|
                0 <= i < GRID_COLS && 0 <= j < y ==> #[trigger] at(*grid2, i, j) == next_status(
                    at(*grid1, i, j),
                    alive_neighbours(*grid1, i, j),
                ),
        decreases GRID_ROWS - y,
    {
        let mut x: usize = 0;
        while x < GRID_COLS
            invariant
                y < GRID_ROWS,
                x <= GRID_COLS,
                forall|i: int, j: int|
                    0 <= i < GRID_COLS && 0 <= j < y ==> #[trigger] at(*grid2, i, j)
                        == next_status(at(*grid1, i, j), alive_neighbours(*grid1, i, j)),
                forall|i: int|
                    0 <= i < x ==> #[trigger] at(*grid2, i, y as int) == next_status(
                        at(*grid1, i, y as int),
                        alive_neighbours(*grid1, i, y as int),
                    ),
            decreases GRID_COLS - x,
        {
            let alive_neighbours: i8 = get_alive_neighbour(grid1, Coords { y: y, x: x });
            let mut new_status = Status::DEAD;
            if get_cell(grid1, Coords { y: y, x: x }) == Status::ALIVE {
                if alive_neighbours == 3 || alive_neighbours == 2 {
                    new_status = Status::ALIVE;
                }
            } else {
                if alive_neighbours == 3 {
                    new_status = Status::ALIVE;
                }
            }
            set_cell(grid2, Cell { coords: Coords { y: y, x: x }, status: new_status });
            x += 1;
        }
        y += 1;
    }
}

/// Some offset of `offsets`, applied to `(x, y)` and wrapped, lands on
/// `(cx, cy)`.
pub open spec fn covers(offsets: Seq<(isize, isize)>, x: int, y: int, cx: int, cy: int) -> bool {
    exists|i: int|
        0 <= i < offsets.len() && (x + (#[trigger] offsets[i]).0) % (GRID_COLS as int) == cx && (y
            + offsets[i].1) % (GRID_ROWS as int) == cy
}

/// `after` is `before` with every cell that `offsets` covers from `(x, y)` made
/// alive, and nothing else changed.
pub open spec fn stamped(
    before: Board,
    after: Board,
    x: int,
    y: int,
    offsets: Seq<(isize, isize)>,
) -> bool {
    forall|cx: int, cy: int|
        0 <= cx < GRID_COLS && 0 <= cy < GRID_ROWS ==> #[trigger] at(after, cx, cy) == if covers(
            offsets,
            x,
            y,
            cx,
            cy,
        ) {
            Status::ALIVE
        } else {
            at(before, cx, cy)
        }
}

/// No offset of `offsets` moves `(x, y)` out of the range of its type.
pub open spec fn reachable(offsets: Seq<(isize, isize)>, x: int, y: int) -> bool {
    forall|i: int|
        0 <= i < offsets.len() ==> isize::MIN <= x + (#[trigger] offsets[i]).0 <= isize::MAX
            && isize::MIN <= y + offsets[i].1 <= isize::MAX
}

/// Brings to life the cells at the given offsets from `(x, y)`, wrapped onto
/// the board.
pub fn draw_pattern(grid: &mut Board, x: isize, y: isize, offsets: &[(isize, isize)])
    requires
        reachable(offsets@, x as int, y as int),
    ensures
        stamped(*old(grid), *final(grid), x as int, y as int, offsets@),
{
    let mut i: usize = 0;
    while i < offsets.len()
        invariant
            i <= offsets@.len(),
            reachable(offsets@, x as int, y as int),
            stamped(*old(grid), *grid, x as int, y as int, offsets@.take(i as int)),
        decreases offsets@.len() - i,
    {
        let (dx, dy) = offsets[i];
        assert(offsets@[i as int] == (dx, dy));
        let ghost mid = *grid;
        let c = get_unbound_coords(x + dx, y + dy);
        set_cell(grid, Cell { coords: c, status: Status::ALIVE });
        proof {
            let done = offsets@.take(i as int);
            let more = offsets@.take(i + 1);
            assert forall|cx: int, cy: int|
                0 <= cx < GRID_COLS && 0 <= cy < GRID_ROWS implies #[trigger] at(*grid, cx, cy)
                == if covers(more, x as int, y as int, cx, cy) {
                Status::ALIVE
            } else {
                at(*old(grid), cx, cy)
            } by {
                assert(at(mid, cx, cy) == if covers(done, x as int, y as int, cx, cy) {
                    Status::ALIVE
                } else {
                    at(*old(grid), cx, cy)
                });
                if covers(done, x as int, y as int, cx, cy) {
                    let j = choose|j: int|
                        0 <= j < done.len() && (x + (#[trigger] done[j]).0) % (GRID_COLS as int)
                            == cx && (y + done[j].1) % (GRID_ROWS as int) == cy;
                    assert(more[j] == done[j]);
                }
                if cx == c.x && cy == c.y {
                    assert(more[i as int] == (dx, dy));
                }
                if covers(more, x as int, y as int, cx, cy) {
                    let j = choose|j: int|
                        0 <= j < more.len() && (x + (#[trigger] more[j]).0) % (GRID_COLS as int)
                            == cx && (y + more[j].1) % (GRID_ROWS as int) == cy;
                    if j < i {
                        assert(done[j] == more[j]);
                    }
                }
            }
        }
        i += 1;
    }
    assert(offsets@.take(i as int) =~= offsets@);
}

/// The cells of a glider.
pub open spec fn glider() -> Seq<(isize, isize)> {
    seq![(1, 0), (2, 1), (0, 2), (1, 2), (2, 2)]
}

/// Places a glider with its corner at `(x, y)`.
pub fn place_glider(grid: &mut Board, x: isize, y: isize)
    requires
        x <= isize::MAX - 2,
        y <= isize::MAX - 2,
    ensures
        stamped(*old(grid), *final(grid), x as int, y as int, glider()),
{
    let offsets: [(isize, isize); 5] = [(1, 0), (2, 1), (0, 2), (1, 2), (2, 2)];
    assert(offsets@ =~= glider());
    draw_pattern(grid, x, y, &offsets);
}

/// The cells of a block.
pub open spec fn block() -> Seq<(isize, isize)> {
    seq![
        (0, 0), (1, 0), (0, 1), (1, 1),
    ]
}

/// Places a block with its corner at `(x, y)`.
pub fn place_block(grid: &mut Board, x: isize, y: isize)
    requires
        x <= isize::MAX - 1,
        y <= isize::MAX - 1,
    ensures
        stamped(*old(grid), *final(grid), x as int, y as int, block()),
{
    let offsets: [(isize, isize); 4] = [
        (0, 0), (1, 0), (0, 1), (1, 1),
    ];
    assert(offsets@ =~= block());
    draw_pattern(grid, x, y, &offsets);
}

/// The cells of a blinker.
pub open spec fn blinker() -> Seq<(isize, isize)> {
    seq![
        (0, 0), (1, 0), (2, 0),
    ]
}

/// Places a blinker with its left end at `(x, y)`.
pub fn place_blinker(grid: &mut Board, x: isize, y: isize)
    requires
        x <= isize::MAX - 2,
        y <= isize::MAX - 0,
    ensures
        stamped(*old(grid), *final(grid), x as int, y as int, blinker()),
{
    let offsets: [(isize, isize); 3] = [
        (0, 0), (1, 0), (2, 0),
    ];
    assert(offsets@ =~= blinker());
    draw_pattern(grid, x, y, &offsets);
}

/// The cells of a toad.
pub open spec fn toad() -> Seq<(isize, isize)> {
    seq![
        (1, 0), (2, 0), (3, 0), (0, 1), (1, 1), (2, 1),
    ]
}

/// Places a toad with its corner at `(x, y)`.
pub fn place_toad(grid: &mut Board, x: isize, y: isize)
    requires
        x <= isize::MAX - 3,
        y <= isize::MAX - 1,
    ensures
        stamped(*old(grid), *final(grid), x as int, y as int, toad()),
{
    let offsets: [(isize, isize); 6] = [
        (1, 0), (2, 0), (3, 0), (0, 1), (1, 1), (2, 1),
    ];
    assert(offsets@ =~= toad());
    draw_pattern(grid, x, y, &offsets);
}

/// The cells of a beacon.
pub open spec fn beacon() -> Seq<(isize, isize)> {
    seq![
        (0, 0), (1, 0), (0, 1), (1, 1), (2, 2), (3, 2), (2, 3), (3, 3),
    ]
}

/// Places a beacon with its corner at `(x, y)`.
pub fn place_beacon(grid: &mut Board, x: isize, y: isize)
    requires
        x <= isize::MAX - 3,
        y <= isize::MAX - 3,
    ensures
        stamped(*old(grid), *final(grid), x as int, y as int, beacon()),
{
    let offsets: [(isize, isize); 8] = [
        (0, 0), (1, 0), (0, 1), (1, 1), (2, 2), (3, 2), (2, 3), (3, 3),
    ];
    assert(offsets@ =~= beacon());
    draw_pattern(grid, x, y, &offsets);
}

/// The cells of a beehive.
pub open spec fn beehive() -> Seq<(isize, isize)> {
    seq![
        (1, 0), (2, 0), (0, 1), (3, 1), (1, 2), (2, 2),
    ]
}

/// Places a beehive with its corner at `(x, y)`.
pub fn place_beehive(grid: &mut Board, x: isize, y: isize)
    requires
        x <= isize::MAX - 3,
        y <= isize::MAX - 2,
    ensures
        stamped(*old(grid), *final(grid), x as int, y as int, beehive()),
{
    let offsets: [(isize, isize); 6] = [
        (1, 0), (2, 0), (0, 1), (3, 1), (1, 2), (2, 2),
    ];
    assert(offsets@ =~= beehive());
    draw_pattern(grid, x, y, &offsets);
}

/// The cells of a lightweight spaceship.
pub open spec fn lwss() -> Seq<(isize, isize)> {
    seq![
        (0, 0), (3, 0), (4, 1), (0, 2), (4, 2), (1, 3), (2, 3), (3, 3), (4, 3),
    ]
}

/// Places a lightweight spaceship with its corner at `(x, y)`.
pub fn place_lwss(grid: &mut Board, x: isize, y: isize)
    requires
        x <= isize::MAX - 4,
        y <= isize::MAX - 3,
    ensures
        stamped(*old(grid), *final(grid), x as int, y as int, lwss()),
{
    let offsets: [(isize, isize); 9] = [
        (0, 0), (3, 0), (4, 1), (0, 2), (4, 2), (1, 3), (2, 3), (3, 3), (4, 3),
    ];
    assert(offsets@ =~= lwss());
    draw_pattern(grid, x, y, &offsets);
}

/// The cells of a pulsar.
pub open spec fn pulsar() -> Seq<(isize, isize)> {
    seq![
        (2, 0), (3, 0), (4, 0), (8, 0), (9, 0), (10, 0), (0, 2), (5, 2), (7, 2), (12, 2),
        (0, 3), (5, 3), (7, 3), (12, 3), (0, 4), (5, 4), (7, 4), (12, 4), (2, 5), (3, 5),
        (4, 5), (8, 5), (9, 5), (10, 5), (2, 7), (3, 7), (4, 7), (8, 7), (9, 7), (10, 7),
        (0, 8), (5, 8), (7, 8), (12, 8), (0, 9), (5, 9), (7, 9), (12, 9), (0, 10), (5, 10),
        (7, 10), (12, 10), (2, 12), (3, 12), (4, 12), (8, 12), (9, 12), (10, 12),
    ]
}

/// Places a pulsar with its corner at `(x, y)`.
pub fn place_pulsar(grid: &mut Board, x: isize, y: isize)
    requires
        x <= isize::MAX - 12,
        y <= isize::MAX - 12,
    ensures
        stamped(*old(grid), *final(grid), x as int, y as int, pulsar()),
{
    let offsets: [(isize, isize); 48] = [
        (2, 0), (3, 0), (4, 0), (8, 0), (9, 0), (10, 0), (0, 2), (5, 2), (7, 2), (12, 2),
        (0, 3), (5, 3), (7, 3), (12, 3), (0, 4), (5, 4), (7, 4), (12, 4), (2, 5), (3, 5),
        (4, 5), (8, 5), (9, 5), (10, 5), (2, 7), (3, 7), (4, 7), (8, 7), (9, 7), (10, 7),
        (0, 8), (5, 8), (7, 8), (12, 8), (0, 9), (5, 9), (7, 9), (12, 9), (0, 10), (5, 10),
        (7, 10), (12, 10), (2, 12), (3, 12), (4, 12), (8, 12), (9, 12), (10, 12),
    ];
    assert(offsets@ =~= pulsar());
    draw_pattern(grid, x, y, &offsets);
}

/// The cells of a pentadecathlon.
pub open spec fn pentadecathlon() -> Seq<(isize, isize)> {
    seq![
        (0, 1), (1, 1), (2, 1), (3, 1), (4, 0), (4, 2), (5, 1), (6, 1), (7, 1), (8, 1), (9, 1),
        (10, 1),
    ]
}

/// Places a pentadecathlon with its corner at `(x, y)`.
pub fn place_pentadecathlon(grid: &mut Board, x: isize, y: isize)
    requires
        x <= isize::MAX - 10,
        y <= isize::MAX - 2,
    ensures
        stamped(*old(grid), *final(grid), x as int, y as int, pentadecathlon()),
{
    let offsets: [(isize, isize); 12] = [
        (0, 1), (1, 1), (2, 1), (3, 1), (4, 0), (4, 2), (5, 1), (6, 1), (7, 1), (8, 1), (9, 1),
        (10, 1),
    ];
    assert(offsets@ =~= pentadecathlon());
    draw_pattern(grid, x, y, &offsets);
}

/// The character that shows a status.
pub open spec fn glyph_of(s: Status) -> char {
    match s {
        Status::DEAD => '⋅',
        Status::ALIVE => '#',
    }
}

/// The characters of the first `n` cells of a row.
pub open spec fn row_text(row: [Status; GRID_COLS], n: int) -> Seq<char> {
    Seq::new(n as nat, |i: int| glyph_of(row@[i]))
}

/// The text of the first `k` rows: each row as its characters, followed by a
/// line feed.
pub open spec fn text(grid: Board, k: int) -> Seq<char>
    decreases k,
{
    if k <= 0 {
        Seq::empty()
    } else {
        text(grid, k - 1) + row_text(grid@[k - 1], GRID_COLS as int).push('\n')
    }
}

/// The board as text, one line per row.
pub fn render(grid: &Board) -> (out: Vec<char>)
    ensures
        out@ == text(*grid, GRID_ROWS as int),
{
    let mut out: Vec<char> = Vec::new();
    let mut y: usize = 0;
    while y < GRID_ROWS
        invariant
            y <= GRID_ROWS,
            out@ == text(*grid, y as int),
        decreases GRID_ROWS - y,
    {
        let ghost above = out@;
        let mut x: usize = 0;
        while x < GRID_COLS
            invariant
                y < GRID_ROWS,
                x <= GRID_COLS,
                out@ == above + row_text(grid@[y as int], x as int),
            decreases GRID_COLS - x,
        {
            match grid[y][x] {
                Status::DEAD => out.push('⋅'),
                Status::ALIVE => out.push('#'),
            }
            assert(out@ =~= above + row_text(grid@[y as int], x + 1));
            x += 1;
        }
        out.push('\n');
        assert(out@ =~= above + row_text(grid@[y as int], GRID_COLS as int).push('\n'));
        y += 1;
    }
    out
}

} // verus!
