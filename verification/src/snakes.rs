//! Snakes that wander over a canvas of characters, one random step at a time,
//! and the canvas that shows them.

use vstd::prelude::*;
use crate::coords::{shift, Coords};
use crate::random::integer_in;

verus! {

/// A snake: the character it is drawn with and its cells, head first.
#[derive(Debug)]
pub struct Snake {
    pub sym: char,
    pub body: Vec<Coords>,
}

/// Every row of the canvas has the length of the first one.
pub open spec fn rectangular(grid: Seq<Vec<char>>) -> bool {
    forall|i: int| 0 <= i < grid.len() ==> (#[trigger] grid[i])@.len() == grid[0]@.len()
}

/// The four directions, in the order in which a snake looks around.
pub open spec fn direction(k: int) -> (int, int) {
    if k == 0 {
        (0, -1)
    } else if k == 1 {
        (0, 1)
    } else if k == 2 {
        (-1, 0)
    } else {
        (1, 0)
    }
}

/// The cell one step from `head` in direction `(dx, dy)`, when it lies on the
/// canvas and is blank.
pub open spec fn free_at(grid: Seq<Vec<char>>, head: Coords, dx: int, dy: int) -> Option<Coords> {
    if grid.len() > 0 && 0 <= head.x + dx < grid[0]@.len() && 0 <= head.y + dy < grid.len()
        && grid[head.y + dy]@[head.x + dx] == ' ' {
        Some(Coords { x: (head.x + dx) as usize, y: (head.y + dy) as usize })
    } else {
        None
    }
}

/// The blank cells next to `head` in the first `k` directions, in that order.
pub open spec fn free_around(grid: Seq<Vec<char>>, head: Coords, k: int) -> Seq<Coords>
    decreases k,
{
    if k <= 0 {
        Seq::empty()
    } else {
        let before = free_around(grid, head, k - 1);
        match free_at(grid, head, direction(k - 1).0, direction(k - 1).1) {
            Some(c) => before.push(c),
            None => before,
        }
    }
}

/// The cells that a snake with its head at `head` may move to: the blank
/// cells of the canvas one step up, down, left and right of it.
pub fn free_moves(grid: &Vec<Vec<char>>, head: Coords) -> (r: Vec<Coords>)
    requires
        rectangular(grid@),
    ensures
        r@ == free_around(grid@, head, 4),
{
    let directions: [(isize, isize); 4] = [(0, -1), (0, 1), (-1, 0), (1, 0)];
    let height = grid.len();
    let width = if height == 0 {
        0
    } else {
        grid[0].len()
    };
    let mut valid_moves: Vec<Coords> = Vec::new();
    let mut k: usize = 0;
    while k < 4
        invariant
            k <= 4,
            rectangular(grid@),
            height == grid@.len(),
            width == if height == 0 {
                0
            } else {
                grid@[0]@.len()
            },
            valid_moves@ == free_around(grid@, head, k as int),
            forall|j: int|
                0 <= j < 4 ==> (#[trigger] directions[j]).0 == direction(j).0 && directions[j].1
                    == direction(j).1,
        decreases 4 - k,
    {
        let (dx, dy) = directions[k];
        assert(directions[k as int].0 == direction(k as int).0);
        match shift(head.x, dx, width) {
            Some(nx) => match shift(head.y, dy, height) {
                Some(ny) => {
                    assert(grid@[ny as int]@.len() == grid@[0]@.len());
                    if grid[ny][nx] == ' ' {
                        valid_moves.push(Coords { x: nx, y: ny });
                    }
                },
                None => {},
            },
            None => {},
        }
        k += 1;
    }
    valid_moves
}

impl Snake {
    /// A snake of one cell, placed at random on a canvas of the given size.
    pub fn new(canvas_w: usize, canvas_h: usize, sym: char) -> (s: Snake)
        requires
            canvas_w > 0,
            canvas_h > 0,
        ensures
            s.sym == sym,
            s.body@.len() == 1,
            s.body@[0].x < canvas_w,
            s.body@[0].y < canvas_h,
    {
        let max_x = (canvas_w - 1) as i128;
        let max_y = (canvas_h - 1) as i128;
        let x = integer_in(0, max_x) as usize;
        let y = integer_in(0, max_y) as usize;
        let c = Coords { x, y };
        let mut body: Vec<Coords> = Vec::new();
        body.push(c);
        Snake { sym: sym, body }
    }

    /// Puts the `idx`-th of `moves` in front of the body as the new head.
    pub fn move_to(&mut self, moves: &Vec<Coords>, idx: usize)
        requires
            idx < moves@.len(),
        ensures
            final(self).sym == old(self).sym,
            final(self).body@ == old(self).body@.insert(0, moves@[idx as int]),
    {
        let new_head = moves[idx];
        self.body.insert(0, new_head);
    }

    /// Moves the snake one step: its head goes to one of the blank cells next
    /// to it, chosen at random, and the body follows without losing its tail.
    /// A snake with no blank cell next to its head loses its whole body; one
    /// without a body stays as it is.
    pub fn step(&mut self, grid: &Vec<Vec<char>>)
        requires
            rectangular(grid@),
        ensures
            final(self).sym == old(self).sym,
            old(self).body@.len() == 0 ==> final(self).body@ == old(self).body@,
            old(self).body@.len() > 0 ==> {
                let moves = free_around(grid@, old(self).body@[0], 4);
                if moves.len() == 0 {
                    final(self).body@.len() == 0
                } else {
                    exists|i: int|
                        0 <= i < moves.len() && final(self).body@ == old(self).body@.insert(
                            0,
                            #[trigger] moves[i],
                        )
                }
            },
    {
        if self.body.len() == 0 {
            return ;
        }
        let head = self.body[0];
        let valid_moves = free_moves(grid, head);
        if valid_moves.len() == 0 {
            self.body.clear();
            return ;
        }
        let max_idx = (valid_moves.len() - 1) as i128;
        let idx = integer_in(0, max_idx) as usize;
        self.move_to(&valid_moves, idx);
    }
}

/// Among the first `j` cells of `body` there is `(x, y)`.
pub open spec fn lies_within(body: Seq<Coords>, j: int, x: int, y: int) -> bool {
    exists|i: int| 0 <= i < j && (#[trigger] body[i]).x == x && body[i].y == y
}

/// What the canvas shows at `(x, y)` once the first `k` snakes are drawn: the
/// character of the last of them that has a cell there, and a blank where
/// none has.
pub open spec fn painted(snakes: Seq<Snake>, k: int, x: int, y: int) -> char
    decreases k,
{
    if k <= 0 {
        ' '
    } else if lies_within(snakes[k - 1].body@, snakes[k - 1].body@.len() as int, x, y) {
        snakes[k - 1].sym
    } else {
        painted(snakes, k - 1, x, y)
    }
}

/// A canvas of `height` rows and `width` columns, all blank.
fn blank_canvas(width: usize, height: usize) -> (grid: Vec<Vec<char>>)
    ensures
        grid@.len() == height,
        forall|y: int| 0 <= y < height ==> (#[trigger] grid@[y])@.len() == width,
        forall|y: int, x: int| 0 <= y < height && 0 <= x < width ==> #[trigger] grid@[y]@[x] == ' ',
{
    let mut grid: Vec<Vec<char>> = Vec::new();
    let mut y: usize = 0;
    while y < height
        invariant
            y <= height,
            grid@.len() == y,
            forall|i: int| 0 <= i < y ==> (#[trigger] grid@[i])@.len() == width,
            forall|i: int, j: int| 0 <= i < y && 0 <= j < width ==> #[trigger] grid@[i]@[j] == ' ',
        decreases height - y,
    {
        let mut row: Vec<char> = Vec::new();
        let mut x: usize = 0;
        while x < width
            invariant
                x <= width,
                row@.len() == x,
                forall|j: int| 0 <= j < x ==> row@[j] == ' ',
            decreases width - x,
        {
            row.push(' ');
            x += 1;
        }
        grid.push(row);
        y += 1;
    }
    grid
}

/// Draws the snakes on a blank canvas of the given size, one after the other,
/// so that where two overlap the later one shows. Cells of a snake that lie
/// off the canvas are left out.
pub fn generate_grid(width: usize, height: usize, snakes: &Vec<Snake>) -> (grid: Vec<Vec<char>>)
    ensures
        grid@.len() == height,
        forall|y: int| 0 <= y < height ==> (#[trigger] grid@[y])@.len() == width,
        forall|y: int, x: int|
            0 <= y < height && 0 <= x < width ==> #[trigger] grid@[y]@[x] == painted(
                snakes@,
                snakes@.len() as int,
                x,
                y,
            ),
{
    let mut grid = blank_canvas(width, height);
    let mut k: usize = 0;
    while k < snakes.len()
        invariant
            k <= snakes@.len(),
            grid@.len() == height,
            forall|y: int| 0 <= y < height ==> (#[trigger] grid@[y])@.len() == width,
            forall|y: int, x: int|
                0 <= y < height && 0 <= x < width ==> #[trigger] grid@[y]@[x] == painted(
                    snakes@,
                    k as int,
                    x,
                    y,
                ),
        decreases snakes@.len() - k,
    {
        let sym = snakes[k].sym;
        let len = snakes[k].body.len();
        let ghost body = snakes@[k as int].body@;
        let mut j: usize = 0;
        while j < len
            invariant
                k < snakes@.len(),
                j <= len,
                len == body.len(),
                body == snakes@[k as int].body@,
                sym == snakes@[k as int].sym,
                grid@.len() == height,
                forall|y: int| 0 <= y < height ==> (#[trigger] grid@[y])@.len() == width,
                forall|y: int, x: int|
                    0 <= y < height && 0 <= x < width ==> #[trigger] grid@[y]@[x] == if lies_within(
                        body,
                        j as int,
                        x,
                        y,
                    ) {
                        sym
                    } else {
                        painted(snakes@, k as int, x, y)
                    },
            decreases len - j,
        {
            let c = snakes[k].body[j];
            let ghost before = grid;
            if c.x < width && c.y < height {
                grid[c.y][c.x] = sym;
            }
            proof {
                assert(body[j as int] == c);
                assert forall|y: int, x: int|
                    0 <= y < height && 0 <= x < width implies #[trigger] grid@[y]@[x]
                    == if lies_within(body, j + 1, x, y) {
                    sym
                } else {
                    painted(snakes@, k as int, x, y)
                } by {
                    assert(before@[y]@[x] == if lies_within(body, j as int, x, y) {
                        sym
                    } else {
                        painted(snakes@, k as int, x, y)
                    });
                    if lies_within(body, j as int, x, y) {
                        let i = choose|i: int|
                            0 <= i < j && (#[trigger] body[i]).x == x && body[i].y == y;
                        assert(0 <= i < j + 1 && body[i].x == x && body[i].y == y);
                    }
                    if lies_within(body, j + 1, x, y) && !lies_within(body, j as int, x, y) {
                        let i = choose|i: int|
                            0 <= i < j + 1 && (#[trigger] body[i]).x == x && body[i].y == y;
                        assert(i == j);
                    }
                }
            }
            j += 1;
        }
        k += 1;
    }
    grid
}

} // verus!
