//! The maze grid: a rectangle of cells with wall/open state and bounds-safe
//! coordinate arithmetic.

use vstd::prelude::*;
use crate::coords::{adjacent, shift, shifted, Coords};

verus! {

/// The state of one cell. `Path`, `Start` and `Goal` are display markers laid
/// over open cells; for movement they count as open.
#[derive(Clone, Copy, Debug, PartialEq, Eq, Structural)]
pub enum Cell {
    Wall,
    Open,
    Path,
    Start,
    Goal,
}

/// The rows `rows` with the cell at `p` replaced by `c`.
pub open spec fn with_cell(rows: Seq<Seq<Cell>>, p: Coords, c: Cell) -> Seq<Seq<Cell>> {
    rows.update(p.y as int, rows[p.y as int].update(p.x as int, c))
}

/// A rectangular grid of cells, stored row by row.
#[derive(Debug)]
pub struct Grid {
    rows: Vec<Vec<Cell>>,
}

impl View for Grid {
    type V = Seq<Seq<Cell>>;

    closed spec fn view(&self) -> Seq<Seq<Cell>> {
        Seq::new(self.rows@.len(), |i: int| self.rows@[i]@)
    }
}

impl Grid {
    /// Every row has the length of the first one, and both dimensions are
    /// lengths that the machine can hold.
    pub open spec fn wf(&self) -> bool {
        &&& self.rows() <= usize::MAX
        &&& self.cols() <= usize::MAX
        &&& forall|i: int| 0 <= i < self@.len() ==> (#[trigger] self@[i]).len() == self@[0].len()
    }

    /// Number of rows.
    pub open spec fn rows(&self) -> int {
        self@.len() as int
    }

    /// Number of columns: the length of the first row, 0 without rows.
    pub open spec fn cols(&self) -> int {
        if self@.len() == 0 {
            0
        } else {
            self@[0].len() as int
        }
    }

    /// `p` lies inside the grid.
    pub open spec fn contains(&self, p: Coords) -> bool {
        p.y < self.rows() && p.x < self.cols()
    }

    /// The state of the cell at `p`.
    pub open spec fn cell(&self, p: Coords) -> Cell {
        self@[p.y as int][p.x as int]
    }

    /// `p` lies inside the grid and is no wall.
    pub open spec fn passable(&self, p: Coords) -> bool {
        self.contains(p) && self.cell(p) != Cell::Wall
    }

    /// The cell reached from `p` by the offset `(dx, dy)`, when it lies inside.
    pub open spec fn offset(&self, p: Coords, dx: int, dy: int) -> Option<Coords> {
        if 0 <= p.x + dx < self.cols() && 0 <= p.y + dy < self.rows() {
            Some(Coords { x: (p.x + dx) as usize, y: (p.y + dy) as usize })
        } else {
            None
        }
    }

    /// `self` with the cell at `p` replaced by `c`.
    pub open spec fn put(&self, p: Coords, c: Cell) -> Seq<Seq<Cell>> {
        with_cell(self@, p, c)
    }

    /// Every cell is a wall.
    pub open spec fn all_walls(&self) -> bool {
        forall|p: Coords| #[trigger] self.contains(p) ==> self.cell(p) == Cell::Wall
    }

    /// `w` is a walk: a non-empty sequence of passable cells, each adjacent to
    /// the next.
    pub open spec fn is_walk(&self, w: Seq<Coords>) -> bool {
        &&& w.len() > 0
        &&& forall|i: int| 0 <= i < w.len() ==> self.passable(#[trigger] w[i])
        &&& forall|i: int| 0 <= i < w.len() - 1 ==> adjacent(#[trigger] w[i], w[i + 1])
    }

    /// `w` is a walk that starts at `a` and ends at `b`.
    pub open spec fn joins(&self, w: Seq<Coords>, a: Coords, b: Coords) -> bool {
        self.is_walk(w) && w[0] == a && w[w.len() - 1] == b
    }

    /// Some walk leads from `a` to `b`.
    pub open spec fn connected(&self, a: Coords, b: Coords) -> bool {
        exists|w: Seq<Coords>| self.joins(w, a, b)
    }

    /// Number of rows.
    pub fn height(&self) -> (h: usize)
        ensures
            h == self.rows(),
    {
        self.rows.len()
    }

    /// Number of columns.
    pub fn width(&self) -> (w: usize)
        ensures
            w == self.cols(),
    {
        if self.rows.len() == 0 {
            0
        } else {
            self.rows[0].len()
        }
    }

    /// The state of the cell at `p`.
    pub fn get(&self, p: Coords) -> (c: Cell)
        requires
            self.wf(),
            self.contains(p),
        ensures
            c == self.cell(p),
    {
        assert(self@[p.y as int].len() == self@[0].len());
        self.rows[p.y][p.x]
    }

    /// Replaces the state of the cell at `p` by `c`.
    pub fn set(&mut self, p: Coords, c: Cell)
        requires
            old(self).wf(),
            old(self).contains(p),
        ensures
            final(self)@ == old(self).put(p, c),
            final(self).wf(),
    {
        assert(self@[p.y as int].len() == self@[0].len());
        self.rows[p.y][p.x] = c;
        assert(self@ =~= old(self).put(p, c));
    }
}

/// A grid of `height` rows and `width` columns in which every cell is a wall.
pub fn create_filled(height: usize, width: usize) -> (map: Grid)
    ensures
        map.wf(),
        map.rows() == height,
        height > 0 ==> map.cols() == width,
        map.all_walls(),
{
    let mut rows: Vec<Vec<Cell>> = Vec::new();
    let mut y: usize = 0;
    while y < height
        invariant
            y <= height,
            rows@.len() == y,
            forall|i: int| 0 <= i < y ==> (#[trigger] rows@[i])@.len() == width,
            forall|i: int, j: int|
                0 <= i < y && 0 <= j < width ==> #[trigger] rows@[i]@[j] == Cell::Wall,
        decreases height - y,
    {
        let mut row: Vec<Cell> = Vec::new();
        let mut x: usize = 0;
        while x < width
            invariant
                x <= width,
                row@.len() == x,
                forall|j: int| 0 <= j < x ==> row@[j] == Cell::Wall,
            decreases width - x,
        {
            row.push(Cell::Wall);
            x += 1;
        }
        rows.push(row);
        y += 1;
    }
    Grid { rows }
}

/// Whether `p` lies inside the grid.
pub fn in_bounds(map: &Grid, p: Coords) -> (b: bool)
    ensures
        b == map.contains(p),
{
    p.y < map.height() && p.x < map.width()
}

/// Applies the signed offset `(dx, dy)` to `p`. The result is the new cell when
/// it lies inside the grid, and nothing otherwise, however large the offset.
pub fn try_offset(map: &Grid, p: Coords, dx: isize, dy: isize) -> (r: Option<Coords>)
    ensures
        r == map.offset(p, dx as int, dy as int),
        r matches Some(q) ==> map.contains(q) && q.x == p.x + dx && q.y == p.y + dy,
{
    match shift(p.x, dx, map.width()) {
        Some(x) => match shift(p.y, dy, map.height()) {
            Some(y) => Some(Coords { x, y }),
            None => None,
        },
        None => None,
    }
}

/// Opens the cell at `p`.
pub fn open(map: &mut Grid, p: Coords)
    requires
        old(map).wf(),
        old(map).contains(p),
    ensures
        final(map)@ == old(map).put(p, Cell::Open),
        final(map).wf(),
{
    map.set(p, Cell::Open);
}

/// Whether the cell at `p` is a wall.
pub fn is_wall(map: &Grid, p: Coords) -> (b: bool)
    requires
        map.wf(),
        map.contains(p),
    ensures
        b == (map.cell(p) == Cell::Wall),
{
    map.get(p) == Cell::Wall
}

/// Whether the cell at `p` can be walked on: any state but a wall.
pub fn is_open(map: &Grid, p: Coords) -> (b: bool)
    requires
        map.wf(),
        map.contains(p),
    ensures
        b == (map.cell(p) != Cell::Wall),
        b == map.passable(p),
{
    map.get(p) != Cell::Wall
}

/// What replacing one cell does to the cells of a grid: the shape stays and
/// no other cell changes.
pub proof fn lemma_put(old_map: Grid, new_map: Grid, p: Coords, v: Cell)
    requires
        old_map.wf(),
        old_map.contains(p),
        new_map@ == old_map.put(p, v),
    ensures
        new_map.wf(),
        new_map.rows() == old_map.rows(),
        new_map.cols() == old_map.cols(),
        forall|c: Coords| #[trigger] new_map.contains(c) == old_map.contains(c),
        forall|c: Coords|
            old_map.contains(c) ==> #[trigger] new_map.cell(c) == if c == p {
                v
            } else {
                old_map.cell(c)
            },
{
    assert(old_map@[p.y as int].len() == old_map@[0].len());
    assert forall|i: int| 0 <= i < new_map@.len() implies (#[trigger] new_map@[i]).len()
        == new_map@[0].len() by {
        assert(old_map@[i].len() == old_map@[0].len());
    }
    assert forall|c: Coords| old_map.contains(c) implies #[trigger] new_map.cell(c) == if c == p {
        v
    } else {
        old_map.cell(c)
    } by {
        assert(old_map@[c.y as int].len() == old_map@[0].len());
    }
}

/// A walk stays a walk when cells are opened.
pub proof fn lemma_walk_keeps(old_map: Grid, new_map: Grid, w: Seq<Coords>)
    requires
        old_map.is_walk(w),
        forall|c: Coords| old_map.passable(c) ==> #[trigger] new_map.passable(c),
    ensures
        new_map.is_walk(w),
{
    assert forall|i: int| 0 <= i < w.len() implies new_map.passable(#[trigger] w[i]) by {
        assert(old_map.passable(w[i]));
    }
}

/// A walk can be prolonged by a passable cell next to its end.
pub proof fn lemma_walk_grows(map: Grid, w: Seq<Coords>, a: Coords, b: Coords, c: Coords)
    requires
        map.joins(w, a, b),
        map.passable(c),
        adjacent(b, c),
    ensures
        map.joins(w.push(c), a, c),
{
    let v = w.push(c);
    assert forall|i: int| 0 <= i < v.len() implies map.passable(#[trigger] v[i]) by {
        if i < w.len() {
            assert(v[i] == w[i]);
        }
    }
    assert forall|i: int| 0 <= i < v.len() - 1 implies adjacent(#[trigger] v[i], v[i + 1]) by {
        if i < w.len() - 1 {
            assert(v[i] == w[i]);
            assert(v[i + 1] == w[i + 1]);
        }
    }
}

/// A walk read backwards is a walk: being joined by a walk is symmetric.
pub proof fn lemma_walk_reverse(map: Grid, w: Seq<Coords>, a: Coords, b: Coords)
    requires
        map.joins(w, a, b),
    ensures
        map.joins(w.reverse(), b, a),
{
    let r = w.reverse();
    let n = w.len() as int;
    assert forall|i: int| 0 <= i < r.len() implies map.passable(#[trigger] r[i]) by {
        assert(r[i] == w[n - 1 - i]);
    }
    assert forall|i: int| 0 <= i < r.len() - 1 implies adjacent(#[trigger] r[i], r[i + 1]) by {
        assert(r[i] == w[n - 1 - i]);
        assert(r[i + 1] == w[n - 2 - i]);
        assert(adjacent(w[n - 2 - i], w[n - 2 - i + 1]));
    }
    assert(r[0] == w[n - 1]);
    assert(r[n - 1] == w[0]);
}

/// A walk that ends where another starts can be followed by it: being joined
/// by a walk is transitive.
pub proof fn lemma_walk_chain(map: Grid, v: Seq<Coords>, w: Seq<Coords>, a: Coords, b: Coords, c: Coords)
    requires
        map.joins(v, a, b),
        map.joins(w, b, c),
    ensures
        map.joins(v.drop_last() + w, a, c),
{
    let head = v.drop_last();
    let u = head + w;
    let n = head.len() as int;
    assert forall|i: int| 0 <= i < u.len() implies map.passable(#[trigger] u[i]) by {
        if i < n {
            assert(u[i] == v[i]);
        } else {
            assert(u[i] == w[i - n]);
        }
    }
    assert forall|i: int| 0 <= i < u.len() - 1 implies adjacent(#[trigger] u[i], u[i + 1]) by {
        if i + 1 < n {
            assert(u[i] == v[i]);
            assert(u[i + 1] == v[i + 1]);
        } else if i < n {
            assert(u[i] == v[i]);
            assert(u[i + 1] == w[0]);
            assert(adjacent(v[i], v[i + 1]));
        } else {
            assert(u[i] == w[i - n]);
            assert(u[i + 1] == w[i - n + 1]);
            assert(adjacent(w[i - n], w[i - n + 1]));
        }
    }
    if n > 0 {
        assert(u[0] == v[0]);
    } else {
        assert(u[0] == w[0]);
    }
    assert(u[u.len() - 1] == w[w.len() - 1]);
}

/// Numbers of the same parity keep it when each moves by one, up or down.
proof fn lemma_parity_step(p: int, q: int, r: int)
    requires
        p % 2 == q % 2,
        r == q + 1 || r == q - 1,
    ensures
        (p + 1) % 2 == r % 2,
{
}

/// Each step of a walk flips the parity of `x + y`: the number of steps of a
/// walk is even exactly when its two ends agree in that parity.
pub proof fn lemma_walk_parity(map: Grid, w: Seq<Coords>, k: int)
    requires
        map.is_walk(w),
        0 <= k < w.len(),
    ensures
        (k + w[0].x + w[0].y) % 2 == (w[k].x + w[k].y) % 2,
    decreases k,
{
    if k > 0 {
        lemma_walk_parity(map, w, k - 1);
        assert(adjacent(w[k - 1], w[k - 1 + 1]));
        let p = k - 1 + w[0].x + w[0].y;
        let q = w[k - 1].x + w[k - 1].y;
        let r = w[k].x + w[k].y;
        assert(r == q + 1 || r == q - 1);
        lemma_parity_step(p, q, r);
    }
}

} // verus!
