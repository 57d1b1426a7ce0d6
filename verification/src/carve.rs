//! Carving a perfect maze into a grid of walls by randomized depth-first
//! search with an explicit stack.

use rand::rngs::StdRng;
use vstd::prelude::*;
use crate::cells::{flat, lemma_flat_injective, lemma_flat_range, lemma_room};
use crate::coords::{adjacent, Coords};
use crate::grid::{
    is_wall, lemma_put, lemma_walk_chain, lemma_walk_grows, lemma_walk_keeps, lemma_walk_parity,
    lemma_walk_reverse, open, try_offset, with_cell, Cell, Grid,
};
use crate::random::draw_below;
use crate::solve::{is_shortest, lemma_shortest_simple};
use crate::tree::{hangs, lemma_single_walks, rooted, single_walks, tied, Rooting};

verus! {

/// `a` and `b` are an even distance apart.
#[verifier::opaque]
pub open spec fn aligned(a: usize, b: usize) -> bool {
    a % 2 == b % 2
}

/// `c` is a room of the maze grown from `start`: a cell that an even number of
/// columns and an even number of rows separate from `start`.
pub open spec fn is_room(start: Coords, c: Coords) -> bool {
    aligned(c.x, start.x) && aligned(c.y, start.y)
}

/// `c` is a link of the maze grown from `start`: the cell between two rooms
/// that are neighbours in a row or in a column.
pub open spec fn is_link(start: Coords, c: Coords) -> bool {
    aligned(c.x, start.x) != aligned(c.y, start.y)
}

/// One step away the alignment flips, two steps away it stays.
proof fn lemma_aligned_near(a: usize, b: usize, s: usize)
    ensures
        a + 1 == b || b + 1 == a ==> aligned(a, s) != aligned(b, s),
        a + 2 == b || b + 2 == a || a == b ==> aligned(a, s) == aligned(b, s),
        aligned(a, s) && a > s ==> a >= s + 2,
        aligned(a, s) && a < s ==> a + 2 <= s,
        aligned(s, s),
{
    reveal(aligned);
}

/// From a room, one step in a direction leads to a link and two steps to a
/// room; the link lies between the two rooms.
proof fn lemma_step_kinds(start: Coords, cur: Coords, mid: Coords, nxt: Coords, dx: int, dy: int)
    requires
        is_room(start, cur),
        (dx == 0 && (dy == 1 || dy == -1)) || (dy == 0 && (dx == 1 || dx == -1)),
        mid.x == cur.x + dx,
        mid.y == cur.y + dy,
        nxt.x == cur.x + 2 * dx,
        nxt.y == cur.y + 2 * dy,
    ensures
        is_link(start, mid),
        is_room(start, nxt),
        adjacent(cur, mid),
        adjacent(mid, nxt),
        dx != 0 <==> !aligned(mid.x, start.x),
        cur != mid,
        cur != nxt,
        mid != nxt,
{
    lemma_aligned_near(cur.x, mid.x, start.x);
    lemma_aligned_near(cur.y, mid.y, start.y);
    lemma_aligned_near(cur.x, nxt.x, start.x);
    lemma_aligned_near(cur.y, nxt.y, start.y);
}

/// The rooms of the maze grown from `start` that are open.
pub open spec fn open_rooms(map: Grid, start: Coords) -> Set<Coords> {
    Set::new(|c: Coords| map.passable(c) && is_room(start, c))
}

/// The links of the maze grown from `start` that are open.
pub open spec fn open_links(map: Grid, start: Coords) -> Set<Coords> {
    Set::new(|c: Coords| map.passable(c) && is_link(start, c))
}

/// The two rooms on either side of the link `c` lie inside the grid and are
/// open.
pub open spec fn link_joined(map: Grid, start: Coords, c: Coords) -> bool {
    if !aligned(c.x, start.x) {
        &&& c.x >= 1
        &&& map.passable(Coords { x: (c.x - 1) as usize, y: c.y })
        &&& map.passable(Coords { x: (c.x + 1) as usize, y: c.y })
    } else {
        &&& c.y >= 1
        &&& map.passable(Coords { x: c.x, y: (c.y - 1) as usize })
        &&& map.passable(Coords { x: c.x, y: (c.y + 1) as usize })
    }
}

/// The grid holds a perfect maze grown from `start`.
///
/// Every room is open, every open cell is a room or a link, every open link
/// joins two open rooms, every open cell can be reached from `start`, and
/// there is exactly one open link fewer than there are rooms: the rooms and
/// links form a connected graph with one edge fewer than nodes, a spanning
/// tree. It has no cycle: between two cells there is one walk only that
/// visits no cell twice.
pub open spec fn perfect(map: Grid, start: Coords) -> bool {
    &&& map.wf()
    &&& map.contains(start)
    &&& forall|c: Coords| #[trigger]
        map.contains(c) ==> map.cell(c) == Cell::Wall || map.cell(c) == Cell::Open
    &&& forall|c: Coords| #[trigger] map.contains(c) && is_room(start, c) ==> map.passable(c)
    &&& forall|c: Coords| #[trigger]
        map.passable(c) ==> is_room(start, c) || is_link(start, c)
    &&& forall|c: Coords|
        map.passable(c) && is_link(start, c) ==> #[trigger] link_joined(map, start, c)
    &&& forall|c: Coords| map.passable(c) ==> #[trigger] map.connected(start, c)
    &&& open_rooms(map, start).finite()
    &&& open_links(map, start).finite()
    &&& open_rooms(map, start).len() == open_links(map, start).len() + 1
    &&& single_walks(map)
}

/// The four directions, in the order in which the carver tries them.
pub open spec fn heading(k: int) -> (int, int) {
    if k == 0 {
        (-1, 0)
    } else if k == 1 {
        (0, 1)
    } else if k == 2 {
        (1, 0)
    } else {
        (0, -1)
    }
}

/// The move from `cur` in direction `(dx, dy)`: the link one step away and the
/// room two steps away, when both lie inside the grid and are still walls.
pub open spec fn opening(map: Grid, cur: Coords, dx: int, dy: int) -> Option<(Coords, Coords)> {
    match (map.offset(cur, dx, dy), map.offset(cur, 2 * dx, 2 * dy)) {
        (Some(mid), Some(nxt)) => if map.cell(mid) == Cell::Wall && map.cell(nxt) == Cell::Wall {
            Some((mid, nxt))
        } else {
            None
        },
        _ => None,
    }
}

/// The moves from `cur` in the first `k` directions, in that order.
pub open spec fn openings(map: Grid, cur: Coords, k: int) -> Seq<(Coords, Coords)>
    decreases k,
{
    if k <= 0 {
        Seq::empty()
    } else {
        let before = openings(map, cur, k - 1);
        match opening(map, cur, heading(k - 1).0, heading(k - 1).1) {
            Some(m) => before.push(m),
            None => before,
        }
    }
}

/// The rows `rows` with the cells at `mid` and `nxt` opened.
pub open spec fn dug(rows: Seq<Seq<Cell>>, mid: Coords, nxt: Coords) -> Seq<Seq<Cell>> {
    with_cell(with_cell(rows, mid, Cell::Open), nxt, Cell::Open)
}

/// Every listed move is the move of one of the directions.
proof fn lemma_openings_sound(map: Grid, cur: Coords, k: int, i: int) -> (j: int)
    requires
        0 <= i < openings(map, cur, k).len(),
    ensures
        0 <= j < k,
        opening(map, cur, heading(j).0, heading(j).1) == Some(openings(map, cur, k)[i]),
    decreases k,
{
    let before = openings(map, cur, k - 1);
    if i < before.len() {
        lemma_openings_sound(map, cur, k - 1, i)
    } else {
        k - 1
    }
}

/// Where no move is listed, no direction offers one.
proof fn lemma_openings_none(map: Grid, cur: Coords, k: int, j: int)
    requires
        openings(map, cur, k).len() == 0,
        0 <= j < k,
    ensures
        opening(map, cur, heading(j).0, heading(j).1) is None,
    decreases k,
{
    if j < k - 1 {
        lemma_openings_none(map, cur, k - 1, j);
    }
}

/// The moves open to the carver at `cur`: for each direction in turn, the link
/// and the room behind it, if both lie inside the grid and are walls.
pub fn moves_from(map: &Grid, cur: Coords) -> (r: Vec<(Coords, Coords)>)
    requires
        map.wf(),
    ensures
        r@ == openings(*map, cur, 4),
{
    let dirs: [(isize, isize); 4] = [(-1, 0), (0, 1), (1, 0), (0, -1)];
    let mut out: Vec<(Coords, Coords)> = Vec::with_capacity(4);
    let mut k: usize = 0;
    while k < 4
        invariant
            k <= 4,
            map.wf(),
            out@ == openings(*map, cur, k as int),
            forall|j: int|
                0 <= j < 4 ==> (#[trigger] dirs[j]).0 == heading(j).0 && dirs[j].1 == heading(j).1,
        decreases 4 - k,
    {
        let (dx, dy) = dirs[k];
        assert(dirs[k as int].0 == heading(k as int).0);
        match try_offset(map, cur, 2 * dx, 2 * dy) {
            Some(nxt) => match try_offset(map, cur, dx, dy) {
                Some(mid) => {
                    if is_wall(map, mid) && is_wall(map, nxt) {
                        out.push((mid, nxt));
                    }
                },
                None => {},
            },
            None => {},
        }
        k += 1;
    }
    out
}

/// Makes the move from `cur` through the link `mid` into the room `nxt`: opens
/// both and leaves `cur`, then `nxt`, on top of the stack.
pub fn dig(map: &mut Grid, stack: &mut Vec<Coords>, cur: Coords, mid: Coords, nxt: Coords)
    requires
        old(map).wf(),
        old(map).contains(mid),
        old(map).contains(nxt),
    ensures
        final(map).wf(),
        final(map)@ == dug(old(map)@, mid, nxt),
        final(stack)@ == old(stack)@.push(cur).push(nxt),
{
    stack.push(cur);
    open(map, mid);
    open(map, nxt);
    stack.push(nxt);
}

/// The cell at the offset `(dx, dy)` from `c` is open, if there is one.
spec fn arrived(map: Grid, c: Coords, dx: int, dy: int) -> bool {
    match map.offset(c, dx, dy) {
        Some(t) => map.passable(t),
        None => true,
    }
}

/// Every room next to the room `c` is open.
spec fn settled(map: Grid, c: Coords) -> bool {
    &&& arrived(map, c, -2, 0)
    &&& arrived(map, c, 0, 2)
    &&& arrived(map, c, 2, 0)
    &&& arrived(map, c, 0, -2)
}

/// What holds of every open cell while the maze grows.
spec fn sound_cell(map: Grid, start: Coords, c: Coords) -> bool {
    &&& is_room(start, c) || is_link(start, c)
    &&& is_link(start, c) ==> link_joined(map, start, c)
    &&& map.connected(start, c)
}

/// The invariant of the carver on a grid that was all walls: the open cells
/// form a tree that holds `start`, and every open room is on the stack or has
/// all its neighbours open.
spec fn tree_inv(map: Grid, start: Coords, stack: Seq<Coords>) -> bool {
    &&& map.wf()
    &&& map.passable(start)
    &&& forall|c: Coords| #[trigger]
        map.contains(c) ==> map.cell(c) == Cell::Wall || map.cell(c) == Cell::Open
    &&& forall|c: Coords| map.passable(c) ==> #[trigger] sound_cell(map, start, c)
    &&& forall|c: Coords|
        map.passable(c) && is_room(start, c) ==> stack.contains(c) || #[trigger] settled(map, c)
    &&& forall|i: int|
        0 <= i < stack.len() ==> map.passable(#[trigger] stack[i]) && is_room(start, stack[i])
    &&& open_rooms(map, start).finite()
    &&& open_links(map, start).finite()
    &&& open_rooms(map, start).len() == open_links(map, start).len() + 1
}

/// The invariant of the carver on any grid: the shape stays, walls may open
/// and nothing else changes, and `seen` numbers open cells only.
spec fn frame_inv(origin: Grid, map: Grid, start: Coords, stack: Seq<Coords>, seen: Set<int>) -> bool {
    &&& map.wf()
    &&& map.rows() == origin.rows()
    &&& map.cols() == origin.cols()
    &&& forall|c: Coords| #[trigger] map.contains(c) ==> kept(origin, map, start, c)
    &&& forall|i: int| 0 <= i < stack.len() ==> map.contains(#[trigger] stack[i])
    &&& forall|k: int| seen.contains(k) ==> 0 <= k < map.rows() * map.cols()
    &&& forall|c: Coords|
        #![trigger seen.contains(flat(c, map.cols()))]
        map.contains(c) && seen.contains(flat(c, map.cols())) ==> map.passable(c)
    &&& seen.finite()
}

/// The cell `c` is as it was in `origin`, or it was a wall there, or is
/// `start`, and is open now.
pub open spec fn kept(origin: Grid, map: Grid, start: Coords, c: Coords) -> bool {
    ||| (c != start && map.cell(c) == origin.cell(c))
    ||| (map.cell(c) == Cell::Open && (c == start || origin.cell(c) == Cell::Wall))
}

/// What a move does to the cells of a grid.
proof fn lemma_dug(old_map: Grid, new_map: Grid, mid: Coords, nxt: Coords)
    requires
        old_map.wf(),
        old_map.contains(mid),
        old_map.contains(nxt),
        new_map@ == dug(old_map@, mid, nxt),
    ensures
        new_map.wf(),
        new_map.rows() == old_map.rows(),
        new_map.cols() == old_map.cols(),
        forall|c: Coords| #[trigger] new_map.contains(c) == old_map.contains(c),
        forall|c: Coords|
            old_map.contains(c) ==> #[trigger] new_map.cell(c) == if c == mid || c == nxt {
                Cell::Open
            } else {
                old_map.cell(c)
            },
        forall|c: Coords| old_map.passable(c) ==> #[trigger] new_map.passable(c),
        forall|c: Coords|
            #[trigger] new_map.passable(c) ==> old_map.passable(c) || c == mid || c == nxt,
        new_map.passable(mid),
        new_map.passable(nxt),
{
    let a = old_map@;
    let b = with_cell(a, mid, Cell::Open);
    let c = new_map@;
    assert(a[mid.y as int].len() == a[0].len());
    assert(a[nxt.y as int].len() == a[0].len());
    assert(b.len() == a.len());
    assert(b[0].len() == a[0].len());
    assert(c[0].len() == a[0].len());
    assert forall|i: int| 0 <= i < c.len() implies (#[trigger] c[i]).len() == c[0].len() by {
        assert(a[i].len() == a[0].len());
    }
    assert forall|p: Coords| old_map.contains(p) implies #[trigger] new_map.cell(p) == if p == mid
        || p == nxt {
        Cell::Open
    } else {
        old_map.cell(p)
    } by {
        assert(a[p.y as int].len() == a[0].len());
    }
    assert forall|p: Coords| old_map.passable(p) implies #[trigger] new_map.passable(p) by {
        assert(new_map.contains(p) == old_map.contains(p));
        assert(new_map.cell(p) == if p == mid || p == nxt {
            Cell::Open
        } else {
            old_map.cell(p)
        });
    }
    assert forall|p: Coords| #[trigger] new_map.passable(p) implies old_map.passable(p) || p == mid
        || p == nxt by {
        assert(new_map.contains(p) == old_map.contains(p));
        assert(new_map.cell(p) == if p == mid || p == nxt {
            Cell::Open
        } else {
            old_map.cell(p)
        });
    }
    assert(new_map.contains(mid) == old_map.contains(mid));
    assert(new_map.contains(nxt) == old_map.contains(nxt));
    assert(new_map.cell(mid) == Cell::Open);
    assert(new_map.cell(nxt) == Cell::Open);
}

/// Where the room on top of the stack has no move in a direction, the room
/// two steps that way is open or lies outside.
proof fn lemma_blocked(map: Grid, start: Coords, stack: Seq<Coords>, dx: int, dy: int)
    requires
        tree_inv(map, start, stack),
        stack.len() > 0,
        (dx == 0 && (dy == 1 || dy == -1)) || (dy == 0 && (dx == 1 || dx == -1)),
        opening(map, stack.last(), dx, dy) is None,
    ensures
        arrived(map, stack.last(), 2 * dx, 2 * dy),
{
    let cur = stack.last();
    assert(map.passable(cur) && is_room(start, cur));
    match map.offset(cur, 2 * dx, 2 * dy) {
        Some(t) => {
            let m = map.offset(cur, dx, dy).unwrap();
            lemma_step_kinds(start, cur, m, t, dx, dy);
            if map.cell(t) == Cell::Wall {
                assert(map.passable(m));
                assert(sound_cell(map, start, m));
                assert(link_joined(map, start, m));
                assert(t == Coords { x: (m.x + dx) as usize, y: (m.y + dy) as usize });
            }
        },
        None => {},
    }
}

/// A room from which no move is left has all its neighbours open, so it may
/// leave the stack.
proof fn lemma_dead_end(map: Grid, start: Coords, stack: Seq<Coords>)
    requires
        tree_inv(map, start, stack),
        stack.len() > 0,
        openings(map, stack.last(), 4).len() == 0,
    ensures
        tree_inv(map, start, stack.drop_last()),
{
    let cur = stack.last();
    let rest = stack.drop_last();
    assert(map.passable(cur) && is_room(start, cur));
    assert forall|k: int| 0 <= k < 4 implies arrived(
        map,
        cur,
        2 * (#[trigger] heading(k)).0,
        2 * heading(k).1,
    ) by {
        lemma_openings_none(map, cur, 4, k);
        lemma_blocked(map, start, stack, heading(k).0, heading(k).1);
    }
    assert(heading(0) == (-1, 0int));
    assert(heading(1) == (0int, 1int));
    assert(heading(2) == (1int, 0int));
    assert(heading(3) == (0int, -1));
    assert(settled(map, cur));
    assert forall|c: Coords| map.passable(c) && is_room(start, c) implies rest.contains(c)
        || #[trigger] settled(map, c) by {
        if c != cur && !settled(map, c) {
            assert(stack.contains(c));
            let i = choose|i: int| 0 <= i < stack.len() && stack[i] == c;
            assert(rest[i] == c);
        }
    }
    assert forall|i: int| 0 <= i < rest.len() implies map.passable(#[trigger] rest[i]) && is_room(
        start,
        rest[i],
    ) by {
        assert(rest[i] == stack[i]);
    }
}

/// A move keeps the tree: it adds one room and one link, joined to what was
/// there.
proof fn lemma_move(
    old_map: Grid,
    new_map: Grid,
    start: Coords,
    stack: Seq<Coords>,
    k: int,
    mid: Coords,
    nxt: Coords,
)
    requires
        tree_inv(old_map, start, stack),
        stack.len() > 0,
        0 <= k < 4,
        opening(old_map, stack.last(), heading(k).0, heading(k).1) == Some((mid, nxt)),
        new_map@ == dug(old_map@, mid, nxt),
    ensures
        tree_inv(new_map, start, stack.push(nxt)),
        open_links(new_map, start).len() == open_links(old_map, start).len() + 1,
{
    let cur = stack.last();
    let grown = stack.push(nxt);
    assert(old_map.passable(cur) && is_room(start, cur));
    lemma_dug(old_map, new_map, mid, nxt);
    lemma_step_kinds(start, cur, mid, nxt, heading(k).0, heading(k).1);
    assert(!old_map.passable(mid));
    assert(!old_map.passable(nxt));
    assert(link_joined(new_map, start, mid)) by {
        assert(new_map.passable(cur));
    }
    assert(sound_cell(old_map, start, cur));
    let to_cur = choose|w: Seq<Coords>| old_map.joins(w, start, cur);
    lemma_walk_keeps(old_map, new_map, to_cur);
    lemma_walk_grows(new_map, to_cur, start, cur, mid);
    lemma_walk_grows(new_map, to_cur.push(mid), start, mid, nxt);
    assert(new_map.connected(start, mid));
    assert(new_map.connected(start, nxt));

    assert forall|c: Coords| new_map.passable(c) implies #[trigger] sound_cell(
        new_map,
        start,
        c,
    ) by {
        if c != mid && c != nxt {
            assert(old_map.passable(c));
            assert(sound_cell(old_map, start, c));
            let w = choose|w: Seq<Coords>| old_map.joins(w, start, c);
            lemma_walk_keeps(old_map, new_map, w);
            assert(new_map.joins(w, start, c));
            if is_link(start, c) {
                assert(link_joined(old_map, start, c));
                assert(link_joined(new_map, start, c));
            }
        }
    }
    assert forall|c: Coords| new_map.passable(c) && is_room(start, c) implies grown.contains(c)
        || #[trigger] settled(new_map, c) by {
        if c == nxt {
            assert(grown[stack.len() as int] == nxt);
        } else {
            assert(c != mid);
            assert(old_map.passable(c));
            if stack.contains(c) {
                let i = choose|i: int| 0 <= i < stack.len() && stack[i] == c;
                assert(grown[i] == c);
            } else {
                assert(settled(old_map, c));
                assert(settled(new_map, c));
            }
        }
    }
    assert forall|i: int| 0 <= i < grown.len() implies new_map.passable(#[trigger] grown[i])
        && is_room(start, grown[i]) by {
        if i < stack.len() {
            assert(grown[i] == stack[i]);
            assert(old_map.passable(stack[i]));
        }
    }
    assert(open_rooms(new_map, start) =~= open_rooms(old_map, start).insert(nxt));
    assert(open_links(new_map, start) =~= open_links(old_map, start).insert(mid));
    assert(!open_rooms(old_map, start).contains(nxt));
    assert(!open_links(old_map, start).contains(mid));
}

/// The tree after a move from `cur`: the link hangs from `cur` and the room
/// from the link.
spec fn grown(t: Rooting, cur: Coords, mid: Coords, nxt: Coords) -> Rooting {
    Rooting {
        up: t.up.insert(mid, cur).insert(nxt, mid),
        depth: t.depth.insert(mid, t.depth[cur] + 1).insert(nxt, t.depth[cur] + 2),
    }
}

/// Of the cells next to the link of a move, only the room the move starts
/// from is open.
proof fn lemma_beside_link(
    map: Grid,
    start: Coords,
    stack: Seq<Coords>,
    k: int,
    mid: Coords,
    nxt: Coords,
    v: Coords,
)
    requires
        tree_inv(map, start, stack),
        stack.len() > 0,
        0 <= k < 4,
        opening(map, stack.last(), heading(k).0, heading(k).1) == Some((mid, nxt)),
        map.passable(v),
        adjacent(mid, v),
    ensures
        v == stack.last(),
{
    let cur = stack.last();
    assert(map.passable(cur) && is_room(start, cur));
    lemma_step_kinds(start, cur, mid, nxt, heading(k).0, heading(k).1);
    assert(sound_cell(map, start, v));
    lemma_aligned_near(mid.x, v.x, start.x);
    lemma_aligned_near(mid.y, v.y, start.y);
}

/// No cell next to a room that is still closed is open.
proof fn lemma_beside_room(map: Grid, start: Coords, stack: Seq<Coords>, nxt: Coords, v: Coords)
    requires
        tree_inv(map, start, stack),
        is_room(start, nxt),
        !map.passable(nxt),
        adjacent(nxt, v),
    ensures
        !map.passable(v),
{
    if map.passable(v) {
        assert(sound_cell(map, start, v));
        lemma_aligned_near(nxt.x, v.x, start.x);
        lemma_aligned_near(nxt.y, v.y, start.y);
        assert(is_link(start, v));
        assert(link_joined(map, start, v));
        if !aligned(v.x, start.x) {
            assert(nxt == Coords { x: (v.x - 1) as usize, y: v.y } || nxt == Coords {
                x: (v.x + 1) as usize,
                y: v.y,
            });
        } else {
            assert(nxt == Coords { x: v.x, y: (v.y - 1) as usize } || nxt == Coords {
                x: v.x,
                y: (v.y + 1) as usize,
            });
        }
    }
}

/// A move keeps the open cells a tree: the link and the room it opens hang
/// from the room it starts from, and touch no other open cell.
proof fn lemma_hang(
    old_map: Grid,
    new_map: Grid,
    start: Coords,
    stack: Seq<Coords>,
    k: int,
    mid: Coords,
    nxt: Coords,
    t: Rooting,
)
    requires
        tree_inv(old_map, start, stack),
        rooted(old_map, start, t),
        stack.len() > 0,
        0 <= k < 4,
        opening(old_map, stack.last(), heading(k).0, heading(k).1) == Some((mid, nxt)),
        new_map@ == dug(old_map@, mid, nxt),
    ensures
        rooted(new_map, start, grown(t, stack.last(), mid, nxt)),
{
    let cur = stack.last();
    let t2 = grown(t, cur, mid, nxt);
    assert(old_map.passable(cur) && is_room(start, cur));
    lemma_dug(old_map, new_map, mid, nxt);
    lemma_step_kinds(start, cur, mid, nxt, heading(k).0, heading(k).1);
    assert(!old_map.passable(mid));
    assert(!old_map.passable(nxt));
    assert(t.depth.dom().contains(cur));
    assert(!t.depth.dom().contains(mid));
    assert(!t.depth.dom().contains(nxt));
    assert(old_map.passable(start));
    assert forall|c: Coords| new_map.passable(c) implies #[trigger] t2.depth.dom().contains(c) by {
        if c != mid && c != nxt {
            assert(old_map.passable(c));
            assert(t.depth.dom().contains(c));
        }
    }
    assert forall|c: Coords| #[trigger] t2.depth.dom().contains(c) implies new_map.passable(c)
        && t2.depth[c] >= 0 by {
        if c != mid && c != nxt {
            assert(t.depth.dom().contains(c));
            assert(old_map.passable(c));
        }
    }
    assert forall|c: Coords| t2.depth.dom().contains(c) && c != start implies #[trigger] hangs(
        t2,
        c,
    ) by {
        if c != mid && c != nxt {
            assert(t.depth.dom().contains(c));
            assert(hangs(t, c));
            assert(t.depth.dom().contains(t.up[c]));
        }
    }
    assert forall|u: Coords, v: Coords|
        new_map.passable(u) && new_map.passable(v) && #[trigger] adjacent(u, v) implies tied(
        t2,
        start,
        u,
        v,
    ) by {
        let u_old = u != mid && u != nxt;
        let v_old = v != mid && v != nxt;
        if u_old && v_old {
            assert(old_map.passable(u) && old_map.passable(v));
            assert(tied(t, start, u, v));
            assert(t.depth.dom().contains(u) && t.depth.dom().contains(v));
        } else if u_old {
            assert(old_map.passable(u));
            assert(adjacent(v, u));
            if v == mid {
                lemma_beside_link(old_map, start, stack, k, mid, nxt, u);
            } else {
                lemma_beside_room(old_map, start, stack, nxt, u);
            }
        } else if v_old {
            assert(old_map.passable(v));
            if u == mid {
                lemma_beside_link(old_map, start, stack, k, mid, nxt, v);
            } else {
                lemma_beside_room(old_map, start, stack, nxt, v);
            }
        }
    }
}

/// Once every open room has all its neighbours open, every room is open.
proof fn lemma_covered(map: Grid, start: Coords, c: Coords)
    requires
        map.wf(),
        map.passable(start),
        map.contains(c),
        is_room(start, c),
        forall|r: Coords| map.passable(r) && is_room(start, r) ==> #[trigger] settled(map, r),
    ensures
        map.passable(c),
    decreases
        if c.x >= start.x { c.x - start.x } else { start.x - c.x } + if c.y >= start.y { c.y - start.y } else { start.y - c.y },
{
    lemma_aligned_near(c.x, start.x, start.x);
    lemma_aligned_near(c.y, start.y, start.y);
    if c.x > start.x {
        let p = Coords { x: (c.x - 2) as usize, y: c.y };
        lemma_aligned_near(c.x, p.x, start.x);
        lemma_covered(map, start, p);
        assert(settled(map, p));
        assert(arrived(map, p, 2, 0));
        assert(map.offset(p, 2, 0) == Some(c));
    } else if c.x < start.x {
        let p = Coords { x: (c.x + 2) as usize, y: c.y };
        lemma_aligned_near(c.x, p.x, start.x);
        lemma_covered(map, start, p);
        assert(settled(map, p));
        assert(arrived(map, p, -2, 0));
        assert(map.offset(p, -2, 0) == Some(c));
    } else if c.y > start.y {
        let p = Coords { x: c.x, y: (c.y - 2) as usize };
        lemma_aligned_near(c.y, p.y, start.y);
        lemma_covered(map, start, p);
        assert(settled(map, p));
        assert(arrived(map, p, 0, 2));
        assert(map.offset(p, 0, 2) == Some(c));
    } else if c.y < start.y {
        let p = Coords { x: c.x, y: (c.y + 2) as usize };
        lemma_aligned_near(c.y, p.y, start.y);
        lemma_covered(map, start, p);
        assert(settled(map, p));
        assert(arrived(map, p, 0, -2));
        assert(map.offset(p, 0, -2) == Some(c));
    }
}

/// A grid of walls with `start` opened holds the tree of one room.
proof fn lemma_seed(origin: Grid, map: Grid, start: Coords)
    requires
        origin.wf(),
        origin.all_walls(),
        origin.contains(start),
        map@ == origin.put(start, Cell::Open),
    ensures
        tree_inv(map, start, seq![start]),
        open_links(map, start).len() == 0,
        forall|c: Coords| #[trigger] map.passable(c) ==> c == start,
{
    lemma_put(origin, map, start, Cell::Open);
    lemma_aligned_near(start.x, start.x, start.x);
    lemma_aligned_near(start.y, start.y, start.y);
    assert(map.contains(start) == origin.contains(start));
    assert(map.cell(start) == Cell::Open);
    let stack = seq![start];
    assert(stack[0] == start);
    assert forall|c: Coords| #[trigger] map.contains(c) implies map.cell(c) == Cell::Wall
        || map.cell(c) == Cell::Open by {
        assert(origin.contains(c));
        assert(map.cell(c) == if c == start {
            Cell::Open
        } else {
            origin.cell(c)
        });
    }
    assert forall|c: Coords| map.passable(c) implies c == start by {
        assert(map.contains(c) == origin.contains(c));
        assert(map.cell(c) == if c == start {
            Cell::Open
        } else {
            origin.cell(c)
        });
    }
    assert(map.joins(seq![start], start, start));
    assert(open_rooms(map, start) =~= Set::empty().insert(start));
    assert(open_links(map, start) =~= Set::empty());
}

/// When the stack is empty the tree spans every room.
proof fn lemma_finish(map: Grid, start: Coords, t: Rooting)
    requires
        tree_inv(map, start, Seq::empty()),
        rooted(map, start, t),
    ensures
        perfect(map, start),
{
    lemma_single_walks(map, start, t);
    let none = Seq::<Coords>::empty();
    assert forall|r: Coords| map.passable(r) && is_room(start, r) implies #[trigger] settled(
        map,
        r,
    ) by {
        assert(!none.contains(r));
    }
    assert forall|c: Coords| #[trigger] map.contains(c) && is_room(start, c) implies map.passable(
        c,
    ) by {
        lemma_covered(map, start, c);
    }
    assert forall|c: Coords| #[trigger] map.passable(c) implies is_room(start, c) || is_link(
        start,
        c,
    ) by {
        assert(sound_cell(map, start, c));
    }
    assert forall|c: Coords| map.passable(c) && is_link(start, c) implies #[trigger] link_joined(
        map,
        start,
        c,
    ) by {
        assert(sound_cell(map, start, c));
    }
    assert forall|c: Coords| map.passable(c) implies #[trigger] map.connected(start, c) by {
        assert(sound_cell(map, start, c));
    }
}

/// A move keeps the frame, and the room it opens had no number in `seen`.
proof fn lemma_frame_move(
    origin: Grid,
    old_map: Grid,
    new_map: Grid,
    start: Coords,
    stack: Seq<Coords>,
    seen: Set<int>,
    mid: Coords,
    nxt: Coords,
)
    requires
        frame_inv(origin, old_map, start, stack, seen),
        old_map.contains(mid),
        old_map.contains(nxt),
        old_map.cell(mid) == Cell::Wall,
        old_map.cell(nxt) == Cell::Wall,
        old_map.contains(start),
        old_map.cell(start) == Cell::Open,
        new_map@ == dug(old_map@, mid, nxt),
    ensures
        new_map.contains(start),
        frame_inv(origin, new_map, start, stack.push(nxt), seen.insert(flat(nxt, old_map.cols()))),
        new_map.cell(start) == Cell::Open,
        !seen.contains(flat(nxt, old_map.cols())),
        seen.len() < old_map.rows() * old_map.cols(),
{
    let cols = old_map.cols();
    let grown = stack.push(nxt);
    let seen2 = seen.insert(flat(nxt, cols));
    lemma_dug(old_map, new_map, mid, nxt);
    lemma_flat_range(nxt, old_map.rows(), cols);
    assert(!seen.contains(flat(nxt, cols)));
    lemma_room(seen2, old_map.rows() * cols);
    assert forall|c: Coords| #[trigger] new_map.contains(c) implies kept(
        origin,
        new_map,
        start,
        c,
    ) by {
        assert(old_map.contains(c));
        assert(kept(origin, old_map, start, c));
        assert(new_map.cell(c) == if c == mid || c == nxt {
            Cell::Open
        } else {
            old_map.cell(c)
        });
    }
    assert forall|i: int| 0 <= i < grown.len() implies new_map.contains(#[trigger] grown[i]) by {
        if i < stack.len() {
            assert(grown[i] == stack[i]);
            assert(old_map.contains(stack[i]));
        }
        assert(new_map.contains(grown[i]) == old_map.contains(grown[i]));
    }
    assert forall|c: Coords|
        #![trigger seen2.contains(flat(c, new_map.cols()))]
        new_map.contains(c) && seen2.contains(flat(c, new_map.cols())) implies new_map.passable(
        c,
    ) by {
        assert(old_map.contains(c));
        if c != nxt {
            if flat(c, cols) == flat(nxt, cols) {
                lemma_flat_injective(c, nxt, cols);
            }
            assert(seen.contains(flat(c, cols)));
            assert(old_map.passable(c));
        }
    }
    assert(new_map.contains(start) == old_map.contains(start));
    assert(new_map.cell(start) == if start == mid || start == nxt {
        Cell::Open
    } else {
        old_map.cell(start)
    });
}

/// Carves a maze into the grid, starting from `start`, by randomized
/// depth-first search: from the room on top of the stack it makes one of the
/// moves that are open, chosen by `rng`, and steps back when there is none.
///
/// Whatever the grid held, its shape stays and only walls change, to open
/// cells; `start` is open afterwards. On a grid that was all walls the result
/// is a perfect maze: every room is open, and the open rooms and links form a
/// spanning tree, connected and with one link fewer than rooms. The result
/// counts the moves made: on a grid that was all walls each move has opened one
/// link and one room, so there are as many open links as moves and one open
/// room more.
pub fn carve_maze(map: &mut Grid, start: Coords, rng: &mut StdRng) -> (moves: Ghost<nat>)
    requires
        old(map).wf(),
        old(map).contains(start),
    ensures
        final(map).wf(),
        final(map).rows() == old(map).rows(),
        final(map).cols() == old(map).cols(),
        forall|c: Coords| #[trigger]
            final(map).contains(c) ==> kept(*old(map), *final(map), start, c),
        final(map).cell(start) == Cell::Open,
        old(map).all_walls() ==> perfect(*final(map), start),
        old(map).all_walls() ==> open_links(*final(map), start).len() == moves@,
        old(map).all_walls() ==> open_rooms(*final(map), start).len() == moves@ + 1,
{
    let ghost origin = *map;
    let ghost pristine = origin.all_walls();
    let mut stack: Vec<Coords> = Vec::new();
    stack.push(start);
    open(map, start);
    let ghost mut seen: Set<int> = Set::empty();
    let ghost mut moves: nat = 0;
    let ghost mut t = Rooting { up: Map::empty(), depth: Map::empty().insert(start, 0int) };
    proof {
        lemma_put(origin, *map, start, Cell::Open);
        if pristine {
            lemma_seed(origin, *map, start);
            assert(stack@ =~= seq![start]);
            assert(rooted(*map, start, t));
        }
        assert forall|c: Coords| #[trigger] map.contains(c) implies kept(
            origin,
            *map,
            start,
            c,
        ) by {
            assert(origin.contains(c) == map.contains(c));
            assert(map.cell(c) == if c == start {
                Cell::Open
            } else {
                origin.cell(c)
            });
        }
        assert(map.contains(start) == origin.contains(start));
        assert(map.cell(start) == Cell::Open);
        assert(stack@[0] == start);
    }
    loop
        invariant
            frame_inv(origin, *map, start, stack@, seen),
            pristine ==> tree_inv(*map, start, stack@),
            pristine ==> open_links(*map, start).len() == moves,
            pristine ==> rooted(*map, start, t),
            map.contains(start),
            map.cell(start) == Cell::Open,
        ensures
            stack@.len() == 0,
        decreases map.rows() * map.cols() - seen.len(), stack@.len(),
    {
        let ghost before = stack@;
        let cur = match stack.pop() {
            Some(c) => c,
            None => {
                break ;
            },
        };
        let candidates = moves_from(map, cur);
        if candidates.len() == 0 {
            proof {
                if pristine {
                    lemma_dead_end(*map, start, before);
                }
                assert forall|i: int| 0 <= i < stack@.len() implies map.contains(
                    #[trigger] stack@[i],
                ) by {
                    assert(stack@[i] == before[i]);
                }
                lemma_room(seen, map.rows() * map.cols());
            }
            continue ;
        }
        let idx = draw_below(rng, candidates.len());
        let (mid, nxt) = candidates[idx];
        let ghost prev = *map;
        let ghost k = lemma_openings_sound(prev, cur, 4, idx as int);
        dig(map, &mut stack, cur, mid, nxt);
        proof {
            assert(stack@ =~= before.push(nxt));
            lemma_frame_move(origin, prev, *map, start, before, seen, mid, nxt);
            if pristine {
                lemma_move(prev, *map, start, before, k, mid, nxt);
                lemma_hang(prev, *map, start, before, k, mid, nxt, t);
                t = grown(t, cur, mid, nxt);
            }
            seen = seen.insert(flat(nxt, map.cols()));
            moves = moves + 1;
        }
    }
    proof {
        if pristine {
            assert(stack@ =~= Seq::empty());
            lemma_finish(*map, start, t);
        }
    }
    Ghost(moves)
}

/// In a perfect maze any two open cells are joined by a walk, so a search for
/// a path between them never comes back empty.
pub proof fn lemma_perfect_connected(map: Grid, start: Coords, a: Coords, b: Coords)
    requires
        perfect(map, start),
        map.passable(a),
        map.passable(b),
    ensures
        map.connected(a, b),
{
    assert(map.connected(start, a));
    assert(map.connected(start, b));
    let to_a = choose|w: Seq<Coords>| map.joins(w, start, a);
    let to_b = choose|w: Seq<Coords>| map.joins(w, start, b);
    lemma_walk_reverse(map, to_a, start, a);
    lemma_walk_chain(map, to_a.reverse(), to_b, a, start, b);
    assert(map.joins(to_a.reverse().drop_last() + to_b, a, b));
}

/// Two numbers aligned with a third have the same parity.
proof fn lemma_aligned_same(a: usize, b: usize, s: usize)
    requires
        aligned(a, s),
        aligned(b, s),
    ensures
        a % 2 == b % 2,
{
    reveal(aligned);
}

/// Where `k` steps lead between two cells that agree in the parity of both
/// coordinates, `k` is even.
proof fn lemma_even_steps(k: int, ax: int, ay: int, bx: int, by: int)
    requires
        (k + ax + ay) % 2 == (bx + by) % 2,
        ax % 2 == bx % 2,
        ay % 2 == by % 2,
    ensures
        k % 2 == 0,
{
}

/// A walk between two rooms of a maze has an odd number of cells: it takes an
/// even number of steps.
pub proof fn lemma_room_walk_odd(map: Grid, start: Coords, w: Seq<Coords>, a: Coords, b: Coords)
    requires
        map.joins(w, a, b),
        is_room(start, a),
        is_room(start, b),
    ensures
        w.len() % 2 == 1,
{
    let k = w.len() - 1;
    lemma_walk_parity(map, w, k);
    lemma_aligned_same(a.x, b.x, start.x);
    lemma_aligned_same(a.y, b.y, start.y);
    lemma_even_steps(k, a.x as int, a.y as int, b.x as int, b.y as int);
}

/// Opening further cells of a perfect maze, such as an entrance and an exit in
/// its border, keeps any two of its open cells joined.
pub proof fn lemma_opened_stays_connected(maze: Grid, map: Grid, start: Coords, a: Coords, b: Coords)
    requires
        perfect(maze, start),
        forall|c: Coords| maze.passable(c) ==> #[trigger] map.passable(c),
        maze.passable(a),
        maze.passable(b),
    ensures
        map.connected(a, b),
{
    lemma_perfect_connected(maze, start, a, b);
    let w = choose|w: Seq<Coords>| maze.joins(w, a, b);
    lemma_walk_keeps(maze, map, w);
    assert(map.joins(w, a, b));
}

/// In a perfect maze the shortest walk between two cells is the only one: a
/// search for it can return no other, whatever order it tries the directions
/// in.
pub proof fn lemma_solution_unique(
    map: Grid,
    start: Coords,
    p: Seq<Coords>,
    q: Seq<Coords>,
    s: Coords,
    g: Coords,
)
    requires
        perfect(map, start),
        is_shortest(map, p, s, g),
        is_shortest(map, q, s, g),
    ensures
        p == q,
{
    lemma_shortest_simple(map, p, s, g);
    lemma_shortest_simple(map, q, s, g);
    assert(map.joins(p, s, g) && map.joins(q, s, g));
}

} // verus!
