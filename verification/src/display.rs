//! Showing a maze: the markers of a solution laid over the grid, and the grid
//! as text.

use vstd::prelude::*;
use crate::coords::Coords;
use crate::grid::{lemma_put, Cell, Grid};

verus! {

/// The state of the cell `c` once the walk `path` from `start` to `goal` is
/// marked: the goal and the start get their markers, the goal first; an open
/// cell of the walk becomes a path cell; every other cell stays.
pub open spec fn marked(map: Grid, path: Seq<Coords>, start: Coords, goal: Coords, c: Coords) -> Cell {
    if c == goal {
        Cell::Goal
    } else if c == start {
        Cell::Start
    } else {
        trodden(map, path, c)
    }
}

/// The state of the cell `c` once the cells of `path` are marked: an open cell
/// of the walk becomes a path cell, every other cell stays.
pub open spec fn trodden(map: Grid, path: Seq<Coords>, c: Coords) -> Cell {
    if path.contains(c) && map.cell(c) == Cell::Open {
        Cell::Path
    } else {
        map.cell(c)
    }
}

/// Lays the markers of a solution over the grid: each open cell of `path`
/// becomes a path cell, then `start` and `goal` get their markers.
pub fn mark_path(map: &mut Grid, path: &Vec<Coords>, start: Coords, goal: Coords)
    requires
        old(map).wf(),
        old(map).contains(start),
        old(map).contains(goal),
        forall|i: int| 0 <= i < path@.len() ==> old(map).contains(#[trigger] path@[i]),
    ensures
        final(map).wf(),
        final(map).rows() == old(map).rows(),
        final(map).cols() == old(map).cols(),
        forall|c: Coords|
            old(map).contains(c) ==> #[trigger] final(map).cell(c) == marked(
                *old(map),
                path@,
                start,
                goal,
                c,
            ),
{
    let mut i: usize = 0;
    while i < path.len()
        invariant
            i <= path@.len(),
            map.wf(),
            map.rows() == old(map).rows(),
            map.cols() == old(map).cols(),
            forall|j: int| 0 <= j < path@.len() ==> old(map).contains(#[trigger] path@[j]),
            forall|c: Coords|
                old(map).contains(c) ==> #[trigger] map.cell(c) == trodden(
                    *old(map),
                    path@.take(i as int),
                    c,
                ),
        decreases path@.len() - i,
    {
        let p = path[i];
        let ghost before = *map;
        assert(old(map).contains(path@[i as int]));
        if map.get(p) == Cell::Open {
            map.set(p, Cell::Path);
        }
        proof {
            let done = path@.take(i as int);
            let more = path@.take(i + 1);
            assert(more[i as int] == p);
            if before.cell(p) == Cell::Open {
                lemma_put(before, *map, p, Cell::Path);
            }
            assert forall|c: Coords| old(map).contains(c) implies #[trigger] map.cell(c)
                == trodden(*old(map), more, c) by {
                assert(before.cell(c) == trodden(*old(map), done, c));
                assert(before.contains(c));
                if before.cell(p) == Cell::Open {
                    assert(map.cell(c) == if c == p {
                        Cell::Path
                    } else {
                        before.cell(c)
                    });
                }
                if done.contains(c) {
                    let j = choose|j: int| 0 <= j < done.len() && done[j] == c;
                    assert(more[j] == c);
                }
                if more.contains(c) && !done.contains(c) {
                    let j = choose|j: int| 0 <= j < more.len() && more[j] == c;
                    if j < i {
                        assert(done[j] == c);
                    }
                }
            }
        }
        i += 1;
    }
    assert(path@.take(i as int) =~= path@);
    let ghost walked = *map;
    map.set(start, Cell::Start);
    let ghost started = *map;
    map.set(goal, Cell::Goal);
    proof {
        lemma_put(walked, started, start, Cell::Start);
        lemma_put(started, *map, goal, Cell::Goal);
        assert forall|c: Coords| old(map).contains(c) implies #[trigger] map.cell(c) == marked(
            *old(map),
            path@,
            start,
            goal,
            c,
        ) by {
            assert(walked.contains(c));
            assert(started.contains(c) == walked.contains(c));
            assert(walked.cell(c) == trodden(*old(map), path@, c));
            assert(started.cell(c) == if c == start {
                Cell::Start
            } else {
                walked.cell(c)
            });
            assert(map.cell(c) == if c == goal {
                Cell::Goal
            } else {
                started.cell(c)
            });
        }
    }
}

/// The character that shows a cell.
pub open spec fn glyph_of(c: Cell) -> char {
    match c {
        Cell::Wall => '#',
        Cell::Open => ' ',
        Cell::Path => '·',
        Cell::Start => 'S',
        Cell::Goal => 'G',
    }
}

/// The character that shows a cell.
pub fn glyph(c: Cell) -> (g: char)
    ensures
        g == glyph_of(c),
{
    match c {
        Cell::Wall => '#',
        Cell::Open => ' ',
        Cell::Path => '·',
        Cell::Start => 'S',
        Cell::Goal => 'G',
    }
}

/// The characters of the first `n` cells of a row.
pub open spec fn row_text(row: Seq<Cell>, n: int) -> Seq<char> {
    Seq::new(n as nat, |i: int| glyph_of(row[i]))
}

/// The text of the first `k` rows: each row as its characters, followed by a
/// line feed.
pub open spec fn text(rows: Seq<Seq<Cell>>, k: int) -> Seq<char>
    decreases k,
{
    if k <= 0 {
        Seq::empty()
    } else {
        text(rows, k - 1) + row_text(rows[k - 1], rows[k - 1].len() as int).push('\n')
    }
}

/// The grid as text, one line per row.
pub fn render(map: &Grid) -> (out: Vec<char>)
    requires
        map.wf(),
    ensures
        out@ == text(map@, map.rows()),
{
    let height = map.height();
    let width = map.width();
    let mut out: Vec<char> = Vec::new();
    let mut y: usize = 0;
    while y < height
        invariant
            map.wf(),
            height == map.rows(),
            width == map.cols(),
            y <= height,
            out@ == text(map@, y as int),
        decreases height - y,
    {
        let ghost above = out@;
        let mut x: usize = 0;
        assert(map@[y as int].len() == map@[0].len());
        while x < width
            invariant
                map.wf(),
                height == map.rows(),
                width == map.cols(),
                y < height,
                x <= width,
                width == map@[y as int].len(),
                out@ == above + row_text(map@[y as int], x as int),
            decreases width - x,
        {
            let c = map.get(Coords { x, y });
            out.push(glyph(c));
            assert(out@ =~= above + row_text(map@[y as int], x + 1));
            x += 1;
        }
        out.push('\n');
        assert(out@ =~= above + row_text(map@[y as int], width as int).push('\n'));
        y += 1;
    }
    out
}

} // verus!
