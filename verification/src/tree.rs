//! Grids whose open cells form a tree: each open cell but the root hangs from
//! a neighbour nearer to the root, and open cells touch nowhere else. In such
//! a grid two cells are joined by one walk only that visits no cell twice.

use vstd::prelude::*;
use crate::coords::{adjacent, Coords};
use crate::grid::Grid;

verus! {

/// The walk visits no cell twice.
pub open spec fn simple(w: Seq<Coords>) -> bool {
    forall|i: int, j: int| 0 <= i < j < w.len() ==> w[i] != w[j]
}

/// Any two cells are joined by at most one walk that visits no cell twice.
pub open spec fn single_walks(map: Grid) -> bool {
    forall|v: Seq<Coords>, w: Seq<Coords>, a: Coords, b: Coords|
        #![trigger map.joins(v, a, b), map.joins(w, a, b)]
        map.joins(v, a, b) && simple(v) && map.joins(w, a, b) && simple(w) ==> v == w
}

/// How the open cells of a grid hang together as a tree.
pub struct Rooting {
    /// For each open cell but the root, the neighbour it hangs from.
    pub up: Map<Coords, Coords>,
    /// For each open cell, the number of steps up to the root.
    pub depth: Map<Coords, int>,
}

/// The cell `c` hangs from an open neighbour one step nearer to the root.
pub open spec fn hangs(t: Rooting, c: Coords) -> bool {
    &&& t.up.dom().contains(c)
    &&& t.depth.dom().contains(t.up[c])
    &&& adjacent(c, t.up[c])
    &&& t.depth[t.up[c]] == t.depth[c] - 1
}

/// One of the two cells hangs from the other.
pub open spec fn tied(t: Rooting, root: Coords, u: Coords, v: Coords) -> bool {
    ||| (u != root && t.up[u] == v)
    ||| (v != root && t.up[v] == u)
}

/// `t` describes the open cells of `map` as a tree that hangs from `root`:
/// every open cell has a depth, the root alone has none to hang from, and two
/// open cells are adjacent only where one hangs from the other.
pub open spec fn rooted(map: Grid, root: Coords, t: Rooting) -> bool {
    &&& map.passable(root)
    &&& t.depth.dom().contains(root)
    &&& t.depth[root] == 0
    &&& forall|c: Coords| map.passable(c) ==> #[trigger] t.depth.dom().contains(c)
    &&& forall|c: Coords| #[trigger] t.depth.dom().contains(c) ==> map.passable(c) && t.depth[c] >= 0
    &&& forall|c: Coords| t.depth.dom().contains(c) && c != root ==> #[trigger] hangs(t, c)
    &&& forall|u: Coords, v: Coords|
        map.passable(u) && map.passable(v) && #[trigger] adjacent(u, v) ==> tied(t, root, u, v)
}

/// Along a walk each step goes one level down the tree, to a cell that hangs
/// from the one before, or one level up, to the cell that the one before
/// hangs from.
proof fn lemma_step(map: Grid, root: Coords, t: Rooting, w: Seq<Coords>, i: int)
    requires
        rooted(map, root, t),
        map.is_walk(w),
        0 <= i < w.len() - 1,
    ensures
        t.depth.dom().contains(w[i]),
        t.depth.dom().contains(w[i + 1]),
        (t.depth[w[i + 1]] == t.depth[w[i]] + 1 && w[i + 1] != root && t.up[w[i + 1]] == w[i]) || (
        t.depth[w[i + 1]] == t.depth[w[i]] - 1 && w[i] != root && t.up[w[i]] == w[i + 1]),
{
    let u = w[i];
    let v = w[i + 1];
    assert(map.passable(u));
    assert(map.passable(v));
    assert(adjacent(u, v));
    assert(tied(t, root, u, v));
    assert(t.depth.dom().contains(u));
    assert(t.depth.dom().contains(v));
    if u != root && t.up[u] == v {
        assert(hangs(t, u));
    } else {
        assert(hangs(t, v));
    }
}

/// Once a walk that visits no cell twice has gone down a level, it goes down
/// with every further step.
proof fn lemma_sinks(map: Grid, root: Coords, t: Rooting, w: Seq<Coords>, i: int, j: int)
    requires
        rooted(map, root, t),
        map.is_walk(w),
        simple(w),
        0 <= i < w.len() - 1,
        t.depth[w[i + 1]] == t.depth[w[i]] + 1,
        i < j < w.len(),
    ensures
        t.depth[w[j]] == t.depth[w[i]] + (j - i),
        t.depth[w[j]] == t.depth[w[j - 1]] + 1,
    decreases j,
{
    if j > i + 1 {
        lemma_sinks(map, root, t, w, i, j - 1);
        lemma_step(map, root, t, w, j - 2);
        lemma_step(map, root, t, w, j - 1);
        if t.depth[w[j]] == t.depth[w[j - 1]] - 1 {
            assert(t.up[w[j - 1]] == w[j]);
            assert(t.up[w[j - 1]] == w[j - 2]);
            assert(w[j - 2] != w[j]);
        }
    }
}

/// Before a walk that visits no cell twice goes up a level, it has gone up
/// with every step.
proof fn lemma_rises(map: Grid, root: Coords, t: Rooting, w: Seq<Coords>, i: int, j: int)
    requires
        rooted(map, root, t),
        map.is_walk(w),
        simple(w),
        1 <= i < w.len(),
        t.depth[w[i]] == t.depth[w[i - 1]] - 1,
        0 <= j < i,
    ensures
        t.depth[w[j]] == t.depth[w[i]] + (i - j),
        t.depth[w[j + 1]] == t.depth[w[j]] - 1,
    decreases i - j,
{
    if j < i - 1 {
        lemma_rises(map, root, t, w, i, j + 1);
        lemma_step(map, root, t, w, j);
        lemma_step(map, root, t, w, j + 1);
        if t.depth[w[j + 1]] == t.depth[w[j]] + 1 {
            assert(t.up[w[j + 1]] == w[j]);
            assert(t.up[w[j + 1]] == w[j + 2]);
            assert(w[j] != w[j + 2]);
        }
    }
}

/// A walk without its first cell is a walk from its second cell.
proof fn lemma_tail(map: Grid, w: Seq<Coords>, a: Coords, b: Coords)
    requires
        map.joins(w, a, b),
        simple(w),
        w.len() >= 2,
    ensures
        map.joins(w.subrange(1, w.len() as int), w[1], b),
        simple(w.subrange(1, w.len() as int)),
{
    let r = w.subrange(1, w.len() as int);
    assert forall|i: int| 0 <= i < r.len() implies map.passable(#[trigger] r[i]) by {
        assert(r[i] == w[i + 1]);
    }
    assert forall|i: int| 0 <= i < r.len() - 1 implies adjacent(#[trigger] r[i], r[i + 1]) by {
        assert(r[i] == w[i + 1]);
        assert(r[i + 1] == w[i + 1 + 1]);
        assert(adjacent(w[i + 1], w[i + 1 + 1]));
    }
    assert forall|i: int, j: int| 0 <= i < j < r.len() implies r[i] != r[j] by {
        assert(w[i + 1] != w[j + 1]);
    }
}

/// A walk without its last cell is a walk to the cell before the last.
proof fn lemma_front(map: Grid, w: Seq<Coords>, a: Coords, b: Coords)
    requires
        map.joins(w, a, b),
        simple(w),
        w.len() >= 2,
    ensures
        map.joins(w.drop_last(), a, w[w.len() - 2]),
        simple(w.drop_last()),
{
    let r = w.drop_last();
    assert forall|i: int| 0 <= i < r.len() implies map.passable(#[trigger] r[i]) by {
        assert(r[i] == w[i]);
    }
    assert forall|i: int| 0 <= i < r.len() - 1 implies adjacent(#[trigger] r[i], r[i + 1]) by {
        assert(r[i] == w[i]);
        assert(r[i + 1] == w[i + 1]);
    }
    assert forall|i: int, j: int| 0 <= i < j < r.len() implies r[i] != r[j] by {
        assert(w[i] != w[j]);
    }
}

/// In a tree, two walks between the same cells that visit no cell twice are
/// the same walk.
pub proof fn lemma_one_walk(
    map: Grid,
    root: Coords,
    t: Rooting,
    v: Seq<Coords>,
    w: Seq<Coords>,
    a: Coords,
    b: Coords,
)
    requires
        rooted(map, root, t),
        map.joins(v, a, b),
        simple(v),
        map.joins(w, a, b),
        simple(w),
    ensures
        v == w,
    decreases v.len() + w.len(),
{
    if a == b {
        assert(v.len() == 1) by {
            if v.len() > 1 {
                assert(v[0] != v[v.len() - 1]);
            }
        }
        assert(w.len() == 1) by {
            if w.len() > 1 {
                assert(w[0] != w[w.len() - 1]);
            }
        }
        assert(v =~= w);
    } else {
        assert(v.len() >= 2);
        assert(w.len() >= 2);
        assert(map.passable(v[0]));
        assert(map.passable(v[v.len() - 1]));
        assert(t.depth.dom().contains(a));
        assert(t.depth.dom().contains(b));
        if t.depth[a] >= t.depth[b] {
            lemma_step(map, root, t, v, 0);
            if t.depth[v[1]] == t.depth[v[0]] + 1 {
                lemma_sinks(map, root, t, v, 0, v.len() - 1);
            }
            lemma_step(map, root, t, w, 0);
            if t.depth[w[1]] == t.depth[w[0]] + 1 {
                lemma_sinks(map, root, t, w, 0, w.len() - 1);
            }
            assert(v[1] == t.up[a]);
            assert(w[1] == t.up[a]);
            lemma_tail(map, v, a, b);
            lemma_tail(map, w, a, b);
            let v2 = v.subrange(1, v.len() as int);
            let w2 = w.subrange(1, w.len() as int);
            lemma_one_walk(map, root, t, v2, w2, t.up[a], b);
            assert(v =~= seq![a] + v2);
            assert(w =~= seq![a] + w2);
        } else {
            let m = v.len() - 1;
            let n = w.len() - 1;
            lemma_step(map, root, t, v, m - 1);
            if t.depth[v[m]] == t.depth[v[m - 1]] - 1 {
                lemma_rises(map, root, t, v, m, 0);
            }
            lemma_step(map, root, t, w, n - 1);
            if t.depth[w[n]] == t.depth[w[n - 1]] - 1 {
                lemma_rises(map, root, t, w, n, 0);
            }
            assert(v[m - 1] == t.up[b]);
            assert(w[n - 1] == t.up[b]);
            lemma_front(map, v, a, b);
            lemma_front(map, w, a, b);
            let v2 = v.drop_last();
            let w2 = w.drop_last();
            lemma_one_walk(map, root, t, v2, w2, a, t.up[b]);
            assert(v =~= v2.push(b));
            assert(w =~= w2.push(b));
        }
    }
}

/// A grid whose open cells form a tree joins any two cells by at most one walk
/// that visits no cell twice.
pub proof fn lemma_single_walks(map: Grid, root: Coords, t: Rooting)
    requires
        rooted(map, root, t),
    ensures
        single_walks(map),
{
    assert forall|v: Seq<Coords>, w: Seq<Coords>, a: Coords, b: Coords|
        #![trigger map.joins(v, a, b), map.joins(w, a, b)]
        map.joins(v, a, b) && simple(v) && map.joins(w, a, b) && simple(w) implies v == w by {
        lemma_one_walk(map, root, t, v, w, a, b);
    }
}

} // verus!
