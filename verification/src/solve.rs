//! Shortest paths through a grid by breadth-first search.

use std::collections::VecDeque;
use vstd::prelude::*;
use crate::cells::{flat, lemma_flat_injective, lemma_flat_range, lemma_room};
use crate::coords::{adjacent, Coords};
use crate::grid::{in_bounds, is_open, try_offset, Grid};
use crate::tree::simple;

verus! {

/// The table of predecessors: one slot per cell, empty until the search
/// reaches the cell.
type Parents = Vec<Vec<Option<Coords>>>;

/// The slot of the cell `c`.
spec fn slot(tbl: Parents, c: Coords) -> Option<Coords> {
    tbl@[c.y as int]@[c.x as int]
}

/// What a search knows, beyond its table and queue, while it runs.
struct Search {
    /// The cells reached so far, in the order in which they were reached.
    order: Seq<Coords>,
    /// For each of them, the number of steps from the source.
    dist: Seq<int>,
    /// For each of them, its place in `order`.
    rank: Map<Coords, int>,
    /// How many cells of `order`, from the front, have been expanded.
    done: int,
    /// The row-major numbers of the cells reached.
    seen: Set<int>,
}

impl Search {
    /// The search after it has reached `c` from the cell it is expanding.
    spec fn reach(self, c: Coords, cols: int) -> Search {
        Search {
            order: self.order.push(c),
            dist: self.dist.push(self.dist[self.done] + 1),
            rank: self.rank.insert(c, self.order.len() as int),
            done: self.done,
            seen: self.seen.insert(flat(c, cols)),
        }
    }

    /// The search after it has expanded one more cell.
    spec fn advance(self) -> Search {
        Search { done: self.done + 1, ..self }
    }

    /// `c` was reached, at most `bound` steps from the source.
    spec fn within(self, c: Coords, bound: int) -> bool {
        self.rank.dom().contains(c) && self.dist[self.rank[c]] <= bound
    }
}

/// The `i`-th cell reached has its predecessor in the table: a cell reached
/// earlier, adjacent to it and one step nearer to the source.
spec fn linked(tbl: Parents, st: Search, i: int) -> bool {
    let c = st.order[i];
    let p = slot(tbl, c).unwrap();
    &&& st.rank.dom().contains(p)
    &&& st.rank[p] < i
    &&& adjacent(p, c)
    &&& st.dist[i] == st.dist[st.rank[p]] + 1
}

/// Every passable neighbour of the `i`-th cell reached has been reached too,
/// at most one step further from the source.
spec fn closed_at(map: Grid, st: Search, i: int) -> bool {
    forall|c: Coords|
        map.passable(c) && #[trigger] adjacent(st.order[i], c) ==> st.within(c, st.dist[i] + 1)
}

/// The neighbour of the cell being expanded in direction `(dx, dy)`, if it is
/// passable, has been reached.
spec fn handled(map: Grid, st: Search, dx: int, dy: int) -> bool {
    match map.offset(st.order[st.done], dx, dy) {
        Some(c) => map.passable(c) ==> st.within(c, st.dist[st.done] + 1),
        None => true,
    }
}

/// The invariant of the search from `s`.
spec fn inv(map: Grid, s: Coords, tbl: Parents, st: Search) -> bool {
    &&& map.wf()
    &&& tbl@.len() == map.rows()
    &&& forall|y: int| 0 <= y < tbl@.len() ==> (#[trigger] tbl@[y])@.len() == map.cols()
    &&& st.order.len() == st.dist.len()
    &&& st.order.len() >= 1
    &&& st.order[0] == s
    &&& st.dist[0] == 0
    &&& slot(tbl, s) == Some(s)
    &&& 0 <= st.done <= st.order.len()
    &&& forall|i: int|
        0 <= i < st.order.len() ==> {
            let c = #[trigger] st.order[i];
            &&& map.passable(c)
            &&& st.rank.dom().contains(c)
            &&& st.rank[c] == i
        }
    &&& forall|c: Coords|
        map.contains(c) ==> (slot(tbl, c) is Some <==> #[trigger] st.rank.dom().contains(c))
    &&& forall|c: Coords| #[trigger]
        st.rank.dom().contains(c) ==> 0 <= st.rank[c] < st.order.len() && st.order[st.rank[c]]
            == c
    &&& forall|i: int| 0 < i < st.order.len() ==> #[trigger] linked(tbl, st, i)
    &&& forall|i: int, j: int|
        #![trigger st.dist[i], st.dist[j]]
        0 <= i <= j < st.order.len() ==> st.dist[i] <= st.dist[j]
    &&& st.done < st.order.len() ==> st.dist[st.order.len() - 1] <= st.dist[st.done] + 1
    &&& forall|i: int| 0 <= i < st.done ==> #[trigger] closed_at(map, st, i)
    &&& st.seen.finite()
    &&& st.seen.len() == st.order.len()
    &&& forall|k: int| st.seen.contains(k) ==> 0 <= k < map.rows() * map.cols()
    &&& forall|c: Coords|
        #![trigger st.seen.contains(flat(c, map.cols()))]
        map.contains(c) ==> (st.rank.dom().contains(c) <==> st.seen.contains(flat(c, map.cols())))
}

/// The search never holds more cells than the grid has.
proof fn lemma_bounded(map: Grid, s: Coords, tbl: Parents, st: Search)
    requires
        inv(map, s, tbl, st),
    ensures
        st.order.len() <= map.rows() * map.cols(),
{
    let r = map.rows();
    let c = map.cols();
    assert(0 <= r * c) by (nonlinear_arith)
        requires
            0 <= r,
            0 <= c,
    ;
    lemma_room(st.seen, r * c);
}

/// Reaching a fresh passable neighbour of the cell being expanded keeps the
/// invariant, and nothing reached before is lost.
proof fn lemma_reach(map: Grid, s: Coords, tbl: Parents, tbl2: Parents, st: Search, nxt: Coords)
    requires
        inv(map, s, tbl, st),
        st.done < st.order.len(),
        map.passable(nxt),
        slot(tbl, nxt) is None,
        adjacent(st.order[st.done], nxt),
        tbl2@.len() == tbl@.len(),
        forall|y: int| 0 <= y < tbl@.len() ==> (#[trigger] tbl2@[y])@.len() == map.cols(),
        forall|c: Coords|
            map.contains(c) ==> #[trigger] slot(tbl2, c) == if c == nxt {
                Some(st.order[st.done])
            } else {
                slot(tbl, c)
            },
    ensures
        inv(map, s, tbl2, st.reach(nxt, map.cols())),
        st.reach(nxt, map.cols()).within(nxt, st.dist[st.done] + 1),
        forall|c: Coords, b: int| st.within(c, b) ==> st.reach(nxt, map.cols()).within(c, b),
{
    let st2 = st.reach(nxt, map.cols());
    let n = st.order.len() as int;
    let cols = map.cols();
    assert(!st.rank.dom().contains(nxt));
    assert(!st.seen.contains(flat(nxt, cols)));
    lemma_flat_range(nxt, map.rows(), cols);
    assert forall|i: int| 0 <= i < st2.order.len() implies {
        let c = #[trigger] st2.order[i];
        &&& map.passable(c)
        &&& st2.rank.dom().contains(c)
        &&& st2.rank[c] == i
    } by {
        if i < n {
            assert(st2.order[i] == st.order[i]);
        }
    }
    assert forall|c: Coords| map.contains(c) implies (slot(tbl2, c) is Some
        <==> #[trigger] st2.rank.dom().contains(c)) by {
        assert(slot(tbl2, c) == if c == nxt {
            Some(st.order[st.done])
        } else {
            slot(tbl, c)
        });
        if c != nxt {
            assert(st.rank.dom().contains(c) == st2.rank.dom().contains(c));
        }
    }
    assert forall|i: int| 0 < i < st2.order.len() implies #[trigger] linked(tbl2, st2, i) by {
        let c = st2.order[i];
        if i < n {
            assert(c == st.order[i]);
            assert(linked(tbl, st, i));
            assert(slot(tbl2, c) == slot(tbl, c));
            let p = slot(tbl, c).unwrap();
            assert(st2.rank[p] == st.rank[p]);
        } else {
            assert(c == nxt);
            assert(slot(tbl2, nxt) == Some(st.order[st.done]));
            let p = st.order[st.done];
            assert(st2.rank[p] == st.done);
        }
    }
    assert forall|i: int, j: int|
        #![trigger st2.dist[i], st2.dist[j]]
        0 <= i <= j < st2.order.len() implies st2.dist[i] <= st2.dist[j] by {
        if j < n {
            assert(st.dist[i] <= st.dist[j]);
        } else if i < n {
            assert(st.dist[i] <= st.dist[n - 1]);
        }
    }
    assert forall|i: int| 0 <= i < st2.done implies #[trigger] closed_at(map, st2, i) by {
        assert(closed_at(map, st, i));
        assert forall|c: Coords|
            map.passable(c) && #[trigger] adjacent(st2.order[i], c) implies st2.within(
            c,
            st2.dist[i] + 1,
        ) by {
            assert(adjacent(st.order[i], c));
            assert(st.within(c, st.dist[i] + 1));
        }
    }
    assert forall|c: Coords|
        #![trigger st2.seen.contains(flat(c, map.cols()))]
        map.contains(c) implies (st2.rank.dom().contains(c) <==> st2.seen.contains(
        flat(c, map.cols()),
    )) by {
        if c != nxt {
            if flat(c, cols) == flat(nxt, cols) {
                lemma_flat_injective(c, nxt, cols);
            }
            assert(st.rank.dom().contains(c) <==> st.seen.contains(flat(c, cols)));
        }
    }
    assert(slot(tbl2, s) == Some(s)) by {
        assert(st.order[0] == s);
        assert(slot(tbl2, s) == if s == nxt {
            Some(st.order[st.done])
        } else {
            slot(tbl, s)
        });
    }
}

/// The four unit steps, in the order in which the search tries them.
spec fn step_of(k: int) -> (int, int) {
    if k == 0 {
        (-1, 0)
    } else if k == 1 {
        (1, 0)
    } else if k == 2 {
        (0, -1)
    } else {
        (0, 1)
    }
}

/// Once all four neighbours of the cell being expanded are handled, the cell
/// counts as expanded.
proof fn lemma_advance(map: Grid, s: Coords, tbl: Parents, st: Search)
    requires
        inv(map, s, tbl, st),
        st.done < st.order.len(),
        forall|k: int| 0 <= k < 4 ==> #[trigger] handled(map, st, step_of(k).0, step_of(k).1),
    ensures
        inv(map, s, tbl, st.advance()),
{
    let st2 = st.advance();
    let cur = st.order[st.done];
    assert(map.passable(cur));
    assert(handled(map, st, step_of(0).0, step_of(0).1));
    assert(handled(map, st, step_of(1).0, step_of(1).1));
    assert(handled(map, st, step_of(2).0, step_of(2).1));
    assert(handled(map, st, step_of(3).0, step_of(3).1));
    assert forall|i: int| 0 <= i < st2.done implies #[trigger] closed_at(map, st2, i) by {
        if i < st.done {
            assert(closed_at(map, st, i));
        } else {
            assert forall|c: Coords|
                map.passable(c) && #[trigger] adjacent(st2.order[i], c) implies st2.within(
                c,
                st2.dist[i] + 1,
            ) by {
                assert(map.offset(cur, -1, 0) == Some(c) || map.offset(cur, 1, 0) == Some(c)
                    || map.offset(cur, 0, -1) == Some(c) || map.offset(cur, 0, 1) == Some(c));
            }
        }
    }
    assert forall|i: int| 0 < i < st2.order.len() implies #[trigger] linked(tbl, st2, i) by {
        assert(linked(tbl, st, i));
    }
    if st2.done < st2.order.len() {
        assert(st.dist[st.done] <= st.dist[st2.done]);
    }
}

/// The `k`-th cell of any walk from the source has been reached within `k`
/// steps, as long as every cell that near to the source has been expanded.
proof fn lemma_walk_reached(map: Grid, s: Coords, tbl: Parents, st: Search, w: Seq<Coords>, k: int)
    requires
        inv(map, s, tbl, st),
        map.is_walk(w),
        w[0] == s,
        0 <= k < w.len(),
        st.done < st.order.len() ==> k <= st.dist[st.done],
    ensures
        st.within(w[k], k),
    decreases k,
{
    if k == 0 {
        assert(st.order[0] == s);
    } else {
        lemma_walk_reached(map, s, tbl, st, w, k - 1);
        let a = w[k - 1];
        let i = st.rank[a];
        assert(st.order[i] == a);
        if i >= st.done {
            assert(st.dist[st.done] <= st.dist[i]);
        }
        assert(closed_at(map, st, i));
        assert(map.passable(w[k]));
        assert(adjacent(w[k - 1], w[k - 1 + 1]));
        assert(adjacent(st.order[i], w[k]));
    }
}

/// What has been collected on the way back from `g`: passable cells, each
/// adjacent to the one before, ending next to `cur`.
spec fn trail(map: Grid, t: Seq<Coords>, g: Coords, cur: Coords) -> bool {
    &&& forall|j: int| 0 <= j < t.len() ==> map.passable(#[trigger] t[j])
    &&& forall|j: int| 0 <= j < t.len() - 1 ==> adjacent(t[j + 1], #[trigger] t[j])
    &&& t.len() > 0 ==> t[0] == g && adjacent(cur, t[t.len() - 1])
    &&& t.len() == 0 ==> cur == g
}

/// A table of `h` rows and `w` columns with every slot empty.
fn blank_table(h: usize, w: usize) -> (t: Parents)
    ensures
        t@.len() == h,
        forall|y: int| 0 <= y < h ==> (#[trigger] t@[y])@.len() == w,
        forall|y: int, x: int| 0 <= y < h && 0 <= x < w ==> #[trigger] t@[y]@[x] is None,
{
    let mut t: Parents = Vec::new();
    let mut y: usize = 0;
    while y < h
        invariant
            y <= h,
            t@.len() == y,
            forall|i: int| 0 <= i < y ==> (#[trigger] t@[i])@.len() == w,
            forall|i: int, j: int| 0 <= i < y && 0 <= j < w ==> #[trigger] t@[i]@[j] is None,
        decreases h - y,
    {
        let mut row: Vec<Option<Coords>> = Vec::new();
        let mut x: usize = 0;
        while x < w
            invariant
                x <= w,
                row@.len() == x,
                forall|j: int| 0 <= j < x ==> row@[j] is None,
            decreases w - x,
        {
            row.push(None);
            x += 1;
        }
        t.push(row);
        y += 1;
    }
    t
}

/// The cells of `v` in the opposite order.
fn reversed(v: &Vec<Coords>) -> (r: Vec<Coords>)
    ensures
        r@.len() == v@.len(),
        forall|i: int| 0 <= i < v@.len() ==> r@[i] == v@[v@.len() - 1 - i],
{
    let mut r: Vec<Coords> = Vec::new();
    let mut i: usize = v.len();
    while i > 0
        invariant
            i <= v@.len(),
            r@.len() == v@.len() - i,
            forall|j: int| 0 <= j < r@.len() ==> r@[j] == v@[v@.len() - 1 - j],
        decreases i,
    {
        i -= 1;
        r.push(v[i]);
    }
    r
}

/// `path` is a shortest walk from `s` to `g`: it joins them, and no walk that
/// joins them has fewer cells.
pub open spec fn is_shortest(map: Grid, path: Seq<Coords>, s: Coords, g: Coords) -> bool {
    &&& map.joins(path, s, g)
    &&& forall|w: Seq<Coords>| map.joins(w, s, g) ==> path.len() <= w.len()
}

/// All shortest walks between two cells have the same length: whichever of
/// them a search returns, the number of its steps is the distance.
pub proof fn lemma_shortest_length(map: Grid, p: Seq<Coords>, q: Seq<Coords>, s: Coords, g: Coords)
    requires
        is_shortest(map, p, s, g),
        is_shortest(map, q, s, g),
    ensures
        p.len() == q.len(),
{
}

/// A walk that visits a cell twice can be cut short: the part between the two
/// visits is left out.
pub proof fn lemma_shortcut(map: Grid, w: Seq<Coords>, s: Coords, g: Coords, i: int, j: int)
    requires
        map.joins(w, s, g),
        0 <= i < j < w.len(),
        w[i] == w[j],
    ensures
        map.joins(w.subrange(0, i + 1) + w.subrange(j + 1, w.len() as int), s, g),
        (w.subrange(0, i + 1) + w.subrange(j + 1, w.len() as int)).len() < w.len(),
{
    let n = w.len() as int;
    let u = w.subrange(0, i + 1) + w.subrange(j + 1, n);
    assert forall|k: int| 0 <= k < u.len() implies map.passable(#[trigger] u[k]) by {
        if k <= i {
            assert(u[k] == w[k]);
        } else {
            assert(u[k] == w[k - i + j]);
        }
    }
    assert forall|k: int| 0 <= k < u.len() - 1 implies adjacent(#[trigger] u[k], u[k + 1]) by {
        if k < i {
            assert(u[k] == w[k]);
            assert(u[k + 1] == w[k + 1]);
        } else if k == i {
            assert(u[k] == w[j]);
            assert(u[k + 1] == w[j + 1]);
            assert(adjacent(w[j], w[j + 1]));
        } else {
            assert(u[k] == w[k - i + j]);
            assert(u[k + 1] == w[k - i + j + 1]);
            assert(adjacent(w[k - i + j], w[k - i + j + 1]));
        }
    }
    assert(u[0] == w[0]);
    if j == n - 1 {
        assert(u[u.len() - 1] == w[i]);
    } else {
        assert(u[u.len() - 1] == w[n - 1]);
    }
}

/// A shortest walk visits no cell twice.
pub proof fn lemma_shortest_simple(map: Grid, p: Seq<Coords>, s: Coords, g: Coords)
    requires
        is_shortest(map, p, s, g),
    ensures
        simple(p),
{
    assert forall|i: int, j: int| 0 <= i < j < p.len() implies p[i] != p[j] by {
        if p[i] == p[j] {
            lemma_shortcut(map, p, s, g, i, j);
        }
    }
}

/// A shortest walk from `s` to `g` over passable cells, moving one unit step
/// at a time along one axis.
///
/// The result is a walk that starts at `s`, ends at `g` and is no longer than
/// any other such walk. There is none exactly when no walk joins the two
/// cells, which includes the cases where either lies outside the grid or is a
/// wall. Which of several shortest walks is returned is not fixed.
pub fn solve_bfs(map: &Grid, s: Coords, g: Coords) -> (r: Option<Vec<Coords>>)
    requires
        map.wf(),
    ensures
        match r {
            Some(path) => is_shortest(*map, path@, s, g),
            None => !map.connected(s, g),
        },
        !map.passable(s) || !map.passable(g) ==> r is None,
{
    if !in_bounds(map, s) || !in_bounds(map, g) {
        return None;
    }
    if !is_open(map, s) || !is_open(map, g) {
        return None;
    }
    let mut parent = blank_table(map.height(), map.width());
    let mut q: VecDeque<Coords> = VecDeque::new();
    q.push_back(s);
    parent[s.y][s.x] = Some(s);

    let ghost mut st = Search {
        order: seq![s],
        dist: seq![0int],
        rank: Map::empty().insert(s, 0int),
        done: 0,
        seen: Set::empty().insert(flat(s, map.cols())),
    };
    let ghost mut found = false;
    proof {
        lemma_flat_range(s, map.rows(), map.cols());
        assert forall|c: Coords|
            #![trigger st.seen.contains(flat(c, map.cols()))]
            map.contains(c) implies (st.rank.dom().contains(c) <==> st.seen.contains(
            flat(c, map.cols()),
        )) by {
            if flat(c, map.cols()) == flat(s, map.cols()) {
                lemma_flat_injective(c, s, map.cols());
            }
        }
        assert(q@ =~= st.order.subrange(0, 1));
    }

    let steps: [(isize, isize); 4] = [(-1, 0), (1, 0), (0, -1), (0, 1)];
    loop
        invariant_except_break
            q@ == st.order.subrange(st.done, st.order.len() as int),
            !found,
        invariant
            inv(*map, s, parent, st),
            forall|i: int| 0 <= i < st.done ==> st.order[i] != g,
            forall|k: int| 0 <= k < 4 ==> (#[trigger] steps[k]).0 == step_of(k).0 && steps[k].1 == step_of(k).1,
        ensures
            found ==> st.done < st.order.len() && st.order[st.done] == g,
            !found ==> st.done == st.order.len(),
        decreases map.rows() * map.cols() - st.done,
    {
        let cur = match q.pop_front() {
            Some(c) => c,
            None => {
                break ;
            },
        };
        assert(cur == st.order[st.done]);
        if cur == g {
            proof {
                found = true;
            }
            break ;
        }
        let ghost expanding = st.done;
        let mut k: usize = 0;
        while k < 4
            invariant
                k <= 4,
                inv(*map, s, parent, st),
                st.done == expanding,
                st.done < st.order.len(),
                st.order[st.done] == cur,
                cur != g,
                q@ == st.order.subrange(st.done + 1, st.order.len() as int),
                forall|i: int| 0 <= i < st.done ==> st.order[i] != g,
                forall|j: int| 0 <= j < 4 ==> (#[trigger] steps[j]).0 == step_of(j).0 && steps[j].1 == step_of(j).1,
                forall|j: int| 0 <= j < k ==> #[trigger] handled(*map, st, step_of(j).0, step_of(j).1),
            decreases 4 - k,
        {
            let (dx, dy) = steps[k];
            let ghost before = st;
            match try_offset(map, cur, dx, dy) {
                Some(nxt) => {
                    if parent[nxt.y][nxt.x].is_none() && is_open(map, nxt) {
                        let ghost old_parent = parent;
                        parent[nxt.y][nxt.x] = Some(cur);
                        q.push_back(nxt);
                        proof {
                            lemma_reach(*map, s, old_parent, parent, st, nxt);
                            st = st.reach(nxt, map.cols());
                            assert(q@ =~= st.order.subrange(st.done + 1, st.order.len() as int));
                        }
                    }
                },
                None => {},
            }
            proof {
                assert forall|j: int| 0 <= j < k + 1 implies #[trigger] handled(
                    *map,
                    st,
                    step_of(j).0,
                    step_of(j).1,
                ) by {
                    if j < k {
                        assert(handled(*map, before, step_of(j).0, step_of(j).1));
                        assert(st.order[st.done] == before.order[before.done]);
                        assert(st.dist[st.done] == before.dist[before.done]);
                        match map.offset(cur, step_of(j).0, step_of(j).1) {
                            Some(c) => {
                                if map.passable(c) {
                                    assert(before.within(c, before.dist[before.done] + 1));
                                    if st != before {
                                        assert(st.within(c, before.dist[before.done] + 1));
                                    }
                                }
                            },
                            None => {},
                        }
                    } else {
                        assert(steps[k as int].0 == step_of(j).0);
                        match map.offset(cur, dx as int, dy as int) {
                            Some(c) => {
                                if map.passable(c) {
                                    if st == before {
                                        assert(st.rank.dom().contains(c));
                                        let last = st.order.len() - 1;
                                        assert(st.dist[st.rank[c]] <= st.dist[last]);
                                    }
                                }
                            },
                            None => {},
                        }
                    }
                }
            }
            k += 1;
        }
        proof {
            lemma_advance(*map, s, parent, st);
            st = st.advance();
            lemma_bounded(*map, s, parent, st);
            assert(q@ =~= st.order.subrange(st.done, st.order.len() as int));
        }
    }

    if parent[g.y][g.x].is_none() {
        proof {
            assert(!st.rank.dom().contains(g));
            assert forall|w: Seq<Coords>| !map.joins(w, s, g) by {
                if map.joins(w, s, g) {
                    lemma_walk_reached(*map, s, parent, st, w, w.len() - 1);
                }
            }
        }
        return None;
    }
    proof {
        assert(st.rank.dom().contains(g));
        if !found {
            assert(st.order[st.rank[g]] == g);
        }
        assert(st.rank[g] == st.done);
    }

    let mut back: Vec<Coords> = Vec::new();
    let mut cur = g;
    while cur != s
        invariant
            inv(*map, s, parent, st),
            st.rank.dom().contains(cur),
            st.rank.dom().contains(g),
            trail(*map, back@, g, cur),
            back@.len() + st.dist[st.rank[cur]] == st.dist[st.rank[g]],
        decreases st.rank[cur],
    {
        proof {
            assert(st.order[st.rank[cur]] == cur);
            assert(linked(parent, st, st.rank[cur]));
        }
        back.push(cur);
        cur = parent[cur.y][cur.x].unwrap();
    }
    back.push(s);
    let path = reversed(&back);
    proof {
        assert(st.order[st.rank[s]] == s);
        assert(st.rank[s] == 0);
        let n = path@.len() as int;
        assert forall|i: int| 0 <= i < n implies map.passable(#[trigger] path@[i]) by {
            assert(path@[i] == back@[n - 1 - i]);
        }
        assert forall|i: int| 0 <= i < n - 1 implies adjacent(#[trigger] path@[i], path@[i + 1]) by {
            assert(path@[i] == back@[n - 1 - i]);
            assert(path@[i + 1] == back@[n - 2 - i]);
        }
        assert forall|w: Seq<Coords>| map.joins(w, s, g) implies path@.len() <= w.len() by {
            if w.len() < path@.len() {
                lemma_walk_reached(*map, s, parent, st, w, w.len() - 1);
            }
        }
    }
    Some(path)
}

} // verus!
