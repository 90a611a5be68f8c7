//! Frontiers: where the known floor meets the unknown, and how to get
//! there. The planner's integer core: the costmap, the cheapest-path
//! search over it, the frontier cells and their groups. Cells are the
//! map grid's, numbered row-major.

use vstd::prelude::*;
use vstd::multiset::Multiset;

use crate::grid_index::{lemma_index_in_grid, lemma_row_of_index, lemma_split_index};
use crate::map::{Cell, Grid};
use crate::queue::{le, MinQueue};

verus! {

/// The cost a cell not reached by a search keeps.
pub const UNREACHED: u32 = 0xffff_ffff;

/// A traversability mask: where the body may plan to go, and at what
/// price. 0 is impassable.
#[derive(Debug, Clone)]
pub struct Costmap {
    pub rows: usize,
    pub cols: usize,
    pub cost: Vec<u32>,
}

impl Costmap {
    pub open spec fn wf(&self) -> bool {
        self.cost@.len() == self.rows * self.cols
    }

    /// The price of entering `(row, col)`, 0 off the map.
    pub open spec fn spec_at(&self, row: int, col: int) -> u32 {
        if 0 <= row < self.rows && 0 <= col < self.cols {
            self.cost@[row * self.cols + col]
        } else {
            0
        }
    }

    pub fn at(&self, row: usize, col: usize) -> (c: u32)
        requires
            self.wf(),
        ensures
            c == self.spec_at(row as int, col as int),
    {
        if row < self.rows && col < self.cols {
            let n = self.cost.len();
            proof {
                lemma_index_in_grid(row as int, col as int, self.rows as int, self.cols as int);
                assert(row * self.cols <= row * self.cols + col);
            }
            self.cost[row * self.cols + col]
        } else {
            0
        }
    }
}

/// The cell one step from `u` in direction `k` — up, down, left, right
/// for `k` = 0, 1, 2, 3 — or `None` off the grid.
pub open spec fn step_to(rows: int, cols: int, u: int, k: int) -> Option<int> {
    let r = u / cols;
    let c = u % cols;
    let rr = if k == 0 { r - 1 } else if k == 1 { r + 1 } else { r };
    let cc = if k == 2 { c - 1 } else if k == 3 { c + 1 } else { c };
    if 0 <= rr < rows && 0 <= cc < cols {
        Some(rr * cols + cc)
    } else {
        None
    }
}

/// A step stays on the grid.
pub proof fn lemma_step_in_grid(rows: int, cols: int, u: int, k: int)
    ensures
        match step_to(rows, cols, u, k) {
            Some(x) => 0 <= x < rows * cols,
            None => true,
        },
{
    let r = u / cols;
    let c = u % cols;
    let rr = if k == 0 { r - 1 } else if k == 1 { r + 1 } else { r };
    let cc = if k == 2 { c - 1 } else if k == 3 { c + 1 } else { c };
    if 0 <= rr < rows && 0 <= cc < cols {
        lemma_index_in_grid(rr, cc, rows, cols);
    }
}

/// `v` is one of the four cells next to `u`.
pub open spec fn adjacent(rows: int, cols: int, u: int, v: int) -> bool {
    exists|k: int| 0 <= k < 4 && #[trigger] step_to(rows, cols, u, k) == Some(v)
}

/// The cell one step from `u` in direction `k`.
pub fn neighbor(rows: usize, cols: usize, u: usize, k: usize) -> (v: Option<usize>)
    requires
        u < rows * cols,
        rows * cols <= usize::MAX,
        k < 4,
    ensures
        match v {
            Some(x) => step_to(rows as int, cols as int, u as int, k as int) == Some(x as int) && x < rows * cols
                && x != u,
            None => step_to(rows as int, cols as int, u as int, k as int) is None,
        },
{
    proof {
        lemma_row_of_index(u as int, rows as int, cols as int);
    }
    let row = u / cols;
    let col = u % cols;
    if k == 0 {
        if row > 0 {
            proof {
                lemma_index_in_grid((row - 1) as int, col as int, rows as int, cols as int);
                assert((row - 1) * cols <= (row - 1) * cols + col);
                lemma_split_index((row - 1) as int, col as int, cols as int);
            }
            Some((row - 1) * cols + col)
        } else {
            None
        }
    } else if k == 1 {
        if row + 1 < rows {
            proof {
                lemma_index_in_grid((row + 1) as int, col as int, rows as int, cols as int);
                assert((row + 1) * cols <= (row + 1) * cols + col);
                lemma_split_index((row + 1) as int, col as int, cols as int);
            }
            Some((row + 1) * cols + col)
        } else {
            None
        }
    } else if k == 2 {
        if col > 0 {
            proof {
                lemma_index_in_grid(row as int, (col - 1) as int, rows as int, cols as int);
                assert(row * cols <= row * cols + (col - 1));
                lemma_split_index(row as int, (col - 1) as int, cols as int);
            }
            Some(row * cols + (col - 1))
        } else {
            None
        }
    } else {
        if col + 1 < cols {
            proof {
                lemma_index_in_grid(row as int, (col + 1) as int, rows as int, cols as int);
                assert(row * cols <= row * cols + (col + 1));
                lemma_split_index(row as int, (col + 1) as int, cols as int);
            }
            Some(row * cols + (col + 1))
        } else {
            None
        }
    }
}

/// `p` walks from `start` one step at a time, every cell after the
/// first passable.
pub open spec fn is_path(rows: int, cols: int, cost: Seq<u32>, start: int, p: Seq<int>) -> bool {
    &&& p.len() >= 1
    &&& p[0] == start
    &&& forall|i: int| 0 <= i < p.len() - 1 ==> adjacent(rows, cols, #[trigger] p[i], p[i + 1])
    &&& forall|i: int| 1 <= i < p.len() ==> 0 <= #[trigger] p[i] < cost.len() && cost[p[i]] > 0
}

/// What walking `p` costs: the price of every cell entered.
pub open spec fn path_cost(cost: Seq<u32>, p: Seq<int>) -> int
    decreases p.len(),
{
    if p.len() <= 1 {
        0
    } else {
        path_cost(cost, p.drop_last()) + cost[p.last()]
    }
}

/// No step out of `u` is cheaper than what its neighbour already costs.
pub open spec fn relaxed(rows: int, cols: int, cost: Seq<u32>, dist: Seq<u32>, u: int) -> bool {
    forall|k: int|
        0 <= k < 4 ==> match #[trigger] step_to(rows, cols, u, k) {
            Some(v) => cost[v] > 0 && dist[u] + cost[v] < UNREACHED ==> dist[v] <= dist[u] + cost[v],
            None => true,
        }
}

/// What a finished search over `map` from `start` holds: `dist[v]` is
/// the cost of the way `parent` leads back from `v`, and no step out of
/// a reached cell is cheaper than what its neighbour costs.
pub open spec fn search_done(map: Costmap, start: int, dist: Seq<u32>, parent: Seq<usize>) -> bool {
    let n = map.rows * map.cols;
    &&& dist.len() == n
    &&& parent.len() == n
    &&& dist[start] == 0
    &&& forall|v: int|
        0 <= v < n && #[trigger] dist[v] < UNREACHED && v != start ==> {
            let p = parent[v] as int;
            &&& 0 <= p < n
            &&& adjacent(map.rows as int, map.cols as int, p, v)
            &&& map.cost@[v] > 0
            &&& dist[p] < UNREACHED
            &&& dist[v] == dist[p] + map.cost@[v]
        }
    &&& forall|u: int|
        0 <= u < n && #[trigger] dist[u] < UNREACHED ==> relaxed(
            map.rows as int,
            map.cols as int,
            map.cost@,
            dist,
            u,
        )
}

/// The sum of the tentative costs: what a search step lowers.
pub open spec fn sum_of(s: Seq<u32>) -> nat
    decreases s.len(),
{
    if s.len() == 0 {
        0
    } else {
        sum_of(s.drop_last()) + s.last() as nat
    }
}

proof fn lemma_sum_update(s: Seq<u32>, i: int, x: u32)
    requires
        0 <= i < s.len(),
    ensures
        sum_of(s.update(i, x)) + s[i] == sum_of(s) + x,
    decreases s.len(),
{
    if i == s.len() - 1 {
        assert(s.update(i, x).drop_last() =~= s.drop_last());
    } else {
        assert(s.update(i, x).drop_last() =~= s.drop_last().update(i, x));
        lemma_sum_update(s.drop_last(), i, x);
    }
}

/// `n` copies of `x`.
pub fn filled<T: Copy>(n: usize, x: T) -> (v: Vec<T>)
    ensures
        v@.len() == n,
        forall|i: int| 0 <= i < n ==> v@[i] == x,
{
    let mut v: Vec<T> = Vec::new();
    let mut i: usize = 0;
    while i < n
        invariant
            i <= n,
            v@.len() == i,
            forall|j: int| 0 <= j < i ==> v@[j] == x,
        decreases n - i,
    {
        v.push(x);
        i += 1;
    }
    v
}


/// Every reached cell but `start` is reached from a reached neighbour,
/// at no less than that neighbour's cost plus its own price.
#[verifier::opaque]
pub open spec fn parents_ok(map: Costmap, start: int, dist: Seq<u32>, parent: Seq<usize>) -> bool {
    let n = map.rows * map.cols;
    forall|v: int|
        0 <= v < n && #[trigger] dist[v] < UNREACHED && v != start ==> {
            let p = parent[v] as int;
            &&& 0 <= p < n
            &&& adjacent(map.rows as int, map.cols as int, p, v)
            &&& map.cost@[v] > 0
            &&& dist[p] < UNREACHED
            &&& dist[v] >= dist[p] + map.cost@[v]
        }
}

/// Every queued pair names a cell, at no less than its current cost.
#[verifier::opaque]
pub open spec fn entries_ok(n: int, dist: Seq<u32>, h: Multiset<(u32, usize)>) -> bool {
    forall|e: (u32, usize)| #[trigger] h.count(e) > 0 ==> e.1 < n && dist[e.1 as int] <= e.0 && e.0 < UNREACHED
}

/// Every reached cell but `except` is relaxed, or queued at its cost.
#[verifier::opaque]
pub open spec fn pending_ok(map: Costmap, dist: Seq<u32>, h: Multiset<(u32, usize)>, except: int) -> bool {
    let n = map.rows * map.cols;
    forall|u: int|
        0 <= u < n && #[trigger] dist[u] < UNREACHED && u != except ==> relaxed(
            map.rows as int,
            map.cols as int,
            map.cost@,
            dist,
            u,
        ) || h.count((dist[u], u as usize)) > 0
}

/// The steps out of `here` in the first `k` directions are relaxed.
pub open spec fn done_upto(map: Costmap, dist: Seq<u32>, here: int, k: int) -> bool {
    forall|j: int|
        0 <= j < k ==> match #[trigger] step_to(map.rows as int, map.cols as int, here, j) {
            Some(v) => map.cost@[v] > 0 && dist[here] + map.cost@[v] < UNREACHED ==> dist[v] <= dist[here]
                + map.cost@[v],
            None => true,
        }
}

proof fn lemma_pop_stale(map: Costmap, dist: Seq<u32>, h0: Multiset<(u32, usize)>, c: u32, here: usize)
    requires
        dist.len() == map.rows * map.cols,
        map.rows * map.cols <= usize::MAX,
        pending_ok(map, dist, h0, -1),
        entries_ok(map.rows * map.cols, dist, h0),
        h0.count((c, here)) > 0,
        c > dist[here as int],
    ensures
        pending_ok(map, dist, h0.remove((c, here)), -1),
        entries_ok(map.rows * map.cols, dist, h0.remove((c, here))),
{
    reveal(pending_ok);
    reveal(entries_ok);
    let h = h0.remove((c, here));
    assert forall|u: int|
        0 <= u < map.rows * map.cols && #[trigger] dist[u] < UNREACHED && u != -1 implies relaxed(
            map.rows as int,
            map.cols as int,
            map.cost@,
            dist,
            u,
        ) || h.count((dist[u], u as usize)) > 0 by {
        if !relaxed(map.rows as int, map.cols as int, map.cost@, dist, u) {
            assert(h0.count((dist[u], u as usize)) > 0);
            if u == here as int {
                assert(dist[u] != c);
            } else {
                assert(u as usize != here);
            }
            assert((dist[u], u as usize) != (c, here));
        }
    }
    assert forall|e: (u32, usize)| #[trigger] h.count(e) > 0 implies e.1 < map.rows * map.cols && dist[e.1 as int]
        <= e.0 && e.0 < UNREACHED by {
        assert(h0.count(e) > 0);
    }
}

proof fn lemma_pop_fresh(map: Costmap, dist: Seq<u32>, h0: Multiset<(u32, usize)>, c: u32, here: usize)
    requires
        dist.len() == map.rows * map.cols,
        map.rows * map.cols <= usize::MAX,
        pending_ok(map, dist, h0, -1),
        entries_ok(map.rows * map.cols, dist, h0),
        h0.count((c, here)) > 0,
        c == dist[here as int],
    ensures
        pending_ok(map, dist, h0.remove((c, here)), here as int),
        entries_ok(map.rows * map.cols, dist, h0.remove((c, here))),
        c < UNREACHED,
        here < map.rows * map.cols,
{
    reveal(pending_ok);
    reveal(entries_ok);
    let h = h0.remove((c, here));
    assert forall|u: int|
        0 <= u < map.rows * map.cols && #[trigger] dist[u] < UNREACHED && u != here implies relaxed(
            map.rows as int,
            map.cols as int,
            map.cost@,
            dist,
            u,
        ) || h.count((dist[u], u as usize)) > 0 by {
        if !relaxed(map.rows as int, map.cols as int, map.cost@, dist, u) {
            assert(h0.count((dist[u], u as usize)) > 0);
            if u == here as int {
                assert(dist[u] != c);
            } else {
                assert(u as usize != here);
            }
            assert((dist[u], u as usize) != (c, here));
        }
    }
    assert forall|e: (u32, usize)| #[trigger] h.count(e) > 0 implies e.1 < map.rows * map.cols && dist[e.1 as int]
        <= e.0 && e.0 < UNREACHED by {
        assert(h0.count(e) > 0);
    }
}

/// Lowering `v` to `next`, reached from `here`, and queueing it keeps the
/// books.
proof fn lemma_lower(
    map: Costmap,
    start: int,
    dist: Seq<u32>,
    parent: Seq<usize>,
    h: Multiset<(u32, usize)>,
    here: usize,
    k: int,
    v: usize,
    next: u32,
)
    requires
        map.wf(),
        0 <= start < map.rows * map.cols,
        dist.len() == map.rows * map.cols,
        parent.len() == map.rows * map.cols,
        dist[start] == 0,
        parents_ok(map, start, dist, parent),
        entries_ok(map.rows * map.cols, dist, h),
        pending_ok(map, dist, h, here as int),
        done_upto(map, dist, here as int, k),
        0 <= k < 4,
        here < map.rows * map.cols,
        dist[here as int] < UNREACHED,
        step_to(map.rows as int, map.cols as int, here as int, k) == Some(v as int),
        v < map.rows * map.cols,
        v != here,
        map.cost@[v as int] > 0,
        next == dist[here as int] + map.cost@[v as int],
        next < dist[v as int],
        map.rows * map.cols <= usize::MAX,
    ensures
        ({
            let d = dist.update(v as int, next);
            let p = parent.update(v as int, here);
            let hh = h.insert((next, v));
            &&& d[start] == 0
            &&& parents_ok(map, start, d, p)
            &&& entries_ok(map.rows * map.cols, d, hh)
            &&& pending_ok(map, d, hh, here as int)
            &&& done_upto(map, d, here as int, k + 1)
            &&& d[here as int] == dist[here as int]
        }),
{
    reveal(parents_ok);
    reveal(entries_ok);
    reveal(pending_ok);
    let n = map.rows * map.cols;
    let rows = map.rows as int;
    let cols = map.cols as int;
    let d = dist.update(v as int, next);
    let p = parent.update(v as int, here);
    let hh = h.insert((next, v));
    assert(v as int != start);
    assert(adjacent(rows, cols, here as int, v as int)) by {
        assert(step_to(rows, cols, here as int, k) == Some(v as int));
    }
    assert forall|w: int| 0 <= w < n && #[trigger] d[w] < UNREACHED && w != start implies {
        let q = p[w] as int;
        &&& 0 <= q < n
        &&& adjacent(rows, cols, q, w)
        &&& map.cost@[w] > 0
        &&& d[q] < UNREACHED
        &&& d[w] >= d[q] + map.cost@[w]
    } by {
        if w != v {
            assert(dist[w] < UNREACHED);
            let q = parent[w] as int;
            assert(d[q] <= dist[q]);
        }
    }
    assert forall|e: (u32, usize)| #[trigger] hh.count(e) > 0 implies e.1 < n && d[e.1 as int] <= e.0 && e.0
        < UNREACHED by {
        if e != (next, v) {
            assert(h.count(e) > 0);
        }
    }
    assert forall|u: int| 0 <= u < n && #[trigger] d[u] < UNREACHED && u != here implies relaxed(
        rows,
        cols,
        map.cost@,
        d,
        u,
    ) || hh.count((d[u], u as usize)) > 0 by {
        if u == v {
            assert(hh.count((next, v)) > 0);
        } else if relaxed(rows, cols, map.cost@, dist, u) {
            assert forall|j: int| 0 <= j < 4 implies match #[trigger] step_to(rows, cols, u, j) {
                Some(x) => map.cost@[x] > 0 && d[u] + map.cost@[x] < UNREACHED ==> d[x] <= d[u] + map.cost@[x],
                None => true,
            } by {
                lemma_step_in_grid(rows, cols, u, j);
                match step_to(rows, cols, u, j) {
                    Some(x) => {
                        assert(d[x] <= dist[x]);
                    },
                    None => {},
                }
            }
        } else {
            assert(h.count((dist[u], u as usize)) > 0);
        }
    }
    assert forall|j: int| 0 <= j < k + 1 implies match #[trigger] step_to(rows, cols, here as int, j) {
        Some(x) => map.cost@[x] > 0 && d[here as int] + map.cost@[x] < UNREACHED ==> d[x] <= d[here as int]
            + map.cost@[x],
        None => true,
    } by {
        lemma_step_in_grid(rows, cols, here as int, j);
        match step_to(rows, cols, here as int, j) {
            Some(x) => {
                if j < k {
                    assert(d[x] <= dist[x]);
                }
            },
            None => {},
        }
    }
}

/// A step that lowers nothing relaxes one more direction.
proof fn lemma_keep(map: Costmap, dist: Seq<u32>, here: usize, k: int)
    requires
        done_upto(map, dist, here as int, k),
        0 <= k < 4,
        match step_to(map.rows as int, map.cols as int, here as int, k) {
            Some(v) => map.cost@[v] > 0 && dist[here as int] + map.cost@[v] < UNREACHED ==> dist[v] <= dist[here as int]
                + map.cost@[v],
            None => true,
        },
    ensures
        done_upto(map, dist, here as int, k + 1),
{
}

proof fn lemma_here_done(map: Costmap, dist: Seq<u32>, h: Multiset<(u32, usize)>, here: usize)
    requires
        done_upto(map, dist, here as int, 4),
        pending_ok(map, dist, h, here as int),
    ensures
        pending_ok(map, dist, h, -1),
{
    reveal(pending_ok);
    assert(relaxed(map.rows as int, map.cols as int, map.cost@, dist, here as int));
}

proof fn lemma_search_finished(map: Costmap, start: int, dist: Seq<u32>, parent: Seq<usize>)
    requires
        map.wf(),
        0 <= start < map.rows * map.cols,
        dist.len() == map.rows * map.cols,
        parent.len() == map.rows * map.cols,
        dist[start] == 0,
        parents_ok(map, start, dist, parent),
        pending_ok(map, dist, Multiset::empty(), -1),
    ensures
        search_done(map, start, dist, parent),
{
    reveal(parents_ok);
    reveal(pending_ok);
    let n = map.rows * map.cols;
    let rows = map.rows as int;
    let cols = map.cols as int;
    assert forall|u: int| 0 <= u < n && #[trigger] dist[u] < UNREACHED implies relaxed(
        rows,
        cols,
        map.cost@,
        dist,
        u,
    ) by {
        assert(Multiset::<(u32, usize)>::empty().count((dist[u], u as usize)) == 0);
    }
    assert forall|v: int| 0 <= v < n && #[trigger] dist[v] < UNREACHED && v != start implies {
        let p = parent[v] as int;
        &&& 0 <= p < n
        &&& adjacent(rows, cols, p, v)
        &&& map.cost@[v] > 0
        &&& dist[p] < UNREACHED
        &&& dist[v] == dist[p] + map.cost@[v]
    } by {
        let p = parent[v] as int;
        assert(relaxed(rows, cols, map.cost@, dist, p));
        let k = choose|k: int| 0 <= k < 4 && #[trigger] step_to(rows, cols, p, k) == Some(v);
        assert(step_to(rows, cols, p, k) == Some(v));
    }
}

/// The cells taken off the queue at their cost (`done`) come no later
/// than `last`, the one taken last, and every queued pair no earlier.
#[verifier::opaque]
pub open spec fn order_ok(dist: Seq<u32>, h: Multiset<(u32, usize)>, done: Seq<bool>, last: (u32, usize)) -> bool {
    &&& forall|e: (u32, usize)| #[trigger] h.count(e) > 0 ==> le(last, e)
    &&& forall|u: int|
        0 <= u < done.len() && #[trigger] done[u] ==> dist[u] < UNREACHED && le((dist[u], u as usize), last)
}

/// Every cell taken off the queue but `except` is relaxed.
#[verifier::opaque]
pub open spec fn done_relaxed(map: Costmap, dist: Seq<u32>, done: Seq<bool>, except: int) -> bool {
    forall|u: int|
        0 <= u < done.len() && #[trigger] done[u] && u != except ==> relaxed(
            map.rows as int,
            map.cols as int,
            map.cost@,
            dist,
            u,
        )
}

/// Every reached cell is taken off the queue, or queued at its cost.
#[verifier::opaque]
pub open spec fn settled_or_queued(dist: Seq<u32>, h: Multiset<(u32, usize)>, done: Seq<bool>) -> bool {
    forall|v: int| 0 <= v < dist.len() && #[trigger] dist[v] < UNREACHED ==> done[v] || h.count((dist[v], v as usize)) > 0
}

/// Every reached cell but `start` is reached, at its cost, from a cell
/// taken off the queue, the least of those that reach it at that cost.
#[verifier::opaque]
pub open spec fn least_parents(map: Costmap, start: int, dist: Seq<u32>, parent: Seq<usize>, done: Seq<bool>) -> bool {
    let n = map.rows * map.cols;
    forall|v: int|
        0 <= v < n && #[trigger] dist[v] < UNREACHED && v != start ==> {
            let p = parent[v] as int;
            &&& 0 <= p < n
            &&& done[p]
            &&& dist[p] + map.cost@[v] == dist[v]
            &&& forall|u: int|
                0 <= u < n && done[u] && #[trigger] adjacent(map.rows as int, map.cols as int, u, v) && dist[u]
                    + map.cost@[v] == dist[v] ==> p <= u
        }
}

/// `p` is the least of the neighbours `v` is reached from at its cost.
pub open spec fn least_parent(map: Costmap, dist: Seq<u32>, v: int, p: int) -> bool {
    forall|u: int|
        0 <= u < map.rows * map.cols && #[trigger] adjacent(map.rows as int, map.cols as int, u, v) && dist[u]
            < UNREACHED && dist[u] + map.cost@[v] == dist[v] ==> p <= u
}

proof fn lemma_take_fresh_parents(
    map: Costmap,
    start: int,
    dist: Seq<u32>,
    parent: Seq<usize>,
    done: Seq<bool>,
    last: (u32, usize),
    c: u32,
    here: usize,
)
    requires
        dist.len() == map.rows * map.cols,
        done.len() == map.rows * map.cols,
        map.rows * map.cols <= usize::MAX,
        here < map.rows * map.cols,
        forall|u: int| 0 <= u < done.len() && #[trigger] done[u] ==> le((dist[u], u as usize), last),
        least_parents(map, start, dist, parent, done),
        le(last, (c, here)),
        c == dist[here as int],
    ensures
        least_parents(map, start, dist, parent, done.update(here as int, true)),
{
    reveal(least_parents);
    let n = map.rows * map.cols;
    let d2 = done.update(here as int, true);
    assert forall|v: int| 0 <= v < n && #[trigger] dist[v] < UNREACHED && v != start implies {
        let p = parent[v] as int;
        &&& 0 <= p < n
        &&& d2[p]
        &&& dist[p] + map.cost@[v] == dist[v]
        &&& forall|u: int|
            0 <= u < n && d2[u] && #[trigger] adjacent(map.rows as int, map.cols as int, u, v) && dist[u]
                + map.cost@[v] == dist[v] ==> p <= u
    } by {
        let p = parent[v] as int;
        assert(0 <= p < n && done[p]);
        assert(le((dist[p], p as usize), last));
        assert forall|u: int|
            0 <= u < n && d2[u] && #[trigger] adjacent(map.rows as int, map.cols as int, u, v) && dist[u]
                + map.cost@[v] == dist[v] implies p <= u by {
            if u != here as int {
                assert(done[u]);
            }
        }
    }
}

proof fn lemma_take_fresh(
    map: Costmap,
    start: int,
    dist: Seq<u32>,
    parent: Seq<usize>,
    done: Seq<bool>,
    h0: Multiset<(u32, usize)>,
    last: (u32, usize),
    c: u32,
    here: usize,
)
    requires
        dist.len() == map.rows * map.cols,
        done.len() == map.rows * map.cols,
        map.rows * map.cols <= usize::MAX,
        here < map.rows * map.cols,
        order_ok(dist, h0, done, last),
        least_parents(map, start, dist, parent, done),
        settled_or_queued(dist, h0, done),
        done_relaxed(map, dist, done, -1),
        h0.count((c, here)) > 0,
        forall|x: (u32, usize)| h0.count(x) > 0 ==> le((c, here), x),
        c == dist[here as int],
        c < UNREACHED,
    ensures
        ({
            let d2 = done.update(here as int, true);
            let h2 = h0.remove((c, here));
            &&& order_ok(dist, h2, d2, (c, here))
            &&& least_parents(map, start, dist, parent, d2)
            &&& settled_or_queued(dist, h2, d2)
            &&& done_relaxed(map, dist, d2, here as int)
        }),
{
    let n = map.rows * map.cols;
    let d2 = done.update(here as int, true);
    let h2 = h0.remove((c, here));
    assert(le(last, (c, here))) by {
        reveal(order_ok);
    }
    assert(forall|u: int| 0 <= u < done.len() && #[trigger] done[u] ==> le((dist[u], u as usize), last)) by {
        reveal(order_ok);
    }
    lemma_take_fresh_parents(map, start, dist, parent, done, last, c, here);
    assert(order_ok(dist, h2, d2, (c, here))) by {
        reveal(order_ok);
        assert forall|e: (u32, usize)| #[trigger] h2.count(e) > 0 implies le((c, here), e) by {
            assert(h0.count(e) > 0);
        }
    }
    assert(settled_or_queued(dist, h2, d2)) by {
        reveal(settled_or_queued);
        assert forall|v: int| 0 <= v < dist.len() && #[trigger] dist[v] < UNREACHED implies d2[v] || h2.count(
            (dist[v], v as usize),
        ) > 0 by {
            if v != here as int {
                assert(v as usize != here);
                assert((dist[v], v as usize) != (c, here));
            }
        }
    }
    assert(done_relaxed(map, dist, d2, here as int)) by {
        reveal(done_relaxed);
    }
}

proof fn lemma_improve(
    map: Costmap,
    start: int,
    dist: Seq<u32>,
    parent: Seq<usize>,
    done: Seq<bool>,
    h: Multiset<(u32, usize)>,
    c: u32,
    here: usize,
    k: int,
    v: usize,
    next: u32,
)
    requires
        map.wf(),
        dist.len() == map.rows * map.cols,
        parent.len() == map.rows * map.cols,
        done.len() == map.rows * map.cols,
        map.rows * map.cols <= usize::MAX,
        here < map.rows * map.cols,
        v < map.rows * map.cols,
        order_ok(dist, h, done, (c, here)),
        least_parents(map, start, dist, parent, done),
        settled_or_queued(dist, h, done),
        done_relaxed(map, dist, done, here as int),
        done[here as int],
        dist[here as int] == c,
        0 <= k < 4,
        step_to(map.rows as int, map.cols as int, here as int, k) == Some(v as int),
        v != here,
        map.cost@[v as int] > 0,
        next == c + map.cost@[v as int],
        next < dist[v as int],
    ensures
        ({
            let d = dist.update(v as int, next);
            let p = parent.update(v as int, here);
            let hh = h.insert((next, v));
            &&& order_ok(d, hh, done, (c, here))
            &&& least_parents(map, start, d, p, done)
            &&& settled_or_queued(d, hh, done)
            &&& done_relaxed(map, d, done, here as int)
        }),
{
    reveal(order_ok);
    reveal(least_parents);
    reveal(settled_or_queued);
    reveal(done_relaxed);
    let n = map.rows * map.cols;
    let rows = map.rows as int;
    let cols = map.cols as int;
    let d = dist.update(v as int, next);
    let p = parent.update(v as int, here);
    let hh = h.insert((next, v));
    assert(!done[v as int]) by {
        if done[v as int] {
            assert(le((dist[v as int], v), (c, here)));
        }
    }
    assert forall|w: int| 0 <= w < n && #[trigger] d[w] < UNREACHED && w != start implies {
        let q = p[w] as int;
        &&& done[q]
        &&& d[q] + map.cost@[w] == d[w]
        &&& forall|u: int|
            0 <= u < n && done[u] && #[trigger] adjacent(rows, cols, u, w) && d[u] + map.cost@[w] == d[w] ==> q <= u
    } by {
        if w == v as int {
            assert forall|u: int|
                0 <= u < n && done[u] && #[trigger] adjacent(rows, cols, u, w) && d[u] + map.cost@[w] == d[w] implies here
                <= u by {
                if u != here as int {
                    assert(u != v as int);
                    assert(relaxed(rows, cols, map.cost@, dist, u));
                    let kk = choose|kk: int| 0 <= kk < 4 && #[trigger] step_to(rows, cols, u, kk) == Some(w);
                    assert(step_to(rows, cols, u, kk) == Some(w));
                }
            }
        } else {
            let q = parent[w] as int;
            assert(dist[w] < UNREACHED);
            assert(0 <= q < n && done[q]);
            assert(q != v as int);
            assert forall|u: int|
                0 <= u < n && done[u] && #[trigger] adjacent(rows, cols, u, w) && d[u] + map.cost@[w] == d[w] implies q
                <= u by {
                assert(u != v as int);
            }
        }
    }
    assert forall|e: (u32, usize)| #[trigger] hh.count(e) > 0 implies le((c, here), e) by {
        if e != (next, v) {
            assert(h.count(e) > 0);
        }
    }
    assert forall|u: int| 0 <= u < done.len() && #[trigger] done[u] implies d[u] < UNREACHED && le(
        (d[u], u as usize),
        (c, here),
    ) by {
        assert(u != v as int);
    }
    assert forall|w: int| 0 <= w < d.len() && #[trigger] d[w] < UNREACHED implies done[w] || hh.count(
        (d[w], w as usize),
    ) > 0 by {
        if w != v as int {
            assert(dist[w] < UNREACHED);
        }
    }
    assert forall|u: int| 0 <= u < done.len() && #[trigger] done[u] && u != here as int implies relaxed(
        rows,
        cols,
        map.cost@,
        d,
        u,
    ) by {
        assert(relaxed(rows, cols, map.cost@, dist, u));
        assert(u != v as int);
        assert forall|j: int| 0 <= j < 4 implies match #[trigger] step_to(rows, cols, u, j) {
            Some(x) => map.cost@[x] > 0 && d[u] + map.cost@[x] < UNREACHED ==> d[x] <= d[u] + map.cost@[x],
            None => true,
        } by {
            lemma_step_in_grid(rows, cols, u, j);
            match step_to(rows, cols, u, j) {
                Some(x) => {
                    if x != v as int {
                        assert(d[x] == dist[x]);
                    }
                },
                None => {},
            }
        }
    }
}

proof fn lemma_stale_taken(dist: Seq<u32>, done: Seq<bool>, h0: Multiset<(u32, usize)>, last: (u32, usize), c: u32, here: usize)
    requires
        dist.len() <= usize::MAX,
        order_ok(dist, h0, done, last),
        settled_or_queued(dist, h0, done),
        here < dist.len(),
        c != dist[here as int],
    ensures
        order_ok(dist, h0.remove((c, here)), done, last),
        settled_or_queued(dist, h0.remove((c, here)), done),
{
    reveal(order_ok);
    reveal(settled_or_queued);
    let h2 = h0.remove((c, here));
    assert forall|e: (u32, usize)| #[trigger] h2.count(e) > 0 implies le(last, e) by {
        assert(h0.count(e) > 0);
    }
    assert forall|v: int| 0 <= v < dist.len() && #[trigger] dist[v] < UNREACHED implies done[v] || h2.count(
        (dist[v], v as usize),
    ) > 0 by {
        assert((dist[v], v as usize) != (c, here));
    }
}

proof fn lemma_here_settled(map: Costmap, dist: Seq<u32>, done: Seq<bool>, here: usize)
    requires
        done_relaxed(map, dist, done, here as int),
        done_upto(map, dist, here as int, 4),
    ensures
        done_relaxed(map, dist, done, -1),
{
    reveal(done_relaxed);
    assert(relaxed(map.rows as int, map.cols as int, map.cost@, dist, here as int));
}

proof fn lemma_parents_least(map: Costmap, start: int, dist: Seq<u32>, parent: Seq<usize>, done: Seq<bool>)
    requires
        dist.len() == map.rows * map.cols,
        done.len() == map.rows * map.cols,
        least_parents(map, start, dist, parent, done),
        settled_or_queued(dist, Multiset::empty(), done),
    ensures
        forall|v: int|
            0 <= v < map.rows * map.cols && #[trigger] dist[v] < UNREACHED && v != start ==> least_parent(
                map,
                dist,
                v,
                parent[v] as int,
            ),
{
    reveal(least_parents);
    reveal(settled_or_queued);
    let n = map.rows * map.cols;
    assert forall|v: int| 0 <= v < n && #[trigger] dist[v] < UNREACHED && v != start implies least_parent(
        map,
        dist,
        v,
        parent[v] as int,
    ) by {
        assert forall|u: int|
            0 <= u < n && #[trigger] adjacent(map.rows as int, map.cols as int, u, v) && dist[u] < UNREACHED && dist[u]
                + map.cost@[v] == dist[v] implies parent[v] as int <= u by {
            assert(Multiset::<(u32, usize)>::empty().count((dist[u], u as usize)) == 0);
            assert(done[u]);
        }
    }
}

/// The cheapest cost of every cell from `start` over `map`, and the cell
/// each one is reached from — Dijkstra, the cheapest queued cell first,
/// the lower index first among equally cheap ones, so that a cell is
/// reached from the least of the neighbours that reach it at its
/// cheapest cost. A cell whose cheapest way would cost [`UNREACHED`] or
/// more is left unreached.
pub fn search(map: &Costmap, start: usize) -> (res: (Vec<u32>, Vec<usize>))
    requires
        map.wf(),
        start < map.rows * map.cols,
    ensures
        search_done(*map, start as int, res.0@, res.1@),
        forall|v: int|
            0 <= v < map.rows * map.cols && #[trigger] res.0@[v] < UNREACHED && v != start ==> least_parent(
                *map,
                res.0@,
                v,
                res.1@[v] as int,
            ),
{
    let rows = map.rows;
    let cols = map.cols;
    let n = map.cost.len();
    let mut dist = filled(n, UNREACHED);
    let mut parent = filled(n, usize::MAX);
    dist.set(start, 0);
    let mut heap = MinQueue::new();
    heap.push((0, start));
    let ghost mut done: Seq<bool> = Seq::new(n as nat, |i: int| false);
    let ghost mut last: (u32, usize) = (0, 0);
    proof {
        reveal(order_ok);
        reveal(done_relaxed);
        reveal(settled_or_queued);
        reveal(least_parents);
        reveal(parents_ok);
        reveal(entries_ok);
        reveal(pending_ok);
        assert forall|v: int| 0 <= v < n && #[trigger] dist@[v] < UNREACHED implies v == start by {}
        assert(heap@.count((0u32, start)) > 0);
    }
    loop
        invariant
            map.wf(),
            n == rows * cols,
            rows == map.rows,
            cols == map.cols,
            start < n,
            heap.wf(),
            dist@.len() == n,
            parent@.len() == n,
            dist@[start as int] == 0,
            parents_ok(*map, start as int, dist@, parent@),
            entries_ok(n as int, dist@, heap@),
            pending_ok(*map, dist@, heap@, -1),
            done.len() == n,
            order_ok(dist@, heap@, done, last),
            least_parents(*map, start as int, dist@, parent@, done),
            settled_or_queued(dist@, heap@, done),
            done_relaxed(*map, dist@, done, -1),
        ensures
            search_done(*map, start as int, dist@, parent@),
            forall|v: int|
                0 <= v < n && #[trigger] dist@[v] < UNREACHED && v != start ==> least_parent(
                    *map,
                    dist@,
                    v,
                    parent@[v] as int,
                ),
        decreases sum_of(dist@), heap@.len(),
    {
        let ghost sum0 = sum_of(dist@);
        let ghost len0 = heap@.len();
        let ghost heap0 = heap@;
        match heap.pop() {
            None => {
                proof {
                    assert(heap0 =~= Multiset::<(u32, usize)>::empty()) by {
                        assert(heap0.len() == 0);
                    }
                    lemma_search_finished(*map, start as int, dist@, parent@);
                    lemma_parents_least(*map, start as int, dist@, parent@, done);
                }
                break;
            },
            Some((c, here)) => {
                proof {
                    reveal(entries_ok);
                    assert(here < n && dist@[here as int] <= c);
                }
                if c > dist[here] {
                    proof {
                        lemma_pop_stale(*map, dist@, heap0, c, here);
                        lemma_stale_taken(dist@, done, heap0, last, c, here);
                    }
                    continue;
                }
                proof {
                    lemma_pop_fresh(*map, dist@, heap0, c, here);
                    lemma_take_fresh(*map, start as int, dist@, parent@, done, heap0, last, c, here);
                    done = done.update(here as int, true);
                    last = (c, here);
                }
                let mut k: usize = 0;
                while k < 4
                    invariant
                        map.wf(),
                        n == rows * cols,
                        rows == map.rows,
                        cols == map.cols,
                        start < n,
                        here < n,
                        heap.wf(),
                        k <= 4,
                        dist@.len() == n,
                        parent@.len() == n,
                        dist@[start as int] == 0,
                        dist@[here as int] == c,
                        c < UNREACHED,
                        parents_ok(*map, start as int, dist@, parent@),
                        entries_ok(n as int, dist@, heap@),
                        pending_ok(*map, dist@, heap@, here as int),
                        done_upto(*map, dist@, here as int, k as int),
                        sum_of(dist@) < sum0 || (sum_of(dist@) == sum0 && heap@.len() + 1 == len0),
                        done.len() == n,
                        done[here as int],
                        last == (c, here),
                        order_ok(dist@, heap@, done, last),
                        least_parents(*map, start as int, dist@, parent@, done),
                        settled_or_queued(dist@, heap@, done),
                        done_relaxed(*map, dist@, done, here as int),
                    decreases 4 - k,
                {
                    match neighbor(rows, cols, here, k) {
                        None => {
                            proof {
                                lemma_keep(*map, dist@, here, k as int);
                            }
                        },
                        Some(v) => {
                            let step = map.cost[v];
                            let next: u64 = c as u64 + step as u64;
                            if step > 0 && next < dist[v] as u64 {
                                proof {
                                    lemma_sum_update(dist@, v as int, next as u32);
                                    lemma_lower(
                                        *map,
                                        start as int,
                                        dist@,
                                        parent@,
                                        heap@,
                                        here,
                                        k as int,
                                        v,
                                        next as u32,
                                    );
                                    lemma_improve(
                                        *map,
                                        start as int,
                                        dist@,
                                        parent@,
                                        done,
                                        heap@,
                                        c,
                                        here,
                                        k as int,
                                        v,
                                        next as u32,
                                    );
                                }
                                dist.set(v, next as u32);
                                parent.set(v, here);
                                heap.push((next as u32, v));
                            } else {
                                proof {
                                    lemma_keep(*map, dist@, here, k as int);
                                }
                            }
                        },
                    }
                    k += 1;
                }
                proof {
                    lemma_here_done(*map, dist@, heap@, here);
                    lemma_here_settled(*map, dist@, done, here);
                }
            },
        }
    }
    (dist, parent)
}

} // verus!

verus! {

/// No way from `start` is cheaper than what the search found: for every
/// path to a cell, the search's cost of that cell is at most the path's
/// (paths costing [`UNREACHED`] or more aside).
pub proof fn search_is_cheapest(map: Costmap, start: int, dist: Seq<u32>, parent: Seq<usize>, p: Seq<int>)
    requires
        map.wf(),
        0 <= start < map.rows * map.cols,
        search_done(map, start, dist, parent),
        is_path(map.rows as int, map.cols as int, map.cost@, start, p),
        path_cost(map.cost@, p) < UNREACHED,
    ensures
        dist[p.last()] <= path_cost(map.cost@, p),
    decreases p.len(),
{
    let rows = map.rows as int;
    let cols = map.cols as int;
    if p.len() > 1 {
        let q = p.drop_last();
        assert(is_path(rows, cols, map.cost@, start, q)) by {
            assert forall|i: int| 0 <= i < q.len() - 1 implies adjacent(rows, cols, #[trigger] q[i], q[i + 1]) by {
                assert(q[i] == p[i] && q[i + 1] == p[i + 1]);
                assert(adjacent(rows, cols, p[i], p[i + 1]));
            }
            assert forall|i: int| 1 <= i < q.len() implies 0 <= #[trigger] q[i] < map.cost@.len() && map.cost@[q[i]]
                > 0 by {
                assert(q[i] == p[i]);
            }
        }
        let u = q.last();
        let v = p.last();
        assert(map.cost@[v] > 0 && 0 <= v < map.cost@.len()) by {
            assert(v == p[p.len() - 1]);
        }
        search_is_cheapest(map, start, dist, parent, q);
        assert(0 <= u < map.rows * map.cols) by {
            if q.len() == 1 {
                assert(u == start);
            } else {
                assert(u == p[q.len() - 1]);
            }
        }
        assert(dist[u] < UNREACHED);
        assert(relaxed(rows, cols, map.cost@, dist, u));
        assert(adjacent(rows, cols, p[p.len() - 2], p[p.len() - 1]));
        let k = choose|k: int| 0 <= k < 4 && #[trigger] step_to(rows, cols, u, k) == Some(v);
        assert(step_to(rows, cols, u, k) == Some(v));
    }
}

/// A path stays a path, one step longer, when a passable neighbour of its
/// last cell is walked into; the step costs that cell's price.
proof fn lemma_path_push(rows: int, cols: int, cost: Seq<u32>, start: int, q: Seq<int>, v: int)
    requires
        is_path(rows, cols, cost, start, q),
        adjacent(rows, cols, q.last(), v),
        0 <= v < cost.len(),
        cost[v] > 0,
    ensures
        is_path(rows, cols, cost, start, q.push(v)),
        path_cost(cost, q.push(v)) == path_cost(cost, q) + cost[v],
{
    let p = q.push(v);
    assert(p.drop_last() =~= q);
    assert forall|i: int| 0 <= i < p.len() - 1 implies adjacent(rows, cols, #[trigger] p[i], p[i + 1]) by {
        if i < q.len() - 1 {
            assert(p[i] == q[i] && p[i + 1] == q[i + 1]);
        } else {
            assert(p[i] == q.last() && p[i + 1] == v);
        }
    }
    assert forall|i: int| 1 <= i < p.len() implies 0 <= #[trigger] p[i] < cost.len() && cost[p[i]] > 0 by {
        if i < q.len() {
            assert(p[i] == q[i]);
        }
    }
}

/// The way the search's parents lead back from a reached cell: a path
/// from `start` that costs exactly what the search says.
pub proof fn search_way_back(map: Costmap, start: int, dist: Seq<u32>, parent: Seq<usize>, v: int) -> (p: Seq<int>)
    requires
        map.wf(),
        0 <= start < map.rows * map.cols,
        search_done(map, start, dist, parent),
        0 <= v < map.rows * map.cols,
        dist[v] < UNREACHED,
    ensures
        is_path(map.rows as int, map.cols as int, map.cost@, start, p),
        p.last() == v,
        path_cost(map.cost@, p) == dist[v],
    decreases dist[v],
{
    if v == start {
        let p = seq![start];
        assert(path_cost(map.cost@, p) == 0);
        p
    } else {
        let u = parent[v] as int;
        let q = search_way_back(map, start, dist, parent, u);
        lemma_path_push(map.rows as int, map.cols as int, map.cost@, start, q, v);
        q.push(v)
    }
}

/// Each cell of `tail` is reached from the one before it, the first from
/// `idx`.
#[verifier::opaque]
pub open spec fn parent_chain(parent: Seq<usize>, tail: Seq<int>, idx: int) -> bool {
    &&& forall|i: int| 1 <= i < tail.len() ==> parent[#[trigger] tail[i]] as int == tail[i - 1]
    &&& tail.len() > 0 ==> parent[tail[0]] as int == idx
}

proof fn lemma_chain_grows(parent: Seq<usize>, tail: Seq<int>, idx: int)
    requires
        parent_chain(parent, tail, idx),
    ensures
        parent_chain(parent, seq![idx] + tail, parent[idx] as int),
{
    reveal(parent_chain);
    let t = seq![idx] + tail;
    assert forall|i: int| 1 <= i < t.len() implies parent[#[trigger] t[i]] as int == t[i - 1] by {
        assert(t[i] == tail[i - 1]);
        if i > 1 {
            assert(t[i - 1] == tail[i - 2]);
        } else {
            assert(t[0] == idx);
        }
    }
}

/// The cells of the way back from `target` to `start`, in walking order:
/// the cell after `start` first, `target` last.
#[verifier::spinoff_prover]
#[verifier::rlimit(40)]
pub fn path_cells(map: &Costmap, start: usize, dist: &Vec<u32>, parent: &Vec<usize>, target: usize) -> (path: Vec<usize>)
    requires
        map.wf(),
        start < map.rows * map.cols,
        search_done(*map, start as int, dist@, parent@),
        target < map.rows * map.cols,
        dist@[target as int] < UNREACHED,
    ensures
        is_path(
            map.rows as int,
            map.cols as int,
            map.cost@,
            start as int,
            seq![start as int] + path@.map_values(|c: usize| c as int),
        ),
        path@.len() == 0 ==> target == start,
        path@.len() > 0 ==> path@.last() == target,
        path_cost(map.cost@, seq![start as int] + path@.map_values(|c: usize| c as int)) == dist@[target as int],
        ({
            let w = seq![start as int] + path@.map_values(|c: usize| c as int);
            forall|i: int| 1 <= i < w.len() ==> parent@[#[trigger] w[i]] as int == w[i - 1]
        }),
{
    let ghost rows = map.rows as int;
    let ghost cols = map.cols as int;
    let ghost cost = map.cost@;
    // Collected backwards, from `target` towards `start`.
    let mut back: Vec<usize> = Vec::new();
    let mut idx = target;
    let ghost mut tail: Seq<int> = Seq::empty();
    proof {
        assert(back@.map_values(|c: usize| c as int).reverse() =~= tail);
        reveal(parent_chain);
    }
    while idx != start
        invariant
            map.wf(),
            rows == map.rows,
            cols == map.cols,
            cost == map.cost@,
            search_done(*map, start as int, dist@, parent@),
            start < map.rows * map.cols,
            target < map.rows * map.cols,
            idx < map.rows * map.cols,
            dist@[idx as int] < UNREACHED,
            back@.map_values(|c: usize| c as int).reverse() == tail,
            // `tail` walks on from `idx` to `target`, at the cost between them.
            tail.len() == 0 ==> idx == target,
            tail.len() > 0 ==> tail.last() == target,
            forall|i: int| 0 <= i < tail.len() ==> 0 <= #[trigger] tail[i] < cost.len() && cost[tail[i]] > 0,
            forall|i: int| 0 <= i < tail.len() - 1 ==> adjacent(rows, cols, #[trigger] tail[i], tail[i + 1]),
            tail.len() > 0 ==> adjacent(rows, cols, idx as int, tail[0]),
            dist@[target as int] == dist@[idx as int] + walk_cost(cost, tail),
            parent_chain(parent@, tail, idx as int),
        decreases dist@[idx as int],
    {
        let p = parent[idx];
        proof {
            let ghost old_tail = tail;
            tail = seq![idx as int] + old_tail;
            lemma_walk_cost_prepend(cost, idx as int, old_tail);
            assert forall|i: int| 0 <= i < tail.len() - 1 implies adjacent(rows, cols, #[trigger] tail[i], tail[i + 1]) by {
                if i > 0 {
                    assert(tail[i] == old_tail[i - 1] && tail[i + 1] == old_tail[i]);
                }
            }
            assert forall|i: int| 0 <= i < tail.len() implies 0 <= #[trigger] tail[i] < cost.len() && cost[tail[i]] > 0 by {
                if i > 0 {
                    assert(tail[i] == old_tail[i - 1]);
                }
            }
            lemma_chain_grows(parent@, old_tail, idx as int);
        }
        back.push(idx);
        proof {
            assert(back@.map_values(|c: usize| c as int).reverse() =~= tail);
        }
        idx = p;
    }
    // Reverse into walking order.
    let mut path: Vec<usize> = Vec::new();
    let mut j = back.len();
    while j > 0
        invariant
            j <= back@.len(),
            path@.len() == back@.len() - j,
            forall|i: int| 0 <= i < path@.len() ==> path@[i] == back@[back@.len() - 1 - i],
        decreases j,
    {
        j -= 1;
        path.push(back[j]);
    }
    proof {
        assert(path@.map_values(|c: usize| c as int) =~= tail);
        let whole = seq![start as int] + tail;
        lemma_walk_is_path_cost(cost, start as int, tail);
        assert forall|i: int| 0 <= i < whole.len() - 1 implies adjacent(rows, cols, #[trigger] whole[i], whole[i + 1]) by {
            if i > 0 {
                assert(whole[i] == tail[i - 1] && whole[i + 1] == tail[i]);
            } else {
                assert(whole[1] == tail[0]);
            }
        }
        assert forall|i: int| 1 <= i < whole.len() implies 0 <= #[trigger] whole[i] < cost.len() && cost[whole[i]] > 0 by {
            assert(whole[i] == tail[i - 1]);
        }
        if tail.len() > 0 {
            assert(whole.last() == tail.last());
        }
        reveal(parent_chain);
        assert forall|i: int| 1 <= i < whole.len() implies parent@[#[trigger] whole[i]] as int == whole[i - 1] by {
            assert(whole[i] == tail[i - 1]);
            if i > 1 {
                assert(whole[i - 1] == tail[i - 2]);
            }
        }
    }
    path
}

/// The cheapest way over `map` from `start` to `end`: its cells in walking
/// order, the one after `start` first and `end` last (none when the two
/// are one cell), or `None` when every way costs [`UNREACHED`] or more.
/// Of several equally cheap ways, each cell is entered from the
/// neighbour with the least index among those that reach it at its
/// cheapest cost.
pub fn route(map: &Costmap, start: usize, end: usize) -> (r: Option<Vec<usize>>)
    requires
        map.wf(),
        start < map.rows * map.cols,
        end < map.rows * map.cols,
    ensures
        match r {
            None => forall|p: Seq<int>|
                #[trigger] is_path(map.rows as int, map.cols as int, map.cost@, start as int, p) && p.last()
                    == end ==> path_cost(map.cost@, p) >= UNREACHED,
            Some(path) => {
                let w = seq![start as int] + path@.map_values(|c: usize| c as int);
                &&& is_path(map.rows as int, map.cols as int, map.cost@, start as int, w)
                &&& w.last() == end
                &&& path_cost(map.cost@, w) < UNREACHED
                &&& forall|p: Seq<int>|
                    #[trigger] is_path(map.rows as int, map.cols as int, map.cost@, start as int, p) && p.last()
                        == end ==> path_cost(map.cost@, w) <= path_cost(map.cost@, p)
                &&& exists|dist: Seq<u32>, parent: Seq<usize>|
                    {
                        &&& #[trigger] search_done(*map, start as int, dist, parent)
                        &&& forall|v: int|
                            0 <= v < map.rows * map.cols && #[trigger] dist[v] < UNREACHED && v != start
                                ==> least_parent(*map, dist, v, parent[v] as int)
                        &&& forall|i: int| 1 <= i < w.len() ==> parent[#[trigger] w[i]] as int == w[i - 1]
                    }
            },
        },
{
    let (dist, parent) = search(map, start);
    if dist[end] == UNREACHED {
        proof {
            assert forall|p: Seq<int>|
                #[trigger] is_path(map.rows as int, map.cols as int, map.cost@, start as int, p) && p.last()
                    == end implies path_cost(map.cost@, p) >= UNREACHED by {
                if path_cost(map.cost@, p) < UNREACHED {
                    search_is_cheapest(*map, start as int, dist@, parent@, p);
                }
            }
        }
        None
    } else {
        let path = path_cells(map, start, &dist, &parent, end);
        let ghost w = seq![start as int] + path@.map_values(|c: usize| c as int);
        proof {
            if path@.len() > 0 {
                assert(w.last() == path@.map_values(|c: usize| c as int).last());
            }
            assert forall|p: Seq<int>|
                #[trigger] is_path(map.rows as int, map.cols as int, map.cost@, start as int, p) && p.last()
                    == end implies path_cost(map.cost@, w) <= path_cost(map.cost@, p) by {
                if path_cost(map.cost@, p) < UNREACHED {
                    search_is_cheapest(*map, start as int, dist@, parent@, p);
                }
            }
        }
        proof {
            assert(search_done(*map, start as int, dist@, parent@));
        }
        Some(path)
    }
}

/// The price of every cell of `w`.
pub open spec fn walk_cost(cost: Seq<u32>, w: Seq<int>) -> int
    decreases w.len(),
{
    if w.len() == 0 {
        0
    } else {
        walk_cost(cost, w.drop_last()) + cost[w.last()]
    }
}

proof fn lemma_walk_cost_prepend(cost: Seq<u32>, x: int, w: Seq<int>)
    ensures
        walk_cost(cost, seq![x] + w) == cost[x] + walk_cost(cost, w),
    decreases w.len(),
{
    if w.len() == 0 {
        assert((seq![x] + w).drop_last() =~= Seq::<int>::empty());
        assert((seq![x] + w).last() == x);
        assert(walk_cost(cost, Seq::<int>::empty()) == 0);
    } else {
        assert((seq![x] + w).drop_last() =~= seq![x] + w.drop_last());
        assert((seq![x] + w).last() == w.last());
        lemma_walk_cost_prepend(cost, x, w.drop_last());
    }
}

proof fn lemma_walk_is_path_cost(cost: Seq<u32>, start: int, w: Seq<int>)
    ensures
        path_cost(cost, seq![start] + w) == walk_cost(cost, w),
    decreases w.len(),
{
    if w.len() > 0 {
        assert((seq![start] + w).drop_last() =~= seq![start] + w.drop_last());
        lemma_walk_is_path_cost(cost, start, w.drop_last());
    }
}

} // verus!

verus! {

/// The cell at offset `k` of `u`'s 3×3 block — `k / 3 - 1` rows and
/// `k % 3 - 1` columns away, `k = 4` being `u` itself — or `None` off
/// the grid.
pub open spec fn near8(rows: int, cols: int, u: int, k: int) -> Option<int> {
    let rr = u / cols + (k / 3 - 1);
    let cc = u % cols + (k % 3 - 1);
    if 0 <= rr < rows && 0 <= cc < cols {
        Some(rr * cols + cc)
    } else {
        None
    }
}

/// `v` touches `u`, sides or corners.
pub open spec fn adjacent8(rows: int, cols: int, u: int, v: int) -> bool {
    exists|k: int| 0 <= k < 9 && k != 4 && #[trigger] near8(rows, cols, u, k) == Some(v)
}

pub proof fn lemma_near8_in_grid(rows: int, cols: int, u: int, k: int)
    ensures
        match near8(rows, cols, u, k) {
            Some(x) => 0 <= x < rows * cols,
            None => true,
        },
{
    let rr = u / cols + (k / 3 - 1);
    let cc = u % cols + (k % 3 - 1);
    if 0 <= rr < rows && 0 <= cc < cols {
        lemma_index_in_grid(rr, cc, rows, cols);
    }
}

/// The cell at offset `k` of `u`'s 3×3 block.
pub fn near(rows: usize, cols: usize, u: usize, k: usize) -> (v: Option<usize>)
    requires
        u < rows * cols,
        rows * cols <= usize::MAX,
        k < 9,
    ensures
        match v {
            Some(x) => near8(rows as int, cols as int, u as int, k as int) == Some(x as int) && x < rows * cols,
            None => near8(rows as int, cols as int, u as int, k as int) is None,
        },
{
    proof {
        lemma_row_of_index(u as int, rows as int, cols as int);
    }
    let row = u / cols;
    let col = u % cols;
    let dr = k / 3;
    let dc = k % 3;
    if (dr == 0 && row == 0) || (dr == 2 && row + 1 == rows) || (dc == 0 && col == 0) || (dc == 2 && col + 1
        == cols) {
        return None;
    }
    let rr = if dr == 0 { row - 1 } else if dr == 1 { row } else { row + 1 };
    let cc = if dc == 0 { col - 1 } else if dc == 1 { col } else { col + 1 };
    proof {
        lemma_index_in_grid(rr as int, cc as int, rows as int, cols as int);
        assert(rr * cols <= rr * cols + cc);
    }
    Some(rr * cols + cc)
}

/// A free cell touching unknown ones, sides or corners.
pub open spec fn spec_is_frontier(grid: Grid, u: int) -> bool {
    &&& grid.cells@[u] == Cell::Free
    &&& exists|k: int|
        0 <= k < 9 && match #[trigger] near8(grid.rows as int, grid.cols as int, u, k) {
            Some(v) => grid.cells@[v] == Cell::Unknown,
            None => false,
        }
}

/// Whether the cell at index `u` is a frontier cell.
pub fn is_frontier(grid: &Grid, u: usize) -> (f: bool)
    requires
        grid.wf(),
        u < grid.rows * grid.cols,
    ensures
        f == spec_is_frontier(*grid, u as int),
{
    let n = grid.cells.len();
    if grid.cells[u] != Cell::Free {
        return false;
    }
    let mut k: usize = 0;
    while k < 9
        invariant
            grid.wf(),
            n == grid.rows * grid.cols,
            u < n,
            grid.cells@[u as int] == Cell::Free,
            k <= 9,
            forall|j: int|
                0 <= j < k ==> match #[trigger] near8(grid.rows as int, grid.cols as int, u as int, j) {
                    Some(v) => grid.cells@[v] != Cell::Unknown,
                    None => true,
                },
        decreases 9 - k,
    {
        match near(grid.rows, grid.cols, u, k) {
            Some(v) => {
                if grid.cells[v] == Cell::Unknown {
                    return true;
                }
            },
            None => {},
        }
        k += 1;
    }
    proof {
        assert forall|j: int| 0 <= j < 9 implies !match #[trigger] near8(grid.rows as int, grid.cols as int, u as int, j) {
            Some(v) => grid.cells@[v] == Cell::Unknown,
            None => false,
        } by {}
    }
    false
}

/// How many of the first `m` cells are frontier cells.
pub open spec fn frontier_count(grid: Grid, m: int) -> nat
    decreases m,
{
    if m <= 0 {
        0
    } else {
        frontier_count(grid, m - 1) + if spec_is_frontier(grid, m - 1) { 1nat } else { 0nat }
    }
}

proof fn lemma_frontier_count_bound(grid: Grid, m: int)
    requires
        m >= 0,
    ensures
        frontier_count(grid, m) <= m,
    decreases m,
{
    if m > 0 {
        lemma_frontier_count_bound(grid, m - 1);
    }
}

/// How many free cells touch unknown at all, reachable or not: zero
/// means the map is finished; some, with nothing reachable, means the
/// duck is sealed in or the map has moved under it.
pub fn frontier_cells(grid: &Grid) -> (count: usize)
    requires
        grid.wf(),
    ensures
        count == frontier_count(*grid, grid.rows * grid.cols),
{
    let n = grid.cells.len();
    let mut count: usize = 0;
    let mut u: usize = 0;
    while u < n
        invariant
            grid.wf(),
            n == grid.rows * grid.cols,
            u <= n,
            count == frontier_count(*grid, u as int),
        decreases n - u,
    {
        proof {
            lemma_frontier_count_bound(*grid, u as int);
        }
        if is_frontier(grid, u) {
            count += 1;
        }
        u += 1;
    }
    count
}

} // verus!

verus! {

pub proof fn lemma_near8_symmetric(rows: int, cols: int, u: int, k: int)
    requires
        0 <= k < 9,
        cols > 0,
        0 <= u < rows * cols,
    ensures
        match near8(rows, cols, u, k) {
            Some(v) => near8(rows, cols, v, 8 - k) == Some(u),
            None => true,
        },
{
    lemma_row_of_index(u, rows, cols);
    let rr = u / cols + (k / 3 - 1);
    let cc = u % cols + (k % 3 - 1);
    if 0 <= rr < rows && 0 <= cc < cols {
        lemma_split_index(rr, cc, cols);
        assert((8 - k) / 3 - 1 == -(k / 3 - 1));
        assert((8 - k) % 3 - 1 == -(k % 3 - 1));
    }
}

/// Members are the cells grouped; groups are the 8-connected pieces of
/// the members. `owner[i]` is the group a seen cell went to, `g == gs.len()`
/// standing for the group being grown (its cells in `cur` or `stack`),
/// a negative number for a cell not seen yet.
pub open spec fn groups_ok(
    rows: int,
    cols: int,
    member: Seq<bool>,
    seen: Seq<bool>,
    owner: Seq<int>,
    gs: Seq<Seq<usize>>,
    cur: Seq<usize>,
    stack: Seq<usize>,
) -> bool {
    let n = rows * cols;
    let top = gs.len() as int;
    &&& member.len() == n
    &&& seen.len() == n
    &&& owner.len() == n
    &&& ok_seen(n, member, seen, owner, top)
    &&& ok_groups_own(n, owner, gs)
    &&& ok_groups_cover(n, owner, gs)
    &&& ok_groups_distinct(gs)
    &&& ok_groups_closed(rows, cols, member, owner, gs)
    &&& ok_groups_connected(rows, cols, gs)
    &&& ok_cur_own(n, owner, top, cur, stack)
    &&& ok_cur_cover(n, owner, top, cur, stack)
    &&& ok_cur_distinct(cur, stack)
    &&& ok_cur_nbrs_seen(rows, cols, member, seen, cur)
    &&& ok_cur_connected(rows, cols, cur)
}

pub open spec fn ok_seen(n: int, member: Seq<bool>, seen: Seq<bool>, owner: Seq<int>, top: int) -> bool {
    forall|i: int| 0 <= i < n ==> (#[trigger] seen[i] <==> owner[i] >= 0) && owner[i] <= top && (seen[i] ==> member[i])
}

pub open spec fn ok_groups_own(n: int, owner: Seq<int>, gs: Seq<Seq<usize>>) -> bool {
    &&& forall|g: int, k: int|
        0 <= g < gs.len() && 0 <= k < gs[g].len() ==> #[trigger] gs[g][k] < n && owner[gs[g][k] as int] == g
    &&& forall|g: int| 0 <= g < gs.len() ==> #[trigger] gs[g].len() > 0
}

pub open spec fn ok_groups_cover(n: int, owner: Seq<int>, gs: Seq<Seq<usize>>) -> bool {
    forall|i: int|
        0 <= i < n && 0 <= #[trigger] owner[i] < gs.len() ==> exists|k: int|
            0 <= k < gs[owner[i]].len() && gs[owner[i]][k] == i
}

pub open spec fn ok_groups_distinct(gs: Seq<Seq<usize>>) -> bool {
    forall|g: int, k1: int, k2: int|
        0 <= g < gs.len() && 0 <= k1 < k2 < gs[g].len() ==> #[trigger] gs[g][k1] != #[trigger] gs[g][k2]
}

pub open spec fn ok_groups_closed(rows: int, cols: int, member: Seq<bool>, owner: Seq<int>, gs: Seq<Seq<usize>>) -> bool {
    forall|g: int, k: int, kk: int|
        0 <= g < gs.len() && 0 <= k < gs[g].len() && 0 <= kk < 9 ==> match #[trigger] near8(rows, cols, gs[g][k] as int, kk) {
            Some(j) => member[j] ==> owner[j] == g,
            None => true,
        }
}

/// `x` touches one of the cells of `s`.
pub open spec fn touches_some(rows: int, cols: int, s: Seq<usize>, x: int) -> bool {
    exists|k2: int| 0 <= k2 < s.len() && adjacent8(rows, cols, s[k2] as int, x)
}

/// Cell `k` of `s` touches an earlier one.
pub open spec fn connected_at(rows: int, cols: int, s: Seq<usize>, k: int) -> bool {
    exists|k2: int| 0 <= k2 < k && adjacent8(rows, cols, s[k2] as int, s[k] as int)
}

pub open spec fn ok_groups_connected(rows: int, cols: int, gs: Seq<Seq<usize>>) -> bool {
    forall|g: int, k: int| 0 <= g < gs.len() && 1 <= k < gs[g].len() ==> #[trigger] connected_at(rows, cols, gs[g], k)
}

pub open spec fn ok_cur_own(n: int, owner: Seq<int>, top: int, cur: Seq<usize>, stack: Seq<usize>) -> bool {
    &&& forall|k: int| 0 <= k < cur.len() ==> #[trigger] cur[k] < n && owner[cur[k] as int] == top
    &&& forall|k: int| 0 <= k < stack.len() ==> #[trigger] stack[k] < n && owner[stack[k] as int] == top
}

pub open spec fn ok_cur_cover(n: int, owner: Seq<int>, top: int, cur: Seq<usize>, stack: Seq<usize>) -> bool {
    forall|i: int|
        0 <= i < n && #[trigger] owner[i] == top ==> (exists|k: int| 0 <= k < cur.len() && cur[k] == i) || (exists|k: int|
            0 <= k < stack.len() && stack[k] == i)
}

pub open spec fn ok_cur_distinct(cur: Seq<usize>, stack: Seq<usize>) -> bool {
    &&& forall|k1: int, k2: int| 0 <= k1 < k2 < cur.len() ==> #[trigger] cur[k1] != #[trigger] cur[k2]
    &&& forall|k1: int, k2: int| 0 <= k1 < k2 < stack.len() ==> #[trigger] stack[k1] != #[trigger] stack[k2]
    &&& forall|k1: int, k2: int| 0 <= k1 < cur.len() && 0 <= k2 < stack.len() ==> #[trigger] cur[k1] != #[trigger] stack[k2]
}

pub open spec fn ok_cur_nbrs_seen(rows: int, cols: int, member: Seq<bool>, seen: Seq<bool>, cur: Seq<usize>) -> bool {
    forall|k: int, kk: int|
        0 <= k < cur.len() && 0 <= kk < 9 ==> match #[trigger] near8(rows, cols, cur[k] as int, kk) {
            Some(j) => member[j] ==> seen[j],
            None => true,
        }
}

pub open spec fn ok_cur_connected(rows: int, cols: int, cur: Seq<usize>) -> bool {
    forall|k: int| 1 <= k < cur.len() ==> #[trigger] connected_at(rows, cols, cur, k)
}

} // verus!

verus! {

/// What [`groups`] hands back: the 8-connected pieces of the members,
/// each listed once, every member in exactly one, each piece closed
/// (a member touching one of its cells is in it) and connected (every
/// cell after the first touches an earlier one), the pieces in the order
/// of their first cell.
pub open spec fn groups_spec(rows: int, cols: int, member: Seq<bool>, gs: Seq<Seq<usize>>) -> bool {
    let n = rows * cols;
    &&& forall|g: int, k: int|
        0 <= g < gs.len() && 0 <= k < gs[g].len() ==> #[trigger] gs[g][k] < n && member[gs[g][k] as int]
    &&& forall|g: int| 0 <= g < gs.len() ==> #[trigger] gs[g].len() > 0
    &&& forall|g1: int, k1: int, g2: int, k2: int|
        0 <= g1 < gs.len() && 0 <= g2 < gs.len() && 0 <= k1 < gs[g1].len() && 0 <= k2 < gs[g2].len() && #[trigger] gs[g1][k1]
            == #[trigger] gs[g2][k2] ==> g1 == g2 && k1 == k2
    &&& forall|i: int| 0 <= i < n && #[trigger] member[i] ==> exists|g: int, k: int|
        0 <= g < gs.len() && 0 <= k < gs[g].len() && gs[g][k] == i
    &&& forall|g: int, k: int, kk: int|
        0 <= g < gs.len() && 0 <= k < gs[g].len() && 0 <= kk < 9 ==> match #[trigger] near8(rows, cols, gs[g][k] as int, kk) {
            Some(j) => member[j] ==> exists|k2: int| 0 <= k2 < gs[g].len() && gs[g][k2] == j,
            None => true,
        }
    &&& ok_groups_connected(rows, cols, gs)
    &&& forall|g1: int, g2: int| 0 <= g1 < g2 < gs.len() ==> #[trigger] gs[g1][0] < #[trigger] gs[g2][0]
}

/// How many cells are not seen yet.
pub open spec fn count_unseen(s: Seq<bool>) -> nat
    decreases s.len(),
{
    if s.len() == 0 {
        0
    } else {
        count_unseen(s.drop_last()) + if s.last() { 0nat } else { 1nat }
    }
}

proof fn lemma_count_unseen_mark(s: Seq<bool>, i: int)
    requires
        0 <= i < s.len(),
        !s[i],
    ensures
        count_unseen(s.update(i, true)) + 1 == count_unseen(s),
    decreases s.len(),
{
    if i == s.len() - 1 {
        assert(s.update(i, true).drop_last() =~= s.drop_last());
    } else {
        assert(s.update(i, true).drop_last() =~= s.drop_last().update(i, true));
        lemma_count_unseen_mark(s.drop_last(), i);
    }
}

/// One step of the flood at `cell`: its neighbours from offset `kk` on,
/// in offset order, each member not seen yet marked seen and put on the
/// stack.
pub open spec fn push_nbrs(
    rows: int,
    cols: int,
    member: Seq<bool>,
    seen: Seq<bool>,
    stack: Seq<usize>,
    cell: int,
    kk: int,
) -> (Seq<bool>, Seq<usize>)
    decreases 9 - kk,
{
    if kk >= 9 {
        (seen, stack)
    } else {
        match near8(rows, cols, cell, kk) {
            Some(j) => if 0 <= j < seen.len() && !seen[j] && member[j] {
                push_nbrs(rows, cols, member, seen.update(j, true), stack.push(j as usize), cell, kk + 1)
            } else {
                push_nbrs(rows, cols, member, seen, stack, cell, kk + 1)
            },
            None => push_nbrs(rows, cols, member, seen, stack, cell, kk + 1),
        }
    }
}

pub proof fn lemma_push_nbrs_count(
    rows: int,
    cols: int,
    member: Seq<bool>,
    seen: Seq<bool>,
    stack: Seq<usize>,
    cell: int,
    kk: int,
)
    ensures
        push_nbrs(rows, cols, member, seen, stack, cell, kk).0.len() == seen.len(),
        push_nbrs(rows, cols, member, seen, stack, cell, kk).1.len() >= stack.len(),
        count_unseen(push_nbrs(rows, cols, member, seen, stack, cell, kk).0) + push_nbrs(
            rows,
            cols,
            member,
            seen,
            stack,
            cell,
            kk,
        ).1.len() == count_unseen(seen) + stack.len(),
    decreases 9 - kk,
{
    if kk < 9 {
        match near8(rows, cols, cell, kk) {
            Some(j) => if 0 <= j < seen.len() && !seen[j] && member[j] {
                lemma_count_unseen_mark(seen, j);
                lemma_push_nbrs_count(rows, cols, member, seen.update(j, true), stack.push(j as usize), cell, kk + 1);
            } else {
                lemma_push_nbrs_count(rows, cols, member, seen, stack, cell, kk + 1);
            },
            None => lemma_push_nbrs_count(rows, cols, member, seen, stack, cell, kk + 1),
        }
    }
}

/// The depth-first flood: the last cell on the stack is taken off, its
/// unseen member neighbours go on in offset order, and it joins `group`;
/// until the stack is empty. What is seen then, and the group.
pub open spec fn flood(
    rows: int,
    cols: int,
    member: Seq<bool>,
    seen: Seq<bool>,
    stack: Seq<usize>,
    group: Seq<usize>,
) -> (Seq<bool>, Seq<usize>)
    decreases count_unseen(seen), stack.len(),
{
    if stack.len() == 0 {
        (seen, group)
    } else {
        let cell = stack.last();
        let next = push_nbrs(rows, cols, member, seen, stack.drop_last(), cell as int, 0);
        proof {
            lemma_push_nbrs_count(rows, cols, member, seen, stack.drop_last(), cell as int, 0);
        }
        flood(rows, cols, member, next.0, next.1, group.push(cell))
    }
}

/// The groups a flood finds from each member not seen yet, `idx` on, in
/// index order.
pub open spec fn groups_from(rows: int, cols: int, member: Seq<bool>, seen: Seq<bool>, idx: int) -> Seq<Seq<usize>>
    decreases member.len() - idx,
{
    if idx >= member.len() {
        Seq::empty()
    } else if seen[idx] || !member[idx] {
        groups_from(rows, cols, member, seen, idx + 1)
    } else {
        let done = flood(rows, cols, member, seen.update(idx, true), seq![idx as usize], Seq::empty());
        seq![done.1] + groups_from(rows, cols, member, done.0, idx + 1)
    }
}

/// The groups of `member` in the order [`groups`] finds them, each
/// listing its cells in the order the flood takes them.
pub open spec fn flood_groups(rows: int, cols: int, member: Seq<bool>) -> Seq<Seq<usize>> {
    groups_from(rows, cols, member, Seq::new(member.len(), |i: int| false), 0)
}

proof fn lemma_start_group(
    rows: int,
    cols: int,
    member: Seq<bool>,
    seen: Seq<bool>,
    owner: Seq<int>,
    gs: Seq<Seq<usize>>,
    idx: usize,
)
    requires
        groups_ok(rows, cols, member, seen, owner, gs, Seq::empty(), Seq::empty()),
        idx < rows * cols,
        !seen[idx as int],
        member[idx as int],
    ensures
        groups_ok(
            rows,
            cols,
            member,
            seen.update(idx as int, true),
            owner.update(idx as int, gs.len() as int),
            gs,
            Seq::empty(),
            seq![idx],
        ),
{
    let top = gs.len() as int;
    let s2 = seen.update(idx as int, true);
    let o2 = owner.update(idx as int, top);
    let st = seq![idx];
    let n = rows * cols;
    assert forall|i: int| 0 <= i < n && #[trigger] o2[i] == top implies (exists|k: int|
        0 <= k < Seq::<usize>::empty().len() && Seq::<usize>::empty()[k] == i) || (exists|k: int|
        0 <= k < st.len() && st[k] == i) by {
        if i != idx as int {
            assert(owner[i] == top);
            assert(seen[i]);
            assert(false);
        } else {
            assert(st[0] == i);
        }
    }
    assert forall|g: int, k: int, kk: int|
        0 <= g < top && 0 <= k < gs[g].len() && 0 <= kk < 9 implies match #[trigger] near8(rows, cols, gs[g][k] as int, kk) {
            Some(j) => member[j] ==> o2[j] == g,
            None => true,
        } by {
        match near8(rows, cols, gs[g][k] as int, kk) {
            Some(j) => {
                lemma_near8_in_grid(rows, cols, gs[g][k] as int, kk);
                if member[j] && j == idx as int {
                    assert(owner[j] == g);
                    assert(seen[j]);
                }
            },
            None => {},
        }
    }
    assert forall|i: int| 0 <= i < n && 0 <= #[trigger] o2[i] < top implies exists|k: int|
        0 <= k < gs[o2[i]].len() && gs[o2[i]][k] == i by {
        assert(i != idx as int);
        assert(owner[i] == o2[i]);
    }
    assert(ok_seen(n, member, s2, o2, top));
    assert(ok_groups_own(n, o2, gs));
    assert(ok_groups_cover(n, o2, gs));
    assert(ok_groups_distinct(gs));
    assert(ok_groups_closed(rows, cols, member, o2, gs));
    assert(ok_groups_connected(rows, cols, gs));
    assert(ok_cur_own(n, o2, top, Seq::<usize>::empty(), st));
    assert(ok_cur_cover(n, o2, top, Seq::<usize>::empty(), st));
    assert(ok_cur_distinct(Seq::<usize>::empty(), st));
    assert(ok_cur_nbrs_seen(rows, cols, member, s2, Seq::<usize>::empty()));
    assert(ok_cur_connected(rows, cols, Seq::<usize>::empty()));
}

/// The stack's last cell taken off to be grown from: it is kept at the
/// front of the stack's books while its neighbours are marked.
proof fn lemma_take_from_stack(
    rows: int,
    cols: int,
    member: Seq<bool>,
    seen: Seq<bool>,
    owner: Seq<int>,
    gs: Seq<Seq<usize>>,
    cur: Seq<usize>,
    stack: Seq<usize>,
)
    requires
        groups_ok(rows, cols, member, seen, owner, gs, cur, stack),
        stack.len() > 0,
    ensures
        groups_ok(rows, cols, member, seen, owner, gs, cur, seq![stack.last()] + stack.drop_last()),
{
    let st = seq![stack.last()] + stack.drop_last();
    let top = gs.len() as int;
    let n = rows * cols;
    let m = stack.len() - 1;
    // st[0] is stack[m]; st[k] is stack[k - 1] after it.
    assert forall|k: int| 0 <= k < st.len() implies #[trigger] st[k] < n && owner[st[k] as int] == top by {
        if k == 0 {
            assert(st[k] == stack[m]);
        } else {
            assert(st[k] == stack[k - 1]);
        }
    }
    assert forall|i: int| 0 <= i < n && #[trigger] owner[i] == top implies (exists|k: int|
        0 <= k < cur.len() && cur[k] == i) || (exists|k: int| 0 <= k < st.len() && st[k] == i) by {
        if !(exists|k: int| 0 <= k < cur.len() && cur[k] == i) {
            let k = choose|k: int| 0 <= k < stack.len() && stack[k] == i;
            if k == m {
                assert(st[0] == i);
            } else {
                assert(st[k + 1] == i);
            }
        }
    }
    assert forall|k1: int, k2: int| 0 <= k1 < k2 < st.len() implies #[trigger] st[k1] != #[trigger] st[k2] by {
        if k1 == 0 {
            assert(st[k1] == stack[m] && st[k2] == stack[k2 - 1]);
        } else {
            assert(st[k1] == stack[k1 - 1] && st[k2] == stack[k2 - 1]);
        }
    }
    assert forall|k1: int, k2: int| 0 <= k1 < cur.len() && 0 <= k2 < st.len() implies #[trigger] cur[k1]
        != #[trigger] st[k2] by {
        if k2 == 0 {
            assert(st[k2] == stack[m]);
        } else {
            assert(st[k2] == stack[k2 - 1]);
        }
    }
    assert(ok_seen(n, member, seen, owner, top));
    assert(ok_groups_own(n, owner, gs));
    assert(ok_groups_cover(n, owner, gs));
    assert(ok_groups_distinct(gs));
    assert(ok_groups_closed(rows, cols, member, owner, gs));
    assert(ok_groups_connected(rows, cols, gs));
    assert(ok_cur_own(n, owner, top, cur, st));
    assert(ok_cur_cover(n, owner, top, cur, st));
    assert(ok_cur_distinct(cur, st));
    assert(ok_cur_nbrs_seen(rows, cols, member, seen, cur));
    assert(ok_cur_connected(rows, cols, cur));
}

/// Marking an unseen member `j` and queueing it.
proof fn lemma_mark(
    rows: int,
    cols: int,
    member: Seq<bool>,
    seen: Seq<bool>,
    owner: Seq<int>,
    gs: Seq<Seq<usize>>,
    cur: Seq<usize>,
    stack: Seq<usize>,
    j: usize,
)
    requires
        groups_ok(rows, cols, member, seen, owner, gs, cur, stack),
        j < rows * cols,
        !seen[j as int],
        member[j as int],
    ensures
        groups_ok(
            rows,
            cols,
            member,
            seen.update(j as int, true),
            owner.update(j as int, gs.len() as int),
            gs,
            cur,
            stack.push(j),
        ),
{
    let top = gs.len() as int;
    let n = rows * cols;
    let s2 = seen.update(j as int, true);
    let o2 = owner.update(j as int, top);
    let st = stack.push(j);
    assert(owner[j as int] < 0);
    assert forall|k: int| 0 <= k < st.len() implies #[trigger] st[k] < n && o2[st[k] as int] == top by {
        if k < stack.len() {
            assert(st[k] == stack[k]);
        }
    }
    assert forall|k: int| 0 <= k < cur.len() implies #[trigger] cur[k] < n && o2[cur[k] as int] == top by {
        assert(owner[cur[k] as int] == top);
    }
    assert forall|g: int, k: int| 0 <= g < top && 0 <= k < gs[g].len() implies #[trigger] gs[g][k] < n
        && o2[gs[g][k] as int] == g by {
        assert(owner[gs[g][k] as int] == g);
    }
    assert forall|i: int| 0 <= i < n && #[trigger] o2[i] == top implies (exists|k: int|
        0 <= k < cur.len() && cur[k] == i) || (exists|k: int| 0 <= k < st.len() && st[k] == i) by {
        if i == j as int {
            assert(st[stack.len() as int] == i);
        } else {
            assert(owner[i] == top);
            if !(exists|k: int| 0 <= k < cur.len() && cur[k] == i) {
                let k = choose|k: int| 0 <= k < stack.len() && stack[k] == i;
                assert(st[k] == i);
            }
        }
    }
    assert forall|i: int| 0 <= i < n && 0 <= #[trigger] o2[i] < top implies exists|k: int|
        0 <= k < gs[o2[i]].len() && gs[o2[i]][k] == i by {
        assert(i != j as int);
        assert(owner[i] == o2[i]);
    }
    assert forall|k1: int, k2: int| 0 <= k1 < k2 < st.len() implies #[trigger] st[k1] != #[trigger] st[k2] by {
        if k2 == stack.len() {
            assert(owner[stack[k1] as int] == top);
        }
    }
    assert forall|k1: int, k2: int| 0 <= k1 < cur.len() && 0 <= k2 < st.len() implies #[trigger] cur[k1]
        != #[trigger] st[k2] by {
        if k2 == stack.len() {
            assert(owner[cur[k1] as int] == top);
        }
    }
    assert forall|g: int, k: int, kk: int|
        0 <= g < top && 0 <= k < gs[g].len() && 0 <= kk < 9 implies match #[trigger] near8(rows, cols, gs[g][k] as int, kk) {
            Some(x) => member[x] ==> o2[x] == g,
            None => true,
        } by {
        match near8(rows, cols, gs[g][k] as int, kk) {
            Some(x) => {
                lemma_near8_in_grid(rows, cols, gs[g][k] as int, kk);
                if member[x] && x == j as int {
                    assert(owner[x] == g);
                }
            },
            None => {},
        }
    }
    assert forall|k: int, kk: int| 0 <= k < cur.len() && 0 <= kk < 9 implies match #[trigger] near8(
        rows,
        cols,
        cur[k] as int,
        kk,
    ) {
        Some(x) => member[x] ==> s2[x],
        None => true,
    } by {
        match near8(rows, cols, cur[k] as int, kk) {
            Some(x) => {
                lemma_near8_in_grid(rows, cols, cur[k] as int, kk);
            },
            None => {},
        }
    }
    assert(ok_seen(n, member, s2, o2, top));
    assert(ok_groups_own(n, o2, gs));
    assert(ok_groups_cover(n, o2, gs));
    assert(ok_groups_distinct(gs));
    assert(ok_groups_closed(rows, cols, member, o2, gs));
    assert(ok_groups_connected(rows, cols, gs));
    assert(ok_cur_own(n, o2, top, cur, st));
    assert(ok_cur_cover(n, o2, top, cur, st));
    assert(ok_cur_distinct(cur, st));
    assert(ok_cur_nbrs_seen(rows, cols, member, s2, cur));
    assert(ok_cur_connected(rows, cols, cur));
}

/// The cell at the front of the stack's books, its neighbours all seen,
/// joins the group being grown.
proof fn lemma_settle(
    rows: int,
    cols: int,
    member: Seq<bool>,
    seen: Seq<bool>,
    owner: Seq<int>,
    gs: Seq<Seq<usize>>,
    cur: Seq<usize>,
    stack: Seq<usize>,
)
    requires
        groups_ok(rows, cols, member, seen, owner, gs, cur, stack),
        stack.len() > 0,
        forall|kk: int| 0 <= kk < 9 ==> match #[trigger] near8(rows, cols, stack[0] as int, kk) {
            Some(x) => member[x] ==> seen[x],
            None => true,
        },
        cur.len() > 0 ==> touches_some(rows, cols, cur, stack[0] as int),
    ensures
        groups_ok(rows, cols, member, seen, owner, gs, cur.push(stack[0]), stack.drop_first()),
{
    let c = stack[0];
    let cu = cur.push(c);
    let st = stack.drop_first();
    let top = gs.len() as int;
    let n = rows * cols;
    assert forall|k: int| 0 <= k < cu.len() implies #[trigger] cu[k] < n && owner[cu[k] as int] == top by {
        if k < cur.len() {
            assert(cu[k] == cur[k]);
        }
    }
    assert forall|k: int| 0 <= k < st.len() implies #[trigger] st[k] < n && owner[st[k] as int] == top by {
        assert(st[k] == stack[k + 1]);
    }
    assert forall|i: int| 0 <= i < n && #[trigger] owner[i] == top implies (exists|k: int|
        0 <= k < cu.len() && cu[k] == i) || (exists|k: int| 0 <= k < st.len() && st[k] == i) by {
        if exists|k: int| 0 <= k < cur.len() && cur[k] == i {
            let k = choose|k: int| 0 <= k < cur.len() && cur[k] == i;
            assert(cu[k] == i);
        } else {
            let k = choose|k: int| 0 <= k < stack.len() && stack[k] == i;
            if k == 0 {
                assert(cu[cur.len() as int] == i);
            } else {
                assert(st[k - 1] == i);
            }
        }
    }
    assert forall|k1: int, k2: int| 0 <= k1 < k2 < cu.len() implies #[trigger] cu[k1] != #[trigger] cu[k2] by {
        if k2 == cur.len() {
            assert(cur[k1] != stack[0]);
        }
    }
    assert forall|k1: int, k2: int| 0 <= k1 < k2 < st.len() implies #[trigger] st[k1] != #[trigger] st[k2] by {
        assert(stack[k1 + 1] != stack[k2 + 1]);
    }
    assert forall|k1: int, k2: int| 0 <= k1 < cu.len() && 0 <= k2 < st.len() implies #[trigger] cu[k1]
        != #[trigger] st[k2] by {
        if k1 == cur.len() {
            assert(stack[0] != stack[k2 + 1]);
        } else {
            assert(cur[k1] != stack[k2 + 1]);
        }
    }
    assert forall|k: int, kk: int| 0 <= k < cu.len() && 0 <= kk < 9 implies match #[trigger] near8(
        rows,
        cols,
        cu[k] as int,
        kk,
    ) {
        Some(x) => member[x] ==> seen[x],
        None => true,
    } by {
        if k < cur.len() {
            assert(cu[k] == cur[k]);
        }
    }
    assert forall|k: int| 1 <= k < cu.len() implies #[trigger] connected_at(rows, cols, cu, k) by {
        if k < cur.len() {
            assert(connected_at(rows, cols, cur, k));
            let k2 = choose|k2: int| 0 <= k2 < k && adjacent8(rows, cols, cur[k2] as int, cur[k] as int);
            assert(cu[k2] == cur[k2] && cu[k] == cur[k]);
        } else {
            let k2 = choose|k2: int| 0 <= k2 < cur.len() && adjacent8(rows, cols, cur[k2] as int, stack[0] as int);
            assert(cu[k2] == cur[k2]);
            assert(cu[k] == stack[0]);
        }
    }
    assert(ok_seen(n, member, seen, owner, top));
    assert(ok_groups_own(n, owner, gs));
    assert(ok_groups_cover(n, owner, gs));
    assert(ok_groups_distinct(gs));
    assert(ok_groups_closed(rows, cols, member, owner, gs));
    assert(ok_groups_connected(rows, cols, gs));
    assert(ok_cur_own(n, owner, top, cu, st));
    assert(ok_cur_cover(n, owner, top, cu, st));
    assert(ok_cur_distinct(cu, st));
    assert(ok_cur_nbrs_seen(rows, cols, member, seen, cu));
    assert(ok_cur_connected(rows, cols, cu));
}

proof fn lemma_push_connected(rows: int, cols: int, gs: Seq<Seq<usize>>, cur: Seq<usize>)
    requires
        ok_groups_connected(rows, cols, gs),
        ok_cur_connected(rows, cols, cur),
    ensures
        ok_groups_connected(rows, cols, gs.push(cur)),
{
    let g2 = gs.push(cur);
    assert forall|g: int, k: int| 0 <= g < g2.len() && 1 <= k < g2[g].len() implies #[trigger] connected_at(
        rows,
        cols,
        g2[g],
        k,
    ) by {
        if g < gs.len() {
            assert(g2[g] == gs[g]);
            assert(connected_at(rows, cols, gs[g], k));
        } else {
            assert(g2[g] == cur);
            assert(connected_at(rows, cols, cur, k));
        }
    }
}

/// The grown group, with nothing left on the stack, is closed and joins
/// the finished ones.
proof fn lemma_close_group(
    rows: int,
    cols: int,
    member: Seq<bool>,
    seen: Seq<bool>,
    owner: Seq<int>,
    gs: Seq<Seq<usize>>,
    cur: Seq<usize>,
)
    requires
        groups_ok(rows, cols, member, seen, owner, gs, cur, Seq::empty()),
        cur.len() > 0,
        cols > 0,
    ensures
        groups_ok(rows, cols, member, seen, owner, gs.push(cur), Seq::empty(), Seq::empty()),
{
    let top = gs.len() as int;
    let g2 = gs.push(cur);
    let n = rows * cols;
    let e = Seq::<usize>::empty();
    assert(g2.len() == top + 1);
    assert forall|g: int, k: int| 0 <= g < top + 1 && 0 <= k < g2[g].len() implies #[trigger] g2[g][k] < n
        && owner[g2[g][k] as int] == g by {
        if g < top {
            assert(g2[g] == gs[g]);
        } else {
            assert(g2[g] == cur);
        }
    }
    assert forall|g: int| 0 <= g < top + 1 implies #[trigger] g2[g].len() > 0 by {
        if g < top {
            assert(g2[g] == gs[g]);
        }
    }
    assert forall|i: int| 0 <= i < n && 0 <= #[trigger] owner[i] < top + 1 implies exists|k: int|
        0 <= k < g2[owner[i]].len() && g2[owner[i]][k] == i by {
        if owner[i] < top {
            let k = choose|k: int| 0 <= k < gs[owner[i]].len() && gs[owner[i]][k] == i;
            assert(g2[owner[i]] == gs[owner[i]]);
        } else {
            let k = choose|k: int| 0 <= k < cur.len() && cur[k] == i;
            assert(g2[owner[i]] == cur);
        }
    }
    assert forall|g: int, k1: int, k2: int| 0 <= g < top + 1 && 0 <= k1 < k2 < g2[g].len() implies #[trigger] g2[g][k1]
        != #[trigger] g2[g][k2] by {
        if g < top {
            assert(g2[g] == gs[g]);
        } else {
            assert(g2[g] == cur);
        }
    }
    assert forall|g: int, k: int, kk: int|
        0 <= g < top + 1 && 0 <= k < g2[g].len() && 0 <= kk < 9 implies match #[trigger] near8(
            rows,
            cols,
            g2[g][k] as int,
            kk,
        ) {
            Some(j) => member[j] ==> owner[j] == g,
            None => true,
        } by {
        if g < top {
            assert(g2[g] == gs[g]);
        } else {
            assert(g2[g] == cur);
            let c = cur[k];
            match near8(rows, cols, c as int, kk) {
                Some(j) => {
                    if member[j] {
                        lemma_near8_in_grid(rows, cols, c as int, kk);
                        assert(seen[j]);
                        if owner[j] < top {
                            // j's group is closed, and c touches j: c would be in it
                            let h = owner[j];
                            let kj = choose|kj: int| 0 <= kj < gs[h].len() && gs[h][kj] == j;
                            lemma_near8_symmetric(rows, cols, c as int, kk);
                            assert(near8(rows, cols, gs[h][kj] as int, 8 - kk) == Some(c as int));
                            assert(owner[c as int] == top);
                            assert(seen[c as int]);
                            assert(member[c as int]);
                            assert(owner[c as int] == h);
                            assert(false);
                        }
                    }
                },
                None => {},
            }
        }
    }
    lemma_push_connected(rows, cols, gs, cur);
    assert forall|i: int| 0 <= i < n && #[trigger] owner[i] == top + 1 implies (exists|k: int|
        0 <= k < e.len() && e[k] == i) || (exists|k: int| 0 <= k < e.len() && e[k] == i) by {
        assert(seen[i] == (owner[i] >= 0));
        assert(owner[i] <= top);
    }
    assert(ok_seen(n, member, seen, owner, top + 1));
    assert(ok_groups_own(n, owner, g2));
    assert(ok_groups_cover(n, owner, g2));
    assert(ok_groups_distinct(g2));
    assert(ok_groups_closed(rows, cols, member, owner, g2));
    assert(ok_groups_connected(rows, cols, g2));
    assert(ok_cur_own(n, owner, top + 1, e, e));
    assert(ok_cur_cover(n, owner, top + 1, e, e));
    assert(ok_cur_distinct(e, e));
    assert(ok_cur_nbrs_seen(rows, cols, member, seen, e));
    assert(ok_cur_connected(rows, cols, e));
}

} // verus!

verus! {

proof fn lemma_groups_finished(
    rows: int,
    cols: int,
    member: Seq<bool>,
    seen: Seq<bool>,
    owner: Seq<int>,
    gs: Seq<Seq<usize>>,
)
    requires
        groups_ok(rows, cols, member, seen, owner, gs, Seq::empty(), Seq::empty()),
        forall|i: int| 0 <= i < rows * cols && #[trigger] member[i] ==> seen[i],
        forall|g1: int, g2: int| 0 <= g1 < g2 < gs.len() ==> #[trigger] gs[g1][0] < #[trigger] gs[g2][0],
    ensures
        groups_spec(rows, cols, member, gs),
{
    let n = rows * cols;
    let top = gs.len() as int;
    assert forall|g: int, k: int| 0 <= g < gs.len() && 0 <= k < gs[g].len() implies #[trigger] gs[g][k] < n
        && member[gs[g][k] as int] by {
        let i = gs[g][k] as int;
        assert(owner[i] == g);
        assert(seen[i]);
    }
    assert forall|g1: int, k1: int, g2: int, k2: int|
        0 <= g1 < gs.len() && 0 <= g2 < gs.len() && 0 <= k1 < gs[g1].len() && 0 <= k2 < gs[g2].len() && #[trigger] gs[g1][k1]
            == #[trigger] gs[g2][k2] implies g1 == g2 && k1 == k2 by {
        assert(owner[gs[g1][k1] as int] == g1);
        assert(owner[gs[g2][k2] as int] == g2);
        if k1 < k2 {
            assert(gs[g1][k1] != gs[g1][k2]);
        } else if k2 < k1 {
            assert(gs[g1][k2] != gs[g1][k1]);
        }
    }
    assert forall|i: int| 0 <= i < n && #[trigger] member[i] implies exists|g: int, k: int|
        0 <= g < gs.len() && 0 <= k < gs[g].len() && gs[g][k] == i by {
        assert(seen[i]);
        if owner[i] == top {
            assert(false);
        }
        let g = owner[i];
        let k = choose|k: int| 0 <= k < gs[g].len() && gs[g][k] == i;
        assert(0 <= g < gs.len() && 0 <= k < gs[g].len() && gs[g][k] == i);
    }
    assert forall|g: int, k: int, kk: int|
        0 <= g < gs.len() && 0 <= k < gs[g].len() && 0 <= kk < 9 implies match #[trigger] near8(
            rows,
            cols,
            gs[g][k] as int,
            kk,
        ) {
            Some(j) => member[j] ==> exists|k2: int| 0 <= k2 < gs[g].len() && gs[g][k2] == j,
            None => true,
        } by {
        match near8(rows, cols, gs[g][k] as int, kk) {
            Some(j) => {
                if member[j] {
                    lemma_near8_in_grid(rows, cols, gs[g][k] as int, kk);
                    assert(owner[j] == g);
                }
            },
            None => {},
        }
    }
}

/// The 8-connected pieces of the cells `member` marks, found by a
/// depth-first flood from each member not yet in a piece, in index
/// order. Each piece lists its cells in the order the flood took them
/// ([`flood_groups`]): the stack's last cell first, its neighbours pushed
/// row by row of its 3×3 block.
pub fn groups(rows: usize, cols: usize, member: &Vec<bool>) -> (out: Vec<Vec<usize>>)
    requires
        member@.len() == rows * cols,
        rows * cols <= usize::MAX,
    ensures
        groups_spec(rows as int, cols as int, member@, out@.map_values(|g: Vec<usize>| g@)),
        forall|g: int, k: int|
            0 <= g < out@.len() && 0 <= k < out@[g]@.len() ==> out@[g]@[0] <= #[trigger] out@[g]@[k],
        out@.map_values(|g: Vec<usize>| g@) == flood_groups(rows as int, cols as int, member@),
{
    let ghost r = rows as int;
    let ghost c = cols as int;
    let n = member.len();
    let mut seen: Vec<bool> = filled(n, false);
    let ghost mut owner: Seq<int> = Seq::new(n as nat, |i: int| -1int);
    let ghost mut gs: Seq<Seq<usize>> = Seq::empty();
    let mut out: Vec<Vec<usize>> = Vec::new();
    let ghost target = flood_groups(r, c, member@);
    proof {
        assert(out@.map_values(|g: Vec<usize>| g@) =~= gs);
        assert(seen@ =~= Seq::new(member@.len(), |i: int| false));
        assert(gs + groups_from(r, c, member@, seen@, 0) =~= target);
    }
    let mut idx: usize = 0;
    while idx < n
        invariant
            n == rows * cols,
            r == rows as int,
            c == cols as int,
            rows * cols <= usize::MAX,
            member@.len() == n,
            idx <= n,
            groups_ok(r, c, member@, seen@, owner, gs, Seq::empty(), Seq::empty()),
            out@.map_values(|g: Vec<usize>| g@) == gs,
            target == flood_groups(r, c, member@),
            gs + groups_from(r, c, member@, seen@, idx as int) == target,
            forall|i: int| 0 <= i < idx && #[trigger] member@[i] ==> seen@[i],
            forall|g: int| 0 <= g < gs.len() ==> #[trigger] gs[g][0] < idx,
            forall|g1: int, g2: int| 0 <= g1 < g2 < gs.len() ==> #[trigger] gs[g1][0] < #[trigger] gs[g2][0],
            forall|g: int, k: int| 0 <= g < gs.len() && 0 <= k < gs[g].len() ==> gs[g][0] <= #[trigger] gs[g][k],
        decreases n - idx,
    {
        if seen[idx] || !member[idx] {
            proof {
                assert(groups_from(r, c, member@, seen@, idx as int) == groups_from(r, c, member@, seen@, idx + 1));
            }
            idx += 1;
            continue;
        }
        let ghost seen_pre = seen@;
        proof {
            assert(c > 0) by (nonlinear_arith)
                requires
                    idx < r * c,
                    r >= 0,
                    c >= 0,
            ;
            lemma_start_group(r, c, member@, seen@, owner, gs, idx);
            owner = owner.update(idx as int, gs.len() as int);
        }
        seen.set(idx, true);
        let ghost fl = flood(r, c, member@, seen@, seq![idx], Seq::empty());
        proof {
            assert(groups_from(r, c, member@, seen_pre, idx as int) == seq![fl.1] + groups_from(
                r,
                c,
                member@,
                fl.0,
                idx + 1,
            ));
        }
        let mut group: Vec<usize> = Vec::new();
        let mut stack: Vec<usize> = Vec::new();
        stack.push(idx);
        proof {
            assert(stack@ =~= seq![idx]);
            assert(group@ =~= Seq::<usize>::empty());
        }
        while stack.len() > 0
            invariant
                n == rows * cols,
                r == rows as int,
                c == cols as int,
                rows * cols <= usize::MAX,
                member@.len() == n,
                idx < n,
                c > 0,
                groups_ok(r, c, member@, seen@, owner, gs, group@, stack@),
                out@.map_values(|g: Vec<usize>| g@) == gs,
                flood(r, c, member@, seen@, stack@, group@) == fl,
                group@.len() == 0 ==> stack@ == seq![idx],
                group@.len() > 0 ==> group@[0] == idx,
                forall|k: int|
                    0 <= k < stack@.len() && group@.len() > 0 ==> #[trigger] touches_some(r, c, group@, stack@[k] as int),
                forall|i: int| 0 <= i < idx && #[trigger] member@[i] ==> seen@[i],
                seen@[idx as int],
                forall|g: int| 0 <= g < gs.len() ==> #[trigger] gs[g][0] < idx,
                forall|g1: int, g2: int| 0 <= g1 < g2 < gs.len() ==> #[trigger] gs[g1][0] < #[trigger] gs[g2][0],
                forall|g: int, k: int| 0 <= g < gs.len() && 0 <= k < gs[g].len() ==> gs[g][0] <= #[trigger] gs[g][k],
                forall|k: int| 0 <= k < group@.len() ==> idx <= #[trigger] group@[k],
                forall|k: int| 0 <= k < stack@.len() ==> idx <= #[trigger] stack@[k],
            decreases count_unseen(seen@), stack@.len(),
        {
            let ghost unseen0 = count_unseen(seen@);
            let ghost len0 = stack@.len();
            let ghost stack_b = stack@;
            proof {
                lemma_take_from_stack(r, c, member@, seen@, owner, gs, group@, stack@);
            }
            let cell = stack.pop().unwrap();
            let ghost base = stack@.len();
            let ghost nxt = push_nbrs(r, c, member@, seen@, stack@, cell as int, 0);
            proof {
                assert(cell == stack_b.last() && stack@ == stack_b.drop_last());
                assert(flood(r, c, member@, nxt.0, nxt.1, group@.push(cell)) == fl);
            }
            proof {
                assert(seq![cell] + stack@ =~= seq![stack@.len() as int].map_values(|x: int| cell) + stack@);
            }
            let mut kk: usize = 0;
            while kk < 9
                invariant
                    n == rows * cols,
                    r == rows as int,
                    c == cols as int,
                    rows * cols <= usize::MAX,
                    member@.len() == n,
                    idx < n,
                    cell < n,
                    c > 0,
                    kk <= 9,
                    base <= stack@.len(),
                    groups_ok(r, c, member@, seen@, owner, gs, group@, seq![cell] + stack@),
                    out@.map_values(|g: Vec<usize>| g@) == gs,
                    push_nbrs(r, c, member@, seen@, stack@, cell as int, kk as int) == nxt,
                    forall|j: int|
                        0 <= j < kk ==> match #[trigger] near8(r, c, cell as int, j) {
                            Some(x) => member@[x] ==> seen@[x],
                            None => true,
                        },
                    forall|k: int|
                        0 <= k < base && group@.len() > 0 ==> #[trigger] touches_some(r, c, group@, stack@[k] as int),
                    forall|k: int| base <= k < stack@.len() ==> adjacent8(r, c, cell as int, #[trigger] stack@[k] as int),
                    group@.len() == 0 ==> base == 0 && cell == idx,
                    count_unseen(seen@) + (stack@.len() - base) == unseen0,
                    base + 1 == len0,
                    forall|i: int| 0 <= i < idx && #[trigger] member@[i] ==> seen@[i],
                    seen@[idx as int],
                    forall|k: int| 0 <= k < group@.len() ==> idx <= #[trigger] group@[k],
                    forall|k: int| 0 <= k < stack@.len() ==> idx <= #[trigger] stack@[k],
                    idx <= cell,
                decreases 9 - kk,
            {
                let nb = near(rows, cols, cell, kk);
                let ghost nb_spec = near8(r, c, cell as int, kk as int);
                assert(match nb {
                    Some(j) => nb_spec == Some(j as int),
                    None => nb_spec is None,
                });
                match nb {
                    Some(j) => {
                        if !seen[j] && member[j] {
                            proof {
                                lemma_mark(r, c, member@, seen@, owner, gs, group@, seq![cell] + stack@, j);
                                lemma_count_unseen_mark(seen@, j as int);
                                owner = owner.update(j as int, gs.len() as int);
                                assert((seq![cell] + stack@).push(j) =~= seq![cell] + stack@.push(j));
                                assert(kk != 4) by {
                                    assert(near8(r, c, cell as int, 4) == Some(cell as int)) by {
                                        lemma_row_of_index(cell as int, r, c);
                                    }
                                    assert(seen@[cell as int]) by {
                                        assert((seq![cell] + stack@)[0] == cell);
                                    }
                                }
                            }
                            let ghost before = stack@;
                            let ghost seen_before = seen@;
                            seen.set(j, true);
                            stack.push(j);
                            proof {
                                assert forall|jj: int| 0 <= jj < kk + 1 implies match #[trigger] near8(r, c, cell as int, jj) {
                                    Some(x) => member@[x] ==> seen@[x],
                                    None => true,
                                } by {
                                    match near8(r, c, cell as int, jj) {
                                        Some(x) => {
                                            lemma_near8_in_grid(r, c, cell as int, jj);
                                            if jj < kk {
                                                if member@[x] {
                                                    assert(seen_before[x]);
                                                }
                                            }
                                        },
                                        None => {},
                                    }
                                }
                                assert(adjacent8(r, c, cell as int, j as int)) by {
                                    assert(near8(r, c, cell as int, kk as int) == Some(j as int));
                                }
                                assert forall|k: int| 0 <= k < base && group@.len() > 0 implies #[trigger] touches_some(
                                    r,
                                    c,
                                    group@,
                                    stack@[k] as int,
                                ) by {
                                    assert(stack@[k] == before[k]);
                                }
                                assert forall|k: int| base <= k < stack@.len() implies adjacent8(r, c, cell as int, #[trigger] stack@[k] as int) by {
                                    if k < before.len() {
                                        assert(stack@[k] == before[k]);
                                    }
                                }
                                assert(idx <= j) by {
                                    if j < idx {
                                        assert(seen_before[j as int]);
                                    }
                                }
                                assert forall|k: int| 0 <= k < stack@.len() implies idx <= #[trigger] stack@[k] by {
                                    if k < before.len() {
                                        assert(stack@[k] == before[k]);
                                    }
                                }
                            }
                        }
                    },
                    None => {},
                }
                kk += 1;
            }
            proof {
                let st = seq![cell] + stack@;
                assert(st[0] == cell);
                if group@.len() > 0 {
                    // cell was on the stack before, touching the group
                    assert(touches_some(r, c, group@, cell as int));
                }
                lemma_settle(r, c, member@, seen@, owner, gs, group@, st);
                assert(st.drop_first() =~= stack@);
            }
            let ghost gbefore = group@;
            group.push(cell);
            proof {
                assert forall|k: int| 0 <= k < group@.len() implies idx <= #[trigger] group@[k] by {
                    if k < gbefore.len() {
                        assert(group@[k] == gbefore[k]);
                    }
                }
                assert forall|k: int| 0 <= k < stack@.len() && group@.len() > 0 implies #[trigger] touches_some(
                    r,
                    c,
                    group@,
                    stack@[k] as int,
                ) by {
                    if k >= base {
                        assert(group@[gbefore.len() as int] == cell);
                        assert(adjacent8(r, c, group@[gbefore.len() as int] as int, stack@[k] as int));
                    } else {
                        assert(touches_some(r, c, gbefore, stack@[k] as int));
                        let k2 = choose|k2: int| 0 <= k2 < gbefore.len() && adjacent8(r, c, gbefore[k2] as int, stack@[k] as int);
                        assert(group@[k2] == gbefore[k2]);
                    }
                }
            }
        }
        proof {
            assert(stack@ =~= Seq::<usize>::empty());
            lemma_close_group(r, c, member@, seen@, owner, gs, group@);
        }
        let ghost g_done = group@;
        out.push(group);
        proof {
            gs = gs.push(g_done);
            assert(out@.map_values(|g: Vec<usize>| g@) =~= gs);
            assert(gs[gs.len() - 1][0] == idx);
            assert forall|g: int, k: int| 0 <= g < gs.len() && 0 <= k < gs[g].len() implies gs[g][0] <= #[trigger] gs[g][k] by {
                if g == gs.len() - 1 {
                    assert(gs[g] == g_done);
                    assert(idx <= g_done[k]);
                }
            }
        }
        idx += 1;
    }
    proof {
        lemma_groups_finished(r, c, member@, seen@, owner, gs);
        assert forall|g: int, k: int| 0 <= g < out@.len() && 0 <= k < out@[g]@.len() implies out@[g]@[0]
            <= #[trigger] out@[g]@[k] by {
            assert(out@[g]@ == gs[g]);
        }
    }
    out
}

} // verus!

verus! {

/// The live frontier cells: frontier cells the sensor has not already
/// spoken for (`killed` marks those within reach of something it met).
pub fn live_frontier_mask(grid: &Grid, killed: &Vec<bool>) -> (mask: Vec<bool>)
    requires
        grid.wf(),
        killed@.len() == grid.rows * grid.cols,
    ensures
        mask@.len() == grid.rows * grid.cols,
        forall|i: int|
            0 <= i < grid.rows * grid.cols ==> #[trigger] mask@[i] == (spec_is_frontier(*grid, i) && !killed@[i]),
{
    let n = grid.cells.len();
    let mut mask: Vec<bool> = Vec::new();
    let mut i: usize = 0;
    while i < n
        invariant
            grid.wf(),
            n == grid.rows * grid.cols,
            killed@.len() == n,
            i <= n,
            mask@.len() == i,
            forall|j: int| 0 <= j < i ==> #[trigger] mask@[j] == (spec_is_frontier(*grid, j) && !killed@[j]),
        decreases n - i,
    {
        let live = is_frontier(grid, i) && !killed[i];
        mask.push(live);
        i += 1;
    }
    mask
}

/// The cells of `mask` a search reached.
pub fn reached_mask(mask: &Vec<bool>, dist: &Vec<u32>) -> (out: Vec<bool>)
    requires
        mask@.len() == dist@.len(),
    ensures
        out@.len() == mask@.len(),
        forall|i: int| 0 <= i < mask@.len() ==> #[trigger] out@[i] == (mask@[i] && dist@[i] != UNREACHED),
{
    let mut out: Vec<bool> = Vec::new();
    let mut i: usize = 0;
    while i < mask.len()
        invariant
            mask@.len() == dist@.len(),
            i <= mask@.len(),
            out@.len() == i,
            forall|j: int| 0 <= j < i ==> #[trigger] out@[j] == (mask@[j] && dist@[j] != UNREACHED),
        decreases mask@.len() - i,
    {
        out.push(mask[i] && dist[i] != UNREACHED);
        i += 1;
    }
    out
}

/// The longest of `gs`, 0 when there is none.
pub open spec fn max_len(gs: Seq<Seq<usize>>) -> nat
    decreases gs.len(),
{
    if gs.len() == 0 {
        0
    } else {
        let m = max_len(gs.drop_last());
        if gs.last().len() > m { gs.last().len() } else { m }
    }
}

/// The size of the largest frontier group on the map, reachable or not:
/// what "big frontiers remain" means for the map as a whole. The
/// pieces of a mask are one and the same however they are listed, so
/// this is the size of the largest 8-connected piece of live frontier
/// cells.
pub fn largest_frontier(grid: &Grid, killed: &Vec<bool>) -> (best: usize)
    requires
        grid.wf(),
        killed@.len() == grid.rows * grid.cols,
    ensures
        exists|mask: Seq<bool>, gs: Seq<Seq<usize>>|
            {
                &&& mask.len() == grid.rows * grid.cols
                &&& (forall|i: int|
                    0 <= i < grid.rows * grid.cols ==> #[trigger] mask[i] == (spec_is_frontier(*grid, i) && !killed@[i]))
                &&& groups_spec(grid.rows as int, grid.cols as int, mask, gs)
                &&& best == max_len(gs)
            },
{
    let n = grid.cells.len();
    let mask = live_frontier_mask(grid, killed);
    let gs = groups(grid.rows, grid.cols, &mask);
    let ghost view = gs@.map_values(|g: Vec<usize>| g@);
    let mut best: usize = 0;
    let mut g: usize = 0;
    while g < gs.len()
        invariant
            view == gs@.map_values(|g: Vec<usize>| g@),
            g <= gs@.len(),
            best == max_len(view.take(g as int)),
        decreases gs@.len() - g,
    {
        proof {
            assert(view.take(g + 1).drop_last() =~= view.take(g as int));
            assert(view.take(g + 1).last() == gs@[g as int]@);
        }
        if gs[g].len() > best {
            best = gs[g].len();
        }
        g += 1;
    }
    proof {
        assert(view.take(gs@.len() as int) =~= view);
        assert(groups_spec(grid.rows as int, grid.cols as int, mask@, view));
    }
    best
}

/// The frontier cells among the first `m`, as a set.
pub open spec fn frontier_set(grid: Grid, m: int) -> Set<int> {
    Set::new(|i: int| 0 <= i < m && spec_is_frontier(grid, i))
}

proof fn lemma_frontier_set_count(grid: Grid, m: int)
    requires
        0 <= m,
    ensures
        frontier_set(grid, m).finite(),
        frontier_set(grid, m).len() == frontier_count(grid, m),
    decreases m,
{
    if m == 0 {
        assert(frontier_set(grid, 0) =~= Set::<int>::empty());
    } else {
        lemma_frontier_set_count(grid, m - 1);
        if spec_is_frontier(grid, m - 1) {
            assert(frontier_set(grid, m) =~= frontier_set(grid, m - 1).insert(m - 1));
        } else {
            assert(frontier_set(grid, m) =~= frontier_set(grid, m - 1));
        }
    }
}

proof fn lemma_frontier_count_witness(grid: Grid, m: int)
    requires
        frontier_count(grid, m) > 0,
    ensures
        exists|i: int| 0 <= i < m && spec_is_frontier(grid, i),
    decreases m,
{
    if m > 0 && !spec_is_frontier(grid, m - 1) {
        lemma_frontier_count_witness(grid, m - 1);
    }
}

proof fn lemma_max_len_bounds(gs: Seq<Seq<usize>>, b: nat)
    requires
        forall|g: int| 0 <= g < gs.len() ==> #[trigger] gs[g].len() <= b,
    ensures
        max_len(gs) <= b,
        forall|g: int| 0 <= g < gs.len() ==> #[trigger] gs[g].len() <= max_len(gs),
    decreases gs.len(),
{
    if gs.len() > 0 {
        let front = gs.drop_last();
        assert forall|g: int| 0 <= g < front.len() implies #[trigger] front[g].len() <= b by {
            assert(front[g] == gs[g]);
        }
        lemma_max_len_bounds(front, b);
        assert forall|g: int| 0 <= g < gs.len() implies #[trigger] gs[g].len() <= max_len(gs) by {
            if g < front.len() {
                assert(front[g] == gs[g]);
            }
        }
    }
}

/// The largest frontier group is never larger than the count of frontier
/// cells: whatever the sensor has spoken for, [`largest_frontier`] is at
/// most [`frontier_cells`]. With nothing spoken for, it is 0 exactly when
/// there is no frontier cell at all (a closed room).
pub proof fn largest_frontier_within_frontier_cells(
    grid: Grid,
    killed: Seq<bool>,
    mask: Seq<bool>,
    gs: Seq<Seq<usize>>,
)
    requires
        grid.wf(),
        killed.len() == grid.rows * grid.cols,
        mask.len() == grid.rows * grid.cols,
        forall|i: int|
            0 <= i < grid.rows * grid.cols ==> #[trigger] mask[i] == (spec_is_frontier(grid, i) && !killed[i]),
        groups_spec(grid.rows as int, grid.cols as int, mask, gs),
    ensures
        max_len(gs) <= frontier_count(grid, grid.rows * grid.cols),
        (forall|i: int| 0 <= i < killed.len() ==> !#[trigger] killed[i]) ==> (max_len(gs) == 0 <==> frontier_count(
            grid,
            grid.rows * grid.cols,
        ) == 0),
{
    let n = grid.rows * grid.cols;
    assert(n == grid.cells@.len());
    lemma_frontier_set_count(grid, n);
    let all = frontier_set(grid, n);
    let b = frontier_count(grid, n);
    assert forall|g: int| 0 <= g < gs.len() implies #[trigger] gs[g].len() <= b by {
        let s = gs[g].map_values(|x: usize| x as int);
        assert(s.no_duplicates()) by {
            assert forall|k1: int, k2: int| 0 <= k1 < s.len() && 0 <= k2 < s.len() && k1 != k2 implies s[k1]
                != s[k2] by {
                if gs[g][k1] == gs[g][k2] {
                    assert(k1 == k2);
                }
            }
        }
        s.unique_seq_to_set();
        assert(s.to_set().subset_of(all)) by {
            assert forall|x: int| s.to_set().contains(x) implies all.contains(x) by {
                let k = choose|k: int| 0 <= k < s.len() && s[k] == x;
                assert(gs[g][k] < n && mask[gs[g][k] as int]);
            }
        }
        vstd::set_lib::lemma_len_subset(s.to_set(), all);
    }
    lemma_max_len_bounds(gs, b);
    if (forall|i: int| 0 <= i < killed.len() ==> !#[trigger] killed[i]) && b > 0 {
        lemma_frontier_count_witness(grid, n);
        let i = choose|i: int| 0 <= i < n && spec_is_frontier(grid, i);
        assert(!killed[i]);
        assert(mask[i]);
        let (g, k) = choose|g: int, k: int| 0 <= g < gs.len() && 0 <= k < gs[g].len() && gs[g][k] == i;
        assert(gs[g].len() <= max_len(gs));
    }
}

} // verus!

verus! {

/// Offset `a` of `0..=2r` as a signed step `a - r`.
pub open spec fn off(a: int, r: int) -> int {
    a - r
}

/// Whether offset `(a, b)` around `(row, col)` lands on passable floor.
pub open spec fn start_candidate(map: Costmap, row: int, col: int, r: int, a: int, b: int) -> bool {
    &&& 0 <= a <= 2 * r
    &&& 0 <= b <= 2 * r
    &&& row + off(a, r) >= 0
    &&& col + off(b, r) >= 0
    &&& map.spec_at(row + off(a, r), col + off(b, r)) > 0
}

/// The squared distance of offset `(a, b)`.
pub open spec fn sq(a: int, b: int, r: int) -> int {
    off(a, r) * off(a, r) + off(b, r) * off(b, r)
}

/// `(a, b)` is no worse than `(a2, b2)`: nearer, or as near and no later
/// in the scan (rows of offsets first).
pub open spec fn start_before(r: int, a: int, b: int, a2: int, b2: int) -> bool {
    sq(a, b, r) < sq(a2, b2, r) || (sq(a, b, r) == sq(a2, b2, r) && (a < a2 || (a == a2 && b <= b2)))
}

/// The nearest passable cell to `(row, col)` within `r` cells each way —
/// the robot's own cell is often unknown or inside the wall inflation,
/// because the sensor looks ahead, not down. Of equally near cells, the
/// first in row-major order of offsets.
pub fn start_cell(map: &Costmap, row: usize, col: usize, r: usize) -> (best: Option<(usize, usize)>)
    requires
        map.wf(),
        row < map.rows,
        col < map.cols,
        r < 0x4000_0000,
        map.rows + 2 * r <= usize::MAX,
        map.cols + 2 * r <= usize::MAX,
    ensures
        match best {
            None => forall|a: int, b: int| !start_candidate(*map, row as int, col as int, r as int, a, b),
            Some((rr, cc)) => exists|a: int, b: int|
                {
                    &&& start_candidate(*map, row as int, col as int, r as int, a, b)
                    &&& rr == row + off(a, r as int)
                    &&& cc == col + off(b, r as int)
                    &&& forall|a2: int, b2: int|
                        #[trigger] start_candidate(*map, row as int, col as int, r as int, a2, b2) ==> start_before(
                            r as int,
                            a,
                            b,
                            a2,
                            b2,
                        )
                },
        },
{
    let span = 2 * r;
    let mut best: Option<(usize, usize)> = None;
    let mut best_d: u64 = 0;
    let ghost mut ba: int = 0;
    let ghost mut bb: int = 0;
    let mut a: usize = 0;
    while a <= span
        invariant
            map.wf(),
            row < map.rows,
            col < map.cols,
            r < 0x4000_0000,
            span == 2 * r,
            map.rows + 2 * r <= usize::MAX,
            map.cols + 2 * r <= usize::MAX,
            a <= span + 1,
            match best {
                None => forall|a2: int, b2: int|
                    a2 < a ==> !#[trigger] start_candidate(*map, row as int, col as int, r as int, a2, b2),
                Some((rr, cc)) => {
                    &&& start_candidate(*map, row as int, col as int, r as int, ba, bb)
                    &&& rr == row + off(ba, r as int)
                    &&& cc == col + off(bb, r as int)
                    &&& best_d == sq(ba, bb, r as int)
                    &&& ba < a
                    &&& forall|a2: int, b2: int|
                        a2 < a && #[trigger] start_candidate(*map, row as int, col as int, r as int, a2, b2)
                            ==> start_before(r as int, ba, bb, a2, b2)
                },
            },
        decreases span + 1 - a,
    {
        let mut b: usize = 0;
        proof {
            if best is None {
                assert forall|a2: int, b2: int| (a2 < a || (a2 == a && b2 < b)) implies !start_candidate(
                    *map,
                    row as int,
                    col as int,
                    r as int,
                    a2,
                    b2,
                ) by {
                    if a2 < a {
                        assert(!start_candidate(*map, row as int, col as int, r as int, a2, b2));
                    }
                }
            }
        }
        while b <= span
            invariant
                map.wf(),
                row < map.rows,
                col < map.cols,
                r < 0x4000_0000,
                span == 2 * r,
                map.rows + 2 * r <= usize::MAX,
                map.cols + 2 * r <= usize::MAX,
                a <= span,
                b <= span + 1,
                match best {
                    None => forall|a2: int, b2: int|
                        (a2 < a || (a2 == a && b2 < b)) ==> !#[trigger] start_candidate(
                            *map,
                            row as int,
                            col as int,
                            r as int,
                            a2,
                            b2,
                        ),
                    Some((rr, cc)) => {
                        &&& start_candidate(*map, row as int, col as int, r as int, ba, bb)
                        &&& rr == row + off(ba, r as int)
                        &&& cc == col + off(bb, r as int)
                        &&& best_d == sq(ba, bb, r as int)
                        &&& (ba < a || (ba == a && bb < b))
                        &&& forall|a2: int, b2: int|
                            (a2 < a || (a2 == a && b2 < b)) && #[trigger] start_candidate(
                                *map,
                                row as int,
                                col as int,
                                r as int,
                                a2,
                                b2,
                            ) ==> start_before(r as int, ba, bb, a2, b2)
                    },
                },
            decreases span + 1 - b,
        {
            // rr = row + a - r and cc = col + b - r, when not negative
            if row + a >= r && col + b >= r {
                let rr = row + a - r;
                let cc = col + b - r;
                if map.at(rr, cc) != 0 {
                    let da: u64 = if a >= r { (a - r) as u64 } else { (r - a) as u64 };
                    let db: u64 = if b >= r { (b - r) as u64 } else { (r - b) as u64 };
                    proof {
                        assert(da * da <= 0x4000_0000u64 * 0x4000_0000u64) by (nonlinear_arith)
                            requires
                                da <= 0x4000_0000u64,
                        ;
                        assert(db * db <= 0x4000_0000u64 * 0x4000_0000u64) by (nonlinear_arith)
                            requires
                                db <= 0x4000_0000u64,
                        ;
                        assert(da * da == off(a as int, r as int) * off(a as int, r as int)) by (nonlinear_arith)
                            requires
                                da == (if a >= r { a - r } else { r - a }),
                        ;
                        assert(db * db == off(b as int, r as int) * off(b as int, r as int)) by (nonlinear_arith)
                            requires
                                db == (if b >= r { b - r } else { r - b }),
                        ;
                    }
                    let d: u64 = da * da + db * db;
                    let better = match best {
                        None => true,
                        Some(_) => d < best_d,
                    };
                    if better {
                        best = Some((rr, cc));
                        best_d = d;
                        proof {
                            ba = a as int;
                            bb = b as int;
                        }
                    }
                }
            }
            b += 1;
        }
        a += 1;
    }
    best
}

} // verus!

verus! {

/// A wall within `r` cells (a disc) of the cell at `(row, col)`.
pub open spec fn wall_within(grid: Grid, row: int, col: int, r: int) -> bool {
    exists|a: int, b: int|
        0 <= a <= 2 * r && 0 <= b <= 2 * r && sq(a, b, r) <= r * r && #[trigger] grid.spec_cell(
            row + off(a, r),
            col + off(b, r),
        ) == Some(Cell::Wall)
}

/// Whether a wall lies within `r` cells of `(row, col)`: the wall
/// inflation.
pub fn wall_near(grid: &Grid, row: usize, col: usize, r: usize) -> (found: bool)
    requires
        grid.wf(),
        r < 0x4000_0000,
        row + 2 * r <= usize::MAX,
        col + 2 * r <= usize::MAX,
    ensures
        found == wall_within(*grid, row as int, col as int, r as int),
{
    let span = 2 * r;
    assert((r as u64) * (r as u64) <= 0x4000_0000u64 * 0x4000_0000u64) by (nonlinear_arith)
        requires
            r < 0x4000_0000usize,
    ;
    let rr2: u64 = r as u64 * r as u64;
    let mut a: usize = 0;
    while a <= span
        invariant
            grid.wf(),
            r < 0x4000_0000,
            span == 2 * r,
            rr2 == r * r,
            row + 2 * r <= usize::MAX,
            col + 2 * r <= usize::MAX,
            a <= span + 1,
            forall|a2: int, b2: int|
                0 <= a2 < a && 0 <= b2 <= 2 * r && sq(a2, b2, r as int) <= r * r ==> #[trigger] grid.spec_cell(
                    row + off(a2, r as int),
                    col + off(b2, r as int),
                ) != Some(Cell::Wall),
        decreases span + 1 - a,
    {
        let mut b: usize = 0;
        while b <= span
            invariant
                grid.wf(),
                r < 0x4000_0000,
                span == 2 * r,
                rr2 == r * r,
                row + 2 * r <= usize::MAX,
                col + 2 * r <= usize::MAX,
                a <= span,
                b <= span + 1,
                forall|a2: int, b2: int|
                    (0 <= a2 < a || (a2 == a && 0 <= b2 < b)) && 0 <= b2 <= 2 * r && sq(a2, b2, r as int) <= r * r
                        ==> #[trigger] grid.spec_cell(row + off(a2, r as int), col + off(b2, r as int)) != Some(
                        Cell::Wall,
                    ),
            decreases span + 1 - b,
        {
            let da: u64 = if a >= r { (a - r) as u64 } else { (r - a) as u64 };
            let db: u64 = if b >= r { (b - r) as u64 } else { (r - b) as u64 };
            proof {
                assert(da * da <= 0x4000_0000u64 * 0x4000_0000u64) by (nonlinear_arith)
                    requires
                        da <= 0x4000_0000u64,
                ;
                assert(db * db <= 0x4000_0000u64 * 0x4000_0000u64) by (nonlinear_arith)
                    requires
                        db <= 0x4000_0000u64,
                ;
                assert(da * da == off(a as int, r as int) * off(a as int, r as int)) by (nonlinear_arith)
                    requires
                        da == (if a >= r { a - r } else { r - a }),
                ;
                assert(db * db == off(b as int, r as int) * off(b as int, r as int)) by (nonlinear_arith)
                    requires
                        db == (if b >= r { b - r } else { r - b }),
                ;
            }
            let d: u64 = da * da + db * db;
            if d <= rr2 && row + a >= r && col + b >= r {
                let cell = grid.cell(row + a - r, col + b - r);
                if cell == Some(Cell::Wall) {
                    proof {
                        assert(grid.spec_cell(row + off(a as int, r as int), col + off(b as int, r as int)) == Some(
                            Cell::Wall,
                        ));
                    }
                    return true;
                }
            } else {
                proof {
                    if d <= rr2 {
                        // off the grid below zero: no cell there
                        assert(grid.spec_cell(row + off(a as int, r as int), col + off(b as int, r as int)) is None);
                    }
                }
            }
            b += 1;
        }
        a += 1;
    }
    false
}

/// The price of each kind of passable cell.
#[derive(Debug, Clone, Copy, PartialEq, Eq, Structural)]
pub struct Prices {
    /// A known free cell.
    pub free: u32,
    /// A cell the map does not know.
    pub unknown: u32,
    /// A cell the body has stood on (never below 1).
    pub lane: u32,
}

/// What the costmap charges for the cell at index `i`: walls are
/// impassable; a lane cell not beside a booked rim is open at the lane's
/// price whatever else is near; otherwise a cell within the inflation of
/// a wall, or near an extra wall, is impassable, and the rest costs the
/// free or the unknown price.
pub open spec fn spec_cell_cost(
    grid: Grid,
    r: int,
    lane: Seq<bool>,
    rim_near: Seq<bool>,
    walled: Seq<bool>,
    prices: Prices,
    i: int,
) -> u32 {
    let row = i / (grid.cols as int);
    let col = i % (grid.cols as int);
    if grid.cells@[i] == Cell::Wall {
        0
    } else if lane[i] && !rim_near[i] {
        if prices.lane >= 1 { prices.lane } else { 1 }
    } else if wall_within(grid, row, col, r) || walled[i] {
        0
    } else if grid.cells@[i] == Cell::Free {
        prices.free
    } else {
        prices.unknown
    }
}

/// The costmap of `grid`: walls inflated by `r` cells, the cells `walled`
/// marks (within reach of an extra wall) impassable, the `lane` cells
/// open unless `rim_near` (beside a booked rim).
pub fn build_costmap(
    grid: &Grid,
    r: usize,
    lane: &Vec<bool>,
    rim_near: &Vec<bool>,
    walled: &Vec<bool>,
    prices: Prices,
) -> (map: Costmap)
    requires
        grid.wf(),
        r < 0x4000_0000,
        grid.rows + 2 * r <= usize::MAX,
        grid.cols + 2 * r <= usize::MAX,
        lane@.len() == grid.rows * grid.cols,
        rim_near@.len() == grid.rows * grid.cols,
        walled@.len() == grid.rows * grid.cols,
    ensures
        map.wf(),
        map.rows == grid.rows,
        map.cols == grid.cols,
        forall|i: int|
            0 <= i < grid.rows * grid.cols ==> #[trigger] map.cost@[i] == spec_cell_cost(
                *grid,
                r as int,
                lane@,
                rim_near@,
                walled@,
                prices,
                i,
            ),
{
    let n = grid.cells.len();
    let mut cost: Vec<u32> = Vec::new();
    let mut i: usize = 0;
    while i < n
        invariant
            grid.wf(),
            n == grid.rows * grid.cols,
            r < 0x4000_0000,
            grid.rows + 2 * r <= usize::MAX,
            grid.cols + 2 * r <= usize::MAX,
            lane@.len() == n,
            rim_near@.len() == n,
            walled@.len() == n,
            i <= n,
            cost@.len() == i,
            forall|j: int|
                0 <= j < i ==> #[trigger] cost@[j] == spec_cell_cost(*grid, r as int, lane@, rim_near@, walled@, prices, j),
        decreases n - i,
    {
        proof {
            lemma_row_of_index(i as int, grid.rows as int, grid.cols as int);
        }
        let row = i / grid.cols;
        let col = i % grid.cols;
        let c = if grid.cells[i] == Cell::Wall {
            0
        } else if lane[i] && !rim_near[i] {
            if prices.lane >= 1 { prices.lane } else { 1 }
        } else if wall_near(grid, row, col, r) || walled[i] {
            0
        } else if grid.cells[i] == Cell::Free {
            prices.free
        } else {
            prices.unknown
        };
        cost.push(c);
        i += 1;
    }
    Costmap { rows: grid.rows, cols: grid.cols, cost }
}

/// The wall inflation: a cell that is not an open lane cell and has a
/// wall `dr` rows and `dc` columns away, with `dr² + dc² <= r²` (`r` not
/// negative), is impassable; with no inflation (`r == 0`) and no extra wall, such a
/// cell that is not itself a wall costs the free or the unknown price.
pub proof fn walls_are_inflated_by_r(
    grid: Grid,
    r: int,
    lane: Seq<bool>,
    rim_near: Seq<bool>,
    walled: Seq<bool>,
    prices: Prices,
    i: int,
    dr: int,
    dc: int,
)
    requires
        grid.wf(),
        0 <= i < grid.rows * grid.cols,
        !(lane[i] && !rim_near[i]),
    ensures
        ({
            let row = i / (grid.cols as int) + dr;
            let col = i % (grid.cols as int) + dc;
            r >= 0 && 0 <= row < grid.rows && 0 <= col < grid.cols && dr * dr + dc * dc <= r * r && grid.cells@[row
                * grid.cols + col] == Cell::Wall
        }) ==> spec_cell_cost(grid, r, lane, rim_near, walled, prices, i) == 0,
        r == 0 && !walled[i] && grid.cells@[i] != Cell::Wall ==> spec_cell_cost(
            grid,
            r,
            lane,
            rim_near,
            walled,
            prices,
            i,
        ) == if grid.cells@[i] == Cell::Free {
            prices.free
        } else {
            prices.unknown
        },
{
    let cols = grid.cols as int;
    lemma_row_of_index(i, grid.rows as int, cols);
    let row = i / cols;
    let col = i % cols;
    if r >= 0 && 0 <= row + dr < grid.rows && 0 <= col + dc < grid.cols && dr * dr + dc * dc <= r * r && grid.cells@[(row
        + dr) * grid.cols + (col + dc)] == Cell::Wall && grid.cells@[i] != Cell::Wall {
        let a = dr + r;
        let b = dc + r;
        assert(0 <= dr * dr && 0 <= dc * dc) by (nonlinear_arith);
        assert(-r <= dr <= r) by (nonlinear_arith)
            requires
                dr * dr <= r * r,
                r >= 0,
        ;
        assert(-r <= dc <= r) by (nonlinear_arith)
            requires
                dc * dc <= r * r,
                r >= 0,
        ;
        assert(off(a, r) == dr && off(b, r) == dc);
        assert(sq(a, b, r) == dr * dr + dc * dc);
        assert(grid.spec_cell(row + off(a, r), col + off(b, r)) == Some(Cell::Wall));
        assert(wall_within(grid, row, col, r));
    }
    if r == 0 && grid.cells@[i] != Cell::Wall {
        assert forall|a: int, b: int|
            0 <= a <= 2 * r && 0 <= b <= 2 * r && sq(a, b, r) <= r * r implies #[trigger] grid.spec_cell(
            row + off(a, r),
            col + off(b, r),
        ) != Some(Cell::Wall) by {
            assert(a == 0 && b == 0);
        }
        assert(!wall_within(grid, row, col, r));
    }
}

/// The body's lanes outrank the inflation and the extra walls: a cell the
/// body walked, not inked as wall and not beside a booked rim, costs the
/// lane price (1 at least) whatever the inflation radius and whatever the
/// extra walls say. An extra wall seals exactly the cells that are not
/// such lane cells, and a wall is never passable.
pub proof fn lanes_outrank_the_walls(
    grid: Grid,
    r: int,
    r2: int,
    lane: Seq<bool>,
    rim_near: Seq<bool>,
    walled: Seq<bool>,
    walled2: Seq<bool>,
    prices: Prices,
    i: int,
)
    requires
        grid.wf(),
        0 <= i < grid.rows * grid.cols,
    ensures
        grid.cells@[i] == Cell::Wall ==> spec_cell_cost(grid, r, lane, rim_near, walled, prices, i) == 0,
        grid.cells@[i] != Cell::Wall && lane[i] && !rim_near[i] ==> {
            let c = spec_cell_cost(grid, r, lane, rim_near, walled, prices, i);
            &&& c >= 1
            &&& prices.lane >= 1 ==> c == prices.lane
            &&& c == spec_cell_cost(grid, r2, lane, rim_near, walled2, prices, i)
        },
        !(lane[i] && !rim_near[i]) && walled[i] ==> spec_cell_cost(grid, r, lane, rim_near, walled, prices, i) == 0,
{
}

/// `i` is a lane cell `p` (given as row and column) or one of its four
/// neighbours.
pub open spec fn lane_covers(rows: int, cols: int, p: (usize, usize), i: int) -> bool {
    let u = p.0 * cols + p.1;
    i == u || exists|k: int| 0 <= k < 4 && #[trigger] step_to(rows, cols, u, k) == Some(i)
}

/// The lane mask: the cells the body stood on (`cells`, each inside the
/// grid) and their four neighbours.
pub fn lane_mask(rows: usize, cols: usize, cells: &Vec<(usize, usize)>) -> (mask: Vec<bool>)
    requires
        rows * cols <= usize::MAX,
        forall|k: int| 0 <= k < cells@.len() ==> #[trigger] cells@[k].0 < rows && cells@[k].1 < cols,
    ensures
        mask@.len() == rows * cols,
        forall|i: int|
            0 <= i < rows * cols ==> (#[trigger] mask@[i] <==> exists|k: int|
                0 <= k < cells@.len() && lane_covers(rows as int, cols as int, cells@[k], i)),
{
    let n = rows * cols;
    let mut mask = filled(n, false);
    let mut k: usize = 0;
    while k < cells.len()
        invariant
            n == rows * cols,
            rows * cols <= usize::MAX,
            forall|k: int| 0 <= k < cells@.len() ==> #[trigger] cells@[k].0 < rows && cells@[k].1 < cols,
            k <= cells@.len(),
            mask@.len() == n,
            forall|i: int|
                0 <= i < n ==> (#[trigger] mask@[i] <==> exists|k2: int|
                    0 <= k2 < k && lane_covers(rows as int, cols as int, cells@[k2], i)),
        decreases cells@.len() - k,
    {
        let (pr, pc) = cells[k];
        proof {
            lemma_index_in_grid(pr as int, pc as int, rows as int, cols as int);
            assert(pr * cols <= pr * cols + pc);
        }
        let u = pr * cols + pc;
        let ghost before = mask@;
        mask.set(u, true);
        let mut d: usize = 0;
        while d < 4
            invariant
                n == rows * cols,
                rows * cols <= usize::MAX,
                u < n,
                u == pr * cols + pc,
                d <= 4,
                mask@.len() == n,
                before.len() == n,
                mask@[u as int],
                forall|i: int|
                    0 <= i < n && #[trigger] mask@[i] ==> before[i] || i == u || exists|j: int|
                        0 <= j < d && step_to(rows as int, cols as int, u as int, j) == Some(i),
                forall|i: int| 0 <= i < n && before[i] ==> #[trigger] mask@[i],
                forall|j: int|
                    0 <= j < d ==> match #[trigger] step_to(rows as int, cols as int, u as int, j) {
                        Some(x) => mask@[x],
                        None => true,
                    },
            decreases 4 - d,
        {
            let ghost m0 = mask@;
            match neighbor(rows, cols, u, d) {
                Some(v) => {
                    mask.set(v, true);
                },
                None => {},
            }
            proof {
                assert forall|j: int| 0 <= j < d + 1 implies match #[trigger] step_to(
                    rows as int,
                    cols as int,
                    u as int,
                    j,
                ) {
                    Some(x) => mask@[x],
                    None => true,
                } by {
                    lemma_step_in_grid(rows as int, cols as int, u as int, j);
                    match step_to(rows as int, cols as int, u as int, j) {
                        Some(x) => {
                            if j < d {
                                assert(m0[x]);
                            }
                        },
                        None => {},
                    }
                }
            }
            d += 1;
        }
        proof {
            assert forall|i: int| 0 <= i < n implies (#[trigger] mask@[i] <==> exists|k2: int|
                0 <= k2 < k + 1 && lane_covers(rows as int, cols as int, cells@[k2], i)) by {
                if mask@[i] {
                    if before[i] {
                        let k2 = choose|k2: int| 0 <= k2 < k && lane_covers(rows as int, cols as int, cells@[k2], i);
                        assert(0 <= k2 < k + 1);
                    } else {
                        assert(lane_covers(rows as int, cols as int, cells@[k as int], i));
                    }
                }
                if exists|k2: int| 0 <= k2 < k + 1 && lane_covers(rows as int, cols as int, cells@[k2], i) {
                    let k2 = choose|k2: int| 0 <= k2 < k + 1 && lane_covers(rows as int, cols as int, cells@[k2], i);
                    if k2 < k {
                        assert(before[i]);
                    } else {
                        if i != u {
                            let j = choose|j: int| 0 <= j < 4 && #[trigger] step_to(rows as int, cols as int, u as int, j) == Some(i);
                            assert(step_to(rows as int, cols as int, u as int, j) == Some(i));
                        }
                    }
                }
            }
        }
        k += 1;
    }
    mask
}

/// `k` holds the first of `group`'s cells, among those not `blocked`,
/// with the least cost in `dist`.
pub open spec fn cheapest_at(group: Seq<usize>, blocked: Seq<bool>, dist: Seq<u32>, k: int) -> bool {
    &&& 0 <= k < group.len()
    &&& !blocked[group[k] as int]
    &&& forall|j: int|
        0 <= j < group.len() && !blocked[group[j] as int] ==> dist[group[k] as int] <= dist[#[trigger] group[j] as int]
    &&& forall|j: int|
        0 <= j < k && !blocked[group[j] as int] ==> dist[group[k] as int] < dist[#[trigger] group[j] as int]
}

/// The cell of a frontier group to head for: the cheapest to reach of
/// its cells not blocked, the first of them on a tie; `None` when every
/// cell is blocked.
pub fn cheapest_cell(group: &Vec<usize>, blocked: &Vec<bool>, dist: &Vec<u32>) -> (r: Option<usize>)
    requires
        blocked@.len() == dist@.len(),
        forall|j: int| 0 <= j < group@.len() ==> #[trigger] group@[j] < dist@.len(),
    ensures
        match r {
            None => forall|j: int| 0 <= j < group@.len() ==> blocked@[#[trigger] group@[j] as int],
            Some(c) => exists|k: int| cheapest_at(group@, blocked@, dist@, k) && group@[k] == c,
        },
{
    let mut best: Option<usize> = None;
    let ghost mut bk: int = -1;
    let mut i: usize = 0;
    while i < group.len()
        invariant
            blocked@.len() == dist@.len(),
            forall|j: int| 0 <= j < group@.len() ==> #[trigger] group@[j] < dist@.len(),
            i <= group@.len(),
            match best {
                None => forall|j: int| 0 <= j < i ==> blocked@[#[trigger] group@[j] as int],
                Some(c) => {
                    &&& 0 <= bk < i
                    &&& group@[bk] == c
                    &&& !blocked@[c as int]
                    &&& forall|j: int| 0 <= j < i && !blocked@[group@[j] as int] ==> dist@[c as int] <= dist@[#[trigger] group@[j] as int]
                    &&& forall|j: int| 0 <= j < bk && !blocked@[group@[j] as int] ==> dist@[c as int] < dist@[#[trigger] group@[j] as int]
                },
            },
        decreases group@.len() - i,
    {
        let c = group[i];
        if !blocked[c] {
            match best {
                None => {
                    best = Some(c);
                    proof {
                        bk = i as int;
                    }
                },
                Some(b) => {
                    if dist[c] < dist[b] {
                        best = Some(c);
                        proof {
                            bk = i as int;
                        }
                    }
                },
            }
        }
        i += 1;
    }
    proof {
        match best {
            Some(c) => {
                assert(cheapest_at(group@, blocked@, dist@, bk));
            },
            None => {},
        }
    }
    best
}

/// The frontier groups reachable from `start`: the search over `map`
/// (each cell's cheapest cost and the cell it is reached from), and the
/// 8-connected pieces of the `live` frontier cells it reached, each
/// listed from its first cell in scan order, in that order, and within a
/// piece in the order the flood takes its cells (see [`flood_groups`]):
/// the order in which [`cheapest_cell`] settles a tie.
pub fn reachable_groups(map: &Costmap, start: usize, live: &Vec<bool>) -> (res: (Vec<u32>, Vec<usize>, Vec<Vec<usize>>))
    requires
        map.wf(),
        start < map.rows * map.cols,
        live@.len() == map.rows * map.cols,
    ensures
        search_done(*map, start as int, res.0@, res.1@),
        forall|v: int|
            0 <= v < map.rows * map.cols && #[trigger] res.0@[v] < UNREACHED && v != start ==> least_parent(
                *map,
                res.0@,
                v,
                res.1@[v] as int,
            ),
        groups_spec(
            map.rows as int,
            map.cols as int,
            Seq::new(live@.len(), |i: int| live@[i] && res.0@[i] != UNREACHED),
            res.2@.map_values(|g: Vec<usize>| g@),
        ),
        forall|g: int, k: int|
            0 <= g < res.2@.len() && 0 <= k < res.2@[g]@.len() ==> res.2@[g]@[0] <= #[trigger] res.2@[g]@[k],
        res.2@.map_values(|g: Vec<usize>| g@) == flood_groups(
            map.rows as int,
            map.cols as int,
            Seq::new(live@.len(), |i: int| live@[i] && res.0@[i] != UNREACHED),
        ),
{
    let n = map.cost.len();
    assert(map.rows * map.cols <= usize::MAX);
    let (dist, parent) = search(map, start);
    let reached = reached_mask(live, &dist);
    proof {
        assert(reached@ =~= Seq::new(live@.len(), |i: int| live@[i] && dist@[i] != UNREACHED));
    }
    let gs = groups(map.rows, map.cols, &reached);
    (dist, parent, gs)
}

} // verus!
