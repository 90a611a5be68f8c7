//! How far each cell of a costmap is from the nearest impassable one, in
//! grid steps (up, down, left, right), and the price a route pays for
//! running close to a wall.

use vstd::prelude::*;

use crate::frontier::Costmap;
use crate::grid_index::{lemma_index_in_grid, lemma_row_of_index, lemma_split_index};

verus! {

/// The distance between two coordinates on one axis.
pub open spec fn gap(a: int, b: int) -> int {
    if a <= b {
        b - a
    } else {
        a - b
    }
}

/// What a distance search starts from at `(r, c)`: nothing to walk on an
/// impassable cell, and on a passable one the cap `rows + cols`, more than
/// any distance inside the grid.
pub open spec fn seed(map: Costmap, r: int, c: int) -> int {
    if map.spec_at(r, c) == 0 {
        0
    } else {
        map.rows + map.cols
    }
}

/// The distance from `(r, c)` to `(rj, cj)`, counted from that cell's seed.
pub open spec fn reach(map: Costmap, r: int, c: int, rj: int, cj: int) -> int {
    seed(map, rj, cj) + gap(r, rj) + gap(c, cj)
}

/// `v` is no more than the reach from `(r, c)` to any cell in rows
/// `0..=rm` and columns `0..=cm`.
pub open spec fn below_reach(map: Costmap, v: int, r: int, c: int, rm: int, cm: int) -> bool {
    forall|rj: int, cj: int| 0 <= rj <= rm && 0 <= cj <= cm ==> v <= #[trigger] reach(map, r, c, rj, cj)
}

/// `v` is the reach from `(r, c)` to some cell in rows `0..=rm` and
/// columns `0..=cm`.
pub open spec fn reached(map: Costmap, v: int, r: int, c: int, rm: int, cm: int) -> bool {
    exists|rj: int, cj: int| 0 <= rj <= rm && 0 <= cj <= cm && v == #[trigger] reach(map, r, c, rj, cj)
}

/// `v` is the least reach from `(r, c)` over rows `0..=rm` and columns
/// `0..=cm`.
pub open spec fn least_reach(map: Costmap, v: int, r: int, c: int, rm: int, cm: int) -> bool {
    below_reach(map, v, r, c, rm, cm) && reached(map, v, r, c, rm, cm)
}

/// `v` is the clearance of `(r, c)`: the least reach over the whole grid,
/// which is the grid distance to the nearest impassable cell (0 on one),
/// or `rows + cols` when the map has none.
pub open spec fn is_clearance(map: Costmap, v: int, r: int, c: int) -> bool {
    least_reach(map, v, r, c, map.rows - 1, map.cols - 1)
}

proof fn lemma_cell_of_index(k: int, rows: int, cols: int)
    requires
        0 <= k < rows * cols,
        0 <= rows,
        0 <= cols,
    ensures
        cols > 0,
        0 <= k / cols < rows,
        0 <= k % cols < cols,
        k == (k / cols) * cols + k % cols,
        k / cols > 0 ==> k - cols == (k / cols - 1) * cols + k % cols && (k - cols) / cols == k / cols - 1
            && (k - cols) % cols == k % cols,
        k / cols + 1 < rows ==> k + cols == (k / cols + 1) * cols + k % cols && (k + cols) / cols == k / cols
            + 1 && (k + cols) % cols == k % cols && k + cols < rows * cols,
        k % cols > 0 ==> (k - 1) / cols == k / cols && (k - 1) % cols == k % cols - 1,
        k % cols + 1 < cols ==> (k + 1) / cols == k / cols && (k + 1) % cols == k % cols + 1 && k + 1 < rows
            * cols,
{
    if cols <= 0 {
        assert(rows * cols <= 0) by (nonlinear_arith)
            requires
                0 <= rows,
                cols <= 0,
        ;
    }
    lemma_row_of_index(k, rows, cols);
    let r = k / cols;
    let c = k % cols;
    if r > 0 {
        assert((r - 1) * cols == r * cols - cols) by (nonlinear_arith);
        lemma_split_index(r - 1, c, cols);
    }
    if r + 1 < rows {
        assert((r + 1) * cols == r * cols + cols) by (nonlinear_arith);
        lemma_split_index(r + 1, c, cols);
        lemma_index_in_grid(r + 1, c, rows, cols);
    }
    if c > 0 {
        lemma_split_index(r, c - 1, cols);
    }
    if c + 1 < cols {
        lemma_split_index(r, c + 1, cols);
        lemma_index_in_grid(r, c + 1, rows, cols);
    }
}

/// One cell of the forward pass: its own seed, or one more than the
/// cell above or to the left, whichever is least, is the least reach over
/// the cells above and to the left of it.
proof fn lemma_forward_step(map: Costmap, r: int, c: int, up: int, left: int, v: int)
    requires
        0 <= r,
        0 <= c,
        r > 0 ==> least_reach(map, up, r - 1, c, r - 1, c),
        c > 0 ==> least_reach(map, left, r, c - 1, r, c - 1),
        v <= seed(map, r, c),
        r > 0 ==> v <= up + 1,
        c > 0 ==> v <= left + 1,
        v == seed(map, r, c) || (r > 0 && v == up + 1) || (c > 0 && v == left + 1),
    ensures
        least_reach(map, v, r, c, r, c),
{
    assert forall|rj: int, cj: int| 0 <= rj <= r && 0 <= cj <= c implies v <= #[trigger] reach(
        map,
        r,
        c,
        rj,
        cj,
    ) by {
        if rj < r {
            assert(reach(map, r - 1, c, rj, cj) + 1 == reach(map, r, c, rj, cj));
        } else if cj < c {
            assert(reach(map, r, c - 1, rj, cj) + 1 == reach(map, r, c, rj, cj));
        } else {
            assert(reach(map, r, c, r, c) == seed(map, r, c));
        }
    }
    if v == seed(map, r, c) {
        assert(v == reach(map, r, c, r, c));
    } else if r > 0 && v == up + 1 {
        let (rj, cj) = choose|rj: int, cj: int|
            0 <= rj <= r - 1 && 0 <= cj <= c && up == #[trigger] reach(map, r - 1, c, rj, cj);
        assert(v == reach(map, r, c, rj, cj));
    } else {
        let (rj, cj) = choose|rj: int, cj: int|
            0 <= rj <= r && 0 <= cj <= c - 1 && left == #[trigger] reach(map, r, c - 1, rj, cj);
        assert(v == reach(map, r, c, rj, cj));
    }
}

/// One cell of the backward pass: the forward value, or one more than the
/// clearance below or to the right, whichever is least, is the clearance.
proof fn lemma_backward_step(map: Costmap, r: int, c: int, fwd: int, down: int, right: int, v: int)
    requires
        0 <= r < map.rows,
        0 <= c < map.cols,
        least_reach(map, fwd, r, c, r, c),
        r + 1 < map.rows ==> is_clearance(map, down, r + 1, c),
        c + 1 < map.cols ==> is_clearance(map, right, r, c + 1),
        v <= fwd,
        r + 1 < map.rows ==> v <= down + 1,
        c + 1 < map.cols ==> v <= right + 1,
        v == fwd || (r + 1 < map.rows && v == down + 1) || (c + 1 < map.cols && v == right + 1),
    ensures
        is_clearance(map, v, r, c),
{
    let rm = map.rows - 1;
    let cm = map.cols - 1;
    assert forall|rj: int, cj: int| 0 <= rj <= rm && 0 <= cj <= cm implies v <= #[trigger] reach(
        map,
        r,
        c,
        rj,
        cj,
    ) by {
        if rj <= r && cj <= c {
            assert(fwd <= reach(map, r, c, rj, cj));
        } else if rj > r {
            assert(reach(map, r + 1, c, rj, cj) + 1 == reach(map, r, c, rj, cj));
        } else {
            assert(reach(map, r, c + 1, rj, cj) + 1 == reach(map, r, c, rj, cj));
        }
    }
    if v == fwd {
        let (rj, cj) = choose|rj: int, cj: int|
            0 <= rj <= r && 0 <= cj <= c && fwd == #[trigger] reach(map, r, c, rj, cj);
        assert(v == reach(map, r, c, rj, cj));
    } else if r + 1 < map.rows && v == down + 1 {
        let (rj, cj) = choose|rj: int, cj: int|
            0 <= rj <= rm && 0 <= cj <= cm && down == #[trigger] reach(map, r + 1, c, rj, cj);
        assert(reach(map, r, c, rj, cj) <= reach(map, r + 1, c, rj, cj) + 1);
        assert(v <= reach(map, r, c, rj, cj));
        assert(v == reach(map, r, c, rj, cj));
    } else {
        let (rj, cj) = choose|rj: int, cj: int|
            0 <= rj <= rm && 0 <= cj <= cm && right == #[trigger] reach(map, r, c + 1, rj, cj);
        assert(reach(map, r, c, rj, cj) <= reach(map, r, c + 1, rj, cj) + 1);
        assert(v <= reach(map, r, c, rj, cj));
        assert(v == reach(map, r, c, rj, cj));
    }
}

/// The clearance of every cell of `map`, by two chamfer passes: forward,
/// each cell takes the least of its seed and one more than the cell above
/// and the cell to the left; backward, the least of that and one more
/// than the cell below and the cell to the right.
pub fn clearance(map: &Costmap) -> (dist: Vec<u32>)
    requires
        map.wf(),
        map.rows + map.cols < 0xffff_ffff,
    ensures
        dist@.len() == map.rows * map.cols,
        forall|k: int|
            0 <= k < map.rows * map.cols ==> is_clearance(
                *map,
                #[trigger] dist@[k] as int,
                k / map.cols as int,
                k % map.cols as int,
            ),
{
    let rows = map.rows;
    let cols = map.cols;
    let n = map.cost.len();
    let far: u32 = (rows + cols) as u32;
    let mut dist: Vec<u32> = Vec::new();
    let mut i: usize = 0;
    while i < n
        invariant
            map.wf(),
            rows == map.rows,
            cols == map.cols,
            n == rows * cols,
            far == rows + cols,
            rows + cols < 0xffff_ffff,
            i <= n,
            dist@.len() == i,
            forall|k: int|
                0 <= k < i ==> least_reach(
                    *map,
                    #[trigger] dist@[k] as int,
                    k / cols as int,
                    k % cols as int,
                    k / cols as int,
                    k % cols as int,
                ),
            forall|k: int| 0 <= k < i ==> #[trigger] dist@[k] <= far,
        decreases n - i,
    {
        proof {
            lemma_cell_of_index(i as int, rows as int, cols as int);
        }
        let row = i / cols;
        let col = i % cols;
        let own: u32 = if map.cost[i] == 0 { 0 } else { far };
        let mut v = own;
        let ghost mut up: int = 0;
        let ghost mut left: int = 0;
        if row > 0 {
            let u = dist[i - cols];
            proof {
                up = u as int;
            }
            if u + 1 < v {
                v = u + 1;
            }
        }
        if col > 0 {
            let l = dist[i - 1];
            proof {
                left = l as int;
            }
            if l + 1 < v {
                v = l + 1;
            }
        }
        proof {
            assert(seed(*map, row as int, col as int) == own) by {
                lemma_split_index(row as int, col as int, cols as int);
            }
            if row > 0 {
                assert(dist@[i - cols] == up);
            }
            if col > 0 {
                assert(dist@[i - 1] == left);
            }
            lemma_forward_step(*map, row as int, col as int, up, left, v as int);
        }
        dist.push(v);
        i += 1;
    }
    let mut j: usize = n;
    while j > 0
        invariant
            map.wf(),
            rows == map.rows,
            cols == map.cols,
            n == rows * cols,
            far == rows + cols,
            rows + cols < 0xffff_ffff,
            j <= n,
            dist@.len() == n,
            forall|k: int|
                0 <= k < j ==> least_reach(
                    *map,
                    #[trigger] dist@[k] as int,
                    k / cols as int,
                    k % cols as int,
                    k / cols as int,
                    k % cols as int,
                ),
            forall|k: int|
                j <= k < n ==> is_clearance(*map, #[trigger] dist@[k] as int, k / cols as int, k % cols as int),
            forall|k: int| 0 <= k < n ==> #[trigger] dist@[k] <= far,
        decreases j,
    {
        let i = j - 1;
        proof {
            lemma_cell_of_index(i as int, rows as int, cols as int);
        }
        let row = i / cols;
        let col = i % cols;
        let fwd = dist[i];
        let mut v = fwd;
        let ghost mut down: int = 0;
        let ghost mut right: int = 0;
        if row + 1 < rows {
            let d = dist[i + cols];
            proof {
                down = d as int;
            }
            if d + 1 < v {
                v = d + 1;
            }
        }
        if col + 1 < cols {
            let rt = dist[i + 1];
            proof {
                right = rt as int;
            }
            if rt + 1 < v {
                v = rt + 1;
            }
        }
        proof {
            if row + 1 < rows {
                assert(dist@[i + cols] == down);
            }
            if col + 1 < cols {
                assert(dist@[i + 1] == right);
            }
            lemma_backward_step(*map, row as int, col as int, fwd as int, down, right, v as int);
        }
        dist.set(i, v);
        j = i;
    }
    dist
}

/// `map` with the wall-hugging surcharge paid: a passable cell whose
/// clearance `dist` holds `d` costs `surcharge[d]` more when the table
/// reaches that far; impassable cells stay impassable.
pub fn hug(map: &Costmap, dist: &Vec<u32>, surcharge: &Vec<u32>) -> (out: Costmap)
    requires
        map.wf(),
        dist@.len() == map.rows * map.cols,
        forall|k: int, d: int|
            #![trigger map.cost@[k], surcharge@[d]]
            0 <= k < map.rows * map.cols && 0 <= d < surcharge@.len() ==> map.cost@[k] + surcharge@[d] <= u32::MAX,
    ensures
        out.wf(),
        out.rows == map.rows,
        out.cols == map.cols,
        forall|k: int|
            0 <= k < map.rows * map.cols ==> #[trigger] out.cost@[k] == if map.cost@[k] == 0 {
                0
            } else if dist@[k] < surcharge@.len() {
                (map.cost@[k] + surcharge@[dist@[k] as int]) as u32
            } else {
                map.cost@[k]
            },
{
    let n = map.cost.len();
    let mut cost: Vec<u32> = Vec::new();
    let mut i: usize = 0;
    while i < n
        invariant
            map.wf(),
            n == map.rows * map.cols,
            dist@.len() == n,
            forall|k: int, d: int|
                #![trigger map.cost@[k], surcharge@[d]]
                0 <= k < n && 0 <= d < surcharge@.len() ==> map.cost@[k] + surcharge@[d] <= u32::MAX,
            i <= n,
            cost@.len() == i,
            forall|k: int|
                0 <= k < i ==> #[trigger] cost@[k] == if map.cost@[k] == 0 {
                    0
                } else if dist@[k] < surcharge@.len() {
                    (map.cost@[k] + surcharge@[dist@[k] as int]) as u32
                } else {
                    map.cost@[k]
                },
        decreases n - i,
    {
        let c = map.cost[i];
        let d = dist[i];
        let v = if c == 0 {
            0
        } else if (d as usize) < surcharge.len() {
            assert(map.cost@[i as int] + surcharge@[d as int] <= u32::MAX);
            c + surcharge[d as usize]
        } else {
            c
        };
        cost.push(v);
        i += 1;
    }
    Costmap { rows: map.rows, cols: map.cols, cost }
}

/// A cell's clearance is zero exactly when the cell itself is impassable.
pub proof fn clearance_zero_on_walls(map: Costmap, v: int, r: int, c: int)
    requires
        0 <= r < map.rows,
        0 <= c < map.cols,
        is_clearance(map, v, r, c),
    ensures
        v == 0 <==> map.spec_at(r, c) == 0,
{
    assert(v <= reach(map, r, c, r, c));
    let (rj, cj) = choose|rj: int, cj: int|
        0 <= rj <= map.rows - 1 && 0 <= cj <= map.cols - 1 && v == #[trigger] reach(map, r, c, rj, cj);
    if map.spec_at(r, c) != 0 && v == 0 {
        assert(seed(map, rj, cj) == 0);
        assert(rj == r && cj == c);
    }
}

/// Neighbouring cells' clearances differ by at most one step.
pub proof fn clearance_steps_by_one(map: Costmap, v: int, w: int, r: int, c: int, r2: int, c2: int)
    requires
        0 <= r < map.rows,
        0 <= c < map.cols,
        0 <= r2 < map.rows,
        0 <= c2 < map.cols,
        gap(r, r2) + gap(c, c2) == 1,
        is_clearance(map, v, r, c),
        is_clearance(map, w, r2, c2),
    ensures
        v <= w + 1,
{
    let (rj, cj) = choose|rj: int, cj: int|
        0 <= rj <= map.rows - 1 && 0 <= cj <= map.cols - 1 && w == #[trigger] reach(map, r2, c2, rj, cj);
    assert(v <= reach(map, r, c, rj, cj));
}

} // verus!
