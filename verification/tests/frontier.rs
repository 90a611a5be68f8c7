use quack_nav::clearance::{clearance, hug};
use quack_nav::frontier::{
    build_costmap, cheapest_cell, frontier_cells, groups, is_frontier, lane_mask, largest_frontier,
    live_frontier_mask, path_cells, reached_mask, route, search, start_cell, wall_near, Costmap, Prices,
    UNREACHED,
};
use quack_nav::map::{Cell, Grid};
use quack_nav::queue::MinQueue;

/// `#` wall, `.` free, anything else unknown; the first string is row 0.
fn room(rows: &[&str]) -> Grid {
    let cols = rows[0].len();
    let mut cells = Vec::new();
    for r in rows {
        for ch in r.chars() {
            cells.push(match ch {
                '#' => Cell::Wall,
                '.' => Cell::Free,
                _ => Cell::Unknown,
            });
        }
    }
    Grid { rows: rows.len(), cols, cells }
}

fn flat(rows: usize, cols: usize, cost: u32) -> Costmap {
    Costmap { rows, cols, cost: vec![cost; rows * cols] }
}

const PRICES: Prices = Prices { free: 10, unknown: 30, lane: 10 };

#[test]
fn a_walled_room_has_no_frontier_cells() {
    let g = room(&[
        "############",
        "#..........#",
        "#..........#",
        "#..........#",
        "#..........#",
        "#..........#",
        "#..........#",
        "#..........#",
        "############",
    ]);
    assert_eq!(frontier_cells(&g), 0);
    assert_eq!(largest_frontier(&g, &vec![false; g.rows * g.cols]), 0);
}

#[test]
fn free_floor_touching_unknown_is_frontier_diagonals_too() {
    let g = room(&["...", "...", "..?"]);
    assert!(is_frontier(&g, 4), "the centre touches the unknown corner");
    assert!(!is_frontier(&g, 0));
    assert!(!is_frontier(&g, 8), "unknown is not a frontier itself");
    assert_eq!(frontier_cells(&g), 3);
}

#[test]
fn frontier_groups_are_eight_connected_pieces() {
    // Two streaks of frontier along an unknown band, split by a wall.
    let g = room(&["....#.....", "??????????"]);
    let mask = live_frontier_mask(&g, &vec![false; 20]);
    let gs = groups(g.rows, g.cols, &mask);
    assert_eq!(gs.len(), 2);
    let mut first = gs[0].clone();
    first.sort();
    assert_eq!(first, vec![0, 1, 2, 3]);
    assert_eq!(gs[1].len(), 5);
    assert_eq!(largest_frontier(&g, &vec![false; 20]), 5);
    // The sensor's word kills cells, and a group may come apart.
    let mut killed = vec![false; 20];
    killed[0] = true;
    killed[1] = true;
    assert_eq!(largest_frontier(&g, &killed), 5);
    killed[7] = true;
    assert_eq!(largest_frontier(&g, &killed), 2);
}

#[test]
fn the_search_finds_the_cheapest_costs() {
    // 1 × 5 strip, the middle cell dear.
    let map = Costmap { rows: 1, cols: 5, cost: vec![10, 10, 50, 10, 10] };
    let (dist, parent) = search(&map, 0);
    assert_eq!(dist, vec![0, 10, 60, 70, 80]);
    assert_eq!(path_cells(&map, 0, &dist, &parent, 4), vec![1, 2, 3, 4]);
    assert_eq!(path_cells(&map, 0, &dist, &parent, 0), Vec::<usize>::new());
}

#[test]
fn a_route_goes_round_the_dear_cells() {
    // 3 × 3, the centre dear: the way from corner to corner goes round it
    // at the same cost either way, and never through it.
    let mut map = flat(3, 3, 10);
    map.cost[4] = 100;
    let way = route(&map, 0, 8).expect("a way across");
    assert_eq!(way.len(), 4);
    assert!(!way.contains(&4));
    assert_eq!(way.last(), Some(&8));
    // Of the two equally cheap ways, each cell is entered from its least
    // neighbour at its cost: 8 from 5 rather than 7.
    assert_eq!(way, vec![1, 2, 5, 8]);
    assert_eq!(route(&map, 0, 0), Some(vec![]));
}

#[test]
fn an_impassable_cell_cuts_the_way() {
    let map = Costmap { rows: 1, cols: 3, cost: vec![10, 0, 10] };
    assert_eq!(route(&map, 0, 2), None);
    let (dist, _) = search(&map, 0);
    assert_eq!(dist, vec![0, UNREACHED, UNREACHED]);
}

#[test]
fn the_start_is_the_nearest_passable_cell() {
    let mut map = flat(5, 5, 0);
    map.cost[0] = 10; // (0, 0): two rows and two columns off
    map.cost[2 * 5 + 4] = 10; // (2, 4): two columns off
    assert_eq!(start_cell(&map, 2, 2, 2), Some((2, 4)));
    assert_eq!(start_cell(&map, 2, 2, 1), None);
    map.cost[2 * 5 + 2] = 10;
    assert_eq!(start_cell(&map, 2, 2, 2), Some((2, 2)));
    // A tie goes to the first in scan order.
    let mut tie = flat(3, 3, 0);
    tie.cost[1] = 10;
    tie.cost[3] = 10;
    assert_eq!(start_cell(&tie, 1, 1, 1), Some((0, 1)));
}

#[test]
fn walls_are_inflated_and_lanes_stay_open() {
    let g = room(&[".....", ".....", "..#..", ".....", "....."]);
    assert!(wall_near(&g, 1, 2, 1));
    assert!(!wall_near(&g, 1, 1, 1), "the diagonal is outside the circle");
    assert!(wall_near(&g, 1, 1, 2));
    assert!(!wall_near(&g, 0, 0, 1));
    let n = g.rows * g.cols;
    let none = vec![false; n];
    let map = build_costmap(&g, 1, &none, &none, &none, PRICES);
    assert_eq!(map.cost[2 * 5 + 2], 0, "the wall");
    assert_eq!(map.cost[1 * 5 + 2], 0, "beside the wall");
    assert_eq!(map.cost[1 * 5 + 1], 10, "diagonal, outside one cell's circle");
    assert_eq!(map.cost[0], 10);
    // A lane opens the inflation, but not the wall itself.
    let lane = lane_mask(5, 5, &vec![(1, 2)]);
    assert!(lane[1 * 5 + 2] && lane[0 * 5 + 2] && lane[2 * 5 + 2] && lane[1 * 5 + 1] && lane[1 * 5 + 3]);
    assert!(!lane[0]);
    let laned = build_costmap(&g, 1, &lane, &none, &none, PRICES);
    assert_eq!(laned.cost[1 * 5 + 2], 10);
    assert_eq!(laned.cost[2 * 5 + 2], 0);
    // Beside a rim the lane yields to the inflation.
    let mut rim = vec![false; n];
    rim[1 * 5 + 2] = true;
    let yielded = build_costmap(&g, 1, &lane, &rim, &none, PRICES);
    assert_eq!(yielded.cost[1 * 5 + 2], 0);
    // An extra wall closes a cell; unknown floor costs more.
    let mut walled = vec![false; n];
    walled[0] = true;
    assert_eq!(build_costmap(&g, 1, &none, &none, &walled, PRICES).cost[0], 0);
    let u = room(&["?."]);
    let m = build_costmap(&u, 0, &vec![false; 2], &vec![false; 2], &vec![false; 2], PRICES);
    assert_eq!(m.cost, vec![30, 10]);
}

#[test]
fn clearance_counts_steps_to_the_nearest_impassable_cell() {
    let mut map = flat(3, 5, 10);
    map.cost[0] = 0;
    let d = clearance(&map);
    assert_eq!(d, vec![0, 1, 2, 3, 4, 1, 2, 3, 4, 5, 2, 3, 4, 5, 6]);
    // No impassable cell at all: every cell gets the cap, rows + cols.
    assert_eq!(clearance(&flat(2, 2, 10)), vec![4, 4, 4, 4]);
}

#[test]
fn running_close_to_a_wall_costs_more() {
    let map = Costmap { rows: 1, cols: 5, cost: vec![0, 10, 10, 10, 10] };
    let d = clearance(&map);
    assert_eq!(d, vec![0, 1, 2, 3, 4]);
    let out = hug(&map, &d, &vec![99, 20, 10]);
    assert_eq!(out.cost, vec![0, 30, 20, 10, 10]);
}

#[test]
fn the_nearest_unblocked_cell_of_a_group_is_the_target() {
    let dist = vec![5, 3, 3, 1, 7];
    let mut blocked = vec![false; 5];
    assert_eq!(cheapest_cell(&vec![0, 1, 2, 3], &blocked, &dist), Some(3));
    blocked[3] = true;
    assert_eq!(cheapest_cell(&vec![0, 2, 1, 3], &blocked, &dist), Some(2), "the first of a tie");
    assert_eq!(cheapest_cell(&vec![3], &blocked, &dist), None);
    assert_eq!(reached_mask(&vec![true, true, false], &vec![1, UNREACHED, 1]), vec![true, false, false]);
}

#[test]
fn the_queue_hands_out_the_cheapest_first() {
    let mut q = MinQueue::new();
    for e in [(5u32, 1usize), (2, 9), (7, 0), (2, 3), (0, 4)] {
        q.push(e);
    }
    assert_eq!(q.len(), 5);
    let mut out = Vec::new();
    while let Some(e) = q.pop() {
        out.push(e);
    }
    assert_eq!(out, vec![(0, 4), (2, 3), (2, 9), (5, 1), (7, 0)]);
}

use quack_nav::frontier::reachable_groups;

#[test]
fn a_frontier_across_unknown_floor_is_reached() {
    // Two streaks of free floor with unknown between and around them.
    let g = room(&["                ", "....     .......", "                "]);
    let n = g.rows * g.cols;
    let none = vec![false; n];
    let map = build_costmap(&g, 0, &none, &none, &none, PRICES);
    let live = live_frontier_mask(&g, &none);
    let (cost, _, gs) = reachable_groups(&map, 16, &live);
    assert_eq!(gs.len(), 2, "the near streak and the far one");
    assert_eq!(gs[0][0], 16);
    assert_eq!(gs[1][0], 25);
    // The far streak's first cell: three free steps and five unknown ones.
    assert_eq!(cost[25], 3 * 10 + 5 * 30 + 10);
}

#[test]
fn a_group_lists_its_cells_in_flood_order() {
    // From cell 0 the flood pushes 1, 3 and 4, takes 4 next, pushes the
    // rest of the block in row order and takes them back last first.
    let gs = groups(3, 3, &vec![true; 9]);
    assert_eq!(gs, vec![vec![0, 4, 8, 7, 6, 5, 2, 3, 1]]);
    let gs = groups(2, 3, &vec![true, false, true, false, true, false]);
    assert_eq!(gs, vec![vec![0, 4, 2]]);
}

#[test]
fn on_a_tie_the_target_is_the_first_the_flood_took() {
    // Every cell as dear as the next: the first cell is blocked, and of the
    // rest the flood took cell 4 first, not cell 1.
    let gs = groups(3, 3, &vec![true; 9]);
    let dist = vec![5u32; 9];
    let mut blocked = vec![false; 9];
    blocked[0] = true;
    assert_eq!(cheapest_cell(&gs[0], &blocked, &dist), Some(4));
}

#[test]
fn the_largest_group_is_never_more_than_the_frontier_cells() {
    let g = room(&["....#.....", "??????????"]);
    let none = vec![false; 20];
    assert_eq!(frontier_cells(&g), 9);
    assert_eq!(largest_frontier(&g, &none), 5);
    let all = vec![true; 20];
    assert_eq!(largest_frontier(&g, &all), 0);
    let closed = room(&["###", "#.#", "###"]);
    assert_eq!(frontier_cells(&closed), 0);
    assert_eq!(largest_frontier(&closed, &vec![false; 9]), 0);
    let open = room(&["..", "?."]);
    assert_eq!(frontier_cells(&open), 3);
    assert_eq!(largest_frontier(&open, &vec![false; 4]), 3);
}
