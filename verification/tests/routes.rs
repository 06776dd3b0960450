use std::cmp::Reverse;
use std::collections::BinaryHeap;

use kingdom_citymap::routes::{estimate, route_cells, TURN_COST};
use kingdom_citymap::traffic::{edge_traffic, town_journeys, ward_crossings};

#[test]
fn an_open_grid_is_crossed_with_a_single_turn() {
    let blocked = vec![false; 9];
    assert_eq!(route_cells(3, 3, &blocked, 0, 8), Some(vec![0, 3, 6, 7, 8]));
}

#[test]
fn a_blocked_cell_is_walked_around() {
    let mut blocked = vec![false; 9];
    blocked[4] = true;
    let path = route_cells(3, 3, &blocked, 0, 8).unwrap();
    assert!(!path.contains(&4));
    assert_eq!(path, vec![0, 3, 6, 7, 8]);
}

#[test]
fn a_wall_across_the_grid_leaves_no_route() {
    let blocked = vec![false, true, false, false, true, false, false, true, false];
    assert_eq!(route_cells(3, 3, &blocked, 0, 2), None);
}

#[test]
fn a_route_prefers_fewer_turns_to_a_shorter_zigzag() {
    // Four columns by three rows, with the middle of the second row walled.
    let blocked = vec![
        false, false, false, false, //
        true, true, true, false, //
        false, false, false, false,
    ];
    let path = route_cells(4, 3, &blocked, 8, 3).unwrap();
    assert_eq!(path, vec![8, 9, 10, 11, 7, 3]);
}

#[test]
fn the_ends_of_a_route_may_stand_on_blocked_ground() {
    let blocked = vec![true, false, true];
    assert_eq!(route_cells(3, 1, &blocked, 0, 2), Some(vec![0, 1, 2]));
    assert_eq!(route_cells(1, 1, &[true].to_vec(), 0, 0), Some(vec![0]));
}

#[test]
fn a_route_can_run_backwards_along_a_row() {
    let blocked = vec![false; 4];
    assert_eq!(route_cells(4, 1, &blocked, 3, 0), Some(vec![3, 2, 1, 0]));
}

#[test]
fn the_estimate_counts_distance_and_owed_turns() {
    // A state is a cell times four plus its heading: 0 east, 1 west,
    // 2 south, 3 north. On a 5 by 5 grid the goal is column 4, row 4.
    let turn = TURN_COST as u64;
    // At the goal: nothing left to pay.
    assert_eq!(estimate(5, 5, 24 * 4, 4, 4), 0);
    // Cell 0 heading east: off both axes, so one turn is owed.
    assert_eq!(estimate(5, 5, 0, 4, 4), 8 + turn);
    // Cell 4 (column 4, row 0) heading south: straight there.
    assert_eq!(estimate(5, 5, 4 * 4 + 2, 4, 4), 4);
    // Cell 4 heading north: pointing away, one turn owed.
    assert_eq!(estimate(5, 5, 4 * 4 + 3, 4, 4), 4 + turn);
    // Cell 20 (column 0, row 4) heading south: running along a satisfied
    // axis, one turn owed.
    assert_eq!(estimate(5, 5, 20 * 4 + 2, 4, 4), 4 + turn);
}

#[test]
fn a_road_carries_every_file_beyond_it() {
    // The square, then three places: the second reached through the first.
    let files = vec![0, 3, 2, 5];
    let edges = vec![(0, 1), (1, 2), (0, 3)];
    assert_eq!(edge_traffic(&files, &edges), vec![5, 2, 5]);
    assert!(edge_traffic(&files, &Vec::new()).is_empty());
}

#[test]
fn traffic_arriving_at_the_far_gate_crosses_the_ward() {
    let edges = vec![(0, 1), (1, 2), (1, 3)];
    // The road to place 2 arrives at gate 1 of place 1, which leaves by gate
    // 0; the road to place 3 arrives at gate 0 and never enters it.
    let arrival = vec![Some(0), Some(1), Some(0)];
    let uphill = vec![None, Some(0), Some(2), None];
    let traffic = vec![10, 4, 3];
    assert_eq!(
        ward_crossings(4, &edges, &arrival, &uphill, &traffic),
        vec![0, 4, 0, 0]
    );
}

#[test]
fn a_highway_carries_each_holding_and_each_reference() {
    assert_eq!(town_journeys(&vec![0, 3, 1]), 7);
    assert_eq!(town_journeys(&Vec::new()), 0);
}

/// A grid laid over the ground the way the road planner lays one: cells no
/// wider than half the lane between wards, a cell of margin all round, and
/// every cell whose centre lies on an obstacle blocked.
struct Grid {
    origin: (f32, f32),
    cell: f32,
    columns: usize,
    rows: usize,
    blocked: Vec<bool>,
}

const WARD_GAP: f32 = 15.0;

fn grid(width: f32, height: f32, obstacles: &[(f32, f32, f32, f32)], lane: f32) -> Grid {
    let cell = (width.max(height) / 150.0).clamp(4.0, lane * 0.5);
    let columns = ((width / cell).ceil() as usize + 2).max(1);
    let rows = ((height / cell).ceil() as usize + 2).max(1);
    let origin = (-cell, -cell);
    let mut blocked = vec![false; columns * rows];
    for &(x, y, w, h) in obstacles {
        let first_column = (((x - origin.0) / cell).floor().max(0.0) as usize).min(columns);
        let first_row = (((y - origin.1) / cell).floor().max(0.0) as usize).min(rows);
        let last_column = ((((x + w) - origin.0) / cell).ceil().max(0.0) as usize + 1).min(columns);
        let last_row = ((((y + h) - origin.1) / cell).ceil().max(0.0) as usize + 1).min(rows);
        for row in first_row..last_row {
            for column in first_column..last_column {
                let point = (
                    origin.0 + (column as f32 + 0.5) * cell,
                    origin.1 + (row as f32 + 0.5) * cell,
                );
                if point.0 >= x && point.0 <= x + w && point.1 >= y && point.1 <= y + h {
                    blocked[row * columns + column] = true;
                }
            }
        }
    }
    Grid {
        origin,
        cell,
        columns,
        rows,
        blocked,
    }
}

impl Grid {
    fn cell_of(&self, point: (f32, f32)) -> usize {
        let column = ((point.0 - self.origin.0) / self.cell).floor().max(0.0) as usize;
        let row = ((point.1 - self.origin.1) / self.cell).floor().max(0.0) as usize;
        row.min(self.rows - 1) * self.columns + column.min(self.columns - 1)
    }

    fn points(&self, from: (f32, f32), to: (f32, f32), cells: Option<Vec<usize>>) -> Option<Vec<[f32; 2]>> {
        let cells = cells?;
        let start = self.cell_of(from);
        let goal = self.cell_of(to);
        let mut points = vec![[from.0, from.1]];
        for cell in cells {
            let end = cell == start || cell == goal;
            if !(end && self.blocked[cell]) {
                points.push([
                    self.origin.0 + ((cell % self.columns) as f32 + 0.5) * self.cell,
                    self.origin.1 + ((cell / self.columns) as f32 + 0.5) * self.cell,
                ]);
            }
        }
        points.push([to.0, to.1]);
        let mut squared: Vec<[f32; 2]> = Vec::new();
        for &point in &points {
            if let Some(&last) = squared.last() {
                if last == point {
                    continue;
                }
                if last[0] != point[0] && last[1] != point[1] {
                    squared.push([point[0], last[1]]);
                }
            }
            squared.push(point);
        }
        let mut simple: Vec<[f32; 2]> = Vec::new();
        for (index, &point) in squared.iter().enumerate() {
            if index == 0 || index + 1 == squared.len() {
                simple.push(point);
                continue;
            }
            let previous = *simple.last().unwrap();
            let next = squared[index + 1];
            let straight = (previous[0] == point[0] && point[0] == next[0])
                || (previous[1] == point[1] && point[1] == next[1]);
            if !straight {
                simple.push(point);
            }
        }
        Some(simple)
    }

    /// The search without an estimate: every state in order of its cost.
    fn exhaustive(&self, start: usize, goal: usize) -> Option<Vec<usize>> {
        let headings: [(i64, i64); 4] = [(1, 0), (-1, 0), (0, 1), (0, -1)];
        let cells = self.columns * self.rows;
        let mut best = vec![u32::MAX; cells * 4];
        let mut came_from = vec![usize::MAX; cells * 4];
        let mut queue = BinaryHeap::new();
        for heading in 0..4 {
            best[start * 4 + heading] = 0;
            queue.push(Reverse((0u32, start * 4 + heading)));
        }
        let mut arrived = None;
        while let Some(Reverse((cost, state))) = queue.pop() {
            if cost > best[state] {
                continue;
            }
            let cell = state / 4;
            let heading = state % 4;
            if cell == goal {
                arrived = Some(state);
                break;
            }
            let column = (cell % self.columns) as i64;
            let row = (cell / self.columns) as i64;
            for (next_heading, (dx, dy)) in headings.iter().enumerate() {
                let next_column = column + dx;
                let next_row = row + dy;
                if next_column < 0
                    || next_row < 0
                    || next_column >= self.columns as i64
                    || next_row >= self.rows as i64
                {
                    continue;
                }
                let next = next_row as usize * self.columns + next_column as usize;
                if self.blocked[next] && next != goal && next != start {
                    continue;
                }
                let turn = if next_heading == heading { 0 } else { TURN_COST };
                let next_cost = cost + 1 + turn;
                let next_state = next * 4 + next_heading;
                if next_cost < best[next_state] {
                    best[next_state] = next_cost;
                    came_from[next_state] = state;
                    queue.push(Reverse((next_cost, next_state)));
                }
            }
        }
        let mut state = arrived?;
        let mut cells_back = Vec::new();
        loop {
            cells_back.push(state / 4);
            if state / 4 == start {
                break;
            }
            state = came_from[state];
        }
        cells_back.reverse();
        Some(cells_back)
    }
}

#[test]
fn the_heuristic_never_changes_a_route() {
    let mut seed = 0x2545_F491_4F6C_DD1Du64;
    let mut rand = move || {
        seed ^= seed << 13;
        seed ^= seed >> 7;
        seed ^= seed << 17;
        seed
    };

    for case in 0..3_000 {
        let width = 40.0 + (rand() % 400) as f32;
        let height = 40.0 + (rand() % 400) as f32;
        let obstacles: Vec<(f32, f32, f32, f32)> = (0..(rand() % 12) as usize)
            .map(|_| {
                (
                    (rand() % width as u64) as f32,
                    (rand() % height as u64) as f32,
                    5.0 + (rand() % 60) as f32,
                    5.0 + (rand() % 60) as f32,
                )
            })
            .collect();
        let ground = grid(width, height, &obstacles, WARD_GAP);
        let from = (
            (rand() % width as u64) as f32,
            (rand() % height as u64) as f32,
        );
        let to = (
            (rand() % width as u64) as f32,
            (rand() % height as u64) as f32,
        );
        let start = ground.cell_of(from);
        let goal = ground.cell_of(to);
        let searched = route_cells(ground.columns, ground.rows, &ground.blocked, start, goal);
        let exhaustive = ground.exhaustive(start, goal);
        assert_eq!(
            ground.points(from, to, searched),
            ground.points(from, to, exhaustive),
            "case {case}: the heuristic changed the road from {from:?} to {to:?} \
             across {width}x{height} with {obstacles:?}"
        );
    }
}
