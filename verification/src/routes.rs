//! Finding a road's way across the ground: the cheapest right-angled route
//! between two cells of a grid that keeps off blocked cells, where every
//! change of direction costs as much as several straight steps.
//!
//! A route is searched over states rather than cells: a state is a cell and
//! the heading the route arrived in, numbered `cell * 4 + heading`, because
//! what the next step costs depends on whether it turns.

use vstd::prelude::*;
use std::collections::HashMap;

verus! {

/// What a route pays to change direction, in cells.
pub const TURN_COST: u32 = 4;

/// The column and row offsets of the four headings: along a row forwards
/// and back, then along a column forwards and back.
pub open spec fn offset(heading: int) -> (int, int) {
    if heading == 0 {
        (1, 0)
    } else if heading == 1 {
        (-1, 0)
    } else if heading == 2 {
        (0, 1)
    } else {
        (0, -1)
    }
}

/// The cell one step from `cell` in `heading` on a grid of `columns` by
/// `rows` cells numbered row by row, or `-1` where the step leaves the grid.
pub open spec fn moved(columns: int, rows: int, cell: int, heading: int) -> int {
    let column = cell % columns + offset(heading).0;
    let row = cell / columns + offset(heading).1;
    if 0 <= column < columns && 0 <= row < rows {
        row * columns + column
    } else {
        -1
    }
}

/// What a step in `heading` costs after arriving in `arrived`: one, and a
/// turn on top where the heading changes.
pub open spec fn step_cost(arrived: int, heading: int) -> int {
    if arrived == heading {
        1
    } else {
        1 + TURN_COST
    }
}

pub open spec fn abs_diff(a: int, b: int) -> int {
    if a >= b {
        a - b
    } else {
        b - a
    }
}

/// The least a route from `state` to the goal cell could cost: the
/// distance along the axes, and a turn wherever the goal is off both axes
/// or the heading is not already making progress toward it.
pub open spec fn estimate_of(columns: int, state: int, goal_column: int, goal_row: int) -> int {
    let cell = state / 4;
    let heading = state % 4;
    let column = cell % columns;
    let row = cell / columns;
    let dx = abs_diff(column, goal_column);
    let dy = abs_diff(row, goal_row);
    if dx == 0 && dy == 0 {
        0
    } else {
        let away = if heading == 0 {
            column > goal_column
        } else if heading == 1 {
            column < goal_column
        } else if heading == 2 {
            row > goal_row
        } else {
            row < goal_row
        };
        let on_axis = if heading <= 1 {
            dx > 0
        } else {
            dy > 0
        };
        let turns = if away || !on_axis || (dx > 0 && dy > 0) {
            1int
        } else {
            0int
        };
        dx + dy + turns * TURN_COST
    }
}

/// The least a route from `state` to the goal cell could possibly cost, by
/// [`estimate_of`].
pub fn estimate(columns: usize, rows: usize, state: usize, goal_column: usize, goal_row: usize) -> (e: u64)
    requires
        columns > 0,
        rows > 0,
        columns * rows * 4 <= usize::MAX,
        state < columns * rows * 4,
        goal_column < columns,
        goal_row < rows,
    ensures
        e == estimate_of(columns as int, state as int, goal_column as int, goal_row as int),
        e <= columns + rows + 2,
{
    let cell = state / 4;
    let heading = state % 4;
    let column = cell % columns;
    let row = cell / columns;
    proof {
        lemma_grid_sides(columns as int, rows as int);
        assert(row < rows) by (nonlinear_arith)
            requires
                row == cell / columns,
                cell < columns * rows,
                columns > 0,
        ;
    }
    let dx: u64 = if column >= goal_column {
        (column - goal_column) as u64
    } else {
        (goal_column - column) as u64
    };
    let dy: u64 = if row >= goal_row {
        (row - goal_row) as u64
    } else {
        (goal_row - row) as u64
    };
    if dx == 0 && dy == 0 {
        return 0;
    }
    let away = if heading == 0 {
        column > goal_column
    } else if heading == 1 {
        column < goal_column
    } else if heading == 2 {
        row > goal_row
    } else {
        row < goal_row
    };
    let on_axis = if heading <= 1 {
        dx > 0
    } else {
        dy > 0
    };
    let turns: u64 = if away || !on_axis || (dx > 0 && dy > 0) {
        1
    } else {
        0
    };
    dx + dy + turns * 4
}

proof fn lemma_grid_sides(columns: int, rows: int)
    by (nonlinear_arith)
    requires
        columns >= 1,
        rows >= 1,
    ensures
        columns + rows <= columns * rows + 1,
{
}

proof fn lemma_state(cell: int, heading: int)
    requires
        0 <= cell,
        0 <= heading < 4,
    ensures
        (cell * 4 + heading) / 4 == cell,
        (cell * 4 + heading) % 4 == heading,
{
}

proof fn lemma_cell(columns: int, column: int, row: int)
    by (nonlinear_arith)
    requires
        0 <= column < columns,
        0 <= row,
    ensures
        (row * columns + column) % columns == column,
        (row * columns + column) / columns == row,
{
}

proof fn lemma_cell_bound(columns: int, rows: int, column: int, row: int)
    by (nonlinear_arith)
    requires
        0 <= column < columns,
        0 <= row < rows,
    ensures
        0 <= row * columns + column < columns * rows,
{
}

/// The estimate never claims more than one step costs plus what is left
/// after it, and is nothing at the goal; so it never overstates what a
/// route still has to pay, and a search ordered by it finds the cheapest
/// route.
pub proof fn law_the_estimate_never_overstates(
    columns: int,
    rows: int,
    cell: int,
    arrived: int,
    heading: int,
    goal_column: int,
    goal_row: int,
)
    requires
        columns > 0,
        0 <= cell,
        0 <= arrived < 4,
        0 <= heading < 4,
        moved(columns, rows, cell, heading) >= 0,
    ensures
        estimate_of(columns, cell * 4 + arrived, goal_column, goal_row) <= step_cost(arrived, heading)
            + estimate_of(columns, moved(columns, rows, cell, heading) * 4 + heading, goal_column, goal_row),
        0 <= goal_column < columns && 0 <= goal_row ==> estimate_of(
            columns,
            (goal_row * columns + goal_column) * 4 + arrived,
            goal_column,
            goal_row,
        ) == 0,
{
    let next = moved(columns, rows, cell, heading);
    lemma_state(cell, arrived);
    lemma_state(next, heading);
    let column = cell % columns + offset(heading).0;
    let row = cell / columns + offset(heading).1;
    lemma_cell(columns, column, row);
    if 0 <= goal_column < columns && 0 <= goal_row {
        lemma_state(goal_row * columns + goal_column, arrived);
        lemma_cell(columns, goal_column, goal_row);
    }
}


// ---------------------------------------------------------------------------
// Routes
// ---------------------------------------------------------------------------

/// Whether a route may enter `cell`: open ground, or one of its own two
/// ends, which may lie on blocked ground (a gate sits on its ward's edge).
pub open spec fn open_cell(blocked: Seq<bool>, start: int, goal: int, cell: int) -> bool {
    !blocked[cell] || cell == start || cell == goal
}

/// Whether `b` is one step from `a` in one of the four headings.
pub open spec fn adjacent(columns: int, rows: int, a: int, b: int) -> bool {
    b >= 0 && (moved(columns, rows, a, 0) == b || moved(columns, rows, a, 1) == b || moved(
        columns,
        rows,
        a,
        2,
    ) == b || moved(columns, rows, a, 3) == b)
}

/// A clear right-angled route: it begins at `start` and ends at `goal`,
/// each cell is one step from the one before, and every cell it enters may
/// be entered.
pub open spec fn is_route(
    columns: int,
    rows: int,
    blocked: Seq<bool>,
    start: int,
    goal: int,
    path: Seq<int>,
) -> bool {
    &&& path.len() >= 1
    &&& path[0] == start
    &&& path.last() == goal
    &&& steps_ok(columns, rows, blocked, start, goal, path)
}

/// Each cell of `path` after the first is one step from the one before and
/// may be entered.
pub open spec fn steps_ok(columns: int, rows: int, blocked: Seq<bool>, start: int, goal: int, path: Seq<int>) -> bool {
    forall|k: int|
        1 <= k < path.len() ==> adjacent(columns, rows, path[k - 1], #[trigger] path[k])
            && open_cell(blocked, start, goal, path[k])
}

/// The heading of the step from `a` to `b`.
pub open spec fn heading_between(columns: int, rows: int, a: int, b: int) -> int {
    if moved(columns, rows, a, 0) == b {
        0
    } else if moved(columns, rows, a, 1) == b {
        1
    } else if moved(columns, rows, a, 2) == b {
        2
    } else {
        3
    }
}

/// What a route costs: one for each step, and [`TURN_COST`] more for each
/// step that changes heading from the step before it.
pub open spec fn route_cost(columns: int, rows: int, path: Seq<int>) -> int
    decreases path.len(),
{
    if path.len() <= 1 {
        0
    } else {
        1 + (if path.len() >= 3 && heading_between(columns, rows, path[1], path[2]) != heading_between(
            columns,
            rows,
            path[0],
            path[1],
        ) {
            TURN_COST as int
        } else {
            0
        }) + route_cost(columns, rows, path.drop_first())
    }
}

/// Cell numbers as integers.
pub open spec fn cells_of(v: Seq<usize>) -> Seq<int> {
    v.map_values(|c: usize| c as int)
}

/// The grid a search runs on: at least one cell, every state numbered in a
/// `usize`, a blocked flag per cell, and both ends on the grid.
pub open spec fn grid_ok(columns: int, rows: int, cells: int, start: int, goal: int) -> bool {
    &&& columns > 0
    &&& rows > 0
    &&& columns * rows * 4 <= usize::MAX
    &&& columns * rows * 24 + 16 <= u64::MAX
    &&& cells == columns * rows
    &&& 0 <= start < columns * rows
    &&& 0 <= goal < columns * rows
}

/// The state one step from `state` in `heading` reaches, or `-1` where that
/// step leaves the grid or enters a cell a route may not enter.
pub open spec fn entered(columns: int, rows: int, blocked: Seq<bool>, start: int, goal: int, state: int, heading: int) -> int {
    let next = moved(columns, rows, state / 4, heading);
    if next >= 0 && open_cell(blocked, start, goal, next) {
        next * 4 + heading
    } else {
        -1
    }
}

/// A walk over states from a start: it begins in a state at `start`, and
/// each later state is one allowed step from the one before, taken in the
/// later state's own heading.
pub open spec fn is_walk(columns: int, rows: int, blocked: Seq<bool>, start: int, goal: int, w: Seq<int>) -> bool {
    &&& w.len() >= 1
    &&& 0 <= w[0]
    &&& w[0] / 4 == start
    &&& forall|k: int|
        1 <= k < w.len() ==> 0 <= #[trigger] w[k] && w[k] == entered(columns, rows, blocked, start, goal, w[k - 1], w[k] % 4)
}

/// What a walk costs: each step's [`step_cost`].
pub open spec fn walk_cost(w: Seq<int>) -> int
    decreases w.len(),
{
    if w.len() <= 1 {
        0
    } else {
        step_cost(w[0] % 4, w[1] % 4) + walk_cost(w.drop_first())
    }
}

/// The walk along the cells of `path`, starting in `heading` and taking
/// each later cell in the heading of the step into it.
pub open spec fn walk_of(columns: int, rows: int, path: Seq<int>, heading: int) -> Seq<int> {
    Seq::new(
        path.len(),
        |k: int|
            path[k] * 4 + if k == 0 {
                heading
            } else {
                heading_between(columns, rows, path[k - 1], path[k])
            },
    )
}

/// Every step out of `state` has been taken: each state one step from it
/// has been reached, at no more than `state`'s cost and that step's.
spec fn settled(best: Map<usize, u64>, columns: int, rows: int, blocked: Seq<bool>, start: int, goal: int, state: int) -> bool {
    forall|h: int|
        0 <= h < 4 && #[trigger] entered(columns, rows, blocked, start, goal, state, h) >= 0 ==> {
            let n = entered(columns, rows, blocked, start, goal, state, h) as usize;
            &&& best.contains_key(n)
            &&& best[n] <= best[state as usize] + step_cost(state % 4, h)
        }
}

/// `q` holds an entry for `state` at cost `cost`.
spec fn queued(q: Seq<(u64, u64, usize)>, state: usize, cost: u64) -> bool {
    exists|i: int| 0 <= i < q.len() && (#[trigger] q[i]).2 == state && q[i].1 == cost
}

/// What the search has learnt: how cheaply each state was reached and from
/// which state, every state on the grid, every step a real one, every
/// reached state either a start or reached from a cheaper state, and every
/// start reached at no cost.
spec fn reached_ok(
    columns: int,
    rows: int,
    blocked: Seq<bool>,
    start: int,
    goal: int,
    best: Map<usize, u64>,
    from: Map<usize, usize>,
) -> bool {
    &&& forall|s: usize| #[trigger] best.contains_key(s) ==> s < columns * rows * 4
    &&& forall|h: int| 0 <= h < 4 ==> #[trigger] best.contains_key((start * 4 + h) as usize) && best[(start * 4 + h) as usize] == 0
    &&& forall|s: usize| #[trigger] from.contains_key(s) ==> {
        &&& best.contains_key(s)
        &&& best.contains_key(from[s])
        &&& best[from[s]] + step_cost(from[s] as int % 4, s as int % 4) <= best[s]
        &&& moved(columns, rows, from[s] as int / 4, s as int % 4) == s as int / 4
        &&& open_cell(blocked, start, goal, s as int / 4)
    }
    &&& forall|s: usize| #[trigger] best.contains_key(s) ==> from.contains_key(s) || s as int / 4 == start
}

/// What reaching a state would otherwise cost: its cost, or the most a
/// `u64` holds where it has not been reached.
spec fn cap(best: Map<usize, u64>, s: int) -> int {
    if best.contains_key(s as usize) {
        best[s as usize] as int
    } else {
        u64::MAX as int
    }
}

/// The sum of [`cap`] over the first `n` states: it falls each time a
/// state is reached more cheaply, which is why the search ends.
spec fn potential(best: Map<usize, u64>, n: int) -> int
    decreases n,
{
    if n <= 0 {
        0
    } else {
        potential(best, n - 1) + cap(best, n - 1)
    }
}

proof fn lemma_potential_nonneg(best: Map<usize, u64>, n: int)
    ensures
        potential(best, n) >= 0,
    decreases n,
{
    if n > 0 {
        lemma_potential_nonneg(best, n - 1);
    }
}

proof fn lemma_potential_insert(best: Map<usize, u64>, n: int, k: usize, v: u64)
    requires
        0 <= k < n <= usize::MAX + 1,
    ensures
        potential(best.insert(k, v), n) == potential(best, n) - cap(best, k as int) + v,
    decreases n,
{
    if n - 1 > k {
        lemma_potential_insert(best, n - 1, k, v);
        assert(cap(best.insert(k, v), n - 1) == cap(best, n - 1));
    } else {
        assert(forall|j: int| 0 <= j < n - 1 ==> cap(best.insert(k, v), j) == cap(best, j));
        lemma_potential_same(best.insert(k, v), best, n - 1);
    }
}

proof fn lemma_potential_same(a: Map<usize, u64>, b: Map<usize, u64>, n: int)
    requires
        n <= usize::MAX + 1,
        forall|j: int| 0 <= j < n ==> cap(a, j) == cap(b, j),
    ensures
        potential(a, n) == potential(b, n),
    decreases n,
{
    if n > 0 {
        lemma_potential_same(a, b, n - 1);
    }
}

proof fn lemma_queued_remove(q: Seq<(u64, u64, usize)>, m: int, s: usize, c: u64)
    requires
        0 <= m < q.len(),
        queued(q, s, c),
        !(q[m].2 == s && q[m].1 == c),
    ensures
        queued(q.remove(m), s, c),
{
    let j = choose|j: int| 0 <= j < q.len() && (#[trigger] q[j]).2 == s && q[j].1 == c;
    if j < m {
        assert(q.remove(m)[j] == q[j]);
    } else {
        assert(q.remove(m)[j - 1] == q[j]);
    }
}

proof fn lemma_queued_push(q: Seq<(u64, u64, usize)>, x: (u64, u64, usize), s: usize, c: u64)
    requires
        queued(q, s, c) || (x.2 == s && x.1 == c),
    ensures
        queued(q.push(x), s, c),
{
    if queued(q, s, c) {
        let j = choose|j: int| 0 <= j < q.len() && (#[trigger] q[j]).2 == s && q[j].1 == c;
        assert(q.push(x)[j] == q[j]);
    } else {
        assert(q.push(x)[q.len() as int] == x);
    }
}

/// The cell one step from `cell` in `heading`, where that stays on the grid.
fn step(columns: usize, rows: usize, cell: usize, heading: usize) -> (r: Option<usize>)
    requires
        columns > 0,
        rows > 0,
        columns * rows * 4 <= usize::MAX,
        cell < columns * rows,
        heading < 4,
    ensures
        match r {
            Some(n) => n as int == moved(columns as int, rows as int, cell as int, heading as int) && n < columns * rows,
            None => moved(columns as int, rows as int, cell as int, heading as int) == -1,
        },
{
    let column = cell % columns;
    let row = cell / columns;
    proof {
        assert(row < rows) by (nonlinear_arith)
            requires
                row == cell / columns,
                cell < columns * rows,
                columns > 0,
        ;
    }
    let (c, r): (usize, usize) = if heading == 0 {
        if column + 1 >= columns {
            return None;
        }
        (column + 1, row)
    } else if heading == 1 {
        if column == 0 {
            return None;
        }
        (column - 1, row)
    } else if heading == 2 {
        if row + 1 >= rows {
            return None;
        }
        (column, row + 1)
    } else {
        if row == 0 {
            return None;
        }
        (column, row - 1)
    };
    proof {
        lemma_cell_bound(columns as int, rows as int, c as int, r as int);
    }
    Some(r * columns + c)
}

/// Entry `i` of a heap comes no earlier than the entry above it.
spec fn heap_link(q: Seq<(u64, u64, usize)>, i: int) -> bool {
    !key_lt(entry_key(q[i]), entry_key(q[(i - 1) / 2]))
}

/// `q` is a binary heap in the search's order: no entry comes before the
/// one above it.
spec fn heap_ok(q: Seq<(u64, u64, usize)>) -> bool {
    forall|i: int| 0 < i < q.len() ==> #[trigger] heap_link(q, i)
}

/// The first entry of a heap comes no later than any other.
proof fn lemma_heap_first(q: Seq<(u64, u64, usize)>, i: int)
    requires
        heap_ok(q),
        0 <= i < q.len(),
    ensures
        !key_lt(entry_key(q[i]), entry_key(q[0])),
    decreases i,
{
    if i > 0 {
        assert(heap_link(q, i));
        lemma_heap_first(q, (i - 1) / 2);
    }
}

/// Two runs of entries that hold the same entries, as often each: the same
/// length, and each entry of one is in the other.
proof fn lemma_entries_moved(a: Seq<(u64, u64, usize)>, b: Seq<(u64, u64, usize)>)
    requires
        a.to_multiset() =~= b.to_multiset(),
    ensures
        a.len() == b.len(),
        forall|i: int| 0 <= i < b.len() ==> a.contains(#[trigger] b[i]),
        forall|i: int| 0 <= i < a.len() ==> b.contains(#[trigger] a[i]),
{
    broadcast use vstd::seq_lib::group_to_multiset_ensures;

    assert(a.to_multiset().len() == a.len());
    assert(b.to_multiset().len() == b.len());
    assert forall|i: int| 0 <= i < b.len() implies a.contains(#[trigger] b[i]) by {
        assert(b.contains(b[i]));
        assert(b.to_multiset().count(b[i]) > 0);
        assert(a.to_multiset().count(b[i]) > 0);
    }
    assert forall|i: int| 0 <= i < a.len() implies b.contains(#[trigger] a[i]) by {
        assert(a.contains(a[i]));
        assert(a.to_multiset().count(a[i]) > 0);
        assert(b.to_multiset().count(a[i]) > 0);
    }
}

proof fn lemma_swap_entries(q: Seq<(u64, u64, usize)>, i: int, j: int)
    requires
        0 <= i < q.len(),
        0 <= j < q.len(),
    ensures
        q.update(i, q[j]).update(j, q[i]).to_multiset() =~= q.to_multiset(),
{
    broadcast use vstd::seq_lib::group_to_multiset_ensures;
    broadcast use vstd::multiset::group_multiset_axioms;

    let u = q.update(i, q[j]);
    assert(u[j] == q[j] || i == j);
    if i == j {
        assert(q.update(i, q[j]).update(j, q[i]) =~= q);
    }
}

/// Adds an entry to a heap.
fn heap_push(queue: &mut Vec<(u64, u64, usize)>, entry: (u64, u64, usize))
    requires
        heap_ok(old(queue)@),
    ensures
        heap_ok(final(queue)@),
        final(queue)@.to_multiset() =~= old(queue)@.push(entry).to_multiset(),
{
    let ghost target = old(queue)@.push(entry);
    let ghost q0 = old(queue)@;
    queue.push(entry);
    let mut i: usize = queue.len() - 1;
    proof {
        assert forall|j: int| 0 < j < queue.len() && j != i implies #[trigger] heap_link(queue@, j) by {
            assert(heap_link(q0, j));
        }
    }
    while i > 0 && before(&queue[i], &queue[(i - 1) / 2])
        invariant
            i < queue.len(),
            queue@.to_multiset() =~= target.to_multiset(),
            forall|j: int| 0 < j < queue.len() && j != i ==> #[trigger] heap_link(queue@, j),
            i > 0 ==> forall|c: int|
                0 < c < queue.len() && (c - 1) / 2 == i ==> !key_lt(
                    #[trigger] entry_key(queue@[c]),
                    entry_key(queue@[(i - 1) / 2]),
                ),
        decreases i,
    {
        let p = (i - 1) / 2;
        let ghost old_q = queue@;
        let a = queue[i];
        let b = queue[p];
        queue.set(i, b);
        queue.set(p, a);
        proof {
            lemma_swap_entries(old_q, i as int, p as int);
            assert(queue@ =~= old_q.update(i as int, old_q[p as int]).update(p as int, old_q[i as int]));
            assert forall|j: int| 0 < j < queue.len() && j != p implies #[trigger] heap_link(queue@, j) by {
                if j != i && (j - 1) / 2 != i && (j - 1) / 2 != p {
                    assert(heap_link(old_q, j));
                } else if j != i && (j - 1) / 2 == p {
                    assert(heap_link(old_q, j));
                } else if j != i && (j - 1) / 2 == i {
                    assert(!key_lt(entry_key(old_q[j]), entry_key(old_q[p as int])));
                }
            }
            if p > 0 {
                assert(heap_link(old_q, p as int));
                assert forall|c: int|
                    0 < c < queue.len() && (c - 1) / 2 == p implies !key_lt(
                    #[trigger] entry_key(queue@[c]),
                    entry_key(queue@[(p - 1) / 2]),
                ) by {
                    if c != i {
                        assert(heap_link(old_q, c));
                    }
                }
            }
        }
        i = p;
    }
    proof {
        assert forall|j: int| 0 < j < queue.len() implies #[trigger] heap_link(queue@, j) by {
            if j == i {
                assert(!key_lt(entry_key(queue@[j]), entry_key(queue@[(j - 1) / 2])));
            }
        }
    }
}

/// Takes the first entry off a heap: it comes no later than any entry the
/// heap held.
fn heap_pop(queue: &mut Vec<(u64, u64, usize)>) -> (e: (u64, u64, usize))
    requires
        heap_ok(old(queue)@),
        old(queue).len() > 0,
    ensures
        e == old(queue)@[0],
        forall|i: int| 0 <= i < old(queue)@.len() ==> !key_lt(#[trigger] entry_key(old(queue)@[i]), entry_key(e)),
        heap_ok(final(queue)@),
        final(queue)@.to_multiset() =~= old(queue)@.remove(0).to_multiset(),
{
    broadcast use vstd::seq_lib::group_to_multiset_ensures;
    broadcast use vstd::multiset::group_multiset_axioms;

    let ghost q0 = queue@;
    proof {
        assert forall|i: int| 0 <= i < q0.len() implies !key_lt(#[trigger] entry_key(q0[i]), entry_key(q0[0])) by {
            lemma_heap_first(q0, i);
        }
    }
    let e = queue.swap_remove(0);
    proof {
        if q0.len() > 1 {
            let u = q0.update(0, q0.last());
            assert(queue@ =~= u.drop_last());
            assert(u.drop_last() =~= u.remove(u.len() - 1));
            assert(q0.remove(0).to_multiset() =~= q0.to_multiset().remove(q0[0]));
            assert(u.to_multiset() =~= q0.to_multiset().insert(q0.last()).remove(q0[0]));
            assert(u.remove(u.len() - 1).to_multiset() =~= u.to_multiset().remove(q0.last()));
        } else {
            assert(queue@ =~= q0.remove(0));
        }
    }
    let mut i: usize = 0;
    let n = queue.len();
    proof {
        assert forall|j: int| 0 < j < n && (j - 1) / 2 != i implies #[trigger] heap_link(queue@, j) by {
            assert(heap_link(q0, j));
            assert(queue@[j] == q0[j]);
            assert(queue@[(j - 1) / 2] == q0[(j - 1) / 2]);
        }
    }
    loop
        invariant
            n == queue.len(),
            i < n || n == 0,
            queue@.to_multiset() =~= q0.remove(0).to_multiset(),
            forall|j: int| 0 < j < n && (j - 1) / 2 != i ==> #[trigger] heap_link(queue@, j),
            i > 0 ==> forall|c: int|
                0 < c < n && (c - 1) / 2 == i ==> !key_lt(#[trigger] entry_key(queue@[c]), entry_key(queue@[(i - 1) / 2])),
        ensures
            heap_ok(queue@),
            queue@.to_multiset() =~= q0.remove(0).to_multiset(),
        decreases n - i,
    {
        if n == 0 {
            break;
        }
        let left = if i < (n - 1) / 2 + 1 { 2 * i + 1 } else { n };
        let right = if left < n { left + 1 } else { n };
        let mut least = i;
        if left < n && before(&queue[left], &queue[least]) {
            least = left;
        }
        if right < n && before(&queue[right], &queue[least]) {
            least = right;
        }
        if least == i {
            proof {
                assert forall|j: int| 0 < j < n implies #[trigger] heap_link(queue@, j) by {
                    if (j - 1) / 2 == i {
                        assert(j == left || j == right);
                    }
                }
            }
            break;
        }
        let ghost old_q = queue@;
        let a = queue[i];
        let b = queue[least];
        queue.set(i, b);
        queue.set(least, a);
        proof {
            lemma_swap_entries(old_q, i as int, least as int);
            assert(queue@ =~= old_q.update(i as int, old_q[least as int]).update(least as int, old_q[i as int]));
            assert((least - 1) / 2 == i);
            assert forall|j: int| 0 < j < n && (j - 1) / 2 != least implies #[trigger] heap_link(queue@, j) by {
                if j == i {
                    assert(!key_lt(entry_key(old_q[least as int]), entry_key(old_q[(i - 1) / 2])));
                } else if j == least {
                } else if (j - 1) / 2 == i {
                    assert(j == left || j == right);
                } else {
                    assert(heap_link(old_q, j));
                }
            }
            assert forall|c: int|
                0 < c < n && (c - 1) / 2 == least implies !key_lt(#[trigger] entry_key(queue@[c]), entry_key(queue@[(least - 1) / 2])) by {
                assert(heap_link(old_q, c));
            }
        }
        i = least;
    }
    e
}

proof fn lemma_queued_moved(a: Seq<(u64, u64, usize)>, b: Seq<(u64, u64, usize)>, s: usize, c: u64)
    requires
        a.to_multiset() =~= b.to_multiset(),
        queued(a, s, c),
    ensures
        queued(b, s, c),
{
    lemma_entries_moved(a, b);
    let i = choose|i: int| 0 <= i < a.len() && (#[trigger] a[i]).2 == s && a[i].1 == c;
    assert(b.contains(a[i]));
    let j = choose|j: int| 0 <= j < b.len() && b[j] == a[i];
    assert(b[j].2 == s && b[j].1 == c);
}

/// What the search keeps of its queue holds of any queue with the same
/// entries, in whatever order.
proof fn lemma_queue_moved(
    columns: int,
    rows: int,
    blocked: Seq<bool>,
    start: int,
    goal: int,
    best: Map<usize, u64>,
    from: Map<usize, usize>,
    a: Seq<(u64, u64, usize)>,
    b: Seq<(u64, u64, usize)>,
    done: Set<usize>,
    last: (int, int, int),
    except_waiting: int,
    except_order: int,
)
    requires
        a.to_multiset() =~= b.to_multiset(),
    ensures
        a.len() == b.len(),
        frontier_ok(a, best, columns, goal % columns, goal / columns, columns * rows * 4) ==> frontier_ok(
            b,
            best,
            columns,
            goal % columns,
            goal / columns,
            columns * rows * 4,
        ),
        waiting(a, best, columns, rows, blocked, start, goal, except_waiting) ==> waiting(
            b,
            best,
            columns,
            rows,
            blocked,
            start,
            goal,
            except_waiting,
        ),
        ordered(columns, rows, blocked, start, goal, best, from, a, done, last, except_order) ==> ordered(
            columns,
            rows,
            blocked,
            start,
            goal,
            best,
            from,
            b,
            done,
            last,
            except_order,
        ),
{
    lemma_entries_moved(a, b);
    if frontier_ok(a, best, columns, goal % columns, goal / columns, columns * rows * 4) {
        assert forall|i: int| 0 <= i < b.len() implies {
            &&& (#[trigger] b[i]).2 < columns * rows * 4
            &&& best.contains_key(b[i].2)
            &&& best[b[i].2] <= b[i].1
            &&& b[i].0 == b[i].1 + estimate_of(columns, b[i].2 as int, goal % columns, goal / columns)
        } by {
            assert(a.contains(b[i]));
            let j = choose|j: int| 0 <= j < a.len() && a[j] == b[i];
        }
    }
    if waiting(a, best, columns, rows, blocked, start, goal, except_waiting) {
        assert forall|s: usize| #[trigger] best.contains_key(s) && s as int != except_waiting implies queued(b, s, best[s])
            || (s as int / 4 != goal && settled(best, columns, rows, blocked, start, goal, s as int)) by {
            if queued(a, s, best[s]) {
                lemma_queued_moved(a, b, s, best[s]);
            }
        }
    }
    if ordered(columns, rows, blocked, start, goal, best, from, a, done, last, except_order) {
        assert forall|i: int| 0 <= i < b.len() implies !key_lt(#[trigger] entry_key(b[i]), last) by {
            assert(a.contains(b[i]));
            let j = choose|j: int| 0 <= j < a.len() && a[j] == b[i];
            assert(!key_lt(entry_key(a[j]), last));
        }
        assert forall|s: usize| #[trigger] best.contains_key(s) implies done.contains(s) || queued(b, s, best[s]) by {
            if !done.contains(s) {
                lemma_queued_moved(a, b, s, best[s]);
            }
        }
    }
}

/// Whether entry `a` comes before entry `b`: by estimated total, then by
/// cost so far, then by state.
fn before(a: &(u64, u64, usize), b: &(u64, u64, usize)) -> (r: bool)
    ensures
        r == (a.0 < b.0 || (a.0 == b.0 && (a.1 < b.1 || (a.1 == b.1 && a.2 < b.2)))),
{
    a.0 < b.0 || (a.0 == b.0 && (a.1 < b.1 || (a.1 == b.1 && a.2 < b.2)))
}




/// How many of the first `n` states have been reached at a cost below `v`.
spec fn below(best: Map<usize, u64>, v: int, n: int) -> int
    decreases n,
{
    if n <= 0 {
        0
    } else {
        below(best, v, n - 1) + if best.contains_key((n - 1) as usize) && best[(n - 1) as usize] < v {
            1int
        } else {
            0int
        }
    }
}

proof fn lemma_below_bound(best: Map<usize, u64>, v: int, n: int)
    ensures
        0 <= below(best, v, n) <= if n >= 0 {
            n
        } else {
            0
        },
    decreases n,
{
    if n > 0 {
        lemma_below_bound(best, v, n - 1);
    }
}

proof fn lemma_below_excludes(best: Map<usize, u64>, v: int, n: int, s: int)
    requires
        0 <= s < n,
        !(best.contains_key(s as usize) && best[s as usize] < v),
    ensures
        below(best, v, n) <= n - 1,
    decreases n,
{
    if n - 1 == s {
        lemma_below_bound(best, v, n - 1);
    } else {
        lemma_below_excludes(best, v, n - 1, s);
    }
}

proof fn lemma_below_gap(best: Map<usize, u64>, v1: int, v2: int, n: int, p: int)
    requires
        v1 <= v2,
        0 <= p < n <= usize::MAX + 1,
        best.contains_key(p as usize),
        v1 <= best[p as usize] < v2,
    ensures
        below(best, v2, n) >= below(best, v1, n) + 1,
    decreases n,
{
    if n - 1 == p {
        lemma_below_mono(best, v1, v2, n - 1);
    } else {
        lemma_below_gap(best, v1, v2, n - 1, p);
    }
}

proof fn lemma_below_mono(best: Map<usize, u64>, v1: int, v2: int, n: int)
    requires
        v1 <= v2,
    ensures
        below(best, v1, n) <= below(best, v2, n),
    decreases n,
{
    if n > 0 {
        lemma_below_mono(best, v1, v2, n - 1);
    }
}

proof fn lemma_below_insert(best: Map<usize, u64>, v: int, n: int, k: usize, x: u64)
    requires
        x <= cap(best, k as int),
        n <= usize::MAX + 1,
    ensures
        below(best.insert(k, x), v, n) >= below(best, v, n),
    decreases n,
{
    if n > 0 {
        lemma_below_insert(best, v, n - 1, k, x);
    }
}

/// Every reached cost is at most five for each state reached more cheaply,
/// so no cost exceeds five per state on the grid.
spec fn bounded(best: Map<usize, u64>, n4: int) -> bool {
    forall|s: usize| #[trigger] best.contains_key(s) ==> best[s] <= 5 * below(best, best[s] as int, n4)
}

/// Every queue entry is for a reached state, at no less than its cost.
spec fn frontier_ok(
    q: Seq<(u64, u64, usize)>,
    best: Map<usize, u64>,
    columns: int,
    goal_column: int,
    goal_row: int,
    n4: int,
) -> bool {
    forall|i: int|
        0 <= i < q.len() ==> {
            &&& (#[trigger] q[i]).2 < n4
            &&& best.contains_key(q[i].2)
            &&& best[q[i].2] <= q[i].1
            &&& q[i].0 == q[i].1 + estimate_of(columns, q[i].2 as int, goal_column, goal_row)
        }
}

/// `after` has every state `before` has, at no greater cost.
spec fn grew(before: Map<usize, u64>, after: Map<usize, u64>) -> bool {
    forall|s: usize| #[trigger] before.contains_key(s) ==> after.contains_key(s) && after[s] <= before[s]
}

proof fn lemma_settled_grew(
    b1: Map<usize, u64>,
    b2: Map<usize, u64>,
    columns: int,
    rows: int,
    blocked: Seq<bool>,
    start: int,
    goal: int,
    s: usize,
)
    requires
        settled(b1, columns, rows, blocked, start, goal, s as int),
        grew(b1, b2),
        b1.contains_key(s),
        b2[s] == b1[s],
    ensures
        settled(b2, columns, rows, blocked, start, goal, s as int),
{
    assert forall|h: int|
        0 <= h < 4 && #[trigger] entered(columns, rows, blocked, start, goal, s as int, h) >= 0 implies {
        let n = entered(columns, rows, blocked, start, goal, s as int, h) as usize;
        &&& b2.contains_key(n)
        &&& b2[n] <= b2[s] + step_cost(s as int % 4, h)
    } by {
        let n = entered(columns, rows, blocked, start, goal, s as int, h) as usize;
        assert(b1.contains_key(n));
    }
}

/// Every reached state but `except` is still queued at its cost, or is not
/// at the goal and has every neighbour reached.
spec fn waiting(
    q: Seq<(u64, u64, usize)>,
    best: Map<usize, u64>,
    columns: int,
    rows: int,
    blocked: Seq<bool>,
    start: int,
    goal: int,
    except: int,
) -> bool {
    forall|s: usize|
        #[trigger] best.contains_key(s) && s as int != except ==> queued(q, s, best[s]) || (s as int / 4 != goal
            && settled(best, columns, rows, blocked, start, goal, s as int))
}

/// The states the search has taken: each reached as cheaply as any walk
/// reaches it, off the goal cell, with every step out of it taken (but
/// `except`'s, which is being taken), and taken no later than `last`.
#[verifier::opaque]
spec fn taken_ok(
    columns: int,
    rows: int,
    blocked: Seq<bool>,
    start: int,
    goal: int,
    best: Map<usize, u64>,
    done: Set<usize>,
    last: (int, int, int),
    except: int,
) -> bool {
    forall|s: usize|
        #[trigger] done.contains(s) ==> {
            &&& best.contains_key(s)
            &&& s as int / 4 != goal
            &&& (s as int != except ==> settled(best, columns, rows, blocked, start, goal, s as int))
            &&& forall|w: Seq<int>|
                is_walk(columns, rows, blocked, start, goal, w) && w.last() == s as int ==> best[s] <= #[trigger] walk_cost(w)
            &&& !key_lt(last, search_key(columns, goal, s as int, best[s] as int))
        }
}

/// What the order the search takes states in keeps: its taken states are
/// as [`taken_ok`] says; no queued entry comes before `last`, the key of
/// the last entry taken; every state was reached from a taken state, at
/// exactly that state's cost and the step's; and every reached state is
/// taken or queued at its cost.
spec fn ordered(
    columns: int,
    rows: int,
    blocked: Seq<bool>,
    start: int,
    goal: int,
    best: Map<usize, u64>,
    from: Map<usize, usize>,
    q: Seq<(u64, u64, usize)>,
    done: Set<usize>,
    last: (int, int, int),
    except: int,
) -> bool {
    &&& taken_ok(columns, rows, blocked, start, goal, best, done, last, except)
    &&& forall|i: int| 0 <= i < q.len() ==> !key_lt(#[trigger] entry_key(q[i]), last)
    &&& forall|s: usize|
        #[trigger] from.contains_key(s) ==> done.contains(from[s]) && best[from[s]] + step_cost(from[s] as int % 4, s as int % 4)
            == best[s]
    &&& forall|s: usize| #[trigger] best.contains_key(s) ==> done.contains(s) || queued(q, s, best[s])
}

proof fn lemma_taken_facts(
    columns: int,
    rows: int,
    blocked: Seq<bool>,
    start: int,
    goal: int,
    best: Map<usize, u64>,
    done: Set<usize>,
    last: (int, int, int),
    except: int,
    s: usize,
)
    requires
        taken_ok(columns, rows, blocked, start, goal, best, done, last, except),
        done.contains(s),
    ensures
        best.contains_key(s),
        s as int / 4 != goal,
        s as int != except ==> settled(best, columns, rows, blocked, start, goal, s as int),
        forall|w: Seq<int>|
            is_walk(columns, rows, blocked, start, goal, w) && w.last() == s as int ==> best[s] <= #[trigger] walk_cost(w),
        !key_lt(last, search_key(columns, goal, s as int, best[s] as int)),
{
    reveal(taken_ok);
}

proof fn lemma_step_leaves(columns: int, rows: int, cell: int, heading: int)
    requires
        columns > 0,
        0 <= cell,
        0 <= heading < 4,
        moved(columns, rows, cell, heading) >= 0,
    ensures
        moved(columns, rows, cell, heading) != cell,
{
    let column = cell % columns + offset(heading).0;
    let row = cell / columns + offset(heading).1;
    lemma_cell(columns, column, row);
}

proof fn lemma_entered_bound(columns: int, rows: int, blocked: Seq<bool>, start: int, goal: int, x: int, heading: int)
    requires
        columns > 0,
        0 <= heading < 4,
        entered(columns, rows, blocked, start, goal, x, heading) >= 0,
    ensures
        entered(columns, rows, blocked, start, goal, x, heading) < columns * rows * 4,
        entered(columns, rows, blocked, start, goal, x, heading) % 4 == heading,
        entered(columns, rows, blocked, start, goal, x, heading) / 4 == moved(columns, rows, x / 4, heading),
{
    let next = moved(columns, rows, x / 4, heading);
    lemma_moved_on_grid(columns, rows, x / 4, heading);
    lemma_state(next, heading);
    assert(next * 4 + heading < columns * rows * 4) by (nonlinear_arith)
        requires
            next < columns * rows,
            0 <= heading < 4,
    ;
}

proof fn lemma_step_consistent(columns: int, rows: int, blocked: Seq<bool>, start: int, goal: int, r: int, s: int)
    requires
        columns > 0,
        0 <= r,
        0 <= s,
        entered(columns, rows, blocked, start, goal, r, s % 4) == s,
    ensures
        estimate_of(columns, r, goal % columns, goal / columns) <= step_cost(r % 4, s % 4) + estimate_of(
            columns,
            s,
            goal % columns,
            goal / columns,
        ),
{
    let cell = r / 4;
    let arrived = r % 4;
    assert(r == cell * 4 + arrived);
    law_the_estimate_never_overstates(columns, rows, cell, arrived, s % 4, goal % columns, goal / columns);
}

/// The states of the goal cell are estimated at nothing.
proof fn lemma_goal_estimate(columns: int, rows: int, goal: int, s: int)
    requires
        columns > 0,
        0 <= goal,
        0 <= s,
        s / 4 == goal,
    ensures
        estimate_of(columns, s, goal % columns, goal / columns) == 0,
{
}

/// `x`'s step in `heading` reached its neighbour more cheaply than before:
/// the neighbour's cost and origin are recorded and an entry queued.
spec fn improved(
    columns: int,
    rows: int,
    blocked: Seq<bool>,
    start: int,
    goal: int,
    b1: Map<usize, u64>,
    f1: Map<usize, usize>,
    q1: Seq<(u64, u64, usize)>,
    b2: Map<usize, u64>,
    f2: Map<usize, usize>,
    q2: Seq<(u64, u64, usize)>,
    x: usize,
    heading: int,
) -> bool {
    let n = entered(columns, rows, blocked, start, goal, x as int, heading);
    let c = b1[x] + step_cost(x as int % 4, heading);
    &&& n >= 0
    &&& c < cap(b1, n)
    &&& b2 == b1.insert(n as usize, c as u64)
    &&& f2 == f1.insert(n as usize, x)
    &&& q2 == q1.push(((c + estimate_of(columns, n, goal % columns, goal / columns)) as u64, c as u64, n as usize))
}

/// [`improved`], with the queue held as a heap: it holds the same entries
/// as the queue with the new entry pushed, in whatever order.
spec fn improved_heap(
    columns: int,
    rows: int,
    blocked: Seq<bool>,
    start: int,
    goal: int,
    b1: Map<usize, u64>,
    f1: Map<usize, usize>,
    q1: Seq<(u64, u64, usize)>,
    b2: Map<usize, u64>,
    f2: Map<usize, usize>,
    q2: Seq<(u64, u64, usize)>,
    x: usize,
    heading: int,
) -> bool {
    let n = entered(columns, rows, blocked, start, goal, x as int, heading);
    let c = b1[x] + step_cost(x as int % 4, heading);
    let qp = q1.push(((c + estimate_of(columns, n, goal % columns, goal / columns)) as u64, c as u64, n as usize));
    &&& improved(columns, rows, blocked, start, goal, b1, f1, q1, b2, f2, qp, x, heading)
    &&& q2.to_multiset() =~= qp.to_multiset()
}

/// A taken state is never reached more cheaply again.
proof fn lemma_improved_not_done(
    columns: int,
    rows: int,
    blocked: Seq<bool>,
    start: int,
    goal: int,
    b1: Map<usize, u64>,
    f1: Map<usize, usize>,
    q1: Seq<(u64, u64, usize)>,
    b2: Map<usize, u64>,
    f2: Map<usize, usize>,
    q2: Seq<(u64, u64, usize)>,
    done: Set<usize>,
    last: (int, int, int),
    x: usize,
    heading: int,
)
    requires
        grid_ok(columns, rows, blocked.len() as int, start, goal),
        reached_ok(columns, rows, blocked, start, goal, b1, f1),
        forall|s: usize|
            #[trigger] done.contains(s) ==> b1.contains_key(s) && forall|w: Seq<int>|
                is_walk(columns, rows, blocked, start, goal, w) && w.last() == s as int ==> b1[s] <= #[trigger] walk_cost(w),
        b1.contains_key(x),
        0 <= heading < 4,
        improved(columns, rows, blocked, start, goal, b1, f1, q1, b2, f2, q2, x, heading),
    ensures
        !done.contains(entered(columns, rows, blocked, start, goal, x as int, heading) as usize),
        entered(columns, rows, blocked, start, goal, x as int, heading) % 4 == heading,
        entered(columns, rows, blocked, start, goal, x as int, heading) < columns * rows * 4,
{
    let n = entered(columns, rows, blocked, start, goal, x as int, heading);
    lemma_entered_bound(columns, rows, blocked, start, goal, x as int, heading);
    let nu = n as usize;
    assert(nu as int == n);
    if done.contains(nu) {
        lemma_reached_has_walk(columns, rows, blocked, start, goal, b1, f1, x);
        let wx = choose|w: Seq<int>|
            is_walk(columns, rows, blocked, start, goal, w) && w.last() == x as int && #[trigger] walk_cost(w) <= b1[x];
        let w = wx.push(n);
        assert forall|k: int| 1 <= k < w.len() implies 0 <= #[trigger] w[k] && w[k] == entered(
            columns,
            rows,
            blocked,
            start,
            goal,
            w[k - 1],
            w[k] % 4,
        ) by {
            if k < wx.len() {
                assert(w[k] == wx[k] && w[k - 1] == wx[k - 1]);
            }
        }
        lemma_walk_cost_step(w, wx.len() - 1);
        assert(w.take(wx.len() + 1 as int) =~= w);
        assert(w.take(wx.len() as int) =~= wx);
        assert(b1[nu] <= walk_cost(w));
    }
}

/// One step of taking `x`'s neighbours keeps the order of the search.
proof fn lemma_relax_keeps_order(
    columns: int,
    rows: int,
    blocked: Seq<bool>,
    start: int,
    goal: int,
    b1: Map<usize, u64>,
    f1: Map<usize, usize>,
    q1: Seq<(u64, u64, usize)>,
    b2: Map<usize, u64>,
    f2: Map<usize, usize>,
    q2: Seq<(u64, u64, usize)>,
    done: Set<usize>,
    last: (int, int, int),
    x: usize,
    heading: int,
)
    requires
        grid_ok(columns, rows, blocked.len() as int, start, goal),
        reached_ok(columns, rows, blocked, start, goal, b1, f1),
        ordered(columns, rows, blocked, start, goal, b1, f1, q1, done, last, x as int),
        done.contains(x),
        last == search_key(columns, goal, x as int, b1[x] as int),
        0 <= heading < 4,
        (b2 == b1 && f2 == f1 && q2 == q1) || improved_heap(columns, rows, blocked, start, goal, b1, f1, q1, b2, f2, q2, x, heading),
        frontier_ok(q2, b2, columns, goal % columns, goal / columns, columns * rows * 4),
    ensures
        ordered(columns, rows, blocked, start, goal, b2, f2, q2, done, last, x as int),
{
    if !(b2 == b1 && f2 == f1 && q2 == q1) {
        let n = entered(columns, rows, blocked, start, goal, x as int, heading);
        let c = b1[x] + step_cost(x as int % 4, heading);
        let qp = q1.push(((c + estimate_of(columns, n, goal % columns, goal / columns)) as u64, c as u64, n as usize));
        lemma_queue_moved(columns, rows, blocked, start, goal, b2, f2, q2, qp, done, last, -1, x as int);
        lemma_order_after_step(columns, rows, blocked, start, goal, b1, f1, q1, b2, f2, qp, done, last, x, heading);
        lemma_queue_moved(columns, rows, blocked, start, goal, b2, f2, qp, q2, done, last, -1, x as int);
    }
}

proof fn lemma_order_after_step(
    columns: int,
    rows: int,
    blocked: Seq<bool>,
    start: int,
    goal: int,
    b1: Map<usize, u64>,
    f1: Map<usize, usize>,
    q1: Seq<(u64, u64, usize)>,
    b2: Map<usize, u64>,
    f2: Map<usize, usize>,
    q2: Seq<(u64, u64, usize)>,
    done: Set<usize>,
    last: (int, int, int),
    x: usize,
    heading: int,
)
    requires
        grid_ok(columns, rows, blocked.len() as int, start, goal),
        reached_ok(columns, rows, blocked, start, goal, b1, f1),
        ordered(columns, rows, blocked, start, goal, b1, f1, q1, done, last, x as int),
        done.contains(x),
        last == search_key(columns, goal, x as int, b1[x] as int),
        0 <= heading < 4,
        improved(columns, rows, blocked, start, goal, b1, f1, q1, b2, f2, q2, x, heading),
        frontier_ok(q2, b2, columns, goal % columns, goal / columns, columns * rows * 4),
    ensures
        ordered(columns, rows, blocked, start, goal, b2, f2, q2, done, last, x as int),
{
    reveal(taken_ok);
    lemma_improved_not_done(columns, rows, blocked, start, goal, b1, f1, q1, b2, f2, q2, done, last, x, heading);
    lemma_improved_keeps_taken(columns, rows, blocked, start, goal, b1, f1, q1, b2, f2, q2, done, last, x, heading);
    lemma_improved_keeps_origins(columns, rows, blocked, start, goal, b1, f1, q1, b2, f2, q2, done, last, x, heading);
}

proof fn lemma_improved_keeps_taken(
    columns: int,
    rows: int,
    blocked: Seq<bool>,
    start: int,
    goal: int,
    b1: Map<usize, u64>,
    f1: Map<usize, usize>,
    q1: Seq<(u64, u64, usize)>,
    b2: Map<usize, u64>,
    f2: Map<usize, usize>,
    q2: Seq<(u64, u64, usize)>,
    done: Set<usize>,
    last: (int, int, int),
    x: usize,
    heading: int,
)
    requires
        grid_ok(columns, rows, blocked.len() as int, start, goal),
        ordered(columns, rows, blocked, start, goal, b1, f1, q1, done, last, x as int),
        done.contains(x),
        last == search_key(columns, goal, x as int, b1[x] as int),
        0 <= heading < 4,
        improved(columns, rows, blocked, start, goal, b1, f1, q1, b2, f2, q2, x, heading),
        !done.contains(entered(columns, rows, blocked, start, goal, x as int, heading) as usize),
        entered(columns, rows, blocked, start, goal, x as int, heading) < columns * rows * 4,
        frontier_ok(q2, b2, columns, goal % columns, goal / columns, columns * rows * 4),
        entered(columns, rows, blocked, start, goal, x as int, heading) % 4 == heading,
    ensures
        forall|s: usize|
            #[trigger] done.contains(s) ==> {
                &&& b2.contains_key(s)
                &&& s as int / 4 != goal
                &&& (s as int != x as int ==> settled(b2, columns, rows, blocked, start, goal, s as int))
                &&& forall|w: Seq<int>|
                    is_walk(columns, rows, blocked, start, goal, w) && w.last() == s as int ==> b2[s] <= #[trigger] walk_cost(w)
                &&& !key_lt(last, search_key(columns, goal, s as int, b2[s] as int))
            },
        forall|i: int| 0 <= i < q2.len() ==> !key_lt(#[trigger] entry_key(q2[i]), last),
        forall|s: usize| #[trigger] b2.contains_key(s) ==> done.contains(s) || queued(q2, s, b2[s]),
{
    reveal(taken_ok);
    let n = entered(columns, rows, blocked, start, goal, x as int, heading);
    let nu = n as usize;
    assert(nu as int == n);
    assert(grew(b1, b2));
    assert forall|s: usize| #[trigger] done.contains(s) implies {
        &&& b2.contains_key(s)
        &&& s as int / 4 != goal
        &&& (s as int != x as int ==> settled(b2, columns, rows, blocked, start, goal, s as int))
        &&& forall|w: Seq<int>|
            is_walk(columns, rows, blocked, start, goal, w) && w.last() == s as int ==> b2[s] <= #[trigger] walk_cost(w)
        &&& !key_lt(last, search_key(columns, goal, s as int, b2[s] as int))
    } by {
        assert(s != nu);
        if s as int != x as int {
            lemma_settled_grew(b1, b2, columns, rows, blocked, start, goal, s);
        }
    }
    lemma_step_consistent(columns, rows, blocked, start, goal, x as int, n);
    assert forall|i: int| 0 <= i < q2.len() implies !key_lt(#[trigger] entry_key(q2[i]), last) by {
        if i < q1.len() {
            assert(q2[i] == q1[i]);
        }
    }
    assert forall|s: usize| #[trigger] b2.contains_key(s) implies done.contains(s) || queued(q2, s, b2[s]) by {
        if s == nu {
            lemma_queued_push(q1, q2.last(), s, b2[s]);
        } else {
            assert(b1.contains_key(s));
            if !done.contains(s) {
                lemma_queued_push(q1, q2.last(), s, b2[s]);
            }
        }
    }
}

proof fn lemma_improved_keeps_origins(
    columns: int,
    rows: int,
    blocked: Seq<bool>,
    start: int,
    goal: int,
    b1: Map<usize, u64>,
    f1: Map<usize, usize>,
    q1: Seq<(u64, u64, usize)>,
    b2: Map<usize, u64>,
    f2: Map<usize, usize>,
    q2: Seq<(u64, u64, usize)>,
    done: Set<usize>,
    last: (int, int, int),
    x: usize,
    heading: int,
)
    requires
        grid_ok(columns, rows, blocked.len() as int, start, goal),
        ordered(columns, rows, blocked, start, goal, b1, f1, q1, done, last, x as int),
        done.contains(x),
        0 <= heading < 4,
        improved(columns, rows, blocked, start, goal, b1, f1, q1, b2, f2, q2, x, heading),
        !done.contains(entered(columns, rows, blocked, start, goal, x as int, heading) as usize),
        entered(columns, rows, blocked, start, goal, x as int, heading) < columns * rows * 4,
        frontier_ok(q2, b2, columns, goal % columns, goal / columns, columns * rows * 4),
        entered(columns, rows, blocked, start, goal, x as int, heading) % 4 == heading,
    ensures
        forall|s: usize|
            #[trigger] f2.contains_key(s) ==> done.contains(f2[s]) && b2[f2[s]] + step_cost(f2[s] as int % 4, s as int % 4)
                == b2[s],
{
    reveal(taken_ok);
    let n = entered(columns, rows, blocked, start, goal, x as int, heading);
    let nu = n as usize;
    assert(nu as int == n);
    assert forall|s: usize| #[trigger] f2.contains_key(s) implies done.contains(f2[s]) && b2[f2[s]] + step_cost(
        f2[s] as int % 4,
        s as int % 4,
    ) == b2[s] by {
        if s != nu {
            assert(f1.contains_key(s));
            assert(f2[s] != nu);
        }
    }
}

/// A state reached as cheaply as any walk reaches it is reached most
/// cheaply at that cost.
proof fn lemma_cheapest_at(
    columns: int,
    rows: int,
    blocked: Seq<bool>,
    start: int,
    goal: int,
    best: Map<usize, u64>,
    from: Map<usize, usize>,
    s: usize,
)
    requires
        grid_ok(columns, rows, blocked.len() as int, start, goal),
        reached_ok(columns, rows, blocked, start, goal, best, from),
        best.contains_key(s),
        forall|w: Seq<int>|
            is_walk(columns, rows, blocked, start, goal, w) && w.last() == s as int ==> best[s] <= #[trigger] walk_cost(w),
    ensures
        cheapest_at(columns, rows, blocked, start, goal, s as int, best[s] as int),
{
    lemma_reached_has_walk(columns, rows, blocked, start, goal, best, from, s);
    let w = choose|w: Seq<int>|
        is_walk(columns, rows, blocked, start, goal, w) && w.last() == s as int && #[trigger] walk_cost(w) <= best[s];
    assert(walk_cost(w) == best[s]);
}

/// Where a walk from a start comes, by its cost at its end, before every
/// queued entry, its end has been taken.
proof fn lemma_walk_taken(
    columns: int,
    rows: int,
    blocked: Seq<bool>,
    start: int,
    goal: int,
    best: Map<usize, u64>,
    from: Map<usize, usize>,
    q: Seq<(u64, u64, usize)>,
    done: Set<usize>,
    last: (int, int, int),
    bound: (int, int, int),
    w: Seq<int>,
)
    requires
        grid_ok(columns, rows, blocked.len() as int, start, goal),
        reached_ok(columns, rows, blocked, start, goal, best, from),
        frontier_ok(q, best, columns, goal % columns, goal / columns, columns * rows * 4),
        ordered(columns, rows, blocked, start, goal, best, from, q, done, last, -1),
        forall|i: int| 0 <= i < q.len() ==> !key_lt(#[trigger] entry_key(q[i]), bound),
        is_walk(columns, rows, blocked, start, goal, w),
        key_lt(search_key(columns, goal, w.last(), walk_cost(w)), bound),
    ensures
        done.contains(w.last() as usize),
        0 <= w.last() < columns * rows * 4,
{
    reveal(taken_ok);
    lemma_walk_bounds(columns, rows, blocked, start, goal, w);
    let h = w[0] % 4;
    assert(w[0] == start * 4 + h);
    assert(best.contains_key((start * 4 + h) as usize));
    assert(w.take(1).len() == 1);
    assert(walk_cost(w.take(1)) == 0);
    assert forall|s: usize| #[trigger] done.contains(s) implies best.contains_key(s) && settled(
        best,
        columns,
        rows,
        blocked,
        start,
        goal,
        s as int,
    ) by {
        assert(s as int != -1);
    }
    lemma_cheaper_is_done(columns, rows, blocked, start, goal, best, q, done, bound, w, 0);
}

proof fn lemma_take_keeps_taken(
    columns: int,
    rows: int,
    blocked: Seq<bool>,
    start: int,
    goal: int,
    best: Map<usize, u64>,
    done: Set<usize>,
    last: (int, int, int),
    key: (int, int, int),
    x: usize,
)
    requires
        taken_ok(columns, rows, blocked, start, goal, best, done, last, -1),
        !key_lt(key, last),
        best.contains_key(x),
        x as int / 4 != goal,
        forall|w: Seq<int>|
            is_walk(columns, rows, blocked, start, goal, w) && w.last() == x as int ==> best[x] <= #[trigger] walk_cost(w),
        key == search_key(columns, goal, x as int, best[x] as int),
    ensures
        taken_ok(columns, rows, blocked, start, goal, best, done.insert(x), key, x as int),
{
    reveal(taken_ok);
}

/// Taking the first live entry, for a state off the goal cell, keeps the
/// order of the search with that state taken.
#[verifier::rlimit(80)]
proof fn lemma_take_live(
    columns: int,
    rows: int,
    blocked: Seq<bool>,
    start: int,
    goal: int,
    best: Map<usize, u64>,
    from: Map<usize, usize>,
    q: Seq<(u64, u64, usize)>,
    done: Set<usize>,
    last: (int, int, int),
    m: int,
)
    requires
        grid_ok(columns, rows, blocked.len() as int, start, goal),
        reached_ok(columns, rows, blocked, start, goal, best, from),
        frontier_ok(q, best, columns, goal % columns, goal / columns, columns * rows * 4),
        ordered(columns, rows, blocked, start, goal, best, from, q, done, last, -1),
        0 <= m < q.len(),
        forall|i: int| 0 <= i < q.len() ==> !key_lt(#[trigger] entry_key(q[i]), entry_key(q[m])),
        q[m].1 == best[q[m].2],
        q[m].2 as int / 4 != goal,
    ensures
        entry_key(q[m]) == search_key(columns, goal, q[m].2 as int, best[q[m].2] as int),
        ordered(columns, rows, blocked, start, goal, best, from, q.remove(m), done.insert(q[m].2), entry_key(q[m]), q[m].2 as int),
{
    let x = q[m].2;
    let key = entry_key(q[m]);
    assert(best.contains_key(x));
    assert(!key_lt(key, last));
    assert forall|w: Seq<int>| is_walk(columns, rows, blocked, start, goal, w) && w.last() == x as int implies best[x]
        <= #[trigger] walk_cost(w) by {
        if walk_cost(w) < best[x] {
            lemma_walk_taken(columns, rows, blocked, start, goal, best, from, q, done, last, key, w);
            assert((w.last() as usize) == x);
            lemma_taken_facts(columns, rows, blocked, start, goal, best, done, last, -1, x);
        }
    }
    lemma_take_keeps_taken(columns, rows, blocked, start, goal, best, done, last, key, x);
    let d2 = done.insert(x);
    let q2 = q.remove(m);
    assert forall|i: int| 0 <= i < q2.len() implies !key_lt(#[trigger] entry_key(q2[i]), key) by {
        if i < m {
            assert(q2[i] == q[i]);
        } else {
            assert(q2[i] == q[i + 1]);
        }
    }
    assert forall|s: usize| #[trigger] best.contains_key(s) implies d2.contains(s) || queued(q2, s, best[s]) by {
        if s != x && !done.contains(s) {
            lemma_queued_remove(q, m, s, best[s]);
        }
    }
}

/// Dropping an entry that is no longer live keeps the order of the search.
proof fn lemma_drop_stale(
    columns: int,
    rows: int,
    blocked: Seq<bool>,
    start: int,
    goal: int,
    best: Map<usize, u64>,
    from: Map<usize, usize>,
    q: Seq<(u64, u64, usize)>,
    done: Set<usize>,
    last: (int, int, int),
    m: int,
)
    requires
        frontier_ok(q, best, columns, goal % columns, goal / columns, columns * rows * 4),
        ordered(columns, rows, blocked, start, goal, best, from, q, done, last, -1),
        0 <= m < q.len(),
        forall|i: int| 0 <= i < q.len() ==> !key_lt(#[trigger] entry_key(q[i]), entry_key(q[m])),
        q[m].1 > best[q[m].2],
    ensures
        ordered(columns, rows, blocked, start, goal, best, from, q.remove(m), done, entry_key(q[m]), -1),
{
    reveal(taken_ok);
    let key = entry_key(q[m]);
    assert(!key_lt(key, last));
    let q2 = q.remove(m);
    assert forall|i: int| 0 <= i < q2.len() implies !key_lt(#[trigger] entry_key(q2[i]), key) by {
        if i < m {
            assert(q2[i] == q[i]);
        } else {
            assert(q2[i] == q[i + 1]);
        }
    }
    assert forall|s: usize| #[trigger] best.contains_key(s) implies done.contains(s) || queued(q2, s, best[s]) by {
        if !done.contains(s) {
            lemma_queued_remove(q, m, s, best[s]);
        }
    }
}

/// Once every step out of the state being taken has been taken, the order
/// holds with no exception.
proof fn lemma_taken_settled(
    columns: int,
    rows: int,
    blocked: Seq<bool>,
    start: int,
    goal: int,
    best: Map<usize, u64>,
    from: Map<usize, usize>,
    q: Seq<(u64, u64, usize)>,
    done: Set<usize>,
    last: (int, int, int),
    x: int,
)
    requires
        ordered(columns, rows, blocked, start, goal, best, from, q, done, last, x),
        x >= 0 ==> settled(best, columns, rows, blocked, start, goal, x),
    ensures
        ordered(columns, rows, blocked, start, goal, best, from, q, done, last, -1),
{
    reveal(taken_ok);
}

/// When the search arrives, the state it arrives in is the chosen arrival.
proof fn lemma_arrival_chosen(
    columns: int,
    rows: int,
    blocked: Seq<bool>,
    start: int,
    goal: int,
    best: Map<usize, u64>,
    from: Map<usize, usize>,
    q: Seq<(u64, u64, usize)>,
    done: Set<usize>,
    last: (int, int, int),
    m: int,
)
    requires
        grid_ok(columns, rows, blocked.len() as int, start, goal),
        reached_ok(columns, rows, blocked, start, goal, best, from),
        frontier_ok(q, best, columns, goal % columns, goal / columns, columns * rows * 4),
        ordered(columns, rows, blocked, start, goal, best, from, q, done, last, -1),
        0 <= m < q.len(),
        forall|i: int| 0 <= i < q.len() ==> !key_lt(#[trigger] entry_key(q[i]), entry_key(q[m])),
        q[m].1 == best[q[m].2],
        q[m].2 as int / 4 == goal,
    ensures
        chosen_arrival(columns, rows, blocked, start, goal, q[m].2 as int, best[q[m].2] as int),
{
    let a = q[m].2;
    let key = entry_key(q[m]);
    assert(best.contains_key(a));
    lemma_goal_estimate(columns, rows, goal, a as int);
    assert forall|w: Seq<int>| is_walk(columns, rows, blocked, start, goal, w) && w.last() == a as int implies best[a]
        <= #[trigger] walk_cost(w) by {
        if walk_cost(w) < best[a] {
            lemma_walk_taken(columns, rows, blocked, start, goal, best, from, q, done, last, key, w);
            assert((w.last() as usize) == a);
            lemma_taken_facts(columns, rows, blocked, start, goal, best, done, last, -1, a);
        }
    }
    lemma_cheapest_at(columns, rows, blocked, start, goal, best, from, a);
    assert forall|b: int, cb: int|
        0 <= b && b / 4 == goal && #[trigger] cheapest_at(columns, rows, blocked, start, goal, b, cb) implies best[a] < cb
        || (best[a] == cb && a <= b) by {
        if !(best[a] < cb || (best[a] == cb && a <= b)) {
            let w = choose|w: Seq<int>|
                is_walk(columns, rows, blocked, start, goal, w) && w.last() == b && #[trigger] walk_cost(w) == cb;
            lemma_goal_estimate(columns, rows, goal, b);
            lemma_walk_taken(columns, rows, blocked, start, goal, best, from, q, done, last, key, w);
            assert((w.last() as usize) as int == b);
            lemma_taken_facts(columns, rows, blocked, start, goal, best, done, last, -1, w.last() as usize);
        }
    }
}

/// When the search arrives, each state it has taken, and the state it
/// arrives in, is reached most cheaply at its cost, and was reached from a
/// taken state that steps into it.
#[verifier::rlimit(80)]
proof fn lemma_parent_chosen(
    columns: int,
    rows: int,
    blocked: Seq<bool>,
    start: int,
    goal: int,
    best: Map<usize, u64>,
    from: Map<usize, usize>,
    q: Seq<(u64, u64, usize)>,
    done: Set<usize>,
    last: (int, int, int),
    m: int,
    s: usize,
)
    requires
        grid_ok(columns, rows, blocked.len() as int, start, goal),
        reached_ok(columns, rows, blocked, start, goal, best, from),
        frontier_ok(q, best, columns, goal % columns, goal / columns, columns * rows * 4),
        ordered(columns, rows, blocked, start, goal, best, from, q, done, last, -1),
        0 <= m < q.len(),
        forall|i: int| 0 <= i < q.len() ==> !key_lt(#[trigger] entry_key(q[i]), entry_key(q[m])),
        q[m].1 == best[q[m].2],
        q[m].2 as int / 4 == goal,
        s == q[m].2 || done.contains(s),
    ensures
        best.contains_key(s),
        cheapest_at(columns, rows, blocked, start, goal, s as int, best[s] as int),
        from.contains_key(s) ==> done.contains(from[s]) && steps_into(
            columns,
            rows,
            blocked,
            start,
            goal,
            s as int,
            best[s] as int,
            from[s] as int,
            best[from[s]] as int,
        ),
        forall|r: int, cr: int|
            #[trigger] steps_into(columns, rows, blocked, start, goal, s as int, best[s] as int, r, cr) ==> 0 <= r
                < columns * rows * 4 && done.contains(r as usize) && best.contains_key(r as usize) && best[r as usize] == cr,
{
    let key = entry_key(q[m]);
    let c = best[s] as int;
    lemma_arrival_chosen(columns, rows, blocked, start, goal, best, from, q, done, last, m);
    if s != q[m].2 {
        lemma_taken_facts(columns, rows, blocked, start, goal, best, done, last, -1, s);
        lemma_cheapest_at(columns, rows, blocked, start, goal, best, from, s);
    }
    if from.contains_key(s) {
        let p = from[s];
        lemma_taken_facts(columns, rows, blocked, start, goal, best, done, last, -1, p);
        lemma_cheapest_at(columns, rows, blocked, start, goal, best, from, p);
        assert(s as int == (s as int / 4) * 4 + s as int % 4);
        assert(entered(columns, rows, blocked, start, goal, p as int, s as int % 4) == s as int);
    }
    // Everything taken comes no later than the entry the search arrived on.
    assert(!key_lt(key, search_key(columns, goal, s as int, c))) by {
        if s != q[m].2 {
            assert(!key_lt(key, last));
        }
    }
    assert forall|r: int, cr: int|
        #[trigger] steps_into(columns, rows, blocked, start, goal, s as int, c, r, cr) implies 0 <= r < columns * rows * 4
            && done.contains(r as usize) && best.contains_key(r as usize) && best[r as usize] == cr by {
        lemma_candidate_taken(columns, rows, blocked, start, goal, best, from, q, done, last, key, s, r, cr);
    }
}

/// A state one step from which reaches `s` as cheaply as `s` is reached
/// has been taken, at the cost it is reached most cheaply at.
#[verifier::rlimit(80)]
proof fn lemma_candidate_taken(
    columns: int,
    rows: int,
    blocked: Seq<bool>,
    start: int,
    goal: int,
    best: Map<usize, u64>,
    from: Map<usize, usize>,
    q: Seq<(u64, u64, usize)>,
    done: Set<usize>,
    last: (int, int, int),
    key: (int, int, int),
    s: usize,
    r: int,
    cr: int,
)
    requires
        grid_ok(columns, rows, blocked.len() as int, start, goal),
        reached_ok(columns, rows, blocked, start, goal, best, from),
        frontier_ok(q, best, columns, goal % columns, goal / columns, columns * rows * 4),
        ordered(columns, rows, blocked, start, goal, best, from, q, done, last, -1),
        forall|i: int| 0 <= i < q.len() ==> !key_lt(#[trigger] entry_key(q[i]), key),
        best.contains_key(s),
        !key_lt(key, search_key(columns, goal, s as int, best[s] as int)),
        steps_into(columns, rows, blocked, start, goal, s as int, best[s] as int, r, cr),
    ensures
        0 <= r < columns * rows * 4,
        done.contains(r as usize),
        best.contains_key(r as usize),
        best[r as usize] == cr,
{
    lemma_step_consistent(columns, rows, blocked, start, goal, r, s as int);
    let w = choose|w: Seq<int>|
        is_walk(columns, rows, blocked, start, goal, w) && w.last() == r && #[trigger] walk_cost(w) == cr;
    lemma_walk_taken(columns, rows, blocked, start, goal, best, from, q, done, last, key, w);
    let ru = r as usize;
    assert(ru as int == r);
    assert(done.contains(ru));
    lemma_taken_facts(columns, rows, blocked, start, goal, best, done, last, -1, ru);
    lemma_reached_has_walk(columns, rows, blocked, start, goal, best, from, ru);
    let v = choose|v: Seq<int>|
        is_walk(columns, rows, blocked, start, goal, v) && v.last() == ru as int && #[trigger] walk_cost(v) <= best[ru];
    assert(cr <= walk_cost(v));
    assert(best[ru] <= walk_cost(w));
}

/// Reaches the neighbour of `state` in `heading`, where the step is allowed
/// and cheaper than the neighbour was reached before: records its cost and
/// where it was reached from, and queues it.
#[verifier::rlimit(80)]
fn relax(
    columns: usize,
    rows: usize,
    blocked: &Vec<bool>,
    start: usize,
    goal: usize,
    goal_column: usize,
    goal_row: usize,
    state: usize,
    cost: u64,
    heading: usize,
    best: &mut HashMap<usize, u64>,
    came_from: &mut HashMap<usize, usize>,
    queue: &mut Vec<(u64, u64, usize)>,
)
    requires
        grid_ok(columns as int, rows as int, blocked.len() as int, start as int, goal as int),
        goal_column < columns,
        goal_row < rows,
        heading < 4,
        state < columns * rows * 4,
        state as int / 4 != goal,
        old(best)@.contains_key(state),
        old(best)@[state] == cost,
        reached_ok(columns as int, rows as int, blocked@, start as int, goal as int, old(best)@, old(came_from)@),
        heap_ok(old(queue)@),
        goal_column == goal % columns,
        goal_row == goal / columns,
        bounded(old(best)@, columns * rows * 4),
        frontier_ok(old(queue)@, old(best)@, columns as int, goal_column as int, goal_row as int, columns * rows * 4),
        waiting(old(queue)@, old(best)@, columns as int, rows as int, blocked@, start as int, goal as int, state as int),
    ensures
        heap_ok(final(queue)@),
        final(best)@.contains_key(state),
        final(best)@[state] == cost,
        reached_ok(columns as int, rows as int, blocked@, start as int, goal as int, final(best)@, final(came_from)@),
        bounded(final(best)@, columns * rows * 4),
        frontier_ok(final(queue)@, final(best)@, columns as int, goal_column as int, goal_row as int, columns * rows * 4),
        waiting(final(queue)@, final(best)@, columns as int, rows as int, blocked@, start as int, goal as int, state as int),
        grew(old(best)@, final(best)@),
        entered(columns as int, rows as int, blocked@, start as int, goal as int, state as int, heading as int) >= 0
            ==> {
            let n = entered(columns as int, rows as int, blocked@, start as int, goal as int, state as int, heading as int) as usize;
            &&& final(best)@.contains_key(n)
            &&& final(best)@[n] <= cost + step_cost(state as int % 4, heading as int)
        },
        5 * potential(final(best)@, columns * rows * 4) + final(queue)@.len() <= 5 * potential(
            old(best)@,
            columns * rows * 4,
        ) + old(queue)@.len(),
        ({
            let n = entered(columns as int, rows as int, blocked@, start as int, goal as int, state as int, heading as int);
            let c = cost + step_cost(state as int % 4, heading as int);
            ||| (final(best)@ == old(best)@ && final(came_from)@ == old(came_from)@ && final(queue)@ == old(queue)@)
            ||| (n >= 0 && c < cap(old(best)@, n) && final(best)@ == old(best)@.insert(n as usize, c as u64)
                && final(came_from)@ == old(came_from)@.insert(n as usize, state) && final(queue)@.to_multiset() =~= old(
                queue,
            )@.push(((c + estimate_of(columns as int, n, goal_column as int, goal_row as int)) as u64, c as u64, n as usize)).to_multiset())
        }),
{
    let ghost n4 = (columns * rows * 4) as int;
    let cell = state / 4;
    let arrived = state % 4;
    proof {
        assert(cell < columns * rows) by (nonlinear_arith)
            requires
                cell == state / 4,
                state < columns * rows * 4,
        ;
        lemma_state(cell as int, arrived as int);
    }
    let next = match step(columns, rows, cell, heading) {
        None => {
            return;
        },
        Some(n) => n,
    };
    if blocked[next] && next != goal && next != start {
        return;
    }
    let turn: u64 = if heading == arrived {
        0
    } else {
        4
    };
    let next_state = next * 4 + heading;
    proof {
        lemma_state(next as int, heading as int);
        lemma_step_leaves(columns as int, rows as int, cell as int, heading as int);
        lemma_below_excludes(best@, cost as int, n4, state as int);
        assert(next_state < columns * rows * 4) by (nonlinear_arith)
            requires
                next_state == next * 4 + heading,
                next < columns * rows,
                heading < 4,
        ;
    }
    let next_cost: u64 = cost + 1 + turn;
    let current: u64 = match best.get(&next_state) {
        Some(b) => *b,
        None => 0xffff_ffff_ffff_ffff,
    };
    if next_cost < current {
        let ghost b1 = best@;
        let ghost c1 = came_from@;
        let ghost q1 = queue@;
        best.insert(next_state, next_cost);
        came_from.insert(next_state, state);
        let e = estimate(columns, rows, next_state, goal_column, goal_row);
        proof {
            lemma_grid_sides(columns as int, rows as int);
        }
        let entry = (next_cost + e, next_cost, next_state);
        let ghost qp = q1.push(entry);
        heap_push(queue, entry);
        proof {
            assert(next_state != state);
            lemma_potential_insert(b1, n4, next_state, next_cost);
            assert forall|s: usize| #[trigger] best@.contains_key(s) implies s < columns * rows * 4 by {
                if s != next_state {
                    assert(b1.contains_key(s));
                }
            }
            assert forall|h: int| 0 <= h < 4 implies #[trigger] best@.contains_key((start * 4 + h) as usize)
                && best@[(start * 4 + h) as usize] == 0 by {
                assert(b1.contains_key((start * 4 + h) as usize));
                if (start * 4 + h) as usize == next_state {
                    assert(current == 0);
                }
            }
            assert(moved(columns as int, rows as int, state as int / 4, next_state as int % 4) == next_state as int / 4);
            assert(open_cell(blocked@, start as int, goal as int, next_state as int / 4));
            assert forall|s: usize| #[trigger] came_from@.contains_key(s) implies {
                &&& best@.contains_key(s)
                &&& best@.contains_key(came_from@[s])
                &&& best@[came_from@[s]] + step_cost(came_from@[s] as int % 4, s as int % 4) <= best@[s]
                &&& moved(columns as int, rows as int, came_from@[s] as int / 4, s as int % 4) == s as int / 4
                &&& open_cell(blocked@, start as int, goal as int, s as int / 4)
            } by {
                if s != next_state {
                    assert(c1.contains_key(s));
                }
            }
            assert forall|s: usize| #[trigger] best@.contains_key(s) implies came_from@.contains_key(s) || s as int / 4
                == start by {
                if s != next_state {
                    assert(b1.contains_key(s));
                }
            }
            assert forall|s: usize| #[trigger] best@.contains_key(s) implies best@[s] <= 5 * below(
                best@,
                best@[s] as int,
                n4,
            ) by {
                if s == next_state {
                    lemma_below_gap(best@, cost as int, next_cost as int, n4, state as int);
                    lemma_below_insert(b1, cost as int, n4, next_state, next_cost);
                } else {
                    lemma_below_insert(b1, best@[s] as int, n4, next_state, next_cost);
                }
            }
            assert forall|i: int| 0 <= i < qp.len() implies {
                &&& (#[trigger] qp[i]).2 < n4
                &&& best@.contains_key(qp[i].2)
                &&& best@[qp[i].2] <= qp[i].1
                &&& qp[i].0 == qp[i].1 + estimate_of(columns as int, qp[i].2 as int, goal_column as int, goal_row as int)
            } by {
                if i < q1.len() {
                    assert(qp[i] == q1[i]);
                }
            }
            assert(grew(b1, best@));
            assert forall|s: usize| #[trigger] best@.contains_key(s) && s as int != state as int implies queued(
                qp,
                s,
                best@[s],
            ) || (s as int / 4 != goal && settled(
                best@,
                columns as int,
                rows as int,
                blocked@,
                start as int,
                goal as int,
                s as int,
            )) by {
                if s == next_state {
                    lemma_queued_push(q1, entry, s, best@[s]);
                } else if queued(q1, s, b1[s]) {
                    lemma_queued_push(q1, entry, s, best@[s]);
                } else {
                    lemma_settled_grew(b1, best@, columns as int, rows as int, blocked@, start as int, goal as int, s);
                }
            }
            lemma_queue_moved(
                columns as int,
                rows as int,
                blocked@,
                start as int,
                goal as int,
                best@,
                came_from@,
                qp,
                queue@,
                Set::empty(),
                (0, 0, 0),
                state as int,
                -1,
            );
        }
    } else {
        proof {
            assert(best@.contains_key(next_state));
        }
    }
}



proof fn lemma_frontier_remove(
    q: Seq<(u64, u64, usize)>,
    best: Map<usize, u64>,
    columns: int,
    goal_column: int,
    goal_row: int,
    n4: int,
    m: int,
)
    requires
        0 <= m < q.len(),
        frontier_ok(q, best, columns, goal_column, goal_row, n4),
    ensures
        frontier_ok(q.remove(m), best, columns, goal_column, goal_row, n4),
{
    assert forall|i: int| 0 <= i < q.remove(m).len() implies {
        &&& (#[trigger] q.remove(m)[i]).2 < n4
        &&& best.contains_key(q.remove(m)[i].2)
        &&& best[q.remove(m)[i].2] <= q.remove(m)[i].1
        &&& q.remove(m)[i].0 == q.remove(m)[i].1 + estimate_of(columns, q.remove(m)[i].2 as int, goal_column, goal_row)
    } by {
        if i < m {
            assert(q.remove(m)[i] == q[i]);
        } else {
            assert(q.remove(m)[i] == q[i + 1]);
        }
    }
}

proof fn lemma_waiting_remove(
    q: Seq<(u64, u64, usize)>,
    best: Map<usize, u64>,
    columns: int,
    rows: int,
    blocked: Seq<bool>,
    start: int,
    goal: int,
    m: int,
    except: int,
)
    requires
        0 <= m < q.len(),
        waiting(q, best, columns, rows, blocked, start, goal, -1),
        except == q[m].2 as int || !(best.contains_key(q[m].2) && q[m].1 == best[q[m].2]),
    ensures
        waiting(q.remove(m), best, columns, rows, blocked, start, goal, except),
{
    assert forall|s: usize| #[trigger] best.contains_key(s) && s as int != except implies queued(q.remove(m), s, best[s])
        || (s as int / 4 != goal && settled(best, columns, rows, blocked, start, goal, s as int)) by {
        assert(s as int != -1);
        if queued(q, s, best[s]) {
            lemma_queued_remove(q, m, s, best[s]);
        }
    }
}

/// One round of the search: takes the entry no other comes before off the
/// queue; a stale one is dropped, one at the goal cell is where the search
/// arrives, and any other reaches the states around it.
#[verifier::rlimit(60)]
fn advance(
    columns: usize,
    rows: usize,
    blocked: &Vec<bool>,
    start: usize,
    goal: usize,
    goal_column: usize,
    goal_row: usize,
    best: &mut HashMap<usize, u64>,
    came_from: &mut HashMap<usize, usize>,
    queue: &mut Vec<(u64, u64, usize)>,
    Ghost(done): Ghost<Set<usize>>,
    Ghost(last): Ghost<(int, int, int)>,
) -> (r: (Option<(usize, u64)>, Ghost<Set<usize>>, Ghost<(int, int, int)>))
    requires
        grid_ok(columns as int, rows as int, blocked.len() as int, start as int, goal as int),
        goal_column < columns,
        goal_row < rows,
        goal_column == goal % columns,
        goal_row == goal / columns,
        ordered(columns as int, rows as int, blocked@, start as int, goal as int, old(best)@, old(came_from)@, old(queue)@, done, last, -1),
        heap_ok(old(queue)@),
        old(queue).len() > 0,
        reached_ok(columns as int, rows as int, blocked@, start as int, goal as int, old(best)@, old(came_from)@),
        bounded(old(best)@, columns * rows * 4),
        frontier_ok(old(queue)@, old(best)@, columns as int, goal_column as int, goal_row as int, columns * rows * 4),
        waiting(old(queue)@, old(best)@, columns as int, rows as int, blocked@, start as int, goal as int, -1),
    ensures
        reached_ok(columns as int, rows as int, blocked@, start as int, goal as int, final(best)@, final(came_from)@),
        match r.0 {
            Some((s, f)) => {
                &&& final(best)@ == old(best)@
                &&& final(came_from)@ == old(came_from)@
                &&& r.1@ == done
                &&& chosen_arrival(columns as int, rows as int, blocked@, start as int, goal as int, s as int, final(best)@[s] as int)
                &&& reached_cheapest(columns as int, rows as int, blocked@, start as int, goal as int, final(best)@, final(came_from)@, done, s)
                &&& forall|t: usize| #[trigger] done.contains(t) ==> reached_cheapest(columns as int, rows as int, blocked@, start as int, goal as int, final(best)@, final(came_from)@, done, t)
                &&& forall|t: usize| #[trigger] done.contains(t) ==> final(best)@.contains_key(t)
                &&& final(best)@.contains_key(s)
                &&& s as int / 4 == goal
                &&& f == final(best)@[s] + estimate_of(columns as int, s as int, goal_column as int, goal_row as int)
                &&& forall|i: int| 0 <= i < old(queue)@.len() ==> f <= (#[trigger] old(queue)@[i]).0
            },
            None => {
                &&& heap_ok(final(queue)@)
                &&& ordered(columns as int, rows as int, blocked@, start as int, goal as int, final(best)@, final(came_from)@, final(queue)@, r.1@, r.2@, -1)
                &&& bounded(final(best)@, columns * rows * 4)
                &&& frontier_ok(final(queue)@, final(best)@, columns as int, goal_column as int, goal_row as int, columns * rows * 4)
                &&& waiting(final(queue)@, final(best)@, columns as int, rows as int, blocked@, start as int, goal as int, -1)
                &&& 5 * potential(final(best)@, columns * rows * 4) + final(queue)@.len() < 5 * potential(
                    old(best)@,
                    columns * rows * 4,
                ) + old(queue)@.len()
            },
        },
{
    let ghost n4 = (columns * rows * 4) as int;
    let ghost q0 = queue@;
    let ghost b0 = best@;
    let ghost c0 = came_from@;
    let ghost m: int = 0;
    let ghost key = entry_key(q0[m]);
    let (f, cost, state) = heap_pop(queue);
    let ghost qr = q0.remove(m);
    assert(q0[m] == (f, cost, state));
    let known: u64 = match best.get(&state) {
        Some(b) => *b,
        None => 0xffff_ffff_ffff_ffff,
    };
    proof {
        lemma_frontier_remove(q0, b0, columns as int, goal_column as int, goal_row as int, n4, m as int);
    }
    if cost > known {
        proof {
            lemma_waiting_remove(q0, b0, columns as int, rows as int, blocked@, start as int, goal as int, m as int, -1);
            lemma_drop_stale(columns as int, rows as int, blocked@, start as int, goal as int, b0, c0, q0, done, last, m as int);
            lemma_queue_moved(columns as int, rows as int, blocked@, start as int, goal as int, b0, c0, qr, queue@, done, key, -1, -1);
        }
        return (None, Ghost(done), Ghost(key));
    }
    assert(cost == b0[state]);
    if state / 4 == goal {
        proof {
            lemma_arrival_chosen(columns as int, rows as int, blocked@, start as int, goal as int, b0, c0, q0, done, last, m as int);
            lemma_parent_chosen(columns as int, rows as int, blocked@, start as int, goal as int, b0, c0, q0, done, last, m as int, state);
            assert forall|t: usize| #[trigger] done.contains(t) implies reached_cheapest(columns as int, rows as int, blocked@, start as int, goal as int, b0, c0, done, t) by {
                lemma_parent_chosen(columns as int, rows as int, blocked@, start as int, goal as int, b0, c0, q0, done, last, m as int, t);
            }
            assert forall|t: usize| #[trigger] done.contains(t) implies b0.contains_key(t) by {
                lemma_taken_facts(columns as int, rows as int, blocked@, start as int, goal as int, b0, done, last, -1, t);
            }
        }
        proof {
            assert forall|i: int| 0 <= i < q0.len() implies f <= (#[trigger] q0[i]).0 by {
                assert(!key_lt(entry_key(q0[i]), entry_key(q0[0])));
            }
        }
        return (Some((state, f)), Ghost(done), Ghost(last));
    }
    proof {
        lemma_waiting_remove(q0, b0, columns as int, rows as int, blocked@, start as int, goal as int, m as int, state as int);
        lemma_take_live(columns as int, rows as int, blocked@, start as int, goal as int, b0, c0, q0, done, last, m as int);
    }
    let ghost taken = done.insert(state);
    proof {
        lemma_queue_moved(columns as int, rows as int, blocked@, start as int, goal as int, b0, c0, qr, queue@, taken, key, state as int, state as int);
    }
    let ghost measure = 5 * potential(b0, n4) + q0.len();
    let mut heading: usize = 0;
    while heading < 4
        invariant
            grid_ok(columns as int, rows as int, blocked.len() as int, start as int, goal as int),
            n4 == columns * rows * 4,
            goal_column < columns,
            goal_row < rows,
            heading <= 4,
            state < n4,
            state as int / 4 != goal,
            best@.contains_key(state),
            best@[state] == cost,
            reached_ok(columns as int, rows as int, blocked@, start as int, goal as int, best@, came_from@),
            bounded(best@, n4),
            frontier_ok(queue@, best@, columns as int, goal_column as int, goal_row as int, n4),
            waiting(queue@, best@, columns as int, rows as int, blocked@, start as int, goal as int, state as int),
            forall|h: int|
                0 <= h < heading && #[trigger] entered(columns as int, rows as int, blocked@, start as int, goal as int, state as int, h)
                    >= 0 ==> {
                    let n = entered(columns as int, rows as int, blocked@, start as int, goal as int, state as int, h) as usize;
                    &&& best@.contains_key(n)
                    &&& best@[n] <= cost + step_cost(state as int % 4, h)
                },
            5 * potential(best@, n4) + queue.len() < measure,
            goal_column == goal % columns,
            goal_row == goal / columns,
            taken.contains(state),
            key == search_key(columns as int, goal as int, state as int, cost as int),
            ordered(columns as int, rows as int, blocked@, start as int, goal as int, best@, came_from@, queue@, taken, key, state as int),
            heap_ok(queue@),
        decreases 4 - heading,
    {
        let ghost b2 = best@;
        let ghost c2 = came_from@;
        let ghost q2 = queue@;
        relax(
            columns,
            rows,
            blocked,
            start,
            goal,
            goal_column,
            goal_row,
            state,
            cost,
            heading,
            best,
            came_from,
            queue,
        );
        proof {
            lemma_relax_keeps_order(
                columns as int,
                rows as int,
                blocked@,
                start as int,
                goal as int,
                b2,
                c2,
                q2,
                best@,
                came_from@,
                queue@,
                taken,
                key,
                state,
                heading as int,
            );
            assert forall|h: int|
                0 <= h < heading + 1 && #[trigger] entered(columns as int, rows as int, blocked@, start as int, goal as int, state as int, h)
                    >= 0 implies {
                let n = entered(columns as int, rows as int, blocked@, start as int, goal as int, state as int, h) as usize;
                &&& best@.contains_key(n)
                &&& best@[n] <= cost + step_cost(state as int % 4, h)
            } by {
                if h < heading {
                    let n = entered(columns as int, rows as int, blocked@, start as int, goal as int, state as int, h) as usize;
                    assert(b2.contains_key(n));
                }
            }
        }
        heading = heading + 1;
    }
    proof {
        assert(settled(best@, columns as int, rows as int, blocked@, start as int, goal as int, state as int));
        assert forall|s: usize| #[trigger] best@.contains_key(s) && s as int != -1 implies queued(queue@, s, best@[s])
            || (s as int / 4 != goal && settled(best@, columns as int, rows as int, blocked@, start as int, goal as int, s as int)) by {
            if s != state {
                assert(s as int != state as int);
            }
        }
        lemma_taken_settled(columns as int, rows as int, blocked@, start as int, goal as int, best@, came_from@, queue@, taken, key, state as int);
    }
    (None, Ghost(taken), Ghost(key))
}

/// The search: A* over states, cheapest estimated total first. Returns the
/// state it reached the goal cell in, if it did, with the cost each state
/// was reached at and the state it was reached from.
fn search(columns: usize, rows: usize, blocked: &Vec<bool>, start: usize, goal: usize) -> (r: (
    Option<usize>,
    HashMap<usize, u64>,
    HashMap<usize, usize>,
    Ghost<Set<usize>>,
))
    requires
        grid_ok(columns as int, rows as int, blocked.len() as int, start as int, goal as int),
    ensures
        reached_ok(columns as int, rows as int, blocked@, start as int, goal as int, r.1@, r.2@),
        match r.0 {
            Some(s) => {
                &&& chosen_arrival(columns as int, rows as int, blocked@, start as int, goal as int, s as int, r.1@[s] as int)
                &&& reached_cheapest(columns as int, rows as int, blocked@, start as int, goal as int, r.1@, r.2@, r.3@, s)
                &&& forall|t: usize| #[trigger] r.3@.contains(t) ==> reached_cheapest(columns as int, rows as int, blocked@, start as int, goal as int, r.1@, r.2@, r.3@, t)
                &&& forall|t: usize| #[trigger] r.3@.contains(t) ==> r.1@.contains_key(t)
                &&& r.1@.contains_key(s)
                &&& s as int / 4 == goal
                &&& forall|w: Seq<int>|
                    is_walk(columns as int, rows as int, blocked@, start as int, goal as int, w) && w.last() / 4 == goal
                        ==> r.1@[s] <= #[trigger] walk_cost(w)
            },
            None => forall|s: usize| #[trigger] r.1@.contains_key(s) ==> s as int / 4 != goal && settled(
                r.1@,
                columns as int,
                rows as int,
                blocked@,
                start as int,
                goal as int,
                s as int,
            ),
        },
{
    let ghost n4 = (columns * rows * 4) as int;
    let goal_column = goal % columns;
    let goal_row = goal / columns;
    proof {
        assert(goal_row < rows) by (nonlinear_arith)
            requires
                goal_row == goal / columns,
                goal < columns * rows,
                columns > 0,
        ;
        assert(start * 4 + 4 <= columns * rows * 4) by (nonlinear_arith)
            requires
                start < columns * rows,
        ;
    }
    let mut best: HashMap<usize, u64> = HashMap::new();
    let mut came_from: HashMap<usize, usize> = HashMap::new();
    let mut queue: Vec<(u64, u64, usize)> = Vec::new();
    let mut heading: usize = 0;
    while heading < 4
        invariant
            grid_ok(columns as int, rows as int, blocked.len() as int, start as int, goal as int),
            start * 4 + 4 <= columns * rows * 4,
            goal_column < columns,
            goal_row < rows,
            heading <= 4,
            came_from@ == Map::<usize, usize>::empty(),
            queue.len() == heading,
            forall|s: usize| #[trigger] best@.contains_key(s) <==> (start * 4 <= s < start * 4 + heading),
            forall|s: usize| #[trigger] best@.contains_key(s) ==> best@[s] == 0,
            forall|i: int|
                0 <= i < heading ==> (#[trigger] queue@[i]).2 == start * 4 + i && queue@[i].1 == 0 && queue@[i].0
                    == estimate_of(columns as int, start * 4 + i, goal_column as int, goal_row as int),
        decreases 4 - heading,
    {
        let state = start * 4 + heading;
        best.insert(state, 0);
        let e = estimate(columns, rows, state, goal_column, goal_row);
        queue.push((e, 0, state));
        heading = heading + 1;
    }
    proof {
        assert forall|h: int| 0 <= h < 4 implies #[trigger] best@.contains_key((start * 4 + h) as usize)
            && best@[(start * 4 + h) as usize] == 0 by {
            let s = (start * 4 + h) as usize;
            assert(start * 4 <= s < start * 4 + 4);
        }
        assert forall|s: usize| #[trigger] best@.contains_key(s) implies s as int / 4 == start && s < n4 by {}
        assert forall|s: usize| #[trigger] best@.contains_key(s) implies queued(queue@, s, best@[s]) by {
            let i = s - start * 4;
            assert(queue@[i].2 == s);
        }
        assert forall|s: usize| #[trigger] best@.contains_key(s) implies best@[s] <= 5 * below(
            best@,
            best@[s] as int,
            n4,
        ) by {
            lemma_below_bound(best@, best@[s] as int, n4);
        }
    }
    let ghost mut done: Set<usize> = Set::empty();
    let ghost mut last: (int, int, int) = (-1, -1, -1);
    assert(ordered(columns as int, rows as int, blocked@, start as int, goal as int, best@, came_from@, queue@, done, last, -1)) by {
        reveal(taken_ok);
        }
    assert(frontier_ok(queue@, best@, columns as int, goal_column as int, goal_row as int, n4));
    assert(waiting(queue@, best@, columns as int, rows as int, blocked@, start as int, goal as int, -1));
    let mut heap: Vec<(u64, u64, usize)> = Vec::new();
    let mut k: usize = 0;
    assert(queue@.take(0) =~= Seq::<(u64, u64, usize)>::empty());
    while k < queue.len()
        invariant
            k <= queue.len(),
            heap_ok(heap@),
            heap@.to_multiset() =~= queue@.take(k as int).to_multiset(),
        decreases queue.len() - k,
    {
        heap_push(&mut heap, queue[k]);
        assert(queue@.take(k + 1) =~= queue@.take(k as int).push(queue@[k as int]));
        proof {
            broadcast use vstd::seq_lib::group_to_multiset_ensures;
        }
        k = k + 1;
    }
    assert(queue@.take(queue.len() as int) =~= queue@);
    proof {
        lemma_queue_moved(columns as int, rows as int, blocked@, start as int, goal as int, best@, came_from@, queue@, heap@, done, last, -1, -1);
    }
    let mut queue = heap;
    while queue.len() > 0
        invariant
            heap_ok(queue@),
            grid_ok(columns as int, rows as int, blocked.len() as int, start as int, goal as int),
            n4 == columns * rows * 4,
            goal_column < columns,
            goal_row < rows,
            goal_column == goal % columns,
            goal_row == goal / columns,
            reached_ok(columns as int, rows as int, blocked@, start as int, goal as int, best@, came_from@),
            bounded(best@, n4),
            frontier_ok(queue@, best@, columns as int, goal_column as int, goal_row as int, n4),
            waiting(queue@, best@, columns as int, rows as int, blocked@, start as int, goal as int, -1),
            ordered(columns as int, rows as int, blocked@, start as int, goal as int, best@, came_from@, queue@, done, last, -1),
        decreases 5 * potential(best@, n4) + queue.len(),
    {
        proof {
            lemma_potential_nonneg(best@, n4);
        }
        let ghost qb = queue@;
        let ghost bb = best@;
        let (arrived, next_done, next_last) = advance(
            columns,
            rows,
            blocked,
            start,
            goal,
            goal_column,
            goal_row,
            &mut best,
            &mut came_from,
            &mut queue,
            Ghost(done),
            Ghost(last),
        );
        match arrived {
            Some((state, f)) => {
                proof {
                    lemma_arrival_is_cheapest(qb, bb, came_from@, columns as int, rows as int, blocked@, start as int, goal as int, state, f);
                }
                return (Some(state), best, came_from, next_done);
            },
            None => {
                proof {
                    lemma_potential_nonneg(best@, n4);
                    done = next_done@;
                    last = next_last@;
                }
            },
        }
    }
    proof {
        assert forall|s: usize| #[trigger] best@.contains_key(s) implies s as int / 4 != goal && settled(
            best@,
            columns as int,
            rows as int,
            blocked@,
            start as int,
            goal as int,
            s as int,
        ) by {
            assert(s as int != -1);
            if queued(queue@, s, best@[s]) {
                let i = choose|i: int| 0 <= i < queue@.len() && (#[trigger] queue@[i]).2 == s && queue@[i].1 == best@[s];
            }
        }
    }
    (None, best, came_from, Ghost(done))
}


proof fn lemma_walk_cost_split(w: Seq<int>, j: int)
    requires
        0 <= j < w.len(),
    ensures
        walk_cost(w) == walk_cost(w.take(j + 1)) + walk_cost(w.skip(j)),
    decreases j,
{
    if j == 0 {
        assert(w.skip(0) =~= w);
    } else {
        let rest = w.drop_first();
        lemma_walk_cost_split(rest, j - 1);
        assert(rest.skip(j - 1) =~= w.skip(j));
        let u = w.take(j + 1);
        assert(u.drop_first() =~= rest.take(j));
        assert(u[0] == w[0] && u[1] == w[1]);
    }
}

/// The cost of a walk's last step, added to what came before it.
proof fn lemma_walk_cost_step(w: Seq<int>, j: int)
    requires
        0 <= j,
        j + 1 < w.len(),
    ensures
        walk_cost(w.take(j + 2)) == walk_cost(w.take(j + 1)) + step_cost(w[j] % 4, w[j + 1] % 4),
{
    let u = w.take(j + 2);
    lemma_walk_cost_split(u, j);
    assert(u.take(j + 1) =~= w.take(j + 1));
    let tail = u.skip(j);
    assert(tail.len() == 2);
    assert(tail[0] == w[j] && tail[1] == w[j + 1]);
    assert(walk_cost(tail.drop_first()) == 0);
}

proof fn lemma_walk_bounds(columns: int, rows: int, blocked: Seq<bool>, start: int, goal: int, w: Seq<int>)
    requires
        grid_ok(columns, rows, blocked.len() as int, start, goal),
        is_walk(columns, rows, blocked, start, goal, w),
    ensures
        forall|k: int| 0 <= k < w.len() ==> 0 <= #[trigger] w[k] < columns * rows * 4,
{
    assert forall|k: int| 0 <= k < w.len() implies 0 <= #[trigger] w[k] < columns * rows * 4 by {
        if k == 0 {
            assert(w[0] < start * 4 + 4);
            assert(start * 4 + 4 <= columns * rows * 4) by (nonlinear_arith)
                requires
                    start < columns * rows,
            ;
        } else {
            let h = w[k] % 4;
            let next = moved(columns, rows, w[k - 1] / 4, h);
            lemma_moved_on_grid(columns, rows, w[k - 1] / 4, h);
            assert(next * 4 + h < columns * rows * 4) by (nonlinear_arith)
                requires
                    next < columns * rows,
                    0 <= h < 4,
            ;
        }
    }
}

/// Along a walk that ends at the goal, the estimate at each state is no
/// more than what the rest of the walk costs.
proof fn lemma_estimate_admissible(
    columns: int,
    rows: int,
    blocked: Seq<bool>,
    start: int,
    goal: int,
    w: Seq<int>,
    j: int,
)
    requires
        grid_ok(columns, rows, blocked.len() as int, start, goal),
        is_walk(columns, rows, blocked, start, goal, w),
        w.last() / 4 == goal,
        0 <= j < w.len(),
    ensures
        estimate_of(columns, w[j], goal % columns, goal / columns) <= walk_cost(w.skip(j)),
    decreases w.len() - j,
{
    if j < w.len() - 1 {
        lemma_estimate_admissible(columns, rows, blocked, start, goal, w, j + 1);
        let cell = w[j] / 4;
        let arrived = w[j] % 4;
        let h = w[j + 1] % 4;
        assert(w[j] >= 0);
        assert(w[j] == cell * 4 + arrived);
        assert(w[j + 1] == entered(columns, rows, blocked, start, goal, w[j], h));
        law_the_estimate_never_overstates(columns, rows, cell, arrived, h, goal % columns, goal / columns);
        assert(w.skip(j).drop_first() =~= w.skip(j + 1));
        assert(w.skip(j)[0] == w[j] && w.skip(j)[1] == w[j + 1]);
    }
}

/// Along a walk to the goal, some state is still queued at no more than what
/// the walk has cost up to it, when every reached state is queued or has
/// had its steps taken and the walk's first state was reached at no cost.
proof fn lemma_walk_frontier(
    q: Seq<(u64, u64, usize)>,
    best: Map<usize, u64>,
    columns: int,
    rows: int,
    blocked: Seq<bool>,
    start: int,
    goal: int,
    w: Seq<int>,
    j: int,
)
    requires
        grid_ok(columns, rows, blocked.len() as int, start, goal),
        is_walk(columns, rows, blocked, start, goal, w),
        w.last() / 4 == goal,
        0 <= j < w.len(),
        best.contains_key(w[j] as usize),
        best[w[j] as usize] <= walk_cost(w.take(j + 1)),
        waiting(q, best, columns, rows, blocked, start, goal, -1),
    ensures
        exists|i: int|
            j <= i < w.len() && best.contains_key(w[i] as usize) && best[w[i] as usize] <= walk_cost(w.take(i + 1))
                && #[trigger] queued(q, w[i] as usize, best[w[i] as usize]),
    decreases w.len() - j,
{
    lemma_walk_bounds(columns, rows, blocked, start, goal, w);
    let s = w[j] as usize;
    assert(s as int == w[j]);
    if queued(q, s, best[s]) {
        assert(queued(q, w[j] as usize, best[w[j] as usize]));
    } else {
        assert(s as int != -1);
        assert(s as int / 4 != goal && settled(best, columns, rows, blocked, start, goal, s as int));
        assert(j < w.len() - 1);
        let h = w[j + 1] % 4;
        assert(w[j + 1] == entered(columns, rows, blocked, start, goal, w[j], h));
        assert(entered(columns, rows, blocked, start, goal, s as int, h) >= 0);
        lemma_walk_cost_step(w, j);
        lemma_walk_frontier(q, best, columns, rows, blocked, start, goal, w, j + 1);
    }
}

proof fn lemma_heading_unique(columns: int, rows: int, a: int, h: int)
    requires
        columns > 0,
        0 <= a,
        0 <= h < 4,
        moved(columns, rows, a, h) >= 0,
    ensures
        heading_between(columns, rows, a, moved(columns, rows, a, h)) == h,
        0 <= heading_between(columns, rows, a, moved(columns, rows, a, h)) < 4,
{
    let b = moved(columns, rows, a, h);
    let column = a % columns + offset(h).0;
    let row = a / columns + offset(h).1;
    lemma_cell(columns, column, row);
    assert forall|g: int| 0 <= g < h implies moved(columns, rows, a, g) != b by {
        if moved(columns, rows, a, g) >= 0 {
            let c2 = a % columns + offset(g).0;
            let r2 = a / columns + offset(g).1;
            lemma_cell(columns, c2, r2);
        }
    }
}

/// The heading of a step between adjacent cells takes that step.
proof fn lemma_heading_between(columns: int, rows: int, a: int, b: int)
    requires
        columns > 0,
        adjacent(columns, rows, a, b),
    ensures
        0 <= heading_between(columns, rows, a, b) < 4,
        moved(columns, rows, a, heading_between(columns, rows, a, b)) == b,
{
}

/// The walk along a route's cells is a walk to the goal, and costs what the
/// route costs, and one turn more where it starts facing away from the
/// route's first step.
proof fn lemma_walk_of(
    columns: int,
    rows: int,
    blocked: Seq<bool>,
    start: int,
    goal: int,
    path: Seq<int>,
    heading: int,
)
    requires
        columns > 0,
        path.len() >= 1,
        0 <= path[0],
        0 <= heading < 4,
        steps_ok(columns, rows, blocked, start, goal, path),
    ensures
        walk_of(columns, rows, path, heading).len() == path.len(),
        forall|k: int| 0 <= k < path.len() ==> #[trigger] walk_of(columns, rows, path, heading)[k] / 4 == path[k],
        forall|k: int|
            1 <= k < path.len() ==> 0 <= #[trigger] walk_of(columns, rows, path, heading)[k]
                && walk_of(columns, rows, path, heading)[k] == entered(
                columns,
                rows,
                blocked,
                start,
                goal,
                walk_of(columns, rows, path, heading)[k - 1],
                walk_of(columns, rows, path, heading)[k] % 4,
            ),
        walk_of(columns, rows, path, heading)[0] == path[0] * 4 + heading,
        walk_cost(walk_of(columns, rows, path, heading)) == route_cost(columns, rows, path) + if path.len() >= 2
            && heading != heading_between(columns, rows, path[0], path[1]) {
            TURN_COST as int
        } else {
            0
        },
    decreases path.len(),
{
    let w = walk_of(columns, rows, path, heading);
    lemma_state(path[0], heading);
    assert forall|k: int| 1 <= k < path.len() implies 0 <= #[trigger] path[k] && 0 <= heading_between(columns, rows, path[k - 1], path[k]) < 4
        && moved(columns, rows, path[k - 1], heading_between(columns, rows, path[k - 1], path[k])) == path[k] by {
        assert(adjacent(columns, rows, path[k - 1], path[k]));
        lemma_heading_between(columns, rows, path[k - 1], path[k]);
    }
    assert forall|k: int| 0 <= k < path.len() implies #[trigger] w[k] / 4 == path[k] && w[k] % 4 == (if k == 0 {
        heading
    } else {
        heading_between(columns, rows, path[k - 1], path[k])
    }) by {
        if k == 0 {
            lemma_state(path[0], heading);
        } else {
            lemma_state(path[k], heading_between(columns, rows, path[k - 1], path[k]));
        }
    }
    assert forall|k: int|
        1 <= k < path.len() implies 0 <= #[trigger] w[k] && w[k] == entered(columns, rows, blocked, start, goal, w[k - 1], w[k] % 4) by {
        assert(w[k - 1] / 4 == path[k - 1]);
        assert(open_cell(blocked, start, goal, path[k]));
    }
    if path.len() >= 2 {
        let rest = path.drop_first();
        let d1 = heading_between(columns, rows, path[0], path[1]);
        assert(steps_ok(columns, rows, blocked, start, goal, rest)) by {
            assert forall|k: int| 1 <= k < rest.len() implies adjacent(columns, rows, rest[k - 1], #[trigger] rest[k])
                && open_cell(blocked, start, goal, rest[k]) by {
                assert(rest[k] == path[k + 1] && rest[k - 1] == path[k]);
            }
        }
        lemma_walk_of(columns, rows, blocked, start, goal, rest, d1);
        assert(w.drop_first() =~= walk_of(columns, rows, rest, d1));
        assert(w[1] % 4 == d1);
        assert(w[0] % 4 == heading);
        if path.len() >= 3 {
            assert(rest[0] == path[1] && rest[1] == path[2]);
        }
    }
}

/// Where the search takes a state at the goal cell off the queue before any
/// entry with a smaller estimated total, no walk to the goal costs less
/// than that state was reached at.
proof fn lemma_arrival_is_cheapest(
    qb: Seq<(u64, u64, usize)>,
    bb: Map<usize, u64>,
    from: Map<usize, usize>,
    columns: int,
    rows: int,
    blocked: Seq<bool>,
    start: int,
    goal: int,
    state: usize,
    f: u64,
)
    requires
        grid_ok(columns, rows, blocked.len() as int, start, goal),
        reached_ok(columns, rows, blocked, start, goal, bb, from),
        frontier_ok(qb, bb, columns, goal % columns, goal / columns, columns * rows * 4),
        waiting(qb, bb, columns, rows, blocked, start, goal, -1),
        bb.contains_key(state),
        state as int / 4 == goal,
        f == bb[state] + estimate_of(columns, state as int, goal % columns, goal / columns),
        forall|i: int| 0 <= i < qb.len() ==> f <= (#[trigger] qb[i]).0,
    ensures
        forall|w: Seq<int>|
            is_walk(columns, rows, blocked, start, goal, w) && w.last() / 4 == goal ==> bb[state] <= #[trigger] walk_cost(w),
{
    assert forall|w: Seq<int>| is_walk(columns, rows, blocked, start, goal, w) && w.last() / 4 == goal implies bb[state]
        <= #[trigger] walk_cost(w) by {
        lemma_walk_not_cheaper(qb, bb, from, columns, rows, blocked, start, goal, state, f, w);
    }
}

proof fn lemma_walk_not_cheaper(
    qb: Seq<(u64, u64, usize)>,
    bb: Map<usize, u64>,
    from: Map<usize, usize>,
    columns: int,
    rows: int,
    blocked: Seq<bool>,
    start: int,
    goal: int,
    state: usize,
    f: u64,
    w: Seq<int>,
)
    requires
        grid_ok(columns, rows, blocked.len() as int, start, goal),
        reached_ok(columns, rows, blocked, start, goal, bb, from),
        frontier_ok(qb, bb, columns, goal % columns, goal / columns, columns * rows * 4),
        waiting(qb, bb, columns, rows, blocked, start, goal, -1),
        bb.contains_key(state),
        state as int / 4 == goal,
        f == bb[state] + estimate_of(columns, state as int, goal % columns, goal / columns),
        forall|i: int| 0 <= i < qb.len() ==> f <= (#[trigger] qb[i]).0,
        is_walk(columns, rows, blocked, start, goal, w),
        w.last() / 4 == goal,
    ensures
        bb[state] <= walk_cost(w),
{
    assert(estimate_of(columns, state as int, goal % columns, goal / columns) == 0);
    let h = w[0] % 4;
    assert(w[0] == start * 4 + h);
    assert(0 <= h < 4);
    assert(bb.contains_key((start * 4 + h) as usize));
    assert(bb[(start * 4 + h) as usize] == 0);
    assert(w.take(1).len() == 1);
    assert(walk_cost(w.take(1)) == 0);
    lemma_walk_frontier(qb, bb, columns, rows, blocked, start, goal, w, 0);
    let i = choose|i: int|
        0 <= i < w.len() && bb.contains_key(w[i] as usize) && bb[w[i] as usize] <= walk_cost(w.take(i + 1))
            && #[trigger] queued(qb, w[i] as usize, bb[w[i] as usize]);
    let t = choose|t: int| 0 <= t < qb.len() && (#[trigger] qb[t]).2 == w[i] as usize && qb[t].1 == bb[w[i] as usize];
    lemma_walk_bounds(columns, rows, blocked, start, goal, w);
    assert((w[i] as usize) as int == w[i]);
    lemma_estimate_admissible(columns, rows, blocked, start, goal, w, i);
    lemma_walk_cost_split(w, i);
    assert(f <= qb[t].0);
}

/// Whether some walk from a start reaches state `s` at cost `c`, and none
/// reaches it more cheaply.
pub open spec fn cheapest_at(columns: int, rows: int, blocked: Seq<bool>, start: int, goal: int, s: int, c: int) -> bool {
    &&& exists|w: Seq<int>|
        is_walk(columns, rows, blocked, start, goal, w) && w.last() == s && #[trigger] walk_cost(w) == c
    &&& forall|w: Seq<int>|
        is_walk(columns, rows, blocked, start, goal, w) && w.last() == s ==> c <= #[trigger] walk_cost(w)
}

/// The order in which the search takes states: by estimated total, then
/// by cost so far, then by state number.
pub open spec fn search_key(columns: int, goal: int, s: int, c: int) -> (int, int, int) {
    (c + estimate_of(columns, s, goal % columns, goal / columns), c, s)
}

/// Whether key `a` comes strictly before key `b`.
pub open spec fn key_lt(a: (int, int, int), b: (int, int, int)) -> bool {
    a.0 < b.0 || (a.0 == b.0 && (a.1 < b.1 || (a.1 == b.1 && a.2 < b.2)))
}

/// One step from `p`, reached most cheaply at `cp`, reaches `s` as
/// cheaply as `s` is reached at all, `c`; and `p` is off the goal cell,
/// which a search never steps out of.
pub open spec fn steps_into(
    columns: int,
    rows: int,
    blocked: Seq<bool>,
    start: int,
    goal: int,
    s: int,
    c: int,
    p: int,
    cp: int,
) -> bool {
    &&& 0 <= p
    &&& p / 4 != goal
    &&& entered(columns, rows, blocked, start, goal, p, s % 4) == s
    &&& cheapest_at(columns, rows, blocked, start, goal, p, cp)
    &&& cheapest_at(columns, rows, blocked, start, goal, s, c)
    &&& c == cp + step_cost(p % 4, s % 4)
}

/// The state a route reaches `s` from, where `s` is reached most cheaply at
/// cost `c`: among the states that [`steps_into`] `s`, the one reached
/// most cheaply, then the lowest numbered. This is the state an exhaustive
/// search, taking states cheapest first and lowest numbered among equals,
/// reaches `s` from first.
pub open spec fn chosen_parent(
    columns: int,
    rows: int,
    blocked: Seq<bool>,
    start: int,
    goal: int,
    s: int,
    c: int,
    p: int,
    cp: int,
) -> bool {
    &&& steps_into(columns, rows, blocked, start, goal, s, c, p, cp)
    &&& forall|q: int, cq: int|
        #[trigger] steps_into(columns, rows, blocked, start, goal, s, c, q, cq) ==> !(cq < cp || (cq == cp && q < p))
}

/// What the search knows of a state when it arrives: it was reached as
/// cheaply as any walk reaches it, from a taken state that steps into it,
/// and every state that steps into it has been taken, at the cost it is
/// reached most cheaply at.
spec fn reached_cheapest(
    columns: int,
    rows: int,
    blocked: Seq<bool>,
    start: int,
    goal: int,
    best: Map<usize, u64>,
    from: Map<usize, usize>,
    done: Set<usize>,
    t: usize,
) -> bool {
    &&& best.contains_key(t)
    &&& cheapest_at(columns, rows, blocked, start, goal, t as int, best[t] as int)
    &&& from.contains_key(t) ==> done.contains(from[t]) && steps_into(
        columns,
        rows,
        blocked,
        start,
        goal,
        t as int,
        best[t] as int,
        from[t] as int,
        best[from[t]] as int,
    )
    &&& forall|r: int, cr: int|
        #[trigger] steps_into(columns, rows, blocked, start, goal, t as int, best[t] as int, r, cr) ==> 0 <= r < columns
            * rows * 4 && done.contains(r as usize) && best.contains_key(r as usize) && best[r as usize] == cr
}

/// The state a route arrives at the goal cell in: reached most cheaply at
/// `c`, and among the states of the goal cell the cheapest, then the lowest
/// numbered.
pub open spec fn chosen_arrival(columns: int, rows: int, blocked: Seq<bool>, start: int, goal: int, a: int, c: int) -> bool {
    &&& 0 <= a
    &&& a / 4 == goal
    &&& cheapest_at(columns, rows, blocked, start, goal, a, c)
    &&& forall|b: int, cb: int|
        0 <= b && b / 4 == goal && #[trigger] cheapest_at(columns, rows, blocked, start, goal, b, cb) ==> c < cb || (c
            == cb && a <= b)
}

/// The walk an exhaustive search settles on, with the cost of each of its
/// states, where the search takes states cheapest first and the lowest
/// numbered among equals, and keeps for each state the first state it was
/// reached from at its cost: the walk leaves a start state, never comes back
/// to the start cell, reaches each state from the chosen state before it,
/// and ends in the chosen arrival.
pub open spec fn searched_walk(columns: int, rows: int, blocked: Seq<bool>, start: int, goal: int, w: Seq<int>, costs: Seq<int>) -> bool {
    &&& w.len() >= 1
    &&& costs.len() == w.len()
    &&& 0 <= w[0]
    &&& w[0] / 4 == start
    &&& costs[0] == 0
    &&& forall|k: int| 1 <= k < w.len() ==> #[trigger] w[k] / 4 != start
    &&& forall|k: int|
        1 <= k < w.len() ==> #[trigger] chosen_parent(columns, rows, blocked, start, goal, w[k], costs[k], w[k - 1], costs[k - 1])
    &&& chosen_arrival(columns, rows, blocked, start, goal, w.last(), costs.last())
}

proof fn lemma_walk_cost_floor(w: Seq<int>)
    requires
        w.len() >= 1,
    ensures
        walk_cost(w) >= w.len() - 1,
    decreases w.len(),
{
    if w.len() > 1 {
        lemma_walk_cost_floor(w.drop_first());
    }
}

/// Along a walk, the estimate at each state is no more than what the rest
/// of the walk costs plus the estimate where it ends.
proof fn lemma_estimate_consistent(
    columns: int,
    rows: int,
    blocked: Seq<bool>,
    start: int,
    goal: int,
    w: Seq<int>,
    j: int,
)
    requires
        grid_ok(columns, rows, blocked.len() as int, start, goal),
        is_walk(columns, rows, blocked, start, goal, w),
        0 <= j < w.len(),
    ensures
        estimate_of(columns, w[j], goal % columns, goal / columns) <= walk_cost(w.skip(j)) + estimate_of(
            columns,
            w.last(),
            goal % columns,
            goal / columns,
        ),
    decreases w.len() - j,
{
    if j < w.len() - 1 {
        lemma_estimate_consistent(columns, rows, blocked, start, goal, w, j + 1);
        let cell = w[j] / 4;
        let arrived = w[j] % 4;
        let h = w[j + 1] % 4;
        lemma_walk_bounds(columns, rows, blocked, start, goal, w);
        assert(w[j] == cell * 4 + arrived);
        assert(w[j + 1] == entered(columns, rows, blocked, start, goal, w[j], h));
        law_the_estimate_never_overstates(columns, rows, cell, arrived, h, goal % columns, goal / columns);
        assert(w.skip(j).drop_first() =~= w.skip(j + 1));
        assert(w.skip(j)[0] == w[j] && w.skip(j)[1] == w[j + 1]);
    } else {
        assert(w.skip(j).len() == 1);
    }
}

/// Every state the search has reached lies at the end of a walk from a
/// start costing no more than it was reached at.
proof fn lemma_reached_has_walk(
    columns: int,
    rows: int,
    blocked: Seq<bool>,
    start: int,
    goal: int,
    best: Map<usize, u64>,
    from: Map<usize, usize>,
    s: usize,
)
    requires
        grid_ok(columns, rows, blocked.len() as int, start, goal),
        reached_ok(columns, rows, blocked, start, goal, best, from),
        best.contains_key(s),
    ensures
        exists|w: Seq<int>|
            is_walk(columns, rows, blocked, start, goal, w) && w.last() == s as int && #[trigger] walk_cost(w) <= best[s],
    decreases best[s],
{
    if s as int / 4 == start {
        let w = seq![s as int];
        assert(is_walk(columns, rows, blocked, start, goal, w));
        assert(walk_cost(w) == 0);
    } else {
        let p = from[s];
        assert(best[p] < best[s]);
        lemma_reached_has_walk(columns, rows, blocked, start, goal, best, from, p);
        let wp = choose|w: Seq<int>|
            is_walk(columns, rows, blocked, start, goal, w) && w.last() == p as int && #[trigger] walk_cost(w) <= best[p];
        let w = wp.push(s as int);
        let h = s as int % 4;
        assert(s as int == (s as int / 4) * 4 + h);
        assert(entered(columns, rows, blocked, start, goal, p as int, h) == s as int);
        assert forall|k: int| 1 <= k < w.len() implies 0 <= #[trigger] w[k] && w[k] == entered(
            columns,
            rows,
            blocked,
            start,
            goal,
            w[k - 1],
            w[k] % 4,
        ) by {
            if k < wp.len() {
                assert(w[k] == wp[k] && w[k - 1] == wp[k - 1]);
            }
        }
        assert(is_walk(columns, rows, blocked, start, goal, w));
        lemma_walk_cost_step(w, wp.len() - 1);
        assert(w.take(wp.len() + 1 as int) =~= w);
        assert(w.take(wp.len() as int) =~= wp);
    }
}

/// Queue entries as keys.
spec fn entry_key(e: (u64, u64, usize)) -> (int, int, int) {
    (e.0 as int, e.1 as int, e.2 as int)
}

/// Along a walk from a start whose end comes, by its cost there, before
/// every queued entry, every state has already been taken: the search
/// reached each state that comes before all it has queued.
proof fn lemma_cheaper_is_done(
    columns: int,
    rows: int,
    blocked: Seq<bool>,
    start: int,
    goal: int,
    best: Map<usize, u64>,
    q: Seq<(u64, u64, usize)>,
    done: Set<usize>,
    bound: (int, int, int),
    w: Seq<int>,
    j: int,
)
    requires
        grid_ok(columns, rows, blocked.len() as int, start, goal),
        frontier_ok(q, best, columns, goal % columns, goal / columns, columns * rows * 4),
        forall|s: usize| #[trigger] done.contains(s) ==> best.contains_key(s) && settled(best, columns, rows, blocked, start, goal, s as int),
        forall|s: usize| #[trigger] best.contains_key(s) ==> done.contains(s) || queued(q, s, best[s]),
        forall|i: int| 0 <= i < q.len() ==> !key_lt(#[trigger] entry_key(q[i]), bound),
        is_walk(columns, rows, blocked, start, goal, w),
        0 <= j < w.len(),
        best.contains_key(w[j] as usize),
        best[w[j] as usize] <= walk_cost(w.take(j + 1)),
        key_lt(search_key(columns, goal, w.last(), walk_cost(w)), bound),
    ensures
        done.contains(w.last() as usize),
    decreases w.len() - j,
{
    lemma_walk_bounds(columns, rows, blocked, start, goal, w);
    let s = w[j] as usize;
    assert(s as int == w[j]);
    if done.contains(s) {
        if j < w.len() - 1 {
            let h = w[j + 1] % 4;
            assert(w[j + 1] == entered(columns, rows, blocked, start, goal, w[j], h));
            assert(entered(columns, rows, blocked, start, goal, s as int, h) >= 0);
            lemma_walk_cost_step(w, j);
            lemma_cheaper_is_done(columns, rows, blocked, start, goal, best, q, done, bound, w, j + 1);
        }
    } else {
        assert(queued(q, s, best[s]));
        let t = choose|t: int| 0 <= t < q.len() && (#[trigger] q[t]).2 == s && q[t].1 == best[s];
        assert(!key_lt(entry_key(q[t]), bound));
        lemma_estimate_consistent(columns, rows, blocked, start, goal, w, j);
        lemma_walk_cost_split(w, j);
        lemma_walk_cost_floor(w.skip(j));
        assert(q[t].0 == q[t].1 + estimate_of(columns, q[t].2 as int, goal % columns, goal / columns));
        if j < w.len() - 1 {
            assert(key_lt(entry_key(q[t]), search_key(columns, goal, w.last(), walk_cost(w))));
        } else {
            assert(w.take(j + 1) =~= w);
        }
        assert(false);
    }
}

/// The route along a walk's cells costs no more than the walk, and when
/// the walk costs no more than any walk to the goal, the route costs no
/// more than any route.
proof fn lemma_route_cheapest(
    columns: int,
    rows: int,
    blocked: Seq<bool>,
    start: int,
    goal: int,
    best: Map<usize, u64>,
    arrived: usize,
    fwd: Seq<int>,
    p: Seq<int>,
)
    requires
        grid_ok(columns, rows, blocked.len() as int, start, goal),
        is_walk(columns, rows, blocked, start, goal, fwd),
        is_route(columns, rows, blocked, start, goal, p),
        p.len() == fwd.len(),
        forall|k: int| 0 <= k < p.len() ==> #[trigger] p[k] == fwd[k] / 4,
        walk_cost(fwd) <= best[arrived],
        forall|w: Seq<int>|
            is_walk(columns, rows, blocked, start, goal, w) && w.last() / 4 == goal ==> best[arrived] <= #[trigger] walk_cost(w),
    ensures
        forall|other: Seq<int>|
            is_route(columns, rows, blocked, start, goal, other) ==> route_cost(columns, rows, p) <= #[trigger] route_cost(
                columns,
                rows,
                other,
            ),
{
    let h0 = fwd[0] % 4;
    lemma_walk_of(columns, rows, blocked, start, goal, p, h0);
    let along = walk_of(columns, rows, p, h0);
    assert forall|k: int| 0 <= k < fwd.len() implies #[trigger] along[k] == fwd[k] by {
        assert(fwd[k] >= 0);
        assert(fwd[k] == (fwd[k] / 4) * 4 + fwd[k] % 4);
        if k > 0 {
            let h = fwd[k] % 4;
            assert(fwd[k] == entered(columns, rows, blocked, start, goal, fwd[k - 1], h));
            assert(moved(columns, rows, fwd[k - 1] / 4, h) == p[k]);
            lemma_heading_unique(columns, rows, p[k - 1], h);
        }
    }
    assert(along =~= fwd);
    assert forall|other: Seq<int>| is_route(columns, rows, blocked, start, goal, other) implies route_cost(columns, rows, p)
        <= #[trigger] route_cost(columns, rows, other) by {
        let d = if other.len() >= 2 {
            heading_between(columns, rows, other[0], other[1])
        } else {
            0
        };
        if other.len() >= 2 {
            assert(adjacent(columns, rows, other[0], other[1]));
            lemma_heading_between(columns, rows, other[0], other[1]);
        }
        lemma_walk_of(columns, rows, blocked, start, goal, other, d);
        let w = walk_of(columns, rows, other, d);
        lemma_state(start, d);
        assert(w[0] / 4 == start);
        assert(w.last() / 4 == other.last());
        assert(is_walk(columns, rows, blocked, start, goal, w));
    }
}

proof fn lemma_moved_on_grid(columns: int, rows: int, cell: int, heading: int)
    requires
        columns > 0,
        moved(columns, rows, cell, heading) >= 0,
    ensures
        moved(columns, rows, cell, heading) < columns * rows,
{
    let column = cell % columns + offset(heading).0;
    let row = cell / columns + offset(heading).1;
    lemma_cell_bound(columns, rows, column, row);
}

/// Along any route, each cell was reached in some heading by a search that
/// ran out of states to try.
proof fn lemma_route_reached(
    columns: int,
    rows: int,
    blocked: Seq<bool>,
    start: int,
    goal: int,
    best: Map<usize, u64>,
    path: Seq<int>,
    k: int,
)
    requires
        grid_ok(columns, rows, blocked.len() as int, start, goal),
        is_route(columns, rows, blocked, start, goal, path),
        0 <= k < path.len(),
        forall|h: int| 0 <= h < 4 ==> #[trigger] best.contains_key((start * 4 + h) as usize),
        forall|s: usize|
            #[trigger] best.contains_key(s) ==> s as int / 4 != goal && settled(best, columns, rows, blocked, start, goal, s as int),
    ensures
        0 <= path[k] < columns * rows,
        exists|h: int| 0 <= h < 4 && #[trigger] best.contains_key((path[k] * 4 + h) as usize),
    decreases k,
{
    if k == 0 {
        assert(best.contains_key((start * 4 + 0) as usize));
    } else {
        lemma_route_reached(columns, rows, blocked, start, goal, best, path, k - 1);
        let a = path[k - 1];
        let b = path[k];
        let h = choose|h: int| 0 <= h < 4 && #[trigger] best.contains_key((a * 4 + h) as usize);
        assert(a * 4 + h < columns * rows * 4) by (nonlinear_arith)
            requires
                a < columns * rows,
                h < 4,
        ;
        let s = (a * 4 + h) as usize;
        lemma_state(a, h);
        assert(s as int / 4 == a);
        assert(adjacent(columns, rows, a, b) && open_cell(blocked, start, goal, b));
        let h2 = if moved(columns, rows, a, 0) == b {
            0int
        } else if moved(columns, rows, a, 1) == b {
            1int
        } else if moved(columns, rows, a, 2) == b {
            2int
        } else {
            3int
        };
        assert(moved(columns, rows, a, h2) == b);
        lemma_moved_on_grid(columns, rows, a, h2);
        assert(entered(columns, rows, blocked, start, goal, s as int, h2) == b * 4 + h2);
        assert(settled(best, columns, rows, blocked, start, goal, s as int));
        assert(best.dom().contains((b * 4 + h2) as usize));
    }
}

proof fn lemma_parent_unique(
    columns: int,
    rows: int,
    blocked: Seq<bool>,
    start: int,
    goal: int,
    s: int,
    c: int,
    p1: int,
    cp1: int,
    p2: int,
    cp2: int,
)
    requires
        chosen_parent(columns, rows, blocked, start, goal, s, c, p1, cp1),
        chosen_parent(columns, rows, blocked, start, goal, s, c, p2, cp2),
    ensures
        p1 == p2,
        cp1 == cp2,
{
    assert(cheapest_at(columns, rows, blocked, start, goal, p2, cp2));
    assert(cheapest_at(columns, rows, blocked, start, goal, p1, cp1));
    assert(!key_lt(search_key(columns, goal, p2, cp2), search_key(columns, goal, p1, cp1)));
    assert(!key_lt(search_key(columns, goal, p1, cp1), search_key(columns, goal, p2, cp2)));
}

proof fn lemma_walks_agree_back(
    columns: int,
    rows: int,
    blocked: Seq<bool>,
    start: int,
    goal: int,
    w1: Seq<int>,
    c1: Seq<int>,
    w2: Seq<int>,
    c2: Seq<int>,
    k: int,
)
    requires
        searched_walk(columns, rows, blocked, start, goal, w1, c1),
        searched_walk(columns, rows, blocked, start, goal, w2, c2),
        0 <= k < w1.len(),
        k < w2.len(),
    ensures
        w1[w1.len() - 1 - k] == w2[w2.len() - 1 - k],
        c1[w1.len() - 1 - k] == c2[w2.len() - 1 - k],
    decreases k,
{
    let i1 = w1.len() - 1 - k;
    let i2 = w2.len() - 1 - k;
    if k == 0 {
        let a1 = w1.last();
        let a2 = w2.last();
        assert(chosen_arrival(columns, rows, blocked, start, goal, a1, c1.last()));
        assert(chosen_arrival(columns, rows, blocked, start, goal, a2, c2.last()));
        assert(cheapest_at(columns, rows, blocked, start, goal, a1, c1.last()));
        assert(cheapest_at(columns, rows, blocked, start, goal, a2, c2.last()));
    } else {
        lemma_walks_agree_back(columns, rows, blocked, start, goal, w1, c1, w2, c2, k - 1);
        let j1 = i1 + 1;
        let j2 = i2 + 1;
        assert(chosen_parent(columns, rows, blocked, start, goal, w1[j1], c1[j1], w1[j1 - 1], c1[j1 - 1]));
        assert(chosen_parent(columns, rows, blocked, start, goal, w2[j2], c2[j2], w2[j2 - 1], c2[j2 - 1]));
        lemma_parent_unique(columns, rows, blocked, start, goal, w1[i1 + 1], c1[i1 + 1], w1[i1], c1[i1], w2[i2], c2[i2]);
    }
}

/// The search settles on one route: any two walks, with their costs, that
/// are each the walk [`searched_walk`] describes are the same.
pub proof fn law_the_searched_route_is_unique(
    columns: int,
    rows: int,
    blocked: Seq<bool>,
    start: int,
    goal: int,
    w1: Seq<int>,
    c1: Seq<int>,
    w2: Seq<int>,
    c2: Seq<int>,
)
    requires
        searched_walk(columns, rows, blocked, start, goal, w1, c1),
        searched_walk(columns, rows, blocked, start, goal, w2, c2),
    ensures
        w1 == w2,
        c1 == c2,
{
    if w1.len() < w2.len() {
        lemma_walks_agree_back(columns, rows, blocked, start, goal, w1, c1, w2, c2, w1.len() - 1);
        assert(w2[w2.len() - w1.len()] / 4 != start);
    } else if w2.len() < w1.len() {
        lemma_walks_agree_back(columns, rows, blocked, start, goal, w1, c1, w2, c2, w2.len() - 1);
        assert(w1[w1.len() - w2.len()] / 4 != start);
    } else {
        assert forall|i: int| 0 <= i < w1.len() implies w1[i] == w2[i] && c1[i] == c2[i] by {
            lemma_walks_agree_back(columns, rows, blocked, start, goal, w1, c1, w2, c2, w1.len() - 1 - i);
        }
        assert(w1 =~= w2);
        assert(c1 =~= c2);
    }
}

/// A walk back from the arrival: its states after the first are off the
/// start cell, each reached from the chosen state before it.
#[verifier::opaque]
spec fn chain_ok(columns: int, rows: int, blocked: Seq<bool>, start: int, goal: int, w: Seq<int>, costs: Seq<int>) -> bool {
    &&& costs.len() == w.len()
    &&& forall|k: int| 1 <= k < w.len() ==> #[trigger] w[k] / 4 != start
    &&& forall|k: int|
        1 <= k < w.len() ==> #[trigger] chosen_parent(columns, rows, blocked, start, goal, w[k], costs[k], w[k - 1], costs[k - 1])
}

/// What the search knows, when it arrives, of the state it arrives in and
/// of every state it took.
#[verifier::opaque]
spec fn parents_chosen(
    columns: int,
    rows: int,
    blocked: Seq<bool>,
    start: int,
    goal: int,
    best: Map<usize, u64>,
    from: Map<usize, usize>,
    done: Set<usize>,
    arrived: usize,
) -> bool {
    &&& reached_cheapest(columns, rows, blocked, start, goal, best, from, done, arrived)
    &&& forall|t: usize| #[trigger] done.contains(t) ==> reached_cheapest(columns, rows, blocked, start, goal, best, from, done, t)
}

proof fn lemma_parent_of(
    columns: int,
    rows: int,
    blocked: Seq<bool>,
    start: int,
    goal: int,
    best: Map<usize, u64>,
    from: Map<usize, usize>,
    done: Set<usize>,
    arrived: usize,
    t: usize,
)
    requires
        parents_chosen(columns, rows, blocked, start, goal, best, from, done, arrived),
        t == arrived || done.contains(t),
    ensures
        reached_cheapest(columns, rows, blocked, start, goal, best, from, done, t),
{
    reveal(parents_chosen);
}

/// Among the four states of `s`'s neighbouring cell `p / 4` that step into
/// `s`, the one the code settled on, `q`, is reached most cheaply, then is
/// the lowest numbered: it is the chosen state `s` is reached from.
proof fn lemma_chosen_from_cell(
    columns: int,
    rows: int,
    blocked: Seq<bool>,
    start: int,
    goal: int,
    best: Map<usize, u64>,
    from: Map<usize, usize>,
    done: Set<usize>,
    arrived: usize,
    s: usize,
    q: usize,
)
    requires
        grid_ok(columns, rows, blocked.len() as int, start, goal),
        reached_ok(columns, rows, blocked, start, goal, best, from),
        parents_chosen(columns, rows, blocked, start, goal, best, from, done, arrived),
        s == arrived || done.contains(s),
        from.contains_key(s),
        best.contains_key(q),
        q as int / 4 == from[s] as int / 4,
        best[q] + step_cost(q as int % 4, s as int % 4) == best[s],
        forall|h: int|
            0 <= h < 4 && #[trigger] best.contains_key(((from[s] as int / 4) * 4 + h) as usize) && best[((from[s] as int / 4) * 4
                + h) as usize] + step_cost(h, s as int % 4) == best[s] ==> !(best[((from[s] as int / 4) * 4 + h) as usize] < best[q]
                || (best[((from[s] as int / 4) * 4 + h) as usize] == best[q] && (from[s] as int / 4) * 4 + h < q)),
    ensures
        chosen_parent(columns, rows, blocked, start, goal, s as int, best[s] as int, q as int, best[q] as int),
        done.contains(q),
{
    lemma_parent_of(columns, rows, blocked, start, goal, best, from, done, arrived, s);
    lemma_q_steps_into(columns, rows, blocked, start, goal, best, from, done, s, q);
    lemma_q_is_least(columns, rows, blocked, start, goal, best, from, done, s, q);
}

proof fn lemma_q_steps_into(
    columns: int,
    rows: int,
    blocked: Seq<bool>,
    start: int,
    goal: int,
    best: Map<usize, u64>,
    from: Map<usize, usize>,
    done: Set<usize>,
    s: usize,
    q: usize,
)
    requires
        grid_ok(columns, rows, blocked.len() as int, start, goal),
        reached_ok(columns, rows, blocked, start, goal, best, from),
        reached_cheapest(columns, rows, blocked, start, goal, best, from, done, s),
        from.contains_key(s),
        best.contains_key(q),
        q as int / 4 == from[s] as int / 4,
        best[q] + step_cost(q as int % 4, s as int % 4) == best[s],
    ensures
        steps_into(columns, rows, blocked, start, goal, s as int, best[s] as int, q as int, best[q] as int),
        done.contains(q),
{
    let p0 = from[s];
    let pc = p0 as int / 4;
    let h = s as int % 4;
    assert(steps_into(columns, rows, blocked, start, goal, s as int, best[s] as int, p0 as int, best[p0] as int));
    assert(q as int == pc * 4 + q as int % 4);
    assert(p0 as int == pc * 4 + p0 as int % 4);
    assert(entered(columns, rows, blocked, start, goal, q as int, h) == s as int);
    lemma_step_back_bound(columns, rows, blocked, start, goal, best[s] as int, best[q] as int, s as int, q as int);
    lemma_cheapest_at(columns, rows, blocked, start, goal, best, from, q);
    assert(steps_into(columns, rows, blocked, start, goal, s as int, best[s] as int, q as int, best[q] as int));
}

proof fn lemma_q_is_least(
    columns: int,
    rows: int,
    blocked: Seq<bool>,
    start: int,
    goal: int,
    best: Map<usize, u64>,
    from: Map<usize, usize>,
    done: Set<usize>,
    s: usize,
    q: usize,
)
    requires
        columns > 0,
        reached_cheapest(columns, rows, blocked, start, goal, best, from, done, s),
        from.contains_key(s),
        steps_into(columns, rows, blocked, start, goal, s as int, best[s] as int, q as int, best[q] as int),
        forall|h: int|
            0 <= h < 4 && #[trigger] best.contains_key(((from[s] as int / 4) * 4 + h) as usize) && best[((from[s] as int / 4) * 4
                + h) as usize] + step_cost(h, s as int % 4) == best[s] ==> !(best[((from[s] as int / 4) * 4 + h) as usize] < best[q]
                || (best[((from[s] as int / 4) * 4 + h) as usize] == best[q] && (from[s] as int / 4) * 4 + h < q)),
    ensures
        chosen_parent(columns, rows, blocked, start, goal, s as int, best[s] as int, q as int, best[q] as int),
{
    let p0 = from[s];
    let pc = p0 as int / 4;
    let h = s as int % 4;
    assert(steps_into(columns, rows, blocked, start, goal, s as int, best[s] as int, p0 as int, best[p0] as int));
    assert forall|r: int, cr: int|
        #[trigger] steps_into(columns, rows, blocked, start, goal, s as int, best[s] as int, r, cr) implies !(cr < best[q] || (cr
        == best[q] && r < q)) by {
        assert(0 <= r < columns * rows * 4 && done.contains(r as usize) && best.contains_key(r as usize) && best[r as usize] == cr);
        assert(entered(columns, rows, blocked, start, goal, r, h) == s as int);
        assert(entered(columns, rows, blocked, start, goal, p0 as int, h) == s as int);
        lemma_moved_unique(columns, rows, r / 4, pc, h);
        assert(r == pc * 4 + r % 4);
        assert(((from[s] as int / 4) * 4 + r % 4) as usize == r as usize);
        assert(best.contains_key(((from[s] as int / 4) * 4 + r % 4) as usize));
    }
}

/// A state one step from which reaches `s`, at a cost that with the step
/// makes `s`'s cheapest, is reached by no walk more cheaply than that cost.
proof fn lemma_step_back_bound(
    columns: int,
    rows: int,
    blocked: Seq<bool>,
    start: int,
    goal: int,
    c: int,
    cq: int,
    s: int,
    q: int,
)
    requires
        cheapest_at(columns, rows, blocked, start, goal, s, c),
        0 <= s,
        entered(columns, rows, blocked, start, goal, q, s % 4) == s,
        cq + step_cost(q % 4, s % 4) == c,
    ensures
        forall|w: Seq<int>| is_walk(columns, rows, blocked, start, goal, w) && w.last() == q ==> cq <= #[trigger] walk_cost(w),
{
    assert forall|w: Seq<int>| is_walk(columns, rows, blocked, start, goal, w) && w.last() == q implies cq <= #[trigger] walk_cost(
        w,
    ) by {
        let v = w.push(s);
        assert forall|k: int| 1 <= k < v.len() implies 0 <= #[trigger] v[k] && v[k] == entered(
            columns,
            rows,
            blocked,
            start,
            goal,
            v[k - 1],
            v[k] % 4,
        ) by {
            if k < w.len() {
                assert(v[k] == w[k] && v[k - 1] == w[k - 1]);
            }
        }
        lemma_walk_cost_step(v, w.len() - 1);
        assert(v.take(w.len() + 1 as int) =~= v);
        assert(v.take(w.len() as int) =~= w);
        assert(c <= walk_cost(v));
    }
}

/// Two cells one step in the same heading reach the same cell only if they
/// are the same cell.
proof fn lemma_moved_unique(columns: int, rows: int, a: int, b: int, h: int)
    requires
        columns > 0,
        0 <= a,
        0 <= b,
        0 <= h < 4,
        moved(columns, rows, a, h) >= 0,
        moved(columns, rows, a, h) == moved(columns, rows, b, h),
    ensures
        a == b,
{
    let ca = a % columns + offset(h).0;
    let ra = a / columns + offset(h).1;
    let cb = b % columns + offset(h).0;
    let rb = b / columns + offset(h).1;
    lemma_cell(columns, ca, ra);
    lemma_cell(columns, cb, rb);
    assert(a == (a / columns) * columns + a % columns) by (nonlinear_arith)
        requires
            columns > 0,
            a >= 0,
    ;
    assert(b == (b / columns) * columns + b % columns) by (nonlinear_arith)
        requires
            columns > 0,
            b >= 0,
    ;
}

proof fn lemma_chain_extend(
    columns: int,
    rows: int,
    blocked: Seq<bool>,
    start: int,
    goal: int,
    w: Seq<int>,
    costs: Seq<int>,
    p: int,
    cp: int,
)
    requires
        w.len() == 0 || chain_ok(columns, rows, blocked, start, goal, w, costs),
        costs.len() == w.len(),
        w.len() >= 1 ==> w[0] / 4 != start,
        w.len() >= 1 ==> chosen_parent(columns, rows, blocked, start, goal, w[0], costs[0], p, cp),
    ensures
        chain_ok(columns, rows, blocked, start, goal, seq![p] + w, seq![cp] + costs),
{
    reveal(chain_ok);
    let u = seq![p] + w;
    let c = seq![cp] + costs;
    assert forall|k: int| 1 <= k < u.len() implies #[trigger] u[k] / 4 != start by {
        assert(u[k] == w[k - 1]);
    }
    assert forall|k: int|
        1 <= k < u.len() implies #[trigger] chosen_parent(columns, rows, blocked, start, goal, u[k], c[k], u[k - 1], c[k - 1]) by {
        assert(u[k] == w[k - 1] && c[k] == costs[k - 1]);
        if k >= 2 {
            assert(u[k - 1] == w[k - 2] && c[k - 1] == costs[k - 2]);
        }
    }
}

/// [`chosen_arrival`], held closed while the route is walked back.
#[verifier::opaque]
spec fn arrival_ok(columns: int, rows: int, blocked: Seq<bool>, start: int, goal: int, a: int, c: int) -> bool {
    chosen_arrival(columns, rows, blocked, start, goal, a, c)
}

proof fn lemma_chain_walk(columns: int, rows: int, blocked: Seq<bool>, start: int, goal: int, w: Seq<int>, costs: Seq<int>)
    requires
        chain_ok(columns, rows, blocked, start, goal, w, costs),
        w.len() >= 1,
        0 <= w[0],
        w[0] / 4 == start,
        costs[0] == 0,
        arrival_ok(columns, rows, blocked, start, goal, w.last(), costs.last()),
    ensures
        searched_walk(columns, rows, blocked, start, goal, w, costs),
{
    reveal(chain_ok);
    reveal(arrival_ok);
}

/// The cells of a clear right-angled route from `start` to `goal` across a
/// grid of `columns` by `rows` cells numbered row by row, where `blocked`
/// marks the cells a route may not enter (its own two ends excepted); or
/// nothing where no such route exists.
///
/// The route is found by an A* search, trying states in order of their
/// cost so far plus [`estimate`], with a turn costing [`TURN_COST`] more
/// than a straight step; the estimate only makes the search faster. The
/// route is the cheapest, and among equally cheap routes exactly the one an
/// exhaustive cheapest-first search returns, the walk [`searched_walk`]
/// describes: it arrives in the cheapest, then lowest-numbered, state of the
/// goal cell, and reaches each state from the cheapest, then lowest-numbered,
/// state that reaches it as cheaply. That walk is one walk: see
/// [`law_the_searched_route_is_unique`].
#[verifier::rlimit(100)]
pub fn route_cells(columns: usize, rows: usize, blocked: &Vec<bool>, start: usize, goal: usize) -> (r: Option<
    Vec<usize>,
>)
    requires
        grid_ok(columns as int, rows as int, blocked.len() as int, start as int, goal as int),
    ensures
        match r {
            Some(path) => {
                &&& is_route(columns as int, rows as int, blocked@, start as int, goal as int, cells_of(path@))
                &&& forall|other: Seq<int>|
                    is_route(columns as int, rows as int, blocked@, start as int, goal as int, other) ==> route_cost(
                        columns as int,
                        rows as int,
                        cells_of(path@),
                    ) <= #[trigger] route_cost(columns as int, rows as int, other)
            },
            None => forall|path: Seq<int>| !is_route(columns as int, rows as int, blocked@, start as int, goal as int, path),
        },
        r matches Some(path) ==> exists|w: Seq<int>, costs: Seq<int>|
            searched_walk(columns as int, rows as int, blocked@, start as int, goal as int, w, costs) && #[trigger] cells_of(
                path@,
            ) == w.map_values(|s: int| s / 4),
{
    let (found, best, came_from, done) = search(columns, rows, blocked, start, goal);
    let arrived = match found {
        Some(s) => s,
        None => {
            proof {
                assert forall|path: Seq<int>| !is_route(columns as int, rows as int, blocked@, start as int, goal as int, path) by {
                    if is_route(columns as int, rows as int, blocked@, start as int, goal as int, path) {
                        let k = path.len() - 1;
                        lemma_route_reached(columns as int, rows as int, blocked@, start as int, goal as int, best@, path, k);
                        let h = choose|h: int| 0 <= h < 4 && #[trigger] best@.contains_key((path[k] * 4 + h) as usize);
                        assert(path[k] * 4 + h < columns * rows * 4) by (nonlinear_arith)
                            requires
                                path[k] < columns * rows,
                                h < 4,
                        ;
                        lemma_state(path[k], h);
                        let s = (path[k] * 4 + h) as usize;
                        assert(best@.contains_key(s));
                        assert(s as int / 4 != goal);
                    }
                }
            }
            return None;
        },
    };
    let mut back: Vec<usize> = Vec::new();
    back.push(arrived / 4);
    let mut state = arrived;
    let ghost mut fwd: Seq<int> = seq![arrived as int];
    let ghost mut costs: Seq<int> = seq![best@[arrived] as int];
    proof {
        reveal(parents_chosen);
        reveal(arrival_ok);
        lemma_chain_extend(columns as int, rows as int, blocked@, start as int, goal as int, Seq::empty(), Seq::empty(), arrived as int, best@[arrived] as int);
        assert(seq![arrived as int] + Seq::<int>::empty() =~= fwd);
        assert(seq![best@[arrived] as int] + Seq::<int>::empty() =~= costs);
    }
    while state / 4 != start
        invariant
            arrival_ok(columns as int, rows as int, blocked@, start as int, goal as int, arrived as int, best@[arrived] as int),
            parents_chosen(columns as int, rows as int, blocked@, start as int, goal as int, best@, came_from@, done@, arrived),
            state == arrived || done@.contains(state),
            costs.len() == fwd.len(),
            costs[0] == best@[state] as int,
            costs.last() == best@[arrived] as int,
            chain_ok(columns as int, rows as int, blocked@, start as int, goal as int, fwd, costs),
            grid_ok(columns as int, rows as int, blocked.len() as int, start as int, goal as int),
            reached_ok(columns as int, rows as int, blocked@, start as int, goal as int, best@, came_from@),
            best@.contains_key(state),
            best@.contains_key(arrived),
            fwd.len() == back@.len(),
            fwd[0] == state as int,
            fwd.last() == arrived as int,
            forall|i: int| 0 <= i < back@.len() ==> #[trigger] back@[i] as int == fwd[fwd.len() - 1 - i] / 4,
            forall|k: int|
                1 <= k < fwd.len() ==> 0 <= #[trigger] fwd[k] && fwd[k] == entered(
                    columns as int,
                    rows as int,
                    blocked@,
                    start as int,
                    goal as int,
                    fwd[k - 1],
                    fwd[k] % 4,
                ),
            walk_cost(fwd) + best@[state] <= best@[arrived],
            back@.len() >= 1,
            back@[0] == goal,
            back@.last() == state / 4,
            forall|k: int|
                1 <= k < back@.len() ==> adjacent(columns as int, rows as int, #[trigger] back@[k] as int, back@[k - 1] as int)
                    && open_cell(blocked@, start as int, goal as int, back@[k - 1] as int),
        decreases best@[state],
    {
        let first = match came_from.get(&state) {
            Some(p) => *p,
            None => {
                proof {
                    assert(came_from@.contains_key(state));
                }
                return None;
            },
        };
        proof {
            lemma_parent_of(columns as int, rows as int, blocked@, start as int, goal as int, best@, came_from@, done@, arrived, state);
        }
        let here = *best.get(&state).unwrap();
        let heading = state % 4;
        let cell = first / 4;
        let mut parent = first;
        let mut parent_cost = *best.get(&first).unwrap();
        let mut k: usize = 0;
        assert(first as int == (first as int / 4) * 4 + first as int % 4);
        while k < 4
            invariant
                k <= 4,
                came_from@.contains_key(state),
                first == came_from@[state],
                cell == first / 4,
                heading == state % 4,
                here == best@[state],
                best@.contains_key(parent),
                parent_cost == best@[parent],
                parent as int / 4 == cell as int,
                parent_cost + step_cost(parent as int % 4, heading as int) == here,
                forall|h: int|
                    0 <= h < k && #[trigger] best@.contains_key(((first as int / 4) * 4 + h) as usize) && best@[((first as int / 4)
                        * 4 + h) as usize] + step_cost(h, state as int % 4) == best@[state] ==> !(best@[((first as int / 4) * 4
                        + h) as usize] < parent_cost || (best@[((first as int / 4) * 4 + h) as usize] == parent_cost && (first as int
                        / 4) * 4 + h < parent)),
            decreases 4 - k,
        {
            let candidate = cell * 4 + k;
            match best.get(&candidate) {
                Some(c) => {
                    let c = *c;
                    let turn: u64 = if k == heading {
                        1
                    } else {
                        5
                    };
                    if c < here && here - c == turn && (c < parent_cost || (c == parent_cost && candidate < parent)) {
                        parent = candidate;
                        parent_cost = c;
                    }
                },
                None => {},
            }
            k = k + 1;
        }
        proof {
            lemma_chosen_from_cell(columns as int, rows as int, blocked@, start as int, goal as int, best@, came_from@, done@, arrived, state, parent);
            let h = state as int % 4;
            assert(parent as int == (parent as int / 4) * 4 + parent as int % 4);
            assert(moved(columns as int, rows as int, parent as int / 4, h) == state as int / 4);
            assert(adjacent(columns as int, rows as int, parent as int / 4, state as int / 4));
        }
        let ghost old_back = back@;
        let ghost old_fwd = fwd;
        back.push(parent / 4);
        proof {
            assert forall|k: int|
                1 <= k < back@.len() implies adjacent(columns as int, rows as int, #[trigger] back@[k] as int, back@[k - 1] as int)
                    && open_cell(blocked@, start as int, goal as int, back@[k - 1] as int) by {
                if k < old_back.len() {
                    assert(back@[k] == old_back[k] && back@[k - 1] == old_back[k - 1]);
                }
            }
            let old_costs = costs;
            lemma_chain_extend(columns as int, rows as int, blocked@, start as int, goal as int, old_fwd, old_costs, parent as int, best@[parent] as int);
            costs = seq![best@[parent] as int] + old_costs;
            fwd = seq![parent as int] + old_fwd;
            assert(fwd.drop_first() =~= old_fwd);
            assert(fwd[1] == state as int);
            assert(state as int == (state as int / 4) * 4 + state as int % 4);
            assert(entered(columns as int, rows as int, blocked@, start as int, goal as int, parent as int, state as int % 4)
                == state as int);
            assert forall|i: int| 0 <= i < back@.len() implies #[trigger] back@[i] as int == fwd[fwd.len() - 1 - i] / 4 by {
                if i < old_back.len() {
                    assert(back@[i] == old_back[i]);
                    assert(fwd[fwd.len() - 1 - i] == old_fwd[old_fwd.len() - 1 - i]);
                }
            }
            assert forall|k: int|
                1 <= k < fwd.len() implies 0 <= #[trigger] fwd[k] && fwd[k] == entered(
                columns as int,
                rows as int,
                blocked@,
                start as int,
                goal as int,
                fwd[k - 1],
                fwd[k] % 4,
            ) by {
                if k >= 2 {
                    assert(fwd[k] == old_fwd[k - 1] && fwd[k - 1] == old_fwd[k - 2]);
                }
            }
        }
        state = parent;
    }
    let mut path: Vec<usize> = Vec::new();
    let mut i = back.len();
    while i > 0
        invariant
            i <= back.len(),
            path@.len() == back.len() - i,
            forall|k: int| 0 <= k < path@.len() ==> #[trigger] path@[k] == back@[back.len() - 1 - k],
        decreases i,
    {
        i = i - 1;
        path.push(back[i]);
    }
    proof {
        let p = cells_of(path@);
        let n = back.len() as int;
        assert(p.len() == n);
        assert(p[0] == back@[n - 1]);
        assert(p.last() == back@[0]);
        assert forall|k: int| 1 <= k < p.len() implies adjacent(columns as int, rows as int, p[k - 1], #[trigger] p[k])
            && open_cell(blocked@, start as int, goal as int, p[k]) by {
            assert(p[k - 1] == back@[n - k]);
            assert(p[k] == back@[n - 1 - k]);
            assert(adjacent(columns as int, rows as int, back@[n - k] as int, back@[n - k - 1] as int));
        }
        assert forall|k: int| 0 <= k < p.len() implies #[trigger] p[k] == fwd[k] / 4 by {
            assert(p[k] == back@[n - 1 - k]);
        }
        let h = state as int % 4;
        assert(state as int == start * 4 + h);
        assert(best@[state] == 0);
        lemma_route_cheapest(columns as int, rows as int, blocked@, start as int, goal as int, best@, arrived, fwd, p);
        assert(p =~= fwd.map_values(|s: int| s / 4));
        lemma_chain_walk(columns as int, rows as int, blocked@, start as int, goal as int, fwd, costs);
    }
    Some(path)
}


} // verus!
