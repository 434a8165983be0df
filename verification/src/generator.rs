//! Maze generation by randomized depth-first search over the rooms of the grid.
//!
//! Rooms are the cells whose two coordinates are odd; the generator opens the
//! start room, then repeatedly walks from the room on top of its stack to a
//! random unvisited neighbouring room two cells away, opening the wall cell
//! between them, and backs up when no such neighbour is left.

use crate::maze::{
    GridPos, MazeCellState, MazeMatrix, index_of, lemma_index_bound, lemma_index_in_grid,
    lemma_index_roundtrip,
};
use crate::steps::{RoomSteps, room_steps, steps_get, steps_len, steps_new, steps_push};
use vstd::prelude::*;

verus! {

/// A room: a cell strictly inside the grid's top and left border whose two
/// coordinates are odd.
pub open spec fn is_room(x: int, y: int, size: int) -> bool {
    0 < x < size && 0 < y < size && x % 2 == 1 && y % 2 == 1
}

/// A passage: a cell between two rooms that are adjacent along a row or a column.
pub open spec fn is_passage(x: int, y: int, size: int) -> bool {
    (is_room(x - 1, y, size) && is_room(x + 1, y, size)) || (is_room(x, y - 1, size) && is_room(
        x,
        y + 1,
        size,
    ))
}

/// Column step of direction `d`: up, right, down, left for `d` = 0, 1, 2, 3.
pub open spec fn step_dx(d: int) -> int {
    if d == 1 {
        1
    } else if d == 3 {
        -1
    } else {
        0
    }
}

/// Row step of direction `d`: up, right, down, left for `d` = 0, 1, 2, 3.
pub open spec fn step_dy(d: int) -> int {
    if d == 0 {
        1
    } else if d == 2 {
        -1
    } else {
        0
    }
}

/// The room two cells from `(x, y)` in direction `d` lies strictly inside the
/// grid (coordinates above 0 and below `size`).
pub open spec fn room_in_range(x: int, y: int, d: int, size: int) -> bool {
    0 < x + 2 * step_dx(d) < size && 0 < y + 2 * step_dy(d) < size
}

/// The room two cells away in direction `d`, and the wall cell between.
pub open spec fn step_target(pos: GridPos, d: int) -> (GridPos, GridPos) {
    (
        GridPos {
            x: (pos.x + 2 * step_dx(d)) as usize,
            y: (pos.y + 2 * step_dy(d)) as usize,
        },
        GridPos { x: (pos.x + step_dx(d)) as usize, y: (pos.y + step_dy(d)) as usize },
    )
}

/// The room two cells away in direction `d` is in range and not visited yet.
pub open spec fn step_is_open(pos: GridPos, d: int, size: int, visited: Seq<bool>) -> bool {
    room_in_range(pos.x as int, pos.y as int, d, size) && !visited[index_of(
        pos.x + 2 * step_dx(d),
        pos.y + 2 * step_dy(d),
        size,
    )]
}

/// The open steps among the first `count` directions, in direction order.
pub open spec fn open_steps(pos: GridPos, size: int, visited: Seq<bool>, count: nat) -> Seq<
    (GridPos, GridPos),
>
    decreases count,
{
    if count == 0 {
        Seq::empty()
    } else {
        let prev = open_steps(pos, size, visited, (count - 1) as nat);
        if step_is_open(pos, count - 1, size, visited) {
            prev.push(step_target(pos, count - 1))
        } else {
            prev
        }
    }
}

/// `t` is the target of an open step in one of the first `count` directions.
pub open spec fn is_open_step(pos: GridPos, size: int, visited: Seq<bool>, count: int, t: (
    GridPos,
    GridPos,
)) -> bool {
    exists|d: int|
        0 <= d < count && step_is_open(pos, d, size, visited) && t == #[trigger] step_target(pos, d)
}

/// Each listed step is an open one; an empty list means no direction is open.
pub proof fn lemma_open_steps(pos: GridPos, size: int, visited: Seq<bool>, count: nat)
    ensures
        forall|i: int|
            0 <= i < open_steps(pos, size, visited, count).len() ==> is_open_step(
                pos,
                size,
                visited,
                count as int,
                #[trigger] open_steps(pos, size, visited, count)[i],
            ),
        open_steps(pos, size, visited, count).len() == 0 ==> forall|d: int|
            0 <= d < count ==> !#[trigger] step_is_open(pos, d, size, visited),
    decreases count,
{
    if count > 0 {
        lemma_open_steps(pos, size, visited, (count - 1) as nat);
        let prev = open_steps(pos, size, visited, (count - 1) as nat);
        let cur = open_steps(pos, size, visited, count);
        assert forall|i: int| 0 <= i < cur.len() implies is_open_step(
            pos,
            size,
            visited,
            count as int,
            #[trigger] cur[i],
        ) by {
            if i < prev.len() {
                assert(cur[i] == prev[i]);
                assert(is_open_step(pos, size, visited, count - 1, prev[i]));
                let d = choose|d: int|
                    0 <= d < count - 1 && step_is_open(pos, d, size, visited) && prev[i]
                        == #[trigger] step_target(pos, d);
                assert(0 <= d < count && step_is_open(pos, d, size, visited) && cur[i]
                    == step_target(pos, d));
            } else {
                assert(step_is_open(pos, count - 1, size, visited) && cur[i] == step_target(
                    pos,
                    count - 1,
                ));
            }
        }
    }
}

/// Column and row steps of direction `d`, as `open_steps` numbers them.
fn step_offset(d: usize) -> (o: (i64, i64))
    requires
        d < 4,
    ensures
        o.0 == step_dx(d as int),
        o.1 == step_dy(d as int),
{
    if d == 0 {
        (0, 1)
    } else if d == 1 {
        (1, 0)
    } else if d == 2 {
        (0, -1)
    } else {
        (-1, 0)
    }
}

/// The rooms two cells up, right, down and left of `pos` (in that order) that
/// lie strictly inside the maze and are not visited yet, each with the wall
/// cell between it and `pos`.
pub fn get_rooms_over_offsets(pos: GridPos, maze_size: usize, visited: &[bool]) -> (steps:
    RoomSteps)
    requires
        pos.x < maze_size,
        pos.y < maze_size,
        maze_size <= i32::MAX,
        maze_size * maze_size <= visited@.len(),
    ensures
        room_steps(steps) == open_steps(pos, maze_size as int, visited@, 4),
{
    let mut neighbors = steps_new();
    let size = maze_size as i64;
    let px = pos.x as i64;
    let py = pos.y as i64;
    let visited_len = visited.len();
    let mut d: usize = 0;
    while d < 4
        invariant
            d <= 4,
            visited_len == visited@.len(),
            size == maze_size,
            px == pos.x,
            py == pos.y,
            pos.x < maze_size <= i32::MAX,
            pos.y < maze_size,
            maze_size * maze_size <= visited@.len(),
            room_steps(neighbors) == open_steps(pos, maze_size as int, visited@, d as nat),
        decreases 4 - d,
    {
        let (dx, dy) = step_offset(d);
        let rx = px + dx * 2;
        let ry = py + dy * 2;
        if !(rx <= 0 || ry <= 0 || rx >= size || ry >= size) {
            let room = GridPos { x: rx as usize, y: ry as usize };
            proof {
                lemma_index_bound(rx as int, ry as int, maze_size as int);
            }
            let room_index = MazeMatrix::us_compute_index_with_size(room, maze_size);
            if !visited[room_index] {
                let wall = GridPos { x: (px + dx) as usize, y: (py + dy) as usize };
                steps_push(&mut neighbors, (room, wall));
            }
        }
        d = d + 1;
    }
    neighbors
}

/// Every room two cells away from `(x, y)` that lies in range is visited.
pub open spec fn room_closed(visited: Seq<bool>, x: int, y: int, size: int) -> bool {
    forall|d: int|
        0 <= d < 4 && #[trigger] room_in_range(x, y, d, size) ==> visited[index_of(
            x + 2 * step_dx(d),
            y + 2 * step_dy(d),
            size,
        )]
}

/// Number of entries that are still `false`.
pub open spec fn count_unvisited(visited: Seq<bool>) -> nat
    decreases visited.len(),
{
    if visited.len() == 0 {
        0
    } else {
        count_unvisited(visited.drop_last()) + if visited.last() {
            0nat
        } else {
            1nat
        }
    }
}

/// Marking one unvisited entry lowers the count of unvisited entries by one.
proof fn lemma_count_mark(visited: Seq<bool>, j: int)
    requires
        0 <= j < visited.len(),
        !visited[j],
    ensures
        count_unvisited(visited.update(j, true)) + 1 == count_unvisited(visited),
    decreases visited.len(),
{
    let after = visited.update(j, true);
    if j == visited.len() - 1 {
        assert(after.drop_last() =~= visited.drop_last());
    } else {
        lemma_count_mark(visited.drop_last(), j);
        assert(after.drop_last() =~= visited.drop_last().update(j, true));
    }
}

/// Number of entries that are `true`.
pub open spec fn count_true(flags: Seq<bool>) -> nat
    decreases flags.len(),
{
    if flags.len() == 0 {
        0
    } else {
        count_true(flags.drop_last()) + if flags.last() {
            1nat
        } else {
            0nat
        }
    }
}

/// Number of open cells.
pub open spec fn open_count(cells: Seq<MazeCellState>) -> nat
    decreases cells.len(),
{
    if cells.len() == 0 {
        0
    } else {
        open_count(cells.drop_last()) + if cells.last() == MazeCellState::Path {
            1nat
        } else {
            0nat
        }
    }
}

/// For each cell of a `size` by `size` grid, whether it is a room.
pub open spec fn room_flags(size: int) -> Seq<bool> {
    Seq::new((size * size) as nat, |i: int| is_room(i % size, i / size, size))
}

/// Number of rooms in a `size` by `size` grid.
pub open spec fn room_total(size: int) -> nat {
    count_true(room_flags(size))
}

/// Setting one `false` entry raises the count of `true` entries by one.
proof fn lemma_count_true_mark(flags: Seq<bool>, j: int)
    requires
        0 <= j < flags.len(),
        !flags[j],
    ensures
        count_true(flags.update(j, true)) == count_true(flags) + 1,
    decreases flags.len(),
{
    let after = flags.update(j, true);
    if j == flags.len() - 1 {
        assert(after.drop_last() =~= flags.drop_last());
    } else {
        lemma_count_true_mark(flags.drop_last(), j);
        assert(after.drop_last() =~= flags.drop_last().update(j, true));
    }
}

/// No entry is `true`: the count is zero.
proof fn lemma_count_true_none(flags: Seq<bool>)
    requires
        forall|i: int| 0 <= i < flags.len() ==> !flags[i],
    ensures
        count_true(flags) == 0,
    decreases flags.len(),
{
    if flags.len() > 0 {
        lemma_count_true_none(flags.drop_last());
    }
}

/// Opening one wall raises the count of open cells by one.
proof fn lemma_open_count_open(cells: Seq<MazeCellState>, j: int)
    requires
        0 <= j < cells.len(),
        cells[j] == MazeCellState::Wall,
    ensures
        open_count(cells.update(j, MazeCellState::Path)) == open_count(cells) + 1,
    decreases cells.len(),
{
    let after = cells.update(j, MazeCellState::Path);
    if j == cells.len() - 1 {
        assert(after.drop_last() =~= cells.drop_last());
    } else {
        lemma_open_count_open(cells.drop_last(), j);
        assert(after.drop_last() =~= cells.drop_last().update(j, MazeCellState::Path));
    }
}

/// All walls: no open cell.
proof fn lemma_open_count_none(cells: Seq<MazeCellState>)
    requires
        forall|i: int| 0 <= i < cells.len() ==> cells[i] == MazeCellState::Wall,
    ensures
        open_count(cells) == 0,
    decreases cells.len(),
{
    if cells.len() > 0 {
        lemma_open_count_none(cells.drop_last());
    }
}

/// In a visited set closed under room steps, every room is reached from any
/// visited room.
proof fn lemma_reach(visited: Seq<bool>, size: int, fx: int, fy: int, tx: int, ty: int)
    requires
        size > 0,
        visited.len() == size * size,
        is_room(fx, fy, size),
        is_room(tx, ty, size),
        visited[index_of(fx, fy, size)],
        forall|i: int|
            0 <= i < size * size && #[trigger] visited[i] ==> room_closed(
                visited,
                i % size,
                i / size,
                size,
            ),
    ensures
        visited[index_of(tx, ty, size)],
    decreases (if fx <= tx {
        tx - fx
    } else {
        fx - tx
    }) + (if fy <= ty {
        ty - fy
    } else {
        fy - ty
    }),
{
    if fx != tx || fy != ty {
        let i = index_of(fx, fy, size);
        lemma_index_bound(fx, fy, size);
        lemma_index_roundtrip(fx, fy, size);
        assert(room_closed(visited, fx, fy, size));
        let d = if fx < tx {
            1int
        } else if fx > tx {
            3int
        } else if fy < ty {
            0int
        } else {
            2int
        };
        assert(room_in_range(fx, fy, d, size));
        lemma_reach(visited, size, fx + 2 * step_dx(d), fy + 2 * step_dy(d), tx, ty);
    }
}

/// `(x, y)` lies between two rooms adjacent along a row or a column, both
/// visited.
pub open spec fn passage_of_visited(visited: Seq<bool>, x: int, y: int, size: int) -> bool {
    ||| (is_room(x - 1, y, size) && is_room(x + 1, y, size) && visited[index_of(x - 1, y, size)]
        && visited[index_of(x + 1, y, size)])
    ||| (is_room(x, y - 1, size) && is_room(x, y + 1, size) && visited[index_of(x, y - 1, size)]
        && visited[index_of(x, y + 1, size)])
}

/// What holds of the search between two steps: visited entries are rooms and
/// open; open cells are visited rooms or passages; the stack holds visited
/// rooms; a visited room off the stack has all its neighbouring rooms visited.
pub open spec fn search_state(
    visited: Seq<bool>,
    cells: Seq<MazeCellState>,
    stack: Seq<GridPos>,
    size: int,
) -> bool {
    &&& visited.len() == size * size
    &&& cells.len() == size * size
    &&& forall|i: int| 0 <= i < size * size && #[trigger] visited[i] ==> is_room(i % size, i / size, size)
    &&& forall|i: int|
        0 <= i < size * size && #[trigger] visited[i] ==> cells[i] == MazeCellState::Path
    &&& forall|i: int|
        0 <= i < size * size && #[trigger] cells[i] == MazeCellState::Path ==> visited[i]
            || passage_of_visited(visited, i % size, i / size, size)
    &&& forall|k: int|
        0 <= k < stack.len() ==> is_room(#[trigger] stack[k].x as int, stack[k].y as int, size)
            && visited[index_of(stack[k].x as int, stack[k].y as int, size)]
    &&& forall|i: int|
        0 <= i < size * size && #[trigger] visited[i] ==> stack.contains(
            GridPos { x: (i % size) as usize, y: (i / size) as usize },
        ) || room_closed(visited, i % size, i / size, size)
}

/// Backing up from a room none of whose neighbouring rooms is left unvisited
/// keeps the search state.
proof fn lemma_back_up(
    visited: Seq<bool>,
    cells: Seq<MazeCellState>,
    stack: Seq<GridPos>,
    size: int,
)
    requires
        0 < size <= usize::MAX,
        stack.len() > 0,
        search_state(visited, cells, stack, size),
        forall|d: int| 0 <= d < 4 ==> !#[trigger] step_is_open(stack.last(), d, size, visited),
    ensures
        search_state(visited, cells, stack.drop_last(), size),
{
    let current = stack.last();
    let top = stack.len() - 1;
    let popped = stack.drop_last();
    assert(room_closed(visited, current.x as int, current.y as int, size)) by {
        assert forall|d: int|
            0 <= d < 4 && #[trigger] room_in_range(
                current.x as int,
                current.y as int,
                d,
                size,
            ) implies visited[index_of(
            current.x + 2 * step_dx(d),
            current.y + 2 * step_dy(d),
            size,
        )] by {
            assert(!step_is_open(current, d, size, visited));
        }
    }
    assert forall|k: int| 0 <= k < popped.len() implies is_room(
        #[trigger] popped[k].x as int,
        popped[k].y as int,
        size,
    ) && visited[index_of(popped[k].x as int, popped[k].y as int, size)] by {
        assert(popped[k] == stack[k]);
    }
    assert forall|i: int| 0 <= i < size * size && #[trigger] visited[i] implies popped.contains(
        GridPos { x: (i % size) as usize, y: (i / size) as usize },
    ) || room_closed(visited, i % size, i / size, size) by {
        let p = GridPos { x: (i % size) as usize, y: (i / size) as usize };
        lemma_index_in_grid(i, size);
        if stack.contains(p) && !room_closed(visited, i % size, i / size, size) {
            let k = choose|k: int| 0 <= k < stack.len() && stack[k] == p;
            if k == top {
                assert(p == current);
            } else {
                assert(popped[k] == p);
            }
        }
    }
}

/// Stepping from the top room in open direction `d` (marking the room visited,
/// opening it and the wall between, and pushing it) keeps the search state.
proof fn lemma_step(
    visited: Seq<bool>,
    cells: Seq<MazeCellState>,
    stack: Seq<GridPos>,
    size: int,
    d: int,
)
    requires
        0 < size <= usize::MAX,
        stack.len() > 0,
        search_state(visited, cells, stack, size),
        0 <= d < 4,
        step_is_open(stack.last(), d, size, visited),
    ensures
        ({
            let (room, wall) = step_target(stack.last(), d);
            let ri = index_of(room.x as int, room.y as int, size);
            let wi = index_of(wall.x as int, wall.y as int, size);
            &&& 0 <= ri < size * size
            &&& 0 <= wi < size * size
            &&& !visited[ri]
            &&& cells[ri] == MazeCellState::Wall
            &&& cells[wi] == MazeCellState::Wall
            &&& ri != wi
            &&& search_state(
                visited.update(ri, true),
                cells.update(ri, MazeCellState::Path).update(wi, MazeCellState::Path),
                stack.push(room),
                size,
            )
        }),
{
    let current = stack.last();
    let (room, wall) = step_target(current, d);
    let cx = current.x as int;
    let cy = current.y as int;
    let nx = current.x + 2 * step_dx(d);
    let ny = current.y + 2 * step_dy(d);
    let wx = current.x + step_dx(d);
    let wy = current.y + step_dy(d);
    assert(is_room(current.x as int, current.y as int, size));
    assert(room.x == nx && room.y == ny);
    assert(wall.x == wx && wall.y == wy);
    assert(is_room(nx, ny, size));
    assert(is_passage(wx, wy, size));
    lemma_index_bound(nx, ny, size);
    lemma_index_roundtrip(nx, ny, size);
    lemma_index_bound(wx, wy, size);
    lemma_index_roundtrip(wx, wy, size);
    let ri = index_of(nx, ny, size);
    let wi = index_of(wx, wy, size);
    let v2 = visited.update(ri, true);
    let c2 = cells.update(ri, MazeCellState::Path).update(wi, MazeCellState::Path);
    let s2 = stack.push(room);
    assert(s2[s2.len() - 1] == room);
    assert forall|k: int| 0 <= k < s2.len() implies is_room(
        #[trigger] s2[k].x as int,
        s2[k].y as int,
        size,
    ) && v2[index_of(s2[k].x as int, s2[k].y as int, size)] by {
        if k < stack.len() {
            assert(s2[k] == stack[k]);
            lemma_index_bound(s2[k].x as int, s2[k].y as int, size);
        }
    }
    assert forall|i: int| 0 <= i < size * size && #[trigger] v2[i] implies is_room(
        i % size,
        i / size,
        size,
    ) && c2[i] == MazeCellState::Path && (s2.contains(
        GridPos { x: (i % size) as usize, y: (i / size) as usize },
    ) || room_closed(v2, i % size, i / size, size)) by {
        let p = GridPos { x: (i % size) as usize, y: (i / size) as usize };
        if i == ri {
            assert(p == room);
            assert(s2[s2.len() - 1] == p);
        } else {
            assert(visited[i]);
            if stack.contains(p) {
                let k = choose|k: int| 0 <= k < stack.len() && stack[k] == p;
                assert(s2[k] == p);
            } else {
                assert(room_closed(visited, i % size, i / size, size));
                assert forall|e: int|
                    0 <= e < 4 && #[trigger] room_in_range(i % size, i / size, e, size) implies v2[index_of(
                    i % size + 2 * step_dx(e),
                    i / size + 2 * step_dy(e),
                    size,
                )] by {
                    lemma_index_bound(i % size + 2 * step_dx(e), i / size + 2 * step_dy(e), size);
                    assert(visited[index_of(
                        i % size + 2 * step_dx(e),
                        i / size + 2 * step_dy(e),
                        size,
                    )]);
                }
            }
        }
    }
    assert(!visited[ri]);
    lemma_index_bound(cx, cy, size);
    lemma_index_roundtrip(cx, cy, size);
    assert(visited[index_of(cx, cy, size)]);
    if cells[ri] == MazeCellState::Path {
        assert(!is_room(nx - 1, ny, size) && !is_room(nx, ny - 1, size));
        assert(!passage_of_visited(visited, nx, ny, size));
    }
    if cells[wi] == MazeCellState::Path {
        assert(!is_room(wx, wy, size));
        if step_dx(d) != 0 {
            assert(!is_room(wx, wy - 1, size));
            assert(index_of(wx - step_dx(d), wy, size) == index_of(cx, cy, size));
            assert(index_of(wx + step_dx(d), wy, size) == ri);
        } else {
            assert(!is_room(wx - 1, wy, size));
            assert(index_of(wx, wy - step_dy(d), size) == index_of(cx, cy, size));
            assert(index_of(wx, wy + step_dy(d), size) == ri);
        }
        assert(!passage_of_visited(visited, wx, wy, size));
    }
    assert(passage_of_visited(v2, wx, wy, size)) by {
        assert(v2[ri]);
        assert(v2[index_of(cx, cy, size)]);
        if step_dx(d) != 0 {
            assert(index_of(wx - step_dx(d), wy, size) == index_of(cx, cy, size));
            assert(index_of(wx + step_dx(d), wy, size) == ri);
        } else {
            assert(index_of(wx, wy - step_dy(d), size) == index_of(cx, cy, size));
            assert(index_of(wx, wy + step_dy(d), size) == ri);
        }
    }
    assert forall|i: int|
        0 <= i < size * size && #[trigger] c2[i] == MazeCellState::Path implies v2[i]
        || passage_of_visited(v2, i % size, i / size, size) by {
        if i != ri && i != wi {
            assert(cells[i] == MazeCellState::Path);
            if !visited[i] {
                let x = i % size;
                let y = i / size;
                assert(passage_of_visited(visited, x, y, size));
                if is_room(x - 1, y, size) && is_room(x + 1, y, size) && visited[index_of(x - 1, y, size)]
                    && visited[index_of(x + 1, y, size)] {
                    lemma_index_bound(x - 1, y, size);
                    lemma_index_bound(x + 1, y, size);
                } else {
                    lemma_index_bound(x, y - 1, size);
                    lemma_index_bound(x, y + 1, size);
                }
            }
        }
    }
}

/// The wall cell between the room at `(x, y)` and the room two cells away in
/// direction `d` is open, and that room lies in range.
pub open spec fn passage_open(cells: Seq<MazeCellState>, x: int, y: int, d: int, size: int) -> bool {
    room_in_range(x, y, d, size) && cells[index_of(x + step_dx(d), y + step_dy(d), size)]
        == MazeCellState::Path
}

/// The room at `(tx, ty)` is joined to the room at `(sx, sy)` by a chain of at
/// most `len` open passages, each leading to a room two cells away.
pub open spec fn joined(
    cells: Seq<MazeCellState>,
    size: int,
    sx: int,
    sy: int,
    tx: int,
    ty: int,
    len: nat,
) -> bool
    decreases len,
{
    (tx == sx && ty == sy) || (len > 0 && exists|d: int|
        0 <= d < 4 && #[trigger] passage_open(cells, tx, ty, d, size) && joined(
            cells,
            size,
            sx,
            sy,
            tx + 2 * step_dx(d),
            ty + 2 * step_dy(d),
            (len - 1) as nat,
        ))
}

/// Every room of the grid is joined to the room at `(sx, sy)` by some chain of
/// open passages.
pub open spec fn all_rooms_joined_to(cells: Seq<MazeCellState>, size: int, sx: int, sy: int) -> bool {
    forall|x: int, y: int|
        0 <= x < size && 0 <= y < size && is_room(x, y, size) ==> exists|len: nat|
            #[trigger] joined(cells, size, sx, sy, x, y, len)
}

/// A chain of at most `len` passages is also one of at most any longer length.
proof fn lemma_joined_longer(
    cells: Seq<MazeCellState>,
    size: int,
    sx: int,
    sy: int,
    tx: int,
    ty: int,
    len: nat,
    more: nat,
)
    requires
        joined(cells, size, sx, sy, tx, ty, len),
        len <= more,
    ensures
        joined(cells, size, sx, sy, tx, ty, more),
    decreases len,
{
    if !(tx == sx && ty == sy) {
        let d = choose|d: int|
            0 <= d < 4 && #[trigger] passage_open(cells, tx, ty, d, size) && joined(
                cells,
                size,
                sx,
                sy,
                tx + 2 * step_dx(d),
                ty + 2 * step_dy(d),
                (len - 1) as nat,
            );
        lemma_joined_longer(
            cells,
            size,
            sx,
            sy,
            tx + 2 * step_dx(d),
            ty + 2 * step_dy(d),
            (len - 1) as nat,
            (more - 1) as nat,
        );
    }
}

/// The search's spanning tree: every visited room but the start has a parent
/// direction whose passage is open and whose room is visited and nearer the
/// start.
pub open spec fn tree_state(
    visited: Seq<bool>,
    cells: Seq<MazeCellState>,
    depth: Map<int, nat>,
    parent: Map<int, int>,
    size: int,
    start: int,
) -> bool {
    &&& depth.contains_key(start)
    &&& depth[start] == 0
    &&& forall|i: int|
        0 <= i < size * size && #[trigger] visited[i] ==> depth.contains_key(i) && (i != start
            ==> {
            let d = parent[i];
            let j = index_of(
                i % size + 2 * step_dx(d),
                i / size + 2 * step_dy(d),
                size,
            );
            &&& parent.contains_key(i)
            &&& 0 <= d < 4
            &&& passage_open(cells, i % size, i / size, d, size)
            &&& visited[j]
            &&& depth.contains_key(j)
            &&& depth[j] < depth[i]
        })
}

/// In the spanning tree, every visited room is joined to the start.
proof fn lemma_tree_joined(
    visited: Seq<bool>,
    cells: Seq<MazeCellState>,
    depth: Map<int, nat>,
    parent: Map<int, int>,
    size: int,
    start: int,
    i: int,
)
    requires
        size > 0,
        0 <= start < size * size,
        tree_state(visited, cells, depth, parent, size, start),
        0 <= i < size * size,
        visited[i],
    ensures
        joined(cells, size, start % size, start / size, i % size, i / size, depth[i]),
    decreases depth[i],
{
    if i != start {
        let d = parent[i];
        let jx = i % size + 2 * step_dx(d);
        let jy = i / size + 2 * step_dy(d);
        let j = index_of(jx, jy, size);
        lemma_index_in_grid(i, size);
        assert(room_in_range(i % size, i / size, d, size));
        lemma_index_bound(jx, jy, size);
        lemma_index_roundtrip(jx, jy, size);
        lemma_tree_joined(visited, cells, depth, parent, size, start, j);
        lemma_joined_longer(
            cells,
            size,
            start % size,
            start / size,
            jx,
            jy,
            depth[j],
            (depth[i] - 1) as nat,
        );
        assert(passage_open(cells, i % size, i / size, d, size));
    } else {
        assert(i % size == start % size && i / size == start / size);
    }
}

/// Stepping from the top room keeps the spanning tree: the new room's parent
/// is the room it was reached from, one further from the start.
proof fn lemma_step_tree(
    visited: Seq<bool>,
    cells: Seq<MazeCellState>,
    stack: Seq<GridPos>,
    depth: Map<int, nat>,
    parent: Map<int, int>,
    size: int,
    start: int,
    d: int,
)
    requires
        0 < size <= usize::MAX,
        stack.len() > 0,
        search_state(visited, cells, stack, size),
        tree_state(visited, cells, depth, parent, size, start),
        0 <= start < size * size,
        visited[start],
        0 <= d < 4,
        step_is_open(stack.last(), d, size, visited),
    ensures
        ({
            let current = stack.last();
            let (room, wall) = step_target(current, d);
            let ci = index_of(current.x as int, current.y as int, size);
            let ri = index_of(room.x as int, room.y as int, size);
            let wi = index_of(wall.x as int, wall.y as int, size);
            tree_state(
                visited.update(ri, true),
                cells.update(ri, MazeCellState::Path).update(wi, MazeCellState::Path),
                depth.insert(ri, depth[ci] + 1),
                parent.insert(ri, (d + 2) % 4),
                size,
                start,
            )
        }),
{
    let current = stack.last();
    let (room, wall) = step_target(current, d);
    assert(stack[stack.len() - 1] == current);
    let cx = current.x as int;
    let cy = current.y as int;
    let nx = cx + 2 * step_dx(d);
    let ny = cy + 2 * step_dy(d);
    let wx = cx + step_dx(d);
    let wy = cy + step_dy(d);
    assert(is_room(cx, cy, size));
    assert(is_room(nx, ny, size));
    lemma_index_bound(cx, cy, size);
    lemma_index_roundtrip(cx, cy, size);
    lemma_index_bound(nx, ny, size);
    lemma_index_roundtrip(nx, ny, size);
    lemma_index_bound(wx, wy, size);
    lemma_index_roundtrip(wx, wy, size);
    let ci = index_of(cx, cy, size);
    let ri = index_of(nx, ny, size);
    let wi = index_of(wx, wy, size);
    assert(room.x == nx && room.y == ny && wall.x == wx && wall.y == wy);
    let v2 = visited.update(ri, true);
    let c2 = cells.update(ri, MazeCellState::Path).update(wi, MazeCellState::Path);
    let dep2 = depth.insert(ri, depth[ci] + 1);
    let par2 = parent.insert(ri, (d + 2) % 4);
    assert(!visited[ri]);
    assert(visited[ci]);
    assert(ri != start);
    assert forall|i: int| 0 <= i < size * size && #[trigger] v2[i] implies dep2.contains_key(i)
        && (i != start ==> {
        let e = par2[i];
        let j = index_of(i % size + 2 * step_dx(e), i / size + 2 * step_dy(e), size);
        &&& par2.contains_key(i)
        &&& 0 <= e < 4
        &&& passage_open(c2, i % size, i / size, e, size)
        &&& v2[j]
        &&& dep2.contains_key(j)
        &&& dep2[j] < dep2[i]
    }) by {
        if i == ri {
            let e = (d + 2) % 4;
            assert(step_dx(e) == -step_dx(d) && step_dy(e) == -step_dy(d));
            assert(index_of(nx + step_dx(e), ny + step_dy(e), size) == wi);
            assert(index_of(nx + 2 * step_dx(e), ny + 2 * step_dy(e), size) == ci);
            assert(i % size == nx && i / size == ny);
            assert(room_in_range(nx, ny, e, size));
            assert(c2[wi] == MazeCellState::Path);
            assert(passage_open(c2, nx, ny, e, size));
            assert(ci != ri);
            assert(v2[ci]);
            assert(dep2[ci] == depth[ci]);
            assert(dep2[ri] == depth[ci] + 1);
        } else {
            assert(visited[i]);
            if i != start {
                let e = parent[i];
                let j = index_of(i % size + 2 * step_dx(e), i / size + 2 * step_dy(e), size);
                lemma_index_in_grid(i, size);
                assert(room_in_range(i % size, i / size, e, size));
                lemma_index_bound(i % size + step_dx(e), i / size + step_dy(e), size);
                assert(passage_open(cells, i % size, i / size, e, size));
                lemma_index_bound(i % size + 2 * step_dx(e), i / size + 2 * step_dy(e), size);
                assert(visited[j]);
                assert(j != ri);
                assert(par2[i] == e);
                assert(v2[j]);
                assert(dep2[j] == depth[j]);
                assert(dep2[i] == depth[i]);
                assert(passage_open(c2, i % size, i / size, e, size));
            }
        }
    }
}

/// The depth-first search run on from a state, taking its random choices from
/// `draws` starting at `idx`: with an empty stack the search is over; when the
/// top room has no open step the search backs up; otherwise the next draw
/// `(bound, r)` must be drawn below the number of open steps, and the search
/// goes to the `r`-th open step: it marks that room visited, opens it and the
/// wall before it, and pushes it. `None` when the draws run out or do not fit.
pub open spec fn search_run(
    size: int,
    visited: Seq<bool>,
    cells: Seq<MazeCellState>,
    stack: Seq<GridPos>,
    draws: Seq<(int, int)>,
    idx: int,
) -> Option<Seq<MazeCellState>>
    decreases draws.len() - idx, stack.len(),
{
    if idx < 0 || idx > draws.len() {
        None
    } else if stack.len() == 0 {
        Some(cells)
    } else {
        let steps = open_steps(stack.last(), size, visited, 4);
        if steps.len() == 0 {
            search_run(size, visited, cells, stack.drop_last(), draws, idx)
        } else if idx < draws.len() && draws[idx].0 == steps.len() && 0 <= draws[idx].1
            < steps.len() {
            let (room, wall) = steps[draws[idx].1];
            let ri = index_of(room.x as int, room.y as int, size);
            let wi = index_of(wall.x as int, wall.y as int, size);
            search_run(
                size,
                visited.update(ri, true),
                cells.update(ri, MazeCellState::Path).update(wi, MazeCellState::Path),
                stack.push(room),
                draws,
                idx + 1,
            )
        } else {
            None
        }
    }
}

/// The start room chosen by the first two draws: column and row
/// `2 * r + 1` for the two indices drawn below the number of rooms per row.
pub open spec fn start_room(draws: Seq<(int, int)>) -> GridPos {
    GridPos { x: (2 * draws[0].1 + 1) as usize, y: (2 * draws[1].1 + 1) as usize }
}

/// The first two draws pick a start room: both were drawn below the number of
/// rooms per row, `(size - 1) / 2`.
pub open spec fn start_drawn(size: int, draws: Seq<(int, int)>) -> bool {
    &&& draws.len() >= 2
    &&& draws[0].0 == (size - 1) / 2
    &&& draws[1].0 == (size - 1) / 2
    &&& 0 <= draws[0].1 < draws[0].0
    &&& 0 <= draws[1].1 < draws[1].0
}

/// The maze that the search builds from the draws: it starts with only the
/// start room visited and open and on the stack, and runs on with the draws
/// after the first two.
pub open spec fn maze_replay(size: int, draws: Seq<(int, int)>) -> Option<Seq<MazeCellState>> {
    if start_drawn(size, draws) {
        let start = start_room(draws);
        let si = index_of(start.x as int, start.y as int, size);
        search_run(
            size,
            Seq::new((size * size) as nat, |i: int| i == si),
            Seq::new(
                (size * size) as nat,
                |i: int|
                    if i == si {
                        MazeCellState::Path
                    } else {
                        MazeCellState::Wall
                    },
            ),
            seq![start],
            draws,
            2,
        )
    } else {
        None
    }
}

/// The search so far agrees with the draws made so far: however the draws go
/// on, replaying them all gives what the search gives from here on.
pub open spec fn replay_agrees(
    size: int,
    log: Seq<(int, int)>,
    visited: Seq<bool>,
    cells: Seq<MazeCellState>,
    stack: Seq<GridPos>,
) -> bool {
    forall|full: Seq<(int, int)>|
        full.len() >= log.len() && #[trigger] full.take(log.len() as int) == log ==> maze_replay(
            size,
            full,
        ) == search_run(size, visited, cells, stack, full, log.len() as int)
}

/// Backing up keeps the search in agreement with its draws.
proof fn lemma_replay_back_up(
    size: int,
    log: Seq<(int, int)>,
    visited: Seq<bool>,
    cells: Seq<MazeCellState>,
    stack: Seq<GridPos>,
)
    requires
        replay_agrees(size, log, visited, cells, stack),
        stack.len() > 0,
        open_steps(stack.last(), size, visited, 4).len() == 0,
    ensures
        replay_agrees(size, log, visited, cells, stack.drop_last()),
{
    assert forall|full: Seq<(int, int)>|
        full.len() >= log.len() && #[trigger] full.take(log.len() as int) == log implies maze_replay(
        size,
        full,
    ) == search_run(size, visited, cells, stack.drop_last(), full, log.len() as int) by {
        assert(maze_replay(size, full) == search_run(
            size,
            visited,
            cells,
            stack,
            full,
            log.len() as int,
        ));
    }
}

/// Stepping to the open step that the new draw picks keeps the search in
/// agreement with its draws.
proof fn lemma_replay_step(
    size: int,
    log: Seq<(int, int)>,
    visited: Seq<bool>,
    cells: Seq<MazeCellState>,
    stack: Seq<GridPos>,
    count: int,
    pick: int,
)
    requires
        replay_agrees(size, log, visited, cells, stack),
        stack.len() > 0,
        count == open_steps(stack.last(), size, visited, 4).len(),
        0 <= pick < count,
    ensures
        ({
            let (room, wall) = open_steps(stack.last(), size, visited, 4)[pick];
            let ri = index_of(room.x as int, room.y as int, size);
            let wi = index_of(wall.x as int, wall.y as int, size);
            replay_agrees(
                size,
                log.push((count, pick)),
                visited.update(ri, true),
                cells.update(ri, MazeCellState::Path).update(wi, MazeCellState::Path),
                stack.push(room),
            )
        }),
{
    let log2 = log.push((count, pick));
    assert forall|full: Seq<(int, int)>|
        full.len() >= log2.len() && #[trigger] full.take(log2.len() as int) == log2 implies ({
        let (room, wall) = open_steps(stack.last(), size, visited, 4)[pick];
        let ri = index_of(room.x as int, room.y as int, size);
        let wi = index_of(wall.x as int, wall.y as int, size);
        maze_replay(size, full) == search_run(
            size,
            visited.update(ri, true),
            cells.update(ri, MazeCellState::Path).update(wi, MazeCellState::Path),
            stack.push(room),
            full,
            log2.len() as int,
        )
    }) by {
        assert(full.take(log.len() as int) =~= log) by {
            assert forall|i: int| 0 <= i < log.len() implies full.take(log.len() as int)[i]
                == log[i] by {
                assert(full.take(log2.len() as int)[i] == log2[i]);
            }
        }
        assert(full[log.len() as int] == full.take(log2.len() as int)[log.len() as int]);
        assert(full[log.len() as int] == (count, pick));
        assert(maze_replay(size, full) == search_run(
            size,
            visited,
            cells,
            stack,
            full,
            log.len() as int,
        ));
    }
}

/// With the stack empty, replaying the draws made gives the maze built.
proof fn lemma_replay_done(
    size: int,
    log: Seq<(int, int)>,
    visited: Seq<bool>,
    cells: Seq<MazeCellState>,
    stack: Seq<GridPos>,
)
    requires
        replay_agrees(size, log, visited, cells, stack),
        stack.len() == 0,
    ensures
        maze_replay(size, log) == Some(cells),
{
    assert(log.take(log.len() as int) =~= log);
    assert(maze_replay(size, log) == search_run(size, visited, cells, stack, log, log.len() as int));
}

/// The search starts in agreement with its two start draws.
proof fn lemma_replay_start(size: int, log: Seq<(int, int)>, visited: Seq<bool>, cells: Seq<MazeCellState>)
    requires
        start_drawn(size, log),
        log.len() == 2,
        visited == Seq::new(
            (size * size) as nat,
            |i: int|
                i == index_of(start_room(log).x as int, start_room(log).y as int, size),
        ),
        cells == Seq::new(
            (size * size) as nat,
            |i: int|
                if i == index_of(start_room(log).x as int, start_room(log).y as int, size) {
                    MazeCellState::Path
                } else {
                    MazeCellState::Wall
                },
        ),
    ensures
        replay_agrees(size, log, visited, cells, seq![start_room(log)]),
{
    assert forall|full: Seq<(int, int)>|
        full.len() >= log.len() && #[trigger] full.take(log.len() as int) == log implies maze_replay(
        size,
        full,
    ) == search_run(size, visited, cells, seq![start_room(log)], full, log.len() as int) by {
        assert(full[0] == full.take(2)[0]);
        assert(full[1] == full.take(2)[1]);
        assert(start_room(full) == start_room(log));
    }
}

/// The open steps around a room lead to different rooms.
pub proof fn lemma_open_steps_distinct(pos: GridPos, size: int, visited: Seq<bool>, count: nat)
    requires
        count <= 4,
        size <= usize::MAX,
    ensures
        forall|i: int, j: int|
            0 <= i < j < open_steps(pos, size, visited, count).len() ==> (#[trigger] open_steps(
                pos,
                size,
                visited,
                count,
            )[i]).0 != (#[trigger] open_steps(pos, size, visited, count)[j]).0,
    decreases count,
{
    if count > 0 {
        let prev = open_steps(pos, size, visited, (count - 1) as nat);
        let cur = open_steps(pos, size, visited, count);
        lemma_open_steps_distinct(pos, size, visited, (count - 1) as nat);
        lemma_open_steps(pos, size, visited, (count - 1) as nat);
        if step_is_open(pos, count - 1, size, visited) {
            assert forall|i: int, j: int| 0 <= i < j < cur.len() implies (#[trigger] cur[i]).0 != (
            #[trigger] cur[j]).0 by {
                assert(cur[i] == prev[i]);
                if j < prev.len() {
                    assert(cur[j] == prev[j]);
                } else {
                    assert(is_open_step(pos, size, visited, count - 1, prev[i]));
                    let d = choose|d: int|
                        0 <= d < count - 1 && step_is_open(pos, d, size, visited) && prev[i]
                            == #[trigger] step_target(pos, d);
                    assert(cur[j] == step_target(pos, count - 1));
                    let e = count - 1;
                    assert(step_is_open(pos, e, size, visited));
                    assert(step_dx(d) != step_dx(e) || step_dy(d) != step_dy(e));
                    assert(step_target(pos, d).0 != step_target(pos, e).0);
                }
            }
        }
    }
}

/// How the search follows the generator's draws.
///
/// The first two draws `r1`, `r2` (each drawn below the number of rooms per
/// row) fix the start room `(2 * r1 + 1, 2 * r2 + 1)`, which alone is visited
/// and open at first; with any other first draws there is no maze. Then, while
/// the stack is not empty: when the top room has no open step the search backs
/// up without drawing; otherwise the next draw `(bound, r)` must have been made
/// below the number of open steps, and the search goes to the `r`-th of the
/// open steps (in the order up, right, down, left), marking that room visited,
/// opening it and the wall before it and pushing it; a missing or unfitting
/// draw gives no maze. Different draws at a step lead to different rooms. With
/// the stack empty the maze is what has been opened.
pub proof fn lemma_search_follows_draws(
    size: int,
    visited: Seq<bool>,
    cells: Seq<MazeCellState>,
    stack: Seq<GridPos>,
    draws: Seq<(int, int)>,
    idx: int,
)
    requires
        0 <= size <= usize::MAX,
        0 <= idx <= draws.len(),
    ensures
        draws.len() >= 2 && draws[0].0 == (size - 1) / 2 && draws[1].0 == (size - 1) / 2 && 0
            <= draws[0].1 < draws[0].0 && 0 <= draws[1].1 < draws[1].0 ==> maze_replay(
            size,
            draws,
        ) == search_run(
            size,
            Seq::new(
                (size * size) as nat,
                |i: int| i == (2 * draws[0].1 + 1) + (2 * draws[1].1 + 1) * size,
            ),
            Seq::new(
                (size * size) as nat,
                |i: int|
                    if i == (2 * draws[0].1 + 1) + (2 * draws[1].1 + 1) * size {
                        MazeCellState::Path
                    } else {
                        MazeCellState::Wall
                    },
            ),
            seq![
                GridPos {
                    x: (2 * draws[0].1 + 1) as usize,
                    y: (2 * draws[1].1 + 1) as usize,
                },
            ],
            draws,
            2,
        ),
        !(draws.len() >= 2 && draws[0].0 == (size - 1) / 2 && draws[1].0 == (size - 1) / 2 && 0
            <= draws[0].1 < draws[0].0 && 0 <= draws[1].1 < draws[1].0) ==> maze_replay(
            size,
            draws,
        ) is None,
        stack.len() == 0 ==> search_run(size, visited, cells, stack, draws, idx) == Some(cells),
        stack.len() > 0 && open_steps(stack.last(), size, visited, 4).len() == 0 ==> search_run(
            size,
            visited,
            cells,
            stack,
            draws,
            idx,
        ) == search_run(size, visited, cells, stack.drop_last(), draws, idx),
        stack.len() > 0 && open_steps(stack.last(), size, visited, 4).len() > 0 && idx
            < draws.len() && draws[idx].0 == open_steps(stack.last(), size, visited, 4).len() && 0
            <= draws[idx].1 < draws[idx].0 ==> ({
            let room = open_steps(stack.last(), size, visited, 4)[draws[idx].1].0;
            let wall = open_steps(stack.last(), size, visited, 4)[draws[idx].1].1;
            search_run(size, visited, cells, stack, draws, idx) == search_run(
                size,
                visited.update(room.x + room.y * size, true),
                cells.update(room.x + room.y * size, MazeCellState::Path).update(
                    wall.x + wall.y * size,
                    MazeCellState::Path,
                ),
                stack.push(room),
                draws,
                idx + 1,
            )
        }),
        stack.len() > 0 && open_steps(stack.last(), size, visited, 4).len() > 0 && !(idx
            < draws.len() && draws[idx].0 == open_steps(stack.last(), size, visited, 4).len() && 0
            <= draws[idx].1 < draws[idx].0) ==> search_run(
            size,
            visited,
            cells,
            stack,
            draws,
            idx,
        ) is None,
        forall|r1: int, r2: int|
            0 <= r1 < r2 < open_steps(stack.last(), size, visited, 4).len() ==> (
            #[trigger] open_steps(stack.last(), size, visited, 4)[r1]).0 != (#[trigger] open_steps(
                stack.last(),
                size,
                visited,
                4,
            )[r2]).0,
{
    lemma_open_steps_distinct(stack.last(), size, visited, 4);
    if start_drawn(size, draws) {
        let start = start_room(draws);
        assert(index_of(start.x as int, start.y as int, size) == (2 * draws[0].1 + 1) + (2
            * draws[1].1 + 1) * size);
    }
}

/// Generates a `maze_size` by `maze_size` maze from `seed`.
///
/// Every room of the grid ends up open, and every open cell is a room or a
/// passage between two rooms; in particular the top and left border rows and
/// every cell with two even coordinates stay walls. The open passages join
/// every room to the start room, so any room can be walked to from any other.
pub fn generate_maze_from_dimensions(maze_size: usize, seed: u64) -> (maze: MazeMatrix)
    requires
        3 <= maze_size <= i32::MAX,
        maze_size * maze_size <= usize::MAX,
    ensures
        maze.wf(),
        maze.size() == maze_size,
        forall|x: int, y: int|
            #![trigger maze.cell(x, y)]
            0 <= x < maze_size && 0 <= y < maze_size && is_room(x, y, maze_size as int)
                ==> maze.cell(x, y) == MazeCellState::Path,
        forall|x: int, y: int|
            #![trigger maze.cell(x, y)]
            0 <= x < maze_size && 0 <= y < maze_size && maze.cell(x, y) == MazeCellState::Path
                ==> is_room(x, y, maze_size as int) || is_passage(x, y, maze_size as int),
        open_count(maze.cells()) + 1 == 2 * room_total(maze_size as int),
        maze_replay(maze_size as int, maze.draws()) == Some(maze.cells()),
        exists|sx: int, sy: int|
            is_room(sx, sy, maze_size as int) && #[trigger] all_rooms_joined_to(
                maze.cells(),
                maze_size as int,
                sx,
                sy,
            ),
{
    let ghost sz = maze_size as int;
    let mut maze_matrix = MazeMatrix::new(maze_size, seed);
    let mut visited = vec![false; maze_size * maze_size];
    assert(forall|i: int| 0 <= i < visited@.len() ==> !visited@[i]);

    let room_count = (maze_size - 1) / 2;
    let start_col = maze_matrix.random_index(room_count);
    let start_row = maze_matrix.random_index(room_count);
    let sx = start_col * 2 + 1;
    let sy = start_row * 2 + 1;
    let start = GridPos::new(sx, sy);
    assert(is_room(sx as int, sy as int, sz));

    let mut stack: Vec<GridPos> = Vec::new();

    proof {
        lemma_index_bound(sx as int, sy as int, sz);
        lemma_index_roundtrip(sx as int, sy as int, sz);
    }
    let start_index = maze_matrix.us_get_cell_index(start);
    proof {
        lemma_count_true_none(visited@);
        lemma_open_count_none(maze_matrix.cells());
        lemma_count_true_mark(visited@, start_index as int);
        lemma_open_count_open(maze_matrix.cells(), start_index as int);
    }
    visited.set(start_index, true);
    maze_matrix.set_cell_at_index(start_index, MazeCellState::Path);
    stack.push(start);

    proof {
        assert forall|i: int| 0 <= i < sz * sz && #[trigger] visited@[i] implies is_room(
            i % sz,
            i / sz,
            sz,
        ) && maze_matrix.cells()[i] == MazeCellState::Path && (stack@.contains(
            GridPos { x: (i % sz) as usize, y: (i / sz) as usize },
        ) || room_closed(visited@, i % sz, i / sz, sz)) by {
            assert(i == start_index);
            assert(stack@[0] == start);
        }
        assert forall|i: int|
            0 <= i < sz * sz && #[trigger] maze_matrix.cells()[i]
                == MazeCellState::Path implies visited@[i] || passage_of_visited(
            visited@,
            i % sz,
            i / sz,
            sz,
        ) by {
            if i != start_index {
                assert(maze_matrix.cells()[i] == MazeCellState::Wall);
            }
        }
        assert(search_state(visited@, maze_matrix.cells(), stack@, sz));
    }
    proof {
        let log = maze_matrix.draws();
        assert(log =~= seq![(room_count as int, start_col as int), (room_count as int, start_row as int)]);
        assert(start_room(log) == start);
        assert(visited@ =~= Seq::new(
            (sz * sz) as nat,
            |i: int| i == index_of(start_room(log).x as int, start_room(log).y as int, sz),
        ));
        assert(maze_matrix.cells() =~= Seq::new(
            (sz * sz) as nat,
            |i: int|
                if i == index_of(start_room(log).x as int, start_room(log).y as int, sz) {
                    MazeCellState::Path
                } else {
                    MazeCellState::Wall
                },
        ));
        assert(stack@ =~= seq![start_room(log)]);
        lemma_replay_start(sz, log, visited@, maze_matrix.cells());
    }
    let ghost mut depth: Map<int, nat> = map![start_index as int => 0nat];
    let ghost mut parent: Map<int, int> = Map::empty();
    assert(tree_state(visited@, maze_matrix.cells(), depth, parent, sz, start_index as int));

    while stack.len() > 0
        invariant
            3 <= maze_size <= i32::MAX,
            maze_size * maze_size <= usize::MAX,
            sz == maze_size,
            maze_matrix.wf(),
            maze_matrix.size() == sz,
            search_state(visited@, maze_matrix.cells(), stack@, sz),
            is_room(sx as int, sy as int, sz),
            visited@[index_of(sx as int, sy as int, sz)],
            0 <= index_of(sx as int, sy as int, sz) < sz * sz,
            start_index == index_of(sx as int, sy as int, sz),
            tree_state(visited@, maze_matrix.cells(), depth, parent, sz, start_index as int),
            open_count(maze_matrix.cells()) + 1 == 2 * count_true(visited@),
            replay_agrees(sz, maze_matrix.draws(), visited@, maze_matrix.cells(), stack@),
        decreases 2 * count_unvisited(visited@) + stack@.len(),
    {
        let current = stack[stack.len() - 1];
        assert(is_room(current.x as int, current.y as int, sz));
        let neighbors = get_rooms_over_offsets(current, maze_size, visited.as_slice());
        proof {
            lemma_open_steps(current, sz, visited@, 4);
        }
        let count = steps_len(&neighbors);
        if count == 0 {
            proof {
                lemma_back_up(visited@, maze_matrix.cells(), stack@, sz);
                lemma_replay_back_up(sz, maze_matrix.draws(), visited@, maze_matrix.cells(), stack@);
            }
            stack.pop();
        } else {
            let ghost log = maze_matrix.draws();
            let pick = maze_matrix.random_index(count);
            let (next_room, wall_between) = steps_get(&neighbors, pick);
            proof {
                lemma_replay_step(
                    sz,
                    log,
                    visited@,
                    maze_matrix.cells(),
                    stack@,
                    count as int,
                    pick as int,
                );
            }
            let ghost d = choose|d: int|
                0 <= d < 4 && step_is_open(current, d, sz, visited@) && (next_room, wall_between)
                    == #[trigger] step_target(current, d);
            proof {
                lemma_step(visited@, maze_matrix.cells(), stack@, sz, d);
                lemma_step_tree(
                    visited@,
                    maze_matrix.cells(),
                    stack@,
                    depth,
                    parent,
                    sz,
                    start_index as int,
                    d,
                );
                lemma_count_mark(visited@, index_of(next_room.x as int, next_room.y as int, sz));
                let ri0 = index_of(next_room.x as int, next_room.y as int, sz);
                let wi0 = index_of(wall_between.x as int, wall_between.y as int, sz);
                lemma_count_true_mark(visited@, ri0);
                lemma_open_count_open(maze_matrix.cells(), ri0);
                lemma_open_count_open(maze_matrix.cells().update(ri0, MazeCellState::Path), wi0);
                let ci = index_of(current.x as int, current.y as int, sz);
                let ri = index_of(next_room.x as int, next_room.y as int, sz);
                depth = depth.insert(ri, depth[ci] + 1);
                parent = parent.insert(ri, (d + 2) % 4);
            }
            let room_index = maze_matrix.us_get_cell_index(next_room);
            let wall_index = maze_matrix.us_get_cell_index(wall_between);
            visited.set(room_index, true);
            maze_matrix.set_cell_at_index(room_index, MazeCellState::Path);
            maze_matrix.set_cell_at_index(wall_index, MazeCellState::Path);
            stack.push(next_room);
        }
    }

    proof {
        assert forall|i: int|
            0 <= i < sz * sz && #[trigger] visited@[i] implies room_closed(
            visited@,
            i % sz,
            i / sz,
            sz,
        ) by {
            assert(!stack@.contains(GridPos { x: (i % sz) as usize, y: (i / sz) as usize }));
        }
        assert forall|x: int, y: int|
            0 <= x < maze_size && 0 <= y < maze_size && is_room(x, y, sz) implies #[trigger] maze_matrix.cell(
            x,
            y,
        ) == MazeCellState::Path by {
            lemma_reach(visited@, sz, sx as int, sy as int, x, y);
            lemma_index_bound(x, y, sz);
        }
        assert forall|x: int, y: int|
            0 <= x < maze_size && 0 <= y < maze_size && #[trigger] maze_matrix.cell(x, y)
                == MazeCellState::Path implies is_room(x, y, sz) || is_passage(x, y, sz) by {
            lemma_index_bound(x, y, sz);
            lemma_index_roundtrip(x, y, sz);
        }
        lemma_index_roundtrip(sx as int, sy as int, sz);
        assert forall|x: int, y: int|
            0 <= x < sz && 0 <= y < sz && is_room(x, y, sz) implies exists|len: nat|
                #[trigger] joined(maze_matrix.cells(), sz, sx as int, sy as int, x, y, len) by {
            lemma_reach(visited@, sz, sx as int, sy as int, x, y);
            lemma_index_bound(x, y, sz);
            lemma_index_roundtrip(x, y, sz);
            let i = index_of(x, y, sz);
            lemma_tree_joined(
                visited@,
                maze_matrix.cells(),
                depth,
                parent,
                sz,
                start_index as int,
                i,
            );
            assert(joined(maze_matrix.cells(), sz, sx as int, sy as int, x, y, depth[i]));
        }
        assert(all_rooms_joined_to(maze_matrix.cells(), sz, sx as int, sy as int));
        assert forall|i: int| 0 <= i < sz * sz implies visited@[i] == room_flags(sz)[i] by {
            lemma_index_in_grid(i, sz);
            if is_room(i % sz, i / sz, sz) {
                lemma_reach(visited@, sz, sx as int, sy as int, i % sz, i / sz);
            }
        }
        assert(visited@ =~= room_flags(sz));
        lemma_replay_done(sz, maze_matrix.draws(), visited@, maze_matrix.cells(), stack@);
    }
    maze_matrix
}

} // verus!
