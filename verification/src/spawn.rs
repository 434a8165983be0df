//! Choosing where the player and the target appear in a generated maze.

use crate::generator::is_room;
use crate::maze::{GridPos, MazeCellState, MazeMatrix, index_of, lemma_index_bound};
use vstd::prelude::*;

verus! {

/// The offsets tried around a spawn point: the 3 by 3 block, column by column,
/// then the centre once more.
pub open spec fn spawn_offsets() -> Seq<(i32, i32)> {
    seq![
        (-1i32, -1i32),
        (-1i32, 0i32),
        (-1i32, 1i32),
        (0i32, -1i32),
        (0i32, 0i32),
        (0i32, 1i32),
        (1i32, -1i32),
        (1i32, 0i32),
        (1i32, 1i32),
        (0i32, 0i32),
    ]
}

/// The ten spawn offsets: every `(x, y)` with `x` and `y` in `-1 ..= 1`, `x`
/// outermost, followed by a trailing `(0, 0)`.
pub fn calc_offsets() -> (offsets: Vec<(i32, i32)>)
    ensures
        offsets@ == spawn_offsets(),
{
    let mut offsets: Vec<(i32, i32)> = Vec::new();
    let mut x: i32 = -1;
    while x <= 1
        invariant
            -1 <= x <= 2,
            offsets@ == spawn_offsets().take(3 * (x + 1)),
        decreases 2 - x,
    {
        let mut y: i32 = -1;
        while y <= 1
            invariant
                -1 <= x <= 1,
                -1 <= y <= 2,
                offsets@ == spawn_offsets().take(3 * (x + 1) + (y + 1)),
            decreases 2 - y,
        {
            offsets.push((x, y));
            assert(spawn_offsets()[3 * (x + 1) + (y + 1)] == (x, y));
            assert(offsets@ =~= spawn_offsets().take(3 * (x + 1) + (y + 1) + 1));
            y = y + 1;
        }
        x = x + 1;
    }
    offsets.push((0, 0));
    assert(offsets@ =~= spawn_offsets());
    offsets
}

/// The cell reached from `coord` by `offset`.
pub open spec fn offset_cell(coord: GridPos, offset: (i32, i32)) -> (int, int) {
    (coord.x + offset.0, coord.y + offset.1)
}

/// Every offset of `offsets` leads from `coord` to a cell of the maze.
pub open spec fn offsets_in_maze(maze: MazeMatrix, coord: GridPos, offsets: Seq<(i32, i32)>) -> bool {
    forall|k: int|
        0 <= k < offsets.len() ==> {
            let (cx, cy) = offset_cell(coord, #[trigger] offsets[k]);
            &&& 0 <= cx
            &&& 0 <= cy
            &&& index_of(cx, cy, maze.size()) < maze.cells().len()
        }
}

/// Some offset of `offsets` leads from `coord` to an open cell.
pub open spec fn some_offset_open(maze: MazeMatrix, coord: GridPos, offsets: Seq<(i32, i32)>) -> bool {
    exists|k: int|
        0 <= k < offsets.len() && {
            let (cx, cy) = offset_cell(coord, #[trigger] offsets[k]);
            maze.cell(cx, cy) == MazeCellState::Path
        }
}

/// A spawn can be placed around `coord`: the whole 3 by 3 block around it lies
/// in the maze and one of its cells is open.
pub open spec fn spawn_area_ok(maze: MazeMatrix, coord: GridPos) -> bool {
    &&& coord.x + 1 <= i32::MAX
    &&& coord.y + 1 <= i32::MAX
    &&& offsets_in_maze(maze, coord, spawn_offsets())
    &&& some_offset_open(maze, coord, spawn_offsets())
}

/// The first cell, in the order of `offsets`, that is open among those reached
/// from `coord`.
pub fn first_open_cell(maze: &MazeMatrix, coord: GridPos, offsets: &Vec<(i32, i32)>) -> (p: GridPos)
    requires
        coord.x + 1 <= i32::MAX,
        coord.y + 1 <= i32::MAX,
        forall|k: int|
            0 <= k < offsets@.len() ==> -1 <= (#[trigger] offsets@[k]).0 <= 1 && -1
                <= offsets@[k].1 <= 1,
        offsets_in_maze(*maze, coord, offsets@),
        some_offset_open(*maze, coord, offsets@),
    ensures
        exists|k: int|
            0 <= k < offsets@.len() && (p.x as int, p.y as int) == offset_cell(coord, #[trigger] offsets@[k])
                && maze.cell(p.x as int, p.y as int) == MazeCellState::Path && forall|j: int|
                0 <= j < k ==> maze.cell(
                    offset_cell(coord, #[trigger] offsets@[j]).0,
                    offset_cell(coord, offsets@[j]).1,
                ) != MazeCellState::Path,
{
    let cx = coord.x as i32;
    let cy = coord.y as i32;
    let mut k: usize = 0;
    while k < offsets.len()
        invariant
            0 <= k <= offsets@.len(),
            cx == coord.x,
            cy == coord.y,
            coord.x + 1 <= i32::MAX,
            coord.y + 1 <= i32::MAX,
            forall|i: int|
                0 <= i < offsets@.len() ==> -1 <= (#[trigger] offsets@[i]).0 <= 1 && -1
                    <= offsets@[i].1 <= 1,
            offsets_in_maze(*maze, coord, offsets@),
            some_offset_open(*maze, coord, offsets@),
            forall|j: int|
                0 <= j < k ==> maze.cell(
                    offset_cell(coord, #[trigger] offsets@[j]).0,
                    offset_cell(coord, offsets@[j]).1,
                ) != MazeCellState::Path,
        decreases offsets@.len() - k,
    {
        let (dx, dy) = offsets[k];
        assert(offsets@[k as int] == (dx, dy));
        let cell_pos = GridPos { x: (cx + dx) as usize, y: (cy + dy) as usize };
        if maze.us_get_cell(cell_pos).is_path() {
            return cell_pos;
        }
        k = k + 1;
    }
    proof {
        let w = choose|w: int|
            0 <= w < offsets@.len() && {
                let (ox, oy) = offset_cell(coord, #[trigger] offsets@[w]);
                maze.cell(ox, oy) == MazeCellState::Path
            };
        assert(maze.cell(
            offset_cell(coord, offsets@[w]).0,
            offset_cell(coord, offsets@[w]).1,
        ) != MazeCellState::Path);
    }
    GridPos { x: 0, y: 0 }
}

/// Shuffles the spawn offsets with the maze's generator and returns the first
/// open cell around `coord` in the shuffled order: an open cell of the 3 by 3
/// block around `coord`.
pub fn find_valid_spawn_spot(maze_matrix: &mut MazeMatrix, coord: GridPos) -> (p: GridPos)
    requires
        spawn_area_ok(*old(maze_matrix), coord),
    ensures
        final(maze_matrix).cells() == old(maze_matrix).cells(),
        final(maze_matrix).size() == old(maze_matrix).size(),
        coord.x - 1 <= p.x <= coord.x + 1,
        coord.y - 1 <= p.y <= coord.y + 1,
        final(maze_matrix).cell(p.x as int, p.y as int) == MazeCellState::Path,
{
    let mut offsets = calc_offsets();
    maze_matrix.shuffle(&mut offsets);
    proof {
        broadcast use vstd::seq_lib::group_to_multiset_ensures;

        let orig = spawn_offsets();
        assert forall|k: int| 0 <= k < offsets@.len() implies orig.contains(
            #[trigger] offsets@[k],
        ) by {
            assert(offsets@.contains(offsets@[k]));
            assert(offsets@.to_multiset().count(offsets@[k]) > 0);
        }
        assert forall|k: int|
            0 <= k < offsets@.len() implies -1 <= (#[trigger] offsets@[k]).0 <= 1 && -1
                <= offsets@[k].1 <= 1 && {
            let (cx, cy) = offset_cell(coord, offsets@[k]);
            &&& 0 <= cx
            &&& 0 <= cy
            &&& index_of(cx, cy, maze_matrix.size()) < maze_matrix.cells().len()
        } by {
            assert(orig.contains(offsets@[k]));
            let j = choose|j: int| 0 <= j < orig.len() && orig[j] == offsets@[k];
            assert(orig[j] == offsets@[k]);
        }
        let w = choose|w: int|
            0 <= w < orig.len() && {
                let (ox, oy) = offset_cell(coord, #[trigger] orig[w]);
                maze_matrix.cell(ox, oy) == MazeCellState::Path
            };
        assert(orig.contains(orig[w]));
        assert(orig.to_multiset().count(orig[w]) > 0);
        assert(offsets@.contains(orig[w]));
        let v = choose|v: int| 0 <= v < offsets@.len() && offsets@[v] == orig[w];
        assert(offsets@[v] == orig[w]);
    }
    let p = first_open_cell(maze_matrix, coord, &offsets);
    proof {
        let k = choose|k: int|
            0 <= k < offsets@.len() && (p.x as int, p.y as int) == offset_cell(coord, #[trigger] offsets@[k])
                && maze_matrix.cell(p.x as int, p.y as int) == MazeCellState::Path;
        let orig = spawn_offsets();
        assert(orig.contains(offsets@[k])) by {
            broadcast use vstd::seq_lib::group_to_multiset_ensures;

            assert(offsets@.contains(offsets@[k]));
            assert(offsets@.to_multiset().count(offsets@[k]) > 0);
        }
    }
    p
}

/// Where the player and the target start.
#[derive(Clone, Copy, Debug, PartialEq, Eq, Structural)]
pub struct SpawnPoints {
    pub player: GridPos,
    pub target: GridPos,
}

/// The centre coordinate of a maze `size` cells wide: half the size, rounded up.
pub open spec fn midpoint_coord(size: int) -> int {
    size / 2 + size % 2
}

/// The spawn search centre at `offset` cells right and down of the maze's midpoint.
pub open spec fn spawn_center(size: int, offset: GridPos) -> GridPos {
    GridPos {
        x: (midpoint_coord(size) + offset.x) as usize,
        y: (midpoint_coord(size) + offset.y) as usize,
    }
}

/// Both spawn search centres fit in `usize` and have room for a spawn.
pub open spec fn spawn_points_ok(maze: MazeMatrix, player_offset: GridPos, target_offset: GridPos) -> bool {
    &&& midpoint_coord(maze.size()) + player_offset.x <= usize::MAX
    &&& midpoint_coord(maze.size()) + player_offset.y <= usize::MAX
    &&& midpoint_coord(maze.size()) + target_offset.x <= usize::MAX
    &&& midpoint_coord(maze.size()) + target_offset.y <= usize::MAX
    &&& spawn_area_ok(maze, spawn_center(maze.size(), player_offset))
    &&& spawn_area_ok(maze, spawn_center(maze.size(), target_offset))
}

/// Places the player and then the target: each at an open cell next to (or
/// at) the maze's midpoint moved by its offset. The offsets are the random
/// displacements drawn for this maze.
pub fn find_points_in_maze(
    maze_matrix: &mut MazeMatrix,
    player_offset: GridPos,
    target_offset: GridPos,
) -> (points: SpawnPoints)
    requires
        spawn_points_ok(*old(maze_matrix), player_offset, target_offset),
    ensures
        final(maze_matrix).cells() == old(maze_matrix).cells(),
        final(maze_matrix).size() == old(maze_matrix).size(),
        ({
            let pc = spawn_center(old(maze_matrix).size(), player_offset);
            let tc = spawn_center(old(maze_matrix).size(), target_offset);
            &&& pc.x - 1 <= points.player.x <= pc.x + 1
            &&& pc.y - 1 <= points.player.y <= pc.y + 1
            &&& tc.x - 1 <= points.target.x <= tc.x + 1
            &&& tc.y - 1 <= points.target.y <= tc.y + 1
        }),
        final(maze_matrix).cell(points.player.x as int, points.player.y as int)
            == MazeCellState::Path,
        final(maze_matrix).cell(points.target.x as int, points.target.y as int)
            == MazeCellState::Path,
{
    let size = maze_matrix.maze_size();
    let midpoint = size / 2 + size % 2;
    let player_loc = GridPos { x: midpoint + player_offset.x, y: midpoint + player_offset.y };
    let target_loc = GridPos { x: midpoint + target_offset.x, y: midpoint + target_offset.y };
    let player = find_valid_spawn_spot(maze_matrix, player_loc);
    let target = find_valid_spawn_spot(maze_matrix, target_loc);
    SpawnPoints { player, target }
}

/// Decides `spawn_area_ok`: whether a spawn can be placed around `coord`.
pub fn spawn_area_valid(maze_matrix: &MazeMatrix, coord: GridPos) -> (ok: bool)
    ensures
        ok == spawn_area_ok(*maze_matrix, coord),
{
    if coord.x >= i32::MAX as usize || coord.y >= i32::MAX as usize {
        return false;
    }
    let offsets = calc_offsets();
    let size = maze_matrix.maze_size();
    let cell_count = maze_matrix.matrix().len();
    let cx = coord.x as i64;
    let cy = coord.y as i64;
    let mut k: usize = 0;
    let mut open = false;
    while k < offsets.len()
        invariant
            0 <= k <= offsets@.len(),
            offsets@ == spawn_offsets(),
            cx == coord.x,
            cy == coord.y,
            coord.x < i32::MAX,
            coord.y < i32::MAX,
            size == maze_matrix.size(),
            cell_count == maze_matrix.cells().len(),
            forall|j: int|
                0 <= j < k ==> {
                    let (ox, oy) = offset_cell(coord, #[trigger] offsets@[j]);
                    &&& 0 <= ox
                    &&& 0 <= oy
                    &&& index_of(ox, oy, maze_matrix.size()) < maze_matrix.cells().len()
                },
            open == exists|j: int|
                0 <= j < k && {
                    let (ox, oy) = offset_cell(coord, #[trigger] offsets@[j]);
                    maze_matrix.cell(ox, oy) == MazeCellState::Path
                },
        decreases offsets@.len() - k,
    {
        let (dx, dy) = offsets[k];
        assert(offsets@[k as int] == (dx, dy));
        let ox = cx + dx as i64;
        let oy = cy + dy as i64;
        if ox < 0 || oy < 0 {
            return false;
        }
        let row = (oy as usize).checked_mul(size);
        let index = match row {
            Some(r) => r.checked_add(ox as usize),
            None => None,
        };
        let in_maze = match index {
            Some(i) => i < cell_count,
            None => false,
        };
        if !in_maze {
            return false;
        }
        let ghost before = open;
        if maze_matrix.get_cell(ox as usize, oy as usize).is_path() {
            open = true;
        }
        proof {
            if open {
                if !before {
                    assert(0 <= k < k + 1 && {
                        let (px, py) = offset_cell(coord, offsets@[k as int]);
                        maze_matrix.cell(px, py) == MazeCellState::Path
                    });
                } else {
                    let j = choose|j: int|
                        0 <= j < k && {
                            let (px, py) = offset_cell(coord, #[trigger] offsets@[j]);
                            maze_matrix.cell(px, py) == MazeCellState::Path
                        };
                    assert(0 <= j < k + 1);
                }
            }
        }
        k = k + 1;
    }
    open
}

/// In a maze whose rooms are all open (as `generate_maze_from_dimensions`
/// makes them), a spawn can be placed around every cell that is not on the
/// maze's outer ring.
pub proof fn lemma_spawn_area_in_open_maze(maze: MazeMatrix, coord: GridPos)
    requires
        maze.wf(),
        forall|x: int, y: int|
            #![trigger maze.cell(x, y)]
            0 <= x < maze.size() && 0 <= y < maze.size() && is_room(x, y, maze.size())
                ==> maze.cell(x, y) == MazeCellState::Path,
        1 <= coord.x,
        1 <= coord.y,
        coord.x + 1 < maze.size(),
        coord.y + 1 < maze.size(),
        coord.x + 1 <= i32::MAX,
        coord.y + 1 <= i32::MAX,
    ensures
        spawn_area_ok(maze, coord),
{
    let offs = spawn_offsets();
    let size = maze.size();
    assert forall|k: int| 0 <= k < offs.len() implies {
        let (cx, cy) = offset_cell(coord, #[trigger] offs[k]);
        &&& 0 <= cx
        &&& 0 <= cy
        &&& index_of(cx, cy, maze.size()) < maze.cells().len()
    } by {
        let (cx, cy) = offset_cell(coord, offs[k]);
        lemma_index_bound(cx, cy, size);
    }
    let ox: int = if (coord.x - 1) % 2 == 1 {
        coord.x - 1
    } else {
        coord.x as int
    };
    let oy: int = if (coord.y - 1) % 2 == 1 {
        coord.y - 1
    } else {
        coord.y as int
    };
    assert(is_room(ox, oy, size));
    let k = 3 * (ox - coord.x + 1) + (oy - coord.y + 1);
    assert(offs[k] == ((ox - coord.x) as i32, (oy - coord.y) as i32));
    assert(offset_cell(coord, offs[k]) == (ox, oy));
    assert(maze.cell(ox, oy) == MazeCellState::Path);
}

} // verus!
