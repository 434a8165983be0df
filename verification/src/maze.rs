//! The maze grid: cells stored row by row in a flat vector, plus the
//! generator's random number source.

use crate::rng::{random_below, seeded_rng, shuffle_offsets};
use rand::rngs::SmallRng;
use vstd::prelude::*;

verus! {

/// What a maze cell is: a wall or an open path.
#[derive(Clone, Copy, Debug, PartialEq, Eq, Structural)]
pub enum MazeCellState {
    Wall,
    Path,
}

/// Texture index of a path tile in the maze's tile set.
pub const PATH_INDEX: usize = 0;

/// Texture index of a wall tile in the maze's tile set.
pub const WALL_INDEX: usize = 1;

impl MazeCellState {
    pub fn is_wall(&self) -> (b: bool)
        ensures
            b == (*self == MazeCellState::Wall),
    {
        match self {
            MazeCellState::Wall => true,
            MazeCellState::Path => false,
        }
    }

    pub fn is_path(&self) -> (b: bool)
        ensures
            b == (*self == MazeCellState::Path),
    {
        !self.is_wall()
    }

    /// The tile texture that shows this cell.
    pub fn texture_index(&self) -> (i: usize)
        ensures
            i == (if *self == MazeCellState::Path { PATH_INDEX } else { WALL_INDEX }),
    {
        match self {
            MazeCellState::Path => PATH_INDEX,
            MazeCellState::Wall => WALL_INDEX,
        }
    }
}

/// A cell coordinate on the maze grid: column `x`, row `y`.
#[derive(Clone, Copy, Debug, PartialEq, Eq, Hash, Structural)]
pub struct GridPos {
    pub x: usize,
    pub y: usize,
}

impl GridPos {
    pub fn new(x: usize, y: usize) -> (p: GridPos)
        ensures
            p.x == x,
            p.y == y,
    {
        GridPos { x, y }
    }
}

/// Flat index of the cell at column `x`, row `y` of a grid `size` cells wide.
pub open spec fn index_of(x: int, y: int, size: int) -> int {
    x + y * size
}

/// Column and row of a flat index, and back, agree for every in-range cell.
pub proof fn lemma_index_roundtrip(x: int, y: int, size: int)
    requires
        0 <= x < size,
        0 <= y,
    ensures
        index_of(x, y, size) % size == x,
        index_of(x, y, size) / size == y,
{
    vstd::arithmetic::div_mod::lemma_fundamental_div_mod_converse(index_of(x, y, size), size, y, x);
}

/// Each flat index below `size * size` is the index of a cell of the grid.
pub proof fn lemma_index_in_grid(i: int, size: int)
    requires
        0 <= i < size * size,
        size > 0,
    ensures
        0 <= i % size < size,
        0 <= i / size < size,
        index_of(i % size, i / size, size) == i,
{
    vstd::arithmetic::div_mod::lemma_fundamental_div_mod(i, size);
    vstd::arithmetic::div_mod::lemma_div_pos_is_pos(i, size);
    vstd::arithmetic::div_mod::lemma_div_is_ordered(i, size * size - 1, size);
    vstd::arithmetic::div_mod::lemma_div_multiples_vanish_fancy(size - 1, size - 1, size);
    assert((size - 1) * size + (size - 1) == size * size - 1) by (nonlinear_arith);
    assert(i / size * size == size * (i / size)) by (nonlinear_arith);
}

/// A cell inside `0 .. size` on both axes has a flat index below `size * size`.
pub proof fn lemma_index_bound(x: int, y: int, size: int)
    requires
        0 <= x < size,
        0 <= y < size,
    ensures
        0 <= index_of(x, y, size) < size * size,
{
    assert(0 <= y * size <= (size - 1) * size) by (nonlinear_arith)
        requires
            0 <= y < size,
    ;
    assert((size - 1) * size + size == size * size) by (nonlinear_arith);
}

/// The maze: `maze_size * maze_size` cells row by row, and the random
/// generator that placed them.
pub struct MazeMatrix {
    matrix: Vec<MazeCellState>,
    maze_size: usize,
    pub rng: SmallRng,
    draws: Ghost<Seq<(int, int)>>,
}

impl MazeMatrix {
    /// The cells, row by row.
    pub closed spec fn cells(&self) -> Seq<MazeCellState> {
        self.matrix@
    }

    /// The indices drawn from the generator through `random_index`, in order,
    /// each with the bound it was drawn below: `(bound, index)`.
    pub closed spec fn draws(&self) -> Seq<(int, int)> {
        self.draws@
    }

    /// Width and height of the maze in cells.
    pub closed spec fn size(&self) -> int {
        self.maze_size as int
    }

    /// The cell at column `x`, row `y`.
    pub open spec fn cell(&self, x: int, y: int) -> MazeCellState {
        self.cells()[index_of(x, y, self.size())]
    }

    /// The matrix holds exactly one cell per grid position.
    pub open spec fn wf(&self) -> bool {
        self.cells().len() == self.size() * self.size()
    }

    /// A maze of walls only, with its generator seeded from `seed`.
    pub fn new(maze_size: usize, seed: u64) -> (m: MazeMatrix)
        requires
            maze_size * maze_size <= usize::MAX,
        ensures
            m.wf(),
            m.size() == maze_size,
            forall|i: int| 0 <= i < m.cells().len() ==> #[trigger] m.cells()[i] == MazeCellState::Wall,
            m.draws() == Seq::<(int, int)>::empty(),
    {
        MazeMatrix {
            matrix: vec![MazeCellState::Wall; maze_size * maze_size],
            maze_size,
            rng: seeded_rng(seed),
            draws: Ghost(Seq::empty()),
        }
    }

    pub fn maze_size(&self) -> (s: usize)
        ensures
            s == self.size(),
    {
        self.maze_size
    }

    /// The cells, row by row.
    pub fn matrix(&self) -> (m: &[MazeCellState])
        ensures
            m@ == self.cells(),
    {
        self.matrix.as_slice()
    }

    pub fn compute_index_with_size(x: usize, y: usize, maze_size: usize) -> (i: usize)
        requires
            x + y * maze_size <= usize::MAX,
        ensures
            i == index_of(x as int, y as int, maze_size as int),
    {
        x + (y * maze_size)
    }

    pub fn us_compute_index_with_size(pos: GridPos, maze_size: usize) -> (i: usize)
        requires
            pos.x + pos.y * maze_size <= usize::MAX,
        ensures
            i == index_of(pos.x as int, pos.y as int, maze_size as int),
    {
        Self::compute_index_with_size(pos.x, pos.y, maze_size)
    }

    pub fn get_cell_index(&self, x: usize, y: usize) -> (i: usize)
        requires
            x + y * self.size() <= usize::MAX,
        ensures
            i == index_of(x as int, y as int, self.size()),
    {
        Self::compute_index_with_size(x, y, self.maze_size)
    }

    pub fn us_get_cell_index(&self, pos: GridPos) -> (i: usize)
        requires
            pos.x + pos.y * self.size() <= usize::MAX,
        ensures
            i == index_of(pos.x as int, pos.y as int, self.size()),
    {
        Self::us_compute_index_with_size(pos, self.maze_size)
    }

    /// The cell whose flat index is `x + y * size`.
    pub fn get_cell(&self, x: usize, y: usize) -> (c: MazeCellState)
        requires
            index_of(x as int, y as int, self.size()) < self.cells().len(),
        ensures
            c == self.cell(x as int, y as int),
    {
        let cell_count = self.matrix.len();
        assert(index_of(x as int, y as int, self.size()) < cell_count);
        let index = self.get_cell_index(x, y);
        self.matrix[index]
    }

    pub fn us_get_cell(&self, pos: GridPos) -> (c: MazeCellState)
        requires
            index_of(pos.x as int, pos.y as int, self.size()) < self.cells().len(),
        ensures
            c == self.cell(pos.x as int, pos.y as int),
    {
        self.get_cell(pos.x, pos.y)
    }

    /// Draws an index below `bound` from the maze's generator; the cells stay
    /// as they are.
    pub fn random_index(&mut self, bound: usize) -> (r: usize)
        requires
            bound > 0,
        ensures
            r < bound,
            final(self).cells() == old(self).cells(),
            final(self).size() == old(self).size(),
            final(self).draws() == old(self).draws().push((bound as int, r as int)),
    {
        let r = random_below(&mut self.rng, bound);
        proof {
            self.draws@ = self.draws@.push((bound as int, r as int));
        }
        r
    }

    /// Shuffles `offsets` with the maze's generator; the cells stay as they are.
    pub fn shuffle(&mut self, offsets: &mut Vec<(i32, i32)>)
        ensures
            final(offsets)@.to_multiset() == old(offsets)@.to_multiset(),
            final(offsets)@.len() == old(offsets)@.len(),
            final(self).cells() == old(self).cells(),
            final(self).size() == old(self).size(),
            final(self).draws() == old(self).draws(),
    {
        shuffle_offsets(offsets, &mut self.rng)
    }

    pub fn set_cell_at_index(&mut self, index: usize, state: MazeCellState)
        requires
            index < old(self).cells().len(),
        ensures
            final(self).cells() == old(self).cells().update(index as int, state),
            final(self).size() == old(self).size(),
            final(self).draws() == old(self).draws(),
    {
        self.matrix.set(index, state);
    }
}

/// Writing a cell by its flat index and reading the grid back: the written
/// cell holds the new state and every other cell of the grid is unchanged.
pub proof fn lemma_write_then_read(
    before: MazeMatrix,
    after: MazeMatrix,
    x: int,
    y: int,
    state: MazeCellState,
)
    requires
        before.wf(),
        0 <= x < before.size(),
        0 <= y < before.size(),
        after.size() == before.size(),
        after.cells() == before.cells().update(index_of(x, y, before.size()), state),
    ensures
        after.cell(x, y) == state,
        forall|x2: int, y2: int|
            0 <= x2 < before.size() && 0 <= y2 < before.size() && (x2 != x || y2 != y)
                ==> #[trigger] after.cell(x2, y2) == before.cell(x2, y2),
{
    let size = before.size();
    lemma_index_bound(x, y, size);
    lemma_index_roundtrip(x, y, size);
    assert forall|x2: int, y2: int|
        0 <= x2 < size && 0 <= y2 < size && (x2 != x || y2 != y) implies #[trigger] after.cell(
        x2,
        y2,
    ) == before.cell(x2, y2) by {
        lemma_index_bound(x2, y2, size);
        lemma_index_roundtrip(x2, y2, size);
    }
}

} // verus!
