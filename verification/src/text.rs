//! The maze as text: one line per row, `O` for an open cell and `X` for a wall.

use crate::maze::MazeCellState;
use vstd::prelude::*;

verus! {

/// The character that shows a cell.
pub open spec fn cell_glyph(cell: MazeCellState) -> char {
    if cell == MazeCellState::Path {
        'O'
    } else {
        'X'
    }
}

/// The text of cell `i`: its glyph, and a line break after the last cell of a row.
pub open spec fn cell_text(cells: Seq<MazeCellState>, size: int, i: int) -> Seq<char> {
    if i % size == size - 1 {
        seq![cell_glyph(cells[i]), '\n']
    } else {
        seq![cell_glyph(cells[i])]
    }
}

/// The text of the first `count` cells.
pub open spec fn maze_text_prefix(cells: Seq<MazeCellState>, size: int, count: int) -> Seq<char> {
    Seq::new(count as nat, |i: int| cell_text(cells, size, i)).flatten()
}

/// The text of the whole maze: every cell's glyph, with a line break after
/// each run of `maze_size` cells.
pub fn maze_text(maze_matrix: &[MazeCellState], maze_size: usize) -> (text: Vec<char>)
    requires
        maze_size > 0 || maze_matrix@.len() == 0,
    ensures
        text@ == maze_text_prefix(maze_matrix@, maze_size as int, maze_matrix@.len() as int),
{
    let mut text: Vec<char> = Vec::new();
    let mut x: usize = 0;
    let mut i: usize = 0;
    let ghost mut row: int = 0;
    while i < maze_matrix.len()
        invariant
            0 <= i <= maze_matrix@.len(),
            maze_matrix@.len() > 0 ==> maze_size > 0,
            maze_size > 0 ==> 0 <= x < maze_size,
            maze_size > 0 ==> i == row * maze_size + x,
            text@ == maze_text_prefix(maze_matrix@, maze_size as int, i as int),
        decreases maze_matrix@.len() - i,
    {
        let ghost size = maze_size as int;
        proof {
            vstd::arithmetic::div_mod::lemma_fundamental_div_mod_converse(
                i as int,
                size,
                row,
                x as int,
            );
            let pieces = Seq::new((i + 1) as nat, |j: int| cell_text(maze_matrix@, size, j));
            assert(pieces.drop_last() =~= Seq::new(
                i as nat,
                |j: int| cell_text(maze_matrix@, size, j),
            ));
            assert(pieces =~= pieces.drop_last().push(cell_text(maze_matrix@, size, i as int)));
            pieces.drop_last().lemma_flatten_push(cell_text(maze_matrix@, size, i as int));
        }
        let glyph = if maze_matrix[i].is_path() {
            'O'
        } else {
            'X'
        };
        text.push(glyph);
        if x == maze_size - 1 {
            text.push('\n');
            x = 0;
            proof {
                assert((row + 1) * size == row * size + size) by (nonlinear_arith);
                row = row + 1;
            }
        } else {
            x = x + 1;
        }
        i = i + 1;
        assert(text@ =~= maze_text_prefix(maze_matrix@, size, i as int));
    }
    text
}

} // verus!
