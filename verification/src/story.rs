//! Story boards shown during a level, and the story panels shown before the
//! game starts.

use crate::level::StoryRange;
use vstd::prelude::*;

verus! {

/// The boards of the current level and the one being shown.
#[derive(Clone, Copy, Debug, PartialEq, Eq, Structural)]
pub struct BoardRange {
    pub range: StoryRange,
    pub current_index: usize,
}

/// The story board: which boards it has to show, if any.
#[derive(Clone, Copy, Debug, PartialEq, Eq, Structural)]
pub struct StoryBoard {
    pub board_range: Option<BoardRange>,
}

/// What the story board shows.
#[derive(Clone, Copy, Debug, PartialEq, Eq, Structural)]
pub enum BoardDisplay {
    /// The board is hidden.
    Hidden,
    /// The board shows the story image with this index.
    Shown(usize),
}

/// What the story board shows for a given range and position.
pub open spec fn board_display(board: StoryBoard) -> BoardDisplay {
    match board.board_range {
        Some(r) => if r.current_index <= r.range.end {
            BoardDisplay::Shown(r.current_index)
        } else {
            BoardDisplay::Hidden
        },
        None => BoardDisplay::Hidden,
    }
}

/// The board after one advance: the next board, if it has a range.
pub open spec fn advance_spec(board: StoryBoard) -> StoryBoard {
    match board.board_range {
        Some(r) => StoryBoard {
            board_range: Some(BoardRange { current_index: (r.current_index + 1) as usize, ..r }),
        },
        None => board,
    }
}

impl StoryBoard {
    /// A story board with nothing to show.
    pub fn new() -> (b: StoryBoard)
        ensures
            b.board_range == None::<BoardRange>,
    {
        StoryBoard { board_range: None }
    }

    /// Moves on to the next board, if the board has a range.
    pub fn advance(&mut self)
        requires
            old(self).board_range matches Some(r) ==> r.current_index < usize::MAX,
        ensures
            *final(self) == advance_spec(*old(self)),
    {
        if let Some(board_range) = &mut self.board_range {
            board_range.current_index = board_range.current_index + 1;
        } else {
            return;
        };
    }

    /// A level is ready: when it comes with story boards, show them from the
    /// first; otherwise leave the board as it is.
    pub fn show_level_story(&mut self, story_index_range: Option<StoryRange>)
        ensures
            final(self).board_range == match story_index_range {
                Some(range) => Some(BoardRange { range, current_index: range.start }),
                None => old(self).board_range,
            },
    {
        let range = if let Some(range) = story_index_range {
            range
        } else {
            return;
        };
        let start = range.start;
        self.board_range = Some(BoardRange { range, current_index: start });
    }

    /// What the board shows: the current board while it is within the range,
    /// and nothing once past it or without a range.
    pub fn display(&self) -> (d: BoardDisplay)
        ensures
            d == board_display(*self),
    {
        if let Some(board_range) = &self.board_range {
            if board_range.current_index > board_range.range.end {
                BoardDisplay::Hidden
            } else {
                BoardDisplay::Shown(board_range.current_index)
            }
        } else {
            BoardDisplay::Hidden
        }
    }
}

/// The board after `steps` advances.
pub open spec fn advanced(board: StoryBoard, steps: nat) -> StoryBoard
    decreases steps,
{
    if steps == 0 {
        board
    } else {
        advance_spec(advanced(board, (steps - 1) as nat))
    }
}

/// After a level's boards `start ..= end` are set, advancing `k` times shows
/// board `start + k` while that is at most `end`, and hides the board after.
pub proof fn lemma_story_sequence(range: StoryRange, k: nat)
    requires
        range.start + k <= usize::MAX,
    ensures
        board_display(
            advanced(
                StoryBoard { board_range: Some(BoardRange { range, current_index: range.start }) },
                k,
            ),
        ) == if range.start + k <= range.end {
            BoardDisplay::Shown((range.start + k) as usize)
        } else {
            BoardDisplay::Hidden
        },
    decreases k,
{
    let b = StoryBoard { board_range: Some(BoardRange { range, current_index: range.start }) };
    lemma_advanced_index(b, k);
}

/// Advancing keeps the range and moves the index by the number of steps.
proof fn lemma_advanced_index(board: StoryBoard, k: nat)
    requires
        board.board_range is Some,
        board.board_range.unwrap().current_index + k <= usize::MAX,
    ensures
        advanced(board, k).board_range is Some,
        advanced(board, k).board_range.unwrap().range == board.board_range.unwrap().range,
        advanced(board, k).board_range.unwrap().current_index
            == board.board_range.unwrap().current_index + k,
    decreases k,
{
    if k > 0 {
        lemma_advanced_index(board, (k - 1) as nat);
    }
}

/// How many story panels there are before the game starts.
pub const TOTAL_STORY_PANELS: usize = 2;

/// The story panel shown before the game: which panel it is at.
#[derive(Clone, Copy, Debug, PartialEq, Eq, Structural)]
pub struct StoryPanel {
    pub index: usize,
}

/// What a click on the story panel leads to.
#[derive(Clone, Copy, Debug, PartialEq, Eq, Structural)]
pub enum PanelClick {
    /// The last panel was passed: the game starts.
    StartGame,
    /// Show the panel with this index.
    ShowPanel(usize),
}

impl StoryPanel {
    /// A story panel at the first panel.
    pub fn new() -> (p: StoryPanel)
        ensures
            p.index == 0,
    {
        StoryPanel { index: 0 }
    }

    /// A click moves to the next panel; reaching the panel count starts the game.
    pub fn click(&mut self) -> (c: PanelClick)
        requires
            old(self).index < usize::MAX,
        ensures
            final(self).index == old(self).index + 1,
            c == if final(self).index == TOTAL_STORY_PANELS {
                PanelClick::StartGame
            } else {
                PanelClick::ShowPanel(final(self).index)
            },
    {
        self.index = self.index + 1;
        if self.index == TOTAL_STORY_PANELS {
            return PanelClick::StartGame;
        }
        PanelClick::ShowPanel(self.index)
    }
}

} // verus!
