//! Levels: which level is current, what happens when it changes, and the
//! colliders that make up a level's walls.

use vstd::prelude::*;

verus! {

/// How a wall reacts to lidar dots and to the player.
#[derive(Clone, Copy, Debug, PartialEq, Eq, Structural)]
pub enum WallType {
    Solid,
    Absorb,
    Exit,
}

/// An unsigned tile coordinate, as level files give spawn points and sizes.
#[derive(Clone, Copy, Debug, PartialEq, Eq, Structural)]
pub struct TilePos {
    pub x: u32,
    pub y: u32,
}

/// A signed tile coordinate: collider positions, which reach one tile beyond
/// the level on every side.
#[derive(Clone, Copy, Debug, PartialEq, Eq, Structural)]
pub struct TileCoord {
    pub x: i32,
    pub y: i32,
}

/// The story boards shown with a level: indices `start ..= end`.
#[derive(Clone, Copy, Debug, PartialEq, Eq, Structural)]
pub struct StoryRange {
    pub start: usize,
    pub end: usize,
}

/// A rectangle of wall tiles with its lower-left tile at `(x, y)`.
#[derive(Clone, Copy, Debug, PartialEq, Eq, Structural)]
pub struct WallData {
    pub x: u32,
    pub y: u32,
    pub height: u32,
    pub width: u32,
    pub wall_type: WallType,
}

/// One level as its level file describes it.
#[derive(Clone, Debug)]
pub struct LevelData {
    pub player_spawn: TilePos,
    pub target_spawn: TilePos,
    pub level_size: TilePos,
    pub walls: Vec<WallData>,
    pub story: Option<StoryRange>,
    pub exit: TileCoord,
    pub absorb_boundary: Option<bool>,
}

/// The level after moving on: the following index once the game has started.
pub open spec fn next_level(level: Option<usize>) -> Option<usize> {
    match level {
        Some(l) => Some((l + 1) as usize),
        None => None,
    }
}

/// The level after going back: the previous index, but never below the first.
pub open spec fn prev_level(level: Option<usize>) -> Option<usize> {
    match level {
        Some(l) => Some(
            if l > 0 {
                (l - 1) as usize
            } else {
                0usize
            },
        ),
        None => None,
    }
}

/// The index of the level being played, once the game has started.
pub struct CurrentLevel(pub Option<usize>);

impl CurrentLevel {
    /// Starting the game starts the first level.
    pub fn start(&mut self)
        ensures
            final(self).0 == Some(0usize),
    {
        self.0 = Some(0);
    }

    /// Moves on to the following level; before the game has started nothing
    /// changes.
    pub fn next(&mut self)
        requires
            old(self).0 matches Some(level) ==> level < usize::MAX,
        ensures
            final(self).0 == next_level(old(self).0),
    {
        if let Some(level) = self.0 {
            self.0 = Some(level + 1);
        } else {
            self.0 = None;
        }
    }

    /// Goes back one level, staying at the first; before the game has started
    /// nothing changes.
    pub fn prev(&mut self)
        ensures
            final(self).0 == prev_level(old(self).0),
    {
        if let Some(level) = self.0 {
            if level > 0 {
                self.0 = Some(level - 1);
            }
        }
    }

    /// The current level's index; 0 before the game has started.
    pub fn get(&self) -> (level: usize)
        ensures
            level == match self.0 {
                Some(l) => l,
                None => 0,
            },
    {
        match self.0 {
            Some(level) => level,
            None => 0,
        }
    }
}

/// Going to the next level and back returns to the same level.
pub proof fn lemma_next_then_prev(level: Option<usize>)
    requires
        level matches Some(l) ==> l < usize::MAX,
    ensures
        prev_level(next_level(level)) == level,
{
}

/// Going back from any level but the first and then on returns to it.
pub proof fn lemma_prev_then_next(level: Option<usize>)
    requires
        level matches Some(l) ==> l > 0,
    ensures
        next_level(prev_level(level)) == level,
{
}

/// What a change of the current level calls for.
#[derive(Clone, Copy, Debug, PartialEq, Eq, Structural)]
pub enum LevelPlan {
    /// The game has not started: nothing to do.
    Idle,
    /// Past the last level: clear the old level and finish the game.
    Finished,
    /// Clear the old level and build the level with this index.
    Build(usize),
}

/// Decides what the current level calls for, given how many levels there are.
pub fn plan_level(current: &CurrentLevel, level_count: usize) -> (plan: LevelPlan)
    ensures
        plan == match current.0 {
            None => LevelPlan::Idle,
            Some(level) => if level >= level_count {
                LevelPlan::Finished
            } else {
                LevelPlan::Build(level)
            },
        },
{
    let level_index = if let Some(level) = current.0 {
        level
    } else {
        return LevelPlan::Idle;
    };
    if level_index >= level_count {
        LevelPlan::Finished
    } else {
        LevelPlan::Build(level_index)
    }
}

} // verus!
