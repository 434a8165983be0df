//! The player: facing, steering from the movement keys, and level progress on
//! touching the next-level sensor.

use crate::maze::GridPos;
use vstd::prelude::*;

verus! {

/// Side length of a tile in pixels.
pub const TILE_SIZE_U32: u32 = 16;

/// Which way the player faces.
#[derive(Clone, Copy, Debug, PartialEq, Eq, Structural)]
pub enum PlayerFacing {
    Up,
    Down,
    Left,
    Right,
}

impl PlayerFacing {
    /// The unit step, column then row, in the facing direction.
    pub fn direction(&self) -> (d: (i32, i32))
        ensures
            d == match *self {
                PlayerFacing::Up => (0i32, 1i32),
                PlayerFacing::Down => (0i32, -1i32),
                PlayerFacing::Left => (-1i32, 0i32),
                PlayerFacing::Right => (1i32, 0i32),
            },
    {
        match self {
            PlayerFacing::Up => (0, 1),
            PlayerFacing::Down => (0, -1),
            PlayerFacing::Left => (-1, 0),
            PlayerFacing::Right => (1, 0),
        }
    }

    /// Whether the sprite is flipped horizontally, and the sprite's index in
    /// the player's sheet.
    pub fn get_sprite(&self) -> (s: (bool, usize))
        ensures
            s == match *self {
                PlayerFacing::Up => (false, 1usize),
                PlayerFacing::Down => (false, 2usize),
                PlayerFacing::Left => (false, 0usize),
                PlayerFacing::Right => (true, 0usize),
            },
    {
        match self {
            PlayerFacing::Up => (false, 1),
            PlayerFacing::Down => (false, 2),
            PlayerFacing::Left => (false, 0),
            PlayerFacing::Right => (true, 0),
        }
    }
}

/// The movement keys held down this frame (each with its arrow-key twin).
#[derive(Clone, Copy, Debug, PartialEq, Eq, Structural)]
pub struct MoveKeys {
    pub up: bool,
    pub down: bool,
    pub right: bool,
    pub left: bool,
}

/// The outcome of the movement keys: the new facing and the (not yet
/// normalised) direction of movement.
#[derive(Clone, Copy, Debug, PartialEq, Eq, Structural)]
pub struct Steering {
    pub facing: PlayerFacing,
    pub dx: i32,
    pub dy: i32,
}

/// The facing after the movement keys: the last of up, down, right, left that
/// is held; unchanged when none is.
pub open spec fn steered_facing(facing: PlayerFacing, keys: MoveKeys) -> PlayerFacing {
    if keys.left {
        PlayerFacing::Left
    } else if keys.right {
        PlayerFacing::Right
    } else if keys.down {
        PlayerFacing::Down
    } else if keys.up {
        PlayerFacing::Up
    } else {
        facing
    }
}

/// The movement key that belongs to a facing is held.
pub open spec fn facing_key_held(facing: PlayerFacing, keys: MoveKeys) -> bool {
    match facing {
        PlayerFacing::Up => keys.up,
        PlayerFacing::Down => keys.down,
        PlayerFacing::Left => keys.left,
        PlayerFacing::Right => keys.right,
    }
}

/// Whenever a movement key is held, the player ends up facing the direction
/// of a held key, and of no key held after it in the order up, down, right,
/// left; one key held alone turns the player that way; with no key held the
/// facing stays.
pub proof fn lemma_steer_faces_held_key(facing: PlayerFacing, keys: MoveKeys)
    ensures
        (keys.up || keys.down || keys.right || keys.left) ==> facing_key_held(
            steered_facing(facing, keys),
            keys,
        ),
        steered_facing(facing, keys) == PlayerFacing::Up ==> (!keys.down && !keys.right
            && !keys.left) || (!keys.up && !keys.down && !keys.right && !keys.left),
        steered_facing(facing, keys) == PlayerFacing::Down ==> (!keys.right && !keys.left) || (
        !keys.up && !keys.down && !keys.right && !keys.left),
        steered_facing(facing, keys) == PlayerFacing::Right ==> !keys.left || (!keys.up
            && !keys.down && !keys.right && !keys.left),
        keys.up && !keys.down && !keys.right && !keys.left ==> steered_facing(facing, keys)
            == PlayerFacing::Up,
        !keys.up && keys.down && !keys.right && !keys.left ==> steered_facing(facing, keys)
            == PlayerFacing::Down,
        !keys.up && !keys.down && keys.right && !keys.left ==> steered_facing(facing, keys)
            == PlayerFacing::Right,
        !keys.up && !keys.down && !keys.right && keys.left ==> steered_facing(facing, keys)
            == PlayerFacing::Left,
        !keys.up && !keys.down && !keys.right && !keys.left ==> steered_facing(facing, keys)
            == facing,
{
}

/// Steers the player: each held key adds its unit step to the movement, and
/// the player turns to the last held key in the order up, down, right, left.
pub fn steer(facing: PlayerFacing, keys: MoveKeys) -> (s: Steering)
    ensures
        s.facing == steered_facing(facing, keys),
        keys.left ==> s.facing == PlayerFacing::Left,
        !keys.left && keys.right ==> s.facing == PlayerFacing::Right,
        !keys.left && !keys.right && keys.down ==> s.facing == PlayerFacing::Down,
        !keys.left && !keys.right && !keys.down && keys.up ==> s.facing == PlayerFacing::Up,
        !keys.left && !keys.right && !keys.down && !keys.up ==> s.facing == facing,
        s.dx == (if keys.right { 1int } else { 0int }) - (if keys.left { 1int } else { 0int }),
        s.dy == (if keys.up { 1int } else { 0int }) - (if keys.down { 1int } else { 0int }),
{
    let mut dx: i32 = 0;
    let mut dy: i32 = 0;
    let mut facing = facing;
    if keys.up {
        dy = dy + 1;
        facing = PlayerFacing::Up;
    }
    if keys.down {
        dy = dy - 1;
        facing = PlayerFacing::Down;
    }
    if keys.right {
        dx = dx + 1;
        facing = PlayerFacing::Right;
    }
    if keys.left {
        dx = dx - 1;
        facing = PlayerFacing::Left;
    }
    Steering { facing, dx, dy }
}

/// The pixel position of the lower-left corner of tile `tile`.
pub fn tile_to_pixels(tile: GridPos) -> (p: GridPos)
    requires
        tile.x * TILE_SIZE_U32 <= usize::MAX,
        tile.y * TILE_SIZE_U32 <= usize::MAX,
    ensures
        p.x == tile.x * TILE_SIZE_U32,
        p.y == tile.y * TILE_SIZE_U32,
{
    let size = TILE_SIZE_U32 as usize;
    GridPos { x: tile.x * size, y: tile.y * size }
}

/// Matches a collision of `entity1` and `entity2` against two kinds of
/// entity: the pair is returned (in its own order) when one entity is of the
/// first kind and the other of the second, either way round.
pub fn match_colliders<E: Copy>(
    entity1: E,
    entity2: E,
    first_kind_has_1: bool,
    second_kind_has_2: bool,
    first_kind_has_2: bool,
    second_kind_has_1: bool,
) -> (m: Option<(E, E)>)
    ensures
        m == if (first_kind_has_1 && second_kind_has_2) || (first_kind_has_2
            && second_kind_has_1) {
            Some((entity1, entity2))
        } else {
            None
        },
{
    if first_kind_has_1 && second_kind_has_2 {
        Some((entity1, entity2))
    } else if first_kind_has_2 && second_kind_has_1 {
        Some((entity1, entity2))
    } else {
        None
    }
}

} // verus!
