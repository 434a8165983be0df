//! The colliders that make up a level: the tiles of its inner walls, a ring of
//! border tiles one tile outside the level, and, where the exit lies on that
//! ring, an unlocking border tile with a next-level sensor just beyond it.

use crate::level::{LevelData, StoryRange, TileCoord, WallData, WallType};
use crate::maze::GridPos;
use vstd::prelude::*;

verus! {

/// The part a collider plays in the level.
#[derive(Clone, Copy, Debug, PartialEq, Eq, Structural)]
pub enum ColliderKind {
    /// A tile of one of the level's walls.
    InnerWall,
    /// A tile of the ring around the level.
    OuterWall,
    /// The ring tile at the exit, which opens once the target is reached.
    UnlockingBorder,
    /// The sensor behind the exit that moves the player to the next level.
    NextLevelSensor,
}

/// One tile-sized collider of a level.
#[derive(Clone, Copy, Debug, PartialEq, Eq, Structural)]
pub struct ColliderSpec {
    pub position: TileCoord,
    pub wall_type: WallType,
    pub kind: ColliderKind,
}

/// Column `x`, row `y` of a wall's rectangle, as a collider.
pub open spec fn inner_collider(w: WallData, x: int, y: int) -> ColliderSpec {
    ColliderSpec {
        position: TileCoord { x: (w.x + x) as i32, y: (w.y + y) as i32 },
        wall_type: w.wall_type,
        kind: ColliderKind::InnerWall,
    }
}

/// The colliders of column `x` of a wall, bottom to top.
pub open spec fn wall_column(w: WallData, x: int) -> Seq<ColliderSpec> {
    Seq::new(w.height as nat, |y: int| inner_collider(w, x, y))
}

/// The colliders of a wall, column by column.
pub open spec fn wall_colliders(w: WallData) -> Seq<ColliderSpec> {
    Seq::new(w.width as nat, |x: int| wall_column(w, x)).flatten()
}

/// The colliders of all the walls, wall by wall.
pub open spec fn inner_colliders(walls: Seq<WallData>) -> Seq<ColliderSpec> {
    Seq::new(walls.len(), |i: int| wall_colliders(walls[i])).flatten()
}

/// The tile coordinates of a wall fit in `u32` (the wall is empty, or its
/// last column and row are at most `u32::MAX`).
pub open spec fn wall_fits(w: WallData) -> bool {
    w.width == 0 || w.height == 0 || (w.x + w.width - 1 <= u32::MAX && w.y + w.height - 1
        <= u32::MAX)
}

/// The level's width and height as signed coordinates.
pub open spec fn level_extent(data: LevelData) -> (int, int) {
    ((data.level_size.x as i32) as int, (data.level_size.y as i32) as int)
}

/// `(x, y)` lies on the ring one tile outside the level.
pub open spec fn on_border(data: LevelData, x: int, y: int) -> bool {
    let (w, h) = level_extent(data);
    -1 <= x <= w && -1 <= y <= h && (x == -1 || x == w || y == -1 || y == h)
}

/// The wall type of the ring: absorbing when the level asks for it.
pub open spec fn border_type(data: LevelData) -> WallType {
    if data.absorb_boundary == Some(true) {
        WallType::Absorb
    } else {
        WallType::Solid
    }
}

/// Sign of `v`.
pub open spec fn signum(v: int) -> int {
    if v > 0 {
        1
    } else if v < 0 {
        -1
    } else {
        0
    }
}

/// Absolute value of `v`.
pub open spec fn abs(v: int) -> int {
    if v < 0 {
        -v
    } else {
        v
    }
}

/// Where the next-level sensor goes for an exit at `exit`: one tile further
/// out along the axis on which the exit lies further from the origin.
pub open spec fn sensor_position(exit: TileCoord) -> (int, int) {
    if abs(exit.x as int) > abs(exit.y as int) {
        (exit.x + signum(exit.x as int), exit.y as int)
    } else {
        (exit.x as int, exit.y + signum(exit.y as int))
    }
}

/// The colliders at `(x, y)` of the grid around the level: a ring tile (with
/// the sensor after it at the exit), or nothing inside the level.
pub open spec fn border_entry(data: LevelData, x: int, y: int) -> Seq<ColliderSpec> {
    if on_border(data, x, y) {
        if x == data.exit.x && y == data.exit.y {
            let (sx, sy) = sensor_position(data.exit);
            seq![
                ColliderSpec {
                    position: TileCoord { x: x as i32, y: y as i32 },
                    wall_type: border_type(data),
                    kind: ColliderKind::UnlockingBorder,
                },
                ColliderSpec {
                    position: TileCoord { x: sx as i32, y: sy as i32 },
                    wall_type: WallType::Exit,
                    kind: ColliderKind::NextLevelSensor,
                },
            ]
        } else {
            seq![
                ColliderSpec {
                    position: TileCoord { x: x as i32, y: y as i32 },
                    wall_type: border_type(data),
                    kind: ColliderKind::OuterWall,
                },
            ]
        }
    } else {
        seq![]
    }
}

/// Number of grid columns (or rows) from `-1` to `extent`, both included.
pub open spec fn span(extent: int) -> nat {
    if extent + 2 > 0 {
        (extent + 2) as nat
    } else {
        0
    }
}

/// The colliders of grid column `x`, from row `-1` up to the level's height.
pub open spec fn border_column(data: LevelData, x: int) -> Seq<ColliderSpec> {
    Seq::new(span(level_extent(data).1), |b: int| border_entry(data, x, b - 1)).flatten()
}

/// The ring colliders, column by column from `-1` to the level's width.
pub open spec fn border_colliders(data: LevelData) -> Seq<ColliderSpec> {
    Seq::new(span(level_extent(data).0), |a: int| border_column(data, a - 1)).flatten()
}

/// The sensor beyond an exit on the ring has a coordinate that fits in `i32`.
pub open spec fn exit_sensor_fits(data: LevelData) -> bool {
    on_border(data, data.exit.x as int, data.exit.y as int) ==> {
        let (sx, sy) = sensor_position(data.exit);
        sx <= i32::MAX && sy <= i32::MAX
    }
}

/// Flattening one more sequence of sequences appends its last member.
proof fn lemma_flatten_step<A>(n: nat, f: spec_fn(int) -> Seq<A>)
    ensures
        Seq::new(n + 1, f).flatten() == Seq::new(n, f).flatten() + f(n as int),
{
    let longer = Seq::new(n + 1, f);
    assert(longer =~= Seq::new(n, f).push(f(n as int)));
    Seq::new(n, f).lemma_flatten_push(f(n as int));
}

/// The colliders of one wall, column by column and bottom to top in each.
pub fn wall_tiles(wall: &WallData, out: &mut Vec<ColliderSpec>)
    requires
        wall_fits(*wall),
    ensures
        final(out)@ == old(out)@ + wall_colliders(*wall),
{
    let ghost base = out@;
    let mut x: u32 = 0;
    while x < wall.width
        invariant
            x <= wall.width,
            wall_fits(*wall),
            out@ == base + Seq::new(x as nat, |a: int| wall_column(*wall, a)).flatten(),
        decreases wall.width - x,
    {
        let ghost before = out@;
        let mut y: u32 = 0;
        while y < wall.height
            invariant
                x < wall.width,
                y <= wall.height,
                wall_fits(*wall),
                out@ == before + wall_column(*wall, x as int).take(y as int),
            decreases wall.height - y,
        {
            let map_x = wall.x + x;
            let map_y = wall.y + y;
            out.push(
                ColliderSpec {
                    position: TileCoord { x: map_x as i32, y: map_y as i32 },
                    wall_type: wall.wall_type,
                    kind: ColliderKind::InnerWall,
                },
            );
            assert(wall_column(*wall, x as int).take(y + 1) =~= wall_column(*wall, x as int).take(
                y as int,
            ).push(inner_collider(*wall, x as int, y as int)));
            y = y + 1;
        }
        proof {
            assert(wall_column(*wall, x as int).take(wall.height as int) =~= wall_column(
                *wall,
                x as int,
            ));
            lemma_flatten_step(x as nat, |a: int| wall_column(*wall, a));
        }
        x = x + 1;
    }
}

/// The colliders of the level's walls, wall by wall.
pub fn inner_wall_tiles(walls: &Vec<WallData>, out: &mut Vec<ColliderSpec>)
    requires
        forall|i: int| 0 <= i < walls@.len() ==> wall_fits(#[trigger] walls@[i]),
    ensures
        final(out)@ == old(out)@ + inner_colliders(walls@),
{
    let ghost base = out@;
    let mut i: usize = 0;
    while i < walls.len()
        invariant
            i <= walls@.len(),
            forall|k: int| 0 <= k < walls@.len() ==> wall_fits(#[trigger] walls@[k]),
            out@ == base + Seq::new(i as nat, |k: int| wall_colliders(walls@[k])).flatten(),
        decreases walls@.len() - i,
    {
        wall_tiles(&walls[i], out);
        proof {
            lemma_flatten_step(i as nat, |k: int| wall_colliders(walls@[k]));
        }
        i = i + 1;
    }
    assert(Seq::new(walls@.len(), |k: int| wall_colliders(walls@[k])) =~= Seq::new(
        i as nat,
        |k: int| wall_colliders(walls@[k]),
    ));
}

/// The wall type of the ring around the level.
pub fn boundary_wall_type(data: &LevelData) -> (t: WallType)
    ensures
        t == border_type(*data),
{
    match data.absorb_boundary {
        Some(true) => WallType::Absorb,
        _ => WallType::Solid,
    }
}

/// Where the next-level sensor goes for an exit at `exit`.
pub fn exit_sensor_position(exit: TileCoord) -> (p: TileCoord)
    requires
        sensor_position(exit).0 <= i32::MAX,
        sensor_position(exit).1 <= i32::MAX,
        exit.x > i32::MIN,
        exit.y > i32::MIN,
    ensures
        p.x == sensor_position(exit).0,
        p.y == sensor_position(exit).1,
{
    let ex = exit.x as i64;
    let ey = exit.y as i64;
    let ax = if ex < 0 {
        -ex
    } else {
        ex
    };
    let ay = if ey < 0 {
        -ey
    } else {
        ey
    };
    if ax > ay {
        let step: i64 = if ex > 0 {
            1
        } else if ex < 0 {
            -1
        } else {
            0
        };
        TileCoord { x: (ex + step) as i32, y: exit.y }
    } else {
        let step: i64 = if ey > 0 {
            1
        } else if ey < 0 {
            -1
        } else {
            0
        };
        TileCoord { x: exit.x, y: (ey + step) as i32 }
    }
}

/// The colliders at `(x, y)` of the grid around the level.
fn border_cell(data: &LevelData, x: i64, y: i64, out: &mut Vec<ColliderSpec>)
    requires
        exit_sensor_fits(*data),
        -1 <= x <= level_extent(*data).0,
        -1 <= y <= level_extent(*data).1,
    ensures
        final(out)@ == old(out)@ + border_entry(*data, x as int, y as int),
{
    let w = data.level_size.x as i32 as i64;
    let h = data.level_size.y as i32 as i64;
    if x == -1 || x == w || y == -1 || y == h {
        let wall_type = boundary_wall_type(data);
        let border = TileCoord { x: x as i32, y: y as i32 };
        if border.x == data.exit.x && border.y == data.exit.y {
            out.push(
                ColliderSpec { position: border, wall_type, kind: ColliderKind::UnlockingBorder },
            );
            let sensor = exit_sensor_position(data.exit);
            out.push(
                ColliderSpec {
                    position: sensor,
                    wall_type: WallType::Exit,
                    kind: ColliderKind::NextLevelSensor,
                },
            );
        } else {
            out.push(ColliderSpec { position: border, wall_type, kind: ColliderKind::OuterWall });
        }
    }
}

/// The ring colliders, column by column from `-1` to the level's width and,
/// in each column, from row `-1` to the level's height.
pub fn border_tiles(data: &LevelData, out: &mut Vec<ColliderSpec>)
    requires
        exit_sensor_fits(*data),
    ensures
        final(out)@ == old(out)@ + border_colliders(*data),
{
    let ghost base = out@;
    let ghost (ew, eh) = level_extent(*data);
    let w = data.level_size.x as i32 as i64;
    let h = data.level_size.y as i32 as i64;
    let mut x: i64 = -1;
    while x <= w
        invariant
            w == ew,
            h == eh,
            (ew, eh) == level_extent(*data),
            exit_sensor_fits(*data),
            -1 <= x,
            x + 1 <= span(ew) || x == -1,
            out@ == base + Seq::new((x + 1) as nat, |a: int| border_column(*data, a - 1)).flatten(),
        decreases w + 1 - x,
    {
        let ghost before = out@;
        let mut y: i64 = -1;
        while y <= h
            invariant
                w == ew,
                h == eh,
                (ew, eh) == level_extent(*data),
                exit_sensor_fits(*data),
                -1 <= x <= w,
                -1 <= y,
                y + 1 <= span(eh) || y == -1,
                out@ == before + Seq::new((y + 1) as nat, |b: int| border_entry(*data, x as int, b - 1)).flatten(),
            decreases h + 1 - y,
        {
            border_cell(data, x, y, out);
            proof {
                lemma_flatten_step((y + 1) as nat, |b: int| border_entry(*data, x as int, b - 1));
            }
            y = y + 1;
        }
        proof {
            assert(Seq::new((y + 1) as nat, |b: int| border_entry(*data, x as int, b - 1)) =~= Seq::new(
                span(eh),
                |b: int| border_entry(*data, x as int, b - 1),
            ));
            lemma_flatten_step((x + 1) as nat, |a: int| border_column(*data, a - 1));
        }
        x = x + 1;
    }
    assert(Seq::new((x + 1) as nat, |a: int| border_column(*data, a - 1)) =~= Seq::new(
        span(ew),
        |a: int| border_column(*data, a - 1),
    ));
}

/// All colliders of a level: the wall tiles, then the ring around the level.
pub fn level_colliders(data: &LevelData) -> (colliders: Vec<ColliderSpec>)
    requires
        forall|i: int| 0 <= i < data.walls@.len() ==> wall_fits(#[trigger] data.walls@[i]),
        exit_sensor_fits(*data),
    ensures
        colliders@ == inner_colliders(data.walls@) + border_colliders(*data),
        on_border(*data, data.exit.x as int, data.exit.y as int) ==> exists|k: int|
            #[trigger] exit_pair_at(colliders@, *data, k),
        !on_border(*data, data.exit.x as int, data.exit.y as int) ==> forall|j: int|
            0 <= j < colliders@.len() ==> (#[trigger] colliders@[j]).kind
                != ColliderKind::UnlockingBorder && colliders@[j].kind
                != ColliderKind::NextLevelSensor,
{
    let mut colliders: Vec<ColliderSpec> = Vec::new();
    inner_wall_tiles(&data.walls, &mut colliders);
    border_tiles(data, &mut colliders);
    assert(colliders@ =~= inner_colliders(data.walls@) + border_colliders(*data));
    proof {
        lemma_exit_colliders(*data);
        reveal(all_colliders);
    }
    colliders
}

/// Decides `wall_fits`.
pub fn wall_fits_check(wall: &WallData) -> (b: bool)
    ensures
        b == wall_fits(*wall),
{
    if wall.width == 0 || wall.height == 0 {
        return true;
    }
    let x_end = wall.x as u64 + (wall.width - 1) as u64;
    let y_end = wall.y as u64 + (wall.height - 1) as u64;
    x_end <= u32::MAX as u64 && y_end <= u32::MAX as u64
}

/// Decides whether `level_colliders` can lay the level out: every wall's
/// tiles fit in `u32` and the sensor behind an exit on the ring fits in `i32`.
pub fn level_layout_fits(data: &LevelData) -> (b: bool)
    ensures
        b == ((forall|i: int| 0 <= i < data.walls@.len() ==> wall_fits(#[trigger] data.walls@[i]))
            && exit_sensor_fits(*data)),
{
    let mut i: usize = 0;
    while i < data.walls.len()
        invariant
            i <= data.walls@.len(),
            forall|k: int| 0 <= k < i ==> wall_fits(#[trigger] data.walls@[k]),
        decreases data.walls@.len() - i,
    {
        if !wall_fits_check(&data.walls[i]) {
            return false;
        }
        i = i + 1;
    }
    let w = data.level_size.x as i32 as i64;
    let h = data.level_size.y as i32 as i64;
    let ex = data.exit.x as i64;
    let ey = data.exit.y as i64;
    let on_ring = -1 <= ex && ex <= w && -1 <= ey && ey <= h && (ex == -1 || ex == w || ey == -1
        || ey == h);
    if !on_ring {
        return true;
    }
    let ax = if ex < 0 {
        -ex
    } else {
        ex
    };
    let ay = if ey < 0 {
        -ey
    } else {
        ey
    };
    if ax > ay {
        ex < i32::MAX as i64 || ex <= 0
    } else {
        ey < i32::MAX as i64 || ey <= 0
    }
}

/// What a built level announces: where the player and the target start, and
/// which story boards go with it.
#[derive(Clone, Copy, Debug, PartialEq, Eq, Structural)]
pub struct LevelReady {
    pub player: GridPos,
    pub target: GridPos,
    pub story_index_range: Option<StoryRange>,
}

/// The announcement of a built level, from its level data.
pub fn level_ready(data: &LevelData) -> (ready: LevelReady)
    ensures
        ready.player == (GridPos { x: data.player_spawn.x as usize, y: data.player_spawn.y as usize }),
        ready.target == (GridPos { x: data.target_spawn.x as usize, y: data.target_spawn.y as usize }),
        ready.story_index_range == data.story,
{
    LevelReady {
        player: GridPos { x: data.player_spawn.x as usize, y: data.player_spawn.y as usize },
        target: GridPos { x: data.target_spawn.x as usize, y: data.target_spawn.y as usize },
        story_index_range: data.story,
    }
}

/// Member `j` of the `i`-th sequence sits in the flattening just after the
/// members of the sequences before it.
proof fn lemma_flatten_index<A>(s: Seq<Seq<A>>, i: int, j: int)
    requires
        0 <= i < s.len(),
        0 <= j < s[i].len(),
    ensures
        s.take(i).flatten().len() + j < s.flatten().len(),
        s.flatten()[s.take(i).flatten().len() + j] == s[i][j],
{
    assert(s =~= s.take(i) + (seq![s[i]] + s.skip(i + 1)));
    vstd::seq_lib::lemma_flatten_concat(s.take(i), seq![s[i]] + s.skip(i + 1));
    vstd::seq_lib::lemma_flatten_concat(seq![s[i]], s.skip(i + 1));
    seq![s[i]].lemma_flatten_one_element();
}

/// Every position of a flattening is member `j` of some `i`-th sequence.
proof fn lemma_flatten_locate<A>(s: Seq<Seq<A>>, k: int) -> (ij: (int, int))
    requires
        0 <= k < s.flatten().len(),
    ensures
        0 <= ij.0 < s.len(),
        0 <= ij.1 < s[ij.0].len(),
        k == s.take(ij.0).flatten().len() + ij.1,
        s.flatten()[k] == s[ij.0][ij.1],
    decreases s.len(),
{
    let init = s.drop_last();
    assert(s =~= init.push(s.last()));
    init.lemma_flatten_push(s.last());
    if k < init.flatten().len() {
        let (i, j) = lemma_flatten_locate(init, k);
        assert(init.take(i) =~= s.take(i));
        assert(init[i] == s[i]);
        (i, j)
    } else {
        let i = s.len() - 1;
        assert(s.take(i) =~= init);
        lemma_flatten_index(s, i, k - init.flatten().len());
        (i, k - init.flatten().len())
    }
}

/// Every collider of the walls is an inner wall tile.
proof fn lemma_inner_kinds(walls: Seq<WallData>, k: int)
    requires
        0 <= k < inner_colliders(walls).len(),
    ensures
        inner_colliders(walls)[k].kind == ColliderKind::InnerWall,
{
    let outer = Seq::new(walls.len(), |i: int| wall_colliders(walls[i]));
    let (i, m) = lemma_flatten_locate(outer, k);
    let w = walls[i];
    let cols = Seq::new(w.width as nat, |x: int| wall_column(w, x));
    let (x, y) = lemma_flatten_locate(cols, m);
}

/// Ring collider `k` is place `t` among the colliders of grid column `a - 1`,
/// row `b - 1`.
#[verifier::opaque]
pub open spec fn border_at(data: LevelData, k: int, a: int, b: int, t: int) -> bool {
    &&& 0 <= a < span(level_extent(data).0)
    &&& 0 <= b < span(level_extent(data).1)
    &&& 0 <= t < border_entry(data, a - 1, b - 1).len()
    &&& border_colliders(data)[k] == border_entry(data, a - 1, b - 1)[t]
    &&& k == Seq::new(span(level_extent(data).0), |x: int| border_column(data, x - 1)).take(
        a,
    ).flatten().len() + Seq::new(span(level_extent(data).1), |y: int| border_entry(data, a - 1, y - 1)).take(
        b,
    ).flatten().len() + t
}

/// Every ring collider comes from one grid cell of the ring.
proof fn lemma_border_locate(data: LevelData, k: int) -> (abt: (int, int, int))
    requires
        0 <= k < border_colliders(data).len(),
    ensures
        border_at(data, k, abt.0, abt.1, abt.2),
{
    let outer = Seq::new(span(level_extent(data).0), |a: int| border_column(data, a - 1));
    let (a, m) = lemma_flatten_locate(outer, k);
    let inner = Seq::new(span(level_extent(data).1), |b: int| border_entry(data, a - 1, b - 1));
    assert(outer[a] == inner.flatten());
    let (b, t) = lemma_flatten_locate(inner, m);
    reveal(border_at);
    (a, b, t)
}

/// All colliders of a level, walls first, then the ring.
#[verifier::opaque]
pub open spec fn all_colliders(data: LevelData) -> Seq<ColliderSpec> {
    inner_colliders(data.walls@) + border_colliders(data)
}

/// An unlocking border tile or a sensor comes from the ring cell of an exit
/// that lies on the ring; an unlocking tile is the first collider of that cell.
proof fn lemma_special_from_exit(data: LevelData, j: int) -> (abt: (int, int, int))
    requires
        0 <= j < all_colliders(data).len(),
        all_colliders(data)[j].kind == ColliderKind::UnlockingBorder || all_colliders(data)[j].kind
            == ColliderKind::NextLevelSensor,
    ensures
        on_border(data, data.exit.x as int, data.exit.y as int),
        j >= inner_colliders(data.walls@).len(),
        border_at(data, j - inner_colliders(data.walls@).len(), abt.0, abt.1, abt.2),
        abt.0 - 1 == data.exit.x,
        abt.1 - 1 == data.exit.y,
        all_colliders(data)[j].kind == ColliderKind::UnlockingBorder ==> abt.2 == 0,
{
    reveal(all_colliders);
    let inner_len = inner_colliders(data.walls@).len();
    if j < inner_len {
        lemma_inner_kinds(data.walls@, j);
        assert(false);
        (0, 0, 0)
    } else {
        assert(all_colliders(data)[j] == border_colliders(data)[j - inner_len]);
        let abt = lemma_border_locate(data, j - inner_len);
        reveal(border_at);
        abt
    }
}

/// An exit on the ring gets an unlocking tile at the exit with the sensor
/// right after it.
proof fn lemma_exit_found(data: LevelData) -> (k: int)
    requires
        on_border(data, data.exit.x as int, data.exit.y as int),
        exit_sensor_fits(data),
    ensures
        0 <= k && k + 1 < all_colliders(data).len(),
        all_colliders(data)[k] == (ColliderSpec {
            position: data.exit,
            wall_type: border_type(data),
            kind: ColliderKind::UnlockingBorder,
        }),
        all_colliders(data)[k + 1].kind == ColliderKind::NextLevelSensor,
        all_colliders(data)[k + 1].wall_type == WallType::Exit,
        all_colliders(data)[k + 1].position.x == sensor_position(data.exit).0,
        all_colliders(data)[k + 1].position.y == sensor_position(data.exit).1,
        border_at(
            data,
            k - inner_colliders(data.walls@).len(),
            data.exit.x + 1,
            data.exit.y + 1,
            0,
        ),
{
    reveal(all_colliders);
    let (w, h) = level_extent(data);
    let outer = Seq::new(span(w), |a: int| border_column(data, a - 1));
    let a0 = data.exit.x + 1;
    let b0 = data.exit.y + 1;
    let inner0 = Seq::new(span(h), |b: int| border_entry(data, a0 - 1, b - 1));
    let entry = border_entry(data, data.exit.x as int, data.exit.y as int);
    assert(inner0[b0] == entry);
    assert(entry.len() == 2);
    lemma_flatten_index(inner0, b0, 0);
    lemma_flatten_index(inner0, b0, 1);
    let m0 = inner0.take(b0).flatten().len() as int;
    assert(outer[a0] == inner0.flatten());
    lemma_flatten_index(outer, a0, m0);
    lemma_flatten_index(outer, a0, m0 + 1);
    let inner_len = inner_colliders(data.walls@).len();
    let k0 = inner_len + outer.take(a0).flatten().len() + m0;
    assert(all_colliders(data)[k0] == border_colliders(data)[k0 - inner_len]);
    assert(all_colliders(data)[k0 + 1] == border_colliders(data)[k0 + 1 - inner_len]);
    reveal(border_at);
    k0
}

/// One ring cell and place give one position among the ring colliders.
proof fn lemma_border_at_unique(data: LevelData, k1: int, k2: int, a: int, b: int, t: int)
    requires
        border_at(data, k1, a, b, t),
        border_at(data, k2, a, b, t),
    ensures
        k1 == k2,
{
    reveal(border_at);
}

/// Collider `k` of `colliders` is the unlocking border tile at the exit and
/// collider `k + 1` is the next-level sensor beyond it, and no other collider
/// is an unlocking border tile.
pub open spec fn exit_pair_at(colliders: Seq<ColliderSpec>, data: LevelData, k: int) -> bool {
    &&& 0 <= k
    &&& k + 1 < colliders.len()
    &&& colliders[k] == (ColliderSpec {
        position: data.exit,
        wall_type: border_type(data),
        kind: ColliderKind::UnlockingBorder,
    })
    &&& colliders[k + 1].kind == ColliderKind::NextLevelSensor
    &&& colliders[k + 1].wall_type == WallType::Exit
    &&& colliders[k + 1].position.x == sensor_position(data.exit).0
    &&& colliders[k + 1].position.y == sensor_position(data.exit).1
    &&& forall|j: int|
        0 <= j < colliders.len() && (#[trigger] colliders[j]).kind == ColliderKind::UnlockingBorder
            ==> j == k
}

/// An exit on the ring: exactly one unlocking tile, at the exit, with the
/// sensor right after it.
proof fn lemma_exit_on_ring(data: LevelData) -> (k: int)
    requires
        on_border(data, data.exit.x as int, data.exit.y as int),
        exit_sensor_fits(data),
    ensures
        0 <= k && k + 1 < all_colliders(data).len(),
        all_colliders(data)[k] == (ColliderSpec {
            position: data.exit,
            wall_type: border_type(data),
            kind: ColliderKind::UnlockingBorder,
        }),
        all_colliders(data)[k + 1].kind == ColliderKind::NextLevelSensor,
        all_colliders(data)[k + 1].wall_type == WallType::Exit,
        all_colliders(data)[k + 1].position.x == sensor_position(data.exit).0,
        all_colliders(data)[k + 1].position.y == sensor_position(data.exit).1,
        forall|j: int|
            0 <= j < all_colliders(data).len() && (#[trigger] all_colliders(data)[j]).kind
                == ColliderKind::UnlockingBorder ==> j == k,
{
    let k0 = lemma_exit_found(data);
    let inner_len = inner_colliders(data.walls@).len();
    assert forall|j: int|
        0 <= j < all_colliders(data).len() && (#[trigger] all_colliders(data)[j]).kind
            == ColliderKind::UnlockingBorder implies j == k0 by {
        let (a, b, t) = lemma_special_from_exit(data, j);
        lemma_border_at_unique(data, j - inner_len, k0 - inner_len, a, b, t);
    }
    k0
}

/// An exit off the ring: no unlocking tile and no sensor.
proof fn lemma_exit_off_ring(data: LevelData)
    requires
        !on_border(data, data.exit.x as int, data.exit.y as int),
    ensures
        forall|j: int|
            0 <= j < all_colliders(data).len() ==> (#[trigger] all_colliders(data)[j]).kind
                != ColliderKind::UnlockingBorder && all_colliders(data)[j].kind
                != ColliderKind::NextLevelSensor,
{
    assert forall|j: int| 0 <= j < all_colliders(data).len() implies (#[trigger] all_colliders(
        data,
    )[j]).kind != ColliderKind::UnlockingBorder && all_colliders(data)[j].kind
        != ColliderKind::NextLevelSensor by {
        if all_colliders(data)[j].kind == ColliderKind::UnlockingBorder || all_colliders(data)[j].kind
            == ColliderKind::NextLevelSensor {
            let (a, b, t) = lemma_special_from_exit(data, j);
        }
    }
}

/// The exit of a level: when it lies on the ring around the level, the
/// level's colliders hold exactly one unlocking border tile, at the exit, with
/// the next-level sensor right after it at the sensor position beyond the
/// exit (on whichever side of the ring the exit is); when it does not, they
/// hold neither an unlocking border tile nor a sensor.
pub proof fn lemma_exit_colliders(data: LevelData)
    requires
        exit_sensor_fits(data),
    ensures
        on_border(data, data.exit.x as int, data.exit.y as int) ==> exists|k: int|
            #[trigger] exit_pair_at(all_colliders(data), data, k),
        !on_border(data, data.exit.x as int, data.exit.y as int) ==> forall|j: int|
            0 <= j < all_colliders(data).len() ==> (#[trigger] all_colliders(data)[j]).kind
                != ColliderKind::UnlockingBorder && all_colliders(data)[j].kind
                != ColliderKind::NextLevelSensor,
{
    if on_border(data, data.exit.x as int, data.exit.y as int) {
        let k = lemma_exit_on_ring(data);
        assert(exit_pair_at(all_colliders(data), data, k));
    } else {
        lemma_exit_off_ring(data);
    }
}

} // verus!
