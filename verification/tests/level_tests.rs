use signal_game::control::{
    ButtonInteraction, CursorKind, DebugModeEnabled, GameState, KeyEvent, button_cursor,
    change_level, inputs_allowed, is_playing, should_close_credits, toggle_debug_mode,
};
use signal_game::layout::{
    ColliderKind, ColliderSpec, LevelReady, boundary_wall_type, exit_sensor_position,
    level_colliders, level_ready,
};
use signal_game::level::{
    CurrentLevel, LevelData, LevelPlan, StoryRange, TileCoord, TilePos, WallData, WallType,
    plan_level,
};
use signal_game::maze::GridPos;

fn level(size: (u32, u32), walls: Vec<WallData>, exit: (i32, i32), absorb: Option<bool>) -> LevelData {
    LevelData {
        player_spawn: TilePos { x: 1, y: 2 },
        target_spawn: TilePos { x: 3, y: 4 },
        level_size: TilePos { x: size.0, y: size.1 },
        walls,
        story: Some(StoryRange { start: 0, end: 2 }),
        exit: TileCoord { x: exit.0, y: exit.1 },
        absorb_boundary: absorb,
    }
}

fn at(c: &ColliderSpec) -> (i32, i32) {
    (c.position.x, c.position.y)
}

#[test]
fn current_level_moves() {
    let mut level = CurrentLevel(None);
    assert_eq!(level.get(), 0);
    level.next();
    assert_eq!(level.0, None);
    level.prev();
    assert_eq!(level.0, None);
    level.start();
    assert_eq!(level.0, Some(0));
    level.prev();
    assert_eq!(level.0, Some(0));
    level.next();
    level.next();
    assert_eq!(level.get(), 2);
    level.prev();
    assert_eq!(level.0, Some(1));
}

#[test]
fn next_then_prev_returns() {
    for start in [None, Some(0usize), Some(1), Some(7)] {
        let mut level = CurrentLevel(start);
        level.next();
        level.prev();
        assert_eq!(level.0, start);
    }
}

#[test]
fn level_plans() {
    assert_eq!(plan_level(&CurrentLevel(None), 2), LevelPlan::Idle);
    assert_eq!(plan_level(&CurrentLevel(Some(0)), 2), LevelPlan::Build(0));
    assert_eq!(plan_level(&CurrentLevel(Some(1)), 2), LevelPlan::Build(1));
    assert_eq!(plan_level(&CurrentLevel(Some(2)), 2), LevelPlan::Finished);
    assert_eq!(plan_level(&CurrentLevel(Some(0)), 0), LevelPlan::Finished);
}

#[test]
fn small_level_colliders() {
    let wall = WallData { x: 0, y: 0, height: 1, width: 1, wall_type: WallType::Absorb };
    let data = level((2, 1), vec![wall], (2, 0), None);
    let colliders = level_colliders(&data);
    assert_eq!(colliders.len(), 12);
    assert_eq!(at(&colliders[0]), (0, 0));
    assert_eq!(colliders[0].kind, ColliderKind::InnerWall);
    assert_eq!(colliders[0].wall_type, WallType::Absorb);
    let ring: Vec<(i32, i32)> = colliders[1..].iter().map(at).collect();
    assert_eq!(
        ring,
        vec![
            (-1, -1), (-1, 0), (-1, 1),
            (0, -1), (0, 1),
            (1, -1), (1, 1),
            (2, -1), (2, 0), (3, 0), (2, 1),
        ]
    );
    for c in &colliders[1..] {
        match at(c) {
            (2, 0) => {
                assert_eq!(c.kind, ColliderKind::UnlockingBorder);
                assert_eq!(c.wall_type, WallType::Solid);
            }
            (3, 0) => {
                assert_eq!(c.kind, ColliderKind::NextLevelSensor);
                assert_eq!(c.wall_type, WallType::Exit);
            }
            _ => {
                assert_eq!(c.kind, ColliderKind::OuterWall);
                assert_eq!(c.wall_type, WallType::Solid);
            }
        }
    }
}

#[test]
fn wall_rectangles_column_by_column() {
    let wall = WallData { x: 5, y: 6, height: 2, width: 3, wall_type: WallType::Solid };
    let data = level((0, 0), vec![wall], (100, 100), Some(true));
    let colliders = level_colliders(&data);
    let inner: Vec<(i32, i32)> = colliders[..6].iter().map(at).collect();
    assert_eq!(inner, vec![(5, 6), (5, 7), (6, 6), (6, 7), (7, 6), (7, 7)]);
    // a zero-sized level still has its ring: the 2 by 2 block around the origin
    let ring: Vec<(i32, i32)> = colliders[6..].iter().map(at).collect();
    assert_eq!(ring, vec![(-1, -1), (-1, 0), (0, -1), (0, 0)]);
    assert!(colliders[6..].iter().all(|c| c.wall_type == WallType::Absorb && c.kind == ColliderKind::OuterWall));
}

#[test]
fn exit_inside_level_has_no_sensor() {
    let data = level((3, 3), vec![], (1, 1), Some(false));
    let colliders = level_colliders(&data);
    assert_eq!(colliders.len(), 16);
    assert!(colliders.iter().all(|c| c.kind == ColliderKind::OuterWall));
}

#[test]
fn exit_sensor_goes_outward() {
    assert_eq!(exit_sensor_position(TileCoord { x: -1, y: 5 }), TileCoord { x: -1, y: 6 });
    assert_eq!(exit_sensor_position(TileCoord { x: 7, y: 2 }), TileCoord { x: 8, y: 2 });
    assert_eq!(exit_sensor_position(TileCoord { x: 3, y: -1 }), TileCoord { x: 4, y: -1 });
    assert_eq!(exit_sensor_position(TileCoord { x: 1, y: -1 }), TileCoord { x: 1, y: -2 });
    assert_eq!(exit_sensor_position(TileCoord { x: -4, y: 2 }), TileCoord { x: -5, y: 2 });
    assert_eq!(exit_sensor_position(TileCoord { x: 0, y: 0 }), TileCoord { x: 0, y: 0 });
    assert_eq!(exit_sensor_position(TileCoord { x: 2, y: 2 }), TileCoord { x: 2, y: 3 });
}

#[test]
fn border_type_follows_absorb_flag() {
    assert_eq!(boundary_wall_type(&level((1, 1), vec![], (0, 0), Some(true))), WallType::Absorb);
    assert_eq!(boundary_wall_type(&level((1, 1), vec![], (0, 0), Some(false))), WallType::Solid);
    assert_eq!(boundary_wall_type(&level((1, 1), vec![], (0, 0), None)), WallType::Solid);
}

#[test]
fn ready_message_from_level() {
    let data = level((4, 4), vec![], (4, 0), None);
    assert_eq!(
        level_ready(&data),
        LevelReady {
            player: GridPos::new(1, 2),
            target: GridPos::new(3, 4),
            story_index_range: Some(StoryRange { start: 0, end: 2 }),
        }
    );
}

#[test]
fn debug_toggle_counts_fresh_presses() {
    let press = KeyEvent { is_backquote: true, pressed: true, repeat: false };
    let repeat = KeyEvent { is_backquote: true, pressed: true, repeat: true };
    let release = KeyEvent { is_backquote: true, pressed: false, repeat: false };
    let other = KeyEvent { is_backquote: false, pressed: true, repeat: false };
    let mut mode = DebugModeEnabled::disabled();
    toggle_debug_mode(&mut mode, &vec![press, repeat, release, other]);
    assert_eq!(mode, DebugModeEnabled::enabled());
    toggle_debug_mode(&mut mode, &vec![press, press, press]);
    assert_eq!(mode, DebugModeEnabled(false));
    toggle_debug_mode(&mut mode, &vec![]);
    assert!(!mode.0);
}

#[test]
fn debug_level_keys() {
    let mut level = CurrentLevel(Some(3));
    change_level(&mut level, true, false);
    assert_eq!(level.0, Some(4));
    change_level(&mut level, false, true);
    assert_eq!(level.0, Some(3));
    change_level(&mut level, true, true);
    assert_eq!(level.0, Some(3));
    let mut level = CurrentLevel(Some(0));
    change_level(&mut level, false, true);
    assert_eq!(level.0, Some(0));
}

#[test]
fn input_gating() {
    assert!(is_playing(GameState::Playing));
    assert!(!is_playing(GameState::NotPlaying));
    assert!(inputs_allowed(GameState::Playing, false));
    assert!(!inputs_allowed(GameState::Playing, true));
    assert!(!inputs_allowed(GameState::NotPlaying, false));
}

#[test]
fn cursor_and_credits() {
    assert_eq!(button_cursor(ButtonInteraction::Hovered), Some(CursorKind::Pointer));
    assert_eq!(button_cursor(ButtonInteraction::Idle), Some(CursorKind::Default));
    assert_eq!(button_cursor(ButtonInteraction::Pressed), None);
    assert!(should_close_credits(true, false, true));
    assert!(should_close_credits(false, true, true));
    assert!(!should_close_credits(true, true, false));
    assert!(!should_close_credits(false, false, true));
}
