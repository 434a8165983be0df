use signal_game::level::StoryRange;
use signal_game::maze::GridPos;
use signal_game::player::{
    MoveKeys, PlayerFacing, Steering, TILE_SIZE_U32, match_colliders, steer, tile_to_pixels,
};
use signal_game::story::{BoardDisplay, PanelClick, StoryBoard, StoryPanel, TOTAL_STORY_PANELS};
use signal_game::target::GameTarget;

fn keys(up: bool, down: bool, right: bool, left: bool) -> MoveKeys {
    MoveKeys { up, down, right, left }
}

#[test]
fn facing_directions_and_sprites() {
    assert_eq!(PlayerFacing::Up.direction(), (0, 1));
    assert_eq!(PlayerFacing::Down.direction(), (0, -1));
    assert_eq!(PlayerFacing::Left.direction(), (-1, 0));
    assert_eq!(PlayerFacing::Right.direction(), (1, 0));
    assert_eq!(PlayerFacing::Up.get_sprite(), (false, 1));
    assert_eq!(PlayerFacing::Down.get_sprite(), (false, 2));
    assert_eq!(PlayerFacing::Left.get_sprite(), (false, 0));
    assert_eq!(PlayerFacing::Right.get_sprite(), (true, 0));
}

#[test]
fn steering_from_keys() {
    assert_eq!(
        steer(PlayerFacing::Right, keys(false, false, false, false)),
        Steering { facing: PlayerFacing::Right, dx: 0, dy: 0 }
    );
    assert_eq!(
        steer(PlayerFacing::Right, keys(true, false, false, true)),
        Steering { facing: PlayerFacing::Left, dx: -1, dy: 1 }
    );
    assert_eq!(
        steer(PlayerFacing::Left, keys(true, true, false, false)),
        Steering { facing: PlayerFacing::Down, dx: 0, dy: 0 }
    );
    assert_eq!(
        steer(PlayerFacing::Up, keys(false, true, true, false)),
        Steering { facing: PlayerFacing::Right, dx: 1, dy: -1 }
    );
    assert_eq!(
        steer(PlayerFacing::Down, keys(true, true, true, true)),
        Steering { facing: PlayerFacing::Left, dx: 0, dy: 0 }
    );
}

#[test]
fn tiles_to_pixels() {
    assert_eq!(TILE_SIZE_U32, 16);
    assert_eq!(tile_to_pixels(GridPos::new(2, 3)), GridPos::new(32, 48));
    assert_eq!(tile_to_pixels(GridPos::new(0, 0)), GridPos::new(0, 0));
}

#[test]
fn collider_matching() {
    assert_eq!(match_colliders(1u64, 2u64, true, true, false, false), Some((1, 2)));
    assert_eq!(match_colliders(1u64, 2u64, false, false, true, true), Some((1, 2)));
    assert_eq!(match_colliders(1u64, 2u64, true, false, false, true), None);
    assert_eq!(match_colliders(1u64, 2u64, false, false, false, false), None);
}

#[test]
fn story_board_walks_its_range() {
    let mut board = StoryBoard::new();
    assert_eq!(board.display(), BoardDisplay::Hidden);
    board.advance();
    assert_eq!(board, StoryBoard::new());
    board.show_level_story(None);
    assert_eq!(board.display(), BoardDisplay::Hidden);
    board.show_level_story(Some(StoryRange { start: 2, end: 3 }));
    assert_eq!(board.display(), BoardDisplay::Shown(2));
    board.advance();
    assert_eq!(board.display(), BoardDisplay::Shown(3));
    board.advance();
    assert_eq!(board.display(), BoardDisplay::Hidden);
    board.show_level_story(None);
    assert_eq!(board.display(), BoardDisplay::Hidden);
    board.show_level_story(Some(StoryRange { start: 0, end: 0 }));
    assert_eq!(board.display(), BoardDisplay::Shown(0));
}

#[test]
fn story_panels_then_game() {
    assert_eq!(TOTAL_STORY_PANELS, 2);
    let mut panel = StoryPanel::new();
    assert_eq!(panel.click(), PanelClick::ShowPanel(1));
    assert_eq!(panel.click(), PanelClick::StartGame);
    assert_eq!(panel.click(), PanelClick::ShowPanel(3));
}

#[test]
fn target_unlocks_once_per_activation() {
    let mut target = GameTarget::new();
    assert!(!target.interact(true, true));
    assert!(!target.fade_step(false));
    assert!(target.fade_step(true));
    assert!(target.fade_step(false));
    assert!(!target.interact(false, true));
    assert!(!target.interact(true, false));
    assert!(target.interact(true, true));
    assert!(target.update_state());
    assert!(!target.interact(true, true));
    target.place();
    assert!(!target.update_state());
    assert_eq!(target, GameTarget { is_active: false, did_interact: false });
    target.fade_step(true);
    assert!(target.interact(true, true));
}
