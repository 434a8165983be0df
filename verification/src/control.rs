//! Game-wide controls: whether input drives the game, the debug toggle, and
//! the small input decisions of the menus.

use crate::level::{CurrentLevel, next_level, prev_level};
use vstd::prelude::*;

verus! {

/// Whether the game is being played or the menus are up.
#[derive(Clone, Copy, Debug, PartialEq, Eq, Structural)]
pub enum GameState {
    NotPlaying,
    Playing,
}

/// The game is being played.
pub fn is_playing(state: GameState) -> (b: bool)
    ensures
        b == (state == GameState::Playing),
{
    state == GameState::Playing
}

/// Player input counts only while playing and while no story board is shown.
pub fn inputs_allowed(state: GameState, story_board_shown: bool) -> (b: bool)
    ensures
        b == (state == GameState::Playing && !story_board_shown),
{
    is_playing(state) && !story_board_shown
}

/// Whether the debug tools are on.
#[derive(Clone, Copy, Debug, PartialEq, Eq, Structural)]
pub struct DebugModeEnabled(pub bool);

impl DebugModeEnabled {
    pub fn enabled() -> (d: DebugModeEnabled)
        ensures
            d.0,
    {
        DebugModeEnabled(true)
    }

    pub fn disabled() -> (d: DebugModeEnabled)
        ensures
            !d.0,
    {
        DebugModeEnabled(false)
    }
}

/// A keyboard event, as far as the debug toggle looks at it.
#[derive(Clone, Copy, Debug, PartialEq, Eq, Structural)]
pub struct KeyEvent {
    /// The key is the backquote key.
    pub is_backquote: bool,
    /// The key went down (rather than up).
    pub pressed: bool,
    /// The event is an auto-repeat of a held key.
    pub repeat: bool,
}

/// The event flips the debug mode: a fresh press of the backquote key.
pub open spec fn toggles(e: KeyEvent) -> bool {
    e.is_backquote && e.pressed && !e.repeat
}

/// The debug mode after the events, flipped by each toggling event in turn.
pub open spec fn after_events(enabled: bool, events: Seq<KeyEvent>) -> bool
    decreases events.len(),
{
    if events.len() == 0 {
        enabled
    } else {
        let before = after_events(enabled, events.drop_last());
        if toggles(events.last()) {
            !before
        } else {
            before
        }
    }
}

/// Number of toggling events.
pub open spec fn toggle_count(events: Seq<KeyEvent>) -> nat
    decreases events.len(),
{
    if events.len() == 0 {
        0
    } else {
        toggle_count(events.drop_last()) + if toggles(events.last()) {
            1nat
        } else {
            0nat
        }
    }
}

/// Applies this frame's keyboard events to the debug mode.
pub fn toggle_debug_mode(debug_mode: &mut DebugModeEnabled, events: &Vec<KeyEvent>)
    ensures
        final(debug_mode).0 == after_events(old(debug_mode).0, events@),
        (forall|i: int|
            0 <= i < events@.len() ==> !((#[trigger] events@[i]).is_backquote && events@[i].pressed
                && !events@[i].repeat)) ==> final(debug_mode).0 == old(debug_mode).0,
{
    let ghost start = debug_mode.0;
    let mut i: usize = 0;
    while i < events.len()
        invariant
            i <= events@.len(),
            debug_mode.0 == after_events(start, events@.take(i as int)),
        decreases events@.len() - i,
    {
        let key = events[i];
        assert(events@.take(i + 1).drop_last() =~= events@.take(i as int));
        if !key.is_backquote || !key.pressed || key.repeat {
            i = i + 1;
            continue;
        }
        debug_mode.0 = !debug_mode.0;
        i = i + 1;
    }
    assert(events@.take(i as int) =~= events@);
    proof {
        lemma_only_fresh_backquote_toggles(start, events@);
    }
}

/// Events none of which is a fresh press of the backquote key leave the debug
/// mode as it was; appending a fresh backquote press flips the outcome, and
/// appending any other event leaves it.
pub proof fn lemma_only_fresh_backquote_toggles(enabled: bool, events: Seq<KeyEvent>)
    ensures
        (forall|i: int|
            0 <= i < events.len() ==> !((#[trigger] events[i]).is_backquote && events[i].pressed
                && !events[i].repeat)) ==> after_events(enabled, events) == enabled,
        forall|e: KeyEvent|
            #![trigger after_events(enabled, events.push(e))]
            (e.is_backquote && e.pressed && !e.repeat) ==> after_events(enabled, events.push(e))
                == !after_events(enabled, events),
        forall|e: KeyEvent|
            #![trigger after_events(enabled, events.push(e))]
            !(e.is_backquote && e.pressed && !e.repeat) ==> after_events(enabled, events.push(e))
                == after_events(enabled, events),
    decreases events.len(),
{
    assert forall|e: KeyEvent| true implies #[trigger] events.push(e).drop_last() == events
        && events.push(e).last() == e by {
        assert(events.push(e).drop_last() =~= events);
    }
    if events.len() > 0 {
        lemma_only_fresh_backquote_toggles(enabled, events.drop_last());
        if forall|i: int|
            0 <= i < events.len() ==> !((#[trigger] events[i]).is_backquote && events[i].pressed
                && !events[i].repeat) {
            assert forall|i: int| 0 <= i < events.drop_last().len() implies !((
            #[trigger] events.drop_last()[i]).is_backquote && events.drop_last()[i].pressed
                && !events.drop_last()[i].repeat) by {
                assert(events.drop_last()[i] == events[i]);
            }
            assert(events[events.len() - 1] == events.last());
        }
    }
}

/// The debug mode ends flipped exactly when an odd number of events toggled it.
pub proof fn lemma_toggle_parity(enabled: bool, events: Seq<KeyEvent>)
    ensures
        after_events(enabled, events) == (enabled != (toggle_count(events) % 2 == 1)),
    decreases events.len(),
{
    if events.len() > 0 {
        lemma_toggle_parity(enabled, events.drop_last());
    }
}

/// In debug mode, `=` moves to the next level and `-` back to the previous
/// one (both, in that order, when both are pressed).
pub fn change_level(current_level: &mut CurrentLevel, next_pressed: bool, prev_pressed: bool)
    requires
        next_pressed ==> (old(current_level).0 matches Some(level) ==> level < usize::MAX),
    ensures
        final(current_level).0 == ({
            let after_next = if next_pressed {
                next_level(old(current_level).0)
            } else {
                old(current_level).0
            };
            if prev_pressed {
                prev_level(after_next)
            } else {
                after_next
            }
        }),
{
    if next_pressed {
        current_level.next();
    }
    if prev_pressed {
        current_level.prev();
    }
}

/// The state of a button under the mouse.
#[derive(Clone, Copy, Debug, PartialEq, Eq, Structural)]
pub enum ButtonInteraction {
    Pressed,
    Hovered,
    Idle,
}

/// The mouse cursor shown over a window.
#[derive(Clone, Copy, Debug, PartialEq, Eq, Structural)]
pub enum CursorKind {
    Pointer,
    Default,
}

/// The cursor a change of button interaction calls for: the pointer on hover,
/// the default when the mouse leaves, and no change while pressed.
pub fn button_cursor(interaction: ButtonInteraction) -> (c: Option<CursorKind>)
    ensures
        c == match interaction {
            ButtonInteraction::Hovered => Some(CursorKind::Pointer),
            ButtonInteraction::Idle => Some(CursorKind::Default),
            ButtonInteraction::Pressed => None::<CursorKind>,
        },
{
    match interaction {
        ButtonInteraction::Hovered => Some(CursorKind::Pointer),
        ButtonInteraction::Idle => Some(CursorKind::Default),
        ButtonInteraction::Pressed => None,
    }
}

/// The credits panel closes on Enter, Space, Escape or a left click, when it
/// is open.
pub fn should_close_credits(key_pressed: bool, left_clicked: bool, panel_open: bool) -> (b: bool)
    ensures
        b == ((key_pressed || left_clicked) && panel_open),
{
    (key_pressed || left_clicked) && panel_open
}

} // verus!
