//! The target the player has to find: it fades in when lit by the lidar,
//! stays active once bright enough, and unlocks the level exit once per
//! activation when the player interacts with it in range.

use vstd::prelude::*;

verus! {

/// The target's state.
#[derive(Clone, Copy, Debug, PartialEq, Eq, Structural)]
pub struct GameTarget {
    pub is_active: bool,
    pub did_interact: bool,
}

/// The target after an interaction attempt, and whether it unlocked the exit.
pub open spec fn interact_spec(t: GameTarget, in_range: bool, pressed: bool) -> (GameTarget, bool) {
    if !t.is_active || t.did_interact {
        (t, false)
    } else if in_range && pressed {
        (GameTarget { did_interact: true, ..t }, true)
    } else {
        (t, false)
    }
}

/// The target after its per-frame state update.
pub open spec fn update_spec(t: GameTarget) -> GameTarget {
    if !t.is_active {
        GameTarget { did_interact: false, ..t }
    } else {
        t
    }
}

impl GameTarget {
    /// A target not yet found.
    pub fn new() -> (t: GameTarget)
        ensures
            !t.is_active,
            !t.did_interact,
    {
        GameTarget { is_active: false, did_interact: false }
    }

    /// A new level places the target, inactive.
    pub fn place(&mut self)
        ensures
            !final(self).is_active,
            final(self).did_interact == old(self).did_interact,
    {
        self.is_active = false;
    }

    /// One frame of fading: once the target is bright enough it becomes active
    /// for good. Returns whether it fades in (active) or out.
    pub fn fade_step(&mut self, bright_enough: bool) -> (fading_in: bool)
        ensures
            final(self).is_active == (old(self).is_active || bright_enough),
            final(self).did_interact == old(self).did_interact,
            fading_in == final(self).is_active,
    {
        if bright_enough {
            self.is_active = true;
        }
        self.is_active
    }

    /// The player tries to interact: an active target not yet used unlocks the
    /// exit when the player is in range and presses. Returns whether it did.
    pub fn interact(&mut self, in_range: bool, pressed: bool) -> (unlocked: bool)
        ensures
            (*final(self), unlocked) == interact_spec(*old(self), in_range, pressed),
            unlocked == (old(self).is_active && !old(self).did_interact && in_range && pressed),
            unlocked ==> final(self).did_interact && final(self).is_active == old(self).is_active,
            !unlocked ==> *final(self) == *old(self),
    {
        if !self.is_active || self.did_interact {
            return false;
        }
        if in_range && pressed {
            self.did_interact = true;
            return true;
        }
        false
    }

    /// The per-frame update: an inactive target can be used again once it
    /// becomes active. Returns whether the target glows (it does while active).
    pub fn update_state(&mut self) -> (glowing: bool)
        ensures
            *final(self) == update_spec(*old(self)),
            glowing == final(self).is_active,
    {
        if !self.is_active {
            self.did_interact = false;
        }
        self.is_active
    }
}

/// A target unlocks the exit at most once while it stays active: after an
/// interaction that unlocked, further interactions and updates unlock nothing
/// until the target is deactivated.
pub proof fn lemma_unlock_once(t: GameTarget, in_range: bool, pressed: bool, in_range2: bool, pressed2: bool)
    requires
        interact_spec(t, in_range, pressed).1,
    ensures
        ({
            let after = interact_spec(t, in_range, pressed).0;
            &&& after.is_active
            &&& update_spec(after) == after
            &&& !interact_spec(update_spec(after), in_range2, pressed2).1
        }),
{
}

/// Once deactivated and updated, a used target can unlock again when it
/// becomes active and the player interacts in range.
pub proof fn lemma_reactivated_unlocks(t: GameTarget)
    ensures
        ({
            let placed = GameTarget { is_active: false, ..t };
            let updated = update_spec(placed);
            let lit = GameTarget { is_active: true, ..updated };
            interact_spec(lit, true, true).1
        }),
{
}

/// An interaction unlocks the exit only when the target is active and unused
/// and the player is in range and presses; an unlocking interaction marks the
/// target used, and any other leaves it exactly as it was.
pub proof fn lemma_unlock_needs_range_and_press(t: GameTarget, in_range: bool, pressed: bool)
    ensures
        interact_spec(t, in_range, pressed).1 <==> (t.is_active && !t.did_interact && in_range
            && pressed),
        interact_spec(t, in_range, pressed).1 ==> interact_spec(t, in_range, pressed).0
            == (GameTarget { is_active: t.is_active, did_interact: true }),
        !interact_spec(t, in_range, pressed).1 ==> interact_spec(t, in_range, pressed).0 == t,
{
}

} // verus!
