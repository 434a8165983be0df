//! The short list of room steps that the generator collects around a room,
//! held in a `smallvec::SmallVec` as in the generator's design.

use crate::maze::GridPos;
use smallvec::SmallVec;
use vstd::prelude::*;

verus! {

/// A `SmallVec` of at most four inline `(room, wall)` steps. Verus cannot read
/// `SmallVec`'s declaration, so the vector sits in this struct's private field
/// and its contents are known only through `room_steps`.
#[verifier::external_body]
pub struct RoomSteps {
    items: SmallVec<[(GridPos, GridPos); 4]>,
}

/// The steps held by a `RoomSteps`, in insertion order.
pub uninterp spec fn room_steps(v: RoomSteps) -> Seq<(GridPos, GridPos)>;

/// Calls `SmallVec::new`, which makes an empty vector.
#[verifier::external_body]
pub(crate) fn steps_new() -> (v: RoomSteps)
    ensures
        room_steps(v) == Seq::<(GridPos, GridPos)>::empty(),
{
    RoomSteps { items: SmallVec::new() }
}

/// Calls `SmallVec::push`, which appends the item at the end.
#[verifier::external_body]
pub(crate) fn steps_push(v: &mut RoomSteps, item: (GridPos, GridPos))
    ensures
        room_steps(*final(v)) == room_steps(*old(v)).push(item),
{
    v.items.push(item)
}

/// Calls `SmallVec::len`, the number of items held.
#[verifier::external_body]
pub(crate) fn steps_len(v: &RoomSteps) -> (n: usize)
    ensures
        n == room_steps(*v).len(),
{
    v.items.len()
}

/// Indexes the `SmallVec` (its `Index` impl), which returns the item at
/// position `i` and panics when `i` is out of range.
#[verifier::external_body]
pub(crate) fn steps_get(v: &RoomSteps, i: usize) -> (item: (GridPos, GridPos))
    requires
        i < room_steps(*v).len(),
    ensures
        item == room_steps(*v)[i as int],
{
    v.items[i]
}

impl RoomSteps {
    /// The steps, in order, as a vector.
    pub fn to_vec(&self) -> (v: Vec<(GridPos, GridPos)>)
        ensures
            v@ == room_steps(*self),
    {
        let mut v: Vec<(GridPos, GridPos)> = Vec::new();
        let n = steps_len(self);
        let mut i: usize = 0;
        while i < n
            invariant
                i <= n,
                n == room_steps(*self).len(),
                v@ == room_steps(*self).take(i as int),
            decreases n - i,
        {
            v.push(steps_get(self, i));
            assert(room_steps(*self).take(i + 1) =~= room_steps(*self).take(i as int).push(
                room_steps(*self)[i as int],
            ));
            i = i + 1;
        }
        assert(room_steps(*self).take(n as int) =~= room_steps(*self));
        v
    }
}

} // verus!
