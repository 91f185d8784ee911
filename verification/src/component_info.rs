//! Values as the other side last sent them, kept apart from the values
//! that this side works with.

use crate::tick::Tick;
use vstd::prelude::*;

verus! {

/// A container for the remote values from synchronized bundles. If this component is around, then
/// updates for T will be stored here instead of being applied directly
pub struct Remote<T> {
    tick: Tick,
    value: T,
}

impl<T: Default> Default for Remote<T> {
    fn default() -> (r: Remote<T>)
        ensures
            r.stamped() == Tick(0),
    {
        Remote::new(T::default())
    }
}

impl<T> Remote<T> {
    /// The tick that the value is from.
    pub closed spec fn stamped(&self) -> Tick {
        self.tick
    }

    /// The value as the other side last sent it.
    pub closed spec fn held(&self) -> T {
        self.value
    }

    /// Construct a Remote with the given value
    pub fn new(value: T) -> (r: Remote<T>)
        ensures
            r.stamped() == Tick(0),
            r.held() == value,
    {
        Remote { tick: Tick(0), value }
    }

    /// Get the tick the latest remote value was from
    pub fn tick(&self) -> (r: Tick)
        ensures
            r == self.stamped(),
    {
        self.tick
    }

    /// The value as the other side last sent it.
    pub fn get(&self) -> (r: &T)
        ensures
            *r == self.held(),
    {
        &self.value
    }

    /// Update the value and tick for this remote value
    pub fn update(&mut self, tick: Tick) -> (r: &mut T)
        ensures
            *r == old(self).held(),
            final(self).stamped() == tick,
            final(self).held() == *final(r),
    {
        self.tick = tick;
        &mut self.value
    }
}

} // verus!
