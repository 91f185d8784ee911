//! When an attribute group of an object was last updated.

use crate::tick::Tick;
use core::marker::PhantomData;
use vstd::prelude::*;

verus! {

/// The tick a bundle was last updated at. Additionally, `LastUpdate<()>` is used to track the last
/// change to the entity.
#[derive(Debug)]
pub struct LastUpdate<T> {
    tick: Tick,
    _phantom: PhantomData<T>,
}

impl<T> View for LastUpdate<T> {
    type V = Tick;

    closed spec fn view(&self) -> Tick {
        self.tick
    }
}

impl<T> PartialEq for LastUpdate<T> {
    fn eq(&self, other: &Self) -> (r: bool) {
        self.tick.0 == other.tick.0
    }
}

impl<T> vstd::std_specs::cmp::PartialEqSpecImpl for LastUpdate<T> {
    open spec fn obeys_eq_spec() -> bool {
        true
    }

    open spec fn eq_spec(&self, other: &Self) -> bool {
        self@ == other@
    }
}

impl<T> LastUpdate<T> {
    /// Construct a LastUpdate
    pub fn new(tick: Tick) -> (r: LastUpdate<T>)
        ensures
            r@ == tick,
    {
        LastUpdate { tick, _phantom: PhantomData }
    }

    /// The tick of the last update.
    pub fn tick(&self) -> (r: Tick)
        ensures
            r == self@,
    {
        self.tick
    }

    /// Note an update of the given tick.
    pub fn set(&mut self, tick: Tick)
        ensures
            final(self)@ == tick,
    {
        self.tick = tick;
    }

    /// Note an update of the given tick, unless a newer one was noted
    /// before: what is kept is the most recent update.
    pub fn touch(&mut self, tick: Tick)
        ensures
            final(self)@ == (if tick.0 > old(self)@.0 {
                tick
            } else {
                old(self)@
            }),
    {
        if tick.0 > self.tick.0 {
            self.tick = tick;
        }
    }
}

} // verus!
