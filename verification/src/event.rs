//! What the event loop reacts to.

use vstd::prelude::*;

use crate::keys::TermEvent;

verus! {

/// One thing that woke the loop up. `C` is what the engine reports.
#[derive(Clone, Debug, PartialEq, Eq)]
pub enum AppEvent<C> {
    /// The user pressed a key, moved the wheel, or resized the window.
    Term(TermEvent),
    /// The engine reported progress on a turn.
    Core(Box<C>),
    /// The frame budget elapsed; nothing changed but the clock.
    Tick,
}

impl<C> AppEvent<C> {
    /// Wraps an engine event.
    pub fn from_core(event: C) -> (e: AppEvent<C>)
        ensures
            e == AppEvent::Core(Box::new(event)),
    {
        AppEvent::Core(Box::new(event))
    }
}

} // verus!
