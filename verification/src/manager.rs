//! Loosely coupled add-on managers that observe entity lifecycles without
//! taking part in the core state machine.

use vstd::prelude::*;

use crate::entity::Entity;

pub mod event;
pub mod group;

verus! {

/// An auxiliary keyed store that wants to hear when entities come and go,
/// typically to prune stale references.  The default hooks do nothing.
pub trait Manager {
    /// An entity was built and settled at a flush point.
    fn activated(&mut self, _entity: &Entity) {
    }

    /// An entity was removed at a flush point.
    fn deactivated(&mut self, _entity: &Entity) {
    }
}

} // verus!
