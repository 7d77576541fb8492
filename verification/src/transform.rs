//! The externally supplied transform/encoding step: a synchronous, pure
//! rewrite of an event's payload and labels, applied once per event before
//! size estimation. A transform never touches an event's acknowledgement
//! identity.

use vstd::prelude::*;
use crate::event::Event;

verus! {

/// A configuration-supplied per-event rewrite.
pub trait Transform: Sized {
    /// The event this transform produces for a given input event.
    spec fn transform_spec(&self, e: Event) -> Event;

    /// Applies the rewrite. The finalizer is preserved: a transform may
    /// rewrite or relabel the payload, never the acknowledgement handle.
    fn apply(&self, e: Event) -> (r: Event)
        ensures
            r == self.transform_spec(e),
            r.finalizer == e.finalizer,
    ;
}

/// The transform that leaves every event unchanged.
#[derive(Clone, Copy, Debug)]
pub struct IdentityTransform;

impl Transform for IdentityTransform {
    open spec fn transform_spec(&self, e: Event) -> Event {
        e
    }

    fn apply(&self, e: Event) -> (r: Event) {
        e
    }
}

} // verus!
