//! Byte-size accountant: exact counts and estimated byte totals of the events
//! that were actually serialized, attached to each wire request as metadata.

use vstd::prelude::*;
use crate::event::Event;

verus! {

/// Aggregated request metadata: how many events a container holds and the sum
/// of their estimated encoded sizes. Recorded only for events that were
/// committed by the serializer, never for events pushed back or dropped.
#[derive(Clone, Copy, Debug, PartialEq, Eq, Structural)]
pub struct CountByteSize {
    /// Number of events committed into the container.
    pub count: usize,
    /// Sum of the committed events' estimated encoded sizes, in bytes.
    pub byte_size: usize,
}

impl CountByteSize {
    /// An empty accumulator: nothing committed yet.
    pub fn new() -> (r: CountByteSize)
        ensures
            r.count == 0,
            r.byte_size == 0,
    {
        CountByteSize { count: 0, byte_size: 0 }
    }

    /// Records one committed event and its estimated size.
    pub fn add_event(&mut self, event: &Event)
        requires
            old(self).count < usize::MAX,
            old(self).byte_size + event.estimated_size_spec() <= usize::MAX,
        ensures
            final(self).count == old(self).count + 1,
            final(self).byte_size == old(self).byte_size + event.estimated_size_spec(),
    {
        self.count = self.count + 1;
        self.byte_size = self.byte_size + event.estimated_size();
    }
}

} // verus!
