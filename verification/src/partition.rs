//! Partitioner: a pure, total map from an event to its optional routing key.

use vstd::prelude::*;
use crate::event::Event;

verus! {

/// Assigns each event its routing key from the event's own metadata. Events
/// with no key are later batched under the caller-supplied default key.
#[derive(Debug)]
pub struct EventPartitioner;

impl EventPartitioner {
    /// The key of an event: its routing metadata, if any.
    pub open spec fn partition_spec(item: &Event) -> Option<Seq<char>> {
        match item.api_key {
            Some(k) => Some(k@),
            None => None,
        }
    }

    /// Pure, total, deterministic: returns the event's routing metadata, or
    /// `None` when the event carries none. Absence is never a failure.
    pub fn partition(&self, item: &Event) -> (r: Option<String>)
        ensures
            key_view(r) == Self::partition_spec(item),
    {
        match &item.api_key {
            Some(k) => Some(k.clone()),
            None => None,
        }
    }
}

/// The abstract value of an optional routing key.
pub open spec fn key_view(k: Option<String>) -> Option<Seq<char>> {
    match k {
        Some(s) => Some(s@),
        None => None,
    }
}

/// Equality test on optional routing keys, usable from executable code.
pub fn key_eq(a: &Option<String>, b: &Option<String>) -> (r: bool)
    ensures
        r == (key_view(*a) == key_view(*b)),
{
    match (a, b) {
        (None, None) => true,
        (Some(x), Some(y)) => *x == *y,
        _ => false,
    }
}

} // verus!
