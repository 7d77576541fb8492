//! Output stage of a log shipping pipeline: an unbounded stream of events is
//! partitioned by routing key, grouped into bounded batches, packed into
//! byte-capped containers by a greedy single-pass serializer, and turned into
//! wire requests that carry the events' acknowledgement handles.
//!
//! The pipeline never loses an event silently: every event either has its
//! finalizer moved into exactly one wire request, or is resolved with a
//! terminal disposition (dropped as oversize, or errored on a failed build).

use vstd::prelude::*;

pub mod accountant;
pub mod batcher;
pub mod builder;
pub mod codec;
pub mod event;
pub mod partition;
pub mod plan;
pub mod serializer;
pub mod sink;
pub mod transform;

verus! {

/// Hard ceiling, in bytes, on one serialized container (before compression).
pub const MAX_PAYLOAD_BYTES: usize = 5_000_000;

} // verus!
