//! The event model: an opaque encoded payload, optional routing metadata, and
//! an acknowledgement handle (finalizer) that must be resolved exactly once.

use vstd::prelude::*;

verus! {

/// Terminal fate of an event, reported through its finalizer.
#[derive(Clone, Copy, Debug, PartialEq, Eq, Structural)]
pub enum Disposition {
    /// Not yet resolved; the dispatch driver resolves it after delivery.
    Pending,
    /// Confirmed delivered by the dispatch driver.
    Delivered,
    /// Discarded by the pipeline (for instance: too large to encode).
    Dropped,
    /// Lost to a request-build failure.
    Errored,
}

/// Acknowledgement handle tied to one event. Ownership of the value is
/// ownership of the obligation to resolve it exactly once.
#[derive(Clone, Copy, Debug, PartialEq, Eq, Structural)]
pub struct Finalizer {
    /// Identity of the handle, stable across the pipeline.
    pub id: u64,
    /// Current resolution state.
    pub status: Disposition,
}

/// A structured record as the pipeline owns it: the payload already encoded
/// to bytes by the upstream encoding step, routing metadata, and a finalizer.
#[derive(Debug)]
pub struct Event {
    /// Encoded payload bytes; one container entry.
    pub payload: Vec<u8>,
    /// Optional routing key; events without one share the configured default.
    pub api_key: Option<String>,
    /// Acknowledgement handle, resolved exactly once downstream.
    pub finalizer: Finalizer,
}

impl Event {
    /// O(1) estimate of the encoded size of this event. The payload is
    /// already encoded, so its length is the estimate.
    pub open spec fn estimated_size_spec(&self) -> nat {
        self.payload@.len()
    }

    /// Cheap per-event size estimate used for batch-closing decisions and
    /// for the aggregated byte-size telemetry.
    pub fn estimated_size(&self) -> (r: usize)
        ensures
            r == self.estimated_size_spec(),
    {
        self.payload.len()
    }
}

/// The finalizers of a sequence of events, in event order.
pub open spec fn fin_seq(s: Seq<Event>) -> Seq<Finalizer> {
    s.map_values(|e: Event| e.finalizer)
}

/// The finalizer identities of a sequence of events, in event order.
pub open spec fn fin_ids(s: Seq<Event>) -> Seq<u64> {
    s.map_values(|e: Event| e.finalizer.id)
}

/// The finalizer identities of a sequence of finalizers, in order.
pub open spec fn ids_of(s: Seq<Finalizer>) -> Seq<u64> {
    s.map_values(|f: Finalizer| f.id)
}

/// True when every finalizer in the sequence carries the given disposition.
pub open spec fn all_status(s: Seq<Finalizer>, d: Disposition) -> bool {
    forall|i: int| 0 <= i < s.len() ==> (#[trigger] s[i]).status == d
}

/// Moves the finalizers out of a batch of events, consuming the events.
pub fn take_finalizers(events: Vec<Event>) -> (r: Vec<Finalizer>)
    ensures
        r@ == fin_seq(events@),
{
    let ghost all = events@;
    let mut events = events;
    let mut fins: Vec<Finalizer> = Vec::new();
    loop
        invariant
            fins@ == fin_seq(all.take(fins.len() as int)),
            events@ == all.skip(fins.len() as int),
            fins.len() <= all.len(),
        ensures
            events@.len() == 0,
        decreases events.len(),
    {
        if events.len() == 0 {
            break;
        }
        let ghost k = fins.len() as int;
        let e = events.remove(0);
        assert(e == all[k]);
        fins.push(e.finalizer);
        proof {
            assert(all.take(k + 1) == all.take(k).push(all[k]));
            assert(fin_seq(all.take(k + 1)) =~= fin_seq(all.take(k)).push(all[k].finalizer));
            assert(events@ =~= all.skip(k + 1));
        }
    }
    proof {
        assert(all.take(fins.len() as int) =~= all);
    }
    fins
}

/// Moves the finalizers out of a batch of events and resolves each with the
/// given terminal disposition, consuming the events.
pub fn resolve_all(events: Vec<Event>, d: Disposition) -> (r: Vec<Finalizer>)
    ensures
        ids_of(r@) == fin_ids(events@),
        all_status(r@, d),
{
    let ghost all = events@;
    let mut events = events;
    let mut fins: Vec<Finalizer> = Vec::new();
    loop
        invariant
            ids_of(fins@) == fin_ids(all.take(fins.len() as int)),
            all_status(fins@, d),
            events@ == all.skip(fins.len() as int),
            fins.len() <= all.len(),
        ensures
            events@.len() == 0,
        decreases events.len(),
    {
        if events.len() == 0 {
            break;
        }
        let ghost k = fins.len() as int;
        let e = events.remove(0);
        assert(e == all[k]);
        fins.push(Finalizer { id: e.finalizer.id, status: d });
        proof {
            assert(all.take(k + 1) == all.take(k).push(all[k]));
            assert(fin_ids(all.take(k + 1)) =~= fin_ids(all.take(k)).push(all[k].finalizer.id));
            assert(ids_of(fins@) =~= fin_ids(all.take(k + 1)));
            assert(events@ =~= all.skip(k + 1));
        }
    }
    proof {
        assert(all.take(fins.len() as int) =~= all);
    }
    fins
}

} // verus!
