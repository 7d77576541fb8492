//! Size-bounded serializer: a single left-to-right greedy pass that packs
//! encoded events into one byte-capped container, rolling the buffer back and
//! pushing the first unfit event back to the head of the queue. The
//! serializer never drops data; it only reports that nothing fit.

use vstd::prelude::*;
use std::collections::VecDeque;
use crate::accountant::CountByteSize;
use crate::event::Event;

verus! {

/// Opening container delimiter, the byte `[`.
pub const OPEN_DELIM: u8 = 91;

/// Closing container delimiter, the byte `]`.
pub const CLOSE_DELIM: u8 = 93;

/// Separator between container entries, the byte `,`.
pub const ITEM_SEP: u8 = 44;

/// Sum of the payload lengths of a sequence of events.
pub open spec fn payload_total(s: Seq<Event>) -> int
    decreases s.len(),
{
    if s.len() == 0 {
        0
    } else {
        payload_total(s.drop_last()) + s.last().payload@.len()
    }
}

/// Byte length of the container that holds exactly these events: both
/// delimiters, the payloads, and one separator between adjacent entries.
pub open spec fn framed_len(s: Seq<Event>) -> int {
    if s.len() == 0 {
        2
    } else {
        2 + payload_total(s) + s.len() - 1
    }
}

/// The container bytes up to, but not including, the closing delimiter.
pub open spec fn frame_open(s: Seq<Event>) -> Seq<u8>
    decreases s.len(),
{
    if s.len() == 0 {
        seq![OPEN_DELIM]
    } else if s.len() == 1 {
        seq![OPEN_DELIM] + s[0].payload@
    } else {
        frame_open(s.drop_last()) + seq![ITEM_SEP] + s.last().payload@
    }
}

/// The complete container holding exactly these events, in order.
pub open spec fn frame(s: Seq<Event>) -> Seq<u8> {
    frame_open(s).push(CLOSE_DELIM)
}

/// An event fits a container of its own under the cap.
pub open spec fn fits_alone(e: Event, max: int) -> bool {
    2 + e.payload@.len() < max
}

/// Number of events the greedy pass commits from the front of `s` under the
/// cap `max`: the longest prefix whose container stays strictly under `max`.
pub open spec fn fit_count(s: Seq<Event>, max: int) -> int
    decreases s.len(),
{
    if s.len() == 0 {
        0
    } else if framed_len(s) < max {
        s.len() as int
    } else {
        fit_count(s.drop_last(), max)
    }
}

pub proof fn lemma_payload_total_nonneg(s: Seq<Event>)
    ensures
        payload_total(s) >= 0,
    decreases s.len(),
{
    if s.len() > 0 {
        lemma_payload_total_nonneg(s.drop_last());
    }
}

/// The frame-open bytes are one (the closing delimiter) short of the framed
/// length.
pub proof fn lemma_frame_open_len(s: Seq<Event>)
    ensures
        frame_open(s).len() == framed_len(s) - 1,
    decreases s.len(),
{
    if s.len() == 0 {
    } else if s.len() == 1 {
        assert(s.drop_last().len() == 0);
        assert(payload_total(s) == payload_total(s.drop_last()) + s.last().payload@.len());
        assert(payload_total(s.drop_last()) == 0);
        assert(s.last() == s[0]);
    } else {
        lemma_frame_open_len(s.drop_last());
        assert(payload_total(s) == payload_total(s.drop_last()) + s.last().payload@.len());
    }
}

/// Extending the committed prefix by one event grows the framed length by
/// that event's payload plus a separator (none before the first entry).
pub proof fn lemma_framed_len_push(s: Seq<Event>, e: Event)
    ensures
        framed_len(s.push(e)) == framed_len(s) + e.payload@.len() + if s.len() == 0 {
            0int
        } else {
            1int
        },
{
    assert(s.push(e).drop_last() =~= s);
    assert(s.push(e).last() == e);
    assert(payload_total(s.push(e)) == payload_total(s.push(e).drop_last()) + s.push(
        e,
    ).last().payload@.len());
    if s.len() == 0 {
        assert(payload_total(s) == 0);
    }
}

/// Framed length never shrinks as the prefix grows.
pub proof fn lemma_framed_len_mono(s: Seq<Event>, i: int, j: int)
    requires
        0 <= i <= j <= s.len(),
    ensures
        framed_len(s.take(i)) <= framed_len(s.take(j)),
    decreases j - i,
{
    if i < j {
        lemma_framed_len_mono(s, i, j - 1);
        assert(s.take(j) =~= s.take(j - 1).push(s[j - 1]));
        lemma_framed_len_push(s.take(j - 1), s[j - 1]);
    }
}

/// `fit_count` is the greedy commit point: the prefix it names stays under
/// the cap and the next event, if any, would reach it.
pub proof fn lemma_fit_count_props(s: Seq<Event>, max: int)
    requires
        max >= 3,
    ensures
        0 <= fit_count(s, max) <= s.len(),
        framed_len(s.take(fit_count(s, max))) < max,
        fit_count(s, max) < s.len() ==> framed_len(s.take(fit_count(s, max) + 1)) >= max,
    decreases s.len(),
{
    if s.len() == 0 {
        assert(s.take(0) =~= s);
    } else if framed_len(s) < max {
        assert(s.take(s.len() as int) =~= s);
    } else {
        let d = s.drop_last();
        lemma_fit_count_props(d, max);
        let k = fit_count(d, max);
        assert(d.take(k) =~= s.take(k));
        if k < d.len() {
            assert(d.take(k + 1) =~= s.take(k + 1));
        } else {
            assert(s.take(k + 1) =~= s);
        }
    }
}

/// Any commit point that stays under the cap and cannot be extended is the
/// greedy commit point.
pub proof fn lemma_fit_count_unique(s: Seq<Event>, max: int, k: int)
    requires
        max >= 3,
        0 <= k <= s.len(),
        framed_len(s.take(k)) < max,
        k < s.len() ==> framed_len(s.take(k + 1)) >= max,
    ensures
        k == fit_count(s, max),
{
    let f = fit_count(s, max);
    lemma_fit_count_props(s, max);
    if k < f {
        lemma_framed_len_mono(s, k + 1, f);
        assert(false);
    }
    if f < k {
        lemma_framed_len_mono(s, f + 1, k);
        assert(false);
    }
}

/// Serializes events from the front of the queue into one container that
/// stays strictly under `max_bytes`, in admission order, without reordering
/// or look-ahead. Events that did not fit remain in the queue, the first of
/// them at its head. Returns the committed events, the container bytes, and
/// the exact count and estimated byte total of the committed events.
///
/// When the queue's head alone cannot fit, nothing is committed and the
/// queue is left unchanged; deciding that event's fate is the caller's
/// responsibility.
pub fn serialize_with_capacity(events: &mut VecDeque<Event>, max_bytes: usize) -> (r: (
    Vec<Event>,
    Vec<u8>,
    CountByteSize,
))
    requires
        max_bytes >= 3,
    ensures
        ({
            let s0 = old(events)@;
            let k = fit_count(s0, max_bytes as int);
            &&& r.0@ == s0.take(k)
            &&& final(events)@ == s0.skip(k)
            &&& r.1@ == frame(s0.take(k))
            &&& r.1@.len() < max_bytes
            &&& r.2.count as int == k
            &&& r.2.byte_size as int == payload_total(s0.take(k))
        }),
{
    let ghost s0 = events@;
    let ghost max = max_bytes as int;
    let mut buf: Vec<u8> = Vec::new();
    buf.push(OPEN_DELIM);
    let mut serialized: Vec<Event> = Vec::new();
    let mut byte_size = CountByteSize::new();
    proof {
        assert(s0.take(0) =~= Seq::<Event>::empty());
        assert(buf@ =~= frame_open(s0.take(0)));
    }
    loop
        invariant
            max_bytes >= 3,
            max == max_bytes as int,
            serialized.len() <= s0.len(),
            serialized@ == s0.take(serialized.len() as int),
            events@ == s0.skip(serialized.len() as int),
            buf@ == frame_open(serialized@),
            buf@.len() == framed_len(serialized@) - 1,
            framed_len(serialized@) < max,
            byte_size.count == serialized.len(),
            byte_size.byte_size == payload_total(serialized@),
        ensures
            serialized.len() <= s0.len(),
            serialized@ == s0.take(serialized.len() as int),
            events@ == s0.skip(serialized.len() as int),
            buf@ == frame_open(serialized@),
            buf@.len() == framed_len(serialized@) - 1,
            framed_len(serialized@) < max,
            byte_size.count == serialized.len(),
            byte_size.byte_size == payload_total(serialized@),
            (serialized.len() as int) < s0.len() ==> framed_len(
                s0.take(serialized.len() as int + 1),
            ) >= max,
        decreases events.len(),
    {
        if events.len() == 0 {
            break;
        }
        let ghost k = serialized.len() as int;
        let event = events.pop_front().unwrap();
        proof {
            assert(event == s0.skip(k)[0]);
            assert(event == s0[k]);
            assert(events@ =~= s0.skip(k + 1));
        }
        // Remember the committed length so the buffer can be rolled back.
        let existing_len = buf.len();
        if serialized.len() > 0 {
            buf.push(ITEM_SEP);
        }
        let ghost pre = buf@;
        let n = event.payload.len();
        let mut j: usize = 0;
        while j < n
            invariant
                j <= n,
                n == event.payload.len(),
                buf@ == pre + event.payload@.take(j as int),
            decreases n - j,
        {
            let b = event.payload[j];
            buf.push(b);
            j = j + 1;
            proof {
                assert(event.payload@.take(j as int) =~= event.payload@.take(j as int - 1).push(
                    event.payload@[j as int - 1],
                ));
            }
        }
        let ghost sp = serialized@.push(event);
        proof {
            assert(event.payload@.take(n as int) =~= event.payload@);
            assert(sp.drop_last() =~= serialized@);
            if serialized@.len() == 0 {
                assert(frame_open(sp) =~= seq![OPEN_DELIM] + event.payload@);
            } else {
                assert(frame_open(sp) =~= frame_open(serialized@) + seq![ITEM_SEP]
                    + event.payload@);
            }
            assert(buf@ =~= frame_open(sp));
            lemma_frame_open_len(sp);
            lemma_framed_len_push(serialized@, event);
            assert(s0.take(k + 1) =~= serialized@.push(event));
        }
        if buf.len() >= max_bytes - 1 {
            // Committing this event would close the container at or above
            // the cap: roll back and return it to the head of the queue.
            buf.truncate(existing_len);
            events.push_front(event);
            proof {
                assert(pre.subrange(0, existing_len as int) =~= frame_open(serialized@));
                assert((pre + event.payload@).subrange(0, existing_len as int) =~= frame_open(
                    serialized@,
                ));
                assert(events@ =~= s0.skip(k));
            }
            break;
        }
        byte_size.add_event(&event);
        serialized.push(event);
        proof {
            lemma_payload_total_nonneg(serialized@.drop_last());
            assert(payload_total(sp) == byte_size.byte_size);
        }
    }
    let ghost k = serialized.len() as int;
    proof {
        if s0.skip(k).len() == 0 {
            assert(k == s0.len());
        }
        lemma_fit_count_unique(s0, max, k);
    }
    buf.push(CLOSE_DELIM);
    proof {
        assert(buf@ =~= frame(serialized@));
        lemma_frame_open_len(serialized@);
    }
    (serialized, buf, byte_size)
}

} // verus!
