//! Request builder: transforms a batch, checks the encoded payloads, then
//! repeatedly packs the longest fitting prefix of the remaining queue into a
//! byte-capped container, compresses it with the configured codec, and moves
//! the consumed events' finalizers into the resulting wire request. A head
//! event that fits no container of its own is dropped with a terminal
//! disposition — one drop telemetry signal is owed per such event — and the
//! rest of the queue is processed normally.

use vstd::prelude::*;
use std::collections::VecDeque;
use crate::accountant::CountByteSize;
use crate::codec::Codec;
use crate::event::{all_status, fin_ids, fin_seq, ids_of, Disposition, Event, Finalizer};
use crate::plan::{chunks, drops};
use crate::serializer::{frame, framed_len, payload_total, serialize_with_capacity};
use crate::transform::Transform;

verus! {

/// Why a request build was aborted. The two conditions are distinct kinds,
/// and neither is fatal to the pipeline: the caller decides what to retry.
#[derive(Clone, Copy, Debug, PartialEq, Eq, Structural)]
pub enum RequestBuildError {
    /// An event's encoded payload was not a valid container entry.
    Serialization,
    /// The configured codec rejected a container.
    Codec,
}

/// A failed build. Every finalizer the call owned comes back resolved with a
/// terminal disposition, exactly once.
#[derive(Debug)]
pub struct BuildFailure {
    /// Which failure aborted the build.
    pub kind: RequestBuildError,
    /// Finalizers of the events lost to the failure, resolved `Errored`.
    pub finalizers: Vec<Finalizer>,
    /// Finalizers of events dropped as oversize before the failure occurred,
    /// resolved `Dropped`; one drop telemetry signal is owed per entry.
    pub dropped: Vec<Finalizer>,
}

/// The terminal artifact handed to the dispatch driver: routing key, body
/// bytes, exact sizes and counts, and the finalizers transferred from the
/// events the container holds.
#[derive(Debug)]
pub struct LogApiRequest {
    /// Routing key of every event in this request.
    pub api_key: String,
    /// Acknowledgement handles moved out of the consumed events, in order.
    pub finalizers: Vec<Finalizer>,
    /// Whether `body` went through a compressing codec.
    pub compressed: bool,
    /// Exact number of events in the container.
    pub event_count: usize,
    /// Exact container size in bytes before compression.
    pub uncompressed_size: usize,
    /// Count and estimated byte total of the container's events.
    pub byte_size: CountByteSize,
    /// The container, compressed when a codec is configured.
    pub body: Vec<u8>,
}

/// A successful build: the wire requests in construction order, and the
/// finalizers of events dropped as oversize, resolved `Dropped` — one drop
/// telemetry signal is owed per entry.
#[derive(Debug)]
pub struct BuildOutput {
    /// The built requests, one per emitted container, in order.
    pub requests: Vec<LogApiRequest>,
    /// Finalizers of the dropped oversize events, in drop order.
    pub dropped: Vec<Finalizer>,
}

/// Builds wire requests for one partition key's batches.
pub struct LogRequestBuilder<T, C> {
    /// Routing key used for events that carry none.
    pub default_api_key: String,
    /// The configuration-supplied per-event rewrite.
    pub transformer: T,
    /// The configured codec; `None` stores containers raw.
    pub compression: Option<C>,
    /// Whether the request stream is labelled as agent-conforming.
    pub conforms_as_agent: bool,
    /// Hard cap on one container's bytes, before compression.
    pub max_payload_bytes: usize,
}

/// The finalizer identities carried by a sequence of requests, in order.
pub open spec fn all_req_fin_ids(rs: Seq<LogApiRequest>) -> Seq<u64>
    decreases rs.len(),
{
    if rs.len() == 0 {
        Seq::empty()
    } else {
        all_req_fin_ids(rs.drop_last()) + ids_of(rs.last().finalizers@)
    }
}

/// Every payload is a valid container entry (a serialized value is never
/// empty).
pub open spec fn payloads_ok(s: Seq<Event>) -> bool {
    forall|i: int| 0 <= i < s.len() ==> (#[trigger] s[i]).payload@.len() > 0
}

impl<T: Transform, C: Codec> LogRequestBuilder<T, C> {
    /// The configured cap leaves room for the two container delimiters and at
    /// least one payload byte.
    pub open spec fn wf(&self) -> bool {
        self.max_payload_bytes >= 3
    }

    /// The batch after the per-event transform step.
    pub open spec fn transformed(&self, s: Seq<Event>) -> Seq<Event> {
        s.map_values(|e: Event| self.transformer.transform_spec(e))
    }

    /// What one emitted request must be for one planned container.
    pub open spec fn req_matches(
        &self,
        r: LogApiRequest,
        chunk: Seq<Event>,
        key: Seq<char>,
    ) -> bool {
        &&& r.api_key@ == key
        &&& r.finalizers@ == fin_seq(chunk)
        &&& r.event_count == chunk.len()
        &&& r.uncompressed_size == framed_len(chunk)
        &&& r.byte_size.count == chunk.len()
        &&& r.byte_size.byte_size == payload_total(chunk)
        &&& match self.compression {
            Some(c) => r.body@ == c.compress_spec(frame(chunk)) && r.compressed
                == c.is_compressed_spec(),
            None => r.body@ == frame(chunk) && !r.compressed,
        }
    }

    /// The configured codec accepts every container the plan emits for `s`.
    pub open spec fn codec_ok_all(&self, s: Seq<Event>) -> bool {
        match self.compression {
            Some(c) => forall|i: int|
                0 <= i < chunks(s, self.max_payload_bytes as int).len() ==> c.accepts(
                    frame(#[trigger] chunks(s, self.max_payload_bytes as int)[i]),
                ),
            None => true,
        }
    }

    /// Compresses one full container with the configured codec and attaches
    /// the consumed events' finalizers and byte-size metadata. On a codec
    /// failure the events' finalizers come back resolved `Errored`.
    pub fn finish_request(
        &self,
        buf: Vec<u8>,
        events: Vec<Event>,
        byte_size: CountByteSize,
        api_key: String,
    ) -> (r: Result<LogApiRequest, BuildFailure>)
        ensures
            match r {
                Ok(req) => {
                    &&& req.api_key@ == api_key@
                    &&& req.finalizers@ == fin_seq(events@)
                    &&& req.event_count == events@.len()
                    &&& req.uncompressed_size == buf@.len()
                    &&& req.byte_size == byte_size
                    &&& match self.compression {
                        Some(c) => c.accepts(buf@) && req.body@ == c.compress_spec(buf@)
                            && req.compressed == c.is_compressed_spec(),
                        None => req.body@ == buf@ && !req.compressed,
                    }
                },
                Err(f) => {
                    &&& f.kind == RequestBuildError::Codec
                    &&& match self.compression {
                        Some(c) => !c.accepts(buf@),
                        None => false,
                    }
                    &&& ids_of(f.finalizers@) == fin_ids(events@)
                    &&& all_status(f.finalizers@, Disposition::Errored)
                    &&& f.dropped@.len() == 0
                },
            },
    {
        let n_events = events.len();
        let uncompressed_size = buf.len();
        let (body, compressed): (Vec<u8>, bool) = match &self.compression {
            Some(c) => {
                match c.compress(&buf) {
                    Ok(b) => (b, c.is_compressed()),
                    Err(_) => {
                        let fins = crate::event::resolve_all(events, Disposition::Errored);
                        return Err(
                            BuildFailure {
                                kind: RequestBuildError::Codec,
                                finalizers: fins,
                                dropped: Vec::new(),
                            },
                        );
                    },
                }
            },
            None => (buf, false),
        };
        let finalizers = crate::event::take_finalizers(events);
        Ok(
            LogApiRequest {
                api_key,
                finalizers,
                compressed,
                event_count: n_events,
                uncompressed_size,
                byte_size,
                body,
            },
        )
    }
}

/// Drains the queue, resolving every finalizer with the given terminal
/// disposition.
fn resolve_queue(queue: &mut VecDeque<Event>, d: Disposition) -> (r: Vec<Finalizer>)
    ensures
        ids_of(r@) == fin_ids(old(queue)@),
        all_status(r@, d),
        final(queue)@.len() == 0,
{
    let ghost all = queue@;
    let mut fins: Vec<Finalizer> = Vec::new();
    loop
        invariant
            ids_of(fins@) == fin_ids(all.take(fins.len() as int)),
            all_status(fins@, d),
            queue@ == all.skip(fins.len() as int),
            fins.len() <= all.len(),
        ensures
            queue@.len() == 0,
        decreases queue.len(),
    {
        if queue.len() == 0 {
            break;
        }
        let ghost k = fins.len() as int;
        let e = queue.pop_front().unwrap();
        assert(e == all[k]);
        fins.push(Finalizer { id: e.finalizer.id, status: d });
        proof {
            assert(all.take(k + 1) == all.take(k).push(all[k]));
            assert(fin_ids(all.take(k + 1)) =~= fin_ids(all.take(k)).push(all[k].finalizer.id));
            assert(ids_of(fins@) =~= fin_ids(all.take(k + 1)));
            assert(queue@ =~= all.skip(k + 1));
        }
    }
    proof {
        assert(all.take(fins.len() as int) =~= all);
    }
    fins
}

/// Takes the finalizers back out of already-built requests, resolving each
/// `Errored`, in request order.
fn reclaim_requests(requests: Vec<LogApiRequest>) -> (r: Vec<Finalizer>)
    ensures
        ids_of(r@) == all_req_fin_ids(requests@),
        all_status(r@, Disposition::Errored),
{
    let ghost all = requests@;
    let mut fins: Vec<Finalizer> = Vec::new();
    let mut i: usize = 0;
    proof {
        assert(all.take(0) =~= Seq::<LogApiRequest>::empty());
        assert(ids_of(fins@) =~= all_req_fin_ids(all.take(0)));
    }
    while i < requests.len()
        invariant
            i <= requests.len(),
            requests@ == all,
            ids_of(fins@) == all_req_fin_ids(all.take(i as int)),
            all_status(fins@, Disposition::Errored),
        decreases requests.len() - i,
    {
        let ghost fins_pre = fins@;
        let rf = &requests[i].finalizers;
        let mut j: usize = 0;
        proof {
            assert(rf@.take(0) =~= Seq::<Finalizer>::empty());
            assert(ids_of(rf@.take(0)) =~= Seq::<u64>::empty());
            assert(ids_of(fins@) =~= ids_of(fins_pre) + ids_of(rf@.take(0)));
        }
        while j < rf.len()
            invariant
                j <= rf.len(),
                i < requests.len(),
                requests@ == all,
                rf@ == all[i as int].finalizers@,
                ids_of(fins@) == ids_of(fins_pre) + ids_of(rf@.take(j as int)),
                all_status(fins@, Disposition::Errored),
            decreases rf.len() - j,
        {
            let ghost fins_in = fins@;
            let fid = rf[j].id;
            fins.push(Finalizer { id: fid, status: Disposition::Errored });
            j = j + 1;
            proof {
                assert(fins@ == fins_in.push(Finalizer { id: fid, status: Disposition::Errored }));
                assert(ids_of(fins@) =~= ids_of(fins_in).push(fid));
                assert(rf@.take(j as int) =~= rf@.take(j as int - 1).push(rf@[j as int - 1]));
                assert(ids_of(rf@.take(j as int)) =~= ids_of(rf@.take(j as int - 1)).push(fid));
                assert(ids_of(fins@) =~= ids_of(fins_pre) + ids_of(rf@.take(j as int)));
            }
        }
        i = i + 1;
        proof {
            assert(rf@.take(rf@.len() as int) =~= rf@);
            assert(all.take(i as int).drop_last() =~= all.take(i as int - 1));
            assert(all.take(i as int).last() == all[i as int - 1]);
            assert(all_req_fin_ids(all.take(i as int)) == all_req_fin_ids(all.take(i as int - 1))
                + ids_of(all[i as int - 1].finalizers@));
        }
    }
    proof {
        assert(all.take(all.len() as int) =~= all);
    }
    fins
}


impl<T: Transform, C: Codec> LogRequestBuilder<T, C> {
    /// Builds the wire requests for one partition's batch. Each event is
    /// transformed, then its encoded payload checked; the queue is then
    /// packed greedily, one container per pass. A head event that fits no
    /// container is dropped with a terminal disposition (one telemetry
    /// signal owed per drop); the rest of the queue is processed normally.
    /// An invalid payload or a codec failure aborts the build for the whole
    /// call, returning every owned finalizer terminally resolved.
    pub fn build_request(&self, events: Vec<Event>, api_key: String) -> (r: Result<
        BuildOutput,
        BuildFailure,
    >)
        requires
            self.wf(),
        ensures
            fin_ids(self.transformed(events@)) == fin_ids(events@),
            ({
                let ts = self.transformed(events@);
                let max = self.max_payload_bytes as int;
                match r {
                    Ok(out) => {
                        &&& payloads_ok(ts)
                        &&& self.codec_ok_all(ts)
                        &&& out.requests@.len() == chunks(ts, max).len()
                        &&& forall|i: int|
                            0 <= i < out.requests@.len() ==> self.req_matches(
                                #[trigger] out.requests@[i],
                                chunks(ts, max)[i],
                                api_key@,
                            )
                        &&& ids_of(out.dropped@) == fin_ids(drops(ts, max))
                        &&& all_status(out.dropped@, Disposition::Dropped)
                    },
                    Err(f) => {
                        &&& !(payloads_ok(ts) && self.codec_ok_all(ts))
                        &&& (f.kind == RequestBuildError::Serialization <==> !payloads_ok(ts))
                        &&& all_status(f.finalizers@, Disposition::Errored)
                        &&& all_status(f.dropped@, Disposition::Dropped)
                        &&& ids_of(f.finalizers@).to_multiset().add(
                            ids_of(f.dropped@).to_multiset(),
                        ) == fin_ids(ts).to_multiset()
                    },
                }
            }),
    {
        let ghost max = self.max_payload_bytes as int;
        let ghost input = events@;

        // Transform each event and queue it; the finalizers are preserved.
        let mut pending = events;
        let mut queue: VecDeque<Event> = VecDeque::new();
        proof {
            assert(self.transformed(input).take(0) =~= queue@);
            assert(fin_ids(queue@) =~= fin_ids(input.take(0)));
        }
        loop
            invariant
                queue.len() <= input.len(),
                pending@ == input.skip(queue.len() as int),
                queue@ == self.transformed(input).take(queue.len() as int),
                fin_ids(queue@) == fin_ids(input.take(queue.len() as int)),
            ensures
                queue@ == self.transformed(input),
                fin_ids(queue@) == fin_ids(input),
            decreases pending.len(),
        {
            if pending.len() == 0 {
                proof {
                    assert(queue.len() == input.len());
                    assert(self.transformed(input).take(queue.len() as int) =~= self.transformed(
                        input,
                    ));
                    assert(input.take(queue.len() as int) =~= input);
                }
                break;
            }
            let ghost j = queue.len() as int;
            let e = pending.remove(0);
            proof {
                assert(e == input[j]);
            }
            let te = self.transformer.apply(e);
            queue.push_back(te);
            proof {
                assert(self.transformed(input).take(j + 1) =~= self.transformed(input).take(
                    j,
                ).push(self.transformer.transform_spec(input[j])));
                assert(queue@ =~= self.transformed(input).take(j + 1));
                assert(input.take(j + 1) =~= input.take(j).push(input[j]));
                assert(fin_ids(input.take(j + 1)) =~= fin_ids(input.take(j)).push(
                    input[j].finalizer.id,
                ));
                assert(fin_ids(queue@) =~= fin_ids(input.take(j)).push(te.finalizer.id));
                assert(pending@ =~= input.skip(j + 1));
            }
        }
        let ghost ts = self.transformed(input);
        proof {
            assert(fin_ids(ts) == fin_ids(input));
        }

        // Check that every encoded payload is a valid container entry.
        let mut idx: usize = 0;
        loop
            invariant
                idx <= queue.len(),
                queue@ == ts,
                input == events@,
                ts == self.transformed(input),
                fin_ids(ts) == fin_ids(input),
                forall|j: int| 0 <= j < idx ==> (#[trigger] ts[j]).payload@.len() > 0,
            ensures
                queue@ == ts,
                payloads_ok(ts),
            decreases queue.len() - idx,
        {
            if idx >= queue.len() {
                break;
            }
            if queue[idx].payload.len() == 0 {
                // An empty entry is a serialization-format failure: abort,
                // resolving every owned finalizer.
                let fins = resolve_queue(&mut queue, Disposition::Errored);
                proof {
                    crate::plan::lemma_ids_multiset_empty();
                    broadcast use vstd::multiset::group_multiset_axioms;

                    assert(ids_of(Seq::<Finalizer>::empty()) =~= Seq::<u64>::empty());
                    assert(ids_of(fins@).to_multiset().add(
                        ids_of(Seq::<Finalizer>::empty()).to_multiset(),
                    ) =~= fin_ids(ts).to_multiset());
                }
                return Err(
                    BuildFailure {
                        kind: RequestBuildError::Serialization,
                        finalizers: fins,
                        dropped: Vec::new(),
                    },
                );
            }
            idx = idx + 1;
        }

        // Pack greedily: one container per pass.
        let mut requests: Vec<LogApiRequest> = Vec::new();
        let mut dropped: Vec<Finalizer> = Vec::new();
        proof {
            assert(chunks(ts, max).skip(0) =~= chunks(ts, max));
            assert(drops(ts, max).skip(0) =~= drops(ts, max));
            assert(ids_of(dropped@) =~= fin_ids(drops(ts, max).take(0)));
            crate::plan::lemma_ids_multiset_empty();
            broadcast use vstd::multiset::group_multiset_axioms;

            assert(all_req_fin_ids(requests@) =~= Seq::<u64>::empty());
            assert(ids_of(dropped@) =~= Seq::<u64>::empty());
            assert(queue@ == ts);
            assert(all_req_fin_ids(requests@).to_multiset().add(
                ids_of(dropped@).to_multiset(),
            ).add(fin_ids(queue@).to_multiset()) =~= fin_ids(ts).to_multiset());
        }
        loop
            invariant
                self.wf(),
                max == self.max_payload_bytes as int,
                input == events@,
                ts == self.transformed(input),
                fin_ids(ts) == fin_ids(input),
                payloads_ok(ts),
                requests.len() <= chunks(ts, max).len(),
                dropped.len() <= drops(ts, max).len(),
                chunks(queue@, max) == chunks(ts, max).skip(requests.len() as int),
                drops(queue@, max) == drops(ts, max).skip(dropped.len() as int),
                forall|i: int|
                    0 <= i < requests.len() ==> self.req_matches(
                        #[trigger] requests@[i],
                        chunks(ts, max)[i],
                        api_key@,
                    ),
                (match self.compression {
                    Some(c) => forall|i: int|
                        0 <= i < requests.len() ==> c.accepts(frame(#[trigger] chunks(ts, max)[i])),
                    None => true,
                }),
                ids_of(dropped@) == fin_ids(drops(ts, max).take(dropped.len() as int)),
                all_status(dropped@, Disposition::Dropped),
                all_req_fin_ids(requests@).to_multiset().add(ids_of(dropped@).to_multiset()).add(
                    fin_ids(queue@).to_multiset(),
                ) == fin_ids(ts).to_multiset(),
            ensures
                queue@.len() == 0,
                requests.len() <= chunks(ts, max).len(),
                dropped.len() <= drops(ts, max).len(),
                chunks(queue@, max) == chunks(ts, max).skip(requests.len() as int),
                drops(queue@, max) == drops(ts, max).skip(dropped.len() as int),
                forall|i: int|
                    0 <= i < requests.len() ==> self.req_matches(
                        #[trigger] requests@[i],
                        chunks(ts, max)[i],
                        api_key@,
                    ),
                (match self.compression {
                    Some(c) => forall|i: int|
                        0 <= i < requests.len() ==> c.accepts(frame(#[trigger] chunks(ts, max)[i])),
                    None => true,
                }),
                ids_of(dropped@) == fin_ids(drops(ts, max).take(dropped.len() as int)),
                all_status(dropped@, Disposition::Dropped),
            decreases queue.len(),
        {
            if queue.len() == 0 {
                break;
            }
            let ghost q0 = queue@;
            let ghost rlen = requests.len() as int;
            let ghost dlen = dropped.len() as int;
            let (serialized, body, byte_size) = serialize_with_capacity(
                &mut queue,
                self.max_payload_bytes,
            );
            let ghost k = crate::serializer::fit_count(q0, max);
            proof {
                crate::plan::lemma_fit_count_bounds(q0, max);
                broadcast use vstd::seq_lib::group_to_multiset_ensures;
                broadcast use vstd::multiset::group_multiset_axioms;
            }
            if serialized.len() == 0 {
                proof {
                    assert(q0.take(k).len() == 0);
                    assert(k == 0);
                    assert(queue@ =~= q0);
                    assert(drops(q0, max) == seq![q0[0]] + drops(q0.skip(1), max));
                    assert(chunks(q0, max) == chunks(q0.skip(1), max));
                }
                // The head fits no container of its own: drop it, resolved
                // terminally; one drop telemetry signal is owed.
                let event = queue.pop_front().unwrap();
                let fid = event.finalizer.id;
                dropped.push(Finalizer { id: fid, status: Disposition::Dropped });
                proof {
                    broadcast use vstd::seq_lib::group_to_multiset_ensures;
                    broadcast use vstd::multiset::group_multiset_axioms;

                    assert(event == q0[0]);
                    assert(queue@ =~= q0.skip(1));
                    let dts = drops(ts, max);
                    assert(dts.skip(dlen) == seq![q0[0]] + drops(queue@, max));
                    assert(dts.skip(dlen).len() == 1 + drops(queue@, max).len());
                    assert(dlen + 1 <= dts.len());
                    assert(dts[dlen] == dts.skip(dlen)[0]);
                    assert(dts[dlen] == q0[0]);
                    assert forall|i: int| 0 <= i < dts.len() - dlen - 1 implies dts.skip(
                        dlen + 1,
                    )[i] == drops(queue@, max)[i] by {
                        assert(dts.skip(dlen)[i + 1] == drops(queue@, max)[i]);
                    }
                    assert(dts.skip(dlen + 1) =~= drops(queue@, max));
                    assert(dts.take(dlen + 1) =~= dts.take(dlen).push(q0[0]));
                    assert(fin_ids(dts.take(dlen + 1)) =~= fin_ids(dts.take(dlen)).push(fid));
                    assert(ids_of(dropped@) =~= fin_ids(dts.take(dlen + 1)));
                    // Conservation: the dropped identity moves from the queue
                    // to the drop record.
                    assert(q0 =~= seq![q0[0]] + q0.skip(1));
                    crate::plan::lemma_fin_ids_concat(seq![q0[0]], q0.skip(1));
                    assert(fin_ids(seq![q0[0]]) =~= seq![fid]);
                    crate::plan::lemma_ids_multiset_concat(seq![fid], fin_ids(q0.skip(1)));
                    assert(seq![fid] =~= Seq::<u64>::empty().push(fid));
                    crate::plan::lemma_ids_multiset_push(Seq::<u64>::empty(), fid);
                    crate::plan::lemma_ids_multiset_empty();
                    crate::plan::lemma_ids_multiset_push(ids_of(dropped@.drop_last()), fid);
                    assert(ids_of(dropped@) =~= ids_of(dropped@.drop_last()).push(fid));
                    assert(all_req_fin_ids(requests@).to_multiset().add(
                        ids_of(dropped@).to_multiset(),
                    ).add(fin_ids(queue@).to_multiset()) =~= fin_ids(ts).to_multiset());
                }
            } else {
                proof {
                    assert(serialized@ == q0.take(k));
                    assert(k >= 1);
                    assert(queue@ == q0.skip(k));
                    assert(chunks(q0, max) == seq![q0.take(k)] + chunks(q0.skip(k), max));
                    assert(drops(q0, max) == drops(q0.skip(k), max));
                    let cts = chunks(ts, max);
                    assert(cts.skip(rlen) == seq![q0.take(k)] + chunks(queue@, max));
                    assert(cts.skip(rlen).len() == 1 + chunks(queue@, max).len());
                    assert(rlen + 1 <= cts.len());
                    assert(cts[rlen] == cts.skip(rlen)[0]);
                    assert(cts[rlen] == q0.take(k));
                    assert forall|i: int| 0 <= i < cts.len() - rlen - 1 implies cts.skip(
                        rlen + 1,
                    )[i] == chunks(queue@, max)[i] by {
                        assert(cts.skip(rlen)[i + 1] == chunks(queue@, max)[i]);
                    }
                    assert(cts.skip(rlen + 1) =~= chunks(queue@, max));
                }
                let ghost req_entry = requests@;
                match self.finish_request(body, serialized, byte_size, api_key.clone()) {
                    Ok(req) => {
                        let ghost reqfins = req.finalizers@;
                        requests.push(req);
                        proof {
                            broadcast use vstd::multiset::group_multiset_axioms;

                            let chunk = q0.take(k);
                            let cts = chunks(ts, max);
                            crate::serializer::lemma_frame_open_len(chunk);
                            assert(frame(chunk).len() == framed_len(chunk));
                            assert(self.req_matches(requests@[rlen], cts[rlen], api_key@));
                            // Conservation: the chunk's identities move from
                            // the queue into the new request.
                            assert(requests@.drop_last() =~= req_entry);
                            assert(all_req_fin_ids(requests@) == all_req_fin_ids(
                                req_entry,
                            ) + ids_of(reqfins));
                            assert(ids_of(fin_seq(chunk)) =~= fin_ids(chunk));
                            assert(q0 =~= chunk + q0.skip(k));
                            crate::plan::lemma_fin_ids_concat(chunk, q0.skip(k));
                            crate::plan::lemma_ids_multiset_concat(
                                fin_ids(chunk),
                                fin_ids(q0.skip(k)),
                            );
                            crate::plan::lemma_ids_multiset_concat(
                                all_req_fin_ids(requests@.drop_last()),
                                ids_of(reqfins),
                            );
                            assert(all_req_fin_ids(requests@).to_multiset().add(
                                ids_of(dropped@).to_multiset(),
                            ).add(fin_ids(queue@).to_multiset()) =~= fin_ids(ts).to_multiset());
                        }
                    },
                    Err(f) => {
                        // Codec failure: reclaim every finalizer this call
                        // still owns, resolving each terminally.
                        proof {
                            let cts = chunks(ts, max);
                            assert(cts.skip(rlen).len() >= 1);
                            assert(rlen < cts.len());
                            assert(!self.codec_ok_all(ts));
                        }
                        let ghost ferr = f.finalizers@;
                        let mut fins = f.finalizers;
                        let mut from_requests = reclaim_requests(requests);
                        fins.append(&mut from_requests);
                        let mut from_queue = resolve_queue(&mut queue, Disposition::Errored);
                        fins.append(&mut from_queue);
                        proof {
                            broadcast use vstd::multiset::group_multiset_axioms;

                            let chunk = q0.take(k);
                            assert(ids_of(fins@) =~= ids_of(ferr) + all_req_fin_ids(
                                requests@,
                            ) + fin_ids(q0.skip(k)));
                            assert(q0 =~= chunk + q0.skip(k));
                            crate::plan::lemma_fin_ids_concat(chunk, q0.skip(k));
                            crate::plan::lemma_ids_multiset_concat(
                                fin_ids(chunk),
                                fin_ids(q0.skip(k)),
                            );
                            crate::plan::lemma_ids_multiset_concat(
                                ids_of(ferr) + all_req_fin_ids(requests@),
                                fin_ids(q0.skip(k)),
                            );
                            crate::plan::lemma_ids_multiset_concat(
                                ids_of(ferr),
                                all_req_fin_ids(requests@),
                            );
                            assert(ids_of(fins@).to_multiset().add(
                                ids_of(dropped@).to_multiset(),
                            ) =~= fin_ids(ts).to_multiset());
                        }
                        return Err(
                            BuildFailure {
                                kind: RequestBuildError::Codec,
                                finalizers: fins,
                                dropped,
                            },
                        );
                    },
                }
            }
        }
        // Queue drained: every planned container was built and every planned
        // drop recorded.
        proof {
            assert(chunks(queue@, max) =~= Seq::<Seq<Event>>::empty());
            assert(drops(queue@, max) =~= Seq::<Event>::empty());
            assert(chunks(ts, max).skip(requests.len() as int).len() == 0);
            assert(requests.len() == chunks(ts, max).len());
            assert(drops(ts, max).skip(dropped.len() as int).len() == 0);
            assert(dropped.len() == drops(ts, max).len());
            assert(drops(ts, max).take(dropped.len() as int) =~= drops(ts, max));
        }
        Ok(BuildOutput { requests, dropped })
    }
}

} // verus!
