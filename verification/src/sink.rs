//! The sink: configuration builders and the pipeline's per-batch decision
//! core. For each batch the request builder is invoked; requests of
//! successful builds are streamed out in order, while a failed build is
//! recorded and never stalls the batches after it. The asynchronous stream
//! plumbing and the dispatch driver live outside the library; they hand
//! batches in and take wire requests, drop records and failure records out.

use vstd::prelude::*;
use crate::batcher::BatcherSettings;
use crate::builder::{
    all_req_fin_ids, BuildOutput, LogApiRequest, LogRequestBuilder,
};
use crate::codec::Codec;
use crate::event::{all_status, fin_ids, fin_seq, ids_of, Disposition, Event, Finalizer};
use crate::plan::{chunks, drops};
use crate::serializer::framed_len;
use crate::transform::Transform;
use crate::MAX_PAYLOAD_BYTES;

verus! {

/// Builds a [`LogSink`]: all configuration is collected here, compression
/// last, before the sink is assembled.
pub struct LogSinkBuilder<T, S, C> {
    /// The configuration-supplied per-event rewrite.
    pub transformer: T,
    /// The dispatch service the built requests are handed to.
    pub service: S,
    /// Bounds for the batcher.
    pub batch_settings: BatcherSettings,
    /// The codec for request bodies; `None` stores them raw.
    pub compression: Option<C>,
    /// Routing key for events that carry none.
    pub default_api_key: String,
    /// Label handed to the dispatch driver for telemetry tagging.
    pub protocol: String,
    /// Whether the request stream is labelled as agent-conforming.
    pub conforms_as_agent: bool,
}

impl<T, S, C> LogSinkBuilder<T, S, C> {
    /// Collects the sink configuration; no codec is set yet.
    pub fn new(
        transformer: T,
        service: S,
        default_api_key: String,
        batch_settings: BatcherSettings,
        protocol: String,
        conforms_as_agent: bool,
    ) -> (r: Self)
        ensures
            r.transformer == transformer,
            r.service == service,
            r.default_api_key == default_api_key,
            r.batch_settings == batch_settings,
            r.compression == Option::<C>::None,
            r.protocol == protocol,
            r.conforms_as_agent == conforms_as_agent,
    {
        LogSinkBuilder {
            transformer,
            service,
            default_api_key,
            batch_settings,
            compression: None,
            protocol,
            conforms_as_agent,
        }
    }

    /// Sets the codec used for request bodies.
    pub fn compression(self, compression: C) -> (r: Self)
        ensures
            r.transformer == self.transformer,
            r.service == self.service,
            r.default_api_key == self.default_api_key,
            r.batch_settings == self.batch_settings,
            r.compression == Some(compression),
            r.protocol == self.protocol,
            r.conforms_as_agent == self.conforms_as_agent,
    {
        LogSinkBuilder {
            transformer: self.transformer,
            service: self.service,
            default_api_key: self.default_api_key,
            batch_settings: self.batch_settings,
            compression: Some(compression),
            protocol: self.protocol,
            conforms_as_agent: self.conforms_as_agent,
        }
    }

    /// Assembles the sink with the collected configuration.
    pub fn build(self) -> (r: LogSink<T, S, C>)
        ensures
            r.transformer == self.transformer,
            r.service == self.service,
            r.default_api_key == self.default_api_key,
            r.batch_settings == self.batch_settings,
            r.compression == self.compression,
            r.protocol == self.protocol,
            r.conforms_as_agent == self.conforms_as_agent,
    {
        LogSink {
            default_api_key: self.default_api_key,
            service: self.service,
            transformer: self.transformer,
            compression: self.compression,
            batch_settings: self.batch_settings,
            protocol: self.protocol,
            conforms_as_agent: self.conforms_as_agent,
        }
    }
}

/// The output stage: turns batches of events into wire requests under the
/// configured transform, codec and byte cap, and hands them to the dispatch
/// service.
pub struct LogSink<T, S, C> {
    /// Routing key used for events that carry none. Some events come in with
    /// a key of their own and are batched by it; the rest share this one.
    pub default_api_key: String,
    /// The dispatch service.
    pub service: S,
    /// The configuration-supplied per-event rewrite.
    pub transformer: T,
    /// The codec for request bodies; `None` stores them raw.
    pub compression: Option<C>,
    /// Bounds for the batcher.
    pub batch_settings: BatcherSettings,
    /// Label handed to the dispatch driver for telemetry tagging.
    pub protocol: String,
    /// Whether the request stream is labelled as agent-conforming.
    pub conforms_as_agent: bool,
}

/// Everything one pipeline run produced.
#[derive(Debug)]
pub struct PipelineOutput {
    /// Wire requests of the successful builds, in batch order, each batch's
    /// requests in construction order.
    pub requests: Vec<LogApiRequest>,
    /// Finalizers of events dropped as oversize, resolved `Dropped`; one
    /// drop telemetry signal is owed per entry.
    pub dropped: Vec<Finalizer>,
    /// Finalizers of events lost to failed builds, resolved `Errored`.
    pub errored: Vec<Finalizer>,
    /// Number of batches whose build failed; one build-failure telemetry
    /// signal is owed per failure. A failed batch never stalls later ones.
    pub build_failures: usize,
}

/// The key a batch's requests carry: the batch's own, or the default.
pub open spec fn batch_key(default: Seq<char>, k: Option<String>) -> Seq<char> {
    match k {
        Some(s) => s@,
        None => default,
    }
}

/// Whether one batch builds without error under a builder's configuration.
pub open spec fn batch_ok<T: Transform, C: Codec>(
    b: LogRequestBuilder<T, C>,
    events: Seq<Event>,
) -> bool {
    &&& crate::builder::payloads_ok(b.transformed(events))
    &&& b.codec_ok_all(b.transformed(events))
}

/// The (key, container) pairs one successful batch contributes, in
/// construction order.
pub open spec fn chunk_pairs<T: Transform, C: Codec>(
    b: LogRequestBuilder<T, C>,
    key: Option<String>,
    events: Seq<Event>,
) -> Seq<(Seq<char>, Seq<Event>)> {
    chunks(b.transformed(events), b.max_payload_bytes as int).map_values(
        |c: Seq<Event>| (batch_key(b.default_api_key@, key), c),
    )
}

/// The (key, container) pairs a whole run emits: those of the successful
/// batches, in batch order, each batch's in construction order.
pub open spec fn planned_requests<T: Transform, C: Codec>(
    b: LogRequestBuilder<T, C>,
    bs: Seq<(Option<String>, Vec<Event>)>,
) -> Seq<(Seq<char>, Seq<Event>)>
    decreases bs.len(),
{
    if bs.len() == 0 {
        Seq::empty()
    } else {
        planned_requests(b, bs.drop_last()) + if batch_ok(b, bs.last().1@) {
            chunk_pairs(b, bs.last().0, bs.last().1@)
        } else {
            Seq::empty()
        }
    }
}

/// How many batches of a run fail to build.
pub open spec fn failed_count<T: Transform, C: Codec>(
    b: LogRequestBuilder<T, C>,
    bs: Seq<(Option<String>, Vec<Event>)>,
) -> int
    decreases bs.len(),
{
    if bs.len() == 0 {
        0
    } else {
        failed_count(b, bs.drop_last()) + if batch_ok(b, bs.last().1@) {
            0int
        } else {
            1int
        }
    }
}

/// The finalizer identities of every event in a sequence of batches.
pub open spec fn batches_fin_ids(bs: Seq<(Option<String>, Vec<Event>)>) -> Seq<u64>
    decreases bs.len(),
{
    if bs.len() == 0 {
        Seq::empty()
    } else {
        batches_fin_ids(bs.drop_last()) + fin_ids(bs.last().1@)
    }
}

/// Requests that match planned containers pointwise carry exactly the
/// containers' finalizer identities, in order.
proof fn lemma_requests_carry_chunk_ids(rs: Seq<LogApiRequest>, cs: Seq<Seq<Event>>)
    requires
        rs.len() == cs.len(),
        forall|i: int| 0 <= i < rs.len() ==> (#[trigger] rs[i]).finalizers@ == fin_seq(cs[i]),
    ensures
        all_req_fin_ids(rs) == fin_ids(cs.flatten()),
    decreases rs.len(),
{
    if rs.len() == 0 {
        assert(cs.flatten() =~= Seq::<Event>::empty());
        assert(all_req_fin_ids(rs) =~= fin_ids(cs.flatten()));
    } else {
        let rd = rs.drop_last();
        let cd = cs.drop_last();
        assert(forall|i: int| 0 <= i < rd.len() ==> #[trigger] rd[i] == rs[i]);
        assert(forall|i: int| 0 <= i < cd.len() ==> #[trigger] cd[i] == cs[i]);
        lemma_requests_carry_chunk_ids(rd, cd);
        assert(cs =~= cd + seq![cs.last()]);
        vstd::seq_lib::lemma_flatten_concat(cd, seq![cs.last()]);
        assert(seq![cs.last()].flatten() =~= cs.last()) by {
            seq![cs.last()].lemma_flatten_one_element();
        }
        crate::plan::lemma_fin_ids_concat(cd.flatten(), cs.last());
        assert(ids_of(rs.last().finalizers@) =~= fin_ids(cs.last()));
        assert(all_req_fin_ids(rs) =~= fin_ids(cs.flatten()));
    }
}

/// Request identity sequences concatenate batch by batch.
proof fn lemma_all_req_fin_ids_concat(a: Seq<LogApiRequest>, b: Seq<LogApiRequest>)
    ensures
        all_req_fin_ids(a + b) == all_req_fin_ids(a) + all_req_fin_ids(b),
    decreases b.len(),
{
    if b.len() == 0 {
        assert(a + b =~= a);
        assert(all_req_fin_ids(a) + all_req_fin_ids(b) =~= all_req_fin_ids(a));
    } else {
        lemma_all_req_fin_ids_concat(a, b.drop_last());
        assert((a + b).drop_last() =~= a + b.drop_last());
        assert((a + b).last() == b.last());
        assert(all_req_fin_ids(a) + all_req_fin_ids(b) =~= all_req_fin_ids(a)
            + all_req_fin_ids(b.drop_last()) + ids_of(b.last().finalizers@));
    }
}

impl<T: Transform, S, C: Codec> LogSink<T, S, C> {
    /// The request-builder configuration this sink runs with.
    pub open spec fn req_builder(self) -> LogRequestBuilder<T, C> {
        LogRequestBuilder {
            default_api_key: self.default_api_key,
            transformer: self.transformer,
            compression: self.compression,
            conforms_as_agent: self.conforms_as_agent,
            max_payload_bytes: MAX_PAYLOAD_BYTES,
        }
    }

    /// The pipeline's decision core, one builder invocation per batch, in
    /// batch order: events with no routing key share the default key; the
    /// requests of successful builds are collected in order; a failed build
    /// is recorded — its events' finalizers terminally resolved — and the
    /// remaining batches are processed normally. Consumes the sink and hands
    /// the dispatch service and the protocol label back to the driver.
    ///
    /// Every finalizer of every batch comes out exactly once: in a request,
    /// in the drop records, or in the failure records. Every request body
    /// stayed strictly under [`MAX_PAYLOAD_BYTES`] before compression.
    pub fn run_batches(self, batches: Vec<(Option<String>, Vec<Event>)>) -> (r: (
        S,
        String,
        PipelineOutput,
    ))
        ensures
            r.0 == self.service,
            r.1 == self.protocol,
            all_req_fin_ids(r.2.requests@).to_multiset().add(
                ids_of(r.2.dropped@).to_multiset(),
            ).add(ids_of(r.2.errored@).to_multiset()) == batches_fin_ids(batches@).to_multiset(),
            all_status(r.2.dropped@, Disposition::Dropped),
            all_status(r.2.errored@, Disposition::Errored),
            r.2.build_failures <= batches@.len(),
            r.2.build_failures as int == failed_count(self.req_builder(), batches@),
            r.2.requests@.len() == planned_requests(self.req_builder(), batches@).len(),
            forall|i: int|
                0 <= i < r.2.requests@.len() ==> self.req_builder().req_matches(
                    #[trigger] r.2.requests@[i],
                    planned_requests(self.req_builder(), batches@)[i].1,
                    planned_requests(self.req_builder(), batches@)[i].0,
                ),
            forall|i: int|
                0 <= i < r.2.requests@.len() ==> (#[trigger] r.2.requests@[i]).uncompressed_size
                    < MAX_PAYLOAD_BYTES,
    {
        let ghost bs0 = batches@;
        let LogSink {
            default_api_key,
            service,
            transformer,
            compression,
            batch_settings: _,
            protocol,
            conforms_as_agent,
        } = self;
        let builder = LogRequestBuilder {
            default_api_key,
            transformer,
            compression,
            conforms_as_agent,
            max_payload_bytes: MAX_PAYLOAD_BYTES,
        };
        let ghost sb = self;
        proof {
            assert(builder == sb.req_builder());
        }
        let mut batches = batches;
        let mut requests: Vec<LogApiRequest> = Vec::new();
        let mut dropped: Vec<Finalizer> = Vec::new();
        let mut errored: Vec<Finalizer> = Vec::new();
        let mut build_failures: usize = 0;
        let mut i: usize = 0;
        let n_batches = batches.len();
        proof {
            crate::plan::lemma_ids_multiset_empty();
            broadcast use vstd::multiset::group_multiset_axioms;

            assert(bs0.len() == n_batches as int);
            assert(all_req_fin_ids(requests@) =~= Seq::<u64>::empty());
            assert(ids_of(dropped@) =~= Seq::<u64>::empty());
            assert(ids_of(errored@) =~= Seq::<u64>::empty());
            assert(batches_fin_ids(bs0.take(0)) =~= Seq::<u64>::empty());
            assert(all_req_fin_ids(requests@).to_multiset().add(
                ids_of(dropped@).to_multiset(),
            ).add(ids_of(errored@).to_multiset()) =~= batches_fin_ids(bs0.take(0)).to_multiset());
            assert(bs0.take(0) =~= Seq::<(Option<String>, Vec<Event>)>::empty());
            assert(planned_requests(builder, bs0.take(0)) =~= Seq::<(Seq<char>, Seq<Event>)>::empty());
        }
        loop
            invariant
                i <= bs0.len(),
                bs0.len() <= usize::MAX,
                builder == sb.req_builder(),
                builder.max_payload_bytes == MAX_PAYLOAD_BYTES,
                batches@ == bs0.skip(i as int),
                build_failures <= i,
                build_failures as int == failed_count(builder, bs0.take(i as int)),
                requests@.len() == planned_requests(builder, bs0.take(i as int)).len(),
                forall|x: int|
                    0 <= x < requests@.len() ==> builder.req_matches(
                        #[trigger] requests@[x],
                        planned_requests(builder, bs0.take(i as int))[x].1,
                        planned_requests(builder, bs0.take(i as int))[x].0,
                    ),
                all_status(dropped@, Disposition::Dropped),
                all_status(errored@, Disposition::Errored),
                all_req_fin_ids(requests@).to_multiset().add(ids_of(dropped@).to_multiset()).add(
                    ids_of(errored@).to_multiset(),
                ) == batches_fin_ids(bs0.take(i as int)).to_multiset(),
                forall|x: int|
                    0 <= x < requests@.len() ==> (#[trigger] requests@[x]).uncompressed_size
                        < MAX_PAYLOAD_BYTES,
            ensures
                i == bs0.len(),
                build_failures <= i,
                build_failures as int == failed_count(builder, bs0.take(i as int)),
                requests@.len() == planned_requests(builder, bs0.take(i as int)).len(),
                forall|x: int|
                    0 <= x < requests@.len() ==> builder.req_matches(
                        #[trigger] requests@[x],
                        planned_requests(builder, bs0.take(i as int))[x].1,
                        planned_requests(builder, bs0.take(i as int))[x].0,
                    ),
                all_status(dropped@, Disposition::Dropped),
                all_status(errored@, Disposition::Errored),
                all_req_fin_ids(requests@).to_multiset().add(ids_of(dropped@).to_multiset()).add(
                    ids_of(errored@).to_multiset(),
                ) == batches_fin_ids(bs0.take(i as int)).to_multiset(),
                forall|x: int|
                    0 <= x < requests@.len() ==> (#[trigger] requests@[x]).uncompressed_size
                        < MAX_PAYLOAD_BYTES,
            decreases batches.len(),
        {
            if batches.len() == 0 {
                proof {
                    assert(bs0.skip(i as int).len() == 0);
                }
                break;
            }
            let ghost batch_model = bs0[i as int];
            let (key, events) = batches.remove(0);
            let ghost key0 = key;
            proof {
                assert((key, events) == bs0[i as int]);
                assert(batches@ =~= bs0.skip(i as int + 1));
                broadcast use vstd::multiset::group_multiset_axioms;
            }
            let ghost in_events = events@;
            let api_key = match key {
                Some(k) => k,
                None => builder.default_api_key.clone(),
            };
            let ghost req_pre = requests@;
            let ghost drop_pre = dropped@;
            let ghost err_pre = errored@;
            match builder.build_request(events, api_key) {
                Ok(out) => {
                    let BuildOutput { requests: mut new_requests, dropped: mut new_dropped } = out;
                    let ghost new_reqs = new_requests@;
                    let ghost new_drops = new_dropped@;
                    proof {
                        let ts = builder.transformed(in_events);
                        let max = builder.max_payload_bytes as int;
                        lemma_requests_carry_chunk_ids(new_reqs, chunks(ts, max));
                        crate::plan::lemma_finalizer_exactly_once(ts, max);
                        crate::plan::lemma_chunks_capped(ts, max);
                        assert(forall|x: int|
                            0 <= x < new_reqs.len() ==> (#[trigger] new_reqs[x]).uncompressed_size
                                == framed_len(chunks(ts, max)[x]));
                    }
                    requests.append(&mut new_requests);
                    dropped.append(&mut new_dropped);
                    proof {
                        broadcast use vstd::multiset::group_multiset_axioms;

                        let ts = builder.transformed(in_events);
                        let max = builder.max_payload_bytes as int;
                        assert(requests@ == req_pre + new_reqs);
                        assert(dropped@ == drop_pre + new_drops);
                        lemma_all_req_fin_ids_concat(req_pre, new_reqs);
                        assert(all_req_fin_ids(new_reqs) == fin_ids(chunks(ts, max).flatten()));
                        assert(ids_of(dropped@) =~= ids_of(drop_pre) + ids_of(new_drops));
                        assert(ids_of(new_drops) == fin_ids(drops(ts, max)));
                        crate::plan::lemma_ids_multiset_concat(
                            all_req_fin_ids(req_pre),
                            fin_ids(chunks(ts, max).flatten()),
                        );
                        crate::plan::lemma_ids_multiset_concat(
                            ids_of(drop_pre),
                            fin_ids(drops(ts, max)),
                        );
                        assert(batches_fin_ids(bs0.take(i as int + 1)) == batches_fin_ids(
                            bs0.take(i as int),
                        ) + fin_ids(in_events)) by {
                            assert(bs0.take(i as int + 1).drop_last() =~= bs0.take(i as int));
                            assert(bs0.take(i as int + 1).last() == bs0[i as int]);
                        }
                        crate::plan::lemma_ids_multiset_concat(
                            batches_fin_ids(bs0.take(i as int)),
                            fin_ids(in_events),
                        );
                        assert(all_req_fin_ids(requests@).to_multiset().add(
                            ids_of(dropped@).to_multiset(),
                        ).add(ids_of(errored@).to_multiset()) =~= batches_fin_ids(
                            bs0.take(i as int + 1),
                        ).to_multiset());
                        // The new requests extend the planned pairs in order.
                        assert(batch_ok(builder, in_events));
                        assert(bs0.take(i as int + 1).drop_last() =~= bs0.take(i as int));
                        assert(bs0.take(i as int + 1).last() == bs0[i as int]);
                        assert(planned_requests(builder, bs0.take(i as int + 1))
                            == planned_requests(builder, bs0.take(i as int)) + chunk_pairs(
                            builder,
                            key0,
                            in_events,
                        ));
                        assert(failed_count(builder, bs0.take(i as int + 1)) == failed_count(
                            builder,
                            bs0.take(i as int),
                        ));
                        assert(forall|x: int|
                            0 <= x < chunks(ts, max).len() ==> #[trigger] chunk_pairs(
                                builder,
                                key0,
                                in_events,
                            )[x] == (batch_key(builder.default_api_key@, key0), chunks(ts, max)[x]));
                        assert forall|x: int|
                            0 <= x < requests@.len() implies builder.req_matches(
                            #[trigger] requests@[x],
                            planned_requests(builder, bs0.take(i as int + 1))[x].1,
                            planned_requests(builder, bs0.take(i as int + 1))[x].0,
                        ) by {
                            let plan_pre = planned_requests(builder, bs0.take(i as int));
                            if x < req_pre.len() {
                                assert(requests@[x] == req_pre[x]);
                                assert(planned_requests(builder, bs0.take(i as int + 1))[x]
                                    == plan_pre[x]);
                            } else {
                                let y = x - req_pre.len();
                                assert(requests@[x] == new_reqs[y]);
                                assert(planned_requests(builder, bs0.take(i as int + 1))[x]
                                    == chunk_pairs(builder, key0, in_events)[y]);
                            }
                        }
                    }
                },
                Err(f) => {
                    build_failures = build_failures + 1;
                    let mut new_errored = f.finalizers;
                    let mut new_dropped = f.dropped;
                    let ghost efins = new_errored@;
                    let ghost dfins = new_dropped@;
                    errored.append(&mut new_errored);
                    dropped.append(&mut new_dropped);
                    proof {
                        broadcast use vstd::multiset::group_multiset_axioms;

                        let ts = builder.transformed(in_events);
                        assert(errored@ == err_pre + efins);
                        assert(dropped@ == drop_pre + dfins);
                        assert(ids_of(errored@) =~= ids_of(err_pre) + ids_of(efins));
                        assert(ids_of(dropped@) =~= ids_of(drop_pre) + ids_of(dfins));
                        crate::plan::lemma_ids_multiset_concat(ids_of(err_pre), ids_of(efins));
                        crate::plan::lemma_ids_multiset_concat(ids_of(drop_pre), ids_of(dfins));
                        assert(batches_fin_ids(bs0.take(i as int + 1)) == batches_fin_ids(
                            bs0.take(i as int),
                        ) + fin_ids(in_events)) by {
                            assert(bs0.take(i as int + 1).drop_last() =~= bs0.take(i as int));
                            assert(bs0.take(i as int + 1).last() == bs0[i as int]);
                        }
                        crate::plan::lemma_ids_multiset_concat(
                            batches_fin_ids(bs0.take(i as int)),
                            fin_ids(in_events),
                        );
                        assert(all_req_fin_ids(requests@).to_multiset().add(
                            ids_of(dropped@).to_multiset(),
                        ).add(ids_of(errored@).to_multiset()) =~= batches_fin_ids(
                            bs0.take(i as int + 1),
                        ).to_multiset());
                        // A failed batch adds nothing to the planned pairs.
                        assert(!batch_ok(builder, in_events));
                        assert(bs0.take(i as int + 1).drop_last() =~= bs0.take(i as int));
                        assert(bs0.take(i as int + 1).last() == bs0[i as int]);
                        assert(planned_requests(builder, bs0.take(i as int + 1))
                            =~= planned_requests(builder, bs0.take(i as int)));
                        assert(failed_count(builder, bs0.take(i as int + 1)) == failed_count(
                            builder,
                            bs0.take(i as int),
                        ) + 1);
                    }
                },
            }
            i = i + 1;
        }
        proof {
            assert(bs0.take(bs0.len() as int) =~= bs0);
        }
        (
            service,
            protocol,
            PipelineOutput { requests, dropped, errored, build_failures },
        )
    }
}

} // verus!
