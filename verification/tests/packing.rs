use std::collections::VecDeque;

use log_sink::builder::{LogRequestBuilder, RequestBuildError};
use log_sink::codec::{BoundedCodec, NoopCodec};
use log_sink::event::{Disposition, Event, Finalizer};
use log_sink::serializer::serialize_with_capacity;
use log_sink::transform::IdentityTransform;

fn event(id: u64, payload_len: usize) -> Event {
    Event {
        payload: vec![b'x'; payload_len],
        api_key: None,
        finalizer: Finalizer { id, status: Disposition::Pending },
    }
}

fn builder(max: usize) -> LogRequestBuilder<IdentityTransform, NoopCodec> {
    LogRequestBuilder {
        default_api_key: String::from("default-key"),
        transformer: IdentityTransform,
        compression: None,
        conforms_as_agent: false,
        max_payload_bytes: max,
    }
}

#[test]
fn serializer_packs_two_of_three_forty_byte_events() {
    // Cap of 100: two 40-byte entries fit (with brackets and comma), the
    // third is left at the head of the queue for the next pass.
    let mut queue: VecDeque<Event> = VecDeque::new();
    queue.push_back(event(1, 40));
    queue.push_back(event(2, 40));
    queue.push_back(event(3, 40));
    let (serialized, buf, byte_size) = serialize_with_capacity(&mut queue, 100);
    assert_eq!(serialized.len(), 2);
    assert_eq!(serialized[0].finalizer.id, 1);
    assert_eq!(serialized[1].finalizer.id, 2);
    assert_eq!(queue.len(), 1);
    assert_eq!(queue[0].finalizer.id, 3);
    assert_eq!(buf.len(), 83);
    assert!(buf.len() < 100);
    assert_eq!(byte_size.count, 2);
    assert_eq!(byte_size.byte_size, 80);
}

#[test]
fn serializer_emits_exact_container_bytes() {
    let mut queue: VecDeque<Event> = VecDeque::new();
    queue.push_back(Event {
        payload: vec![b'a', b'b'],
        api_key: None,
        finalizer: Finalizer { id: 7, status: Disposition::Pending },
    });
    queue.push_back(Event {
        payload: vec![b'c'],
        api_key: None,
        finalizer: Finalizer { id: 8, status: Disposition::Pending },
    });
    let (serialized, buf, byte_size) = serialize_with_capacity(&mut queue, 100);
    assert_eq!(serialized.len(), 2);
    assert!(queue.is_empty());
    assert_eq!(buf, vec![b'[', b'a', b'b', b',', b'c', b']']);
    assert_eq!(byte_size.count, 2);
    assert_eq!(byte_size.byte_size, 3);
}

#[test]
fn serializer_reports_nothing_fit_without_dropping() {
    // The serializer never drops: the oversize head stays queued.
    let mut queue: VecDeque<Event> = VecDeque::new();
    queue.push_back(event(1, 150));
    let (serialized, buf, byte_size) = serialize_with_capacity(&mut queue, 100);
    assert!(serialized.is_empty());
    assert_eq!(buf, vec![b'[', b']']);
    assert_eq!(byte_size.count, 0);
    assert_eq!(queue.len(), 1);
    assert_eq!(queue[0].finalizer.id, 1);
}

#[test]
fn oversize_event_yields_no_request_one_drop_one_signal() {
    // A single 150-byte encoding against a 100-byte cap: zero requests, one
    // dropped event whose finalizer is terminally resolved; one drop entry
    // means one "too large" telemetry signal owed.
    let out = builder(100)
        .build_request(vec![event(9, 150)], String::from("k"))
        .expect("oversize events are dropped, not an error");
    assert!(out.requests.is_empty());
    assert_eq!(out.dropped.len(), 1);
    assert_eq!(out.dropped[0].id, 9);
    assert_eq!(out.dropped[0].status, Disposition::Dropped);
}

#[test]
fn oversize_head_does_not_stall_the_rest() {
    // No-progress termination: exactly one drop, then the queue continues.
    let out = builder(100)
        .build_request(vec![event(1, 150), event(2, 10), event(3, 10)], String::from("k"))
        .expect("build succeeds");
    assert_eq!(out.dropped.len(), 1);
    assert_eq!(out.dropped[0].id, 1);
    assert_eq!(out.requests.len(), 1);
    let ids: Vec<u64> = out.requests[0].finalizers.iter().map(|f| f.id).collect();
    assert_eq!(ids, vec![2, 3]);
}

#[test]
fn conservation_across_requests_and_drops() {
    // Total events across requests plus drops equals the batch size.
    let events = vec![
        event(1, 40),
        event(2, 40),
        event(3, 150),
        event(4, 40),
        event(5, 40),
        event(6, 40),
    ];
    let n = events.len();
    let out = builder(100).build_request(events, String::from("k")).expect("build succeeds");
    let in_requests: usize = out.requests.iter().map(|r| r.event_count).sum();
    assert_eq!(in_requests + out.dropped.len(), n);
    let fin_total: usize = out.requests.iter().map(|r| r.finalizers.len()).sum();
    assert_eq!(fin_total + out.dropped.len(), n);
}

#[test]
fn order_preserved_when_nothing_is_dropped() {
    let events = vec![event(1, 40), event(2, 40), event(3, 40), event(4, 40), event(5, 40)];
    let out = builder(100).build_request(events, String::from("k")).expect("build succeeds");
    assert!(out.dropped.is_empty());
    let ids: Vec<u64> =
        out.requests.iter().flat_map(|r| r.finalizers.iter().map(|f| f.id)).collect();
    assert_eq!(ids, vec![1, 2, 3, 4, 5]);
}

#[test]
fn every_container_stays_under_the_cap() {
    let events = (0..20).map(|i| event(i, 30)).collect::<Vec<_>>();
    let out = builder(100).build_request(events, String::from("k")).expect("build succeeds");
    assert!(!out.requests.is_empty());
    for r in &out.requests {
        assert!(r.uncompressed_size < 100);
        assert!(r.body.len() < 100);
    }
}

#[test]
fn request_carries_key_counts_and_raw_body() {
    let out = builder(100)
        .build_request(vec![event(1, 3), event(2, 4)], String::from("route-a"))
        .expect("build succeeds");
    assert_eq!(out.requests.len(), 1);
    let r = &out.requests[0];
    assert_eq!(r.api_key, "route-a");
    assert_eq!(r.event_count, 2);
    // '[' + 3 bytes + ',' + 4 bytes + ']'
    assert_eq!(r.uncompressed_size, 10);
    assert_eq!(r.body.len(), 10);
    assert!(!r.compressed);
    assert_eq!(r.byte_size.count, 2);
    assert_eq!(r.byte_size.byte_size, 7);
    assert_eq!(r.finalizers.len(), 2);
    assert_eq!(r.finalizers[0].status, Disposition::Pending);
}

#[test]
fn empty_payload_is_a_serialization_error() {
    let f = builder(100)
        .build_request(vec![event(1, 10), event(2, 0)], String::from("k"))
        .expect_err("an empty encoded payload is rejected");
    assert_eq!(f.kind, RequestBuildError::Serialization);
    assert_eq!(f.finalizers.len(), 2);
    assert!(f.finalizers.iter().all(|x| x.status == Disposition::Errored));
    assert!(f.dropped.is_empty());
}

#[test]
fn codec_failure_is_a_distinct_error_kind() {
    // A codec whose worst-case bound admits nothing rejects every container.
    let b = LogRequestBuilder {
        default_api_key: String::from("default-key"),
        transformer: IdentityTransform,
        compression: Some(BoundedCodec { limit: 0 }),
        conforms_as_agent: false,
        max_payload_bytes: 100,
    };
    let f = b
        .build_request(vec![event(1, 150), event(2, 10), event(3, 10)], String::from("k"))
        .expect_err("the codec rejects every container");
    assert_eq!(f.kind, RequestBuildError::Codec);
    // Exactly-once across the failure: id 1 was dropped as oversize before
    // the codec ever ran, ids 2 and 3 were lost to the codec failure.
    let mut errored: Vec<u64> = f.finalizers.iter().map(|x| x.id).collect();
    errored.sort();
    assert_eq!(errored, vec![2, 3]);
    assert!(f.finalizers.iter().all(|x| x.status == Disposition::Errored));
    assert_eq!(f.dropped.len(), 1);
    assert_eq!(f.dropped[0].id, 1);
    assert_eq!(f.dropped[0].status, Disposition::Dropped);
}

#[test]
fn bounded_codec_passes_small_containers_through() {
    let b = LogRequestBuilder {
        default_api_key: String::from("default-key"),
        transformer: IdentityTransform,
        compression: Some(BoundedCodec { limit: 64 }),
        conforms_as_agent: false,
        max_payload_bytes: 100,
    };
    let out = b.build_request(vec![event(1, 2)], String::from("k")).expect("build succeeds");
    assert_eq!(out.requests.len(), 1);
    assert!(!out.requests[0].compressed);
    assert_eq!(out.requests[0].body, vec![b'[', b'x', b'x', b']']);
}

#[test]
fn noop_codec_keeps_body_and_flag() {
    let b = LogRequestBuilder {
        default_api_key: String::from("default-key"),
        transformer: IdentityTransform,
        compression: Some(NoopCodec),
        conforms_as_agent: false,
        max_payload_bytes: 100,
    };
    let out = b.build_request(vec![event(1, 2)], String::from("k")).expect("build succeeds");
    assert_eq!(out.requests.len(), 1);
    assert!(!out.requests[0].compressed);
    assert_eq!(out.requests[0].body, vec![b'[', b'x', b'x', b']']);
}

#[test]
fn finish_request_moves_finalizers_and_sizes() {
    let b = builder(100);
    let buf = vec![b'[', b'a', b']'];
    let acc = {
        let mut acc = log_sink::accountant::CountByteSize::new();
        acc.add_event(&event(5, 1));
        acc
    };
    let req = b
        .finish_request(buf, vec![event(5, 1)], acc, String::from("k"))
        .expect("no codec is configured");
    assert_eq!(req.api_key, "k");
    assert_eq!(req.event_count, 1);
    assert_eq!(req.uncompressed_size, 3);
    assert_eq!(req.finalizers.len(), 1);
    assert_eq!(req.finalizers[0].id, 5);
    assert_eq!(req.byte_size.count, 1);
    assert_eq!(req.byte_size.byte_size, 1);
}
