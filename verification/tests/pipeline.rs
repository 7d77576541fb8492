use log_sink::batcher::BatcherSettings;
use log_sink::codec::NoopCodec;
use log_sink::event::{Disposition, Event, Finalizer};
use log_sink::sink::LogSinkBuilder;
use log_sink::transform::IdentityTransform;

fn keyed_event(id: u64, key: Option<&str>, payload_len: usize) -> Event {
    Event {
        payload: vec![b'x'; payload_len],
        api_key: key.map(|k| k.to_string()),
        finalizer: Finalizer { id, status: Disposition::Pending },
    }
}

fn settings() -> BatcherSettings {
    BatcherSettings { max_events: 10, max_bytes: 10_000, timeout: 1_000 }
}

#[test]
fn builder_collects_configuration() {
    let b = LogSinkBuilder::<IdentityTransform, u8, NoopCodec>::new(
        IdentityTransform,
        7u8,
        "default-key".to_string(),
        settings(),
        "http".to_string(),
        true,
    );
    assert_eq!(b.default_api_key, "default-key");
    assert_eq!(b.protocol, "http");
    assert!(b.conforms_as_agent);
    assert!(b.compression.is_none());
    let b = b.compression(NoopCodec);
    assert!(b.compression.is_some());
    let sink = b.build();
    assert_eq!(sink.default_api_key, "default-key");
    assert_eq!(sink.service, 7u8);
    assert_eq!(sink.protocol, "http");
    assert!(sink.conforms_as_agent);
}

#[test]
fn run_batches_resolves_default_key_and_conserves_events() {
    let sink = LogSinkBuilder::<IdentityTransform, u8, NoopCodec>::new(
        IdentityTransform,
        1u8,
        "default-key".to_string(),
        settings(),
        "http".to_string(),
        false,
    )
    .build();
    let batches = vec![
        (Some("A".to_string()), vec![keyed_event(1, Some("A"), 4), keyed_event(2, Some("A"), 4)]),
        (None, vec![keyed_event(3, None, 4)]),
    ];
    let (service, protocol, out) = sink.run_batches(batches);
    assert_eq!(service, 1u8);
    assert_eq!(protocol, "http");
    assert_eq!(out.build_failures, 0);
    assert!(out.dropped.is_empty());
    assert!(out.errored.is_empty());
    assert_eq!(out.requests.len(), 2);
    assert_eq!(out.requests[0].api_key, "A");
    assert_eq!(out.requests[1].api_key, "default-key");
    let total: usize = out.requests.iter().map(|r| r.event_count).sum();
    assert_eq!(total, 3);
}

#[test]
fn one_bad_batch_does_not_stall_the_next() {
    // The first batch holds an invalid (empty) encoding and fails to build;
    // its finalizers come back terminally resolved, and the second batch is
    // processed normally.
    let sink = LogSinkBuilder::<IdentityTransform, u8, NoopCodec>::new(
        IdentityTransform,
        1u8,
        "default-key".to_string(),
        settings(),
        "http".to_string(),
        false,
    )
    .build();
    let batches = vec![
        (None, vec![keyed_event(1, None, 0), keyed_event(2, None, 4)]),
        (None, vec![keyed_event(3, None, 4)]),
    ];
    let (_, _, out) = sink.run_batches(batches);
    assert_eq!(out.build_failures, 1);
    let mut errored: Vec<u64> = out.errored.iter().map(|f| f.id).collect();
    errored.sort();
    assert_eq!(errored, vec![1, 2]);
    assert!(out.errored.iter().all(|f| f.status == Disposition::Errored));
    assert_eq!(out.requests.len(), 1);
    assert_eq!(out.requests[0].finalizers[0].id, 3);
}

#[test]
fn finalizers_resolve_exactly_once_across_the_pipeline() {
    // Every finalizer ends in exactly one place: a request (still pending,
    // for the dispatch driver), the drop records, or the failure records.
    let sink = LogSinkBuilder::<IdentityTransform, u8, NoopCodec>::new(
        IdentityTransform,
        1u8,
        "default-key".to_string(),
        settings(),
        "http".to_string(),
        false,
    )
    .build();
    let batches = vec![
        (None, vec![keyed_event(1, None, 10), keyed_event(2, None, 8_000_000)]),
        (None, vec![keyed_event(3, None, 10), keyed_event(4, None, 0)]),
        (None, vec![keyed_event(5, None, 10)]),
    ];
    let (_, _, out) = sink.run_batches(batches);
    let mut seen: Vec<u64> = Vec::new();
    for r in &out.requests {
        for f in &r.finalizers {
            assert_eq!(f.status, Disposition::Pending);
            seen.push(f.id);
        }
    }
    for f in &out.dropped {
        assert_eq!(f.status, Disposition::Dropped);
        seen.push(f.id);
    }
    for f in &out.errored {
        assert_eq!(f.status, Disposition::Errored);
        seen.push(f.id);
    }
    seen.sort();
    assert_eq!(seen, vec![1, 2, 3, 4, 5]);
    // Id 2 was oversize (dropped), 3 and 4 were lost to the failed batch.
    assert_eq!(out.dropped.len(), 1);
    assert_eq!(out.dropped[0].id, 2);
    assert_eq!(out.build_failures, 1);
}

#[test]
fn identity_transform_passes_payloads_through() {
    let b = log_sink::builder::LogRequestBuilder::<IdentityTransform, NoopCodec> {
        default_api_key: "default-key".to_string(),
        transformer: IdentityTransform,
        compression: None,
        conforms_as_agent: false,
        max_payload_bytes: 100,
    };
    let out = b
        .build_request(
            vec![Event {
                payload: vec![b'a'],
                api_key: None,
                finalizer: Finalizer { id: 42, status: Disposition::Pending },
            }],
            "k".to_string(),
        )
        .expect("build succeeds");
    assert_eq!(out.requests.len(), 1);
    assert_eq!(out.requests[0].body, vec![b'[', b'a', b']']);
    assert_eq!(out.requests[0].finalizers[0].id, 42);
}

#[test]
fn accountant_tracks_count_and_estimated_bytes() {
    let mut acc = log_sink::accountant::CountByteSize::new();
    assert_eq!(acc.count, 0);
    assert_eq!(acc.byte_size, 0);
    acc.add_event(&keyed_event(1, None, 11));
    acc.add_event(&keyed_event(2, None, 7));
    assert_eq!(acc.count, 2);
    assert_eq!(acc.byte_size, 18);
}

#[test]
fn take_finalizers_keeps_order_and_identity() {
    let fins = log_sink::event::take_finalizers(vec![
        keyed_event(5, None, 1),
        keyed_event(6, None, 1),
    ]);
    let ids: Vec<u64> = fins.iter().map(|f| f.id).collect();
    assert_eq!(ids, vec![5, 6]);
    assert!(fins.iter().all(|f| f.status == Disposition::Pending));
}

#[test]
fn resolve_all_sets_the_terminal_disposition() {
    let fins = log_sink::event::resolve_all(
        vec![keyed_event(5, None, 1), keyed_event(6, None, 1)],
        Disposition::Errored,
    );
    let ids: Vec<u64> = fins.iter().map(|f| f.id).collect();
    assert_eq!(ids, vec![5, 6]);
    assert!(fins.iter().all(|f| f.status == Disposition::Errored));
}
