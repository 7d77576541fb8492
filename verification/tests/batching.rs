use log_sink::batcher::{Batcher, BatcherSettings};
use log_sink::event::{Disposition, Event, Finalizer};
use log_sink::partition::EventPartitioner;

fn keyed_event(id: u64, key: Option<&str>, payload_len: usize) -> Event {
    Event {
        payload: vec![b'x'; payload_len],
        api_key: key.map(|k| k.to_string()),
        finalizer: Finalizer { id, status: Disposition::Pending },
    }
}

fn settings(max_events: usize, max_bytes: u64, timeout: u64) -> BatcherSettings {
    BatcherSettings { max_events, max_bytes, timeout }
}

#[test]
fn partitioner_returns_the_event_key() {
    let p = EventPartitioner;
    let e = keyed_event(1, Some("A"), 4);
    assert_eq!(p.partition(&e), Some("A".to_string()));
    let e2 = keyed_event(2, None, 4);
    assert_eq!(p.partition(&e2), None);
}

#[test]
fn two_keys_make_two_single_event_batches() {
    // Keys "A" then "B" under max-count 1: two independent batches.
    let mut b = Batcher::new(settings(1, 10_000, 1_000));
    let got_a = b.push(Some("A".to_string()), keyed_event(1, Some("A"), 4), 0);
    assert_eq!(got_a.len(), 1);
    assert_eq!(got_a[0].0, Some("A".to_string()));
    assert_eq!(got_a[0].1.len(), 1);
    assert_eq!(got_a[0].1[0].finalizer.id, 1);
    let got_b = b.push(Some("B".to_string()), keyed_event(2, Some("B"), 4), 0);
    assert_eq!(got_b.len(), 1);
    assert_eq!(got_b[0].0, Some("B".to_string()));
    assert_eq!(got_b[0].1.len(), 1);
    assert_eq!(got_b[0].1[0].finalizer.id, 2);
    assert!(b.flush().is_empty());
}

#[test]
fn two_keys_make_two_single_event_batches_reversed() {
    // Same under the other interleaving.
    let mut b = Batcher::new(settings(1, 10_000, 1_000));
    let got_b = b.push(Some("B".to_string()), keyed_event(2, Some("B"), 4), 0);
    assert_eq!(got_b.len(), 1);
    assert_eq!(got_b[0].0, Some("B".to_string()));
    assert_eq!(got_b[0].1.len(), 1);
    let got_a = b.push(Some("A".to_string()), keyed_event(1, Some("A"), 4), 0);
    assert_eq!(got_a.len(), 1);
    assert_eq!(got_a[0].0, Some("A".to_string()));
    assert_eq!(got_a[0].1.len(), 1);
    assert!(b.flush().is_empty());
}

#[test]
fn count_bound_closes_a_batch() {
    let mut b = Batcher::new(settings(3, 10_000, 1_000));
    assert!(b.push(None, keyed_event(1, None, 4), 0).is_empty());
    assert!(b.push(None, keyed_event(2, None, 4), 0).is_empty());
    let got = b.push(None, keyed_event(3, None, 4), 0);
    assert_eq!(got.len(), 1);
    let ids: Vec<u64> = got[0].1.iter().map(|e| e.finalizer.id).collect();
    assert_eq!(ids, vec![1, 2, 3]);
    assert!(b.flush().is_empty());
}

#[test]
fn byte_bound_closes_before_admitting() {
    // 60 + 60 would exceed 100 estimated bytes: the first batch closes with
    // one event and the new event starts a fresh lane.
    let mut b = Batcher::new(settings(10, 100, 1_000));
    assert!(b.push(None, keyed_event(1, None, 60), 0).is_empty());
    let got = b.push(None, keyed_event(2, None, 60), 0);
    assert_eq!(got.len(), 1);
    assert_eq!(got[0].1.len(), 1);
    assert_eq!(got[0].1[0].finalizer.id, 1);
    let rest = b.flush();
    assert_eq!(rest.len(), 1);
    assert_eq!(rest[0].1.len(), 1);
    assert_eq!(rest[0].1[0].finalizer.id, 2);
}

#[test]
fn single_oversize_estimate_is_still_admitted() {
    // An estimate beyond the byte bound does not wedge the batcher: the
    // event is admitted as the sole member of its lane; the hard cap is the
    // serializer's business.
    let mut b = Batcher::new(settings(10, 100, 1_000));
    assert!(b.push(None, keyed_event(1, None, 500), 0).is_empty());
    let got = b.flush();
    assert_eq!(got.len(), 1);
    assert_eq!(got[0].1.len(), 1);
    assert_eq!(got[0].1[0].finalizer.id, 1);
}

#[test]
fn keys_are_batched_independently() {
    let mut b = Batcher::new(settings(2, 10_000, 1_000));
    assert!(b.push(Some("A".to_string()), keyed_event(1, Some("A"), 4), 0).is_empty());
    assert!(b.push(Some("B".to_string()), keyed_event(2, Some("B"), 4), 0).is_empty());
    let got = b.push(Some("A".to_string()), keyed_event(3, Some("A"), 4), 0);
    assert_eq!(got.len(), 1);
    assert_eq!(got[0].0, Some("A".to_string()));
    let ids: Vec<u64> = got[0].1.iter().map(|e| e.finalizer.id).collect();
    assert_eq!(ids, vec![1, 3]);
    let rest = b.flush();
    assert_eq!(rest.len(), 1);
    assert_eq!(rest[0].0, Some("B".to_string()));
}

#[test]
fn age_bound_emits_on_expire() {
    let mut b = Batcher::new(settings(10, 10_000, 50));
    assert!(b.push(None, keyed_event(1, None, 4), 100).is_empty());
    assert!(b.expire(120).is_empty());
    let got = b.expire(150);
    assert_eq!(got.len(), 1);
    assert_eq!(got[0].1[0].finalizer.id, 1);
    assert!(b.flush().is_empty());
}

#[test]
fn expire_leaves_young_lanes_alone() {
    let mut b = Batcher::new(settings(10, 10_000, 50));
    assert!(b.push(Some("A".to_string()), keyed_event(1, Some("A"), 4), 0).is_empty());
    assert!(b.push(Some("B".to_string()), keyed_event(2, Some("B"), 4), 40).is_empty());
    let got = b.expire(60);
    assert_eq!(got.len(), 1);
    assert_eq!(got[0].0, Some("A".to_string()));
    let rest = b.flush();
    assert_eq!(rest.len(), 1);
    assert_eq!(rest[0].0, Some("B".to_string()));
}

#[test]
fn flush_emits_every_partial_batch() {
    // When the stream ends, a final partial batch per key is always flushed.
    let mut b = Batcher::new(settings(10, 10_000, 1_000));
    assert!(b.push(Some("A".to_string()), keyed_event(1, Some("A"), 4), 0).is_empty());
    assert!(b.push(None, keyed_event(2, None, 4), 0).is_empty());
    let got = b.flush();
    assert_eq!(got.len(), 2);
    assert_eq!(got[0].0, Some("A".to_string()));
    assert_eq!(got[1].0, None);
    assert!(b.flush().is_empty());
}
