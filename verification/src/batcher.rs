//! Batcher: groups a partitioned event stream into finite batches, one lane
//! per routing key, bounded by event count, cumulative estimated byte size,
//! and age. Lanes are independent: admission order is kept within a key
//! (FIFO) and no ordering is promised across keys. A batch is emitted as soon
//! as a bound is reached; the age bound is driven by the caller's clock. A
//! single event whose estimate alone exceeds the byte bound is still admitted
//! as the sole member of its lane: the hard cap is enforced later, by the
//! serializer, never here.

use vstd::prelude::*;
use crate::event::Event;
use crate::partition::{key_eq, key_view};

verus! {

/// Bounds that close a batch.
#[derive(Clone, Copy, Debug)]
pub struct BatcherSettings {
    /// A lane is emitted once it holds this many events.
    pub max_events: usize,
    /// A lane is emitted before an event that would push its cumulative
    /// estimated size past this many bytes.
    pub max_bytes: u64,
    /// A lane is emitted by [`Batcher::expire`] once this much time has
    /// passed since its first event was admitted.
    pub timeout: u64,
}

struct Lane {
    key: Option<String>,
    events: Vec<Event>,
    est_bytes: u64,
    first_at: u64,
}

/// The abstract value of one lane: its key, its pending events in admission
/// order, and the clock reading when its first event was admitted.
pub type LaneModel = (Option<Seq<char>>, Seq<Event>, u64);

/// Estimated size of one event, as the batcher accounts it.
pub open spec fn est_of(e: Event) -> int {
    e.payload@.len() as int
}

/// Cumulative estimated size of a lane, accumulated with saturation.
pub open spec fn est_sum(s: Seq<Event>) -> int
    decreases s.len(),
{
    if s.len() == 0 {
        0
    } else {
        sat_add_u64(est_sum(s.drop_last()), est_of(s.last()))
    }
}

/// Saturating addition on the accountant's byte counter.
pub open spec fn sat_add_u64(a: int, b: int) -> int {
    if a + b > u64::MAX {
        u64::MAX as int
    } else {
        a + b
    }
}

/// The batches a sequence of lanes stands for, in lane order.
pub open spec fn lane_batches(v: Seq<LaneModel>) -> Seq<(Option<Seq<char>>, Seq<Event>)> {
    v.map_values(|l: LaneModel| (l.0, l.1))
}

/// The abstract value of a sequence of emitted batches.
pub open spec fn batches_view(b: Seq<(Option<String>, Vec<Event>)>) -> Seq<
    (Option<Seq<char>>, Seq<Event>),
> {
    b.map_values(|p: (Option<String>, Vec<Event>)| (key_view(p.0), p.1@))
}

/// Whether a lane's age bound has elapsed at clock reading `now`. A reading
/// earlier than the lane's first admission counts as not elapsed.
pub open spec fn lane_expired(l: LaneModel, timeout: u64, now: u64) -> bool {
    now >= l.2 && now - l.2 >= timeout
}

/// The lanes whose age bound has elapsed, in lane order.
pub open spec fn expired_lanes(v: Seq<LaneModel>, timeout: u64, now: u64) -> Seq<LaneModel> {
    v.filter(|l: LaneModel| lane_expired(l, timeout, now))
}

/// The lanes whose age bound has not elapsed, in lane order.
pub open spec fn live_lanes(v: Seq<LaneModel>, timeout: u64, now: u64) -> Seq<LaneModel> {
    v.filter(|l: LaneModel| !lane_expired(l, timeout, now))
}

/// One step of splitting lanes by age.
proof fn lemma_lanes_split_step(v: Seq<LaneModel>, l: LaneModel, timeout: u64, now: u64)
    ensures
        lane_expired(l, timeout, now) ==> expired_lanes(v.push(l), timeout, now) == expired_lanes(
            v,
            timeout,
            now,
        ).push(l) && live_lanes(v.push(l), timeout, now) == live_lanes(v, timeout, now),
        !lane_expired(l, timeout, now) ==> live_lanes(v.push(l), timeout, now) == live_lanes(
            v,
            timeout,
            now,
        ).push(l) && expired_lanes(v.push(l), timeout, now) == expired_lanes(v, timeout, now),
{
    reveal(Seq::filter);
    assert(v.push(l).drop_last() =~= v);
    assert(v.push(l).last() == l);
}

/// Surviving lanes come from the original lanes and keep pairwise distinct
/// keys.
proof fn lemma_live_lanes_distinct(v: Seq<LaneModel>, timeout: u64, now: u64)
    requires
        forall|i: int, j: int| 0 <= i < j < v.len() ==> (#[trigger] v[i]).0 != (#[trigger] v[j]).0,
    ensures
        forall|i: int|
            0 <= i < live_lanes(v, timeout, now).len() ==> v.contains(
                #[trigger] live_lanes(v, timeout, now)[i],
            ),
        forall|i: int, j: int|
            0 <= i < j < live_lanes(v, timeout, now).len() ==> (#[trigger] live_lanes(
                v,
                timeout,
                now,
            )[i]).0 != (#[trigger] live_lanes(v, timeout, now)[j]).0,
    decreases v.len(),
{
    if v.len() > 0 {
        let d = v.drop_last();
        let live = live_lanes(v, timeout, now);
        let dlive = live_lanes(d, timeout, now);
        assert(forall|j: int| 0 <= j < d.len() ==> #[trigger] d[j] == v[j]);
        lemma_live_lanes_distinct(d, timeout, now);
        assert(v =~= d.push(v.last()));
        lemma_lanes_split_step(d, v.last(), timeout, now);
        assert forall|i: int| 0 <= i < dlive.len() implies v.contains(#[trigger] dlive[i]) by {
            let w = choose|w: int| 0 <= w < d.len() && d[w] == dlive[i];
            assert(v[w] == dlive[i]);
        }
        if !lane_expired(v.last(), timeout, now) {
            assert(live == dlive.push(v.last()));
            assert(v.contains(v.last())) by {
                assert(v[v.len() - 1] == v.last());
            }
            assert forall|i: int, j: int|
                0 <= i < j < live.len() implies (#[trigger] live[i]).0 != (
            #[trigger] live[j]).0 by {
                if j == live.len() - 1 {
                    let w = choose|w: int| 0 <= w < d.len() && d[w] == dlive[i];
                    assert(v[w].0 != v[v.len() - 1].0);
                }
            }
        }
    }
}

/// First index holding the key, or -1.
pub open spec fn find_lane(v: Seq<LaneModel>, k: Option<Seq<char>>) -> int
    decreases v.len(),
{
    if v.len() == 0 {
        -1
    } else if v[0].0 == k {
        0
    } else {
        let r = find_lane(v.drop_first(), k);
        if r < 0 {
            -1
        } else {
            r + 1
        }
    }
}

/// `find_lane` names the first lane with the key, and -1 exactly when no
/// lane has it.
pub proof fn lemma_find_lane_props(v: Seq<LaneModel>, k: Option<Seq<char>>)
    ensures
        find_lane(v, k) >= 0 ==> {
            &&& find_lane(v, k) < v.len()
            &&& v[find_lane(v, k)].0 == k
            &&& forall|j: int| 0 <= j < find_lane(v, k) ==> (#[trigger] v[j]).0 != k
        },
        find_lane(v, k) < 0 ==> forall|j: int| 0 <= j < v.len() ==> (#[trigger] v[j]).0 != k,
    decreases v.len(),
{
    if v.len() > 0 && v[0].0 != k {
        lemma_find_lane_props(v.drop_first(), k);
        assert(forall|j: int| 1 <= j < v.len() ==> #[trigger] v[j] == v.drop_first()[j - 1]);
    }
}

/// The pending events of one key's lane among a sequence of lanes.
pub open spec fn pending_of(v: Seq<LaneModel>, k: Option<Seq<char>>) -> Seq<Event> {
    if find_lane(v, k) < 0 {
        Seq::empty()
    } else {
        v[find_lane(v, k)].1
    }
}

/// Appending a lane of another key finds and leaves other keys unchanged.
proof fn lemma_pending_push(v: Seq<LaneModel>, l: LaneModel, k2: Option<Seq<char>>)
    requires
        l.0 != k2,
    ensures
        find_lane(v.push(l), k2) == find_lane(v, k2),
        pending_of(v.push(l), k2) == pending_of(v, k2),
    decreases v.len(),
{
    if v.len() == 0 {
        assert(v.push(l)[0] == l);
        assert(v.push(l).drop_first() =~= Seq::<LaneModel>::empty());
    } else {
        assert(v.push(l)[0] == v[0]);
        if v[0].0 != k2 {
            assert(v.push(l).drop_first() =~= v.drop_first().push(l));
            lemma_pending_push(v.drop_first(), l, k2);
        }
    }
    lemma_find_lane_props(v, k2);
    lemma_find_lane_props(v.push(l), k2);
}

/// Replacing one lane, old and new key both different, leaves another key's
/// pending events unchanged.
proof fn lemma_pending_update(v: Seq<LaneModel>, i: int, l: LaneModel, k2: Option<Seq<char>>)
    requires
        0 <= i < v.len(),
        v[i].0 != k2,
        l.0 != k2,
    ensures
        find_lane(v.update(i, l), k2) == find_lane(v, k2),
        pending_of(v.update(i, l), k2) == pending_of(v, k2),
    decreases v.len(),
{
    let w = v.update(i, l);
    assert(w.len() == v.len());
    if i == 0 {
        assert(w[0] == l);
        assert(w.drop_first() =~= v.drop_first());
        assert(v[0].0 != k2);
        lemma_find_lane_props(v.drop_first(), k2);
    } else {
        assert(w[0] == v[0]);
        if v[0].0 != k2 {
            assert(w.drop_first() =~= v.drop_first().update(i - 1, l));
            lemma_pending_update(v.drop_first(), i - 1, l, k2);
        }
    }
    lemma_find_lane_props(v, k2);
    lemma_find_lane_props(w, k2);
}

/// Removing a lane of another key leaves a key's pending events unchanged.
proof fn lemma_pending_remove(v: Seq<LaneModel>, i: int, k2: Option<Seq<char>>)
    requires
        0 <= i < v.len(),
        v[i].0 != k2,
    ensures
        pending_of(v.remove(i), k2) == pending_of(v, k2),
    decreases v.len(),
{
    let w = v.remove(i);
    v.remove_ensures(i);
    if i == 0 {
        assert(w =~= v.drop_first());
        assert(v[0].0 != k2);
        lemma_find_lane_props(v.drop_first(), k2);
        lemma_find_lane_props(v, k2);
    } else {
        assert(w[0] == v[0]);
        if v[0].0 == k2 {
            assert(find_lane(w, k2) == 0);
            assert(find_lane(v, k2) == 0);
        } else {
            assert(w.drop_first() =~= v.drop_first().remove(i - 1));
            lemma_pending_remove(v.drop_first(), i - 1, k2);
            lemma_find_lane_props(v.drop_first(), k2);
            lemma_find_lane_props(v.drop_first().remove(i - 1), k2);
            lemma_find_lane_props(v, k2);
            lemma_find_lane_props(w, k2);
        }
    }
}

/// Groups events by routing key into bounded, independent lanes.
pub struct Batcher {
    settings: BatcherSettings,
    lanes: Vec<Lane>,
}

impl View for Batcher {
    type V = Seq<LaneModel>;

    closed spec fn view(&self) -> Seq<LaneModel> {
        self.lanes@.map_values(|l: Lane| (key_view(l.key), l.events@, l.first_at))
    }
}

impl Batcher {
    /// The configured bounds.
    pub closed spec fn cfg(&self) -> BatcherSettings {
        self.settings
    }

    /// Internal consistency: distinct keys, no empty lane, no lane at or
    /// over the count bound (it would have been emitted), and an exact
    /// (saturating) byte account per lane.
    pub closed spec fn wf(&self) -> bool {
        &&& self.settings.max_events >= 1
        &&& forall|i: int, j: int|
            0 <= i < j < self@.len() ==> (#[trigger] self@[i]).0 != (#[trigger] self@[j]).0
        &&& forall|i: int| 0 <= i < self@.len() ==> 0 < (#[trigger] self@[i]).1.len()
        &&& forall|i: int|
            0 <= i < self@.len() ==> (#[trigger] self@[i]).1.len()
                < self.settings.max_events
        &&& forall|i: int|
            0 <= i < self.lanes@.len() ==> (#[trigger] self.lanes@[i]).est_bytes == est_sum(
                self.lanes@[i].events@,
            )
    }

    /// The pending events of one key's lane, in admission order.
    pub open spec fn pending(&self, k: Option<Seq<char>>) -> Seq<Event> {
        pending_of(self@, k)
    }

    /// An empty batcher with the given bounds.
    pub fn new(settings: BatcherSettings) -> (r: Batcher)
        requires
            settings.max_events >= 1,
        ensures
            r.wf(),
            r@ == Seq::<LaneModel>::empty(),
            r.cfg() == settings,
    {
        let r = Batcher { settings, lanes: Vec::new() };
        proof {
            assert(r@ =~= Seq::<LaneModel>::empty());
        }
        r
    }

    /// Admits one event under its key, emitting every batch this closes: the
    /// key's prior lane when the event's estimate would push it past the
    /// byte bound, and the lane holding the event when it reaches the count
    /// bound. Lanes of other keys are untouched.
    pub fn push(&mut self, key: Option<String>, event: Event, now: u64) -> (emitted: Vec<
        (Option<String>, Vec<Event>),
    >)
        requires
            old(self).wf(),
        ensures
            final(self).wf(),
            final(self).cfg() == old(self).cfg(),
            // Keys are batched independently: what is pending under every
            // other key is untouched.
            forall|k2: Option<Seq<char>>|
                k2 != key_view(key) ==> final(self).pending(k2) == old(self).pending(k2),
            ({
                let v = old(self)@;
                let k = key_view(key);
                let i = find_lane(v, k);
                let cfg = old(self).cfg();
                if i < 0 {
                    if cfg.max_events <= 1 {
                        &&& final(self)@ == v
                        &&& batches_view(emitted@) =~= seq![(k, seq![event])]
                    } else {
                        &&& final(self)@ == v.push((k, seq![event], now))
                        &&& emitted@.len() == 0
                    }
                } else {
                    let p = v[i].1;
                    let byte_close = sat_add_u64(est_sum(p), est_of(event)) > cfg.max_bytes as int;
                    if byte_close {
                        if cfg.max_events <= 1 {
                            &&& final(self)@ == v.remove(i)
                            &&& batches_view(emitted@) =~= seq![(k, p), (k, seq![event])]
                        } else {
                            &&& final(self)@ == v.update(i, (k, seq![event], now))
                            &&& batches_view(emitted@) =~= seq![(k, p)]
                        }
                    } else {
                        if p.len() + 1 >= cfg.max_events {
                            &&& final(self)@ == v.remove(i)
                            &&& batches_view(emitted@) =~= seq![(k, p.push(event))]
                        } else {
                            &&& final(self)@ == v.update(i, (k, p.push(event), v[i].2))
                            &&& emitted@.len() == 0
                        }
                    }
                }
            }),
    {
        let ghost v = old(self)@;
        let ghost k = key_view(key);
        proof {
            lemma_find_lane_props(v, k);
        }
        let mut emitted: Vec<(Option<String>, Vec<Event>)> = Vec::new();
        let pos = self.find(&key);
        if pos.is_none() {
            if self.settings.max_events <= 1 {
                let mut batch: Vec<Event> = Vec::new();
                batch.push(event);
                emitted.push((key, batch));
                proof {
                    assert(batches_view(emitted@) =~= seq![(k, seq![event])]);
                }
            } else {
                let mut events: Vec<Event> = Vec::new();
                let est = event.estimated_size() as u64;
                events.push(event);
                self.lanes.push(Lane { key, events, est_bytes: est, first_at: now });
                proof {
                    assert(est_sum(seq![event].drop_last()) == 0);
                    assert(seq![event].last() == event);
                    assert(est_sum(seq![event]) == sat_add_u64(0, est_of(event)));
                    assert(self@ =~= v.push((k, seq![event], now)));
                    assert forall|k2: Option<Seq<char>>| k2 != k implies pending_of(self@, k2)
                        == pending_of(v, k2) by {
                        lemma_pending_push(v, (k, seq![event], now), k2);
                    }
                }
            }
        } else {
            let i = pos.unwrap();
            let est = event.estimated_size() as u64;
            let lane_est = self.lanes[i].est_bytes;
            let byte_close = lane_est.saturating_add(est) > self.settings.max_bytes;
            if byte_close {
                // The event would push the lane past its byte bound: emit
                // the lane and start a fresh one holding the event.
                let old_lane = self.lanes.remove(i);
                emitted.push((old_lane.key, old_lane.events));
                if self.settings.max_events <= 1 {
                    let mut batch: Vec<Event> = Vec::new();
                    batch.push(event);
                    emitted.push((key, batch));
                    proof {
                        assert(self@ =~= v.remove(i as int));
                        assert(batches_view(emitted@) =~= seq![(k, v[i as int].1), (
                            k,
                            seq![event],
                        )]);
                        assert forall|k2: Option<Seq<char>>| k2 != k implies pending_of(self@, k2)
                            == pending_of(v, k2) by {
                            lemma_pending_remove(v, i as int, k2);
                        }
                    }
                } else {
                    let mut events: Vec<Event> = Vec::new();
                    events.push(event);
                    self.lanes.insert(i, Lane { key, events, est_bytes: est, first_at: now });
                    proof {
                        assert(est_sum(seq![event].drop_last()) == 0);
                        assert(seq![event].last() == event);
                        assert(est_sum(seq![event]) == sat_add_u64(0, est_of(event)));
                        assert(v.remove(i as int).insert(i as int, (k, seq![event], now)) =~= v.update(
                            i as int,
                            (k, seq![event], now),
                        ));
                        assert(self@ =~= v.update(i as int, (k, seq![event], now)));
                        assert(batches_view(emitted@) =~= seq![(k, v[i as int].1)]);
                        assert forall|k2: Option<Seq<char>>| k2 != k implies pending_of(self@, k2)
                            == pending_of(v, k2) by {
                            lemma_pending_update(v, i as int, (k, seq![event], now), k2);
                        }
                    }
                }
            } else {
                let mut lane = self.lanes.remove(i);
                let ghost p = lane.events@;
                lane.events.push(event);
                lane.est_bytes = lane_est.saturating_add(est);
                proof {
                    assert(lane.events@.drop_last() =~= p);
                    assert(lane.events@.last() == event);
                    assert(est_sum(lane.events@) == sat_add_u64(est_sum(p), est_of(event)));
                }
                if lane.events.len() >= self.settings.max_events {
                    emitted.push((lane.key, lane.events));
                    proof {
                        assert(self@ =~= v.remove(i as int));
                        assert(batches_view(emitted@) =~= seq![(k, p.push(event))]);
                        assert forall|k2: Option<Seq<char>>| k2 != k implies pending_of(self@, k2)
                            == pending_of(v, k2) by {
                            lemma_pending_remove(v, i as int, k2);
                        }
                    }
                } else {
                    let ghost first0 = lane.first_at;
                    self.lanes.insert(i, lane);
                    proof {
                        assert(v.remove(i as int).insert(
                            i as int,
                            (k, p.push(event), first0),
                        ) =~= v.update(i as int, (k, p.push(event), first0)));
                        assert(self@ =~= v.update(i as int, (k, p.push(event), first0)));
                        assert forall|k2: Option<Seq<char>>| k2 != k implies pending_of(self@, k2)
                            == pending_of(v, k2) by {
                            lemma_pending_update(v, i as int, (k, p.push(event), first0), k2);
                        }
                    }
                }
            }
        }
        emitted
    }

    /// Emits every lane whose age bound has elapsed at clock reading `now`,
    /// in lane order; younger lanes stay untouched. A reading earlier than a
    /// lane's first admission leaves that lane alone.
    pub fn expire(&mut self, now: u64) -> (emitted: Vec<(Option<String>, Vec<Event>)>)
        requires
            old(self).wf(),
        ensures
            final(self).wf(),
            final(self).cfg() == old(self).cfg(),
            final(self)@ == live_lanes(old(self)@, old(self).cfg().timeout, now),
            batches_view(emitted@) == lane_batches(
                expired_lanes(old(self)@, old(self).cfg().timeout, now),
            ),
    {
        let ghost v0 = self@;
        let ghost vl0 = self.lanes@;
        let timeout = self.settings.timeout;
        let ghost t = timeout;
        let mut kept: Vec<Lane> = Vec::new();
        let mut emitted: Vec<(Option<String>, Vec<Event>)> = Vec::new();
        let mut j: usize = 0;
        let n_lanes = self.lanes.len();
        proof {
            assert(vl0.len() == n_lanes as int);
            assert(v0.take(0) =~= Seq::<LaneModel>::empty());
            reveal(Seq::filter);
            assert(live_lanes(v0.take(0), t, now) =~= Seq::<LaneModel>::empty());
            assert(expired_lanes(v0.take(0), t, now) =~= Seq::<LaneModel>::empty());
            assert(batches_view(emitted@) =~= lane_batches(expired_lanes(v0.take(0), t, now)));
            assert(forall|x: int|
                0 <= x < vl0.len() ==> #[trigger] v0[x] == (
                    key_view(vl0[x].key),
                    vl0[x].events@,
                    vl0[x].first_at,
                ));
        }
        loop
            invariant
                j <= vl0.len(),
                vl0.len() <= usize::MAX,
                v0.len() == vl0.len(),
                t == timeout,
                self.lanes@ == vl0.skip(j as int),
                self.settings == old(self).settings,
                forall|x: int|
                    0 <= x < vl0.len() ==> #[trigger] v0[x] == (
                        key_view(vl0[x].key),
                        vl0[x].events@,
                        vl0[x].first_at,
                    ),
                forall|x: int|
                    0 <= x < vl0.len() ==> (#[trigger] vl0[x]).est_bytes == est_sum(
                        vl0[x].events@,
                    ),
                kept@.len() == live_lanes(v0.take(j as int), t, now).len(),
                forall|x: int|
                    0 <= x < kept@.len() ==> (
                        key_view((#[trigger] kept@[x]).key),
                        kept@[x].events@,
                        kept@[x].first_at,
                    ) == live_lanes(v0.take(j as int), t, now)[x],
                forall|x: int|
                    0 <= x < kept@.len() ==> (#[trigger] kept@[x]).est_bytes == est_sum(
                        kept@[x].events@,
                    ),
                batches_view(emitted@) == lane_batches(expired_lanes(v0.take(j as int), t, now)),
            ensures
                j == vl0.len(),
                self.settings == old(self).settings,
                kept@.len() == live_lanes(v0.take(j as int), t, now).len(),
                forall|x: int|
                    0 <= x < kept@.len() ==> (
                        key_view((#[trigger] kept@[x]).key),
                        kept@[x].events@,
                        kept@[x].first_at,
                    ) == live_lanes(v0.take(j as int), t, now)[x],
                forall|x: int|
                    0 <= x < kept@.len() ==> (#[trigger] kept@[x]).est_bytes == est_sum(
                        kept@[x].events@,
                    ),
                batches_view(emitted@) == lane_batches(expired_lanes(v0.take(j as int), t, now)),
            decreases vl0.len() - j,
        {
            if self.lanes.len() == 0 {
                proof {
                    assert(vl0.skip(j as int).len() == 0);
                }
                break;
            }
            let ghost kept_pre = kept@;
            let ghost emitted_pre = emitted@;
            let lane = self.lanes.remove(0);
            proof {
                assert(lane == vl0[j as int]);
                assert(self.lanes@ =~= vl0.skip(j as int + 1));
                assert(v0.take(j as int + 1) =~= v0.take(j as int).push(v0[j as int]));
                lemma_lanes_split_step(v0.take(j as int), v0[j as int], t, now);
            }
            let expired = now >= lane.first_at && now - lane.first_at >= timeout;
            proof {
                assert(expired == lane_expired(v0[j as int], t, now));
            }
            if expired {
                emitted.push((lane.key, lane.events));
                proof {
                    assert(batches_view(emitted@) =~= batches_view(emitted_pre).push(
                        (key_view(lane.key), lane.events@),
                    ));
                    assert(lane_batches(expired_lanes(v0.take(j as int + 1), t, now))
                        =~= lane_batches(expired_lanes(v0.take(j as int), t, now)).push(
                        (v0[j as int].0, v0[j as int].1),
                    ));
                }
            } else {
                kept.push(lane);
            }
            j = j + 1;
        }
        proof {
            assert(v0.take(vl0.len() as int) =~= v0);
        }
        self.lanes = kept;
        proof {
            assert(self@ =~= live_lanes(v0, t, now));
            lemma_live_lanes_distinct(v0, t, now);
            assert forall|i: int|
                0 <= i < self@.len() implies 0 < (#[trigger] self@[i]).1.len() && self@[i].1.len()
                < self.settings.max_events by {
                let w = choose|w: int| 0 <= w < v0.len() && v0[w] == self@[i];
            }
        }
        emitted
    }

    /// Emits every pending lane, in lane order, regardless of its bounds:
    /// when the upstream stream ends, a final partial batch per key is always
    /// flushed, never silently dropped.
    pub fn flush(&mut self) -> (emitted: Vec<(Option<String>, Vec<Event>)>)
        requires
            old(self).wf(),
        ensures
            final(self).wf(),
            final(self).cfg() == old(self).cfg(),
            final(self)@ == Seq::<LaneModel>::empty(),
            batches_view(emitted@) == lane_batches(old(self)@),
    {
        let ghost v0 = self@;
        let ghost vl0 = self.lanes@;
        let mut emitted: Vec<(Option<String>, Vec<Event>)> = Vec::new();
        let mut j: usize = 0;
        let n_lanes = self.lanes.len();
        proof {
            assert(vl0.len() == n_lanes as int);
            assert(v0.take(0) =~= Seq::<LaneModel>::empty());
            assert(batches_view(emitted@) =~= lane_batches(v0.take(0)));
            assert(forall|x: int|
                0 <= x < vl0.len() ==> #[trigger] v0[x] == (
                    key_view(vl0[x].key),
                    vl0[x].events@,
                    vl0[x].first_at,
                ));
        }
        loop
            invariant
                j <= vl0.len(),
                vl0.len() <= usize::MAX,
                v0.len() == vl0.len(),
                self.lanes@ == vl0.skip(j as int),
                self.settings == old(self).settings,
                forall|x: int|
                    0 <= x < vl0.len() ==> #[trigger] v0[x] == (
                        key_view(vl0[x].key),
                        vl0[x].events@,
                        vl0[x].first_at,
                    ),
                batches_view(emitted@) == lane_batches(v0.take(j as int)),
            ensures
                j == vl0.len(),
                self.lanes@.len() == 0,
                self.settings == old(self).settings,
                batches_view(emitted@) == lane_batches(v0.take(j as int)),
            decreases vl0.len() - j,
        {
            if self.lanes.len() == 0 {
                proof {
                    assert(vl0.skip(j as int).len() == 0);
                }
                break;
            }
            let ghost emitted_pre = emitted@;
            let lane = self.lanes.remove(0);
            proof {
                assert(lane == vl0[j as int]);
                assert(self.lanes@ =~= vl0.skip(j as int + 1));
            }
            emitted.push((lane.key, lane.events));
            j = j + 1;
            proof {
                assert(v0.take(j as int) =~= v0.take(j as int - 1).push(v0[j as int - 1]));
                assert((key_view(lane.key), lane.events@) == (
                    v0[j as int - 1].0,
                    v0[j as int - 1].1,
                ));
                assert(batches_view(emitted@) =~= batches_view(emitted_pre).push(
                    (key_view(lane.key), lane.events@),
                ));
                assert(batches_view(emitted@) =~= lane_batches(v0.take(j as int)));
            }
        }
        proof {
            assert(v0.take(vl0.len() as int) =~= v0);
            assert(self@ =~= Seq::<LaneModel>::empty());
        }
        emitted
    }

    /// Index of the key's lane, if any lane holds the key.
    fn find(&self, key: &Option<String>) -> (r: Option<usize>)
        ensures
            match r {
                Some(i) => i as int == find_lane(self@, key_view(*key)),
                None => find_lane(self@, key_view(*key)) < 0,
            },
    {
        let ghost k = key_view(*key);
        let mut i: usize = 0;
        while i < self.lanes.len()
            invariant
                i <= self.lanes.len(),
                k == key_view(*key),
                forall|j: int| 0 <= j < i ==> (#[trigger] self@[j]).0 != k,
            decreases self.lanes.len() - i,
        {
            proof {
                assert(self@[i as int] == (
                    key_view(self.lanes@[i as int].key),
                    self.lanes@[i as int].events@,
                    self.lanes@[i as int].first_at,
                ));
            }
            if key_eq(&self.lanes[i].key, key) {
                proof {
                    assert(self@[i as int].0 == k);
                    lemma_find_lane_props(self@, k);
                }
                return Some(i);
            }
            proof {
                assert(self@[i as int].0 != k);
            }
            i = i + 1;
        }
        proof {
            lemma_find_lane_props(self@, k);
        }
        None
    }
}

} // verus!
