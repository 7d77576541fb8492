//! The request-building plan: how a queue of events decomposes, under a byte
//! cap, into the greedy containers that the serializer emits and the oversize
//! events that are dropped. The executable builder is specified against this
//! plan, and the pipeline's conservation and ordering laws are proved of it.

use vstd::prelude::*;
use vstd::multiset::Multiset;
use crate::event::{fin_ids, Event};
use crate::serializer::{fit_count, fits_alone, framed_len, payload_total};

verus! {

/// Greedy commit points stay within the queue.
pub proof fn lemma_fit_count_bounds(s: Seq<Event>, max: int)
    ensures
        0 <= fit_count(s, max) <= s.len(),
    decreases s.len(),
{
    if s.len() > 0 && !(framed_len(s) < max) {
        lemma_fit_count_bounds(s.drop_last(), max);
    }
}

/// No payload is longer than the payload total of a sequence holding it.
pub proof fn lemma_payload_total_elem(s: Seq<Event>, i: int)
    requires
        0 <= i < s.len(),
    ensures
        s[i].payload@.len() <= payload_total(s),
    decreases s.len(),
{
    if i == s.len() - 1 {
        crate::serializer::lemma_payload_total_nonneg(s.drop_last());
    } else {
        lemma_payload_total_elem(s.drop_last(), i);
    }
}

/// Every event of a prefix that fits under the cap together also fits alone.
pub proof fn lemma_chunk_elements_fit(s: Seq<Event>, max: int, i: int)
    requires
        framed_len(s) < max,
        0 <= i < s.len(),
    ensures
        fits_alone(s[i], max),
{
    lemma_payload_total_elem(s, i);
}

/// The successive containers the greedy pass emits from `s` under cap `max`:
/// each is the longest fitting prefix of what remains; a head event that fits
/// no container is passed over (it is dropped, see [`drops`]).
pub open spec fn chunks(s: Seq<Event>, max: int) -> Seq<Seq<Event>>
    decreases s.len(),
    via chunks_dec
{
    if s.len() == 0 {
        Seq::empty()
    } else {
        let k = fit_count(s, max);
        if k < 1 {
            chunks(s.skip(1), max)
        } else {
            seq![s.take(k)] + chunks(s.skip(k), max)
        }
    }
}

#[via_fn]
proof fn chunks_dec(s: Seq<Event>, max: int) {
    if s.len() != 0 {
        lemma_fit_count_bounds(s, max);
    }
}

/// The events the greedy pass drops from `s` under cap `max`: each queue head
/// that fits no container of its own.
pub open spec fn drops(s: Seq<Event>, max: int) -> Seq<Event>
    decreases s.len(),
    via drops_dec
{
    if s.len() == 0 {
        Seq::empty()
    } else {
        let k = fit_count(s, max);
        if k < 1 {
            seq![s[0]] + drops(s.skip(1), max)
        } else {
            drops(s.skip(k), max)
        }
    }
}

#[via_fn]
proof fn drops_dec(s: Seq<Event>, max: int) {
    if s.len() != 0 {
        lemma_fit_count_bounds(s, max);
    }
}

/// A sequence whose events all fit alone filters to itself.
proof fn lemma_filter_all_fit(s: Seq<Event>, max: int)
    requires
        forall|i: int| 0 <= i < s.len() ==> fits_alone(#[trigger] s[i], max),
    ensures
        s.filter(|e: Event| fits_alone(e, max)) == s,
        s.filter(|e: Event| !fits_alone(e, max)) == Seq::<Event>::empty(),
    decreases s.len(),
{
    reveal(Seq::filter);
    if s.len() > 0 {
        lemma_filter_all_fit(s.drop_last(), max);
        assert(s.filter(|e: Event| fits_alone(e, max)) =~= s);
    }
}

/// The plan is a partition of the queue into order-preserving filters: the
/// emitted containers hold exactly the events that fit alone, in admission
/// order, and the drops are exactly the events that do not, in admission
/// order.
pub proof fn lemma_plan_is_filter(s: Seq<Event>, max: int)
    requires
        max >= 3,
    ensures
        chunks(s, max).flatten() == s.filter(|e: Event| fits_alone(e, max)),
        drops(s, max) == s.filter(|e: Event| !fits_alone(e, max)),
    decreases s.len(),
{
    reveal(Seq::filter);
    let fits = |e: Event| fits_alone(e, max);
    let unfit = |e: Event| !fits_alone(e, max);
    if s.len() == 0 {
        assert(chunks(s, max).flatten() =~= s.filter(fits));
        assert(drops(s, max) =~= s.filter(unfit));
    } else {
        let k = fit_count(s, max);
        crate::serializer::lemma_fit_count_props(s, max);
        if k < 1 {
            // The head fits no container of its own.
            assert(s.take(1) =~= seq![s[0]]);
            assert(seq![s[0]].drop_last() =~= Seq::<Event>::empty());
            assert(payload_total(Seq::<Event>::empty()) == 0);
            assert(seq![s[0]].last() == s[0]);
            assert(payload_total(seq![s[0]]) == s[0].payload@.len());
            assert(!fits_alone(s[0], max));
            lemma_plan_is_filter(s.skip(1), max);
            assert(s =~= seq![s[0]] + s.skip(1));
            Seq::filter_distributes_over_add(seq![s[0]], s.skip(1), fits);
            Seq::filter_distributes_over_add(seq![s[0]], s.skip(1), unfit);
            assert(Seq::<Event>::empty().filter(fits) =~= Seq::<Event>::empty());
            assert(Seq::<Event>::empty().filter(unfit) =~= Seq::<Event>::empty());
            assert(seq![s[0]].filter(fits) =~= Seq::<Event>::empty());
            assert(seq![s[0]].filter(unfit) =~= seq![s[0]]);
            assert(chunks(s, max).flatten() =~= s.filter(fits));
            assert(drops(s, max) =~= s.filter(unfit));
        } else {
            let c = s.take(k);
            let rest = s.skip(k);
            assert(s =~= c + rest);
            lemma_plan_is_filter(rest, max);
            Seq::filter_distributes_over_add(c, rest, fits);
            Seq::filter_distributes_over_add(c, rest, unfit);
            assert(forall|i: int| 0 <= i < c.len() ==> fits_alone(#[trigger] c[i], max)) by {
                assert forall|i: int| 0 <= i < c.len() implies fits_alone(#[trigger] c[i], max) by {
                    lemma_chunk_elements_fit(c, max, i);
                }
            }
            lemma_filter_all_fit(c, max);
            assert(chunks(s, max) =~= seq![c] + chunks(rest, max));
            vstd::seq_lib::lemma_flatten_concat(seq![c], chunks(rest, max));
            assert(seq![c].flatten() =~= c) by {
                seq![c].lemma_flatten_one_element();
            }
            assert(chunks(s, max).flatten() =~= s.filter(fits));
            assert(drops(s, max) =~= s.filter(unfit));
        }
    }
}

/// Conservation: every event of the queue is accounted for, either inside an
/// emitted container or among the drops — the counts add up exactly.
pub proof fn lemma_event_conservation(s: Seq<Event>, max: int)
    requires
        max >= 3,
    ensures
        chunks(s, max).flatten().len() + drops(s, max).len() == s.len(),
    decreases s.len(),
{
    if s.len() > 0 {
        let k = fit_count(s, max);
        crate::serializer::lemma_fit_count_props(s, max);
        if k < 1 {
            lemma_event_conservation(s.skip(1), max);
            assert(drops(s, max) == seq![s[0]] + drops(s.skip(1), max));
        } else {
            lemma_event_conservation(s.skip(k), max);
            assert(chunks(s, max) =~= seq![s.take(k)] + chunks(s.skip(k), max));
            vstd::seq_lib::lemma_flatten_concat(seq![s.take(k)], chunks(s.skip(k), max));
            assert(seq![s.take(k)].flatten() =~= s.take(k)) by {
                seq![s.take(k)].lemma_flatten_one_element();
            }
        }
    }
}

/// Order preservation: when nothing is dropped, concatenating the emitted
/// containers restores the queue exactly, in admission order.
pub proof fn lemma_order_preserved(s: Seq<Event>, max: int)
    requires
        max >= 3,
        drops(s, max).len() == 0,
    ensures
        chunks(s, max).flatten() == s,
    decreases s.len(),
{
    lemma_plan_is_filter(s, max);
    lemma_event_conservation(s, max);
    broadcast use vstd::seq_lib::group_filter_ensures;

    let fits = |e: Event| fits_alone(e, max);
    let flat = chunks(s, max).flatten();
    assert(flat.len() == s.len());
    assert(flat == s.filter(fits));
    assert(flat =~= s) by {
        lemma_filter_full_is_identity(s, fits);
    }
}

/// A filter that keeps the whole length keeps the sequence.
proof fn lemma_filter_full_is_identity<A>(s: Seq<A>, p: spec_fn(A) -> bool)
    requires
        s.filter(p).len() == s.len(),
    ensures
        s.filter(p) == s,
    decreases s.len(),
{
    reveal(Seq::filter);
    if s.len() > 0 {
        let d = s.drop_last();
        d.lemma_filter_len(p);
        if p(s.last()) {
            lemma_filter_full_is_identity(d, p);
            assert(s.filter(p) =~= s);
        } else {
            assert(s.filter(p).len() <= d.len());
            assert(false);
        }
    } else {
        assert(s.filter(p) =~= s);
    }
}

/// No-progress termination: a head event that fits no container yields
/// exactly one drop, and the rest of the queue is then processed exactly as
/// if that event had never been queued.
pub proof fn lemma_no_progress_drop(s: Seq<Event>, max: int)
    requires
        max >= 3,
        s.len() > 0,
        !fits_alone(s[0], max),
    ensures
        drops(s, max) == seq![s[0]] + drops(s.skip(1), max),
        chunks(s, max) == chunks(s.skip(1), max),
{
    let k = fit_count(s, max);
    crate::serializer::lemma_fit_count_props(s, max);
    if k >= 1 {
        assert(s.take(1) =~= seq![s[0]]);
        assert(seq![s[0]].drop_last() =~= Seq::<Event>::empty());
        assert(payload_total(Seq::<Event>::empty()) == 0);
        assert(seq![s[0]].last() == s[0]);
        assert(payload_total(seq![s[0]]) == s[0].payload@.len());
        crate::serializer::lemma_framed_len_mono(s, 1, k);
        assert(false);
    }
}

/// Finalizer exactly-once: across containers and drops together, each
/// finalizer of the queue occurs exactly as often as it did in the queue —
/// none is lost, none is duplicated.
pub proof fn lemma_finalizer_exactly_once(s: Seq<Event>, max: int)
    requires
        max >= 3,
    ensures
        fin_ids(chunks(s, max).flatten()).to_multiset().add(
            fin_ids(drops(s, max)).to_multiset(),
        ) =~= fin_ids(s).to_multiset(),
    decreases s.len(),
{
    broadcast use vstd::seq_lib::group_to_multiset_ensures;

    if s.len() == 0 {
        assert(fin_ids(chunks(s, max).flatten()) =~= Seq::<u64>::empty());
        assert(fin_ids(drops(s, max)) =~= Seq::<u64>::empty());
        assert(fin_ids(s) =~= Seq::<u64>::empty());
        assert(Seq::<u64>::empty().to_multiset() =~= Multiset::<u64>::empty());
    } else {
        let k = fit_count(s, max);
        crate::serializer::lemma_fit_count_props(s, max);
        if k < 1 {
            lemma_finalizer_exactly_once(s.skip(1), max);
            assert(s =~= seq![s[0]] + s.skip(1));
            lemma_fin_ids_concat(seq![s[0]], s.skip(1));
            vstd::seq_lib::lemma_multiset_commutative(fin_ids(seq![s[0]]), fin_ids(s.skip(1)));
            assert(drops(s, max) == seq![s[0]] + drops(s.skip(1), max));
            lemma_fin_ids_concat(seq![s[0]], drops(s.skip(1), max));
            vstd::seq_lib::lemma_multiset_commutative(
                fin_ids(seq![s[0]]),
                fin_ids(drops(s.skip(1), max)),
            );
            assert(fin_ids(chunks(s, max).flatten()).to_multiset().add(
                fin_ids(drops(s, max)).to_multiset(),
            ) =~= fin_ids(s).to_multiset());
        } else {
            lemma_finalizer_exactly_once(s.skip(k), max);
            assert(s =~= s.take(k) + s.skip(k));
            lemma_fin_ids_concat(s.take(k), s.skip(k));
            vstd::seq_lib::lemma_multiset_commutative(fin_ids(s.take(k)), fin_ids(s.skip(k)));
            assert(chunks(s, max) =~= seq![s.take(k)] + chunks(s.skip(k), max));
            vstd::seq_lib::lemma_flatten_concat(seq![s.take(k)], chunks(s.skip(k), max));
            assert(seq![s.take(k)].flatten() =~= s.take(k)) by {
                seq![s.take(k)].lemma_flatten_one_element();
            }
            assert(seq![s.take(k)].flatten() =~= s.take(k));
            lemma_fin_ids_concat(s.take(k), chunks(s.skip(k), max).flatten());
            vstd::seq_lib::lemma_multiset_commutative(
                fin_ids(s.take(k)),
                fin_ids(chunks(s.skip(k), max).flatten()),
            );
            assert(fin_ids(chunks(s, max).flatten()).to_multiset().add(
                fin_ids(drops(s, max)).to_multiset(),
            ) =~= fin_ids(s).to_multiset());
        }
    }
}

/// Finalizer identities distribute over concatenation.
pub proof fn lemma_fin_ids_concat(a: Seq<Event>, b: Seq<Event>)
    ensures
        fin_ids(a + b) == fin_ids(a) + fin_ids(b),
{
    assert(fin_ids(a + b) =~= fin_ids(a) + fin_ids(b));
}

/// Cap respected: every container the plan emits stays strictly under the
/// configured maximum.
pub proof fn lemma_chunks_capped(s: Seq<Event>, max: int)
    requires
        max >= 3,
    ensures
        forall|i: int|
            0 <= i < chunks(s, max).len() ==> framed_len(#[trigger] chunks(s, max)[i]) < max,
    decreases s.len(),
{
    if s.len() > 0 {
        let k = fit_count(s, max);
        crate::serializer::lemma_fit_count_props(s, max);
        if k < 1 {
            lemma_chunks_capped(s.skip(1), max);
            assert(chunks(s, max) == chunks(s.skip(1), max));
            assert(forall|i: int|
                0 <= i < chunks(s, max).len() ==> #[trigger] chunks(s, max)[i] == chunks(
                    s.skip(1),
                    max,
                )[i]);
        } else {
            lemma_chunks_capped(s.skip(k), max);
            assert(chunks(s, max) == seq![s.take(k)] + chunks(s.skip(k), max));
            assert(forall|i: int|
                1 <= i < chunks(s, max).len() ==> #[trigger] chunks(s, max)[i] == chunks(
                    s.skip(k),
                    max,
                )[i - 1]);
            assert(chunks(s, max)[0] == s.take(k));
        }
    }
}

/// The empty identity sequence carries the empty multiset.
pub proof fn lemma_ids_multiset_empty()
    ensures
        Seq::<u64>::empty().to_multiset() =~= Multiset::<u64>::empty(),
{
    broadcast use vstd::seq_lib::group_to_multiset_ensures;
    broadcast use vstd::multiset::group_multiset_axioms;

    assert forall|x: u64| Seq::<u64>::empty().to_multiset().count(x) == 0 by {
        assert(!Seq::<u64>::empty().contains(x));
    }
}

/// Concatenating identity sequences adds their multisets.
pub proof fn lemma_ids_multiset_concat(a: Seq<u64>, b: Seq<u64>)
    ensures
        (a + b).to_multiset() == a.to_multiset().add(b.to_multiset()),
{
    vstd::seq_lib::lemma_multiset_commutative(a, b);
}

/// Appending one identity inserts it into the multiset.
pub proof fn lemma_ids_multiset_push(s: Seq<u64>, x: u64)
    ensures
        s.push(x).to_multiset() == s.to_multiset().insert(x),
{
    broadcast use vstd::seq_lib::group_to_multiset_ensures;

    assert(s.push(x).to_multiset() =~= s.to_multiset().insert(x));
}

} // verus!
