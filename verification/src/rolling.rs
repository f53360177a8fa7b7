//! What a rolling baseline holds after a run of samples.

use crate::baseline::{
    bucket, joined, last_n, law_one_bucket_per_hour, law_slots_stand_in_time_order, slot_of,
    slot_reaches, slot_start, span_fits, span_of, BaselineView,
};
use crate::clock::{hour_floor, names_hour, Timestamp, END_OF_YEAR_9999, YEAR_0};
use crate::table::{in_order, lemma_lists_part, lemma_lists_push, lists};
use crate::text::text_less;
use vstd::prelude::*;

verus! {

/// The start of the hour in which a point lies.
pub open spec fn hour_of(time: Timestamp) -> int {
    hour_floor(time.seconds as int)
}

/// A baseline after samples were added to it, one after the other.
pub open spec fn sampled_with<T>(
    baseline: BaselineView<T>,
    samples: Seq<(Timestamp, T)>,
) -> BaselineView<T>
    decreases samples.len(),
{
    if samples.len() == 0 {
        baseline
    } else {
        let last = samples.last();
        sampled_with(baseline, samples.drop_last()).with_sample(last.0, last.1)
    }
}

/// Whether the samples come in the order of time, in the years from 0 to 9999 and outside leap
/// seconds.
pub open spec fn in_sequence<T>(samples: Seq<(Timestamp, T)>) -> bool {
    &&& forall|i: int|
        0 <= i < samples.len() ==> {
            let time = (#[trigger] samples[i]).0;
            &&& time.is_valid()
            &&& !time.is_leap()
            &&& YEAR_0 <= time.seconds <= END_OF_YEAR_9999
            &&& names_hour(slot_of(time), time.seconds)
        }
    &&& forall|i: int, j: int|
        0 <= i < j < samples.len() ==> (#[trigger] samples[i]).0.seconds <= (
        #[trigger] samples[j]).0.seconds
}

/// The values of the samples of one hour, in order.
pub open spec fn values_in<T>(samples: Seq<(Timestamp, T)>, hour: int) -> Seq<T>
    decreases samples.len(),
{
    if samples.len() == 0 {
        seq![]
    } else {
        let rest = values_in(samples.drop_last(), hour);
        if hour_of(samples.last().0) == hour {
            rest.push(samples.last().1)
        } else {
            rest
        }
    }
}

/// The values of the samples whose hour starts at `start` or later, in order.
pub open spec fn values_since<T>(samples: Seq<(Timestamp, T)>, start: int) -> Seq<T>
    decreases samples.len(),
{
    if samples.len() == 0 {
        seq![]
    } else {
        let rest = values_since(samples.drop_last(), start);
        if hour_of(samples.last().0) >= start {
            rest.push(samples.last().1)
        } else {
            rest
        }
    }
}

/// The start of the window of a baseline that ends at `time`.
pub open spec fn window_start<T>(baseline: BaselineView<T>, time: Timestamp) -> int {
    time.seconds - span_of(baseline.history_seconds)
}

/// Whether an hour ends after the start of the window.
pub open spec fn reaches_window(hour: int, start: int) -> bool {
    start < hour + 3600
}

proof fn lemma_last_n_push<A>(a: Seq<A>, x: A, n: nat)
    ensures
        last_n(last_n(a, n).push(x), n) == last_n(a.push(x), n),
{
    assert(last_n(last_n(a, n).push(x), n) =~= last_n(a.push(x), n));
}

proof fn lemma_last_n_sum<A>(a: Seq<A>, b: Seq<A>, n: nat)
    ensures
        last_n(last_n(a, n) + last_n(b, n), n) == last_n(a + b, n),
{
    assert(last_n(last_n(a, n) + last_n(b, n), n) =~= last_n(a + b, n));
}

proof fn lemma_last_n_again<A>(a: Seq<A>, n: nat)
    ensures
        last_n(last_n(a, n), n) == last_n(a, n),
{
    assert(last_n(last_n(a, n), n) =~= last_n(a, n));
}

proof fn lemma_in_sequence_drop<T>(samples: Seq<(Timestamp, T)>)
    requires
        in_sequence(samples),
        samples.len() > 0,
    ensures
        in_sequence(samples.drop_last()),
{
    let rest = samples.drop_last();
    assert forall|i: int| 0 <= i < rest.len() implies ({
        let time = (#[trigger] rest[i]).0;
        &&& time.is_valid()
        &&& !time.is_leap()
        &&& YEAR_0 <= time.seconds <= END_OF_YEAR_9999
        &&& names_hour(slot_of(time), time.seconds)
    }) by {
        assert(rest[i] == samples[i]);
    }
    assert forall|i: int, j: int| 0 <= i < j < rest.len() implies (#[trigger] rest[i]).0.seconds
        <= (#[trigger] rest[j]).0.seconds by {
        assert(rest[i] == samples[i] && rest[j] == samples[j]);
    }
}

/// There is a value of an hour if and only if there is a sample of it.
proof fn lemma_values_in<T>(samples: Seq<(Timestamp, T)>, hour: int)
    ensures
        values_in(samples, hour).len() > 0 <==> exists|i: int|
            0 <= i < samples.len() && hour_of((#[trigger] samples[i]).0) == hour,
    decreases samples.len(),
{
    if samples.len() > 0 {
        let rest = samples.drop_last();
        lemma_values_in(rest, hour);
        if hour_of(samples.last().0) == hour {
            assert(hour_of(samples[samples.len() - 1].0) == hour);
        } else {
            if exists|i: int| 0 <= i < samples.len() && hour_of((#[trigger] samples[i]).0) == hour {
                let i = choose|i: int|
                    0 <= i < samples.len() && hour_of((#[trigger] samples[i]).0) == hour;
                assert(rest[i] == samples[i]);
            }
            if exists|i: int| 0 <= i < rest.len() && hour_of((#[trigger] rest[i]).0) == hour {
                let i = choose|i: int|
                    0 <= i < rest.len() && hour_of((#[trigger] rest[i]).0) == hour;
                assert(rest[i] == samples[i]);
            }
        }
    }
}

/// There is no value since an hour that comes after all samples.
proof fn lemma_none_since<T>(samples: Seq<(Timestamp, T)>, start: int)
    requires
        forall|i: int| 0 <= i < samples.len() ==> hour_of((#[trigger] samples[i]).0) < start,
    ensures
        values_since(samples, start) == Seq::<T>::empty(),
    decreases samples.len(),
{
    if samples.len() > 0 {
        let rest = samples.drop_last();
        assert forall|i: int| 0 <= i < rest.len() implies hour_of((#[trigger] rest[i]).0) < start by {
            assert(rest[i] == samples[i]);
        }
        lemma_none_since(rest, start);
        assert(hour_of(samples[samples.len() - 1].0) < start);
    }
}

/// Hours without samples do not matter.
proof fn lemma_values_gap<T>(samples: Seq<(Timestamp, T)>, start: int, later: int)
    requires
        start <= later,
        forall|i: int|
            0 <= i < samples.len() ==> !(start <= hour_of((#[trigger] samples[i]).0) < later),
    ensures
        values_since(samples, start) == values_since(samples, later),
    decreases samples.len(),
{
    if samples.len() > 0 {
        let rest = samples.drop_last();
        assert forall|i: int| 0 <= i < rest.len() implies !(start <= hour_of(
            (#[trigger] rest[i]).0,
        ) < later) by {
            assert(rest[i] == samples[i]);
        }
        lemma_values_gap(rest, start, later);
        assert(!(start <= hour_of(samples[samples.len() - 1].0) < later));
    }
}

/// The values since an hour are those of the hour and then the later ones.
proof fn lemma_values_split<T>(samples: Seq<(Timestamp, T)>, hour: int)
    requires
        in_sequence(samples),
    ensures
        values_since(samples, hour) == values_in(samples, hour) + values_since(samples, hour + 1),
    decreases samples.len(),
{
    if samples.len() > 0 {
        let rest = samples.drop_last();
        let last = samples.last();
        lemma_in_sequence_drop(samples);
        lemma_values_split(rest, hour);
        if hour_of(last.0) == hour {
            assert forall|i: int| 0 <= i < rest.len() implies hour_of((#[trigger] rest[i]).0) < hour
                + 1 by {
                assert(rest[i] == samples[i]);
                assert(samples[i].0.seconds <= samples[samples.len() - 1].0.seconds);
            }
            lemma_none_since(rest, hour + 1);
        }
    }
    assert(values_since(samples, hour) =~= values_in(samples, hour) + values_since(
        samples,
        hour + 1,
    ));
}

/// Whether a sample was taken in an hour that ends after `start`.
pub open spec fn is_live<T>(samples: Seq<(Timestamp, T)>, i: int, start: int) -> bool {
    0 <= i < samples.len() && reaches_window(hour_of(samples[i].0), start)
}

/// Whether the buckets are those of the hours that end after `start`, each with its latest samples.
spec fn holds_samples<T>(
    baseline: BaselineView<T>,
    samples: Seq<(Timestamp, T)>,
    start: int,
) -> bool {
    &&& forall|slot: Seq<char>| #[trigger]
        baseline.buckets.dom().contains(slot) ==> exists|i: int| #[trigger]
            is_live(samples, i, start) && slot_of(samples[i].0) == slot
    &&& forall|i: int| #[trigger]
        is_live(samples, i, start) ==> {
            let slot = slot_of(samples[i].0);
            &&& baseline.buckets.dom().contains(slot)
            &&& baseline.buckets[slot] == last_n(
                values_in(samples, hour_of(samples[i].0)),
                baseline.history_seconds,
            )
        }
    &&& exists|slots: Seq<Seq<char>>| lists(slots, baseline.buckets.dom())
}

/// A slot reaches into the window if and only if its hour does.
proof fn lemma_slot_reaches<T>(baseline: BaselineView<T>, sampled: Timestamp, time: Timestamp)
    requires
        span_fits(baseline.history_seconds),
        sampled.is_valid(),
        names_hour(slot_of(sampled), sampled.seconds),
        time.is_valid(),
        !time.is_leap(),
    ensures
        slot_reaches(slot_of(sampled), time.shifted(-span_of(baseline.history_seconds)))
            <==> reaches_window(hour_of(sampled), window_start(baseline, time)),
{
    let start = hour_of(sampled);
    assert(slot_start(slot_of(sampled)) == Some(Timestamp { seconds: start as i64, nanos: 0 }));
    let end = Timestamp { seconds: start as i64, nanos: 0 }.shifted(3600);
    assert(end == Timestamp { seconds: (start + 3600) as i64, nanos: 0 });
    let cutoff = time.shifted(-span_of(baseline.history_seconds));
    assert(cutoff == Timestamp {
        seconds: window_start(baseline, time) as i64,
        nanos: time.nanos,
    });
}

/// One more sample in the order of time.
proof fn lemma_holds_step<T>(
    baseline: BaselineView<T>,
    samples: Seq<(Timestamp, T)>,
    before: int,
)
    requires
        samples.len() > 0,
        in_sequence(samples),
        baseline.history_seconds > 0,
        span_fits(baseline.history_seconds),
        0 <= span_of(baseline.history_seconds),
        holds_samples(baseline, samples.drop_last(), before),
        before <= window_start(baseline, samples.last().0),
    ensures
        holds_samples(
            baseline.with_sample(samples.last().0, samples.last().1),
            samples,
            window_start(baseline, samples.last().0),
        ),
{
    let n = baseline.history_seconds;
    let rest = samples.drop_last();
    let (time, value) = samples.last();
    let start = window_start(baseline, time);
    let own = slot_of(time);
    let hour = hour_of(time);
    let kept = baseline.pruned(time);
    let after = baseline.with_sample(time, value);
    assert(samples[samples.len() - 1] == (time, value));
    assert forall|i: int| 0 <= i < rest.len() implies #[trigger] rest[i] == samples[i] by {}
    // What is kept are the buckets of the hours that still reach into the window.
    assert forall|i: int| is_live(rest, i, start) implies kept.dom().contains(
        slot_of(rest[i].0),
    ) && kept[slot_of(rest[i].0)] == last_n(
        #[trigger] values_in(rest, hour_of(rest[i].0)),
        n,
    ) by {
        assert(is_live(rest, i, before));
        assert(rest[i] == samples[i]);
        lemma_slot_reaches(baseline, rest[i].0, time);
        lemma_values_in(rest, hour_of(rest[i].0));
        assert(baseline.live_slots(time).contains(slot_of(rest[i].0)));
    }
    assert forall|slot: Seq<char>| #[trigger] kept.dom().contains(slot) implies exists|i: int|
        #[trigger] is_live(rest, i, start) && slot_of(rest[i].0) == slot by {
        assert(baseline.live_slots(time).contains(slot));
        let i = choose|i: int| #[trigger]
            is_live(rest, i, before) && slot_of(rest[i].0) == slot;
        assert(rest[i] == samples[i]);
        lemma_slot_reaches(baseline, rest[i].0, time);
        assert(is_live(rest, i, start));
    }
    // The hour of the sample.
    assert(bucket(kept, own) == last_n(values_in(rest, hour), n)) by {
        if kept.dom().contains(own) {
            let i = choose|i: int| #[trigger]
                is_live(rest, i, start) && slot_of(rest[i].0) == own;
            assert(rest[i] == samples[i]);
            law_one_bucket_per_hour(rest[i].0, time);
            assert(kept[slot_of(rest[i].0)] == last_n(values_in(rest, hour_of(rest[i].0)), n));
        } else {
            lemma_values_in(rest, hour);
            if values_in(rest, hour).len() > 0 {
                let i = choose|i: int|
                    0 <= i < rest.len() && hour_of((#[trigger] rest[i]).0) == hour;
                assert(rest[i] == samples[i]);
                law_one_bucket_per_hour(rest[i].0, time);
                assert(is_live(rest, i, start));
                assert(last_n(values_in(rest, hour_of(rest[i].0)), n) == kept[own]);
            }
            assert(last_n(values_in(rest, hour), n) =~= seq![]);
        }
    }
    lemma_last_n_push(values_in(rest, hour), value, n);
    let held = last_n(values_in(samples, hour), n);
    assert(held.len() > 0);
    assert(after.buckets == kept.insert(own, held));
    // The other hours.
    assert forall|i: int| #[trigger] is_live(samples, i, start) implies ({
        let slot = slot_of(samples[i].0);
        &&& after.buckets.dom().contains(slot)
        &&& after.buckets[slot] == last_n(values_in(samples, hour_of(samples[i].0)), n)
    }) by {
        law_one_bucket_per_hour(samples[i].0, time);
        if hour_of(samples[i].0) != hour {
            assert(rest[i] == samples[i]);
            assert(is_live(rest, i, start));
            assert(last_n(values_in(rest, hour_of(rest[i].0)), n) == kept[slot_of(rest[i].0)]);
        }
    }
    assert forall|slot: Seq<char>| #[trigger] after.buckets.dom().contains(slot) implies exists|
        i: int,
    | #[trigger] is_live(samples, i, start) && slot_of(samples[i].0) == slot by {
        if slot == own {
            assert(is_live(samples, samples.len() - 1, start));
        } else {
            assert(kept.dom().contains(slot));
            let i = choose|i: int| #[trigger]
                is_live(rest, i, start) && slot_of(rest[i].0) == slot;
            assert(rest[i] == samples[i]);
            assert(is_live(samples, i, start));
        }
    }
    // The slots can be listed.
    let others = kept.dom().remove(own);
    let slots = choose|slots: Seq<Seq<char>>| lists(slots, baseline.buckets.dom());
    lemma_lists_part(slots, baseline.buckets.dom(), others);
    let listed = choose|listed: Seq<Seq<char>>| lists(listed, others);
    assert forall|slot: Seq<char>| #[trigger] others.contains(slot) implies text_less(slot, own) by {
        assert(kept.dom().contains(slot));
        let i = choose|i: int| #[trigger]
            is_live(rest, i, start) && slot_of(rest[i].0) == slot;
        assert(rest[i] == samples[i]);
        assert(samples[i].0.seconds <= samples[samples.len() - 1].0.seconds);
        law_one_bucket_per_hour(samples[i].0, time);
        law_slots_stand_in_time_order(samples[i].0, time);
    }
    lemma_lists_push(listed, others, own);
    assert(others.insert(own) =~= after.buckets.dom());
    assert(lists(listed.push(own), after.buckets.dom()));
}

proof fn lemma_holds<T>(baseline: BaselineView<T>, samples: Seq<(Timestamp, T)>)
    requires
        samples.len() > 0,
        in_sequence(samples),
        baseline.buckets == Map::<Seq<char>, Seq<T>>::empty(),
        baseline.history_seconds > 0,
        span_fits(baseline.history_seconds),
        0 <= span_of(baseline.history_seconds),
    ensures
        sampled_with(baseline, samples).history_seconds == baseline.history_seconds,
        holds_samples(
            sampled_with(baseline, samples),
            samples,
            window_start(baseline, samples.last().0),
        ),
    decreases samples.len(),
{
    let rest = samples.drop_last();
    let start = window_start(baseline, samples.last().0);
    if rest.len() > 0 {
        lemma_in_sequence_drop(samples);
        lemma_holds(baseline, rest);
        assert(rest.last() == samples[rest.len() - 1]);
        assert(samples[rest.len() - 1].0.seconds <= samples[samples.len() - 1].0.seconds);
        lemma_holds_step(
            sampled_with(baseline, rest),
            samples,
            window_start(baseline, rest.last().0),
        );
    } else {
        assert(lists(seq![], baseline.buckets.dom()));
        assert(holds_samples(baseline, rest, start));
        assert(sampled_with(baseline, rest) == baseline);
        lemma_holds_step(baseline, samples, start);
    }
}

/// The samples of the listed slots from `at` on are the values since the hour of that slot.
proof fn lemma_joined<T>(
    baseline: BaselineView<T>,
    samples: Seq<(Timestamp, T)>,
    start: int,
    slots: Seq<Seq<char>>,
    at: int,
    hour: int,
)
    requires
        in_sequence(samples),
        holds_samples(baseline, samples, start),
        lists(slots, baseline.buckets.dom()),
        0 <= at <= slots.len(),
        reaches_window(hour, start),
        // The slots before `at` are of hours before `hour`, and the others are not.
        forall|i: int| #[trigger]
            is_live(samples, i, start) ==> (hour_of(samples[i].0) >= hour
                <==> slots.skip(at).contains(slot_of(samples[i].0))),
    ensures
        last_n(joined(baseline.buckets, slots.skip(at)), baseline.history_seconds) == last_n(
            values_since(samples, hour),
            baseline.history_seconds,
        ),
    decreases slots.len() - at,
{
    let n = baseline.history_seconds;
    let rest = slots.skip(at);
    if at == slots.len() {
        assert forall|i: int| 0 <= i < samples.len() implies hour_of((#[trigger] samples[i]).0)
            < hour by {
            if hour_of(samples[i].0) >= hour {
                assert(is_live(samples, i, start));
            }
        }
        lemma_none_since(samples, hour);
        assert(joined(baseline.buckets, rest) =~= values_since(samples, hour));
    } else {
        let slot = slots[at];
        assert(slots.contains(slot));
        assert(baseline.buckets.dom().contains(slot));
        let first = choose|i: int| #[trigger]
            is_live(samples, i, start) && slot_of(samples[i].0) == slot;
        let own = hour_of(samples[first].0);
        assert(rest[0] == slot);
        assert(rest.contains(slot));
        assert(rest.drop_first() =~= slots.skip(at + 1));
        assert forall|i: int| #[trigger] is_live(samples, i, start) implies (hour_of(samples[i].0)
            >= own + 1 <==> slots.skip(at + 1).contains(slot_of(samples[i].0))) by {
            let other = slot_of(samples[i].0);
            law_slots_stand_in_time_order(samples[first].0, samples[i].0);
            law_one_bucket_per_hour(samples[first].0, samples[i].0);
            assert(baseline.buckets.dom().contains(other));
            let j = slots.index_of(other);
            assert(slots[j] == other);
            if j > at {
                assert(text_less(slots[at], slots[j]));
                assert(slots.skip(at + 1)[j - at - 1] == other);
            }
            if j < at {
                assert(text_less(slots[j], slots[at]));
                law_slots_stand_in_time_order(samples[i].0, samples[first].0);
            }
            if slots.skip(at + 1).contains(other) {
                let k = slots.skip(at + 1).index_of(other);
                assert(slots[k + at + 1] == other);
                assert(text_less(slots[at], slots[k + at + 1]));
            }
        }
        assert forall|i: int| 0 <= i < samples.len() implies !(hour <= hour_of(
            (#[trigger] samples[i]).0,
        ) < own) by {
            if hour <= hour_of(samples[i].0) < own {
                assert(is_live(samples, i, start));
                let other = slot_of(samples[i].0);
                assert(rest.contains(other));
                let k = rest.index_of(other);
                assert(slots[k + at] == other);
                law_one_bucket_per_hour(samples[first].0, samples[i].0);
                law_slots_stand_in_time_order(samples[first].0, samples[i].0);
                if k > 0 {
                    assert(text_less(slots[at], slots[k + at]));
                }
            }
        }
        lemma_joined(baseline, samples, start, slots, at + 1, own + 1);
        lemma_values_gap(samples, hour, own);
        lemma_values_split(samples, own);
        let head = values_in(samples, own);
        let tail = joined(baseline.buckets, slots.skip(at + 1));
        let later = values_since(samples, own + 1);
        assert(baseline.buckets[slot] == last_n(head, n));
        assert(joined(baseline.buckets, rest) == baseline.buckets[slot] + tail);
        lemma_last_n_sum(last_n(head, n), tail, n);
        lemma_last_n_again(head, n);
        lemma_last_n_sum(head, later, n);
    }
}

/// A rolling baseline holds the latest samples. After samples in the order of time, those of an
/// hour that ends after the start of the window are the latest ones of that hour, and the merged
/// ones are the latest of all such hours, in the order of time.
pub proof fn law_rolling_samples_are_the_latest<T>(
    baseline: BaselineView<T>,
    samples: Seq<(Timestamp, T)>,
)
    requires
        samples.len() > 0,
        in_sequence(samples),
        baseline.buckets == Map::<Seq<char>, Seq<T>>::empty(),
        span_fits(baseline.history_seconds),
        0 <= span_of(baseline.history_seconds),
    ensures
        ({
            let after = sampled_with(baseline, samples);
            let start = window_start(baseline, samples.last().0);
            &&& after.merged() == last_n(
                values_since(samples, start - 3599),
                baseline.history_seconds,
            )
            &&& forall|i: int| #[trigger]
                is_live(samples, i, start) ==> after.samples(slot_of(samples[i].0)) == last_n(
                    values_in(samples, hour_of(samples[i].0)),
                    baseline.history_seconds,
                )
        }),
{
    let after = sampled_with(baseline, samples);
    let start = window_start(baseline, samples.last().0);
    if baseline.history_seconds == 0 {
        lemma_no_window(baseline, samples);
        assert(after.merged() =~= last_n(values_since(samples, start - 3599), 0));
        assert forall|i: int| #[trigger] is_live(samples, i, start) implies after.samples(
            slot_of(samples[i].0),
        ) == last_n(values_in(samples, hour_of(samples[i].0)), 0) by {
            assert(last_n(values_in(samples, hour_of(samples[i].0)), 0) =~= seq![]);
        }
    } else {
        lemma_holds(baseline, samples);
        let slots = in_order(after.buckets.dom());
        assert(lists(slots, after.buckets.dom()));
        assert(slots.skip(0) =~= slots);
        assert forall|i: int| #[trigger] is_live(samples, i, start) implies (hour_of(samples[i].0)
            >= start - 3599 <==> slots.skip(0).contains(slot_of(samples[i].0))) by {
            assert(after.buckets.dom().contains(slot_of(samples[i].0)));
        }
        lemma_joined(after, samples, start, slots, 0, start - 3599);
    }
}

proof fn lemma_no_window<T>(baseline: BaselineView<T>, samples: Seq<(Timestamp, T)>)
    requires
        baseline.buckets == Map::<Seq<char>, Seq<T>>::empty(),
        baseline.history_seconds == 0,
    ensures
        sampled_with(baseline, samples).buckets == baseline.buckets,
        sampled_with(baseline, samples).history_seconds == 0,
    decreases samples.len(),
{
    if samples.len() > 0 {
        lemma_no_window(baseline, samples.drop_last());
        assert(sampled_with(baseline, samples).buckets =~= baseline.buckets);
    }
}

} // verus!
