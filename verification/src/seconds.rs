//! What is sampled of every second of a run.

use crate::baseline::{bucket, last_n, slot_of, BaselineView};
use crate::blocker::IptablesBlocker;
use crate::clock::Timestamp;
use crate::config::Config;
use crate::notifier::SlackNotifier;
use crate::rolling::sampled_with;
use crate::runs::{entries_of, run, times_since, windows_hold, EntryView, Step};
use crate::state::{EngineView, Ratio};
use crate::window::{count_in, in_second};
use vstd::prelude::*;

verus! {

// ---------------------------------------------------------------------------------------------
// Counts
// ---------------------------------------------------------------------------------------------

/// How many entries lie in a second.
pub open spec fn requests_in(entries: Seq<EntryView>, second: int) -> nat
    decreases entries.len(),
{
    if entries.len() == 0 {
        0
    } else {
        requests_in(entries.drop_last(), second) + if entries.last().time.seconds == second {
            1nat
        } else {
            0nat
        }
    }
}

/// How many entries with a status from 400 to 599 lie in a second.
pub open spec fn errors_in(entries: Seq<EntryView>, second: int) -> nat
    decreases entries.len(),
{
    if entries.len() == 0 {
        0
    } else {
        errors_in(entries.drop_last(), second) + if entries.last().time.seconds == second && 400
            <= entries.last().status <= 599 {
            1nat
        } else {
            0nat
        }
    }
}

/// How many entries of an address lie in a second.
pub open spec fn requests_of(entries: Seq<EntryView>, ip: Seq<char>, second: int) -> nat
    decreases entries.len(),
{
    if entries.len() == 0 {
        0
    } else {
        requests_of(entries.drop_last(), ip, second) + if entries.last().time.seconds == second
            && entries.last().ip == ip {
            1nat
        } else {
            0nat
        }
    }
}

/// The sample of all requests of a second: their number.
pub open spec fn request_sample(entries: Seq<EntryView>, second: int) -> Ratio {
    Ratio { part: requests_in(entries, second) as usize, whole: 1 }
}

/// The sample of the errors of a second: their number out of that of all requests; zero where there
/// are none.
pub open spec fn error_sample(entries: Seq<EntryView>, second: int) -> Ratio {
    if requests_in(entries, second) == 0 {
        Ratio { part: 0, whole: 1 }
    } else {
        Ratio {
            part: errors_in(entries, second) as usize,
            whole: requests_in(entries, second) as usize,
        }
    }
}

/// The samples of the seconds from `from` up to `to`, not included, of requests or of errors.
pub open spec fn second_samples(
    entries: Seq<EntryView>,
    from: int,
    to: int,
    errors: bool,
) -> Seq<(Timestamp, Ratio)>
    decreases to - from,
{
    if to <= from {
        seq![]
    } else {
        let mark = Timestamp { seconds: (to - 1) as i64, nanos: 0 };
        let sample = if errors {
            error_sample(entries, to - 1)
        } else {
            request_sample(entries, to - 1)
        };
        second_samples(entries, from, to - 1, errors).push((mark, sample))
    }
}

proof fn lemma_counts(entries: Seq<EntryView>, second: int)
    ensures
        errors_in(entries, second) <= requests_in(entries, second) <= entries.len(),
    decreases entries.len(),
{
    if entries.len() > 0 {
        lemma_counts(entries.drop_last(), second);
    }
}

proof fn lemma_no_counts(entries: Seq<EntryView>, second: int)
    requires
        forall|i: int| 0 <= i < entries.len() ==> (#[trigger] entries[i]).time.seconds < second,
    ensures
        requests_in(entries, second) == 0,
        errors_in(entries, second) == 0,
    decreases entries.len(),
{
    if entries.len() > 0 {
        let rest = entries.drop_last();
        assert forall|i: int| 0 <= i < rest.len() implies (#[trigger] rest[i]).time.seconds
            < second by {
            assert(rest[i] == entries[i]);
        }
        lemma_no_counts(rest, second);
        assert(entries[entries.len() - 1].time.seconds < second);
    }
}

/// An entry of a later second does not change the samples of the seconds before it.
proof fn lemma_samples_push(
    entries: Seq<EntryView>,
    entry: EntryView,
    from: int,
    to: int,
    errors: bool,
)
    requires
        to <= entry.time.seconds,
    ensures
        second_samples(entries.push(entry), from, to, errors) == second_samples(
            entries,
            from,
            to,
            errors,
        ),
    decreases to - from,
{
    if from < to {
        lemma_samples_push(entries, entry, from, to - 1, errors);
        assert(entries.push(entry).drop_last() =~= entries);
    }
}

// ---------------------------------------------------------------------------------------------
// Runs
// ---------------------------------------------------------------------------------------------

/// The second up to which a step samples, if it does.
pub open spec fn sampling_second(step: Step) -> Option<int> {
    match step {
        Step::Entry(entry) => Some(entry.time.seconds as int),
        Step::Tick(now) => Some(now.seconds as int),
        _ => None,
    }
}

/// The second from which samples are taken, if any step has started that.
pub open spec fn first_second(steps: Seq<Step>) -> Option<int>
    decreases steps.len(),
{
    if steps.len() == 0 {
        None
    } else {
        match first_second(steps.drop_last()) {
            Some(second) => Some(second),
            None => sampling_second(steps.last()),
        }
    }
}

/// The second up to which samples were taken.
pub open spec fn last_second(steps: Seq<Step>) -> Option<int>
    decreases steps.len(),
{
    if steps.len() == 0 {
        None
    } else {
        match sampling_second(steps.last()) {
            Some(second) => Some(second),
            None => last_second(steps.drop_last()),
        }
    }
}

/// Whether entries and ticks come in the order of their seconds.
pub open spec fn seconds_in_order(steps: Seq<Step>) -> bool
    decreases steps.len(),
{
    steps.len() > 0 ==> {
        let rest = steps.drop_last();
        &&& seconds_in_order(rest)
        &&& sampling_second(steps.last()) is Some && last_second(rest) is Some
            ==> last_second(rest)->0 <= sampling_second(steps.last())->0
    }
}

/// Whether a state has sampled the seconds from `first` up to `second`, not included, and counts
/// that second.
spec fn has_sampled(
    state: EngineView,
    start: EngineView,
    entries: Seq<EntryView>,
    first: int,
    second: int,
) -> bool {
    &&& first <= second
    &&& i64::MIN <= second <= i64::MAX
    &&& state.last_flushed_second == Some(Timestamp { seconds: second as i64, nanos: 0 })
    &&& state.global_baseline.buckets == sampled_with(
        start.global_baseline,
        second_samples(entries, first, second, false),
    ).buckets
    &&& state.global_baseline.history_seconds == start.global_baseline.history_seconds
    &&& state.error_baseline.buckets == sampled_with(
        start.error_baseline,
        second_samples(entries, first, second, true),
    ).buckets
    &&& state.error_baseline.history_seconds == start.error_baseline.history_seconds
    &&& state.second_requests == requests_in(entries, second)
    &&& state.second_errors == errors_in(entries, second)
    &&& forall|i: int| 0 <= i < entries.len() ==> (#[trigger] entries[i]).time.seconds <= second
}

proof fn lemma_sampled_history<T>(baseline: BaselineView<T>, samples: Seq<(Timestamp, T)>)
    ensures
        sampled_with(baseline, samples).history_seconds == baseline.history_seconds,
    decreases samples.len(),
{
    if samples.len() > 0 {
        lemma_sampled_history(baseline, samples.drop_last());
    }
}

proof fn lemma_sampled_push<T>(
    baseline: BaselineView<T>,
    start: BaselineView<T>,
    samples: Seq<(Timestamp, T)>,
    time: Timestamp,
    value: T,
)
    requires
        baseline.buckets == sampled_with(start, samples).buckets,
        baseline.history_seconds == start.history_seconds,
    ensures
        baseline.with_sample(time, value).buckets == sampled_with(
            start,
            samples.push((time, value)),
        ).buckets,
{
    let before = sampled_with(start, samples);
    lemma_sampled_history(start, samples);
    assert(samples.push((time, value)).drop_last() =~= samples);
    assert(baseline.live_slots(time) =~= before.live_slots(time));
    assert(baseline.pruned(time) =~= before.pruned(time));
}

/// Sampling on up to a later second.
proof fn lemma_samples_on(
    state: EngineView,
    start: EngineView,
    entries: Seq<EntryView>,
    first: int,
    second: int,
    to: int,
)
    requires
        has_sampled(state, start, entries, first, second),
        second <= to <= i64::MAX,
        entries.len() <= usize::MAX,
    ensures
        has_sampled(state.sampled_until(second, to), start, entries, first, to),
    decreases to - second,
{
    if second < to {
        let mark = Timestamp { seconds: second as i64, nanos: 0 };
        let next = state.sampled(mark);
        lemma_counts(entries, second);
        lemma_sampled_push(
            state.global_baseline,
            start.global_baseline,
            second_samples(entries, first, second, false),
            mark,
            request_sample(entries, second),
        );
        lemma_sampled_push(
            state.error_baseline,
            start.error_baseline,
            second_samples(entries, first, second, true),
            mark,
            error_sample(entries, second),
        );
        assert(state.error_ratio() == error_sample(entries, second));
        assert forall|i: int| 0 <= i < entries.len() implies (#[trigger] entries[i]).time.seconds
            < second + 1 by {}
        lemma_no_counts(entries, second + 1);
        assert(second_samples(entries, first, second + 1, false) == second_samples(
            entries,
            first,
            second,
            false,
        ).push((mark, request_sample(entries, second))));
        assert(second_samples(entries, first, second + 1, true) == second_samples(
            entries,
            first,
            second,
            true,
        ).push((mark, error_sample(entries, second))));
        lemma_samples_on(next, start, entries, first, second + 1, to);
    }
}

/// Counting one more entry of the current second.
proof fn lemma_entry_counted(
    state: EngineView,
    start: EngineView,
    entries: Seq<EntryView>,
    entry: EntryView,
    first: int,
)
    requires
        has_sampled(state, start, entries, first, entry.time.seconds as int),
        entries.len() < usize::MAX,
    ensures
        has_sampled(
            state.counted(entry.ip, entry.time, entry.status).evicted(entry.time),
            start,
            entries.push(entry),
            first,
            entry.time.seconds as int,
        ),
{
    let second = entry.time.seconds as int;
    let longer = entries.push(entry);
    assert(longer.drop_last() =~= entries);
    lemma_counts(entries, second);
    lemma_samples_push(entries, entry, first, second, false);
    lemma_samples_push(entries, entry, first, second, true);
    assert forall|i: int| 0 <= i < longer.len() implies (#[trigger] longer[i]).time.seconds
        <= second by {
        if i < entries.len() {
            assert(longer[i] == entries[i]);
        }
    }
}

proof fn lemma_run_samples(start: EngineView, steps: Seq<Step>)
    requires
        seconds_in_order(steps),
        start.last_flushed_second is None,
        start.second_requests == 0,
        start.second_errors == 0,
        entries_of(steps).len() <= usize::MAX,
    ensures
        ({
            let after = run(start, steps);
            match first_second(steps) {
                Some(first) => last_second(steps) is Some && has_sampled(
                    after,
                    start,
                    entries_of(steps),
                    first,
                    last_second(steps)->0,
                ),
                None => {
                    &&& last_second(steps) is None
                    &&& entries_of(steps).len() == 0
                    &&& after.last_flushed_second is None
                    &&& after.global_baseline.buckets == start.global_baseline.buckets
                    &&& after.global_baseline.history_seconds
                        == start.global_baseline.history_seconds
                    &&& after.error_baseline.buckets == start.error_baseline.buckets
                    &&& after.error_baseline.history_seconds
                        == start.error_baseline.history_seconds
                    &&& after.second_requests == 0 && after.second_errors == 0
                },
            }
        }),
    decreases steps.len(),
{
    if steps.len() > 0 {
        let rest = steps.drop_last();
        let before = run(start, rest);
        let entries = entries_of(rest);
        lemma_run_samples(start, rest);
        match sampling_second(steps.last()) {
            Some(to) => {
                let now = match steps.last() {
                    Step::Entry(entry) => entry.time,
                    Step::Tick(now) => now,
                    _ => Timestamp { seconds: 0, nanos: 0 },
                };
                let first = match first_second(rest) {
                    Some(first) => first,
                    None => to,
                };
                let flushed = before.flushed(now);
                if first_second(rest) is Some {
                    lemma_samples_on(before, start, entries, first, last_second(rest)->0, to);
                } else {
                    assert(second_samples(entries, to, to, false) =~= seq![]);
                    assert(second_samples(entries, to, to, true) =~= seq![]);
                    lemma_no_counts(entries, to);
                }
                assert(has_sampled(flushed, start, entries, first, to));
                match steps.last() {
                    Step::Entry(entry) => {
                        lemma_entry_counted(flushed, start, entries, entry, first);
                    },
                    _ => {},
                }
            },
            None => {},
        }
    }
}

// ---------------------------------------------------------------------------------------------
// Laws
// ---------------------------------------------------------------------------------------------

/// Every second is sampled, once and in order. After a run whose entries and ticks come in the
/// order of their seconds, the baseline of all traffic has one sample for each second from the
/// first step on: the number of entries of that second. The baseline of errors has the number of
/// those with a status from 400 to 599 out of all of that second. The current second, which is not
/// sampled yet, is counted in the same way.
pub proof fn law_every_second_is_sampled(
    config: Config,
    blocker: IptablesBlocker,
    notifier: SlackNotifier,
    started_at: Timestamp,
    steps: Seq<Step>,
)
    requires
        seconds_in_order(steps),
        first_second(steps) is Some,
        entries_of(steps).len() <= usize::MAX,
    ensures
        ({
            let start = EngineView::initial(config, blocker, notifier, started_at);
            let after = run(start, steps);
            let entries = entries_of(steps);
            let first = first_second(steps)->0;
            let last = last_second(steps)->0;
            &&& after.global_baseline.buckets == sampled_with(
                start.global_baseline,
                second_samples(entries, first, last, false),
            ).buckets
            &&& after.error_baseline.buckets == sampled_with(
                start.error_baseline,
                second_samples(entries, first, last, true),
            ).buckets
            &&& after.second_requests == requests_in(entries, last)
            &&& after.second_errors == errors_in(entries, last)
        }),
{
    let start = EngineView::initial(config, blocker, notifier, started_at);
    lemma_run_samples(start, steps);
}

/// The samples of a run of seconds: one for each, in order.
pub proof fn law_samples_of_seconds(entries: Seq<EntryView>, from: int, to: int, second: int)
    requires
        from <= second < to,
        entries.len() <= usize::MAX,
    ensures
        second_samples(entries, from, to, false).len() == to - from,
        second_samples(entries, from, to, true).len() == to - from,
        second_samples(entries, from, to, false)[second - from].1.part == requests_in(
            entries,
            second,
        ),
        second_samples(entries, from, to, false)[second - from].1.whole == 1,
        requests_in(entries, second) > 0 ==> {
            let sample = second_samples(entries, from, to, true)[second - from].1;
            sample.part == errors_in(entries, second) && sample.whole == requests_in(
                entries,
                second,
            )
        },
        requests_in(entries, second) == 0 ==> second_samples(entries, from, to, true)[second
            - from].1.part == 0,
    decreases to - from,
{
    lemma_counts(entries, second);
    lemma_samples_len(entries, from, to - 1, false);
    lemma_samples_len(entries, from, to - 1, true);
    if second < to - 1 {
        law_samples_of_seconds(entries, from, to - 1, second);
    }
}

proof fn lemma_samples_len(entries: Seq<EntryView>, from: int, to: int, errors: bool)
    requires
        from <= to,
    ensures
        second_samples(entries, from, to, errors).len() == to - from,
    decreases to - from,
{
    if from < to {
        lemma_samples_len(entries, from, to - 1, errors);
    }
}

/// The requests of an address in a second are those in its window, as far as the window reaches.
proof fn lemma_count_of(entries: Seq<EntryView>, cutoff: Timestamp, ip: Seq<char>, mark: Timestamp)
    requires
        mark.nanos == 0,
        mark.seconds < i64::MAX,
        !mark.is_before(cutoff),
    ensures
        count_in(times_since(entries, cutoff, Some(ip), false), mark) == requests_of(
            entries,
            ip,
            mark.seconds as int,
        ),
    decreases entries.len(),
{
    let within = |time: Timestamp| in_second(time, mark);
    let held = times_since(entries, cutoff, Some(ip), false);
    if entries.len() > 0 {
        let rest = entries.drop_last();
        let some = times_since(rest, cutoff, Some(ip), false);
        lemma_count_of(rest, cutoff, ip, mark);
        let time = entries.last().time;
        assert(in_second(time, mark) <==> time.seconds == mark.seconds);
        some.lemma_filter_push(time, within);
    } else {
        assert(held.filter(within) =~= seq![]);
    }
}

/// The sample of an address is the number of its entries of that second: where the windows hold the
/// entries since a time that is not after the second, sampling the second adds that number to the
/// baseline of every address that is known, as the last sample of its hour.
pub proof fn law_address_samples_count_its_requests(
    state: EngineView,
    entries: Seq<EntryView>,
    cutoff: Timestamp,
    mark: Timestamp,
    ip: Seq<char>,
)
    requires
        windows_hold(state, entries, cutoff),
        mark.nanos == 0,
        mark.seconds < i64::MAX,
        !mark.is_before(cutoff),
        state.traffic.dom().contains(ip),
        state.baseline_of(ip).history_seconds > 0,
        entries.len() <= usize::MAX,
    ensures
        ({
            let samples = state.sampled(mark).ip_baselines[ip].samples(slot_of(mark));
            &&& state.sampled(mark).ip_baselines.dom().contains(ip)
            &&& samples.len() > 0
            &&& samples.last().part == requests_of(entries, ip, mark.seconds as int)
            &&& samples.last().whole == 1
        }),
{
    lemma_count_of(entries, cutoff, ip, mark);
    lemma_requests_of(entries, ip, mark.seconds as int);
    assert(state.traffic_of(ip).requests == times_since(entries, cutoff, Some(ip), false));
    let baseline = state.baseline_of(ip);
    let sample = Ratio { part: requests_of(entries, ip, mark.seconds as int) as usize, whole: 1 };
    assert(state.sampled(mark).ip_baselines[ip] == baseline.with_sample(mark, sample));
    let held = bucket(baseline.pruned(mark), slot_of(mark)).push(sample);
    assert(last_n(held, baseline.history_seconds).last() == sample);
}

proof fn lemma_requests_of(entries: Seq<EntryView>, ip: Seq<char>, second: int)
    ensures
        requests_of(entries, ip, second) <= entries.len(),
    decreases entries.len(),
{
    if entries.len() > 0 {
        lemma_requests_of(entries.drop_last(), ip, second);
    }
}

/// An address that is not known any more keeps its baseline as it is while seconds are sampled, and
/// no baseline is dropped by sampling.
pub proof fn law_sampling_keeps_other_baselines(
    state: EngineView,
    mark: Timestamp,
    ip: Seq<char>,
)
    requires
        state.ip_baselines.dom().contains(ip),
    ensures
        state.sampled(mark).ip_baselines.dom().contains(ip),
        !state.traffic.dom().contains(ip) ==> state.sampled(mark).ip_baselines[ip]
            == state.ip_baselines[ip],
{
}

/// An address that is known and has no baseline gets one at the floors of the settings, whose only
/// sample is that of the second.
pub proof fn law_first_sample_of_an_address(state: EngineView, mark: Timestamp, ip: Seq<char>)
    requires
        state.traffic.dom().contains(ip),
        !state.ip_baselines.dom().contains(ip),
        state.config.baseline.history_seconds > 0,
    ensures
        ({
            let baseline = state.sampled(mark).ip_baselines[ip];
            &&& baseline.current.mean == state.config.baseline.floor_mean
            &&& baseline.current.stddev == state.config.baseline.floor_stddev
            &&& baseline.samples(slot_of(mark)).len() == 1
            &&& baseline.buckets.dom() == set![slot_of(mark)]
            &&& baseline.history_seconds == state.config.baseline.history_seconds
        }),
{
    let fresh = state.baseline_of(ip);
    assert(fresh.pruned(mark).dom() =~= Set::<Seq<char>>::empty());
    let baseline = state.sampled(mark).ip_baselines[ip];
    assert(baseline.buckets.dom() =~= set![slot_of(mark)]);
}

} // verus!
