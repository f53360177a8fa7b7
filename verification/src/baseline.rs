//! Rolling baselines of per-second samples, kept by the hour.

use crate::clock::{
    format_utc, hour_floor, names_hour, parse_plain, plain_time, rfc3339_text, to_rfc3339, utc_text,
    Timestamp, END_OF_YEAR_9999, MAX_SPAN, YEAR_0,
};
use crate::double::{lemma_larger_bounds, Double, Rounded};
use crate::table::{in_order, marked, Table};
use crate::text::{lemma_text_irreflexive, lemma_text_transitive, text_less};
use std::collections::VecDeque;
use vstd::prelude::*;
use vstd::string::*;

verus! {

/// How many recalculations the history remembers.
pub const HISTORY_LIMIT: usize = 180;

/// How many recalculations a snapshot shows.
pub const SNAPSHOT_LIMIT: usize = 60;

// ---------------------------------------------------------------------------------------------
// Model
// ---------------------------------------------------------------------------------------------

/// The last `n` items of `s`, or all of them where there are fewer.
pub open spec fn last_n<A>(s: Seq<A>, n: nat) -> Seq<A> {
    if s.len() > n {
        s.skip(s.len() - n)
    } else {
        s
    }
}

/// Statistics of a baseline, as a mathematical value.
pub struct StatsView {
    pub mean: Rounded,
    pub stddev: Rounded,
    pub sample_size: nat,
    pub hour_slot: Seq<char>,
}

/// One recalculation, as a mathematical value.
pub struct HistoryView {
    pub timestamp: Seq<char>,
    pub effective_mean: Double,
    pub effective_stddev: Double,
    pub sample_size: nat,
    pub hour_slot: Seq<char>,
}

/// A baseline, as a mathematical value.
pub struct BaselineView<T> {
    pub history_seconds: nat,
    pub recalc_interval_seconds: int,
    pub min_samples_per_hour: nat,
    pub floor_mean: Rounded,
    pub floor_stddev: Rounded,
    pub buckets: Map<Seq<char>, Seq<T>>,
    pub current: StatsView,
    pub last_recalculated_at: Option<Timestamp>,
    pub history: Seq<HistoryView>,
}

/// The number of seconds that a window length stands for: its value as a 64-bit signed number.
pub open spec fn span_of(history_seconds: nat) -> int {
    if history_seconds > i64::MAX {
        history_seconds - 0x1_0000_0000_0000_0000
    } else {
        history_seconds as int
    }
}

/// Whether a window length stands for a duration.
pub open spec fn span_fits(history_seconds: nat) -> bool {
    -MAX_SPAN <= span_of(history_seconds) <= MAX_SPAN
}

/// The slot of the hour in which a point lies.
pub open spec fn slot_of(time: Timestamp) -> Seq<char> {
    utc_text(time.seconds, time.nanos, "%Y-%m-%dT%H"@)
}

/// The hour start that a slot stands for, if it is one.
pub open spec fn slot_start(slot: Seq<char>) -> Option<Timestamp> {
    match plain_time(slot + ":00:00"@, "%Y-%m-%dT%H:%M:%S"@) {
        Some(time) => Some(Timestamp { seconds: time.0, nanos: time.1 }),
        None => None,
    }
}

/// Whether the hour of a slot ends after `cutoff`.
pub open spec fn slot_reaches(slot: Seq<char>, cutoff: Timestamp) -> bool {
    match slot_start(slot) {
        Some(start) => cutoff.is_before(start.shifted(3600)),
        None => false,
    }
}

/// The samples of the buckets, one bucket after the other.
pub open spec fn joined<T>(buckets: Map<Seq<char>, Seq<T>>, slots: Seq<Seq<char>>) -> Seq<T>
    decreases slots.len(),
{
    if slots.len() == 0 {
        seq![]
    } else {
        buckets[slots[0]] + joined(buckets, slots.drop_first())
    }
}

impl<T> BaselineView<T> {
    /// A baseline without samples.
    pub open spec fn fresh(
        history_seconds: nat,
        recalc_interval_seconds: int,
        min_samples_per_hour: nat,
        floor_mean: Rounded,
        floor_stddev: Rounded,
    ) -> BaselineView<T> {
        BaselineView {
            history_seconds,
            recalc_interval_seconds,
            min_samples_per_hour,
            floor_mean,
            floor_stddev,
            buckets: Map::empty(),
            current: StatsView {
                mean: floor_mean,
                stddev: floor_stddev,
                sample_size: 0,
                hour_slot: "bootstrap"@,
            },
            last_recalculated_at: None,
            history: seq![],
        }
    }

    /// The slots whose bucket holds samples and whose hour reaches into the window that ends at
    /// `time`.
    pub open spec fn live_slots(self, time: Timestamp) -> Set<Seq<char>> {
        Set::new(
            |slot: Seq<char>|
                self.buckets.dom().contains(slot) && self.buckets[slot].len() > 0 && slot_reaches(
                    slot,
                    time.shifted(-span_of(self.history_seconds)),
                ),
        )
    }

    /// The buckets whose slots are live at `time`.
    pub open spec fn pruned(self, time: Timestamp) -> Map<Seq<char>, Seq<T>> {
        self.buckets.restrict(self.live_slots(time))
    }

    /// The samples of a slot.
    pub open spec fn samples(self, slot: Seq<char>) -> Seq<T> {
        bucket(self.buckets, slot)
    }

    /// The baseline after one more sample: stale buckets are gone, and the sample is the last of
    /// its hour's bucket, which keeps its latest samples.
    pub open spec fn with_sample(self, time: Timestamp, value: T) -> BaselineView<T> {
        let kept = self.pruned(time);
        let samples = last_n(bucket(kept, slot_of(time)).push(value), self.history_seconds);
        BaselineView {
            buckets: if samples.len() > 0 {
                kept.insert(slot_of(time), samples)
            } else {
                kept.remove(slot_of(time))
            },
            ..self
        }
    }

    /// The latest samples over all buckets, which are read in the order of their slots.
    pub open spec fn merged(self) -> Seq<T> {
        last_n(joined(self.buckets, in_order(self.buckets.dom())), self.history_seconds)
    }

    /// Whether the current hour has samples enough to be used alone.
    pub open spec fn hour_suffices(self, now: Timestamp) -> bool {
        self.samples(slot_of(now)).len() >= self.min_samples_per_hour
    }

    /// The samples that a recalculation at `now` takes.
    pub open spec fn selected(self, now: Timestamp) -> Seq<T> {
        if self.hour_suffices(now) {
            last_n(self.samples(slot_of(now)), self.history_seconds)
        } else {
            self.merged()
        }
    }

    /// The slot that a recalculation at `now` names.
    pub open spec fn slot_used(self, now: Timestamp) -> Seq<char> {
        if self.hour_suffices(now) {
            slot_of(now)
        } else {
            "rolling"@
        }
    }

    /// The statistics of a recalculation at `now`, where the selected samples have the given mean
    /// and standard deviation: never below the floors; without samples the mean is the floor, and
    /// with fewer than two the deviation is zero before the floor is applied.
    pub open spec fn stats_at(self, now: Timestamp, mean: Rounded, stddev: Rounded) -> StatsView {
        let size = self.selected(now).len();
        StatsView {
            mean: if size == 0 {
                self.floor_mean
            } else {
                mean.larger(self.floor_mean)
            },
            stddev: if size < 2 {
                Rounded::spec_zero().larger(self.floor_stddev)
            } else {
                stddev.larger(self.floor_stddev)
            },
            sample_size: size,
            hour_slot: self.slot_used(now),
        }
    }

    /// The baseline after a recalculation at `now`.
    pub open spec fn recalculated(self, now: Timestamp, mean: Rounded, stddev: Rounded) -> BaselineView<T> {
        let stats = self.stats_at(now, mean, stddev);
        let entry = HistoryView {
            timestamp: rfc3339_text(now.seconds, now.nanos),
            effective_mean: stats.mean.shown,
            effective_stddev: stats.stddev.shown,
            sample_size: stats.sample_size,
            hour_slot: stats.hour_slot,
        };
        BaselineView {
            current: stats,
            last_recalculated_at: Some(now),
            history: last_n(self.history.push(entry), HISTORY_LIMIT as nat),
            ..self
        }
    }

    /// Whether a recalculation is due: none was made yet, or the interval has passed.
    pub open spec fn is_due(self, now: Timestamp) -> bool {
        match self.last_recalculated_at {
            None => true,
            Some(previous) => now.seconds_after(previous) >= self.recalc_interval_seconds,
        }
    }

    /// No bucket is empty or longer than the window, and the history is within its limit.
    pub open spec fn bounded(self) -> bool {
        &&& forall|slot: Seq<char>| #[trigger]
            self.buckets.dom().contains(slot) ==> 0 < self.buckets[slot].len()
                <= self.history_seconds
        &&& self.history.len() <= HISTORY_LIMIT
    }
}

/// The samples of a slot; none where there is no bucket.
pub open spec fn bucket<T>(buckets: Map<Seq<char>, Seq<T>>, slot: Seq<char>) -> Seq<T> {
    if buckets.dom().contains(slot) {
        buckets[slot]
    } else {
        seq![]
    }
}

// ---------------------------------------------------------------------------------------------
// Data
// ---------------------------------------------------------------------------------------------

/// Statistics of a baseline.
#[derive(Debug)]
pub struct BaselineStats {
    pub mean: Rounded,
    pub stddev: Rounded,
    pub sample_size: usize,
    pub hour_slot: String,
}

impl View for BaselineStats {
    type V = StatsView;

    open spec fn view(&self) -> StatsView {
        StatsView {
            mean: self.mean,
            stddev: self.stddev,
            sample_size: self.sample_size as nat,
            hour_slot: self.hour_slot@,
        }
    }
}

impl Clone for BaselineStats {
    fn clone(&self) -> (copy: Self)
        ensures
            copy@ == self@,
    {
        BaselineStats {
            mean: self.mean,
            stddev: self.stddev,
            sample_size: self.sample_size,
            hour_slot: self.hour_slot.clone(),
        }
    }
}

/// One recalculation. The effective values are those that are shown.
#[derive(Debug)]
pub struct BaselineHistoryEntry {
    pub timestamp: String,
    pub effective_mean: Double,
    pub effective_stddev: Double,
    pub sample_size: usize,
    pub hour_slot: String,
}

impl View for BaselineHistoryEntry {
    type V = HistoryView;

    open spec fn view(&self) -> HistoryView {
        HistoryView {
            timestamp: self.timestamp@,
            effective_mean: self.effective_mean,
            effective_stddev: self.effective_stddev,
            sample_size: self.sample_size as nat,
            hour_slot: self.hour_slot@,
        }
    }
}

impl Clone for BaselineHistoryEntry {
    fn clone(&self) -> (copy: Self)
        ensures
            copy@ == self@,
    {
        BaselineHistoryEntry {
            timestamp: self.timestamp.clone(),
            effective_mean: self.effective_mean,
            effective_stddev: self.effective_stddev,
            sample_size: self.sample_size,
            hour_slot: self.hour_slot.clone(),
        }
    }
}

/// The entries of a history, as mathematical values.
pub open spec fn history_views(entries: Seq<BaselineHistoryEntry>) -> Seq<HistoryView> {
    Seq::new(entries.len(), |i: int| entries[i]@)
}

/// The samples that a recalculation takes, and the slot that it names.
pub struct Selection<T> {
    pub samples: Vec<T>,
    pub slot: String,
}

/// Mean and standard deviation of a selection.
#[derive(Clone, Copy, Debug)]
pub struct Moments {
    pub mean: Rounded,
    pub stddev: Rounded,
}

impl View for Moments {
    type V = Moments;

    open spec fn view(&self) -> Moments {
        *self
    }
}

/// What is shown of a baseline.
pub struct BaselineSnapshot {
    pub mean: Double,
    pub stddev: Double,
    pub sample_size: usize,
    pub hour_slot: String,
    pub history: Vec<BaselineHistoryEntry>,
}

impl BaselineSnapshot {
    /// Whether the snapshot shows the statistics and the latest recalculations of a baseline.
    pub open spec fn shows<T>(self, baseline: BaselineView<T>) -> bool {
        &&& self.mean == baseline.current.mean.shown
        &&& self.stddev == baseline.current.stddev.shown
        &&& self.sample_size == baseline.current.sample_size
        &&& self.hour_slot@ == baseline.current.hour_slot
        &&& history_views(self.history@) == last_n(baseline.history, SNAPSHOT_LIMIT as nat)
    }
}

/// A baseline of per-second samples. Samples are kept in buckets by the hour; statistics are
/// recalculated from the current hour where it has samples enough, and else from all buckets.
pub struct RollingBaseline<T> {
    history_seconds: usize,
    recalc_interval_seconds: i64,
    min_samples_per_hour: usize,
    floor_mean: Rounded,
    floor_stddev: Rounded,
    hourly_samples: Table<VecDeque<T>>,
    pub current: BaselineStats,
    last_recalculated_at: Option<Timestamp>,
    history: Vec<BaselineHistoryEntry>,
}

impl<T> View for RollingBaseline<T> {
    type V = BaselineView<T>;

    closed spec fn view(&self) -> BaselineView<T> {
        BaselineView {
            history_seconds: self.history_seconds as nat,
            recalc_interval_seconds: self.recalc_interval_seconds as int,
            min_samples_per_hour: self.min_samples_per_hour as nat,
            floor_mean: self.floor_mean,
            floor_stddev: self.floor_stddev,
            buckets: self.hourly_samples@,
            current: self.current@,
            last_recalculated_at: self.last_recalculated_at,
            history: history_views(self.history@),
        }
    }
}

proof fn lemma_last_n_join<A>(a: Seq<A>, b: Seq<A>, n: nat)
    ensures
        b.len() >= n ==> last_n(a + b, n) == last_n(b, n),
        b.len() < n ==> last_n(a + b, n) == last_n(a, (n - b.len()) as nat) + b,
{
    if b.len() >= n {
        assert(last_n(a + b, n) =~= last_n(b, n));
    } else {
        assert(last_n(a + b, n) =~= last_n(a, (n - b.len()) as nat) + b);
    }
}

/// Appends the last `n` samples of `samples`, in order.
fn extend_last<T: Copy>(out: &mut Vec<T>, samples: &VecDeque<T>, n: usize)
    ensures
        final(out)@ == old(out)@ + last_n(samples@, n as nat),
{
    let start: usize = if samples.len() > n {
        samples.len() - n
    } else {
        0
    };
    let mut i: usize = start;
    let ghost before = out@;
    while i < samples.len()
        invariant
            start <= i <= samples@.len(),
            out@ == before + samples@.subrange(start as int, i as int),
        decreases samples@.len() - i,
    {
        out.push(samples[i]);
        assert(samples@.subrange(start as int, i + 1) =~= samples@.subrange(
            start as int,
            i as int,
        ).push(samples@[i as int]));
        i += 1;
    }
    assert(samples@.subrange(start as int, i as int) =~= last_n(samples@, n as nat));
}

impl<T: Copy> RollingBaseline<T> {
    /// The tables are in order, and the last recalculation is on the calendar.
    pub closed spec fn wf(self) -> bool {
        &&& self.hourly_samples.wf()
        &&& (self.last_recalculated_at matches Some(time) ==> time.is_valid())
        &&& self@.bounded()
    }

    /// A baseline without samples, whose statistics are the floors.
    pub fn new(
        history_seconds: usize,
        recalc_interval_seconds: i64,
        min_samples_per_hour: usize,
        floor_mean: Rounded,
        floor_stddev: Rounded,
    ) -> (baseline: RollingBaseline<T>)
        ensures
            baseline.wf(),
            baseline@ == BaselineView::<T>::fresh(
                history_seconds as nat,
                recalc_interval_seconds as int,
                min_samples_per_hour as nat,
                floor_mean,
                floor_stddev,
            ),
    {
        let baseline = RollingBaseline {
            history_seconds,
            recalc_interval_seconds,
            min_samples_per_hour,
            floor_mean,
            floor_stddev,
            hourly_samples: Table::new(),
            current: BaselineStats {
                mean: floor_mean,
                stddev: floor_stddev,
                sample_size: 0,
                hour_slot: "bootstrap".to_owned(),
            },
            last_recalculated_at: None,
            history: Vec::new(),
        };
        assert(history_views(baseline.history@) =~= seq![]);
        baseline
    }

    /// Adds the sample of a second. Buckets whose hour ended before the window are dropped first.
    pub fn add_sample(&mut self, sample_time: Timestamp, value: T)
        requires
            old(self).wf(),
            sample_time.is_valid(),
            span_fits(old(self)@.history_seconds),
        ensures
            final(self).wf(),
            final(self)@ == old(self)@.with_sample(sample_time, value),
            names_hour(slot_of(sample_time), sample_time.seconds),
    {
        let ghost before = self@;
        self.prune_stale_buckets(sample_time);
        let ghost kept = self@.buckets;
        let hour_slot = format_utc(sample_time, "%Y-%m-%dT%H");
        let ghost slot = slot_of(sample_time);
        let mut samples: VecDeque<T> = VecDeque::new();
        match self.hourly_samples.get_mut(hour_slot.as_str()) {
            Some(bucket) => {
                core::mem::swap(bucket, &mut samples);
            },
            None => {},
        }
        samples.push_back(value);
        let ghost all = samples@;
        assert(all =~= bucket(kept, slot).push(value));
        while samples.len() > self.history_seconds
            invariant
                samples@ == all.skip(all.len() - samples@.len()),
                samples@.len() <= all.len(),
                samples@.len() == all.len() || samples@.len() >= self.history_seconds,
            decreases samples@.len(),
        {
            let ghost held = samples@;
            samples.pop_front();
            assert(samples@ =~= held.skip(1));
            assert(samples@ =~= all.skip(all.len() - samples@.len()));
        }
        assert(samples@ =~= last_n(all, self.history_seconds as nat));
        if samples.len() == 0 {
            self.hourly_samples.remove(hour_slot.as_str());
            assert(self.hourly_samples@ =~= kept.remove(slot));
        } else {
            self.hourly_samples.insert(hour_slot, samples);
            assert(self.hourly_samples@ =~= kept.insert(slot, samples@));
        }
        assert(self@ == before.with_sample(sample_time, value));
        assert(self@.bounded());
    }

    /// The samples that a recalculation at `now` takes, and the slot that it names.
    pub fn select(&self, now: Timestamp) -> (selection: Selection<T>)
        requires
            self.wf(),
            now.is_valid(),
        ensures
            selection.samples@ == self@.selected(now),
            selection.slot@ == self@.slot_used(now),
            names_hour(slot_of(now), now.seconds),
    {
        let current_hour = format_utc(now, "%Y-%m-%dT%H");
        let mut samples: Vec<T> = Vec::new();
        match self.hourly_samples.get(current_hour.as_str()) {
            Some(preferred) => {
                if preferred.len() >= self.min_samples_per_hour {
                    extend_last(&mut samples, preferred, self.history_seconds);
                    assert(samples@ =~= self@.selected(now));
                    return Selection { samples, slot: current_hour };
                }
            },
            None => {
                if self.min_samples_per_hour == 0 {
                    assert(samples@ =~= self@.selected(now));
                    return Selection { samples, slot: current_hour };
                }
            },
        }
        Selection { samples: self.merge_recent_samples(), slot: "rolling".to_owned() }
    }

    /// Recalculates the statistics, given the mean and the standard deviation of the samples that
    /// [`RollingBaseline::select`] gives.
    pub fn recalculate(&mut self, now: Timestamp, moments: Moments) -> (stats: BaselineStats)
        requires
            old(self).wf(),
            now.is_valid(),
        ensures
            final(self).wf(),
            final(self)@ == old(self)@.recalculated(now, moments.mean, moments.stddev),
            stats@ == final(self)@.current,
            names_hour(slot_of(now), now.seconds),
    {
        let ghost before = self@;
        let selection = self.select(now);
        let size = selection.samples.len();
        let mean = if size == 0 {
            self.floor_mean
        } else {
            moments.mean.max(self.floor_mean)
        };
        let stddev = if size < 2 {
            Rounded::zero().max(self.floor_stddev)
        } else {
            moments.stddev.max(self.floor_stddev)
        };
        let stats = BaselineStats { mean, stddev, sample_size: size, hour_slot: selection.slot };
        assert(stats@ == before.stats_at(now, moments.mean, moments.stddev));
        self.current = stats.clone();
        self.last_recalculated_at = Some(now);
        let entry = BaselineHistoryEntry {
            timestamp: to_rfc3339(now),
            effective_mean: stats.mean.shown,
            effective_stddev: stats.stddev.shown,
            sample_size: stats.sample_size,
            hour_slot: stats.hour_slot.clone(),
        };
        let ghost entries = self.history@;
        self.history.push(entry);
        assert(history_views(self.history@) =~= history_views(entries).push(entry@));
        if self.history.len() > HISTORY_LIMIT {
            self.history.remove(0);
            assert(history_views(self.history@) =~= history_views(entries).push(entry@).skip(1));
        }
        assert(self@.history =~= before.recalculated(
            now,
            moments.mean,
            moments.stddev,
        ).history);
        stats
    }

    /// Whether a recalculation is due.
    pub fn should_recalculate(&self, now: Timestamp) -> (due: bool)
        requires
            self.wf(),
            now.is_valid(),
        ensures
            due == self@.is_due(now),
    {
        match self.last_recalculated_at {
            None => true,
            Some(previous) => now.since(previous) >= self.recalc_interval_seconds,
        }
    }

    /// The statistics and the latest recalculations.
    pub fn snapshot(&self) -> (snapshot: BaselineSnapshot)
        ensures
            snapshot.shows(self@),
    {
        let start: usize = if self.history.len() > SNAPSHOT_LIMIT {
            self.history.len() - SNAPSHOT_LIMIT
        } else {
            0
        };
        let mut history: Vec<BaselineHistoryEntry> = Vec::new();
        let mut i: usize = start;
        while i < self.history.len()
            invariant
                start <= i <= self.history@.len(),
                history_views(history@) == self@.history.subrange(start as int, i as int),
            decreases self.history@.len() - i,
        {
            let ghost before = history@;
            history.push(self.history[i].clone());
            assert(history_views(history@) =~= history_views(before).push(
                self@.history[i as int],
            ));
            assert(self@.history.subrange(start as int, i + 1) =~= self@.history.subrange(
                start as int,
                i as int,
            ).push(self@.history[i as int]));
            i += 1;
        }
        assert(self@.history.subrange(start as int, i as int) =~= last_n(
            self@.history,
            SNAPSHOT_LIMIT as nat,
        ));
        BaselineSnapshot {
            mean: self.current.mean.shown,
            stddev: self.current.stddev.shown,
            sample_size: self.current.sample_size,
            hour_slot: self.current.hour_slot.clone(),
            history,
        }
    }

    /// The mean that was last calculated.
    pub fn mean(&self) -> (mean: Double)
        ensures
            mean == self@.current.mean.value,
    {
        self.current.mean.value
    }

    /// The standard deviation that was last calculated.
    pub fn stddev(&self) -> (stddev: Double)
        ensures
            stddev == self@.current.stddev.value,
    {
        self.current.stddev.value
    }

    /// Whether there is a bucket for a slot.
    pub fn has_bucket(&self, slot: &str) -> (found: bool)
        requires
            self.wf(),
        ensures
            found == self@.buckets.dom().contains(slot@),
    {
        self.hourly_samples.contains_key(slot)
    }

    /// The latest samples over all buckets, in the order of the slots.
    fn merge_recent_samples(&self) -> (merged: Vec<T>)
        requires
            self.wf(),
        ensures
            merged@ == self@.merged(),
    {
        proof {
            self.hourly_samples.lemma_keys();
        }
        let ghost slots = self.hourly_samples.keys();
        let ghost buckets = self.hourly_samples@;
        let mut merged: Vec<T> = Vec::new();
        let mut at: usize = self.hourly_samples.len();
        assert(joined(buckets, slots.skip(at as int)) =~= seq![]);
        while at > 0
            invariant
                self.wf(),
                slots == self.hourly_samples.keys(),
                buckets == self.hourly_samples@,
                at <= slots.len(),
                merged@ == last_n(
                    joined(buckets, slots.skip(at as int)),
                    self.history_seconds as nat,
                ),
            decreases at,
        {
            at -= 1;
            let ghost rest = joined(buckets, slots.skip(at + 1));
            proof {
                assert(slots.skip(at as int).drop_first() =~= slots.skip(at + 1));
                assert(joined(buckets, slots.skip(at as int)) == buckets[slots[at as int]] + rest);
                lemma_last_n_join(buckets[slots[at as int]], rest, self.history_seconds as nat);
            }
            let needed: usize = self.history_seconds - merged.len();
            if needed > 0 {
                let mut chunk: Vec<T> = Vec::new();
                extend_last(&mut chunk, self.hourly_samples.value_at(at), needed);
                chunk.append(&mut merged);
                merged = chunk;
            }
        }
        assert(slots.skip(0) =~= slots);
        merged
    }

    /// Drops the buckets whose hour ended before the window that ends at `sample_time`.
    fn prune_stale_buckets(&mut self, sample_time: Timestamp)
        requires
            old(self).wf(),
            sample_time.is_valid(),
            span_fits(old(self)@.history_seconds),
        ensures
            final(self).wf(),
            final(self)@ == (BaselineView {
                buckets: old(self)@.pruned(sample_time),
                ..old(self)@
            }),
    {
        let ghost before = self@;
        let span = history_span(self.history_seconds);
        let cutoff = sample_time.shift(-span);
        let ghost slots = self.hourly_samples.keys();
        let mut marks: Vec<bool> = Vec::new();
        proof {
            self.hourly_samples.lemma_keys();
        }
        while marks.len() < self.hourly_samples.len()
            invariant
                self.wf(),
                slots == self.hourly_samples.keys(),
                marks@.len() <= slots.len(),
                forall|i: int|
                    0 <= i < marks@.len() ==> #[trigger] marks@[i] == (
                    self.hourly_samples@[slots[i]].len() > 0 && slot_reaches(slots[i], cutoff)),
            decreases slots.len() - marks@.len(),
        {
            let at = marks.len();
            let filled = self.hourly_samples.value_at(at).len() > 0;
            let reaches = match parse_hour_slot(self.hourly_samples.key_at(at).as_str()) {
                Some(start) => cutoff.before(start.shift(3600)),
                None => false,
            };
            marks.push(filled && reaches);
        }
        self.hourly_samples.retain_marked(&marks);
        proof {
            assert forall|slot: Seq<char>| before.buckets.dom().contains(slot) implies (marked(
                slots,
                marks@,
            ).contains(slot) == before.live_slots(sample_time).contains(slot)) by {
                let i = slots.index_of(slot);
                assert(slots[i] == slot);
                if before.live_slots(sample_time).contains(slot) {
                    assert(marks@[i]);
                }
            }
            assert(self.hourly_samples@ =~= before.pruned(sample_time));
        }
    }
}

/// The seconds that a window length stands for.
fn history_span(history_seconds: usize) -> (span: i64)
    ensures
        span == span_of(history_seconds as nat),
{
    if history_seconds as u128 <= i64::MAX as u128 {
        history_seconds as i64
    } else {
        -((usize::MAX - history_seconds) as i64) - 1
    }
}

/// Whether a window length stands for a duration.
pub fn history_fits(history_seconds: usize) -> (fits: bool)
    ensures
        fits == span_fits(history_seconds as nat),
{
    let span = history_span(history_seconds);
    -MAX_SPAN <= span && span <= MAX_SPAN
}

/// The hour start that a slot stands for.
fn parse_hour_slot(slot: &str) -> (start: Option<Timestamp>)
    ensures
        start == slot_start(slot@),
        start matches Some(time) ==> time.is_valid(),
{
    let mut raw = slot.to_owned();
    raw.append(":00:00");
    parse_plain(raw.as_str(), "%Y-%m-%dT%H:%M:%S")
}

// ---------------------------------------------------------------------------------------------
// Laws
// ---------------------------------------------------------------------------------------------

/// Recalculated statistics are never below the floors.
pub proof fn law_stats_respect_floors<T>(
    baseline: BaselineView<T>,
    now: Timestamp,
    mean: Rounded,
    stddev: Rounded,
)
    ensures
        !baseline.floor_mean.value.exceeds(baseline.stats_at(now, mean, stddev).mean.value),
        !baseline.floor_stddev.value.exceeds(baseline.stats_at(now, mean, stddev).stddev.value),
{
    lemma_larger_bounds(mean.value, baseline.floor_mean.value);
    lemma_larger_bounds(stddev.value, baseline.floor_stddev.value);
    lemma_larger_bounds(Double::spec_zero(), baseline.floor_stddev.value);
}

/// What is shown of a baseline is rounded: where the floors, the mean and the standard deviation
/// come with their rounding, so do the statistics of a recalculation, and its entry in the history
/// holds the rounded ones.
pub proof fn law_shown_values_are_rounded<T>(
    baseline: BaselineView<T>,
    now: Timestamp,
    mean: Rounded,
    stddev: Rounded,
    rounding: spec_fn(Double) -> Double,
)
    requires
        rounding(Double::spec_zero()) == Double::spec_zero(),
        baseline.floor_mean.is_by(rounding),
        baseline.floor_stddev.is_by(rounding),
        mean.is_by(rounding),
        stddev.is_by(rounding),
    ensures
        ({
            let after = baseline.recalculated(now, mean, stddev);
            &&& after.current.mean.is_by(rounding)
            &&& after.current.stddev.is_by(rounding)
            &&& after.history.last().effective_mean == rounding(after.current.mean.value)
            &&& after.history.last().effective_stddev == rounding(after.current.stddev.value)
        }),
{
}

/// A recalculation takes no more samples than the window has seconds, and reports how many.
pub proof fn law_selection_fits_window<T>(
    baseline: BaselineView<T>,
    now: Timestamp,
    mean: Rounded,
    stddev: Rounded,
)
    ensures
        baseline.selected(now).len() <= baseline.history_seconds,
        baseline.stats_at(now, mean, stddev).sample_size == baseline.selected(now).len(),
{
}

/// Buckets are never empty nor longer than the window, and the history stays within its limit,
/// whatever is sampled and recalculated.
pub proof fn law_baseline_stays_bounded<T>(
    baseline: BaselineView<T>,
    time: Timestamp,
    value: T,
    mean: Rounded,
    stddev: Rounded,
)
    requires
        baseline.bounded(),
    ensures
        baseline.with_sample(time, value).bounded(),
        baseline.recalculated(time, mean, stddev).bounded(),
{
}

/// After a recalculation, the next one is due when the interval has passed.
pub proof fn law_recalculation_interval<T>(
    baseline: BaselineView<T>,
    now: Timestamp,
    later: Timestamp,
    mean: Rounded,
    stddev: Rounded,
)
    ensures
        baseline.recalculated(now, mean, stddev).is_due(later) <==> later.seconds_after(now)
            >= baseline.recalc_interval_seconds,
{
}

/// A sample is the last one of its hour's bucket; what the bucket held stands before it, as far as
/// the window reaches.
pub proof fn law_sample_is_kept<T>(baseline: BaselineView<T>, time: Timestamp, value: T)
    requires
        baseline.history_seconds > 0,
    ensures
        baseline.with_sample(time, value).samples(slot_of(time)) == last_n(
            bucket(baseline.pruned(time), slot_of(time)).push(value),
            baseline.history_seconds,
        ),
        baseline.with_sample(time, value).samples(slot_of(time)).last() == value,
{
}

/// Another bucket survives a sample if and only if its hour reaches into the window.
pub proof fn law_stale_buckets_are_dropped<T>(
    baseline: BaselineView<T>,
    time: Timestamp,
    value: T,
    slot: Seq<char>,
)
    requires
        baseline.bounded(),
        baseline.buckets.dom().contains(slot),
        slot != slot_of(time),
    ensures
        baseline.with_sample(time, value).buckets.dom().contains(slot) <==> slot_reaches(
            slot,
            time.shifted(-span_of(baseline.history_seconds)),
        ),
        baseline.with_sample(time, value).buckets.dom().contains(slot)
            ==> baseline.with_sample(time, value).buckets[slot] == baseline.buckets[slot],
{
}

/// The samples of an hour are forgotten when a sample comes after the window that follows the hour.
pub proof fn law_old_hours_are_forgotten<T>(
    baseline: BaselineView<T>,
    sampled: Timestamp,
    time: Timestamp,
    value: T,
)
    requires
        sampled.is_valid(),
        time.is_valid(),
        names_hour(slot_of(sampled), sampled.seconds),
        names_hour(slot_of(time), time.seconds),
        span_fits(baseline.history_seconds),
        0 <= span_of(baseline.history_seconds),
        hour_floor(sampled.seconds as int) + 3600 + span_of(baseline.history_seconds)
            <= time.seconds,
    ensures
        !baseline.with_sample(time, value).buckets.dom().contains(slot_of(sampled)),
{
    let start = hour_floor(sampled.seconds as int);
    let other = hour_floor(time.seconds as int);
    assert(start != other);
    assert(slot_of(sampled) != slot_of(time));
    let cutoff = time.shifted(-span_of(baseline.history_seconds));
    assert(slot_start(slot_of(sampled)) == Some(Timestamp { seconds: start as i64, nanos: 0 }));
    assert(!slot_reaches(slot_of(sampled), cutoff));
}

/// Samples of one hour go into one bucket.
pub proof fn law_one_bucket_per_hour(a: Timestamp, b: Timestamp)
    requires
        a.is_valid(),
        b.is_valid(),
        names_hour(slot_of(a), a.seconds),
        names_hour(slot_of(b), b.seconds),
    ensures
        slot_of(a) == slot_of(b) <==> hour_floor(a.seconds as int) == hour_floor(b.seconds as int),
{
    if slot_of(a) == slot_of(b) {
        assert(slot_start(slot_of(a)) == slot_start(slot_of(b)));
    }
}

/// In the years from 0 to 9999, the slots of hours stand in the order of time.
pub proof fn law_slots_stand_in_time_order(a: Timestamp, b: Timestamp)
    requires
        YEAR_0 <= a.seconds <= END_OF_YEAR_9999,
        YEAR_0 <= b.seconds <= END_OF_YEAR_9999,
        names_hour(slot_of(a), a.seconds),
        names_hour(slot_of(b), b.seconds),
    ensures
        text_less(slot_of(a), slot_of(b)) <==> hour_floor(a.seconds as int) < hour_floor(
            b.seconds as int,
        ),
{
    let first = hour_floor(a.seconds as int);
    let second = hour_floor(b.seconds as int);
    lemma_text_irreflexive(slot_of(a));
    if first < second {
        assert(slot_of(b) == utc_text(second as i64, 0, "%Y-%m-%dT%H"@));
    } else if second < first {
        assert(slot_of(a) == utc_text(first as i64, 0, "%Y-%m-%dT%H"@));
        assert(text_less(slot_of(b), slot_of(a)));
        if text_less(slot_of(a), slot_of(b)) {
            lemma_text_transitive(slot_of(a), slot_of(b), slot_of(a));
        }
    }
}

/// The statistics are those of the samples. Of two or more samples, the deviation is theirs where
/// it is not below its floor, and else the floor; of one sample or more, so is the mean; without
/// samples the mean is the floor; of fewer than two, the deviation is that of samples that do not
/// differ. The number of samples is that of the selected ones.
pub proof fn law_statistics_are_those_of_the_samples<T>(
    baseline: BaselineView<T>,
    now: Timestamp,
    mean: Rounded,
    stddev: Rounded,
)
    ensures
        ({
            let after = baseline.recalculated(now, mean, stddev);
            let size = baseline.selected(now).len();
            let floor = baseline.floor_stddev;
            &&& after.current.sample_size == size
            &&& size >= 1 && mean.value.exceeds(baseline.floor_mean.value) ==> after.current.mean
                == mean
            &&& size >= 1 && !mean.value.is_nan() && !baseline.floor_mean.value.exceeds(mean.value)
                ==> after.current.mean == mean
            &&& size >= 1 && (mean.value.is_nan() || baseline.floor_mean.value.exceeds(mean.value))
                ==> after.current.mean == baseline.floor_mean
            &&& size == 0 ==> after.current.mean == baseline.floor_mean
            &&& size >= 2 && stddev.value.exceeds(floor.value) ==> after.current.stddev == stddev
            &&& size >= 2 && !stddev.value.is_nan() && !floor.value.exceeds(stddev.value)
                ==> after.current.stddev == stddev
            &&& size >= 2 && (stddev.value.is_nan() || floor.value.exceeds(stddev.value))
                ==> after.current.stddev == floor
            &&& size < 2 && floor.value.exceeds(Double::spec_zero()) ==> after.current.stddev
                == floor
            &&& size < 2 && !floor.value.exceeds(Double::spec_zero()) ==> after.current.stddev
                == Rounded::spec_zero()
        }),
{
}

/// A recalculation keeps the samples and the settings, remembers its time, and is the last entry of
/// the history, before which the entries stand that were there, but for the oldest where there were
/// as many as the history remembers.
pub proof fn law_recalculation_is_remembered<T>(
    baseline: BaselineView<T>,
    now: Timestamp,
    mean: Rounded,
    stddev: Rounded,
)
    requires
        baseline.history.len() <= 180,
    ensures
        ({
            let after = baseline.recalculated(now, mean, stddev);
            let entry = after.history.last();
            let shift: int = if baseline.history.len() == 180 {
                1
            } else {
                0
            };
            &&& after.buckets == baseline.buckets
            &&& after.history_seconds == baseline.history_seconds
            &&& after.recalc_interval_seconds == baseline.recalc_interval_seconds
            &&& after.min_samples_per_hour == baseline.min_samples_per_hour
            &&& after.floor_mean == baseline.floor_mean
            &&& after.floor_stddev == baseline.floor_stddev
            &&& after.last_recalculated_at == Some(now)
            &&& after.history.len() == baseline.history.len() + 1 - shift
            &&& forall|i: int|
                0 <= i < after.history.len() - 1 ==> (#[trigger] after.history[i])
                    == baseline.history[i + shift]
            &&& entry.timestamp == rfc3339_text(now.seconds, now.nanos)
            &&& entry.effective_mean == after.current.mean.shown
            &&& entry.effective_stddev == after.current.stddev.shown
            &&& entry.sample_size == after.current.sample_size
            &&& entry.hour_slot == after.current.hour_slot
        }),
{
}

/// The samples that are taken: those of the current hour alone, if there are at least as many as
/// are asked for, and else the merged ones. The slot says which.
pub proof fn law_the_current_hour_comes_first<T>(baseline: BaselineView<T>, now: Timestamp)
    requires
        baseline.bounded(),
    ensures
        ({
            let slot = slot_of(now);
            let known = baseline.buckets.dom().contains(slot);
            let size: nat = if known {
                baseline.buckets[slot].len()
            } else {
                0
            };
            let alone = size >= baseline.min_samples_per_hour;
            &&& alone && known ==> baseline.selected(now) == baseline.buckets[slot]
            &&& alone && !known ==> baseline.selected(now).len() == 0
            &&& alone ==> baseline.slot_used(now) == slot
            &&& !alone ==> baseline.selected(now) == baseline.merged() && baseline.slot_used(now)
                == "rolling"@
        }),
{
    let slot = slot_of(now);
    if baseline.buckets.dom().contains(slot) {
        assert(baseline.selected(now) =~= baseline.buckets[slot] || !baseline.hour_suffices(now));
    }
}

/// The last items of a sequence are a tail of it, as long as asked for or as there is.
pub proof fn law_last_items<A>(s: Seq<A>, n: nat)
    ensures
        last_n(s, n).len() == if s.len() < n {
            s.len()
        } else {
            n
        },
        forall|i: int|
            0 <= i < last_n(s, n).len() ==> (#[trigger] last_n(s, n)[i]) == s[s.len() - last_n(
                s,
                n,
            ).len() + i],
{
}

/// A baseline starts without samples and history, and with the floors as its statistics.
pub proof fn law_baseline_starts_at_its_floors<T>(
    history_seconds: nat,
    interval: int,
    min_samples: nat,
    floor_mean: Rounded,
    floor_stddev: Rounded,
    slot: Seq<char>,
    now: Timestamp,
)
    ensures
        ({
            let baseline = BaselineView::<T>::fresh(
                history_seconds,
                interval,
                min_samples,
                floor_mean,
                floor_stddev,
            );
            &&& baseline.current.mean == floor_mean && baseline.current.stddev == floor_stddev
            &&& baseline.current.sample_size == 0 && baseline.current.hour_slot == "bootstrap"@
            &&& !baseline.buckets.dom().contains(slot)
            &&& baseline.history.len() == 0
            &&& baseline.is_due(now)
            &&& baseline.history_seconds == history_seconds
            &&& baseline.recalc_interval_seconds == interval
            &&& baseline.min_samples_per_hour == min_samples
            &&& baseline.floor_mean == floor_mean && baseline.floor_stddev == floor_stddev
        }),
{
}

/// A snapshot shows the rounded statistics, and of the history the last sixty entries, in order.
pub proof fn law_snapshot_shows_the_latest<T>(
    snapshot: BaselineSnapshot,
    baseline: BaselineView<T>,
)
    requires
        snapshot.shows(baseline),
    ensures
        snapshot.mean == baseline.current.mean.shown,
        snapshot.stddev == baseline.current.stddev.shown,
        snapshot.sample_size == baseline.current.sample_size,
        snapshot.hour_slot@ == baseline.current.hour_slot,
        snapshot.history@.len() == if baseline.history.len() < 60 {
            baseline.history.len()
        } else {
            60
        },
        forall|i: int|
            0 <= i < snapshot.history@.len() ==> (#[trigger] snapshot.history@[i])@
                == baseline.history[baseline.history.len() - snapshot.history@.len() + i],
{
    let views = history_views(snapshot.history@);
    assert(views.len() == snapshot.history@.len());
    assert forall|i: int| 0 <= i < snapshot.history@.len() implies (
    #[trigger] snapshot.history@[i])@ == baseline.history[baseline.history.len()
        - snapshot.history@.len() + i] by {
        assert(views[i] == snapshot.history@[i]@);
    }
}

} // verus!
