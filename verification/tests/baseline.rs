use chrono::{DateTime, TimeZone, Utc};
use detrudr::baseline::{
    history_fits, BaselineStats, Moments, RollingBaseline, HISTORY_LIMIT, SNAPSHOT_LIMIT,
};
use detrudr::clock::Timestamp;
use detrudr::double::{Double, Rounded};

fn double(value: f64) -> Double {
    Double { bits: value.to_bits() }
}

fn rounded(value: f64) -> Rounded {
    Rounded { value: double(value), shown: double((value * 10000.0).round() / 10000.0) }
}

fn value(double: Double) -> f64 {
    f64::from_bits(double.bits)
}

fn stamp(time: DateTime<Utc>) -> Timestamp {
    Timestamp { seconds: time.timestamp(), nanos: time.timestamp_subsec_nanos() }
}

fn on_may_2(hour: u32, minute: u32, second: u32) -> Timestamp {
    stamp(Utc.with_ymd_and_hms(2026, 5, 2, hour, minute, second).unwrap())
}

fn baseline(history_seconds: usize, min_samples_per_hour: usize) -> RollingBaseline<f64> {
    RollingBaseline::new(history_seconds, 60, min_samples_per_hour, rounded(1.0), rounded(0.5))
}

fn moments(samples: &[f64]) -> Moments {
    let size = samples.len() as f64;
    let mean = samples.iter().sum::<f64>() / size;
    let variance = samples.iter().map(|sample| (sample - mean).powi(2)).sum::<f64>() / size;
    Moments { mean: rounded(mean), stddev: rounded(variance.sqrt()) }
}

fn recalculate(baseline: &mut RollingBaseline<f64>, now: Timestamp) -> BaselineStats {
    let moments = moments(&baseline.select(now).samples);
    baseline.recalculate(now, moments)
}

#[test]
fn baseline_uses_floor_values_when_empty() {
    let mut baseline = baseline(1800, 300);
    let stats = recalculate(&mut baseline, on_may_2(12, 0, 0));
    assert_eq!(value(stats.mean.value), 1.0);
    assert_eq!(value(stats.stddev.value), 0.5);
}

#[test]
fn add_sample_prunes_hour_buckets_outside_history_window() {
    let mut baseline = baseline(1800, 300);

    baseline.add_sample(on_may_2(10, 0, 0), 100.0);
    baseline.add_sample(on_may_2(12, 45, 0), 2.0);

    assert!(!baseline.has_bucket("2026-05-02T10"));
    let stats = recalculate(&mut baseline, on_may_2(12, 45, 0));
    assert_eq!(stats.sample_size, 1);
    assert_eq!(value(stats.mean.value), 2.0);
}

#[test]
fn add_sample_keeps_bucket_that_overlaps_history_window() {
    let mut baseline = baseline(1800, 300);

    baseline.add_sample(on_may_2(12, 0, 0), 3.0);
    baseline.add_sample(on_may_2(12, 45, 0), 5.0);

    assert!(baseline.has_bucket("2026-05-02T12"));
}

#[test]
fn recalculate_labels_merged_samples_as_rolling() {
    let mut baseline = baseline(1800, 300);

    baseline.add_sample(on_may_2(11, 59, 0), 4.0);
    baseline.add_sample(on_may_2(12, 0, 0), 6.0);

    let stats = recalculate(&mut baseline, on_may_2(12, 0, 0));

    assert_eq!(stats.hour_slot, "rolling");
    assert_eq!(stats.sample_size, 2);
}

#[test]
fn a_new_baseline_shows_its_floors() {
    let shown = baseline(1800, 300).snapshot();
    assert_eq!(value(shown.mean), 1.0);
    assert_eq!(value(shown.stddev), 0.5);
    assert_eq!(shown.sample_size, 0);
    assert_eq!(shown.hour_slot, "bootstrap");
    assert!(shown.history.is_empty());
}

#[test]
fn an_hour_with_samples_enough_is_used_alone() {
    let mut baseline = baseline(1800, 2);
    baseline.add_sample(on_may_2(11, 59, 0), 40.0);
    baseline.add_sample(on_may_2(12, 0, 0), 6.0);
    baseline.add_sample(on_may_2(12, 0, 1), 8.0);

    let selection = baseline.select(on_may_2(12, 30, 0));
    assert_eq!(selection.samples, vec![6.0, 8.0]);
    assert_eq!(selection.slot, "2026-05-02T12");
    let stats = recalculate(&mut baseline, on_may_2(12, 30, 0));
    assert_eq!(value(stats.mean.value), 7.0);
    assert_eq!(value(stats.stddev.value), 1.0);
    assert_eq!(stats.hour_slot, "2026-05-02T12");
}

#[test]
fn no_samples_are_needed_where_the_minimum_is_zero() {
    let baseline = baseline(1800, 0);
    let selection = baseline.select(on_may_2(12, 0, 0));
    assert!(selection.samples.is_empty());
    assert_eq!(selection.slot, "2026-05-02T12");
}

#[test]
fn merged_samples_stand_in_time_order() {
    let mut baseline = baseline(5, 300);
    baseline.add_sample(on_may_2(11, 59, 57), 1.0);
    baseline.add_sample(on_may_2(11, 59, 58), 2.0);
    baseline.add_sample(on_may_2(11, 59, 59), 3.0);
    baseline.add_sample(on_may_2(12, 0, 0), 4.0);
    baseline.add_sample(on_may_2(12, 0, 1), 5.0);
    baseline.add_sample(on_may_2(12, 0, 2), 6.0);

    let selection = baseline.select(on_may_2(12, 0, 2));
    assert_eq!(selection.samples, vec![2.0, 3.0, 4.0, 5.0, 6.0]);
    assert_eq!(selection.slot, "rolling");
}

#[test]
fn statistics_respect_their_floors() {
    let mut baseline = baseline(1800, 300);
    baseline.add_sample(on_may_2(12, 0, 0), 0.25);
    let stats = recalculate(&mut baseline, on_may_2(12, 0, 1));
    assert_eq!(value(stats.mean.value), 1.0);
    assert_eq!(value(stats.stddev.value), 0.5);
    assert_eq!(stats.sample_size, 1);
}

#[test]
fn buckets_and_history_stay_bounded() {
    let mut baseline = baseline(3, 1);
    for second in 0..50 {
        baseline.add_sample(on_may_2(12, 0, second), f64::from(second));
    }
    assert_eq!(baseline.select(on_may_2(12, 1, 0)).samples, vec![47.0, 48.0, 49.0]);

    for _ in 0..HISTORY_LIMIT + 5 {
        recalculate(&mut baseline, on_may_2(12, 1, 0));
    }
    let shown = baseline.snapshot();
    assert_eq!(shown.history.len(), SNAPSHOT_LIMIT);
    assert_eq!(shown.history[0].timestamp, "2026-05-02T12:01:00+00:00");
    assert_eq!(value(shown.history[0].effective_mean), 48.0);
    assert_eq!(shown.history[0].sample_size, 3);
    assert_eq!(shown.history[0].hour_slot, "2026-05-02T12");
}

#[test]
fn an_empty_window_keeps_no_samples() {
    let mut baseline = baseline(0, 300);
    baseline.add_sample(on_may_2(12, 0, 0), 4.0);
    assert!(!baseline.has_bucket("2026-05-02T12"));
    assert!(baseline.select(on_may_2(12, 0, 0)).samples.is_empty());
}

#[test]
fn recalculation_is_due_after_the_interval() {
    let mut baseline = baseline(1800, 300);
    assert!(baseline.should_recalculate(on_may_2(12, 0, 0)));
    recalculate(&mut baseline, on_may_2(12, 0, 0));
    assert!(!baseline.should_recalculate(on_may_2(12, 0, 0)));
    assert!(!baseline.should_recalculate(on_may_2(12, 0, 59)));
    assert!(baseline.should_recalculate(on_may_2(12, 1, 0)));
}

#[test]
fn an_hour_is_forgotten_when_the_window_has_left_it() {
    let mut baseline = baseline(1800, 300);
    baseline.add_sample(on_may_2(10, 15, 0), 7.0);
    baseline.add_sample(on_may_2(11, 29, 59), 8.0);
    assert!(baseline.has_bucket("2026-05-02T10"));
    baseline.add_sample(on_may_2(11, 30, 0), 9.0);
    assert!(!baseline.has_bucket("2026-05-02T10"));
    assert!(baseline.has_bucket("2026-05-02T11"));
}

#[test]
fn samples_of_an_hour_share_a_bucket_in_every_year() {
    for year in [-262_142, -1, 0, 1, 1969, 9999, 10_000, 262_141] {
        let first = Utc.with_ymd_and_hms(year, 3, 4, 5, 0, 0).unwrap();
        let last = Utc.with_ymd_and_hms(year, 3, 4, 5, 59, 59).unwrap();
        let mut baseline = baseline(1800, 2);
        baseline.add_sample(stamp(first), 1.0);
        baseline.add_sample(stamp(last), 2.0);
        let slot = first.format("%Y-%m-%dT%H").to_string();
        assert!(baseline.has_bucket(&slot));
        let selection = baseline.select(stamp(last));
        assert_eq!(selection.samples, vec![1.0, 2.0]);
        assert_eq!(selection.slot, slot);
    }
}

#[test]
fn window_lengths_must_be_durations() {
    assert!(history_fits(1800));
    assert!(history_fits(9_223_372_036_854_775));
    assert!(!history_fits(9_223_372_036_854_776));
}

#[test]
fn shown_values_have_four_places() {
    let mut baseline = baseline(1800, 300);
    for (second, sample) in [(0, 2.0), (1, 3.0), (2, 3.0)] {
        baseline.add_sample(on_may_2(12, 0, second), sample);
    }
    let stats = recalculate(&mut baseline, on_may_2(12, 0, 3));
    assert_eq!(value(stats.mean.value), 8.0 / 3.0);
    let shown = baseline.snapshot();
    assert_eq!(value(shown.mean), 2.6667);
    assert_eq!(value(shown.stddev), 0.5);
    assert_eq!(value(shown.history[0].effective_mean), 2.6667);
    assert_eq!(value(shown.history[0].effective_stddev), 0.5);

    let mut empty = RollingBaseline::<f64>::new(10, 60, 300, rounded(1.23456), rounded(0.98765));
    assert_eq!(value(empty.snapshot().mean), 1.2346);
    recalculate(&mut empty, on_may_2(12, 0, 0));
    assert_eq!(value(empty.snapshot().history[0].effective_mean), 1.2346);
    assert_eq!(value(empty.snapshot().history[0].effective_stddev), 0.9877);
}

#[test]
fn slots_stand_in_time_order() {
    let mut times: Vec<DateTime<Utc>> = Vec::new();
    for year in [0, 9, 99, 100, 999, 1000, 2026, 9999] {
        for (month, day, hour) in [(1, 1, 0), (1, 1, 9), (1, 1, 10), (9, 30, 23), (10, 1, 0)] {
            times.push(Utc.with_ymd_and_hms(year, month, day, hour, 0, 0).unwrap());
        }
    }
    for pair in times.windows(2) {
        let mut baseline = baseline(usize::MAX >> 12, 300);
        baseline.add_sample(stamp(pair[1]), 2.0);
        baseline.add_sample(stamp(pair[0]), 1.0);
        assert_eq!(baseline.select(stamp(pair[1])).samples, vec![1.0, 2.0]);
    }
}

#[test]
fn the_latest_samples_of_live_hours_are_merged() {
    let mut baseline = baseline(1800, 2000);
    let mut taken: Vec<(i64, f64)> = Vec::new();
    let start = on_may_2(9, 50, 0).seconds;
    for step in 0..90 {
        let seconds = start + 97 * step;
        baseline.add_sample(Timestamp { seconds, nanos: 0 }, step as f64);
        taken.push((seconds, step as f64));
        let cutoff = seconds - 1800;
        let expected: Vec<f64> = taken
            .iter()
            .filter(|(time, _)| cutoff < time - time % 3600 + 3600)
            .map(|(_, sample)| *sample)
            .collect();
        assert_eq!(baseline.select(Timestamp { seconds, nanos: 0 }).samples, expected);
    }
}
