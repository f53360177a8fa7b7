use chrono::{DateTime, Duration, TimeZone, Utc};
use detrudr::bans::{should_retain_strike, BanRecord, StrikeRecord};
use detrudr::baseline::{Moments, Selection};
use detrudr::clock::Timestamp;
use detrudr::config::{
    AppConfig, AuditConfig, BaselineConfig, BlockingConfig, Config, DashboardConfig, LogConfig,
    SlackConfig, ThresholdConfig, WindowConfig,
};
use detrudr::double::{Double, Rounded};
use detrudr::engine::{
    config_supported, DetectionEngine, DueMoments, DueSamples, Observation,
};
use detrudr::events::{Event, Occurrence, RateTexts};
use detrudr::monitor::LogEntry;
use detrudr::notifier::{Delivery, SlackNotifier};
use detrudr::pass::{PassAnswer, PassStep};
use detrudr::state::{GlobalFigures, IpFigures, Ratio};
use detrudr::table::Table;

const CLIENT: &str = "198.51.100.10";

fn double(value: f64) -> Double {
    Double { bits: value.to_bits() }
}

fn rounded(value: f64) -> Rounded {
    Rounded { value: double(value), shown: double((value * 10000.0).round() / 10000.0) }
}

fn value(double: Double) -> f64 {
    f64::from_bits(double.bits)
}

fn stamp(time: DateTime<Utc>) -> Timestamp {
    Timestamp { seconds: time.timestamp(), nanos: time.timestamp_subsec_nanos() }
}

/// Noon of a day, and some seconds.
fn noon(seconds: i64) -> Timestamp {
    stamp(Utc.with_ymd_and_hms(2026, 5, 2, 12, 0, 0).unwrap() + Duration::seconds(seconds))
}

fn config() -> Config {
    Config {
        app: AppConfig { log_level: "info".to_owned() },
        log: LogConfig { path: "/logs/access.log".to_owned() },
        window: WindowConfig { seconds: 60 },
        baseline: BaselineConfig {
            history_seconds: 1800,
            recalc_interval_seconds: 60,
            min_samples_per_hour: 300,
            floor_mean: rounded(1.0),
            floor_stddev: rounded(0.5),
        },
        thresholds: ThresholdConfig {
            zscore: double(3.0),
            rate_multiplier: double(5.0),
            tightening_factor: double(2.0),
            error_multiplier: double(3.0),
            error_floor_mean: rounded(0.125),
            error_floor_stddev: rounded(0.05),
            global_alert_cooldown_seconds: 60,
        },
        blocking: BlockingConfig {
            dry_run: true,
            iptables_chain: "INPUT".to_owned(),
            ban_minutes: vec![10, 30],
            ban_hours_final: 2,
            strike_decay_hours: 24,
        },
        slack: SlackConfig {
            enabled: false,
            webhook_url: String::new(),
            channel: "#alerts".to_owned(),
        },
        dashboard: DashboardConfig {
            host: "0.0.0.0".to_owned(),
            port: 8080,
            trusted_proxies: Vec::new(),
        },
        audit: AuditConfig { path: "/logs/audit.log".to_owned() },
    }
}

fn engine() -> DetectionEngine {
    DetectionEngine::new(config(), noon(0))
}

fn request(ip: &str, time: Timestamp, status: u16) -> LogEntry {
    LogEntry {
        source_ip: ip.to_owned(),
        timestamp: time,
        method: "GET".to_owned(),
        path: "/".to_owned(),
        status,
        response_size: 0,
    }
}

fn global_figures(seen: &Observation) -> GlobalFigures {
    let rate = seen.global_requests as f64 / 60.0;
    let mean = value(seen.global_mean);
    GlobalFigures {
        rate: double(rate),
        deviation: double((rate - mean) / value(seen.global_stddev)),
        rate_limit: double(mean * 5.0),
    }
}

fn ip_figures(seen: &Observation) -> IpFigures {
    let rate = seen.ip_requests as f64 / 60.0;
    let mean = value(seen.ip_mean);
    IpFigures {
        rate: double(rate),
        error_rate: double(
            seen.ip_error_ratio.part as f64 / seen.ip_error_ratio.whole as f64,
        ),
        learned_error_limit: double(value(seen.error_mean) * 3.0),
        floor_error_limit: double(0.125 * 3.0),
        deviation: double((rate - mean) / value(seen.ip_stddev)),
        rate_limit: double(mean * 5.0),
        tight_rate_limit: double(mean * 2.5),
        tight_z_limit: double(1.5),
    }
}

fn quiet() -> IpFigures {
    IpFigures {
        rate: double(1.0),
        error_rate: double(0.0),
        learned_error_limit: double(0.3),
        floor_error_limit: double(0.3),
        deviation: double(0.0),
        rate_limit: double(5.0),
        tight_rate_limit: double(2.5),
        tight_z_limit: double(1.5),
    }
}

fn loud() -> IpFigures {
    IpFigures { rate: double(50.0), ..quiet() }
}

fn take(engine: &mut DetectionEngine, entry: LogEntry) -> Observation {
    match engine.process_entry(entry) {
        PassStep::JudgeAll(seen) => seen,
        _ => panic!("all traffic is to be judged first"),
    }
}

/// Answers a step as a daemon would that can block addresses or not.
fn answer(step: &PassStep, blocks: bool) -> Option<PassAnswer> {
    Some(match step {
        PassStep::JudgeAll(seen) => PassAnswer::All(global_figures(seen)),
        PassStep::JudgeAddress(seen) => PassAnswer::Address(ip_figures(seen)),
        PassStep::Block(_, _, _) => PassAnswer::Blocked(blocks),
        PassStep::Recalculate(samples, _) => PassAnswer::Moments(all_moments(samples)),
        PassStep::Done => return None,
    })
}

fn name(step: &PassStep) -> &'static str {
    match step {
        PassStep::JudgeAll(_) => "all",
        PassStep::JudgeAddress(_) => "address",
        PassStep::Block(_, _, _) => "block",
        PassStep::Recalculate(_, _) => "recalculate",
        PassStep::Done => "done",
    }
}

fn finish(
    engine: &mut DetectionEngine,
    mut step: PassStep,
    blocks: bool,
) -> (Vec<&'static str>, Vec<Event>) {
    let mut names = vec![name(&step)];
    let mut events = Vec::new();
    while let Some(given) = answer(&step, blocks) {
        let (next, event) = engine.advance(step, given);
        events.extend(event);
        names.push(name(&next));
        step = next;
    }
    (names, events)
}

fn ban(engine: &mut DetectionEngine, ip: &str, now: Timestamp) -> BanRecord {
    let ban = engine.detect_ip(ip, now, loud()).unwrap();
    assert!(engine.confirm_ban(ban.clone(), true, loud()).is_some());
    ban
}

fn unban(engine: &mut DetectionEngine, ban: BanRecord) {
    assert!(engine.confirm_unban(ban, true).is_some());
}

fn moments(selection: &Selection<Ratio>) -> Moments {
    let samples: Vec<f64> =
        selection.samples.iter().map(|ratio| ratio.part as f64 / ratio.whole as f64).collect();
    let size = samples.len() as f64;
    let mean = samples.iter().sum::<f64>() / size;
    let variance = samples.iter().map(|sample| (sample - mean).powi(2)).sum::<f64>() / size;
    Moments { mean: rounded(mean), stddev: rounded(variance.sqrt()) }
}

fn all_moments(samples: &DueSamples) -> DueMoments {
    let mut ips: Table<Moments> = Table::new();
    for (ip, selection) in &samples.ips {
        ips.insert(ip.clone(), moments(selection));
    }
    DueMoments { global: moments(&samples.global), error: moments(&samples.error), ips }
}

fn recalculate(engine: &mut DetectionEngine, now: Timestamp) -> Option<Event> {
    let samples = engine.due_samples(now)?;
    engine.maybe_recalculate(now, &all_moments(&samples))
}

#[test]
fn strike_records_decay_after_cutoff_when_not_banned() {
    let cutoff = Utc.with_ymd_and_hms(2026, 5, 2, 12, 0, 0).unwrap();
    let record = StrikeRecord { count: 1, last_seen: stamp(cutoff - Duration::seconds(1)) };
    let banned_ips: Table<BanRecord> = Table::new();

    assert!(!should_retain_strike("198.51.100.10", &record, &banned_ips, stamp(cutoff)));
}

#[test]
fn strike_records_stay_when_recent_or_banned() {
    let cutoff = Utc.with_ymd_and_hms(2026, 5, 2, 12, 0, 0).unwrap();
    let recent = StrikeRecord { count: 1, last_seen: stamp(cutoff) };
    let old = StrikeRecord { count: 1, last_seen: stamp(cutoff - Duration::hours(1)) };
    let mut banned_ips: Table<BanRecord> = Table::new();
    banned_ips.insert(
        "198.51.100.20".to_owned(),
        BanRecord {
            ip: "198.51.100.20".to_owned(),
            strike_count: 1,
            condition: "ip_rate".to_owned(),
            expires_at: Some(stamp(cutoff + Duration::minutes(10))),
            duration_label: "10m".to_owned(),
        },
    );

    assert!(should_retain_strike("198.51.100.10", &recent, &banned_ips, stamp(cutoff)));
    assert!(should_retain_strike("198.51.100.20", &old, &banned_ips, stamp(cutoff)));
}

#[test]
fn a_new_engine_shows_nothing() {
    let mut engine = engine();
    let shown = engine.snapshot(noon(3_661));
    assert_eq!(shown.uptime, "1:01:01");
    assert_eq!(shown.global_requests_last_60s, 0);
    assert_eq!(shown.current_second_requests, 0);
    assert_eq!(shown.global_baseline.hour_slot, "bootstrap");
    assert_eq!(value(shown.global_baseline.mean), 1.0);
    assert_eq!(value(shown.error_baseline.mean), 0.125);
    assert!(shown.top_ips.is_empty());
    assert!(shown.banned_ips.is_empty());
    assert_eq!(value(engine.global_mean()), 1.0);
}

#[test]
fn settings_must_be_durations() {
    assert!(config_supported(&config()));
    let mut long = config();
    long.window.seconds = i64::MAX;
    assert!(!config_supported(&long));
    let mut long = config();
    long.blocking.ban_minutes = vec![i64::MAX];
    assert!(!config_supported(&long));
    let mut long = config();
    long.blocking.ban_hours_final = i64::MIN;
    assert!(!config_supported(&long));
    let mut long = config();
    long.blocking.strike_decay_hours = i64::MAX;
    assert!(!config_supported(&long));
}

#[test]
fn requests_are_counted() {
    let mut engine = engine();
    assert!(engine.has_room(CLIENT));
    take(&mut engine, request(CLIENT, noon(0), 200));
    take(&mut engine, request("192.0.2.1", noon(0), 399));
    take(&mut engine, request(CLIENT, noon(0), 400));
    take(&mut engine, request(CLIENT, noon(0), 600));
    let seen = take(&mut engine, request(CLIENT, noon(0), 599));
    assert_eq!(seen.ip, CLIENT);
    assert_eq!(seen.now, noon(0));
    assert_eq!(seen.global_requests, 5);
    assert_eq!(seen.ip_requests, 4);
    assert_eq!(seen.ip_error_ratio, Ratio { part: 2, whole: 4 });
    assert_eq!(value(seen.ip_mean), 1.0);
    assert_eq!(value(seen.ip_stddev), 0.5);
    assert_eq!(value(seen.error_mean), 0.125);
    assert_eq!(engine.snapshot(noon(0)).current_second_requests, 5);
}

#[test]
fn the_window_slides() {
    let mut engine = engine();
    take(&mut engine, request(CLIENT, noon(0), 500));
    take(&mut engine, request(CLIENT, noon(30), 200));
    let seen = take(&mut engine, request(CLIENT, noon(60), 200));
    assert_eq!(seen.ip_error_ratio, Ratio { part: 1, whole: 3 });
    let seen = take(&mut engine, request(CLIENT, noon(61), 200));
    assert_eq!(seen.ip_error_ratio, Ratio { part: 0, whole: 3 });
    assert_eq!(engine.snapshot(noon(91)).global_requests_last_60s, 2);
    assert_eq!(engine.snapshot(noon(91)).global_requests_last_60s, 2);
}

#[test]
fn idle_addresses_are_forgotten_unless_banned() {
    let mut engine = engine();
    take(&mut engine, request(CLIENT, noon(0), 200));
    take(&mut engine, request("192.0.2.1", noon(0), 200));
    let record = ban(&mut engine, CLIENT, noon(0));
    let shown = engine.snapshot(noon(100));
    let rows: Vec<_> = shown.top_ips.iter().map(|row| (row.ip.as_str(), row.requests)).collect();
    assert_eq!(rows, vec![(CLIENT, 0)]);
    unban(&mut engine, record);
    assert!(engine.snapshot(noon(100)).top_ips.is_empty());
}

#[test]
fn busy_addresses_come_first() {
    let mut engine = engine();
    for last in 1..=11 {
        take(&mut engine, request(&format!("192.0.2.{last}"), noon(0), 200));
    }
    take(&mut engine, request("192.0.2.9", noon(0), 200));
    take(&mut engine, request("192.0.2.7", noon(0), 200));
    take(&mut engine, request("192.0.2.7", noon(0), 200));
    let shown = engine.snapshot(noon(0));
    let rows: Vec<_> = shown.top_ips.iter().map(|row| (row.ip.as_str(), row.requests)).collect();
    assert_eq!(
        rows,
        vec![
            ("192.0.2.7", 3),
            ("192.0.2.9", 2),
            ("192.0.2.1", 1),
            ("192.0.2.10", 1),
            ("192.0.2.11", 1),
            ("192.0.2.2", 1),
            ("192.0.2.3", 1),
            ("192.0.2.4", 1),
            ("192.0.2.5", 1),
            ("192.0.2.6", 1),
        ]
    );
}

#[test]
fn seconds_are_sampled() {
    let mut engine = engine();
    for _ in 0..4 {
        take(&mut engine, request(CLIENT, noon(0), 200));
    }
    take(&mut engine, request(CLIENT, noon(1), 500));
    take(&mut engine, request(CLIENT, noon(1), 200));
    let _ = engine.tick(noon(4));
    let samples = engine.due_samples(noon(4)).unwrap();
    let global: Vec<_> = samples.global.samples.iter().map(|r| (r.part, r.whole)).collect();
    assert_eq!(global, vec![(4, 1), (2, 1), (0, 1), (0, 1)]);
    let error: Vec<_> = samples.error.samples.iter().map(|r| (r.part, r.whole)).collect();
    assert_eq!(error, vec![(0, 4), (1, 2), (0, 1), (0, 1)]);
    assert_eq!(samples.global.slot, "rolling");
    assert_eq!(samples.ips.len(), 1);
    assert_eq!(samples.ips[0].0, CLIENT);
    let client: Vec<_> = samples.ips[0].1.samples.iter().map(|r| (r.part, r.whole)).collect();
    assert_eq!(client, vec![(4, 1), (2, 1), (0, 1), (0, 1)]);
}

#[test]
fn sampling_in_steps_is_sampling_at_once() {
    let mut steps = engine();
    let mut once = engine();
    for engine in [&mut steps, &mut once] {
        take(engine, request(CLIENT, noon(0), 200));
    }
    for second in 1..=20 {
        let _ = steps.tick(noon(second));
    }
    let _ = once.tick(noon(20));
    let left = steps.due_samples(noon(20)).unwrap();
    let right = once.due_samples(noon(20)).unwrap();
    assert_eq!(left.global.samples, right.global.samples);
    assert_eq!(left.error.samples, right.error.samples);
    assert_eq!(left.global.samples.len(), 20);
}

#[test]
fn baselines_are_recalculated_by_the_interval() {
    let mut engine = engine();
    for _ in 0..9 {
        take(&mut engine, request(CLIENT, noon(0), 500));
    }
    take(&mut engine, request("192.0.2.1", noon(2), 200));
    let _ = engine.tick(noon(3));
    let event = recalculate(&mut engine, noon(3)).unwrap();
    assert!(matches!(&event.what, Occurrence::Recalculated(slot) if slot == "rolling"));
    assert_eq!(value(event.rate), 10.0 / 3.0);
    assert_eq!(value(event.baseline), 10.0 / 3.0);
    let shown = engine.snapshot(noon(3)).global_baseline;
    assert_eq!(shown.sample_size, 3);
    assert_eq!(value(shown.mean), 3.3333);
    assert_eq!(value(shown.history[0].effective_mean), 3.3333);
    assert_eq!(value(engine.global_mean()), 10.0 / 3.0);
    assert!(engine.due_samples(noon(62)).is_none());
    assert!(recalculate(&mut engine, noon(63)).is_some());

    let seen = take(&mut engine, request(CLIENT, noon(63), 200));
    assert_eq!(value(seen.ip_mean), 3.0);
    assert_eq!(value(seen.error_mean), 1.0 / 3.0);
    let shown = engine.snapshot(noon(63));
    assert_eq!(shown.global_baseline.history.len(), 2);
    assert_eq!(shown.global_baseline.history[0].timestamp, "2026-05-02T12:00:03+00:00");
}

#[test]
fn baselines_of_idle_addresses_are_dropped() {
    let mut engine = engine();
    take(&mut engine, request(CLIENT, noon(0), 200));
    let _ = engine.tick(noon(1));
    assert_eq!(engine.due_samples(noon(1)).unwrap().ips.len(), 1);
    let _ = engine.tick(noon(61));
    recalculate(&mut engine, noon(61));
    assert_eq!(engine.due_samples(noon(121)).unwrap().ips.len(), 0);
}

#[test]
fn a_rate_above_five_times_the_mean_is_banned() {
    let mut engine = engine();
    let mut seen = take(&mut engine, request(CLIENT, noon(0), 200));
    for _ in 1..150 {
        seen = take(&mut engine, request(CLIENT, noon(0), 200));
    }
    assert_eq!(seen.ip_requests, 150);
    assert!(engine.detect_ip(CLIENT, noon(0), ip_figures(&seen)).is_none());
    let seen = take(&mut engine, request(CLIENT, noon(0), 200));
    let figures = ip_figures(&seen);
    assert!(engine.would_ban(CLIENT, figures));
    assert!(engine.can_ban(CLIENT, noon(0)));
    let ban = engine.detect_ip(CLIENT, noon(0), figures).unwrap();
    assert_eq!(ban.condition, "ip_rate");
}

#[test]
fn the_score_counts_where_there_is_deviation() {
    let mut settings = config();
    settings.baseline.floor_stddev = rounded(0.0);
    let mut engine = DetectionEngine::new(settings, noon(0));
    let far = IpFigures { deviation: double(3.5), ..quiet() };
    assert!(engine.detect_ip(CLIENT, noon(0), far).is_none());
    let mut engine = self::engine();
    let near = IpFigures { deviation: double(3.0), ..quiet() };
    assert!(engine.detect_ip(CLIENT, noon(0), near).is_none());
    assert!(engine.detect_ip(CLIENT, noon(0), far).is_some());
}

#[test]
fn errors_tighten_the_limits() {
    let mut engine = engine();
    let at_limit = IpFigures { rate: double(3.0), error_rate: double(0.3), ..quiet() };
    assert!(engine.detect_ip(CLIENT, noon(0), at_limit).is_none());
    let above = IpFigures { error_rate: double(0.31), ..at_limit };
    let ban = engine.detect_ip(CLIENT, noon(0), above).unwrap();
    assert_eq!(ban.condition, "ip_rate_tight");
    let learned = IpFigures { learned_error_limit: double(0.4), ..above };
    assert!(engine.detect_ip(CLIENT, noon(0), learned).is_none());
    let floored = IpFigures { floor_error_limit: double(0.4), ..above };
    assert!(engine.detect_ip(CLIENT, noon(0), floored).is_none());
    let scored = IpFigures { rate: double(1.0), deviation: double(2.0), ..above };
    assert!(engine.detect_ip(CLIENT, noon(0), scored).is_some());
}

#[test]
fn bans_escalate() {
    let mut engine = engine();
    let mut labels = Vec::new();
    let mut ends = Vec::new();
    for strike in 1..=5 {
        let ban = ban(&mut engine, CLIENT, noon(0));
        assert_eq!(ban.strike_count, strike);
        assert_eq!(ban.ip, CLIENT);
        labels.push(ban.duration_label.clone());
        ends.push(ban.expires_at);
        unban(&mut engine, ban);
    }
    assert_eq!(labels, vec!["10m", "30m", "2h", "permanent", "permanent"]);
    assert_eq!(
        ends,
        vec![Some(noon(600)), Some(noon(1_800)), Some(noon(7_200)), None, None]
    );
}

#[test]
fn a_banned_address_is_left_alone() {
    let mut engine = engine();
    let record = ban(&mut engine, CLIENT, noon(0));
    assert!(!engine.would_ban(CLIENT, loud()));
    assert!(engine.detect_ip(CLIENT, noon(0), loud()).is_none());
    assert!(engine.would_ban("192.0.2.1", loud()));
    unban(&mut engine, record);
    assert_eq!(ban(&mut engine, CLIENT, noon(0)).strike_count, 2);
}

#[test]
fn a_failed_block_still_counts_a_strike() {
    let mut engine = engine();
    let record = engine.detect_ip(CLIENT, noon(0), loud()).unwrap();
    assert_eq!(record.strike_count, 1);
    assert!(engine.confirm_ban(record, false, loud()).is_none());
    assert!(engine.snapshot(noon(0)).banned_ips.is_empty());
    assert_eq!(engine.detect_ip(CLIENT, noon(1), loud()).unwrap().strike_count, 2);
}

#[test]
fn strikes_of_addresses_are_separate() {
    let mut engine = engine();
    ban(&mut engine, CLIENT, noon(0));
    assert_eq!(ban(&mut engine, "192.0.2.1", noon(0)).strike_count, 1);
}

#[test]
fn exactly_the_expired_bans_end() {
    let mut engine = engine();
    ban(&mut engine, CLIENT, noon(0));
    ban(&mut engine, "192.0.2.1", noon(5));
    assert!(engine.run_unban_checks(noon(599)).is_empty());
    let over: Vec<_> = engine.run_unban_checks(noon(600)).into_iter().map(|ban| ban.ip).collect();
    assert_eq!(over, vec![CLIENT]);
    let over: Vec<_> = engine.run_unban_checks(noon(605)).into_iter().map(|ban| ban.ip).collect();
    assert_eq!(over, vec!["192.0.2.1", CLIENT]);
}

#[test]
fn a_permanent_ban_stays() {
    let mut settings = config();
    settings.blocking.ban_minutes = Vec::new();
    let mut engine = DetectionEngine::new(settings, noon(0));
    let record = ban(&mut engine, CLIENT, noon(0));
    assert_eq!(record.duration_label, "2h");
    unban(&mut engine, record);
    assert_eq!(ban(&mut engine, CLIENT, noon(0)).expires_at, None);
    assert!(engine.run_unban_checks(noon(1_000_000_000)).is_empty());
    let shown = engine.snapshot(noon(0));
    assert_eq!(shown.banned_ips.len(), 1);
    assert_eq!(shown.banned_ips[0].until, "permanent");
    assert_eq!(shown.banned_ips[0].strikes, 2);
}

#[test]
fn bans_are_shown_with_their_end() {
    let mut engine = engine();
    ban(&mut engine, CLIENT, noon(0));
    let shown = engine.snapshot(noon(0));
    assert_eq!(shown.banned_ips[0].ip, CLIENT);
    assert_eq!(shown.banned_ips[0].until, "2026-05-02T12:10:00+00:00");
    assert_eq!(shown.banned_ips[0].strikes, 1);
}

#[test]
fn strikes_decay_after_the_ban() {
    let day = 24 * 3_600;
    let mut engine = engine();
    let record = ban(&mut engine, CLIENT, noon(0));
    let _ = engine.tick(noon(day + 100));
    unban(&mut engine, record);
    let record = ban(&mut engine, CLIENT, noon(day + 100));
    assert_eq!(record.strike_count, 2);
    unban(&mut engine, record);
    let _ = engine.tick(noon(2 * day + 100));
    let record = ban(&mut engine, CLIENT, noon(2 * day + 100));
    assert_eq!(record.strike_count, 3);
    unban(&mut engine, record);
    let _ = engine.tick(noon(3 * day + 101));
    assert_eq!(ban(&mut engine, CLIENT, noon(3 * day + 101)).strike_count, 1);
}

#[test]
fn strikes_stay_where_they_do_not_decay() {
    let mut settings = config();
    settings.blocking.strike_decay_hours = 0;
    let mut engine = DetectionEngine::new(settings, noon(0));
    let record = ban(&mut engine, CLIENT, noon(0));
    unban(&mut engine, record);
    let _ = engine.tick(noon(365 * 24 * 3_600));
    assert_eq!(ban(&mut engine, CLIENT, noon(365 * 24 * 3_600)).strike_count, 2);
}

#[test]
fn global_alerts_keep_their_distance() {
    let mut engine = engine();
    let mut seen = take(&mut engine, request(CLIENT, noon(0), 200));
    assert!(engine.detect_global(noon(0), global_figures(&seen)).is_none());
    for _ in 0..400 {
        seen = take(&mut engine, request(CLIENT, noon(0), 200));
    }
    let figures = global_figures(&seen);
    assert!(engine.detect_global(noon(0), figures).is_some());
    assert!(engine.detect_global(noon(59), figures).is_none());
    assert!(engine.detect_global(noon(60), figures).is_some());
    assert!(engine.detect_global(noon(61), figures).is_none());
}

#[test]
fn global_limits_must_be_exceeded() {
    let mut engine = engine();
    let at_limits =
        GlobalFigures { rate: double(5.0), deviation: double(3.0), rate_limit: double(5.0) };
    assert!(engine.detect_global(noon(0), at_limits).is_none());
    assert!(engine.detect_global(
        noon(0),
        GlobalFigures { rate: double(f64::NAN), deviation: double(f64::NAN), ..at_limits }
    ).is_none());
    assert!(engine.detect_global(noon(0), GlobalFigures { deviation: double(3.01), ..at_limits }).is_some());
}

#[test]
fn the_engine_hands_out_its_parts() {
    let engine = engine();
    assert!(matches!(
        engine.blocker().block(CLIENT),
        detrudr::blocker::Invocation::DryRun(args) if args[1] == "INPUT"
    ));
    assert!(!engine.notifier().enabled);
    assert_eq!(engine.notifier().channel, "#alerts");
}

fn texts() -> RateTexts {
    RateTexts {
        rate: "50.0".to_owned(),
        baseline: "1.0".to_owned(),
        multiple: "50.0".to_owned(),
    }
}

fn announcement(event: &Event) -> Option<(String, usize)> {
    let notifier =
        SlackNotifier::new(true, "https://hooks.example/a".to_owned(), "#alerts".to_owned());
    event.announce(&notifier, noon(0), texts()).map(|delivery| match delivery {
        Delivery::Post(message) => (message.text, message.blocks.len()),
        _ => panic!("not sent"),
    })
}

#[test]
fn bans_are_reported() {
    let mut engine = engine();
    let record = engine.detect_ip(CLIENT, noon(0), loud()).unwrap();
    let event = engine.confirm_ban(record.clone(), true, loud()).unwrap();
    assert_eq!(value(event.rate), 50.0);
    assert_eq!(value(event.baseline), 1.0);
    assert_eq!(
        event.audit_line(noon(1), "50.00".to_owned(), "1.00".to_owned()),
        "[2026-05-02T12:00:01+00:00] BAN 198.51.100.10 | ip_rate | 50.00 | 1.00 | 10m\n"
    );
    assert_eq!(announcement(&event), Some(("IP banned: 198.51.100.10".to_owned(), 5)));

    assert!(engine.confirm_unban(record.clone(), false).is_none());
    assert_eq!(engine.snapshot(noon(0)).banned_ips.len(), 1);
    let event = engine.confirm_unban(record, true).unwrap();
    assert_eq!(value(event.rate), 0.0);
    assert_eq!(value(event.baseline), 1.0);
    assert_eq!(
        event.audit_line(noon(1), "0.00".to_owned(), "1.00".to_owned()),
        "[2026-05-02T12:00:01+00:00] UNBAN 198.51.100.10 | ip_rate | 0.00 | 1.00 | 10m\n"
    );
    assert_eq!(announcement(&event), Some(("IP unbanned: 198.51.100.10".to_owned(), 4)));
}

#[test]
fn alerts_and_recalculations_are_reported() {
    let mut engine = engine();
    let figures =
        GlobalFigures { rate: double(50.0), deviation: double(98.0), rate_limit: double(5.0) };
    let event = engine.detect_global(noon(0), figures).unwrap();
    assert!(matches!(event.what, Occurrence::GlobalAlert));
    assert_eq!((value(event.rate), value(event.baseline)), (50.0, 1.0));
    assert_eq!(
        event.audit_line(noon(1), "50.00".to_owned(), "1.00".to_owned()),
        "[2026-05-02T12:00:01+00:00] GLOBAL_ALERT global | global_rate | 50.00 | 1.00 | -\n"
    );
    assert_eq!(announcement(&event), Some(("Global traffic anomaly detected".to_owned(), 5)));

    let event = recalculate(&mut engine, noon(0)).unwrap();
    assert_eq!(
        event.audit_line(noon(1), "1.00".to_owned(), "1.00".to_owned()),
        "[2026-05-02T12:00:01+00:00] BASELINE global | recalculated | 1.00 | 1.00 | rolling\n"
    );
    assert_eq!(announcement(&event), None);
}

#[test]
fn late_entries_are_counted_in_the_window() {
    let mut engine = engine();
    take(&mut engine, request(CLIENT, noon(10), 200));
    let seen = take(&mut engine, request(CLIENT, noon(5), 200));
    assert_eq!(seen.ip_requests, 2);
    let seen = take(&mut engine, request(CLIENT, noon(66), 200));
    assert_eq!(seen.ip_requests, 3);
    let seen = take(&mut engine, request(CLIENT, noon(71), 200));
    assert_eq!(seen.ip_requests, 2);
}

#[test]
fn an_address_without_requests_has_no_errors() {
    let mut settings = config();
    settings.window.seconds = -1;
    let mut engine = DetectionEngine::new(settings, noon(0));
    let seen = take(&mut engine, request(CLIENT, noon(0), 500));
    assert_eq!(seen.ip_requests, 0);
    assert_eq!(seen.ip_error_ratio, Ratio { part: 0, whole: 1 });
}

#[test]
fn windows_of_addresses_add_up() {
    let mut engine = engine();
    for second in 0..90 {
        let ip = format!("192.0.2.{}", second % 3);
        let status = if second % 2 == 0 { 200 } else { 404 };
        let seen = take(&mut engine, request(&ip, noon(second), status));
        let since = (second - 60).max(0);
        let expected = (since..=second).count();
        assert_eq!(seen.global_requests, expected);
        let own = (since..=second).filter(|other| other % 3 == second % 3);
        assert_eq!(seen.ip_requests, own.clone().count());
        assert_eq!(seen.ip_error_ratio.part, own.filter(|other| other % 2 == 1).count());
        let shown = engine.snapshot(noon(second));
        let total: usize = shown.top_ips.iter().map(|row| row.requests).sum();
        assert_eq!(total, expected);
    }
}

fn flood(engine: &mut DetectionEngine, entries: usize) {
    for _ in 0..entries {
        take(engine, request(CLIENT, noon(0), 200));
    }
}

#[test]
fn a_quiet_entry_is_judged_and_leads_to_a_recalculation() {
    let mut engine = engine();
    let step = engine.process_entry(request(CLIENT, noon(0), 200));
    let (names, events) = finish(&mut engine, step, true);
    assert_eq!(names, vec!["all", "address", "recalculate", "done"]);
    assert_eq!(events.len(), 1);
    assert!(matches!(events[0].what, Occurrence::Recalculated(_)));

    let step = engine.process_entry(request(CLIENT, noon(1), 200));
    let (names, events) = finish(&mut engine, step, true);
    assert_eq!(names, vec!["all", "address", "done"]);
    assert!(events.is_empty());
}

#[test]
fn a_flood_is_reported_in_order() {
    let mut engine = engine();
    flood(&mut engine, 400);
    let step = engine.process_entry(request(CLIENT, noon(0), 200));
    let (names, events) = finish(&mut engine, step, true);
    assert_eq!(names, vec!["all", "address", "block", "recalculate", "done"]);
    assert_eq!(events.len(), 3);
    assert!(matches!(events[0].what, Occurrence::GlobalAlert));
    assert!(matches!(&events[1].what, Occurrence::Ban(ban) if ban.ip == CLIENT));
    assert!(matches!(events[2].what, Occurrence::Recalculated(_)));
    assert_eq!(value(events[1].rate), 401.0 / 60.0);
    assert_eq!(engine.snapshot(noon(0)).banned_ips.len(), 1);

    let step = engine.process_entry(request(CLIENT, noon(0), 200));
    let (names, events) = finish(&mut engine, step, true);
    assert_eq!(names, vec!["all", "address", "done"]);
    assert!(events.is_empty());
}

#[test]
fn a_failed_block_does_not_end_the_pass() {
    let mut engine = engine();
    flood(&mut engine, 400);
    let step = engine.process_entry(request(CLIENT, noon(0), 200));
    let (names, events) = finish(&mut engine, step, false);
    assert_eq!(names, vec!["all", "address", "block", "recalculate", "done"]);
    assert_eq!(events.len(), 2);
    assert!(engine.snapshot(noon(0)).banned_ips.is_empty());
}

#[test]
fn a_tick_ends_with_a_recalculation() {
    let mut engine = engine();
    let step = engine.tick(noon(0));
    let (names, events) = finish(&mut engine, step, true);
    assert_eq!(names, vec!["recalculate", "done"]);
    assert_eq!(events.len(), 1);
    assert_eq!(engine.snapshot(noon(0)).global_baseline.history.len(), 1);
    let step = engine.tick(noon(59));
    assert_eq!(finish(&mut engine, step, true).0, vec!["done"]);
    let step = engine.tick(noon(60));
    assert_eq!(finish(&mut engine, step, true).0, vec!["recalculate", "done"]);
}

#[test]
fn bans_that_could_not_be_ended_stay() {
    let mut engine = engine();
    ban(&mut engine, CLIENT, noon(0));
    ban(&mut engine, "192.0.2.1", noon(0));
    for record in engine.run_unban_checks(noon(600)) {
        let unblocked = record.ip == CLIENT;
        engine.confirm_unban(record, unblocked);
    }
    let over: Vec<_> = engine.run_unban_checks(noon(600)).into_iter().map(|ban| ban.ip).collect();
    assert_eq!(over, vec!["192.0.2.1"]);
}
