//! The detection engine.

use crate::bans::{
    format_ban_duration, should_retain_strike, strike_stays, BanRecord, BanView, StrikeRecord,
};
use crate::baseline::{
    history_fits, slot_of, span_fits, BaselineSnapshot, BaselineView, Moments, RollingBaseline,
    Selection,
};
use crate::blocker::IptablesBlocker;
use crate::clock::{names_hour, rfc3339_text, to_rfc3339, Timestamp, MAX_SECONDS, MAX_SPAN};
use crate::config::{BaselineConfig, Config};
use crate::double::{Double, Rounded};
use crate::events::{Event, EventView, Occurrence, OccurrenceView};
use crate::monitor::LogEntry;
use crate::notifier::SlackNotifier;
use crate::pass::{last_need, PassStep, PassView};
use crate::report::{clock_text, format_duration};
use crate::state::{
    config_fits, lemma_flushed_frame, lemma_rank, schedule, z_score, EngineView, GlobalFigures,
    IpFigures, MomentsView, Ratio, TrafficView,
};
use crate::table::{in_order, lists, marked, Table};
use crate::text::precedes;
use crate::window::{count_in, count_second, pop_older_than, popped};
use std::collections::VecDeque;
use vstd::prelude::*;
use vstd::string::*;

verus! {

/// The traffic of an address within the window, and the number of its requests since it was
/// last forgotten.
pub struct IpTraffic {
    pub requests: VecDeque<Timestamp>,
    pub errors: VecDeque<Timestamp>,
    pub total: usize,
}

impl View for IpTraffic {
    type V = TrafficView;

    open spec fn view(&self) -> TrafficView {
        TrafficView {
            requests: self.requests@,
            errors: self.errors@,
            total: self.total as nat,
        }
    }
}

/// What is to be compared after a log entry was taken in: counts of the window, and the
/// statistics of the baselines.
#[derive(Debug)]
pub struct Observation {
    pub ip: String,
    pub now: Timestamp,
    pub global_requests: usize,
    pub global_mean: Double,
    pub global_stddev: Double,
    pub ip_requests: usize,
    pub ip_error_ratio: Ratio,
    pub ip_mean: Double,
    pub ip_stddev: Double,
    pub error_mean: Double,
}

impl Observation {
    /// Whether the observation is what a state shows of an address.
    pub open spec fn shows(self, state: EngineView, ip: Seq<char>, now: Timestamp) -> bool {
        &&& self.ip@ == ip
        &&& self.now == now
        &&& self.global_requests == state.global_requests.len()
        &&& self.global_mean == state.global_baseline.current.mean.value
        &&& self.global_stddev == state.global_baseline.current.stddev.value
        &&& self.ip_requests == state.traffic_of(ip).requests.len()
        &&& self.ip_error_ratio == state.traffic_of(ip).error_ratio()
        &&& self.ip_mean == state.baseline_of(ip).current.mean.value
        &&& self.ip_stddev == state.baseline_of(ip).current.stddev.value
        &&& self.error_mean == state.error_baseline.current.mean.value
    }
}

/// The samples of a recalculation, those of addresses in the order of the addresses.
pub struct DueSamples {
    pub global: Selection<Ratio>,
    pub error: Selection<Ratio>,
    pub ips: Vec<(String, Selection<Ratio>)>,
}

impl DueSamples {
    /// Whether the samples are those from which a state is recalculated at `now`.
    pub open spec fn are_of(self, state: EngineView, now: Timestamp) -> bool {
        let ips = in_order(state.ip_baselines.dom());
        &&& names_hour(slot_of(now), now.seconds)
        &&& self.global.samples@ == state.global_baseline.selected(now)
        &&& self.global.slot@ == state.global_baseline.slot_used(now)
        &&& self.error.samples@ == state.error_baseline.selected(now)
        &&& self.error.slot@ == state.error_baseline.slot_used(now)
        &&& self.ips@.len() == ips.len()
        &&& forall|i: int|
            0 <= i < ips.len() ==> {
                &&& (#[trigger] self.ips@[i]).0@ == ips[i]
                &&& self.ips@[i].1.samples@ == state.ip_baselines[ips[i]].selected(now)
                &&& self.ips@[i].1.slot@ == state.ip_baselines[ips[i]].slot_used(now)
            }
    }
}

/// Mean and standard deviation of the samples of a recalculation.
pub struct DueMoments {
    pub global: Moments,
    pub error: Moments,
    pub ips: Table<Moments>,
}

impl View for DueMoments {
    type V = MomentsView;

    open spec fn view(&self) -> MomentsView {
        MomentsView { global: self.global, error: self.error, ips: self.ips@ }
    }
}

/// A ban, as it is shown.
#[derive(Debug)]
pub struct BannedIpSnapshot {
    pub ip: String,
    pub until: String,
    pub strikes: usize,
}

/// The end of a ban, as it is shown.
pub open spec fn until_text(end: Option<Timestamp>) -> Seq<char> {
    match end {
        Some(end) => rfc3339_text(end.seconds, end.nanos),
        None => "permanent"@,
    }
}

/// An address and its requests within the window, as they are shown.
#[derive(Debug)]
pub struct TopIpSnapshot {
    pub ip: String,
    pub requests: usize,
}

/// The addresses of some rows.
pub open spec fn row_ips(rows: Seq<TopIpSnapshot>) -> Seq<Seq<char>> {
    Seq::new(rows.len(), |i: int| rows[i].ip@)
}

/// How many addresses are shown.
pub const TOP_LIMIT: usize = 10;

/// What is shown of the engine.
pub struct EngineSnapshot {
    pub uptime: String,
    pub global_requests_last_60s: usize,
    pub current_second_requests: usize,
    pub global_baseline: BaselineSnapshot,
    pub error_baseline: BaselineSnapshot,
    pub top_ips: Vec<TopIpSnapshot>,
    pub banned_ips: Vec<BannedIpSnapshot>,
}

impl EngineSnapshot {
    /// Whether the snapshot shows a state at `now`. Bans stand in the order of their addresses.
    pub open spec fn shows(self, state: EngineView, now: Timestamp) -> bool {
        let banned = in_order(state.bans.dom());
        &&& self.uptime@ == clock_text(now.seconds_after(state.started_at))
        &&& self.global_requests_last_60s == state.global_requests.len()
        &&& self.current_second_requests == state.second_requests
        &&& self.global_baseline.shows(state.global_baseline)
        &&& self.error_baseline.shows(state.error_baseline)
        &&& state.are_top(row_ips(self.top_ips@), TOP_LIMIT as nat)
        &&& forall|i: int|
            0 <= i < self.top_ips@.len() ==> (#[trigger] self.top_ips@[i]).requests
                == state.traffic[self.top_ips@[i].ip@].requests.len()
        &&& self.banned_ips@.len() == banned.len()
        &&& forall|i: int|
            0 <= i < banned.len() ==> {
                let row = #[trigger] self.banned_ips@[i];
                &&& row.ip@ == banned[i]
                &&& row.until@ == until_text(state.bans[banned[i]].expires_at)
                &&& row.strikes == state.bans[banned[i]].strike_count
            }
    }
}

/// Watches traffic, learns baselines and decides on alerts and bans.
pub struct DetectionEngine {
    config: Config,
    started_at: Timestamp,
    global_baseline: RollingBaseline<Ratio>,
    ip_baselines: Table<RollingBaseline<Ratio>>,
    error_baseline: RollingBaseline<Ratio>,
    global_requests: VecDeque<Timestamp>,
    global_errors: VecDeque<Timestamp>,
    traffic: Table<IpTraffic>,
    current_second_requests: usize,
    current_second_errors: usize,
    last_flushed_second: Option<Timestamp>,
    blocker: IptablesBlocker,
    notifier: SlackNotifier,
    ban_durations: Vec<i64>,
    banned_ips: Table<BanRecord>,
    strike_counts: Table<StrikeRecord>,
    last_global_alert_at: Option<Timestamp>,
}

impl View for DetectionEngine {
    type V = EngineView;

    closed spec fn view(&self) -> EngineView {
        EngineView {
            config: self.config,
            blocker: self.blocker,
            notifier: self.notifier,
            started_at: self.started_at,
            global_baseline: self.global_baseline@,
            error_baseline: self.error_baseline@,
            ip_baselines: self.ip_baselines@,
            global_requests: self.global_requests@,
            global_errors: self.global_errors@,
            traffic: self.traffic@,
            second_requests: self.current_second_requests,
            second_errors: self.current_second_errors,
            last_flushed_second: self.last_flushed_second,
            bans: self.banned_ips@,
            strikes: self.strike_counts@,
            last_global_alert_at: self.last_global_alert_at,
        }
    }
}

/// Whether a baseline is in order and has the window length of the settings.
spec fn fits_baseline(baseline: RollingBaseline<Ratio>, config: Config) -> bool {
    baseline.wf() && baseline@.history_seconds == config.baseline.history_seconds
}

spec fn fit_baselines(baselines: Map<Seq<char>, RollingBaseline<Ratio>>, config: Config) -> bool {
    forall|ip: Seq<char>|
        baselines.dom().contains(ip) ==> fits_baseline(#[trigger] baselines[ip], config)
}

impl DetectionEngine {
    /// The tables are in order, the settings fit, and every date is on the calendar.
    pub closed spec fn wf(self) -> bool {
        &&& config_fits(self.config)
        &&& self.ban_durations@ == schedule(self.config)
        &&& fits_baseline(self.global_baseline, self.config)
        &&& fits_baseline(self.error_baseline, self.config)
        &&& self.ip_baselines.wf()
        &&& fit_baselines(self.ip_baselines.values(), self.config)
        &&& self.traffic.wf()
        &&& self.banned_ips.wf()
        &&& self.strike_counts.wf()
        &&& self.current_second_errors <= self.current_second_requests
        &&& self.started_at.is_valid()
        &&& (self.last_flushed_second matches Some(last) ==> last.is_valid() && last.nanos == 0)
        &&& (self.last_global_alert_at matches Some(last) ==> last.is_valid())
        &&& forall|ip: Seq<char>| #[trigger]
            self.banned_ips@.dom().contains(ip) ==> self.banned_ips@[ip].ip == ip && (
            self.banned_ips@[ip].expires_at matches Some(end) ==> end.is_valid())
    }

    /// The addresses of the engine's tables can be listed in order, each ban is kept under its own
    /// address, and the settings fit.
    pub proof fn lemma_wf(self)
        requires
            self.wf(),
        ensures
            config_fits(self@.config),
            lists(in_order(self@.bans.dom()), self@.bans.dom()),
            lists(in_order(self@.strikes.dom()), self@.strikes.dom()),
            lists(in_order(self@.traffic.dom()), self@.traffic.dom()),
            lists(in_order(self@.ip_baselines.dom()), self@.ip_baselines.dom()),
            forall|ip: Seq<char>| #[trigger]
                self@.bans.dom().contains(ip) ==> self@.bans[ip].ip == ip,
            self@.second_errors <= self@.second_requests,
            self@.last_flushed_second matches Some(last) ==> last.is_valid() && last.nanos == 0,
    {
        self.banned_ips.lemma_keys();
        self.strike_counts.lemma_keys();
        self.traffic.lemma_keys();
        self.ip_baselines.lemma_keys();
    }

    /// An engine that has seen nothing.
    pub fn new(config: Config, started_at: Timestamp) -> (engine: DetectionEngine)
        requires
            config_fits(config),
            started_at.is_valid(),
        ensures
            engine.wf(),
            engine@ == EngineView::initial(
                config,
                engine@.blocker,
                engine@.notifier,
                started_at,
            ),
            engine@.blocker.chain_name() == config.blocking.iptables_chain@,
            engine@.blocker.is_dry_run() == config.blocking.dry_run,
            engine@.notifier.enabled == config.slack.enabled,
            engine@.notifier.webhook_url@ == config.slack.webhook_url@,
            engine@.notifier.channel@ == config.slack.channel@,
    {
        let global_baseline = new_ip_baseline(&config);
        let error_baseline = baseline_from_config(
            &config.baseline,
            config.thresholds.error_floor_mean,
            config.thresholds.error_floor_stddev,
        );
        let blocker = IptablesBlocker::new(
            config.blocking.iptables_chain.clone(),
            config.blocking.dry_run,
        );
        let notifier = SlackNotifier::new(
            config.slack.enabled,
            config.slack.webhook_url.clone(),
            config.slack.channel.clone(),
        );
        let mut ban_durations: Vec<i64> = Vec::new();
        while ban_durations.len() < config.blocking.ban_minutes.len()
            invariant
                config_fits(config),
                ban_durations@.len() <= config.blocking.ban_minutes@.len(),
                forall|i: int|
                    0 <= i < ban_durations@.len() ==> #[trigger] ban_durations@[i] == 60
                        * config.blocking.ban_minutes@[i],
            decreases config.blocking.ban_minutes@.len() - ban_durations@.len(),
        {
            let minutes = config.blocking.ban_minutes[ban_durations.len()];
            ban_durations.push(60 * minutes);
        }
        ban_durations.push(3600 * config.blocking.ban_hours_final);
        assert(ban_durations@ =~= schedule(config));
        let engine = DetectionEngine {
            started_at,
            global_baseline,
            ip_baselines: Table::new(),
            error_baseline,
            global_requests: VecDeque::new(),
            global_errors: VecDeque::new(),
            traffic: Table::new(),
            current_second_requests: 0,
            current_second_errors: 0,
            last_flushed_second: None,
            blocker,
            notifier,
            ban_durations,
            banned_ips: Table::new(),
            strike_counts: Table::new(),
            last_global_alert_at: None,
            config,
        };
        engine
    }

    /// Starts a pass over a log entry: the seconds before it are sampled, it is counted, and what
    /// fell out of the window is forgotten. All traffic is to be judged then;
    /// [`DetectionEngine::advance`] goes on.
    pub fn process_entry(&mut self, entry: LogEntry) -> (step: PassStep)
        requires
            old(self).wf(),
            entry.timestamp.is_valid(),
            old(self)@.has_room(entry.source_ip@),
        ensures
            final(self).wf(),
            final(self)@ == old(self)@.observed(
                entry.source_ip@,
                entry.timestamp,
                entry.status,
            ),
            step@ == PassView::JudgeAll(entry.source_ip@, entry.timestamp),
            step.fits(final(self)@),
    {
        let event_time = entry.timestamp;
        self.flush_until(event_time);
        proof {
            lemma_flushed_frame(old(self)@, event_time);
        }
        self.count(entry.source_ip.as_str(), event_time, entry.status);
        self.evict_old(event_time);
        PassStep::JudgeAll(self.observe(entry.source_ip, event_time))
    }

    /// Counts a request.
    fn count(&mut self, ip_address: &str, time: Timestamp, status: u16)
        requires
            old(self).wf(),
            old(self)@.has_room(ip_address@),
        ensures
            final(self).wf(),
            final(self)@ == old(self)@.counted(ip_address@, time, status),
    {
        let is_error = 400 <= status && status <= 599;
        self.global_requests.push_back(time);
        if !self.traffic.contains_key(ip_address) {
            self.traffic.insert(
                ip_address.to_owned(),
                IpTraffic { requests: VecDeque::new(), errors: VecDeque::new(), total: 0 },
            );
        }
        match self.traffic.get_mut(ip_address) {
            Some(entry) => {
                entry.requests.push_back(time);
                entry.total += 1;
                if is_error {
                    entry.errors.push_back(time);
                }
            },
            None => {},
        }
        assert(self.traffic@ =~= old(self)@.counted(ip_address@, time, status).traffic);
        self.current_second_requests += 1;
        if is_error {
            self.global_errors.push_back(time);
            self.current_second_errors += 1;
        }
    }

    /// What the state shows of an address.
    fn observe(&self, ip: String, now: Timestamp) -> (observation: Observation)
        requires
            self.wf(),
        ensures
            observation.shows(self@, ip@, now),
    {
        let (ip_requests, ip_errors) = match self.traffic.get(ip.as_str()) {
            Some(entry) => (entry.requests.len(), entry.errors.len()),
            None => (0, 0),
        };
        let ip_error_ratio = if ip_requests > 0 {
            Ratio { part: ip_errors, whole: ip_requests }
        } else {
            Ratio { part: 0, whole: 1 }
        };
        proof {
            self.ip_baselines.lemma_keys();
        }
        let (ip_mean, ip_stddev) = match self.ip_baselines.get(ip.as_str()) {
            Some(baseline) => (baseline.mean(), baseline.stddev()),
            None => (
                self.config.baseline.floor_mean.value,
                self.config.baseline.floor_stddev.value,
            ),
        };
        Observation {
            ip,
            now,
            global_requests: self.global_requests.len(),
            global_mean: self.global_baseline.mean(),
            global_stddev: self.global_baseline.stddev(),
            ip_requests,
            ip_error_ratio,
            ip_mean,
            ip_stddev,
            error_mean: self.error_baseline.mean(),
        }
    }

    /// Starts a pass over a tick of the clock: the seconds before it are sampled, and what fell out
    /// of the window and old strikes are forgotten. The baselines are to be recalculated then, if
    /// that is due; [`DetectionEngine::advance`] goes on.
    pub fn tick(&mut self, now: Timestamp) -> (step: PassStep)
        requires
            old(self).wf(),
            now.is_valid(),
        ensures
            final(self).wf(),
            final(self)@ == old(self)@.ticked(now),
            step@ == last_need(final(self)@, now),
            step.fits(final(self)@),
    {
        self.flush_until(now);
        self.evict_old(now);
        self.prune_expired_strikes(now);
        self.finish_pass(now)
    }

    /// Judges the rate of all traffic. An alert is raised where the rate is anomalous and the time
    /// since the last alert allows one.
    pub fn detect_global(&mut self, now: Timestamp, figures: GlobalFigures) -> (alert: Option<Event>)
        requires
            old(self).wf(),
            now.is_valid(),
        ensures
            final(self).wf(),
            final(self)@ == old(self)@.global_judged(now, figures),
            match alert {
                Some(alert) => old(self)@.raises_alert(now, figures) && alert@ == (EventView {
                    what: OccurrenceView::GlobalAlert,
                    rate: figures.rate,
                    baseline: old(self)@.global_baseline.current.mean.value,
                }),
                None => !old(self)@.raises_alert(now, figures),
            },
    {
        if self.is_anomalous(self.global_baseline.stddev(), figures)
            && self.can_emit_global_alert(now) {
            self.last_global_alert_at = Some(now);
            Some(
                Event {
                    what: Occurrence::GlobalAlert,
                    rate: figures.rate,
                    baseline: self.global_baseline.mean(),
                },
            )
        } else {
            None
        }
    }

    /// Judges the traffic of an address. Where it exceeds a limit, the strike is counted and the
    /// ban that it leads to is returned; the ban is in force once it is confirmed.
    pub fn detect_ip(&mut self, ip_address: &str, now: Timestamp, figures: IpFigures) -> (ban:
        Option<BanRecord>)
        requires
            old(self).wf(),
            now.is_valid(),
            old(self)@.raises_ban(ip_address@, figures) ==> old(self)@.can_ban(ip_address@, now),
        ensures
            final(self).wf(),
            final(self)@ == old(self)@.ip_judged(ip_address@, now, figures),
            match ban {
                Some(ban) => {
                    &&& old(self)@.raises_ban(ip_address@, figures)
                    &&& ban@ == old(self)@.next_ban(ip_address@, now, figures.condition())
                    &&& (ban.expires_at matches Some(end) ==> end.is_valid())
                },
                None => !old(self)@.raises_ban(ip_address@, figures),
            },
    {
        if self.banned_ips.contains_key(ip_address) {
            return None;
        }
        proof {
            self.ip_baselines.lemma_keys();
        }
        if !self.ip_baselines.contains_key(ip_address) {
            let baseline = new_ip_baseline(&self.config);
            self.ip_baselines.insert(ip_address.to_owned(), baseline);
        }
        proof {
            self.ip_baselines.lemma_keys();
            assert(self.ip_baselines@ =~= old(self)@.with_baseline(ip_address@).ip_baselines);
        }
        let stddev = match self.ip_baselines.get(ip_address) {
            Some(baseline) => baseline.stddev(),
            None => self.config.baseline.floor_stddev.value,
        };
        let tightened = figures.tightened();
        if exceeds_limits(figures, tightened, stddev, self.config.thresholds.zscore) {
            let condition = if tightened {
                "ip_rate_tight"
            } else {
                "ip_rate"
            };
            Some(self.ban_ip(ip_address, now, condition))
        } else {
            None
        }
    }

    /// Whether the traffic of an address would lead to a ban.
    pub fn would_ban(&self, ip_address: &str, figures: IpFigures) -> (raises: bool)
        requires
            self.wf(),
        ensures
            raises == self@.raises_ban(ip_address@, figures),
    {
        if self.banned_ips.contains_key(ip_address) {
            return false;
        }
        proof {
            self.ip_baselines.lemma_keys();
        }
        let stddev = match self.ip_baselines.get(ip_address) {
            Some(baseline) => baseline.stddev(),
            None => self.config.baseline.floor_stddev.value,
        };
        exceeds_limits(figures, figures.tightened(), stddev, self.config.thresholds.zscore)
    }

    /// Counts a strike of an address, and gives the ban that it leads to.
    fn ban_ip(&mut self, ip_address: &str, now: Timestamp, condition: &str) -> (ban: BanRecord)
        requires
            old(self).wf(),
            now.is_valid(),
            old(self)@.can_ban(ip_address@, now),
        ensures
            final(self).wf(),
            final(self)@ == old(self)@.struck(ip_address@, now),
            ban@ == old(self)@.next_ban(ip_address@, now, condition@),
            ban.expires_at matches Some(end) ==> end.is_valid(),
    {
        let count: usize = match self.strike_counts.get(ip_address) {
            Some(strike) => strike.count,
            None => 0,
        };
        self.strike_counts.insert(
            ip_address.to_owned(),
            StrikeRecord { count: count + 1, last_seen: now },
        );
        let (expires_at, duration_label) = if count < self.ban_durations.len() {
            let duration = self.ban_durations[count];
            (Some(now.shift(duration)), format_ban_duration(duration))
        } else {
            (None, "permanent".to_owned())
        };
        BanRecord {
            ip: ip_address.to_owned(),
            strike_count: count + 1,
            condition: condition.to_owned(),
            expires_at,
            duration_label,
        }
    }

    /// Puts a ban in force if the address could be blocked. The figures are those that led to it.
    pub fn confirm_ban(&mut self, ban: BanRecord, blocked: bool, figures: IpFigures) -> (event:
        Option<Event>)
        requires
            old(self).wf(),
            ban.expires_at matches Some(end) ==> end.is_valid(),
        ensures
            final(self).wf(),
            final(self)@ == if blocked {
                old(self)@.with_ban(ban@)
            } else {
                old(self)@
            },
            match event {
                Some(event) => blocked && event@ == (EventView {
                    what: OccurrenceView::Ban(ban@),
                    rate: figures.rate,
                    baseline: old(self)@.baseline_of(ban.ip@).current.mean.value,
                }),
                None => !blocked,
            },
    {
        if !blocked {
            return None;
        }
        proof {
            self.ip_baselines.lemma_keys();
        }
        let baseline = match self.ip_baselines.get(ban.ip.as_str()) {
            Some(baseline) => baseline.mean(),
            None => self.config.baseline.floor_mean.value,
        };
        self.banned_ips.insert(ban.ip.clone(), ban.clone());
        Some(Event { what: Occurrence::Ban(ban), rate: figures.rate, baseline })
    }

    /// The bans that have expired, in the order of their addresses.
    pub fn run_unban_checks(&self, now: Timestamp) -> (bans: Vec<BanRecord>)
        requires
            self.wf(),
        ensures
            ban_views(bans@) == self@.expired(now),
    {
        proof {
            self.banned_ips.lemma_keys();
        }
        let ghost ips = self.banned_ips.keys();
        let ghost over = |ip: Seq<char>| self@.bans[ip].has_expired(now);
        let ghost ban = |ip: Seq<char>| self@.bans[ip];
        let mut bans: Vec<BanRecord> = Vec::new();
        let mut at: usize = 0;
        assert(ban_views(bans@) =~= ips.take(0).filter(over).map_values(ban));
        while at < self.banned_ips.len()
            invariant
                self.wf(),
                ips == self.banned_ips.keys(),
                over == (|ip: Seq<char>| self@.bans[ip].has_expired(now)),
                ban == (|ip: Seq<char>| self@.bans[ip]),
                at <= ips.len(),
                ban_views(bans@) == ips.take(at as int).filter(over).map_values(ban),
            decreases ips.len() - at,
        {
            let record = self.banned_ips.value_at(at);
            let ghost ip = ips[at as int];
            let expired = match record.expires_at {
                Some(end) => !now.before(end),
                None => false,
            };
            proof {
                assert(ips.take(at + 1) =~= ips.take(at as int).push(ip));
                ips.take(at as int).lemma_filter_push(ip, over);
            }
            if expired {
                let ghost held = bans@;
                bans.push(record.clone());
                proof {
                    let rest = ips.take(at as int).filter(over);
                    assert(rest.push(ip).map_values(ban) =~= rest.map_values(ban).push(ban(ip)));
                    assert(ban_views(bans@) =~= ban_views(held).push(ban(ip)));
                }
            }
            at += 1;
        }
        assert(ips.take(at as int) =~= ips);
        bans
    }

    /// Ends a ban if its address is not blocked any more.
    pub fn confirm_unban(&mut self, ban: BanRecord, unblocked: bool) -> (event: Option<Event>)
        requires
            old(self).wf(),
        ensures
            final(self).wf(),
            final(self)@ == if unblocked {
                old(self)@.without_ban(ban.ip@)
            } else {
                old(self)@
            },
            match event {
                Some(event) => unblocked && event@ == (EventView {
                    what: OccurrenceView::Unban(ban@),
                    rate: Double::spec_zero(),
                    baseline: old(self)@.global_baseline.current.mean.value,
                }),
                None => !unblocked,
            },
    {
        if !unblocked {
            return None;
        }
        self.banned_ips.remove(ban.ip.as_str());
        Some(
            Event {
                what: Occurrence::Unban(ban),
                rate: Double::zero(),
                baseline: self.global_baseline.mean(),
            },
        )
    }

    /// Forgets strikes that have decayed.
    fn prune_expired_strikes(&mut self, now: Timestamp)
        requires
            old(self).wf(),
            now.is_valid(),
        ensures
            final(self).wf(),
            final(self)@ == old(self)@.strikes_pruned(now),
    {
        let decay_hours = self.config.blocking.strike_decay_hours;
        if decay_hours <= 0 {
            return;
        }
        let cutoff = now.shift(-3600 * decay_hours);
        let ghost before = self@;
        let ghost ips = self.strike_counts.keys();
        let mut marks: Vec<bool> = Vec::new();
        proof {
            self.strike_counts.lemma_keys();
        }
        while marks.len() < self.strike_counts.len()
            invariant
                self.strike_counts.wf(),
                self.banned_ips.wf(),
                ips == self.strike_counts.keys(),
                self@ == before,
                marks@.len() <= ips.len(),
                forall|i: int|
                    0 <= i < marks@.len() ==> #[trigger] marks@[i] == strike_stays(
                        ips[i],
                        before.strikes[ips[i]],
                        before.bans.dom(),
                        cutoff,
                    ),
            decreases ips.len() - marks@.len(),
        {
            let at = marks.len();
            let stays = should_retain_strike(
                self.strike_counts.key_at(at).as_str(),
                self.strike_counts.value_at(at),
                &self.banned_ips,
                cutoff,
            );
            marks.push(stays);
        }
        self.strike_counts.retain_marked(&marks);
        proof {
            let after = before.strikes_pruned(now).strikes;
            assert forall|ip: Seq<char>| before.strikes.dom().contains(ip) implies (marked(
                ips,
                marks@,
            ).contains(ip) == after.dom().contains(ip)) by {
                let i = ips.index_of(ip);
                assert(ips.contains(ip));
                assert(ips[i] == ip);
                if after.dom().contains(ip) {
                    assert(marks@[i]);
                }
            }
            assert(self.strike_counts@ =~= after);
        }
    }

    /// The samples from which the baselines are to be recalculated, if a recalculation is due.
    pub fn due_samples(&self, now: Timestamp) -> (samples: Option<DueSamples>)
        requires
            self.wf(),
            now.is_valid(),
        ensures
            match samples {
                Some(samples) => self@.global_baseline.is_due(now) && samples.are_of(self@, now),
                None => !self@.global_baseline.is_due(now),
            },
    {
        if !self.global_baseline.should_recalculate(now) {
            return None;
        }
        proof {
            self.ip_baselines.lemma_keys();
        }
        let ghost ips = self.ip_baselines.keys();
        let mut chosen: Vec<(String, Selection<Ratio>)> = Vec::new();
        while chosen.len() < self.ip_baselines.len()
            invariant
                self.wf(),
                now.is_valid(),
                ips == self.ip_baselines.keys(),
                self.ip_baselines@.dom() == self.ip_baselines.values().dom(),
                forall|i: int|
                    0 <= i < ips.len() ==> self.ip_baselines@.dom().contains(#[trigger] ips[i]),
                chosen@.len() <= ips.len(),
                forall|i: int|
                    0 <= i < chosen@.len() ==> {
                        &&& (#[trigger] chosen@[i]).0@ == ips[i]
                        &&& chosen@[i].1.samples@ == self@.ip_baselines[ips[i]].selected(now)
                        &&& chosen@[i].1.slot@ == self@.ip_baselines[ips[i]].slot_used(now)
                    },
            decreases ips.len() - chosen@.len(),
        {
            let at = chosen.len();
            let selection = self.ip_baselines.value_at(at).select(now);
            chosen.push((self.ip_baselines.key_at(at).clone(), selection));
        }
        Some(
            DueSamples {
                global: self.global_baseline.select(now),
                error: self.error_baseline.select(now),
                ips: chosen,
            },
        )
    }

    /// Recalculates all baselines, if that is due, from the mean and the standard deviation of
    /// the samples that [`DetectionEngine::due_samples`] gives, and drops the baselines of
    /// addresses without requests.
    pub fn maybe_recalculate(&mut self, now: Timestamp, moments: &DueMoments) -> (event: Option<
        Event,
    >)
        requires
            old(self).wf(),
            now.is_valid(),
            moments.ips.wf(),
            old(self)@.global_baseline.is_due(now) ==> old(self)@.active_baselines().subset_of(
                moments.ips@.dom(),
            ),
        ensures
            final(self).wf(),
            final(self)@ == old(self)@.recalculated(now, moments@),
            match event {
                Some(event) => {
                    let stats = final(self)@.global_baseline.current;
                    &&& old(self)@.global_baseline.is_due(now)
                    &&& names_hour(slot_of(now), now.seconds)
                    &&& event@ == (EventView {
                        what: OccurrenceView::Recalculated(stats.hour_slot),
                        rate: stats.mean.value,
                        baseline: stats.mean.value,
                    })
                },
                None => !old(self)@.global_baseline.is_due(now),
            },
    {
        if !self.global_baseline.should_recalculate(now) {
            return None;
        }
        let stats = self.global_baseline.recalculate(now, moments.global);
        self.error_baseline.recalculate(now, moments.error);
        recalculate_ips(&mut self.ip_baselines, &self.traffic, &moments.ips, now, &self.config);
        assert(self@.ip_baselines =~= old(self)@.recalculated(now, moments@).ip_baselines);
        Some(
            Event {
                what: Occurrence::Recalculated(stats.hour_slot),
                rate: stats.mean.value,
                baseline: stats.mean.value,
            },
        )
    }

    /// What is shown of the engine, after what fell out of the window was forgotten.
    pub fn snapshot(&mut self, now: Timestamp) -> (snapshot: EngineSnapshot)
        requires
            old(self).wf(),
            now.is_valid(),
        ensures
            final(self).wf(),
            final(self)@ == old(self)@.evicted(now),
            snapshot.shows(final(self)@, now),
    {
        self.evict_old(now);
        let snapshot = EngineSnapshot {
            uptime: format_duration(now.since(self.started_at)),
            global_requests_last_60s: self.global_requests.len(),
            current_second_requests: self.current_second_requests,
            global_baseline: self.global_baseline.snapshot(),
            error_baseline: self.error_baseline.snapshot(),
            top_ips: self.top_ips(),
            banned_ips: self.banned_rows(),
        };
        snapshot
    }

    /// The rows of the bans.
    fn banned_rows(&self) -> (rows: Vec<BannedIpSnapshot>)
        requires
            self.wf(),
        ensures
            ({
                let banned = in_order(self@.bans.dom());
                &&& rows@.len() == banned.len()
                &&& forall|i: int|
                    0 <= i < banned.len() ==> {
                        let row = #[trigger] rows@[i];
                        &&& row.ip@ == banned[i]
                        &&& row.until@ == until_text(self@.bans[banned[i]].expires_at)
                        &&& row.strikes == self@.bans[banned[i]].strike_count
                    }
            }),
    {
        proof {
            self.banned_ips.lemma_keys();
        }
        let ghost banned = self.banned_ips.keys();
        let mut rows: Vec<BannedIpSnapshot> = Vec::new();
        while rows.len() < self.banned_ips.len()
            invariant
                self.wf(),
                banned == self.banned_ips.keys(),
                forall|i: int|
                    0 <= i < banned.len() ==> self.banned_ips@.dom().contains(
                        #[trigger] banned[i],
                    ),
                rows@.len() <= banned.len(),
                forall|i: int|
                    0 <= i < rows@.len() ==> {
                        let row = #[trigger] rows@[i];
                        &&& row.ip@ == banned[i]
                        &&& row.until@ == until_text(self@.bans[banned[i]].expires_at)
                        &&& row.strikes == self@.bans[banned[i]].strike_count
                    },
            decreases banned.len() - rows@.len(),
        {
            let at = rows.len();
            let record = self.banned_ips.value_at(at);
            assert(self.banned_ips@.dom().contains(banned[at as int]));
            let until = match record.expires_at {
                Some(end) => to_rfc3339(end),
                None => "permanent".to_owned(),
            };
            rows.push(
                BannedIpSnapshot { ip: record.ip.clone(), until, strikes: record.strike_count },
            );
        }
        rows
    }

    /// The place of the first address, by rank, among those behind the address at `last`.
    fn best_behind(&self, last: Option<usize>) -> (best: Option<usize>)
        requires
            self.wf(),
            last matches Some(last) ==> last < self.traffic.keys().len(),
        ensures
            match best {
                Some(best) => {
                    &&& best < self.traffic.keys().len()
                    &&& self.is_behind(last, best as int)
                    &&& forall|i: int|
                        0 <= i < self.traffic.keys().len() && #[trigger] self.is_behind(last, i)
                            ==> i == best || self@.ranks_before(
                            self.traffic.keys()[best as int],
                            self.traffic.keys()[i],
                        )
                },
                None => forall|i: int|
                    0 <= i < self.traffic.keys().len() ==> !(#[trigger] self.is_behind(last, i)),
            },
    {
        let ghost ips = self.traffic.keys();
        let mut best: Option<usize> = None;
        let mut i: usize = 0;
        while i < self.traffic.len()
            invariant
                self.wf(),
                ips == self.traffic.keys(),
                last matches Some(last) ==> last < ips.len(),
                i <= ips.len(),
                match best {
                    Some(best) => {
                        &&& best < i
                        &&& self.is_behind(last, best as int)
                        &&& forall|j: int|
                            0 <= j < i && #[trigger] self.is_behind(last, j) ==> j == best
                                || self@.ranks_before(ips[best as int], ips[j])
                    },
                    None => forall|j: int|
                        0 <= j < i ==> !(#[trigger] self.is_behind(last, j)),
                },
            decreases ips.len() - i,
        {
            let behind = match last {
                Some(last) => self.outranks(last, i),
                None => true,
            };
            assert(behind == self.is_behind(last, i as int));
            if behind {
                match best {
                    Some(found) => {
                        proof {
                            self.traffic.lemma_keys();
                            lemma_rank(
                                self@,
                                ips[found as int],
                                ips[i as int],
                                ips[found as int],
                            );
                        }
                        if self.outranks(i, found) {
                            proof {
                                assert forall|j: int|
                                    0 <= j < i && #[trigger] self.is_behind(last, j)
                                        implies self@.ranks_before(ips[i as int], ips[j]) by {
                                    lemma_rank(
                                        self@,
                                        ips[i as int],
                                        ips[found as int],
                                        ips[j],
                                    );
                                }
                            }
                            best = Some(i);
                        }
                    },
                    None => {
                        best = Some(i);
                    },
                }
            }
            i += 1;
        }
        best
    }

    /// Whether the address at a place ranks behind that at `last`.
    spec fn is_behind(self, last: Option<usize>, i: int) -> bool {
        match last {
            Some(last) => self@.ranks_before(
                self.traffic.keys()[last as int],
                self.traffic.keys()[i],
            ),
            None => true,
        }
    }

    /// Whether the address at one place ranks before that at another.
    fn outranks(&self, a: usize, b: usize) -> (before: bool)
        requires
            self.wf(),
            a < self.traffic.keys().len(),
            b < self.traffic.keys().len(),
        ensures
            before == self@.ranks_before(
                self.traffic.keys()[a as int],
                self.traffic.keys()[b as int],
            ),
    {
        let left = self.traffic.value_at(a).total;
        let right = self.traffic.value_at(b).total;
        left > right || (left == right && precedes(
            self.traffic.key_at(a).as_str(),
            self.traffic.key_at(b).as_str(),
        ))
    }

    /// The rows of the addresses with the most requests.
    fn top_ips(&self) -> (rows: Vec<TopIpSnapshot>)
        requires
            self.wf(),
        ensures
            self@.are_top(row_ips(rows@), TOP_LIMIT as nat),
            forall|i: int|
                0 <= i < rows@.len() ==> (#[trigger] rows@[i]).requests
                    == self@.traffic[rows@[i].ip@].requests.len(),
    {
        proof {
            self.traffic.lemma_keys();
        }
        let ghost ips = self.traffic.keys();
        let mut rows: Vec<TopIpSnapshot> = Vec::new();
        let mut last: Option<usize> = None;
        while rows.len() < TOP_LIMIT
            invariant
                self.wf(),
                ips == self.traffic.keys(),
                rows@.len() <= TOP_LIMIT,
                forall|i: int|
                    0 <= i < ips.len() ==> self@.traffic.dom().contains(#[trigger] ips[i]),
                forall|ip: Seq<char>| #[trigger]
                    self@.traffic.dom().contains(ip) <==> ips.contains(ip),
                last is None == (rows@.len() == 0),
                last matches Some(last) ==> last < ips.len() && row_ips(rows@).last()
                    == ips[last as int],
                forall|i: int|
                    0 <= i < rows@.len() ==> self@.traffic.dom().contains(
                        #[trigger] row_ips(rows@)[i],
                    ),
                forall|i: int, j: int|
                    0 <= i < j < rows@.len() ==> self@.ranks_before(
                        #[trigger] row_ips(rows@)[i],
                        #[trigger] row_ips(rows@)[j],
                    ),
                forall|ip: Seq<char>|
                    self@.traffic.dom().contains(ip) && !(#[trigger] row_ips(rows@).contains(ip))
                        ==> forall|i: int|
                        0 <= i < rows@.len() ==> self@.ranks_before(
                            #[trigger] row_ips(rows@)[i],
                            ip,
                        ),
                forall|i: int|
                    0 <= i < rows@.len() ==> (#[trigger] rows@[i]).requests
                        == self@.traffic[rows@[i].ip@].requests.len(),
            decreases TOP_LIMIT - rows@.len(),
        {
            let best = match self.best_behind(last) {
                Some(best) => best,
                None => {
                    proof {
                        let shown = row_ips(rows@);
                        assert forall|ip: Seq<char>|
                            self@.traffic.dom().contains(ip) implies #[trigger] shown.contains(
                            ip,
                        ) by {
                            let i = ips.index_of(ip);
                            assert(ips[i] == ip);
                            assert(!self.is_behind(last, i));
                            if !shown.contains(ip) {
                                assert(self@.ranks_before(shown[shown.len() - 1], ip));
                            }
                        }
                    }
                    return rows;
                },
            };
            let ghost held = rows@;
            let ghost ip = ips[best as int];
            let requests = self.traffic.value_at(best).requests.len();
            rows.push(TopIpSnapshot { ip: self.traffic.key_at(best).clone(), requests });
            proof {
                let shown = row_ips(rows@);
                assert(shown =~= row_ips(held).push(ip));
                assert forall|i: int| 0 <= i < held.len() implies self@.ranks_before(
                    #[trigger] shown[i],
                    ip,
                ) by {
                    let end = row_ips(held).last();
                    if i < held.len() - 1 {
                        assert(row_ips(held)[i] == shown[i]);
                        assert(row_ips(held)[held.len() - 1] == end);
                        lemma_rank(self@, shown[i], end, ip);
                    }
                }
                assert forall|other: Seq<char>|
                    self@.traffic.dom().contains(other) && !(#[trigger] shown.contains(
                        other,
                    )) implies forall|i: int|
                    0 <= i < rows@.len() ==> self@.ranks_before(#[trigger] shown[i], other) by {
                    if row_ips(held).contains(other) {
                        let k = row_ips(held).index_of(other);
                        assert(shown[k] == other);
                    }
                    let j = ips.index_of(other);
                    assert(ips[j] == other);
                    if held.len() > 0 {
                        assert(self@.ranks_before(row_ips(held)[held.len() - 1], other));
                    }
                    assert(self.is_behind(last, j));
                    if j == best {
                        assert(shown[held.len() as int] == other);
                    }
                    assert forall|i: int| 0 <= i < rows@.len() implies self@.ranks_before(
                        #[trigger] shown[i],
                        other,
                    ) by {
                        if i < held.len() {
                            assert(shown[i] == row_ips(held)[i]);
                        }
                    }
                }
                assert forall|i: int, j: int| 0 <= i < j < rows@.len() implies self@.ranks_before(
                    #[trigger] shown[i],
                    #[trigger] shown[j],
                ) by {
                    if j < held.len() {
                        assert(shown[i] == row_ips(held)[i] && shown[j] == row_ips(held)[j]);
                    }
                }
                assert forall|i: int| 0 <= i < rows@.len() implies self@.traffic.dom().contains(
                    #[trigger] shown[i],
                ) by {
                    if i < held.len() {
                        assert(shown[i] == row_ips(held)[i]);
                    }
                }
            }
            last = Some(best);
        }
        rows
    }

    /// Whether the counters have room for one more request of an address.
    pub fn has_room(&self, ip_address: &str) -> (room: bool)
        requires
            self.wf(),
        ensures
            room == self@.has_room(ip_address@),
    {
        let total: usize = match self.traffic.get(ip_address) {
            Some(entry) => entry.total,
            None => 0,
        };
        self.current_second_requests < usize::MAX && total < usize::MAX
    }

    /// Whether one more strike of an address at `now` can be counted and its ban be dated.
    pub fn can_ban(&self, ip_address: &str, now: Timestamp) -> (fits: bool)
        requires
            self.wf(),
            now.is_valid(),
        ensures
            fits == self@.can_ban(ip_address@, now),
    {
        let count: usize = match self.strike_counts.get(ip_address) {
            Some(strike) => strike.count,
            None => 0,
        };
        if count == usize::MAX {
            return false;
        }
        if count < self.ban_durations.len() {
            now.shift(self.ban_durations[count]).valid()
        } else {
            true
        }
    }

    /// Blocks and unblocks addresses.
    pub fn blocker(&self) -> (blocker: &IptablesBlocker)
        ensures
            *blocker == self@.blocker,
    {
        &self.blocker
    }

    /// Makes notifications.
    pub fn notifier(&self) -> (notifier: &SlackNotifier)
        ensures
            *notifier == self@.notifier,
    {
        &self.notifier
    }

    /// The mean of all traffic that was last calculated.
    pub fn global_mean(&self) -> (mean: Double)
        ensures
            mean == self@.global_baseline.current.mean.value,
    {
        self.global_baseline.mean()
    }

    /// Whether a rate exceeds a limit of the baseline.
    fn is_anomalous(&self, stddev: Double, figures: GlobalFigures) -> (anomalous: bool)
        ensures
            anomalous == self@.is_anomalous(stddev, figures),
    {
        zscore(stddev, figures.deviation).gt(self.config.thresholds.zscore) || figures.rate.gt(
            figures.rate_limit,
        )
    }

    /// Whether the time since the last alert allows another.
    fn can_emit_global_alert(&self, now: Timestamp) -> (allowed: bool)
        requires
            self.wf(),
            now.is_valid(),
        ensures
            allowed == self@.may_alert(now),
    {
        match self.last_global_alert_at {
            Some(last) => now.since(last)
                >= self.config.thresholds.global_alert_cooldown_seconds,
            None => true,
        }
    }

    /// Forgets what fell out of the window.
    fn evict_old(&mut self, now: Timestamp)
        requires
            old(self).wf(),
            now.is_valid(),
        ensures
            final(self).wf(),
            final(self)@ == old(self)@.evicted(now),
    {
        let cutoff = now.shift(-self.config.window.seconds);
        pop_older_than(&mut self.global_requests, cutoff);
        pop_older_than(&mut self.global_errors, cutoff);
        age_traffic(&mut self.traffic, &self.banned_ips, cutoff);
        assert(self@.traffic =~= old(self)@.evicted(now).traffic);
    }

    /// Samples all seconds before that of `now`.
    fn flush_until(&mut self, now: Timestamp)
        requires
            old(self).wf(),
            now.is_valid(),
        ensures
            final(self).wf(),
            final(self)@ == old(self)@.flushed(now),
    {
        let current_second = now.truncate();
        let mut last = match self.last_flushed_second {
            Some(last) => last,
            None => {
                self.last_flushed_second = Some(current_second);
                return;
            },
        };
        let ghost goal = old(self)@.flushed(now);
        while last.before(current_second)
            invariant
                self.wf(),
                now.is_valid(),
                current_second == now.whole(),
                last.is_valid(),
                last.nanos == 0,
                goal == self@.sampled_until(last.seconds as int, now.seconds as int),
            decreases now.seconds - last.seconds,
        {
            self.flush_second(last);
            last = last.shift(1);
        }
    }

    /// Samples the second that starts at `mark`, and starts the next one.
    fn flush_second(&mut self, mark: Timestamp)
        requires
            old(self).wf(),
            mark.is_valid(),
            mark.nanos == 0,
            mark.seconds < MAX_SECONDS,
        ensures
            final(self).wf(),
            final(self)@ == old(self)@.sampled(mark),
    {
        self.global_baseline.add_sample(
            mark,
            Ratio { part: self.current_second_requests, whole: 1 },
        );
        let error_ratio = if self.current_second_requests > 0 {
            Ratio { part: self.current_second_errors, whole: self.current_second_requests }
        } else {
            Ratio { part: 0, whole: 1 }
        };
        self.error_baseline.add_sample(mark, error_ratio);
        sample_ips(&mut self.ip_baselines, &self.traffic, mark, &self.config);
        self.current_second_requests = 0;
        self.current_second_errors = 0;
        self.last_flushed_second = Some(mark.shift(1));
        assert(self@.ip_baselines =~= old(self)@.sampled(mark).ip_baselines);
    }
}

/// Whether the durations in the settings can be represented.
pub fn config_supported(config: &Config) -> (fits: bool)
    ensures
        fits == config_fits(*config),
{
    let minutes = &config.blocking.ban_minutes;
    let mut i: usize = 0;
    while i < minutes.len()
        invariant
            minutes@ == config.blocking.ban_minutes@,
            i <= minutes@.len(),
            forall|j: int| 0 <= j < i ==> -MAX_SPAN <= 60 * (#[trigger] minutes@[j]) <= MAX_SPAN,
        decreases minutes@.len() - i,
    {
        if !spans(minutes[i], 60) {
            return false;
        }
        i += 1;
    }
    spans(config.window.seconds, 1) && history_fits(config.baseline.history_seconds) && spans(
        config.blocking.ban_hours_final,
        3600,
    ) && (config.blocking.strike_decay_hours < 0 || spans(
        config.blocking.strike_decay_hours,
        3600,
    ))
}

/// Whether `count` units of so many seconds are a duration.
fn spans(count: i64, unit: i64) -> (fits: bool)
    requires
        1 <= unit <= 3600,
    ensures
        fits == (-MAX_SPAN <= unit * count <= MAX_SPAN),
{
    assert(-0x1_0000_0000_0000_0000_0000 <= count * unit <= 0x1_0000_0000_0000_0000_0000)
        by (nonlinear_arith)
        requires
            1 <= unit <= 3600,
            i64::MIN <= count <= i64::MAX,
    ;
    let product: i128 = count as i128 * unit as i128;
    assert(product == unit * count) by (nonlinear_arith)
        requires
            product == count as i128 * unit as i128,
    ;
    -(MAX_SPAN as i128) <= product && product <= MAX_SPAN as i128
}

/// The z-score of a rate.
fn zscore(stddev: Double, deviation: Double) -> (score: Double)
    ensures
        score == z_score(stddev, deviation),
{
    if stddev.gt(Double::zero()) || stddev.nan() {
        deviation
    } else {
        Double::zero()
    }
}

impl IpFigures {
    /// Whether the address has so many errors that its limits are tightened.
    pub fn tightened(self) -> (tight: bool)
        ensures
            tight == self.is_tightened(),
    {
        self.error_rate.gt(self.learned_error_limit.max(self.floor_error_limit))
    }
}

/// Whether the traffic of an address exceeds its limits.
fn exceeds_limits(figures: IpFigures, tightened: bool, stddev: Double, z_limit: Double) -> (over:
    bool)
    requires
        tightened == figures.is_tightened(),
    ensures
        over == figures.is_anomalous(stddev, z_limit),
{
    let score = zscore(stddev, figures.deviation);
    if tightened {
        score.gt(figures.tight_z_limit) || figures.rate.gt(figures.tight_rate_limit)
    } else {
        score.gt(z_limit) || figures.rate.gt(figures.rate_limit)
    }
}

/// Some bans, as mathematical values.
pub open spec fn ban_views(bans: Seq<BanRecord>) -> Seq<BanView> {
    Seq::new(bans.len(), |i: int| bans[i]@)
}

/// Removes from the traffic of each address what lies before `cutoff`; an address without requests
/// is forgotten, unless it is banned.
fn age_traffic(traffic: &mut Table<IpTraffic>, banned_ips: &Table<BanRecord>, cutoff: Timestamp)
    requires
        old(traffic).wf(),
        banned_ips.wf(),
    ensures
        final(traffic).wf(),
        final(traffic)@ == Map::new(
            |ip: Seq<char>|
                old(traffic)@.dom().contains(ip) && (popped(
                    old(traffic)@[ip].requests,
                    cutoff,
                ).len() > 0 || banned_ips@.dom().contains(ip)),
            |ip: Seq<char>| old(traffic)@[ip].aged(cutoff),
        ),
{
    let ghost before = traffic@;
    let ghost ips = traffic.keys();
    let mut marks: Vec<bool> = Vec::new();
    proof {
        traffic.lemma_keys();
    }
    while marks.len() < traffic.len()
        invariant
            traffic.wf(),
            banned_ips.wf(),
            traffic.keys() == ips,
            traffic@.dom() == before.dom(),
            ips.no_duplicates(),
            forall|i: int| 0 <= i < ips.len() ==> before.dom().contains(#[trigger] ips[i]),
            marks@.len() <= ips.len(),
            forall|i: int|
                0 <= i < marks@.len() ==> traffic@[#[trigger] ips[i]] == before[ips[i]].aged(
                    cutoff,
                ),
            forall|i: int|
                marks@.len() <= i < ips.len() ==> traffic@[#[trigger] ips[i]] == before[ips[i]],
            forall|i: int|
                0 <= i < marks@.len() ==> #[trigger] marks@[i] == (popped(
                    before[ips[i]].requests,
                    cutoff,
                ).len() > 0 || banned_ips@.dom().contains(ips[i])),
        decreases ips.len() - marks@.len(),
    {
        let at = marks.len();
        let entry = traffic.value_mut_at(at);
        pop_older_than(&mut entry.requests, cutoff);
        pop_older_than(&mut entry.errors, cutoff);
        let idle = entry.requests.len() == 0;
        let banned = idle && banned_ips.contains_key(traffic.key_at(at).as_str());
        marks.push(!idle || banned);
        assert(traffic@.dom() =~= before.dom());
    }
    let ghost aged = traffic@;
    traffic.retain_marked(&marks);
    proof {
        let after = Map::new(
            |ip: Seq<char>|
                before.dom().contains(ip) && (popped(before[ip].requests, cutoff).len() > 0
                    || banned_ips@.dom().contains(ip)),
            |ip: Seq<char>| before[ip].aged(cutoff),
        );
        assert forall|ip: Seq<char>| before.dom().contains(ip) implies (marked(
            ips,
            marks@,
        ).contains(ip) == after.dom().contains(ip)) && aged[ip] == before[ip].aged(cutoff) by {
            let i = ips.index_of(ip);
            assert(ips.contains(ip));
            assert(ips[i] == ip);
            if after.dom().contains(ip) {
                assert(marks@[i]);
            }
        }
        assert(traffic@ =~= after);
    }
}

/// A baseline without samples.
fn baseline_from_config(
    config: &BaselineConfig,
    floor_mean: Rounded,
    floor_stddev: Rounded,
) -> (baseline: RollingBaseline<Ratio>)
    ensures
        baseline.wf(),
        baseline@ == BaselineView::<Ratio>::fresh(
            config.history_seconds as nat,
            config.recalc_interval_seconds as int,
            config.min_samples_per_hour as nat,
            floor_mean,
            floor_stddev,
        ),
{
    RollingBaseline::new(
        config.history_seconds,
        config.recalc_interval_seconds,
        config.min_samples_per_hour,
        floor_mean,
        floor_stddev,
    )
}

/// A baseline without samples, for an address.
fn new_ip_baseline(config: &Config) -> (baseline: RollingBaseline<Ratio>)
    ensures
        fits_baseline(baseline, *config),
        baseline@ == BaselineView::<Ratio>::fresh(
            config.baseline.history_seconds as nat,
            config.baseline.recalc_interval_seconds as int,
            config.baseline.min_samples_per_hour as nat,
            config.baseline.floor_mean,
            config.baseline.floor_stddev,
        ),
{
    baseline_from_config(
        &config.baseline,
        config.baseline.floor_mean,
        config.baseline.floor_stddev,
    )
}

/// The baseline of an address after the second that starts at `mark`.
spec fn ip_sampled(
    baselines: Map<Seq<char>, BaselineView<Ratio>>,
    traffic: Map<Seq<char>, TrafficView>,
    fresh: BaselineView<Ratio>,
    ip: Seq<char>,
    mark: Timestamp,
) -> BaselineView<Ratio> {
    let baseline = if baselines.dom().contains(ip) {
        baselines[ip]
    } else {
        fresh
    };
    baseline.with_sample(
        mark,
        Ratio { part: count_in(traffic[ip].requests, mark) as usize, whole: 1 },
    )
}

/// Adds the requests of the second that starts at `mark` to the baseline of each address.
fn sample_ips(
    baselines: &mut Table<RollingBaseline<Ratio>>,
    traffic: &Table<IpTraffic>,
    mark: Timestamp,
    config: &Config,
)
    requires
        old(baselines).wf(),
        fit_baselines(old(baselines).values(), *config),
        span_fits(config.baseline.history_seconds as nat),
        traffic.wf(),
        mark.is_valid(),
    ensures
        final(baselines).wf(),
        fit_baselines(final(baselines).values(), *config),
        ({
            let fresh = BaselineView::<Ratio>::fresh(
                config.baseline.history_seconds as nat,
                config.baseline.recalc_interval_seconds as int,
                config.baseline.min_samples_per_hour as nat,
                config.baseline.floor_mean,
                config.baseline.floor_stddev,
            );
            final(baselines)@ == Map::new(
                |ip: Seq<char>|
                    old(baselines)@.dom().contains(ip) || traffic@.dom().contains(ip),
                |ip: Seq<char>|
                    if traffic@.dom().contains(ip) {
                        ip_sampled(old(baselines)@, traffic@, fresh, ip, mark)
                    } else {
                        old(baselines)@[ip]
                    },
            )
        }),
{
    let ghost before = baselines@;
    let ghost fresh = BaselineView::<Ratio>::fresh(
        config.baseline.history_seconds as nat,
        config.baseline.recalc_interval_seconds as int,
        config.baseline.min_samples_per_hour as nat,
        config.baseline.floor_mean,
        config.baseline.floor_stddev,
    );
    let ghost ips = traffic.keys();
    let mut at: usize = 0;
    proof {
        traffic.lemma_keys();
    }
    while at < traffic.len()
        invariant
            traffic.wf(),
            ips == traffic.keys(),
            ips.no_duplicates(),
            mark.is_valid(),
            span_fits(config.baseline.history_seconds as nat),
            fresh == BaselineView::<Ratio>::fresh(
                config.baseline.history_seconds as nat,
                config.baseline.recalc_interval_seconds as int,
                config.baseline.min_samples_per_hour as nat,
                config.baseline.floor_mean,
                config.baseline.floor_stddev,
            ),
            at <= ips.len(),
            baselines.wf(),
            fit_baselines(baselines.values(), *config),
            forall|ip: Seq<char>| #[trigger]
                baselines@.dom().contains(ip) <==> before.dom().contains(ip) || ips.take(
                    at as int,
                ).contains(ip),
            forall|i: int|
                0 <= i < at ==> baselines@[#[trigger] ips[i]] == ip_sampled(
                    before,
                    traffic@,
                    fresh,
                    ips[i],
                    mark,
                ),
            forall|ip: Seq<char>|
                before.dom().contains(ip) && !ips.take(at as int).contains(ip)
                    ==> #[trigger] baselines@[ip] == before[ip],
        decreases ips.len() - at,
    {
        let key = traffic.key_at(at);
        let ghost ip = ips[at as int];
        let ghost held = baselines@;
        let count = count_second(&traffic.value_at(at).requests, mark);
        proof {
            baselines.lemma_keys();
            assert(ips.take(at + 1) =~= ips.take(at as int).push(ip));
            assert(!ips.take(at as int).contains(ip)) by {
                if ips.take(at as int).contains(ip) {
                    let j = ips.take(at as int).index_of(ip);
                    assert(ips.take(at as int)[j] == ips[j]);
                }
            }
            assert forall|k: Seq<char>| #[trigger] ips.take(at + 1).contains(k) <==> (ips.take(
                at as int,
            ).contains(k) || k == ip) by {
                if ips.take(at as int).contains(k) {
                    let j = ips.take(at as int).index_of(k);
                    assert(ips.take(at + 1)[j] == k);
                }
                if k == ip {
                    assert(ips.take(at + 1)[at as int] == k);
                }
            }
        }
        if !baselines.contains_key(key.as_str()) {
            let baseline = new_ip_baseline(config);
            baselines.insert(key.clone(), baseline);
        }
        proof {
            baselines.lemma_keys();
        }
        match baselines.get_mut(key.as_str()) {
            Some(baseline) => {
                baseline.add_sample(mark, Ratio { part: count, whole: 1 });
            },
            None => {},
        }
        proof {
            baselines.lemma_keys();
            assert(baselines@ == held.insert(
                ip,
                ip_sampled(before, traffic@, fresh, ip, mark),
            ));
        }
        at += 1;
    }
    proof {
        traffic.lemma_keys();
        assert(ips.take(at as int) =~= ips);
        assert forall|ip: Seq<char>| traffic@.dom().contains(ip) implies baselines@[ip]
            == ip_sampled(before, traffic@, fresh, ip, mark) by {
            let i = ips.index_of(ip);
            assert(ips.contains(ip));
            assert(ips[i] == ip);
        }
        assert(baselines@ =~= Map::new(
            |ip: Seq<char>| before.dom().contains(ip) || traffic@.dom().contains(ip),
            |ip: Seq<char>|
                if traffic@.dom().contains(ip) {
                    ip_sampled(before, traffic@, fresh, ip, mark)
                } else {
                    before[ip]
                },
        ));
    }
}

/// Whether an address has requests.
spec fn has_requests(traffic: Map<Seq<char>, TrafficView>, ip: Seq<char>) -> bool {
    traffic.dom().contains(ip) && traffic[ip].requests.len() > 0
}

/// Recalculates the baselines of addresses with requests, and drops the others.
fn recalculate_ips(
    baselines: &mut Table<RollingBaseline<Ratio>>,
    traffic: &Table<IpTraffic>,
    moments: &Table<Moments>,
    now: Timestamp,
    config: &Config,
)
    requires
        old(baselines).wf(),
        fit_baselines(old(baselines).values(), *config),
        traffic.wf(),
        moments.wf(),
        now.is_valid(),
        forall|ip: Seq<char>|
            old(baselines)@.dom().contains(ip) && has_requests(traffic@, ip)
                ==> #[trigger] moments@.dom().contains(ip),
    ensures
        final(baselines).wf(),
        fit_baselines(final(baselines).values(), *config),
        final(baselines)@ == Map::new(
            |ip: Seq<char>| old(baselines)@.dom().contains(ip) && has_requests(traffic@, ip),
            |ip: Seq<char>|
                old(baselines)@[ip].recalculated(now, moments@[ip].mean, moments@[ip].stddev),
        ),
{
    let ghost before = baselines@;
    let ghost ips = baselines.keys();
    let mut marks: Vec<bool> = Vec::new();
    proof {
        baselines.lemma_keys();
    }
    while marks.len() < baselines.len()
        invariant
            baselines.wf(),
            fit_baselines(baselines.values(), *config),
            traffic.wf(),
            moments.wf(),
            now.is_valid(),
            baselines.keys() == ips,
            baselines@.dom() == before.dom(),
            baselines.values().dom() == before.dom(),
            ips.no_duplicates(),
            forall|i: int| 0 <= i < ips.len() ==> before.dom().contains(#[trigger] ips[i]),
            forall|ip: Seq<char>|
                before.dom().contains(ip) && has_requests(traffic@, ip)
                    ==> #[trigger] moments@.dom().contains(ip),
            marks@.len() <= ips.len(),
            forall|i: int|
                0 <= i < marks@.len() ==> #[trigger] marks@[i] == has_requests(traffic@, ips[i]),
            forall|i: int|
                0 <= i < marks@.len() && has_requests(traffic@, ips[i])
                    ==> baselines@[#[trigger] ips[i]] == before[ips[i]].recalculated(
                    now,
                    moments@[ips[i]].mean,
                    moments@[ips[i]].stddev,
                ),
            forall|i: int|
                marks@.len() <= i < ips.len() ==> baselines@[#[trigger] ips[i]] == before[ips[i]],
        decreases ips.len() - marks@.len(),
    {
        let at = marks.len();
        let key = baselines.key_at(at).clone();
        let active = match traffic.get(key.as_str()) {
            Some(entry) => entry.requests.len() > 0,
            None => false,
        };
        if active {
            match moments.get(key.as_str()) {
                Some(values) => {
                    let baseline = baselines.value_mut_at(at);
                    baseline.recalculate(now, *values);
                    assert(baselines@.dom() =~= before.dom());
                    assert(baselines.values().dom() =~= before.dom());
                },
                None => {},
            }
        }
        marks.push(active);
    }
    let ghost done = baselines@;
    baselines.retain_marked(&marks);
    proof {
        let after = Map::new(
            |ip: Seq<char>| before.dom().contains(ip) && has_requests(traffic@, ip),
            |ip: Seq<char>|
                before[ip].recalculated(now, moments@[ip].mean, moments@[ip].stddev),
        );
        assert forall|ip: Seq<char>| before.dom().contains(ip) implies (marked(
            ips,
            marks@,
        ).contains(ip) == after.dom().contains(ip)) && (after.dom().contains(ip) ==> done[ip]
            == after[ip]) by {
            let i = ips.index_of(ip);
            assert(ips.contains(ip));
            assert(ips[i] == ip);
            if after.dom().contains(ip) {
                assert(marks@[i]);
            }
        }
        assert(baselines@ =~= after);
    }
}

} // verus!
