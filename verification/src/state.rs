//! The detection engine as a mathematical value, and its transitions.

use crate::bans::{duration_text, strike_stays, BanView, StrikeRecord};
use crate::baseline::{span_fits, BaselineView, Moments};
use crate::blocker::IptablesBlocker;
use crate::clock::{Timestamp, MAX_SPAN};
use crate::config::Config;
use crate::double::{Double, Rounded};
use crate::notifier::SlackNotifier;
use crate::table::in_order;
use crate::text::{lemma_text_irreflexive, lemma_text_total, lemma_text_transitive, text_less};
use crate::window::{count_in, popped};
use vstd::prelude::*;

verus! {

/// A sample: the quotient of two counts.
#[derive(Clone, Copy, Debug, PartialEq, Eq, Structural)]
pub struct Ratio {
    pub part: usize,
    pub whole: usize,
}

/// The traffic of an address within the window, and the number of its requests since it was
/// last forgotten.
pub struct TrafficView {
    pub requests: Seq<Timestamp>,
    pub errors: Seq<Timestamp>,
    pub total: nat,
}

impl TrafficView {
    /// No traffic.
    pub open spec fn none() -> TrafficView {
        TrafficView { requests: seq![], errors: seq![], total: 0 }
    }

    /// The traffic without what lies before `cutoff`.
    pub open spec fn aged(self, cutoff: Timestamp) -> TrafficView {
        TrafficView {
            requests: popped(self.requests, cutoff),
            errors: popped(self.errors, cutoff),
            total: self.total,
        }
    }

    /// The share of errors in the window; none without requests.
    pub open spec fn error_ratio(self) -> Ratio {
        if self.requests.len() > 0 {
            Ratio { part: self.errors.len() as usize, whole: self.requests.len() as usize }
        } else {
            Ratio { part: 0, whole: 1 }
        }
    }

    /// The traffic after one more request.
    pub open spec fn with_request(self, time: Timestamp, is_error: bool) -> TrafficView {
        TrafficView {
            requests: self.requests.push(time),
            errors: if is_error {
                self.errors.push(time)
            } else {
                self.errors
            },
            total: self.total + 1,
        }
    }
}

/// The rate of all traffic, compared with its baseline: the rate, its distance from the mean in
/// standard deviations, and the mean times the rate multiplier.
#[derive(Clone, Copy, Debug)]
pub struct GlobalFigures {
    pub rate: Double,
    pub deviation: Double,
    pub rate_limit: Double,
}

/// The traffic of an address, compared with its baseline: its rate and share of errors, the error
/// multiplier times the learned error mean and times the error floor, the distance of the rate
/// from the mean in standard deviations, the mean times the rate multiplier, and the limits on
/// rate and distance divided by the tightening factor.
#[derive(Clone, Copy, Debug)]
pub struct IpFigures {
    pub rate: Double,
    pub error_rate: Double,
    pub learned_error_limit: Double,
    pub floor_error_limit: Double,
    pub deviation: Double,
    pub rate_limit: Double,
    pub tight_rate_limit: Double,
    pub tight_z_limit: Double,
}

/// The z-score: the distance from the mean in standard deviations, or zero where there is no
/// deviation.
pub open spec fn z_score(stddev: Double, deviation: Double) -> Double {
    if !stddev.is_nan() && stddev.rank() <= 0 {
        Double::spec_zero()
    } else {
        deviation
    }
}

impl IpFigures {
    /// Whether the address has so many errors that its limits are tightened.
    pub open spec fn is_tightened(self) -> bool {
        self.error_rate.exceeds(self.learned_error_limit.larger(self.floor_error_limit))
    }

    /// Whether the traffic exceeds a limit, tightened or not.
    pub open spec fn is_anomalous(self, stddev: Double, z_limit: Double) -> bool {
        let score = z_score(stddev, self.deviation);
        if self.is_tightened() {
            score.exceeds(self.tight_z_limit) || self.rate.exceeds(self.tight_rate_limit)
        } else {
            score.exceeds(z_limit) || self.rate.exceeds(self.rate_limit)
        }
    }

    /// The condition under which a ban is recorded.
    pub open spec fn condition(self) -> Seq<char> {
        if self.is_tightened() {
            "ip_rate_tight"@
        } else {
            "ip_rate"@
        }
    }
}

/// Mean and standard deviation of the samples of a recalculation.
pub struct MomentsView {
    pub global: Moments,
    pub error: Moments,
    pub ips: Map<Seq<char>, Moments>,
}

/// Whether the durations in the settings can be represented.
pub open spec fn config_fits(config: Config) -> bool {
    &&& -MAX_SPAN <= config.window.seconds <= MAX_SPAN
    &&& span_fits(config.baseline.history_seconds as nat)
    &&& forall|i: int|
        0 <= i < config.blocking.ban_minutes@.len() ==> -MAX_SPAN <= 60 * (
        #[trigger] config.blocking.ban_minutes@[i]) <= MAX_SPAN
    &&& -MAX_SPAN <= 3600 * config.blocking.ban_hours_final <= MAX_SPAN
    &&& 3600 * config.blocking.strike_decay_hours <= MAX_SPAN
}

/// The ban durations in seconds, one for each strike: the minutes of the settings, then the hours.
pub open spec fn schedule(config: Config) -> Seq<i64> {
    let minutes = config.blocking.ban_minutes@;
    Seq::new(minutes.len(), |i: int| (60 * minutes[i]) as i64).push(
        (3600 * config.blocking.ban_hours_final) as i64,
    )
}

/// A baseline of the settings without samples.
pub open spec fn config_baseline(
    config: Config,
    floor_mean: Rounded,
    floor_stddev: Rounded,
) -> BaselineView<Ratio> {
    BaselineView::<Ratio>::fresh(
        config.baseline.history_seconds as nat,
        config.baseline.recalc_interval_seconds as int,
        config.baseline.min_samples_per_hour as nat,
        floor_mean,
        floor_stddev,
    )
}

/// The engine, as a mathematical value.
pub struct EngineView {
    pub config: Config,
    pub blocker: IptablesBlocker,
    pub notifier: SlackNotifier,
    pub started_at: Timestamp,
    pub global_baseline: BaselineView<Ratio>,
    pub error_baseline: BaselineView<Ratio>,
    pub ip_baselines: Map<Seq<char>, BaselineView<Ratio>>,
    pub global_requests: Seq<Timestamp>,
    pub global_errors: Seq<Timestamp>,
    pub traffic: Map<Seq<char>, TrafficView>,
    pub second_requests: usize,
    pub second_errors: usize,
    pub last_flushed_second: Option<Timestamp>,
    pub bans: Map<Seq<char>, BanView>,
    pub strikes: Map<Seq<char>, StrikeRecord>,
    pub last_global_alert_at: Option<Timestamp>,
}

/// Whether a status is that of a failed request.
pub open spec fn is_error_status(status: u16) -> bool {
    400 <= status <= 599
}

impl EngineView {
    /// The state of an engine that has seen nothing.
    pub open spec fn initial(
        config: Config,
        blocker: IptablesBlocker,
        notifier: SlackNotifier,
        started_at: Timestamp,
    ) -> EngineView {
        EngineView {
            config,
            blocker,
            notifier,
            started_at,
            global_baseline: config_baseline(
                config,
                config.baseline.floor_mean,
                config.baseline.floor_stddev,
            ),
            error_baseline: config_baseline(
                config,
                config.thresholds.error_floor_mean,
                config.thresholds.error_floor_stddev,
            ),
            ip_baselines: Map::empty(),
            global_requests: seq![],
            global_errors: seq![],
            traffic: Map::empty(),
            second_requests: 0,
            second_errors: 0,
            last_flushed_second: None,
            bans: Map::empty(),
            strikes: Map::empty(),
            last_global_alert_at: None,
        }
    }

    // -----------------------------------------------------------------------------------------
    // Reading the state
    // -----------------------------------------------------------------------------------------

    /// The traffic of an address.
    pub open spec fn traffic_of(self, ip: Seq<char>) -> TrafficView {
        if self.traffic.dom().contains(ip) {
            self.traffic[ip]
        } else {
            TrafficView::none()
        }
    }

    /// A baseline without samples, for an address.
    pub open spec fn fresh_baseline(self) -> BaselineView<Ratio> {
        config_baseline(
            self.config,
            self.config.baseline.floor_mean,
            self.config.baseline.floor_stddev,
        )
    }

    /// The baseline of an address; a fresh one where it has none.
    pub open spec fn baseline_of(self, ip: Seq<char>) -> BaselineView<Ratio> {
        if self.ip_baselines.dom().contains(ip) {
            self.ip_baselines[ip]
        } else {
            self.fresh_baseline()
        }
    }

    /// How often an address was banned.
    pub open spec fn strikes_of(self, ip: Seq<char>) -> nat {
        if self.strikes.dom().contains(ip) {
            self.strikes[ip].count as nat
        } else {
            0
        }
    }

    /// Whether an address is banned.
    pub open spec fn is_banned(self, ip: Seq<char>) -> bool {
        self.bans.dom().contains(ip)
    }

    /// Whether the counters have room for one more request of an address.
    pub open spec fn has_room(self, ip: Seq<char>) -> bool {
        &&& self.second_requests < usize::MAX
        &&& self.traffic_of(ip).total < usize::MAX
    }

    /// Whether one more strike of an address at `now` can be counted and its ban be dated.
    pub open spec fn can_ban(self, ip: Seq<char>, now: Timestamp) -> bool {
        let strike = self.strikes_of(ip) + 1;
        let durations = schedule(self.config);
        &&& strike <= usize::MAX
        &&& strike <= durations.len() ==> now.shifted(durations[strike - 1] as int).is_valid()
    }

    // -----------------------------------------------------------------------------------------
    // The window
    // -----------------------------------------------------------------------------------------

    /// The start of the window that ends at `now`.
    pub open spec fn cutoff(self, now: Timestamp) -> Timestamp {
        now.shifted(-self.config.window.seconds)
    }

    /// The state after what fell out of the window is forgotten; an address without requests is
    /// forgotten altogether, unless it is banned.
    pub open spec fn evicted(self, now: Timestamp) -> EngineView {
        let cutoff = self.cutoff(now);
        EngineView {
            global_requests: popped(self.global_requests, cutoff),
            global_errors: popped(self.global_errors, cutoff),
            traffic: Map::new(
                |ip: Seq<char>|
                    self.traffic.dom().contains(ip) && (popped(
                        self.traffic[ip].requests,
                        cutoff,
                    ).len() > 0 || self.is_banned(ip)),
                |ip: Seq<char>| self.traffic[ip].aged(cutoff),
            ),
            ..self
        }
    }

    /// The state after a request is counted.
    pub open spec fn counted(self, ip: Seq<char>, time: Timestamp, status: u16) -> EngineView {
        let is_error = is_error_status(status);
        EngineView {
            global_requests: self.global_requests.push(time),
            global_errors: if is_error {
                self.global_errors.push(time)
            } else {
                self.global_errors
            },
            traffic: self.traffic.insert(ip, self.traffic_of(ip).with_request(time, is_error)),
            second_requests: (self.second_requests + 1) as usize,
            second_errors: if is_error {
                (self.second_errors + 1) as usize
            } else {
                self.second_errors
            },
            ..self
        }
    }

    // -----------------------------------------------------------------------------------------
    // Samples
    // -----------------------------------------------------------------------------------------

    /// The share of errors in the current second.
    pub open spec fn error_ratio(self) -> Ratio {
        if self.second_requests > 0 {
            Ratio { part: self.second_errors, whole: self.second_requests }
        } else {
            Ratio { part: 0, whole: 1 }
        }
    }

    /// The baseline of an address after the second that starts at `mark`.
    pub open spec fn sampled_baseline(self, ip: Seq<char>, mark: Timestamp) -> BaselineView<Ratio> {
        if self.traffic.dom().contains(ip) {
            self.baseline_of(ip).with_sample(
                mark,
                Ratio { part: count_in(self.traffic[ip].requests, mark) as usize, whole: 1 },
            )
        } else {
            self.ip_baselines[ip]
        }
    }

    /// The state after the second that starts at `mark`: its counts are sampled, and the next
    /// second starts.
    pub open spec fn sampled(self, mark: Timestamp) -> EngineView {
        EngineView {
            global_baseline: self.global_baseline.with_sample(
                mark,
                Ratio { part: self.second_requests, whole: 1 },
            ),
            error_baseline: self.error_baseline.with_sample(mark, self.error_ratio()),
            ip_baselines: Map::new(
                |ip: Seq<char>|
                    self.ip_baselines.dom().contains(ip) || self.traffic.dom().contains(ip),
                |ip: Seq<char>| self.sampled_baseline(ip, mark),
            ),
            second_requests: 0,
            second_errors: 0,
            last_flushed_second: Some(mark.shifted(1)),
            ..self
        }
    }

    /// The state after the seconds from `from` up to `to`, not included.
    pub open spec fn sampled_until(self, from: int, to: int) -> EngineView
        decreases to - from,
    {
        if from < to {
            self.sampled(Timestamp { seconds: from as i64, nanos: 0 }).sampled_until(from + 1, to)
        } else {
            self
        }
    }

    /// The state after all seconds before that of `now` have been sampled. The first time only
    /// marks the second from which samples are taken.
    pub open spec fn flushed(self, now: Timestamp) -> EngineView {
        match self.last_flushed_second {
            None => EngineView { last_flushed_second: Some(now.whole()), ..self },
            Some(last) => self.sampled_until(last.seconds as int, now.seconds as int),
        }
    }

    /// The state after a log entry is taken in.
    pub open spec fn observed(self, ip: Seq<char>, time: Timestamp, status: u16) -> EngineView {
        self.flushed(time).counted(ip, time, status).evicted(time)
    }

    // -----------------------------------------------------------------------------------------
    // Detection
    // -----------------------------------------------------------------------------------------

    /// Whether a rate exceeds a limit of the baseline.
    pub open spec fn is_anomalous(self, stddev: Double, figures: GlobalFigures) -> bool {
        z_score(stddev, figures.deviation).exceeds(self.config.thresholds.zscore)
            || figures.rate.exceeds(figures.rate_limit)
    }

    /// Whether the time since the last alert allows another.
    pub open spec fn may_alert(self, now: Timestamp) -> bool {
        match self.last_global_alert_at {
            Some(last) => now.seconds_after(last)
                >= self.config.thresholds.global_alert_cooldown_seconds,
            None => true,
        }
    }

    /// Whether the rate of all traffic raises an alert.
    pub open spec fn raises_alert(self, now: Timestamp, figures: GlobalFigures) -> bool {
        self.is_anomalous(self.global_baseline.current.stddev.value, figures) && self.may_alert(now)
    }

    /// The state after the rate of all traffic was judged.
    pub open spec fn global_judged(self, now: Timestamp, figures: GlobalFigures) -> EngineView {
        if self.raises_alert(now, figures) {
            EngineView { last_global_alert_at: Some(now), ..self }
        } else {
            self
        }
    }

    /// Whether the traffic of an address leads to a ban: it is not banned, and exceeds a limit.
    pub open spec fn raises_ban(self, ip: Seq<char>, figures: IpFigures) -> bool {
        !self.is_banned(ip) && figures.is_anomalous(
            self.baseline_of(ip).current.stddev.value,
            self.config.thresholds.zscore,
        )
    }

    /// The state in which an address that is not banned has a baseline.
    pub open spec fn with_baseline(self, ip: Seq<char>) -> EngineView {
        if self.is_banned(ip) {
            self
        } else {
            EngineView {
                ip_baselines: self.ip_baselines.insert(ip, self.baseline_of(ip)),
                ..self
            }
        }
    }

    /// The state after one more strike of an address.
    pub open spec fn struck(self, ip: Seq<char>, now: Timestamp) -> EngineView {
        EngineView {
            strikes: self.strikes.insert(
                ip,
                StrikeRecord { count: (self.strikes_of(ip) + 1) as usize, last_seen: now },
            ),
            ..self
        }
    }

    /// The ban that one more strike of an address leads to: its duration is the next one of the
    /// schedule, and after the last one it has no end.
    pub open spec fn next_ban(self, ip: Seq<char>, now: Timestamp, condition: Seq<char>) -> BanView {
        let strike = self.strikes_of(ip) + 1;
        let durations = schedule(self.config);
        BanView {
            ip,
            strike_count: strike,
            condition,
            expires_at: if strike <= durations.len() {
                Some(now.shifted(durations[strike - 1] as int))
            } else {
                None
            },
            duration_label: if strike <= durations.len() {
                duration_text(durations[strike - 1] as int)
            } else {
                "permanent"@
            },
        }
    }

    /// The state after the traffic of an address was judged. A strike is counted whether or not
    /// the address can then be blocked.
    pub open spec fn ip_judged(self, ip: Seq<char>, now: Timestamp, figures: IpFigures) -> EngineView {
        if self.raises_ban(ip, figures) {
            self.with_baseline(ip).struck(ip, now)
        } else {
            self.with_baseline(ip)
        }
    }

    /// The state with a ban.
    pub open spec fn with_ban(self, ban: BanView) -> EngineView {
        EngineView { bans: self.bans.insert(ban.ip, ban), ..self }
    }

    /// The state without a ban of an address.
    pub open spec fn without_ban(self, ip: Seq<char>) -> EngineView {
        EngineView { bans: self.bans.remove(ip), ..self }
    }

    /// The bans that have expired, in the order of their addresses.
    pub open spec fn expired(self, now: Timestamp) -> Seq<BanView> {
        in_order(self.bans.dom()).filter(|ip: Seq<char>| self.bans[ip].has_expired(now)).map_values(
            |ip: Seq<char>| self.bans[ip],
        )
    }

    /// The state after old strikes are forgotten, where the settings let them decay.
    pub open spec fn strikes_pruned(self, now: Timestamp) -> EngineView {
        let hours = self.config.blocking.strike_decay_hours;
        if hours <= 0 {
            self
        } else {
            let cutoff = now.shifted(-3600 * hours);
            EngineView {
                strikes: self.strikes.restrict(
                    Set::new(
                        |ip: Seq<char>|
                            self.strikes.dom().contains(ip) && strike_stays(
                                ip,
                                self.strikes[ip],
                                self.bans.dom(),
                                cutoff,
                            ),
                    ),
                ),
                ..self
            }
        }
    }

    /// The state after a tick of the clock.
    pub open spec fn ticked(self, now: Timestamp) -> EngineView {
        self.flushed(now).evicted(now).strikes_pruned(now)
    }

    // -----------------------------------------------------------------------------------------
    // Ranking
    // -----------------------------------------------------------------------------------------

    /// Whether an address is shown before another: it made more requests, or as many and its text
    /// comes first.
    pub open spec fn ranks_before(self, a: Seq<char>, b: Seq<char>) -> bool {
        let left = self.traffic[a].total;
        let right = self.traffic[b].total;
        left > right || (left == right && text_less(a, b))
    }

    /// Whether `ips` are the first `limit` addresses by rank, in order; all where there are fewer.
    pub open spec fn are_top(self, ips: Seq<Seq<char>>, limit: nat) -> bool {
        &&& ips.len() <= limit
        &&& forall|i: int| 0 <= i < ips.len() ==> self.traffic.dom().contains(#[trigger] ips[i])
        &&& forall|i: int, j: int|
            0 <= i < j < ips.len() ==> self.ranks_before(#[trigger] ips[i], #[trigger] ips[j])
        &&& forall|ip: Seq<char>|
            self.traffic.dom().contains(ip) && !(#[trigger] ips.contains(ip)) ==> ips.len()
                == limit && forall|i: int|
                0 <= i < ips.len() ==> self.ranks_before(#[trigger] ips[i], ip)
    }

    // -----------------------------------------------------------------------------------------
    // Recalculation
    // -----------------------------------------------------------------------------------------

    /// Whether an address has requests within the window.
    pub open spec fn is_active(self, ip: Seq<char>) -> bool {
        self.traffic.dom().contains(ip) && self.traffic[ip].requests.len() > 0
    }

    /// The addresses whose baselines stay.
    pub open spec fn active_baselines(self) -> Set<Seq<char>> {
        Set::new(|ip: Seq<char>| self.ip_baselines.dom().contains(ip) && self.is_active(ip))
    }

    /// The state after a recalculation of all baselines, if one is due; the baselines of
    /// addresses without requests are dropped.
    pub open spec fn recalculated(self, now: Timestamp, moments: MomentsView) -> EngineView {
        if self.global_baseline.is_due(now) {
            EngineView {
                global_baseline: self.global_baseline.recalculated(
                    now,
                    moments.global.mean,
                    moments.global.stddev,
                ),
                error_baseline: self.error_baseline.recalculated(
                    now,
                    moments.error.mean,
                    moments.error.stddev,
                ),
                ip_baselines: Map::new(
                    |ip: Seq<char>| self.active_baselines().contains(ip),
                    |ip: Seq<char>|
                        self.ip_baselines[ip].recalculated(
                            now,
                            moments.ips[ip].mean,
                            moments.ips[ip].stddev,
                        ),
                ),
                ..self
            }
        } else {
            self
        }
    }
}

/// Sampling changes baselines and the counters of the current second, which it resets, alone.
pub proof fn lemma_sampled_frame(state: EngineView, from: int, to: int)
    ensures
        ({
            let after = state.sampled_until(from, to);
            &&& after == (EngineView {
                global_baseline: after.global_baseline,
                error_baseline: after.error_baseline,
                ip_baselines: after.ip_baselines,
                second_requests: after.second_requests,
                second_errors: after.second_errors,
                last_flushed_second: after.last_flushed_second,
                ..state
            })
            &&& from < to ==> after.second_requests == 0 && after.second_errors == 0
            &&& from >= to ==> after == state
        }),
    decreases to - from,
{
    if from < to {
        lemma_sampled_frame(
            state.sampled(Timestamp { seconds: from as i64, nanos: 0 }),
            from + 1,
            to,
        );
    }
}

/// Sampling up to a point keeps the windows, bans and strikes.
pub proof fn lemma_flushed_frame(state: EngineView, now: Timestamp)
    ensures
        ({
            let after = state.flushed(now);
            &&& after == (EngineView {
                global_baseline: after.global_baseline,
                error_baseline: after.error_baseline,
                ip_baselines: after.ip_baselines,
                second_requests: after.second_requests,
                second_errors: after.second_errors,
                last_flushed_second: after.last_flushed_second,
                ..state
            })
            &&& after.second_requests <= state.second_requests
        }),
{
    match state.last_flushed_second {
        Some(last) => {
            lemma_sampled_frame(state, last.seconds as int, now.seconds as int);
        },
        None => {},
    }
}

/// Rank orders the addresses: none ranks before itself, rank is transitive, and of two addresses
/// one ranks before the other.
pub proof fn lemma_rank(state: EngineView, a: Seq<char>, b: Seq<char>, c: Seq<char>)
    ensures
        !state.ranks_before(a, a),
        state.ranks_before(a, b) && state.ranks_before(b, c) ==> state.ranks_before(a, c),
        a == b || state.ranks_before(a, b) || state.ranks_before(b, a),
{
    lemma_text_irreflexive(a);
    lemma_text_total(a, b);
    if text_less(a, b) && text_less(b, c) {
        lemma_text_transitive(a, b, c);
    }
}

} // verus!
