//! Laws of the detection engine.

use crate::bans::{duration_text, BanView};
use crate::baseline::span_of;
use crate::clock::{Timestamp, MAX_SPAN};
use crate::config::Config;
use crate::double::Double;
use crate::state::{
    config_fits, is_error_status, lemma_flushed_frame, lemma_sampled_frame, schedule, EngineView,
    GlobalFigures, IpFigures, MomentsView, Ratio, TrafficView,
};
use crate::table::{in_order, lists};
use crate::text::{decimal, text_less};
use crate::window::{
    in_time_order, is_part, law_window_holds_recent, lemma_part_len, lemma_part_popped,
    lemma_part_push, lemma_popped, popped,
};
use vstd::prelude::*;

verus! {

// ---------------------------------------------------------------------------------------------
// Bans
// ---------------------------------------------------------------------------------------------

/// Bans escalate: the duration of each is the next one of the schedule, and when the schedule is
/// used up the ban is permanent.
pub proof fn law_bans_escalate(
    state: EngineView,
    ip: Seq<char>,
    now: Timestamp,
    condition: Seq<char>,
)
    requires
        state.can_ban(ip, now),
    ensures
        ({
            let earlier = state.strikes_of(ip);
            let durations = schedule(state.config);
            let ban = state.next_ban(ip, now, condition);
            &&& state.struck(ip, now).strikes_of(ip) == earlier + 1
            &&& ban.strike_count == earlier + 1
            &&& earlier < durations.len() ==> ban.expires_at == Some(
                now.shifted(durations[earlier as int] as int),
            ) && ban.duration_label == duration_text(durations[earlier as int] as int)
            &&& earlier >= durations.len() ==> ban.expires_at is None && ban.duration_label
                == "permanent"@
        }),
{
}

/// A strike of one address is none of another.
pub proof fn law_strikes_are_separate(
    state: EngineView,
    ip: Seq<char>,
    other: Seq<char>,
    now: Timestamp,
)
    requires
        ip != other,
    ensures
        state.struck(ip, now).strikes_of(other) == state.strikes_of(other),
{
}

/// An address is not banned again while its ban is in force, whatever its traffic.
pub proof fn law_banned_address_is_left_alone(
    state: EngineView,
    ban: BanView,
    now: Timestamp,
    figures: IpFigures,
)
    ensures
        !state.with_ban(ban).raises_ban(ban.ip, figures),
        state.with_ban(ban).ip_judged(ban.ip, now, figures) == state.with_ban(ban),
{
}

/// A permanent ban never expires.
pub proof fn law_permanent_ban_stays(ban: BanView, now: Timestamp)
    requires
        ban.expires_at is None,
    ensures
        !ban.has_expired(now),
{
}

/// The bans that are to be ended are exactly those that have expired.
pub proof fn law_exactly_expired_bans_end(state: EngineView, now: Timestamp, ip: Seq<char>)
    requires
        lists(in_order(state.bans.dom()), state.bans.dom()),
    ensures
        state.bans.dom().contains(ip) && state.bans[ip].has_expired(now)
            ==> state.expired(now).contains(state.bans[ip]),
        forall|i: int|
            0 <= i < state.expired(now).len() ==> (#[trigger] state.expired(now)[i]).has_expired(
                now,
            ),
{
    let ips = in_order(state.bans.dom());
    let over = |ip: Seq<char>| state.bans[ip].has_expired(now);
    let kept = ips.filter(over);
    assert forall|i: int| 0 <= i < state.expired(now).len() implies (#[trigger] state.expired(
        now,
    )[i]).has_expired(now) by {
        ips.lemma_filter_pred(over, i);
    }
    if state.bans.dom().contains(ip) && state.bans[ip].has_expired(now) {
        assert(ips.contains(ip));
        let at = ips.index_of(ip);
        assert(ips[at] == ip);
        assert(over(ips[at]));
        ips.lemma_filter_contains(over, at);
        assert(kept.contains(ip));
        let k = kept.index_of(ip);
        assert(state.expired(now)[k] == state.bans[ip]);
    }
}

/// The end of a ban forgets neither strikes nor traffic, so that the next ban escalates.
pub proof fn law_strikes_outlive_bans(
    state: EngineView,
    ip: Seq<char>,
    now: Timestamp,
    condition: Seq<char>,
)
    ensures
        !state.without_ban(ip).is_banned(ip),
        state.without_ban(ip).strikes == state.strikes,
        state.without_ban(ip).next_ban(ip, now, condition) == state.next_ban(ip, now, condition),
        state.without_ban(ip).traffic == state.traffic,
{
}

/// Strikes decay: those of a banned address and recent ones stay, all others go; without a decay
/// time all stay.
pub proof fn law_strikes_decay(state: EngineView, now: Timestamp, ip: Seq<char>)
    requires
        state.strikes.dom().contains(ip),
    ensures
        ({
            let hours = state.config.blocking.strike_decay_hours;
            let after = state.strikes_pruned(now).strikes;
            &&& hours <= 0 ==> after == state.strikes
            &&& hours > 0 ==> (after.dom().contains(ip) <==> state.is_banned(ip)
                || !state.strikes[ip].last_seen.is_before(now.shifted(-3600 * hours)))
            &&& after.dom().contains(ip) ==> after[ip] == state.strikes[ip]
        }),
{
}

// ---------------------------------------------------------------------------------------------
// Detection
// ---------------------------------------------------------------------------------------------

/// Between two alerts on all traffic the cooldown passes.
pub proof fn law_alerts_keep_their_distance(
    state: EngineView,
    now: Timestamp,
    figures: GlobalFigures,
    later: Timestamp,
    later_figures: GlobalFigures,
)
    requires
        state.raises_alert(now, figures),
        state.global_judged(now, figures).raises_alert(later, later_figures),
    ensures
        later.seconds_after(now) >= state.config.thresholds.global_alert_cooldown_seconds,
{
}

/// An alert that was not raised leaves no trace.
pub proof fn law_no_alert_no_change(state: EngineView, now: Timestamp, figures: GlobalFigures)
    requires
        !state.raises_alert(now, figures),
    ensures
        state.global_judged(now, figures) == state,
{
}

/// Limits are exceeded, not met: with a rate and a score at most at the limits, nothing is
/// anomalous; and limits are tightened only above both limits on errors.
pub proof fn law_limits_must_be_exceeded(
    state: EngineView,
    stddev: Double,
    global: GlobalFigures,
    figures: IpFigures,
)
    ensures
        !global.deviation.exceeds(state.config.thresholds.zscore)
            && !Double::spec_zero().exceeds(state.config.thresholds.zscore)
            && !global.rate.exceeds(global.rate_limit) ==> !state.is_anomalous(stddev, global),
        figures.is_tightened() && !figures.floor_error_limit.is_nan()
            && !figures.learned_error_limit.is_nan() ==> figures.error_rate.exceeds(
            figures.learned_error_limit,
        ) && figures.error_rate.exceeds(figures.floor_error_limit),
{
}

// ---------------------------------------------------------------------------------------------
// Counting
// ---------------------------------------------------------------------------------------------

/// A request is counted once, for all traffic and for its address, and as an error if and only if
/// its status is that of one.
pub proof fn law_requests_are_counted(
    state: EngineView,
    ip: Seq<char>,
    time: Timestamp,
    status: u16,
    other: Seq<char>,
)
    requires
        state.has_room(ip),
        state.second_errors <= state.second_requests,
        other != ip,
    ensures
        ({
            let after = state.counted(ip, time, status);
            let error: nat = if is_error_status(status) {
                1
            } else {
                0
            };
            &&& after.global_requests.len() == state.global_requests.len() + 1
            &&& after.global_errors.len() == state.global_errors.len() + error
            &&& after.traffic_of(ip).requests.len() == state.traffic_of(ip).requests.len() + 1
            &&& after.traffic_of(ip).errors.len() == state.traffic_of(ip).errors.len() + error
            &&& after.second_requests == state.second_requests + 1
            &&& after.second_errors == state.second_errors + error
            &&& after.traffic_of(other) == state.traffic_of(other)
        }),
{
}

/// Within the window and within the current second, the errors are among the requests.
pub open spec fn errors_are_requests(state: EngineView) -> bool {
    &&& is_part(state.global_errors, state.global_requests)
    &&& state.second_errors <= state.second_requests
    &&& forall|ip: Seq<char>| #[trigger]
        state.traffic.dom().contains(ip) ==> is_part(
            state.traffic[ip].errors,
            state.traffic[ip].requests,
        )
}

/// Where errors are among requests, there are no more of them.
pub proof fn law_error_share_is_proper(state: EngineView, ip: Seq<char>)
    requires
        errors_are_requests(state),
    ensures
        state.global_errors.len() <= state.global_requests.len(),
        state.traffic_of(ip).errors.len() <= state.traffic_of(ip).requests.len(),
        state.error_ratio().part <= state.error_ratio().whole,
        state.error_ratio().whole > 0,
{
    lemma_part_len(state.global_errors, state.global_requests);
    if state.traffic.dom().contains(ip) {
        lemma_part_len(state.traffic[ip].errors, state.traffic[ip].requests);
    }
}

/// Errors are among requests after an entry was taken in, if they were before.
pub proof fn law_entries_keep_errors_in_requests(
    state: EngineView,
    ip: Seq<char>,
    time: Timestamp,
    status: u16,
)
    requires
        errors_are_requests(state),
        state.has_room(ip),
    ensures
        errors_are_requests(state.observed(ip, time, status)),
{
    lemma_flush_keeps_errors(state, time);
    lemma_flushed_frame(state, time);
    let flushed = state.flushed(time);
    let counted = flushed.counted(ip, time, status);
    lemma_part_push(flushed.global_errors, flushed.global_requests, time);
    assert forall|k: Seq<char>| #[trigger] counted.traffic.dom().contains(k) implies is_part(
        counted.traffic[k].errors,
        counted.traffic[k].requests,
    ) by {
        if k == ip {
            let entry = flushed.traffic_of(ip);
            assert(is_part(entry.errors, entry.requests)) by {
                if !flushed.traffic.dom().contains(ip) {
                    assert(entry == TrafficView::none());
                }
            }
            lemma_part_push(entry.errors, entry.requests, time);
        } else {
            assert(flushed.traffic.dom().contains(k));
        }
    }
    lemma_evict_keeps_errors(counted, time);
}

/// Errors are among requests after a tick, if they were before.
pub proof fn law_ticks_keep_errors_in_requests(state: EngineView, now: Timestamp)
    requires
        errors_are_requests(state),
    ensures
        errors_are_requests(state.ticked(now)),
{
    lemma_flush_keeps_errors(state, now);
    lemma_evict_keeps_errors(state.flushed(now), now);
}

/// Errors are among requests in an engine that has seen nothing, and after a snapshot, a judgement,
/// a ban, the end of one and a recalculation, if they were before.
pub proof fn law_other_steps_keep_errors_in_requests(
    state: EngineView,
    ip: Seq<char>,
    now: Timestamp,
    global: GlobalFigures,
    figures: IpFigures,
    ban: BanView,
    moments: MomentsView,
)
    requires
        errors_are_requests(state),
    ensures
        errors_are_requests(
            EngineView::initial(state.config, state.blocker, state.notifier, state.started_at),
        ),
        errors_are_requests(state.evicted(now)),
        errors_are_requests(state.global_judged(now, global)),
        errors_are_requests(state.ip_judged(ip, now, figures)),
        errors_are_requests(state.with_ban(ban)),
        errors_are_requests(state.without_ban(ip)),
        errors_are_requests(state.recalculated(now, moments)),
{
    lemma_evict_keeps_errors(state, now);
}

proof fn lemma_flush_keeps_errors(state: EngineView, now: Timestamp)
    requires
        errors_are_requests(state),
    ensures
        errors_are_requests(state.flushed(now)),
{
    lemma_flushed_frame(state, now);
    match state.last_flushed_second {
        Some(last) => {
            lemma_sampled_frame(state, last.seconds as int, now.seconds as int);
        },
        None => {},
    }
}

proof fn lemma_evict_keeps_errors(state: EngineView, now: Timestamp)
    requires
        errors_are_requests(state),
    ensures
        errors_are_requests(state.evicted(now)),
{
    let cutoff = state.cutoff(now);
    lemma_part_popped(state.global_errors, state.global_requests, cutoff);
    let after = state.evicted(now);
    assert forall|ip: Seq<char>| #[trigger] after.traffic.dom().contains(ip) implies is_part(
        after.traffic[ip].errors,
        after.traffic[ip].requests,
    ) by {
        assert(state.traffic.dom().contains(ip));
        lemma_part_popped(state.traffic[ip].errors, state.traffic[ip].requests, cutoff);
    }
}

// ---------------------------------------------------------------------------------------------
// The window
// ---------------------------------------------------------------------------------------------

/// The window holds exactly the requests since its start, where they came in the order of time.
pub proof fn law_window_slides(state: EngineView, now: Timestamp)
    requires
        in_time_order(state.global_requests),
    ensures
        ({
            let kept = state.evicted(now).global_requests;
            let cutoff = state.cutoff(now);
            &&& forall|i: int| 0 <= i < kept.len() ==> !(#[trigger] kept[i]).is_before(cutoff)
            &&& forall|i: int|
                0 <= i < state.global_requests.len()
                    && !(#[trigger] state.global_requests[i]).is_before(cutoff) ==> kept.contains(
                    state.global_requests[i],
                )
        }),
{
    law_window_holds_recent(state.global_requests, state.cutoff(now));
}

/// The window of an address that is still known holds exactly its requests since the start of the
/// window, where they came in the order of time.
pub proof fn law_ip_windows_slide(state: EngineView, now: Timestamp, ip: Seq<char>)
    requires
        state.evicted(now).traffic.dom().contains(ip),
        in_time_order(state.traffic[ip].requests),
    ensures
        ({
            let before = state.traffic[ip].requests;
            let kept = state.evicted(now).traffic[ip].requests;
            let cutoff = state.cutoff(now);
            &&& forall|i: int| 0 <= i < kept.len() ==> !(#[trigger] kept[i]).is_before(cutoff)
            &&& forall|i: int|
                0 <= i < before.len() && !(#[trigger] before[i]).is_before(cutoff)
                    ==> kept.contains(before[i])
        }),
{
    law_window_holds_recent(state.traffic[ip].requests, state.cutoff(now));
}

/// Whether the requests of the windows stand in the order of time, and none lies after `time`.
pub open spec fn ordered_until(state: EngineView, time: Timestamp) -> bool {
    &&& in_time_order(state.global_requests.push(time))
    &&& forall|ip: Seq<char>| #[trigger]
        state.traffic.dom().contains(ip) ==> in_time_order(state.traffic[ip].requests.push(time))
}

/// Requests that come in the order of time stand in it in the windows.
pub proof fn law_entries_keep_time_order(
    state: EngineView,
    ip: Seq<char>,
    time: Timestamp,
    status: u16,
)
    requires
        ordered_until(state, time),
    ensures
        ordered_until(state.observed(ip, time, status), time),
{
    lemma_flushed_frame(state, time);
    let flushed = state.flushed(time);
    let counted = flushed.counted(ip, time, status);
    let after = counted.evicted(time);
    let cutoff = state.cutoff(time);
    lemma_order_kept(state.global_requests, time, cutoff);
    assert forall|k: Seq<char>| #[trigger] after.traffic.dom().contains(k) implies in_time_order(
        after.traffic[k].requests.push(time),
    ) by {
        if k == ip {
            let held = flushed.traffic_of(ip).requests;
            assert(in_time_order(held.push(time))) by {
                if !state.traffic.dom().contains(ip) {
                    assert(held =~= seq![]);
                }
            }
            lemma_order_kept(held, time, cutoff);
        } else {
            assert(state.traffic.dom().contains(k));
            lemma_popped_order(state.traffic[k].requests, time, cutoff);
        }
    }
}

proof fn lemma_popped_order(items: Seq<Timestamp>, time: Timestamp, cutoff: Timestamp)
    requires
        in_time_order(items.push(time)),
    ensures
        in_time_order(popped(items, cutoff).push(time)),
{
    lemma_popped(items, cutoff);
    let kept = popped(items, cutoff);
    let start = items.len() - kept.len();
    assert forall|i: int, j: int| 0 <= i < j < kept.push(time).len() implies !(
    #[trigger] kept.push(time)[j]).is_before(#[trigger] kept.push(time)[i]) by {
        assert(kept.push(time)[i] == items.push(time)[start + i]);
        assert(kept.push(time)[j] == items.push(time)[start + j]);
    }
}

proof fn lemma_order_kept(items: Seq<Timestamp>, time: Timestamp, cutoff: Timestamp)
    requires
        in_time_order(items.push(time)),
    ensures
        in_time_order(popped(items.push(time), cutoff).push(time)),
{
    let longer = items.push(time).push(time);
    assert forall|i: int, j: int| 0 <= i < j < longer.len() implies !(
    #[trigger] longer[j]).is_before(#[trigger] longer[i]) by {
        if i < items.len() {
            assert(items.push(time)[i] == longer[i]);
            let last = items.push(time)[items.len() as int];
            assert(last == time);
            if j < items.len() {
                assert(items.push(time)[j] == longer[j]);
            }
        }
    }
    lemma_popped_order(items.push(time), time, cutoff);
}

/// An address is known after the window has slid if and only if it was, and has requests left or is
/// banned.
pub proof fn law_idle_addresses_are_forgotten(state: EngineView, now: Timestamp, ip: Seq<char>)
    ensures
        state.evicted(now).traffic.dom().contains(ip) <==> state.traffic.dom().contains(ip) && (
        popped(state.traffic[ip].requests, state.cutoff(now)).len() > 0 || state.is_banned(ip)),
        state.evicted(now).traffic.dom().contains(ip) ==> state.evicted(now).traffic[ip]
            == state.traffic[ip].aged(state.cutoff(now)),
{
}

proof fn lemma_popped_twice(items: Seq<Timestamp>, cutoff: Timestamp)
    ensures
        popped(popped(items, cutoff), cutoff) == popped(items, cutoff),
    decreases items.len(),
{
    if items.len() > 0 && items[0].is_before(cutoff) {
        lemma_popped_twice(items.drop_first(), cutoff);
    }
}

/// Sliding the window to where it is changes nothing.
pub proof fn law_eviction_is_idempotent(state: EngineView, now: Timestamp)
    ensures
        state.evicted(now).evicted(now) == state.evicted(now),
{
    let cutoff = state.cutoff(now);
    let once = state.evicted(now);
    let twice = once.evicted(now);
    lemma_popped_twice(state.global_requests, cutoff);
    lemma_popped_twice(state.global_errors, cutoff);
    assert forall|ip: Seq<char>| state.traffic.dom().contains(ip) implies #[trigger] state.traffic[ip].aged(
        cutoff,
    ).aged(cutoff) == state.traffic[ip].aged(cutoff) by {
        lemma_popped_twice(state.traffic[ip].requests, cutoff);
        lemma_popped_twice(state.traffic[ip].errors, cutoff);
    }
    assert forall|ip: Seq<char>| once.traffic.dom().contains(ip) <==> twice.traffic.dom().contains(
        ip,
    ) by {
        if once.traffic.dom().contains(ip) {
            assert(state.traffic[ip].aged(cutoff).aged(cutoff) == state.traffic[ip].aged(cutoff));
        }
    }
    assert(twice.traffic =~= once.traffic) by {
        assert forall|ip: Seq<char>| once.traffic.dom().contains(ip) implies twice.traffic[ip]
            == once.traffic[ip] by {
            assert(state.traffic[ip].aged(cutoff).aged(cutoff) == state.traffic[ip].aged(cutoff));
        }
    }
}

// ---------------------------------------------------------------------------------------------
// Sampling
// ---------------------------------------------------------------------------------------------

/// Every second is sampled once: sampling in two steps is sampling in one.
pub proof fn law_sampling_composes(state: EngineView, from: int, middle: int, to: int)
    requires
        from <= middle <= to,
    ensures
        state.sampled_until(from, middle).sampled_until(middle, to) == state.sampled_until(
            from,
            to,
        ),
    decreases middle - from,
{
    if from < middle {
        law_sampling_composes(
            state.sampled(Timestamp { seconds: from as i64, nanos: 0 }),
            from + 1,
            middle,
            to,
        );
    }
}

proof fn lemma_sampled_last(state: EngineView, from: int, to: int)
    requires
        i64::MIN <= from <= to <= i64::MAX,
        state.last_flushed_second == Some(Timestamp { seconds: from as i64, nanos: 0 }),
    ensures
        state.sampled_until(from, to).last_flushed_second == Some(
            Timestamp { seconds: to as i64, nanos: 0 },
        ),
    decreases to - from,
{
    if from < to {
        let next = state.sampled(Timestamp { seconds: from as i64, nanos: 0 });
        lemma_sampled_last(next, from + 1, to);
    }
}

/// After sampling up to a point, the second of that point is the current one, and sampling up to it
/// again changes nothing. A point in the past changes nothing at all.
pub proof fn law_sampling_reaches_now(state: EngineView, now: Timestamp)
    requires
        state.last_flushed_second matches Some(last) ==> last.nanos == 0,
    ensures
        state.flushed(now).flushed(now) == state.flushed(now),
        state.last_flushed_second matches Some(last) ==> if last.seconds <= now.seconds {
            state.flushed(now).last_flushed_second == Some(now.whole())
        } else {
            state.flushed(now) == state
        },
        state.last_flushed_second is None ==> state.flushed(now).last_flushed_second == Some(
            now.whole(),
        ),
{
    match state.last_flushed_second {
        Some(last) => {
            if last.seconds <= now.seconds {
                assert(last == Timestamp { seconds: last.seconds, nanos: 0 });
                lemma_sampled_last(state, last.seconds as int, now.seconds as int);
            }
        },
        None => {},
    }
}

/// Sampling, judging, ticking and recalculating leave the settings, the bans and the strikes of
/// banned addresses as they are.
pub proof fn law_bans_change_only_by_ban_and_unban(
    state: EngineView,
    ip: Seq<char>,
    now: Timestamp,
    status: u16,
    global: GlobalFigures,
    figures: IpFigures,
    moments: MomentsView,
)
    ensures
        state.observed(ip, now, status).bans == state.bans,
        state.global_judged(now, global).bans == state.bans,
        state.ip_judged(ip, now, figures).bans == state.bans,
        state.ticked(now).bans == state.bans,
        state.recalculated(now, moments).bans == state.bans,
        state.observed(ip, now, status).config == state.config,
        state.ticked(now).config == state.config,
        forall|k: Seq<char>|
            state.is_banned(k) && state.strikes.dom().contains(k) ==> state.ticked(
                now,
            ).strikes.dom().contains(k) && #[trigger] state.ticked(now).strikes[k]
                == state.strikes[k],
{
    lemma_flushed_frame(state, now);
}

// ---------------------------------------------------------------------------------------------
// Judging
// ---------------------------------------------------------------------------------------------

/// Whether an error share is above both limits on errors, of which one that is not a number does
/// not count.
pub open spec fn has_many_errors(figures: IpFigures) -> bool {
    let learned = figures.learned_error_limit;
    let floor = figures.floor_error_limit;
    &&& figures.error_rate.exceeds(learned) || learned.is_nan()
    &&& figures.error_rate.exceeds(floor) || floor.is_nan()
    &&& !(learned.is_nan() && floor.is_nan())
}

/// The standard deviation to which the rate of an address is held: that of its baseline, or the
/// floor where it has none.
pub open spec fn known_deviation(state: EngineView, ip: Seq<char>) -> Double {
    if state.ip_baselines.dom().contains(ip) {
        state.ip_baselines[ip].current.stddev.value
    } else {
        state.config.baseline.floor_stddev.value
    }
}

/// Either limit leads to a ban. An address with many errors that is not banned is banned if its
/// score exceeds the tightened limit, whatever its rate, and if its rate exceeds the tightened
/// limit, whatever its score; with fewer errors the same holds of the limits that are not
/// tightened. Below both limits it is not banned, nor while it is banned. The score counts where
/// there is a deviation; else it is zero.
pub proof fn law_either_limit_leads_to_a_ban(state: EngineView, ip: Seq<char>, figures: IpFigures)
    ensures
        ({
            let stddev = known_deviation(state, ip);
            let spread = stddev.exceeds(Double::spec_zero()) || stddev.is_nan();
            let score = if spread {
                figures.deviation
            } else {
                Double::spec_zero()
            };
            let z_limit = state.config.thresholds.zscore;
            let free = !state.bans.dom().contains(ip);
            let many = has_many_errors(figures);
            &&& free && many && score.exceeds(figures.tight_z_limit) ==> state.raises_ban(
                ip,
                figures,
            )
            &&& free && many && figures.rate.exceeds(figures.tight_rate_limit)
                ==> state.raises_ban(ip, figures)
            &&& free && !many && score.exceeds(z_limit) ==> state.raises_ban(ip, figures)
            &&& free && !many && figures.rate.exceeds(figures.rate_limit) ==> state.raises_ban(
                ip,
                figures,
            )
            &&& many && !score.exceeds(figures.tight_z_limit) && !figures.rate.exceeds(
                figures.tight_rate_limit,
            ) ==> !state.raises_ban(ip, figures)
            &&& !many && !score.exceeds(z_limit) && !figures.rate.exceeds(figures.rate_limit)
                ==> !state.raises_ban(ip, figures)
            &&& !free ==> !state.raises_ban(ip, figures)
        }),
{
}

/// Traffic that is at least as far above the usual: the rate and the score are no lower, and all
/// else is the same.
pub open spec fn is_no_lower(low: IpFigures, high: IpFigures) -> bool {
    &&& !low.rate.exceeds(high.rate) && !high.rate.is_nan()
    &&& !low.deviation.exceeds(high.deviation) && !high.deviation.is_nan()
    &&& high == (IpFigures { rate: high.rate, deviation: high.deviation, ..low })
}

/// More traffic is not judged more mildly: what leads to a ban still does with a higher rate or
/// score, and what raises an alert still does.
pub proof fn law_judging_is_monotone(
    state: EngineView,
    ip: Seq<char>,
    now: Timestamp,
    low: IpFigures,
    high: IpFigures,
    global_low: GlobalFigures,
    global_high: GlobalFigures,
)
    requires
        is_no_lower(low, high),
        !global_low.rate.exceeds(global_high.rate),
        !global_high.rate.is_nan(),
        !global_low.deviation.exceeds(global_high.deviation),
        !global_high.deviation.is_nan(),
        global_low.rate_limit == global_high.rate_limit,
    ensures
        state.raises_ban(ip, low) ==> state.raises_ban(ip, high),
        state.raises_alert(now, global_low) ==> state.raises_alert(now, global_high),
{
}

/// What a judgement of an address changes: where it leads to a ban, one more strike is counted, at
/// that time, and the condition says whether there were many errors; strikes of other addresses,
/// traffic and bans stay, and the address has the baseline that it had, or a fresh one.
pub proof fn law_judging_counts_a_strike(
    state: EngineView,
    ip: Seq<char>,
    other: Seq<char>,
    now: Timestamp,
    figures: IpFigures,
)
    requires
        state.can_ban(ip, now),
    ensures
        ({
            let after = state.ip_judged(ip, now, figures);
            let count: int = if state.strikes.dom().contains(ip) {
                state.strikes[ip].count as int
            } else {
                0
            };
            &&& state.raises_ban(ip, figures) ==> after.strikes.dom().contains(ip)
                && after.strikes[ip].count == count + 1 && after.strikes[ip].last_seen == now
            &&& !state.raises_ban(ip, figures) ==> after.strikes == state.strikes
            &&& other != ip ==> (after.strikes.dom().contains(other)
                <==> state.strikes.dom().contains(other)) && (state.strikes.dom().contains(other)
                ==> after.strikes[other] == state.strikes[other])
            &&& figures.condition() == if has_many_errors(figures) {
                "ip_rate_tight"@
            } else {
                "ip_rate"@
            }
            &&& after.bans == state.bans && after.traffic == state.traffic
            &&& state.ip_baselines.dom().contains(ip) ==> after.ip_baselines == state.ip_baselines
            &&& !state.bans.dom().contains(ip) ==> after.ip_baselines.dom().contains(ip)
            &&& state.bans.dom().contains(ip) ==> after.ip_baselines == state.ip_baselines
            &&& !state.bans.dom().contains(ip) && !state.ip_baselines.dom().contains(ip) ==> {
                let fresh = after.ip_baselines[ip];
                let settings = state.config.baseline;
                &&& fresh.buckets.dom() == Set::<Seq<char>>::empty()
                &&& fresh.current.mean == settings.floor_mean
                &&& fresh.current.stddev == settings.floor_stddev
                &&& fresh.floor_mean == settings.floor_mean
                &&& fresh.floor_stddev == settings.floor_stddev
                &&& fresh.history_seconds == settings.history_seconds
                &&& fresh.recalc_interval_seconds == settings.recalc_interval_seconds
                &&& fresh.min_samples_per_hour == settings.min_samples_per_hour
                &&& fresh.last_recalculated_at is None && fresh.history.len() == 0
            }
            &&& other != ip ==> (after.ip_baselines.dom().contains(other)
                <==> state.ip_baselines.dom().contains(other)) && (state.ip_baselines.dom().contains(
                other,
            ) ==> after.ip_baselines[other] == state.ip_baselines[other])
            &&& after.global_baseline == state.global_baseline && after.error_baseline
                == state.error_baseline
        }),
{
    let after = state.ip_judged(ip, now, figures);
    if state.ip_baselines.dom().contains(ip) {
        assert(after.ip_baselines =~= state.ip_baselines);
    }
}

/// Either limit raises an alert. Where none was raised yet, or the cooldown has passed since, an
/// alert is raised if the rate of all traffic exceeds its limit, whatever the score, and if the
/// score exceeds its threshold, whatever the rate; below both none is raised, nor within the
/// cooldown. An alert starts the cooldown anew, and changes nothing else.
pub proof fn law_either_limit_raises_an_alert(
    state: EngineView,
    now: Timestamp,
    figures: GlobalFigures,
)
    ensures
        ({
            let stddev = state.global_baseline.current.stddev.value;
            let spread = stddev.exceeds(Double::spec_zero()) || stddev.is_nan();
            let score = if spread {
                figures.deviation
            } else {
                Double::spec_zero()
            };
            let threshold = state.config.thresholds.zscore;
            let cooldown = state.config.thresholds.global_alert_cooldown_seconds;
            let free = match state.last_global_alert_at {
                Some(last) => now.seconds_after(last) >= cooldown,
                None => true,
            };
            &&& free && figures.rate.exceeds(figures.rate_limit) ==> state.raises_alert(
                now,
                figures,
            )
            &&& free && score.exceeds(threshold) ==> state.raises_alert(now, figures)
            &&& !figures.rate.exceeds(figures.rate_limit) && !score.exceeds(threshold)
                ==> !state.raises_alert(now, figures)
            &&& !free ==> !state.raises_alert(now, figures)
            &&& state.raises_alert(now, figures) ==> state.global_judged(now, figures) == (
            EngineView { last_global_alert_at: Some(now), ..state })
            &&& !state.raises_alert(now, figures) ==> state.global_judged(now, figures) == state
        }),
{
}

// ---------------------------------------------------------------------------------------------
// Settings
// ---------------------------------------------------------------------------------------------

/// The durations of bans are those of the settings: the first ones in minutes, then one in hours,
/// and after these a ban has no end. The label tells minutes below an hour, and else whole hours.
pub proof fn law_ban_durations_are_those_of_the_settings(
    state: EngineView,
    ip: Seq<char>,
    now: Timestamp,
    condition: Seq<char>,
)
    requires
        config_fits(state.config),
    ensures
        ({
            let minutes = state.config.blocking.ban_minutes@;
            let hours = state.config.blocking.ban_hours_final;
            let earlier: int = if state.strikes.dom().contains(ip) {
                state.strikes[ip].count as int
            } else {
                0
            };
            let ban = state.next_ban(ip, now, condition);
            &&& ban.ip == ip && ban.condition == condition && ban.strike_count == earlier + 1
            &&& earlier < minutes.len() ==> {
                let length = minutes[earlier];
                &&& ban.expires_at == Some(now.shifted(60 * length))
                &&& 0 <= length < 60 ==> ban.duration_label == decimal(length as nat) + "m"@
                &&& 60 <= length ==> ban.duration_label == decimal((length / 60) as nat) + "h"@
            }
            &&& earlier == minutes.len() ==> {
                &&& ban.expires_at == Some(now.shifted(3600 * hours))
                &&& hours >= 1 ==> ban.duration_label == decimal(hours as nat) + "h"@
            }
            &&& earlier > minutes.len() ==> ban.expires_at is None && ban.duration_label
                == "permanent"@
        }),
{
    let minutes = state.config.blocking.ban_minutes@;
    let hours = state.config.blocking.ban_hours_final;
    let earlier: int = if state.strikes.dom().contains(ip) {
        state.strikes[ip].count as int
    } else {
        0
    };
    if earlier < minutes.len() {
        let length = minutes[earlier];
        assert(-MAX_SPAN <= 60 * length <= MAX_SPAN);
        assert(schedule(state.config)[earlier] == 60 * length);
        assert(60 * length >= 0 ==> (60 * length) / 60 == length as int);
    } else if earlier == minutes.len() {
        assert(schedule(state.config)[earlier] == 3600 * hours);
        assert(hours >= 1 ==> (3600 * hours) / 60 / 60 == hours as int);
    }
}

/// A ban is over from its end on, and not before; one without an end is never over.
pub proof fn law_bans_last_until_their_end(ban: BanView, now: Timestamp, later: Timestamp)
    ensures
        ban.expires_at matches Some(end) ==> (ban.has_expired(now) <==> now == end || end.is_before(
            now,
        )),
        ban.expires_at is None ==> !ban.has_expired(now),
        ban.has_expired(now) && !later.is_before(now) ==> ban.has_expired(later),
{
}

/// Putting a ban in force and ending it change the bans of that address alone.
pub proof fn law_bans_are_separate(state: EngineView, ban: BanView, other: Seq<char>)
    ensures
        state.with_ban(ban).bans.dom().contains(ban.ip),
        state.with_ban(ban).bans[ban.ip] == ban,
        !state.without_ban(ban.ip).bans.dom().contains(ban.ip),
        other != ban.ip ==> {
            &&& state.with_ban(ban).bans.dom().contains(other) <==> state.bans.dom().contains(other)
            &&& state.without_ban(ban.ip).bans.dom().contains(other) <==> state.bans.dom().contains(
                other,
            )
            &&& state.bans.dom().contains(other) ==> state.with_ban(ban).bans[other]
                == state.bans[other] && state.without_ban(ban.ip).bans[other] == state.bans[other]
        },
        state.with_ban(ban) == (EngineView { bans: state.with_ban(ban).bans, ..state }),
        state.without_ban(ban.ip) == (EngineView { bans: state.without_ban(ban.ip).bans, ..state }),
{
}

/// An engine starts with nothing but its settings: no traffic, bans, strikes or alerts, and
/// baselines at the floors of the settings, those of errors for the baseline of errors.
pub proof fn law_engine_starts_empty(
    state: EngineView,
    ip: Seq<char>,
    now: Timestamp,
    figures: IpFigures,
)
    requires
        state == EngineView::initial(
            state.config,
            state.blocker,
            state.notifier,
            state.started_at,
        ),
    ensures
        state.global_requests.len() == 0 && state.global_errors.len() == 0,
        !state.traffic.dom().contains(ip),
        !state.bans.dom().contains(ip),
        !state.strikes.dom().contains(ip),
        !state.ip_baselines.dom().contains(ip),
        state.second_requests == 0 && state.second_errors == 0,
        state.last_flushed_second is None && state.last_global_alert_at is None,
        state.global_baseline.current.mean == state.config.baseline.floor_mean,
        state.global_baseline.current.stddev == state.config.baseline.floor_stddev,
        state.error_baseline.current.mean == state.config.thresholds.error_floor_mean,
        state.error_baseline.current.stddev == state.config.thresholds.error_floor_stddev,
        state.global_baseline.is_due(now),
        ({
            let judged = state.ip_judged(ip, now, figures).ip_baselines[ip];
            &&& judged.current.mean == state.config.baseline.floor_mean
            &&& judged.current.stddev == state.config.baseline.floor_stddev
            &&& judged.history_seconds == state.config.baseline.history_seconds
            &&& judged.min_samples_per_hour == state.config.baseline.min_samples_per_hour
        }),
        state.global_baseline.history_seconds == state.config.baseline.history_seconds,
        state.global_baseline.recalc_interval_seconds
            == state.config.baseline.recalc_interval_seconds,
        state.global_baseline.min_samples_per_hour == state.config.baseline.min_samples_per_hour,
        state.error_baseline.history_seconds == state.config.baseline.history_seconds,
        state.error_baseline.min_samples_per_hour == state.config.baseline.min_samples_per_hour,
{
}

// ---------------------------------------------------------------------------------------------
// Recalculation and ranking
// ---------------------------------------------------------------------------------------------

/// A recalculation that is due reaches every baseline, each with its own moments: that of all
/// traffic, that of errors, and those of the addresses with requests in the window; the baselines
/// of other addresses are dropped. Nothing else changes, and nothing at all where it is not due.
pub proof fn law_recalculation_reaches_every_baseline(
    state: EngineView,
    now: Timestamp,
    moments: MomentsView,
    ip: Seq<char>,
)
    ensures
        ({
            let after = state.recalculated(now, moments);
            let due = match state.global_baseline.last_recalculated_at {
                Some(last) => now.seconds_after(last)
                    >= state.global_baseline.recalc_interval_seconds,
                None => true,
            };
            let active = state.traffic.dom().contains(ip) && state.traffic[ip].requests.len() > 0;
            &&& !due ==> after == state
            &&& due ==> after.global_baseline == state.global_baseline.recalculated(
                now,
                moments.global.mean,
                moments.global.stddev,
            )
            &&& due ==> after.error_baseline == state.error_baseline.recalculated(
                now,
                moments.error.mean,
                moments.error.stddev,
            )
            &&& due ==> (after.ip_baselines.dom().contains(ip) <==> state.ip_baselines.dom().contains(
                ip,
            ) && active)
            &&& due && after.ip_baselines.dom().contains(ip) ==> after.ip_baselines[ip]
                == state.ip_baselines[ip].recalculated(
                now,
                moments.ips[ip].mean,
                moments.ips[ip].stddev,
            )
            &&& after == (EngineView {
                global_baseline: after.global_baseline,
                error_baseline: after.error_baseline,
                ip_baselines: after.ip_baselines,
                ..state
            })
        }),
{
}

/// The addresses that are shown first have made the most requests since they were last forgotten;
/// of as many, the one whose text comes first stands first. No address that is left out has made
/// more than one that is shown, and none is left out while there is room.
pub proof fn law_top_addresses_made_the_most_requests(
    state: EngineView,
    ips: Seq<Seq<char>>,
    limit: nat,
    i: int,
    j: int,
    ip: Seq<char>,
)
    requires
        state.are_top(ips, limit),
        0 <= i < j < ips.len(),
        state.traffic.dom().contains(ip),
    ensures
        ips.len() <= limit,
        state.traffic.dom().contains(ips[i]),
        state.traffic[ips[i]].total >= state.traffic[ips[j]].total,
        state.traffic[ips[i]].total == state.traffic[ips[j]].total ==> text_less(ips[i], ips[j]),
        !ips.contains(ip) ==> {
            &&& ips.len() == limit
            &&& state.traffic[ips[j]].total >= state.traffic[ip].total
            &&& state.traffic[ips[j]].total == state.traffic[ip].total ==> text_less(ips[j], ip)
        },
{
}

/// The number by which an address is ranked grows by one with each of its requests, and by nothing
/// else, until the address is forgotten.
pub proof fn law_totals_count_requests(
    state: EngineView,
    ip: Seq<char>,
    other: Seq<char>,
    time: Timestamp,
    status: u16,
)
    requires
        ip != other,
    ensures
        ({
            let before: nat = if state.traffic.dom().contains(ip) {
                state.traffic[ip].total
            } else {
                0
            };
            let counted = state.counted(ip, time, status);
            let evicted = state.evicted(time);
            &&& counted.traffic.dom().contains(ip) && counted.traffic[ip].total == before + 1
            &&& counted.traffic.dom().contains(other) <==> state.traffic.dom().contains(other)
            &&& state.traffic.dom().contains(other) ==> counted.traffic[other]
                == state.traffic[other]
            &&& evicted.traffic.dom().contains(ip) ==> evicted.traffic[ip].total == before
        }),
{
}

/// The settings that are supported are those whose durations can be represented in milliseconds by
/// 64 bits; strikes that do not decay need none.
pub proof fn law_supported_settings(config: Config)
    ensures
        ({
            let bound: int = 9_223_372_036_854_775;
            let blocking = config.blocking;
            config_fits(config) <==> {
                &&& -bound <= config.window.seconds <= bound
                &&& -bound <= span_of(config.baseline.history_seconds as nat) <= bound
                &&& forall|i: int|
                    0 <= i < blocking.ban_minutes@.len() ==> -bound <= 60
                        * #[trigger] blocking.ban_minutes@[i] <= bound
                &&& -bound <= 3600 * blocking.ban_hours_final <= bound
                &&& 3600 * blocking.strike_decay_hours <= bound
            }
        }),
        config.baseline.history_seconds <= i64::MAX ==> span_of(
            config.baseline.history_seconds as nat,
        ) == config.baseline.history_seconds,
{
}

/// A ban can be made unless its strike cannot be counted or its end is off the calendar, and a
/// request can be counted unless a counter is full.
pub proof fn law_limits_of_counting(state: EngineView, ip: Seq<char>, now: Timestamp)
    requires
        config_fits(state.config),
    ensures
        ({
            let count: int = if state.strikes.dom().contains(ip) {
                state.strikes[ip].count as int
            } else {
                0
            };
            let ban = state.next_ban(ip, now, Seq::empty());
            state.can_ban(ip, now) <==> count < usize::MAX && (ban.expires_at matches Some(end)
                ==> end.is_valid())
        }),
        ({
            let total: nat = if state.traffic.dom().contains(ip) {
                state.traffic[ip].total
            } else {
                0
            };
            state.has_room(ip) <==> state.second_requests < usize::MAX && total < usize::MAX
        }),
{
}

/// Errors are the requests with a status from 400 to 599.
pub proof fn law_error_statuses(
    state: EngineView,
    ip: Seq<char>,
    time: Timestamp,
    status: u16,
)
    requires
        state.has_room(ip),
        state.second_errors <= state.second_requests,
    ensures
        ({
            let after = state.counted(ip, time, status);
            let error = 400 <= status && status < 600;
            &&& error ==> after.global_errors == state.global_errors.push(time)
                && after.second_errors == state.second_errors + 1
                && after.traffic[ip].errors.len() > 0 && after.traffic[ip].errors.last() == time
            &&& !error ==> after.global_errors == state.global_errors && after.second_errors
                == state.second_errors
            &&& after.global_requests == state.global_requests.push(time)
            &&& after.traffic[ip].requests.last() == time
            &&& after.bans == state.bans && after.strikes == state.strikes
                && after.ip_baselines == state.ip_baselines
        }),
{
}

// ---------------------------------------------------------------------------------------------
// Single steps
// ---------------------------------------------------------------------------------------------

/// What is looked up of an address is what is kept of it, and nothing where nothing is kept.
pub proof fn law_lookups(state: EngineView, ip: Seq<char>)
    ensures
        state.traffic.dom().contains(ip) ==> state.traffic_of(ip) == state.traffic[ip],
        !state.traffic.dom().contains(ip) ==> state.traffic_of(ip).requests.len() == 0
            && state.traffic_of(ip).errors.len() == 0 && state.traffic_of(ip).total == 0,
        state.strikes.dom().contains(ip) ==> state.strikes_of(ip) == state.strikes[ip].count,
        !state.strikes.dom().contains(ip) ==> state.strikes_of(ip) == 0,
        state.ip_baselines.dom().contains(ip) ==> state.baseline_of(ip) == state.ip_baselines[ip],
        state.is_banned(ip) <==> state.bans.dom().contains(ip),
{
}

/// The window is left at its front: of every window, of requests and of errors, of all traffic and
/// of each address that is still known, what stands before the first point that is not too old is
/// dropped, and nothing behind it. The baselines, bans, strikes and counters stay.
pub proof fn law_windows_are_left_at_the_front(state: EngineView, now: Timestamp, ip: Seq<char>)
    ensures
        ({
            let cutoff = now.shifted(-(state.config.window.seconds as int));
            let after = state.evicted(now);
            &&& is_left_at_the_front(state.global_requests, after.global_requests, cutoff)
            &&& is_left_at_the_front(state.global_errors, after.global_errors, cutoff)
            &&& after.traffic.dom().contains(ip) ==> {
                &&& state.traffic.dom().contains(ip)
                &&& is_left_at_the_front(
                    state.traffic[ip].requests,
                    after.traffic[ip].requests,
                    cutoff,
                )
                &&& is_left_at_the_front(state.traffic[ip].errors, after.traffic[ip].errors, cutoff)
            }
            &&& after == (EngineView {
                global_requests: after.global_requests,
                global_errors: after.global_errors,
                traffic: after.traffic,
                ..state
            })
        }),
{
    let cutoff = now.shifted(-(state.config.window.seconds as int));
    lemma_popped(state.global_requests, cutoff);
    lemma_popped(state.global_errors, cutoff);
    lemma_popped(state.traffic[ip].requests, cutoff);
    lemma_popped(state.traffic[ip].errors, cutoff);
}

/// Whether `after` is what is left of a window when the points before `cutoff` have left it at its
/// front.
pub open spec fn is_left_at_the_front(
    before: Seq<Timestamp>,
    after: Seq<Timestamp>,
    cutoff: Timestamp,
) -> bool {
    let gone = before.len() - after.len();
    &&& 0 <= gone
    &&& after == before.skip(gone)
    &&& after.len() > 0 ==> !after[0].is_before(cutoff)
    &&& forall|i: int| 0 <= i < gone ==> (#[trigger] before[i]).is_before(cutoff)
}

/// Sampling a second adds its requests to the baseline of all traffic and its share of errors to
/// that of errors, starts the next second without requests, and leaves windows, bans and strikes.
pub proof fn law_a_second_is_sampled(state: EngineView, mark: Timestamp)
    ensures
        ({
            let after = state.sampled(mark);
            &&& after.global_baseline == state.global_baseline.with_sample(
                mark,
                Ratio { part: state.second_requests, whole: 1 },
            )
            &&& state.second_requests > 0 ==> after.error_baseline
                == state.error_baseline.with_sample(
                mark,
                Ratio { part: state.second_errors, whole: state.second_requests },
            )
            &&& state.second_requests == 0 ==> after.error_baseline
                == state.error_baseline.with_sample(mark, Ratio { part: 0, whole: 1 })
            &&& after.second_requests == 0 && after.second_errors == 0
            &&& after.last_flushed_second == Some(mark.shifted(1))
            &&& after.global_requests == state.global_requests && after.global_errors
                == state.global_errors && after.traffic == state.traffic && after.bans
                == state.bans && after.strikes == state.strikes && after.config == state.config
                && after.last_global_alert_at == state.last_global_alert_at
        }),
        mark.nanos == 0 ==> state.sampled_until(mark.seconds as int, mark.seconds + 1)
            == state.sampled(mark),
        state.sampled_until(mark.seconds as int, mark.seconds as int) == state,
{
    reveal_with_fuel(EngineView::sampled_until, 2);
}

/// An entry is taken in after the seconds before it were sampled, and then the window moves to it; a
/// tick samples the seconds before it, moves the window and lets strikes decay.
pub proof fn law_entries_and_ticks(
    state: EngineView,
    ip: Seq<char>,
    time: Timestamp,
    status: u16,
)
    ensures
        state.observed(ip, time, status) == state.flushed(time).counted(ip, time, status).evicted(
            time,
        ),
        state.ticked(time) == state.flushed(time).evicted(time).strikes_pruned(time),
        state.last_flushed_second matches Some(last) ==> state.flushed(time) == state.sampled_until(
            last.seconds as int,
            time.seconds as int,
        ),
        state.last_flushed_second is None ==> state.flushed(time) == (EngineView {
            last_flushed_second: Some(Timestamp { seconds: time.seconds, nanos: 0 }),
            ..state
        }),
        state.strikes_pruned(time) == (EngineView {
            strikes: state.strikes_pruned(time).strikes,
            ..state
        }),
{
}

} // verus!
