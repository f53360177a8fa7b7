//! What the engine tells of its state.

use crate::bans::BanRecord;
use crate::baseline::law_snapshot_shows_the_latest;
use crate::clock::{rfc3339_text, Timestamp};
use crate::engine::{ban_views, row_ips, EngineSnapshot, Observation};
use crate::report::clock_text;
use crate::runs::{times_since, windows_hold, EntryView};
use crate::state::EngineView;
use crate::table::{in_order, lists};
use crate::text::text_less;
use vstd::prelude::*;

verus! {

/// What is handed out to be judged are the numbers of entries in the windows, and the statistics of
/// the baselines: of all traffic, of errors, and of the address, for which the floors of the
/// settings stand in where it has no baseline.
pub proof fn law_observations_count_entries(
    seen: Observation,
    state: EngineView,
    entries: Seq<EntryView>,
    cutoff: Timestamp,
    ip: Seq<char>,
    now: Timestamp,
)
    requires
        seen.shows(state, ip, now),
        windows_hold(state, entries, cutoff),
        entries.len() <= usize::MAX,
    ensures
        ({
            let requests = times_since(entries, cutoff, Some(ip), false).len();
            let errors = times_since(entries, cutoff, Some(ip), true).len();
            let known = state.ip_baselines.dom().contains(ip);
            &&& seen.ip@ == ip && seen.now == now
            &&& seen.global_requests == times_since(entries, cutoff, None, false).len()
            &&& seen.ip_requests == requests
            &&& requests > 0 ==> seen.ip_error_ratio.part == errors && seen.ip_error_ratio.whole
                == requests
            &&& requests == 0 ==> seen.ip_error_ratio.part == 0 && seen.ip_error_ratio.whole > 0
            &&& seen.global_mean == state.global_baseline.current.mean.value
            &&& seen.global_stddev == state.global_baseline.current.stddev.value
            &&& seen.error_mean == state.error_baseline.current.mean.value
            &&& known ==> seen.ip_mean == state.ip_baselines[ip].current.mean.value
            &&& known ==> seen.ip_stddev == state.ip_baselines[ip].current.stddev.value
            &&& !known ==> seen.ip_mean == state.config.baseline.floor_mean.value
            &&& !known ==> seen.ip_stddev == state.config.baseline.floor_stddev.value
        }),
{
    lemma_times_len(entries, cutoff, ip, false);
    lemma_times_len(entries, cutoff, ip, true);
    assert(state.traffic_of(ip).requests == times_since(entries, cutoff, Some(ip), false));
}

proof fn lemma_times_len(entries: Seq<EntryView>, cutoff: Timestamp, ip: Seq<char>, errors: bool)
    ensures
        times_since(entries, cutoff, Some(ip), errors).len() <= entries.len(),
    decreases entries.len(),
{
    if entries.len() > 0 {
        lemma_times_len(entries.drop_last(), cutoff, ip, errors);
    }
}

/// A snapshot tells the numbers of entries in the windows, of all traffic and of the addresses that
/// it shows, which are at most ten; the requests of the current second; and the time since the
/// start.
pub proof fn law_snapshots_count_entries(
    snapshot: EngineSnapshot,
    state: EngineView,
    entries: Seq<EntryView>,
    cutoff: Timestamp,
    now: Timestamp,
    i: int,
)
    requires
        snapshot.shows(state, now),
        windows_hold(state, entries, cutoff),
        0 <= i < snapshot.top_ips@.len(),
    ensures
        snapshot.uptime@ == clock_text(now.seconds_after(state.started_at)),
        snapshot.global_requests_last_60s == times_since(entries, cutoff, None, false).len(),
        snapshot.current_second_requests == state.second_requests,
        snapshot.top_ips@.len() <= 10,
        state.traffic.dom().contains(snapshot.top_ips@[i].ip@),
        snapshot.top_ips@[i].requests == times_since(
            entries,
            cutoff,
            Some(snapshot.top_ips@[i].ip@),
            false,
        ).len(),
        snapshot.global_baseline.mean == state.global_baseline.current.mean.shown,
        snapshot.error_baseline.mean == state.error_baseline.current.mean.shown,
        snapshot.error_baseline.stddev == state.error_baseline.current.stddev.shown,
{
    law_snapshot_shows_the_latest(snapshot.global_baseline, state.global_baseline);
    law_snapshot_shows_the_latest(snapshot.error_baseline, state.error_baseline);
    let ip = snapshot.top_ips@[i].ip@;
    assert(row_ips(snapshot.top_ips@)[i] == ip);
    assert(state.traffic_of(ip) == state.traffic[ip]);
}

/// A snapshot shows the addresses that have made the most requests since they were last forgotten.
pub proof fn law_snapshots_show_the_busiest(
    snapshot: EngineSnapshot,
    state: EngineView,
    now: Timestamp,
    i: int,
    j: int,
    ip: Seq<char>,
)
    requires
        snapshot.shows(state, now),
        0 <= i < j < snapshot.top_ips@.len(),
        state.traffic.dom().contains(ip),
    ensures
        ({
            let first = snapshot.top_ips@[i].ip@;
            let second = snapshot.top_ips@[j].ip@;
            &&& state.traffic[first].total > state.traffic[second].total || (
            state.traffic[first].total == state.traffic[second].total && text_less(first, second))
            &&& snapshot.top_ips@.len() < 10 ==> exists|k: int|
                0 <= k < snapshot.top_ips@.len() && (#[trigger] snapshot.top_ips@[k]).ip@ == ip
            &&& (forall|k: int|
                0 <= k < snapshot.top_ips@.len() ==> (#[trigger] snapshot.top_ips@[k]).ip@ != ip)
                ==> state.traffic[second].total >= state.traffic[ip].total
        }),
{
    let rows = row_ips(snapshot.top_ips@);
    assert(rows[i] == snapshot.top_ips@[i].ip@ && rows[j] == snapshot.top_ips@[j].ip@);
    if rows.contains(ip) {
        let k = rows.index_of(ip);
        assert(snapshot.top_ips@[k].ip@ == ip);
    }
}

/// A snapshot shows every ban once, with its end, or as permanent, and the number of its strike.
pub proof fn law_snapshots_show_every_ban(
    snapshot: EngineSnapshot,
    state: EngineView,
    now: Timestamp,
    ip: Seq<char>,
)
    requires
        snapshot.shows(state, now),
        lists(in_order(state.bans.dom()), state.bans.dom()),
    ensures
        state.bans.dom().contains(ip) ==> exists|i: int|
            0 <= i < snapshot.banned_ips@.len() && (#[trigger] snapshot.banned_ips@[i]).ip@ == ip,
        forall|i: int|
            0 <= i < snapshot.banned_ips@.len() ==> {
                let row = #[trigger] snapshot.banned_ips@[i];
                let ban = state.bans[row.ip@];
                &&& state.bans.dom().contains(row.ip@)
                &&& row.strikes == ban.strike_count
                &&& ban.expires_at matches Some(end) ==> row.until@ == rfc3339_text(
                    end.seconds,
                    end.nanos,
                )
                &&& ban.expires_at is None ==> row.until@ == "permanent"@
            },
{
    let banned = in_order(state.bans.dom());
    if state.bans.dom().contains(ip) {
        let i = banned.index_of(ip);
        assert(banned.contains(ip));
        assert(snapshot.banned_ips@[i].ip@ == ip);
    }
    assert forall|i: int| 0 <= i < snapshot.banned_ips@.len() implies ({
        let row = #[trigger] snapshot.banned_ips@[i];
        let ban = state.bans[row.ip@];
        &&& state.bans.dom().contains(row.ip@)
        &&& row.strikes == ban.strike_count
        &&& ban.expires_at matches Some(end) ==> row.until@ == rfc3339_text(end.seconds, end.nanos)
        &&& ban.expires_at is None ==> row.until@ == "permanent"@
    }) by {
        assert(banned.contains(banned[i]));
    }
}

/// The bans that are given out are those of the list, one by one.
pub proof fn law_ban_views(bans: Seq<BanRecord>, i: int)
    requires
        0 <= i < bans.len(),
    ensures
        ban_views(bans).len() == bans.len(),
        ban_views(bans)[i].ip == bans[i].ip@,
        ban_views(bans)[i].strike_count == bans[i].strike_count,
        ban_views(bans)[i].condition == bans[i].condition@,
        ban_views(bans)[i].expires_at == bans[i].expires_at,
        ban_views(bans)[i].duration_label == bans[i].duration_label@,
{
}

} // verus!
