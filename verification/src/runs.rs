//! What the windows of the engine hold after a run of steps.

use crate::bans::BanView;
use crate::blocker::IptablesBlocker;
use crate::clock::Timestamp;
use crate::config::Config;
use crate::notifier::SlackNotifier;
use crate::state::{
    config_fits, is_error_status, lemma_flushed_frame, EngineView, GlobalFigures, IpFigures,
    MomentsView, TrafficView,
};
use crate::table::lists;
use crate::text::{lemma_text_irreflexive, text_less};
use crate::window::popped;
use vstd::prelude::*;

verus! {

// ---------------------------------------------------------------------------------------------
// Runs
// ---------------------------------------------------------------------------------------------

/// A request, as the engine takes it in.
pub struct EntryView {
    pub ip: Seq<char>,
    pub time: Timestamp,
    pub status: u16,
}

/// A step of the engine.
pub enum Step {
    /// A log entry is taken in.
    Entry(EntryView),
    /// The clock ticks.
    Tick(Timestamp),
    /// A snapshot is made.
    Snapshot(Timestamp),
    /// The rate of all traffic is judged.
    GlobalJudged(Timestamp, GlobalFigures),
    /// The traffic of an address is judged.
    IpJudged(Seq<char>, Timestamp, IpFigures),
    /// A ban is put in force.
    Banned(BanView),
    /// The ban of an address is ended.
    Unbanned(Seq<char>),
    /// The baselines are recalculated.
    Recalculated(Timestamp, MomentsView),
}

impl Step {
    /// The point of time to which the step moves the windows, if it does.
    pub open spec fn moment(self) -> Option<Timestamp> {
        match self {
            Step::Entry(entry) => Some(entry.time),
            Step::Tick(now) => Some(now),
            Step::Snapshot(now) => Some(now),
            _ => None,
        }
    }

    /// The state after the step.
    pub open spec fn taken(self, state: EngineView) -> EngineView {
        match self {
            Step::Entry(entry) => state.observed(entry.ip, entry.time, entry.status),
            Step::Tick(now) => state.ticked(now),
            Step::Snapshot(now) => state.evicted(now),
            Step::GlobalJudged(now, figures) => state.global_judged(now, figures),
            Step::IpJudged(ip, now, figures) => state.ip_judged(ip, now, figures),
            Step::Banned(ban) => state.with_ban(ban),
            Step::Unbanned(ip) => state.without_ban(ip),
            Step::Recalculated(now, moments) => state.recalculated(now, moments),
        }
    }
}

/// The state after some steps.
pub open spec fn run(state: EngineView, steps: Seq<Step>) -> EngineView
    decreases steps.len(),
{
    if steps.len() == 0 {
        state
    } else {
        steps.last().taken(run(state, steps.drop_last()))
    }
}

/// The entries that some steps take in.
pub open spec fn entries_of(steps: Seq<Step>) -> Seq<EntryView>
    decreases steps.len(),
{
    if steps.len() == 0 {
        seq![]
    } else {
        let rest = entries_of(steps.drop_last());
        match steps.last() {
            Step::Entry(entry) => rest.push(entry),
            _ => rest,
        }
    }
}

/// The start of the window that ends at `now`.
pub open spec fn cutoff_at(config: Config, now: Timestamp) -> Timestamp {
    now.shifted(-config.window.seconds)
}

/// The start of the windows after some steps, if any has moved them.
pub open spec fn last_cutoff(config: Config, steps: Seq<Step>) -> Option<Timestamp>
    decreases steps.len(),
{
    if steps.len() == 0 {
        None
    } else {
        match steps.last().moment() {
            Some(now) => Some(cutoff_at(config, now)),
            None => last_cutoff(config, steps.drop_last()),
        }
    }
}

/// Whether the entries come in the order of time.
pub open spec fn in_order_of_time(entries: Seq<EntryView>) -> bool {
    forall|i: int, j: int|
        0 <= i < j < entries.len() ==> !(#[trigger] entries[j]).time.is_before(
            (#[trigger] entries[i]).time,
        )
}

/// Whether no step moves the start of the windows back, and the entries come in the order of time.
pub open spec fn moves_forward(config: Config, steps: Seq<Step>) -> bool
    decreases steps.len(),
{
    steps.len() > 0 ==> {
        let rest = steps.drop_last();
        &&& moves_forward(config, rest)
        &&& in_order_of_time(entries_of(steps))
        &&& steps.last().moment() is Some && last_cutoff(config, rest) is Some ==> !cutoff_at(
            config,
            steps.last().moment()->0,
        ).is_before(last_cutoff(config, rest)->0)
    }
}

// ---------------------------------------------------------------------------------------------
// Windows
// ---------------------------------------------------------------------------------------------

/// Whether an entry belongs to a window: that of all traffic or of one address, of all requests or
/// of errors alone.
pub open spec fn belongs(entry: EntryView, whose: Option<Seq<char>>, errors: bool) -> bool {
    (whose is Some ==> entry.ip == whose->0) && (errors ==> is_error_status(entry.status))
}

/// The times of the entries since `cutoff` that belong to a window.
pub open spec fn times_since(
    entries: Seq<EntryView>,
    cutoff: Timestamp,
    whose: Option<Seq<char>>,
    errors: bool,
) -> Seq<Timestamp>
    decreases entries.len(),
{
    if entries.len() == 0 {
        seq![]
    } else {
        let rest = times_since(entries.drop_last(), cutoff, whose, errors);
        let last = entries.last();
        if belongs(last, whose, errors) && !last.time.is_before(cutoff) {
            rest.push(last.time)
        } else {
            rest
        }
    }
}

/// Whether every window holds exactly the entries since `cutoff` that belong to it.
pub open spec fn windows_hold(state: EngineView, entries: Seq<EntryView>, cutoff: Timestamp) -> bool {
    &&& state.global_requests == times_since(entries, cutoff, None, false)
    &&& state.global_errors == times_since(entries, cutoff, None, true)
    &&& forall|ip: Seq<char>|
        (#[trigger] state.traffic_of(ip)).requests == times_since(entries, cutoff, Some(ip), false)
            && state.traffic_of(ip).errors == times_since(entries, cutoff, Some(ip), true)
}

/// The sum of the requests in the windows of some addresses.
pub open spec fn window_total(state: EngineView, ips: Seq<Seq<char>>) -> nat
    decreases ips.len(),
{
    if ips.len() == 0 {
        0
    } else {
        window_total(state, ips.drop_last()) + state.traffic[ips.last()].requests.len()
    }
}

proof fn lemma_order_drop(entries: Seq<EntryView>)
    requires
        in_order_of_time(entries),
        entries.len() > 0,
    ensures
        in_order_of_time(entries.drop_last()),
{
    let rest = entries.drop_last();
    assert forall|i: int, j: int| 0 <= i < j < rest.len() implies !(
    #[trigger] rest[j]).time.is_before((#[trigger] rest[i]).time) by {
        assert(rest[i] == entries[i] && rest[j] == entries[j]);
    }
}

proof fn lemma_popped_push(items: Seq<Timestamp>, time: Timestamp, cutoff: Timestamp)
    requires
        !time.is_before(cutoff),
    ensures
        popped(items.push(time), cutoff) == popped(items, cutoff).push(time),
    decreases items.len(),
{
    let longer = items.push(time);
    if items.len() > 0 {
        assert(longer.drop_first() =~= items.drop_first().push(time));
        assert(longer[0] == items[0]);
        if items[0].is_before(cutoff) {
            lemma_popped_push(items.drop_first(), time, cutoff);
        }
    }
}

proof fn lemma_popped_all(items: Seq<Timestamp>, cutoff: Timestamp)
    requires
        forall|i: int| 0 <= i < items.len() ==> (#[trigger] items[i]).is_before(cutoff),
    ensures
        popped(items, cutoff) == Seq::<Timestamp>::empty(),
    decreases items.len(),
{
    if items.len() > 0 {
        let rest = items.drop_first();
        assert forall|i: int| 0 <= i < rest.len() implies (#[trigger] rest[i]).is_before(cutoff) by {
            assert(rest[i] == items[i + 1]);
        }
        assert(items[0].is_before(cutoff));
        lemma_popped_all(rest, cutoff);
    }
}

/// The times of a window are those of entries, so that none is later than all entries.
proof fn lemma_times_bounded(
    entries: Seq<EntryView>,
    cutoff: Timestamp,
    whose: Option<Seq<char>>,
    errors: bool,
    bound: Timestamp,
)
    requires
        forall|i: int|
            0 <= i < entries.len() ==> !bound.is_before((#[trigger] entries[i]).time),
    ensures
        forall|i: int|
            0 <= i < times_since(entries, cutoff, whose, errors).len() ==> !bound.is_before(
                #[trigger] times_since(entries, cutoff, whose, errors)[i],
            ),
        bound.is_before(cutoff) ==> times_since(entries, cutoff, whose, errors).len() == 0,
    decreases entries.len(),
{
    if entries.len() > 0 {
        let rest = entries.drop_last();
        assert forall|i: int| 0 <= i < rest.len() implies !bound.is_before(
            (#[trigger] rest[i]).time,
        ) by {
            assert(rest[i] == entries[i]);
        }
        lemma_times_bounded(rest, cutoff, whose, errors, bound);
        let last = entries[entries.len() - 1];
        assert(!bound.is_before(last.time));
        let all = times_since(entries, cutoff, whose, errors);
        let some = times_since(rest, cutoff, whose, errors);
        assert forall|i: int| 0 <= i < all.len() implies !bound.is_before(#[trigger] all[i]) by {
            if i < some.len() {
                assert(all[i] == some[i]);
            }
        }
    }
}

/// Moving a window forward removes exactly the entries before its new start.
proof fn lemma_window_moves(
    entries: Seq<EntryView>,
    from: Timestamp,
    to: Timestamp,
    whose: Option<Seq<char>>,
    errors: bool,
)
    requires
        in_order_of_time(entries),
        !to.is_before(from),
    ensures
        popped(times_since(entries, from, whose, errors), to) == times_since(
            entries,
            to,
            whose,
            errors,
        ),
    decreases entries.len(),
{
    if entries.len() > 0 {
        let rest = entries.drop_last();
        let last = entries.last();
        lemma_order_drop(entries);
        lemma_window_moves(rest, from, to, whose, errors);
        if belongs(last, whose, errors) && !last.time.is_before(from) {
            lemma_window_grows(entries, from, to, whose, errors);
        }
    }
}

/// Taking a belonging entry into a window and moving it forward leaves exactly the entries since
/// its new start.
proof fn lemma_window_grows(
    entries: Seq<EntryView>,
    from: Timestamp,
    to: Timestamp,
    whose: Option<Seq<char>>,
    errors: bool,
)
    requires
        entries.len() > 0,
        in_order_of_time(entries),
        !to.is_before(from),
        belongs(entries.last(), whose, errors),
        popped(times_since(entries.drop_last(), from, whose, errors), to) == times_since(
            entries.drop_last(),
            to,
            whose,
            errors,
        ),
    ensures
        popped(
            times_since(entries.drop_last(), from, whose, errors).push(entries.last().time),
            to,
        ) == times_since(entries, to, whose, errors),
{
    let rest = entries.drop_last();
    let last = entries.last();
    let held = times_since(rest, from, whose, errors);
    if last.time.is_before(to) {
        assert forall|i: int| 0 <= i < rest.len() implies !last.time.is_before(
            (#[trigger] rest[i]).time,
        ) by {
            assert(rest[i] == entries[i]);
            assert(!entries[entries.len() - 1].time.is_before(entries[i].time));
        }
        lemma_times_bounded(rest, from, whose, errors, last.time);
        lemma_times_bounded(rest, to, whose, errors, last.time);
        assert forall|i: int| 0 <= i < held.push(last.time).len() implies (#[trigger] held.push(
            last.time,
        )[i]).is_before(to) by {
            if i < held.len() {
                assert(!last.time.is_before(held[i]));
            }
        }
        lemma_popped_all(held.push(last.time), to);
        assert(times_since(entries, to, whose, errors) =~= seq![]);
    } else {
        lemma_popped_push(held, last.time, to);
    }
}

/// There are no more errors than requests, and none where there is no request.
proof fn lemma_fewer_errors(entries: Seq<EntryView>, cutoff: Timestamp, whose: Option<Seq<char>>)
    ensures
        times_since(entries, cutoff, whose, true).len() <= times_since(
            entries,
            cutoff,
            whose,
            false,
        ).len(),
    decreases entries.len(),
{
    if entries.len() > 0 {
        lemma_fewer_errors(entries.drop_last(), cutoff, whose);
    }
}

/// Moving the windows of a state forward.
proof fn lemma_evicted_holds(
    state: EngineView,
    entries: Seq<EntryView>,
    from: Timestamp,
    now: Timestamp,
)
    requires
        windows_hold(state, entries, from),
        in_order_of_time(entries),
        !state.cutoff(now).is_before(from),
    ensures
        windows_hold(state.evicted(now), entries, state.cutoff(now)),
{
    let to = state.cutoff(now);
    let after = state.evicted(now);
    lemma_window_moves(entries, from, to, None, false);
    lemma_window_moves(entries, from, to, None, true);
    assert forall|ip: Seq<char>|
        (#[trigger] after.traffic_of(ip)).requests == times_since(entries, to, Some(ip), false)
            && after.traffic_of(ip).errors == times_since(entries, to, Some(ip), true) by {
        lemma_window_moves(entries, from, to, Some(ip), false);
        lemma_window_moves(entries, from, to, Some(ip), true);
        lemma_fewer_errors(entries, to, Some(ip));
        let before = state.traffic_of(ip);
        assert(before.requests == times_since(entries, from, Some(ip), false));
        assert(before.errors == times_since(entries, from, Some(ip), true));
        if after.traffic.dom().contains(ip) {
            assert(after.traffic[ip] == before.aged(to));
        } else {
            assert(popped(before.requests, to).len() == 0) by {
                if !state.traffic.dom().contains(ip) {
                    assert(before == TrafficView::none());
                }
            }
            assert(times_since(entries, to, Some(ip), false) =~= seq![]);
            assert(times_since(entries, to, Some(ip), true) =~= seq![]);
        }
    }
}

/// Taking in an entry.
proof fn lemma_observed_holds(
    state: EngineView,
    entries: Seq<EntryView>,
    from: Timestamp,
)
    requires
        entries.len() > 0,
        windows_hold(state, entries.drop_last(), from),
        in_order_of_time(entries),
        !state.cutoff(entries.last().time).is_before(from),
    ensures
        ({
            let entry = entries.last();
            windows_hold(
                state.observed(entry.ip, entry.time, entry.status),
                entries,
                state.cutoff(entry.time),
            )
        }),
{
    let entry = entries.last();
    let rest = entries.drop_last();
    let to = state.cutoff(entry.time);
    lemma_flushed_frame(state, entry.time);
    lemma_order_drop(entries);
    let flushed = state.flushed(entry.time);
    let counted = flushed.counted(entry.ip, entry.time, entry.status);
    let after = counted.evicted(entry.time);
    let is_error = is_error_status(entry.status);
    lemma_window_moves(rest, from, to, None, false);
    lemma_window_moves(rest, from, to, None, true);
    lemma_window_grows(entries, from, to, None, false);
    if is_error {
        lemma_window_grows(entries, from, to, None, true);
    }
    assert forall|ip: Seq<char>|
        (#[trigger] after.traffic_of(ip)).requests == times_since(entries, to, Some(ip), false)
            && after.traffic_of(ip).errors == times_since(entries, to, Some(ip), true) by {
        lemma_window_moves(rest, from, to, Some(ip), false);
        lemma_window_moves(rest, from, to, Some(ip), true);
        lemma_fewer_errors(entries, to, Some(ip));
        let before = state.traffic_of(ip);
        assert(flushed.traffic_of(ip) == before);
        assert(before.requests == times_since(rest, from, Some(ip), false));
        assert(before.errors == times_since(rest, from, Some(ip), true));
        if ip == entry.ip {
            lemma_window_grows(entries, from, to, Some(ip), false);
            if is_error {
                lemma_window_grows(entries, from, to, Some(ip), true);
            }
            assert(counted.traffic_of(ip) == before.with_request(entry.time, is_error));
        } else {
            assert(counted.traffic_of(ip) == before);
        }
        let held = counted.traffic_of(ip);
        assert(popped(held.requests, to) == times_since(entries, to, Some(ip), false));
        assert(popped(held.errors, to) == times_since(entries, to, Some(ip), true));
        if after.traffic.dom().contains(ip) {
            assert(after.traffic[ip] == held.aged(to));
        } else {
            assert(popped(held.requests, to).len() == 0) by {
                if !counted.traffic.dom().contains(ip) {
                    assert(held == TrafficView::none());
                }
            }
            assert(times_since(entries, to, Some(ip), false) =~= seq![]);
            assert(times_since(entries, to, Some(ip), true) =~= seq![]);
        }
    }
}

proof fn lemma_entries_in_order(config: Config, steps: Seq<Step>)
    requires
        moves_forward(config, steps),
    ensures
        in_order_of_time(entries_of(steps)),
{
}

/// A run keeps the settings.
proof fn lemma_run_config(state: EngineView, steps: Seq<Step>)
    ensures
        run(state, steps).config == state.config,
    decreases steps.len(),
{
    if steps.len() > 0 {
        let before = run(state, steps.drop_last());
        lemma_run_config(state, steps.drop_last());
        match steps.last() {
            Step::Entry(entry) => {
                lemma_flushed_frame(before, entry.time);
            },
            Step::Tick(now) => {
                lemma_flushed_frame(before, now);
            },
            _ => {},
        }
    }
}

// ---------------------------------------------------------------------------------------------
// Laws
// ---------------------------------------------------------------------------------------------

/// After a run that moves the windows forward, every window, of all traffic and of each address, of
/// requests and of errors, holds exactly the entries since the start of the window.
pub proof fn law_windows_hold_recent_entries(
    config: Config,
    blocker: IptablesBlocker,
    notifier: SlackNotifier,
    started_at: Timestamp,
    steps: Seq<Step>,
    cutoff: Timestamp,
)
    requires
        moves_forward(config, steps),
        last_cutoff(config, steps) is Some ==> cutoff == last_cutoff(config, steps)->0,
    ensures
        windows_hold(
            run(EngineView::initial(config, blocker, notifier, started_at), steps),
            entries_of(steps),
            cutoff,
        ),
    decreases steps.len(),
{
    let start = EngineView::initial(config, blocker, notifier, started_at);
    if steps.len() == 0 {
        assert(start.global_requests =~= times_since(entries_of(steps), cutoff, None, false));
        assert(start.global_errors =~= times_since(entries_of(steps), cutoff, None, true));
    } else {
        let rest = steps.drop_last();
        let before = run(start, rest);
        let from = match last_cutoff(config, rest) {
            Some(from) => from,
            None => cutoff,
        };
        law_windows_hold_recent_entries(config, blocker, notifier, started_at, rest, from);
        lemma_run_config(start, rest);
        lemma_entries_in_order(config, rest);
        match steps.last() {
            Step::Entry(entry) => {
                assert(entries_of(steps).drop_last() =~= entries_of(rest));
                lemma_observed_holds(before, entries_of(steps), from);
            },
            Step::Tick(now) => {
                lemma_flushed_frame(before, now);
                let flushed = before.flushed(now);
                assert forall|ip: Seq<char>| #[trigger] flushed.traffic_of(ip) == before.traffic_of(
                    ip,
                ) by {}
                assert(windows_hold(flushed, entries_of(rest), from));
                lemma_evicted_holds(flushed, entries_of(rest), from, now);
                let evicted = flushed.evicted(now);
                let after = evicted.strikes_pruned(now);
                assert forall|ip: Seq<char>| #[trigger] after.traffic_of(ip) == evicted.traffic_of(
                    ip,
                ) by {}
            },
            Step::Snapshot(now) => {
                lemma_evicted_holds(before, entries_of(rest), from, now);
            },
            _ => {
                let after = run(start, steps);
                assert forall|ip: Seq<char>| #[trigger] after.traffic_of(ip) == before.traffic_of(
                    ip,
                ) by {}
            },
        }
    }
}

/// Windows in step with one another: the windows of the addresses add up to that of all traffic,
/// and no window holds more errors than requests.
pub proof fn law_windows_add_up(
    state: EngineView,
    entries: Seq<EntryView>,
    cutoff: Timestamp,
    ips: Seq<Seq<char>>,
    ip: Seq<char>,
)
    requires
        windows_hold(state, entries, cutoff),
        lists(ips, state.traffic.dom()),
    ensures
        window_total(state, ips) == state.global_requests.len(),
        state.global_errors.len() <= state.global_requests.len(),
        state.traffic_of(ip).errors.len() <= state.traffic_of(ip).requests.len(),
{
    lemma_fewer_errors(entries, cutoff, None);
    lemma_fewer_errors(entries, cutoff, Some(ip));
    assert forall|i: int|
        0 <= i < entries.len() && !(#[trigger] entries[i]).time.is_before(
            cutoff,
        ) implies ips.contains(entries[i].ip) by {
        lemma_times_found(entries, cutoff, i);
        assert(state.traffic_of(entries[i].ip).requests.len() > 0);
        assert(state.traffic.dom().contains(entries[i].ip));
    }
    lemma_total(state, entries, cutoff, ips);
    lemma_count(entries, cutoff, ips);
}

/// The sum of the entries since `cutoff` of some addresses.
spec fn count_total(entries: Seq<EntryView>, cutoff: Timestamp, ips: Seq<Seq<char>>) -> nat
    decreases ips.len(),
{
    if ips.len() == 0 {
        0
    } else {
        count_total(entries, cutoff, ips.drop_last()) + times_since(
            entries,
            cutoff,
            Some(ips.last()),
            false,
        ).len()
    }
}

proof fn lemma_times_found(entries: Seq<EntryView>, cutoff: Timestamp, i: int)
    requires
        0 <= i < entries.len(),
        !entries[i].time.is_before(cutoff),
    ensures
        times_since(entries, cutoff, Some(entries[i].ip), false).len() > 0,
    decreases entries.len(),
{
    if i < entries.len() - 1 {
        let rest = entries.drop_last();
        assert(rest[i] == entries[i]);
        lemma_times_found(rest, cutoff, i);
    }
}

proof fn lemma_total(
    state: EngineView,
    entries: Seq<EntryView>,
    cutoff: Timestamp,
    ips: Seq<Seq<char>>,
)
    requires
        windows_hold(state, entries, cutoff),
        forall|i: int| 0 <= i < ips.len() ==> state.traffic.dom().contains(#[trigger] ips[i]),
    ensures
        window_total(state, ips) == count_total(entries, cutoff, ips),
    decreases ips.len(),
{
    if ips.len() > 0 {
        let rest = ips.drop_last();
        assert forall|i: int| 0 <= i < rest.len() implies state.traffic.dom().contains(
            #[trigger] rest[i],
        ) by {
            assert(rest[i] == ips[i]);
        }
        lemma_total(state, entries, cutoff, rest);
        let last = ips[ips.len() - 1];
        assert(state.traffic.dom().contains(last));
        assert(state.traffic_of(last) == state.traffic[last]);
    }
}

/// One more entry adds one to the sum, if it is recent and of one of the addresses.
proof fn lemma_count_step(entries: Seq<EntryView>, cutoff: Timestamp, ips: Seq<Seq<char>>)
    requires
        entries.len() > 0,
        ips.no_duplicates(),
    ensures
        count_total(entries, cutoff, ips) == count_total(entries.drop_last(), cutoff, ips) + if (
        !entries.last().time.is_before(cutoff) && ips.contains(entries.last().ip)) {
            1nat
        } else {
            0nat
        },
    decreases ips.len(),
{
    if ips.len() > 0 {
        let rest = ips.drop_last();
        let ip = entries.last().ip;
        assert forall|i: int, j: int|
            0 <= i < rest.len() && 0 <= j < rest.len() && i != j implies rest[i] != rest[j] by {
            assert(rest[i] == ips[i] && rest[j] == ips[j]);
        }
        lemma_count_step(entries, cutoff, rest);
        if rest.contains(ip) {
            let i = rest.index_of(ip);
            assert(ips[i] == ip);
            assert(ips[ips.len() - 1] != ips[i]);
        }
        if ips.contains(ip) && !rest.contains(ip) {
            let i = ips.index_of(ip);
            if i < rest.len() {
                assert(rest[i] == ip);
            }
        }
        if ips.last() == ip {
            assert(ips[ips.len() - 1] == ip);
        }
    }
}

proof fn lemma_count(entries: Seq<EntryView>, cutoff: Timestamp, ips: Seq<Seq<char>>)
    requires
        forall|i: int, j: int|
            0 <= i < j < ips.len() ==> text_less(#[trigger] ips[i], #[trigger] ips[j]),
        forall|i: int|
            0 <= i < entries.len() && !(#[trigger] entries[i]).time.is_before(cutoff)
                ==> ips.contains(entries[i].ip),
    ensures
        count_total(entries, cutoff, ips) == times_since(entries, cutoff, None, false).len(),
    decreases entries.len(),
{
    if entries.len() > 0 {
        let rest = entries.drop_last();
        assert forall|i: int|
            0 <= i < rest.len() && !(#[trigger] rest[i]).time.is_before(
                cutoff,
            ) implies ips.contains(rest[i].ip) by {
            assert(rest[i] == entries[i]);
        }
        lemma_count(rest, cutoff, ips);
        assert forall|i: int, j: int|
            0 <= i < ips.len() && 0 <= j < ips.len() && i != j implies ips[i] != ips[j] by {
            lemma_text_irreflexive(ips[i]);
            if i < j {
                assert(text_less(ips[i], ips[j]));
            } else {
                assert(text_less(ips[j], ips[i]));
            }
        }
        lemma_count_step(entries, cutoff, ips);
        let last = entries[entries.len() - 1];
        assert(!last.time.is_before(cutoff) ==> ips.contains(last.ip));
    } else {
        lemma_count_nothing(entries, cutoff, ips);
    }
}

proof fn lemma_count_nothing(entries: Seq<EntryView>, cutoff: Timestamp, ips: Seq<Seq<char>>)
    requires
        entries.len() == 0,
    ensures
        count_total(entries, cutoff, ips) == 0,
    decreases ips.len(),
{
    if ips.len() > 0 {
        lemma_count_nothing(entries, cutoff, ips.drop_last());
    }
}

/// Whether the steps come in the order of time and outside leap seconds.
pub open spec fn in_step_with_time(steps: Seq<Step>) -> bool {
    &&& forall|i: int|
        0 <= i < steps.len() && (#[trigger] steps[i]).moment() is Some ==> steps[i].moment()->0.is_valid()
            && !steps[i].moment()->0.is_leap()
    &&& forall|i: int, j: int|
        0 <= i < j < steps.len() && (#[trigger] steps[i]).moment() is Some && (
        #[trigger] steps[j]).moment() is Some ==> !steps[j].moment()->0.is_before(
            steps[i].moment()->0,
        )
}

/// Steps that come in the order of time, outside leap seconds, move the windows forward. In a leap
/// second the start of a window can lie after that of the next second.
pub proof fn law_time_moves_windows_forward(config: Config, steps: Seq<Step>)
    requires
        config_fits(config),
        in_step_with_time(steps),
    ensures
        moves_forward(config, steps),
    decreases steps.len(),
{
    if steps.len() > 0 {
        let rest = steps.drop_last();
        lemma_in_step_drop(steps);
        law_time_moves_windows_forward(config, rest);
        lemma_entries_ordered(steps);
        if steps.last().moment() is Some && last_cutoff(config, rest) is Some {
            let i = lemma_last_moment(config, rest);
            assert(rest[i] == steps[i]);
            let last = steps[steps.len() - 1];
            assert(last.moment() is Some);
            assert(!last.moment()->0.is_before(steps[i].moment()->0));
        }
    }
}

proof fn lemma_in_step_drop(steps: Seq<Step>)
    requires
        steps.len() > 0,
        in_step_with_time(steps),
    ensures
        in_step_with_time(steps.drop_last()),
{
    let rest = steps.drop_last();
    assert forall|i: int| 0 <= i < rest.len() && (#[trigger] rest[i]).moment() is Some implies rest[i].moment()->0.is_valid()
        && !rest[i].moment()->0.is_leap() by {
        assert(rest[i] == steps[i]);
    }
    assert forall|i: int, j: int|
        0 <= i < j < rest.len() && (#[trigger] rest[i]).moment() is Some && (
        #[trigger] rest[j]).moment() is Some implies !rest[j].moment()->0.is_before(
        rest[i].moment()->0,
    ) by {
        assert(rest[i] == steps[i] && rest[j] == steps[j]);
    }
}

/// The step that last moved the windows.
proof fn lemma_last_moment(config: Config, steps: Seq<Step>) -> (at: int)
    requires
        last_cutoff(config, steps) is Some,
    ensures
        0 <= at < steps.len(),
        steps[at].moment() is Some,
        last_cutoff(config, steps) == Some(cutoff_at(config, steps[at].moment()->0)),
    decreases steps.len(),
{
    if steps.last().moment() is Some {
        steps.len() - 1
    } else {
        lemma_last_moment(config, steps.drop_last())
    }
}

/// Every entry is that of a step.
proof fn lemma_entry_step(steps: Seq<Step>, k: int) -> (at: int)
    requires
        0 <= k < entries_of(steps).len(),
    ensures
        0 <= at < steps.len(),
        steps[at].moment() == Some(entries_of(steps)[k].time),
    decreases steps.len(),
{
    let rest = steps.drop_last();
    if k < entries_of(rest).len() {
        let at = lemma_entry_step(rest, k);
        assert(entries_of(rest)[k] == entries_of(steps)[k]);
        at
    } else {
        steps.len() - 1
    }
}

proof fn lemma_entries_ordered(steps: Seq<Step>)
    requires
        in_step_with_time(steps),
    ensures
        in_order_of_time(entries_of(steps)),
    decreases steps.len(),
{
    if steps.len() > 0 {
        let rest = steps.drop_last();
        lemma_in_step_drop(steps);
        lemma_entries_ordered(rest);
        let all = entries_of(steps);
        let some = entries_of(rest);
        assert forall|i: int, j: int| 0 <= i < j < all.len() implies !(
        #[trigger] all[j]).time.is_before((#[trigger] all[i]).time) by {
            assert(all[i] == some[i]);
            if j < some.len() {
                assert(all[j] == some[j]);
            } else {
                let at = lemma_entry_step(rest, i);
                assert(rest[at] == steps[at]);
                let last = steps[steps.len() - 1];
                assert(last.moment() == Some(all[j].time));
            }
        }
    }
}

/// After a run of steps in the order of time, outside leap seconds, every window holds exactly the
/// entries since its start, the windows of the addresses add up to that of all traffic, and there
/// are no more errors than requests. `ips` are the addresses that the engine knows.
pub proof fn law_windows_after_a_run(
    config: Config,
    blocker: IptablesBlocker,
    notifier: SlackNotifier,
    started_at: Timestamp,
    steps: Seq<Step>,
    cutoff: Timestamp,
    ips: Seq<Seq<char>>,
)
    requires
        config_fits(config),
        in_step_with_time(steps),
        last_cutoff(config, steps) == Some(cutoff),
        lists(
            ips,
            run(
                EngineView::initial(config, blocker, notifier, started_at),
                steps,
            ).traffic.dom(),
        ),
    ensures
        ({
            let after = run(EngineView::initial(config, blocker, notifier, started_at), steps);
            &&& windows_hold(after, entries_of(steps), cutoff)
            &&& window_total(after, ips) == after.global_requests.len()
            &&& after.global_errors.len() <= after.global_requests.len()
            &&& forall|ip: Seq<char>|
                (#[trigger] after.traffic_of(ip)).errors.len() <= after.traffic_of(
                    ip,
                ).requests.len()
        }),
{
    let after = run(EngineView::initial(config, blocker, notifier, started_at), steps);
    law_time_moves_windows_forward(config, steps);
    law_windows_hold_recent_entries(config, blocker, notifier, started_at, steps, cutoff);
    law_windows_add_up(after, entries_of(steps), cutoff, ips, seq![]);
    assert forall|ip: Seq<char>| (#[trigger] after.traffic_of(ip)).errors.len()
        <= after.traffic_of(ip).requests.len() by {
        law_windows_add_up(after, entries_of(steps), cutoff, ips, ip);
    }
}

} // verus!
