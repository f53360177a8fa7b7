//! What a caller can rely on: the effect of the public functions, told by their arguments and
//! results alone.

use crate::bans::{format_ban_duration, should_retain_strike, BanRecord, StrikeRecord};
use crate::baseline::{
    history_fits, span_of, BaselineSnapshot, BaselineStats, BaselineView, Moments, RollingBaseline,
    Selection,
};
use crate::blocker::{CommandOutcome, Invocation, IptablesBlocker, UnblockStep};
use crate::clock::{rfc3339_text, Timestamp};
use crate::config::{
    apply_env_overrides, dotenv_assignments, load_dashboard_auth, load_dotenv, parse_bool_env,
    parsed_bool, Config, ConfigError, DashboardAuth, EnvOverrides,
};
use crate::dashboard::{
    answer_to, client_ip, first_forwarded, first_forwarded_for_ip, generate_token, handle_login,
    handle_request, hex_text, is_credentials, refuse_locked_out, sessions_after, start_session,
    vetted_client_ip, Answer, Reply,
};
use crate::double::{Double, Rounded};
use crate::engine::{
    ban_views, config_supported, DetectionEngine, DueMoments, DueSamples, EngineSnapshot,
};
use crate::events::{Event, OccurrenceView, RateTexts};
use crate::forms::{
    cookies, decode_bytes, decoded, extract_session_cookie, form_fields, header_texts,
    parse_cookie_header, parse_form_body, percent_decode, percent_decoded, session_cookie,
};
use crate::limiter::{
    checked, is_limited, is_rate_limited, prune_limiter, pruned, record_failure, reset_failures,
    with_failure, LoginAttempt,
};
use crate::monitor::{
    after_probe, is_entry_of, line_body, number_of, parse_log_line, parse_timestamp, should_reopen,
    time_of, value_to_u64, FileMarker, FileState, FollowStep, LogEntry, ProbeEvent, RawLogEntry,
    RawValue, ReadEvent, ReopenEvent, Tail,
};
use crate::notifier::{Delivery, NoticeView, RateFigures, SlackNotifier};
use crate::pass::{advanced, last_need, PassAnswer, PassStep};
use crate::report::{
    audit_line, clock_text, cpu_sample, cpu_sample_fits, format_duration, read_cpu_sample,
    resident_pages, share_between, sum, tail_audit, tick_counts, AuditRecord, CpuMeter, CpuSample,
    CpuShare,
};
use crate::session::{is_open, token_text, Sessions};
use crate::startup::{config_path, level_name, logging_level, parse_config_path};
use crate::state::{config_fits, EngineView, GlobalFigures, IpFigures};
use crate::table::Table;
use crate::text::{lines, optional_text, replaced, texts, trimmed, words};
use vstd::prelude::*;
use vstd::string::*;

verus! {

// ---------------------------------------------------------------------------------------------
// Settings
// ---------------------------------------------------------------------------------------------

/// The credentials are those of the environment without the white space around them. A missing
/// address is named before a missing password, and a blank address before a blank password.
pub proof fn law_credentials_are_loaded(
    email: Option<String>,
    password: Option<String>,
    auth: Result<DashboardAuth, ConfigError>,
)
    requires
        call_ensures(load_dashboard_auth, (email, password), auth),
    ensures
        email is None ==> auth == Err::<DashboardAuth, ConfigError>(ConfigError::EmailMissing),
        email is Some && password is None ==> auth == Err::<DashboardAuth, ConfigError>(
            ConfigError::PasswordMissing,
        ),
        email is Some && password is Some ==> {
            let mail = trimmed(email->0@);
            let word = trimmed(password->0@);
            &&& mail.len() == 0 ==> auth == Err::<DashboardAuth, ConfigError>(
                ConfigError::EmailEmpty,
            )
            &&& mail.len() > 0 && word.len() == 0 ==> auth == Err::<DashboardAuth, ConfigError>(
                ConfigError::PasswordEmpty,
            )
            &&& mail.len() > 0 && word.len() > 0 ==> auth is Ok && auth->Ok_0.email@ == mail
                && auth->Ok_0.password@ == word
        },
{
}

/// Whether a variable is set and not blank.
pub open spec fn is_set(value: Option<String>) -> bool {
    value is Some && trimmed(value->0@).len() > 0
}

/// A variable that is set and not blank gives its setting, without the white space around it, and
/// any other leaves it.
pub proof fn law_environment_overrides_settings(
    config: &mut Config,
    env: &EnvOverrides,
    applied: Result<(), ConfigError>,
)
    requires
        call_ensures(apply_env_overrides, (config, env), applied),
    ensures
        is_set(env.log_path) ==> final(config).log.path@ == trimmed(env.log_path->0@),
        !is_set(env.log_path) ==> final(config).log.path@ == old(config).log.path@,
        is_set(env.audit_log_path) ==> final(config).audit.path@ == trimmed(
            env.audit_log_path->0@,
        ),
        !is_set(env.audit_log_path) ==> final(config).audit.path@ == old(config).audit.path@,
        is_set(env.web_hook_url) ==> final(config).slack.webhook_url@ == trimmed(
            env.web_hook_url->0@,
        ),
        !is_set(env.web_hook_url) ==> final(config).slack.webhook_url@
            == old(config).slack.webhook_url@,
        is_set(env.channel) ==> final(config).slack.channel@ == trimmed(env.channel->0@),
        !is_set(env.channel) ==> final(config).slack.channel@ == old(config).slack.channel@,
        final(config).app == old(config).app,
        final(config).window == old(config).window,
        final(config).baseline == old(config).baseline,
        final(config).thresholds == old(config).thresholds,
        final(config).dashboard == old(config).dashboard,
{
}

/// A variable for a truth value that is set and not blank switches its setting, and has to be one:
/// the first that is not is named, and then no later one is taken.
pub proof fn law_environment_switches_settings(
    config: &mut Config,
    env: &EnvOverrides,
    applied: Result<(), ConfigError>,
)
    requires
        call_ensures(apply_env_overrides, (config, env), applied),
    ensures
        ({
            let slack = env.enable_slack_notification;
            let slack_ok = !is_set(slack) || parsed_bool(slack->0@) is Some;
            let dry_ok = !is_set(env.dry_run) || parsed_bool(env.dry_run->0@) is Some;
            &&& slack_ok && dry_ok ==> applied is Ok
            &&& !slack_ok ==> (applied matches Err(ConfigError::NotBoolean(name)) && name@
                == "ENABLE_SLACK_NOTIFICATION"@)
            &&& slack_ok && !dry_ok ==> (applied matches Err(ConfigError::NotBoolean(name)) && name@
                == "DRY_RUN"@)
            &&& is_set(slack) && slack_ok ==> final(config).slack.enabled == parsed_bool(
                slack->0@,
            )->0
            &&& !is_set(slack) ==> final(config).slack.enabled == old(config).slack.enabled
            &&& is_set(env.dry_run) && slack_ok && dry_ok ==> final(config).blocking.dry_run
                == parsed_bool(env.dry_run->0@)->0
            &&& !is_set(env.dry_run) || !slack_ok || !dry_ok ==> final(config).blocking.dry_run
                == old(config).blocking.dry_run
            &&& final(config).blocking.iptables_chain == old(config).blocking.iptables_chain
            &&& final(config).blocking.ban_minutes == old(config).blocking.ban_minutes
            &&& final(config).blocking.ban_hours_final == old(config).blocking.ban_hours_final
            &&& final(config).blocking.strike_decay_hours
                == old(config).blocking.strike_decay_hours
        }),
{
}

/// A truth value is what its text says, and a text that says none is refused under the name of its
/// variable. A message names what is wrong.
pub proof fn law_truth_values_are_read(
    name: &str,
    value: &str,
    parsed: Result<bool, ConfigError>,
    error: &ConfigError,
    message: String,
)
    requires
        call_ensures(parse_bool_env, (name, value), parsed),
        call_ensures(ConfigError::message, (error,), message),
    ensures
        parsed_bool(value@) matches Some(truth) ==> parsed == Ok::<bool, ConfigError>(truth),
        parsed_bool(value@) is None ==> (parsed matches Err(ConfigError::NotBoolean(n)) && n@
            == name@),
        error matches ConfigError::NotBoolean(n) ==> message@ == n@
            + " must be a boolean value such as true or false"@,
        *error == ConfigError::EmailMissing ==> message@
            == "EMAIL must be set in .env or the process environment for dashboard auth"@,
        *error == ConfigError::PasswordMissing ==> message@
            == "PASSWORD must be set in .env or the process environment for dashboard auth"@,
        *error == ConfigError::EmailEmpty ==> message@ == "EMAIL must not be empty"@,
        *error == ConfigError::PasswordEmpty ==> message@ == "PASSWORD must not be empty"@,
{
}

/// A dotenv file makes the assignments of its lines, the command line names the settings file, and a
/// setting the level.
pub proof fn law_startup(
    raw: &str,
    defined: &Vec<String>,
    pairs: Vec<(String, String)>,
    args: &Vec<String>,
    path: String,
    setting: &str,
    level: &'static str,
    i: int,
)
    requires
        call_ensures(load_dotenv, (raw, defined), pairs),
        call_ensures(parse_config_path, (args,), path),
        call_ensures(logging_level, (setting,), level),
        0 <= i < pairs@.len(),
    ensures
        ({
            let made = dotenv_assignments(lines(raw@), texts(defined@).to_set());
            &&& pairs@.len() == made.len()
            &&& (pairs@[i].0@, pairs@[i].1@) == made[i]
        }),
        path@ == config_path(texts(args@)),
        level@ == level_name(setting@),
{
    let made = crate::config::assignment_texts(pairs@);
    assert(made.len() == pairs@.len());
    assert(made[i] == (pairs@[i].0@, pairs@[i].1@));
}

/// Whether settings and readings can be taken is told before they are, and parts are made of what
/// they are given.
pub proof fn law_parts_are_made(
    config: &Config,
    supported: bool,
    history: usize,
    fits: bool,
    raw: &str,
    readable: bool,
    chain: String,
    dry_run: bool,
    blocker: IptablesBlocker,
    enabled: bool,
    webhook: String,
    channel: String,
    notifier: SlackNotifier,
    sessions: Sessions,
    meter: CpuMeter,
)
    requires
        call_ensures(config_supported, (config,), supported),
        call_ensures(history_fits, (history,), fits),
        call_ensures(cpu_sample_fits, (raw,), readable),
        call_ensures(IptablesBlocker::new, (chain, dry_run), blocker),
        call_ensures(SlackNotifier::new, (enabled, webhook, channel), notifier),
        call_ensures(Sessions::new, (), sessions),
        call_ensures(CpuMeter::new, (), meter),
    ensures
        supported <==> config_fits(*config),
        fits <==> -9_223_372_036_854_775 <= span_of(history as nat) <= 9_223_372_036_854_775,
        readable <==> (tick_counts(raw@).len() >= 4 ==> sum(tick_counts(raw@)) <= u64::MAX),
        blocker.chain_name() == chain@ && blocker.is_dry_run() == dry_run,
        notifier.enabled == enabled && notifier.webhook_url == webhook && notifier.channel
            == channel,
        sessions@ == Map::<Seq<char>, u64>::empty(),
        meter.last is None,
{
}

// ---------------------------------------------------------------------------------------------
// Log
// ---------------------------------------------------------------------------------------------

/// A line is read without the white space around it, a blank one not at all; its fields make an
/// entry, and without fields there is none.
pub proof fn law_log_lines_are_read(
    line: &str,
    body: Option<String>,
    fields: Option<RawLogEntry>,
    now: Timestamp,
    entry: Option<LogEntry>,
    raw: &str,
    time: Timestamp,
    value: &Option<RawValue>,
    number: Option<u64>,
)
    requires
        call_ensures(line_body, (line,), body),
        call_ensures(parse_log_line, (fields, now), entry),
        call_ensures(parse_timestamp, (raw, now), time),
        call_ensures(value_to_u64, (value,), number),
    ensures
        trimmed(line@).len() == 0 ==> body is None,
        trimmed(line@).len() > 0 ==> body is Some && body->0@ == trimmed(line@),
        fields is None ==> entry is None,
        fields is Some ==> entry is Some && is_entry_of(entry->0, fields->0, now),
        time == time_of(raw@, now),
        number == number_of(*value),
{
}

/// A file is opened again where another one took its place or it was cut below what was read; a
/// file that was found is read from its end, and one that was opened again from its start.
pub proof fn law_files_are_followed(
    marker: FileMarker,
    position: u64,
    file: FileState,
    reopen: bool,
    probe: ProbeEvent,
    found: FollowStep,
    tail: Tail,
    read: ReadEvent,
    next: FollowStep,
    opened: ReopenEvent,
    resumed: FollowStep,
)
    requires
        call_ensures(should_reopen, (marker, position, file), reopen),
        call_ensures(after_probe, (probe,), found),
        call_ensures(Tail::after_read, (tail, read), next),
        call_ensures(Tail::after_reopen, (tail, opened), resumed),
    ensures
        reopen <==> file.marker.dev != marker.dev || file.marker.ino != marker.ino || file.len
            < position,
        probe == ProbeEvent::Missing || probe == ProbeEvent::OpenFailed ==> found
            == FollowStep::WaitAndProbe,
        probe == ProbeEvent::Directory ==> found == FollowStep::ReportDirectory,
        probe matches ProbeEvent::Opened(state) ==> found == FollowStep::ReadFromEnd(
            Tail { marker: state.marker, opened_len: state.len },
        ),
        next == tail.read_step(read),
        opened == ReopenEvent::Failed ==> resumed == FollowStep::Probe,
        opened matches ReopenEvent::Opened(state) ==> resumed == FollowStep::ReadFromStart(
            Tail { marker: state.marker, opened_len: tail.opened_len },
        ),
{
}

// ---------------------------------------------------------------------------------------------
// Firewall
// ---------------------------------------------------------------------------------------------

/// Blocking inserts the rule of the address; removing it looks for the rule first, but for a dry
/// run, which only names commands and succeeds.
pub proof fn law_firewall(
    blocker: &IptablesBlocker,
    address: &str,
    block: Invocation,
    first: UnblockStep,
    check: CommandOutcome,
    second: UnblockStep,
    outcome: Option<CommandOutcome>,
    blocked: bool,
)
    requires
        call_ensures(IptablesBlocker::block, (blocker, address), block),
        call_ensures(IptablesBlocker::unblock, (blocker, address), first),
        call_ensures(IptablesBlocker::after_check, (blocker, address, check), second),
        call_ensures(IptablesBlocker::completed, (blocker, &block, outcome), blocked),
    ensures
        ({
            let chain = blocker.chain_name();
            let insert = seq!["-I"@, chain, "-s"@, address@, "-j"@, "DROP"@];
            let look = seq!["-C"@, chain, "-s"@, address@, "-j"@, "DROP"@];
            let delete = seq!["-D"@, chain, "-s"@, address@, "-j"@, "DROP"@];
            let dry = blocker.is_dry_run();
            &&& dry ==> (block matches Invocation::DryRun(args) && texts(args@) == insert)
                && blocked
            &&& !dry ==> (block matches Invocation::Execute(args) && texts(args@) == insert) && (
            blocked <==> outcome == Some(CommandOutcome::Exited(true)))
            &&& dry ==> (first matches UnblockStep::Delete(Invocation::DryRun(args)) && texts(args@)
                == delete)
            &&& !dry ==> (first matches UnblockStep::Check(args) && texts(args@) == look)
            &&& check == CommandOutcome::Exited(false) ==> second == UnblockStep::Done(true)
            &&& check == CommandOutcome::NotStarted ==> second == UnblockStep::Done(false)
            &&& !dry && check == CommandOutcome::Exited(true) ==> (second
                matches UnblockStep::Delete(Invocation::Execute(args)) && texts(args@) == delete)
        }),
{
}

// ---------------------------------------------------------------------------------------------
// Baselines
// ---------------------------------------------------------------------------------------------

/// A baseline starts at its floors, keeps its samples, and tells its statistics.
pub proof fn law_baselines<T: Copy>(
    baseline: &RollingBaseline<T>,
    now: Timestamp,
    selection: Selection<T>,
    due: bool,
    snapshot: BaselineSnapshot,
    mean: Double,
    stddev: Double,
    slot: &str,
    found: bool,
)
    requires
        call_ensures(RollingBaseline::<T>::select, (baseline, now), selection),
        call_ensures(RollingBaseline::<T>::should_recalculate, (baseline, now), due),
        call_ensures(RollingBaseline::<T>::snapshot, (baseline,), snapshot),
        call_ensures(RollingBaseline::<T>::mean, (baseline,), mean),
        call_ensures(RollingBaseline::<T>::stddev, (baseline,), stddev),
        call_ensures(RollingBaseline::<T>::has_bucket, (baseline, slot), found),
    ensures
        selection.samples@ == baseline@.selected(now),
        selection.slot@ == baseline@.slot_used(now),
        due <==> (baseline@.last_recalculated_at matches Some(last) ==> now.seconds_after(last)
            >= baseline@.recalc_interval_seconds),
        snapshot.shows(baseline@),
        mean == baseline@.current.mean.value,
        stddev == baseline@.current.stddev.value,
        found <==> baseline@.buckets.dom().contains(slot@),
{
}

/// A sample and a recalculation change a baseline as their laws say.
pub proof fn law_baselines_change<T: Copy>(
    history_seconds: usize,
    interval: i64,
    min_samples: usize,
    floor_mean: Rounded,
    floor_stddev: Rounded,
    fresh: RollingBaseline<T>,
    sampled: &mut RollingBaseline<T>,
    time: Timestamp,
    value: T,
    recalculated: &mut RollingBaseline<T>,
    moments: Moments,
    stats: BaselineStats,
)
    requires
        call_ensures(
            RollingBaseline::<T>::new,
            (history_seconds, interval, min_samples, floor_mean, floor_stddev),
            fresh,
        ),
        call_ensures(RollingBaseline::<T>::add_sample, (sampled, time, value), ()),
        call_ensures(RollingBaseline::<T>::recalculate, (recalculated, time, moments), stats),
    ensures
        fresh@ == BaselineView::<T>::fresh(
            history_seconds as nat,
            interval as int,
            min_samples as nat,
            floor_mean,
            floor_stddev,
        ),
        final(sampled)@ == old(sampled)@.with_sample(time, value),
        final(recalculated)@ == old(recalculated)@.recalculated(
            time,
            moments.mean,
            moments.stddev,
        ),
        stats.mean == final(recalculated)@.current.mean,
        stats.stddev == final(recalculated)@.current.stddev,
        stats.sample_size == final(recalculated)@.current.sample_size,
        stats.hour_slot@ == final(recalculated)@.current.hour_slot,
{
}

// ---------------------------------------------------------------------------------------------
// Engine
// ---------------------------------------------------------------------------------------------

/// An entry and a tick are taken in, and the rest of the pass follows.
pub proof fn law_passes_start(
    config: Config,
    started_at: Timestamp,
    fresh: DetectionEngine,
    engine: &mut DetectionEngine,
    entry: LogEntry,
    step: PassStep,
    other: &mut DetectionEngine,
    now: Timestamp,
    tick: PassStep,
    third: &mut DetectionEngine,
    before: PassStep,
    answer: PassAnswer,
    next: (PassStep, Option<Event>),
)
    requires
        call_ensures(DetectionEngine::new, (config, started_at), fresh),
        call_ensures(DetectionEngine::process_entry, (engine, entry), step),
        call_ensures(DetectionEngine::tick, (other, now), tick),
        call_ensures(DetectionEngine::advance, (third, before, answer), next),
    ensures
        fresh@ == EngineView::initial(config, fresh@.blocker, fresh@.notifier, started_at),
        fresh@.blocker.chain_name() == config.blocking.iptables_chain@,
        fresh@.blocker.is_dry_run() == config.blocking.dry_run,
        fresh@.notifier.enabled == config.slack.enabled,
        fresh@.notifier.webhook_url@ == config.slack.webhook_url@,
        fresh@.notifier.channel@ == config.slack.channel@,
        final(engine)@ == old(engine)@.observed(entry.source_ip@, entry.timestamp, entry.status),
        step matches PassStep::JudgeAll(seen) && seen.shows(
            final(engine)@,
            entry.source_ip@,
            entry.timestamp,
        ),
        final(other)@ == old(other)@.ticked(now),
        tick@ == last_need(final(other)@, now),
        final(third)@ == advanced(old(third)@, before@, answer@).0,
        next.0@ == advanced(old(third)@, before@, answer@).1,
        next.1 is Some <==> advanced(old(third)@, before@, answer@).2 is Some,
        next.1 matches Some(event) ==> event@ == advanced(old(third)@, before@, answer@).2->0,
{
}

/// Judging all traffic reports an alert where one is raised, and judging an address gives the ban
/// that it leads to.
pub proof fn law_judgements(
    engine: &mut DetectionEngine,
    now: Timestamp,
    global: GlobalFigures,
    alert: Option<Event>,
    other: &mut DetectionEngine,
    ip: &str,
    figures: IpFigures,
    ban: Option<BanRecord>,
    third: &DetectionEngine,
    raises: bool,
)
    requires
        call_ensures(DetectionEngine::detect_global, (engine, now, global), alert),
        call_ensures(DetectionEngine::detect_ip, (other, ip, now, figures), ban),
        call_ensures(DetectionEngine::would_ban, (third, ip, figures), raises),
    ensures
        alert is Some <==> old(engine)@.raises_alert(now, global),
        alert matches Some(event) ==> event@.what is GlobalAlert && event.rate == global.rate
            && event.baseline == old(engine)@.global_baseline.current.mean.value,
        final(engine)@ == old(engine)@.global_judged(now, global),
        ban is Some <==> old(other)@.raises_ban(ip@, figures),
        ban matches Some(record) ==> record@ == old(other)@.next_ban(
            ip@,
            now,
            figures.condition(),
        ),
        final(other)@ == old(other)@.ip_judged(ip@, now, figures),
        raises <==> third@.raises_ban(ip@, figures),
{
}

/// A ban is in force, or over, where the firewall has followed, and then it is reported: with the
/// rate that led to it and the baseline of the address, or with a rate of zero and the baseline of
/// all traffic.
pub proof fn law_confirmations(
    engine: &mut DetectionEngine,
    ban: BanRecord,
    blocked: bool,
    figures: IpFigures,
    made: Option<Event>,
    other: &mut DetectionEngine,
    ended: BanRecord,
    unblocked: bool,
    over: Option<Event>,
    third: &DetectionEngine,
    now: Timestamp,
    expired: Vec<BanRecord>,
)
    requires
        call_ensures(DetectionEngine::confirm_ban, (engine, ban, blocked, figures), made),
        call_ensures(DetectionEngine::confirm_unban, (other, ended, unblocked), over),
        call_ensures(DetectionEngine::run_unban_checks, (third, now), expired),
    ensures
        blocked ==> final(engine)@ == old(engine)@.with_ban(ban@),
        !blocked ==> final(engine)@ == old(engine)@ && made is None,
        blocked ==> (made matches Some(event) && event@.what == OccurrenceView::Ban(ban@)
            && event.rate == figures.rate && event.baseline == old(engine)@.baseline_of(
            ban.ip@,
        ).current.mean.value),
        unblocked ==> final(other)@ == old(other)@.without_ban(ended.ip@),
        !unblocked ==> final(other)@ == old(other)@ && over is None,
        unblocked ==> (over matches Some(event) && event@.what == OccurrenceView::Unban(ended@)
            && event.rate.bits == 0 && event.baseline
            == old(other)@.global_baseline.current.mean.value),
        ban_views(expired@) == third@.expired(now),
{
}

/// The baselines are recalculated where that is due, from the samples that are given out for it, and
/// that is reported with the mean of all traffic. A snapshot shows the state.
pub proof fn law_recalculations(
    engine: &DetectionEngine,
    now: Timestamp,
    samples: Option<DueSamples>,
    other: &mut DetectionEngine,
    moments: &DueMoments,
    event: Option<Event>,
    third: &mut DetectionEngine,
    snapshot: EngineSnapshot,
)
    requires
        call_ensures(DetectionEngine::due_samples, (engine, now), samples),
        call_ensures(DetectionEngine::maybe_recalculate, (other, now, moments), event),
        call_ensures(DetectionEngine::snapshot, (third, now), snapshot),
    ensures
        samples is Some <==> engine@.global_baseline.is_due(now),
        samples matches Some(due) ==> due.global.samples@ == engine@.global_baseline.selected(now)
            && due.error.samples@ == engine@.error_baseline.selected(now) && due.are_of(
            engine@,
            now,
        ),
        event is Some <==> old(other)@.global_baseline.is_due(now),
        event matches Some(happened) ==> {
            let stats = final(other)@.global_baseline.current;
            &&& happened@.what == OccurrenceView::Recalculated(stats.hour_slot)
            &&& happened.rate == stats.mean.value
            &&& happened.baseline == stats.mean.value
        },
        final(other)@ == old(other)@.recalculated(now, moments@),
        final(third)@ == old(third)@.evicted(now),
        snapshot.shows(final(third)@, now),
{
}

/// What is asked of the engine without changing it is what its state says.
pub proof fn law_questions(
    engine: &DetectionEngine,
    ip: &str,
    now: Timestamp,
    room: bool,
    fits: bool,
    blocker: &IptablesBlocker,
    notifier: &SlackNotifier,
    mean: Double,
    record: &StrikeRecord,
    banned: &Table<BanRecord>,
    cutoff: Timestamp,
    stays: bool,
    seconds: i64,
    label: String,
)
    requires
        call_ensures(DetectionEngine::has_room, (engine, ip), room),
        call_ensures(DetectionEngine::can_ban, (engine, ip, now), fits),
        call_ensures(DetectionEngine::blocker, (engine,), blocker),
        call_ensures(DetectionEngine::notifier, (engine,), notifier),
        call_ensures(DetectionEngine::global_mean, (engine,), mean),
        call_ensures(should_retain_strike, (ip, record, banned, cutoff), stays),
        call_ensures(format_ban_duration, (seconds,), label),
    ensures
        room <==> engine@.has_room(ip@),
        fits <==> engine@.can_ban(ip@, now),
        *blocker == engine@.blocker,
        *notifier == engine@.notifier,
        mean == engine@.global_baseline.current.mean.value,
        stays <==> banned@.dom().contains(ip@) || record.last_seen == cutoff || cutoff.is_before(
            record.last_seen,
        ),
        label@ == crate::bans::duration_text(seconds as int),
{
}

// ---------------------------------------------------------------------------------------------
// Reports
// ---------------------------------------------------------------------------------------------

/// A notification is about what it is told of.
pub proof fn law_notifications(
    notifier: &SlackNotifier,
    title: &str,
    condition: &str,
    time: Timestamp,
    figures: &RateFigures,
    duration: Option<&str>,
    ip: Option<&str>,
    strike: Option<usize>,
    delivery: Delivery,
)
    requires
        call_ensures(
            SlackNotifier::notify,
            (notifier, title, condition, time, figures, duration, ip, strike),
            delivery,
        ),
    ensures
        notifier.delivers(
            delivery,
            (NoticeView {
                title: title@,
                condition: condition@,
                timestamp: time,
                rate: figures.rate,
                baseline: figures.baseline,
                rate_text: figures.rate_text@,
                baseline_text: figures.baseline_text@,
                multiple_text: figures.multiple_text@,
                duration: token_text(duration),
                ip_address: token_text(ip),
                strike_count: if strike is Some {
                    Some(strike->0 as nat)
                } else {
                    None
                },
            }),
        ),
        token_text(duration) == if duration is Some {
            Some(duration->0@)
        } else {
            None
        },
{
}

/// An event is written and announced as its laws say.
pub proof fn law_events_are_reported(
    event: &Event,
    time: Timestamp,
    rate: String,
    baseline: String,
    line: String,
    title: Option<String>,
    notifier: &SlackNotifier,
    given: RateTexts,
    delivery: Option<Delivery>,
    record: &AuditRecord,
    row: String,
)
    requires
        call_ensures(Event::audit_line, (event, time, rate, baseline), line),
        call_ensures(Event::title, (event,), title),
        call_ensures(Event::announce, (event, notifier, time, given), delivery),
        call_ensures(audit_line, (record,), row),
    ensures
        line@ == event@.line(time, rate@, baseline@),
        optional_text(title) == event@.title(),
        delivery is Some <==> event@.title() is Some,
        delivery matches Some(sent) ==> notifier.delivers(sent, event@.notice(time, given)),
        row@ == "["@ + rfc3339_text(record.time.seconds, record.time.nanos) + "] "@
            + record.action@ + " "@ + record.ip_address@ + " | "@ + record.condition@ + " | "@
            + record.rate@ + " | "@ + record.baseline@ + " | "@ + record.duration@ + "\n"@,
{
}

/// The tail of the audit trail are its last twelve lines, in order, or all where there are fewer;
/// the resident pages are the second word.
pub proof fn law_host_reports(
    raw: &str,
    tail: Vec<String>,
    pages: Option<String>,
    sample: Option<CpuSample>,
    seconds: i64,
    duration: String,
    i: int,
)
    requires
        call_ensures(tail_audit, (raw,), tail),
        call_ensures(resident_pages, (raw,), pages),
        call_ensures(read_cpu_sample, (raw,), sample),
        call_ensures(format_duration, (seconds,), duration),
        0 <= i < tail@.len(),
    ensures
        ({
            let all = lines(raw@);
            &&& tail@.len() == if all.len() < 12 {
                all.len()
            } else {
                12
            }
            &&& tail@[i]@ == all[all.len() - tail@.len() + i]
        }),
        words(raw@).len() < 2 ==> pages is None,
        words(raw@).len() >= 2 ==> pages is Some && pages->0@ == words(raw@)[1],
        sample == cpu_sample(raw@),
        duration@ == clock_text(seconds as int),
{
    let shown = texts(tail@);
    assert(shown.len() == tail@.len());
    assert(shown[i] == tail@[i]@);
    crate::baseline::law_last_items(lines(raw@), 12);
}

/// A meter compares a reading with the one before it, and keeps it; a reading that failed is not
/// kept.
pub proof fn law_meter(
    meter: &mut CpuMeter,
    current: Option<CpuSample>,
    share: Option<CpuShare>,
)
    requires
        call_ensures(CpuMeter::cpu_percent, (meter, current), share),
    ensures
        current is None ==> share is None && final(meter).last == old(meter).last,
        current is Some ==> final(meter).last == current,
        current is Some && old(meter).last is None ==> share is None,
        current is Some && old(meter).last is Some ==> share == share_between(
            old(meter).last->0,
            current->0,
        ),
{
}

// ---------------------------------------------------------------------------------------------
// Dashboard
// ---------------------------------------------------------------------------------------------

/// The login page with an error text, which is not hidden.
pub open spec fn replaced_page(template: Seq<char>, error: Seq<char>) -> Seq<char> {
    replaced(replaced(template, "{{error_hidden}}"@, Seq::empty()), "{{error}}"@, error)
}

/// Bodies, cookies and headers are read as their laws say.
pub proof fn law_requests_are_read(
    raw: &str,
    text: String,
    bytes: &[u8],
    plain: Vec<u8>,
    fields: Table<String>,
    found: Table<String>,
    headers: &Vec<(String, String)>,
    token: Option<String>,
    forwarded: Option<&str>,
    first: Option<String>,
    remote: Option<&str>,
    trusted: &Vec<String>,
    ip: String,
)
    requires
        call_ensures(percent_decode, (raw,), text),
        call_ensures(decode_bytes, (bytes,), plain),
        call_ensures(parse_form_body, (raw,), fields),
        call_ensures(parse_cookie_header, (raw,), found),
        call_ensures(extract_session_cookie, (headers,), token),
        call_ensures(first_forwarded_for_ip, (forwarded,), first),
        call_ensures(vetted_client_ip, (remote, forwarded, trusted), ip),
    ensures
        text@ == percent_decoded(raw@),
        plain@ == decoded(bytes@),
        fields@ == form_fields(raw@),
        found@ == cookies(raw@),
        optional_text(token) == session_cookie(header_texts(headers@)),
        optional_text(first) == first_forwarded(token_text(forwarded)),
        ip@ == client_ip(token_text(remote), token_text(forwarded), texts(trusted@)),
{
}

/// A request is answered, and changes the sessions, as the laws say.
pub proof fn law_requests_are_answered(
    is_post: bool,
    path: &str,
    token: Option<&str>,
    sessions: &mut Sessions,
    now: u64,
    template: &str,
    answer: Answer,
    random: &[u8; 16],
    text: String,
)
    requires
        call_ensures(handle_request, (is_post, path, token, sessions, now, template), answer),
        call_ensures(generate_token, (random,), text),
    ensures
        answer@ == answer_to(
            is_post,
            path@,
            is_open(old(sessions)@, token_text(token), now),
            template@,
        ),
        final(sessions)@ == sessions_after(
            is_post,
            path@,
            token_text(token),
            old(sessions)@,
            now,
        ),
        text@ == hex_text(random@),
        text@.len() == 32,
{
}

/// A login from an address that is locked out is refused with status 429; of others the credentials
/// are accepted and clear the failures, and anything else is refused with status 401 and counts as a
/// failure. The session of an accepted login lasts an hour, and its cookie is handed out.
pub proof fn law_logins_are_answered(
    body: &str,
    auth: &DashboardAuth,
    ip: &str,
    limiter: &mut Table<LoginAttempt>,
    now: u64,
    template: &str,
    refusal: Option<Reply>,
    other: &mut Table<LoginAttempt>,
    lockout: Option<Reply>,
    token: String,
    sessions: &mut Sessions,
    reply: Reply,
)
    requires
        call_ensures(handle_login, (body, auth, ip, limiter, now, template), refusal),
        call_ensures(refuse_locked_out, (ip, other, now, template), lockout),
        call_ensures(start_session, (token, sessions, now), reply),
    ensures
        is_credentials(body@, *auth) ==> refusal is None && final(limiter)@ == old(limiter)@.remove(
            ip@,
        ),
        !is_credentials(body@, *auth) ==> refusal is Some && final(limiter)@ == with_failure(
            old(limiter)@,
            ip@,
            now,
        ) && refusal->0@.status == 401 && refusal->0@.body == replaced_page(
            template@,
            "Invalid email or password. Try again."@,
        ),
        is_limited(old(other)@, ip@, now) ==> lockout is Some && lockout->0@.status == 429
            && lockout->0@.body == replaced_page(
            template@,
            "Too many failed attempts. Please wait 30 seconds."@,
        ),
        !is_limited(old(other)@, ip@, now) ==> lockout is None,
        final(other)@ == checked(old(other)@, ip@, now),
        final(sessions)@ == old(sessions)@.insert(token@, (now + 3_600_000_000_000) as u64),
        reply@.status == 303,
        reply@.headers == seq![
            ("Location"@, "/"@),
            ("Set-Cookie"@, crate::dashboard::session_cookie_text(token@)),
        ],
{
    reveal_strlit("");
    assert(""@ =~= Seq::empty());
}

/// The limiter and the sessions change as their laws say.
pub proof fn law_limiter_and_sessions(
    ip: &str,
    now: u64,
    limited: bool,
    a: &mut Table<LoginAttempt>,
    b: &mut Table<LoginAttempt>,
    c: &mut Table<LoginAttempt>,
    d: &mut Table<LoginAttempt>,
    token: String,
    name: Option<&str>,
    authenticated: bool,
    e: &mut Sessions,
    f: &mut Sessions,
    g: &mut Sessions,
)
    requires
        call_ensures(is_rate_limited, (ip, a, now), limited),
        call_ensures(record_failure, (ip, b, now), ()),
        call_ensures(reset_failures, (ip, c), ()),
        call_ensures(prune_limiter, (d, now), ()),
        call_ensures(Sessions::start, (e, token, now), ()),
        call_ensures(Sessions::revoke, (f, name), ()),
        call_ensures(Sessions::is_authenticated, (g, name, now), authenticated),
    ensures
        limited <==> is_limited(old(a)@, ip@, now),
        final(a)@ == checked(old(a)@, ip@, now),
        final(b)@ == with_failure(old(b)@, ip@, now),
        final(c)@ == old(c)@.remove(ip@),
        final(d)@ == pruned(old(d)@, now),
        final(e)@ == old(e)@.insert(token@, (now + 3_600_000_000_000) as u64),
        name is Some ==> final(f)@ == old(f)@.remove(name->0@),
        name is None ==> final(f)@ == old(f)@,
        authenticated <==> name is Some && old(g)@.dom().contains(name->0@) && now
            < old(g)@[name->0@],
        authenticated ==> final(g)@ == old(g)@,
        !authenticated && name is Some ==> final(g)@ == old(g)@.remove(name->0@),
{
}

} // verus!
