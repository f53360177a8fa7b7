//! Settings, their environment overrides, and the dotenv format.

use crate::double::{Double, Rounded};
use crate::text::{
    chars_of, contains_text, halves, is_white, law_padding_is_trimmed, lemma_position, lines, lower,
    lowered, optional_text, same_text, split_lines, split_once, strip, strip_back, strip_front,
    stripped, text_of, texts, trim, trimmed, views, Strip,
};
use vstd::prelude::*;
use vstd::string::*;

verus! {

// ---------------------------------------------------------------------------------------------
// Settings
// ---------------------------------------------------------------------------------------------

/// All settings.
#[derive(Clone, Debug)]
pub struct Config {
    pub app: AppConfig,
    pub log: LogConfig,
    pub window: WindowConfig,
    pub baseline: BaselineConfig,
    pub thresholds: ThresholdConfig,
    pub blocking: BlockingConfig,
    pub slack: SlackConfig,
    pub dashboard: DashboardConfig,
    pub audit: AuditConfig,
}

/// The daemon itself.
#[derive(Clone, Debug)]
pub struct AppConfig {
    pub log_level: String,
}

/// The access log.
#[derive(Clone, Debug)]
pub struct LogConfig {
    pub path: String,
}

/// The sliding window.
#[derive(Clone, Debug)]
pub struct WindowConfig {
    pub seconds: i64,
}

/// The rolling baselines.
#[derive(Clone, Copy, Debug)]
pub struct BaselineConfig {
    pub history_seconds: usize,
    pub recalc_interval_seconds: i64,
    pub min_samples_per_hour: usize,
    pub floor_mean: Rounded,
    pub floor_stddev: Rounded,
}

/// The limits of detection.
#[derive(Clone, Copy, Debug)]
pub struct ThresholdConfig {
    pub zscore: Double,
    pub rate_multiplier: Double,
    pub tightening_factor: Double,
    pub error_multiplier: Double,
    pub error_floor_mean: Rounded,
    pub error_floor_stddev: Rounded,
    pub global_alert_cooldown_seconds: i64,
}

/// Blocking and its schedule.
#[derive(Clone, Debug)]
pub struct BlockingConfig {
    pub dry_run: bool,
    pub iptables_chain: String,
    pub ban_minutes: Vec<i64>,
    pub ban_hours_final: i64,
    pub strike_decay_hours: i64,
}

/// Slack notifications.
#[derive(Clone, Debug)]
pub struct SlackConfig {
    pub enabled: bool,
    pub webhook_url: String,
    pub channel: String,
}

/// The dashboard.
#[derive(Clone, Debug)]
pub struct DashboardConfig {
    pub host: String,
    pub port: u16,
    pub trusted_proxies: Vec<String>,
}

/// The audit trail.
#[derive(Clone, Debug)]
pub struct AuditConfig {
    pub path: String,
}

/// The credentials of the dashboard.
#[derive(Clone, Debug)]
pub struct DashboardAuth {
    pub email: String,
    pub password: String,
}

/// What is wrong with the environment.
#[derive(Debug)]
pub enum ConfigError {
    /// The named variable does not hold a truth value.
    NotBoolean(String),
    /// The variable EMAIL is not set.
    EmailMissing,
    /// The variable PASSWORD is not set.
    PasswordMissing,
    /// The variable EMAIL is blank.
    EmailEmpty,
    /// The variable PASSWORD is blank.
    PasswordEmpty,
}

impl ConfigError {
    /// The text of the error.
    pub open spec fn text(self) -> Seq<char> {
        match self {
            ConfigError::NotBoolean(name) => name@
                + " must be a boolean value such as true or false"@,
            ConfigError::EmailMissing =>
                "EMAIL must be set in .env or the process environment for dashboard auth"@,
            ConfigError::PasswordMissing =>
                "PASSWORD must be set in .env or the process environment for dashboard auth"@,
            ConfigError::EmailEmpty => "EMAIL must not be empty"@,
            ConfigError::PasswordEmpty => "PASSWORD must not be empty"@,
        }
    }

    /// The message of the error.
    pub fn message(&self) -> (message: String)
        ensures
            message@ == self.text(),
    {
        match self {
            ConfigError::NotBoolean(name) => {
                let mut message = name.clone();
                message.append(" must be a boolean value such as true or false");
                message
            },
            ConfigError::EmailMissing => {
                "EMAIL must be set in .env or the process environment for dashboard auth".to_owned()
            },
            ConfigError::PasswordMissing => {
                "PASSWORD must be set in .env or the process environment for dashboard auth".to_owned()
            },
            ConfigError::EmailEmpty => "EMAIL must not be empty".to_owned(),
            ConfigError::PasswordEmpty => "PASSWORD must not be empty".to_owned(),
        }
    }
}

// ---------------------------------------------------------------------------------------------
// Environment overrides
// ---------------------------------------------------------------------------------------------

/// The variables that override settings, where they are set.
pub struct EnvOverrides {
    /// LOG_PATH
    pub log_path: Option<String>,
    /// AUDIT_LOG_PATH
    pub audit_log_path: Option<String>,
    /// WEB_HOOK_URL
    pub web_hook_url: Option<String>,
    /// CHANNEL
    pub channel: Option<String>,
    /// ENABLE_SLACK_NOTIFICATION
    pub enable_slack_notification: Option<String>,
    /// DRY_RUN
    pub dry_run: Option<String>,
}

/// The truth value that a text denotes, without regard to case and surrounding white space.
pub open spec fn parsed_bool(s: Seq<char>) -> Option<bool> {
    let word = lowered(trimmed(s));
    if word == "true"@ || word == "1"@ || word == "yes"@ || word == "y"@ || word == "on"@ {
        Some(true)
    } else if word == "false"@ || word == "0"@ || word == "no"@ || word == "n"@ || word == "off"@ {
        Some(false)
    } else {
        None
    }
}

/// Reads a truth value from the variable `name`.
pub fn parse_bool_env(name: &str, value: &str) -> (parsed: Result<bool, ConfigError>)
    ensures
        match parsed {
            Ok(truth) => parsed_bool(value@) == Some(truth),
            Err(error) => parsed_bool(value@) is None && (error matches ConfigError::NotBoolean(n)
                && n@ == name@),
        },
{
    let chars = chars_of(value);
    let word = lower(strip(chars.as_slice(), Strip::White));
    let word = word.as_str();
    if same_text(word, "true") || same_text(word, "1") || same_text(word, "yes") || same_text(
        word,
        "y",
    ) || same_text(word, "on") {
        Ok(true)
    } else if same_text(word, "false") || same_text(word, "0") || same_text(word, "no")
        || same_text(word, "n") || same_text(word, "off") {
        Ok(false)
    } else {
        Err(ConfigError::NotBoolean(name.to_owned()))
    }
}

/// A text setting after its override: the trimmed override, unless it is unset or blank.
pub open spec fn overridden(current: Seq<char>, value: Option<Seq<char>>) -> Seq<char> {
    match value {
        Some(value) => if trimmed(value).len() > 0 {
            trimmed(value)
        } else {
            current
        },
        None => current,
    }
}

/// Whether an override of a truth value is to be read: it is set and not blank.
pub open spec fn is_given(value: Option<Seq<char>>) -> bool {
    match value {
        Some(value) => trimmed(value).len() > 0,
        None => false,
    }
}

/// Whether an override of a truth value can be taken.
pub open spec fn is_acceptable(value: Option<Seq<char>>) -> bool {
    is_given(value) ==> parsed_bool(value->0) is Some
}

/// A truth value after its override.
pub open spec fn switched(current: bool, value: Option<Seq<char>>) -> bool {
    if is_given(value) && parsed_bool(value->0) is Some {
        parsed_bool(value->0)->0
    } else {
        current
    }
}

fn override_text(current: &mut String, value: &Option<String>)
    ensures
        final(current)@ == overridden(old(current)@, optional_text(*value)),
{
    match value {
        Some(value) => {
            let value = trim(value.as_str());
            if !value.as_str().is_empty() {
                *current = value;
            }
        },
        None => {},
    }
}

fn override_switch(current: &mut bool, name: &str, value: &Option<String>) -> (taken: Result<
    (),
    ConfigError,
>)
    ensures
        *final(current) == switched(*old(current), optional_text(*value)),
        match taken {
            Ok(_) => is_acceptable(optional_text(*value)),
            Err(error) => !is_acceptable(optional_text(*value)) && (error
                matches ConfigError::NotBoolean(n) && n@ == name@),
        },
{
    match value {
        Some(value) => {
            let value = value.as_str();
            if !trim(value).as_str().is_empty() {
                match parse_bool_env(name, value) {
                    Ok(truth) => {
                        *current = truth;
                    },
                    Err(error) => {
                        return Err(error);
                    },
                }
            }
        },
        None => {},
    }
    Ok(())
}

/// Overrides settings by environment variables. A variable that is unset or blank changes nothing.
/// A variable that should hold a truth value and does not is an error, after which the variables
/// that come later are not taken.
pub fn apply_env_overrides(config: &mut Config, env: &EnvOverrides) -> (applied: Result<
    (),
    ConfigError,
>)
    ensures
        ({
            let slack = is_acceptable(optional_text(env.enable_slack_notification));
            let dry_run = is_acceptable(optional_text(env.dry_run));
            match applied {
                Ok(_) => slack && dry_run,
                Err(ConfigError::NotBoolean(name)) => {
                    if !slack {
                        name@ == "ENABLE_SLACK_NOTIFICATION"@
                    } else {
                        !dry_run && name@ == "DRY_RUN"@
                    }
                },
                Err(_) => false,
            }
        }),
        final(config).log.path@ == overridden(old(config).log.path@, optional_text(env.log_path)),
        final(config).audit.path@ == overridden(
            old(config).audit.path@,
            optional_text(env.audit_log_path),
        ),
        final(config).slack.webhook_url@ == overridden(
            old(config).slack.webhook_url@,
            optional_text(env.web_hook_url),
        ),
        final(config).slack.channel@ == overridden(
            old(config).slack.channel@,
            optional_text(env.channel),
        ),
        final(config).slack.enabled == switched(
            old(config).slack.enabled,
            optional_text(env.enable_slack_notification),
        ),
        final(config).blocking == (BlockingConfig {
            dry_run: if is_acceptable(optional_text(env.enable_slack_notification)) {
                switched(old(config).blocking.dry_run, optional_text(env.dry_run))
            } else {
                old(config).blocking.dry_run
            },
            ..old(config).blocking
        }),
        final(config).app == old(config).app,
        final(config).window == old(config).window,
        final(config).baseline == old(config).baseline,
        final(config).thresholds == old(config).thresholds,
        final(config).dashboard == old(config).dashboard,
{
    override_text(&mut config.log.path, &env.log_path);
    override_text(&mut config.audit.path, &env.audit_log_path);
    override_text(&mut config.slack.webhook_url, &env.web_hook_url);
    override_text(&mut config.slack.channel, &env.channel);
    match override_switch(
        &mut config.slack.enabled,
        "ENABLE_SLACK_NOTIFICATION",
        &env.enable_slack_notification,
    ) {
        Ok(_) => {},
        Err(error) => {
            return Err(error);
        },
    }
    override_switch(&mut config.blocking.dry_run, "DRY_RUN", &env.dry_run)
}

// ---------------------------------------------------------------------------------------------
// Credentials
// ---------------------------------------------------------------------------------------------

/// Takes the credentials of the dashboard from the variables EMAIL and PASSWORD.
pub fn load_dashboard_auth(email: Option<String>, password: Option<String>) -> (auth: Result<
    DashboardAuth,
    ConfigError,
>)
    ensures
        match auth {
            Ok(auth) => {
                &&& email is Some && auth.email@ == trimmed(email->0@) && auth.email@.len() > 0
                &&& password is Some && auth.password@ == trimmed(password->0@)
                    && auth.password@.len() > 0
            },
            Err(ConfigError::EmailMissing) => email is None,
            Err(ConfigError::PasswordMissing) => email is Some && password is None,
            Err(ConfigError::EmailEmpty) => email is Some && password is Some && trimmed(
                email->0@,
            ).len() == 0,
            Err(ConfigError::PasswordEmpty) => {
                &&& email is Some && trimmed(email->0@).len() > 0
                &&& password is Some && trimmed(password->0@).len() == 0
            },
            Err(ConfigError::NotBoolean(_)) => false,
        },
{
    let email = match email {
        Some(email) => trim(email.as_str()),
        None => {
            return Err(ConfigError::EmailMissing);
        },
    };
    let password = match password {
        Some(password) => trim(password.as_str()),
        None => {
            return Err(ConfigError::PasswordMissing);
        },
    };
    if email.as_str().is_empty() {
        return Err(ConfigError::EmailEmpty);
    }
    if password.as_str().is_empty() {
        return Err(ConfigError::PasswordEmpty);
    }
    Ok(DashboardAuth { email, password })
}

// ---------------------------------------------------------------------------------------------
// Dotenv
// ---------------------------------------------------------------------------------------------

/// The name and the value that a line assigns; none where it is blank or a comment or has no
/// equals sign. Double quotes around the value are removed, then single quotes.
pub open spec fn dotenv_pair(line: Seq<char>) -> Option<(Seq<char>, Seq<char>)> {
    let body = trimmed(line);
    if body.len() == 0 || body[0] == '#' {
        None
    } else {
        match halves(body, '=') {
            Some((name, value)) => Some(
                (
                    trimmed(name),
                    stripped(stripped(trimmed(value), Strip::Only('"')), Strip::Only('\'')),
                ),
            ),
            None => None,
        }
    }
}

/// The assignments to make, line by line: a name that is defined already, by the environment or
/// by an earlier line, keeps its value.
pub open spec fn dotenv_assignments(
    lines: Seq<Seq<char>>,
    defined: Set<Seq<char>>,
) -> Seq<(Seq<char>, Seq<char>)>
    decreases lines.len(),
{
    if lines.len() == 0 {
        seq![]
    } else {
        match dotenv_pair(lines[0]) {
            Some((name, value)) => if defined.contains(name) {
                dotenv_assignments(lines.drop_first(), defined)
            } else {
                seq![(name, value)] + dotenv_assignments(lines.drop_first(), defined.insert(name))
            },
            None => dotenv_assignments(lines.drop_first(), defined),
        }
    }
}

/// The texts of some assignments.
pub open spec fn assignment_texts(pairs: Seq<(String, String)>) -> Seq<(Seq<char>, Seq<char>)> {
    Seq::new(pairs.len(), |i: int| (pairs[i].0@, pairs[i].1@))
}

fn parse_dotenv_line(line: &[char]) -> (pair: Option<(String, String)>)
    ensures
        match pair {
            Some((name, value)) => dotenv_pair(line@) == Some((name@, value@)),
            None => dotenv_pair(line@) is None,
        },
{
    let body = strip(line, Strip::White);
    if body.len() == 0 || body[0] == '#' {
        return None;
    }
    match split_once(body, '=') {
        Some((name, value)) => {
            let name = strip(name, Strip::White);
            let value = strip(
                strip(strip(value, Strip::White), Strip::Only('"')),
                Strip::Only('\''),
            );
            Some((text_of(name), text_of(value)))
        },
        None => None,
    }
}

/// The assignments that a dotenv file makes in an environment in which the names `defined` are set.
pub fn load_dotenv(raw: &str, defined: &Vec<String>) -> (pairs: Vec<(String, String)>)
    ensures
        assignment_texts(pairs@) == dotenv_assignments(lines(raw@), texts(defined@).to_set()),
{
    let chars = chars_of(raw);
    let rows = split_lines(chars.as_slice());
    let mut pairs: Vec<(String, String)> = Vec::new();
    let mut names: Vec<String> = Vec::new();
    let ghost base = texts(defined@).to_set();
    let ghost all = lines(raw@);
    let mut i: usize = 0;
    proof {
        assert(all.skip(0) =~= all);
        assert(base.union(texts(names@).to_set()) =~= base);
        assert(assignment_texts(pairs@) + dotenv_assignments(all, base) =~= dotenv_assignments(
            all,
            base,
        ));
    }
    while i < rows.len()
        invariant
            all == views(rows@),
            base == texts(defined@).to_set(),
            i <= rows@.len(),
            assignment_texts(pairs@) + dotenv_assignments(
                all.skip(i as int),
                base.union(texts(names@).to_set()),
            ) == dotenv_assignments(all, base),
        decreases rows@.len() - i,
    {
        let ghost rest = all.skip(i as int);
        let ghost known = base.union(texts(names@).to_set());
        assert(rest[0] == rows@[i as int]@);
        assert(rest.drop_first() =~= all.skip(i + 1));
        match parse_dotenv_line(rows[i].as_slice()) {
            Some((name, value)) => {
                if !contains_text(defined, name.as_str()) && !contains_text(
                    &names,
                    name.as_str(),
                ) {
                    let ghost before = pairs@;
                    let ghost named = names@;
                    names.push(name.clone());
                    pairs.push((name, value));
                    proof {
                        assert(texts(names@) =~= texts(named).push(name@));
                        assert(base.union(texts(names@).to_set()) =~= known.insert(name@)) by {
                            assert forall|k: Seq<char>| texts(names@).contains(k) <==> (texts(
                                named,
                            ).contains(k) || k == name@) by {
                                if texts(named).contains(k) {
                                    let j = texts(named).index_of(k);
                                    assert(texts(names@)[j] == k);
                                }
                                if k == name@ {
                                    assert(texts(names@)[named.len() as int] == k);
                                }
                            }
                        }
                        assert(assignment_texts(pairs@) =~= assignment_texts(before).push(
                            (name@, value@),
                        ));
                        assert(assignment_texts(before) + (seq![(name@, value@)]
                            + dotenv_assignments(all.skip(i + 1), known.insert(name@)))
                            =~= assignment_texts(pairs@) + dotenv_assignments(
                            all.skip(i + 1),
                            known.insert(name@),
                        ));
                    }
                }
            },
            None => {},
        }
        i += 1;
    }
    proof {
        let known = base.union(texts(names@).to_set());
        assert(assignment_texts(pairs@) + dotenv_assignments(all.skip(i as int), known)
            =~= assignment_texts(pairs@));
    }
    pairs
}

/// A dotenv file never assigns a name that the environment defines, and no name twice.
pub proof fn law_environment_wins(lines: Seq<Seq<char>>, defined: Set<Seq<char>>)
    ensures
        ({
            let made = dotenv_assignments(lines, defined);
            &&& forall|i: int| 0 <= i < made.len() ==> !defined.contains((#[trigger] made[i]).0)
            &&& forall|i: int, j: int|
                0 <= i < j < made.len() ==> (#[trigger] made[i]).0 != (#[trigger] made[j]).0
        }),
    decreases lines.len(),
{
    if lines.len() > 0 {
        let rest = lines.drop_first();
        match dotenv_pair(lines[0]) {
            Some((name, value)) => {
                if defined.contains(name) {
                    law_environment_wins(rest, defined);
                    assert(dotenv_assignments(lines, defined) == dotenv_assignments(rest, defined));
                } else {
                    law_environment_wins(rest, defined.insert(name));
                    let made = dotenv_assignments(lines, defined);
                    let tail = dotenv_assignments(rest, defined.insert(name));
                    assert(made =~= seq![(name, value)] + tail);
                    assert(made[0] == (name, value));
                    assert forall|i: int| 0 <= i < tail.len() implies (#[trigger] tail[i]).0
                        != name && !defined.contains(tail[i].0) by {
                        assert(!defined.insert(name).contains(tail[i].0));
                    }
                    assert forall|i: int| 0 <= i < made.len() implies !defined.contains(
                        (#[trigger] made[i]).0,
                    ) by {
                        if i > 0 {
                            assert(made[i] == tail[i - 1]);
                        }
                    }
                    assert forall|i: int, j: int| 0 <= i < j < made.len() implies (
                    #[trigger] made[i]).0 != (#[trigger] made[j]).0 by {
                        assert(made[j] == tail[j - 1]);
                        if i > 0 {
                            assert(made[i] == tail[i - 1]);
                        }
                    }
                    assert(forall|i: int|
                        0 <= i < made.len() ==> !defined.contains((#[trigger] made[i]).0));
                }
            },
            None => {
                law_environment_wins(rest, defined);
                assert(dotenv_assignments(lines, defined) == dotenv_assignments(rest, defined));
            },
        }
    } else {
        assert(dotenv_assignments(lines, defined).len() == 0);
    }
}

/// An override that is unset or blank changes nothing, any other wins whatever was set, and
/// overriding again changes nothing more.
pub proof fn law_overrides(current: Seq<char>, switch: bool, value: Option<Seq<char>>)
    ensures
        !is_given(value) ==> overridden(current, value) == current && switched(switch, value)
            == switch,
        is_given(value) ==> overridden(current, value) == trimmed(value->0),
        overridden(overridden(current, value), value) == overridden(current, value),
        switched(switched(switch, value), value) == switched(switch, value),
{
}

/// The words for true and false, in whatever case and with white space around them; no other text
/// is a truth value.
pub proof fn law_truth_words(s: Seq<char>)
    ensures
        ({
            let word = lowered(trimmed(s));
            let yes = word == "true"@ || word == "1"@ || word == "yes"@ || word == "y"@ || word
                == "on"@;
            let no = word == "false"@ || word == "0"@ || word == "no"@ || word == "n"@ || word
                == "off"@;
            &&& yes ==> parsed_bool(s) == Some(true)
            &&& no && !yes ==> parsed_bool(s) == Some(false)
            &&& !yes && !no ==> parsed_bool(s) is None
        }),
{
}

/// A variable that is given, and no other, has to be a truth value, and then is taken.
pub proof fn law_switches(current: bool, value: Seq<char>)
    ensures
        is_acceptable(None) && switched(current, None) == current,
        trimmed(value).len() == 0 ==> is_acceptable(Some(value)) && switched(current, Some(value))
            == current,
        trimmed(value).len() > 0 ==> (is_acceptable(Some(value)) <==> parsed_bool(value) is Some),
        trimmed(value).len() > 0 && parsed_bool(value) is Some ==> switched(current, Some(value))
            == parsed_bool(value)->0,
{
}

/// Whether a text neither begins nor ends with white space.
pub open spec fn has_solid_ends(s: Seq<char>) -> bool {
    s.len() > 0 ==> !is_white(s[0]) && !is_white(s.last())
}

/// Whether a text is white space.
pub open spec fn is_blank(s: Seq<char>) -> bool {
    forall|i: int| 0 <= i < s.len() ==> is_white(#[trigger] s[i])
}

/// A dotenv line assigns what stands behind its first equals sign to the name before it, whatever
/// both hold; white space around them does not count. A comment, a blank line and a line without an
/// equals sign assign nothing.
pub proof fn law_dotenv_lines(
    before: Seq<char>,
    name: Seq<char>,
    middle: Seq<char>,
    inner: Seq<char>,
    raw: Seq<char>,
    after: Seq<char>,
)
    requires
        is_blank(before),
        is_blank(middle),
        is_blank(inner),
        is_blank(after),
        has_solid_ends(name),
        has_solid_ends(raw),
        name.len() > 0,
        raw.len() > 0,
        name[0] != '#',
        !name.contains('='),
    ensures
        dotenv_pair(before + (name + middle + seq!['='] + inner + raw) + after) == Some(
            (name, stripped(stripped(raw, Strip::Only('"')), Strip::Only('\''))),
        ),
        dotenv_pair(before + name + after) is None,
        dotenv_pair(before + (seq!['#'] + raw) + after) is None,
        dotenv_pair(before) is None,
{
    let body = name + middle + seq!['='] + inner + raw;
    assert(body[0] == name[0]);
    assert(body.last() == raw.last());
    law_padding_is_trimmed(before, body, after);
    let left = name + middle;
    let right = inner + raw;
    assert(body =~= left.push('=') + right);
    assert forall|j: int| 0 <= j < left.len() implies body[j] != '=' by {
        assert(body[j] == left[j]);
        if j < name.len() {
            assert(left[j] == name[j]);
            assert(name.contains(name[j]));
        } else {
            assert(left[j] == middle[j - name.len()]);
        }
    }
    assert(body[left.len() as int] == '=');
    lemma_position(body, '=', left.len() as int);
    assert(body.take(left.len() as int) =~= left);
    assert(body.skip(left.len() as int + 1) =~= right);
    law_padding_is_trimmed(Seq::empty(), name, middle);
    assert(Seq::empty() + name + middle =~= left);
    law_padding_is_trimmed(inner, raw, Seq::empty());
    assert(inner + raw + Seq::empty() =~= right);
    law_padding_is_trimmed(before, name, after);
    assert forall|j: int| 0 <= j < name.len() implies name[j] != '=' by {
        assert(name.contains(name[j]));
    }
    lemma_position(name, '=', name.len() as int);
    let comment = seq!['#'] + raw;
    assert(comment[0] == '#');
    assert(comment.last() == raw.last());
    law_padding_is_trimmed(before, comment, after);
    law_padding_is_trimmed(before, Seq::empty(), Seq::empty());
    assert(before + Seq::empty() + Seq::empty() =~= before);
}

/// Quotes around a value are removed: double ones, then single ones; a value without quotes at its
/// ends stays as it is, whatever stands inside.
pub proof fn law_quotes_are_removed(value: Seq<char>)
    requires
        value.len() > 0,
        value[0] != '"' && value[0] != '\'',
        value.last() != '"' && value.last() != '\'',
    ensures
        ({
            let single = seq!['\''] + value + seq!['\''];
            let double = seq!['"'] + value + seq!['"'];
            let both = seq!['"'] + single + seq!['"'];
            &&& stripped(stripped(value, Strip::Only('"')), Strip::Only('\'')) == value
            &&& stripped(stripped(single, Strip::Only('"')), Strip::Only('\'')) == value
            &&& stripped(stripped(double, Strip::Only('"')), Strip::Only('\'')) == value
            &&& stripped(stripped(both, Strip::Only('"')), Strip::Only('\'')) == value
        }),
{
    let single = seq!['\''] + value + seq!['\''];
    assert(single[0] == '\'' && single.last() == '\'');
    lemma_quoted(value, '\'');
    lemma_quoted(value, '"');
    lemma_quoted(single, '"');
}

proof fn lemma_quoted(value: Seq<char>, quote: char)
    requires
        value.len() > 0,
        value[0] != quote,
        value.last() != quote,
    ensures
        stripped(seq![quote] + value + seq![quote], Strip::Only(quote)) == value,
        stripped(value, Strip::Only(quote)) == value,
{
    let s = seq![quote] + value + seq![quote];
    let front = value.push(quote);
    assert(s[0] == quote);
    assert(s.drop_first() =~= front);
    assert(front[0] == value[0]);
    assert(strip_front(s, Strip::Only(quote)) == strip_front(front, Strip::Only(quote)));
    assert(strip_front(front, Strip::Only(quote)) == front);
    assert(front.drop_last() =~= value);
    assert(front.last() == quote);
    assert(strip_back(front, Strip::Only(quote)) == strip_back(value, Strip::Only(quote)));
    assert(strip_back(value, Strip::Only(quote)) == value);
}

/// The first line that assigns a name counts, whatever lines come later; names that are not defined
/// are assigned.
pub proof fn law_first_assignment_counts(
    line: Seq<char>,
    rest: Seq<Seq<char>>,
    defined: Set<Seq<char>>,
)
    ensures
        ({
            let made = dotenv_assignments(seq![line] + rest, defined);
            match dotenv_pair(line) {
                None => made == dotenv_assignments(rest, defined),
                Some((name, value)) => {
                    &&& defined.contains(name) ==> made == dotenv_assignments(rest, defined)
                    &&& !defined.contains(name) ==> made.len() > 0 && made[0] == (name, value)
                        && made.drop_first() == dotenv_assignments(rest, defined.insert(name))
                },
            }
        }),
{
    let all = seq![line] + rest;
    assert(all[0] == line);
    assert(all.drop_first() =~= rest);
    match dotenv_pair(line) {
        Some((name, value)) => {
            if !defined.contains(name) {
                assert(dotenv_assignments(all, defined).drop_first() =~= dotenv_assignments(
                    rest,
                    defined.insert(name),
                ));
            }
        },
        None => {},
    }
}

/// The texts of some assignments are theirs, one by one.
pub proof fn law_assignment_texts(pairs: Seq<(String, String)>, i: int)
    requires
        0 <= i < pairs.len(),
    ensures
        assignment_texts(pairs).len() == pairs.len(),
        assignment_texts(pairs)[i] == (pairs[i].0@, pairs[i].1@),
{
}

} // verus!
