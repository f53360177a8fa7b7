//! What happens in the engine, and how it is reported: in the audit trail and to Slack.

use crate::bans::{BanRecord, BanView};
use crate::clock::{rfc3339_text, Timestamp};
use crate::double::Double;
use crate::notifier::{Delivery, NoticeView, RateFigures, SlackNotifier};
use crate::report::{audit_line, audit_row, AuditRecord};
use crate::text::optional_text;
use vstd::prelude::*;
use vstd::string::*;

verus! {

/// What has happened.
#[derive(Debug)]
pub enum Occurrence {
    /// An address was banned.
    Ban(BanRecord),
    /// The ban of an address has ended.
    Unban(BanRecord),
    /// The rate of all traffic is anomalous.
    GlobalAlert,
    /// The baselines were recalculated, that of all traffic from the samples of this slot.
    Recalculated(String),
}

/// What has happened, as a mathematical value.
pub enum OccurrenceView {
    Ban(BanView),
    Unban(BanView),
    GlobalAlert,
    Recalculated(Seq<char>),
}

impl View for Occurrence {
    type V = OccurrenceView;

    open spec fn view(&self) -> OccurrenceView {
        match self {
            Occurrence::Ban(ban) => OccurrenceView::Ban(ban@),
            Occurrence::Unban(ban) => OccurrenceView::Unban(ban@),
            Occurrence::GlobalAlert => OccurrenceView::GlobalAlert,
            Occurrence::Recalculated(slot) => OccurrenceView::Recalculated(slot@),
        }
    }
}

/// An event, with the rate and the baseline that are reported of it.
#[derive(Debug)]
pub struct Event {
    pub what: Occurrence,
    pub rate: Double,
    pub baseline: Double,
}

/// An event, as a mathematical value.
pub struct EventView {
    pub what: OccurrenceView,
    pub rate: Double,
    pub baseline: Double,
}

impl View for Event {
    type V = EventView;

    open spec fn view(&self) -> EventView {
        EventView { what: self.what@, rate: self.rate, baseline: self.baseline }
    }
}

/// The rate and the baseline of an event to one decimal place, and the rate as a multiple of the
/// baseline.
#[derive(Debug)]
pub struct RateTexts {
    pub rate: String,
    pub baseline: String,
    pub multiple: String,
}

impl OccurrenceView {
    /// The action that the audit trail names.
    pub open spec fn action(self) -> Seq<char> {
        match self {
            OccurrenceView::Ban(_) => "BAN"@,
            OccurrenceView::Unban(_) => "UNBAN"@,
            OccurrenceView::GlobalAlert => "GLOBAL_ALERT"@,
            OccurrenceView::Recalculated(_) => "BASELINE"@,
        }
    }

    /// The address that the audit trail names.
    pub open spec fn subject(self) -> Seq<char> {
        match self {
            OccurrenceView::Ban(ban) => ban.ip,
            OccurrenceView::Unban(ban) => ban.ip,
            OccurrenceView::GlobalAlert => "global"@,
            OccurrenceView::Recalculated(_) => "global"@,
        }
    }

    /// The condition that the audit trail names.
    pub open spec fn condition(self) -> Seq<char> {
        match self {
            OccurrenceView::Ban(ban) => ban.condition,
            OccurrenceView::Unban(ban) => ban.condition,
            OccurrenceView::GlobalAlert => "global_rate"@,
            OccurrenceView::Recalculated(_) => "recalculated"@,
        }
    }

    /// The duration that the audit trail names.
    pub open spec fn duration(self) -> Seq<char> {
        match self {
            OccurrenceView::Ban(ban) => ban.duration_label,
            OccurrenceView::Unban(ban) => ban.duration_label,
            OccurrenceView::GlobalAlert => "-"@,
            OccurrenceView::Recalculated(slot) => slot,
        }
    }
}

impl EventView {
    /// The line of the audit trail, given the rate and the baseline as text.
    pub open spec fn line(self, time: Timestamp, rate: Seq<char>, baseline: Seq<char>) -> Seq<char> {
        audit_row(
            time,
            self.what.action(),
            self.what.subject(),
            self.what.condition(),
            rate,
            baseline,
            self.what.duration(),
        )
    }

    /// The title of the notification, if there is one.
    pub open spec fn title(self) -> Option<Seq<char>> {
        match self.what {
            OccurrenceView::Ban(ban) => Some("IP banned: "@ + ban.ip),
            OccurrenceView::Unban(ban) => Some("IP unbanned: "@ + ban.ip),
            OccurrenceView::GlobalAlert => Some("Global traffic anomaly detected"@),
            OccurrenceView::Recalculated(_) => None,
        }
    }

    /// What the notification is about: for a ban and its end the address and the duration, and for
    /// a ban also the number of the strike.
    pub open spec fn notice(self, time: Timestamp, texts: RateTexts) -> NoticeView {
        NoticeView {
            title: self.title()->0,
            condition: self.what.condition(),
            timestamp: time,
            rate: self.rate,
            baseline: self.baseline,
            rate_text: texts.rate@,
            baseline_text: texts.baseline@,
            multiple_text: texts.multiple@,
            duration: match self.what {
                OccurrenceView::Ban(ban) => Some(ban.duration_label),
                OccurrenceView::Unban(ban) => Some(ban.duration_label),
                _ => None,
            },
            ip_address: match self.what {
                OccurrenceView::Ban(ban) => Some(ban.ip),
                OccurrenceView::Unban(ban) => Some(ban.ip),
                _ => None,
            },
            strike_count: match self.what {
                OccurrenceView::Ban(ban) => Some(ban.strike_count),
                _ => None,
            },
        }
    }
}

impl Event {
    /// The line of the audit trail.
    pub fn audit_line(&self, time: Timestamp, rate: String, baseline: String) -> (line: String)
        requires
            time.is_valid(),
        ensures
            line@ == self@.line(time, rate@, baseline@),
    {
        let (action, ip_address, condition, duration) = match &self.what {
            Occurrence::Ban(ban) => (
                "BAN",
                ban.ip.as_str(),
                ban.condition.as_str(),
                ban.duration_label.as_str(),
            ),
            Occurrence::Unban(ban) => (
                "UNBAN",
                ban.ip.as_str(),
                ban.condition.as_str(),
                ban.duration_label.as_str(),
            ),
            Occurrence::GlobalAlert => ("GLOBAL_ALERT", "global", "global_rate", "-"),
            Occurrence::Recalculated(slot) => ("BASELINE", "global", "recalculated", slot.as_str()),
        };
        audit_line(
            &AuditRecord {
                time,
                action: action.to_owned(),
                ip_address: ip_address.to_owned(),
                condition: condition.to_owned(),
                rate,
                baseline,
                duration: duration.to_owned(),
            },
        )
    }

    /// The title of the notification, if there is one: a recalculation is not notified.
    pub fn title(&self) -> (title: Option<String>)
        ensures
            optional_text(title) == self@.title(),
    {
        match &self.what {
            Occurrence::Ban(ban) => {
                let mut title = "IP banned: ".to_owned();
                title.append(ban.ip.as_str());
                Some(title)
            },
            Occurrence::Unban(ban) => {
                let mut title = "IP unbanned: ".to_owned();
                title.append(ban.ip.as_str());
                Some(title)
            },
            Occurrence::GlobalAlert => Some("Global traffic anomaly detected".to_owned()),
            Occurrence::Recalculated(_) => None,
        }
    }

    /// What becomes of the notification, if there is one.
    pub fn announce(&self, notifier: &SlackNotifier, time: Timestamp, texts: RateTexts) -> (delivery:
        Option<Delivery>)
        requires
            time.is_valid(),
        ensures
            match delivery {
                Some(delivery) => self@.title() is Some && notifier.delivers(
                    delivery,
                    self@.notice(time, texts),
                ),
                None => self@.title() is None,
            },
    {
        let title = match self.title() {
            Some(title) => title,
            None => {
                return None;
            },
        };
        let figures = RateFigures {
            rate: self.rate,
            baseline: self.baseline,
            rate_text: texts.rate,
            baseline_text: texts.baseline,
            multiple_text: texts.multiple,
        };
        let (condition, duration, ip_address, strike_count) = match &self.what {
            Occurrence::Ban(ban) => (
                ban.condition.as_str(),
                Some(ban.duration_label.as_str()),
                Some(ban.ip.as_str()),
                Some(ban.strike_count),
            ),
            Occurrence::Unban(ban) => (
                ban.condition.as_str(),
                Some(ban.duration_label.as_str()),
                Some(ban.ip.as_str()),
                None,
            ),
            _ => ("global_rate", None, None, None),
        };
        Some(
            notifier.notify(
                title.as_str(),
                condition,
                time,
                &figures,
                duration,
                ip_address,
                strike_count,
            ),
        )
    }
}

/// Bans, their ends and alerts on all traffic are notified, and nothing else. The headline tells
/// them apart, where the rate of a ban or an alert is not zero and that of the end of a ban is.
pub proof fn law_headlines_tell_events_apart(event: EventView, time: Timestamp, texts: RateTexts)
    ensures
        event.title() is None <==> event.what is Recalculated,
        event.what is Unban && event.rate.equals_zero() ==> event.notice(time, texts).headline()
            == "✅ Detrudr Notice: IP Unbanned"@,
        event.what is Ban && !event.rate.equals_zero() ==> event.notice(time, texts).headline()
            == "🚨 Detrudr Alert: IP Banned"@,
        event.what is GlobalAlert && !event.rate.equals_zero() ==> event.notice(
            time,
            texts,
        ).headline() == "⚠️ Detrudr Alert: Global Traffic Anomaly"@,
{
}

/// The line of an event: the time, the action, the address or `global`, and between bars the
/// condition, the rate, the baseline and the duration, for which the slot stands at a recalculation.
pub proof fn law_audit_lines(
    event: EventView,
    time: Timestamp,
    rate: Seq<char>,
    baseline: Seq<char>,
)
    ensures
        ({
            let head = "["@ + rfc3339_text(time.seconds, time.nanos) + "] "@;
            let line = event.line(time, rate, baseline);
            match event.what {
                OccurrenceView::Ban(ban) => line == head + "BAN"@ + " "@ + ban.ip + " | "@
                    + ban.condition + " | "@ + rate + " | "@ + baseline + " | "@
                    + ban.duration_label + "\n"@,
                OccurrenceView::Unban(ban) => line == head + "UNBAN"@ + " "@ + ban.ip + " | "@
                    + ban.condition + " | "@ + rate + " | "@ + baseline + " | "@
                    + ban.duration_label + "\n"@,
                OccurrenceView::GlobalAlert => line == head + "GLOBAL_ALERT"@ + " "@ + "global"@
                    + " | "@ + "global_rate"@ + " | "@ + rate + " | "@ + baseline + " | "@ + "-"@
                    + "\n"@,
                OccurrenceView::Recalculated(slot) => line == head + "BASELINE"@ + " "@ + "global"@
                    + " | "@ + "recalculated"@ + " | "@ + rate + " | "@ + baseline + " | "@ + slot
                    + "\n"@,
            }
        }),
{
}

/// What is notified of an event: its title, its time, its rate and baseline; of a ban and its end
/// the address, the condition and the duration; and of a ban alone the number of the strike.
pub proof fn law_notices(event: EventView, time: Timestamp, texts: RateTexts)
    ensures
        ({
            let about = event.notice(time, texts);
            &&& about.timestamp == time && about.rate == event.rate && about.baseline
                == event.baseline
            &&& about.rate_text == texts.rate@ && about.baseline_text == texts.baseline@
                && about.multiple_text == texts.multiple@
            &&& match event.what {
                OccurrenceView::Ban(ban) => {
                    &&& event.title() == Some("IP banned: "@ + ban.ip)
                    &&& about.title == "IP banned: "@ + ban.ip
                    &&& about.ip_address == Some(ban.ip)
                    &&& about.condition == ban.condition
                    &&& about.duration == Some(ban.duration_label)
                    &&& about.strike_count == Some(ban.strike_count)
                },
                OccurrenceView::Unban(ban) => {
                    &&& event.title() == Some("IP unbanned: "@ + ban.ip)
                    &&& about.title == "IP unbanned: "@ + ban.ip
                    &&& about.ip_address == Some(ban.ip)
                    &&& about.condition == ban.condition
                    &&& about.duration == Some(ban.duration_label)
                    &&& about.strike_count is None
                },
                OccurrenceView::GlobalAlert => {
                    &&& event.title() == Some("Global traffic anomaly detected"@)
                    &&& about.title == "Global traffic anomaly detected"@
                    &&& about.ip_address is None && about.duration is None && about.strike_count
                        is None
                },
                OccurrenceView::Recalculated(_) => event.title() is None,
            }
        }),
{
}

} // verus!
