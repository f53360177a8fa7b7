//! Slack messages.

use crate::clock::{format_utc, utc_text, Timestamp};
use crate::double::Double;
use crate::text::{chars_of, decimal, push_decimal, strip, texts, trimmed, Strip};
use vstd::prelude::*;
use vstd::string::*;

verus! {

/// A rate and its baseline, with their texts to one place; the last text is the rate as a
/// multiple of the baseline, and is used where the baseline is positive.
#[derive(Clone, Debug)]
pub struct RateFigures {
    pub rate: Double,
    pub baseline: Double,
    pub rate_text: String,
    pub baseline_text: String,
    pub multiple_text: String,
}

/// A part of a message. All texts but that of a header are in Slack's markup.
#[derive(Clone, Debug)]
pub enum Block {
    /// A headline in plain text.
    Header(String),
    /// A paragraph.
    Section(String),
    /// A group of fields.
    Fields(Vec<String>),
    /// A line of context.
    Context(String),
}

/// A part of a message, as a mathematical value.
pub enum BlockView {
    Header(Seq<char>),
    Section(Seq<char>),
    Fields(Seq<Seq<char>>),
    Context(Seq<char>),
}

impl View for Block {
    type V = BlockView;

    open spec fn view(&self) -> BlockView {
        match self {
            Block::Header(text) => BlockView::Header(text@),
            Block::Section(text) => BlockView::Section(text@),
            Block::Fields(fields) => BlockView::Fields(texts(fields@)),
            Block::Context(text) => BlockView::Context(text@),
        }
    }
}

/// A message to a channel.
#[derive(Clone, Debug)]
pub struct SlackMessage {
    pub channel: String,
    pub text: String,
    pub blocks: Vec<Block>,
}

/// What becomes of a message.
#[derive(Debug)]
pub enum Delivery {
    /// Notifications are off.
    Disabled,
    /// Notifications are on, but there is no address to send to.
    NoWebhook,
    /// The message is to be sent.
    Post(SlackMessage),
}

/// What a notification is about.
pub struct NoticeView {
    pub title: Seq<char>,
    pub condition: Seq<char>,
    pub timestamp: Timestamp,
    pub rate: Double,
    pub baseline: Double,
    pub rate_text: Seq<char>,
    pub baseline_text: Seq<char>,
    pub multiple_text: Seq<char>,
    pub duration: Option<Seq<char>>,
    pub ip_address: Option<Seq<char>>,
    pub strike_count: Option<nat>,
}

impl NoticeView {
    /// A rate of zero marks the end of a ban.
    pub open spec fn is_unban(self) -> bool {
        self.rate.equals_zero()
    }

    /// The headline.
    pub open spec fn headline(self) -> Seq<char> {
        if self.is_unban() {
            "✅ Detrudr Notice: IP Unbanned"@
        } else if self.ip_address is None {
            "⚠️ Detrudr Alert: Global Traffic Anomaly"@
        } else {
            "🚨 Detrudr Alert: IP Banned"@
        }
    }

    /// The field that names the address, or else what was triggered.
    pub open spec fn subject_field(self) -> Seq<char> {
        match self.ip_address {
            Some(ip) => "*IP Address:*\n<https://www.abuseipdb.com/check/"@ + ip + "|"@ + ip + ">"@,
            None => "*Trigger:*\n`global_rate`"@,
        }
    }

    /// The field of the condition, with the number of the strike where it is given.
    pub open spec fn condition_field(self) -> Seq<char> {
        let condition = "*Condition:*\n`"@ + self.condition + "`"@;
        match self.strike_count {
            Some(strike) => condition + " (Strike: "@ + decimal(strike) + ")"@,
            None => condition,
        }
    }

    /// The fields: the subject; the condition, where there is an address; the duration, where it
    /// is given.
    pub open spec fn fields(self) -> Seq<Seq<char>> {
        let subject = seq![self.subject_field()];
        let with_condition = if self.ip_address is Some {
            subject.push(self.condition_field())
        } else {
            subject
        };
        match self.duration {
            Some(duration) => with_condition.push("*Ban Duration:*\n"@ + duration),
            None => with_condition,
        }
    }

    /// The text of the baseline.
    pub open spec fn baseline_note(self) -> Seq<char> {
        let note = self.baseline_text + " req/s"@;
        if self.baseline.exceeds(Double::spec_zero()) {
            note + " _("@ + self.multiple_text + "x higher)_"@
        } else {
            note
        }
    }

    /// The paragraph on the traffic.
    pub open spec fn traffic(self) -> Seq<char> {
        "*Traffic Stats:*\n• *Current Rate:* "@ + self.rate_text
            + " req/s\n• *Baseline:* "@ + self.baseline_note()
    }

    /// The line of context.
    pub open spec fn context(self) -> Seq<char> {
        "🛡️ *Detrudr* | "@ + utc_text(
            self.timestamp.seconds,
            self.timestamp.nanos,
            "%Y-%m-%d %H:%M UTC"@,
        )
    }

    /// The parts of the message; that on the traffic is left out at the end of a ban.
    pub open spec fn blocks(self) -> Seq<BlockView> {
        let opening = seq![
            BlockView::Header(self.headline()),
            BlockView::Section(self.title),
            BlockView::Fields(self.fields()),
        ];
        let body = if self.is_unban() {
            opening
        } else {
            opening.push(BlockView::Section(self.traffic()))
        };
        body.push(BlockView::Context(self.context()))
    }
}

/// What a notification is about, from its parts.
pub open spec fn notice(
    title: &str,
    condition: &str,
    timestamp: Timestamp,
    figures: RateFigures,
    duration: Option<&str>,
    ip_address: Option<&str>,
    strike_count: Option<usize>,
) -> NoticeView {
    NoticeView {
        title: title@,
        condition: condition@,
        timestamp,
        rate: figures.rate,
        baseline: figures.baseline,
        rate_text: figures.rate_text@,
        baseline_text: figures.baseline_text@,
        multiple_text: figures.multiple_text@,
        duration: match duration {
            Some(text) => Some(text@),
            None => None,
        },
        ip_address: match ip_address {
            Some(text) => Some(text@),
            None => None,
        },
        strike_count: match strike_count {
            Some(count) => Some(count as nat),
            None => None,
        },
    }
}

/// The parts of a message, as mathematical values.
pub open spec fn block_views(blocks: Seq<Block>) -> Seq<BlockView> {
    Seq::new(blocks.len(), |i: int| blocks[i]@)
}

/// Sends notifications to a Slack channel.
#[derive(Clone, Debug)]
pub struct SlackNotifier {
    pub enabled: bool,
    pub webhook_url: String,
    pub channel: String,
}

impl SlackNotifier {
    /// A notifier.
    pub fn new(enabled: bool, webhook_url: String, channel: String) -> (notifier: SlackNotifier)
        ensures
            notifier == (SlackNotifier { enabled, webhook_url, channel }),
    {
        SlackNotifier { enabled, webhook_url, channel }
    }

    /// Whether this becomes of a notification: without an address to send to, nothing is sent.
    pub open spec fn delivers(self, delivery: Delivery, about: NoticeView) -> bool {
        match delivery {
            Delivery::Disabled => !self.enabled,
            Delivery::NoWebhook => self.enabled && trimmed(self.webhook_url@).len() == 0,
            Delivery::Post(message) => {
                &&& self.enabled
                &&& trimmed(self.webhook_url@).len() > 0
                &&& message.channel@ == self.channel@
                &&& message.text@ == about.title
                &&& block_views(message.blocks@) == about.blocks()
            },
        }
    }

    /// Makes the message of a notification, and says what becomes of it.
    pub fn notify(
        &self,
        title: &str,
        condition: &str,
        timestamp: Timestamp,
        figures: &RateFigures,
        duration: Option<&str>,
        ip_address: Option<&str>,
        strike_count: Option<usize>,
    ) -> (delivery: Delivery)
        requires
            timestamp.is_valid(),
        ensures
            self.delivers(
                delivery,
                notice(
                    title,
                    condition,
                    timestamp,
                    *figures,
                    duration,
                    ip_address,
                    strike_count,
                ),
            ),
    {
        if !self.enabled {
            return Delivery::Disabled;
        }
        let webhook = chars_of(self.webhook_url.as_str());
        if strip(webhook.as_slice(), Strip::White).len() == 0 {
            return Delivery::NoWebhook;
        }
        let ghost about = notice(
            title,
            condition,
            timestamp,
            *figures,
            duration,
            ip_address,
            strike_count,
        );
        let is_unban = figures.rate.is_zero();
        let headline = if is_unban {
            "✅ Detrudr Notice: IP Unbanned"
        } else if ip_address.is_none() {
            "⚠️ Detrudr Alert: Global Traffic Anomaly"
        } else {
            "🚨 Detrudr Alert: IP Banned"
        };
        let mut fields: Vec<String> = Vec::new();
        fields.push(subject_field(ip_address));
        if ip_address.is_some() {
            fields.push(condition_field(condition, strike_count));
        }
        match duration {
            Some(duration) => {
                let mut field = "*Ban Duration:*\n".to_owned();
                field.append(duration);
                fields.push(field);
            },
            None => {},
        }
        assert(texts(fields@) =~= about.fields());
        let mut blocks: Vec<Block> = Vec::new();
        blocks.push(Block::Header(headline.to_owned()));
        blocks.push(Block::Section(title.to_owned()));
        blocks.push(Block::Fields(fields));
        if !is_unban {
            let mut traffic = "*Traffic Stats:*\n• *Current Rate:* ".to_owned();
            traffic.append(figures.rate_text.as_str());
            traffic.append(" req/s\n• *Baseline:* ");
            traffic.append(baseline_note(figures).as_str());
            assert(traffic@ =~= about.traffic());
            blocks.push(Block::Section(traffic));
        }
        let mut context = "🛡️ *Detrudr* | ".to_owned();
        context.append(format_utc(timestamp, "%Y-%m-%d %H:%M UTC").as_str());
        blocks.push(Block::Context(context));
        assert(block_views(blocks@) =~= about.blocks());
        Delivery::Post(
            SlackMessage { channel: self.channel.clone(), text: title.to_owned(), blocks },
        )
    }
}

fn subject_field(ip_address: Option<&str>) -> (field: String)
    ensures
        field@ == match ip_address {
            Some(ip) => "*IP Address:*\n<https://www.abuseipdb.com/check/"@ + ip@ + "|"@ + ip@
                + ">"@,
            None => "*Trigger:*\n`global_rate`"@,
        },
{
    match ip_address {
        Some(ip) => {
            let mut field = "*IP Address:*\n<https://www.abuseipdb.com/check/".to_owned();
            field.append(ip);
            field.append("|");
            field.append(ip);
            field.append(">");
            field
        },
        None => "*Trigger:*\n`global_rate`".to_owned(),
    }
}

fn condition_field(condition: &str, strike_count: Option<usize>) -> (field: String)
    ensures
        field@ == {
            let text = "*Condition:*\n`"@ + condition@ + "`"@;
            match strike_count {
                Some(strike) => text + " (Strike: "@ + decimal(strike as nat) + ")"@,
                None => text,
            }
        },
{
    let mut field = "*Condition:*\n`".to_owned();
    field.append(condition);
    field.append("`");
    match strike_count {
        Some(strike) => {
            field.append(" (Strike: ");
            push_decimal(&mut field, strike as u64);
            field.append(")");
        },
        None => {},
    }
    field
}

fn baseline_note(figures: &RateFigures) -> (note: String)
    ensures
        note@ == {
            let text = figures.baseline_text@ + " req/s"@;
            if figures.baseline.exceeds(Double::spec_zero()) {
                text + " _("@ + figures.multiple_text@ + "x higher)_"@
            } else {
                text
            }
        },
{
    let mut note = figures.baseline_text.clone();
    note.append(" req/s");
    if figures.baseline.gt(Double::zero()) {
        note.append(" _(");
        note.append(figures.multiple_text.as_str());
        note.append("x higher)_");
    }
    note
}

/// What a message says: a headline, the title, the fields, the figures unless a ban has ended, and
/// the time, in this order. The headline tells the end of a ban by a rate of zero, and else whether
/// an address is meant.
pub proof fn law_message_parts(about: NoticeView)
    ensures
        ({
            let parts = about.blocks();
            let over = about.rate.bits == 0 || about.rate.bits == 0x8000_0000_0000_0000;
            &&& parts.len() == if over {
                4nat
            } else {
                5nat
            }
            &&& parts[0] == BlockView::Header(
                if over {
                    "✅ Detrudr Notice: IP Unbanned"@
                } else if about.ip_address is None {
                    "⚠️ Detrudr Alert: Global Traffic Anomaly"@
                } else {
                    "🚨 Detrudr Alert: IP Banned"@
                },
            )
            &&& parts[1] == BlockView::Section(about.title)
            &&& parts[2] is Fields
            &&& !over ==> parts[3] is Section
            &&& parts.last() == BlockView::Context(
                "🛡️ *Detrudr* | "@ + utc_text(
                    about.timestamp.seconds,
                    about.timestamp.nanos,
                    "%Y-%m-%d %H:%M UTC"@,
                ),
            )
        }),
{
}

/// The figures name the rate and the baseline, and how many times higher the rate is where the
/// baseline is positive.
pub proof fn law_message_figures(about: NoticeView)
    requires
        !about.rate.equals_zero(),
    ensures
        ({
            let opening = "*Traffic Stats:*\n• *Current Rate:* "@ + about.rate_text
                + " req/s\n• *Baseline:* "@;
            let positive = about.baseline.exceeds(Double::spec_zero());
            &&& positive ==> about.blocks()[3] == BlockView::Section(
                opening + (about.baseline_text + " req/s"@ + " _("@ + about.multiple_text
                    + "x higher)_"@),
            )
            &&& !positive ==> about.blocks()[3] == BlockView::Section(
                opening + (about.baseline_text + " req/s"@),
            )
        }),
{
}

/// The fields: of an address the link to it, and the condition with the number of the strike where
/// it is given; else what was triggered; and the duration where it is given.
pub proof fn law_message_fields(about: NoticeView)
    ensures
        ({
            let fields = about.blocks()[2]->Fields_0;
            let expected = match about.ip_address {
                Some(ip) => {
                    let link = "*IP Address:*\n<https://www.abuseipdb.com/check/"@ + ip + "|"@ + ip
                        + ">"@;
                    let condition = "*Condition:*\n`"@ + about.condition + "`"@;
                    match about.strike_count {
                        Some(strike) => seq![
                            link,
                            condition + " (Strike: "@ + decimal(strike) + ")"@,
                        ],
                        None => seq![link, condition],
                    }
                },
                None => seq!["*Trigger:*\n`global_rate`"@],
            };
            match about.duration {
                Some(duration) => fields == expected.push("*Ban Duration:*\n"@ + duration),
                None => fields == expected,
            }
        }),
{
    let fields = about.blocks()[2]->Fields_0;
    assert(fields == about.fields());
    match about.ip_address {
        Some(ip) => {
            assert(seq![about.subject_field()].push(about.condition_field()) =~= seq![
                about.subject_field(),
                about.condition_field(),
            ]);
        },
        None => {},
    }
}

/// A message goes out where notifications are on and there is an address to send to, and only there;
/// it goes to the channel of the settings, and its text is the title.
pub proof fn law_delivery(notifier: SlackNotifier, delivery: Delivery, about: NoticeView)
    requires
        notifier.delivers(delivery, about),
    ensures
        delivery is Post <==> notifier.enabled && trimmed(notifier.webhook_url@).len() > 0,
        delivery is Disabled <==> !notifier.enabled,
        delivery matches Delivery::Post(message) ==> message.channel@ == notifier.channel@
            && message.text@ == about.title && block_views(message.blocks@) == about.blocks(),
{
}

} // verus!
