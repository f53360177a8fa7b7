use detrudr::blocker::{CommandOutcome, Invocation, IptablesBlocker, UnblockStep};
use detrudr::clock::Timestamp;
use detrudr::double::Double;
use detrudr::notifier::{Block, Delivery, RateFigures, SlackMessage, SlackNotifier};

const TIME: Timestamp = Timestamp { seconds: 1_777_716_059, nanos: 5 };

fn figures(rate: f64, baseline: f64) -> RateFigures {
    RateFigures {
        rate: Double { bits: rate.to_bits() },
        baseline: Double { bits: baseline.to_bits() },
        rate_text: format!("{rate:.1}"),
        baseline_text: format!("{baseline:.1}"),
        multiple_text: format!("{:.1}", rate / baseline),
    }
}

fn notifier(enabled: bool, webhook_url: &str) -> SlackNotifier {
    SlackNotifier::new(enabled, webhook_url.to_owned(), "#alerts".to_owned())
}

fn message(delivery: Delivery) -> SlackMessage {
    match delivery {
        Delivery::Post(message) => message,
        _ => panic!("nothing to send"),
    }
}

fn texts(message: &SlackMessage) -> Vec<String> {
    message
        .blocks
        .iter()
        .map(|block| match block {
            Block::Header(text) => format!("header: {text}"),
            Block::Section(text) => format!("section: {text}"),
            Block::Fields(fields) => format!("fields: {}", fields.join(" | ")),
            Block::Context(text) => format!("context: {text}"),
        })
        .collect()
}

fn args(list: &[&str]) -> Vec<String> {
    list.iter().map(|arg| (*arg).to_owned()).collect()
}

#[test]
fn a_ban_is_announced() {
    let delivery = notifier(true, "https://hooks.example/a").notify(
        "IP banned: 198.51.100.10",
        "ip_rate",
        TIME,
        &figures(12.5, 1.0),
        Some("10m"),
        Some("198.51.100.10"),
        Some(1),
    );
    let message = message(delivery);
    assert_eq!(message.channel, "#alerts");
    assert_eq!(message.text, "IP banned: 198.51.100.10");
    assert_eq!(
        texts(&message),
        vec![
            "header: 🚨 Detrudr Alert: IP Banned",
            "section: IP banned: 198.51.100.10",
            "fields: *IP Address:*\n<https://www.abuseipdb.com/check/198.51.100.10|198.51.100.10> | *Condition:*\n`ip_rate` (Strike: 1) | *Ban Duration:*\n10m",
            "section: *Traffic Stats:*\n• *Current Rate:* 12.5 req/s\n• *Baseline:* 1.0 req/s _(12.5x higher)_",
            "context: 🛡️ *Detrudr* | 2026-05-02 10:00 UTC",
        ]
    );
}

#[test]
fn an_unban_is_announced_without_figures() {
    let delivery = notifier(true, "https://hooks.example/a").notify(
        "IP unbanned: 198.51.100.10",
        "ip_rate",
        TIME,
        &figures(0.0, 1.0),
        Some("10m"),
        Some("198.51.100.10"),
        None,
    );
    assert_eq!(
        texts(&message(delivery)),
        vec![
            "header: ✅ Detrudr Notice: IP Unbanned",
            "section: IP unbanned: 198.51.100.10",
            "fields: *IP Address:*\n<https://www.abuseipdb.com/check/198.51.100.10|198.51.100.10> | *Condition:*\n`ip_rate` | *Ban Duration:*\n10m",
            "context: 🛡️ *Detrudr* | 2026-05-02 10:00 UTC",
        ]
    );
}

#[test]
fn a_global_anomaly_is_announced() {
    let delivery = notifier(true, "https://hooks.example/a").notify(
        "Global traffic anomaly detected",
        "global_rate",
        TIME,
        &figures(80.0, 0.0),
        None,
        None,
        None,
    );
    assert_eq!(
        texts(&message(delivery)),
        vec![
            "header: ⚠️ Detrudr Alert: Global Traffic Anomaly",
            "section: Global traffic anomaly detected",
            "fields: *Trigger:*\n`global_rate`",
            "section: *Traffic Stats:*\n• *Current Rate:* 80.0 req/s\n• *Baseline:* 0.0 req/s",
            "context: 🛡️ *Detrudr* | 2026-05-02 10:00 UTC",
        ]
    );
}

#[test]
fn nothing_is_sent_without_a_webhook() {
    let send = |notifier: SlackNotifier| {
        notifier.notify("t", "c", TIME, &figures(1.0, 1.0), None, None, None)
    };
    assert!(matches!(send(notifier(false, "https://hooks.example/a")), Delivery::Disabled));
    assert!(matches!(send(notifier(false, "")), Delivery::Disabled));
    assert!(matches!(send(notifier(true, " \t")), Delivery::NoWebhook));
    assert!(matches!(send(notifier(true, "https://hooks.example/a")), Delivery::Post(_)));
}

#[test]
fn rules_are_inserted() {
    let rule = args(&["-I", "INPUT", "-s", "198.51.100.10", "-j", "DROP"]);
    let dry = IptablesBlocker::new("INPUT".to_owned(), true);
    assert!(matches!(dry.block("198.51.100.10"), Invocation::DryRun(args) if args == rule));
    let wet = IptablesBlocker::new("INPUT".to_owned(), false);
    assert!(matches!(wet.block("198.51.100.10"), Invocation::Execute(args) if args == rule));
    let run = wet.block("198.51.100.10");
    assert!(wet.completed(&run, Some(CommandOutcome::Exited(true))));
    assert!(!wet.completed(&run, Some(CommandOutcome::Exited(false))));
    assert!(!wet.completed(&run, Some(CommandOutcome::NotStarted)));
    assert!(!wet.completed(&run, None));
    assert!(dry.completed(&dry.block("198.51.100.10"), None));
}

#[test]
fn rules_are_deleted_where_they_exist() {
    let check = args(&["-C", "FORWARD", "-s", "198.51.100.10", "-j", "DROP"]);
    let delete = args(&["-D", "FORWARD", "-s", "198.51.100.10", "-j", "DROP"]);
    let dry = IptablesBlocker::new("FORWARD".to_owned(), true);
    assert!(matches!(
        dry.unblock("198.51.100.10"),
        UnblockStep::Delete(Invocation::DryRun(args)) if args == delete
    ));
    let wet = IptablesBlocker::new("FORWARD".to_owned(), false);
    assert!(matches!(wet.unblock("198.51.100.10"), UnblockStep::Check(args) if args == check));
    assert!(matches!(
        wet.after_check("198.51.100.10", CommandOutcome::Exited(true)),
        UnblockStep::Delete(Invocation::Execute(args)) if args == delete
    ));
    assert!(matches!(
        wet.after_check("198.51.100.10", CommandOutcome::Exited(false)),
        UnblockStep::Done(true)
    ));
    assert!(matches!(
        wet.after_check("198.51.100.10", CommandOutcome::NotStarted),
        UnblockStep::Done(false)
    ));
    assert_eq!(wet.rule_exists(CommandOutcome::Exited(true)), Ok(true));
    assert_eq!(wet.rule_exists(CommandOutcome::Exited(false)), Ok(false));
    assert_eq!(wet.rule_exists(CommandOutcome::NotStarted), Err(()));
}
