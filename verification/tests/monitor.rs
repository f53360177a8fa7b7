use detrudr::clock::Timestamp;
use detrudr::monitor::{
    after_probe, line_body, parse_log_line, parse_timestamp, should_reopen, value_to_u64,
    FileMarker, FileState, FollowStep, LogEntry, ProbeEvent, RawLogEntry, RawValue, ReadEvent,
    ReopenEvent, Tail,
};
use serde_json::Value;

const NOW: Timestamp = Timestamp { seconds: 1_700_000_000, nanos: 7 };

fn text(value: &Value, name: &str) -> Option<String> {
    value.get(name).and_then(Value::as_str).map(str::to_owned)
}

fn number(value: &Value, name: &str) -> Option<RawValue> {
    value.get(name).map(|field| match field {
        Value::Number(number) => RawValue::Number(number.as_u64()),
        Value::String(text) => RawValue::Text(text.clone()),
        _ => RawValue::Other,
    })
}

fn parse(line: &str) -> Option<LogEntry> {
    let body = line_body(line)?;
    let fields = serde_json::from_str::<Value>(&body).ok().map(|value| RawLogEntry {
        source_ip: text(&value, "source_ip"),
        timestamp: text(&value, "timestamp"),
        method: text(&value, "method"),
        path: text(&value, "path"),
        status: number(&value, "status"),
        response_size: number(&value, "response_size"),
    });
    parse_log_line(fields, NOW)
}

#[test]
fn parses_json_access_log() {
    let entry = parse(
        r#"{"source_ip":"1.2.3.4","timestamp":"2026-05-02T10:00:00Z","method":"POST","path":"/x","status":404,"response_size":12}"#,
    )
    .unwrap();
    assert_eq!(entry.source_ip, "1.2.3.4");
    assert_eq!(entry.status, 404);
    assert_eq!(entry.response_size, 12);
}

#[test]
fn oversized_status_defaults_instead_of_wrapping() {
    let entry = parse(
        r#"{"source_ip":"1.2.3.4","timestamp":"2026-05-02T10:00:00Z","method":"GET","path":"/x","status":70000,"response_size":12}"#,
    )
    .unwrap();

    assert_eq!(entry.status, 0);
}

#[test]
fn detects_log_replacement_by_file_marker_change() {
    let marker = FileMarker { dev: 1, ino: 10 };
    let state = FileState { marker: FileMarker { dev: 2049, ino: 7_340_033 }, len: 0 };

    assert!(should_reopen(marker, 0, state));
}

#[test]
fn detects_log_truncation_by_size_decrease() {
    let marker = FileMarker { dev: 2049, ino: 7_340_033 };
    let state = FileState { marker, len: 0 };

    assert!(should_reopen(marker, 100, state));
}

#[test]
fn a_growing_log_is_read_on() {
    let marker = FileMarker { dev: 1, ino: 10 };
    assert!(!should_reopen(marker, 100, FileState { marker, len: 100 }));
    assert!(!should_reopen(marker, 100, FileState { marker, len: 101 }));
    let moved = FileState { marker: FileMarker { dev: 2, ino: 10 }, len: 200 };
    assert!(should_reopen(marker, 100, moved));
}

#[test]
fn entries_keep_their_time() {
    let entry = parse(r#"{"timestamp":"2026-05-02T12:00:00.25+02:00","status":"503"}"#).unwrap();
    assert_eq!(entry.timestamp, Timestamp { seconds: 1_777_716_000, nanos: 250_000_000 });
    assert_eq!(entry.status, 503);
    assert_eq!(entry.source_ip, "unknown");
    assert_eq!(entry.method, "GET");
    assert_eq!(entry.path, "/");
    assert_eq!(entry.response_size, 0);
}

#[test]
fn lines_without_an_entry_are_skipped() {
    assert!(parse("").is_none());
    assert!(parse("  \r\n").is_none());
    assert!(parse("not json").is_none());
    assert_eq!(line_body(" {} \n"), Some("{}".to_owned()));
    assert_eq!(parse("{}").unwrap().timestamp, NOW);
}

#[test]
fn times_that_cannot_be_read_are_now() {
    let ten = Timestamp { seconds: 1_777_716_000, nanos: 0 };
    assert_eq!(parse_timestamp("2026-05-02T10:00:00Z", NOW), ten);
    assert_eq!(parse_timestamp("2026-05-02T10:00:00+00:00", NOW), ten);
    assert_eq!(parse_timestamp("2026-05-02T07:30:00-02:30", NOW), ten);
    assert_eq!(parse_timestamp("", NOW), NOW);
    assert_eq!(parse_timestamp("  ", NOW), NOW);
    assert_eq!(parse_timestamp("yesterday", NOW), NOW);
    assert_eq!(parse_timestamp("2026-05-02T10:00:00z", NOW), ten);
    let leap = Timestamp { seconds: 1_483_228_799, nanos: 1_000_000_000 };
    assert_eq!(parse_timestamp("2016-12-31T23:59:60Z", NOW), leap);
}

#[test]
fn values_are_read_as_numbers() {
    assert_eq!(value_to_u64(&None), None);
    assert_eq!(value_to_u64(&Some(RawValue::Number(Some(7)))), Some(7));
    assert_eq!(value_to_u64(&Some(RawValue::Number(None))), None);
    assert_eq!(value_to_u64(&Some(RawValue::Text("12".to_owned()))), Some(12));
    assert_eq!(value_to_u64(&Some(RawValue::Text("+12".to_owned()))), Some(12));
    assert_eq!(
        value_to_u64(&Some(RawValue::Text("18446744073709551615".to_owned()))),
        Some(u64::MAX)
    );
    for bad in ["", "+", "-1", " 1", "1x", "18446744073709551616"] {
        assert_eq!(value_to_u64(&Some(RawValue::Text(bad.to_owned()))), None, "{bad}");
    }
    assert_eq!(value_to_u64(&Some(RawValue::Other)), None);
}

#[test]
fn a_file_is_followed() {
    let marker = FileMarker { dev: 1, ino: 10 };
    let tail = Tail { marker, opened_len: 50 };
    assert!(matches!(after_probe(ProbeEvent::Missing), FollowStep::WaitAndProbe));
    assert!(matches!(after_probe(ProbeEvent::Directory), FollowStep::ReportDirectory));
    assert!(matches!(after_probe(ProbeEvent::OpenFailed), FollowStep::WaitAndProbe));
    let opened = after_probe(ProbeEvent::Opened(FileState { marker, len: 50 }));
    assert!(matches!(opened, FollowStep::ReadFromEnd(next) if next == tail));

    assert!(matches!(tail.after_read(ReadEvent::Line), FollowStep::Deliver(next) if next == tail));
    assert!(matches!(tail.after_read(ReadEvent::Failed), FollowStep::Probe));
    assert!(matches!(tail.after_read(ReadEvent::End(Some(60), None)), FollowStep::Probe));
    let same = Some(FileState { marker, len: 60 });
    assert!(matches!(
        tail.after_read(ReadEvent::End(Some(60), same)),
        FollowStep::WaitAndRead(next) if next == tail
    ));
    let cut = Some(FileState { marker, len: 59 });
    assert!(matches!(tail.after_read(ReadEvent::End(Some(60), cut)), FollowStep::Reopen(_)));
    let short = Some(FileState { marker, len: 49 });
    assert!(matches!(tail.after_read(ReadEvent::End(None, short)), FollowStep::Reopen(_)));
    assert!(matches!(tail.after_read(ReadEvent::End(None, cut)), FollowStep::WaitAndRead(_)));

    assert!(matches!(tail.after_reopen(ReopenEvent::Failed), FollowStep::Probe));
    let other = FileMarker { dev: 1, ino: 11 };
    let reopened = tail.after_reopen(ReopenEvent::Opened(FileState { marker: other, len: 3 }));
    assert!(matches!(reopened, FollowStep::ReadFromStart(next) if next.marker == other));
}
