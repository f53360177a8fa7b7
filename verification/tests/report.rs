use detrudr::bans::format_ban_duration;
use detrudr::clock::Timestamp;
use detrudr::report::{
    audit_line, cpu_sample_fits, format_duration, read_cpu_sample, resident_pages, tail_audit,
    AuditRecord, CpuMeter, CpuSample,
};

#[test]
fn durations_are_written_as_a_clock() {
    assert_eq!(format_duration(0), "0:00:00");
    assert_eq!(format_duration(3_661), "1:01:01");
    assert_eq!(format_duration(359_999), "99:59:59");
    assert_eq!(format_duration(-5), "0:00:00");
}

#[test]
fn ban_durations_are_labelled() {
    assert_eq!(format_ban_duration(600), "10m");
    assert_eq!(format_ban_duration(3_540), "59m");
    assert_eq!(format_ban_duration(3_600), "1h");
    assert_eq!(format_ban_duration(7_200), "2h");
    assert_eq!(format_ban_duration(5_400), "1h");
    assert_eq!(format_ban_duration(-90), "-1m");
}

#[test]
fn audit_records_have_their_form() {
    let record = AuditRecord {
        time: Timestamp { seconds: 1_777_716_000, nanos: 500_000_000 },
        action: "BAN".to_owned(),
        ip_address: "198.51.100.10".to_owned(),
        condition: "ip_rate".to_owned(),
        rate: "12.50".to_owned(),
        baseline: "1.00".to_owned(),
        duration: "10m".to_owned(),
    };
    assert_eq!(
        audit_line(&record),
        "[2026-05-02T10:00:00.500+00:00] BAN 198.51.100.10 | ip_rate | 12.50 | 1.00 | 10m\n"
    );
}

#[test]
fn the_last_twelve_lines_are_shown() {
    assert!(tail_audit("").is_empty());
    assert_eq!(tail_audit("a\r\nb\nc"), vec!["a", "b", "c"]);
    let raw: String = (0..20).map(|line| format!("{line}\n")).collect();
    let tail = tail_audit(&raw);
    assert_eq!(tail.len(), 12);
    assert_eq!(tail[0], "8");
    assert_eq!(tail[11], "19");
}

#[test]
fn processor_times_are_read_from_the_first_line() {
    let raw = "cpu  10 20 30 40 5 x 7\ncpu0 1 2 3 4\n";
    assert!(cpu_sample_fits(raw));
    let sample = read_cpu_sample(raw).unwrap();
    assert_eq!(sample.idle, 45);
    assert_eq!(sample.total, 112);
    let short = read_cpu_sample("cpu 1 2 3 4").unwrap();
    assert_eq!(short.idle, 4);
    assert_eq!(short.total, 10);
    assert!(read_cpu_sample("cpu 1 2 3").is_none());
    assert!(read_cpu_sample("").is_none());
    assert!(!cpu_sample_fits("cpu 18446744073709551615 1 1 1"));
    assert!(cpu_sample_fits("cpu 18446744073709551615 1 1"));
    assert!(read_cpu_sample("cpu 18446744073709551615 1 1").is_none());
}

#[test]
fn the_busy_share_is_taken_between_two_samples() {
    let mut meter = CpuMeter::new();
    assert!(meter.cpu_percent(None).is_none());
    assert!(meter.cpu_percent(Some(CpuSample { idle: 40, total: 100 })).is_none());
    let share = meter.cpu_percent(Some(CpuSample { idle: 70, total: 200 })).unwrap();
    assert_eq!(share.busy, 70);
    assert_eq!(share.total, 100);
    assert!(meter.cpu_percent(Some(CpuSample { idle: 70, total: 200 })).is_none());
    let odd = meter.cpu_percent(Some(CpuSample { idle: 170, total: 210 })).unwrap();
    assert_eq!(odd.busy, 0);
    assert_eq!(odd.total, 10);
    assert!(meter.cpu_percent(Some(CpuSample { idle: 0, total: 0 })).is_none());
}

#[test]
fn resident_pages_are_the_second_word() {
    assert_eq!(resident_pages("1234 567 89\n"), Some("567".to_owned()));
    assert_eq!(resident_pages(" 1234 \n"), None);
    assert_eq!(resident_pages(""), None);
}
