use chrono::{DateTime, Duration, Timelike, Utc};
use detrudr::clock::{Timestamp, MAX_SECONDS, MIN_SECONDS};

fn points() -> Vec<Timestamp> {
    let mut points = Vec::new();
    for seconds in [-86_401_i64, -86_400, -61, -1, 0, 59, 3_599, 86_399, 86_400, 1_777_716_059] {
        for nanos in [0_u32, 1, 999_999_999, 1_000_000_000, 1_500_000_000, 1_999_999_999] {
            let point = Timestamp { seconds, nanos };
            if point.valid() {
                points.push(point);
            }
        }
    }
    points
}

fn utc(point: Timestamp) -> DateTime<Utc> {
    DateTime::from_timestamp(point.seconds, point.nanos).unwrap()
}

fn stamp(time: DateTime<Utc>) -> Timestamp {
    Timestamp { seconds: time.timestamp(), nanos: time.timestamp_subsec_nanos() }
}

#[test]
fn the_calendar_has_its_bounds() {
    assert_eq!(DateTime::<Utc>::MIN_UTC.timestamp(), MIN_SECONDS);
    assert_eq!(DateTime::<Utc>::MAX_UTC.timestamp(), MAX_SECONDS);
    for seconds in [MIN_SECONDS - 1, MIN_SECONDS, -61, -1, 0, 59, 60, MAX_SECONDS, MAX_SECONDS + 1] {
        for nanos in [0, 999_999_999, 1_000_000_000, 1_999_999_999, 2_000_000_000] {
            let point = Timestamp { seconds, nanos };
            assert_eq!(point.valid(), DateTime::from_timestamp(seconds, nanos).is_some());
        }
    }
}

#[test]
fn shifts_follow_the_calendar() {
    for point in points() {
        for delta in [-86_400_i64, -3_600, -61, -60, -2, -1, 0, 1, 2, 60, 61, 3_600, 86_400] {
            let expected = stamp(utc(point) + Duration::seconds(delta));
            assert_eq!(point.shift(delta), expected, "{point:?} by {delta}");
        }
    }
}

#[test]
fn order_and_distance_follow_the_calendar() {
    for a in points() {
        for b in points() {
            assert_eq!(a.before(b), utc(a) < utc(b), "{a:?} and {b:?}");
            assert_eq!(a.since(b), (utc(a) - utc(b)).num_seconds(), "{a:?} and {b:?}");
        }
    }
}

#[test]
fn seconds_are_counted_toward_zero() {
    let start = Timestamp { seconds: 100, nanos: 500_000_000 };
    let end = Timestamp { seconds: 102, nanos: 0 };
    assert_eq!(end.since(start), 1);
    assert_eq!(start.since(end), -1);
    let leap = Timestamp { seconds: 59, nanos: 1_000_000_000 };
    assert_eq!(Timestamp { seconds: 60, nanos: 0 }.since(leap), 1);
    assert_eq!(leap.since(Timestamp { seconds: 58, nanos: 0 }), 2);
}

#[test]
fn truncation_drops_the_fraction() {
    for point in points() {
        assert_eq!(point.truncate(), stamp(utc(point).with_nanosecond(0).unwrap()));
    }
}
