//! Instants, held against `chrono`.

use chrono::{DateTime, Duration, Utc};
use francis::polling::plus_duration;
use francis::time::{parse_t0, t0_from_parse, Timestamp, MAX_SECS, MIN_SECS};

fn known() -> Vec<(i64, u32)> {
    vec![
        (0, 0),
        (0, 999_999_999),
        (-1, 999_999_999),
        (-1, 1_999_999_999),
        (59, 1_000_000_000),
        (59, 1_999_999_999),
        (1_704_110_399, 1_234_567_890),
        (1_704_110_400, 123_456_789),
        (MIN_SECS, 0),
        (MAX_SECS, 999_999_999),
        (MAX_SECS, 1_999_999_999),
    ]
}

fn chrono_time(t: (i64, u32)) -> DateTime<Utc> {
    DateTime::<Utc>::from_timestamp(t.0, t.1).unwrap()
}

fn pair(t: Option<Timestamp>) -> Option<(i64, u32)> {
    t.map(|t| (t.seconds(), t.subsec_nanos()))
}

fn chrono_pair(t: Option<DateTime<Utc>>) -> Option<(i64, u32)> {
    t.map(|t| (t.timestamp(), t.timestamp_subsec_nanos()))
}

/// The instant moved, computed on plain numbers.
fn moved(t: (i64, u32), d: i128) -> (i128, i128) {
    let second: i128 = 1_000_000_000;
    let n: i128 = t.1 as i128;
    let s: i128 = t.0 as i128;
    let from_nanos = |n: i128| (n.div_euclid(second), n.rem_euclid(second));
    let whole = d / second;
    let part = d % second;
    if n < second {
        from_nanos(s * second + n + d)
    } else if whole > 0 || (part > 0 && n + part >= 2 * second) {
        from_nanos(s * second + n - second + d)
    } else if whole < 0 {
        from_nanos(s * second + n + d)
    } else {
        (s, n + part)
    }
}

#[test]
fn which_pairs_are_instants() {
    assert_eq!(MIN_SECS, DateTime::<Utc>::MIN_UTC.timestamp());
    assert_eq!(MAX_SECS, DateTime::<Utc>::MAX_UTC.timestamp());
    for secs in [MIN_SECS - 1, MIN_SECS, -61, -60, -1, 0, 58, 59, 60, 119, MAX_SECS, MAX_SECS + 1] {
        for nanos in [0u32, 1, 999_999_999, 1_000_000_000, 1_999_999_999, 2_000_000_000, u32::MAX] {
            assert_eq!(
                pair(Timestamp::new(secs, nanos)),
                chrono_pair(DateTime::<Utc>::from_timestamp(secs, nanos)),
                "{} {}",
                secs,
                nanos
            );
        }
    }
}

#[test]
fn adding_milliseconds() {
    let steps = [
        0i64, 1, -1, 999, 1_000, -999, -1_000, -1_001, 1_500, -1_500, 60_000, -60_000, 90_000,
        86_400_000, i64::MAX, i64::MIN + 1, i64::MAX / 1_000,
    ];
    for t in known() {
        let ours = Timestamp::new(t.0, t.1).unwrap();
        for step in steps {
            let sum = pair(ours.plus_millis(step));
            let theirs = chrono_pair(chrono_time(t).checked_add_signed(Duration::milliseconds(step)));
            assert_eq!(sum, theirs, "{:?} {}", t, step);
            let (s, n) = moved(t, step as i128 * 1_000_000);
            if s >= MIN_SECS as i128 && s <= MAX_SECS as i128 {
                assert_eq!(sum, Some((s as i64, n as u32)), "{:?} {}", t, step);
            } else {
                assert_eq!(sum, None, "{:?} {}", t, step);
            }
        }
    }
}

#[test]
fn the_next_instant() {
    for t in known() {
        let ours = Timestamp::new(t.0, t.1).unwrap();
        let next = ours.next();
        assert_eq!(
            pair(next),
            chrono_pair(chrono_time(t).checked_add_signed(Duration::nanoseconds(1))),
            "{:?}",
            t
        );
        if let Some(next) = next {
            assert!(next.is_after(&ours));
            assert!(!ours.is_after(&next));
        }
        assert!(!ours.is_after(&ours));
    }
    let at = Timestamp::from_epoch_nanos(1_704_110_401_234_000_000);
    assert_eq!(at.next().unwrap().epoch_nanos(), Some(1_704_110_401_234_000_001));
}

#[test]
fn adding_durations() {
    let at = Timestamp::new(1_704_110_400, 0).unwrap();
    assert_eq!(pair(plus_duration(&at, 90_000)), Some((1_704_110_490, 0)));
    assert_eq!(pair(plus_duration(&at, 0)), Some((1_704_110_400, 0)));
    let longest = (MAX_SECS - 1_704_110_400) as u64 * 1_000 + 999;
    assert_eq!(pair(plus_duration(&at, longest)), Some((MAX_SECS, 999_000_000)));
    for ms in [longest + 1, i64::MAX as u64, 1 << 63, u64::MAX] {
        assert_eq!(pair(plus_duration(&at, ms)), None);
    }
    let first = Timestamp::new(MIN_SECS, 0).unwrap();
    assert_eq!(pair(plus_duration(&first, u64::MAX)), None);
}

#[test]
fn nanoseconds_since_the_epoch() {
    for n in [0i64, 1, -1, i64::MAX, i64::MIN, 1_704_110_400_123_456_789] {
        let t = Timestamp::from_epoch_nanos(n);
        assert_eq!(t.epoch_nanos(), Some(n));
        assert_eq!(t.seconds(), n.div_euclid(1_000_000_000));
        assert_eq!(t.subsec_nanos() as i64, n.rem_euclid(1_000_000_000));
    }
    for t in known() {
        let ours = Timestamp::new(t.0, t.1).unwrap();
        assert_eq!(ours.epoch_nanos(), chrono_time(t).timestamp_nanos_opt(), "{:?}", t);
    }
    assert_eq!(Timestamp::new(MAX_SECS, 0).unwrap().epoch_nanos(), None);
    assert_eq!(Timestamp::new(59, 1_500_000_000).unwrap().epoch_nanos(), Some(60_500_000_000));
}

#[test]
fn times_of_day() {
    let cases = [
        ((1_704_110_401, 234_999_999), "12:00:01.234Z"),
        ((0, 0), "00:00:00.000Z"),
        ((86_399, 999_999_999), "23:59:59.999Z"),
        ((86_399, 1_005_000_000), "23:59:60.005Z"),
        ((-1, 50_000_000), "23:59:59.050Z"),
    ];
    for ((secs, nanos), text) in cases {
        assert_eq!(Timestamp::new(secs, nanos).unwrap().clock(), text);
    }
    for t in known() {
        let ours = Timestamp::new(t.0, t.1).unwrap();
        assert_eq!(ours.clock(), chrono_time(t).format("%H:%M:%S%.3fZ").to_string());
        assert_eq!(ours.stamp(), chrono_time(t).format("%Y-%m-%dT%H:%M:%S%.3fZ").to_string());
        let date = chrono_time(t).format("%Y-%m-%d").to_string();
        assert_eq!(ours.stamp(), format!("{}T{}", date, ours.clock()));
    }
    let noon = Timestamp::new(1_704_110_401, 234_000_000).unwrap();
    assert_eq!(noon.stamp(), "2024-01-01T12:00:01.234Z");
}

#[test]
fn reading_start_times() {
    let before = Utc::now();
    let now = parse_t0("now").unwrap();
    let after = Utc::now();
    let now = DateTime::<Utc>::from_timestamp(now.seconds(), now.subsec_nanos()).unwrap();
    assert!(before <= now && now <= after);

    let t = parse_t0("2024-01-01T13:00:00.5+01:00").unwrap();
    assert_eq!((t.seconds(), t.subsec_nanos()), (1_704_110_400, 500_000_000));
    let t = parse_t0("2016-12-31T23:59:60Z").unwrap();
    assert_eq!((t.seconds(), t.subsec_nanos()), (1_483_228_799, 1_000_000_000));

    for text in ["", "NOW", "yesterday", "2024-01-01", "2024-01-01T00:00:00"] {
        let reason = DateTime::parse_from_rfc3339(text).unwrap_err().to_string();
        assert_eq!(parse_t0(text).unwrap_err(), format!("invalid t0 timestamp: {}", reason));
    }
}

#[test]
fn start_times_from_a_reading() {
    let t = Timestamp::new(7, 0).unwrap();
    assert_eq!(t0_from_parse(Ok(t)), Ok(t));
    assert_eq!(
        t0_from_parse(Err("bad".to_owned())),
        Err("invalid t0 timestamp: bad".to_owned())
    );
}

#[test]
fn adding_milliseconds_at_random() {
    let mut seed: u64 = 0x2545_F491_4F6C_DD1D;
    let mut random = move || {
        seed ^= seed << 13;
        seed ^= seed >> 7;
        seed ^= seed << 17;
        seed
    };
    for _ in 0..50_000 {
        let mut secs = (random() % 40_000_000_000) as i64 - 20_000_000_000;
        let mut nanos = (random() % 1_000_000_000) as u32;
        if random() % 2 == 0 {
            secs = secs.div_euclid(60) * 60 + 59;
            nanos += 1_000_000_000;
        }
        let range = [2_000u64, 200_000, 1 << 40, u64::MAX][(random() % 4) as usize];
        let step = ((random() % range) as i64).wrapping_sub((range / 2) as i64);
        if step == i64::MIN {
            continue;
        }
        let sum = pair(Timestamp::new(secs, nanos).unwrap().plus_millis(step));
        let (s, n) = moved((secs, nanos), step as i128 * 1_000_000);
        if s >= MIN_SECS as i128 && s <= MAX_SECS as i128 {
            assert_eq!(sum, Some((s as i64, n as u32)), "{} {} {}", secs, nanos, step);
        } else {
            assert_eq!(sum, None, "{} {} {}", secs, nanos, step);
        }
    }
}
