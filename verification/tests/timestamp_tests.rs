use kcrdt::serialization::{Deserialize, Serialize};
use kcrdt::timestamp::{Timestamp, TimestampError, DURATION_MAX_SECONDS};
use std::cmp::Ordering;
use std::time::{Duration, SystemTime, UNIX_EPOCH};

fn distance(duration1: Duration, duration2: Duration) -> Duration {
    match duration1.cmp(&duration2) {
        Ordering::Less => duration2 - duration1,
        _ => duration1 - duration2,
    }
}

fn duration_of(ts: Timestamp) -> Duration {
    let (secs, nanos) = ts.get_duration();
    Duration::new(secs, nanos)
}

#[test]
fn getters_work() {
    let now_duration = SystemTime::now()
        .duration_since(UNIX_EPOCH)
        .expect("Duration from unmodified SystemTime::now() should work.");
    let now_secs = now_duration.as_secs();
    let now_subsec_nanos = now_duration.subsec_nanos();

    let ts = Timestamp::from_duration(now_secs, now_subsec_nanos).expect(
        "Timestamps from unmodified SystemTime::now() duration since UNIX epoch should work.",
    );

    let ts_u64 = ts.as_u64();
    let ts_time = ts.get_time();
    let ts_seconds = ts.get_seconds();
    let ts_fractions = ts.get_fractions();
    let ts_counter = ts.get_count();
    let ts_nanoseconds = ts.get_nanoseconds();
    let ts_duration = duration_of(ts);

    assert_eq!(
        ts_time,
        ts_u64 & 0xFFFF_FFFF_FFFF_FF00,
        "Time getter should return the most significant 58 bits."
    );
    assert_eq!(
        ts_seconds,
        ((ts_u64 & 0xFFFF_FFFF_0000_0000) >> 32) as u32,
        "Seconds getter should return the most significant 32 bits."
    );
    assert_eq!(
        ts_fractions,
        (ts_u64 & 0x0000_0000_FFFF_FF00) as u32,
        "Fractions getter should return bits 33 to 58."
    );
    assert_eq!(
        ts_counter,
        (ts_u64 & 0xFF) as u8,
        "Counter getter should return the least significant 8 bits."
    );

    assert_eq!(
        ts_seconds as u64, now_secs,
        "Seconds getter should return the same number of seconds as the original."
    );
    assert!(
        ts_nanoseconds >= now_subsec_nanos,
        "Nanosecond getter should return at least as many nanoseconds as the original."
    );
    assert!(
        ts_nanoseconds - now_subsec_nanos < 60,
        "Timestamp resolution should be smaller than 60 nanoseconds."
    );
    assert!(
        ts_duration >= now_duration,
        "Duration getter should be at least as large as the original."
    );
    assert!(
        ts_duration - now_duration < Duration::new(0, 60),
        "Timestamp resolution should be smaller than 60 nanoseconds."
    );
}

#[test]
fn from_duration_works() {
    let error = Timestamp::from_duration(DURATION_MAX_SECONDS + 1, 0)
        .expect_err("Should fail if second limit is exceeded");

    if let TimestampError::DurationTooLarge { .. } = error {
        let msg = error.message();
        assert!(
            msg.contains(&DURATION_MAX_SECONDS.to_string()),
            "Error should indicate the maximum duration allowed in seconds."
        );
        assert!(
            msg.contains(&(DURATION_MAX_SECONDS + 1).to_string()),
            "Error should indicate the given duration in seconds."
        );
    } else {
        panic!("Incorrect error type: Expected `TimestampError::DurationTooLarge`.");
    }

    Timestamp::from_duration((1u64 << 32) - 1, 0).expect("Should work on the edge of second limit");

    let now = SystemTime::now()
        .duration_since(UNIX_EPOCH)
        .expect("Duration from unmodified SystemTime::now() should work.");
    Timestamp::from_duration(now.as_secs(), now.subsec_nanos())
        .expect("Timestamp from `SystemTime::now()` duration since UNIX Epoch should work.");
}

#[test]
fn from_str_works() {
    Timestamp::from_rfc3339("a").expect_err("Should fail with invalid input.");

    let timestamp = humantime::format_rfc3339(SystemTime::now()).to_string();
    Timestamp::from_rfc3339(&timestamp)
        .expect("Should work with input formatted from `SystemTime::now()`.");
}

#[test]
fn rfc3339_known_instants() {
    let one = Timestamp::from_rfc3339("1970-01-01T00:00:01Z").unwrap();
    assert_eq!(one.get_seconds(), 1);
    assert_eq!(one.get_fractions(), 0);
    assert_eq!(one.get_count(), 0);

    let later = Timestamp::from_rfc3339("2018-02-14T00:28:07Z").unwrap();
    assert_eq!(later.get_seconds(), 1_518_568_087);
}

#[test]
fn addition_works() {
    let duration_a = Duration::new(2, 3);
    let duration_b = Duration::new(3, 2);
    let duration_60_nanos = Duration::new(0, 60);
    let duration_120_nanos = Duration::new(0, 120);
    let duration_sum = duration_a + duration_b;

    let ts_a = Timestamp::from_duration(duration_a.as_secs(), duration_a.subsec_nanos()).unwrap();
    let ts_b = Timestamp::from_duration(duration_b.as_secs(), duration_b.subsec_nanos()).unwrap();
    assert!(duration_of(ts_a) - duration_a < duration_60_nanos);
    assert!(duration_of(ts_b) - duration_b < duration_60_nanos);

    let ts_sum_1 = ts_a.add(ts_b);
    let ts_sum_2 = ts_a.add_u64(ts_b.as_u64());
    let mut ts_accum = ts_a;
    ts_accum = ts_accum.add_u64(ts_b.as_u64());

    assert!(duration_of(ts_sum_1) - duration_sum < duration_120_nanos);
    assert!(duration_of(ts_sum_2) - duration_sum < duration_120_nanos);
    assert!(duration_of(ts_accum) - duration_sum < duration_120_nanos);
}

#[test]
fn subtraction_works() {
    let duration_a = Duration::new(5, 500);
    let duration_b = Duration::new(3, 2);
    let duration_60_nanos = Duration::new(0, 60);
    let duration_diff = duration_a - duration_b;

    let ntp_a = Timestamp::from_duration(duration_a.as_secs(), duration_a.subsec_nanos()).unwrap();
    let ntp_b = Timestamp::from_duration(duration_b.as_secs(), duration_b.subsec_nanos()).unwrap();
    assert!(duration_of(ntp_a) - duration_a < duration_60_nanos);
    assert!(duration_of(ntp_b) - duration_b < duration_60_nanos);

    let ntp_diff_1 = ntp_a.sub(ntp_b);
    let ntp_diff_2 = ntp_a.sub_u64(ntp_b.as_u64());

    assert!(distance(duration_of(ntp_diff_1), duration_diff) < duration_60_nanos);
    assert!(distance(duration_of(ntp_diff_2), duration_diff) < duration_60_nanos);
}

#[test]
fn comparison_works() {
    let d1 = SystemTime::now().duration_since(UNIX_EPOCH).unwrap();
    let ts1 = Timestamp::from_duration(d1.as_secs(), d1.subsec_nanos()).unwrap();
    let d2 = SystemTime::now().duration_since(UNIX_EPOCH).unwrap();
    let ts2 = Timestamp::from_duration(d2.as_secs(), d2.subsec_nanos()).unwrap();
    assert!(ts1 <= ts2, "Comparison of timestamps should work.");
}

#[test]
fn serialization_deserialization_works() {
    let d = SystemTime::now().duration_since(UNIX_EPOCH).unwrap();
    let timestamp = Timestamp::from_duration(d.as_secs(), d.subsec_nanos()).unwrap();
    let encoded: Vec<u8> = timestamp.serialize();
    assert!(
        encoded.len() <= 8,
        "Encoding of a timestamp should be at most 64 bits."
    );
    let decoded: Timestamp = Timestamp::deserialize(&encoded);
    assert_eq!(
        timestamp, decoded,
        "Encoding and decoding a timestamp should not change the value of a timestamp."
    );
}

#[test]
fn timestamp_as_string_shows_fields() {
    let ts = Timestamp::new(1, 0, 5);
    assert_eq!(ts.as_string(), "Seconds: 1, Fractions: 0, Counter: 5");
    assert_eq!(
        Timestamp::new(0, 0, 0).as_string(),
        "Seconds: 0, Fractions: 0, Counter: 0"
    );
}

#[test]
fn increase_counter_overflows_at_limit() {
    let mut ts = Timestamp::new(7, 512, 254);
    ts.increase_counter().expect("Counter below the limit should advance.");
    assert_eq!(ts.get_count(), 255);
    let before = ts;
    let err = ts
        .increase_counter()
        .expect_err("Counter at the limit should refuse to advance.");
    assert_eq!(err, TimestampError::CounterOverflow);
    assert_eq!(ts, before);
}
