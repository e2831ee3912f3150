use kcrdt::clock::{test_clock, test_offsetted, Clock, Offset, Offsetted, SysTimeClock, MAX_OFFSET};
use kcrdt::serialization::{Deserialize, Serialize};
use std::time::{Duration, SystemTime, UNIX_EPOCH};

#[test]
fn offset_works() {
    let now_ms = SystemTime::now()
        .duration_since(UNIX_EPOCH)
        .unwrap()
        .as_millis() as i64;
    let offset = Offset::from_millis(now_ms);

    let encoded = offset.serialize();
    assert_eq!(
        encoded.len(),
        8,
        "Serialized version of an Offset should be 8 bytes long."
    );
    let de_offset: Offset = Offset::deserialize(&encoded);
    assert_eq!(
        offset, de_offset,
        "Serialization + deserialization shouldn't change the object."
    );
}

#[test]
fn negative_offset_round_trips() {
    let offset = Offset::from_millis(-123_456_789);
    let encoded = offset.serialize();
    assert_eq!(encoded.len(), 8);
    assert_eq!(Offset::deserialize(&encoded), offset);
    assert_eq!(Offset::zero().as_millis(), 0);
}

#[test]
fn offset_addition_saturates() {
    let a = Offset::from_millis(i64::MAX - 1);
    let b = Offset::from_millis(10);
    assert_eq!(a.add(b).as_millis(), i64::MAX);
    let c = Offset::from_millis(i64::MIN + 1);
    let d = Offset::from_millis(-10);
    assert_eq!(c.add(d).as_millis(), i64::MIN);
    assert_eq!(
        Offset::from_millis(30).add(Offset::from_millis(-50)).as_millis(),
        -20
    );
}

#[test]
fn sys_time_clock_works() {
    let clock = SysTimeClock::default();
    test_clock(&clock);
    let mut offsetted = SysTimeClock::default();
    test_offsetted(&mut offsetted);
}

#[test]
fn offset_shifts_polled_time() {
    let mut clock = SysTimeClock::default();
    let mut clock2 = SysTimeClock::default();
    clock.set_offset(Offset::from_millis(0));
    clock2.set_offset(Offset::from_millis(500));
    let ts1 = clock.poll_time();
    let ts2 = clock2.poll_time();
    let d1 = ts1.get_duration();
    let d2 = ts2.get_duration();
    assert!(Duration::new(d2.0, d2.1) - Duration::new(d1.0, d1.1) >= Duration::from_millis(500));

    clock2.set_offset(Offset::from_millis(-500));
    let ts1 = clock.poll_time();
    let ts2 = clock2.poll_time();
    let d1 = ts1.get_duration();
    let d2 = ts2.get_duration();
    assert!(Duration::new(d1.0, d1.1) - Duration::new(d2.0, d2.1) >= Duration::from_millis(500));
}

#[test]
fn set_offset_clamps_to_one_year() {
    let mut clock = SysTimeClock::default();
    clock.set_offset(Offset::from_millis(MAX_OFFSET * 1000 + 7));
    assert_eq!(clock.get_offset().as_millis(), MAX_OFFSET * 1000);
    clock.set_offset(Offset::from_millis(-MAX_OFFSET * 1000 - 7));
    assert_eq!(clock.get_offset().as_millis(), -MAX_OFFSET * 1000);
    clock.set_offset(Offset::from_millis(42));
    assert_eq!(clock.get_offset().as_millis(), 42);
}
