use kcrdt::clock::{Clock, SysTimeClock};
use kcrdt::hlc::{HLCError, HLC};
use kcrdt::serialization::{test_serialization, Deserialize, Serialize};
use kcrdt::timestamp::Timestamp;

#[test]
fn browser_hlc_serialization_deserialization_works() {
    let hlc: HLC<SysTimeClock> = HLC::new(SysTimeClock::default());
    let decoded = test_serialization(&hlc);
    assert_eq!(
        decoded, hlc,
        "Serialization + deserialization shouldn't change the value."
    );
}

#[test]
fn hlc_serializes_offset_and_watermark() {
    let mut hlc: HLC<SysTimeClock> = HLC::new(SysTimeClock::default());
    hlc.set_offset_millis(-250);
    hlc.generate_timestamp().unwrap();
    let encoded = hlc.serialize();
    assert_eq!(encoded.len(), 16, "A persisted HLC is 16 bytes.");
    let decoded: HLC<SysTimeClock> = HLC::deserialize(&encoded);
    assert_eq!(decoded.get_offset_millis(), -250);
    assert_eq!(decoded.last_time, hlc.last_time);
}

#[test]
fn hlc_generate_is_strictly_monotonic() {
    let mut hlc: HLC<SysTimeClock> = HLC::new(SysTimeClock::default());
    let mut previous = hlc.generate_timestamp().unwrap();
    let mut produced: usize = 1;
    while produced < 10_000 {
        match hlc.generate_timestamp() {
            Ok(ts) => {
                assert!(
                    ts > previous,
                    "Generated timestamps must strictly increase."
                );
                previous = ts;
                produced += 1;
            }
            Err(HLCError::Overflow) => {
                // The counter filled up within one physical tick; the next
                // tick clears it.
                continue;
            }
            Err(e) => panic!("Unexpected error: {:?}", e),
        }
    }
}

#[test]
fn hlc_update_moves_past_remote_timestamp() {
    let mut a: HLC<SysTimeClock> = HLC::new(SysTimeClock::default());
    let mut b: HLC<SysTimeClock> = HLC::new(SysTimeClock::default());

    let t_a = a.generate_timestamp().unwrap();
    let merged = b.update_with_timestamp(t_a).unwrap();
    assert!(merged > t_a);
    assert!(b.last_time > t_a);

    let t_b = b.generate_timestamp().unwrap();
    assert!(t_b > t_a);
}

#[test]
fn hlc_update_refuses_excessive_drift() {
    let mut a: HLC<SysTimeClock> = HLC::new(SysTimeClock::default());
    a.generate_timestamp().unwrap();
    let before = a.last_time;

    let local = a.clock.poll_time();
    let far_ahead = Timestamp::new(
        local.get_seconds() + 2 * (kcrdt::clock::MAX_OFFSET as u32),
        0,
        0,
    );
    let err = a
        .update_with_timestamp(far_ahead)
        .expect_err("A timestamp far in the future must be refused.");
    assert_eq!(err, HLCError::DriftExceeded);
    assert_eq!(a.last_time, before, "A refused update leaves the watermark unchanged.");
}

#[test]
fn hlc_update_within_drift_is_accepted() {
    let mut a: HLC<SysTimeClock> = HLC::new(SysTimeClock::default());
    let local = a.clock.poll_time();
    let slightly_ahead = Timestamp::new(local.get_seconds() + 10, 0, 0);
    let merged = a.update_with_timestamp(slightly_ahead).unwrap();
    assert!(merged > slightly_ahead);
    assert_eq!(merged.get_seconds(), local.get_seconds() + 10);
}
