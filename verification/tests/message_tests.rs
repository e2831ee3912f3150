use kcrdt::lwwregister::LWWRegister;
use kcrdt::message::{message_build, message_parse, CodecError, BOOL_TYPE_TAG};
use kcrdt::serialization::Serialize;
use kcrdt::timestamp::Timestamp;
use kcrdt::uid::UID;

#[test]
fn message_round_trips() {
    let sender = UID::new();
    let register_id = UID::new();
    let ts = Timestamp::new(100, 0x512400, 3);
    let register = LWWRegister::new(ts, true);

    let msg = message_build(&sender, ts, &register_id, BOOL_TYPE_TAG, &register.serialize());
    assert_eq!(msg.len(), 50, "A boolean register message is 50 bytes.");

    let parsed = message_parse(&msg).expect("A built message should parse.");
    assert_eq!(parsed.sender, sender);
    assert_eq!(parsed.ts, ts);
    assert_eq!(parsed.register_id, register_id);
    assert_eq!(parsed.register, register);
    assert_eq!(parsed.register.get_value(), true);
}

#[test]
fn message_parse_rejects_truncated_input() {
    let err = message_parse(&[0u8; 40]).expect_err("A short input must be refused.");
    assert_eq!(err, CodecError::TruncatedInput);
}

#[test]
fn message_parse_rejects_unknown_tag() {
    let sender = UID::new();
    let register_id = UID::new();
    let ts = Timestamp::new(1, 0, 0);
    let register = LWWRegister::new(ts, false);
    let mut msg = message_build(&sender, ts, &register_id, 9, &register.serialize());
    let err = message_parse(&msg).expect_err("An unknown type tag must be refused.");
    assert_eq!(err, CodecError::UnknownRegisterType);
    msg[40] = BOOL_TYPE_TAG;
    message_parse(&msg).expect("With the known tag the same bytes parse.");
}

#[test]
fn message_parse_rejects_wrong_payload_length() {
    let sender = UID::new();
    let register_id = UID::new();
    let ts = Timestamp::new(1, 0, 0);
    let short_payload = vec![0u8; 8];
    let msg = message_build(&sender, ts, &register_id, BOOL_TYPE_TAG, &short_payload);
    let err = message_parse(&msg).expect_err("A payload of the wrong width must be refused.");
    assert_eq!(err, CodecError::PayloadLengthMismatch);
}
