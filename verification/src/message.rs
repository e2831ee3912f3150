//! The update-message codec.
//!
//! An update message wraps one register state for the wire: the emission
//! timestamp, the sending node, the register the update belongs to, a tag
//! naming the payload type, and the register's encoded bytes, in one fixed
//! big-endian layout:
//!
//! ```text
//! offset  size  field
//! 0       8     timestamp
//! 8       16    sender node identifier
//! 24      16    register identifier
//! 40      1     type tag
//! 41      N     payload (9 bytes for a boolean register)
//! ```
use vstd::prelude::*;

verus! {

use crate::serialization::Serialize;
use crate::serialization::Deserialize;
use crate::timestamp::Timestamp;
use crate::uid::UID;
use crate::lwwregister::LWWRegister;

/// The bytes of an update message before the payload: timestamp, sender,
/// register identifier and type tag.
pub const MESSAGE_META_SIZE: usize = 41;

/// The payload size of a boolean register: its timestamp and one value
/// byte.
pub const BOOL_REGISTER_SIZE: usize = 9;

/// The type tag of a boolean register payload.
pub const BOOL_TYPE_TAG: u8 = 0;

/// The whole size of an update message carrying a boolean register.
pub const BOOL_MESSAGE_SIZE: usize = 50;

/// Failures of reading an update message.
#[derive(Clone, Copy, Debug, PartialEq, Eq, Structural)]
pub enum CodecError {
    /// The type tag names no known payload type.
    UnknownRegisterType,
    /// The payload length does not match the tagged type's size.
    PayloadLengthMismatch,
    /// The input ends before the fixed-size header does.
    TruncatedInput,
}

/// A parsed update message carrying a boolean register.
#[derive(Clone, Debug, PartialEq, Eq)]
pub struct RegisterMessage {
    /// The emission timestamp of the update.
    pub ts: Timestamp,
    /// The node that sent the update.
    pub sender: UID,
    /// The register the update belongs to.
    pub register_id: UID,
    /// The carried register state.
    pub register: LWWRegister<bool>,
}

/// The bytes of an update message: timestamp, sender, register identifier,
/// type tag, payload.
pub open spec fn spec_message_bytes(
    ts: Timestamp,
    sender: UID,
    register_id: UID,
    type_tag: u8,
    payload: Seq<u8>,
) -> Seq<u8> {
    ts.spec_serialize() + sender.spec_serialize() + register_id.spec_serialize() + seq![type_tag]
        + payload
}

/// What reading a byte string as an update message yields: the message, or
/// the error naming what is wrong. An input shorter than the header is
/// truncated; then an unknown type tag is refused; then a payload of the
/// wrong length for the tag.
pub open spec fn spec_message_parse(s: Seq<u8>) -> Result<RegisterMessage, CodecError> {
    if s.len() < MESSAGE_META_SIZE {
        Err(CodecError::TruncatedInput)
    } else if s[40] != BOOL_TYPE_TAG {
        Err(CodecError::UnknownRegisterType)
    } else if s.len() != BOOL_MESSAGE_SIZE {
        Err(CodecError::PayloadLengthMismatch)
    } else {
        Ok(
            RegisterMessage {
                ts: Timestamp::spec_deserialize(s.subrange(0, 8)),
                sender: UID::spec_deserialize(s.subrange(8, 24)),
                register_id: UID::spec_deserialize(s.subrange(24, 40)),
                register: LWWRegister::<bool>::spec_deserialize(s.subrange(41, 50)),
            },
        )
    }
}

/// Builds the bytes of an update message around an encoded register.
pub fn message_build(
    sender: &UID,
    emission_ts: Timestamp,
    register_id: &UID,
    type_tag: u8,
    register_bytes: &Vec<u8>,
) -> (r: Vec<u8>)
    ensures
        r@ == spec_message_bytes(emission_ts, *sender, *register_id, type_tag, register_bytes@),
        r@.len() == MESSAGE_META_SIZE + register_bytes@.len(),
{
    proof {
        emission_ts.lemma_serialized_len();
        sender.lemma_serialized_len();
        register_id.lemma_serialized_len();
    }
    let mut out = emission_ts.serialize();
    let mut sender_bytes = sender.serialize();
    let mut register_id_bytes = register_id.serialize();
    out.append(&mut sender_bytes);
    out.append(&mut register_id_bytes);
    out.push(type_tag);
    let ghost header = out@;
    let mut i: usize = 0;
    while i < register_bytes.len()
        invariant
            out@ == header + register_bytes@.take(i as int),
            i <= register_bytes@.len(),
        decreases register_bytes@.len() - i,
    {
        proof {
            assert(header + register_bytes@.take(i + 1) =~= (header + register_bytes@.take(
                i as int,
            )).push(register_bytes@[i as int]));
        }
        out.push(register_bytes[i]);
        i = i + 1;
    }
    proof {
        assert(register_bytes@.take(register_bytes@.len() as int) =~= register_bytes@);
        assert(out@ =~= spec_message_bytes(
            emission_ts,
            *sender,
            *register_id,
            type_tag,
            register_bytes@,
        ));
    }
    out
}

/// Reads an update message from its bytes; a short input, an unknown type
/// tag, or a payload of the wrong length is refused.
pub fn message_parse(bytes: &[u8]) -> (r: Result<RegisterMessage, CodecError>)
    ensures
        r == spec_message_parse(bytes@),
{
    if bytes.len() < MESSAGE_META_SIZE {
        Err(CodecError::TruncatedInput)
    } else if bytes[40] != BOOL_TYPE_TAG {
        Err(CodecError::UnknownRegisterType)
    } else if bytes.len() != BOOL_MESSAGE_SIZE {
        Err(CodecError::PayloadLengthMismatch)
    } else {
        let ts = Timestamp::deserialize(&bytes[0..8]);
        let sender = UID::deserialize(&bytes[8..24]);
        let register_id = UID::deserialize(&bytes[24..40]);
        let register = LWWRegister::<bool>::deserialize(&bytes[41..50]);
        Ok(RegisterMessage { ts, sender, register_id, register })
    }
}

/// A message built around an encoded boolean register parses back to the
/// same timestamp, sender, register identifier and register state.
pub proof fn lemma_message_round_trip(
    ts: Timestamp,
    sender: UID,
    register_id: UID,
    register: LWWRegister<bool>,
)
    ensures
        spec_message_parse(
            spec_message_bytes(ts, sender, register_id, BOOL_TYPE_TAG, register.spec_serialize()),
        ) == Ok::<RegisterMessage, CodecError>(
            RegisterMessage { ts, sender, register_id, register },
        ),
{
    let payload = register.spec_serialize();
    let s = spec_message_bytes(ts, sender, register_id, BOOL_TYPE_TAG, payload);
    ts.lemma_serialized_len();
    sender.lemma_serialized_len();
    register_id.lemma_serialized_len();
    register.lemma_serialized_len();
    assert(s.len() == 50);
    assert(s[40] == BOOL_TYPE_TAG);
    assert(s.subrange(0, 8) =~= ts.spec_serialize());
    assert(s.subrange(8, 24) =~= sender.spec_serialize());
    assert(s.subrange(24, 40) =~= register_id.spec_serialize());
    assert(s.subrange(41, 50) =~= payload);
    ts.lemma_round_trip();
    sender.lemma_round_trip();
    register_id.lemma_round_trip();
    register.lemma_round_trip();
}

} // verus!
