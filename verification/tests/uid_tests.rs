use kcrdt::serialization::{Deserialize, Serialize};
use kcrdt::uid::{alphabet_char_to_num, UIDParseError, UID};

#[test]
fn ordering_is_consistent() {
    let uid1 = UID::new();
    let uid2 = UID::new();
    assert_eq!(
        uid1.cmp(&uid2),
        uid1.as_string().cmp(&uid2.as_string()),
        "The ordering of random IDs should be the same regardless of format used."
    );
    assert_eq!(
        uid1.cmp(&uid2),
        uid1.serialize().cmp(&uid2.serialize()),
        "The ordering of random IDs should be the same regardless of format used."
    );
}

#[test]
fn generates_correct_id() {
    let uid = UID::new();
    println!(
        "Generated ID: {:?}. String representation: {}",
        uid,
        uid.as_string()
    );

    assert_eq!(
        uid.as_string().len(),
        22,
        "Generated ID should have the appropriate length."
    );
    assert!(
        uid.as_string().chars().all(|c| alphabet_char_to_num(c).is_ok()),
        "The characters of the generated ID are from the allowed alphabet."
    );
    assert!(
        ['-', '0', '1', '2'].contains(&uid.as_string().chars().last().unwrap()),
        "The last character should be from the restricted alphabet."
    );
}

#[test]
fn parses_from_string_correctly() {
    let correct_str = UID::new().as_string();
    UID::from_string(&correct_str)
        .expect("It should be possible to build a UID from a valid string representation.");

    match UID::from_string("V1StGXR8_Z5jdH*6B-myT-")
        .expect_err("UID from string with invalid character should fail")
    {
        UIDParseError::CharacterNotAllowed => (),
        _ => panic!("Incorrect error type. Expected `UIDParseError::CharacterNotAllowed`."),
    }

    match UID::from_string("V1StGXR8_Z5jdHi60").expect_err("UID from short input should fail.") {
        UIDParseError::IncorrectLength => (),
        _ => panic!("Incorrect error type. Expected `UIDParseError::IncorrectLength`."),
    }

    match UID::from_string("V1StGXR8_Z5jdHi6B-myTasdfasd0")
        .expect_err("UID from long input should fail.")
    {
        UIDParseError::IncorrectLength => (),
        _ => panic!("Incorrect error type. Expected `UIDParseError::IncorrectLength`."),
    }

    match UID::from_string("V1StGXR8_Z5jdHi6B-myTA")
        .expect_err("UID from input with invalid last character should fail")
    {
        UIDParseError::CharacterNotAllowed => (),
        _ => panic!("Incorrect error type. Expected `UIDParseError::CharacterNotAllowed`."),
    }
}

#[test]
fn serializes_and_deserializes_correctly() {
    let uid = UID::new();
    let serialized = uid.serialize();

    assert_eq!(
        serialized.len(),
        16,
        "The binary representation of a UID should consist exactly of 16 bytes."
    );

    let deserialized: UID = UID::deserialize(&serialized);

    assert_eq!(
        uid, deserialized,
        "Serialization and deserialization of a UID shouldn't change its value"
    );
}

#[test]
fn generate_uid_works() {
    let uid = UID::new();
    assert_eq!(
        uid.as_string().chars().count(),
        22,
        "Generated UID should consists of 22 characters."
    );
}

#[test]
fn uid_string_form_round_trips() {
    let s = "qI5wz90BL_9SXG79gaCcz1";
    let uid = UID::from_string(s).expect("A valid 22-character string should parse.");
    assert_eq!(s.len(), 22);
    assert!(['-', '0', '1', '2'].contains(&s.chars().last().unwrap()));
    assert_eq!(uid.as_string(), s);

    let bytes = uid.serialize();
    assert_eq!(bytes.len(), 16);
    assert_eq!(UID::deserialize(&bytes), uid);
}

#[test]
fn uid_byte_string_matches_serialize() {
    let uid = UID::new();
    assert_eq!(uid.as_byte_string(), uid.serialize());
}

#[test]
fn uid_order_is_numeric() {
    let small = UID(3);
    let large = UID(u128::MAX - 5);
    assert!(small < large);
    assert!(small.as_string() < large.as_string());
    assert!(small.serialize() < large.serialize());
    assert_eq!(small.get_copy(), small);
}
