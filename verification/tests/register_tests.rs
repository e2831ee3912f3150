use kcrdt::lwwregister::LWWRegister;
use kcrdt::serialization::{test_serialization, Deserialize, Serialize};
use kcrdt::timestamp::Timestamp;
use kcrdt::uid::UID;

#[test]
fn bool_serialization_deserialization_works() {
    let decoded = test_serialization(&false);
    assert_eq!(
        decoded, false,
        "Serialization + deserialization shouldn't change the value."
    );
    let decoded = test_serialization(&true);
    assert_eq!(decoded, true);
}

#[test]
fn bool_register_serialization_deserialization_works() {
    let register: LWWRegister<bool> = LWWRegister::new(Timestamp::default(), false);
    let decoded = test_serialization(&register);
    assert_eq!(
        decoded, register,
        "Serialization + deserialization shouldn't change the value."
    );
}

#[test]
fn register_encoding_is_nine_bytes() {
    let register = LWWRegister::new(Timestamp::new(3, 0x4200, 1), true);
    let encoded = register.serialize();
    assert_eq!(encoded.len(), 9, "A boolean register encodes its timestamp and one value byte.");
    assert_eq!(encoded[8], 1);
    let decoded: LWWRegister<bool> = LWWRegister::deserialize(&encoded);
    assert_eq!(decoded, register);
}

#[test]
fn register_update_replaces_value_and_timestamp() {
    let mut register = LWWRegister::new(Timestamp::new(1, 0, 0), false);
    register.update_value(Timestamp::new(2, 0, 0), true);
    assert_eq!(register.get_value(), true);
    assert_eq!(register.get_timestamp(), Timestamp::new(2, 0, 0));
}

#[test]
fn merge_keeps_larger_timestamp() {
    let early = Timestamp::new(1, 0, 0);
    let late = Timestamp::new(2, 0, 0);
    let u_a = UID(1);
    let u_b = UID(2);

    let mut r_a = LWWRegister::new(late, false);
    let r_b = LWWRegister::new(early, true);
    r_a.merge(&r_b, u_a, u_b);
    assert_eq!(r_a.get_value(), false, "The older update loses.");
    assert_eq!(r_a.get_timestamp(), late);

    let mut r_c = LWWRegister::new(early, false);
    let r_d = LWWRegister::new(late, true);
    r_c.merge(&r_d, u_a, u_b);
    assert_eq!(r_c.get_value(), true, "The newer update wins.");
    assert_eq!(r_c.get_timestamp(), late);
}

#[test]
fn merge_breaks_ties_by_node_id() {
    let ts = Timestamp::new(5, 0, 0);
    let u_a = UID(10);
    let u_b = UID(20);

    let mut r_a = LWWRegister::new(ts, false);
    let r_b = LWWRegister::new(ts, true);
    r_a.merge(&r_b, u_a, u_b);
    assert_eq!(r_a.get_value(), true, "The larger node identifier wins a timestamp tie.");
    assert_eq!(r_a.get_timestamp(), ts);

    let mut r_b2 = LWWRegister::new(ts, true);
    let r_a2 = LWWRegister::new(ts, false);
    r_b2.merge(&r_a2, u_b, u_a);
    assert_eq!(r_b2.get_value(), true, "Merged from the other side, the same update wins.");
}

#[test]
fn merge_is_idempotent() {
    let ts = Timestamp::new(9, 0, 3);
    let u = UID(7);
    let mut r = LWWRegister::new(ts, true);
    let copy = r.clone();
    r.merge(&copy, u, u);
    assert_eq!(r, copy);
}

/// Merges an update into a replica state that carries the node identifier
/// of the update it currently holds, as the winner's identifier must
/// travel with the winning update for replicas to converge.
fn apply(state: &mut (LWWRegister<bool>, UID), update: &(LWWRegister<bool>, UID)) {
    let adopted = state.0.get_timestamp() < update.0.get_timestamp()
        || (state.0.get_timestamp() == update.0.get_timestamp() && state.1 < update.1);
    let (nid, other_id) = (state.1, update.1);
    state.0.merge(&update.0, nid, other_id);
    if adopted {
        state.1 = update.1;
    }
}

#[test]
fn replicas_converge_regardless_of_order() {
    let u1 = (LWWRegister::new(Timestamp::new(1, 0, 0), false), UID(10));
    let u2 = (LWWRegister::new(Timestamp::new(2, 0, 0), true), UID(4));
    let u3 = (LWWRegister::new(Timestamp::new(2, 0, 0), false), UID(9));

    let mut a = u1.clone();
    apply(&mut a, &u2);
    apply(&mut a, &u3);

    let mut b = u1.clone();
    apply(&mut b, &u3);
    apply(&mut b, &u2);

    assert_eq!(a, b, "Replicas that saw the same updates agree.");
    assert_eq!(
        a.0.get_value(),
        false,
        "The larger node identifier wins the timestamp tie."
    );
    assert_eq!(a.1, UID(9));
}
