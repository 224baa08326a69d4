use sim::example::{MyState, MyUpdate, MyWorld};
use sim::simulation::Codable;

fn state(name: &str, health: u64) -> MyState {
    MyState { name: name.to_string(), health }
}

#[test]
fn state_round_trips() {
    let s = state("hello", 42);
    let bytes = s.encode();
    let back = MyState::decode(bytes.as_slice()).unwrap();
    assert_eq!(back, s);
}

#[test]
fn empty_name_round_trips() {
    let s = state("", 0);
    let bytes = s.encode();
    assert_eq!(bytes.len(), 8 + 8);
    let back = MyState::decode(bytes.as_slice()).unwrap();
    assert_eq!(back, s);
}

#[test]
fn non_ascii_name_round_trips() {
    let s = state("héllo wörld ✓", u64::MAX);
    let bytes = s.encode();
    let back = MyState::decode(bytes.as_slice()).unwrap();
    assert_eq!(back, s);
}

#[test]
fn state_encoding_layout_is_exact() {
    // one character "A" (scalar 65) and health 2: a u64 character count,
    // four bytes per character, then the u64 health, all little-endian
    let s = state("A", 2);
    let bytes = s.encode();
    let expected = vec![
        1, 0, 0, 0, 0, 0, 0, 0, // name length
        65, 0, 0, 0, // 'A'
        2, 0, 0, 0, 0, 0, 0, 0, // health
    ];
    assert_eq!(bytes, expected);
}

#[test]
fn truncated_state_is_rejected() {
    let s = state("hello", 42);
    let mut bytes = s.encode();
    bytes.pop();
    assert!(MyState::decode(bytes.as_slice()).is_none());
}

#[test]
fn trailing_garbage_is_rejected() {
    let s = state("hello", 42);
    let mut bytes = s.encode();
    bytes.push(0);
    assert!(MyState::decode(bytes.as_slice()).is_none());
}

#[test]
fn invalid_scalar_value_is_rejected() {
    // a name of one character whose four bytes form a surrogate (0xD800)
    let bytes = vec![
        1, 0, 0, 0, 0, 0, 0, 0, // name length 1
        0x00, 0xD8, 0x00, 0x00, // not a Unicode scalar value
        2, 0, 0, 0, 0, 0, 0, 0, // health
    ];
    assert!(MyState::decode(bytes.as_slice()).is_none());
}

#[test]
fn update_round_trips_both_variants() {
    let u = MyUpdate::ChangeName("bar".to_string());
    let bytes = u.encode();
    assert_eq!(bytes[0], 0);
    assert_eq!(MyUpdate::decode(bytes.as_slice()).unwrap(), u);

    let u = MyUpdate::ChangeHealth(7);
    let bytes = u.encode();
    assert_eq!(bytes[0], 1);
    assert_eq!(MyUpdate::decode(bytes.as_slice()).unwrap(), u);
}

#[test]
fn unknown_update_tag_is_rejected() {
    let bytes = vec![7, 1, 0, 0, 0, 0, 0, 0, 0];
    assert!(MyUpdate::decode(bytes.as_slice()).is_none());
    assert!(MyUpdate::decode(&[]).is_none());
}

#[test]
fn world_round_trips() {
    let w = MyWorld { weather: "rainy".to_string() };
    let bytes = w.encode();
    let back = MyWorld::decode(bytes.as_slice()).unwrap();
    assert_eq!(back, w);
}

#[test]
fn dup_is_a_deep_copy() {
    let s = state("hello", 1);
    let copy = s.dup();
    assert_eq!(copy, s);
    let u = MyUpdate::ChangeName("bar".to_string());
    assert_eq!(u.dup(), u);
    let w = MyWorld { weather: "sunny".to_string() };
    assert_eq!(w.dup(), w);
}
