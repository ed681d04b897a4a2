use capbit::keys::{
    build_key, deinterleave, entity_from_str, entity_key, entity_to_str, get_part, grant_key, grant_seeker_prefix,
    interleave, name_hash, parse_entity_key, parse_grant_key, parse_key,
};
use capbit::order::{entity_compare, grant_compare, set_mode_first, set_mode_second, CompareMode};
use std::cmp::Ordering;

#[test]
fn test_interleave_deinterleave() {
    let a = 12345u32;
    let b = 67890u32;
    let z = interleave(a, b);
    let (a2, b2) = deinterleave(z);
    assert_eq!(a, a2);
    assert_eq!(b, b2);
}

#[test]
fn test_interleave_edge_cases() {
    let z = interleave(0, 0);
    assert_eq!(z, 0);
    assert_eq!(deinterleave(z), (0, 0));
    let z = interleave(u32::MAX, u32::MAX);
    assert_eq!(z, u64::MAX);
    assert_eq!(deinterleave(z), (u32::MAX, u32::MAX));
    let z = interleave(0xAAAAAAAA, 0);
    let (a, b) = deinterleave(z);
    assert_eq!(a, 0xAAAAAAAA);
    assert_eq!(b, 0);
    let z = interleave(0, 0x55555555);
    let (a, b) = deinterleave(z);
    assert_eq!(a, 0);
    assert_eq!(b, 0x55555555);
}

#[test]
fn interleave_places_bits() {
    assert_eq!(interleave(1, 0), 1);
    assert_eq!(interleave(0, 1), 2);
    assert_eq!(interleave(3, 0), 5);
}

#[test]
fn test_name_hash() {
    assert_eq!(name_hash(""), 0);
    assert_eq!(name_hash("a"), 0x61000000);
    assert_eq!(name_hash("ab"), 0x61620000);
    assert_eq!(name_hash("abc"), 0x61626300);
    assert_eq!(name_hash("abcd"), 0x61626364);
    assert_eq!(name_hash("abcd"), name_hash("abcdefgh"));
    assert!(name_hash("alice") < name_hash("bob"));
    assert!(name_hash("a") < name_hash("b"));
}

#[test]
fn test_entity_key() {
    let key = entity_key(1, 100, "alice");
    assert_eq!(key.len(), 12);
    let (type_id, entity_id, name_h) = parse_entity_key(&key).unwrap();
    assert_eq!(type_id, 1);
    assert_eq!(entity_id, 100);
    assert_eq!(name_h, name_hash("alice"));
}

#[test]
fn test_grant_key() {
    let key = grant_key(1, 10, 2, 20, 5);
    assert_eq!(key.len(), 20);
    let (seeker_type, seeker_id, scope_type, scope_id, role_id) = parse_grant_key(&key).unwrap();
    assert_eq!(seeker_type, 1);
    assert_eq!(seeker_id, 10);
    assert_eq!(scope_type, 2);
    assert_eq!(scope_id, 20);
    assert_eq!(role_id, 5);
}

#[test]
fn short_keys_do_not_parse() {
    assert!(parse_entity_key(&[0u8; 11]).is_none());
    assert!(parse_grant_key(&[0u8; 19]).is_none());
}

#[test]
fn test_thread_local_mode() {
    let k1 = entity_key(1, 100, "alice");
    let k2 = entity_key(1, 100, "bob");
    let k3 = entity_key(1, 200, "alice");
    let mut mode = CompareMode::default();
    set_mode_first(&mut mode);
    assert_eq!(entity_compare(&mode, &k1, &k2), Ordering::Equal);
    assert_ne!(entity_compare(&mode, &k1, &k3), Ordering::Equal);
    set_mode_second(&mut mode);
    assert_ne!(entity_compare(&mode, &k1, &k2), Ordering::Equal);
    assert_eq!(entity_compare(&mode, &k1, &k3), Ordering::Equal);
}

#[test]
fn test_grant_sequential_ordering() {
    let k1 = grant_key(1, 10, 2, 20, 1);
    let k2 = grant_key(1, 10, 2, 30, 1);
    let k3 = grant_key(1, 15, 2, 20, 1);
    assert_eq!(grant_compare(&k1, &k2), Ordering::Less);
    assert_eq!(grant_compare(&k1, &k3), Ordering::Less);
    assert_eq!(grant_compare(&k2, &k3), Ordering::Less);
    let prefix = grant_seeker_prefix(1, 10);
    assert_eq!(&k1[0..8], &prefix[..]);
    assert_eq!(&k2[0..8], &prefix[..]);
}

#[test]
fn test_legacy_get_part() {
    let key = build_key(&["aaa", "bbb", "ccc"]);
    assert_eq!(get_part(&key, 0), Some("aaa"));
    assert_eq!(get_part(&key, 1), Some("bbb"));
    assert_eq!(get_part(&key, 2), Some("ccc"));
    assert_eq!(get_part(&key, 3), None);
}

#[test]
fn test_legacy_entity_from_str() {
    let key = entity_from_str("user:alice").unwrap();
    assert_eq!(entity_to_str(&key), Some("user:alice".to_string()));
}

#[test]
fn legacy_entity_needs_colon() {
    assert!(entity_from_str("useralice").is_none());
}

#[test]
fn test_legacy_build_and_parse() {
    let key = build_key(&["user:alice", "editor", "resource:doc1"]);
    let parts = parse_key(&key);
    assert_eq!(parts, vec!["user:alice", "editor", "resource:doc1"]);
}

#[test]
fn parse_key_stops_at_bad_parts() {
    assert_eq!(parse_key(&[2, b'a', b'b', 5, b'x']), vec!["ab"]);
    assert_eq!(parse_key(&[1, b'a', 1, 0xff, 1, b'c']), vec!["a"]);
}
