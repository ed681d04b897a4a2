use capbit::entity_id::EntityId;
use std::collections::HashSet;

#[test]
fn test_parse() {
    let eid = EntityId::parse("resource:doc123").unwrap();
    assert_eq!(eid.entity_type(), "resource");
    assert_eq!(eid.id(), "doc123");
}

#[test]
fn test_parse_invalid() {
    assert!(EntityId::parse("no_colon").is_err());
    assert!(EntityId::parse("").is_err());
    assert!(EntityId::parse(":empty_type").is_err());
    assert!(EntityId::parse("empty_id:").is_err());
}

#[test]
fn test_bytes_roundtrip() {
    let eid1 = EntityId::new("team", "engineering").unwrap();
    let bytes = eid1.as_bytes();
    let eid2 = EntityId::from_bytes(bytes).unwrap();
    assert_eq!(eid1, eid2);
}

#[test]
fn test_byte_format() {
    let eid = EntityId::new("user", "alice").unwrap();
    let bytes = eid.as_bytes();
    assert_eq!(bytes[0], 4);
    assert_eq!(&bytes[1..5], b"user");
    assert_eq!(&bytes[5..], b"alice");
}

#[test]
fn test_meta_type() {
    let eid = EntityId::new("user", "alice").unwrap();
    let meta = eid.meta_type();
    assert_eq!(meta.entity_type(), "_type");
    assert_eq!(meta.id(), "user");
    assert_eq!(meta.to_string_format(), "_type:user");
}

#[test]
fn test_is_meta_type() {
    let meta = EntityId::new("_type", "user").unwrap();
    assert!(meta.is_meta_type());
    let regular = EntityId::new("user", "alice").unwrap();
    assert!(!regular.is_meta_type());
}

#[test]
fn test_is_internal_type() {
    let internal = EntityId::new("_type", "user").unwrap();
    assert!(internal.is_internal_type());
    let regular = EntityId::new("user", "alice").unwrap();
    assert!(!regular.is_internal_type());
}

#[test]
fn test_prefix_for_type() {
    let prefix = EntityId::prefix_for_type("user");
    assert_eq!(prefix, vec![4, b'u', b's', b'e', b'r']);
    let eid = EntityId::new("user", "alice").unwrap();
    assert!(eid.starts_with(&prefix));
    let other = EntityId::new("team", "dev").unwrap();
    assert!(!other.starts_with(&prefix));
}

#[test]
fn test_has_type() {
    let eid = EntityId::new("user", "alice").unwrap();
    assert!(eid.has_type("user"));
    assert!(!eid.has_type("team"));
}

#[test]
fn test_ordering() {
    let a = EntityId::new("user", "alice").unwrap();
    let b = EntityId::new("user", "bob").unwrap();
    let c = EntityId::new("team", "dev").unwrap();
    assert!(a < b);
    assert!(c < a);
}

#[test]
fn test_hash() {
    let mut set = HashSet::new();
    set.insert(EntityId::new("user", "alice").unwrap());
    set.insert(EntityId::new("user", "bob").unwrap());
    assert!(set.contains(&EntityId::new("user", "alice").unwrap()));
    assert!(!set.contains(&EntityId::new("user", "charlie").unwrap()));
}

#[test]
fn test_empty_type_error() {
    assert!(EntityId::new("", "alice").is_err());
}

#[test]
fn test_empty_id_error() {
    assert!(EntityId::new("user", "").is_err());
}

#[test]
fn test_long_type() {
    let long_type = "a".repeat(255);
    let eid = EntityId::new(&long_type, "id").unwrap();
    assert_eq!(eid.entity_type(), long_type);
    let too_long = "a".repeat(256);
    assert!(EntityId::new(&too_long, "id").is_err());
}

#[test]
fn test_unicode() {
    let eid = EntityId::new("用户", "アリス").unwrap();
    assert_eq!(eid.entity_type(), "用户");
    assert_eq!(eid.id(), "アリス");
    assert_eq!(eid.to_string_format(), "用户:アリス");
}

#[test]
fn test_clone() {
    let eid1 = EntityId::new("user", "alice").unwrap();
    let eid2 = eid1.clone();
    assert_eq!(eid1, eid2);
}

#[test]
fn test_memory_size() {
    let eid = EntityId::new("user", "alice").unwrap();
    assert_eq!(std::mem::size_of::<EntityId>(), 16);
    assert_eq!(eid.byte_len(), 10);
}

#[test]
fn from_bytes_rejects_bad_layouts() {
    assert_eq!(EntityId::from_bytes(&[]).unwrap_err().message, "Empty byte array");
    assert_eq!(EntityId::from_bytes(&[0, b'a']).unwrap_err().message, "Entity type length cannot be zero");
    assert_eq!(
        EntityId::from_bytes(&[4, b'u', b's', b'e', b'r']).unwrap_err().message,
        "Byte array too short: need at least 6 bytes, got 5"
    );
    let bad_utf8 = EntityId::from_bytes(&[1, 0xff, b'a']).unwrap_err();
    assert!(bad_utf8.message.starts_with("Invalid UTF-8 in entity type: "));
    let bad_id = EntityId::from_bytes(&[1, b'a', 0xff]).unwrap_err();
    assert!(bad_id.message.starts_with("Invalid UTF-8 in entity id: "));
}

#[test]
fn parse_splits_at_first_colon() {
    let eid = EntityId::parse("a:b:c").unwrap();
    assert_eq!(eid.entity_type(), "a");
    assert_eq!(eid.id(), "b:c");
    assert_eq!(eid.type_len(), 1);
}

#[test]
fn new_reports_each_error() {
    assert_eq!(EntityId::new("", "alice").unwrap_err().message, "Entity type cannot be empty");
    assert_eq!(EntityId::new("user", "").unwrap_err().message, "Entity id cannot be empty");
    assert_eq!(
        EntityId::new(&"a".repeat(300), "x").unwrap_err().message,
        "Entity type too long: 300 bytes (max 255)"
    );
    assert_eq!(
        EntityId::parse("nocolon").unwrap_err().message,
        "Invalid entity ID 'nocolon': must be 'type:id' format"
    );
}

#[test]
fn test_new_and_accessors() {
    let eid = EntityId::new("user", "alice").unwrap();
    assert_eq!(eid.entity_type(), "user");
    assert_eq!(eid.id(), "alice");
    assert_eq!(eid.to_string_format(), "user:alice");
}

#[test]
fn type_prefix_selects_exactly_that_type() {
    let alice = EntityId::new("user", "alice").unwrap();
    let users = EntityId::new("users", "x").unwrap();
    let us = EntityId::new("us", "eralice").unwrap();
    let p = EntityId::prefix_for_type("user");
    assert!(alice.starts_with(&p));
    assert!(!users.starts_with(&p));
    assert!(!us.starts_with(&p));
    assert!(alice.has_type("user"));
    assert!(!users.has_type("user"));
}

#[test]
fn test_try_from_str() {
    let eid: EntityId = "user:alice".try_into().unwrap();
    assert_eq!(eid.entity_type(), "user");
    assert_eq!(eid.id(), "alice");
}

#[test]
fn try_from_string_and_bytes() {
    let eid = EntityId::try_from("team:eng".to_string()).unwrap();
    assert_eq!(eid.to_string_format(), "team:eng");
    let back = EntityId::try_from(eid.as_bytes()).unwrap();
    assert_eq!(back, eid);
    assert_eq!(EntityId::try_from(&[][..]).unwrap_err().message, "Empty byte array");
    assert_eq!(
        EntityId::try_from("nocolon".to_string()).unwrap_err().message,
        "Invalid entity ID 'nocolon': must be 'type:id' format"
    );
}
