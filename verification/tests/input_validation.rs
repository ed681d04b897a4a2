// Input validation on the entity graph: labels, names, capability values,
// reserved and duplicate names. The graph starts with the types user,
// resource and team, and a root user holding every capability on each type
// entity.

use capbit::graph::{batch_set_capabilities, check_access, entity_exists, get_capability, parse_entity_id, set_capability, set_relationship, Graph};
use capbit::protected;

const NOW: u64 = 11;

fn setup_bootstrapped() -> Graph {
    let mut g = Graph::new();
    for t in ["user", "resource", "team"] {
        g.create_type_in(t).unwrap();
    }
    g.create_entity_in("user:root").unwrap();
    for t in ["_type", "user", "resource", "team"] {
        let te = format!("_type:{}", t);
        g.create_entity_in(&te).unwrap();
        set_capability(&mut g, &te, "admin", u64::MAX, NOW).unwrap();
        set_relationship(&mut g, "user:root", "admin", &te, NOW).unwrap();
    }
    g
}

#[test]
fn empty_entity_id_rejected() {
    let _g = setup_bootstrapped();
    let result = parse_entity_id("");
    assert!(result.is_err());
    assert!(result.unwrap_err().message.contains("Invalid entity ID"));
}

#[test]
fn empty_type_in_parse() {
    let _g = setup_bootstrapped();
    let result = parse_entity_id(":alice");
    if result.is_ok() {
        let (entity_type, id) = result.unwrap();
        assert_eq!(entity_type, "");
        assert_eq!(id, "alice");
    }
}

#[test]
fn empty_relation_handled() {
    let mut g = setup_bootstrapped();
    protected::create_entity(&mut g, "user:root", "user", "alice").unwrap();
    protected::create_entity(&mut g, "user:root", "resource", "doc").unwrap();
    let result = set_capability(&mut g, "resource:doc", "", 0x01, NOW);
    assert!(result.is_err(), "Empty relation should be rejected");
}

#[test]
fn batch_with_empty_relation_changes_nothing() {
    let mut g = setup_bootstrapped();
    protected::create_entity(&mut g, "user:root", "resource", "doc").unwrap();
    let entries = vec![
        ("resource:doc".to_string(), "viewer".to_string(), 0x01u64),
        ("resource:doc".to_string(), "".to_string(), 0x02u64),
    ];
    assert!(batch_set_capabilities(&mut g, &entries, NOW).is_err());
    assert_eq!(get_capability(&g, "resource:doc", "viewer").unwrap(), None);
}

#[test]
fn missing_colon_in_entity_id_rejected() {
    let _g = setup_bootstrapped();
    let result = parse_entity_id("useralice");
    assert!(result.is_err());
    assert!(result.unwrap_err().message.contains("must be 'type:id' format"));
}

#[test]
fn multiple_colons_in_entity_id() {
    let mut g = setup_bootstrapped();
    let result = parse_entity_id("user:alice:extra");
    assert!(result.is_ok());
    let (entity_type, id) = result.unwrap();
    assert_eq!(entity_type, "user");
    assert_eq!(id, "alice:extra");
    let result = protected::create_entity(&mut g, "user:root", "user", "alice:extra");
    assert!(result.is_ok());
    assert!(entity_exists(&g, "user:alice:extra"));
}

#[test]
fn special_chars_in_entity_name() {
    let mut g = setup_bootstrapped();
    let special_names = vec!["alice-bob", "alice_bob", "alice.bob", "alice@example.com", "alice+bob", "alice&bob", "alice=bob"];
    for name in special_names {
        let result = protected::create_entity(&mut g, "user:root", "user", name);
        assert!(result.is_ok(), "Failed to create entity with name: {}", name);
        let entity_id = format!("user:{}", name);
        assert!(entity_exists(&g, &entity_id), "Entity {} doesn't exist", entity_id);
    }
}

#[test]
fn unicode_in_entity_name() {
    let mut g = setup_bootstrapped();
    let unicode_names = vec!["alice_日本語", "用户_测试", "пользователь", "emoji_🎉"];
    for name in unicode_names {
        let result = protected::create_entity(&mut g, "user:root", "user", name);
        assert!(result.is_ok(), "Failed to create entity with unicode name: {}", name);
        let entity_id = format!("user:{}", name);
        assert!(entity_exists(&g, &entity_id));
    }
}

#[test]
fn slash_in_entity_name_escaped() {
    let mut g = setup_bootstrapped();
    protected::create_entity(&mut g, "user:root", "user", "alice/bob").unwrap();
    protected::create_entity(&mut g, "user:root", "resource", "path/to/doc").unwrap();
    assert!(entity_exists(&g, "user:alice/bob"));
    assert!(entity_exists(&g, "resource:path/to/doc"));
    protected::set_capability(&mut g, "user:root", "resource:path/to/doc", "viewer", 0x01, NOW).unwrap();
    protected::set_grant(&mut g, "user:root", "user:alice/bob", "viewer", "resource:path/to/doc", NOW).unwrap();
    let caps = check_access(&g, "user:alice/bob", "resource:path/to/doc", None).unwrap();
    assert_eq!(caps, 0x01);
}

#[test]
fn backslash_in_entity_name_escaped() {
    let mut g = setup_bootstrapped();
    protected::create_entity(&mut g, "user:root", "user", "domain\\alice").unwrap();
    assert!(entity_exists(&g, "user:domain\\alice"));
    protected::create_entity(&mut g, "user:root", "resource", "doc").unwrap();
    protected::set_capability(&mut g, "user:root", "resource:doc", "viewer", 0x01, NOW).unwrap();
    protected::set_grant(&mut g, "user:root", "user:domain\\alice", "viewer", "resource:doc", NOW).unwrap();
    let caps = check_access(&g, "user:domain\\alice", "resource:doc", None).unwrap();
    assert_eq!(caps, 0x01);
}

#[test]
fn moderately_long_entity_id() {
    let mut g = setup_bootstrapped();
    let long_name: String = "a".repeat(200);
    let result = protected::create_entity(&mut g, "user:root", "user", &long_name);
    assert!(result.is_ok());
    let entity_id = format!("user:{}", long_name);
    assert!(entity_exists(&g, &entity_id));
}

#[test]
fn very_long_entity_id_limit() {
    let mut g = setup_bootstrapped();
    let long_name: String = "a".repeat(1000);
    let result = protected::create_entity(&mut g, "user:root", "user", &long_name);
    if result.is_err() {
        let _ = result.unwrap_err();
    } else {
        let entity_id = format!("user:{}", long_name);
        let _ = entity_exists(&g, &entity_id);
    }
}

#[test]
fn whitespace_in_entity_name() {
    let mut g = setup_bootstrapped();
    protected::create_entity(&mut g, "user:root", "user", "  alice  ").unwrap();
    assert!(entity_exists(&g, "user:  alice  "));
    protected::create_entity(&mut g, "user:root", "user", "alice smith").unwrap();
    assert!(entity_exists(&g, "user:alice smith"));
    protected::create_entity(&mut g, "user:root", "user", "alice\tbob").unwrap();
    assert!(entity_exists(&g, "user:alice\tbob"));
}

#[test]
fn zero_capability_value() {
    let mut g = setup_bootstrapped();
    protected::create_entity(&mut g, "user:root", "user", "alice").unwrap();
    protected::create_entity(&mut g, "user:root", "resource", "doc").unwrap();
    protected::set_capability(&mut g, "user:root", "resource:doc", "none", 0, NOW).unwrap();
    protected::set_grant(&mut g, "user:root", "user:alice", "none", "resource:doc", NOW).unwrap();
    let caps = check_access(&g, "user:alice", "resource:doc", None).unwrap();
    assert_eq!(caps, 0);
    let stored = get_capability(&g, "resource:doc", "none").unwrap();
    assert_eq!(stored, Some(0));
}

#[test]
fn max_capability_value() {
    let mut g = setup_bootstrapped();
    protected::create_entity(&mut g, "user:root", "user", "alice").unwrap();
    protected::create_entity(&mut g, "user:root", "resource", "doc").unwrap();
    protected::set_capability(&mut g, "user:root", "resource:doc", "everything", u64::MAX, NOW).unwrap();
    protected::set_grant(&mut g, "user:root", "user:alice", "everything", "resource:doc", NOW).unwrap();
    let caps = check_access(&g, "user:alice", "resource:doc", None).unwrap();
    assert_eq!(caps, u64::MAX);
}

#[test]
fn reserved_underscore_types() {
    let mut g = setup_bootstrapped();
    protected::create_entity(&mut g, "user:root", "user", "alice").unwrap();
    let result = protected::create_type(&mut g, "user:alice", "_custom", NOW);
    assert!(result.is_err());
}

#[test]
fn entity_in_nonexistent_type_fails() {
    let mut g = setup_bootstrapped();
    let result = protected::create_entity(&mut g, "user:root", "nonexistent", "test");
    assert!(result.is_err());
    let err_msg = result.unwrap_err().message;
    assert!(
        err_msg.contains("does not exist") || err_msg.contains("lacks permission") || err_msg.contains("not found"),
        "Unexpected error: {}",
        err_msg
    );
}

#[test]
fn duplicate_entity_rejected() {
    let mut g = setup_bootstrapped();
    protected::create_entity(&mut g, "user:root", "user", "alice").unwrap();
    let result = protected::create_entity(&mut g, "user:root", "user", "alice");
    assert!(result.is_err());
    assert!(result.unwrap_err().message.contains("already exists"));
}

#[test]
fn duplicate_type_rejected() {
    let mut g = setup_bootstrapped();
    let result = protected::create_type(&mut g, "user:root", "user", NOW);
    assert!(result.is_err());
    assert!(result.unwrap_err().message.contains("already exists"));
}
