// The entity graph's permission rules, exercised through the protected
// operations. Each test starts from a graph with the core types (user, team,
// app, resource), one type entity per type and `_type:_type`, and a root user
// holding the full type administration mask on each type entity.

#![allow(unused_imports, unused_variables, unused_mut)]

use capbit::graph::{
    check_access, delete_inheritance, delete_relationship, entity_exists, get_capability, get_inheritance,
    get_inheritance_for_object, get_inheritors_from_source, get_relationships, has_capability, list_accessible,
    list_subjects, set_capability, set_inheritance, set_relationship, type_exists, Graph,
};
use capbit::protected;
use capbit::system_cap;

const NOW: u64 = 13;

fn setup_bootstrapped() -> Graph {
    let mut g = Graph::new();
    for t in ["user", "team", "app", "resource"] {
        g.create_type_in(t).unwrap();
    }
    g.create_entity_in("user:root").unwrap();
    for t in ["_type", "user", "team", "app", "resource"] {
        let te = format!("_type:{}", t);
        g.create_entity_in(&te).unwrap();
        set_capability(&mut g, &te, "admin", system_cap::TYPE_ADMIN, NOW).unwrap();
        set_relationship(&mut g, "user:root", "admin", &te, NOW).unwrap();
    }
    g
}

#[test]
fn bootstrap_creates_root_with_all_caps() {
    let mut g = setup_bootstrapped();

    // Root should have admin on all type entities
    let caps_type = check_access(&g, "user:root", "_type:_type", None).unwrap();
    let caps_user = check_access(&g, "user:root", "_type:user", None).unwrap();
    let caps_team = check_access(&g, "user:root", "_type:team", None).unwrap();

    assert!((caps_type & system_cap::TYPE_ADMIN) == system_cap::TYPE_ADMIN);
    assert!((caps_user & system_cap::ENTITY_ADMIN) == system_cap::ENTITY_ADMIN);
    assert!((caps_team & system_cap::ENTITY_ADMIN) == system_cap::ENTITY_ADMIN);
}

#[test]
fn bootstrap_creates_core_types() {
    let mut g = setup_bootstrapped();

    assert!(type_exists(&g, "_type"));
    assert!(type_exists(&g, "user"));
    assert!(type_exists(&g, "team"));
    assert!(type_exists(&g, "app"));
    assert!(type_exists(&g, "resource"));
}

#[test]
fn after_bootstrap_mutations_require_auth() {
    let mut g = setup_bootstrapped();

    // Random user without permissions should fail
    let result = protected::create_entity(&mut g, "user:nobody", "user", "test");
    assert!(result.is_err());
}

#[test]
fn create_entity_requires_entity_create_on_type() {
    let mut g = setup_bootstrapped();

    // Root can create users (has ENTITY_CREATE on _type:user)
    let result = protected::create_entity(&mut g, "user:root", "user", "alice");
    assert!(result.is_ok());

    // Create bob without permissions
    protected::create_entity(&mut g, "user:root", "user", "bob").unwrap();

    // Bob cannot create users
    let result = protected::create_entity(&mut g, "user:bob", "user", "charlie");
    assert!(result.is_err());
}

#[test]
fn delete_entity_requires_entity_delete_on_type() {
    let mut g = setup_bootstrapped();

    // Create alice
    protected::create_entity(&mut g, "user:root", "user", "alice").unwrap();
    assert!(entity_exists(&g, "user:alice"));

    // Root can delete
    let result = protected::delete_entity(&mut g, "user:root", "user:alice");
    assert!(result.is_ok());
    assert!(!entity_exists(&g, "user:alice"));
}

#[test]
fn cannot_create_duplicate_entity() {
    let mut g = setup_bootstrapped();

    protected::create_entity(&mut g, "user:root", "user", "alice").unwrap();

    let result = protected::create_entity(&mut g, "user:root", "user", "alice");
    assert!(result.is_err());
    assert!(result.unwrap_err().message.contains("already exists"));
}

#[test]
fn set_grant_requires_grant_write_on_scope() {
    let mut g = setup_bootstrapped();

    // Create entities
    protected::create_entity(&mut g, "user:root", "user", "alice").unwrap();
    protected::create_entity(&mut g, "user:root", "user", "bob").unwrap();
    protected::create_entity(&mut g, "user:root", "team", "sales").unwrap();

    // Give alice GRANT_WRITE on team:sales
    protected::set_capability(&mut g, "user:root", "team:sales", "admin", system_cap::GRANT_ADMIN, NOW).unwrap();
    protected::set_grant(&mut g, "user:root", "user:alice", "admin", "team:sales", NOW).unwrap();

    // Alice can now grant on team:sales
    let result = protected::set_grant(&mut g, "user:alice", "user:bob", "member", "team:sales", NOW);
    assert!(result.is_ok());
}

#[test]
fn delete_grant_requires_grant_delete_on_scope() {
    let mut g = setup_bootstrapped();

    protected::create_entity(&mut g, "user:root", "user", "alice").unwrap();
    protected::create_entity(&mut g, "user:root", "team", "sales").unwrap();

    // Setup grant
    protected::set_capability(&mut g, "user:root", "team:sales", "member", 0x01, NOW).unwrap();
    protected::set_grant(&mut g, "user:root", "user:alice", "member", "team:sales", NOW).unwrap();

    // Root can delete (has all permissions)
    let result = protected::delete_grant(&mut g, "user:root", "user:alice", "member", "team:sales");
    assert!(result.is_ok());
}

#[test]
fn grant_validates_scope_exists() {
    let mut g = setup_bootstrapped();

    // Try to grant on non-existent scope
    let result = protected::set_grant(&mut g, "user:root", "user:alice", "member", "team:nonexistent", NOW);
    assert!(result.is_err());
}

#[test]
fn set_capability_requires_cap_write_on_scope() {
    let mut g = setup_bootstrapped();

    protected::create_entity(&mut g, "user:root", "user", "alice").unwrap();
    protected::create_entity(&mut g, "user:root", "team", "sales").unwrap();

    // Alice has no CAP_WRITE on team:sales
    let result = protected::set_capability(&mut g, "user:alice", "team:sales", "member", 0x01, NOW);
    assert!(result.is_err());

    // Root can set capabilities
    let result = protected::set_capability(&mut g, "user:root", "team:sales", "member", 0x01, NOW);
    assert!(result.is_ok());
}

#[test]
fn capabilities_are_per_scope_per_relation() {
    let mut g = setup_bootstrapped();

    protected::create_entity(&mut g, "user:root", "team", "sales").unwrap();
    protected::create_entity(&mut g, "user:root", "team", "engineering").unwrap();

    // Same relation name, different capabilities per scope
    protected::set_capability(&mut g, "user:root", "team:sales", "member", 0x01, NOW).unwrap();
    protected::set_capability(&mut g, "user:root", "team:engineering", "member", 0x0F, NOW).unwrap();

    // Create alice and give her member on both
    protected::create_entity(&mut g, "user:root", "user", "alice").unwrap();
    protected::set_grant(&mut g, "user:root", "user:alice", "member", "team:sales", NOW).unwrap();
    protected::set_grant(&mut g, "user:root", "user:alice", "member", "team:engineering", NOW).unwrap();

    // Different capabilities per scope
    assert_eq!(check_access(&g, "user:alice", "team:sales", None).unwrap(), 0x01);
    assert_eq!(check_access(&g, "user:alice", "team:engineering", None).unwrap(), 0x0F);
}

#[test]
fn set_delegation_requires_delegate_write_on_scope() {
    let mut g = setup_bootstrapped();

    protected::create_entity(&mut g, "user:root", "user", "alice").unwrap();
    protected::create_entity(&mut g, "user:root", "user", "bob").unwrap();
    protected::create_entity(&mut g, "user:root", "resource", "doc").unwrap();

    // Alice has no DELEGATE_WRITE on resource:doc
    let result = protected::set_delegation(&mut g, "user:alice", "user:bob", "resource:doc", "user:alice", NOW);
    assert!(result.is_err());
}

#[test]
fn delegation_bounded_by_delegator_caps() {
    let mut g = setup_bootstrapped();

    protected::create_entity(&mut g, "user:root", "user", "alice").unwrap();
    protected::create_entity(&mut g, "user:root", "user", "bob").unwrap();
    protected::create_entity(&mut g, "user:root", "resource", "doc").unwrap();

    // Setup: alice has READ only
    protected::set_capability(&mut g, "user:root", "resource:doc", "viewer", 0x01, NOW).unwrap();
    protected::set_capability(&mut g, "user:root", "resource:doc", "owner", system_cap::DELEGATE_WRITE, NOW).unwrap();
    protected::set_grant(&mut g, "user:root", "user:alice", "viewer", "resource:doc", NOW).unwrap();
    protected::set_grant(&mut g, "user:root", "user:alice", "owner", "resource:doc", NOW).unwrap();

    // Alice delegates to bob
    protected::set_delegation(&mut g, "user:alice", "user:bob", "resource:doc", "user:alice", NOW).unwrap();

    // Bob's caps are bounded by alice's
    let bob_caps = check_access(&g, "user:bob", "resource:doc", None).unwrap();
    assert_eq!(bob_caps & 0x01, 0x01);  // READ inherited
    assert_eq!(bob_caps & 0x02, 0x00);  // WRITE not available
}

#[test]
fn delegation_is_scope_specific() {
    let mut g = setup_bootstrapped();

    protected::create_entity(&mut g, "user:root", "user", "alice").unwrap();
    protected::create_entity(&mut g, "user:root", "user", "bob").unwrap();
    protected::create_entity(&mut g, "user:root", "resource", "doc1").unwrap();
    protected::create_entity(&mut g, "user:root", "resource", "doc2").unwrap();

    // Alice has access to doc1 only
    protected::set_capability(&mut g, "user:root", "resource:doc1", "editor", 0x03, NOW).unwrap();
    protected::set_capability(&mut g, "user:root", "resource:doc1", "owner", system_cap::DELEGATE_WRITE, NOW).unwrap();
    protected::set_grant(&mut g, "user:root", "user:alice", "editor", "resource:doc1", NOW).unwrap();
    protected::set_grant(&mut g, "user:root", "user:alice", "owner", "resource:doc1", NOW).unwrap();

    // Delegate to bob for doc1
    protected::set_delegation(&mut g, "user:alice", "user:bob", "resource:doc1", "user:alice", NOW).unwrap();

    // Bob has access to doc1: editor (0x03) + owner (DELEGATE_WRITE = 0x0800)
    assert_eq!(check_access(&g, "user:bob", "resource:doc1", None).unwrap(), 0x03 | system_cap::DELEGATE_WRITE);

    // Bob does NOT have access to doc2 (delegation is scope-specific)
    assert_eq!(check_access(&g, "user:bob", "resource:doc2", None).unwrap(), 0x00);
}

#[test]
fn check_direct_grant() {
    let mut g = setup_bootstrapped();

    protected::create_entity(&mut g, "user:root", "user", "alice").unwrap();
    protected::create_entity(&mut g, "user:root", "resource", "doc").unwrap();

    protected::set_capability(&mut g, "user:root", "resource:doc", "editor", 0x03, NOW).unwrap();
    protected::set_grant(&mut g, "user:root", "user:alice", "editor", "resource:doc", NOW).unwrap();

    assert_eq!(check_access(&g, "user:alice", "resource:doc", None).unwrap(), 0x03);
}

#[test]
fn check_via_delegation() {
    let mut g = setup_bootstrapped();

    protected::create_entity(&mut g, "user:root", "user", "alice").unwrap();
    protected::create_entity(&mut g, "user:root", "user", "bob").unwrap();
    protected::create_entity(&mut g, "user:root", "resource", "doc").unwrap();

    // Alice has direct access
    protected::set_capability(&mut g, "user:root", "resource:doc", "editor", 0x03, NOW).unwrap();
    protected::set_capability(&mut g, "user:root", "resource:doc", "owner", system_cap::DELEGATE_WRITE, NOW).unwrap();
    protected::set_grant(&mut g, "user:root", "user:alice", "editor", "resource:doc", NOW).unwrap();
    protected::set_grant(&mut g, "user:root", "user:alice", "owner", "resource:doc", NOW).unwrap();

    // Bob inherits via delegation
    protected::set_delegation(&mut g, "user:alice", "user:bob", "resource:doc", "user:alice", NOW).unwrap();

    // Bob gets all of Alice's caps: editor (0x03) + owner (DELEGATE_WRITE = 0x0800)
    assert_eq!(check_access(&g, "user:bob", "resource:doc", None).unwrap(), 0x03 | system_cap::DELEGATE_WRITE);
}

#[test]
fn check_multi_level_delegation() {
    let mut g = setup_bootstrapped();

    protected::create_entity(&mut g, "user:root", "user", "a").unwrap();
    protected::create_entity(&mut g, "user:root", "user", "b").unwrap();
    protected::create_entity(&mut g, "user:root", "user", "c").unwrap();
    protected::create_entity(&mut g, "user:root", "resource", "doc").unwrap();

    // A has direct access
    protected::set_capability(&mut g, "user:root", "resource:doc", "admin", 0xFF, NOW).unwrap();
    protected::set_capability(&mut g, "user:root", "resource:doc", "owner", system_cap::DELEGATE_WRITE, NOW).unwrap();
    protected::set_grant(&mut g, "user:root", "user:a", "admin", "resource:doc", NOW).unwrap();
    protected::set_grant(&mut g, "user:root", "user:a", "owner", "resource:doc", NOW).unwrap();
    protected::set_grant(&mut g, "user:root", "user:b", "owner", "resource:doc", NOW).unwrap();

    // A -> B -> C delegation chain
    protected::set_delegation(&mut g, "user:a", "user:b", "resource:doc", "user:a", NOW).unwrap();
    protected::set_delegation(&mut g, "user:b", "user:c", "resource:doc", "user:b", NOW).unwrap();

    // C inherits full chain: A's admin (0xFF) + owner (DELEGATE_WRITE = 0x0800)
    assert_eq!(check_access(&g, "user:c", "resource:doc", None).unwrap(), 0xFF | system_cap::DELEGATE_WRITE);
}

#[test]
fn check_multiple_relations_or_together() {
    let mut g = setup_bootstrapped();

    protected::create_entity(&mut g, "user:root", "user", "alice").unwrap();
    protected::create_entity(&mut g, "user:root", "resource", "doc").unwrap();

    // Different relations with different caps
    protected::set_capability(&mut g, "user:root", "resource:doc", "viewer", 0x01, NOW).unwrap();
    protected::set_capability(&mut g, "user:root", "resource:doc", "editor", 0x02, NOW).unwrap();

    // Alice has both relations
    protected::set_grant(&mut g, "user:root", "user:alice", "viewer", "resource:doc", NOW).unwrap();
    protected::set_grant(&mut g, "user:root", "user:alice", "editor", "resource:doc", NOW).unwrap();

    // Capabilities OR together
    assert_eq!(check_access(&g, "user:alice", "resource:doc", None).unwrap(), 0x03);
}

#[test]
fn check_no_access_returns_zero() {
    let mut g = setup_bootstrapped();

    protected::create_entity(&mut g, "user:root", "user", "alice").unwrap();
    protected::create_entity(&mut g, "user:root", "resource", "doc").unwrap();

    // Alice has no grants on doc
    assert_eq!(check_access(&g, "user:alice", "resource:doc", None).unwrap(), 0x00);
}
