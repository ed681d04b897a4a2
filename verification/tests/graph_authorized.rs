// The entity graph's permission rules, exercised through the protected
// operations. Each test starts from a graph with the core types (user, team,
// app, resource), one type entity per type and `_type:_type`, and a root user
// holding the full type administration mask on each type entity.

#![allow(unused_imports, unused_variables, unused_mut)]

use capbit::graph::{
    check_access, delete_inheritance, delete_relationship, entity_exists, get_capability, get_inheritance,
    get_inheritance_for_object, get_inheritors_from_source, get_relationships, has_capability, list_accessible,
    list_subjects, set_capability, set_inheritance, set_relationship, type_exists, Graph,
};
use capbit::protected;
use capbit::system_cap;

const NOW: u64 = 13;

fn setup_bootstrapped() -> Graph {
    let mut g = Graph::new();
    for t in ["user", "team", "app", "resource"] {
        g.create_type_in(t).unwrap();
    }
    g.create_entity_in("user:root").unwrap();
    for t in ["_type", "user", "team", "app", "resource"] {
        let te = format!("_type:{}", t);
        g.create_entity_in(&te).unwrap();
        set_capability(&mut g, &te, "admin", system_cap::TYPE_ADMIN, NOW).unwrap();
        set_relationship(&mut g, "user:root", "admin", &te, NOW).unwrap();
    }
    g
}

#[test]
fn authorized_user_can_create_entity() {
    let mut g = setup_bootstrapped();

    // Give alice admin on _type:user
    protected::create_entity(&mut g, "user:root", "user", "alice").unwrap();
    protected::set_grant(&mut g, "user:root", "user:alice", "admin", "_type:user", NOW).unwrap();

    // Alice can create users
    let result = protected::create_entity(&mut g, "user:alice", "user", "bob");
    assert!(result.is_ok());
    assert!(entity_exists(&g, "user:bob"));

    // Alice can create multiple users
    protected::create_entity(&mut g, "user:alice", "user", "charlie").unwrap();
    protected::create_entity(&mut g, "user:alice", "user", "david").unwrap();
    assert!(entity_exists(&g, "user:charlie"));
    assert!(entity_exists(&g, "user:david"));
}

#[test]
fn authorized_user_can_delete_entity() {
    let mut g = setup_bootstrapped();

    // Setup: alice is user admin
    protected::create_entity(&mut g, "user:root", "user", "alice").unwrap();
    protected::set_grant(&mut g, "user:root", "user:alice", "admin", "_type:user", NOW).unwrap();

    // Create a user to delete
    protected::create_entity(&mut g, "user:alice", "user", "temp").unwrap();
    assert!(entity_exists(&g, "user:temp"));

    // Alice can delete
    let result = protected::delete_entity(&mut g, "user:alice", "user:temp");
    assert!(result.is_ok());
    assert!(!entity_exists(&g, "user:temp"));
}

#[test]
fn authorized_user_can_set_grant() {
    let mut g = setup_bootstrapped();

    protected::create_entity(&mut g, "user:root", "user", "alice").unwrap();
    protected::create_entity(&mut g, "user:root", "user", "bob").unwrap();
    protected::create_entity(&mut g, "user:root", "team", "sales").unwrap();

    // Give alice GRANT_ADMIN on team:sales
    protected::set_capability(&mut g, "user:root", "team:sales", "admin", system_cap::GRANT_ADMIN, NOW).unwrap();
    protected::set_grant(&mut g, "user:root", "user:alice", "admin", "team:sales", NOW).unwrap();

    // Define what "member" means
    protected::set_capability(&mut g, "user:root", "team:sales", "member", 0x01, NOW).unwrap();

    // Alice can grant bob membership
    let result = protected::set_grant(&mut g, "user:alice", "user:bob", "member", "team:sales", NOW);
    assert!(result.is_ok());

    // Verify bob has the grant
    assert!(has_capability(&g, "user:bob", "team:sales", 0x01).unwrap());
}

#[test]
fn authorized_user_can_delete_grant() {
    let mut g = setup_bootstrapped();

    protected::create_entity(&mut g, "user:root", "user", "alice").unwrap();
    protected::create_entity(&mut g, "user:root", "user", "bob").unwrap();
    protected::create_entity(&mut g, "user:root", "team", "sales").unwrap();

    // Setup: alice has GRANT_ADMIN, bob has membership
    protected::set_capability(&mut g, "user:root", "team:sales", "admin", system_cap::GRANT_ADMIN, NOW).unwrap();
    protected::set_capability(&mut g, "user:root", "team:sales", "member", 0x01, NOW).unwrap();
    protected::set_grant(&mut g, "user:root", "user:alice", "admin", "team:sales", NOW).unwrap();
    protected::set_grant(&mut g, "user:root", "user:bob", "member", "team:sales", NOW).unwrap();

    assert!(has_capability(&g, "user:bob", "team:sales", 0x01).unwrap());

    // Alice can revoke bob's membership
    let result = protected::delete_grant(&mut g, "user:alice", "user:bob", "member", "team:sales");
    assert!(result.is_ok());
    assert!(!has_capability(&g, "user:bob", "team:sales", 0x01).unwrap());
}

#[test]
fn authorized_user_can_set_capability() {
    let mut g = setup_bootstrapped();

    protected::create_entity(&mut g, "user:root", "user", "alice").unwrap();
    protected::create_entity(&mut g, "user:root", "resource", "doc").unwrap();

    // Give alice CAP_ADMIN on resource:doc
    protected::set_capability(&mut g, "user:root", "resource:doc", "admin", system_cap::CAP_ADMIN, NOW).unwrap();
    protected::set_grant(&mut g, "user:root", "user:alice", "admin", "resource:doc", NOW).unwrap();

    // Alice can define new capabilities
    let result = protected::set_capability(&mut g, "user:alice", "resource:doc", "viewer", 0x01, NOW);
    assert!(result.is_ok());

    let result = protected::set_capability(&mut g, "user:alice", "resource:doc", "editor", 0x03, NOW);
    assert!(result.is_ok());

    let result = protected::set_capability(&mut g, "user:alice", "resource:doc", "owner", 0x0F, NOW);
    assert!(result.is_ok());

    // Verify capabilities are set by granting and checking
    protected::set_grant(&mut g, "user:root", "user:alice", "viewer", "resource:doc", NOW).unwrap();
    assert!(has_capability(&g, "user:alice", "resource:doc", 0x01).unwrap());
}

#[test]
fn authorized_user_can_delegate() {
    let mut g = setup_bootstrapped();

    protected::create_entity(&mut g, "user:root", "user", "alice").unwrap();
    protected::create_entity(&mut g, "user:root", "user", "bob").unwrap();
    protected::create_entity(&mut g, "user:root", "resource", "doc").unwrap();

    // Give alice access and delegation rights
    protected::set_capability(&mut g, "user:root", "resource:doc", "editor", 0x0F, NOW).unwrap();
    protected::set_capability(&mut g, "user:root", "resource:doc", "delegator", system_cap::DELEGATE_WRITE, NOW).unwrap();
    protected::set_grant(&mut g, "user:root", "user:alice", "editor", "resource:doc", NOW).unwrap();
    protected::set_grant(&mut g, "user:root", "user:alice", "delegator", "resource:doc", NOW).unwrap();

    // Alice can delegate to bob
    let result = protected::set_delegation(&mut g, "user:alice", "user:bob", "resource:doc", "user:alice", NOW);
    assert!(result.is_ok());

    // Bob now has alice's capabilities
    assert!(has_capability(&g, "user:bob", "resource:doc", 0x0F).unwrap());
}

#[test]
fn authorized_user_can_delete_delegation() {
    let mut g = setup_bootstrapped();

    protected::create_entity(&mut g, "user:root", "user", "alice").unwrap();
    protected::create_entity(&mut g, "user:root", "user", "bob").unwrap();
    protected::create_entity(&mut g, "user:root", "resource", "doc").unwrap();

    // Give alice full delegation control
    protected::set_capability(&mut g, "user:root", "resource:doc", "editor", 0x0F, NOW).unwrap();
    protected::set_capability(&mut g, "user:root", "resource:doc", "delegator", system_cap::DELEGATE_ADMIN, NOW).unwrap();
    protected::set_grant(&mut g, "user:root", "user:alice", "editor", "resource:doc", NOW).unwrap();
    protected::set_grant(&mut g, "user:root", "user:alice", "delegator", "resource:doc", NOW).unwrap();

    // Create and verify delegation
    protected::set_delegation(&mut g, "user:alice", "user:bob", "resource:doc", "user:alice", NOW).unwrap();
    assert!(has_capability(&g, "user:bob", "resource:doc", 0x0F).unwrap());

    // Alice can remove the delegation
    let result = protected::delete_delegation(&mut g, "user:alice", "user:bob", "resource:doc", "user:alice");
    assert!(result.is_ok());
    assert!(!has_capability(&g, "user:bob", "resource:doc", 0x0F).unwrap());
}

#[test]
fn type_admin_can_manage_all_instances() {
    let mut g = setup_bootstrapped();

    // Alice is team admin (via _type:team)
    protected::create_entity(&mut g, "user:root", "user", "alice").unwrap();
    protected::set_grant(&mut g, "user:root", "user:alice", "admin", "_type:team", NOW).unwrap();

    // Alice can create any team
    protected::create_entity(&mut g, "user:alice", "team", "sales").unwrap();
    protected::create_entity(&mut g, "user:alice", "team", "engineering").unwrap();
    protected::create_entity(&mut g, "user:alice", "team", "marketing").unwrap();

    assert!(entity_exists(&g, "team:sales"));
    assert!(entity_exists(&g, "team:engineering"));
    assert!(entity_exists(&g, "team:marketing"));

    // Alice can delete any team
    protected::delete_entity(&mut g, "user:alice", "team:marketing").unwrap();
    assert!(!entity_exists(&g, "team:marketing"));

    // Alice can set capabilities on any team
    protected::set_capability(&mut g, "user:alice", "team:sales", "member", 0x01, NOW).unwrap();
    protected::set_capability(&mut g, "user:alice", "team:engineering", "member", 0x01, NOW).unwrap();

    // Alice can grant on any team
    protected::create_entity(&mut g, "user:root", "user", "bob").unwrap();
    protected::set_grant(&mut g, "user:alice", "user:bob", "member", "team:sales", NOW).unwrap();
    protected::set_grant(&mut g, "user:alice", "user:bob", "member", "team:engineering", NOW).unwrap();

    assert!(has_capability(&g, "user:bob", "team:sales", 0x01).unwrap());
    assert!(has_capability(&g, "user:bob", "team:engineering", 0x01).unwrap());
}

#[test]
fn delegatee_can_access_delegated_scope() {
    let mut g = setup_bootstrapped();

    // Create a 3-level delegation chain: alice -> bob -> charlie
    protected::create_entity(&mut g, "user:root", "user", "alice").unwrap();
    protected::create_entity(&mut g, "user:root", "user", "bob").unwrap();
    protected::create_entity(&mut g, "user:root", "user", "charlie").unwrap();
    protected::create_entity(&mut g, "user:root", "resource", "secret").unwrap();

    // Alice has full access
    protected::set_capability(&mut g, "user:root", "resource:secret", "admin", 0xFF | system_cap::DELEGATE_WRITE, NOW).unwrap();
    protected::set_grant(&mut g, "user:root", "user:alice", "admin", "resource:secret", NOW).unwrap();

    // Bob gets delegation from alice, give bob delegation rights too
    protected::set_grant(&mut g, "user:root", "user:bob", "admin", "resource:secret", NOW).unwrap();
    protected::set_delegation(&mut g, "user:alice", "user:bob", "resource:secret", "user:alice", NOW).unwrap();

    // Charlie gets delegation from bob
    protected::set_delegation(&mut g, "user:bob", "user:charlie", "resource:secret", "user:bob", NOW).unwrap();

    // All three can access the resource
    assert!(has_capability(&g, "user:alice", "resource:secret", 0xFF).unwrap());
    assert!(has_capability(&g, "user:bob", "resource:secret", 0xFF).unwrap());
    assert!(has_capability(&g, "user:charlie", "resource:secret", 0xFF).unwrap());
}

#[test]
fn multi_role_user_has_combined_access() {
    let mut g = setup_bootstrapped();

    protected::create_entity(&mut g, "user:root", "user", "alice").unwrap();
    protected::create_entity(&mut g, "user:root", "resource", "doc").unwrap();

    // Define multiple non-overlapping roles
    protected::set_capability(&mut g, "user:root", "resource:doc", "viewer", 0x01, NOW).unwrap();     // bit 0
    protected::set_capability(&mut g, "user:root", "resource:doc", "commenter", 0x02, NOW).unwrap();  // bit 1
    protected::set_capability(&mut g, "user:root", "resource:doc", "editor", 0x04, NOW).unwrap();     // bit 2
    protected::set_capability(&mut g, "user:root", "resource:doc", "admin", 0x08, NOW).unwrap();      // bit 3

    // Grant alice multiple roles
    protected::set_grant(&mut g, "user:root", "user:alice", "viewer", "resource:doc", NOW).unwrap();
    protected::set_grant(&mut g, "user:root", "user:alice", "commenter", "resource:doc", NOW).unwrap();
    protected::set_grant(&mut g, "user:root", "user:alice", "editor", "resource:doc", NOW).unwrap();

    // Alice has combined capabilities (0x07 = viewer + commenter + editor)
    let caps = check_access(&g, "user:alice", "resource:doc", None).unwrap();
    assert_eq!(caps, 0x07);

    // Alice can use any individual capability
    assert!(has_capability(&g, "user:alice", "resource:doc", 0x01).unwrap()); // viewer
    assert!(has_capability(&g, "user:alice", "resource:doc", 0x02).unwrap()); // commenter
    assert!(has_capability(&g, "user:alice", "resource:doc", 0x04).unwrap()); // editor

    // Alice cannot use admin (not granted)
    assert!(!has_capability(&g, "user:alice", "resource:doc", 0x08).unwrap());

    // Alice can use any combination of her roles
    assert!(has_capability(&g, "user:alice", "resource:doc", 0x03).unwrap()); // viewer + commenter
    assert!(has_capability(&g, "user:alice", "resource:doc", 0x07).unwrap()); // all three
}

#[test]
fn user_can_query_accessible_resources() {
    let mut g = setup_bootstrapped();

    protected::create_entity(&mut g, "user:root", "user", "alice").unwrap();
    protected::create_entity(&mut g, "user:root", "resource", "doc1").unwrap();
    protected::create_entity(&mut g, "user:root", "resource", "doc2").unwrap();
    protected::create_entity(&mut g, "user:root", "resource", "doc3").unwrap();
    protected::create_entity(&mut g, "user:root", "team", "sales").unwrap();

    // Grant alice access to various resources
    protected::set_capability(&mut g, "user:root", "resource:doc1", "viewer", 0x01, NOW).unwrap();
    protected::set_capability(&mut g, "user:root", "resource:doc2", "editor", 0x03, NOW).unwrap();
    protected::set_capability(&mut g, "user:root", "team:sales", "member", 0x01, NOW).unwrap();

    protected::set_grant(&mut g, "user:root", "user:alice", "viewer", "resource:doc1", NOW).unwrap();
    protected::set_grant(&mut g, "user:root", "user:alice", "editor", "resource:doc2", NOW).unwrap();
    protected::set_grant(&mut g, "user:root", "user:alice", "member", "team:sales", NOW).unwrap();

    // Query all accessible resources
    let accessible = list_accessible(&g, "user:alice").unwrap();

    // Should have access to doc1, doc2, and team:sales (not doc3)
    let objects: Vec<&str> = accessible.iter().map(|(obj, _)| obj.as_str()).collect();
    assert!(objects.contains(&"resource:doc1"));
    assert!(objects.contains(&"resource:doc2"));
    assert!(objects.contains(&"team:sales"));
    assert!(!objects.contains(&"resource:doc3"));
}

#[test]
fn user_can_query_who_has_access() {
    let mut g = setup_bootstrapped();

    protected::create_entity(&mut g, "user:root", "user", "alice").unwrap();
    protected::create_entity(&mut g, "user:root", "user", "bob").unwrap();
    protected::create_entity(&mut g, "user:root", "user", "charlie").unwrap();
    protected::create_entity(&mut g, "user:root", "team", "sales").unwrap();

    // Grant various users access to sales
    protected::set_capability(&mut g, "user:root", "team:sales", "member", 0x01, NOW).unwrap();
    protected::set_capability(&mut g, "user:root", "team:sales", "admin", 0x0F, NOW).unwrap();

    protected::set_grant(&mut g, "user:root", "user:alice", "admin", "team:sales", NOW).unwrap();
    protected::set_grant(&mut g, "user:root", "user:bob", "member", "team:sales", NOW).unwrap();
    protected::set_grant(&mut g, "user:root", "user:charlie", "member", "team:sales", NOW).unwrap();

    // Query who has access
    let subjects = list_subjects(&g, "team:sales").unwrap();

    let users: Vec<&str> = subjects.iter().map(|(subj, _)| subj.as_str()).collect();
    assert!(users.contains(&"user:alice"));
    assert!(users.contains(&"user:bob"));
    assert!(users.contains(&"user:charlie"));
}

#[test]
fn inherited_permissions_grant_access() {
    let mut g = setup_bootstrapped();

    protected::create_entity(&mut g, "user:root", "user", "alice").unwrap();
    protected::create_entity(&mut g, "user:root", "user", "bob").unwrap();
    protected::create_entity(&mut g, "user:root", "resource", "doc").unwrap();

    // Alice has direct access
    protected::set_capability(&mut g, "user:root", "resource:doc", "editor", 0x0F, NOW).unwrap();
    protected::set_capability(&mut g, "user:root", "resource:doc", "delegator", system_cap::DELEGATE_WRITE, NOW).unwrap();
    protected::set_grant(&mut g, "user:root", "user:alice", "editor", "resource:doc", NOW).unwrap();
    protected::set_grant(&mut g, "user:root", "user:alice", "delegator", "resource:doc", NOW).unwrap();

    // Bob inherits from alice
    protected::set_delegation(&mut g, "user:alice", "user:bob", "resource:doc", "user:alice", NOW).unwrap();

    // Bob can use inherited permissions
    let bob_caps = check_access(&g, "user:bob", "resource:doc", None).unwrap();
    assert!(bob_caps & 0x0F == 0x0F); // Has editor capabilities

    // Verify inheritance is recorded
    let inheritance = get_inheritance(&g, "user:bob", "resource:doc").unwrap();
    assert!(inheritance.contains(&"user:alice".to_string()));
}

#[test]
fn user_with_partial_caps_can_use_them() {
    let mut g = setup_bootstrapped();

    protected::create_entity(&mut g, "user:root", "user", "alice").unwrap();
    protected::create_entity(&mut g, "user:root", "resource", "doc").unwrap();

    // Define a role with specific bits
    protected::set_capability(&mut g, "user:root", "resource:doc", "limited", 0x05, NOW).unwrap(); // bits 0 and 2

    protected::set_grant(&mut g, "user:root", "user:alice", "limited", "resource:doc", NOW).unwrap();

    // Alice has exactly bits 0 and 2
    let caps = check_access(&g, "user:alice", "resource:doc", None).unwrap();
    assert_eq!(caps, 0x05);

    // Can use bit 0
    assert!(has_capability(&g, "user:alice", "resource:doc", 0x01).unwrap());
    // Can use bit 2
    assert!(has_capability(&g, "user:alice", "resource:doc", 0x04).unwrap());
    // Can use both together
    assert!(has_capability(&g, "user:alice", "resource:doc", 0x05).unwrap());

    // Cannot use bit 1 (not granted)
    assert!(!has_capability(&g, "user:alice", "resource:doc", 0x02).unwrap());
    // Cannot use bit 1 + anything else
    assert!(!has_capability(&g, "user:alice", "resource:doc", 0x03).unwrap());
    assert!(!has_capability(&g, "user:alice", "resource:doc", 0x07).unwrap());
}

#[test]
fn custom_type_creator_can_manage_type() {
    let mut g = setup_bootstrapped();

    protected::create_entity(&mut g, "user:root", "user", "alice").unwrap();

    // Give alice TYPE_CREATE permission
    protected::set_grant(&mut g, "user:root", "user:alice", "admin", "_type:_type", NOW).unwrap();

    // Alice creates a custom type
    let result = protected::create_type(&mut g, "user:alice", "project", NOW);
    assert!(result.is_ok());
    assert!(type_exists(&g, "project"));

    // Alice automatically gets admin on _type:project
    let alice_caps = check_access(&g, "user:alice", "_type:project", None).unwrap();
    assert!((alice_caps & system_cap::ENTITY_ADMIN) == system_cap::ENTITY_ADMIN);

    // Alice can create project entities
    let result = protected::create_entity(&mut g, "user:alice", "project", "alpha");
    assert!(result.is_ok());
    assert!(entity_exists(&g, "project:alpha"));

    // Alice can manage the project
    protected::set_capability(&mut g, "user:alice", "project:alpha", "member", 0x01, NOW).unwrap();
    protected::create_entity(&mut g, "user:root", "user", "bob").unwrap();
    protected::set_grant(&mut g, "user:alice", "user:bob", "member", "project:alpha", NOW).unwrap();

    assert!(has_capability(&g, "user:bob", "project:alpha", 0x01).unwrap());
}

#[test]
fn user_can_manage_multiple_scopes() {
    let mut g = setup_bootstrapped();

    protected::create_entity(&mut g, "user:root", "user", "alice").unwrap();
    protected::create_entity(&mut g, "user:root", "user", "bob").unwrap();
    protected::create_entity(&mut g, "user:root", "team", "sales").unwrap();
    protected::create_entity(&mut g, "user:root", "team", "marketing").unwrap();
    protected::create_entity(&mut g, "user:root", "resource", "doc1").unwrap();

    // Alice is admin on multiple scopes
    protected::set_capability(&mut g, "user:root", "team:sales", "admin", system_cap::GRANT_ADMIN, NOW).unwrap();
    protected::set_capability(&mut g, "user:root", "team:marketing", "admin", system_cap::GRANT_ADMIN, NOW).unwrap();
    protected::set_capability(&mut g, "user:root", "resource:doc1", "admin", system_cap::GRANT_ADMIN, NOW).unwrap();

    protected::set_grant(&mut g, "user:root", "user:alice", "admin", "team:sales", NOW).unwrap();
    protected::set_grant(&mut g, "user:root", "user:alice", "admin", "team:marketing", NOW).unwrap();
    protected::set_grant(&mut g, "user:root", "user:alice", "admin", "resource:doc1", NOW).unwrap();

    // Define member roles
    protected::set_capability(&mut g, "user:root", "team:sales", "member", 0x01, NOW).unwrap();
    protected::set_capability(&mut g, "user:root", "team:marketing", "member", 0x02, NOW).unwrap();
    protected::set_capability(&mut g, "user:root", "resource:doc1", "viewer", 0x04, NOW).unwrap();

    // Alice can grant bob access to all her scopes
    protected::set_grant(&mut g, "user:alice", "user:bob", "member", "team:sales", NOW).unwrap();
    protected::set_grant(&mut g, "user:alice", "user:bob", "member", "team:marketing", NOW).unwrap();
    protected::set_grant(&mut g, "user:alice", "user:bob", "viewer", "resource:doc1", NOW).unwrap();

    // Bob has access to all three
    assert!(has_capability(&g, "user:bob", "team:sales", 0x01).unwrap());
    assert!(has_capability(&g, "user:bob", "team:marketing", 0x02).unwrap());
    assert!(has_capability(&g, "user:bob", "resource:doc1", 0x04).unwrap());
}

#[test]
fn relationships_are_queryable() {
    let mut g = setup_bootstrapped();

    protected::create_entity(&mut g, "user:root", "user", "alice").unwrap();
    protected::create_entity(&mut g, "user:root", "team", "sales").unwrap();

    // Grant multiple relations
    protected::set_capability(&mut g, "user:root", "team:sales", "member", 0x01, NOW).unwrap();
    protected::set_capability(&mut g, "user:root", "team:sales", "lead", 0x03, NOW).unwrap();
    protected::set_capability(&mut g, "user:root", "team:sales", "admin", 0x0F, NOW).unwrap();

    protected::set_grant(&mut g, "user:root", "user:alice", "member", "team:sales", NOW).unwrap();
    protected::set_grant(&mut g, "user:root", "user:alice", "lead", "team:sales", NOW).unwrap();

    // Query alice's relationships to team:sales
    let relations = get_relationships(&g, "user:alice", "team:sales").unwrap();

    assert!(relations.contains(&"member".to_string()));
    assert!(relations.contains(&"lead".to_string()));
    assert!(!relations.contains(&"admin".to_string())); // not granted
}
