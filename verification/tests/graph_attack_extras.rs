// The entity graph's permission rules, exercised through the protected
// operations. Each test starts from a graph with the core types (user, team,
// app, resource), one type entity per type and `_type:_type`, and a root user
// holding the full type administration mask on each type entity.

#![allow(unused_imports, unused_variables, unused_mut)]

use capbit::graph::{
    check_access, delete_inheritance, delete_relationship, entity_exists, get_capability, get_inheritance,
    get_inheritance_for_object, get_inheritors_from_source, get_relationships, has_capability, list_accessible,
    list_subjects, set_capability, set_inheritance, set_relationship, type_exists, Graph,
};
use capbit::protected;
use capbit::system_cap;

const NOW: u64 = 13;

fn setup_bootstrapped() -> Graph {
    let mut g = Graph::new();
    for t in ["user", "team", "app", "resource"] {
        g.create_type_in(t).unwrap();
    }
    g.create_entity_in("user:root").unwrap();
    for t in ["_type", "user", "team", "app", "resource"] {
        let te = format!("_type:{}", t);
        g.create_entity_in(&te).unwrap();
        set_capability(&mut g, &te, "admin", system_cap::TYPE_ADMIN, NOW).unwrap();
        set_relationship(&mut g, "user:root", "admin", &te, NOW).unwrap();
    }
    g
}

#[test]
fn attack_confused_deputy_via_delegation() {
    let mut g = setup_bootstrapped();

    // Setup: alice is a team admin, bob is nobody
    protected::create_entity(&mut g, "user:root", "user", "alice").unwrap();
    protected::create_entity(&mut g, "user:root", "user", "bob").unwrap();
    protected::create_entity(&mut g, "user:root", "resource", "secret_doc").unwrap();

    // Alice has full access to secret_doc including delegation
    protected::set_capability(&mut g, "user:root", "resource:secret_doc", "admin",
        system_cap::GRANT_ADMIN | system_cap::DELEGATE_WRITE | 0xFF, NOW).unwrap();
    protected::set_grant(&mut g, "user:root", "user:alice", "admin", "resource:secret_doc", NOW).unwrap();

    // Verify alice can access
    let alice_caps = check_access(&g, "user:alice", "resource:secret_doc", None).unwrap();
    assert!(alice_caps & 0xFF == 0xFF);

    // Bob cannot directly access
    let bob_caps = check_access(&g, "user:bob", "resource:secret_doc", None).unwrap();
    assert_eq!(bob_caps, 0);

    // Attack: If bob could somehow call set_delegation as alice, he'd get access
    // The protected API requires the ACTOR to have DELEGATE_WRITE, not just be named
    // Bob tries to delegate to himself claiming to be alice
    let result = protected::set_delegation(&mut g, "user:bob", "user:bob", "resource:secret_doc", "user:alice", NOW);

    // DENIED - bob doesn't have DELEGATE_WRITE on resource:secret_doc
    assert!(result.is_err());

    // Bob still has no access
    let bob_caps_after = check_access(&g, "user:bob", "resource:secret_doc", None).unwrap();
    assert_eq!(bob_caps_after, 0);
}

#[test]
fn attack_capability_bit_overflow() {
    let mut g = setup_bootstrapped();

    protected::create_entity(&mut g, "user:root", "resource", "target").unwrap();

    // Set max u64 capability
    protected::set_capability(&mut g, "user:root", "resource:target", "superadmin", u64::MAX, NOW).unwrap();
    protected::create_entity(&mut g, "user:root", "user", "alice").unwrap();
    protected::set_grant(&mut g, "user:root", "user:alice", "superadmin", "resource:target", NOW).unwrap();

    // Check that max capability is correctly stored and retrieved
    let caps = check_access(&g, "user:alice", "resource:target", None).unwrap();
    assert_eq!(caps, u64::MAX);

    // Verify that checking with max required works
    assert!((caps & u64::MAX) == u64::MAX);
}

#[test]
fn attack_zero_capability_bypass() {
    let mut g = setup_bootstrapped();

    protected::create_entity(&mut g, "user:root", "user", "alice").unwrap();
    protected::create_entity(&mut g, "user:root", "resource", "doc").unwrap();

    // Alice has no grants - she has zero capabilities
    let caps = check_access(&g, "user:alice", "resource:doc", None).unwrap();
    assert_eq!(caps, 0);

    // Zero capability check always passes (required=0 means "no requirements")
    assert!((caps & 0) == 0);

    // But any non-zero requirement fails
    assert!((caps & 0x01) != 0x01);
}

#[test]
fn attack_scope_path_traversal_attempt() {
    let mut g = setup_bootstrapped();

    protected::create_entity(&mut g, "user:root", "user", "alice").unwrap();
    protected::create_entity(&mut g, "user:root", "resource", "public").unwrap();
    protected::create_entity(&mut g, "user:root", "resource", "secret").unwrap();

    // Give alice access to public only
    protected::set_capability(&mut g, "user:root", "resource:public", "viewer", 0x01, NOW).unwrap();
    protected::set_grant(&mut g, "user:root", "user:alice", "viewer", "resource:public", NOW).unwrap();

    // Alice has access to public
    assert_eq!(check_access(&g, "user:alice", "resource:public", None).unwrap(), 0x01);

    // Alice does NOT have access to secret
    assert_eq!(check_access(&g, "user:alice", "resource:secret", None).unwrap(), 0);

    // Path traversal attempts should not grant access
    // These are different entity IDs, not path-related
    // In the normalized schema, non-existent entities return an error
    assert!(check_access(&g, "user:alice", "resource:public/../secret", None).is_err());
    assert!(check_access(&g, "user:alice", "resource:./secret", None).is_err());
}

#[test]
fn attack_grant_on_type_vs_instance_confusion() {
    let mut g = setup_bootstrapped();

    protected::create_entity(&mut g, "user:root", "user", "alice").unwrap();
    protected::create_entity(&mut g, "user:root", "user", "bob").unwrap();
    protected::create_entity(&mut g, "user:root", "team", "sales").unwrap();

    // Give alice admin on _type:team (can manage all teams)
    protected::set_grant(&mut g, "user:root", "user:alice", "admin", "_type:team", NOW).unwrap();

    // Give bob admin on team:sales only (specific instance)
    protected::set_capability(&mut g, "user:root", "team:sales", "admin", system_cap::GRANT_ADMIN, NOW).unwrap();
    protected::set_grant(&mut g, "user:root", "user:bob", "admin", "team:sales", NOW).unwrap();

    // Alice can create teams (via _type:team)
    let result = protected::create_entity(&mut g, "user:alice", "team", "engineering");
    assert!(result.is_ok());

    // Bob cannot create teams
    let result = protected::create_entity(&mut g, "user:bob", "team", "marketing");
    assert!(result.is_err());

    // Bob can only grant on team:sales
    protected::create_entity(&mut g, "user:root", "user", "charlie").unwrap();
    let result = protected::set_grant(&mut g, "user:bob", "user:charlie", "member", "team:sales", NOW);
    assert!(result.is_ok());

    // Bob cannot grant on team:engineering (alice created it, bob has no rights)
    let result = protected::set_grant(&mut g, "user:bob", "user:charlie", "member", "team:engineering", NOW);
    assert!(result.is_err());
}

#[test]
fn attack_privilege_accumulation() {
    let mut g = setup_bootstrapped();

    protected::create_entity(&mut g, "user:root", "user", "alice").unwrap();
    protected::create_entity(&mut g, "user:root", "resource", "doc").unwrap();

    // Define multiple roles with different bits
    protected::set_capability(&mut g, "user:root", "resource:doc", "viewer", 0x01, NOW).unwrap();
    protected::set_capability(&mut g, "user:root", "resource:doc", "commenter", 0x02, NOW).unwrap();
    protected::set_capability(&mut g, "user:root", "resource:doc", "editor", 0x04, NOW).unwrap();

    // Alice gets viewer only
    protected::set_grant(&mut g, "user:root", "user:alice", "viewer", "resource:doc", NOW).unwrap();
    assert_eq!(check_access(&g, "user:alice", "resource:doc", None).unwrap(), 0x01);

    // Alice gets commenter too - caps accumulate via OR
    protected::set_grant(&mut g, "user:root", "user:alice", "commenter", "resource:doc", NOW).unwrap();
    assert_eq!(check_access(&g, "user:alice", "resource:doc", None).unwrap(), 0x03);

    // This is expected behavior - roles combine via OR
    // The "attack" would be if someone could grant themselves roles
    // Alice tries to self-grant editor
    let result = protected::set_grant(&mut g, "user:alice", "user:alice", "editor", "resource:doc", NOW);
    assert!(result.is_err()); // Alice lacks GRANT_WRITE on resource:doc
}

#[test]
fn attack_indirect_escalation_via_chain() {
    let mut g = setup_bootstrapped();

    protected::create_entity(&mut g, "user:root", "user", "alice").unwrap();
    protected::create_entity(&mut g, "user:root", "user", "bob").unwrap();
    protected::create_entity(&mut g, "user:root", "user", "charlie").unwrap();
    protected::create_entity(&mut g, "user:root", "resource", "doc").unwrap();

    // Alice has limited access
    protected::set_capability(&mut g, "user:root", "resource:doc", "viewer", 0x01, NOW).unwrap();
    protected::set_capability(&mut g, "user:root", "resource:doc", "delegator", system_cap::DELEGATE_WRITE, NOW).unwrap();
    protected::set_grant(&mut g, "user:root", "user:alice", "viewer", "resource:doc", NOW).unwrap();
    protected::set_grant(&mut g, "user:root", "user:alice", "delegator", "resource:doc", NOW).unwrap();

    // Bob has more access
    protected::set_capability(&mut g, "user:root", "resource:doc", "editor", 0x0F, NOW).unwrap();
    protected::set_grant(&mut g, "user:root", "user:bob", "editor", "resource:doc", NOW).unwrap();
    protected::set_grant(&mut g, "user:root", "user:bob", "delegator", "resource:doc", NOW).unwrap();

    // Alice delegates to charlie
    protected::set_delegation(&mut g, "user:alice", "user:charlie", "resource:doc", "user:alice", NOW).unwrap();

    // Charlie's caps should be bounded by Alice's, not Bob's
    let charlie_caps = check_access(&g, "user:charlie", "resource:doc", None).unwrap();
    // Charlie gets viewer (0x01) + delegator (DELEGATE_WRITE) from alice
    assert_eq!(charlie_caps & 0x0F, 0x01); // Only viewer bit, not editor bits

    // Even if bob also delegates to charlie, caps are bounded per source
    protected::set_delegation(&mut g, "user:bob", "user:charlie", "resource:doc", "user:bob", NOW).unwrap();
    let charlie_caps_after = check_access(&g, "user:charlie", "resource:doc", None).unwrap();
    // Now charlie has alice's caps OR bob's caps
    assert_eq!(charlie_caps_after & 0x0F, 0x0F); // All editor bits via bob
}

#[test]
fn attack_impersonate_via_same_id_different_type() {
    let mut g = setup_bootstrapped();

    // Create user:admin with high privileges
    protected::create_entity(&mut g, "user:root", "user", "admin").unwrap();
    protected::set_grant(&mut g, "user:root", "user:admin", "admin", "_type:user", NOW).unwrap();

    // Create app:admin - same ID, different type
    protected::create_entity(&mut g, "user:root", "app", "admin").unwrap();

    // Verify they are completely separate entities
    let user_admin_caps = check_access(&g, "user:admin", "_type:user", None).unwrap();
    let app_admin_caps = check_access(&g, "app:admin", "_type:user", None).unwrap();

    // user:admin has privileges
    assert!((user_admin_caps & system_cap::ENTITY_ADMIN) == system_cap::ENTITY_ADMIN);

    // app:admin does NOT have user:admin's privileges
    assert_eq!(app_admin_caps, 0);
}

#[test]
fn attack_mass_delegation_resource_exhaustion() {
    let mut g = setup_bootstrapped();

    protected::create_entity(&mut g, "user:root", "resource", "target").unwrap();
    protected::set_capability(&mut g, "user:root", "resource:target", "member", 0x01, NOW).unwrap();

    // Create a chain of 50 users with delegations (using v1 API for speed)
    for i in 0..50 {
        protected::create_entity(&mut g, "user:root", "user", &format!("u{}", i)).unwrap();
    }

    // u0 has direct access
    protected::set_grant(&mut g, "user:root", "user:u0", "member", "resource:target", NOW).unwrap();

    // Create long delegation chain: u0 -> u1 -> u2 -> ... -> u49
    for i in 0..49 {
        set_inheritance(&mut g, 
            &format!("user:u{}", i + 1),
            "resource:target",
            &format!("user:u{}", i), NOW).unwrap();
    }

    // Query should complete (bounded by max_depth)
    let caps = check_access(&g, "user:u49", "resource:target", None).unwrap();
    assert_eq!(caps, 0x01); // Should still get the capability through the chain

    // With explicit low depth limit, might not traverse full chain
    let caps_limited = check_access(&g, "user:u49", "resource:target", Some(10)).unwrap();
    // May or may not have caps depending on traversal order
    // The key is that it doesn't hang
    let _ = caps_limited;
}

#[test]
fn attack_type_confusion() {
    let mut g = setup_bootstrapped();

    // Attempt to create entity with underscore prefix (reserved for types)
    // The type "_user" doesn't exist, so this should fail
    let result = protected::create_entity(&mut g, "user:root", "_user", "sneaky");

    // This fails because _user type doesn't exist (and can't be created easily)
    assert!(result.is_err());
}

#[test]
fn attack_capability_definition_hijack() {
    let mut g = setup_bootstrapped();

    protected::create_entity(&mut g, "user:root", "user", "alice").unwrap();
    protected::create_entity(&mut g, "user:root", "user", "bob").unwrap();
    protected::create_entity(&mut g, "user:root", "team", "sales").unwrap();

    // Root defines "member" with low capability
    protected::set_capability(&mut g, "user:root", "team:sales", "member", 0x01, NOW).unwrap();
    protected::set_grant(&mut g, "user:root", "user:alice", "member", "team:sales", NOW).unwrap();

    // Verify alice has low caps
    assert_eq!(check_access(&g, "user:alice", "team:sales", None).unwrap(), 0x01);

    // Bob (no CAP_WRITE) tries to redefine "member" with high capability
    let result = protected::set_capability(&mut g, "user:bob", "team:sales", "member", 0xFF, NOW);
    assert!(result.is_err()); // Bob lacks CAP_WRITE

    // Alice still has the capability she was first given
    assert_eq!(check_access(&g, "user:alice", "team:sales", None).unwrap(), 0x01);
}

#[test]
fn attack_zombie_permission_after_delete() {
    let mut g = setup_bootstrapped();

    protected::create_entity(&mut g, "user:root", "user", "alice").unwrap();
    protected::create_entity(&mut g, "user:root", "resource", "doc").unwrap();

    // Give alice access
    protected::set_capability(&mut g, "user:root", "resource:doc", "editor", 0x0F, NOW).unwrap();
    protected::set_grant(&mut g, "user:root", "user:alice", "editor", "resource:doc", NOW).unwrap();

    assert_eq!(check_access(&g, "user:alice", "resource:doc", None).unwrap(), 0x0F);

    // Delete alice
    protected::delete_entity(&mut g, "user:root", "user:alice").unwrap();
    assert!(!entity_exists(&g, "user:alice"));

    // Alice's grants may still exist in relationships db (depending on cleanup)
    // But the entity doesn't exist - operations should handle this gracefully
    // This is a data consistency concern, not necessarily a security one
    // if we check entity existence before operations

    // Check access for deleted entity - should return error (entity not found)
    // In normalized schema, deleted entities can't be looked up
    assert!(check_access(&g, "user:alice", "resource:doc", None).is_err());
}

#[test]
fn attack_cross_type_permission_leak() {
    let mut g = setup_bootstrapped();

    protected::create_entity(&mut g, "user:root", "user", "alice").unwrap();
    protected::create_entity(&mut g, "user:root", "team", "sales").unwrap();
    protected::create_entity(&mut g, "user:root", "resource", "doc").unwrap();

    // Alice is admin on team:sales
    protected::set_capability(&mut g, "user:root", "team:sales", "admin", system_cap::GRANT_ADMIN, NOW).unwrap();
    protected::set_grant(&mut g, "user:root", "user:alice", "admin", "team:sales", NOW).unwrap();

    // Alice should NOT have permissions on resource:doc
    let result = protected::set_grant(&mut g, "user:alice", "user:alice", "admin", "resource:doc", NOW);
    assert!(result.is_err());

    // Alice should NOT be able to create resources
    let result = protected::create_entity(&mut g, "user:alice", "resource", "alice_doc");
    assert!(result.is_err());

    // Verify alice has no caps on resource:doc
    assert_eq!(check_access(&g, "user:alice", "resource:doc", None).unwrap(), 0);
}
