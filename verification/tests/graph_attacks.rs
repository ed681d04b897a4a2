// The entity graph's permission rules, exercised through the protected
// operations. Each test starts from a graph with the core types (user, team,
// app, resource), one type entity per type and `_type:_type`, and a root user
// holding the full type administration mask on each type entity.

#![allow(unused_imports, unused_variables, unused_mut)]

use capbit::graph::{
    check_access, delete_inheritance, delete_relationship, entity_exists, get_capability, get_inheritance,
    get_inheritance_for_object, get_inheritors_from_source, get_relationships, has_capability, list_accessible,
    list_subjects, set_capability, set_inheritance, set_relationship, type_exists, Graph,
};
use capbit::protected;
use capbit::system_cap;

const NOW: u64 = 13;

fn setup_bootstrapped() -> Graph {
    let mut g = Graph::new();
    for t in ["user", "team", "app", "resource"] {
        g.create_type_in(t).unwrap();
    }
    g.create_entity_in("user:root").unwrap();
    for t in ["_type", "user", "team", "app", "resource"] {
        let te = format!("_type:{}", t);
        g.create_entity_in(&te).unwrap();
        set_capability(&mut g, &te, "admin", system_cap::TYPE_ADMIN, NOW).unwrap();
        set_relationship(&mut g, "user:root", "admin", &te, NOW).unwrap();
    }
    g
}

#[test]
fn attack_self_grant_escalation() {
    let mut g = setup_bootstrapped();

    // Create alice and grant her limited permissions
    protected::create_entity(&mut g, "user:root", "user", "alice").unwrap();
    protected::create_entity(&mut g, "user:root", "team", "sales").unwrap();

    // Give alice GRANT_WRITE on team:sales only
    protected::set_capability(&mut g, "user:root", "team:sales", "admin", system_cap::GRANT_WRITE, NOW).unwrap();
    protected::set_grant(&mut g, "user:root", "user:alice", "admin", "team:sales", NOW).unwrap();

    // Attack: alice tries to grant herself admin on _type:user (escalation)
    let result = protected::set_grant(&mut g, "user:alice", "user:alice", "admin", "_type:user", NOW);

    // Expected: DENIED - alice lacks GRANT_WRITE on _type:user
    assert!(result.is_err());
}

#[test]
fn attack_scope_confusion() {
    let mut g = setup_bootstrapped();

    // Create alice and two teams
    protected::create_entity(&mut g, "user:root", "user", "alice").unwrap();
    protected::create_entity(&mut g, "user:root", "user", "bob").unwrap();
    protected::create_entity(&mut g, "user:root", "team", "sales").unwrap();
    protected::create_entity(&mut g, "user:root", "team", "engineering").unwrap();

    // Alice is admin on team:sales (can grant on sales)
    protected::set_capability(&mut g, "user:root", "team:sales", "admin", system_cap::GRANT_ADMIN, NOW).unwrap();
    protected::set_grant(&mut g, "user:root", "user:alice", "admin", "team:sales", NOW).unwrap();

    // Attack: alice grants bob admin on team:engineering (wrong scope)
    let result = protected::set_grant(&mut g, "user:alice", "user:bob", "admin", "team:engineering", NOW);

    // Expected: DENIED - alice lacks GRANT_WRITE on team:engineering
    assert!(result.is_err());
}

#[test]
fn attack_delegation_amplification() {
    let mut g = setup_bootstrapped();

    // Setup: alice has only READ capability on doc
    protected::create_entity(&mut g, "user:root", "user", "alice").unwrap();
    protected::create_entity(&mut g, "user:root", "user", "bob").unwrap();
    protected::create_entity(&mut g, "user:root", "resource", "doc").unwrap();

    const READ: u64 = 0x01;
    const WRITE: u64 = 0x02;

    protected::set_capability(&mut g, "user:root", "resource:doc", "viewer", READ, NOW).unwrap();
    protected::set_grant(&mut g, "user:root", "user:alice", "viewer", "resource:doc", NOW).unwrap();

    // Root sets up delegation (alice delegates to bob)
    protected::set_capability(&mut g, "user:root", "resource:doc", "owner", system_cap::DELEGATE_WRITE, NOW).unwrap();
    protected::set_grant(&mut g, "user:root", "user:alice", "owner", "resource:doc", NOW).unwrap();
    protected::set_delegation(&mut g, "user:alice", "user:bob", "resource:doc", "user:alice", NOW).unwrap();

    // Bob's effective caps should be bounded by alice's (only READ, not WRITE)
    let bob_caps = check_access(&g, "user:bob", "resource:doc", None).unwrap();
    assert_eq!(bob_caps & READ, READ);  // bob has READ (inherited from alice)
    assert_eq!(bob_caps & WRITE, 0);     // bob does NOT have WRITE
}

#[test]
fn attack_circular_delegation_dos() {
    let mut g = setup_bootstrapped();

    // Create entities
    protected::create_entity(&mut g, "user:root", "user", "a").unwrap();
    protected::create_entity(&mut g, "user:root", "user", "b").unwrap();
    protected::create_entity(&mut g, "user:root", "user", "c").unwrap();
    protected::create_entity(&mut g, "user:root", "resource", "target").unwrap();

    // Give A direct access
    protected::set_capability(&mut g, "user:root", "resource:target", "member", 0x0F, NOW).unwrap();
    protected::set_grant(&mut g, "user:root", "user:a", "member", "resource:target", NOW).unwrap();

    // Create cycle using v1 API (simulating potential attack):
    // A delegates to B, B delegates to C, C delegates to A
    set_inheritance(&mut g, "user:b", "resource:target", "user:a", NOW).unwrap();
    set_inheritance(&mut g, "user:c", "resource:target", "user:b", NOW).unwrap();
    set_inheritance(&mut g, "user:a", "resource:target", "user:c", NOW).unwrap();  // Creates cycle!

    // Query should not hang - bounded traversal
    let caps = check_access(&g, "user:c", "resource:target", None).unwrap();

    // Should still return the correct capability (from A's direct grant)
    assert_eq!(caps, 0x0F);
}

#[test]
fn attack_mutate_system_types() {
    let mut g = setup_bootstrapped();

    // Create bob with no special permissions
    protected::create_entity(&mut g, "user:root", "user", "bob").unwrap();

    // Attack: bob tries to create a new type (requires TYPE_CREATE on _type:_type)
    let result = protected::create_type(&mut g, "user:bob", "custom", NOW);

    // Expected: DENIED - bob lacks TYPE_CREATE on _type:_type
    assert!(result.is_err());
}

#[test]
fn attack_unauthorized_deletion() {
    let mut g = setup_bootstrapped();

    // Root creates alice and bob
    protected::create_entity(&mut g, "user:root", "user", "alice").unwrap();
    protected::create_entity(&mut g, "user:root", "user", "bob").unwrap();

    // Bob tries to delete alice
    let result = protected::delete_entity(&mut g, "user:bob", "user:alice");

    // Expected: DENIED - bob lacks ENTITY_DELETE on _type:user
    assert!(result.is_err());
}

#[test]
fn attack_grant_nonexistent_scope() {
    let mut g = setup_bootstrapped();

    // Note: root has GRANT_WRITE on all _type: scopes, but not on random scopes
    // Root tries to grant on a scope that doesn't exist
    let result = protected::set_grant(&mut g, "user:root", "user:alice", "member", "team:nonexistent", NOW);

    // This might succeed if we allow grants to non-existent scopes,
    // or fail if we validate scope existence. Current impl validates.
    // Adjust test based on desired behavior.
    assert!(result.is_err());
}

#[test]
fn attack_fake_systemcap_bitmask() {
    let mut g = setup_bootstrapped();

    // Create alice and give her a resource she controls
    protected::create_entity(&mut g, "user:root", "user", "alice").unwrap();
    protected::create_entity(&mut g, "user:root", "resource", "alice-doc").unwrap();

    // Give alice full control on her own resource
    protected::set_capability(&mut g, "user:root", "resource:alice-doc", "owner",
        system_cap::ENTITY_ADMIN | system_cap::GRANT_ADMIN | system_cap::CAP_ADMIN, NOW).unwrap();
    protected::set_grant(&mut g, "user:root", "user:alice", "owner", "resource:alice-doc", NOW).unwrap();

    // Alice now has ALL SystemCap bits on resource:alice-doc
    let alice_caps_on_doc = check_access(&g, "user:alice", "resource:alice-doc", None).unwrap();
    assert!(alice_caps_on_doc > 0); // She has capabilities on HER resource

    // ATTACK: Alice tries to use these "powers" to create a user
    // She has ENTITY_CREATE (0x0004) on her resource, but NOT on _type:user
    let result = protected::create_entity(&mut g, "user:alice", "user", "hacked");

    // Expected: DENIED - having SystemCap bits on resource:alice-doc
    // does NOT grant system powers on _type:user
    assert!(result.is_err());
    assert!(result.unwrap_err().message.contains("lacks permission"));

    // Verify alice has zero capabilities on _type:user
    let alice_caps_on_type = check_access(&g, "user:alice", "_type:user", None).unwrap();
    assert_eq!(alice_caps_on_type, 0, "Alice should have no caps on _type:user");
}

#[test]
fn verify_root_grants_protected() {
    let mut g = setup_bootstrapped();

    protected::create_entity(&mut g, "user:root", "user", "alice").unwrap();

    // Verify root has SystemCap on _type:user
    let root_caps = check_access(&g, "user:root", "_type:user", None).unwrap();
    assert!((root_caps & system_cap::ENTITY_CREATE) == system_cap::ENTITY_CREATE);
    assert!((root_caps & system_cap::GRANT_WRITE) == system_cap::GRANT_WRITE);
    assert!((root_caps & system_cap::CAP_WRITE) == system_cap::CAP_WRITE);

    // Alice has NOTHING on _type:user
    let alice_caps = check_access(&g, "user:alice", "_type:user", None).unwrap();
    assert_eq!(alice_caps, 0);

    // Alice cannot grant herself admin on _type:user
    let result = protected::set_grant(&mut g, "user:alice", "user:alice", "admin", "_type:user", NOW);
    assert!(result.is_err());

    // Alice cannot define capabilities on _type:user
    let result = protected::set_capability(&mut g, "user:alice", "_type:user", "fake", 0xFFFF, NOW);
    assert!(result.is_err());
}
