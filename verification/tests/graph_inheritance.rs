// The entity graph's permission rules, exercised through the protected
// operations. Each test starts from a graph with the core types (user, team,
// app, resource), one type entity per type and `_type:_type`, and a root user
// holding the full type administration mask on each type entity.

#![allow(unused_imports, unused_variables, unused_mut)]

use capbit::graph::{
    check_access, delete_inheritance, delete_relationship, entity_exists, get_capability, get_inheritance,
    get_inheritance_for_object, get_inheritors_from_source, get_relationships, has_capability, list_accessible,
    list_subjects, set_capability, set_inheritance, set_relationship, type_exists, Graph,
};
use capbit::protected;
use capbit::system_cap;

const NOW: u64 = 13;

fn setup_bootstrapped() -> Graph {
    let mut g = Graph::new();
    for t in ["user", "team", "app", "resource"] {
        g.create_type_in(t).unwrap();
    }
    g.create_entity_in("user:root").unwrap();
    for t in ["_type", "user", "team", "app", "resource"] {
        let te = format!("_type:{}", t);
        g.create_entity_in(&te).unwrap();
        set_capability(&mut g, &te, "admin", system_cap::TYPE_ADMIN, NOW).unwrap();
        set_relationship(&mut g, "user:root", "admin", &te, NOW).unwrap();
    }
    g
}

#[test]
fn wide_inheritance_many_sources() {
    let mut g = setup_bootstrapped();

    protected::create_entity(&mut g, "user:root", "user", "collector").unwrap();
    protected::create_entity(&mut g, "user:root", "resource", "doc").unwrap();

    // Create 10 sources, each with a different capability bit
    for i in 0..10 {
        let source_name = format!("source{}", i);
        protected::create_entity(&mut g, "user:root", "user", &source_name).unwrap();

        let role = format!("role{}", i);
        let cap = 1u64 << i;
        protected::set_capability(&mut g, "user:root", "resource:doc", &role, cap, NOW).unwrap();
        protected::set_grant(&mut g, "user:root", &format!("user:{}", source_name), &role, "resource:doc", NOW).unwrap();

        // Collector inherits from each source
        set_inheritance(&mut g, "user:collector", "resource:doc", &format!("user:{}", source_name), NOW).unwrap();
    }

    // Collector should have all 10 bits (0x3FF = bits 0-9)
    let caps = check_access(&g, "user:collector", "resource:doc", None).unwrap();
    assert_eq!(caps, 0x3FF);
}

#[test]
fn mixed_direct_and_inherited() {
    let mut g = setup_bootstrapped();

    protected::create_entity(&mut g, "user:root", "user", "alice").unwrap();
    protected::create_entity(&mut g, "user:root", "user", "bob").unwrap();
    protected::create_entity(&mut g, "user:root", "resource", "doc").unwrap();

    // Alice has bits 0,1 directly
    protected::set_capability(&mut g, "user:root", "resource:doc", "viewer", 0x03, NOW).unwrap();
    protected::set_grant(&mut g, "user:root", "user:alice", "viewer", "resource:doc", NOW).unwrap();

    // Bob has bits 2,3 directly
    protected::set_capability(&mut g, "user:root", "resource:doc", "editor", 0x0C, NOW).unwrap();
    protected::set_grant(&mut g, "user:root", "user:bob", "editor", "resource:doc", NOW).unwrap();

    // Bob also inherits from alice
    set_inheritance(&mut g, "user:bob", "resource:doc", "user:alice", NOW).unwrap();

    // Bob should have all 4 bits (direct 0x0C + inherited 0x03 = 0x0F)
    let bob_caps = check_access(&g, "user:bob", "resource:doc", None).unwrap();
    assert_eq!(bob_caps, 0x0F);

    // Alice still has only her direct bits
    let alice_caps = check_access(&g, "user:alice", "resource:doc", None).unwrap();
    assert_eq!(alice_caps, 0x03);
}

#[test]
fn inheritance_depth_20_levels() {
    let mut g = setup_bootstrapped();

    protected::create_entity(&mut g, "user:root", "resource", "doc").unwrap();
    protected::set_capability(&mut g, "user:root", "resource:doc", "member", 0x01, NOW).unwrap();

    // Create chain: u0 -> u1 -> u2 -> ... -> u19
    let depth = 20;
    for i in 0..depth {
        protected::create_entity(&mut g, "user:root", "user", &format!("u{}", i)).unwrap();
    }

    // u0 has direct access
    protected::set_grant(&mut g, "user:root", "user:u0", "member", "resource:doc", NOW).unwrap();

    // Create inheritance chain
    for i in 1..depth {
        set_inheritance(&mut g, 
            &format!("user:u{}", i),
            "resource:doc",
            &format!("user:u{}", i - 1), NOW).unwrap();
    }

    // All users in chain should have access
    for i in 0..depth {
        let caps = check_access(&g, &format!("user:u{}", i), "resource:doc", None).unwrap();
        assert_eq!(caps, 0x01, "user:u{} should have capability", i);
    }
}

#[test]
fn inheritance_with_different_relations() {
    let mut g = setup_bootstrapped();

    protected::create_entity(&mut g, "user:root", "user", "alice").unwrap();
    protected::create_entity(&mut g, "user:root", "user", "bob").unwrap();
    protected::create_entity(&mut g, "user:root", "resource", "doc").unwrap();

    // Alice has multiple relations
    protected::set_capability(&mut g, "user:root", "resource:doc", "viewer", 0x01, NOW).unwrap();
    protected::set_capability(&mut g, "user:root", "resource:doc", "commenter", 0x02, NOW).unwrap();
    protected::set_capability(&mut g, "user:root", "resource:doc", "editor", 0x04, NOW).unwrap();

    protected::set_grant(&mut g, "user:root", "user:alice", "viewer", "resource:doc", NOW).unwrap();
    protected::set_grant(&mut g, "user:root", "user:alice", "commenter", "resource:doc", NOW).unwrap();
    protected::set_grant(&mut g, "user:root", "user:alice", "editor", "resource:doc", NOW).unwrap();

    // Bob inherits from alice
    set_inheritance(&mut g, "user:bob", "resource:doc", "user:alice", NOW).unwrap();

    // Bob gets all of alice's relations
    let bob_caps = check_access(&g, "user:bob", "resource:doc", None).unwrap();
    assert_eq!(bob_caps, 0x07);
}

#[test]
fn multiple_paths_to_same_source() {
    let mut g = setup_bootstrapped();

    //     A (0x01)
    //    /|\
    //   B C D
    //    \|/
    //     E
    // E inherits from B, C, D which all inherit from A

    protected::create_entity(&mut g, "user:root", "user", "a").unwrap();
    protected::create_entity(&mut g, "user:root", "user", "b").unwrap();
    protected::create_entity(&mut g, "user:root", "user", "c").unwrap();
    protected::create_entity(&mut g, "user:root", "user", "d").unwrap();
    protected::create_entity(&mut g, "user:root", "user", "e").unwrap();
    protected::create_entity(&mut g, "user:root", "resource", "doc").unwrap();

    protected::set_capability(&mut g, "user:root", "resource:doc", "member", 0x01, NOW).unwrap();
    protected::set_grant(&mut g, "user:root", "user:a", "member", "resource:doc", NOW).unwrap();

    // B, C, D inherit from A
    set_inheritance(&mut g, "user:b", "resource:doc", "user:a", NOW).unwrap();
    set_inheritance(&mut g, "user:c", "resource:doc", "user:a", NOW).unwrap();
    set_inheritance(&mut g, "user:d", "resource:doc", "user:a", NOW).unwrap();

    // E inherits from B, C, D
    set_inheritance(&mut g, "user:e", "resource:doc", "user:b", NOW).unwrap();
    set_inheritance(&mut g, "user:e", "resource:doc", "user:c", NOW).unwrap();
    set_inheritance(&mut g, "user:e", "resource:doc", "user:d", NOW).unwrap();

    // E should have 0x01 (not 0x03 from double/triple counting)
    let e_caps = check_access(&g, "user:e", "resource:doc", None).unwrap();
    assert_eq!(e_caps, 0x01);
}

#[test]
fn self_inheritance_ignored() {
    let mut g = setup_bootstrapped();

    protected::create_entity(&mut g, "user:root", "user", "alice").unwrap();
    protected::create_entity(&mut g, "user:root", "resource", "doc").unwrap();

    protected::set_capability(&mut g, "user:root", "resource:doc", "member", 0x01, NOW).unwrap();
    protected::set_grant(&mut g, "user:root", "user:alice", "member", "resource:doc", NOW).unwrap();

    // Alice inherits from herself (weird but should not break)
    set_inheritance(&mut g, "user:alice", "resource:doc", "user:alice", NOW).unwrap();

    // Should still have exactly 0x01
    let caps = check_access(&g, "user:alice", "resource:doc", None).unwrap();
    assert_eq!(caps, 0x01);
}

#[test]
fn inheritance_order_independence() {
    let mut g = setup_bootstrapped();

    protected::create_entity(&mut g, "user:root", "user", "a").unwrap();
    protected::create_entity(&mut g, "user:root", "user", "b").unwrap();
    protected::create_entity(&mut g, "user:root", "user", "collector1").unwrap();
    protected::create_entity(&mut g, "user:root", "user", "collector2").unwrap();
    protected::create_entity(&mut g, "user:root", "resource", "doc").unwrap();

    protected::set_capability(&mut g, "user:root", "resource:doc", "role_a", 0x01, NOW).unwrap();
    protected::set_capability(&mut g, "user:root", "resource:doc", "role_b", 0x02, NOW).unwrap();
    protected::set_grant(&mut g, "user:root", "user:a", "role_a", "resource:doc", NOW).unwrap();
    protected::set_grant(&mut g, "user:root", "user:b", "role_b", "resource:doc", NOW).unwrap();

    // collector1 inherits A then B
    set_inheritance(&mut g, "user:collector1", "resource:doc", "user:a", NOW).unwrap();
    set_inheritance(&mut g, "user:collector1", "resource:doc", "user:b", NOW).unwrap();

    // collector2 inherits B then A (opposite order)
    set_inheritance(&mut g, "user:collector2", "resource:doc", "user:b", NOW).unwrap();
    set_inheritance(&mut g, "user:collector2", "resource:doc", "user:a", NOW).unwrap();

    // Both should have same result
    let caps1 = check_access(&g, "user:collector1", "resource:doc", None).unwrap();
    let caps2 = check_access(&g, "user:collector2", "resource:doc", None).unwrap();
    assert_eq!(caps1, caps2);
    assert_eq!(caps1, 0x03);
}

#[test]
fn inherited_plus_direct_combine() {
    let mut g = setup_bootstrapped();

    protected::create_entity(&mut g, "user:root", "user", "alice").unwrap();
    protected::create_entity(&mut g, "user:root", "user", "bob").unwrap();
    protected::create_entity(&mut g, "user:root", "resource", "doc").unwrap();

    protected::set_capability(&mut g, "user:root", "resource:doc", "viewer", 0x01, NOW).unwrap();
    protected::set_capability(&mut g, "user:root", "resource:doc", "editor", 0x02, NOW).unwrap();

    // Alice has viewer
    protected::set_grant(&mut g, "user:root", "user:alice", "viewer", "resource:doc", NOW).unwrap();

    // Bob has editor directly
    protected::set_grant(&mut g, "user:root", "user:bob", "editor", "resource:doc", NOW).unwrap();

    // Bob also inherits from alice (gets viewer)
    set_inheritance(&mut g, "user:bob", "resource:doc", "user:alice", NOW).unwrap();

    // Bob has both: viewer (inherited) + editor (direct) = 0x03
    let bob_caps = check_access(&g, "user:bob", "resource:doc", None).unwrap();
    assert_eq!(bob_caps, 0x03);
}

#[test]
fn get_inheritance_returns_all_sources() {
    let mut g = setup_bootstrapped();

    protected::create_entity(&mut g, "user:root", "user", "alice").unwrap();
    protected::create_entity(&mut g, "user:root", "user", "bob").unwrap();
    protected::create_entity(&mut g, "user:root", "user", "charlie").unwrap();
    protected::create_entity(&mut g, "user:root", "user", "collector").unwrap();
    protected::create_entity(&mut g, "user:root", "resource", "doc").unwrap();

    // Collector inherits from all three
    set_inheritance(&mut g, "user:collector", "resource:doc", "user:alice", NOW).unwrap();
    set_inheritance(&mut g, "user:collector", "resource:doc", "user:bob", NOW).unwrap();
    set_inheritance(&mut g, "user:collector", "resource:doc", "user:charlie", NOW).unwrap();

    let sources = get_inheritance(&g, "user:collector", "resource:doc").unwrap();
    assert_eq!(sources.len(), 3);
    assert!(sources.contains(&"user:alice".to_string()));
    assert!(sources.contains(&"user:bob".to_string()));
    assert!(sources.contains(&"user:charlie".to_string()));
}

#[test]
fn get_inheritors_returns_all() {
    let mut g = setup_bootstrapped();

    protected::create_entity(&mut g, "user:root", "user", "source").unwrap();
    protected::create_entity(&mut g, "user:root", "user", "inheritor1").unwrap();
    protected::create_entity(&mut g, "user:root", "user", "inheritor2").unwrap();
    protected::create_entity(&mut g, "user:root", "user", "inheritor3").unwrap();
    protected::create_entity(&mut g, "user:root", "resource", "doc").unwrap();

    // All inherit from source
    set_inheritance(&mut g, "user:inheritor1", "resource:doc", "user:source", NOW).unwrap();
    set_inheritance(&mut g, "user:inheritor2", "resource:doc", "user:source", NOW).unwrap();
    set_inheritance(&mut g, "user:inheritor3", "resource:doc", "user:source", NOW).unwrap();

    let inheritors = get_inheritors_from_source(&g, "user:source", "resource:doc").unwrap();
    assert_eq!(inheritors.len(), 3);
    assert!(inheritors.contains(&"user:inheritor1".to_string()));
    assert!(inheritors.contains(&"user:inheritor2".to_string()));
    assert!(inheritors.contains(&"user:inheritor3".to_string()));
}

#[test]
fn partial_capability_inheritance() {
    let mut g = setup_bootstrapped();

    protected::create_entity(&mut g, "user:root", "user", "alice").unwrap();
    protected::create_entity(&mut g, "user:root", "user", "bob").unwrap();
    protected::create_entity(&mut g, "user:root", "resource", "doc").unwrap();

    // Define high capability role
    protected::set_capability(&mut g, "user:root", "resource:doc", "admin", 0xFF, NOW).unwrap();
    // Define low capability role
    protected::set_capability(&mut g, "user:root", "resource:doc", "viewer", 0x01, NOW).unwrap();

    // Alice only has viewer (0x01), not admin
    protected::set_grant(&mut g, "user:root", "user:alice", "viewer", "resource:doc", NOW).unwrap();

    // Bob inherits from alice
    set_inheritance(&mut g, "user:bob", "resource:doc", "user:alice", NOW).unwrap();

    // Bob can only get what alice has (0x01), not the full admin (0xFF)
    let bob_caps = check_access(&g, "user:bob", "resource:doc", None).unwrap();
    assert_eq!(bob_caps, 0x01);
}
