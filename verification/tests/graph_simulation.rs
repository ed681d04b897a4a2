// The entity graph's permission rules, exercised through the protected
// operations. Each test starts from a graph with the core types (user, team,
// app, resource), one type entity per type and `_type:_type`, and a root user
// holding the full type administration mask on each type entity.

#![allow(unused_imports, unused_variables, unused_mut)]

use capbit::graph::{
    check_access, delete_inheritance, delete_relationship, entity_exists, get_capability, get_inheritance,
    get_inheritance_for_object, get_inheritors_from_source, get_relationships, has_capability, list_accessible,
    list_subjects, set_capability, set_inheritance, set_relationship, type_exists, Graph,
};
use capbit::protected;
use capbit::system_cap;

const NOW: u64 = 13;

fn setup_bootstrapped() -> Graph {
    let mut g = Graph::new();
    for t in ["user", "team", "app", "resource"] {
        g.create_type_in(t).unwrap();
    }
    g.create_entity_in("user:root").unwrap();
    for t in ["_type", "user", "team", "app", "resource"] {
        let te = format!("_type:{}", t);
        g.create_entity_in(&te).unwrap();
        set_capability(&mut g, &te, "admin", system_cap::TYPE_ADMIN, NOW).unwrap();
        set_relationship(&mut g, "user:root", "admin", &te, NOW).unwrap();
    }
    g
}

#[test]
fn simulation_acme_corp() {
    let mut g = setup_bootstrapped();

    // =========================================================================
    // Phase 2: Root Sets Up Organization
    // =========================================================================

    // Create teams
    protected::create_entity(&mut g, "user:root", "team", "hr").unwrap();
    protected::create_entity(&mut g, "user:root", "team", "engineering").unwrap();
    protected::create_entity(&mut g, "user:root", "team", "sales").unwrap();

    // Create users
    protected::create_entity(&mut g, "user:root", "user", "alice").unwrap();   // HR lead
    protected::create_entity(&mut g, "user:root", "user", "bob").unwrap();     // Engineering lead
    protected::create_entity(&mut g, "user:root", "user", "charlie").unwrap(); // Sales lead
    protected::create_entity(&mut g, "user:root", "user", "dave").unwrap();    // Engineer
    protected::create_entity(&mut g, "user:root", "user", "eve").unwrap();     // Engineer

    // Define team ownership (who can manage team grants/caps)
    protected::set_capability(&mut g, "user:root", "team:hr", "owner",
        system_cap::CAP_WRITE | system_cap::GRANT_WRITE | system_cap::DELEGATE_WRITE, NOW).unwrap();
    protected::set_capability(&mut g, "user:root", "team:engineering", "owner",
        system_cap::CAP_WRITE | system_cap::GRANT_WRITE | system_cap::DELEGATE_WRITE, NOW).unwrap();
    protected::set_capability(&mut g, "user:root", "team:sales", "owner",
        system_cap::CAP_WRITE | system_cap::GRANT_WRITE | system_cap::DELEGATE_WRITE, NOW).unwrap();

    // Root is owner of all teams
    protected::set_grant(&mut g, "user:root", "user:root", "owner", "team:hr", NOW).unwrap();
    protected::set_grant(&mut g, "user:root", "user:root", "owner", "team:engineering", NOW).unwrap();
    protected::set_grant(&mut g, "user:root", "user:root", "owner", "team:sales", NOW).unwrap();

    // Define what "lead" and "member" mean on teams
    protected::set_capability(&mut g, "user:root", "team:hr", "lead", system_cap::GRANT_WRITE | system_cap::GRANT_READ, NOW).unwrap();
    protected::set_capability(&mut g, "user:root", "team:hr", "member", system_cap::GRANT_READ, NOW).unwrap();
    protected::set_capability(&mut g, "user:root", "team:engineering", "lead", system_cap::GRANT_WRITE | system_cap::GRANT_READ, NOW).unwrap();
    protected::set_capability(&mut g, "user:root", "team:engineering", "member", system_cap::GRANT_READ, NOW).unwrap();
    protected::set_capability(&mut g, "user:root", "team:sales", "lead", system_cap::GRANT_WRITE | system_cap::GRANT_READ, NOW).unwrap();
    protected::set_capability(&mut g, "user:root", "team:sales", "member", system_cap::GRANT_READ, NOW).unwrap();

    // Assign team leads
    protected::set_grant(&mut g, "user:root", "user:alice", "lead", "team:hr", NOW).unwrap();
    protected::set_grant(&mut g, "user:root", "user:bob", "lead", "team:engineering", NOW).unwrap();
    protected::set_grant(&mut g, "user:root", "user:charlie", "lead", "team:sales", NOW).unwrap();

    // =========================================================================
    // Key Step: Delegate User Management to HR
    // =========================================================================

    // HR team gets admin on _type:user
    protected::set_grant(&mut g, "user:root", "team:hr", "admin", "_type:user", NOW).unwrap();

    // Alice needs delegation to inherit HR's permissions on _type:user
    protected::set_capability(&mut g, "user:root", "_type:user", "delegator", system_cap::DELEGATE_WRITE, NOW).unwrap();
    protected::set_grant(&mut g, "user:root", "user:root", "delegator", "_type:user", NOW).unwrap();
    protected::set_delegation(&mut g, "user:root", "user:alice", "_type:user", "team:hr", NOW).unwrap();

    // =========================================================================
    // Phase 3: Verify Delegated Operations
    // =========================================================================

    // Alice (HR) can now create users
    let alice_caps = check_access(&g, "user:alice", "_type:user", None).unwrap();
    assert!((alice_caps & system_cap::ENTITY_CREATE) != 0,
        "Alice should have ENTITY_CREATE on _type:user");

    // Alice creates frank
    protected::create_entity(&mut g, "user:alice", "user", "frank").unwrap();

    // Alice CANNOT create teams (no delegation for _type:team)
    let alice_team_caps = check_access(&g, "user:alice", "_type:team", None).unwrap();
    assert!((alice_team_caps & system_cap::ENTITY_CREATE) == 0,
        "Alice should NOT have ENTITY_CREATE on _type:team");

    // Bob can add members to his team (he's lead with GRANT_WRITE)
    let bob_caps = check_access(&g, "user:bob", "team:engineering", None).unwrap();
    assert!((bob_caps & system_cap::GRANT_WRITE) != 0,
        "Bob should have GRANT_WRITE on team:engineering");

    // Bob adds dave and eve as members
    protected::set_grant(&mut g, "user:bob", "user:dave", "member", "team:engineering", NOW).unwrap();
    protected::set_grant(&mut g, "user:bob", "user:eve", "member", "team:engineering", NOW).unwrap();

    // Dave (member) cannot add other members (only has GRANT_READ, not GRANT_WRITE)
    let dave_caps = check_access(&g, "user:dave", "team:engineering", None).unwrap();
    assert!((dave_caps & system_cap::GRANT_WRITE) == 0,
        "Dave should NOT have GRANT_WRITE on team:engineering");

    // =========================================================================
    // Phase 4: Engineering Creates Apps
    // =========================================================================

    // Root delegates app management to engineering
    protected::set_grant(&mut g, "user:root", "team:engineering", "admin", "_type:app", NOW).unwrap();
    protected::set_capability(&mut g, "user:root", "_type:app", "delegator", system_cap::DELEGATE_WRITE, NOW).unwrap();
    protected::set_grant(&mut g, "user:root", "user:root", "delegator", "_type:app", NOW).unwrap();
    protected::set_delegation(&mut g, "user:root", "user:bob", "_type:app", "team:engineering", NOW).unwrap();

    // Bob can now create apps
    let bob_app_caps = check_access(&g, "user:bob", "_type:app", None).unwrap();
    assert!((bob_app_caps & system_cap::ENTITY_CREATE) != 0,
        "Bob should have ENTITY_CREATE on _type:app");

    protected::create_entity(&mut g, "user:bob", "app", "backend-api").unwrap();
    protected::create_entity(&mut g, "user:bob", "app", "frontend-web").unwrap();

    // =========================================================================
    // Verification Summary
    // =========================================================================

    // Frank (new hire) has no permissions yet
    let frank_caps = check_access(&g, "user:frank", "team:hr", None).unwrap();
    assert_eq!(frank_caps, 0, "Frank should have no capabilities on team:hr");

    // Eve cannot access backend-api (she's on frontend)
    let eve_caps = check_access(&g, "user:eve", "app:backend-api", None).unwrap();
    assert_eq!(eve_caps, 0, "Eve should have no capabilities on app:backend-api");
}

#[test]
fn simulation_extend_with_app_access() {
    let mut g = setup_bootstrapped();

    // Quick setup
    protected::create_entity(&mut g, "user:root", "team", "engineering").unwrap();
    protected::create_entity(&mut g, "user:root", "user", "bob").unwrap();
    protected::create_entity(&mut g, "user:root", "user", "dave").unwrap();

    // Bob is lead
    protected::set_capability(&mut g, "user:root", "team:engineering", "lead",
        system_cap::GRANT_WRITE | system_cap::CAP_WRITE, NOW).unwrap();
    protected::set_grant(&mut g, "user:root", "user:bob", "lead", "team:engineering", NOW).unwrap();

    // Delegate app creation to bob
    protected::set_grant(&mut g, "user:root", "team:engineering", "admin", "_type:app", NOW).unwrap();
    protected::set_capability(&mut g, "user:root", "_type:app", "delegator", system_cap::DELEGATE_WRITE, NOW).unwrap();
    protected::set_grant(&mut g, "user:root", "user:root", "delegator", "_type:app", NOW).unwrap();
    protected::set_delegation(&mut g, "user:root", "user:bob", "_type:app", "team:engineering", NOW).unwrap();

    // Bob creates app
    protected::create_entity(&mut g, "user:bob", "app", "myapp").unwrap();

    // Bob defines app permissions and becomes owner
    protected::set_capability(&mut g, "user:root", "app:myapp", "owner",
        system_cap::CAP_WRITE | system_cap::GRANT_WRITE, NOW).unwrap();
    protected::set_grant(&mut g, "user:root", "user:bob", "owner", "app:myapp", NOW).unwrap();

    // Bob can now define developer role and grant it
    protected::set_capability(&mut g, "user:bob", "app:myapp", "developer", 0x0F, NOW).unwrap();
    protected::set_grant(&mut g, "user:bob", "user:dave", "developer", "app:myapp", NOW).unwrap();

    // Dave has developer access
    let dave_caps = check_access(&g, "user:dave", "app:myapp", None).unwrap();
    assert_eq!(dave_caps, 0x0F, "Dave should have developer capabilities");
}
