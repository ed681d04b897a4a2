// The entity graph's permission rules, exercised through the protected
// operations. Each test starts from a graph with the core types (user, team,
// app, resource), one type entity per type and `_type:_type`, and a root user
// holding the full type administration mask on each type entity.

#![allow(unused_imports, unused_variables, unused_mut)]

use capbit::graph::{
    check_access, delete_inheritance, delete_relationship, entity_exists, get_capability, get_inheritance,
    get_inheritance_for_object, get_inheritors_from_source, get_relationships, has_capability, list_accessible,
    list_subjects, set_capability, set_inheritance, set_relationship, type_exists, Graph,
};
use capbit::protected;
use capbit::system_cap;

const NOW: u64 = 13;

fn setup_bootstrapped() -> Graph {
    let mut g = Graph::new();
    for t in ["user", "team", "app", "resource"] {
        g.create_type_in(t).unwrap();
    }
    g.create_entity_in("user:root").unwrap();
    for t in ["_type", "user", "team", "app", "resource"] {
        let te = format!("_type:{}", t);
        g.create_entity_in(&te).unwrap();
        set_capability(&mut g, &te, "admin", system_cap::TYPE_ADMIN, NOW).unwrap();
        set_relationship(&mut g, "user:root", "admin", &te, NOW).unwrap();
    }
    g
}

#[test]
fn bootstrap_creates_type_entities() {
    let mut g = setup_bootstrapped();

    // Type entities (meta-entities for permission control)
    assert!(entity_exists(&g, "_type:_type"));
    assert!(entity_exists(&g, "_type:user"));
    assert!(entity_exists(&g, "_type:team"));
    assert!(entity_exists(&g, "_type:app"));
    assert!(entity_exists(&g, "_type:resource"));
}

#[test]
fn create_custom_type() {
    let mut g = setup_bootstrapped();

    // Root can create types
    let result = protected::create_type(&mut g, "user:root", "project", NOW);
    assert!(result.is_ok());

    // Type exists
    assert!(type_exists(&g, "project"));

    // Type entity exists
    assert!(entity_exists(&g, "_type:project"));
}

#[test]
fn custom_type_creator_gets_admin() {
    let mut g = setup_bootstrapped();

    // Give alice TYPE_CREATE permission
    protected::create_entity(&mut g, "user:root", "user", "alice").unwrap();
    protected::set_grant(&mut g, "user:root", "user:alice", "admin", "_type:_type", NOW).unwrap();

    // Alice creates a type
    protected::create_type(&mut g, "user:alice", "task", NOW).unwrap();

    // Alice should have admin on _type:task
    let caps = check_access(&g, "user:alice", "_type:task", None).unwrap();
    assert!((caps & system_cap::ENTITY_ADMIN) == system_cap::ENTITY_ADMIN);
}

#[test]
fn create_entity_of_custom_type() {
    let mut g = setup_bootstrapped();

    // Create custom type
    protected::create_type(&mut g, "user:root", "document", NOW).unwrap();

    // Create entity of custom type
    let result = protected::create_entity(&mut g, "user:root", "document", "readme");
    assert!(result.is_ok());
    assert!(entity_exists(&g, "document:readme"));
}

#[test]
fn type_admin_can_create_entities() {
    let mut g = setup_bootstrapped();

    protected::create_entity(&mut g, "user:root", "user", "alice").unwrap();

    // Give alice admin on _type:team
    protected::set_grant(&mut g, "user:root", "user:alice", "admin", "_type:team", NOW).unwrap();

    // Alice can create teams
    let result = protected::create_entity(&mut g, "user:alice", "team", "engineering");
    assert!(result.is_ok());

    let result = protected::create_entity(&mut g, "user:alice", "team", "sales");
    assert!(result.is_ok());
}

#[test]
fn type_admin_can_delete_entities() {
    let mut g = setup_bootstrapped();

    protected::create_entity(&mut g, "user:root", "user", "alice").unwrap();
    protected::set_grant(&mut g, "user:root", "user:alice", "admin", "_type:team", NOW).unwrap();

    // Create and delete
    protected::create_entity(&mut g, "user:alice", "team", "temp").unwrap();
    assert!(entity_exists(&g, "team:temp"));

    let result = protected::delete_entity(&mut g, "user:alice", "team:temp");
    assert!(result.is_ok());
    assert!(!entity_exists(&g, "team:temp"));
}

#[test]
fn non_admin_cannot_create_entities() {
    let mut g = setup_bootstrapped();

    protected::create_entity(&mut g, "user:root", "user", "bob").unwrap();

    // Bob has no admin rights
    let result = protected::create_entity(&mut g, "user:bob", "team", "hackers");
    assert!(result.is_err());
}

#[test]
fn type_case_sensitivity() {
    let mut g = setup_bootstrapped();

    // Create lowercase type
    protected::create_type(&mut g, "user:root", "project", NOW).unwrap();

    // Uppercase is a different type
    protected::create_type(&mut g, "user:root", "Project", NOW).unwrap();

    // Both exist
    assert!(type_exists(&g, "project"));
    assert!(type_exists(&g, "Project"));

    // They're separate
    protected::create_entity(&mut g, "user:root", "project", "a").unwrap();
    protected::create_entity(&mut g, "user:root", "Project", "a").unwrap();

    assert!(entity_exists(&g, "project:a"));
    assert!(entity_exists(&g, "Project:a"));
}

#[test]
fn type_already_exists_error() {
    let mut g = setup_bootstrapped();

    // "user" already exists from bootstrap
    let result = protected::create_type(&mut g, "user:root", "user", NOW);
    assert!(result.is_err());
    assert!(result.unwrap_err().message.contains("already exists"));

    // Create a new type
    protected::create_type(&mut g, "user:root", "widget", NOW).unwrap();

    // Creating it again should fail
    let result = protected::create_type(&mut g, "user:root", "widget", NOW);
    assert!(result.is_err());
    assert!(result.unwrap_err().message.contains("already exists"));
}

#[test]
fn entity_type_in_id_must_match() {
    let mut g = setup_bootstrapped();

    // Create entity - type is specified separately
    protected::create_entity(&mut g, "user:root", "user", "alice").unwrap();

    // The entity ID becomes "user:alice"
    assert!(entity_exists(&g, "user:alice"));

    // It's stored under the "user" type
    assert!(!entity_exists(&g, "team:alice"));
}

#[test]
fn type_level_capability_grants() {
    let mut g = setup_bootstrapped();

    protected::create_entity(&mut g, "user:root", "user", "alice").unwrap();

    // Check what admin on _type:user provides
    let root_caps = check_access(&g, "user:root", "_type:user", None).unwrap();

    // Root should have full entity admin
    assert!((root_caps & system_cap::ENTITY_CREATE) == system_cap::ENTITY_CREATE);
    assert!((root_caps & system_cap::ENTITY_DELETE) == system_cap::ENTITY_DELETE);
    assert!((root_caps & system_cap::GRANT_ADMIN) == system_cap::GRANT_ADMIN);
    assert!((root_caps & system_cap::CAP_ADMIN) == system_cap::CAP_ADMIN);
}

#[test]
fn type_admin_can_set_instance_capabilities() {
    let mut g = setup_bootstrapped();

    protected::create_entity(&mut g, "user:root", "user", "alice").unwrap();
    protected::set_grant(&mut g, "user:root", "user:alice", "admin", "_type:team", NOW).unwrap();

    // Create a team
    protected::create_entity(&mut g, "user:alice", "team", "sales").unwrap();

    // Alice can set capabilities on the team
    let result = protected::set_capability(&mut g, "user:alice", "team:sales", "member", 0x01, NOW);
    assert!(result.is_ok());

    // Alice can grant on the team
    protected::create_entity(&mut g, "user:root", "user", "bob").unwrap();
    let result = protected::set_grant(&mut g, "user:alice", "user:bob", "member", "team:sales", NOW);
    assert!(result.is_ok());
}

#[test]
fn bootstrap_types_immutable() {
    let mut g = setup_bootstrapped();

    // Cannot recreate core types
    let result = protected::create_type(&mut g, "user:root", "user", NOW);
    assert!(result.is_err());

    let result = protected::create_type(&mut g, "user:root", "team", NOW);
    assert!(result.is_err());

    let result = protected::create_type(&mut g, "user:root", "app", NOW);
    assert!(result.is_err());

    let result = protected::create_type(&mut g, "user:root", "resource", NOW);
    assert!(result.is_err());

    let result = protected::create_type(&mut g, "user:root", "_type", NOW);
    assert!(result.is_err());
}

#[test]
fn root_entity_immutable() {
    let mut g = setup_bootstrapped();

    // Cannot create user:root again
    let result = protected::create_entity(&mut g, "user:root", "user", "root");
    assert!(result.is_err());
    assert!(result.unwrap_err().message.contains("already exists"));
}

#[test]
fn check_access_includes_type_level_permissions() {
    let mut g = setup_bootstrapped();

    // Create a team instance
    protected::create_entity(&mut g, "user:root", "team", "engineering").unwrap();

    // Root has admin on _type:team (from bootstrap)
    // check_access on _type:team should show the permissions
    let type_caps = check_access(&g, "user:root", "_type:team", None).unwrap();
    assert!((type_caps & system_cap::ENTITY_ADMIN) == system_cap::ENTITY_ADMIN);

    // Now check_access on team:engineering should ALSO include type-level permissions
    let instance_caps = check_access(&g, "user:root", "team:engineering", None).unwrap();
    assert!((instance_caps & system_cap::ENTITY_ADMIN) == system_cap::ENTITY_ADMIN,
            "Expected type-level permissions on instance, got: 0x{:x}", instance_caps);
}

#[test]
fn type_admin_query_shows_permissions_on_instances() {
    let mut g = setup_bootstrapped();

    // Create alice and give her admin on _type:resource
    protected::create_entity(&mut g, "user:root", "user", "alice").unwrap();
    protected::set_grant(&mut g, "user:root", "user:alice", "admin", "_type:resource", NOW).unwrap();

    // Create some resources
    protected::create_entity(&mut g, "user:alice", "resource", "doc1").unwrap();
    protected::create_entity(&mut g, "user:alice", "resource", "doc2").unwrap();

    // Alice should show type-level permissions when querying any resource instance
    let caps1 = check_access(&g, "user:alice", "resource:doc1", None).unwrap();
    let caps2 = check_access(&g, "user:alice", "resource:doc2", None).unwrap();

    assert!((caps1 & system_cap::ENTITY_ADMIN) == system_cap::ENTITY_ADMIN);
    assert!((caps2 & system_cap::ENTITY_ADMIN) == system_cap::ENTITY_ADMIN);
}
