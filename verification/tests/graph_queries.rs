// Reads of the entity graph after writes. The graph starts with the types
// user, resource and team, and a root user holding every capability on each
// type entity, so that it may create entities and grant on them.

use capbit::graph::{
    check_access, delete_relationship, get_capability, get_cap_label, get_inheritance, get_inheritance_for_object,
    get_inheritors_from_source, get_relationships, list_accessible, list_subjects, set_cap_label, set_capability,
    set_inheritance, set_relationship, Graph,
};
use capbit::protected;

const NOW: u64 = 9;

fn setup_bootstrapped() -> Graph {
    let mut g = Graph::new();
    for t in ["user", "resource", "team"] {
        g.create_type_in(t).unwrap();
    }
    g.create_entity_in("user:root").unwrap();
    for t in ["_type", "user", "resource", "team"] {
        let te = format!("_type:{}", t);
        g.create_entity_in(&te).unwrap();
        set_capability(&mut g, &te, "admin", u64::MAX, NOW).unwrap();
        set_relationship(&mut g, "user:root", "admin", &te, NOW).unwrap();
    }
    g
}

fn create(g: &mut Graph, t: &str, id: &str) {
    protected::create_entity(g, "user:root", t, id).unwrap();
}

#[test]
fn list_accessible_returns_all() {
    let mut g = setup_bootstrapped();
    create(&mut g, "user", "alice");
    create(&mut g, "resource", "doc1");
    create(&mut g, "resource", "doc2");
    create(&mut g, "resource", "doc3");
    create(&mut g, "team", "sales");

    set_capability(&mut g, "resource:doc1", "viewer", 0x01, NOW).unwrap();
    set_capability(&mut g, "resource:doc2", "editor", 0x03, NOW).unwrap();
    set_capability(&mut g, "resource:doc3", "admin", 0x0F, NOW).unwrap();
    set_capability(&mut g, "team:sales", "member", 0x01, NOW).unwrap();

    set_relationship(&mut g, "user:alice", "viewer", "resource:doc1", NOW).unwrap();
    set_relationship(&mut g, "user:alice", "editor", "resource:doc2", NOW).unwrap();
    set_relationship(&mut g, "user:alice", "admin", "resource:doc3", NOW).unwrap();
    set_relationship(&mut g, "user:alice", "member", "team:sales", NOW).unwrap();

    let accessible = list_accessible(&g, "user:alice").unwrap();
    assert_eq!(accessible.len(), 4);
    let objects: Vec<&str> = accessible.iter().map(|(obj, _)| obj.as_str()).collect();
    assert!(objects.contains(&"resource:doc1"));
    assert!(objects.contains(&"resource:doc2"));
    assert!(objects.contains(&"resource:doc3"));
    assert!(objects.contains(&"team:sales"));
}

#[test]
fn list_accessible_excludes_revoked() {
    let mut g = setup_bootstrapped();
    create(&mut g, "user", "alice");
    create(&mut g, "resource", "doc1");
    create(&mut g, "resource", "doc2");
    set_capability(&mut g, "resource:doc1", "viewer", 0x01, NOW).unwrap();
    set_capability(&mut g, "resource:doc2", "viewer", 0x01, NOW).unwrap();
    set_relationship(&mut g, "user:alice", "viewer", "resource:doc1", NOW).unwrap();
    set_relationship(&mut g, "user:alice", "viewer", "resource:doc2", NOW).unwrap();
    assert_eq!(list_accessible(&g, "user:alice").unwrap().len(), 2);
    delete_relationship(&mut g, "user:alice", "viewer", "resource:doc2").unwrap();
    let accessible = list_accessible(&g, "user:alice").unwrap();
    assert_eq!(accessible.len(), 1);
    assert_eq!(accessible[0].0, "resource:doc1");
}

#[test]
fn list_accessible_multiple_relations() {
    let mut g = setup_bootstrapped();
    create(&mut g, "user", "alice");
    create(&mut g, "resource", "doc");
    set_capability(&mut g, "resource:doc", "viewer", 0x01, NOW).unwrap();
    set_capability(&mut g, "resource:doc", "editor", 0x02, NOW).unwrap();
    set_capability(&mut g, "resource:doc", "admin", 0x04, NOW).unwrap();
    set_relationship(&mut g, "user:alice", "viewer", "resource:doc", NOW).unwrap();
    set_relationship(&mut g, "user:alice", "editor", "resource:doc", NOW).unwrap();
    set_relationship(&mut g, "user:alice", "admin", "resource:doc", NOW).unwrap();
    let accessible = list_accessible(&g, "user:alice").unwrap();
    assert_eq!(accessible.len(), 3);
    let relations: Vec<&str> = accessible.iter().map(|(_, rel)| rel.as_str()).collect();
    assert!(relations.contains(&"viewer"));
    assert!(relations.contains(&"editor"));
    assert!(relations.contains(&"admin"));
}

#[test]
fn list_subjects_returns_all() {
    let mut g = setup_bootstrapped();
    create(&mut g, "user", "alice");
    create(&mut g, "user", "bob");
    create(&mut g, "user", "charlie");
    create(&mut g, "resource", "doc");
    set_capability(&mut g, "resource:doc", "viewer", 0x01, NOW).unwrap();
    set_capability(&mut g, "resource:doc", "editor", 0x02, NOW).unwrap();
    set_relationship(&mut g, "user:alice", "viewer", "resource:doc", NOW).unwrap();
    set_relationship(&mut g, "user:bob", "editor", "resource:doc", NOW).unwrap();
    set_relationship(&mut g, "user:charlie", "viewer", "resource:doc", NOW).unwrap();
    let subjects = list_subjects(&g, "resource:doc").unwrap();
    assert_eq!(subjects.len(), 3);
    let users: Vec<&str> = subjects.iter().map(|(subj, _)| subj.as_str()).collect();
    assert!(users.contains(&"user:alice"));
    assert!(users.contains(&"user:bob"));
    assert!(users.contains(&"user:charlie"));
}

#[test]
fn list_subjects_excludes_revoked() {
    let mut g = setup_bootstrapped();
    create(&mut g, "user", "alice");
    create(&mut g, "user", "bob");
    create(&mut g, "resource", "doc");
    set_capability(&mut g, "resource:doc", "viewer", 0x01, NOW).unwrap();
    set_relationship(&mut g, "user:alice", "viewer", "resource:doc", NOW).unwrap();
    set_relationship(&mut g, "user:bob", "viewer", "resource:doc", NOW).unwrap();
    assert_eq!(list_subjects(&g, "resource:doc").unwrap().len(), 2);
    delete_relationship(&mut g, "user:bob", "viewer", "resource:doc").unwrap();
    let subjects = list_subjects(&g, "resource:doc").unwrap();
    assert_eq!(subjects.len(), 1);
    assert_eq!(subjects[0].0, "user:alice");
}

#[test]
fn query_empty_result() {
    let mut g = setup_bootstrapped();
    create(&mut g, "user", "alice");
    create(&mut g, "resource", "doc");
    assert!(list_accessible(&g, "user:alice").unwrap().is_empty());
    assert!(list_subjects(&g, "resource:doc").unwrap().is_empty());
    assert!(get_relationships(&g, "user:alice", "resource:doc").unwrap().is_empty());
}

#[test]
fn query_large_result_set() {
    let mut g = setup_bootstrapped();
    create(&mut g, "user", "alice");
    for i in 0..50 {
        create(&mut g, "resource", &format!("doc{}", i));
        set_capability(&mut g, &format!("resource:doc{}", i), "viewer", 0x01, NOW).unwrap();
        set_relationship(&mut g, "user:alice", "viewer", &format!("resource:doc{}", i), NOW).unwrap();
    }
    assert_eq!(list_accessible(&g, "user:alice").unwrap().len(), 50);
}

#[test]
fn query_many_subjects() {
    let mut g = setup_bootstrapped();
    create(&mut g, "resource", "shared");
    set_capability(&mut g, "resource:shared", "member", 0x01, NOW).unwrap();
    for i in 0..50 {
        create(&mut g, "user", &format!("u{}", i));
        set_relationship(&mut g, &format!("user:u{}", i), "member", "resource:shared", NOW).unwrap();
    }
    assert_eq!(list_subjects(&g, "resource:shared").unwrap().len(), 50);
}

#[test]
fn get_relationships_complete() {
    let mut g = setup_bootstrapped();
    create(&mut g, "user", "alice");
    create(&mut g, "resource", "doc");
    set_relationship(&mut g, "user:alice", "viewer", "resource:doc", NOW).unwrap();
    set_relationship(&mut g, "user:alice", "commenter", "resource:doc", NOW).unwrap();
    set_relationship(&mut g, "user:alice", "editor", "resource:doc", NOW).unwrap();
    let rels = get_relationships(&g, "user:alice", "resource:doc").unwrap();
    assert_eq!(rels.len(), 3);
    assert!(rels.contains(&"viewer".to_string()));
    assert!(rels.contains(&"commenter".to_string()));
    assert!(rels.contains(&"editor".to_string()));
}

#[test]
fn get_relationships_after_modifications() {
    let mut g = setup_bootstrapped();
    create(&mut g, "user", "alice");
    create(&mut g, "resource", "doc");
    set_relationship(&mut g, "user:alice", "viewer", "resource:doc", NOW).unwrap();
    set_relationship(&mut g, "user:alice", "editor", "resource:doc", NOW).unwrap();
    assert_eq!(get_relationships(&g, "user:alice", "resource:doc").unwrap().len(), 2);
    delete_relationship(&mut g, "user:alice", "viewer", "resource:doc").unwrap();
    let rels = get_relationships(&g, "user:alice", "resource:doc").unwrap();
    assert_eq!(rels.len(), 1);
    assert!(rels.contains(&"editor".to_string()));
    assert!(!rels.contains(&"viewer".to_string()));
    set_relationship(&mut g, "user:alice", "admin", "resource:doc", NOW).unwrap();
    let rels = get_relationships(&g, "user:alice", "resource:doc").unwrap();
    assert_eq!(rels.len(), 2);
    assert!(rels.contains(&"editor".to_string()));
    assert!(rels.contains(&"admin".to_string()));
}

#[test]
fn get_inheritance_complete() {
    let mut g = setup_bootstrapped();
    for u in ["alice", "bob", "charlie", "collector"] {
        create(&mut g, "user", u);
    }
    create(&mut g, "resource", "doc");
    set_inheritance(&mut g, "user:collector", "resource:doc", "user:alice", NOW).unwrap();
    set_inheritance(&mut g, "user:collector", "resource:doc", "user:bob", NOW).unwrap();
    set_inheritance(&mut g, "user:collector", "resource:doc", "user:charlie", NOW).unwrap();
    let sources = get_inheritance(&g, "user:collector", "resource:doc").unwrap();
    assert_eq!(sources.len(), 3);
    assert!(sources.contains(&"user:alice".to_string()));
    assert!(sources.contains(&"user:bob".to_string()));
    assert!(sources.contains(&"user:charlie".to_string()));
}

#[test]
fn get_inheritors_complete() {
    let mut g = setup_bootstrapped();
    for u in ["source", "a", "b", "c"] {
        create(&mut g, "user", u);
    }
    create(&mut g, "resource", "doc");
    set_inheritance(&mut g, "user:a", "resource:doc", "user:source", NOW).unwrap();
    set_inheritance(&mut g, "user:b", "resource:doc", "user:source", NOW).unwrap();
    set_inheritance(&mut g, "user:c", "resource:doc", "user:source", NOW).unwrap();
    let inheritors = get_inheritors_from_source(&g, "user:source", "resource:doc").unwrap();
    assert_eq!(inheritors.len(), 3);
    assert!(inheritors.contains(&"user:a".to_string()));
    assert!(inheritors.contains(&"user:b".to_string()));
    assert!(inheritors.contains(&"user:c".to_string()));
}

#[test]
fn get_inheritance_for_object_complete() {
    let mut g = setup_bootstrapped();
    for u in ["alice", "bob", "charlie"] {
        create(&mut g, "user", u);
    }
    create(&mut g, "resource", "doc");
    set_inheritance(&mut g, "user:bob", "resource:doc", "user:alice", NOW).unwrap();
    set_inheritance(&mut g, "user:charlie", "resource:doc", "user:alice", NOW).unwrap();
    set_inheritance(&mut g, "user:charlie", "resource:doc", "user:bob", NOW).unwrap();
    let inheritance = get_inheritance_for_object(&g, "resource:doc").unwrap();
    assert_eq!(inheritance.len(), 3);
    assert!(inheritance.contains(&("user:alice".to_string(), "user:bob".to_string())));
    assert!(inheritance.contains(&("user:alice".to_string(), "user:charlie".to_string())));
    assert!(inheritance.contains(&("user:bob".to_string(), "user:charlie".to_string())));
}

#[test]
fn query_after_modifications() {
    let mut g = setup_bootstrapped();
    create(&mut g, "user", "alice");
    for d in ["doc1", "doc2", "doc3"] {
        create(&mut g, "resource", d);
        set_capability(&mut g, &format!("resource:{}", d), "viewer", 0x01, NOW).unwrap();
    }
    set_relationship(&mut g, "user:alice", "viewer", "resource:doc1", NOW).unwrap();
    set_relationship(&mut g, "user:alice", "viewer", "resource:doc2", NOW).unwrap();
    assert_eq!(list_accessible(&g, "user:alice").unwrap().len(), 2);
    set_relationship(&mut g, "user:alice", "viewer", "resource:doc3", NOW).unwrap();
    assert_eq!(list_accessible(&g, "user:alice").unwrap().len(), 3);
    delete_relationship(&mut g, "user:alice", "viewer", "resource:doc1").unwrap();
    let accessible = list_accessible(&g, "user:alice").unwrap();
    assert_eq!(accessible.len(), 2);
    let objects: Vec<&str> = accessible.iter().map(|(obj, _)| obj.as_str()).collect();
    assert!(!objects.contains(&"resource:doc1"));
    assert!(objects.contains(&"resource:doc2"));
    assert!(objects.contains(&"resource:doc3"));
}

#[test]
fn reads_give_back_writes() {
    let mut g = setup_bootstrapped();
    create(&mut g, "user", "alice");
    create(&mut g, "resource", "doc");
    set_capability(&mut g, "resource:doc", "viewer", 0x05, NOW).unwrap();
    assert_eq!(get_capability(&g, "resource:doc", "viewer").unwrap(), Some(0x05));
    assert_eq!(get_capability(&g, "resource:doc", "editor").unwrap(), None);
    set_cap_label(&mut g, "resource:doc", 0x04, "Delete").unwrap();
    assert_eq!(get_cap_label(&g, "resource:doc", 0x04).unwrap(), Some("Delete".to_string()));
    set_relationship(&mut g, "user:alice", "viewer", "resource:doc", NOW).unwrap();
    assert_eq!(check_access(&g, "user:alice", "resource:doc", None).unwrap() & 0x05, 0x05);
}

#[test]
fn empty_relation_is_refused_everywhere() {
    let mut g = setup_bootstrapped();
    create(&mut g, "user", "alice");
    create(&mut g, "resource", "doc");
    assert_eq!(set_relationship(&mut g, "user:alice", "", "resource:doc", NOW).unwrap_err().message, "Role label cannot be empty");
    assert!(protected::set_grant(&mut g, "user:root", "user:alice", "", "resource:doc", NOW).is_err());
    assert!(protected::set_capability(&mut g, "user:root", "resource:doc", "", 1, NOW).is_err());
    assert!(get_relationships(&g, "user:alice", "resource:doc").unwrap().is_empty());
    assert_eq!(g.resolve_or_create_role("").unwrap_err().message, "Role label cannot be empty");
}
