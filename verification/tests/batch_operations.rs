// Batch writes on the entity graph: counts, ordering, last write wins,
// deletes and reuse of a cleared batch. The graph keeps a type registry,
// so each test first registers the types and entities it names.

use capbit::graph::{
    batch_set_capabilities, batch_set_inheritance, batch_set_relationships, get_cap_label, get_capability,
    has_capability, write_batch, Graph,
};

const NOW: u64 = 7;

fn fresh_graph(entities: &[&str]) -> Graph {
    let mut g = Graph::new();
    g.create_type_in("user").unwrap();
    g.create_type_in("resource").unwrap();
    g.create_type_in("team").unwrap();
    for e in entities {
        g.create_entity_in(e).unwrap();
    }
    g
}

fn numbered(prefix: &str, n: usize) -> Vec<String> {
    let mut v = Vec::new();
    for i in 0..n {
        v.push(format!("{}{}", prefix, i));
    }
    v
}

#[test]
fn batch_relationships_multiple_entries() {
    let mut g = fresh_graph(&["resource:doc", "team:sales", "user:alice", "user:bob"]);

    batch_set_capabilities(
        &mut g,
        &[
            ("resource:doc".to_string(), "viewer".to_string(), 0x01),
            ("resource:doc".to_string(), "editor".to_string(), 0x02),
            ("team:sales".to_string(), "member".to_string(), 0x04),
        ],
        NOW,
    )
    .unwrap();

    let entries = vec![
        ("user:alice".to_string(), "viewer".to_string(), "resource:doc".to_string()),
        ("user:alice".to_string(), "member".to_string(), "team:sales".to_string()),
        ("user:bob".to_string(), "editor".to_string(), "resource:doc".to_string()),
        ("user:bob".to_string(), "member".to_string(), "team:sales".to_string()),
    ];

    let result = batch_set_relationships(&mut g, &entries, NOW);
    assert!(result.is_ok());
    assert_eq!(result.unwrap(), 4);

    assert!(has_capability(&g, "user:alice", "resource:doc", 0x01).unwrap());
    assert!(has_capability(&g, "user:alice", "team:sales", 0x04).unwrap());
    assert!(has_capability(&g, "user:bob", "resource:doc", 0x02).unwrap());
    assert!(has_capability(&g, "user:bob", "team:sales", 0x04).unwrap());
}

#[test]
fn batch_capabilities_multiple_entries() {
    let mut g = fresh_graph(&["resource:doc1", "resource:doc2"]);

    let entries = vec![
        ("resource:doc1".to_string(), "viewer".to_string(), 0x01u64),
        ("resource:doc1".to_string(), "editor".to_string(), 0x03u64),
        ("resource:doc2".to_string(), "viewer".to_string(), 0x01u64),
        ("resource:doc2".to_string(), "admin".to_string(), 0x0Fu64),
    ];

    let result = batch_set_capabilities(&mut g, &entries, NOW);
    assert!(result.is_ok());
    assert_eq!(result.unwrap(), 4);

    assert_eq!(get_capability(&g, "resource:doc1", "viewer").unwrap(), Some(0x01));
    assert_eq!(get_capability(&g, "resource:doc1", "editor").unwrap(), Some(0x03));
    assert_eq!(get_capability(&g, "resource:doc2", "viewer").unwrap(), Some(0x01));
    assert_eq!(get_capability(&g, "resource:doc2", "admin").unwrap(), Some(0x0F));
}

#[test]
fn batch_inheritance_multiple_entries() {
    let mut g = fresh_graph(&["resource:doc", "user:root", "user:alice", "user:bob", "user:charlie"]);

    batch_set_capabilities(&mut g, &[("resource:doc".to_string(), "member".to_string(), 0x01)], NOW).unwrap();
    batch_set_relationships(
        &mut g,
        &[("user:root".to_string(), "member".to_string(), "resource:doc".to_string())],
        NOW,
    )
    .unwrap();

    let entries = vec![
        ("user:alice".to_string(), "resource:doc".to_string(), "user:root".to_string()),
        ("user:bob".to_string(), "resource:doc".to_string(), "user:root".to_string()),
        ("user:charlie".to_string(), "resource:doc".to_string(), "user:root".to_string()),
    ];

    let result = batch_set_inheritance(&mut g, &entries, NOW);
    assert!(result.is_ok());
    assert_eq!(result.unwrap(), 3);

    assert!(has_capability(&g, "user:alice", "resource:doc", 0x01).unwrap());
    assert!(has_capability(&g, "user:bob", "resource:doc", 0x01).unwrap());
    assert!(has_capability(&g, "user:charlie", "resource:doc", 0x01).unwrap());
}

#[test]
fn batch_empty_succeeds() {
    let mut g = fresh_graph(&[]);

    let empty_rels: Vec<(String, String, String)> = vec![];
    let result = batch_set_relationships(&mut g, &empty_rels, NOW);
    assert!(result.is_ok());
    assert_eq!(result.unwrap(), 0);

    let empty_caps: Vec<(String, String, u64)> = vec![];
    let result = batch_set_capabilities(&mut g, &empty_caps, NOW);
    assert!(result.is_ok());
    assert_eq!(result.unwrap(), 0);

    let empty_inh: Vec<(String, String, String)> = vec![];
    let result = batch_set_inheritance(&mut g, &empty_inh, NOW);
    assert!(result.is_ok());
    assert_eq!(result.unwrap(), 0);
}

#[test]
fn write_batch_mixed_operations() {
    let mut g = fresh_graph(&["resource:doc", "user:alice", "user:bob", "user:charlie"]);

    let mut batch = write_batch();
    batch
        .set_capability("resource:doc", "viewer", 0x01)
        .set_capability("resource:doc", "editor", 0x03)
        .set_relationship("user:alice", "viewer", "resource:doc")
        .set_relationship("user:bob", "editor", "resource:doc")
        .set_inheritance("user:charlie", "resource:doc", "user:alice");

    assert_eq!(batch.len(), 5);

    let result = batch.execute(&mut g, NOW);
    assert!(result.is_ok());

    assert!(has_capability(&g, "user:alice", "resource:doc", 0x01).unwrap());
    assert!(has_capability(&g, "user:bob", "resource:doc", 0x03).unwrap());
    assert!(has_capability(&g, "user:charlie", "resource:doc", 0x01).unwrap());
}

#[test]
fn write_batch_ordering_matters() {
    let mut g = fresh_graph(&["resource:doc", "user:alice"]);

    let mut batch = write_batch();
    batch
        .set_capability("resource:doc", "role1", 0x01)
        .set_relationship("user:alice", "role1", "resource:doc")
        .set_capability("resource:doc", "role1", 0x0F);

    batch.execute(&mut g, NOW).unwrap();

    assert_eq!(get_capability(&g, "resource:doc", "role1").unwrap(), Some(0x0F));
    assert!(has_capability(&g, "user:alice", "resource:doc", 0x0F).unwrap());
}

#[test]
fn write_batch_delete_operations() {
    let mut g = fresh_graph(&["resource:doc", "user:alice", "user:bob"]);

    let mut setup = write_batch();
    setup
        .set_capability("resource:doc", "member", 0x01)
        .set_relationship("user:alice", "member", "resource:doc")
        .set_inheritance("user:bob", "resource:doc", "user:alice");
    setup.execute(&mut g, NOW).unwrap();

    assert!(has_capability(&g, "user:alice", "resource:doc", 0x01).unwrap());
    assert!(has_capability(&g, "user:bob", "resource:doc", 0x01).unwrap());

    let mut delete = write_batch();
    delete
        .delete_relationship("user:alice", "member", "resource:doc")
        .delete_inheritance("user:bob", "resource:doc", "user:alice");
    delete.execute(&mut g, NOW).unwrap();

    assert!(!has_capability(&g, "user:alice", "resource:doc", 0x01).unwrap());
    assert!(!has_capability(&g, "user:bob", "resource:doc", 0x01).unwrap());
}

#[test]
fn write_batch_clear_and_reuse() {
    let mut g = fresh_graph(&["resource:doc1", "resource:doc2"]);

    let mut batch = write_batch();
    batch.set_capability("resource:doc1", "role", 0x01);
    assert_eq!(batch.len(), 1);

    batch.clear();
    assert_eq!(batch.len(), 0);
    assert!(batch.is_empty());

    batch.set_capability("resource:doc2", "role", 0x02);
    batch.execute(&mut g, NOW).unwrap();

    assert_eq!(get_capability(&g, "resource:doc1", "role").unwrap(), None);
    assert_eq!(get_capability(&g, "resource:doc2", "role").unwrap(), Some(0x02));
}

#[test]
fn batch_duplicate_operations() {
    let mut g = fresh_graph(&["resource:doc"]);

    let entries = vec![
        ("resource:doc".to_string(), "viewer".to_string(), 0x01u64),
        ("resource:doc".to_string(), "viewer".to_string(), 0x01u64),
        ("resource:doc".to_string(), "viewer".to_string(), 0x01u64),
    ];

    let result = batch_set_capabilities(&mut g, &entries, NOW);
    assert!(result.is_ok());

    assert_eq!(get_capability(&g, "resource:doc", "viewer").unwrap(), Some(0x01));
}

#[test]
fn batch_conflicting_operations() {
    let mut g = fresh_graph(&["resource:doc"]);

    let entries = vec![
        ("resource:doc".to_string(), "role".to_string(), 0x01u64),
        ("resource:doc".to_string(), "role".to_string(), 0x02u64),
        ("resource:doc".to_string(), "role".to_string(), 0x04u64),
    ];

    batch_set_capabilities(&mut g, &entries, NOW).unwrap();

    assert_eq!(get_capability(&g, "resource:doc", "role").unwrap(), Some(0x04));
}

#[test]
fn batch_large_number_of_operations() {
    let docs = numbered("resource:doc", 100);
    let names: Vec<&str> = docs.iter().map(|s| s.as_str()).collect();
    let mut g = fresh_graph(&names);

    let caps: Vec<(String, String, u64)> =
        (0..100).map(|i| (format!("resource:doc{}", i), "role".to_string(), i as u64)).collect();

    let result = batch_set_capabilities(&mut g, &caps, NOW);
    assert!(result.is_ok());
    assert_eq!(result.unwrap(), 100);

    assert_eq!(get_capability(&g, "resource:doc0", "role").unwrap(), Some(0));
    assert_eq!(get_capability(&g, "resource:doc50", "role").unwrap(), Some(50));
    assert_eq!(get_capability(&g, "resource:doc99", "role").unwrap(), Some(99));
}

#[test]
fn write_batch_many_operations() {
    let mut all = numbered("resource:doc", 50);
    all.extend(numbered("user:u", 50));
    let names: Vec<&str> = all.iter().map(|s| s.as_str()).collect();
    let mut g = fresh_graph(&names);

    let mut batch = write_batch();
    for i in 0..50 {
        batch.set_capability(&format!("resource:doc{}", i), "member", 1 << (i % 64));
        batch.set_relationship(&format!("user:u{}", i), "member", &format!("resource:doc{}", i));
    }

    assert_eq!(batch.len(), 100);

    let result = batch.execute(&mut g, NOW);
    assert!(result.is_ok());

    assert!(has_capability(&g, "user:u0", "resource:doc0", 1).unwrap());
    assert!(has_capability(&g, "user:u25", "resource:doc25", 1 << 25).unwrap());
}

#[test]
fn write_batch_with_labels() {
    let mut g = fresh_graph(&["resource:doc"]);

    let mut batch = write_batch();
    batch
        .set_capability("resource:doc", "viewer", 0x01)
        .set_capability("resource:doc", "editor", 0x02)
        .set_cap_label("resource:doc", 0x01, "Read access")
        .set_cap_label("resource:doc", 0x02, "Write access");

    batch.execute(&mut g, NOW).unwrap();

    assert_eq!(get_capability(&g, "resource:doc", "viewer").unwrap(), Some(0x01));
    assert_eq!(get_capability(&g, "resource:doc", "editor").unwrap(), Some(0x02));
    assert_eq!(get_cap_label(&g, "resource:doc", 0x01).unwrap(), Some("Read access".to_string()));
    assert_eq!(get_cap_label(&g, "resource:doc", 0x02).unwrap(), Some("Write access".to_string()));
}
