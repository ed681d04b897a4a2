// Concrete cases of laws stated in the library: round trips and orders.

use capbit::auth::AuthStore;
use capbit::graph::{
    batch_set_capabilities, check_access, delete_cap_label, delete_relationship, get_cap_label, get_capability,
    get_relationships, set_cap_label, set_capability, set_inheritance, set_relationship, Graph,
};
use capbit::keys::{entity_from_str, entity_to_str};
use capbit::mask_store::MaskStore;
use capbit::planner::{Adaptive, Batch, Op};
use capbit::protected;
use capbit::read::get_role_id;
use capbit::constants::{caps_to_names, names_to_caps, ADMIN, CREATE, DELETE, EXECUTE, GRANT, READ, VIEW, WRITE};
use capbit::entity_id::EntityId;
use capbit::keys::{grant_key, grant_seeker_prefix};
use capbit::order::grant_compare;
use std::cmp::Ordering;

#[test]
fn format_then_parse_gives_back_the_identifier() {
    for (t, i) in [("user", "alice"), ("resource", "a:b:c"), ("用户", "测试")] {
        let e = EntityId::new(t, i).unwrap();
        let back = EntityId::parse(&e.to_string_format()).unwrap();
        assert_eq!(back, e);
    }
}

#[test]
fn names_of_a_mask_read_back_to_its_table_bits() {
    let all = READ | WRITE | DELETE | CREATE | GRANT | EXECUTE | VIEW | ADMIN;
    for m in [0u64, 1, 3, 0x3F, u64::MAX, 0x1234_5678_9ABC_DEF0, VIEW | 0x100] {
        assert_eq!(names_to_caps(&caps_to_names(m)), m & all);
    }
    assert_eq!(names_to_caps(&["foo", "bar"]), 0);
    assert_eq!(names_to_caps(&[]), 0);
    assert_eq!(names_to_caps(&["read", "write"]), READ | WRITE);
}

#[test]
fn grant_keys_order_by_their_fields() {
    let a = grant_key(1, 10, 2, 20, 1);
    let b = grant_key(1, 10, 2, 30, 1);
    let c = grant_key(1, 15, 2, 20, 1);
    let d = grant_key(1, 10, 2, 20, 0x0100_0000);
    assert_eq!(grant_compare(&a, &b), Ordering::Less);
    assert_eq!(grant_compare(&b, &c), Ordering::Less);
    assert_eq!(grant_compare(&d, &a), Ordering::Greater);
    assert_eq!(grant_compare(&a, &a), Ordering::Equal);
}

#[test]
fn seeker_prefix_selects_the_seekers_keys() {
    let p = grant_seeker_prefix(1, 10);
    assert!(grant_key(1, 10, 2, 20, 1).starts_with(&p));
    assert!(grant_key(1, 10, 2, 30, 1).starts_with(&p));
    assert!(!grant_key(1, 11, 2, 20, 1).starts_with(&p));
    assert!(!grant_key(0x0100_0001, 10, 2, 20, 1).starts_with(&p));
}

#[test]
fn revoking_all_sessions_keeps_other_entities() {
    let mut s = AuthStore::new();
    s.create_session_with_token("user:a", None, 5, "t1");
    s.create_session_with_token("user:b", None, 5, "t2");
    s.create_session_with_token("user:b", Some(10), 5, "t3");
    let before = s.list_sessions("user:b", 5).len();
    s.revoke_all_sessions("user:a");
    assert_eq!(s.list_sessions("user:b", 5).len(), before);
    assert_eq!(before, 2);
    assert!(s.list_sessions("user:a", 5).is_empty());
}

const NOW: u64 = 9;

fn bootstrapped_graph() -> Graph {
    let mut g = Graph::new();
    for t in ["user", "resource", "team"] {
        g.create_type_in(t).unwrap();
    }
    g.create_entity_in("user:root").unwrap();
    for t in ["_type", "user", "resource", "team"] {
        let te = format!("_type:{}", t);
        g.create_entity_in(&te).unwrap();
        set_capability(&mut g, &te, "admin", u64::MAX, NOW).unwrap();
        set_relationship(&mut g, "user:root", "admin", &te, NOW).unwrap();
    }
    g
}

#[test]
fn entity_text_reads_back_from_its_key() {
    for s in ["user:alice", "resource:a:b:c", "team:", ":x", "用户:测试"] {
        let key = entity_from_str(s).unwrap();
        assert_eq!(entity_to_str(&key), Some(s.to_string()));
    }
    assert!(entity_from_str("no-colon").is_none());
}

#[test]
fn timeout_flush_needs_a_pending_write() {
    let a = Adaptive::new();
    assert!(!a.should_flush_on_timeout(0, 50));
    assert!(a.should_flush_on_timeout(3, 20));
    assert!(!a.should_flush_on_timeout(3, 19));
}

#[test]
fn revoking_a_session_twice() {
    let mut s = AuthStore::new();
    s.create_session_with_token("user:root", None, 5, "tok-a");
    s.create_session_with_token("user:root", None, 5, "tok-b");
    assert_eq!(s.validate_session("tok-a", 6).unwrap(), "user:root");
    assert!(s.revoke_session("tok-a"));
    assert!(s.validate_session("tok-a", 6).is_err());
    assert!(!s.revoke_session("tok-a"));
    assert!(!s.revoke_session("nonexistent"));
    assert_eq!(s.validate_session("tok-b", 6).unwrap(), "user:root");
    assert_eq!(s.list_sessions("user:root", 6).len(), 1);
}

#[test]
fn revoking_all_sessions_counts_them() {
    let mut s = AuthStore::new();
    s.create_session_with_token("user:a", None, 5, "t1");
    s.create_session_with_token("user:a", Some(10), 5, "t2");
    s.create_session_with_token("user:b", None, 5, "t3");
    assert_eq!(s.revoke_all_sessions("user:a"), 2);
    assert!(s.validate_session("t1", 6).is_err());
    assert!(s.validate_session("t2", 6).is_err());
    assert_eq!(s.validate_session("t3", 6).unwrap(), "user:b");
    assert_eq!(s.revoke_all_sessions("user:a"), 0);
}

#[test]
fn deleted_relationship_is_no_longer_listed() {
    let mut g = bootstrapped_graph();
    protected::create_entity(&mut g, "user:root", "user", "alice").unwrap();
    protected::create_entity(&mut g, "user:root", "resource", "doc").unwrap();
    set_relationship(&mut g, "user:alice", "viewer", "resource:doc", NOW).unwrap();
    set_relationship(&mut g, "user:alice", "editor", "resource:doc", NOW).unwrap();
    assert_eq!(delete_relationship(&mut g, "user:alice", "viewer", "resource:doc").unwrap(), true);
    let rels = get_relationships(&g, "user:alice", "resource:doc").unwrap();
    assert_eq!(rels, vec!["editor".to_string()]);
    assert_eq!(delete_relationship(&mut g, "user:alice", "viewer", "resource:doc").unwrap(), false);
    assert!(delete_relationship(&mut g, "user:alice", "never-used", "resource:doc").is_err());
}

#[test]
fn deleted_cap_label_reads_back_as_absent() {
    let mut g = bootstrapped_graph();
    protected::create_entity(&mut g, "user:root", "resource", "doc").unwrap();
    set_cap_label(&mut g, "resource:doc", 3, "publish").unwrap();
    assert_eq!(get_cap_label(&g, "resource:doc", 3).unwrap(), Some("publish".to_string()));
    assert_eq!(delete_cap_label(&mut g, "resource:doc", 3).unwrap(), true);
    assert_eq!(get_cap_label(&g, "resource:doc", 3).unwrap(), None);
    assert_eq!(delete_cap_label(&mut g, "resource:doc", 3).unwrap(), false);
}

#[test]
fn flushed_grant_reads_back_through_role_id() {
    let mut st = MaskStore::new();
    st.grant(1, 100, 0x01);
    let mut b = Batch::new();
    b.add(Op::Grant { subject: 1, object: 100, mask: 0x04 });
    b.flush(&mut st).unwrap();
    assert_eq!(get_role_id(&st, 1, 100), 0x05);
    assert_eq!(get_role_id(&st, 2, 100), 0);
}

#[test]
fn depth_zero_sees_only_own_grants() {
    let mut g = bootstrapped_graph();
    for (t, i) in [("user", "alice"), ("user", "bob"), ("resource", "doc")] {
        protected::create_entity(&mut g, "user:root", t, i).unwrap();
    }
    set_capability(&mut g, "resource:doc", "viewer", 0x01, NOW).unwrap();
    set_capability(&mut g, "resource:doc", "editor", 0x06, NOW).unwrap();
    set_relationship(&mut g, "user:alice", "viewer", "resource:doc", NOW).unwrap();
    set_relationship(&mut g, "user:bob", "editor", "resource:doc", NOW).unwrap();
    set_inheritance(&mut g, "user:alice", "resource:doc", "user:bob", NOW).unwrap();
    assert_eq!(check_access(&g, "user:alice", "resource:doc", Some(0)).unwrap(), 0x01);
    assert_eq!(check_access(&g, "user:alice", "resource:doc", None).unwrap(), 0x07);
}

#[test]
fn access_stays_within_the_delegation_reach() {
    let mut g = bootstrapped_graph();
    for (t, i) in [("user", "a"), ("user", "b"), ("user", "c"), ("user", "d"), ("resource", "target")] {
        protected::create_entity(&mut g, "user:root", t, i).unwrap();
    }
    set_capability(&mut g, "resource:target", "member", 0x0F, NOW).unwrap();
    set_capability(&mut g, "resource:target", "other", 0x30, NOW).unwrap();
    set_relationship(&mut g, "user:a", "member", "resource:target", NOW).unwrap();
    set_relationship(&mut g, "user:d", "other", "resource:target", NOW).unwrap();
    set_inheritance(&mut g, "user:b", "resource:target", "user:a", NOW).unwrap();
    set_inheritance(&mut g, "user:c", "resource:target", "user:b", NOW).unwrap();
    set_inheritance(&mut g, "user:a", "resource:target", "user:c", NOW).unwrap();
    // d is outside every cycle that c reaches, so its bits never show.
    assert_eq!(check_access(&g, "user:c", "resource:target", None).unwrap(), 0x0F);
}

#[test]
fn batch_of_masks_keeps_the_last_for_a_pair() {
    let mut g = bootstrapped_graph();
    protected::create_entity(&mut g, "user:root", "resource", "doc").unwrap();
    let e = |m: u64| ("resource:doc".to_string(), "editor".to_string(), m);
    assert_eq!(batch_set_capabilities(&mut g, &[e(0x01), e(0x02), e(0x04)], NOW).unwrap(), 3);
    assert_eq!(get_capability(&g, "resource:doc", "editor").unwrap(), Some(0x04));
    let bad = [e(0x08), ("resource:missing".to_string(), "editor".to_string(), 0x10)];
    assert!(batch_set_capabilities(&mut g, &bad, NOW).is_err());
    assert_eq!(get_capability(&g, "resource:doc", "editor").unwrap(), Some(0x04));
}

#[test]
fn self_delegation_changes_nothing() {
    let mut g = bootstrapped_graph();
    for (t, i) in [("user", "a"), ("user", "b"), ("resource", "doc")] {
        protected::create_entity(&mut g, "user:root", t, i).unwrap();
    }
    set_capability(&mut g, "resource:doc", "viewer", 0x03, NOW).unwrap();
    set_relationship(&mut g, "user:b", "viewer", "resource:doc", NOW).unwrap();
    set_inheritance(&mut g, "user:a", "resource:doc", "user:b", NOW).unwrap();
    let before = check_access(&g, "user:a", "resource:doc", None).unwrap();
    let shallow = check_access(&g, "user:a", "resource:doc", Some(1)).unwrap();
    let own = check_access(&g, "user:a", "resource:doc", Some(0)).unwrap();
    set_inheritance(&mut g, "user:a", "resource:doc", "user:a", NOW).unwrap();
    assert_eq!(check_access(&g, "user:a", "resource:doc", None).unwrap(), before);
    assert_eq!(check_access(&g, "user:a", "resource:doc", Some(1)).unwrap(), shallow);
    assert_eq!(check_access(&g, "user:a", "resource:doc", Some(0)).unwrap(), own);
    assert_eq!((before, shallow, own), (0x03, 0x03, 0));
}

#[test]
fn fresh_graph_has_room_for_new_roles() {
    let g = bootstrapped_graph();
    assert!(g.has_room_for(0));
    assert!(g.has_room_for(1000));
    assert!(!g.has_room_for(usize::MAX));
}
