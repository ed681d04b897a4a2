use capbit::bootstrap::{bootstrap, get_root_user, get_system, is_bootstrapped};
use capbit::constants::{
    caps_to_names, names_to_caps, ADMIN, CREATE, DELETE, EXECUTE, GRANT, READ, VIEW, WRITE,
};
use capbit::entity::{create_entity, delete_entity, rename_entity, set_label};
use capbit::mask_store::MaskStore;
use capbit::planner::{Adaptive, Batch, Op};
use capbit::read::{
    check, count_for_object, count_for_subject, get_id_by_label, get_inherit, get_label, get_mask, get_role,
    list_for_subject, list_labels,
};
use capbit::write::{grant, list_for_object, remove_inherit, revoke, set_inherit, set_role};

fn setup() -> MaskStore {
    MaskStore::new()
}

fn submit(st: &mut MaskStore, op: Op) {
    let mut b = Batch::new();
    b.add(op);
    b.flush(st).unwrap();
}

#[test]
fn test_grant_and_check() {
    let mut st = setup();
    st.grant(1, 100, READ | WRITE);
    assert!(check(&st, 1, 100, READ));
    assert!(check(&st, 1, 100, WRITE));
    assert!(check(&st, 1, 100, READ | WRITE));
    assert!(!check(&st, 1, 100, DELETE));
}

#[test]
fn test_grant_accumulates() {
    let mut st = setup();
    st.grant(1, 100, READ);
    st.grant(1, 100, WRITE);
    assert_eq!(get_mask(&st, 1, 100), READ | WRITE);
}

#[test]
fn test_grant_set_replaces() {
    let mut st = setup();
    st.grant(1, 100, READ | WRITE | DELETE);
    st.grant_set(1, 100, READ);
    assert_eq!(get_mask(&st, 1, 100), READ);
}

#[test]
fn test_revoke() {
    let mut st = setup();
    st.grant(1, 100, READ | WRITE);
    st.revoke(1, 100);
    assert!(!check(&st, 1, 100, READ));
}

#[test]
fn test_roles() {
    let mut st = setup();
    const EDITOR: u64 = 1000;
    st.set_role(100, EDITOR, READ | WRITE);
    st.grant(1, 100, EDITOR);
    assert!(check(&st, 1, 100, READ));
    assert!(check(&st, 1, 100, WRITE));
    assert!(!check(&st, 1, 100, DELETE));
}

#[test]
fn test_role_update_affects_checks() {
    let mut st = setup();
    const EDITOR: u64 = 1000;
    st.set_role(100, EDITOR, READ);
    st.grant(1, 100, EDITOR);
    assert!(!check(&st, 1, 100, WRITE));
    st.set_role(100, EDITOR, READ | WRITE);
    assert!(check(&st, 1, 100, WRITE));
}

#[test]
fn test_inheritance() {
    let mut st = setup();
    st.set_inherit(100, 1, 10).unwrap();
    st.grant(10, 100, READ | WRITE);
    assert!(check(&st, 1, 100, READ));
    assert!(check(&st, 1, 100, WRITE));
}

#[test]
fn test_inheritance_chain() {
    let mut st = setup();
    st.set_inherit(100, 1, 10).unwrap();
    st.set_inherit(100, 10, 20).unwrap();
    st.grant(20, 100, ADMIN);
    assert!(check(&st, 1, 100, ADMIN));
}

#[test]
fn test_inheritance_cycle_prevention() {
    let mut st = setup();
    st.set_inherit(100, 1, 2).unwrap();
    st.set_inherit(100, 2, 3).unwrap();
    assert!(st.set_inherit(100, 3, 1).is_err());
}

#[test]
fn test_self_inherit_prevention() {
    let mut st = setup();
    assert!(st.set_inherit(100, 1, 1).is_err());
}

#[test]
fn test_remove_inherit() {
    let mut st = setup();
    st.set_inherit(100, 1, 10).unwrap();
    st.grant(10, 100, READ);
    assert!(check(&st, 1, 100, READ));
    st.remove_inherit(100, 1);
    assert!(!check(&st, 1, 100, READ));
}

#[test]
fn test_transact() {
    let mut st = setup();
    st.grant(1, 100, READ);
    st.grant(2, 100, WRITE);
    st.set_role(100, 1000, READ | WRITE | DELETE);
    assert!(check(&st, 1, 100, READ));
    assert!(check(&st, 2, 100, WRITE));
    assert_eq!(get_role(&st, 100, 1000), READ | WRITE | DELETE);
}

#[test]
fn test_create_entity() {
    let mut st = setup();
    let alice = create_entity(&mut st, "alice");
    let bob = create_entity(&mut st, "bob");
    assert!(alice > 0);
    assert_eq!(bob, alice + 1);
    assert_eq!(get_label(&st, alice), Some("alice".to_string()));
    assert_eq!(get_id_by_label(&st, "alice"), Some(alice));
}

#[test]
fn test_rename_entity() {
    let mut st = setup();
    let id = create_entity(&mut st, "alice");
    rename_entity(&mut st, id, "alicia");
    assert_eq!(get_label(&st, id), Some("alicia".to_string()));
    assert_eq!(get_id_by_label(&st, "alicia"), Some(id));
    assert_eq!(get_id_by_label(&st, "alice"), None);
}

#[test]
fn test_delete_entity() {
    let mut st = setup();
    let id = create_entity(&mut st, "alice");
    assert!(delete_entity(&mut st, id));
    assert_eq!(get_label(&st, id), None);
    assert_eq!(get_id_by_label(&st, "alice"), None);
}

#[test]
fn test_set_label() {
    let mut st = setup();
    set_label(&mut st, 42, "answer");
    assert_eq!(get_label(&st, 42), Some("answer".to_string()));
    assert_eq!(get_id_by_label(&st, "answer"), Some(42));
}

#[test]
fn test_list_for_subject() {
    let mut st = setup();
    st.grant(1, 100, READ);
    st.grant(1, 101, WRITE);
    st.grant(1, 102, DELETE);
    assert_eq!(list_for_subject(&st, 1).len(), 3);
}

#[test]
fn test_list_for_object() {
    let mut st = setup();
    st.grant(1, 100, READ);
    st.grant(2, 100, WRITE);
    st.grant(3, 100, DELETE);
    st.grant(99, 100, VIEW);
    assert_eq!(list_for_object(&st, 99, 100).unwrap().len(), 4);
}

#[test]
fn test_count_functions() {
    let mut st = setup();
    st.grant(1, 100, READ);
    st.grant(1, 101, READ);
    st.grant(2, 100, READ);
    assert_eq!(count_for_subject(&st, 1), 2);
    assert_eq!(count_for_object(&st, 100), 2);
}

#[test]
fn test_grant_requires_permission_on_target() {
    let mut st = setup();
    let alice = 1u64;
    assert!(grant(&st, alice, 2, 100, READ).is_err());
    st.grant(alice, 100, GRANT);
    let op = grant(&st, alice, 2, 100, READ).unwrap();
    submit(&mut st, op);
    assert!(check(&st, 2, 100, READ));
}

#[test]
fn test_revoke_requires_permission_on_target() {
    let mut st = setup();
    st.grant(2, 100, READ);
    let alice = 1u64;
    assert!(revoke(&st, alice, 2, 100).is_err());
    st.grant(alice, 100, GRANT);
    let op = revoke(&st, alice, 2, 100).unwrap();
    submit(&mut st, op);
    assert!(!check(&st, 2, 100, READ));
}

#[test]
fn test_set_role_requires_admin_on_system() {
    let mut st = setup();
    let (system, _) = bootstrap(&mut st).unwrap();
    let alice = 1u64;
    assert!(set_role(&st, alice, 100, 1, READ | WRITE).is_err());
    st.grant(alice, system, ADMIN);
    let op = set_role(&st, alice, 100, 1, READ | WRITE).unwrap();
    submit(&mut st, op);
    assert_eq!(get_role(&st, 100, 1), READ | WRITE);
}

#[test]
fn test_inherit_requires_admin_on_system() {
    let mut st = setup();
    let (system, _) = bootstrap(&mut st).unwrap();
    let alice = 1u64;
    assert!(set_inherit(&st, alice, 100, 1, 2).is_err());
    assert!(remove_inherit(&st, alice, 100, 1).is_err());
    st.grant(alice, system, ADMIN);
    let op = set_inherit(&st, alice, 100, 1, 2).unwrap();
    submit(&mut st, op);
    assert_eq!(get_inherit(&st, 100, 1), Some(2));
    let op = remove_inherit(&st, alice, 100, 1).unwrap();
    submit(&mut st, op);
    assert_eq!(get_inherit(&st, 100, 1), None);
}

#[test]
fn test_list_requires_view_on_target() {
    let mut st = setup();
    st.grant(1, 100, READ);
    let alice = 2u64;
    assert!(list_for_object(&st, alice, 100).is_err());
    st.grant(alice, 100, VIEW);
    assert_eq!(list_for_object(&st, alice, 100).unwrap().len(), 2);
}

#[test]
fn test_adversarial_unprivileged_user() {
    let mut st = setup();
    let attacker = 999u64;
    assert!(grant(&st, attacker, 1, 100, READ).is_err());
    assert!(revoke(&st, attacker, 1, 100).is_err());
    assert!(set_role(&st, attacker, 100, 1, READ).is_err());
    assert!(set_inherit(&st, attacker, 100, 1, 2).is_err());
    assert!(list_for_object(&st, attacker, 100).is_err());
}

#[test]
fn test_adversarial_self_escalation() {
    let mut st = setup();
    let user = 1u64;
    st.grant(user, 100, VIEW);
    assert!(grant(&st, user, user, 100, GRANT).is_err());
    assert!(grant(&st, user, user, 100, ADMIN).is_err());
    assert!(check(&st, user, 100, VIEW));
    assert!(!check(&st, user, 100, GRANT));
}

#[test]
fn test_view_only_cannot_modify() {
    let mut st = setup();
    let viewer = 1u64;
    st.grant(viewer, 100, VIEW);
    st.grant(2, 100, READ);
    assert!(list_for_object(&st, viewer, 100).is_ok());
    assert!(grant(&st, viewer, 3, 100, READ).is_err());
    assert!(revoke(&st, viewer, 2, 100).is_err());
    assert!(set_role(&st, viewer, 100, 1, READ).is_err());
}

#[test]
fn test_separate_permission_bits() {
    let mut st = setup();
    let (system, _) = bootstrap(&mut st).unwrap();
    let granter = 1u64;
    let admin = 2u64;
    let viewer = 3u64;
    st.grant(granter, 100, GRANT);
    st.grant(admin, system, ADMIN);
    st.grant(viewer, 100, VIEW);
    let op = grant(&st, granter, 10, 100, READ).unwrap();
    submit(&mut st, op);
    let op = revoke(&st, granter, 10, 100).unwrap();
    submit(&mut st, op);
    assert!(set_role(&st, granter, 100, 1, READ).is_err());
    let op = set_role(&st, admin, 100, 1, READ).unwrap();
    submit(&mut st, op);
    let op = set_inherit(&st, admin, 100, 10, 20).unwrap();
    submit(&mut st, op);
    assert!(grant(&st, admin, 10, 100, READ).is_err());
    st.grant(10, 100, READ);
    list_for_object(&st, viewer, 100).unwrap();
    assert!(grant(&st, viewer, 11, 100, READ).is_err());
    assert!(set_role(&st, viewer, 100, 2, READ).is_err());
}

#[test]
fn test_bootstrap() {
    let mut st = setup();
    assert!(!is_bootstrapped(&st));
    assert_eq!(get_root_user(&st).unwrap(), None);
    let (system, root_user) = bootstrap(&mut st).unwrap();
    assert!(is_bootstrapped(&st));
    assert_eq!(get_root_user(&st).unwrap(), Some(root_user));
    assert_eq!(get_system(&st).unwrap(), system);
    assert!(check(&st, root_user, system, GRANT | ADMIN | VIEW));
    assert_eq!(get_label(&st, system), Some("_system".to_string()));
    assert_eq!(get_label(&st, root_user), Some("_root_user".to_string()));
}

#[test]
fn test_bootstrap_only_once() {
    let mut st = setup();
    bootstrap(&mut st).unwrap();
    assert_eq!(bootstrap(&mut st).unwrap_err().0, "Already bootstrapped");
}

#[test]
fn not_bootstrapped_system_error() {
    let st = setup();
    assert_eq!(get_system(&st).unwrap_err().0, "Not bootstrapped");
}

#[test]
fn test_caps_to_names() {
    let names = caps_to_names(READ | WRITE | ADMIN);
    assert!(names.contains(&"read"));
    assert!(names.contains(&"write"));
    assert!(names.contains(&"admin"));
    assert!(!names.contains(&"delete"));
}

#[test]
fn test_names_to_caps() {
    let mask = names_to_caps(&["read", "write", "admin"]);
    assert_eq!(mask, READ | WRITE | ADMIN);
}

#[test]
fn test_constants_are_distinct() {
    let all = [READ, WRITE, DELETE, CREATE, GRANT, EXECUTE, VIEW, ADMIN];
    for i in 0..all.len() {
        for j in (i + 1)..all.len() {
            assert_eq!(all[i] & all[j], 0);
        }
    }
}

#[test]
fn test_constant_values() {
    assert_eq!(READ, 1);
    assert_eq!(WRITE, 2);
    assert_eq!(DELETE, 4);
    assert_eq!(CREATE, 8);
    assert_eq!(GRANT, 16);
    assert_eq!(EXECUTE, 32);
    assert_eq!(VIEW, 1 << 62);
    assert_eq!(ADMIN, 1 << 63);
}

#[test]
fn test_check_zero_required() {
    let st = setup();
    assert!(check(&st, 1, 100, 0));
}

#[test]
fn test_get_mask_empty() {
    let st = setup();
    assert_eq!(get_mask(&st, 999, 999), 0);
}

#[test]
fn test_grant_idempotent() {
    let mut st = setup();
    st.grant(1, 100, READ | WRITE);
    st.grant(1, 100, READ | WRITE);
    assert_eq!(get_mask(&st, 1, 100), READ | WRITE);
}

#[test]
fn test_role_fallback_to_mask() {
    let mut st = setup();
    st.grant(1, 100, READ | WRITE);
    assert!(check(&st, 1, 100, READ | WRITE));
}

#[test]
fn test_role_per_object_scoped() {
    let mut st = setup();
    st.set_role(100, 1, READ | WRITE | DELETE);
    st.set_role(101, 1, READ);
    st.grant(1, 100, 1);
    st.grant(1, 101, 1);
    assert!(check(&st, 1, 100, DELETE));
    assert!(!check(&st, 1, 101, DELETE));
}

#[test]
fn test_get_role_undefined() {
    let st = setup();
    assert_eq!(get_role(&st, 100, 99), 99);
}

#[test]
fn test_inherit_combines_with_direct() {
    let mut st = setup();
    st.grant(1, 100, READ);
    st.grant(1000, 100, WRITE);
    st.set_inherit(100, 1, 1000).unwrap();
    assert_eq!(get_mask(&st, 1, 100), READ | WRITE);
}

#[test]
fn test_inherit_dynamic_updates() {
    let mut st = setup();
    st.grant(1000, 100, READ | WRITE);
    st.set_inherit(100, 1, 1000).unwrap();
    assert!(check(&st, 1, 100, READ | WRITE));
    st.revoke(1000, 100);
    assert!(!check(&st, 1, 100, READ));
}

#[test]
fn test_inherit_per_object_scoped() {
    let mut st = setup();
    st.grant(1000, 100, READ);
    st.grant(1000, 101, WRITE);
    st.set_inherit(100, 1, 1000).unwrap();
    assert!(check(&st, 1, 100, READ));
    assert!(!check(&st, 1, 101, WRITE));
}

#[test]
fn test_cycle_allowed_different_objects() {
    let mut st = setup();
    st.set_inherit(100, 1, 2).unwrap();
    st.set_inherit(101, 2, 1).unwrap();
}

#[test]
fn test_cycle_allowed_after_remove() {
    let mut st = setup();
    st.set_inherit(100, 1, 2).unwrap();
    st.set_inherit(100, 2, 3).unwrap();
    st.remove_inherit(100, 1);
    st.set_inherit(100, 3, 1).unwrap();
}

#[test]
fn test_label_unicode() {
    let mut st = setup();
    set_label(&mut st, 1, "日本語");
    set_label(&mut st, 2, "🎉");
    assert_eq!(get_label(&st, 1), Some("日本語".to_string()));
    assert_eq!(get_label(&st, 2), Some("🎉".to_string()));
}

#[test]
fn test_label_update() {
    let mut st = setup();
    set_label(&mut st, 1, "alice");
    set_label(&mut st, 1, "alicia");
    assert_eq!(get_label(&st, 1), Some("alicia".to_string()));
}

#[test]
fn test_list_labels() {
    let mut st = setup();
    set_label(&mut st, 100, "alice");
    set_label(&mut st, 101, "bob");
    assert!(list_labels(&st).len() >= 2);
}

#[test]
fn test_inherit_admin_from_org() {
    let mut st = setup();
    let (system, _) = bootstrap(&mut st).unwrap();
    let org = 10u64;
    let user = 1u64;
    st.grant(org, system, ADMIN);
    st.set_inherit(system, user, org).unwrap();
    let op = set_role(&st, user, 100, 1, READ | WRITE).unwrap();
    submit(&mut st, op);
    assert_eq!(get_role(&st, 100, 1), READ | WRITE);
    let op = set_inherit(&st, user, 100, 5, 6).unwrap();
    submit(&mut st, op);
    assert_eq!(get_inherit(&st, 100, 5), Some(6));
}

#[test]
fn test_inherit_grant_from_org() {
    let mut st = setup();
    let org = 10u64;
    let user = 1u64;
    let doc = 100u64;
    st.grant(org, doc, GRANT);
    st.set_inherit(doc, user, org).unwrap();
    let op = grant(&st, user, 50, doc, READ).unwrap();
    submit(&mut st, op);
    assert!(check(&st, 50, doc, READ));
    let op = revoke(&st, user, 50, doc).unwrap();
    submit(&mut st, op);
    assert!(!check(&st, 50, doc, READ));
}

#[test]
fn test_inherit_view_from_org() {
    let mut st = setup();
    let org = 10u64;
    let user = 1u64;
    let doc = 100u64;
    st.grant(50, doc, READ);
    st.grant(51, doc, WRITE);
    st.grant(org, doc, VIEW);
    st.set_inherit(doc, user, org).unwrap();
    assert!(list_for_object(&st, user, doc).unwrap().len() >= 2);
}

#[test]
fn test_revoke_org_cascades_to_users() {
    let mut st = setup();
    let (system, _) = bootstrap(&mut st).unwrap();
    let org = 10u64;
    let user = 1u64;
    st.grant(org, system, ADMIN);
    st.set_inherit(system, user, org).unwrap();
    assert!(set_role(&st, user, 100, 1, READ).is_ok());
    st.revoke(org, system);
    assert!(set_role(&st, user, 100, 2, WRITE).is_err());
}

#[test]
fn denial_message_names_actor_bits_and_object() {
    let mut st = setup();
    assert_eq!(grant(&st, 7, 1, 100, READ).unwrap_err().0, "7 lacks 10 on 100");
    assert_eq!(set_role(&st, 7, 100, 1, READ).unwrap_err().0, "7 lacks 8000000000000000 on _system");
}

#[test]
fn batch_merges_grants_per_pair() {
    let mut st = setup();
    let mut b = Batch::new();
    b.add(Op::Grant { subject: 1, object: 100, mask: READ });
    b.add(Op::Grant { subject: 1, object: 100, mask: WRITE });
    assert_eq!(b.len(), 2);
    b.flush(&mut st).unwrap();
    assert!(b.is_empty());
    assert_eq!(get_mask(&st, 1, 100), READ | WRITE);
}

#[test]
fn batch_revoke_cancels_pending_grant() {
    let mut st = setup();
    let mut b = Batch::new();
    b.add(Op::Grant { subject: 1, object: 100, mask: READ });
    b.add(Op::Revoke { subject: 1, object: 100 });
    b.flush(&mut st).unwrap();
    assert_eq!(get_mask(&st, 1, 100), 0);
}

#[test]
fn batch_applies_grants_before_revokes() {
    let mut st = setup();
    st.grant(1, 100, READ);
    let mut b = Batch::new();
    b.add(Op::Revoke { subject: 1, object: 100 });
    b.add(Op::Grant { subject: 1, object: 100, mask: WRITE });
    b.flush(&mut st).unwrap();
    assert_eq!(get_mask(&st, 1, 100), 0);
}

#[test]
fn refused_link_drops_the_whole_batch() {
    let mut st = setup();
    st.set_inherit(100, 1, 2).unwrap();
    let mut b = Batch::new();
    b.add(Op::Grant { subject: 5, object: 100, mask: READ });
    b.add(Op::SetInherit { object: 100, child: 2, parent: 1 });
    assert_eq!(b.flush(&mut st).unwrap_err().0, "Circular reference");
    assert!(b.is_empty());
    assert_eq!(get_mask(&st, 5, 100), 0);
    assert_eq!(get_inherit(&st, 100, 2), None);
}

#[test]
fn refused_flush_keeps_pending_link_removals() {
    let mut st = setup();
    st.set_inherit(100, 7, 8).unwrap();
    let mut b = Batch::new();
    b.add(Op::RemoveInherit { object: 100, child: 7 });
    b.add(Op::SetInherit { object: 100, child: 1, parent: 1 });
    assert_eq!(b.flush(&mut st).unwrap_err().0, "Cannot reference self");
    assert_eq!(get_inherit(&st, 100, 7), Some(8));
    b.add(Op::Grant { subject: 9, object: 100, mask: READ });
    b.flush(&mut st).unwrap();
    assert_eq!(get_inherit(&st, 100, 7), None);
    assert!(check(&st, 9, 100, READ));
}

#[test]
fn empty_batch_flush_does_nothing() {
    let mut st = setup();
    let mut b = Batch::new();
    b.flush(&mut st).unwrap();
    assert_eq!(get_mask(&st, 1, 1), 0);
}

#[test]
fn adaptive_threshold_grows_and_shrinks() {
    let mut a = Adaptive::new();
    assert!(a.should_flush(200, 0));
    assert!(!a.should_flush(199, 19));
    assert!(a.should_flush(0, 20));
    for _ in 0..8 {
        a.record(200, false);
    }
    assert!(!a.should_flush(299, 0));
    assert!(a.should_flush(300, 0));
    for _ in 0..8 {
        a.record(1, true);
    }
    assert!(!a.should_flush(199, 0));
    assert!(a.should_flush(200, 0));
}

#[test]
fn write_checks_give_operations() {
    let mut st = setup();
    st.grant(1, 100, GRANT);
    assert!(matches!(grant(&st, 1, 2, 100, READ), Ok(Op::Grant { subject: 2, object: 100, mask: READ })));
    assert!(matches!(revoke(&st, 1, 2, 100), Ok(Op::Revoke { subject: 2, object: 100 })));
}

#[test]
fn key_is_two_big_endian_ids() {
    assert_eq!(
        capbit::db::key(1, 0x0102),
        [0, 0, 0, 0, 0, 0, 0, 1, 0, 0, 0, 0, 0, 0, 1, 2]
    );
}
