use capbit::capbit::Capbit;
use capbit::policy::{
    app_bit, Error, Policy, ADMIN_BITS, APP_BITS, APP_READ, APP_WRITE, META_BITS, OP_GRANT, OP_REVOKE,
    OWNER_BITS, VIEWER_BITS, _ADMIN, _DEFINE, _EDITOR, _GRANT, _MEMBER, _ROOT, _SYSTEM, _VIEWER,
};

const NOW: u64 = 1_700_000_000_000;

fn setup() -> (Capbit, u64, u64) {
    let mut cb = Capbit::new();
    let (sys, root) = cb.bootstrap(NOW).unwrap();
    (cb, sys, root)
}

#[test]
fn bootstrap_once() {
    let (mut cb, sys, root) = setup();
    assert_eq!((sys, root), (_SYSTEM, _ROOT));
    assert!(cb.check(root, sys, OWNER_BITS));
    assert_eq!(cb.bootstrap(NOW), Err(Error::Exists));
}

#[test]
fn grant_revoke_check() {
    let (mut cb, sys, root) = setup();
    cb.grant(root, 10, sys, _VIEWER, Policy::Necessary, NOW).unwrap();
    assert_eq!(cb.check_subject(10, sys, _VIEWER), Some(Policy::Necessary));
    assert!(cb.check(10, sys, VIEWER_BITS));
    assert!(!cb.check(10, sys, _GRANT));
    cb.revoke(root, 10, sys, _VIEWER, NOW).unwrap();
    assert_eq!(cb.check_subject(10, sys, _VIEWER), None);
    assert!(!cb.check(10, sys, VIEWER_BITS));
}

#[test]
fn undefined_role_grants_nothing() {
    let (mut cb, sys, root) = setup();
    assert_eq!(cb.grant(root, 10, sys, u64::MAX, Policy::Necessary, NOW), Err(Error::NotFound));
}

#[test]
fn deleted_role_cascades_grants() {
    let (mut cb, sys, root) = setup();
    cb.define_role(root, sys, 100, APP_READ, NOW).unwrap();
    cb.grant(root, 10, sys, 100, Policy::Necessary, NOW).unwrap();
    assert!(cb.check(10, sys, APP_READ));
    cb.delete_role(root, sys, 100, NOW).unwrap();
    assert_eq!(cb.check_subject(10, sys, 100), None);
    assert_eq!(cb.get_mask(10, sys), 0);
}

#[test]
fn create_object_breaks_deadlock() {
    let (mut cb, _sys, root) = setup();
    cb.create_object(root, 50, NOW).unwrap();
    assert!(cb.check(root, 50, OWNER_BITS));
    cb.define_role(root, 50, 100, APP_READ | APP_WRITE, NOW).unwrap();
    cb.grant(root, 10, 50, 100, Policy::Necessary, NOW).unwrap();
    assert!(cb.check(10, 50, APP_READ | APP_WRITE));
    assert_eq!(cb.create_object(root, 50, NOW), Err(Error::Exists));
    assert_eq!(cb.create_object(10, 60, NOW), Err(Error::Denied));
}

#[test]
fn deny_overrides() {
    let (mut cb, sys, root) = setup();
    cb.grant(root, 10, sys, _EDITOR, Policy::Necessary, NOW).unwrap();
    assert!(cb.check(10, sys, APP_WRITE));
    cb.grant(root, 10, sys, _VIEWER, Policy::Not, NOW).unwrap();
    let m = cb.get_masks(10, sys);
    assert_eq!(m.denied & APP_READ, APP_READ);
    assert!(!cb.check(10, sys, APP_READ));
    assert!(cb.check(10, sys, APP_WRITE));
}

#[test]
fn possible_vs_necessary_buckets() {
    let (mut cb, sys, root) = setup();
    cb.grant(root, 10, sys, _EDITOR, Policy::Possible, NOW).unwrap();
    cb.grant(root, 10, sys, _VIEWER, Policy::Necessary, NOW).unwrap();
    let m = cb.get_masks(10, sys);
    assert_eq!(m.necessary & APP_READ, APP_READ);
    assert_eq!(m.possible & APP_WRITE, APP_WRITE);
    assert!(cb.check(10, sys, APP_READ | APP_WRITE));
}

#[test]
fn groups_basic() {
    let (mut cb, _sys, root) = setup();
    cb.create_object(root, 50, NOW).unwrap();
    cb.create_object(root, 90, NOW).unwrap();
    cb.add_member(root, 10, 90, Policy::Necessary, NOW).unwrap();
    cb.grant(root, 90, 50, _EDITOR, Policy::Necessary, NOW).unwrap();
    assert!(cb.check(10, 50, APP_WRITE));
    cb.remove_member(root, 10, 90, NOW).unwrap();
    assert!(!cb.check(10, 50, APP_WRITE));
}

#[test]
fn nested_groups_and_attenuation() {
    let (mut cb, _sys, root) = setup();
    cb.create_object(root, 50, NOW).unwrap();
    cb.create_object(root, 90, NOW).unwrap();
    cb.create_object(root, 91, NOW).unwrap();
    cb.add_member(root, 10, 90, Policy::Necessary, NOW).unwrap();
    cb.add_member(root, 90, 91, Policy::Possible, NOW).unwrap();
    cb.grant(root, 91, 50, _EDITOR, Policy::Necessary, NOW).unwrap();
    let m = cb.get_masks(10, 50);
    assert_eq!(m.possible & APP_WRITE, APP_WRITE);
    assert_eq!(m.necessary & APP_WRITE, 0);
    let groups = cb.groups_of(10, 10).unwrap();
    assert!(groups.contains(&(90, Policy::Necessary)));
    assert!(groups.contains(&(91, Policy::Possible)));
}

#[test]
fn deny_membership_excludes() {
    let (mut cb, _sys, root) = setup();
    cb.create_object(root, 50, NOW).unwrap();
    cb.create_object(root, 90, NOW).unwrap();
    cb.create_object(root, 91, NOW).unwrap();
    cb.add_member(root, 10, 90, Policy::Necessary, NOW).unwrap();
    cb.add_member(root, 11, 90, Policy::Necessary, NOW).unwrap();
    cb.add_member(root, 90, 91, Policy::Necessary, NOW).unwrap();
    cb.grant(root, 91, 50, _EDITOR, Policy::Necessary, NOW).unwrap();
    assert!(cb.check(10, 50, APP_WRITE));
    cb.add_member(root, 10, 91, Policy::Not, NOW).unwrap();
    assert!(!cb.check(10, 50, APP_WRITE));
    assert!(cb.check(11, 50, APP_WRITE));
    assert!(cb.groups_of(10, 10).unwrap().contains(&(91, Policy::Not)));
}

#[test]
fn membership_cycles_rejected() {
    let (mut cb, _sys, root) = setup();
    cb.create_object(root, 90, NOW).unwrap();
    cb.create_object(root, 91, NOW).unwrap();
    cb.add_member(root, 90, 91, Policy::Necessary, NOW).unwrap();
    assert_eq!(cb.add_member(root, 91, 90, Policy::Necessary, NOW), Err(Error::Cycle));
    assert_eq!(cb.add_member(root, 90, 90, Policy::Necessary, NOW), Err(Error::Cycle));
}

#[test]
fn group_grants_compose_with_role_policy() {
    let (mut cb, _sys, root) = setup();
    cb.create_object(root, 50, NOW).unwrap();
    cb.create_object(root, 90, NOW).unwrap();
    cb.add_member(root, 10, 90, Policy::Necessary, NOW).unwrap();
    cb.grant(root, 90, 50, _VIEWER, Policy::Not, NOW).unwrap();
    cb.grant(root, 10, 50, _EDITOR, Policy::Necessary, NOW).unwrap();
    assert!(!cb.check(10, 50, APP_READ));
    assert!(cb.check(10, 50, APP_WRITE));
}

#[test]
fn delegation_actually_delegates() {
    let (mut cb, _sys, root) = setup();
    cb.create_object(root, 50, NOW).unwrap();
    cb.grant(root, 20, 50, _EDITOR, Policy::Necessary, NOW).unwrap();
    cb.delegate(root, 10, 50, _EDITOR, 20, Policy::Necessary, NOW).unwrap();
    assert!(cb.check(10, 50, APP_WRITE));
    cb.delegate(root, 11, 50, _EDITOR, 10, Policy::Possible, NOW).unwrap();
    let m = cb.get_masks(11, 50);
    assert_eq!(m.possible & APP_WRITE, APP_WRITE);
    assert_eq!(m.necessary & APP_WRITE, 0);
    cb.revoke(root, 20, 50, _EDITOR, NOW).unwrap();
    assert!(!cb.check(10, 50, APP_WRITE));
    assert!(!cb.check(11, 50, APP_WRITE));
}

#[test]
fn delegation_cycles_rejected() {
    let (mut cb, _sys, root) = setup();
    cb.create_object(root, 50, NOW).unwrap();
    cb.delegate(root, 10, 50, _EDITOR, 20, Policy::Necessary, NOW).unwrap();
    assert_eq!(cb.delegate(root, 20, 50, _EDITOR, 10, Policy::Necessary, NOW), Err(Error::Cycle));
    assert_eq!(cb.delegate(root, 30, 50, _EDITOR, 30, Policy::Necessary, NOW), Err(Error::Cycle));
}

#[test]
fn delegation_from_group_granted_parent() {
    let (mut cb, _sys, root) = setup();
    cb.create_object(root, 50, NOW).unwrap();
    cb.create_object(root, 90, NOW).unwrap();
    cb.add_member(root, 20, 90, Policy::Necessary, NOW).unwrap();
    cb.grant(root, 90, 50, _EDITOR, Policy::Necessary, NOW).unwrap();
    cb.delegate(root, 10, 50, _EDITOR, 20, Policy::Necessary, NOW).unwrap();
    assert!(cb.check(10, 50, APP_WRITE));
}

#[test]
fn type_as_object() {
    let (mut cb, _sys, root) = setup();
    cb.create_object(root, 70, NOW).unwrap();
    cb.create_object(root, 51, NOW).unwrap();
    cb.define_role(root, 70, 100, APP_READ, NOW).unwrap();
    cb.set_parent(root, 51, 70, NOW).unwrap();
    cb.grant(root, 10, 51, 100, Policy::Necessary, NOW).unwrap();
    assert!(cb.check(10, 51, APP_READ));
    cb.update_role(root, 70, 100, APP_READ | APP_WRITE, NOW).unwrap();
    assert!(cb.check(10, 51, APP_WRITE));
    cb.define_role(root, 51, 100, APP_READ, NOW).unwrap();
    assert!(!cb.check(10, 51, APP_WRITE));
    assert_eq!(cb.set_parent(root, 70, 51, NOW), Err(Error::Cycle));
}

#[test]
fn self_governance() {
    let (mut cb, sys, root) = setup();
    assert_eq!(cb.grant(99, 10, sys, _VIEWER, Policy::Necessary, NOW), Err(Error::Denied));
    cb.grant(root, 99, sys, _VIEWER, Policy::Necessary, NOW).unwrap();
    assert_eq!(cb.grant(99, 10, sys, _VIEWER, Policy::Necessary, NOW), Err(Error::Denied));
    cb.grant(root, 99, sys, _ADMIN, Policy::Necessary, NOW).unwrap();
    cb.grant(99, 10, sys, _VIEWER, Policy::Necessary, NOW).unwrap();
    assert!(cb.check(10, sys, APP_READ));
    assert_eq!(cb.define_role(99, sys, 100, APP_READ, NOW), Err(Error::Denied));
}

#[test]
fn population_algebra() {
    let (mut cb, _sys, root) = setup();
    cb.create_object(root, 90, NOW).unwrap();
    cb.create_object(root, 91, NOW).unwrap();
    for m in [10, 11, 12] {
        cb.add_member(root, m, 90, Policy::Necessary, NOW).unwrap();
    }
    for m in [11, 12, 13] {
        cb.add_member(root, m, 91, Policy::Necessary, NOW).unwrap();
    }
    assert_eq!(cb.population_intersect(root, 90, 91).unwrap(), vec![11, 12]);
    assert_eq!(cb.population_subtract(root, 90, 91).unwrap(), vec![10]);
    let members = cb.members_of(root, 90, None, 100).unwrap();
    assert_eq!(members.len(), 3);
    let page = cb.members_of(root, 90, Some(10), 100).unwrap();
    assert_eq!(page.iter().map(|(m, _)| *m).collect::<Vec<_>>(), vec![11, 12]);
}

#[test]
fn list_subjects_paginated() {
    let (mut cb, _sys, root) = setup();
    cb.create_object(root, 50, NOW).unwrap();
    for s in [10, 11, 12, 13] {
        cb.grant(root, s, 50, _VIEWER, Policy::Necessary, NOW).unwrap();
    }
    let p1 = cb.list_subjects(root, 50, None, 3).unwrap();
    assert_eq!(p1.len(), 3);
    let last = p1.last().unwrap().0;
    let p2 = cb.list_subjects(root, 50, Some(last), 10).unwrap();
    assert_eq!(p1.len() + p2.len(), 5);
}

#[test]
fn delete_object_cascades() {
    let (mut cb, _sys, root) = setup();
    cb.create_object(root, 50, NOW).unwrap();
    cb.create_object(root, 90, NOW).unwrap();
    cb.add_member(root, 10, 90, Policy::Necessary, NOW).unwrap();
    cb.grant(root, 90, 50, _EDITOR, Policy::Necessary, NOW).unwrap();
    assert!(cb.check(10, 50, APP_WRITE));
    cb.delete_object(root, 90, NOW).unwrap();
    assert!(!cb.check(10, 50, APP_WRITE));
    assert!(cb.groups_of(10, 10).unwrap().is_empty());
    assert!(cb.list_grants(10, 10).unwrap().is_empty());
}

#[test]
fn audit_log() {
    let (mut cb, sys, root) = setup();
    cb.grant(root, 10, sys, _VIEWER, Policy::Necessary, NOW).unwrap();
    cb.revoke(root, 10, sys, _VIEWER, NOW).unwrap();
    let log = cb.audit_read(root, None, 100).unwrap();
    assert_eq!(log.len(), 3);
    assert_eq!(log[1].op, OP_GRANT);
    assert_eq!(log[1].args, [10, sys, _VIEWER, Policy::Necessary.to_u64()]);
    assert_eq!(log[2].op, OP_REVOKE);
    assert_eq!(cb.audit_read(10, None, 100), Err(Error::Denied));
    let tail = cb.audit_read(root, Some(log[0].seq), 100).unwrap();
    assert_eq!(tail.len(), 2);
}

#[test]
fn meta_and_app_bits_disjoint() {
    assert_eq!(META_BITS & APP_BITS, 0);
    assert_eq!(META_BITS | APP_BITS, u64::MAX);
    assert_eq!(ADMIN_BITS & _DEFINE, 0);
    assert_eq!(app_bit(0) & META_BITS, 0);
}

#[test]
fn closure_rows_skip_groups_behind_exclusions() {
    let (mut cb, _sys, root) = setup();
    for g in [90, 91, 92, 93] {
        cb.create_object(root, g, NOW).unwrap();
    }
    cb.add_member(root, 10, 90, Policy::Necessary, NOW).unwrap();
    cb.add_member(root, 90, 91, Policy::Not, NOW).unwrap();
    cb.add_member(root, 10, 91, Policy::Necessary, NOW).unwrap();
    cb.add_member(root, 91, 92, Policy::Necessary, NOW).unwrap();
    assert_eq!(cb.groups_of(10, 10).unwrap(), vec![(90, Policy::Necessary), (91, Policy::Not)]);
    // 10 reaches 92 only through the excluded 91, so it has no row for 92 and
    // is not rebuilt when 92's edges change.
    cb.add_member(root, 92, 93, Policy::Not, NOW).unwrap();
    assert_eq!(cb.groups_of(10, 10).unwrap(), vec![(90, Policy::Necessary), (91, Policy::Not)]);
    // Rebuilding 10 picks the exclusion up.
    cb.add_member(root, 10, 90, Policy::Necessary, NOW).unwrap();
    assert_eq!(
        cb.groups_of(10, 10).unwrap(),
        vec![(90, Policy::Necessary), (91, Policy::Not), (93, Policy::Not)]
    );
}

#[test]
fn deleting_membership_role_rebuilds_members() {
    let (mut cb, _sys, root) = setup();
    for g in [90, 91] {
        cb.create_object(root, g, NOW).unwrap();
    }
    cb.add_member(root, 10, 90, Policy::Necessary, NOW).unwrap();
    cb.add_member(root, 90, 91, Policy::Possible, NOW).unwrap();
    assert_eq!(cb.groups_of(10, 10).unwrap(), vec![(90, Policy::Necessary), (91, Policy::Possible)]);
    cb.delete_role(root, 91, _MEMBER, NOW).unwrap();
    assert_eq!(cb.groups_of(10, 10).unwrap(), vec![(90, Policy::Necessary)]);
    assert_eq!(cb.groups_of(root, 90).unwrap(), vec![]);
    assert_eq!(cb.members_of(root, 91, None, 100).unwrap().len(), 0);
}

#[test]
fn deleting_membership_keeps_self_exclusion_row() {
    let (mut cb, _sys, root) = setup();
    for g in [90, 91] {
        cb.create_object(root, g, NOW).unwrap();
    }
    // 90 excludes 91, then 91 joins 90: 91 excludes itself through 90.
    cb.add_member(root, 90, 91, Policy::Not, NOW).unwrap();
    cb.add_member(root, 91, 90, Policy::Necessary, NOW).unwrap();
    assert_eq!(cb.groups_of(root, 91).unwrap(), vec![(90, Policy::Necessary), (91, Policy::Not)]);
    // Deleting membership on 91 drops the exclusion, but 91's own rows are not
    // rebuilt, so its row on itself stays.
    cb.delete_role(root, 91, _MEMBER, NOW).unwrap();
    assert_eq!(cb.groups_of(root, 91).unwrap(), vec![(90, Policy::Necessary), (91, Policy::Not)]);
}

#[test]
fn redefined_role_does_not_resurrect_grants() {
    let (mut cb, sys, root) = setup();
    cb.define_role(root, sys, 100, APP_READ, NOW).unwrap();
    cb.grant(root, 10, sys, 100, Policy::Necessary, NOW).unwrap();
    cb.delete_role(root, sys, 100, NOW).unwrap();
    cb.define_role(root, sys, 100, APP_READ, NOW).unwrap();
    assert_eq!(cb.check_subject(10, sys, 100), None);
    assert!(!cb.check(10, sys, APP_READ));
}
