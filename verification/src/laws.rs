//! Properties of the library as a whole, stated over the models the
//! operations' contracts use.
use vstd::prelude::*;
use crate::constants::{ADMIN, GRANT, ROLE_FULL, ROOT_USER_ID, SYSTEM_ID, VIEW};
use crate::graph::{
    Graph, WriteOp, both, capability_set, entity_deleted, grant_union, inheritance_set, lemma_collect_has, op_applied, pack,
    relationship_set, relationship_deleted, runs, step_ok, then_label,
};
use crate::mask_store::MaskStore;
use crate::model::{CapbitView, closed_in, closure_in, denied_in, grant_in, mirrored, reach_in, step_in, swap01};
use crate::policy::{MAX_TYPE_DEPTH, Policy, _MEMBER, lemma_pmin_attenuates, pmin};
use crate::read::{chain_mask, effective_mask, role_bits};
use crate::table::{Key, as_map, key_lt, opt_get, sorted};
use crate::auth::{AuthView, Key4, password_digest};
use crate::planner::{BatchView, Grants, Op, grants_of, op_apply, ops_apply, pending_ops};

verus! {

/// Denied bits override: no bit contributed at `Not` is allowed, at any
/// strength.
pub proof fn lemma_denied_overrides(v: CapbitView, sub: u64, obj: u64)
    ensures
        v.allowed(sub, obj) & v.masks(sub, obj).denied == 0,
        v.masks(sub, obj).necessary & v.masks(sub, obj).denied == 0,
        v.masks(sub, obj).possible & v.masks(sub, obj).denied == 0,
{
    let m = v.masks(sub, obj);
    let c = v.contributions(sub, obj);
    let n = crate::model::or_of(c, Policy::Necessary);
    let p = crate::model::or_of(c, Policy::Possible);
    let d = m.denied;
    lemma_mask_facts();
    assert(((n & !d) | (p & !d)) & d == 0);
    assert((n & !d) & d == 0);
    assert((p & !d) & d == 0);
}

/// A delegation chain only attenuates: what it resolves to is never stronger
/// than the strength it started with, nor than any link it passed.
pub proof fn lemma_chain_attenuates(
    v: CapbitView,
    obj: u64,
    role: u64,
    cur: u64,
    strength: Policy,
    seen: Seq<u64>,
    fuel: nat,
)
    ensures
        v.chain(obj, role, cur, strength, seen, fuel) matches Some(p) ==> p.level() <= strength.level(),
    decreases fuel,
{
    if fuel > 0 && !seen.contains(cur) {
        match v.grant_of(cur, obj, role) {
            Some(p) => {
                lemma_pmin_attenuates(strength, p);
            },
            None => match v.best_fold(v.groups_rows(cur), obj, role) {
                Some(b) => {
                    lemma_pmin_attenuates(strength, b);
                },
                None => match v.deleg_of(cur, obj, role) {
                    Some(d) => {
                        if d.1 != Policy::Not {
                            lemma_pmin_attenuates(strength, d.1);
                            lemma_chain_attenuates(
                                v,
                                obj,
                                role,
                                d.0,
                                pmin(strength, d.1),
                                seen.push(cur),
                                (fuel - 1) as nat,
                            );
                        }
                    },
                    None => {},
                },
            },
        }
    }
}

/// A delegated role resolves at most at the delegation's own strength, and a
/// `Not` delegation resolves to nothing.
pub proof fn lemma_delegation_attenuates(v: CapbitView, sub: u64, obj: u64, role: u64, parent: u64, pol: Policy)
    ensures
        v.resolve_delegation(sub, obj, role, parent, pol) matches Some(p) ==> p.level() <= pol.level(),
        pol == Policy::Not ==> v.resolve_delegation(sub, obj, role, parent, pol) is None,
{
    lemma_chain_attenuates(v, obj, role, parent, pol, seq![sub], crate::policy::MAX_DELEGATION_HOPS as nat);
}

/// After bootstrap the root user holds GRANT, ADMIN and VIEW on the system
/// object, whenever it held no other role there and inherits from no one
/// there: the full role is defined as exactly those bits.
pub proof fn lemma_bootstrap_root(st: MaskStore)
    requires
        st.cap(ROOT_USER_ID, SYSTEM_ID) == Some(ROLE_FULL),
        st.role_mask(SYSTEM_ID, ROLE_FULL) == Some(GRANT | ADMIN | VIEW),
        st.parent(SYSTEM_ID, ROOT_USER_ID) is None,
    ensures
        effective_mask(&st, ROOT_USER_ID, SYSTEM_ID) == GRANT | ADMIN | VIEW,
{
    assert(role_bits(&st, ROOT_USER_ID, SYSTEM_ID) == GRANT | ADMIN | VIEW);
    assert(0u64 | (16u64 | 0x8000_0000_0000_0000u64 | 0x4000_0000_0000_0000u64) == 16u64
        | 0x8000_0000_0000_0000u64 | 0x4000_0000_0000_0000u64) by (bit_vector);
    assert(chain_mask(&st, 0, ROOT_USER_ID, SYSTEM_ID, 10) == 0 | role_bits(&st, ROOT_USER_ID, SYSTEM_ID));
}

/// Deleting an entity leaves no grant, delegation or capability that names it.
pub proof fn lemma_cascade_complete(pre: Graph, post: Graph, tid: u32, eid: u32)
    requires
        entity_deleted(pre, post, tid, eid),
    ensures
        forall|k: Key| #[trigger] post.grants_map().contains_key(k) ==> k.0 != pack(tid, eid) && k.1 != pack(tid, eid),
        forall|k: Key| #[trigger] post.inherits_map().contains_key(k) ==> k.0 != pack(tid, eid) && k.1 != pack(tid, eid)
            && k.2 != pack(tid, eid),
        forall|k: Key| #[trigger] post.caps_map().contains_key(k) ==> k.0 != pack(tid, eid),
{
    let p = pack(tid, eid);
    assert forall|k: Key| #[trigger] post.grants_map().contains_key(k) implies k.0 != p && k.1 != p by {
        assert(opt_get(post.grants_map(), k) is Some);
    }
    assert forall|k: Key| #[trigger] post.inherits_map().contains_key(k) implies k.0 != p && k.1 != p && k.2 != p by {
        assert(opt_get(post.inherits_map(), k) is Some);
    }
    assert forall|k: Key| #[trigger] post.caps_map().contains_key(k) implies k.0 != p by {
        assert(opt_get(post.caps_map(), k) is Some);
    }
}

proof fn lemma_or_keeps(a: u64, b: u64)
    ensures
        (a | b) & a == a,
        (a | b) & b == b,
{
    assert((a | b) & a == a) by (bit_vector);
    assert((a | b) & b == b) by (bit_vector);
}

proof fn lemma_and_trans(x: u64, y: u64, z: u64)
    requires
        x & y == y,
        y & z == z,
    ensures
        x & z == z,
{
    assert(x & y == y && y & z == z ==> x & z == z) by (bit_vector);
}

/// The union of grant bits only adds to what it starts from.
pub proof fn lemma_grant_union_keeps(
    caps: Map<Key, u64>,
    rows: Seq<(Key, u64)>,
    acc: u64,
    x: u64,
    po: u64,
    ts: Option<u64>,
)
    ensures
        grant_union(caps, rows, acc, x, po, ts) & acc == acc,
    decreases rows.len(),
{
    if rows.len() == 0 {
        assert(acc & acc == acc) by (bit_vector);
    } else {
        lemma_grant_union_keeps(caps, rows.drop_last(), acc, x, po, ts);
        let prev = grant_union(caps, rows.drop_last(), acc, x, po, ts);
        match crate::graph::grant_bits(caps, rows.last(), x, po, ts) {
            Some(b) => {
                lemma_or_keeps(prev, b);
                lemma_and_trans(prev | b, prev, acc);
            },
            None => {},
        }
    }
}

/// The access walk only adds bits: its result keeps every bit of `acc`.
pub proof fn lemma_walk_keeps(
    g: Graph,
    po: u64,
    ts: Option<u64>,
    limit: usize,
    stack: Seq<(u64, usize)>,
    visited: Set<u64>,
    acc: u64,
)
    ensures
        g.walk(po, ts, limit, stack, visited, acc) & acc == acc,
    decreases stack.len() + crate::graph::pending(g.inherit_rows(), visited, po),
{
    if stack.len() == 0 {
        assert(acc & acc == acc) by (bit_vector);
    } else {
        let (x, d) = stack.last();
        let rest = stack.drop_last();
        if visited.contains(x) {
            lemma_walk_keeps(g, po, ts, limit, rest, visited, acc);
        } else {
            let acc2 = grant_union(g.caps_map(), g.grant_rows(), acc, x, po, ts);
            let kids = if d < limit {
                crate::graph::children(g.inherit_rows(), x, po, (d + 1) as usize)
            } else {
                Seq::<(u64, usize)>::empty()
            };
            crate::graph::lemma_pending_visit(g.inherit_rows(), visited, po, x);
            lemma_walk_keeps(g, po, ts, limit, rest + kids, visited.insert(x), acc2);
            lemma_grant_union_keeps(g.caps_map(), g.grant_rows(), acc, x, po, ts);
            lemma_and_trans(g.walk(po, ts, limit, rest + kids, visited.insert(x), acc2), acc2, acc);
        }
    }
}

/// A subject's own grants on the object (or on its type entity) always count:
/// the effective mask holds every bit they give.
pub proof fn lemma_access_includes_own_grants(g: Graph, po: u64, ts: Option<u64>, limit: usize, ps: u64)
    ensures
        g.walk(po, ts, limit, seq![(ps, 0usize)], Set::<u64>::empty(), 0) & grant_union(
            g.caps_map(),
            g.grant_rows(),
            0,
            ps,
            po,
            ts,
        ) == grant_union(g.caps_map(), g.grant_rows(), 0, ps, po, ts),
{
    let stack = seq![(ps, 0usize)];
    let acc2 = grant_union(g.caps_map(), g.grant_rows(), 0, ps, po, ts);
    let kids = if 0 < limit {
        crate::graph::children(g.inherit_rows(), ps, po, 1usize)
    } else {
        Seq::<(u64, usize)>::empty()
    };
    crate::graph::lemma_pending_visit(g.inherit_rows(), Set::<u64>::empty(), po, ps);
    assert(stack.drop_last() =~= Seq::<(u64, usize)>::empty());
    assert(stack.last() == (ps, 0usize));
    assert(g.walk(po, ts, limit, stack, Set::<u64>::empty(), 0) == g.walk(
        po,
        ts,
        limit,
        stack.drop_last() + kids,
        Set::<u64>::empty().insert(ps),
        acc2,
    ));
    lemma_walk_keeps(g, po, ts, limit, stack.drop_last() + kids, Set::<u64>::empty().insert(ps), acc2);
}


/// What a session write stores is what a later read finds: after a session
/// is put under `k`, the session under `k` is exactly what was put, every
/// other key still holds what it held before, and credentials are untouched.
pub proof fn lemma_session_read_after_write(o: AuthView, n: AuthView, k: Key4, v: (Seq<char>, u64, u64), k2: Key4)
    requires
        n.puts_session(o, k, v),
    ensures
        n.session(k) == Some(v),
        k2 != k ==> n.session(k2) == o.session(k2),
        n.credentials == o.credentials,
{
    assert(n.session(k) == if k == k {
        Some(v)
    } else {
        o.session(k)
    });
    assert(n.session(k2) == if k2 == k {
        Some(v)
    } else {
        o.session(k2)
    });
}

/// Revoking a session ends exactly it: after a revoke of the session under
/// `k`, that key finds no session and no row (so validation refuses the
/// token and no listing shows it), a second revoke reports `false` and
/// changes nothing, and every other key finds what it found before.
pub proof fn lemma_revoke_session_twice(o: AuthView, n: AuthView, m: AuthView, k: Key4, had1: bool, had2: bool)
    requires
        had1 == o.session(k) is Some,
        forall|k2: Key4| #[trigger] n.session(k2) == if k2 == k {
            None
        } else {
            o.session(k2)
        },
        had2 == n.session(k) is Some,
        forall|k2: Key4| #[trigger] m.session(k2) == if k2 == k {
            None
        } else {
            n.session(k2)
        },
    ensures
        n.session(k) is None,
        forall|i: int| 0 <= i < n.sessions.len() ==> (#[trigger] n.sessions[i]).0 != k,
        !had2,
        forall|k2: Key4| #[trigger] m.session(k2) == n.session(k2),
        forall|k2: Key4| k2 != k ==> #[trigger] n.session(k2) == o.session(k2),
{
    assert(n.session(k) is None);
    assert forall|i: int| 0 <= i < n.sessions.len() implies (#[trigger] n.sessions[i]).0 != k by {
        if n.sessions[i].0 == k {
            assert(exists|j: int| 0 <= j < n.sessions.len() && #[trigger] n.sessions[j].0 == k);
        }
    }
    assert forall|k2: Key4| #[trigger] m.session(k2) == n.session(k2) by {
        if k2 == k {
            assert(m.session(k) is None);
        }
    }
}

/// A password that was just set verifies: after the credential of `entity`
/// is set to a salt and the digest of salt and `password`, `password`
/// matches, and every other entity's credential is unchanged.
pub proof fn lemma_password_set_then_verifies(
    o: AuthView,
    n: AuthView,
    entity: Seq<char>,
    salt: Seq<char>,
    password: Seq<char>,
    other: Seq<char>,
)
    requires
        n.puts_credential(o, entity, (salt, password_digest(salt, password))),
    ensures
        n.password_matches(entity, password),
        other != entity ==> n.credential(other) == o.credential(other),
{
    assert(n.credential(entity) == if entity == entity {
        Some((salt, password_digest(salt, password)))
    } else {
        o.credential(entity)
    });
    assert(n.credential(other) == if other == entity {
        Some((salt, password_digest(salt, password)))
    } else {
        o.credential(other)
    });
}


/// Merging grants is sound: two grants to the same pair, applied in turn,
/// have the effect of one grant of their combined bits.
pub proof fn lemma_grants_merge(m: Grants, subject: u64, object: u64, a: u64, b: u64)
    ensures
        ops_apply(m, seq![Op::Grant { subject, object, mask: a }, Op::Grant { subject, object, mask: b }])
            == op_apply(m, Op::Grant { subject, object, mask: a | b }),
{
    let ops = seq![Op::Grant { subject, object, mask: a }, Op::Grant { subject, object, mask: b }];
    assert(ops.drop_last() =~= seq![Op::Grant { subject, object, mask: a }]);
    assert(ops.drop_last().drop_last() =~= Seq::<Op>::empty());
    let k = (subject, object, 0u64);
    let x: u64 = match opt_get(m.caps, k) {
        Some(v) => v,
        None => 0,
    };
    assert((x | a) | b == x | (a | b)) by (bit_vector);
    let m1 = op_apply(m, Op::Grant { subject, object, mask: a })->Ok_0;
    assert(ops_apply(m, ops.drop_last().drop_last()) == Ok::<Grants, Seq<char>>(m));
    assert(ops_apply(m, ops.drop_last()) == Ok::<Grants, Seq<char>>(m1));
    assert(opt_get(m1.caps, k) == Some(x | a));
    assert(m1.caps.insert(k, (x | a) | b) =~= m.caps.insert(k, x | (a | b)));
    assert(ops_apply(m, ops) == op_apply(m1, Op::Grant { subject, object, mask: b }));
}

/// A revoke cancels a grant before it: granting and then revoking the same
/// pair has the effect of the revoke alone.
pub proof fn lemma_revoke_cancels_grant(m: Grants, subject: u64, object: u64, mask: u64)
    ensures
        ops_apply(m, seq![Op::Grant { subject, object, mask }, Op::Revoke { subject, object }])
            == op_apply(m, Op::Revoke { subject, object }),
{
    let ops = seq![Op::Grant { subject, object, mask }, Op::Revoke { subject, object }];
    assert(ops.drop_last() =~= seq![Op::Grant { subject, object, mask }]);
    assert(ops.drop_last().drop_last() =~= Seq::<Op>::empty());
    let k = (subject, object, 0u64);
    let m1 = op_apply(m, Op::Grant { subject, object, mask })->Ok_0;
    assert(ops_apply(m, ops.drop_last().drop_last()) == Ok::<Grants, Seq<char>>(m));
    assert(ops_apply(m, ops.drop_last()) == Ok::<Grants, Seq<char>>(m1));
    assert(m1.caps.remove(k) =~= m.caps.remove(k));
    assert(ops_apply(m, ops) == op_apply(m1, Op::Revoke { subject, object }));
}


/// No resurrection by redefinition: once a role is deleted, defining it
/// again does not bring back any grant or delegation of it.
pub proof fn lemma_no_resurrection(o: CapbitView, mid: CapbitView, n: CapbitView, sub: u64, obj: u64, role: u64)
    requires
        forall|k: Key|
            #[trigger] opt_get(as_map(mid.subjects), k) == (if k.1 == obj && k.2 == role {
                None
            } else {
                opt_get(as_map(o.subjects), k)
            }),
        forall|k: Key|
            #[trigger] opt_get(as_map(mid.delegations), k) == (if k.1 == obj && k.2 == role {
                None
            } else {
                opt_get(as_map(o.delegations), k)
            }),
        n.keeps(mid, true, false, false, false, false, true),
    ensures
        grant_in(n.subjects, sub, obj, role) is None,
        opt_get(as_map(n.delegations), (sub, obj, role)) is None,
{
    assert(opt_get(as_map(mid.subjects), (sub, obj, role)) is None);
    assert(opt_get(as_map(mid.delegations), (sub, obj, role)) is None);
}

// -- the materialized closure stays exact ----------------------------------------------

/// `t` has the membership edges of `s` out of `x` and out of every group `x`
/// reaches positively in `s`; of the edges back into `x` only the
/// exclusions have to agree.
pub open spec fn same_edges_from(s: Seq<(Key, Policy)>, t: Seq<(Key, Policy)>, x: u64) -> bool {
    &&& forall|m: u64, g: u64|
        (m == x || reach_in(s, x, 1, Set::empty()).contains(m)) && g != x ==> #[trigger] grant_in(t, m, g, _MEMBER)
            == grant_in(s, m, g, _MEMBER)
    &&& forall|m: u64|
        (m == x || reach_in(s, x, 1, Set::empty()).contains(m)) ==> (#[trigger] grant_in(t, m, x, _MEMBER) == Some(
            Policy::Not,
        ) <==> grant_in(s, m, x, _MEMBER) == Some(Policy::Not))
}

/// Reachability is closed under its own steps.
proof fn lemma_reach_closed(s: Seq<(Key, Policy)>, x: u64, lvl: nat, avoid: Set<u64>)
    ensures
        closed_in(s, reach_in(s, x, lvl, avoid), x, lvl, avoid),
{
    let r = reach_in(s, x, lvl, avoid);
    assert forall|n: u64, g: u64| (n == x || r.contains(n)) && #[trigger] step_in(s, n, g, x, lvl, avoid) implies r.contains(g) by {
        assert forall|c: Set<u64>| #[trigger] closed_in(s, c, x, lvl, avoid) implies c.contains(g) by {
            if n != x {
                assert(c.contains(n));
            }
        }
    }
}

/// What is reachable with steps of some level, avoiding some groups, is
/// reachable with steps of level 1 avoiding none.
proof fn lemma_reach_within(s: Seq<(Key, Policy)>, x: u64, lvl: nat, avoid: Set<u64>, g: u64)
    requires
        lvl >= 1,
        reach_in(s, x, lvl, avoid).contains(g),
    ensures
        reach_in(s, x, 1, Set::empty()).contains(g),
{
    let r1 = reach_in(s, x, 1, Set::empty());
    lemma_reach_closed(s, x, 1, Set::empty());
    assert forall|n: u64, h: u64| (n == x || r1.contains(n)) && #[trigger] step_in(s, n, h, x, lvl, avoid) implies r1.contains(h) by {
        assert(step_in(s, n, h, x, 1, Set::empty()));
    }
    assert(closed_in(s, r1, x, lvl, avoid));
}

/// With the same edges out of everything `x` reaches, `x` reaches the same
/// groups.
proof fn lemma_reach_same(s: Seq<(Key, Policy)>, t: Seq<(Key, Policy)>, x: u64, lvl: nat, avoid: Set<u64>)
    requires
        lvl >= 1,
        same_edges_from(s, t, x),
    ensures
        reach_in(t, x, lvl, avoid) == reach_in(s, x, lvl, avoid),
{
    let r = reach_in(s, x, lvl, avoid);
    let rt = reach_in(t, x, lvl, avoid);
    lemma_reach_closed(s, x, lvl, avoid);
    lemma_reach_closed(t, x, lvl, avoid);
    assert forall|n: u64, g: u64| (n == x || r.contains(n)) && #[trigger] step_in(t, n, g, x, lvl, avoid) implies r.contains(g) by {
        if n != x {
            lemma_reach_within(s, x, lvl, avoid, n);
        }
        assert(grant_in(t, n, g, _MEMBER) == grant_in(s, n, g, _MEMBER));
        assert(step_in(s, n, g, x, lvl, avoid));
    }
    assert(closed_in(t, r, x, lvl, avoid));
    assert forall|g: u64| rt.contains(g) implies r.contains(g) by {
    }
    assert forall|n: u64, g: u64| (n == x || rt.contains(n)) && #[trigger] step_in(s, n, g, x, lvl, avoid) implies rt.contains(g) by {
        if n != x {
            assert(r.contains(n));
            lemma_reach_within(s, x, lvl, avoid, n);
        }
        assert(grant_in(t, n, g, _MEMBER) == grant_in(s, n, g, _MEMBER));
        assert(step_in(t, n, g, x, lvl, avoid));
    }
    assert(closed_in(s, rt, x, lvl, avoid));
    assert forall|g: u64| r.contains(g) implies rt.contains(g) by {
    }
    assert(rt =~= r);
}

/// With the same edges out of everything `x` reaches, `x`'s computed
/// closure is the same.
pub proof fn lemma_closure_same(s: Seq<(Key, Policy)>, t: Seq<(Key, Policy)>, x: u64, g: u64)
    requires
        same_edges_from(s, t, x),
    ensures
        closure_in(t, x, g) == closure_in(s, x, g),
{
    lemma_reach_same(s, t, x, 1, Set::empty());
    let d = denied_in(s, x);
    assert(denied_in(t, x) =~= d) by {
        assert forall|h: u64| denied_in(t, x).contains(h) <==> d.contains(h) by {
            if denied_in(t, x).contains(h) {
                let m = choose|m: u64|
                    (m == x || reach_in(t, x, 1, Set::empty()).contains(m)) && #[trigger] grant_in(t, m, h, _MEMBER)
                        == Some(Policy::Not);
                assert(grant_in(s, m, h, _MEMBER) == Some(Policy::Not));
            }
            if d.contains(h) {
                let m = choose|m: u64|
                    (m == x || reach_in(s, x, 1, Set::empty()).contains(m)) && #[trigger] grant_in(s, m, h, _MEMBER)
                        == Some(Policy::Not);
                assert(grant_in(t, m, h, _MEMBER) == Some(Policy::Not));
            }
        }
    }
    lemma_reach_same(s, t, x, 2, d);
    lemma_reach_same(s, t, x, 1, d);
}

impl CapbitView {
    /// Every entity's materialized rows equal its computed closure.
    pub open spec fn closure_exact(self) -> bool {
        forall|x: u64| #[trigger] self.closure_fresh(x)
    }

    /// Every entity that reaches `grp` along positive memberships has a
    /// materialized row for it.
    pub open spec fn rows_cover(self, grp: u64) -> bool {
        forall|x: u64| #[trigger] reach_in(self.subjects, x, 1, Set::empty()).contains(grp) ==> self.closure_row(x, grp) is Some
    }
}

/// Write-time materialization stays exact under membership edits: when the
/// rows of every entity equal its computed closure before a membership grant
/// or revoke of `sub`, and the affected entities' rows are rebuilt, the rows
/// of every entity equal its computed closure after, provided every entity
/// that positively reaches `sub` had a row for it.
pub proof fn lemma_closure_stays_exact(o: CapbitView, n: CapbitView, sub: u64, obj: u64, p: Policy)
    requires
        o.closure_exact(),
        mirrored(as_map(o.closure), as_map(o.closure_rev)),
        o.rows_cover(sub),
        as_map(n.subjects) == as_map(o.subjects).insert((sub, obj, _MEMBER), p) || as_map(n.subjects) == as_map(
            o.subjects,
        ).remove((sub, obj, _MEMBER)),
        n.rebuilt(o, o.affected_by(sub)),
    ensures
        n.closure_exact(),
{
    let aff = o.affected_by(sub);
    assert forall|x: u64| #[trigger] n.closure_fresh(x) by {
        if !aff.contains(x) {
            assert(x != sub);
            assert(opt_get(as_map(o.closure_rev), swap01((x, sub, 0))) == opt_get(as_map(o.closure), (x, sub, 0)));
            assert(swap01((x, sub, 0)) == (sub, x, 0u64));
            assert(o.closure_row(x, sub) is None);
            assert(!reach_in(o.subjects, x, 1, Set::empty()).contains(sub));
            assert forall|m: u64, g: u64| (m == x || reach_in(o.subjects, x, 1, Set::empty()).contains(m)) implies #[trigger] grant_in(n.subjects, m, g, _MEMBER)
                == grant_in(o.subjects, m, g, _MEMBER) by {
                assert(m != sub);
                assert((m, g, _MEMBER) != (sub, obj, _MEMBER));
            }
            assert forall|g: u64| #[trigger] n.closure_row(x, g) == n.closure_of(x, g) by {
                lemma_closure_same(o.subjects, n.subjects, x, g);
                assert(o.closure_fresh(x));
                assert(o.closure_row(x, g) == o.closure_of(x, g));
                assert(opt_get(as_map(n.closure), (x, g, 0)) == opt_get(as_map(o.closure), (x, g, 0)));
            }
        }
    }
}

/// Grants and revokes of roles other than membership leave every computed
/// closure as it was, so exact rows stay exact when the closure tables are
/// kept.
pub proof fn lemma_closure_kept_exact(o: CapbitView, n: CapbitView, sub: u64, obj: u64, role: u64, p: Policy)
    requires
        o.closure_exact(),
        role != _MEMBER,
        as_map(n.subjects) == as_map(o.subjects).insert((sub, obj, role), p) || as_map(n.subjects) == as_map(
            o.subjects,
        ).remove((sub, obj, role)),
        n.closure == o.closure,
    ensures
        n.closure_exact(),
{
    assert forall|x: u64| #[trigger] n.closure_fresh(x) by {
        assert forall|m: u64, g: u64| (m == x || reach_in(o.subjects, x, 1, Set::empty()).contains(m)) implies #[trigger] grant_in(n.subjects, m, g, _MEMBER)
            == grant_in(o.subjects, m, g, _MEMBER) by {
            assert((m, g, _MEMBER) != (sub, obj, role));
        }
        assert forall|g: u64| #[trigger] n.closure_row(x, g) == n.closure_of(x, g) by {
            lemma_closure_same(o.subjects, n.subjects, x, g);
            assert(o.closure_fresh(x));
            assert(o.closure_row(x, g) == o.closure_of(x, g));
        }
    }
}


/// An entity without membership edges has an empty computed closure.
proof fn lemma_closure_no_edges(s: Seq<(Key, Policy)>, x: u64, g: u64)
    requires
        forall|h: u64| #[trigger] grant_in(s, x, h, _MEMBER) is None,
    ensures
        closure_in(s, x, g) is None,
{
    let e = Set::<u64>::empty();
    assert forall|lvl: nat, avoid: Set<u64>| #[trigger] closed_in(s, e, x, lvl, avoid) by {
        assert forall|n: u64, h: u64| (n == x || e.contains(n)) && #[trigger] step_in(s, n, h, x, lvl, avoid) implies e.contains(h) by {
            assert(grant_in(s, x, h, _MEMBER) is None);
        }
    }
    assert(!reach_in(s, x, 1, Set::empty()).contains(g)) by {
        assert(closed_in(s, e, x, 1, Set::empty()));
    }
    let d = denied_in(s, x);
    assert(!d.contains(g)) by {
        if d.contains(g) {
            let m = choose|m: u64|
                (m == x || reach_in(s, x, 1, Set::empty()).contains(m)) && #[trigger] grant_in(s, m, g, _MEMBER)
                    == Some(Policy::Not);
            if m != x {
                assert(closed_in(s, e, x, 1, Set::empty()));
            }
        }
    }
    assert(!reach_in(s, x, 2, d).contains(g)) by {
        assert(closed_in(s, e, x, 2, d));
    }
    assert(!reach_in(s, x, 1, d).contains(g)) by {
        assert(closed_in(s, e, x, 1, d));
    }
}

/// Write-time materialization stays exact when an object is deleted: when
/// the rows of every entity equal its computed closure before, they do
/// after, provided every entity that positively reaches the object had a row
/// for it.
pub proof fn lemma_closure_exact_after_delete(o: CapbitView, n: CapbitView, obj: u64)
    requires
        o.closure_exact(),
        mirrored(as_map(o.closure), as_map(o.closure_rev)),
        o.rows_cover(obj),
        forall|k: Key|
            #[trigger] opt_get(as_map(n.subjects), k) == (if k.0 == obj || k.1 == obj {
                None
            } else {
                opt_get(as_map(o.subjects), k)
            }),
        forall|x: u64, g: u64|
            o.affected_by(obj).remove(obj).contains(x) ==> #[trigger] n.closure_row(x, g) == n.closure_of(x, g),
        forall|k: Key|
            !o.affected_by(obj).remove(obj).contains(k.0) ==> #[trigger] opt_get(as_map(n.closure), k) == (if k.0
                == obj || k.1 == obj {
                None
            } else {
                opt_get(as_map(o.closure), k)
            }),
    ensures
        n.closure_exact(),
{
    let aff = o.affected_by(obj).remove(obj);
    assert forall|x: u64| #[trigger] n.closure_fresh(x) by {
        if x == obj {
            assert forall|h: u64| #[trigger] grant_in(n.subjects, x, h, _MEMBER) is None by {
                assert(opt_get(as_map(n.subjects), (x, h, _MEMBER)) is None);
            }
            assert forall|g: u64| #[trigger] n.closure_row(x, g) == n.closure_of(x, g) by {
                lemma_closure_no_edges(n.subjects, x, g);
                assert(opt_get(as_map(n.closure), (x, g, 0)) is None);
            }
        } else if !aff.contains(x) {
            assert(!o.affected_by(obj).contains(x));
            assert(opt_get(as_map(o.closure_rev), swap01((x, obj, 0))) == opt_get(as_map(o.closure), (x, obj, 0)));
            assert(swap01((x, obj, 0)) == (obj, x, 0u64));
            assert(o.closure_row(x, obj) is None);
            assert(!reach_in(o.subjects, x, 1, Set::empty()).contains(obj));
            assert(o.closure_fresh(x));
            assert(o.closure_row(x, obj) == o.closure_of(x, obj));
            assert(!denied_in(o.subjects, x).contains(obj));
            lemma_reach_closed(o.subjects, x, 1, Set::empty());
            assert forall|m: u64, g: u64| (m == x || reach_in(o.subjects, x, 1, Set::empty()).contains(m)) implies #[trigger] grant_in(n.subjects, m, g, _MEMBER)
                == grant_in(o.subjects, m, g, _MEMBER) by {
                assert(m != obj);
                assert(opt_get(as_map(n.subjects), (m, g, _MEMBER)) == (if m == obj || g == obj {
                    None
                } else {
                    opt_get(as_map(o.subjects), (m, g, _MEMBER))
                }));
                if g == obj {
                    match grant_in(o.subjects, m, g, _MEMBER) {
                        Some(p) => {
                            if p == Policy::Not {
                                assert(denied_in(o.subjects, x).contains(obj));
                            } else {
                                assert(step_in(o.subjects, m, g, x, 1, Set::empty()));
                            }
                        },
                        None => {},
                    }
                }
            }
            assert forall|g: u64| #[trigger] n.closure_row(x, g) == n.closure_of(x, g) by {
                lemma_closure_same(o.subjects, n.subjects, x, g);
                assert(o.closure_row(x, g) == o.closure_of(x, g));
                assert(opt_get(as_map(n.closure), (x, g, 0)) == (if g == obj {
                    None
                } else {
                    opt_get(as_map(o.closure), (x, g, 0))
                }));
            }
        }
    }
}


/// Write-time materialization stays exact when a role definition is
/// deleted with its grants: when the rows of every entity equal its computed
/// closure before, they do after, provided every entity that positively
/// reaches the object had a row for it and the object does not exclude
/// itself (deleting membership on an object that excludes itself through one
/// of its own groups leaves its row on itself behind).
pub proof fn lemma_closure_exact_after_role_delete(o: CapbitView, n: CapbitView, obj: u64, role: u64)
    requires
        o.closure_exact(),
        mirrored(as_map(o.closure), as_map(o.closure_rev)),
        o.rows_cover(obj),
        o.closure_row(obj, obj) != Some(Policy::Not),
        forall|k: Key|
            #[trigger] opt_get(as_map(n.subjects), k) == (if k.1 == obj && k.2 == role {
                None
            } else {
                opt_get(as_map(o.subjects), k)
            }),
        o.role_delete_cascades(obj, role) ==> n.rebuilt(o, o.affected_by(obj).remove(obj)),
        !o.role_delete_cascades(obj, role) ==> n.closure == o.closure,
    ensures
        n.closure_exact(),
{
    if !o.role_delete_cascades(obj, role) {
        assert forall|m: u64, g: u64| #[trigger] grant_in(n.subjects, m, g, _MEMBER) == grant_in(o.subjects, m, g, _MEMBER) by {
            assert(opt_get(as_map(n.subjects), (m, g, _MEMBER)) == (if g == obj && _MEMBER == role {
                None
            } else {
                opt_get(as_map(o.subjects), (m, g, _MEMBER))
            }));
            if g == obj && role == _MEMBER && as_map(o.subjects).contains_key((m, g, _MEMBER)) {
                let i = choose|i: int| 0 <= i < o.subjects.len() && #[trigger] o.subjects[i].0 == (m, g, _MEMBER);
                assert(crate::table::key_hit(o.subjects[i].0, true, obj, Some(_MEMBER)));
            }
        }
        assert forall|x: u64| #[trigger] n.closure_fresh(x) by {
            assert forall|g: u64| #[trigger] n.closure_row(x, g) == n.closure_of(x, g) by {
                lemma_closure_same(o.subjects, n.subjects, x, g);
                assert(o.closure_fresh(x));
                assert(o.closure_row(x, g) == o.closure_of(x, g));
            }
        }
    } else {
        let aff = o.affected_by(obj).remove(obj);
        assert forall|x: u64| #[trigger] n.closure_fresh(x) by {
            if !aff.contains(x) {
                assert(o.closure_fresh(x));
                if x == obj {
                    assert(o.closure_row(obj, obj) == o.closure_of(obj, obj));
                    assert(!denied_in(o.subjects, obj).contains(obj));
                } else {
                    assert(!o.affected_by(obj).contains(x));
                    assert(opt_get(as_map(o.closure_rev), swap01((x, obj, 0))) == opt_get(
                        as_map(o.closure),
                        (x, obj, 0),
                    ));
                    assert(swap01((x, obj, 0)) == (obj, x, 0u64));
                    assert(o.closure_row(x, obj) is None);
                    assert(!reach_in(o.subjects, x, 1, Set::empty()).contains(obj));
                    assert(o.closure_row(x, obj) == o.closure_of(x, obj));
                    assert(!denied_in(o.subjects, x).contains(obj));
                    lemma_reach_closed(o.subjects, x, 1, Set::empty());
                }
                assert forall|m: u64, g: u64| (m == x || reach_in(o.subjects, x, 1, Set::empty()).contains(m)) && g
                    != x implies #[trigger] grant_in(n.subjects, m, g, _MEMBER) == grant_in(o.subjects, m, g, _MEMBER) by {
                    assert(opt_get(as_map(n.subjects), (m, g, _MEMBER)) == (if g == obj && _MEMBER == role {
                        None
                    } else {
                        opt_get(as_map(o.subjects), (m, g, _MEMBER))
                    }));
                    if g == obj {
                        match grant_in(o.subjects, m, g, _MEMBER) {
                            Some(p) => {
                                if p == Policy::Not {
                                    assert(denied_in(o.subjects, x).contains(obj));
                                } else {
                                    assert(step_in(o.subjects, m, g, x, 1, Set::empty()));
                                }
                            },
                            None => {},
                        }
                    }
                }
                assert forall|m: u64| (m == x || reach_in(o.subjects, x, 1, Set::empty()).contains(m)) implies (
                #[trigger] grant_in(n.subjects, m, x, _MEMBER) == Some(Policy::Not) <==> grant_in(o.subjects, m, x, _MEMBER)
                    == Some(Policy::Not)) by {
                    assert(opt_get(as_map(n.subjects), (m, x, _MEMBER)) == (if x == obj && _MEMBER == role {
                        None
                    } else {
                        opt_get(as_map(o.subjects), (m, x, _MEMBER))
                    }));
                    if x == obj && grant_in(o.subjects, m, x, _MEMBER) == Some(Policy::Not) {
                        assert(denied_in(o.subjects, obj).contains(obj));
                    }
                }
                assert forall|g: u64| #[trigger] n.closure_row(x, g) == n.closure_of(x, g) by {
                    lemma_closure_same(o.subjects, n.subjects, x, g);
                    assert(o.closure_row(x, g) == o.closure_of(x, g));
                    assert(opt_get(as_map(n.closure), (x, g, 0)) == opt_get(as_map(o.closure), (x, g, 0)));
                }
            }
        }
    }
}

/// Operations that leave the grants and the closure tables alone (role
/// definitions, parents, delegations) keep exact rows exact.
pub proof fn lemma_closure_exact_untouched(o: CapbitView, n: CapbitView)
    requires
        o.closure_exact(),
        n.subjects == o.subjects,
        n.closure == o.closure,
    ensures
        n.closure_exact(),
{
    assert forall|x: u64| #[trigger] n.closure_fresh(x) by {
        assert forall|g: u64| #[trigger] n.closure_row(x, g) == n.closure_of(x, g) by {
            assert(o.closure_fresh(x));
            assert(o.closure_row(x, g) == o.closure_of(x, g));
        }
    }
}

/// A wiped store (no grants, no rows) has exact rows.
pub proof fn lemma_closure_exact_when_empty(n: CapbitView)
    requires
        as_map(n.subjects) == Map::<Key, Policy>::empty(),
        as_map(n.closure) == Map::<Key, Policy>::empty(),
    ensures
        n.closure_exact(),
{
    assert forall|x: u64| #[trigger] n.closure_fresh(x) by {
        assert forall|g: u64| #[trigger] n.closure_row(x, g) == n.closure_of(x, g) by {
            assert forall|h: u64| #[trigger] grant_in(n.subjects, x, h, _MEMBER) is None by {
                assert(!as_map(n.subjects).contains_key((x, h, _MEMBER)));
            }
            lemma_closure_no_edges(n.subjects, x, g);
            assert(!as_map(n.closure).contains_key((x, g, 0)));
        }
    }
}

// -- the entity graph: reads give back writes ------------------------------------------

/// After a capability mask is set, the entity still resolves as before, the
/// role resolves, and the mask stored for them is the one written: what
/// `get_capability` then reports.
pub proof fn lemma_capability_read_after_write(o: Graph, n: Graph, e: Seq<char>, rel: Seq<char>, mask: u64)
    requires
        o.wf(),
        n.wf(),
        then_label(o.resolved_view(e), rel) is Ok,
        capability_set(o, n, e, rel, mask),
    ensures
        n.resolved_view(e) == o.resolved_view(e),
        n.role_id_of(rel) == Some(o.role_after(rel)),
        opt_get(
            n.caps_map(),
            (pack(n.resolved_view(e)->Ok_0.0, n.resolved_view(e)->Ok_0.1), o.role_after(rel) as u64, 0),
        ) == Some(mask),
{
    n.lemma_same_resolution(&o);
}

/// After a capability label is set, the entity still resolves as before and
/// the label stored under its bit is the one written: what `get_cap_label`
/// then reports.
pub proof fn lemma_cap_label_read_after_write(o: Graph, n: Graph, e: Seq<char>, bit: u64, label: Seq<char>)
    requires
        o.wf(),
        n.wf(),
        o.resolved_view(e) is Ok,
        n.cap_labels_map() == o.cap_labels_map().insert(
            (pack(o.resolved_view(e)->Ok_0.0, o.resolved_view(e)->Ok_0.1), bit as u32 as u64, 0),
            label,
        ),
        n.same_links_but_labels(&o),
    ensures
        n.resolved_view(e) == o.resolved_view(e),
        n.cap_labels_map().contains_key(
            (pack(n.resolved_view(e)->Ok_0.0, n.resolved_view(e)->Ok_0.1), bit as u32 as u64, 0),
        ),
        n.cap_labels_map()[(pack(n.resolved_view(e)->Ok_0.0, n.resolved_view(e)->Ok_0.1), bit as u32 as u64, 0)]
            == label,
{
    n.lemma_same_resolution(&o);
}

/// After a capability label is deleted, the entity still resolves as
/// before and no label is stored under its bit: `get_cap_label` then
/// reports none.
pub proof fn lemma_cap_label_read_after_delete(o: Graph, n: Graph, e: Seq<char>, bit: u64)
    requires
        o.wf(),
        n.wf(),
        o.resolved_view(e) is Ok,
        n.cap_labels_map() == o.cap_labels_map().remove(
            (pack(o.resolved_view(e)->Ok_0.0, o.resolved_view(e)->Ok_0.1), bit as u32 as u64, 0),
        ),
        n.same_links_but_labels(&o),
    ensures
        n.resolved_view(e) == o.resolved_view(e),
        !n.cap_labels_map().contains_key(
            (pack(n.resolved_view(e)->Ok_0.0, n.resolved_view(e)->Ok_0.1), bit as u32 as u64, 0),
        ),
{
    n.lemma_same_resolution(&o);
}

/// After a relationship is set, both entities still resolve as before and
/// the relationships listed between them include its role label.
pub proof fn lemma_relationship_read_after_write(
    o: Graph,
    n: Graph,
    s: Seq<char>,
    rel: Seq<char>,
    obj: Seq<char>,
    now: u64,
)
    requires
        o.wf(),
        n.wf(),
        then_label(both(o.resolved_view(s), o.resolved_view(obj)), rel) is Ok,
        relationship_set(o, n, s, rel, obj, now),
    ensures
        both(n.resolved_view(s), n.resolved_view(obj)) == both(o.resolved_view(s), o.resolved_view(obj)),
        n.relationships_of(
            pack(n.resolved_view(s)->Ok_0.0, n.resolved_view(s)->Ok_0.1),
            pack(n.resolved_view(obj)->Ok_0.0, n.resolved_view(obj)->Ok_0.1),
        ).contains(rel),
{
    n.lemma_same_resolution(&o);
    let x = o.resolved_view(s)->Ok_0;
    let y = o.resolved_view(obj)->Ok_0;
    let ps = pack(x.0, x.1);
    let po = pack(y.0, y.1);
    let role = o.role_after(rel);
    let k = (ps, po, role as u64);
    n.lemma_rows_denote();
    assert(n.grants_map().contains_key(k));
    let i = choose|i: int| 0 <= i < n.grant_rows().len() && #[trigger] n.grant_rows()[i].0 == k;
    assert(n.role_id_of(rel) == Some(role));
    assert((role as u64) as u32 == role);
    assert(n.role_label_of(role) == Some(rel));
    let f = |e: (Key, u64)| n.relationship_row(e, ps, po);
    assert(f(n.grant_rows()[i]) == Some(rel));
    lemma_collect_has(n.grant_rows(), f, i);
}

/// After a relationship is deleted, both entities still resolve as before,
/// the relationships listed between them no longer include its role label,
/// and every other label is listed exactly when it was before.
pub proof fn lemma_relationship_read_after_delete(
    o: Graph,
    n: Graph,
    s: Seq<char>,
    rel: Seq<char>,
    obj: Seq<char>,
    had: bool,
    l: Seq<char>,
)
    requires
        o.wf(),
        n.wf(),
        both(o.resolved_view(s), o.resolved_view(obj)) is Ok,
        o.role_id_of(rel) is Some,
        relationship_deleted(o, n, s, rel, obj, had),
    ensures
        both(n.resolved_view(s), n.resolved_view(obj)) == both(o.resolved_view(s), o.resolved_view(obj)),
        ({
            let x = o.resolved_view(s)->Ok_0;
            let y = o.resolved_view(obj)->Ok_0;
            &&& !n.relationships_of(pack(x.0, x.1), pack(y.0, y.1)).contains(rel)
            &&& l != rel ==> (n.relationships_of(pack(x.0, x.1), pack(y.0, y.1)).contains(l)
                <==> o.relationships_of(pack(x.0, x.1), pack(y.0, y.1)).contains(l))
        }),
{
    n.lemma_same_resolution(&o);
    let x = o.resolved_view(s)->Ok_0;
    let y = o.resolved_view(obj)->Ok_0;
    let ps = pack(x.0, x.1);
    let po = pack(y.0, y.1);
    let rid = o.role_id_of(rel)->0;
    let kd = (ps, po, rid as u64);
    o.lemma_rows_denote();
    n.lemma_rows_denote();
    n.lemma_relationships_listed(ps, po, rel);
    n.lemma_relationships_listed(ps, po, l);
    o.lemma_relationships_listed(ps, po, l);
    if n.relationships_of(ps, po).contains(rel) {
        let k = choose|k: Key|
            #[trigger] n.grants_map().contains_key(k) && k.0 == ps && k.1 == po && n.role_label_of(k.2 as u32)
                == Some(rel);
        assert(n.role_id_of(rel) == Some(k.2 as u32));
        assert(k.2 <= u32::MAX);
        assert(k == kd);
    }
    if l != rel {
        if n.relationships_of(ps, po).contains(l) {
            let k = choose|k: Key|
                #[trigger] n.grants_map().contains_key(k) && k.0 == ps && k.1 == po && n.role_label_of(k.2 as u32)
                    == Some(l);
            assert(o.grants_map().contains_key(k));
        }
        if o.relationships_of(ps, po).contains(l) {
            let k = choose|k: Key|
                #[trigger] o.grants_map().contains_key(k) && k.0 == ps && k.1 == po && o.role_label_of(k.2 as u32)
                    == Some(l);
            assert(o.role_label_of(rid) == Some(rel));
            assert(k != kd);
            assert(n.grants_map().contains_key(k));
        }
    }
}

/// After a delegation is recorded, all three entities still resolve as
/// before, the delegation is stored, and the pairs listed on the object
/// include (source, seeker) whenever both entities still carry labels.
pub proof fn lemma_inheritance_read_after_write(
    o: Graph,
    n: Graph,
    s: Seq<char>,
    obj: Seq<char>,
    c: Seq<char>,
    now: u64,
)
    requires
        o.wf(),
        n.wf(),
        o.delegation_key_view(s, obj, c) is Ok,
        inheritance_set(o, n, s, obj, c, now),
    ensures
        n.delegation_key_view(s, obj, c) == o.delegation_key_view(s, obj, c),
        n.inherits_map().contains_key(n.delegation_key_view(s, obj, c)->Ok_0),
        ({
            let k = n.delegation_key_view(s, obj, c)->Ok_0;
            n.label_of(k.2) is Some && n.label_of(k.0) is Some ==> n.delegations_on(k.1).contains(
                (n.label_of(k.2)->0, n.label_of(k.0)->0),
            )
        }),
{
    n.lemma_same_resolution(&o);
    let k = o.delegation_key_view(s, obj, c)->Ok_0;
    n.lemma_rows_denote();
    assert(n.inherits_map().contains_key(k));
    let i = choose|i: int| 0 <= i < n.inherit_rows().len() && #[trigger] n.inherit_rows()[i].0 == k;
    if n.label_of(k.2) is Some && n.label_of(k.0) is Some {
        let f = |e: (Key, u64)| n.object_delegation_row(e, k.1);
        assert(f(n.inherit_rows()[i]) == Some((n.label_of(k.2)->0, n.label_of(k.0)->0)));
        lemma_collect_has(n.inherit_rows(), f, i);
    }
}

/// The union of grant bits holds the bits of every row that adds some.
proof fn lemma_grant_union_has(
    caps: Map<Key, u64>,
    rows: Seq<(Key, u64)>,
    acc: u64,
    x: u64,
    po: u64,
    ts: Option<u64>,
    i: int,
)
    requires
        0 <= i < rows.len(),
        crate::graph::grant_bits(caps, rows[i], x, po, ts) is Some,
    ensures
        grant_union(caps, rows, acc, x, po, ts) & crate::graph::grant_bits(caps, rows[i], x, po, ts)->0
            == crate::graph::grant_bits(caps, rows[i], x, po, ts)->0,
    decreases rows.len(),
{
    let b = crate::graph::grant_bits(caps, rows[i], x, po, ts)->0;
    let prev = grant_union(caps, rows.drop_last(), acc, x, po, ts);
    if i == rows.len() - 1 {
        lemma_or_keeps(prev, b);
    } else {
        lemma_grant_union_has(caps, rows.drop_last(), acc, x, po, ts, i);
        assert(rows.drop_last()[i] == rows[i]);
        match crate::graph::grant_bits(caps, rows.last(), x, po, ts) {
            Some(c) => {
                lemma_or_keeps(prev, c);
                lemma_and_trans(prev | c, prev, b);
            },
            None => {},
        }
    }
}

/// With depth limit 0 `check_access` follows no delegation: the result is
/// exactly the subject's own grants on the object and on its type scope.
pub proof fn lemma_access_at_depth_zero(g: Graph, po: u64, ts: Option<u64>, ps: u64)
    ensures
        g.walk(po, ts, 0, seq![(ps, 0usize)], Set::<u64>::empty(), 0) == grant_union(
            g.caps_map(),
            g.grant_rows(),
            0,
            ps,
            po,
            ts,
        ),
{
    let stack = seq![(ps, 0usize)];
    let acc2 = grant_union(g.caps_map(), g.grant_rows(), 0, ps, po, ts);
    crate::graph::lemma_pending_visit(g.inherit_rows(), Set::<u64>::empty(), po, ps);
    assert(stack.drop_last() + Seq::<(u64, usize)>::empty() =~= Seq::<(u64, usize)>::empty());
    assert(g.walk(po, ts, 0, stack, Set::<u64>::empty(), 0) == g.walk(
        po,
        ts,
        0,
        stack.drop_last() + Seq::<(u64, usize)>::empty(),
        Set::<u64>::empty().insert(ps),
        acc2,
    ));
}

/// A stored grant counts in `check_access`: when seeker `ps` holds role
/// `role` on scope `po` and that role's capability there is `m`, the walk
/// from `ps` reports every bit of `m`.
pub proof fn lemma_access_sees_granted_capability(
    g: Graph,
    ps: u64,
    po: u64,
    role: u64,
    m: u64,
    ts: Option<u64>,
    limit: usize,
)
    requires
        g.wf(),
        g.grants_map().contains_key((ps, po, role)),
        opt_get(g.caps_map(), (po, role, 0)) == Some(m),
    ensures
        g.walk(po, ts, limit, seq![(ps, 0usize)], Set::<u64>::empty(), 0) & m == m,
{
    g.lemma_rows_denote();
    let i = choose|i: int| 0 <= i < g.grant_rows().len() && #[trigger] g.grant_rows()[i].0 == (ps, po, role);
    assert(crate::graph::grant_bits(g.caps_map(), g.grant_rows()[i], ps, po, ts) == Some(m));
    lemma_grant_union_has(g.caps_map(), g.grant_rows(), 0, ps, po, ts, i);
    lemma_access_includes_own_grants(g, po, ts, limit, ps);
    let u = grant_union(g.caps_map(), g.grant_rows(), 0, ps, po, ts);
    lemma_and_trans(g.walk(po, ts, limit, seq![(ps, 0usize)], Set::<u64>::empty(), 0), u, m);
}

// -- the write batcher: a flushed grant is seen ----------------------------------------

/// The permission walk keeps every bit it starts from.
proof fn lemma_chain_keeps(st: &MaskStore, acc: u64, subject: u64, object: u64, steps: nat)
    ensures
        chain_mask(st, acc, subject, object, steps) & acc == acc,
    decreases steps,
{
    if steps == 0 {
        assert(acc & acc == acc) by (bit_vector);
    } else {
        let acc2 = acc | role_bits(st, subject, object);
        lemma_or_keeps(acc, role_bits(st, subject, object));
        match st.parent(object, subject) {
            Some(p) => {
                lemma_chain_keeps(st, acc2, p, object, (steps - 1) as nat);
                lemma_and_trans(chain_mask(st, acc2, p, object, (steps - 1) as nat), acc2, acc);
            },
            None => {},
        }
    }
}

/// A grant that went through the batcher reads back through `get_role_id`:
/// when a batch holding only the grant of `mask` to `subject` on `object`
/// is flushed, the role stored there is the one before with `mask` ORed in.
pub proof fn lemma_flushed_grant_role_id(st0: MaskStore, st1: MaskStore, b: BatchView, subject: u64, object: u64, mask: u64)
    requires
        b.grants == seq![((subject, object, 0u64), mask)],
        b.revokes.len() == 0,
        b.roles.len() == 0,
        b.inherits.len() == 0,
        b.rm_inherits.len() == 0,
        ops_apply(grants_of(&st0), pending_ops(b)) matches Ok(m) && grants_of(&st1) == m,
    ensures
        st1.cap(subject, object) == Some(or_else_zero(st0.cap(subject, object)) | mask),
        st1.roles_map() == st0.roles_map(),
{
    let g = Op::Grant { subject, object, mask };
    assert(pending_ops(b) =~= seq![g]);
    assert(seq![g].drop_last() =~= Seq::<Op>::empty());
    let m0 = grants_of(&st0);
    assert(ops_apply(m0, Seq::<Op>::empty()) == Ok::<Grants, Seq<char>>(m0));
    assert(ops_apply(m0, seq![g]) == op_apply(m0, g));
    let m = op_apply(m0, g)->Ok_0;
    assert(grants_of(&st1) == m);
    assert(st1.caps_map() == m.caps);
    assert(st1.roles_map() == m.roles);
}

/// A grant that went through the batcher is seen by `check`: when a batch
/// holding only the grant of `mask` to `subject` on `object` is flushed, and
/// the granted value names no role defined on `object`, the subject holds
/// every bit of `mask` there.
pub proof fn lemma_flushed_grant_is_seen(st0: MaskStore, st1: MaskStore, b: BatchView, subject: u64, object: u64, mask: u64)
    requires
        b.grants == seq![((subject, object, 0u64), mask)],
        b.revokes.len() == 0,
        b.roles.len() == 0,
        b.inherits.len() == 0,
        b.rm_inherits.len() == 0,
        ops_apply(grants_of(&st0), pending_ops(b)) matches Ok(m) && grants_of(&st1) == m,
        st0.role_mask(object, or_else_zero(st0.cap(subject, object)) | mask) is None,
    ensures
        effective_mask(&st1, subject, object) & mask == mask,
{
    let g = Op::Grant { subject, object, mask };
    assert(pending_ops(b) =~= seq![g]);
    assert(seq![g].drop_last() =~= Seq::<Op>::empty());
    let m0 = grants_of(&st0);
    assert(ops_apply(m0, Seq::<Op>::empty()) == Ok::<Grants, Seq<char>>(m0));
    assert(ops_apply(m0, seq![g]) == op_apply(m0, g));
    let m = op_apply(m0, g)->Ok_0;
    assert(grants_of(&st1) == m);
    assert(st1.caps_map() == m.caps);
    assert(st1.roles_map() == m.roles);
    let v = or_else_zero(st0.cap(subject, object)) | mask;
    assert(st1.cap(subject, object) == Some(v));
    assert(st1.roles_map() == st0.roles_map());
    lemma_or_keeps(or_else_zero(st0.cap(subject, object)), mask);
    if v == 0 {
        let w = or_else_zero(st0.cap(subject, object));
        assert((w | mask) == 0 ==> mask == 0) by (bit_vector);
        assert(effective_mask(&st1, subject, object) & 0 == 0) by (bit_vector);
    } else {
        assert(role_bits(&st1, subject, object) == v);
        let acc2 = 0u64 | v;
        assert(acc2 == v) by (bit_vector)
            requires
                acc2 == 0u64 | v,
        ;
        match st1.parent(object, subject) {
            Some(p) => {
                lemma_chain_keeps(&st1, acc2, p, object, 9);
                lemma_and_trans(chain_mask(&st1, acc2, p, object, 9), v, mask);
            },
            None => {},
        }
    }
}

/// The value of `o`, or 0.
pub open spec fn or_else_zero(o: Option<u64>) -> u64 {
    match o {
        Some(v) => v,
        None => 0,
    }
}

/// The capability mask that `op` stores when it runs on `g`, with its key:
/// the entity's packed id, the role's id (a new one for a new label), 0.
pub open spec fn capability_write(g: Graph, op: WriteOp) -> Option<(Key, u64)> {
    match op {
        WriteOp::SetCapability { entity, rel_type, cap_mask } => {
            let s = g.resolved_view(entity@)->Ok_0;
            Some(((pack(s.0, s.1), g.role_after(rel_type@) as u64, 0), cap_mask))
        },
        _ => None,
    }
}

/// The mask under `key` after the first `k` writes of a run: the mask of the
/// last of them that stores one under `key`, else the mask stored before.
pub open spec fn last_capability(states: Seq<Graph>, ops: Seq<WriteOp>, k: int, key: Key) -> Option<u64>
    decreases k,
{
    if k <= 0 {
        opt_get(states[0].caps_map(), key)
    } else {
        match capability_write(states[k - 1], ops[k - 1]) {
            Some((w, m)) => if w == key {
                Some(m)
            } else {
                last_capability(states, ops, k - 1, key)
            },
            None => last_capability(states, ops, k - 1, key),
        }
    }
}

/// Last write wins: after writes run in order (as `WriteBatch::execute` and
/// `batch_set_capabilities` run them), the mask under each key is the one the
/// last capability write to that key stored; writes of other kinds leave
/// the masks alone, and a key no write touched keeps its mask.
pub proof fn lemma_batch_last_write_wins(states: Seq<Graph>, ops: Seq<WriteOp>, now: u64, k: int, j: int, key: Key)
    requires
        runs(states, ops, now, k),
        0 <= j <= k,
    ensures
        opt_get(states[j].caps_map(), key) == last_capability(states, ops, j, key),
    decreases j,
{
    if j > 0 {
        lemma_batch_last_write_wins(states, ops, now, k, j - 1, key);
        assert(step_ok(states, ops, now, j - 1));
        reveal(op_applied);
    }
}

/// Along a run of writes, the types and entity rows stay as they were, and a
/// role label that has an id keeps it.
pub proof fn lemma_run_keeps_names(states: Seq<Graph>, ops: Seq<WriteOp>, now: u64, k: int, i: int, j: int, label: Seq<char>)
    requires
        runs(states, ops, now, k),
        0 <= i <= j <= k,
    ensures
        states[j].types_map() == states[i].types_map(),
        states[j].entity_rows() == states[i].entity_rows(),
        states[i].role_id_of(label) is Some ==> states[j].role_id_of(label) == states[i].role_id_of(label),
    decreases j - i,
{
    if i < j {
        lemma_run_keeps_names(states, ops, now, k, i, j - 1, label);
        assert(step_ok(states, ops, now, j - 1));
        reveal(op_applied);
    }
}

/// Two capability writes of one run that name the same entity and the same
/// role label store under the same key, so the later one wins: in a batch
/// that sets the masks one, two, then four for one entity and role, four is
/// what is read back.
pub proof fn lemma_same_pair_same_key(states: Seq<Graph>, ops: Seq<WriteOp>, now: u64, k: int, i: int, j: int)
    requires
        runs(states, ops, now, k),
        0 <= i < j < k,
        ops[i] is SetCapability,
        ops[j] is SetCapability,
        ops[i]->SetCapability_entity@ == ops[j]->SetCapability_entity@,
        ops[i]->SetCapability_rel_type@ == ops[j]->SetCapability_rel_type@,
    ensures
        (capability_write(states[i], ops[i])->0).0 == (capability_write(states[j], ops[j])->0).0,
{
    let rel = ops[i]->SetCapability_rel_type@;
    assert(step_ok(states, ops, now, i));
    reveal(op_applied);
    assert(states[i + 1].role_id_of(rel) == Some(states[i].role_after(rel)));
    lemma_run_keeps_names(states, ops, now, k, i + 1, j, rel);
    lemma_run_keeps_names(states, ops, now, k, i, j, rel);
    states[j].lemma_same_resolution(&states[i]);
}

/// `seekers` is closed under delegation on scope `po`: every source that a
/// seeker in it inherits from on `po` is in it too.
pub open spec fn delegation_closed(g: Graph, po: u64, seekers: Set<u64>) -> bool {
    forall|k: Key| #[trigger] g.inherits_map().contains_key(k) && seekers.contains(k.0) && k.1 == po ==> seekers.contains(k.2)
}

/// The bits of `u` include every bit of `b`.
pub open spec fn covers(u: u64, b: u64) -> bool {
    u & b == b
}

proof fn lemma_covers_zero(u: u64)
    ensures
        covers(u, 0),
{
    assert(u & 0 == 0) by (bit_vector);
}

proof fn lemma_or_covered(u: u64, a: u64, b: u64)
    requires
        covers(u, a),
        covers(u, b),
    ensures
        covers(u, a | b),
{
    assert(u & a == a && u & b == b ==> u & (a | b) == (a | b)) by (bit_vector);
}

/// Uniting grant bits stays within `u` when the start does and the bits
/// alone do.
proof fn lemma_grant_union_covered(
    caps: Map<Key, u64>,
    rows: Seq<(Key, u64)>,
    acc: u64,
    x: u64,
    po: u64,
    ts: Option<u64>,
    u: u64,
)
    requires
        covers(u, acc),
        covers(u, grant_union(caps, rows, 0, x, po, ts)),
    ensures
        covers(u, grant_union(caps, rows, acc, x, po, ts)),
    decreases rows.len(),
{
    if rows.len() > 0 {
        let p0 = grant_union(caps, rows.drop_last(), 0, x, po, ts);
        match crate::graph::grant_bits(caps, rows.last(), x, po, ts) {
            Some(b) => {
                lemma_or_keeps(p0, b);
                lemma_and_trans(u, p0 | b, p0);
                lemma_and_trans(u, p0 | b, b);
                lemma_grant_union_covered(caps, rows.drop_last(), acc, x, po, ts, u);
                lemma_or_covered(u, grant_union(caps, rows.drop_last(), acc, x, po, ts), b);
            },
            None => {
                lemma_grant_union_covered(caps, rows.drop_last(), acc, x, po, ts, u);
            },
        }
    }
}

proof fn lemma_walk_covered(
    g: Graph,
    po: u64,
    ts: Option<u64>,
    limit: usize,
    stack: Seq<(u64, usize)>,
    visited: Set<u64>,
    acc: u64,
    seekers: Set<u64>,
    u: u64,
)
    requires
        g.wf(),
        delegation_closed(g, po, seekers),
        forall|x: u64| #[trigger] seekers.contains(x) ==> covers(u, grant_union(g.caps_map(), g.grant_rows(), 0, x, po, ts)),
        forall|i: int| 0 <= i < stack.len() ==> seekers.contains(#[trigger] stack[i].0),
        covers(u, acc),
    ensures
        covers(u, g.walk(po, ts, limit, stack, visited, acc)),
    decreases stack.len() + crate::graph::pending(g.inherit_rows(), visited, po),
{
    if stack.len() > 0 {
        let (x, d) = stack.last();
        let rest = stack.drop_last();
        assert(seekers.contains(stack[stack.len() - 1].0));
        assert forall|i: int| 0 <= i < rest.len() implies seekers.contains(#[trigger] rest[i].0) by {
            assert(rest[i] == stack[i]);
        }
        if visited.contains(x) {
            lemma_walk_covered(g, po, ts, limit, rest, visited, acc, seekers, u);
        } else {
            let acc2 = grant_union(g.caps_map(), g.grant_rows(), acc, x, po, ts);
            let kids = if d < limit {
                crate::graph::children(g.inherit_rows(), x, po, (d + 1) as usize)
            } else {
                Seq::<(u64, usize)>::empty()
            };
            lemma_grant_union_covered(g.caps_map(), g.grant_rows(), acc, x, po, ts, u);
            g.lemma_rows_denote();
            let f = g.inherit_rows().filter(crate::graph::scope_rows(x, po));
            assert forall|i: int| 0 <= i < kids.len() implies seekers.contains(#[trigger] kids[i].0) by {
                if d < limit {
                    assert(kids[i].0 == f[i].0.2);
                    assert(f.contains(f[i]));
                    g.inherit_rows().lemma_filter_contains_rev(crate::graph::scope_rows(x, po), f[i]);
                    g.inherit_rows().lemma_filter_pred(crate::graph::scope_rows(x, po), i);
                    let j = choose|j: int| 0 <= j < g.inherit_rows().len() && g.inherit_rows()[j] == f[i];
                    assert(g.inherit_rows()[j].0 == f[i].0);
                    assert(g.inherits_map().contains_key(f[i].0));
                }
            }
            let st2 = rest + kids;
            assert forall|i: int| 0 <= i < st2.len() implies seekers.contains(#[trigger] st2[i].0) by {
                if i < rest.len() {
                    assert(st2[i] == rest[i]);
                } else {
                    assert(st2[i] == kids[i - rest.len()]);
                }
            }
            crate::graph::lemma_pending_visit(g.inherit_rows(), visited, po, x);
            lemma_walk_covered(g, po, ts, limit, st2, visited.insert(x), acc2, seekers, u);
        }
    }
}

/// Access reaches no further than delegation does: for any set of seekers
/// that holds the subject and every source a member inherits from on the
/// object, and any mask `u` that holds the grant bits of every member, the
/// walk of `check_access` (at any depth limit, cycles included) gives only
/// bits of `u`. Taking the seekers reachable from the subject, the result
/// lies within the union of their grants.
pub proof fn lemma_access_within_reach(
    g: Graph,
    po: u64,
    ts: Option<u64>,
    limit: usize,
    ps: u64,
    seekers: Set<u64>,
    u: u64,
)
    requires
        g.wf(),
        seekers.contains(ps),
        delegation_closed(g, po, seekers),
        forall|x: u64| #[trigger] seekers.contains(x) ==> covers(u, grant_union(g.caps_map(), g.grant_rows(), 0, x, po, ts)),
    ensures
        covers(u, g.walk(po, ts, limit, seq![(ps, 0usize)], Set::<u64>::empty(), 0)),
{
    lemma_covers_zero(u);
    lemma_walk_covered(g, po, ts, limit, seq![(ps, 0usize)], Set::<u64>::empty(), 0, seekers, u);
}

/// The seekers the walk of `check_access` has visited once its stack is empty.
pub open spec fn walk_seen(
    g: Graph,
    po: u64,
    limit: usize,
    stack: Seq<(u64, usize)>,
    visited: Set<u64>,
) -> Set<u64>
    decreases stack.len() + crate::graph::pending(g.inherit_rows(), visited, po),
{
    if stack.len() == 0 {
        visited
    } else {
        let (x, d) = stack.last();
        let rest = stack.drop_last();
        if visited.contains(x) {
            walk_seen(g, po, limit, rest, visited)
        } else {
            let kids = if d < limit {
                crate::graph::children(g.inherit_rows(), x, po, (d + 1) as usize)
            } else {
                Seq::<(u64, usize)>::empty()
            };
            proof {
                crate::graph::lemma_pending_visit(g.inherit_rows(), visited, po, x);
            }
            walk_seen(g, po, limit, rest + kids, visited.insert(x))
        }
    }
}

/// Uniting grant bits into `acc` keeps every bit the grants alone give.
proof fn lemma_grant_union_has_own(
    caps: Map<Key, u64>,
    rows: Seq<(Key, u64)>,
    acc: u64,
    x: u64,
    po: u64,
    ts: Option<u64>,
)
    ensures
        covers(grant_union(caps, rows, acc, x, po, ts), grant_union(caps, rows, 0, x, po, ts)),
    decreases rows.len(),
{
    if rows.len() == 0 {
        lemma_covers_zero(acc);
    } else {
        lemma_grant_union_has_own(caps, rows.drop_last(), acc, x, po, ts);
        let pa = grant_union(caps, rows.drop_last(), acc, x, po, ts);
        let p0 = grant_union(caps, rows.drop_last(), 0, x, po, ts);
        match crate::graph::grant_bits(caps, rows.last(), x, po, ts) {
            Some(b) => {
                lemma_or_keeps(pa, b);
                lemma_and_trans(pa | b, pa, p0);
                lemma_or_covered(pa | b, p0, b);
            },
            None => {},
        }
    }
}

/// Every seeker the walk newly visits has its grant bits in the result.
proof fn lemma_seen_covered(
    g: Graph,
    po: u64,
    ts: Option<u64>,
    limit: usize,
    stack: Seq<(u64, usize)>,
    visited: Set<u64>,
    acc: u64,
    y: u64,
)
    requires
        walk_seen(g, po, limit, stack, visited).contains(y),
        !visited.contains(y),
    ensures
        covers(g.walk(po, ts, limit, stack, visited, acc), grant_union(g.caps_map(), g.grant_rows(), 0, y, po, ts)),
    decreases stack.len() + crate::graph::pending(g.inherit_rows(), visited, po),
{
    if stack.len() > 0 {
        let (x, d) = stack.last();
        let rest = stack.drop_last();
        if visited.contains(x) {
            lemma_seen_covered(g, po, ts, limit, rest, visited, acc, y);
        } else {
            let acc2 = grant_union(g.caps_map(), g.grant_rows(), acc, x, po, ts);
            let kids = if d < limit {
                crate::graph::children(g.inherit_rows(), x, po, (d + 1) as usize)
            } else {
                Seq::<(u64, usize)>::empty()
            };
            crate::graph::lemma_pending_visit(g.inherit_rows(), visited, po, x);
            let w = g.walk(po, ts, limit, rest + kids, visited.insert(x), acc2);
            if y == x {
                lemma_walk_keeps(g, po, ts, limit, rest + kids, visited.insert(x), acc2);
                lemma_grant_union_has_own(g.caps_map(), g.grant_rows(), acc, x, po, ts);
                lemma_and_trans(w, acc2, grant_union(g.caps_map(), g.grant_rows(), 0, x, po, ts));
            } else {
                lemma_seen_covered(g, po, ts, limit, rest + kids, visited.insert(x), acc2, y);
            }
        }
    }
}

/// The walk visits every seeker it starts with on its stack.
proof fn lemma_seen_holds_stack(g: Graph, po: u64, limit: usize, stack: Seq<(u64, usize)>, visited: Set<u64>)
    ensures
        visited.subset_of(walk_seen(g, po, limit, stack, visited)),
        forall|i: int| 0 <= i < stack.len() ==> walk_seen(g, po, limit, stack, visited).contains(#[trigger] stack[i].0),
    decreases stack.len() + crate::graph::pending(g.inherit_rows(), visited, po),
{
    if stack.len() > 0 {
        let (x, d) = stack.last();
        let rest = stack.drop_last();
        if visited.contains(x) {
            lemma_seen_holds_stack(g, po, limit, rest, visited);
            assert forall|i: int| 0 <= i < stack.len() implies walk_seen(g, po, limit, stack, visited).contains(
                #[trigger] stack[i].0,
            ) by {
                if i < rest.len() {
                    assert(rest[i] == stack[i]);
                }
            }
        } else {
            let kids = if d < limit {
                crate::graph::children(g.inherit_rows(), x, po, (d + 1) as usize)
            } else {
                Seq::<(u64, usize)>::empty()
            };
            crate::graph::lemma_pending_visit(g.inherit_rows(), visited, po, x);
            lemma_seen_holds_stack(g, po, limit, rest + kids, visited.insert(x));
            assert forall|i: int| 0 <= i < stack.len() implies walk_seen(g, po, limit, stack, visited).contains(
                #[trigger] stack[i].0,
            ) by {
                if i < rest.len() {
                    assert((rest + kids)[i] == stack[i]);
                }
            }
        }
    }
}

/// The delegation rows of seeker `x` on scope `po` lead to seekers in `seen`,
/// or to seekers on `stack`.
pub open spec fn kids_placed(rows: Seq<(Key, u64)>, po: u64, x: u64, seen: Set<u64>, stack: Seq<(u64, usize)>) -> bool {
    forall|e: (Key, u64)| #[trigger] rows.contains(e) && crate::graph::on_scope(e, x, po) ==> seen.contains(e.0.2)
        || exists|i: int| 0 <= i < stack.len() && #[trigger] stack[i].0 == e.0.2
}

/// When the depth limit never cuts the walk short, the seekers it visits
/// are closed under delegation on the scope.
proof fn lemma_seen_closed(
    g: Graph,
    po: u64,
    limit: usize,
    stack: Seq<(u64, usize)>,
    visited: Set<u64>,
    ptot: nat,
)
    requires
        ptot <= limit,
        forall|i: int| 0 <= i < stack.len() ==> #[trigger] stack[i].1 + crate::graph::pending(g.inherit_rows(), visited, po) <= ptot,
        forall|v: u64| #[trigger] visited.contains(v) ==> kids_placed(g.inherit_rows(), po, v, visited, stack),
    ensures
        forall|v: u64| #[trigger] walk_seen(g, po, limit, stack, visited).contains(v) ==> kids_placed(
            g.inherit_rows(),
            po,
            v,
            walk_seen(g, po, limit, stack, visited),
            Seq::<(u64, usize)>::empty(),
        ),
    decreases stack.len() + crate::graph::pending(g.inherit_rows(), visited, po),
{
    let rows = g.inherit_rows();
    if stack.len() == 0 {
        assert(stack =~= Seq::<(u64, usize)>::empty());
        assert(walk_seen(g, po, limit, stack, visited) == visited);
    } else {
        let (x, d) = stack.last();
        let rest = stack.drop_last();
        if visited.contains(x) {
            assert forall|i: int| 0 <= i < rest.len() implies #[trigger] rest[i].1 + crate::graph::pending(rows, visited, po) <= ptot by {
                assert(rest[i] == stack[i]);
            }
            assert forall|v: u64| #[trigger] visited.contains(v) implies kids_placed(rows, po, v, visited, rest) by {
                assert(kids_placed(rows, po, v, visited, stack));
                assert forall|e: (Key, u64)| #[trigger] rows.contains(e) && crate::graph::on_scope(e, v, po) implies visited.contains(e.0.2)
                    || exists|i: int| 0 <= i < rest.len() && #[trigger] rest[i].0 == e.0.2 by {
                    if !visited.contains(e.0.2) {
                        let i = choose|i: int| 0 <= i < stack.len() && #[trigger] stack[i].0 == e.0.2;
                        if i < rest.len() {
                            assert(rest[i] == stack[i]);
                        }
                    }
                }
            }
            lemma_seen_closed(g, po, limit, rest, visited, ptot);
            assert(walk_seen(g, po, limit, stack, visited) == walk_seen(g, po, limit, rest, visited));
        } else {
            let f = rows.filter(crate::graph::scope_rows(x, po));
            let kids = if d < limit {
                crate::graph::children(rows, x, po, (d + 1) as usize)
            } else {
                Seq::<(u64, usize)>::empty()
            };
            crate::graph::lemma_pending_visit(rows, visited, po, x);
            let v2 = visited.insert(x);
            let st2 = rest + kids;
            assert(stack[stack.len() - 1].1 + crate::graph::pending(rows, visited, po) <= ptot);
            if d >= limit {
                assert(f.len() == 0);
            }
            assert forall|i: int| 0 <= i < st2.len() implies #[trigger] st2[i].1 + crate::graph::pending(rows, v2, po) <= ptot by {
                if i < rest.len() {
                    assert(st2[i] == stack[i]);
                } else {
                    assert(st2[i] == kids[i - rest.len()]);
                }
            }
            assert forall|v: u64| #[trigger] v2.contains(v) implies kids_placed(rows, po, v, v2, st2) by {
                assert forall|e: (Key, u64)| #[trigger] rows.contains(e) && crate::graph::on_scope(e, v, po) implies v2.contains(e.0.2)
                    || exists|i: int| 0 <= i < st2.len() && #[trigger] st2[i].0 == e.0.2 by {
                    if v == x {
                        let j = choose|j: int| 0 <= j < rows.len() && rows[j] == e;
                        rows.lemma_filter_contains(crate::graph::scope_rows(x, po), j);
                        let k = choose|k: int| 0 <= k < f.len() && f[k] == e;
                        assert(d < limit);
                        assert(kids[k].0 == e.0.2);
                        assert(st2[rest.len() + k] == kids[k]);
                    } else {
                        assert(kids_placed(rows, po, v, visited, stack));
                        if !visited.contains(e.0.2) && e.0.2 != x {
                            let i = choose|i: int| 0 <= i < stack.len() && #[trigger] stack[i].0 == e.0.2;
                            assert(i < rest.len());
                            assert(st2[i] == stack[i]);
                        }
                    }
                }
            }
            lemma_seen_closed(g, po, limit, st2, v2, ptot);
            assert(walk_seen(g, po, limit, stack, visited) == walk_seen(g, po, limit, st2, v2));
        }
    }
}

/// Access reaches every delegate: when the depth limit is at least the
/// number of delegation rows (so it never cuts the walk short), the walk of
/// `check_access` gives every bit granted to any seeker the subject reaches
/// by delegation on the object, cycles included. With
/// `lemma_access_within_reach`, the result is exactly the union of the
/// grants of the seekers the subject reaches.
pub proof fn lemma_access_reaches_delegates(g: Graph, po: u64, ts: Option<u64>, limit: usize, ps: u64, y: u64)
    requires
        g.wf(),
        limit >= g.inherit_rows().len(),
        reached(g, po, ps).contains(y),
    ensures
        covers(
            g.walk(po, ts, limit, seq![(ps, 0usize)], Set::<u64>::empty(), 0),
            grant_union(g.caps_map(), g.grant_rows(), 0, y, po, ts),
        ),
{
    let rows = g.inherit_rows();
    let stack = seq![(ps, 0usize)];
    let e0 = Set::<u64>::empty();
    let ptot = crate::graph::pending(rows, e0, po);
    rows.lemma_filter_len(crate::graph::unvisited_on(e0, po));
    lemma_seen_closed(g, po, limit, stack, e0, ptot);
    lemma_seen_holds_stack(g, po, limit, stack, e0);
    let seen = walk_seen(g, po, limit, stack, e0);
    assert(seen.contains(stack[0].0));
    g.lemma_rows_denote();
    assert forall|k: Key| #[trigger] g.inherits_map().contains_key(k) && seen.contains(k.0) && k.1 == po implies seen.contains(k.2) by {
        let i = choose|i: int| 0 <= i < rows.len() && #[trigger] rows[i].0 == k;
        assert(rows.contains(rows[i]));
        assert(kids_placed(rows, po, k.0, seen, Seq::<(u64, usize)>::empty()));
    }
    assert(delegation_closed(g, po, seen));
    lemma_seen_covered(g, po, ts, limit, stack, e0, 0, y);
}

/// The seekers that lie in every delegation-closed set holding `ps`: those
/// `ps` reaches by delegation on scope `po`.
pub open spec fn reached(g: Graph, po: u64, ps: u64) -> Set<u64> {
    Set::new(|y: u64| forall|v: Set<u64>| #[trigger] delegation_closed(g, po, v) && v.contains(ps) ==> v.contains(y))
}

/// Stack entries whose seeker is not in `vis`.
pub open spec fn unvisited_entry(vis: Set<u64>) -> spec_fn((u64, usize)) -> bool {
    |e: (u64, usize)| !vis.contains(e.0)
}

/// The entries of `st` that the walk would still expand, given `vis`.
pub open spec fn live(st: Seq<(u64, usize)>, vis: Set<u64>) -> Seq<(u64, usize)> {
    st.filter(unvisited_entry(vis))
}

proof fn lemma_live_monotone(s: Seq<(u64, usize)>, vis: Set<u64>, vis2: Set<u64>)
    requires
        vis.subset_of(vis2),
    ensures
        live(live(s, vis), vis2) == live(s, vis2),
    decreases s.len(),
{
    reveal(Seq::filter);
    if s.len() > 0 {
        lemma_live_monotone(s.drop_last(), vis, vis2);
        let l1 = live(s.drop_last(), vis);
        if !vis.contains(s.last().0) {
            assert(live(s, vis) == l1.push(s.last()));
            assert(live(s, vis).drop_last() =~= l1);
            assert(live(s, vis).last() == s.last());
        }
    }
}

proof fn lemma_filter_sorted(s: Seq<(Key, u64)>, p: spec_fn((Key, u64)) -> bool)
    requires
        sorted(s),
    ensures
        sorted(s.filter(p)),
    decreases s.len(),
{
    reveal(Seq::filter);
    if s.len() > 0 {
        let dl = s.drop_last();
        assert(sorted(dl)) by {
            assert forall|i: int, j: int| 0 <= i < j < dl.len() implies key_lt(#[trigger] dl[i].0, #[trigger] dl[j].0) by {
                assert(dl[i] == s[i] && dl[j] == s[j]);
            }
        }
        lemma_filter_sorted(dl, p);
        let f = dl.filter(p);
        if p(s.last()) {
            let out = f.push(s.last());
            assert forall|i: int, j: int| 0 <= i < j < out.len() implies key_lt(#[trigger] out[i].0, #[trigger] out[j].0) by {
                if j == out.len() - 1 {
                    assert(out[i] == f[i]);
                    assert(f.contains(f[i]));
                    dl.lemma_filter_contains_rev(p, f[i]);
                    let k = choose|k: int| 0 <= k < dl.len() && dl[k] == f[i];
                    assert(s[k] == dl[k]);
                    assert(key_lt(s[k].0, s[s.len() - 1].0));
                } else {
                    assert(out[i] == f[i] && out[j] == f[j]);
                }
            }
        }
    }
}

proof fn lemma_sorted_same_rows(s: Seq<(Key, u64)>, t: Seq<(Key, u64)>)
    requires
        sorted(s),
        sorted(t),
        forall|e: (Key, u64)| s.contains(e) <==> t.contains(e),
    ensures
        s == t,
    decreases s.len(),
{
    if s.len() == 0 {
        if t.len() > 0 {
            assert(t.contains(t[0]));
        }
        assert(s =~= t);
    } else {
        assert(s.contains(s[0]));
        let j = choose|j: int| 0 <= j < t.len() && t[j] == s[0];
        assert(t.contains(t[0]));
        let k = choose|k: int| 0 <= k < s.len() && s[k] == t[0];
        if j > 0 && k > 0 {
            assert(key_lt(t[0].0, t[j].0));
            assert(key_lt(s[0].0, s[k].0));
        }
        assert(s[0] == t[0]);
        let s1 = s.drop_first();
        let t1 = t.drop_first();
        assert(sorted(s1)) by {
            assert forall|a: int, b: int| 0 <= a < b < s1.len() implies key_lt(#[trigger] s1[a].0, #[trigger] s1[b].0) by {
                assert(s1[a] == s[a + 1] && s1[b] == s[b + 1]);
            }
        }
        assert(sorted(t1)) by {
            assert forall|a: int, b: int| 0 <= a < b < t1.len() implies key_lt(#[trigger] t1[a].0, #[trigger] t1[b].0) by {
                assert(t1[a] == t[a + 1] && t1[b] == t[b + 1]);
            }
        }
        assert forall|e: (Key, u64)| s1.contains(e) <==> t1.contains(e) by {
            if s1.contains(e) {
                let a = choose|a: int| 0 <= a < s1.len() && s1[a] == e;
                assert(s[a + 1] == e);
                assert(key_lt(s[0].0, s[a + 1].0));
                assert(t.contains(e));
                let b = choose|b: int| 0 <= b < t.len() && t[b] == e;
                assert(b != 0);
                assert(t1[b - 1] == e);
            }
            if t1.contains(e) {
                let a = choose|a: int| 0 <= a < t1.len() && t1[a] == e;
                assert(t[a + 1] == e);
                assert(key_lt(t[0].0, t[a + 1].0));
                assert(s.contains(e));
                let b = choose|b: int| 0 <= b < s.len() && s[b] == e;
                assert(b != 0);
                assert(s1[b - 1] == e);
            }
        }
        lemma_sorted_same_rows(s1, t1);
        assert forall|i: int| 0 <= i < s.len() implies s[i] == t[i] by {
            if i > 0 {
                assert(s[i] == s1[i - 1] && t[i] == t1[i - 1]);
            }
        }
        assert(s =~= t);
    }
}

proof fn lemma_row_in_map(s: Seq<(Key, u64)>, e: (Key, u64))
    requires
        sorted(s),
    ensures
        s.contains(e) <==> (as_map(s).contains_key(e.0) && as_map(s)[e.0] == e.1),
{
    if s.contains(e) {
        let i = choose|i: int| 0 <= i < s.len() && s[i] == e;
        assert(as_map(s).contains_key(e.0));
        let j = choose|j: int| 0 <= j < s.len() && #[trigger] s[j].0 == e.0;
        crate::table::Table::<u64>::lemma_sorted_unique(s, i, j);
    }
    if as_map(s).contains_key(e.0) && as_map(s)[e.0] == e.1 {
        let j = choose|j: int| 0 <= j < s.len() && #[trigger] s[j].0 == e.0;
        assert(s[j] == e);
    }
}

proof fn lemma_filter_map_filter(
    s: Seq<(Key, u64)>,
    p: spec_fn((Key, u64)) -> bool,
    f: spec_fn((Key, u64)) -> (u64, usize),
    q: spec_fn((u64, usize)) -> bool,
    pq: spec_fn((Key, u64)) -> bool,
)
    requires
        forall|e: (Key, u64)| #[trigger] pq(e) == (p(e) && q(f(e))),
    ensures
        s.filter(p).map_values(f).filter(q) == s.filter(pq).map_values(f),
    decreases s.len(),
{
    reveal(Seq::filter);
    if s.len() == 0 {
        assert(s.filter(p).map_values(f).filter(q) =~= s.filter(pq).map_values(f));
    } else {
        let dl = s.drop_last();
        let y = s.last();
        lemma_filter_map_filter(dl, p, f, q, pq);
        let a = dl.filter(p);
        if p(y) {
            assert(a.push(y).map_values(f) =~= a.map_values(f).push(f(y)));
            assert(a.map_values(f).push(f(y)).drop_last() =~= a.map_values(f));
            if q(f(y)) {
                assert(dl.filter(pq).push(y).map_values(f) =~= dl.filter(pq).map_values(f).push(f(y)));
            }
        }
    }
}

/// `g2` is `g` with seeker `a` made to inherit from itself on scope `po`.
pub open spec fn self_delegation_added(g: Graph, g2: Graph, po: u64, a: u64, epoch: u64) -> bool {
    &&& g.wf()
    &&& g2.wf()
    &&& g2.caps_map() == g.caps_map()
    &&& g2.grants_map() == g.grants_map()
    &&& g2.inherits_map() == g.inherits_map().insert((a, po, a), epoch)
}

proof fn lemma_walk_same(
    g: Graph,
    g2: Graph,
    po: u64,
    ts: Option<u64>,
    limit: usize,
    a: u64,
    epoch: u64,
    st1: Seq<(u64, usize)>,
    st2: Seq<(u64, usize)>,
    vis: Set<u64>,
    acc: u64,
)
    requires
        self_delegation_added(g, g2, po, a, epoch),
        g2.grant_rows() == g.grant_rows(),
        live(st1, vis) == live(st2, vis),
    ensures
        g.walk(po, ts, limit, st1, vis, acc) == g2.walk(po, ts, limit, st2, vis, acc),
    decreases st1.len() + st2.len() + crate::graph::pending(g.inherit_rows(), vis, po) + crate::graph::pending(
        g2.inherit_rows(),
        vis,
        po,
    ),
{
    reveal(Seq::filter);
    if st1.len() > 0 && vis.contains(st1.last().0) {
        assert(live(st1.drop_last(), vis) == live(st1, vis));
        lemma_walk_same(g, g2, po, ts, limit, a, epoch, st1.drop_last(), st2, vis, acc);
    } else if st2.len() > 0 && vis.contains(st2.last().0) {
        assert(live(st2.drop_last(), vis) == live(st2, vis));
        lemma_walk_same(g, g2, po, ts, limit, a, epoch, st1, st2.drop_last(), vis, acc);
    } else if st1.len() == 0 || st2.len() == 0 {
        if st1.len() > 0 {
            assert(live(st1, vis).len() > 0);
        }
        if st2.len() > 0 {
            assert(live(st2, vis).len() > 0);
        }
    } else {
        let (x, d) = st1.last();
        let rest1 = st1.drop_last();
        let rest2 = st2.drop_last();
        assert(live(st1, vis) == live(rest1, vis).push(st1.last()));
        assert(live(st2, vis) == live(rest2, vis).push(st2.last()));
        assert(live(st1, vis).last() == st1.last());
        assert(live(st2, vis).last() == st2.last());
        assert(st2.last() == st1.last());
        assert(live(rest1, vis) =~= live(st1, vis).drop_last());
        assert(live(rest2, vis) =~= live(st2, vis).drop_last());
        let vis2 = vis.insert(x);
        let rows1 = g.inherit_rows();
        let rows2 = g2.inherit_rows();
        let kids1 = if d < limit {
            crate::graph::children(rows1, x, po, (d + 1) as usize)
        } else {
            Seq::<(u64, usize)>::empty()
        };
        let kids2 = if d < limit {
            crate::graph::children(rows2, x, po, (d + 1) as usize)
        } else {
            Seq::<(u64, usize)>::empty()
        };
        crate::graph::lemma_pending_visit(rows1, vis, po, x);
        crate::graph::lemma_pending_visit(rows2, vis, po, x);
        lemma_live_monotone(rest1, vis, vis2);
        lemma_live_monotone(rest2, vis, vis2);
        Seq::filter_distributes_over_add(rest1, kids1, unvisited_entry(vis2));
        Seq::filter_distributes_over_add(rest2, kids2, unvisited_entry(vis2));
        if d < limit {
            let f = |e: (Key, u64)| (e.0.2, (d + 1) as usize);
            let lr = |e: (Key, u64)| crate::graph::on_scope(e, x, po) && !vis2.contains(e.0.2);
            lemma_filter_map_filter(rows1, crate::graph::scope_rows(x, po), f, unvisited_entry(vis2), lr);
            lemma_filter_map_filter(rows2, crate::graph::scope_rows(x, po), f, unvisited_entry(vis2), lr);
            assert(kids1 == rows1.filter(crate::graph::scope_rows(x, po)).map_values(f));
            assert(kids2 == rows2.filter(crate::graph::scope_rows(x, po)).map_values(f));
            g.lemma_rows_denote();
            g2.lemma_rows_denote();
            lemma_filter_sorted(rows1, lr);
            lemma_filter_sorted(rows2, lr);
            assert forall|e: (Key, u64)| rows1.filter(lr).contains(e) <==> rows2.filter(lr).contains(e) by {
                lemma_row_in_map(rows1, e);
                lemma_row_in_map(rows2, e);
                if rows1.filter(lr).contains(e) {
                    rows1.lemma_filter_contains_rev(lr, e);
                    let i = choose|i: int| 0 <= i < rows1.filter(lr).len() && rows1.filter(lr)[i] == e;
                    rows1.lemma_filter_pred(lr, i);
                    assert(e.0 != (a, po, a));
                    let j = choose|j: int| 0 <= j < rows2.len() && rows2[j] == e;
                    rows2.lemma_filter_contains(lr, j);
                }
                if rows2.filter(lr).contains(e) {
                    rows2.lemma_filter_contains_rev(lr, e);
                    let i = choose|i: int| 0 <= i < rows2.filter(lr).len() && rows2.filter(lr)[i] == e;
                    rows2.lemma_filter_pred(lr, i);
                    assert(e.0 != (a, po, a));
                    let j = choose|j: int| 0 <= j < rows1.len() && rows1[j] == e;
                    rows1.lemma_filter_contains(lr, j);
                }
            }
            lemma_sorted_same_rows(rows1.filter(lr), rows2.filter(lr));
        } else {
            assert(live(kids1, vis2) =~= Seq::<(u64, usize)>::empty());
            assert(live(kids2, vis2) =~= Seq::<(u64, usize)>::empty());
        }
        assert(live(rest1 + kids1, vis2) == live(rest2 + kids2, vis2));
        let acc2 = grant_union(g.caps_map(), g.grant_rows(), acc, x, po, ts);
        lemma_walk_same(g, g2, po, ts, limit, a, epoch, rest1 + kids1, rest2 + kids2, vis2, acc2);
    }
}

/// A self-delegation changes nothing, at any depth limit: when `g2` is `g`
/// with a row that makes seeker `a` inherit from itself on the object added
/// (what `set_inheritance(a, object, a)` does), `check_access` gives the same
/// mask on both.
pub proof fn lemma_self_delegation_changes_nothing(
    g: Graph,
    g2: Graph,
    po: u64,
    ts: Option<u64>,
    limit: usize,
    ps: u64,
    a: u64,
    epoch: u64,
)
    requires
        self_delegation_added(g, g2, po, a, epoch),
    ensures
        g2.walk(po, ts, limit, seq![(ps, 0usize)], Set::<u64>::empty(), 0) == g.walk(
            po,
            ts,
            limit,
            seq![(ps, 0usize)],
            Set::<u64>::empty(),
            0,
        ),
{
    g.lemma_rows_denote();
    g2.lemma_rows_denote();
    assert forall|e: (Key, u64)| g.grant_rows().contains(e) <==> g2.grant_rows().contains(e) by {
        lemma_row_in_map(g.grant_rows(), e);
        lemma_row_in_map(g2.grant_rows(), e);
    }
    lemma_sorted_same_rows(g.grant_rows(), g2.grant_rows());
    lemma_walk_same(g, g2, po, ts, limit, a, epoch, seq![(ps, 0usize)], seq![(ps, 0usize)], Set::<u64>::empty(), 0);
}

/// Facts of 64-bit masks: a mask holds the union of two masks exactly when
/// it holds each; every mask holds 0; a mask with a bit outside `m` is not
/// held by `m`.
proof fn lemma_mask_facts()
    by (bit_vector)
    ensures
        forall|m: u64, a: u64, b: u64| #[trigger] (m & (a | b)) == (a | b) <==> ((m & a) == a && (m & b) == b),
        forall|m: u64| #[trigger] (m & 0u64) == 0u64,
        forall|m: u64| #[trigger] (0u64 & m) == 0u64,
        forall|m: u64| #[trigger] (m & m) == m,
        forall|m: u64, r: u64| #[trigger] (r & !m) != 0u64 ==> (m & r) != r,
        forall|n: u64, p: u64, d: u64| #[trigger] (((n & !d) | (p & !d)) & d) == 0u64,
        forall|n: u64, d: u64| #[trigger] ((n & !d) & d) == 0u64,
        forall|a: u64, b: u64| #[trigger] ((a | b) & a) == a,
        forall|a: u64, b: u64| #[trigger] ((a | b) & b) == b,
        forall|a: u64, b: u64, x: u64| (a & x) == x ==> #[trigger] ((a | b) & x) == x,
        forall|o: u64, d: u64, x: u64| (o & x) == x ==> #[trigger] (((o & !d) | d) & x) == x,
        forall|x: u64| #[trigger] (x & !x) == 0u64,
{
}

/// A check asks for every required bit: `check(sub, obj, a | b)` holds
/// exactly when both `check(sub, obj, a)` and `check(sub, obj, b)` do; no
/// requirement always passes; the effective mask itself passes; and a
/// requirement with any bit outside the effective mask fails.
pub proof fn lemma_check_needs_every_bit(v: CapbitView, sub: u64, obj: u64, a: u64, b: u64)
    ensures
        v.allows(sub, obj, a | b) == (v.allows(sub, obj, a) && v.allows(sub, obj, b)),
        v.allows(sub, obj, 0),
        v.allows(sub, obj, v.allowed(sub, obj)),
        (a & !v.allowed(sub, obj)) != 0 ==> !v.allows(sub, obj, a),
        v.allows(sub, obj, a) ==> (v.allowed(sub, obj) & a) == a,
{
    lemma_mask_facts();
    let m = v.allowed(sub, obj);
    assert((m & (a | b)) == (a | b) <==> ((m & a) == a && (m & b) == b));
    assert((m & 0u64) == 0u64);
    assert((m & m) == m);
    assert((a & !m) != 0u64 ==> (m & a) != a);
}

/// Role lookup climbs the type-parent chain: when `chain` runs from an
/// object up through its type parents (each the parent of the one before),
/// the role is undefined on all but the last, the last defines it with mask
/// `m`, and the chain holds at most `MAX_TYPE_DEPTH` objects, the role is
/// defined on the first object with mask `m`.
pub proof fn lemma_role_found_up_the_chain(v: CapbitView, chain: Seq<u64>, role: u64, m: u64)
    requires
        1 <= chain.len() <= MAX_TYPE_DEPTH,
        forall|i: int| 0 <= i < chain.len() - 1 ==> v.parent_of(#[trigger] chain[i]) == Some(chain[i + 1]),
        forall|i: int| 0 <= i < chain.len() - 1 ==> v.role_row(#[trigger] chain[i], role) is None,
        v.role_row(chain.last(), role) == Some(m),
    ensures
        v.role_mask(chain[0], role) == m,
        v.role_defined(chain[0], role),
{
    lemma_role_chain_from(v, chain, role, m, 0, MAX_TYPE_DEPTH as nat);
}

proof fn lemma_role_chain_from(v: CapbitView, chain: Seq<u64>, role: u64, m: u64, j: int, fuel: nat)
    requires
        1 <= chain.len(),
        0 <= j < chain.len(),
        fuel >= chain.len() - j,
        forall|i: int| 0 <= i < chain.len() - 1 ==> v.parent_of(#[trigger] chain[i]) == Some(chain[i + 1]),
        forall|i: int| 0 <= i < chain.len() - 1 ==> v.role_row(#[trigger] chain[i], role) is None,
        v.role_row(chain.last(), role) == Some(m),
    ensures
        v.role_mask_from(chain[j], role, fuel) == m,
        v.role_defined_from(chain[j], role, fuel),
    decreases chain.len() - j,
{
    if j < chain.len() - 1 {
        assert(v.role_row(chain[j], role) is None);
        assert(v.parent_of(chain[j]) == Some(chain[j + 1]));
        lemma_role_chain_from(v, chain, role, m, j + 1, (fuel - 1) as nat);
    }
}

/// A group's grant reaches a member no stronger than the grant itself and
/// no stronger than the membership: every contribution that the grants
/// `rows` of a group held at `gp` make on `obj` comes from one of those
/// grants (not a membership grant) and carries that role's mask; a denial
/// stays a denial, and otherwise its strength is the weaker of the two.
pub proof fn lemma_group_grant_capped(v: CapbitView, obj: u64, gp: Policy, rows: Seq<(u64, Policy)>, c: (Policy, u64))
    requires
        v.group_contrib(obj, gp, rows).contains(c),
    ensures
        exists|rr: (u64, Policy)| #[trigger] rows.contains(rr) && rr.0 != _MEMBER && c.1 == v.role_mask(obj, rr.0) && (
        rr.1 == Policy::Not ==> c.0 == Policy::Not) && (rr.1 != Policy::Not ==> c.0.level() <= gp.level()
            && c.0.level() <= rr.1.level() && (c.0 == gp || c.0 == rr.1)),
    decreases rows.len(),
{
    if rows.len() > 0 {
        let dl = rows.drop_last();
        let rr = rows.last();
        let prev = v.group_contrib(obj, gp, dl);
        assert(rows.contains(rr));
        lemma_pmin_attenuates(gp, rr.1);
        if rr.0 == _MEMBER || !(v.group_contrib(obj, gp, rows).len() > prev.len() && c == v.group_contrib(
            obj,
            gp,
            rows,
        ).last()) {
            let i = choose|i: int| 0 <= i < v.group_contrib(obj, gp, rows).len() && v.group_contrib(obj, gp, rows)[i]
                == c;
            assert(prev.contains(c)) by {
                assert(prev[i] == c);
            }
            lemma_group_grant_capped(v, obj, gp, dl, c);
            let w = choose|w: (u64, Policy)| #[trigger] dl.contains(w) && w.0 != _MEMBER && c.1 == v.role_mask(obj, w.0) && (
            w.1 == Policy::Not ==> c.0 == Policy::Not) && (w.1 != Policy::Not ==> c.0.level() <= gp.level()
                && c.0.level() <= w.1.level() && (c.0 == gp || c.0 == w.1));
            let k = choose|k: int| 0 <= k < dl.len() && dl[k] == w;
            assert(rows[k] == w);
            assert(rows.contains(w));
        }
    }
}

/// Through a group, a member gets a grant's bits at most at the grant's
/// strength: when a group the member holds at `gr.1` has only a `Possible`
/// grant on `obj` (besides membership), nothing reaches the member through
/// that group at `Necessary`.
pub proof fn lemma_possible_group_grant_stays_possible(v: CapbitView, obj: u64, gr: (u64, Policy), c: (Policy, u64))
    requires
        forall|rr: (u64, Policy)| #[trigger] v.grants_on(gr.0, obj).contains(rr) && rr.0 != _MEMBER ==> rr.1
            != Policy::Necessary,
        v.via_group(obj, gr).contains(c),
    ensures
        c.0 != Policy::Necessary,
{
    if gr.1 != Policy::Not {
        lemma_group_grant_capped(v, obj, gr.1, v.grants_on(gr.0, obj), c);
    }
}

/// Role lookup stops where the chain does: when `chain` runs from an object
/// up through its type parents, none of them defines the role, and the
/// chain either ends (its last object has no parent) or already holds
/// `MAX_TYPE_DEPTH` objects, the role is undefined on the first object and
/// its mask is 0.
pub proof fn lemma_role_not_found(v: CapbitView, chain: Seq<u64>, role: u64)
    requires
        1 <= chain.len() <= MAX_TYPE_DEPTH,
        forall|i: int| 0 <= i < chain.len() - 1 ==> v.parent_of(#[trigger] chain[i]) == Some(chain[i + 1]),
        forall|i: int| 0 <= i < chain.len() ==> v.role_row(#[trigger] chain[i], role) is None,
        chain.len() == MAX_TYPE_DEPTH || v.parent_of(chain.last()) is None,
    ensures
        v.role_mask(chain[0], role) == 0,
        !v.role_defined(chain[0], role),
{
    lemma_role_missing_from(v, chain, role, 0, MAX_TYPE_DEPTH as nat);
}

proof fn lemma_role_missing_from(v: CapbitView, chain: Seq<u64>, role: u64, j: int, fuel: nat)
    requires
        1 <= chain.len() <= MAX_TYPE_DEPTH,
        0 <= j < chain.len(),
        fuel == MAX_TYPE_DEPTH - j,
        forall|i: int| 0 <= i < chain.len() - 1 ==> v.parent_of(#[trigger] chain[i]) == Some(chain[i + 1]),
        forall|i: int| 0 <= i < chain.len() ==> v.role_row(#[trigger] chain[i], role) is None,
        chain.len() == MAX_TYPE_DEPTH || v.parent_of(chain.last()) is None,
    ensures
        v.role_mask_from(chain[j], role, fuel) == 0,
        !v.role_defined_from(chain[j], role, fuel),
    decreases chain.len() - j,
{
    assert(v.role_row(chain[j], role) is None);
    if j < chain.len() - 1 {
        assert(v.parent_of(chain[j]) == Some(chain[j + 1]));
        lemma_role_missing_from(v, chain, role, j + 1, (fuel - 1) as nat);
    } else if chain.len() == MAX_TYPE_DEPTH {
        assert(fuel == 1);
        let p = v.parent_of(chain[j]);
        if p is Some {
            assert(v.role_mask_from(p->0, role, 0) == 0);
            assert(!v.role_defined_from(p->0, role, 0));
        }
    }
}

proof fn lemma_or_of_absent(s: Seq<(Policy, u64)>, p: Policy)
    requires
        forall|i: int| 0 <= i < s.len() ==> (#[trigger] s[i]).0 != p,
    ensures
        crate::model::or_of(s, p) == 0,
    decreases s.len(),
{
    if s.len() > 0 {
        let dl = s.drop_last();
        assert forall|i: int| 0 <= i < dl.len() implies (#[trigger] dl[i]).0 != p by {
            assert(dl[i] == s[i]);
        }
        lemma_or_of_absent(dl, p);
        assert(s.last() == s[s.len() - 1]);
    }
}

proof fn lemma_group_contribs_from(v: CapbitView, obj: u64, gs: Seq<(u64, Policy)>, c: (Policy, u64))
    requires
        gs.flat_map(|gr: (u64, Policy)| v.via_group(obj, gr)).contains(c),
    ensures
        exists|gr: (u64, Policy)| #[trigger] gs.contains(gr) && v.via_group(obj, gr).contains(c),
    decreases gs.len(),
{
    let f = |gr: (u64, Policy)| v.via_group(obj, gr);
    if gs.len() > 0 {
        let dl = gs.drop_last();
        let g = gs.last();
        dl.lemma_flat_map_push(f, g);
        assert(dl.push(g) =~= gs);
        let all = gs.flat_map(f);
        let i = choose|i: int| 0 <= i < all.len() && all[i] == c;
        if i < dl.flat_map(f).len() {
            assert(dl.flat_map(f)[i] == c);
            lemma_group_contribs_from(v, obj, dl, c);
            let w = choose|w: (u64, Policy)| #[trigger] dl.contains(w) && v.via_group(obj, w).contains(c);
            let k = choose|k: int| 0 <= k < dl.len() && dl[k] == w;
            assert(gs[k] == w);
            assert(gs.contains(w));
        } else {
            assert(f(g)[i - dl.flat_map(f).len()] == c);
            assert(gs[gs.len() - 1] == g);
            assert(gs.contains(g));
        }
    } else {
        assert(gs.flat_map(f) =~= Seq::<(Policy, u64)>::empty());
    }
}

/// Nothing is necessary without a necessary route: when `sub` holds no
/// direct grant on `obj` at `Necessary`, has no delegation on `obj`, and
/// every group it belongs to holds its grants on `obj` (other than
/// membership) at most at `Possible`, the necessary bucket of `sub` on `obj`
/// is empty; in particular a `Possible` grant to a group never becomes
/// necessary for a member, whatever the membership's strength.
pub proof fn lemma_no_necessary_route(v: CapbitView, sub: u64, obj: u64)
    requires
        forall|rp: (u64, Policy)| #[trigger] v.grants_on(sub, obj).contains(rp) ==> rp.1 != Policy::Necessary,
        forall|gr: (u64, Policy), rr: (u64, Policy)|
            #![trigger v.groups_rows(sub).contains(gr), v.grants_on(gr.0, obj).contains(rr)]
            v.groups_rows(sub).contains(gr) && v.grants_on(gr.0, obj).contains(rr) && rr.0 != _MEMBER ==> rr.1
                != Policy::Necessary,
        v.deleg_rows(sub, obj).len() == 0,
    ensures
        v.masks(sub, obj).necessary == 0,
{
    let d = v.direct_contribs(sub, obj);
    let g = v.group_contribs(sub, obj);
    let e = v.deleg_contribs(sub, obj);
    let c = v.contributions(sub, obj);
    assert(e =~= Seq::<(Policy, u64)>::empty());
    assert forall|i: int| 0 <= i < c.len() implies (#[trigger] c[i]).0 != Policy::Necessary by {
        if i < d.len() {
            assert(c[i] == d[i]);
            let rp = v.grants_on(sub, obj)[i];
            assert(v.grants_on(sub, obj).contains(rp));
        } else {
            assert(c[i] == g[i - d.len()]);
            assert(g.contains(c[i]));
            lemma_group_contribs_from(v, obj, v.groups_rows(sub), c[i]);
            let gr = choose|gr: (u64, Policy)| #[trigger] v.groups_rows(sub).contains(gr) && v.via_group(obj, gr).contains(c[i]);
            if gr.1 != Policy::Not {
                lemma_group_grant_capped(v, obj, gr.1, v.grants_on(gr.0, obj), c[i]);
                let rr = choose|rr: (u64, Policy)| #[trigger] v.grants_on(gr.0, obj).contains(rr) && rr.0 != _MEMBER
                    && c[i].1 == v.role_mask(obj, rr.0) && (rr.1 == Policy::Not ==> c[i].0 == Policy::Not) && (rr.1
                    != Policy::Not ==> c[i].0.level() <= gr.1.level() && c[i].0.level() <= rr.1.level() && (c[i].0
                    == gr.1 || c[i].0 == rr.1));
                assert(rr.1 != Policy::Necessary);
            }
        }
    }
    lemma_or_of_absent(c, Policy::Necessary);
    lemma_mask_facts();
    assert((0u64 & !crate::model::or_of(c, Policy::Not)) == 0u64);
}

/// The effective mask is the two allowed buckets together: it holds every
/// necessary and every possible bit, and nothing else.
pub proof fn lemma_allowed_is_both_buckets(v: CapbitView, sub: u64, obj: u64)
    ensures
        (v.allowed(sub, obj) & v.masks(sub, obj).necessary) == v.masks(sub, obj).necessary,
        (v.allowed(sub, obj) & v.masks(sub, obj).possible) == v.masks(sub, obj).possible,
        (v.allowed(sub, obj) & !(v.masks(sub, obj).necessary | v.masks(sub, obj).possible)) == 0,
{
    lemma_mask_facts();
    let n = v.masks(sub, obj).necessary;
    let p = v.masks(sub, obj).possible;
    assert(((n | p) & n) == n && ((n | p) & p) == p);
    assert(((n | p) & !(n | p)) == 0u64);
}

proof fn lemma_or_of_has(s: Seq<(Policy, u64)>, p: Policy, m: u64)
    requires
        s.contains((p, m)),
    ensures
        (crate::model::or_of(s, p) & m) == m,
    decreases s.len(),
{
    lemma_mask_facts();
    let dl = s.drop_last();
    let i = choose|i: int| 0 <= i < s.len() && s[i] == (p, m);
    if i == s.len() - 1 {
        assert(s.last() == (p, m));
        let o = crate::model::or_of(dl, p);
        assert(((o | m) & m) == m);
    } else {
        assert(dl[i] == (p, m));
        lemma_or_of_has(dl, p, m);
        let o = crate::model::or_of(dl, p);
        if s.last().0 == p {
            assert(((o | s.last().1) & m) == m);
        }
    }
}

/// The bucket of strength `p`: the necessary or the possible bits.
pub open spec fn bucket(m: crate::policy::Masks, p: Policy) -> u64 {
    if p == Policy::Necessary {
        m.necessary
    } else {
        m.possible
    }
}

/// A contribution at a positive strength lands in that strength's bucket,
/// unless denied.
proof fn lemma_contribution_counts(v: CapbitView, sub: u64, obj: u64, p: Policy, m: u64)
    requires
        p != Policy::Not,
        v.contributions(sub, obj).contains((p, m)),
    ensures
        ((bucket(v.masks(sub, obj), p) | v.masks(sub, obj).denied) & m) == m,
{
    let c = v.contributions(sub, obj);
    lemma_or_of_has(c, p, m);
    lemma_mask_facts();
    let o = crate::model::or_of(c, p);
    let d = crate::model::or_of(c, Policy::Not);
    assert((((o & !d) | d) & m) == m);
}

/// A direct grant counts at its own strength: when `sub` holds `role` on
/// `obj` at `p` (not a denial), every bit of the role's mask is in the
/// bucket of strength `p`, or denied.
pub proof fn lemma_direct_grant_counts(v: CapbitView, sub: u64, obj: u64, role: u64, p: Policy)
    requires
        v.grants_on(sub, obj).contains((role, p)),
        p != Policy::Not,
    ensures
        ((bucket(v.masks(sub, obj), p) | v.masks(sub, obj).denied) & v.role_mask(obj, role)) == v.role_mask(obj, role),
{
    let gs = v.grants_on(sub, obj);
    let d = v.direct_contribs(sub, obj);
    let i = choose|i: int| 0 <= i < gs.len() && gs[i] == (role, p);
    assert(d[i] == (p, v.role_mask(obj, role)));
    let c = v.contributions(sub, obj);
    assert(c[i] == d[i]);
    assert(c.contains((p, v.role_mask(obj, role))));
    lemma_contribution_counts(v, sub, obj, p, v.role_mask(obj, role));
}

proof fn lemma_group_contrib_has(v: CapbitView, obj: u64, gp: Policy, rows: Seq<(u64, Policy)>, rr: (u64, Policy))
    requires
        rows.contains(rr),
        rr.0 != _MEMBER,
        rr.1 != Policy::Not,
    ensures
        v.group_contrib(obj, gp, rows).contains((pmin(gp, rr.1), v.role_mask(obj, rr.0))),
    decreases rows.len(),
{
    let dl = rows.drop_last();
    let out = v.group_contrib(obj, gp, rows);
    let prev = v.group_contrib(obj, gp, dl);
    if rows.last() == rr {
        assert(out == prev + seq![(pmin(gp, rr.1), v.role_mask(obj, rr.0))]);
        assert(out[prev.len() as int] == (pmin(gp, rr.1), v.role_mask(obj, rr.0)));
    } else {
        let i = choose|i: int| 0 <= i < rows.len() && rows[i] == rr;
        assert(dl[i] == rr);
        lemma_group_contrib_has(v, obj, gp, dl, rr);
        let k = choose|k: int| 0 <= k < prev.len() && prev[k] == (pmin(gp, rr.1), v.role_mask(obj, rr.0));
        assert(out.len() >= prev.len());
        assert(out[k] == prev[k]);
    }
}

proof fn lemma_group_contribs_has(v: CapbitView, obj: u64, gs: Seq<(u64, Policy)>, gr: (u64, Policy), c: (Policy, u64))
    requires
        gs.contains(gr),
        v.via_group(obj, gr).contains(c),
    ensures
        gs.flat_map(|g: (u64, Policy)| v.via_group(obj, g)).contains(c),
    decreases gs.len(),
{
    let f = |g: (u64, Policy)| v.via_group(obj, g);
    let dl = gs.drop_last();
    let last = gs.last();
    dl.lemma_flat_map_push(f, last);
    assert(dl.push(last) =~= gs);
    let before = dl.flat_map(f);
    if last == gr {
        let vg = v.via_group(obj, gr);
        assert(f(gr) == vg);
        let k = choose|k: int| 0 <= k < vg.len() && vg[k] == c;
        assert(gs.flat_map(f)[before.len() + k] == c);
    } else {
        let i = choose|i: int| 0 <= i < gs.len() && gs[i] == gr;
        assert(dl[i] == gr);
        lemma_group_contribs_has(v, obj, dl, gr, c);
        let k = choose|k: int| 0 <= k < before.len() && before[k] == c;
        assert(gs.flat_map(f)[k] == c);
    }
}

/// A group's grant counts for a member at the weaker of the membership and
/// the grant: when `sub` belongs to group `gr.0` at `gr.1` (not excluded)
/// and the group holds `rr.0` (not membership) on `obj` at `rr.1` (not a
/// denial), every bit of that role's mask is in the bucket of strength
/// `pmin(gr.1, rr.1)`, or denied.
pub proof fn lemma_group_grant_counts(v: CapbitView, sub: u64, obj: u64, gr: (u64, Policy), rr: (u64, Policy))
    requires
        v.groups_rows(sub).contains(gr),
        gr.1 != Policy::Not,
        v.grants_on(gr.0, obj).contains(rr),
        rr.0 != _MEMBER,
        rr.1 != Policy::Not,
    ensures
        ((bucket(v.masks(sub, obj), pmin(gr.1, rr.1)) | v.masks(sub, obj).denied) & v.role_mask(obj, rr.0))
            == v.role_mask(obj, rr.0),
{
    let e = (pmin(gr.1, rr.1), v.role_mask(obj, rr.0));
    lemma_group_contrib_has(v, obj, gr.1, v.grants_on(gr.0, obj), rr);
    assert(v.via_group(obj, gr).contains(e));
    lemma_group_contribs_has(v, obj, v.groups_rows(sub), gr, e);
    let g = v.group_contribs(sub, obj);
    let d = v.direct_contribs(sub, obj);
    let c = v.contributions(sub, obj);
    let k = choose|k: int| 0 <= k < g.len() && g[k] == e;
    assert(c[d.len() + k] == e);
    assert(c.contains(e));
    lemma_pmin_attenuates(gr.1, rr.1);
    lemma_contribution_counts(v, sub, obj, pmin(gr.1, rr.1), v.role_mask(obj, rr.0));
}

} // verus!
