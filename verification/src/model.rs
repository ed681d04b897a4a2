//! The abstract state of a capbit store and the meaning of resolution.
//!
//! A store is ten ordered tables (plus the next audit sequence number). Every
//! question the store answers is defined here over those tables: role masks
//! with type-parent fallback, three-bucket permission resolution through
//! direct grants, materialized group closure and delegation chains, and the
//! membership closure that group edits materialize.
use vstd::prelude::*;
use crate::policy::{
    pmin, AuditEntry, Error, Masks, Policy, ADMIN_BITS, EDITOR_BITS, MAX_DELEGATION_HOPS, MAX_TYPE_DEPTH,
    OWNER_BITS, VIEWER_BITS, _ADMIN, _DELEGATE, _EDITOR, _GRANT, _MEMBER, _OWNER, _SET_PARENT, _VIEWER,
};
use crate::table::{as_map, from_spec, key_hit, opt_get, scan_spec, Key};

verus! {

/// The tables of a store, each as its rows in ascending key order.
///
/// - `objects`: (object, role, 0) → mask
/// - `parents`: (object, 0, 0) → type-parent; `parents_rev`: (parent, object, 0) → 1
/// - `subjects`: (subject, object, role) → policy; `subjects_rev`: (object, subject, role) → policy
/// - `closure`: (member, group, 0) → policy; `closure_rev`: (group, member, 0) → policy
/// - `delegations`: (subject, object, role) → (parent, policy); `delegations_rev`: (object, subject, role)
/// - `audit`: (seq, 0, 0) → entry
pub struct CapbitView {
    pub objects: Seq<(Key, u64)>,
    pub parents: Seq<(Key, u64)>,
    pub parents_rev: Seq<(Key, u64)>,
    pub subjects: Seq<(Key, Policy)>,
    pub subjects_rev: Seq<(Key, Policy)>,
    pub closure: Seq<(Key, Policy)>,
    pub closure_rev: Seq<(Key, Policy)>,
    pub delegations: Seq<(Key, (u64, Policy))>,
    pub delegations_rev: Seq<(Key, (u64, Policy))>,
    pub audit: Seq<(Key, AuditEntry)>,
    pub next_seq: u64,
}

/// The key with its first two parts swapped.
pub open spec fn swap01(k: Key) -> Key {
    (k.1, k.0, k.2)
}

/// `rev` holds every row of `fwd` under the swapped key, and nothing else.
pub open spec fn mirrored<V>(fwd: Map<Key, V>, rev: Map<Key, V>) -> bool {
    forall|k: Key| #[trigger] opt_get(rev, swap01(k)) == opt_get(fwd, k)
}

/// A role table with the four default roles of `obj` (owner, admin, editor,
/// viewer) set to their default masks.
pub open spec fn seeded(m: Map<Key, u64>, obj: u64) -> Map<Key, u64> {
    m.insert((obj, _OWNER, 0), OWNER_BITS).insert((obj, _ADMIN, 0), ADMIN_BITS).insert(
        (obj, _EDITOR, 0),
        EDITOR_BITS,
    ).insert((obj, _VIEWER, 0), VIEWER_BITS)
}

/// OR of the masks of all contributions at policy `p`.
pub open spec fn or_of(s: Seq<(Policy, u64)>, p: Policy) -> u64
    decreases s.len(),
{
    if s.len() == 0 {
        0
    } else if s.last().0 == p {
        or_of(s.drop_last(), p) | s.last().1
    } else {
        or_of(s.drop_last(), p)
    }
}

/// The stronger of two optional policies.
pub open spec fn pmax_opt(a: Option<Policy>, b: Option<Policy>) -> Option<Policy> {
    match (a, b) {
        (None, _) => b,
        (_, None) => a,
        (Some(x), Some(y)) => if y.level() > x.level() {
            b
        } else {
            a
        },
    }
}

impl CapbitView {
    pub open spec fn role_row(self, obj: u64, role: u64) -> Option<u64> {
        opt_get(as_map(self.objects), (obj, role, 0))
    }

    pub open spec fn parent_of(self, obj: u64) -> Option<u64> {
        opt_get(as_map(self.parents), (obj, 0, 0))
    }

    /// Mask of `role` at `cur`, falling back through at most `fuel` objects
    /// of the type-parent chain. Undefined roles resolve to 0.
    pub open spec fn role_mask_from(self, cur: u64, role: u64, fuel: nat) -> u64
        decreases fuel,
    {
        if fuel == 0 {
            0
        } else {
            match self.role_row(cur, role) {
                Some(m) => m,
                None => match self.parent_of(cur) {
                    Some(p) => self.role_mask_from(p, role, (fuel - 1) as nat),
                    None => 0,
                },
            }
        }
    }

    pub open spec fn role_mask(self, obj: u64, role: u64) -> u64 {
        self.role_mask_from(obj, role, MAX_TYPE_DEPTH as nat)
    }

    /// Is `role` defined at `cur` or within `fuel` objects of its type chain?
    pub open spec fn role_defined_from(self, cur: u64, role: u64, fuel: nat) -> bool
        decreases fuel,
    {
        if fuel == 0 {
            false
        } else {
            match self.role_row(cur, role) {
                Some(m) => true,
                None => match self.parent_of(cur) {
                    Some(p) => self.role_defined_from(p, role, (fuel - 1) as nat),
                    None => false,
                },
            }
        }
    }

    pub open spec fn role_defined(self, obj: u64, role: u64) -> bool {
        self.role_defined_from(obj, role, MAX_TYPE_DEPTH as nat)
    }

    pub open spec fn grant_of(self, sub: u64, obj: u64, role: u64) -> Option<Policy> {
        opt_get(as_map(self.subjects), (sub, obj, role))
    }

    pub open spec fn deleg_of(self, sub: u64, obj: u64, role: u64) -> Option<(u64, Policy)> {
        opt_get(as_map(self.delegations), (sub, obj, role))
    }

    pub open spec fn closure_row(self, x: u64, g: u64) -> Option<Policy> {
        opt_get(as_map(self.closure), (x, g, 0))
    }

    /// (role, policy) grant edges of `sub` on `obj`, ascending by role.
    pub open spec fn grants_on(self, sub: u64, obj: u64) -> Seq<(u64, Policy)> {
        scan_spec(self.subjects, sub, Some(obj), 0).map_values(|e: (Key, Policy)| (e.0.2, e.1))
    }

    /// Materialized (group, policy) rows of `x`, ascending by group.
    pub open spec fn groups_rows(self, x: u64) -> Seq<(u64, Policy)> {
        scan_spec(self.closure, x, None, 0).map_values(|e: (Key, Policy)| (e.0.1, e.1))
    }

    /// Delegation rows of `sub` on `obj`, ascending by role.
    pub open spec fn deleg_rows(self, sub: u64, obj: u64) -> Seq<(Key, (u64, Policy))> {
        scan_spec(self.delegations, sub, Some(obj), 0)
    }

    /// What a group's grants contribute to a member holding the group at `gp`:
    /// membership grants are skipped, denials stay denials, other strengths
    /// are capped by the membership strength.
    pub open spec fn group_contrib(self, obj: u64, gp: Policy, rows: Seq<(u64, Policy)>) -> Seq<
        (Policy, u64),
    > {
        rows.filter_map(
            |rr: (u64, Policy)|
                if rr.0 == _MEMBER {
                    None
                } else {
                    Some(
                        (
                            if rr.1 == Policy::Not {
                                Policy::Not
                            } else {
                                pmin(gp, rr.1)
                            },
                            self.role_mask(obj, rr.0),
                        ),
                    )
                },
        )
    }

    /// Contributions through one materialized group row; excluded groups
    /// contribute neither grants nor denials.
    pub open spec fn via_group(self, obj: u64, gr: (u64, Policy)) -> Seq<(Policy, u64)> {
        if gr.1 == Policy::Not {
            Seq::empty()
        } else {
            self.group_contrib(obj, gr.1, self.grants_on(gr.0, obj))
        }
    }

    /// Strongest positive route by which one of the materialized groups in
    /// `rows` holds `role` on `obj`.
    pub open spec fn best_fold(self, rows: Seq<(u64, Policy)>, obj: u64, role: u64) -> Option<Policy>
        decreases rows.len(),
    {
        if rows.len() == 0 {
            None
        } else {
            let prev = self.best_fold(rows.drop_last(), obj, role);
            let g = rows.last();
            if g.1 == Policy::Not {
                prev
            } else {
                match self.grant_of(g.0, obj, role) {
                    Some(rp) => if rp == Policy::Not {
                        prev
                    } else {
                        pmax_opt(prev, Some(pmin(g.1, rp)))
                    },
                    None => prev,
                }
            }
        }
    }

    /// Walk a delegation chain from `cur` for at most `fuel` hops. The chain
    /// resolves once an ancestor holds the role (directly or via groups);
    /// strength is the minimum over all links; a `Not` link, a revisited
    /// node or a dead end resolves to nothing.
    pub open spec fn chain(
        self,
        obj: u64,
        role: u64,
        cur: u64,
        strength: Policy,
        seen: Seq<u64>,
        fuel: nat,
    ) -> Option<Policy>
        decreases fuel,
    {
        if fuel == 0 {
            None
        } else if seen.contains(cur) {
            None
        } else {
            match self.grant_of(cur, obj, role) {
                Some(p) => if p == Policy::Not {
                    None
                } else {
                    Some(pmin(strength, p))
                },
                None => match self.best_fold(self.groups_rows(cur), obj, role) {
                    Some(b) => Some(pmin(strength, b)),
                    None => match self.deleg_of(cur, obj, role) {
                        Some(d) => if d.1 == Policy::Not {
                            None
                        } else {
                            self.chain(obj, role, d.0, pmin(strength, d.1), seen.push(cur), (fuel - 1) as nat)
                        },
                        None => None,
                    },
                },
            }
        }
    }

    pub open spec fn resolve_delegation(self, sub: u64, obj: u64, role: u64, parent: u64, pol: Policy) -> Option<
        Policy,
    > {
        if pol == Policy::Not {
            None
        } else {
            self.chain(obj, role, parent, pol, seq![sub], MAX_DELEGATION_HOPS as nat)
        }
    }

    pub open spec fn deleg_contrib(self, sub: u64, obj: u64, d: (Key, (u64, Policy))) -> Option<(Policy, u64)> {
        match self.resolve_delegation(sub, obj, d.0.2, d.1.0, d.1.1) {
            Some(p) => Some((p, self.role_mask(obj, d.0.2))),
            None => None,
        }
    }

    pub open spec fn direct_contribs(self, sub: u64, obj: u64) -> Seq<(Policy, u64)> {
        self.grants_on(sub, obj).map_values(|rp: (u64, Policy)| (rp.1, self.role_mask(obj, rp.0)))
    }

    pub open spec fn group_contribs(self, sub: u64, obj: u64) -> Seq<(Policy, u64)> {
        self.groups_rows(sub).flat_map(|gr: (u64, Policy)| self.via_group(obj, gr))
    }

    pub open spec fn deleg_contribs(self, sub: u64, obj: u64) -> Seq<(Policy, u64)> {
        self.deleg_rows(sub, obj).filter_map(|d: (Key, (u64, Policy))| self.deleg_contrib(sub, obj, d))
    }

    /// Every (policy, mask) that reaches `sub` on `obj`: direct grants, grants
    /// of its materialized groups, and resolved delegation chains.
    pub open spec fn contributions(self, sub: u64, obj: u64) -> Seq<(Policy, u64)> {
        self.direct_contribs(sub, obj) + self.group_contribs(sub, obj) + self.deleg_contribs(sub, obj)
    }

    /// Three-bucket resolution: denied bits are everything contributed at
    /// `Not`, and override the other two buckets.
    pub open spec fn masks(self, sub: u64, obj: u64) -> Masks {
        let c = self.contributions(sub, obj);
        let d = or_of(c, Policy::Not);
        Masks {
            necessary: or_of(c, Policy::Necessary) & !d,
            possible: or_of(c, Policy::Possible) & !d,
            denied: d,
        }
    }

    pub open spec fn allowed(self, sub: u64, obj: u64) -> u64 {
        self.masks(sub, obj).necessary | self.masks(sub, obj).possible
    }

    /// Does `sub` hold every bit of `req` on `obj`?
    pub open spec fn allows(self, sub: u64, obj: u64, req: u64) -> bool {
        self.allowed(sub, obj) & req == req
    }

    /// Effective membership of `x` in `g` as the current edges define it.
    pub open spec fn closure_of(self, x: u64, g: u64) -> Option<Policy> {
        closure_in(self.subjects, x, g)
    }

    /// Every materialized row of `x` is exactly its computed closure.
    pub open spec fn closure_fresh(self, x: u64) -> bool {
        forall|g: u64| #[trigger] self.closure_row(x, g) == self.closure_of(x, g)
    }

    /// Entities whose closure may change when `group`'s edges change: the
    /// group itself and every entity with a materialized row into it.
    pub open spec fn affected_by(self, group: u64) -> Set<u64> {
        Set::new(
            |m: u64| m == group || as_map(self.closure_rev).contains_key((group, m, 0)),
        )
    }

    // -- mutation semantics ------------------------------------------------------

    /// The tables not flagged are unchanged from `o`.
    pub open spec fn keeps(self, o: CapbitView, objs: bool, pars: bool, subs: bool, clos: bool, dels: bool, aud: bool) -> bool {
        &&& (objs || self.objects == o.objects)
        &&& (pars || (self.parents == o.parents && self.parents_rev == o.parents_rev))
        &&& (subs || (self.subjects == o.subjects && self.subjects_rev == o.subjects_rev))
        &&& (clos || (self.closure == o.closure && self.closure_rev == o.closure_rev))
        &&& (dels || (self.delegations == o.delegations && self.delegations_rev == o.delegations_rev))
        &&& (aud || (self.audit == o.audit && self.next_seq == o.next_seq))
    }

    /// The closure rows of every entity in `affected` were recomputed from
    /// this state's edges; all other closure rows are as in `o`.
    pub open spec fn rebuilt(self, o: CapbitView, affected: Set<u64>) -> bool {
        &&& forall|x: u64, g: u64| affected.contains(x) ==> #[trigger] self.closure_row(x, g) == self.closure_of(x, g)
        &&& forall|k: Key| affected.contains(k.0) && k.2 != 0 ==> !#[trigger] as_map(self.closure).contains_key(k)
        &&& forall|k: Key|
            !affected.contains(k.0) ==> #[trigger] opt_get(as_map(self.closure), k) == opt_get(as_map(o.closure), k)
    }

    /// One audit row was appended.
    pub open spec fn audited(self, o: CapbitView, actor: u64, op: u64, args: [u64; 4], now: u64) -> bool {
        &&& as_map(self.audit) == o.audit_after(actor, op, args, now)
        &&& self.next_seq == o.next_seq + 1
    }

    /// Why a grant of `role` on `obj` to `sub` by `actor` is refused, if it is.
    pub open spec fn grant_refusal(self, actor: u64, sub: u64, obj: u64, role: u64) -> Option<Error> {
        if !self.allows(actor, obj, _GRANT) {
            Some(Error::Denied)
        } else if role != _MEMBER && !self.role_defined(obj, role) {
            Some(Error::NotFound)
        } else if role == _MEMBER && (sub == obj || (self.closure_row(obj, sub) is Some
            && self.closure_row(obj, sub) != Some(Policy::Not))) {
            Some(Error::Cycle)
        } else {
            None
        }
    }

    /// Does the delegation chain of `role` on `obj` starting above `cur`
    /// reach `sub` within `fuel` hops?
    pub open spec fn deleg_loops(self, obj: u64, role: u64, cur: u64, sub: u64, fuel: nat) -> bool
        decreases fuel,
    {
        if fuel == 0 {
            false
        } else {
            match self.deleg_of(cur, obj, role) {
                Some(d) => d.0 == sub || self.deleg_loops(obj, role, d.0, sub, (fuel - 1) as nat),
                None => false,
            }
        }
    }

    pub open spec fn delegate_refusal(self, actor: u64, sub: u64, obj: u64, role: u64, parent: u64) -> Option<Error> {
        if !self.allows(actor, obj, _DELEGATE) {
            Some(Error::Denied)
        } else if sub == parent {
            Some(Error::Cycle)
        } else if role != _MEMBER && !self.role_defined(obj, role) {
            Some(Error::NotFound)
        } else if self.deleg_loops(obj, role, parent, sub, MAX_DELEGATION_HOPS as nat) {
            Some(Error::Cycle)
        } else {
            None
        }
    }

    /// Does the type-parent chain above `cur` reach `obj` within `fuel` steps?
    pub open spec fn parent_loops(self, cur: u64, obj: u64, fuel: nat) -> bool
        decreases fuel,
    {
        if fuel == 0 {
            false
        } else {
            match self.parent_of(cur) {
                Some(p) => p == obj || self.parent_loops(p, obj, (fuel - 1) as nat),
                None => false,
            }
        }
    }

    pub open spec fn set_parent_refusal(self, actor: u64, obj: u64, parent: u64) -> Option<Error> {
        if !self.allows(actor, obj, _SET_PARENT) {
            Some(Error::Denied)
        } else if obj == parent || self.parent_loops(parent, obj, MAX_TYPE_DEPTH as nat) {
            Some(Error::Cycle)
        } else {
            None
        }
    }

    /// Does any row of `rows` have `a` as the first key part?
    pub open spec fn has_rows_for<V>(rows: Seq<(Key, V)>, a: u64) -> bool {
        exists|i: int| 0 <= i < rows.len() && (#[trigger] rows[i]).0.0 == a
    }

    /// An object exists once it has a role definition or a grant on it.
    pub open spec fn object_exists(self, obj: u64) -> bool {
        Self::has_rows_for(self.objects, obj) || Self::has_rows_for(self.subjects_rev, obj)
    }

    /// Does any row's key satisfy `key_hit(k, by_second, a, third)`?
    pub open spec fn any_hit<V>(rows: Seq<(Key, V)>, by_second: bool, a: u64, third: Option<u64>) -> bool {
        exists|i: int| 0 <= i < rows.len() && key_hit((#[trigger] rows[i]).0, by_second, a, third)
    }

    /// Deleting a role cascades into group closures iff the role is
    /// membership and someone is a member of the object.
    pub open spec fn role_delete_cascades(self, obj: u64, role: u64) -> bool {
        role == _MEMBER && Self::any_hit(self.subjects, true, obj, Some(_MEMBER))
    }

    /// Is `m` a positive (non-excluded) member of `g`?
    pub open spec fn positive_in(self, g: u64, m: u64) -> bool {
        &&& opt_get(as_map(self.closure_rev), (g, m, 0)) is Some
        &&& opt_get(as_map(self.closure_rev), (g, m, 0)) != Some(Policy::Not)
    }

    /// Positive members of `a` that are (`keep_in_b`) or are not positive
    /// members of `b`, ascending by member id.
    pub open spec fn population(self, a: u64, b: u64, keep_in_b: bool) -> Seq<u64> {
        scan_spec(self.closure_rev, a, None, 0).filter_map(self.member_pick(b, keep_in_b))
    }

    /// Picks the member of a positive membership row when its positive
    /// membership in `b` is `keep_in_b`.
    pub open spec fn member_pick(self, b: u64, keep_in_b: bool) -> spec_fn((Key, Policy)) -> Option<u64> {
        |e: (Key, Policy)|
            if e.1 != Policy::Not && self.positive_in(b, e.0.1) == keep_in_b {
                Some(e.0.1)
            } else {
                None
            }
    }

    /// First id of a page that starts after `after`.
    pub open spec fn page_start(after: Option<u64>) -> u64 {
        match after {
            Some(a) => (a + 1) as u64,
            None => 0,
        }
    }

    /// Up to `limit` rows whose first key part is `a` and whose second part
    /// comes after `after`, ascending; none when `after` is the largest id.
    pub open spec fn page<V>(rows: Seq<(Key, V)>, a: u64, after: Option<u64>, limit: usize) -> Seq<(Key, V)> {
        if after == Some(u64::MAX) {
            Seq::empty()
        } else {
            let s = scan_spec(rows, a, None, Self::page_start(after));
            if s.len() <= limit {
                s
            } else {
                s.take(limit as int)
            }
        }
    }

    /// First sequence number an audit read returns: the one after `after`
    /// (saturating at the largest), or 0.
    pub open spec fn audit_start(after: Option<u64>) -> u64 {
        match after {
            Some(a) => if a == u64::MAX {
                a
            } else {
                (a + 1) as u64
            },
            None => 0,
        }
    }

    /// Up to `limit` audit entries from `audit_start(after)` on, in sequence order.
    pub open spec fn audit_page(self, after: Option<u64>, limit: usize) -> Seq<AuditEntry> {
        let s = from_spec(self.audit, Self::audit_start(after));
        let t = if s.len() <= limit {
            s
        } else {
            s.take(limit as int)
        };
        t.map_values(|e: (Key, AuditEntry)| e.1)
    }

    // -- simple projections ----------------------------------------------------

    pub open spec fn audit_entry(self, actor: u64, op: u64, args: [u64; 4], now: u64) -> AuditEntry {
        AuditEntry { seq: self.next_seq, ts_ms: now, actor, op, args }
    }

    /// The audit log with one more row appended.
    pub open spec fn audit_after(self, actor: u64, op: u64, args: [u64; 4], now: u64) -> Map<Key, AuditEntry> {
        as_map(self.audit).insert((self.next_seq, 0, 0), self.audit_entry(actor, op, args, now))
    }
}


// -- membership closure ---------------------------------------------------------

/// The grant of `role` on `obj` to `sub` in a subjects table.
pub open spec fn grant_in(subjects: Seq<(Key, Policy)>, sub: u64, obj: u64, role: u64) -> Option<Policy> {
    opt_get(as_map(subjects), (sub, obj, role))
}

/// A membership edge n → g of level at least `lvl`, into a group other than
/// `x` and outside `avoid`.
pub open spec fn step_in(subjects: Seq<(Key, Policy)>, n: u64, g: u64, x: u64, lvl: nat, avoid: Set<u64>) -> bool {
    &&& grant_in(subjects, n, g, _MEMBER) is Some
    &&& grant_in(subjects, n, g, _MEMBER).unwrap().level() >= lvl
    &&& g != x
    &&& !avoid.contains(g)
}

/// `s` holds every group one step away from `x` or from a group in `s`.
pub open spec fn closed_in(subjects: Seq<(Key, Policy)>, s: Set<u64>, x: u64, lvl: nat, avoid: Set<u64>) -> bool {
    forall|n: u64, g: u64|
        (n == x || s.contains(n)) && #[trigger] step_in(subjects, n, g, x, lvl, avoid) ==> s.contains(g)
}

/// Groups reachable from `x` by steps of level at least `lvl` avoiding
/// `avoid`: the least set closed under such steps.
pub open spec fn reach_in(subjects: Seq<(Key, Policy)>, x: u64, lvl: nat, avoid: Set<u64>) -> Set<u64> {
    Set::new(
        |g: u64| forall|s: Set<u64>| #[trigger] closed_in(subjects, s, x, lvl, avoid) ==> s.contains(g),
    )
}

/// Groups that `x`, or a group positively reachable from `x`, excludes with
/// a `Not` membership edge.
pub open spec fn denied_in(subjects: Seq<(Key, Policy)>, x: u64) -> Set<u64> {
    Set::new(
        |g: u64|
            exists|n: u64|
                (n == x || reach_in(subjects, x, 1, Set::empty()).contains(n)) && #[trigger] grant_in(
                    subjects,
                    n,
                    g,
                    _MEMBER,
                ) == Some(Policy::Not),
    )
}

/// Effective membership of `x` in `g`: excluded groups are `Not`;
/// otherwise the strength of the widest path avoiding excluded groups
/// (`Necessary` if an all-`Necessary` path exists, else `Possible`).
pub open spec fn closure_in(subjects: Seq<(Key, Policy)>, x: u64, g: u64) -> Option<Policy> {
    let d = denied_in(subjects, x);
    if d.contains(g) {
        Some(Policy::Not)
    } else if reach_in(subjects, x, 2, d).contains(g) {
        Some(Policy::Necessary)
    } else if reach_in(subjects, x, 1, d).contains(g) {
        Some(Policy::Possible)
    } else {
        None
    }
}

} // verus!
