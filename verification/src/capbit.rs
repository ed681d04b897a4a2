//! The capbit store: ten ordered tables with write-time materialized group
//! closure, three-bucket resolution, and an audit row for every mutation.
use vstd::prelude::*;
use crate::model::{
    seeded, closed_in, closure_in, denied_in, grant_in, mirrored, or_of, reach_in, step_in, swap01, CapbitView,
};
use crate::policy::{
    pmin, AuditEntry, Error, Masks, Policy, ADMIN_BITS, EDITOR_BITS, MAX_DELEGATION_HOPS, MAX_TYPE_DEPTH,
    OP_BOOTSTRAP, OP_CLEAR, OP_CLEAR_PARENT, OP_CREATE_OBJECT, OP_DEFINE_ROLE, OP_DELEGATE, OP_DELETE_OBJECT,
    OP_DELETE_ROLE, OP_GRANT, OP_REVOKE, OP_SET_PARENT, OP_UNDELEGATE, OP_UPDATE_ROLE, OWNER_BITS, VIEWER_BITS,
    _ADMIN, _AUDIT, _CREATE_OBJ, _DEFINE, _DELEGATE, _DELETE_OBJ, _EDITOR, _GRANT, _MEMBER, _OWNER, _READ_META,
    _REVOKE, _ROOT, _SET_PARENT, _SYSTEM, _VIEWER,
};
use crate::table::{apply_log, as_map, key_hit, key_matches, opt_get, scan_spec, sorted, Key, Table};

verus! {

pub fn vec_contains(v: &Vec<u64>, x: u64) -> (r: bool)
    ensures
        r == v@.contains(x),
{
    let mut i: usize = 0;
    while i < v.len()
        invariant
            i <= v@.len(),
            forall|j: int| 0 <= j < i ==> v@[j] != x,
        decreases v@.len() - i,
    {
        if v[i] == x {
            return true;
        }
        i = i + 1;
    }
    false
}

pub proof fn lemma_or_of_push(s: Seq<(Policy, u64)>, x: (Policy, u64), p: Policy)
    ensures
        or_of(s.push(x), p) == (if x.0 == p {
            or_of(s, p) | x.1
        } else {
            or_of(s, p)
        }),
{
    assert(s.push(x).drop_last() =~= s);
}

/// An embedded capbit store held in memory. Mutations take `&mut self`; a
/// host that shares the store serializes them, so the authorization check
/// and the write happen together.
pub struct Capbit {
    objects: Table<u64>,
    parents: Table<u64>,
    parents_rev: Table<u64>,
    subjects: Table<Policy>,
    subjects_rev: Table<Policy>,
    closure: Table<Policy>,
    closure_rev: Table<Policy>,
    delegations: Table<(u64, Policy)>,
    delegations_rev: Table<(u64, Policy)>,
    audit: Table<AuditEntry>,
    next_seq: u64,
}

/// The writes of one mutation, per table, in order.
pub struct Writes {
    pub objects: Vec<(Key, Option<u64>)>,
    pub parents: Vec<(Key, Option<u64>)>,
    pub parents_rev: Vec<(Key, Option<u64>)>,
    pub subjects: Vec<(Key, Option<Policy>)>,
    pub subjects_rev: Vec<(Key, Option<Policy>)>,
    pub closure: Vec<(Key, Option<Policy>)>,
    pub closure_rev: Vec<(Key, Option<Policy>)>,
    pub delegations: Vec<(Key, Option<(u64, Policy)>)>,
    pub delegations_rev: Vec<(Key, Option<(u64, Policy)>)>,
    pub audit: Vec<(Key, Option<AuditEntry>)>,
}

impl View for Capbit {
    type V = CapbitView;

    closed spec fn view(&self) -> CapbitView {
        CapbitView {
            objects: self.objects@,
            parents: self.parents@,
            parents_rev: self.parents_rev@,
            subjects: self.subjects@,
            subjects_rev: self.subjects_rev@,
            closure: self.closure@,
            closure_rev: self.closure_rev@,
            delegations: self.delegations@,
            delegations_rev: self.delegations_rev@,
            audit: self.audit@,
            next_seq: self.next_seq,
        }
    }
}

impl Capbit {
    /// Tables are well formed, reverse tables mirror their forward tables,
    /// and keys have the documented shapes.
    pub closed spec fn wf(&self) -> bool {
        &&& self.objects.wf()
        &&& self.parents.wf()
        &&& self.parents_rev.wf()
        &&& self.subjects.wf()
        &&& self.subjects_rev.wf()
        &&& self.closure.wf()
        &&& self.closure_rev.wf()
        &&& self.delegations.wf()
        &&& self.delegations_rev.wf()
        &&& self.audit.wf()
        &&& mirrored(self.subjects.map(), self.subjects_rev.map())
        &&& mirrored(self.closure.map(), self.closure_rev.map())
        &&& mirrored(self.delegations.map(), self.delegations_rev.map())
        &&& forall|k: Key| #[trigger] self.closure.map().contains_key(k) ==> k.2 == 0
        &&& forall|k: Key| #[trigger] self.objects.map().contains_key(k) ==> k.2 == 0
        &&& forall|k: Key| #[trigger] self.parents.map().contains_key(k) ==> k.1 == 0 && k.2 == 0
        &&& forall|k: Key| #[trigger]
            self.parents_rev.map().contains_key(k) <==> (k.2 == 0 && opt_get(
                self.parents.map(),
                (k.1, 0, 0),
            ) == Some(k.0))
    }

    /// Every table's write log turns the contents `v` had into the current ones.
    pub closed spec fn logged_since(&self, v: CapbitView) -> bool {
        &&& self.objects.base() == as_map(v.objects)
        &&& self.parents.base() == as_map(v.parents)
        &&& self.parents_rev.base() == as_map(v.parents_rev)
        &&& self.subjects.base() == as_map(v.subjects)
        &&& self.subjects_rev.base() == as_map(v.subjects_rev)
        &&& self.closure.base() == as_map(v.closure)
        &&& self.closure_rev.base() == as_map(v.closure_rev)
        &&& self.delegations.base() == as_map(v.delegations)
        &&& self.delegations_rev.base() == as_map(v.delegations_rev)
        &&& self.audit.base() == as_map(v.audit)
    }

    /// The pending writes of each table.
    pub closed spec fn pending(&self) -> (
        Seq<(Key, Option<u64>)>,
        Seq<(Key, Option<u64>)>,
        Seq<(Key, Option<u64>)>,
        Seq<(Key, Option<Policy>)>,
        Seq<(Key, Option<Policy>)>,
        Seq<(Key, Option<Policy>)>,
        Seq<(Key, Option<Policy>)>,
        Seq<(Key, Option<(u64, Policy)>)>,
        Seq<(Key, Option<(u64, Policy)>)>,
        Seq<(Key, Option<AuditEntry>)>,
    ) {
        (
            self.objects.log(),
            self.parents.log(),
            self.parents_rev.log(),
            self.subjects.log(),
            self.subjects_rev.log(),
            self.closure.log(),
            self.closure_rev.log(),
            self.delegations.log(),
            self.delegations_rev.log(),
            self.audit.log(),
        )
    }

    /// Every mutation is one atomic batch: replaying the pending writes of
    /// each table over the contents that `v` had yields the current contents.
    pub proof fn lemma_batch_replays(&self, v: CapbitView)
        requires
            self.wf(),
            self.logged_since(v),
        ensures
            apply_log(as_map(v.objects), self.pending().0) == as_map(self@.objects),
            apply_log(as_map(v.parents), self.pending().1) == as_map(self@.parents),
            apply_log(as_map(v.parents_rev), self.pending().2) == as_map(self@.parents_rev),
            apply_log(as_map(v.subjects), self.pending().3) == as_map(self@.subjects),
            apply_log(as_map(v.subjects_rev), self.pending().4) == as_map(self@.subjects_rev),
            apply_log(as_map(v.closure), self.pending().5) == as_map(self@.closure),
            apply_log(as_map(v.closure_rev), self.pending().6) == as_map(self@.closure_rev),
            apply_log(as_map(v.delegations), self.pending().7) == as_map(self@.delegations),
            apply_log(as_map(v.delegations_rev), self.pending().8) == as_map(self@.delegations_rev),
            apply_log(as_map(v.audit), self.pending().9) == as_map(self@.audit),
    {
        self.objects.lemma_replays();
        self.parents.lemma_replays();
        self.parents_rev.lemma_replays();
        self.subjects.lemma_replays();
        self.subjects_rev.lemma_replays();
        self.closure.lemma_replays();
        self.closure_rev.lemma_replays();
        self.delegations.lemma_replays();
        self.delegations_rev.lemma_replays();
        self.audit.lemma_replays();
    }

    /// An empty store (not yet bootstrapped).
    pub fn new() -> (c: Capbit)
        ensures
            c.wf(),
            c@.objects.len() == 0,
            c@.parents.len() == 0,
            c@.subjects.len() == 0,
            c@.closure.len() == 0,
            c@.delegations.len() == 0,
            c@.audit.len() == 0,
            c@.next_seq == 0,
    {
        let c = Capbit {
            objects: Table::new(),
            parents: Table::new(),
            parents_rev: Table::new(),
            subjects: Table::new(),
            subjects_rev: Table::new(),
            closure: Table::new(),
            closure_rev: Table::new(),
            delegations: Table::new(),
            delegations_rev: Table::new(),
            audit: Table::new(),
            next_seq: 0,
        };
        proof {
            assert(as_map(c.subjects@) =~= Map::empty());
            assert(as_map(c.subjects_rev@) =~= Map::empty());
            assert(as_map(c.closure@) =~= Map::empty());
            assert(as_map(c.closure_rev@) =~= Map::empty());
            assert(as_map(c.delegations@) =~= Map::empty());
            assert(as_map(c.delegations_rev@) =~= Map::empty());
            assert(as_map(c.objects@) =~= Map::empty());
            assert(as_map(c.parents@) =~= Map::empty());
            assert(as_map(c.parents_rev@) =~= Map::empty());
        }
        c
    }

    // -- role definitions (type-as-object fallback) ---------------------------

    /// Effective mask for a role on an object, falling back through the
    /// type-parent chain. Undefined roles resolve to 0 — never to anything else.
    pub fn role_mask(&self, obj: u64, role: u64) -> (m: u64)
        requires
            self.wf(),
        ensures
            m == self@.role_mask(obj, role),
    {
        let mut cur = obj;
        let mut i: usize = 0;
        while i < MAX_TYPE_DEPTH
            invariant
                self.wf(),
                i <= MAX_TYPE_DEPTH,
                self@.role_mask_from(cur, role, (MAX_TYPE_DEPTH - i) as nat) == self@.role_mask(obj, role),
            decreases MAX_TYPE_DEPTH - i,
        {
            match self.objects.get((cur, role, 0)) {
                Some(m) => {
                    return m;
                },
                None => {},
            }
            match self.parents.get((cur, 0, 0)) {
                Some(p) => {
                    cur = p;
                },
                None => {
                    return 0;
                },
            }
            i = i + 1;
        }
        0
    }

    fn role_defined(&self, obj: u64, role: u64) -> (b: bool)
        requires
            self.wf(),
        ensures
            b == self@.role_defined(obj, role),
    {
        let mut cur = obj;
        let mut i: usize = 0;
        while i < MAX_TYPE_DEPTH
            invariant
                self.wf(),
                i <= MAX_TYPE_DEPTH,
                self@.role_defined_from(cur, role, (MAX_TYPE_DEPTH - i) as nat) == self@.role_defined(obj, role),
            decreases MAX_TYPE_DEPTH - i,
        {
            if self.objects.contains((cur, role, 0)) {
                return true;
            }
            match self.parents.get((cur, 0, 0)) {
                Some(p) => {
                    cur = p;
                },
                None => {
                    return false;
                },
            }
            i = i + 1;
        }
        false
    }

    // -- resolution -----------------------------------------------------------

    /// (role, policy) grant edges for `sub` on `obj`.
    fn grants_on(&self, sub: u64, obj: u64) -> (r: Vec<(u64, Policy)>)
        requires
            self.wf(),
        ensures
            r@ == self@.grants_on(sub, obj),
    {
        let rows = self.subjects.scan(sub, Some(obj), 0);
        let ghost f = |e: (Key, Policy)| (e.0.2, e.1);
        let mut out: Vec<(u64, Policy)> = Vec::new();
        let mut i: usize = 0;
        while i < rows.len()
            invariant
                i <= rows@.len(),
                out@ == rows@.take(i as int).map_values(f),
                f == (|e: (Key, Policy)| (e.0.2, e.1)),
            decreases rows@.len() - i,
        {
            let e = rows[i];
            out.push((e.0.2, e.1));
            proof {
                assert(rows@.take(i + 1).map_values(f) =~= rows@.take(i as int).map_values(f).push(f(e)));
            }
            i = i + 1;
        }
        proof {
            assert(rows@.take(i as int) =~= rows@);
        }
        out
    }

    /// Strongest positive route by which a materialized group of `cur` holds
    /// `role` on `obj`.
    fn best_via_groups(&self, cur: u64, obj: u64, role: u64) -> (r: Option<Policy>)
        requires
            self.wf(),
        ensures
            r == self@.best_fold(self@.groups_rows(cur), obj, role),
    {
        let rows = self.closure.scan(cur, None, 0);
        let ghost f = |e: (Key, Policy)| (e.0.1, e.1);
        let ghost gr = rows@.map_values(f);
        assert(gr == self@.groups_rows(cur));
        let mut best: Option<Policy> = None;
        let mut i: usize = 0;
        while i < rows.len()
            invariant
                self.wf(),
                i <= rows@.len(),
                gr == rows@.map_values(f),
                f == (|e: (Key, Policy)| (e.0.1, e.1)),
                best == self@.best_fold(gr.take(i as int), obj, role),
            decreases rows@.len() - i,
        {
            let e = rows[i];
            let gp = e.1;
            proof {
                assert(gr.take(i + 1).drop_last() =~= gr.take(i as int));
                assert(gr.take(i + 1).last() == (e.0.1, e.1));
            }
            match gp {
                Policy::Not => {},
                _ => {
                    match self.subjects.get((e.0.1, obj, role)) {
                        Some(rp) => {
                            match rp {
                                Policy::Not => {},
                                _ => {
                                    let eff = gp.min(rp);
                                    match best {
                                        None => {
                                            best = Some(eff);
                                        },
                                        Some(b) => {
                                            if eff.to_u64() > b.to_u64() {
                                                best = Some(eff);
                                            }
                                        },
                                    }
                                },
                            }
                        },
                        None => {},
                    }
                },
            }
            i = i + 1;
        }
        proof {
            assert(gr.take(i as int) =~= gr);
        }
        best
    }

    /// Walk a delegation chain. The chain resolves iff some ancestor actually
    /// holds the role (directly or via groups); strength is min over all edges.
    fn resolve_delegation(&self, sub: u64, obj: u64, role: u64, parent: u64, pol: Policy) -> (r: Option<
        Policy,
    >)
        requires
            self.wf(),
        ensures
            r == self@.resolve_delegation(sub, obj, role, parent, pol),
    {
        if let Policy::Not = pol {
            return None;
        }
        let mut strength = pol;
        let mut cur = parent;
        let mut seen: Vec<u64> = Vec::new();
        seen.push(sub);
        proof {
            assert(seen@ =~= seq![sub]);
        }
        let mut i: usize = 0;
        while i < MAX_DELEGATION_HOPS
            invariant
                self.wf(),
                i <= MAX_DELEGATION_HOPS,
                self@.chain(obj, role, cur, strength, seen@, (MAX_DELEGATION_HOPS - i) as nat)
                    == self@.resolve_delegation(sub, obj, role, parent, pol),
            decreases MAX_DELEGATION_HOPS - i,
        {
            if vec_contains(&seen, cur) {
                return None;
            }
            let ghost seen0 = seen@;
            seen.push(cur);
            match self.subjects.get((cur, obj, role)) {
                Some(p) => {
                    return match p {
                        Policy::Not => None,
                        _ => Some(strength.min(p)),
                    };
                },
                None => {},
            }
            match self.best_via_groups(cur, obj, role) {
                Some(b) => {
                    return Some(strength.min(b));
                },
                None => {},
            }
            match self.delegations.get((cur, obj, role)) {
                Some(d) => {
                    if let Policy::Not = d.1 {
                        return None;
                    }
                    strength = strength.min(d.1);
                    cur = d.0;
                },
                None => {
                    return None;
                },
            }
            assert(seen@ == seen0.push(seen@.last()));
            i = i + 1;
        }
        None
    }

    /// Full three-bucket resolution: direct grants, group grants through the
    /// materialized closure, and delegation chains. Denied bits override.
    pub fn get_masks(&self, sub: u64, obj: u64) -> (m: Masks)
        requires
            self.wf(),
        ensures
            m == self@.masks(sub, obj),
    {
        let ghost v = self@;
        let mut m = Masks { necessary: 0, possible: 0, denied: 0 };
        let ghost mut done: Seq<(Policy, u64)> = Seq::empty();
        // 1. Direct grants.
        let direct = self.grants_on(sub, obj);
        let ghost fd = |rp: (u64, Policy)| (rp.1, v.role_mask(obj, rp.0));
        let mut i: usize = 0;
        while i < direct.len()
            invariant
                self.wf(),
                v == self@,
                i <= direct@.len(),
                direct@ == v.grants_on(sub, obj),
                fd == (|rp: (u64, Policy)| (rp.1, v.role_mask(obj, rp.0))),
                done == direct@.take(i as int).map_values(fd),
                m.necessary == or_of(done, Policy::Necessary),
                m.possible == or_of(done, Policy::Possible),
                m.denied == or_of(done, Policy::Not),
            decreases direct@.len() - i,
        {
            let (role, pol) = direct[i];
            let mask = self.role_mask(obj, role);
            match pol {
                Policy::Not => m.denied = m.denied | mask,
                Policy::Possible => m.possible = m.possible | mask,
                Policy::Necessary => m.necessary = m.necessary | mask,
            }
            proof {
                lemma_or_of_push(done, (pol, mask), Policy::Necessary);
                lemma_or_of_push(done, (pol, mask), Policy::Possible);
                lemma_or_of_push(done, (pol, mask), Policy::Not);
                assert(direct@.take(i + 1).map_values(fd) =~= direct@.take(i as int).map_values(fd).push(
                    (pol, mask),
                ));
                done = done.push((pol, mask));
            }
            i = i + 1;
        }
        proof {
            assert(direct@.take(i as int) =~= direct@);
        }
        let ghost d_part = done;
        // 2. Group grants: the subject's effective groups are precomputed.
        let rows = self.closure.scan(sub, None, 0);
        let ghost fg = |e: (Key, Policy)| (e.0.1, e.1);
        let ghost gr = rows@.map_values(fg);
        let ghost vg = |g: (u64, Policy)| v.via_group(obj, g);
        assert(gr == v.groups_rows(sub));
        let mut i: usize = 0;
        while i < rows.len()
            invariant
                self.wf(),
                v == self@,
                i <= rows@.len(),
                gr == rows@.map_values(fg),
                fg == (|e: (Key, Policy)| (e.0.1, e.1)),
                vg == (|g: (u64, Policy)| v.via_group(obj, g)),
                done == d_part + gr.take(i as int).flat_map(vg),
                m.necessary == or_of(done, Policy::Necessary),
                m.possible == or_of(done, Policy::Possible),
                m.denied == or_of(done, Policy::Not),
            decreases rows@.len() - i,
        {
            let e = rows[i];
            let group = e.0.1;
            let gpol = e.1;
            proof {
                gr.lemma_flat_map_take_append(vg, i as int);
                assert(gr[i as int] == (group, gpol));
            }
            let ghost before = done;
            match gpol {
                Policy::Not => {
                    proof {
                        assert(vg((group, gpol)) =~= Seq::<(Policy, u64)>::empty());
                        assert(done + Seq::<(Policy, u64)>::empty() =~= done);
                    }
                },
                _ => {
                    let gs = self.grants_on(group, obj);
                    let ghost fc = |rr: (u64, Policy)|
                        if rr.0 == _MEMBER {
                            None
                        } else {
                            Some(
                                (
                                    if rr.1 == Policy::Not {
                                        Policy::Not
                                    } else {
                                        pmin(gpol, rr.1)
                                    },
                                    v.role_mask(obj, rr.0),
                                ),
                            )
                        };
                    assert(vg((group, gpol)) == gs@.filter_map(fc));
                    let mut j: usize = 0;
                    while j < gs.len()
                        invariant
                            self.wf(),
                            v == self@,
                            j <= gs@.len(),
                            done == before + gs@.take(j as int).filter_map(fc),
                            fc == (|rr: (u64, Policy)|
                                if rr.0 == _MEMBER {
                                    None
                                } else {
                                    Some(
                                        (
                                            if rr.1 == Policy::Not {
                                                Policy::Not
                                            } else {
                                                pmin(gpol, rr.1)
                                            },
                                            v.role_mask(obj, rr.0),
                                        ),
                                    )
                                }),
                            m.necessary == or_of(done, Policy::Necessary),
                            m.possible == or_of(done, Policy::Possible),
                            m.denied == or_of(done, Policy::Not),
                        decreases gs@.len() - j,
                    {
                        let (role, rpol) = gs[j];
                        proof {
                            gs@.lemma_filter_map_take_succ(fc, j as int);
                        }
                        if role != _MEMBER {
                            let eff = match rpol {
                                Policy::Not => Policy::Not,
                                _ => gpol.min(rpol),
                            };
                            let mask = self.role_mask(obj, role);
                            match eff {
                                Policy::Not => m.denied = m.denied | mask,
                                Policy::Possible => m.possible = m.possible | mask,
                                Policy::Necessary => m.necessary = m.necessary | mask,
                            }
                            proof {
                                lemma_or_of_push(done, (eff, mask), Policy::Necessary);
                                lemma_or_of_push(done, (eff, mask), Policy::Possible);
                                lemma_or_of_push(done, (eff, mask), Policy::Not);
                                assert(before + gs@.take(j + 1).filter_map(fc) =~= done.push((eff, mask)));
                                done = done.push((eff, mask));
                            }
                        } else {
                            proof {
                                assert(before + gs@.take(j + 1).filter_map(fc) =~= done);
                            }
                        }
                        j = j + 1;
                    }
                    proof {
                        assert(gs@.take(j as int) =~= gs@);
                    }
                },
            }
            proof {
                assert(d_part + gr.take(i + 1).flat_map(vg) =~= done);
            }
            i = i + 1;
        }
        proof {
            assert(gr.take(i as int) =~= gr);
        }
        let ghost dg_part = done;
        // 3. Delegation chains.
        let drows = self.delegations.scan(sub, Some(obj), 0);
        let ghost fdl = |d: (Key, (u64, Policy))| v.deleg_contrib(sub, obj, d);
        let mut i: usize = 0;
        while i < drows.len()
            invariant
                self.wf(),
                v == self@,
                i <= drows@.len(),
                drows@ == v.deleg_rows(sub, obj),
                fdl == (|d: (Key, (u64, Policy))| v.deleg_contrib(sub, obj, d)),
                done == dg_part + drows@.take(i as int).filter_map(fdl),
                m.necessary == or_of(done, Policy::Necessary),
                m.possible == or_of(done, Policy::Possible),
                m.denied == or_of(done, Policy::Not),
            decreases drows@.len() - i,
        {
            let d = drows[i];
            let role = d.0.2;
            proof {
                drows@.lemma_filter_map_take_succ(fdl, i as int);
            }
            match self.resolve_delegation(sub, obj, role, d.1.0, d.1.1) {
                Some(pol) => {
                    let mask = self.role_mask(obj, role);
                    match pol {
                        Policy::Not => m.denied = m.denied | mask,
                        Policy::Possible => m.possible = m.possible | mask,
                        Policy::Necessary => m.necessary = m.necessary | mask,
                    }
                    proof {
                        lemma_or_of_push(done, (pol, mask), Policy::Necessary);
                        lemma_or_of_push(done, (pol, mask), Policy::Possible);
                        lemma_or_of_push(done, (pol, mask), Policy::Not);
                        assert(dg_part + drows@.take(i + 1).filter_map(fdl) =~= done.push((pol, mask)));
                        done = done.push((pol, mask));
                    }
                },
                None => {
                    proof {
                        assert(dg_part + drows@.take(i + 1).filter_map(fdl) =~= done);
                    }
                },
            }
            i = i + 1;
        }
        proof {
            assert(drows@.take(i as int) =~= drows@);
            assert(done =~= v.contributions(sub, obj));
        }
        m.necessary = m.necessary & !m.denied;
        m.possible = m.possible & !m.denied;
        m
    }

    /// Flat effective mask (post-deny).
    pub fn get_mask(&self, sub: u64, obj: u64) -> (r: u64)
        requires
            self.wf(),
        ensures
            r == self@.allowed(sub, obj),
    {
        self.get_masks(sub, obj).allowed()
    }

    /// Does `sub` hold every bit in `req` on `obj`?
    pub fn check(&self, sub: u64, obj: u64, req: u64) -> (r: bool)
        requires
            self.wf(),
        ensures
            r == self@.allows(sub, obj, req),
    {
        self.get_mask(sub, obj) & req == req
    }

    /// Direct grant lookup (no resolution): does the tuple exist, and how strong?
    pub fn check_subject(&self, sub: u64, obj: u64, role: u64) -> (r: Option<Policy>)
        requires
            self.wf(),
        ensures
            r == self@.grant_of(sub, obj, role),
    {
        self.subjects.get((sub, obj, role))
    }

    fn auth(&self, actor: u64, obj: u64, req: u64) -> (r: Result<(), Error>)
        requires
            self.wf(),
        ensures
            r is Ok <==> self@.allows(actor, obj, req),
            r is Err ==> r == Err::<(), Error>(Error::Denied),
    {
        if self.check(actor, obj, req) {
            Ok(())
        } else {
            Err(Error::Denied)
        }
    }
}


/// Steps of level 2 are steps of level 1, so level-2 reachability is
/// contained in level-1 reachability.
pub proof fn lemma_reach_mono(v: CapbitView, x: u64, avoid: Set<u64>, g: u64)
    requires
        reach_in(v.subjects, x, 2, avoid).contains(g),
    ensures
        reach_in(v.subjects, x, 1, avoid).contains(g),
{
    assert forall|s: Set<u64>| #[trigger] closed_in(v.subjects, s, x, 1, avoid) implies s.contains(g) by {
        assert forall|n: u64, h: u64|
            (n == x || s.contains(n)) && #[trigger] step_in(v.subjects, n, h, x, 2, avoid) implies s.contains(h) by {
            assert(step_in(v.subjects, n, h, x, 1, avoid));
        }
        assert(closed_in(v.subjects, s, x, 2, avoid));
    }
}

impl Capbit {
    /// Groups reachable from `x` by membership edges of level at least `lvl`
    /// whose target is neither `x` nor in `avoid`.
    fn reach(&self, x: u64, lvl: u64, avoid: &Vec<u64>) -> (r: Vec<u64>)
        requires
            self.wf(),
        ensures
            r@.no_duplicates(),
            r@.to_set() == reach_in(self@.subjects, x, lvl as nat, avoid@.to_set()),
    {
        let ghost v = self@;
        let ghost av = avoid@.to_set();
        let ghost lv = lvl as nat;
        let n_rows = self.subjects.len();
        let ghost rows = self.subjects@;
        let ghost tf = |e: (Key, Policy)| e.0.1;
        let ghost targets = rows.map_values(tf).to_set();
        proof {
            self.subjects.lemma_replays();
            broadcast use vstd::seq_lib::seq_to_set_is_finite;
            rows.map_values(tf).lemma_cardinality_of_set();
        }
        let mut r: Vec<u64> = Vec::new();
        let mut work: Vec<u64> = Vec::new();
        work.push(x);
        assert(work@[0] == x);
        while work.len() > 0
            invariant
                self.wf(),
                v == self@,
                rows == self.subjects@,
                n_rows == rows.len(),
                sorted(rows),
                tf == (|e: (Key, Policy)| e.0.1),
                targets == rows.map_values(tf).to_set(),
                targets.finite(),
                targets.len() <= n_rows,
                av == avoid@.to_set(),
                lv == lvl as nat,
                r@.no_duplicates(),
                work@.no_duplicates(),
                r@.len() <= n_rows,
                forall|i: int| 0 <= i < work@.len() ==> work@[i] == x || r@.contains(#[trigger] work@[i]),
                !r@.contains(x),
                forall|i: int| 0 <= i < r@.len() ==> targets.contains(#[trigger] r@[i]),
                forall|s: Set<u64>, g: u64|
                    #[trigger] closed_in(v.subjects, s, x, lv, av) && #[trigger] r@.contains(g) ==> s.contains(g),
                forall|n: u64, g: u64|
                    (n == x || r@.contains(n)) && !work@.contains(n) && #[trigger] step_in(v.subjects, n, g, x, lv, av)
                        ==> r@.contains(g),
            decreases 2 * (n_rows - r@.len()) + work@.len(),
        {
            let ghost m0 = 2 * (n_rows - r@.len()) + work@.len();
            let ghost work0 = work@;
            let n = work.pop().unwrap();
            let ghost work_after_pop = work@;
            proof {
                assert(work0 == work_after_pop.push(n));
                assert forall|m: u64| work0.contains(m) <==> (work_after_pop.contains(m) || m == n) by {
                    if work_after_pop.contains(m) {
                        let k = choose|k: int| 0 <= k < work_after_pop.len() && work_after_pop[k] == m;
                        assert(work0[k] == m);
                    }
                    if work0.contains(m) && m != n {
                        let k = choose|k: int| 0 <= k < work0.len() && work0[k] == m;
                        assert(work_after_pop[k] == m);
                    }
                }
                assert(n == x || r@.contains(n)) by {
                    assert(work0[work0.len() - 1] == n);
                }
                assert(!work@.contains(n)) by {
                    if work@.contains(n) {
                        let k = choose|k: int| 0 <= k < work@.len() && work@[k] == n;
                        assert(work_after_pop.push(n)[k] == work_after_pop.push(n)[work_after_pop.len() as int]);
                    }
                }
            }
            let mut j: usize = 0;
            while j < n_rows
                invariant
                    self.wf(),
                    v == self@,
                    rows == self.subjects@,
                    n_rows == rows.len(),
                    sorted(rows),
                    tf == (|e: (Key, Policy)| e.0.1),
                    targets == rows.map_values(tf).to_set(),
                    targets.finite(),
                    targets.len() <= n_rows,
                    av == avoid@.to_set(),
                    lv == lvl as nat,
                    j <= n_rows,
                    r@.no_duplicates(),
                    work@.no_duplicates(),
                    r@.len() <= n_rows,
                    n == x || r@.contains(n),
                    !work@.contains(n),
                    2 * (n_rows - r@.len()) + work@.len() < m0,
                    forall|i: int| 0 <= i < work@.len() ==> work@[i] == x || r@.contains(#[trigger] work@[i]),
                    !r@.contains(x),
                    forall|i: int| 0 <= i < r@.len() ==> targets.contains(#[trigger] r@[i]),
                    forall|s: Set<u64>, g: u64|
                        #[trigger] closed_in(v.subjects, s, x, lv, av) && #[trigger] r@.contains(g) ==> s.contains(g),
                    forall|m: u64, g: u64|
                        (m == x || r@.contains(m)) && !work@.contains(m) && m != n && #[trigger] step_in(v.subjects, 
                            m,
                            g,
                            x,
                            lv,
                            av,
                        ) ==> r@.contains(g),
                    forall|jj: int|
                        0 <= jj < j && (#[trigger] rows[jj]).0.0 == n && rows[jj].0.2 == _MEMBER
                            && rows[jj].1.level() >= lv && rows[jj].0.1 != x && !av.contains(rows[jj].0.1)
                            ==> r@.contains(rows[jj].0.1),
                decreases n_rows - j,
            {
                let e = self.subjects.row(j);
                let g = e.0.1;
                if e.0.0 == n && e.0.2 == _MEMBER && e.1.to_u64() >= lvl && g != x && !vec_contains(avoid, g)
                    && !vec_contains(&r, g) {
                    proof {
                        Table::<Policy>::lemma_map_at(rows, j as int);
                        assert(grant_in(v.subjects, n, g, _MEMBER) == Some(e.1));
                        assert(step_in(v.subjects, n, g, x, lv, av));
                        assert(rows.map_values(tf)[j as int] == g);
                        assert(targets.contains(g));
                        assert forall|s: Set<u64>| #[trigger] closed_in(v.subjects, s, x, lv, av) implies s.contains(g) by {
                            if n != x {
                                assert(s.contains(n));
                            }
                        }
                        let rs = r@.push(g);
                        r@.lemma_push_to_set_commute(g);
                        assert(rs.to_set().subset_of(targets)) by {
                            assert forall|h: u64| rs.to_set().contains(h) implies targets.contains(h) by {
                                if h != g {
                                    let k = choose|k: int| 0 <= k < r@.len() && r@[k] == h;
                                    assert(targets.contains(r@[k]));
                                }
                            }
                        }
                        vstd::set_lib::lemma_len_subset(rs.to_set(), targets);
                        assert(rs.no_duplicates());
                        rs.unique_seq_to_set();
                    }
                    let ghost r_before = r@;
                    let ghost w_before = work@;
                    r.push(g);
                    work.push(g);
                    proof {
                        assert forall|h: u64| r_before.contains(h) implies #[trigger] r@.contains(h) by {
                            let k = choose|k: int| 0 <= k < r_before.len() && r_before[k] == h;
                            assert(r@[k] == h);
                        }
                        assert(r@[r@.len() - 1] == g);
                        assert forall|m: u64, h: u64|
                            (m == x || r@.contains(m)) && !work@.contains(m) && m != n && #[trigger] step_in(v.subjects, 
                                m,
                                h,
                                x,
                                lv,
                                av,
                            ) implies r@.contains(h) by {
                            assert(work@[work@.len() - 1] == g);
                            assert(m != g);
                            if r@.contains(m) {
                                let k = choose|k: int| 0 <= k < r@.len() && r@[k] == m;
                                assert(r_before[k] == m);
                            }
                            if w_before.contains(m) {
                                let k = choose|k: int| 0 <= k < w_before.len() && w_before[k] == m;
                                assert(work@[k] == m);
                            }
                            assert(r_before.contains(h));
                        }
                        assert forall|i: int| 0 <= i < r@.len() implies targets.contains(#[trigger] r@[i]) by {
                            if i < r@.len() - 1 {
                                assert(r@[i] == r_before[i]);
                            }
                        }
                        assert forall|s: Set<u64>, h: u64|
                            #[trigger] closed_in(v.subjects, s, x, lv, av) && #[trigger] r@.contains(h) implies s.contains(h) by {
                            if h != g {
                                let k = choose|k: int| 0 <= k < r@.len() && r@[k] == h;
                                assert(r_before[k] == h);
                                assert(r_before.contains(h));
                            }
                        }
                        assert forall|i: int| 0 <= i < work@.len() implies work@[i] == x || r@.contains(
                            #[trigger] work@[i],
                        ) by {
                            if i < work@.len() - 1 {
                                assert(work@[i] == w_before[i]);
                                if work@[i] != x {
                                    let k = choose|k: int| 0 <= k < r_before.len() && r_before[k] == work@[i];
                                    assert(r@[k] == work@[i]);
                                }
                            } else {
                                assert(r@[r@.len() - 1] == g);
                            }
                        }
                        assert(work@.no_duplicates()) by {
                            assert(!work@.drop_last().contains(g)) by {
                                if work@.drop_last().contains(g) {
                                    let k = choose|k: int|
                                        0 <= k < work@.drop_last().len() && work@.drop_last()[k] == g;
                                    assert(work@[k] == g);
                                }
                            }
                        }
                    }
                }
                j = j + 1;
            }
            proof {
                assert forall|g: u64| #[trigger] step_in(v.subjects, n, g, x, lv, av) implies r@.contains(g) by {
                    let key = (n, g, _MEMBER);
                    assert(as_map(rows).contains_key(key));
                    let jj = choose|jj: int| 0 <= jj < rows.len() && #[trigger] rows[jj].0 == key;
                    Table::<Policy>::lemma_map_at(rows, jj);
                    assert(rows[jj].0.0 == n);
                }
            }
        }
        proof {
            let rs = r@.to_set();
            assert(closed_in(v.subjects, rs, x, lv, av));
            assert(rs =~= reach_in(v.subjects, x, lv, av)) by {
                assert forall|g: u64| rs.contains(g) implies reach_in(v.subjects, x, lv, av).contains(g) by {
                    assert forall|s: Set<u64>| #[trigger] closed_in(v.subjects, s, x, lv, av) implies s.contains(g) by {
                        assert(r@.contains(g));
                    }
                }
                assert forall|g: u64| reach_in(v.subjects, x, lv, av).contains(g) implies rs.contains(g) by {
                    assert(closed_in(v.subjects, rs, x, lv, av));
                }
            }
        }
        r
    }
}

impl Capbit {
    /// Add to `d` every group that `n` excludes with a `Not` membership edge.
    fn collect_exclusions(&self, x: u64, n: u64, d: &mut Vec<u64>)
        requires
            self.wf(),
            n == x || reach_in(self@.subjects, x, 1, Set::empty()).contains(n),
            old(d)@.no_duplicates(),
            forall|g: u64| #[trigger] old(d)@.contains(g) ==> denied_in(self@.subjects, x).contains(g),
        ensures
            final(d)@.no_duplicates(),
            forall|g: u64| #[trigger] old(d)@.contains(g) ==> final(d)@.contains(g),
            forall|g: u64| #[trigger] final(d)@.contains(g) ==> denied_in(self@.subjects, x).contains(g),
            forall|g: u64|
                #[trigger] grant_in(self@.subjects, n, g, _MEMBER) == Some(Policy::Not) ==> final(d)@.contains(g),
    {
        let ghost v = self@;
        let ghost d_in = d@;
        let n_rows = self.subjects.len();
        let ghost rows = self.subjects@;
        proof {
            self.subjects.lemma_replays();
        }
        let mut j: usize = 0;
        while j < n_rows
            invariant
                self.wf(),
                v == self@,
                rows == self.subjects@,
                rows == v.subjects,
                sorted(rows),
                n_rows == rows.len(),
                j <= n_rows,
                n == x || reach_in(v.subjects, x, 1, Set::empty()).contains(n),
                d@.no_duplicates(),
                forall|g: u64| #[trigger] d_in.contains(g) ==> d@.contains(g),
                forall|g: u64| #[trigger] d@.contains(g) ==> denied_in(v.subjects, x).contains(g),
                forall|jj: int|
                    0 <= jj < j && (#[trigger] rows[jj]).0.0 == n && rows[jj].0.2 == _MEMBER
                        && rows[jj].1 == Policy::Not ==> d@.contains(rows[jj].0.1),
            decreases n_rows - j,
        {
            let e = self.subjects.row(j);
            let is_not = match e.1 {
                Policy::Not => true,
                _ => false,
            };
            if e.0.0 == n && e.0.2 == _MEMBER && is_not && !vec_contains(d, e.0.1) {
                let g = e.0.1;
                proof {
                    Table::<Policy>::lemma_map_at(rows, j as int);
                    assert(grant_in(v.subjects, n, g, _MEMBER) == Some(Policy::Not));
                    assert(denied_in(v.subjects, x).contains(g));
                }
                let ghost d0 = d@;
                d.push(g);
                proof {
                    assert forall|h: u64| d0.contains(h) implies #[trigger] d@.contains(h) by {
                        let q = choose|q: int| 0 <= q < d0.len() && d0[q] == h;
                        assert(d@[q] == h);
                    }
                    assert(d@[d@.len() - 1] == g);
                    assert forall|h: u64| #[trigger] d@.contains(h) implies denied_in(v.subjects, x).contains(h) by {
                        if h != g {
                            let q = choose|q: int| 0 <= q < d@.len() && d@[q] == h;
                            assert(d0[q] == h);
                            assert(d0.contains(h));
                        }
                    }
                    assert forall|jj: int|
                        0 <= jj < j + 1 && (#[trigger] rows[jj]).0.0 == n && rows[jj].0.2 == _MEMBER
                            && rows[jj].1 == Policy::Not implies d@.contains(rows[jj].0.1) by {
                        if jj < j {
                            assert(d0.contains(rows[jj].0.1));
                        }
                    }
                }
            }
            j = j + 1;
        }
        proof {
            assert forall|g: u64|
                #[trigger] grant_in(v.subjects, n, g, _MEMBER) == Some(Policy::Not) implies d@.contains(g) by {
                let key = (n, g, _MEMBER);
                assert(as_map(rows).contains_key(key));
                let jj = choose|jj: int| 0 <= jj < rows.len() && #[trigger] rows[jj].0 == key;
                Table::<Policy>::lemma_map_at(rows, jj);
            }
        }
    }

    /// Groups excluded for `x` (see `denied_in`).
    fn denied(&self, x: u64) -> (d: Vec<u64>)
        requires
            self.wf(),
        ensures
            d@.no_duplicates(),
            d@.to_set() == denied_in(self@.subjects, x),
    {
        let ghost v = self@;
        let none: Vec<u64> = Vec::new();
        let r1 = self.reach(x, 1, &none);
        proof {
            assert(none@.to_set() =~= Set::<u64>::empty());
        }
        let ghost reach1 = reach_in(v.subjects, x, 1, Set::empty());
        let mut d: Vec<u64> = Vec::new();
        self.collect_exclusions(x, x, &mut d);
        let mut k: usize = 0;
        while k < r1.len()
            invariant
                self.wf(),
                v == self@,
                k <= r1@.len(),
                r1@.to_set() == reach1,
                reach1 == reach_in(v.subjects, x, 1, Set::empty()),
                d@.no_duplicates(),
                forall|g: u64| #[trigger] d@.contains(g) ==> denied_in(v.subjects, x).contains(g),
                forall|g: u64| #[trigger] grant_in(v.subjects, x, g, _MEMBER) == Some(Policy::Not) ==> d@.contains(g),
                forall|kk: int, g: u64|
                    0 <= kk < k && #[trigger] grant_in(v.subjects, r1@[kk], g, _MEMBER) == Some(Policy::Not)
                        ==> d@.contains(g),
            decreases r1@.len() - k,
        {
            let n = r1[k];
            proof {
                assert(r1@.contains(n));
                assert(reach1.contains(n));
            }
            let ghost d0 = d@;
            self.collect_exclusions(x, n, &mut d);
            proof {
                assert forall|kk: int, g: u64|
                    0 <= kk < k + 1 && #[trigger] grant_in(v.subjects, r1@[kk], g, _MEMBER) == Some(Policy::Not)
                        implies d@.contains(g) by {
                    if kk < k {
                        assert(d0.contains(g));
                    }
                }
            }
            k = k + 1;
        }
        proof {
            assert(d@.to_set() =~= denied_in(v.subjects, x)) by {
                assert forall|g: u64| denied_in(v.subjects, x).contains(g) implies d@.to_set().contains(g) by {
                    let n = choose|n: u64|
                        (n == x || reach1.contains(n)) && #[trigger] grant_in(v.subjects, n, g, _MEMBER)
                            == Some(Policy::Not);
                    if n != x {
                        assert(r1@.to_set().contains(n));
                        let q = choose|q: int| 0 <= q < r1@.len() && r1@[q] == n;
                        assert(grant_in(v.subjects, r1@[q], g, _MEMBER) == Some(Policy::Not));
                    }
                }
            }
        }
        d
    }
}

impl Capbit {
    /// Only the listed table groups may differ from `o`, and no table's
    /// batch base has moved.
    spec fn frame(&self, o: &Capbit, objs: bool, pars: bool, subs: bool, clos: bool, dels: bool, aud: bool) -> bool {
        &&& (objs || self.objects == o.objects)
        &&& (pars || (self.parents == o.parents && self.parents_rev == o.parents_rev))
        &&& (subs || (self.subjects == o.subjects && self.subjects_rev == o.subjects_rev))
        &&& (clos || (self.closure == o.closure && self.closure_rev == o.closure_rev))
        &&& (dels || (self.delegations == o.delegations && self.delegations_rev == o.delegations_rev))
        &&& (aud || (self.audit == o.audit && self.next_seq == o.next_seq))
        &&& self.objects.base() == o.objects.base()
        &&& self.parents.base() == o.parents.base()
        &&& self.parents_rev.base() == o.parents_rev.base()
        &&& self.subjects.base() == o.subjects.base()
        &&& self.subjects_rev.base() == o.subjects_rev.base()
        &&& self.closure.base() == o.closure.base()
        &&& self.closure_rev.base() == o.closure_rev.base()
        &&& self.delegations.base() == o.delegations.base()
        &&& self.delegations_rev.base() == o.delegations_rev.base()
        &&& self.audit.base() == o.audit.base()
    }

    /// Start the batch of one mutation.
    fn begin_all(&mut self)
        requires
            old(self).wf(),
        ensures
            final(self).wf(),
            final(self)@ == old(self)@,
            final(self).logged_since(old(self)@),
    {
        self.objects.begin();
        self.parents.begin();
        self.parents_rev.begin();
        self.subjects.begin();
        self.subjects_rev.begin();
        self.closure.begin();
        self.closure_rev.begin();
        self.delegations.begin();
        self.delegations_rev.begin();
        self.audit.begin();
    }

    /// Hand out the writes of the last mutation as one batch.
    pub fn take_writes(&mut self) -> (w: Writes)
        requires
            old(self).wf(),
        ensures
            final(self).wf(),
            final(self)@ == old(self)@,
            final(self).logged_since(old(self)@),
            w.objects@ == old(self).pending().0,
            w.parents@ == old(self).pending().1,
            w.parents_rev@ == old(self).pending().2,
            w.subjects@ == old(self).pending().3,
            w.subjects_rev@ == old(self).pending().4,
            w.closure@ == old(self).pending().5,
            w.closure_rev@ == old(self).pending().6,
            w.delegations@ == old(self).pending().7,
            w.delegations_rev@ == old(self).pending().8,
            w.audit@ == old(self).pending().9,
    {
        Writes {
            objects: self.objects.take_log(),
            parents: self.parents.take_log(),
            parents_rev: self.parents_rev.take_log(),
            subjects: self.subjects.take_log(),
            subjects_rev: self.subjects_rev.take_log(),
            closure: self.closure.take_log(),
            closure_rev: self.closure_rev.take_log(),
            delegations: self.delegations.take_log(),
            delegations_rev: self.delegations_rev.take_log(),
            audit: self.audit.take_log(),
        }
    }

    fn put_closure(&mut self, x: u64, g: u64, p: Policy)
        requires
            old(self).wf(),
        ensures
            final(self).wf(),
            final(self).frame(old(self), false, false, false, true, false, false),
            final(self).closure.map() == old(self).closure.map().insert((x, g, 0), p),
    {
        self.closure.insert((x, g, 0), p);
        self.closure_rev.insert((g, x, 0), p);
        proof {
            assert(mirrored(self.closure.map(), self.closure_rev.map())) by {
                assert forall|k: Key| #[trigger] opt_get(self.closure_rev.map(), swap01(k)) == opt_get(
                    self.closure.map(),
                    k,
                ) by {
                    assert(opt_get(old(self).closure_rev.map(), swap01(k)) == opt_get(old(self).closure.map(), k));
                }
            }
        }
    }

    fn del_closure(&mut self, k: Key)
        requires
            old(self).wf(),
        ensures
            final(self).wf(),
            final(self).frame(old(self), false, false, false, true, false, false),
            final(self).closure.map() == old(self).closure.map().remove(k),
    {
        self.closure.remove(k);
        self.closure_rev.remove((k.1, k.0, k.2));
        proof {
            assert(mirrored(self.closure.map(), self.closure_rev.map())) by {
                assert forall|kk: Key| #[trigger] opt_get(self.closure_rev.map(), swap01(kk)) == opt_get(
                    self.closure.map(),
                    kk,
                ) by {
                    assert(opt_get(old(self).closure_rev.map(), swap01(kk)) == opt_get(old(self).closure.map(), kk));
                }
            }
        }
    }

    /// Recompute the full effective-membership set of `x` and replace its
    /// materialized rows with it.
    fn rebuild_closure(&mut self, x: u64)
        requires
            old(self).wf(),
        ensures
            final(self).wf(),
            final(self).frame(old(self), false, false, false, true, false, false),
            forall|g: u64| #[trigger] opt_get(final(self).closure.map(), (x, g, 0)) == closure_in(old(self)@.subjects, x, g),
            forall|k: Key| k.0 == x && k.2 != 0 ==> !#[trigger] final(self).closure.map().contains_key(k),
            forall|k: Key| k.0 != x ==> #[trigger] opt_get(final(self).closure.map(), k) == opt_get(old(self).closure.map(), k),
    {
        let ghost v = self@;
        let ghost subj = v.subjects;
        let d = self.denied(x);
        let nec = self.reach(x, 2, &d);
        let pos = self.reach(x, 1, &d);
        let ghost dset = denied_in(subj, x);
        let old_rows = self.closure.scan(x, None, 0);
        let ghost orig = self.closure.map();
        proof {
            self.closure.lemma_replays();
        }
        let ghost pred = |e: (Key, Policy)| crate::table::key_matches(e.0, x, None, 0);
        let mut i: usize = 0;
        while i < old_rows.len()
            invariant
                self.wf(),
                self.frame(old(self), false, false, false, true, false, false),
                self@.subjects == subj,
                i <= old_rows@.len(),
                old_rows@ == v.closure.filter(pred),
                pred == (|e: (Key, Policy)| crate::table::key_matches(e.0, x, None, 0)),
                forall|k: Key|
                    #[trigger] opt_get(self.closure.map(), k) == (if k.0 == x && (exists|j: int|
                        0 <= j < i && (#[trigger] old_rows@[j]).0 == k) {
                        None
                    } else {
                        opt_get(orig, k)
                    }),
            decreases old_rows@.len() - i,
        {
            let k = old_rows[i].0;
            proof {
                broadcast use vstd::seq_lib::group_filter_ensures;
                assert(pred(old_rows@[i as int]));
            }
            let ghost m_before = self.closure.map();
            self.del_closure(k);
            proof {
                assert forall|kk: Key|
                    #[trigger] opt_get(self.closure.map(), kk) == (if kk.0 == x && (exists|j: int|
                        0 <= j < i + 1 && (#[trigger] old_rows@[j]).0 == kk) {
                        None
                    } else {
                        opt_get(orig, kk)
                    }) by {
                    if kk == k {
                        assert(old_rows@[i as int].0 == kk);
                    } else {
                        assert(opt_get(self.closure.map(), kk) == opt_get(m_before, kk));
                        if exists|j: int| 0 <= j < i + 1 && (#[trigger] old_rows@[j]).0 == kk {
                            let j = choose|j: int| 0 <= j < i + 1 && (#[trigger] old_rows@[j]).0 == kk;
                            assert(j < i);
                        }
                    }
                }
            }
            i = i + 1;
        }
        proof {
            assert forall|k: Key| k.0 == x implies !#[trigger] self.closure.map().contains_key(k) by {
                if orig.contains_key(k) {
                    let idx = choose|idx: int| 0 <= idx < v.closure.len() && #[trigger] v.closure[idx].0 == k;
                    broadcast use vstd::seq_lib::group_filter_ensures;
                    assert(pred(v.closure[idx]));
                    assert(v.closure.filter(pred).contains(v.closure[idx]));
                    let j = choose|j: int| 0 <= j < old_rows@.len() && old_rows@[j] == v.closure[idx];
                    assert(old_rows@[j].0 == k);
                }
                assert(opt_get(self.closure.map(), k) is None);
            }
        }
        let mut i: usize = 0;
        while i < pos.len()
            invariant
                self.wf(),
                self.frame(old(self), false, false, false, true, false, false),
                self@.subjects == subj,
                i <= pos@.len(),
                forall|k: Key| k.0 == x && k.2 != 0 ==> !#[trigger] self.closure.map().contains_key(k),
                forall|k: Key| k.0 != x ==> #[trigger] opt_get(self.closure.map(), k) == opt_get(orig, k),
                forall|g: u64|
                    #[trigger] opt_get(self.closure.map(), (x, g, 0)) == (if exists|j: int|
                        0 <= j < i && pos@[j] == g {
                        Some(
                            if nec@.contains(g) {
                                Policy::Necessary
                            } else {
                                Policy::Possible
                            },
                        )
                    } else {
                        None
                    }),
            decreases pos@.len() - i,
        {
            let g = pos[i];
            let p = if vec_contains(&nec, g) {
                Policy::Necessary
            } else {
                Policy::Possible
            };
            let ghost m_before = self.closure.map();
            self.put_closure(x, g, p);
            proof {
                assert forall|k: Key| k.0 == x && k.2 != 0 implies !#[trigger] self.closure.map().contains_key(k) by {
                    assert(!m_before.contains_key(k));
                }
                assert forall|k: Key| k.0 != x implies #[trigger] opt_get(self.closure.map(), k) == opt_get(orig, k) by {
                    assert(opt_get(m_before, k) == opt_get(orig, k));
                }
                assert forall|h: u64|
                    #[trigger] opt_get(self.closure.map(), (x, h, 0)) == (if exists|j: int|
                        0 <= j < i + 1 && pos@[j] == h {
                        Some(
                            if nec@.contains(h) {
                                Policy::Necessary
                            } else {
                                Policy::Possible
                            },
                        )
                    } else {
                        None
                    }) by {
                    if h == g {
                        assert(pos@[i as int] == h);
                    } else {
                        assert(opt_get(self.closure.map(), (x, h, 0)) == opt_get(m_before, (x, h, 0)));
                        if exists|j: int| 0 <= j < i + 1 && pos@[j] == h {
                            let j = choose|j: int| 0 <= j < i + 1 && pos@[j] == h;
                            assert(j < i);
                        }
                    }
                }
            }
            i = i + 1;
        }
        let mut i: usize = 0;
        while i < d.len()
            invariant
                self.wf(),
                self.frame(old(self), false, false, false, true, false, false),
                self@.subjects == subj,
                i <= d@.len(),
                forall|k: Key| k.0 == x && k.2 != 0 ==> !#[trigger] self.closure.map().contains_key(k),
                forall|k: Key| k.0 != x ==> #[trigger] opt_get(self.closure.map(), k) == opt_get(orig, k),
                forall|g: u64|
                    #[trigger] opt_get(self.closure.map(), (x, g, 0)) == (if exists|j: int|
                        0 <= j < i && d@[j] == g {
                        Some(Policy::Not)
                    } else if pos@.contains(g) {
                        Some(
                            if nec@.contains(g) {
                                Policy::Necessary
                            } else {
                                Policy::Possible
                            },
                        )
                    } else {
                        None
                    }),
            decreases d@.len() - i,
        {
            let g = d[i];
            let ghost m_before = self.closure.map();
            self.put_closure(x, g, Policy::Not);
            proof {
                assert forall|k: Key| k.0 == x && k.2 != 0 implies !#[trigger] self.closure.map().contains_key(k) by {
                    assert(!m_before.contains_key(k));
                }
                assert forall|k: Key| k.0 != x implies #[trigger] opt_get(self.closure.map(), k) == opt_get(orig, k) by {
                    assert(opt_get(m_before, k) == opt_get(orig, k));
                }
                assert forall|h: u64|
                    #[trigger] opt_get(self.closure.map(), (x, h, 0)) == (if exists|j: int|
                        0 <= j < i + 1 && d@[j] == h {
                        Some(Policy::Not)
                    } else if pos@.contains(h) {
                        Some(
                            if nec@.contains(h) {
                                Policy::Necessary
                            } else {
                                Policy::Possible
                            },
                        )
                    } else {
                        None
                    }) by {
                    if h == g {
                        assert(d@[i as int] == h);
                    } else {
                        assert(opt_get(self.closure.map(), (x, h, 0)) == opt_get(m_before, (x, h, 0)));
                        if exists|j: int| 0 <= j < i + 1 && d@[j] == h {
                            let j = choose|j: int| 0 <= j < i + 1 && d@[j] == h;
                            assert(j < i);
                        }
                    }
                }
            }
            i = i + 1;
        }
        proof {
            assert forall|g: u64| #[trigger] opt_get(self.closure.map(), (x, g, 0)) == closure_in(subj, x, g) by {
                if d@.contains(g) {
                    let j = choose|j: int| 0 <= j < d@.len() && d@[j] == g;
                    assert(d@.to_set().contains(g));
                } else {
                    assert(!dset.contains(g));
                    if pos@.contains(g) {
                        assert(pos@.to_set().contains(g));
                        if nec@.contains(g) {
                            assert(nec@.to_set().contains(g));
                        } else {
                            assert(!nec@.to_set().contains(g));
                        }
                    } else {
                        assert(!pos@.to_set().contains(g));
                        if reach_in(subj, x, 2, dset).contains(g) {
                            lemma_reach_mono(v, x, dset, g);
                        }
                    }
                }
            }
        }
    }
}

impl Capbit {
    fn put_grant(&mut self, sub: u64, obj: u64, role: u64, p: Policy)
        requires
            old(self).wf(),
        ensures
            final(self).wf(),
            final(self).frame(old(self), false, false, true, false, false, false),
            final(self).subjects.map() == old(self).subjects.map().insert((sub, obj, role), p),
    {
        self.subjects.insert((sub, obj, role), p);
        self.subjects_rev.insert((obj, sub, role), p);
        proof {
            assert forall|k: Key| #[trigger] opt_get(self.subjects_rev.map(), swap01(k)) == opt_get(
                self.subjects.map(),
                k,
            ) by {
                assert(opt_get(old(self).subjects_rev.map(), swap01(k)) == opt_get(old(self).subjects.map(), k));
            }
        }
    }

    fn del_grant(&mut self, sub: u64, obj: u64, role: u64)
        requires
            old(self).wf(),
        ensures
            final(self).wf(),
            final(self).frame(old(self), false, false, true, false, false, false),
            final(self).subjects.map() == old(self).subjects.map().remove((sub, obj, role)),
    {
        self.subjects.remove((sub, obj, role));
        self.subjects_rev.remove((obj, sub, role));
        proof {
            assert forall|k: Key| #[trigger] opt_get(self.subjects_rev.map(), swap01(k)) == opt_get(
                self.subjects.map(),
                k,
            ) by {
                assert(opt_get(old(self).subjects_rev.map(), swap01(k)) == opt_get(old(self).subjects.map(), k));
            }
        }
    }

    fn put_deleg(&mut self, sub: u64, obj: u64, role: u64, d: (u64, Policy))
        requires
            old(self).wf(),
        ensures
            final(self).wf(),
            final(self).frame(old(self), false, false, false, false, true, false),
            final(self).delegations.map() == old(self).delegations.map().insert((sub, obj, role), d),
    {
        self.delegations.insert((sub, obj, role), d);
        self.delegations_rev.insert((obj, sub, role), d);
        proof {
            assert forall|k: Key| #[trigger] opt_get(self.delegations_rev.map(), swap01(k)) == opt_get(
                self.delegations.map(),
                k,
            ) by {
                assert(opt_get(old(self).delegations_rev.map(), swap01(k)) == opt_get(
                    old(self).delegations.map(),
                    k,
                ));
            }
        }
    }

    fn del_deleg(&mut self, sub: u64, obj: u64, role: u64)
        requires
            old(self).wf(),
        ensures
            final(self).wf(),
            final(self).frame(old(self), false, false, false, false, true, false),
            final(self).delegations.map() == old(self).delegations.map().remove((sub, obj, role)),
    {
        self.delegations.remove((sub, obj, role));
        self.delegations_rev.remove((obj, sub, role));
        proof {
            assert forall|k: Key| #[trigger] opt_get(self.delegations_rev.map(), swap01(k)) == opt_get(
                self.delegations.map(),
                k,
            ) by {
                assert(opt_get(old(self).delegations_rev.map(), swap01(k)) == opt_get(
                    old(self).delegations.map(),
                    k,
                ));
            }
        }
    }

    fn put_role(&mut self, obj: u64, role: u64, mask: u64)
        requires
            old(self).wf(),
        ensures
            final(self).wf(),
            final(self).frame(old(self), true, false, false, false, false, false),
            final(self).objects.map() == old(self).objects.map().insert((obj, role, 0), mask),
    {
        self.objects.insert((obj, role, 0), mask);
    }

    fn del_role_row(&mut self, k: Key)
        requires
            old(self).wf(),
        ensures
            final(self).wf(),
            final(self).frame(old(self), true, false, false, false, false, false),
            final(self).objects.map() == old(self).objects.map().remove(k),
    {
        self.objects.remove(k);
    }

    /// Make `parent` the type-parent of `obj` (replacing any previous one).
    fn put_parent(&mut self, obj: u64, parent: u64)
        requires
            old(self).wf(),
        ensures
            final(self).wf(),
            final(self).frame(old(self), false, true, false, false, false, false),
            final(self).parents.map() == old(self).parents.map().insert((obj, 0, 0), parent),
    {
        match self.parents.get((obj, 0, 0)) {
            Some(old_parent) => {
                self.parents_rev.remove((old_parent, obj, 0));
            },
            None => {},
        }
        self.parents.insert((obj, 0, 0), parent);
        self.parents_rev.insert((parent, obj, 0), 1);
        proof {
            assert forall|k: Key| #[trigger] self.parents_rev.map().contains_key(k) <==> (k.2 == 0 && opt_get(
                self.parents.map(),
                (k.1, 0, 0),
            ) == Some(k.0)) by {
                assert(old(self).parents_rev.map().contains_key(k) <==> (k.2 == 0 && opt_get(
                    old(self).parents.map(),
                    (k.1, 0, 0),
                ) == Some(k.0)));
            }
        }
    }

    /// Remove the type-parent of `obj`, if any.
    fn drop_parent(&mut self, obj: u64)
        requires
            old(self).wf(),
        ensures
            final(self).wf(),
            final(self).frame(old(self), false, true, false, false, false, false),
            final(self).parents.map() == old(self).parents.map().remove((obj, 0, 0)),
    {
        match self.parents.get((obj, 0, 0)) {
            Some(old_parent) => {
                self.parents_rev.remove((old_parent, obj, 0));
            },
            None => {},
        }
        self.parents.remove((obj, 0, 0));
        proof {
            assert forall|k: Key| #[trigger] self.parents_rev.map().contains_key(k) <==> (k.2 == 0 && opt_get(
                self.parents.map(),
                (k.1, 0, 0),
            ) == Some(k.0)) by {
                assert(old(self).parents_rev.map().contains_key(k) <==> (k.2 == 0 && opt_get(
                    old(self).parents.map(),
                    (k.1, 0, 0),
                ) == Some(k.0)));
            }
        }
    }

    fn append_audit(&mut self, actor: u64, op: u64, args: [u64; 4], now: u64)
        requires
            old(self).wf(),
            old(self).next_seq < u64::MAX,
        ensures
            final(self).wf(),
            final(self).frame(old(self), false, false, false, false, false, true),
            as_map(final(self)@.audit) == old(self)@.audit_after(actor, op, args, now),
            final(self).next_seq == old(self).next_seq + 1,
    {
        let e = AuditEntry { seq: self.next_seq, ts_ms: now, actor, op, args };
        self.audit.insert((self.next_seq, 0, 0), e);
        self.next_seq = self.next_seq + 1;
    }

    /// Entities whose effective membership could change when `group`'s edges
    /// change: the group itself plus everything currently inside it.
    fn affected_by(&self, group: u64) -> (r: Vec<u64>)
        requires
            self.wf(),
        ensures
            r@.to_set() == self@.affected_by(group),
    {
        let rows = self.closure_rev.scan(group, None, 0);
        let ghost pred = |e: (Key, Policy)| crate::table::key_matches(e.0, group, None, 0);
        let mut r: Vec<u64> = Vec::new();
        r.push(group);
        proof {
            self.closure_rev.lemma_replays();
            self.closure.lemma_replays();
        }
        let mut i: usize = 0;
        while i < rows.len()
            invariant
                self.wf(),
                i <= rows@.len(),
                rows@ == self.closure_rev@.filter(pred),
                pred == (|e: (Key, Policy)| crate::table::key_matches(e.0, group, None, 0)),
                r@.len() == i + 1,
                r@[0] == group,
                forall|j: int| 0 <= j < i ==> r@[j + 1] == (#[trigger] rows@[j]).0.1,
            decreases rows@.len() - i,
        {
            r.push(rows[i].0.1);
            i = i + 1;
        }
        proof {
            broadcast use vstd::seq_lib::group_filter_ensures;
            let cr = self.closure_rev.map();
            assert forall|m: u64| r@.to_set().contains(m) <==> self@.affected_by(group).contains(m) by {
                if r@.to_set().contains(m) && m != group {
                    let q = choose|q: int| 0 <= q < r@.len() && r@[q] == m;
                    assert(q > 0);
                    let e = rows@[q - 1];
                    assert(rows@.contains(e));
                    self.closure_rev@.lemma_filter_contains_rev(pred, e);
                    assert(pred(e));
                    assert(self.closure_rev@.contains(e));
                    let idx = choose|idx: int| 0 <= idx < self.closure_rev@.len() && self.closure_rev@[idx] == e;
                    Table::<Policy>::lemma_map_at(self.closure_rev@, idx);
                    assert(cr.contains_key(e.0));
                    let k2 = swap01(e.0);
                    assert(swap01(k2) == e.0);
                    assert(opt_get(self.closure_rev.map(), swap01(k2)) == opt_get(self.closure.map(), k2));
                    assert(opt_get(self.closure.map(), swap01(e.0)) is Some);
                    assert(e.0.2 == 0);
                    assert(e.0 == (group, m, 0u64));
                }
                if self@.affected_by(group).contains(m) && m != group {
                    assert(cr.contains_key((group, m, 0u64)));
                    let idx = choose|idx: int|
                        0 <= idx < self.closure_rev@.len() && #[trigger] self.closure_rev@[idx].0 == (group, m, 0u64);
                    assert(pred(self.closure_rev@[idx]));
                    assert(rows@.contains(self.closure_rev@[idx]));
                    let j = choose|j: int| 0 <= j < rows@.len() && rows@[j] == self.closure_rev@[idx];
                    assert(r@[j + 1] == m);
                }
            }
            assert(r@.to_set() =~= self@.affected_by(group));
        }
        r
    }

    /// Recompute the closure rows of every entity in `affected`.
    fn rebuild_closures(&mut self, affected: &Vec<u64>)
        requires
            old(self).wf(),
        ensures
            final(self).wf(),
            final(self).frame(old(self), false, false, false, true, false, false),
            forall|x: u64, g: u64|
                affected@.contains(x) ==> #[trigger] opt_get(final(self).closure.map(), (x, g, 0)) == closure_in(
                    old(self)@.subjects,
                    x,
                    g,
                ),
            forall|k: Key| affected@.contains(k.0) && k.2 != 0 ==> !#[trigger] final(self).closure.map().contains_key(k),
            forall|k: Key|
                !affected@.contains(k.0) ==> #[trigger] opt_get(final(self).closure.map(), k) == opt_get(
                    old(self).closure.map(),
                    k,
                ),
    {
        let ghost subj = self@.subjects;
        let ghost orig = self.closure.map();
        let mut i: usize = 0;
        while i < affected.len()
            invariant
                self.wf(),
                self.frame(old(self), false, false, false, true, false, false),
                self@.subjects == subj,
                orig == old(self).closure.map(),
                i <= affected@.len(),
                forall|x: u64, g: u64|
                    affected@.take(i as int).contains(x) ==> #[trigger] opt_get(self.closure.map(), (x, g, 0))
                        == closure_in(subj, x, g),
                forall|k: Key|
                    affected@.take(i as int).contains(k.0) && k.2 != 0 ==> !#[trigger] self.closure.map().contains_key(k),
                forall|k: Key|
                    !affected@.take(i as int).contains(k.0) ==> #[trigger] opt_get(self.closure.map(), k) == opt_get(
                        orig,
                        k,
                    ),
            decreases affected@.len() - i,
        {
            let x = affected[i];
            let ghost before = self.closure.map();
            self.rebuild_closure(x);
            proof {
                let t0 = affected@.take(i as int);
                let t1 = affected@.take(i + 1);
                assert(t1 =~= t0.push(x));
                assert forall|y: u64| #[trigger] t1.contains(y) <==> (t0.contains(y) || y == x) by {
                    if t1.contains(y) && y != x {
                        let q = choose|q: int| 0 <= q < t1.len() && t1[q] == y;
                        assert(t0[q] == y);
                    }
                    if t0.contains(y) {
                        let q = choose|q: int| 0 <= q < t0.len() && t0[q] == y;
                        assert(t1[q] == y);
                    }
                    if y == x {
                        assert(t1[i as int] == y);
                    }
                }
                assert forall|y: u64, g: u64| t1.contains(y) implies #[trigger] opt_get(self.closure.map(), (y, g, 0))
                    == closure_in(subj, y, g) by {
                    if y != x {
                        assert(opt_get(before, (y, g, 0)) == closure_in(subj, y, g));
                    }
                }
                assert forall|k: Key| t1.contains(k.0) && k.2 != 0 implies !#[trigger] self.closure.map().contains_key(k) by {
                    if k.0 != x {
                        assert(!before.contains_key(k));
                        assert(opt_get(self.closure.map(), k) == opt_get(before, k));
                    }
                }
                assert forall|k: Key| !t1.contains(k.0) implies #[trigger] opt_get(self.closure.map(), k) == opt_get(orig, k) by {
                    assert(opt_get(before, k) == opt_get(orig, k));
                }
            }
            i = i + 1;
        }
        proof {
            assert(affected@.take(i as int) =~= affected@);
        }
    }
}

impl Capbit {
    /// Reverse tables mirror their forward tables.
    pub proof fn lemma_mirrors(&self)
        requires
            self.wf(),
        ensures
            mirrored(as_map(self@.subjects), as_map(self@.subjects_rev)),
            mirrored(as_map(self@.closure), as_map(self@.closure_rev)),
            mirrored(as_map(self@.delegations), as_map(self@.delegations_rev)),
            forall|k: Key| #[trigger] as_map(self@.closure).contains_key(k) ==> k.2 == 0,
            forall|k: Key| #[trigger]
                as_map(self@.parents_rev).contains_key(k) <==> (k.2 == 0 && self@.parent_of(k.1) == Some(k.0)),
            sorted(self@.objects),
            sorted(self@.parents),
            sorted(self@.parents_rev),
            sorted(self@.subjects),
            sorted(self@.subjects_rev),
            sorted(self@.closure),
            sorted(self@.closure_rev),
            sorted(self@.delegations),
            sorted(self@.delegations_rev),
            sorted(self@.audit),
    {
        self.objects.lemma_replays();
        self.parents.lemma_replays();
        self.parents_rev.lemma_replays();
        self.subjects.lemma_replays();
        self.subjects_rev.lemma_replays();
        self.closure.lemma_replays();
        self.closure_rev.lemma_replays();
        self.delegations.lemma_replays();
        self.delegations_rev.lemma_replays();
        self.audit.lemma_replays();
    }

    /// Grant `role` on `obj` to `sub` at `policy` strength. Requires `_GRANT`.
    /// `Policy::Not` is an explicit deny of the role's bits. The role must be
    /// defined on the object (or its type chain), except `_MEMBER` which needs
    /// no mask. Granting `_MEMBER` makes `sub` a member of group `obj` and
    /// rebuilds the affected closure rows in the same batch.
    pub fn grant(&mut self, actor: u64, sub: u64, obj: u64, role: u64, policy: Policy, now: u64) -> (r: Result<
        (),
        Error,
    >)
        requires
            old(self).wf(),
            old(self)@.next_seq < u64::MAX,
        ensures
            final(self).wf(),
            final(self).logged_since(old(self)@),
            r is Err <==> old(self)@.grant_refusal(actor, sub, obj, role) is Some,
            r matches Err(e) ==> Some(e) == old(self)@.grant_refusal(actor, sub, obj, role) && final(self)@ == old(self)@,
            r is Ok ==> {
                &&& as_map(final(self)@.subjects) == as_map(old(self)@.subjects).insert((sub, obj, role), policy)
                &&& final(self)@.keeps(old(self)@, false, false, true, role == _MEMBER, false, true)
                &&& (role == _MEMBER ==> final(self)@.rebuilt(old(self)@, old(self)@.affected_by(sub)))
                &&& final(self)@.audited(old(self)@, actor, OP_GRANT, [sub, obj, role, policy.level() as u64], now)
            },
    {
        self.begin_all();
        match self.auth(actor, obj, _GRANT) {
            Err(e) => {
                return Err(e);
            },
            Ok(()) => {},
        }
        if role != _MEMBER && !self.role_defined(obj, role) {
            return Err(Error::NotFound);
        }
        if role == _MEMBER {
            if sub == obj {
                return Err(Error::Cycle);
            }
            match self.closure.get((obj, sub, 0)) {
                Some(p) => {
                    match p {
                        Policy::Not => {},
                        _ => {
                            return Err(Error::Cycle);
                        },
                    }
                },
                None => {},
            }
        }
        let ghost v0 = self@;
        let affected = if role == _MEMBER {
            self.affected_by(sub)
        } else {
            Vec::new()
        };
        self.put_grant(sub, obj, role, policy);
        if role == _MEMBER {
            self.rebuild_closures(&affected);
        }
        self.append_audit(actor, OP_GRANT, [sub, obj, role, policy.to_u64()], now);
        proof {
            if role == _MEMBER {
                assert forall|x: u64| affected@.contains(x) <==> v0.affected_by(sub).contains(x) by {
                    assert(affected@.to_set().contains(x) == affected@.contains(x));
                }
            }
        }
        Ok(())
    }
}

impl Capbit {
    /// Remove every grant whose subject (or object, when `by_object`) is `a`
    /// and whose role is `role` when given.
    fn purge_grants(&mut self, by_object: bool, a: u64, role: Option<u64>)
        requires
            old(self).wf(),
        ensures
            final(self).wf(),
            final(self).frame(old(self), false, false, true, false, false, false),
            forall|k: Key|
                #[trigger] opt_get(final(self).subjects.map(), k) == (if key_hit(k, by_object, a, role) {
                    None
                } else {
                    opt_get(old(self).subjects.map(), k)
                }),
    {
        self.subjects.remove_where(by_object, a, role);
        self.subjects_rev.remove_where(!by_object, a, role);
        proof {
            assert forall|k: Key| #[trigger] opt_get(self.subjects_rev.map(), swap01(k)) == opt_get(
                self.subjects.map(),
                k,
            ) by {
                assert(opt_get(old(self).subjects_rev.map(), swap01(k)) == opt_get(old(self).subjects.map(), k));
                assert(opt_get(self.subjects_rev.map(), swap01(k)) == (if key_hit(swap01(k), !by_object, a, role) {
                    None
                } else {
                    opt_get(old(self).subjects_rev.map(), swap01(k))
                }));
            }
        }
    }

    fn purge_delegs(&mut self, by_object: bool, a: u64, role: Option<u64>)
        requires
            old(self).wf(),
        ensures
            final(self).wf(),
            final(self).frame(old(self), false, false, false, false, true, false),
            forall|k: Key|
                #[trigger] opt_get(final(self).delegations.map(), k) == (if key_hit(k, by_object, a, role) {
                    None
                } else {
                    opt_get(old(self).delegations.map(), k)
                }),
    {
        self.delegations.remove_where(by_object, a, role);
        self.delegations_rev.remove_where(!by_object, a, role);
        proof {
            assert forall|k: Key| #[trigger] opt_get(self.delegations_rev.map(), swap01(k)) == opt_get(
                self.delegations.map(),
                k,
            ) by {
                assert(opt_get(old(self).delegations_rev.map(), swap01(k)) == opt_get(
                    old(self).delegations.map(),
                    k,
                ));
                assert(opt_get(self.delegations_rev.map(), swap01(k)) == (if key_hit(swap01(k), !by_object, a, role) {
                    None
                } else {
                    opt_get(old(self).delegations_rev.map(), swap01(k))
                }));
            }
        }
    }

    fn purge_closure(&mut self, by_group: bool, a: u64)
        requires
            old(self).wf(),
        ensures
            final(self).wf(),
            final(self).frame(old(self), false, false, false, true, false, false),
            forall|k: Key|
                #[trigger] opt_get(final(self).closure.map(), k) == (if key_hit(k, by_group, a, None) {
                    None
                } else {
                    opt_get(old(self).closure.map(), k)
                }),
    {
        self.closure.remove_where(by_group, a, None);
        self.closure_rev.remove_where(!by_group, a, None);
        proof {
            assert forall|k: Key| #[trigger] opt_get(self.closure_rev.map(), swap01(k)) == opt_get(
                self.closure.map(),
                k,
            ) by {
                assert(opt_get(old(self).closure_rev.map(), swap01(k)) == opt_get(old(self).closure.map(), k));
                assert(opt_get(self.closure_rev.map(), swap01(k)) == (if key_hit(swap01(k), !by_group, a, None) {
                    None
                } else {
                    opt_get(old(self).closure_rev.map(), swap01(k))
                }));
            }
            assert forall|k: Key| #[trigger] self.closure.map().contains_key(k) implies k.2 == 0 by {
                assert(opt_get(self.closure.map(), k) is Some);
                assert(old(self).closure.map().contains_key(k));
            }
        }
    }

    /// Orphan every child of `obj` in the type-parent table.
    fn orphan_children(&mut self, obj: u64)
        requires
            old(self).wf(),
        ensures
            final(self).wf(),
            final(self).frame(old(self), false, true, false, false, false, false),
            forall|k: Key|
                #[trigger] opt_get(final(self).parents.map(), k) == (if opt_get(old(self).parents.map(), k) == Some(obj) {
                    None
                } else {
                    opt_get(old(self).parents.map(), k)
                }),
    {
        let rows = self.parents_rev.scan(obj, None, 0);
        let ghost pred = |e: (Key, u64)| key_matches(e.0, obj, None, 0);
        let ghost orig = self.parents.map();
        let ghost rev0 = self.parents_rev@;
        proof {
            self.parents_rev.lemma_replays();
        }
        let mut i: usize = 0;
        while i < rows.len()
            invariant
                self.wf(),
                self.frame(old(self), false, true, false, false, false, false),
                orig == old(self).parents.map(),
                rows@ == rev0.filter(pred),
                rev0 == old(self).parents_rev@,
                pred == (|e: (Key, u64)| key_matches(e.0, obj, None, 0)),
                i <= rows@.len(),
                forall|k: Key|
                    #[trigger] opt_get(self.parents.map(), k) == (if exists|j: int|
                        0 <= j < i && (rows@[j].0.1, 0u64, 0u64) == k {
                        None
                    } else {
                        opt_get(orig, k)
                    }),
            decreases rows@.len() - i,
        {
            let c = rows[i].0.1;
            let ghost m0 = self.parents.map();
            self.drop_parent(c);
            proof {
                assert forall|kk: Key|
                    #[trigger] opt_get(self.parents.map(), kk) == (if exists|j: int|
                        0 <= j < i + 1 && (rows@[j].0.1, 0u64, 0u64) == kk {
                        None
                    } else {
                        opt_get(orig, kk)
                    }) by {
                    if kk == (c, 0u64, 0u64) {
                        assert((rows@[i as int].0.1, 0u64, 0u64) == kk);
                    } else {
                        assert(opt_get(self.parents.map(), kk) == opt_get(m0, kk));
                        if exists|j: int| 0 <= j < i + 1 && (rows@[j].0.1, 0u64, 0u64) == kk {
                            let j = choose|j: int| 0 <= j < i + 1 && (rows@[j].0.1, 0u64, 0u64) == kk;
                            assert(j < i);
                        }
                    }
                }
            }
            i = i + 1;
        }
        proof {
            broadcast use vstd::seq_lib::group_filter_ensures;
            assert forall|k: Key|
                #[trigger] opt_get(self.parents.map(), k) == (if opt_get(orig, k) == Some(obj) {
                    None
                } else {
                    opt_get(orig, k)
                }) by {
                if exists|j: int| 0 <= j < i && (rows@[j].0.1, 0u64, 0u64) == k {
                    let j = choose|j: int| 0 <= j < i && (rows@[j].0.1, 0u64, 0u64) == k;
                    let e = rows@[j];
                    assert(rows@.contains(e));
                    rev0.lemma_filter_contains_rev(pred, e);
                    assert(pred(e));
                    let idx = choose|idx: int| 0 <= idx < rev0.len() && rev0[idx] == e;
                    Table::<u64>::lemma_map_at(rev0, idx);
                    assert(old(self).parents_rev.map().contains_key(e.0));
                } else if opt_get(orig, k) == Some(obj) {
                    assert(orig.contains_key(k));
                    assert(k.1 == 0 && k.2 == 0);
                    let rk = (obj, k.0, 0u64);
                    assert(old(self).parents_rev.map().contains_key(rk));
                    let idx = choose|idx: int| 0 <= idx < rev0.len() && #[trigger] rev0[idx].0 == rk;
                    assert(pred(rev0[idx]));
                    assert(rev0.filter(pred).contains(rev0[idx]));
                    let j = choose|j: int| 0 <= j < rows@.len() && rows@[j] == rev0[idx];
                    assert((rows@[j].0.1, 0u64, 0u64) == k);
                    assert(false);
                }
            }
        }
    }

    fn seed_roles(&mut self, obj: u64)
        requires
            old(self).wf(),
        ensures
            final(self).wf(),
            final(self).frame(old(self), true, false, false, false, false, false),
            final(self).objects.map() == seeded(old(self).objects.map(), obj),
    {
        self.put_role(obj, _OWNER, OWNER_BITS);
        self.put_role(obj, _ADMIN, ADMIN_BITS);
        self.put_role(obj, _EDITOR, EDITOR_BITS);
        self.put_role(obj, _VIEWER, VIEWER_BITS);
    }

    /// Revoke a role grant. Requires `_REVOKE`. Membership revocations rebuild
    /// the affected closure rows in the same batch.
    pub fn revoke(&mut self, actor: u64, sub: u64, obj: u64, role: u64, now: u64) -> (r: Result<(), Error>)
        requires
            old(self).wf(),
            old(self)@.next_seq < u64::MAX,
        ensures
            final(self).wf(),
            final(self).logged_since(old(self)@),
            r is Err <==> !old(self)@.allows(actor, obj, _REVOKE),
            r is Err ==> r == Err::<(), Error>(Error::Denied) && final(self)@ == old(self)@,
            r is Ok ==> {
                &&& as_map(final(self)@.subjects) == as_map(old(self)@.subjects).remove((sub, obj, role))
                &&& final(self)@.keeps(old(self)@, false, false, true, role == _MEMBER, false, true)
                &&& (role == _MEMBER ==> final(self)@.rebuilt(old(self)@, old(self)@.affected_by(sub)))
                &&& final(self)@.audited(old(self)@, actor, OP_REVOKE, [sub, obj, role, 0], now)
            },
    {
        self.begin_all();
        match self.auth(actor, obj, _REVOKE) {
            Err(e) => {
                return Err(e);
            },
            Ok(()) => {},
        }
        let ghost v0 = self@;
        let affected = if role == _MEMBER {
            self.affected_by(sub)
        } else {
            Vec::new()
        };
        self.del_grant(sub, obj, role);
        if role == _MEMBER {
            self.rebuild_closures(&affected);
        }
        self.append_audit(actor, OP_REVOKE, [sub, obj, role, 0], now);
        proof {
            if role == _MEMBER {
                assert forall|x: u64| affected@.contains(x) <==> v0.affected_by(sub).contains(x) by {
                    assert(affected@.to_set().contains(x) == affected@.contains(x));
                }
            }
        }
        Ok(())
    }

    /// Membership is a grant of `_MEMBER` on the group object.
    pub fn add_member(&mut self, actor: u64, member: u64, group: u64, policy: Policy, now: u64) -> (r: Result<
        (),
        Error,
    >)
        requires
            old(self).wf(),
            old(self)@.next_seq < u64::MAX,
        ensures
            final(self).wf(),
            final(self).logged_since(old(self)@),
            r is Err <==> old(self)@.grant_refusal(actor, member, group, _MEMBER) is Some,
            r matches Err(e) ==> Some(e) == old(self)@.grant_refusal(actor, member, group, _MEMBER)
                && final(self)@ == old(self)@,
            r is Ok ==> {
                &&& as_map(final(self)@.subjects) == as_map(old(self)@.subjects).insert(
                    (member, group, _MEMBER),
                    policy,
                )
                &&& final(self)@.keeps(old(self)@, false, false, true, true, false, true)
                &&& final(self)@.rebuilt(old(self)@, old(self)@.affected_by(member))
                &&& final(self)@.audited(
                    old(self)@,
                    actor,
                    OP_GRANT,
                    [member, group, _MEMBER, policy.level() as u64],
                    now,
                )
            },
    {
        self.grant(actor, member, group, _MEMBER, policy, now)
    }

    /// Membership removal is a revocation of `_MEMBER` on the group object.
    pub fn remove_member(&mut self, actor: u64, member: u64, group: u64, now: u64) -> (r: Result<(), Error>)
        requires
            old(self).wf(),
            old(self)@.next_seq < u64::MAX,
        ensures
            final(self).wf(),
            final(self).logged_since(old(self)@),
            r is Err <==> !old(self)@.allows(actor, group, _REVOKE),
            r is Err ==> r == Err::<(), Error>(Error::Denied) && final(self)@ == old(self)@,
            r is Ok ==> {
                &&& as_map(final(self)@.subjects) == as_map(old(self)@.subjects).remove((member, group, _MEMBER))
                &&& final(self)@.keeps(old(self)@, false, false, true, true, false, true)
                &&& final(self)@.rebuilt(old(self)@, old(self)@.affected_by(member))
                &&& final(self)@.audited(old(self)@, actor, OP_REVOKE, [member, group, _MEMBER, 0], now)
            },
    {
        self.revoke(actor, member, group, _MEMBER, now)
    }

    /// One-time setup: creates `_SYSTEM` with default roles and grants `_ROOT`
    /// owner. Everything else follows from the same recursion.
    pub fn bootstrap(&mut self, now: u64) -> (r: Result<(u64, u64), Error>)
        requires
            old(self).wf(),
            old(self)@.next_seq < u64::MAX,
        ensures
            final(self).wf(),
            final(self).logged_since(old(self)@),
            r is Err <==> old(self)@.role_row(_SYSTEM, _OWNER) is Some,
            r is Err ==> r == Err::<(u64, u64), Error>(Error::Exists) && final(self)@ == old(self)@,
            r is Ok ==> {
                &&& r == Ok::<(u64, u64), Error>((_SYSTEM, _ROOT))
                &&& as_map(final(self)@.objects) == seeded(as_map(old(self)@.objects), _SYSTEM)
                &&& as_map(final(self)@.subjects) == as_map(old(self)@.subjects).insert(
                    (_ROOT, _SYSTEM, _OWNER),
                    Policy::Necessary,
                )
                &&& final(self)@.keeps(old(self)@, true, false, true, false, false, true)
                &&& final(self)@.audited(old(self)@, _ROOT, OP_BOOTSTRAP, [_SYSTEM, _ROOT, 0, 0], now)
            },
    {
        self.begin_all();
        if self.objects.contains((_SYSTEM, _OWNER, 0)) {
            return Err(Error::Exists);
        }
        self.seed_roles(_SYSTEM);
        self.put_grant(_ROOT, _SYSTEM, _OWNER, Policy::Necessary);
        self.append_audit(_ROOT, OP_BOOTSTRAP, [_SYSTEM, _ROOT, 0, 0], now);
        Ok((_SYSTEM, _ROOT))
    }

    /// Create an object: requires `_CREATE_OBJ` on `_SYSTEM`. Seeds the default
    /// roles and grants the creator owner in the same batch, so a fresh object
    /// is immediately governable by its creator.
    pub fn create_object(&mut self, actor: u64, obj: u64, now: u64) -> (r: Result<(), Error>)
        requires
            old(self).wf(),
            old(self)@.next_seq < u64::MAX,
        ensures
            final(self).wf(),
            final(self).logged_since(old(self)@),
            r is Err <==> !old(self)@.allows(actor, _SYSTEM, _CREATE_OBJ) || old(self)@.object_exists(obj),
            r matches Err(e) ==> final(self)@ == old(self)@ && e == (if !old(self)@.allows(
                actor,
                _SYSTEM,
                _CREATE_OBJ,
            ) {
                Error::Denied
            } else {
                Error::Exists
            }),
            r is Ok ==> {
                &&& as_map(final(self)@.objects) == seeded(as_map(old(self)@.objects), obj)
                &&& as_map(final(self)@.subjects) == as_map(old(self)@.subjects).insert(
                    (actor, obj, _OWNER),
                    Policy::Necessary,
                )
                &&& final(self)@.keeps(old(self)@, true, false, true, false, false, true)
                &&& final(self)@.audited(old(self)@, actor, OP_CREATE_OBJECT, [obj, 0, 0, 0], now)
            },
    {
        self.begin_all();
        match self.auth(actor, _SYSTEM, _CREATE_OBJ) {
            Err(e) => {
                return Err(e);
            },
            Ok(()) => {},
        }
        if self.objects.any_for(obj) || self.subjects_rev.any_for(obj) {
            return Err(Error::Exists);
        }
        self.seed_roles(obj);
        self.put_grant(actor, obj, _OWNER, Policy::Necessary);
        self.append_audit(actor, OP_CREATE_OBJECT, [obj, 0, 0, 0], now);
        Ok(())
    }

    pub fn define_role(&mut self, actor: u64, obj: u64, role: u64, mask: u64, now: u64) -> (r: Result<(), Error>)
        requires
            old(self).wf(),
            old(self)@.next_seq < u64::MAX,
        ensures
            final(self).wf(),
            final(self).logged_since(old(self)@),
            r is Err <==> !old(self)@.allows(actor, obj, _DEFINE) || old(self)@.role_row(obj, role) is Some,
            r matches Err(e) ==> final(self)@ == old(self)@ && e == (if !old(self)@.allows(actor, obj, _DEFINE) {
                Error::Denied
            } else {
                Error::Exists
            }),
            r is Ok ==> {
                &&& as_map(final(self)@.objects) == as_map(old(self)@.objects).insert((obj, role, 0), mask)
                &&& final(self)@.keeps(old(self)@, true, false, false, false, false, true)
                &&& final(self)@.audited(old(self)@, actor, OP_DEFINE_ROLE, [obj, role, mask, 0], now)
            },
    {
        self.begin_all();
        match self.auth(actor, obj, _DEFINE) {
            Err(e) => {
                return Err(e);
            },
            Ok(()) => {},
        }
        if self.objects.contains((obj, role, 0)) {
            return Err(Error::Exists);
        }
        self.put_role(obj, role, mask);
        self.append_audit(actor, OP_DEFINE_ROLE, [obj, role, mask, 0], now);
        Ok(())
    }

    pub fn update_role(&mut self, actor: u64, obj: u64, role: u64, mask: u64, now: u64) -> (r: Result<(), Error>)
        requires
            old(self).wf(),
            old(self)@.next_seq < u64::MAX,
        ensures
            final(self).wf(),
            final(self).logged_since(old(self)@),
            r is Err <==> !old(self)@.allows(actor, obj, _DEFINE) || old(self)@.role_row(obj, role) is None,
            r matches Err(e) ==> final(self)@ == old(self)@ && e == (if !old(self)@.allows(actor, obj, _DEFINE) {
                Error::Denied
            } else {
                Error::NotFound
            }),
            r is Ok ==> {
                &&& as_map(final(self)@.objects) == as_map(old(self)@.objects).insert((obj, role, 0), mask)
                &&& final(self)@.keeps(old(self)@, true, false, false, false, false, true)
                &&& final(self)@.audited(old(self)@, actor, OP_UPDATE_ROLE, [obj, role, mask, 0], now)
            },
    {
        self.begin_all();
        match self.auth(actor, obj, _DEFINE) {
            Err(e) => {
                return Err(e);
            },
            Ok(()) => {},
        }
        if !self.objects.contains((obj, role, 0)) {
            return Err(Error::NotFound);
        }
        self.put_role(obj, role, mask);
        self.append_audit(actor, OP_UPDATE_ROLE, [obj, role, mask, 0], now);
        Ok(())
    }

    /// Delegate `role` on `obj` from `parent` to `sub` at `policy` strength.
    /// Resolution follows the chain until an ancestor actually holds the role;
    /// strength composes as min over all links, so delegation can only attenuate.
    pub fn delegate(&mut self, actor: u64, sub: u64, obj: u64, role: u64, parent: u64, policy: Policy, now: u64) -> (r:
        Result<(), Error>)
        requires
            old(self).wf(),
            old(self)@.next_seq < u64::MAX,
        ensures
            final(self).wf(),
            final(self).logged_since(old(self)@),
            r is Err <==> old(self)@.delegate_refusal(actor, sub, obj, role, parent) is Some,
            r matches Err(e) ==> Some(e) == old(self)@.delegate_refusal(actor, sub, obj, role, parent)
                && final(self)@ == old(self)@,
            r is Ok ==> {
                &&& as_map(final(self)@.delegations) == as_map(old(self)@.delegations).insert(
                    (sub, obj, role),
                    (parent, policy),
                )
                &&& final(self)@.keeps(old(self)@, false, false, false, false, true, true)
                &&& final(self)@.audited(old(self)@, actor, OP_DELEGATE, [sub, obj, role, parent], now)
            },
    {
        self.begin_all();
        match self.auth(actor, obj, _DELEGATE) {
            Err(e) => {
                return Err(e);
            },
            Ok(()) => {},
        }
        if sub == parent {
            return Err(Error::Cycle);
        }
        if role != _MEMBER && !self.role_defined(obj, role) {
            return Err(Error::NotFound);
        }
        let mut cur = parent;
        let mut i: usize = 0;
        while i < MAX_DELEGATION_HOPS
            invariant
                self.wf(),
                self@ == old(self)@,
                self.logged_since(old(self)@),
                self@.allows(actor, obj, _DELEGATE),
                sub != parent,
                role == _MEMBER || self@.role_defined(obj, role),
                i <= MAX_DELEGATION_HOPS,
                self@.deleg_loops(obj, role, parent, sub, MAX_DELEGATION_HOPS as nat) == self@.deleg_loops(
                    obj,
                    role,
                    cur,
                    sub,
                    (MAX_DELEGATION_HOPS - i) as nat,
                ),
            ensures
                !self@.deleg_loops(obj, role, parent, sub, MAX_DELEGATION_HOPS as nat),
            decreases MAX_DELEGATION_HOPS - i,
        {
            match self.delegations.get((cur, obj, role)) {
                Some(d) => {
                    cur = d.0;
                    if cur == sub {
                        return Err(Error::Cycle);
                    }
                },
                None => {
                    break;
                },
            }
            i = i + 1;
        }
        self.put_deleg(sub, obj, role, (parent, policy));
        self.append_audit(actor, OP_DELEGATE, [sub, obj, role, parent], now);
        Ok(())
    }

    pub fn undelegate(&mut self, actor: u64, sub: u64, obj: u64, role: u64, now: u64) -> (r: Result<(), Error>)
        requires
            old(self).wf(),
            old(self)@.next_seq < u64::MAX,
        ensures
            final(self).wf(),
            final(self).logged_since(old(self)@),
            r is Err <==> !old(self)@.allows(actor, obj, _DELEGATE),
            r is Err ==> r == Err::<(), Error>(Error::Denied) && final(self)@ == old(self)@,
            r is Ok ==> {
                &&& as_map(final(self)@.delegations) == as_map(old(self)@.delegations).remove((sub, obj, role))
                &&& final(self)@.keeps(old(self)@, false, false, false, false, true, true)
                &&& final(self)@.audited(old(self)@, actor, OP_UNDELEGATE, [sub, obj, role, 0], now)
            },
    {
        self.begin_all();
        match self.auth(actor, obj, _DELEGATE) {
            Err(e) => {
                return Err(e);
            },
            Ok(()) => {},
        }
        self.del_deleg(sub, obj, role);
        self.append_audit(actor, OP_UNDELEGATE, [sub, obj, role, 0], now);
        Ok(())
    }

    /// Set the type-parent of an object. Role lookups fall back through the
    /// parent chain, so one role change on a type object repolicies every instance.
    pub fn set_parent(&mut self, actor: u64, obj: u64, parent: u64, now: u64) -> (r: Result<(), Error>)
        requires
            old(self).wf(),
            old(self)@.next_seq < u64::MAX,
        ensures
            final(self).wf(),
            final(self).logged_since(old(self)@),
            r is Err <==> old(self)@.set_parent_refusal(actor, obj, parent) is Some,
            r matches Err(e) ==> Some(e) == old(self)@.set_parent_refusal(actor, obj, parent) && final(self)@ == old(
                self,
            )@,
            r is Ok ==> {
                &&& as_map(final(self)@.parents) == as_map(old(self)@.parents).insert((obj, 0, 0), parent)
                &&& final(self)@.keeps(old(self)@, false, true, false, false, false, true)
                &&& final(self)@.audited(old(self)@, actor, OP_SET_PARENT, [obj, parent, 0, 0], now)
            },
    {
        self.begin_all();
        match self.auth(actor, obj, _SET_PARENT) {
            Err(e) => {
                return Err(e);
            },
            Ok(()) => {},
        }
        if obj == parent {
            return Err(Error::Cycle);
        }
        let mut cur = parent;
        let mut i: usize = 0;
        while i < MAX_TYPE_DEPTH
            invariant
                self.wf(),
                self@ == old(self)@,
                self.logged_since(old(self)@),
                self@.allows(actor, obj, _SET_PARENT),
                obj != parent,
                i <= MAX_TYPE_DEPTH,
                self@.parent_loops(parent, obj, MAX_TYPE_DEPTH as nat) == self@.parent_loops(
                    cur,
                    obj,
                    (MAX_TYPE_DEPTH - i) as nat,
                ),
            ensures
                !self@.parent_loops(parent, obj, MAX_TYPE_DEPTH as nat),
            decreases MAX_TYPE_DEPTH - i,
        {
            match self.parents.get((cur, 0, 0)) {
                Some(p) => {
                    if p == obj {
                        return Err(Error::Cycle);
                    }
                    cur = p;
                },
                None => {
                    break;
                },
            }
            i = i + 1;
        }
        self.put_parent(obj, parent);
        self.append_audit(actor, OP_SET_PARENT, [obj, parent, 0, 0], now);
        Ok(())
    }

    pub fn clear_parent(&mut self, actor: u64, obj: u64, now: u64) -> (r: Result<(), Error>)
        requires
            old(self).wf(),
            old(self)@.next_seq < u64::MAX,
        ensures
            final(self).wf(),
            final(self).logged_since(old(self)@),
            r is Err <==> !old(self)@.allows(actor, obj, _SET_PARENT),
            r is Err ==> r == Err::<(), Error>(Error::Denied) && final(self)@ == old(self)@,
            r is Ok ==> {
                &&& as_map(final(self)@.parents) == as_map(old(self)@.parents).remove((obj, 0, 0))
                &&& final(self)@.keeps(old(self)@, false, true, false, false, false, true)
                &&& final(self)@.audited(old(self)@, actor, OP_CLEAR_PARENT, [obj, 0, 0, 0], now)
            },
    {
        self.begin_all();
        match self.auth(actor, obj, _SET_PARENT) {
            Err(e) => {
                return Err(e);
            },
            Ok(()) => {},
        }
        self.drop_parent(obj);
        self.append_audit(actor, OP_CLEAR_PARENT, [obj, 0, 0, 0], now);
        Ok(())
    }
}

impl Capbit {
    fn purge_objects(&mut self, obj: u64)
        requires
            old(self).wf(),
        ensures
            final(self).wf(),
            final(self).frame(old(self), true, false, false, false, false, false),
            forall|k: Key|
                #[trigger] opt_get(final(self).objects.map(), k) == (if k.0 == obj {
                    None
                } else {
                    opt_get(old(self).objects.map(), k)
                }),
    {
        self.objects.remove_where(false, obj, None);
        proof {
            assert forall|k: Key| #[trigger] self.objects.map().contains_key(k) implies k.2 == 0 by {
                assert(opt_get(self.objects.map(), k) is Some);
                assert(old(self).objects.map().contains_key(k));
            }
        }
    }

    /// `affected_by(group)` without the group itself.
    fn members_affected(&self, group: u64) -> (r: Vec<u64>)
        requires
            self.wf(),
        ensures
            r@.to_set() == self@.affected_by(group).remove(group),
    {
        let all = self.affected_by(group);
        let mut r: Vec<u64> = Vec::new();
        let mut i: usize = 0;
        while i < all.len()
            invariant
                i <= all@.len(),
                forall|m: u64| #[trigger] r@.contains(m) <==> (m != group && all@.take(i as int).contains(m)),
            decreases all@.len() - i,
        {
            let m = all[i];
            let ghost r0 = r@;
            proof {
                let t0 = all@.take(i as int);
                let t1 = all@.take(i + 1);
                assert(t1 =~= t0.push(m));
                assert forall|y: u64| #[trigger] t1.contains(y) <==> (t0.contains(y) || y == m) by {
                    if t1.contains(y) && y != m {
                        let q = choose|q: int| 0 <= q < t1.len() && t1[q] == y;
                        assert(t0[q] == y);
                    }
                    if t0.contains(y) {
                        let q = choose|q: int| 0 <= q < t0.len() && t0[q] == y;
                        assert(t1[q] == y);
                    }
                    if y == m {
                        assert(t1[i as int] == y);
                    }
                }
            }
            if m != group {
                r.push(m);
                proof {
                    assert forall|y: u64| #[trigger] r@.contains(y) <==> (r0.contains(y) || y == m) by {
                        if r@.contains(y) && y != m {
                            let q = choose|q: int| 0 <= q < r@.len() && r@[q] == y;
                            assert(r0[q] == y);
                        }
                        if r0.contains(y) {
                            let q = choose|q: int| 0 <= q < r0.len() && r0[q] == y;
                            assert(r@[q] == y);
                        }
                        if y == m {
                            assert(r@[r@.len() - 1] == y);
                        }
                    }
                }
            }
            i = i + 1;
        }
        proof {
            assert(all@.take(i as int) =~= all@);
            assert(r@.to_set() =~= self@.affected_by(group).remove(group)) by {
                assert forall|m: u64| r@.to_set().contains(m) <==> self@.affected_by(group).remove(group).contains(m) by {
                    assert(all@.to_set().contains(m) == all@.contains(m));
                }
            }
        }
        r
    }

    /// Delete a role definition and cascade every grant and delegation that
    /// references it — no dangling tuples, no resurrection-by-redefinition.
    pub fn delete_role(&mut self, actor: u64, obj: u64, role: u64, now: u64) -> (r: Result<(), Error>)
        requires
            old(self).wf(),
            old(self)@.next_seq < u64::MAX,
        ensures
            final(self).wf(),
            final(self).logged_since(old(self)@),
            r is Err <==> !old(self)@.allows(actor, obj, _DEFINE),
            r is Err ==> r == Err::<(), Error>(Error::Denied) && final(self)@ == old(self)@,
            r is Ok ==> {
                &&& as_map(final(self)@.objects) == as_map(old(self)@.objects).remove((obj, role, 0))
                &&& forall|k: Key|
                    #[trigger] opt_get(as_map(final(self)@.subjects), k) == (if k.1 == obj && k.2 == role {
                        None
                    } else {
                        opt_get(as_map(old(self)@.subjects), k)
                    })
                &&& forall|k: Key|
                    #[trigger] opt_get(as_map(final(self)@.delegations), k) == (if k.1 == obj && k.2 == role {
                        None
                    } else {
                        opt_get(as_map(old(self)@.delegations), k)
                    })
                &&& final(self)@.keeps(
                    old(self)@,
                    true,
                    false,
                    true,
                    old(self)@.role_delete_cascades(obj, role),
                    true,
                    true,
                )
                &&& (old(self)@.role_delete_cascades(obj, role) ==> final(self)@.rebuilt(
                    old(self)@,
                    old(self)@.affected_by(obj).remove(obj),
                ))
                &&& final(self)@.audited(old(self)@, actor, OP_DELETE_ROLE, [obj, role, 0, 0], now)
            },
    {
        self.begin_all();
        match self.auth(actor, obj, _DEFINE) {
            Err(e) => {
                return Err(e);
            },
            Ok(()) => {},
        }
        let ghost v0 = self@;
        let cascade = role == _MEMBER && self.subjects.any_hit(true, obj, Some(_MEMBER));
        let affected = if cascade {
            self.members_affected(obj)
        } else {
            Vec::new()
        };
        self.del_role_row((obj, role, 0));
        self.purge_grants(true, obj, Some(role));
        self.purge_delegs(true, obj, Some(role));
        if cascade {
            self.rebuild_closures(&affected);
        }
        self.append_audit(actor, OP_DELETE_ROLE, [obj, role, 0, 0], now);
        proof {
            if cascade {
                assert forall|x: u64| affected@.contains(x) <==> v0.affected_by(obj).remove(obj).contains(x) by {
                    assert(affected@.to_set().contains(x) == affected@.contains(x));
                }
            }
        }
        Ok(())
    }

    /// Delete an object and cascade every tuple that references it: role
    /// definitions, grants in both directions, memberships (with closure
    /// rebuild), delegations, and parent links. Requires `_DELETE_OBJ`.
    pub fn delete_object(&mut self, actor: u64, obj: u64, now: u64) -> (r: Result<(), Error>)
        requires
            old(self).wf(),
            old(self)@.next_seq < u64::MAX,
        ensures
            final(self).wf(),
            final(self).logged_since(old(self)@),
            r is Err <==> !old(self)@.allows(actor, obj, _DELETE_OBJ),
            r is Err ==> r == Err::<(), Error>(Error::Denied) && final(self)@ == old(self)@,
            r is Ok ==> {
                &&& forall|k: Key|
                    #[trigger] opt_get(as_map(final(self)@.objects), k) == (if k.0 == obj {
                        None
                    } else {
                        opt_get(as_map(old(self)@.objects), k)
                    })
                &&& forall|k: Key|
                    #[trigger] opt_get(as_map(final(self)@.subjects), k) == (if k.0 == obj || k.1 == obj {
                        None
                    } else {
                        opt_get(as_map(old(self)@.subjects), k)
                    })
                &&& forall|k: Key|
                    #[trigger] opt_get(as_map(final(self)@.delegations), k) == (if k.0 == obj || k.1 == obj {
                        None
                    } else {
                        opt_get(as_map(old(self)@.delegations), k)
                    })
                &&& forall|k: Key|
                    #[trigger] opt_get(as_map(final(self)@.parents), k) == (if k.0 == obj || opt_get(
                        as_map(old(self)@.parents),
                        k,
                    ) == Some(obj) {
                        None
                    } else {
                        opt_get(as_map(old(self)@.parents), k)
                    })
                &&& forall|x: u64, g: u64|
                    old(self)@.affected_by(obj).remove(obj).contains(x) ==> #[trigger] final(self)@.closure_row(x, g)
                        == final(self)@.closure_of(x, g)
                &&& forall|k: Key|
                    !old(self)@.affected_by(obj).remove(obj).contains(k.0) ==> #[trigger] opt_get(
                        as_map(final(self)@.closure),
                        k,
                    ) == (if k.0 == obj || k.1 == obj {
                        None
                    } else {
                        opt_get(as_map(old(self)@.closure), k)
                    })
                &&& final(self)@.audited(old(self)@, actor, OP_DELETE_OBJECT, [obj, 0, 0, 0], now)
            },
    {
        self.begin_all();
        match self.auth(actor, obj, _DELETE_OBJ) {
            Err(e) => {
                return Err(e);
            },
            Ok(()) => {},
        }
        let ghost v0 = self@;
        let ghost pm0 = self.parents.map();
        let affected = self.members_affected(obj);
        self.purge_objects(obj);
        self.purge_grants(true, obj, None);
        self.purge_grants(false, obj, None);
        self.purge_delegs(true, obj, None);
        self.purge_delegs(false, obj, None);
        let ghost pm1 = self.parents.map();
        self.orphan_children(obj);
        let ghost pm2 = self.parents.map();
        self.drop_parent(obj);
        let ghost cm0 = self.closure.map();
        self.purge_closure(false, obj);
        self.purge_closure(true, obj);
        let ghost cm1 = self.closure.map();
        self.rebuild_closures(&affected);
        self.append_audit(actor, OP_DELETE_OBJECT, [obj, 0, 0, 0], now);
        proof {
            assert forall|x: u64| affected@.contains(x) <==> v0.affected_by(obj).remove(obj).contains(x) by {
                assert(affected@.to_set().contains(x) == affected@.contains(x));
            }
            assert forall|k: Key|
                #[trigger] opt_get(self.parents.map(), k) == (if k.0 == obj || opt_get(pm0, k) == Some(obj) {
                    None
                } else {
                    opt_get(pm0, k)
                }) by {
                assert(opt_get(pm2, k) == (if opt_get(pm1, k) == Some(obj) {
                    None
                } else {
                    opt_get(pm1, k)
                }));
                if k.0 == obj && k != (obj, 0u64, 0u64) {
                    assert(!pm0.contains_key(k));
                    assert(opt_get(pm2, k) is None);
                }
            }
            assert forall|k: Key|
                !affected@.contains(k.0) implies #[trigger] opt_get(self.closure.map(), k) == (if k.0 == obj || k.1 == obj {
                    None
                } else {
                    opt_get(cm0, k)
                }) by {
                assert(opt_get(cm1, k) == opt_get(self.closure.map(), k));
            }
        }
        Ok(())
    }

    /// Wipe everything, including the audit log. Requires `_DELETE_OBJ` on
    /// `_SYSTEM`. A wiped store must be bootstrapped again.
    pub fn clear(&mut self, actor: u64) -> (r: Result<(), Error>)
        requires
            old(self).wf(),
        ensures
            final(self).wf(),
            final(self).logged_since(old(self)@),
            r is Err <==> !old(self)@.allows(actor, _SYSTEM, _DELETE_OBJ),
            r is Err ==> r == Err::<(), Error>(Error::Denied) && final(self)@ == old(self)@,
            r is Ok ==> {
                &&& as_map(final(self)@.objects) == Map::<Key, u64>::empty()
                &&& as_map(final(self)@.parents) == Map::<Key, u64>::empty()
                &&& as_map(final(self)@.parents_rev) == Map::<Key, u64>::empty()
                &&& as_map(final(self)@.subjects) == Map::<Key, Policy>::empty()
                &&& as_map(final(self)@.subjects_rev) == Map::<Key, Policy>::empty()
                &&& as_map(final(self)@.closure) == Map::<Key, Policy>::empty()
                &&& as_map(final(self)@.closure_rev) == Map::<Key, Policy>::empty()
                &&& as_map(final(self)@.delegations) == Map::<Key, (u64, Policy)>::empty()
                &&& as_map(final(self)@.delegations_rev) == Map::<Key, (u64, Policy)>::empty()
                &&& as_map(final(self)@.audit) == Map::<Key, AuditEntry>::empty()
                &&& final(self)@.next_seq == 0
            },
    {
        self.begin_all();
        match self.auth(actor, _SYSTEM, _DELETE_OBJ) {
            Err(e) => {
                return Err(e);
            },
            Ok(()) => {},
        }
        self.objects.clear_rows();
        self.parents.clear_rows();
        self.parents_rev.clear_rows();
        self.subjects.clear_rows();
        self.subjects_rev.clear_rows();
        self.closure.clear_rows();
        self.closure_rev.clear_rows();
        self.delegations.clear_rows();
        self.delegations_rev.clear_rows();
        self.audit.clear_rows();
        self.next_seq = 0;
        Ok(())
    }
}


// -- queries ----------------------------------------------------------------------

impl Capbit {
    /// The sequence number the next audit row gets.
    pub fn audit_seq(&self) -> (n: u64)
        ensures
            n == self@.next_seq,
    {
        self.next_seq
    }

    /// The mask of `role` defined directly on `obj`. Requires `_READ_META` on `obj`.
    pub fn get_role(&self, actor: u64, obj: u64, role: u64) -> (r: Result<Option<u64>, Error>)
        requires
            self.wf(),
        ensures
            r is Err <==> !self@.allows(actor, obj, _READ_META),
            r is Err ==> r == Err::<Option<u64>, Error>(Error::Denied),
            r matches Ok(m) ==> m == self@.role_row(obj, role),
    {
        match self.auth(actor, obj, _READ_META) {
            Err(e) => {
                return Err(e);
            },
            Ok(()) => {},
        }
        Ok(self.objects.get((obj, role, 0)))
    }

    /// Every (role, mask) defined directly on `obj`, ascending by role.
    /// Requires `_READ_META` on `obj`.
    pub fn list_roles(&self, actor: u64, obj: u64) -> (r: Result<Vec<(u64, u64)>, Error>)
        requires
            self.wf(),
        ensures
            r is Err <==> !self@.allows(actor, obj, _READ_META),
            r is Err ==> r == Err::<Vec<(u64, u64)>, Error>(Error::Denied),
            r matches Ok(v) ==> v@ == scan_spec(self@.objects, obj, None, 0).map_values(
                |e: (Key, u64)| (e.0.1, e.1),
            ),
    {
        match self.auth(actor, obj, _READ_META) {
            Err(e) => {
                return Err(e);
            },
            Ok(()) => {},
        }
        let rows = self.objects.scan(obj, None, 0);
        let ghost f = |e: (Key, u64)| (e.0.1, e.1);
        let mut out: Vec<(u64, u64)> = Vec::new();
        let mut i: usize = 0;
        while i < rows.len()
            invariant
                i <= rows@.len(),
                out@ == rows@.take(i as int).map_values(f),
                f == (|e: (Key, u64)| (e.0.1, e.1)),
            decreases rows@.len() - i,
        {
            let e = rows[i];
            out.push((e.0.1, e.1));
            proof {
                assert(rows@.take(i + 1).map_values(f) =~= rows@.take(i as int).map_values(f).push(f(e)));
            }
            i = i + 1;
        }
        proof {
            assert(rows@.take(i as int) =~= rows@);
        }
        Ok(out)
    }

    /// The delegation edge of `sub` for `role` on `obj`: (parent, policy).
    /// Requires `_READ_META` on `obj`.
    pub fn get_delegation(&self, actor: u64, sub: u64, obj: u64, role: u64) -> (r: Result<
        Option<(u64, Policy)>,
        Error,
    >)
        requires
            self.wf(),
        ensures
            r is Err <==> !self@.allows(actor, obj, _READ_META),
            r is Err ==> r == Err::<Option<(u64, Policy)>, Error>(Error::Denied),
            r matches Ok(d) ==> d == self@.deleg_of(sub, obj, role),
    {
        match self.auth(actor, obj, _READ_META) {
            Err(e) => {
                return Err(e);
            },
            Ok(()) => {},
        }
        Ok(self.delegations.get((sub, obj, role)))
    }

    /// All delegation edges on `obj`: (subject, role, parent, policy), ascending
    /// by subject and role. Requires `_READ_META` on `obj`.
    pub fn list_delegations_on(&self, actor: u64, obj: u64) -> (r: Result<Vec<(u64, u64, u64, Policy)>, Error>)
        requires
            self.wf(),
        ensures
            r is Err <==> !self@.allows(actor, obj, _READ_META),
            r is Err ==> r == Err::<Vec<(u64, u64, u64, Policy)>, Error>(Error::Denied),
            r matches Ok(v) ==> v@ == scan_spec(self@.delegations_rev, obj, None, 0).map_values(
                |e: (Key, (u64, Policy))| (e.0.1, e.0.2, e.1.0, e.1.1),
            ),
    {
        match self.auth(actor, obj, _READ_META) {
            Err(e) => {
                return Err(e);
            },
            Ok(()) => {},
        }
        let rows = self.delegations_rev.scan(obj, None, 0);
        let ghost f = |e: (Key, (u64, Policy))| (e.0.1, e.0.2, e.1.0, e.1.1);
        let mut out: Vec<(u64, u64, u64, Policy)> = Vec::new();
        let mut i: usize = 0;
        while i < rows.len()
            invariant
                i <= rows@.len(),
                out@ == rows@.take(i as int).map_values(f),
                f == (|e: (Key, (u64, Policy))| (e.0.1, e.0.2, e.1.0, e.1.1)),
            decreases rows@.len() - i,
        {
            let e = rows[i];
            out.push((e.0.1, e.0.2, e.1.0, e.1.1));
            proof {
                assert(rows@.take(i + 1).map_values(f) =~= rows@.take(i as int).map_values(f).push(f(e)));
            }
            i = i + 1;
        }
        proof {
            assert(rows@.take(i as int) =~= rows@);
        }
        Ok(out)
    }

    /// The type-parent of `obj`. Requires `_READ_META` on `obj`.
    pub fn get_parent(&self, actor: u64, obj: u64) -> (r: Result<Option<u64>, Error>)
        requires
            self.wf(),
        ensures
            r is Err <==> !self@.allows(actor, obj, _READ_META),
            r is Err ==> r == Err::<Option<u64>, Error>(Error::Denied),
            r matches Ok(p) ==> p == self@.parent_of(obj),
    {
        match self.auth(actor, obj, _READ_META) {
            Err(e) => {
                return Err(e);
            },
            Ok(()) => {},
        }
        Ok(self.parents.get((obj, 0, 0)))
    }

    /// Roles `sub` holds directly on `obj`, ascending by role. Allowed for
    /// `sub` itself, otherwise requires `_READ_META` on `obj`.
    pub fn list_roles_for(&self, actor: u64, sub: u64, obj: u64) -> (r: Result<Vec<(u64, Policy)>, Error>)
        requires
            self.wf(),
        ensures
            r is Err <==> (actor != sub && !self@.allows(actor, obj, _READ_META)),
            r is Err ==> r == Err::<Vec<(u64, Policy)>, Error>(Error::Denied),
            r matches Ok(v) ==> v@ == self@.grants_on(sub, obj),
    {
        if actor != sub {
            match self.auth(actor, obj, _READ_META) {
                Err(e) => {
                    return Err(e);
                },
                Ok(()) => {},
            }
        }
        Ok(self.grants_on(sub, obj))
    }

    /// Every direct grant held by `sub`: (object, role, policy), ascending.
    /// Allowed for `sub` itself, otherwise requires `_READ_META` on `_SYSTEM`.
    pub fn list_grants(&self, actor: u64, sub: u64) -> (r: Result<Vec<(u64, u64, Policy)>, Error>)
        requires
            self.wf(),
        ensures
            r is Err <==> (actor != sub && !self@.allows(actor, _SYSTEM, _READ_META)),
            r is Err ==> r == Err::<Vec<(u64, u64, Policy)>, Error>(Error::Denied),
            r matches Ok(v) ==> v@ == scan_spec(self@.subjects, sub, None, 0).map_values(
                |e: (Key, Policy)| (e.0.1, e.0.2, e.1),
            ),
    {
        if actor != sub {
            match self.auth(actor, _SYSTEM, _READ_META) {
                Err(e) => {
                    return Err(e);
                },
                Ok(()) => {},
            }
        }
        let rows = self.subjects.scan(sub, None, 0);
        let ghost f = |e: (Key, Policy)| (e.0.1, e.0.2, e.1);
        let mut out: Vec<(u64, u64, Policy)> = Vec::new();
        let mut i: usize = 0;
        while i < rows.len()
            invariant
                i <= rows@.len(),
                out@ == rows@.take(i as int).map_values(f),
                f == (|e: (Key, Policy)| (e.0.1, e.0.2, e.1)),
            decreases rows@.len() - i,
        {
            let e = rows[i];
            out.push((e.0.1, e.0.2, e.1));
            proof {
                assert(rows@.take(i + 1).map_values(f) =~= rows@.take(i as int).map_values(f).push(f(e)));
            }
            i = i + 1;
        }
        proof {
            assert(rows@.take(i as int) =~= rows@);
        }
        Ok(out)
    }

    /// Direct holders on `obj`, paginated by subject id: (subject, role,
    /// policy), at most `limit` rows with subject ids after `after`. Groups
    /// appear as single rows. Requires `_READ_META` on `obj`.
    pub fn list_subjects(&self, actor: u64, obj: u64, after: Option<u64>, limit: usize) -> (r: Result<
        Vec<(u64, u64, Policy)>,
        Error,
    >)
        requires
            self.wf(),
        ensures
            r is Err <==> !self@.allows(actor, obj, _READ_META),
            r is Err ==> r == Err::<Vec<(u64, u64, Policy)>, Error>(Error::Denied),
            r matches Ok(v) ==> v@ == CapbitView::page(self@.subjects_rev, obj, after, limit).map_values(
                |e: (Key, Policy)| (e.0.1, e.0.2, e.1),
            ),
    {
        match self.auth(actor, obj, _READ_META) {
            Err(e) => {
                return Err(e);
            },
            Ok(()) => {},
        }
        let start: u64 = match after {
            Some(a) => {
                if a == u64::MAX {
                    return Ok(Vec::new());
                }
                a + 1
            },
            None => 0,
        };
        let rows = self.subjects_rev.scan(obj, None, start);
        let ghost f = |e: (Key, Policy)| (e.0.1, e.0.2, e.1);
        let mut out: Vec<(u64, u64, Policy)> = Vec::new();
        let mut i: usize = 0;
        while i < rows.len() && i < limit
            invariant
                i <= rows@.len(),
                i <= limit,
                out@ == rows@.take(i as int).map_values(f),
                f == (|e: (Key, Policy)| (e.0.1, e.0.2, e.1)),
            decreases rows@.len() - i,
        {
            let e = rows[i];
            out.push((e.0.1, e.0.2, e.1));
            proof {
                assert(rows@.take(i + 1).map_values(f) =~= rows@.take(i as int).map_values(f).push(f(e)));
            }
            i = i + 1;
        }
        proof {
            if rows@.len() <= limit {
                assert(rows@.take(i as int) =~= rows@);
            }
        }
        Ok(out)
    }

    /// Effective groups of `ent` from the materialized closure: (group,
    /// policy), ascending. Allowed for `ent` itself, otherwise requires
    /// `_READ_META` on `_SYSTEM`.
    pub fn groups_of(&self, actor: u64, ent: u64) -> (r: Result<Vec<(u64, Policy)>, Error>)
        requires
            self.wf(),
        ensures
            r is Err <==> (actor != ent && !self@.allows(actor, _SYSTEM, _READ_META)),
            r is Err ==> r == Err::<Vec<(u64, Policy)>, Error>(Error::Denied),
            r matches Ok(v) ==> v@ == self@.groups_rows(ent),
    {
        if actor != ent {
            match self.auth(actor, _SYSTEM, _READ_META) {
                Err(e) => {
                    return Err(e);
                },
                Ok(()) => {},
            }
        }
        let rows = self.closure.scan(ent, None, 0);
        let ghost f = |e: (Key, Policy)| (e.0.1, e.1);
        let mut out: Vec<(u64, Policy)> = Vec::new();
        let mut i: usize = 0;
        while i < rows.len()
            invariant
                i <= rows@.len(),
                out@ == rows@.take(i as int).map_values(f),
                f == (|e: (Key, Policy)| (e.0.1, e.1)),
            decreases rows@.len() - i,
        {
            let e = rows[i];
            out.push((e.0.1, e.1));
            proof {
                assert(rows@.take(i + 1).map_values(f) =~= rows@.take(i as int).map_values(f).push(f(e)));
            }
            i = i + 1;
        }
        proof {
            assert(rows@.take(i as int) =~= rows@);
        }
        Ok(out)
    }

    /// Effective (transitive) members of `group`, paginated by member id:
    /// (member, policy), at most `limit` rows with ids after `after`.
    /// Requires `_READ_META` on `group`.
    pub fn members_of(&self, actor: u64, group: u64, after: Option<u64>, limit: usize) -> (r: Result<
        Vec<(u64, Policy)>,
        Error,
    >)
        requires
            self.wf(),
        ensures
            r is Err <==> !self@.allows(actor, group, _READ_META),
            r is Err ==> r == Err::<Vec<(u64, Policy)>, Error>(Error::Denied),
            r matches Ok(v) ==> v@ == CapbitView::page(self@.closure_rev, group, after, limit).map_values(
                |e: (Key, Policy)| (e.0.1, e.1),
            ),
    {
        match self.auth(actor, group, _READ_META) {
            Err(e) => {
                return Err(e);
            },
            Ok(()) => {},
        }
        let start: u64 = match after {
            Some(a) => {
                if a == u64::MAX {
                    return Ok(Vec::new());
                }
                a + 1
            },
            None => 0,
        };
        let rows = self.closure_rev.scan(group, None, start);
        let ghost f = |e: (Key, Policy)| (e.0.1, e.1);
        let mut out: Vec<(u64, Policy)> = Vec::new();
        let mut i: usize = 0;
        while i < rows.len() && i < limit
            invariant
                i <= rows@.len(),
                i <= limit,
                out@ == rows@.take(i as int).map_values(f),
                f == (|e: (Key, Policy)| (e.0.1, e.1)),
            decreases rows@.len() - i,
        {
            let e = rows[i];
            out.push((e.0.1, e.1));
            proof {
                assert(rows@.take(i + 1).map_values(f) =~= rows@.take(i as int).map_values(f).push(f(e)));
            }
            i = i + 1;
        }
        proof {
            if rows@.len() <= limit {
                assert(rows@.take(i as int) =~= rows@);
            }
        }
        Ok(out)
    }

    /// Is `m` a positive (non-excluded) member of `g`?
    fn positive_in(&self, g: u64, m: u64) -> (r: bool)
        requires
            self.wf(),
        ensures
            r == self@.positive_in(g, m),
    {
        match self.closure_rev.get((g, m, 0)) {
            Some(p) => match p {
                Policy::Not => false,
                _ => true,
            },
            None => false,
        }
    }

    /// Positive members of `a` whose positive membership in `b` is `keep_in_b`.
    fn population(&self, a: u64, b: u64, keep_in_b: bool) -> (r: Vec<u64>)
        requires
            self.wf(),
        ensures
            r@ == self@.population(a, b, keep_in_b),
    {
        let rows = self.closure_rev.scan(a, None, 0);
        let ghost f = self@.member_pick(b, keep_in_b);
        let mut out: Vec<u64> = Vec::new();
        let mut i: usize = 0;
        while i < rows.len()
            invariant
                self.wf(),
                i <= rows@.len(),
                rows@ == scan_spec(self@.closure_rev, a, None, 0),
                out@ == rows@.take(i as int).filter_map(f),
                f == self@.member_pick(b, keep_in_b),
            decreases rows@.len() - i,
        {
            let e = rows[i];
            proof {
                rows@.lemma_filter_map_take_succ(f, i as int);
            }
            let pos = match e.1 {
                Policy::Not => false,
                _ => true,
            };
            if pos && self.positive_in(b, e.0.1) == keep_in_b {
                out.push(e.0.1);
            }
            proof {
                assert(out@ == rows@.take(i + 1).filter_map(f));
            }
            i = i + 1;
        }
        proof {
            assert(rows@.take(i as int) =~= rows@);
        }
        out
    }

    /// Population algebra picks exactly the right members: `x` is in the
    /// population of `a` against `b` iff `x` is a positive (not excluded)
    /// member of `a`, and its positive membership in `b` is `keep_in_b`.
    pub proof fn lemma_population_members(&self, a: u64, b: u64, keep_in_b: bool, x: u64)
        requires
            self.wf(),
        ensures
            self@.population(a, b, keep_in_b).contains(x) <==> (self@.positive_in(a, x) && self@.positive_in(b, x)
                == keep_in_b),
    {
        let rows = self@.closure_rev;
        let pred = |e: (Key, Policy)| key_matches(e.0, a, None, 0);
        let sc = scan_spec(rows, a, None, 0);
        let f = self@.member_pick(b, keep_in_b);
        assert(sc == rows.filter(pred));
        self.closure_rev.lemma_sorted();
        if self@.population(a, b, keep_in_b).contains(x) {
            sc.lemma_filter_map_contains(f, x);
            let t = choose|t: (Key, Policy)| #[trigger] sc.contains(t) && f(t) == Some(x);
            let i = choose|i: int| 0 <= i < sc.len() && sc[i] == t;
            rows.lemma_filter_pred(pred, i);
            rows.lemma_filter_contains_rev(pred, t);
            let j = choose|j: int| 0 <= j < rows.len() && rows[j] == t;
            let k = (t.0.1, t.0.0, t.0.2);
            assert(swap01(k) == t.0);
            assert(as_map(rows).contains_key(t.0));
            assert(opt_get(self.closure.map(), k) == opt_get(self.closure_rev.map(), swap01(k)));
            assert(self.closure.map().contains_key(k));
            assert(t.0 == (a, x, 0u64));
            let j2 = choose|j2: int| 0 <= j2 < rows.len() && #[trigger] rows[j2].0 == t.0;
            Table::<Policy>::lemma_sorted_unique(rows, j, j2);
        }
        if self@.positive_in(a, x) && self@.positive_in(b, x) == keep_in_b {
            let key = (a, x, 0u64);
            let j = choose|j: int| 0 <= j < rows.len() && #[trigger] rows[j].0 == key;
            assert(as_map(rows)[key] == rows[j].1);
            rows.lemma_filter_contains(pred, j);
            assert(f(rows[j]) == Some(x));
            lemma_filter_map_has(sc, f, rows[j], x);
        }
    }

    /// A population lists each member once, ascending by id.
    pub proof fn lemma_population_ascending(&self, a: u64, b: u64, keep_in_b: bool)
        requires
            self.wf(),
        ensures
            forall|i: int, j: int| 0 <= i < j < self@.population(a, b, keep_in_b).len() ==> self@.population(
                a,
                b,
                keep_in_b,
            )[i] < self@.population(a, b, keep_in_b)[j],
    {
        let rows = self@.closure_rev;
        let pred = |e: (Key, Policy)| key_matches(e.0, a, None, 0);
        let sc = scan_spec(rows, a, None, 0);
        assert(sc == rows.filter(pred));
        self.closure_rev.lemma_sorted();
        lemma_filter_keeps_sorted(rows, pred);
        assert forall|i: int| 0 <= i < sc.len() implies (#[trigger] sc[i]).0.0 == a && sc[i].0.2 == 0 by {
            rows.lemma_filter_pred(pred, i);
            assert(sc.contains(sc[i]));
            rows.lemma_filter_contains_rev(pred, sc[i]);
            let t = sc[i];
            let k = (t.0.1, t.0.0, t.0.2);
            assert(swap01(k) == t.0);
            assert(as_map(rows).contains_key(t.0));
            assert(opt_get(self.closure.map(), k) == opt_get(self.closure_rev.map(), swap01(k)));
            assert(self.closure.map().contains_key(k));
        }
        lemma_pick_ascending(sc, self@.member_pick(b, keep_in_b));
    }

    /// Members of both groups (positive members only), ascending by id.
    /// Requires `_READ_META` on both groups.
    pub fn population_intersect(&self, actor: u64, a: u64, b: u64) -> (r: Result<Vec<u64>, Error>)
        requires
            self.wf(),
        ensures
            r is Err <==> !(self@.allows(actor, a, _READ_META) && self@.allows(actor, b, _READ_META)),
            r is Err ==> r == Err::<Vec<u64>, Error>(Error::Denied),
            r matches Ok(v) ==> v@ == self@.population(a, b, true),
            r matches Ok(v) ==> forall|i: int, j: int| 0 <= i < j < v@.len() ==> v@[i] < v@[j],
            r matches Ok(v) ==> forall|x: u64| #[trigger] v@.contains(x) <==> (self@.positive_in(a, x) && self@.positive_in(b, x)),
    {
        proof {
            assert forall|x: u64| #[trigger] self@.population(a, b, true).contains(x) <==> (self@.positive_in(a, x)
                && self@.positive_in(b, x)) by {
                self.lemma_population_members(a, b, true, x);
            }
            self.lemma_population_ascending(a, b, true);
        }
        match self.auth(actor, a, _READ_META) {
            Err(e) => {
                return Err(e);
            },
            Ok(()) => {},
        }
        match self.auth(actor, b, _READ_META) {
            Err(e) => {
                return Err(e);
            },
            Ok(()) => {},
        }
        Ok(self.population(a, b, true))
    }

    /// Positive members of `a` that are not positive members of `b`,
    /// ascending by id. Requires `_READ_META` on both groups.
    pub fn population_subtract(&self, actor: u64, a: u64, b: u64) -> (r: Result<Vec<u64>, Error>)
        requires
            self.wf(),
        ensures
            r is Err <==> !(self@.allows(actor, a, _READ_META) && self@.allows(actor, b, _READ_META)),
            r is Err ==> r == Err::<Vec<u64>, Error>(Error::Denied),
            r matches Ok(v) ==> v@ == self@.population(a, b, false),
            r matches Ok(v) ==> forall|i: int, j: int| 0 <= i < j < v@.len() ==> v@[i] < v@[j],
            r matches Ok(v) ==> forall|x: u64| #[trigger] v@.contains(x) <==> (self@.positive_in(a, x) && !self@.positive_in(b, x)),
    {
        proof {
            assert forall|x: u64| #[trigger] self@.population(a, b, false).contains(x) <==> (self@.positive_in(a, x)
                && !self@.positive_in(b, x)) by {
                self.lemma_population_members(a, b, false, x);
            }
            self.lemma_population_ascending(a, b, false);
        }
        match self.auth(actor, a, _READ_META) {
            Err(e) => {
                return Err(e);
            },
            Ok(()) => {},
        }
        match self.auth(actor, b, _READ_META) {
            Err(e) => {
                return Err(e);
            },
            Ok(()) => {},
        }
        Ok(self.population(a, b, false))
    }

    /// Up to `limit` audit entries after sequence number `after` (all when
    /// `None`), in sequence order. Requires `_AUDIT` on `_SYSTEM`.
    pub fn audit_read(&self, actor: u64, after: Option<u64>, limit: usize) -> (r: Result<Vec<AuditEntry>, Error>)
        requires
            self.wf(),
        ensures
            r is Err <==> !self@.allows(actor, _SYSTEM, _AUDIT),
            r is Err ==> r == Err::<Vec<AuditEntry>, Error>(Error::Denied),
            r matches Ok(v) ==> v@ == self@.audit_page(after, limit),
    {
        match self.auth(actor, _SYSTEM, _AUDIT) {
            Err(e) => {
                return Err(e);
            },
            Ok(()) => {},
        }
        let start: u64 = match after {
            Some(a) => if a == u64::MAX {
                a
            } else {
                a + 1
            },
            None => 0,
        };
        let rows = self.audit.scan_from(start);
        let ghost f = |e: (Key, AuditEntry)| e.1;
        let mut out: Vec<AuditEntry> = Vec::new();
        let mut i: usize = 0;
        while i < rows.len() && i < limit
            invariant
                i <= rows@.len(),
                i <= limit,
                out@ == rows@.take(i as int).map_values(f),
                f == (|e: (Key, AuditEntry)| e.1),
            decreases rows@.len() - i,
        {
            let e = rows[i];
            out.push(e.1);
            proof {
                assert(rows@.take(i + 1).map_values(f) =~= rows@.take(i as int).map_values(f).push(f(e)));
            }
            i = i + 1;
        }
        proof {
            if rows@.len() <= limit {
                assert(rows@.take(i as int) =~= rows@);
            }
        }
        Ok(out)
    }
}

/// An element that `f` maps to `y` puts `y` into `s.filter_map(f)`.
proof fn lemma_filter_map_has<A, B>(s: Seq<A>, f: spec_fn(A) -> Option<B>, t: A, y: B)
    requires
        s.contains(t),
        f(t) == Some(y),
    ensures
        s.filter_map(f).contains(y),
    decreases s.len(),
{
    let rest = s.drop_last();
    if s.last() == t {
        assert(s.filter_map(f) == rest.filter_map(f) + seq![y]);
        assert(s.filter_map(f)[rest.filter_map(f).len() as int] == y);
    } else {
        let i = choose|i: int| 0 <= i < s.len() && s[i] == t;
        assert(rest[i] == t);
        lemma_filter_map_has(rest, f, t, y);
        let k = choose|k: int| 0 <= k < rest.filter_map(f).len() && rest.filter_map(f)[k] == y;
        match f(s.last()) {
            Some(z) => {
                assert(s.filter_map(f) == rest.filter_map(f) + seq![z]);
                assert(s.filter_map(f)[k] == y);
            },
            None => {},
        }
    }
}

proof fn lemma_filter_keeps_sorted<V>(s: Seq<(Key, V)>, p: spec_fn((Key, V)) -> bool)
    requires
        sorted(s),
    ensures
        sorted(s.filter(p)),
    decreases s.len(),
{
    reveal(Seq::filter);
    if s.len() > 0 {
        let dl = s.drop_last();
        assert(sorted(dl)) by {
            assert forall|i: int, j: int| 0 <= i < j < dl.len() implies crate::table::key_lt(
                #[trigger] dl[i].0,
                #[trigger] dl[j].0,
            ) by {
                assert(dl[i] == s[i] && dl[j] == s[j]);
            }
        }
        lemma_filter_keeps_sorted(dl, p);
        let f = dl.filter(p);
        if p(s.last()) {
            let out = f.push(s.last());
            assert forall|i: int, j: int| 0 <= i < j < out.len() implies crate::table::key_lt(
                #[trigger] out[i].0,
                #[trigger] out[j].0,
            ) by {
                if j == out.len() - 1 {
                    assert(out[i] == f[i]);
                    assert(f.contains(f[i]));
                    dl.lemma_filter_contains_rev(p, f[i]);
                    let k = choose|k: int| 0 <= k < dl.len() && dl[k] == f[i];
                    assert(s[k] == dl[k]);
                    assert(crate::table::key_lt(s[k].0, s[s.len() - 1].0));
                } else {
                    assert(out[i] == f[i] && out[j] == f[j]);
                }
            }
        }
    }
}

/// Picking the second key part of some rows of a sorted run that shares
/// its first key part and has 0 as third part gives ascending ids.
proof fn lemma_pick_ascending(s: Seq<(Key, Policy)>, f: spec_fn((Key, Policy)) -> Option<u64>)
    requires
        sorted(s),
        s.len() > 0 ==> forall|i: int| 0 <= i < s.len() ==> (#[trigger] s[i]).0.0 == s[0].0.0 && s[i].0.2 == 0,
        forall|e: (Key, Policy)| #[trigger] f(e) is Some ==> f(e) == Some(e.0.1),
    ensures
        forall|i: int, j: int| 0 <= i < j < s.filter_map(f).len() ==> s.filter_map(f)[i] < s.filter_map(f)[j],
    decreases s.len(),
{
    if s.len() > 0 {
        let dl = s.drop_last();
        assert(sorted(dl)) by {
            assert forall|i: int, j: int| 0 <= i < j < dl.len() implies crate::table::key_lt(
                #[trigger] dl[i].0,
                #[trigger] dl[j].0,
            ) by {
                assert(dl[i] == s[i] && dl[j] == s[j]);
            }
        }
        assert forall|i: int| 0 <= i < dl.len() implies (#[trigger] dl[i]).0.0 == dl[0].0.0 && dl[i].0.2 == 0 by {
            assert(dl[i] == s[i] && dl[0] == s[0]);
        }
        lemma_pick_ascending(dl, f);
        let out = dl.filter_map(f);
        match f(s.last()) {
            Some(y) => {
                assert(s.filter_map(f) == out + seq![y]);
                assert forall|i: int, j: int| 0 <= i < j < s.filter_map(f).len() implies s.filter_map(f)[i]
                    < s.filter_map(f)[j] by {
                    if j == out.len() {
                        let x = out[i];
                        assert(out.contains(x));
                        dl.lemma_filter_map_contains(f, x);
                        let t = choose|t: (Key, Policy)| #[trigger] dl.contains(t) && f(t) == Some(x);
                        let k = choose|k: int| 0 <= k < dl.len() && dl[k] == t;
                        assert(s[k] == t);
                        assert(crate::table::key_lt(s[k].0, s[s.len() - 1].0));
                        assert(s[k].0.0 == s[0].0.0 && s[s.len() - 1].0.0 == s[0].0.0);
                    } else {
                        assert(s.filter_map(f)[i] == out[i] && s.filter_map(f)[j] == out[j]);
                    }
                }
            },
            None => {},
        }
    }
}

} // verus!
