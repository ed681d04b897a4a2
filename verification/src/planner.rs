//! Write batching for the mask store: operations are merged per key into a
//! batch, and a batch is applied as one all-or-nothing transaction. An
//! adaptive threshold decides when a batch is flushed; the loop that receives
//! operations and keeps time belongs to the host.
use vstd::prelude::*;
use crate::constants::MAX_INHERITANCE_DEPTH;
use crate::error::CapbitError;
use crate::mask_store::MaskStore;
use crate::table::{as_map, opt_get, sorted, Key, Table};

verus! {

/// One write to the mask store.
#[derive(Debug, Clone, Copy)]
pub enum Op {
    Grant { subject: u64, object: u64, mask: u64 },
    Revoke { subject: u64, object: u64 },
    SetRole { object: u64, role: u64, mask: u64 },
    SetInherit { object: u64, child: u64, parent: u64 },
    RemoveInherit { object: u64, child: u64 },
}

/// The part of a mask store that operations change: the roles held (keyed
/// `(subject, object, 0)`), the role masks (`(object, role, 0)`) and the
/// inheritance links (`(object, child, 0)` to the parent).
pub struct Grants {
    pub caps: Map<Key, u64>,
    pub roles: Map<Key, u64>,
    pub inh: Map<Key, u64>,
}

pub open spec fn grants_of(st: &MaskStore) -> Grants {
    Grants { caps: st.caps_map(), roles: st.roles_map(), inh: st.inh_map() }
}

/// Whether following links on `object` from `cur`, for at most `steps`
/// lookups, meets `target`.
pub open spec fn reaches_in(inh: Map<Key, u64>, object: u64, cur: u64, target: u64, steps: nat) -> bool
    decreases steps,
{
    if steps == 0 {
        false
    } else {
        match opt_get(inh, (object, cur, 0)) {
            Some(p) => p == target || reaches_in(inh, object, p, target, (steps - 1) as nat),
            None => false,
        }
    }
}

/// Why linking `child` to `parent` on `object` is refused under `inh`, if it is.
pub open spec fn link_refusal_in(inh: Map<Key, u64>, object: u64, child: u64, parent: u64) -> Option<Seq<char>> {
    if child == parent {
        Some("Cannot reference self"@)
    } else if reaches_in(inh, object, parent, child, MAX_INHERITANCE_DEPTH as nat) {
        Some("Circular reference"@)
    } else {
        None
    }
}

proof fn lemma_reaches_in(st: &MaskStore, object: u64, cur: u64, target: u64, steps: nat)
    ensures
        st.reaches(object, cur, target, steps) == reaches_in(st.inh_map(), object, cur, target, steps),
    decreases steps,
{
    if steps > 0 {
        match st.parent(object, cur) {
            Some(p) => lemma_reaches_in(st, object, p, target, (steps - 1) as nat),
            None => {},
        }
    }
}

/// The effect of one operation: a grant ORs its bits into the role held, a
/// revoke removes the role held and the subject's link on the object, a link
/// is refused when it would reference itself or close a cycle.
pub open spec fn op_apply(m: Grants, op: Op) -> Result<Grants, Seq<char>> {
    match op {
        Op::Grant { subject, object, mask } => Ok(
            Grants {
                caps: m.caps.insert(
                    (subject, object, 0),
                    (match opt_get(m.caps, (subject, object, 0)) {
                        Some(v) => v,
                        None => 0,
                    }) | mask,
                ),
                roles: m.roles,
                inh: m.inh,
            },
        ),
        Op::Revoke { subject, object } => Ok(
            Grants {
                caps: m.caps.remove((subject, object, 0)),
                roles: m.roles,
                inh: m.inh.remove((object, subject, 0)),
            },
        ),
        Op::SetRole { object, role, mask } => Ok(
            Grants { caps: m.caps, roles: m.roles.insert((object, role, 0), mask), inh: m.inh },
        ),
        Op::SetInherit { object, child, parent } => match link_refusal_in(m.inh, object, child, parent) {
            Some(e) => Err(e),
            None => Ok(Grants { caps: m.caps, roles: m.roles, inh: m.inh.insert((object, child, 0), parent) }),
        },
        Op::RemoveInherit { object, child } => Ok(
            Grants { caps: m.caps, roles: m.roles, inh: m.inh.remove((object, child, 0)) },
        ),
    }
}

/// The effect of operations applied in order; the first refusal stops them.
pub open spec fn ops_apply(m: Grants, ops: Seq<Op>) -> Result<Grants, Seq<char>>
    decreases ops.len(),
{
    if ops.len() == 0 {
        Ok(m)
    } else {
        match ops_apply(m, ops.drop_last()) {
            Err(e) => Err(e),
            Ok(m2) => op_apply(m2, ops.last()),
        }
    }
}

/// Applies one operation to the store.
pub fn apply_op(st: &mut MaskStore, op: Op) -> (r: Result<(), CapbitError>)
    requires
        old(st).wf(),
    ensures
        final(st).wf(),
        match op_apply(grants_of(old(st)), op) {
            Ok(m) => r is Ok && grants_of(final(st)) == m && final(st).same_rest(old(st)),
            Err(msg) => r matches Err(e) && e.0@ == msg && *final(st) == *old(st),
        },
{
    match op {
        Op::Grant { subject, object, mask } => {
            st.grant(subject, object, mask);
            Ok(())
        },
        Op::Revoke { subject, object } => {
            let _ = st.revoke(subject, object);
            Ok(())
        },
        Op::SetRole { object, role, mask } => {
            st.set_role(object, role, mask);
            Ok(())
        },
        Op::SetInherit { object, child, parent } => {
            proof {
                lemma_reaches_in(&*st, object, parent, child, MAX_INHERITANCE_DEPTH as nat);
            }
            st.set_inherit(object, child, parent)
        },
        Op::RemoveInherit { object, child } => {
            let _ = st.remove_inherit(object, child);
            Ok(())
        },
    }
}

/// The operation a pending row of group `kind` stands for: 0 grants, 1
/// revokes, 2 role definitions, 3 links, 4 link removals.
pub open spec fn op_of(kind: u8, e: (Key, u64)) -> Op {
    if kind == 0 {
        Op::Grant { subject: e.0.0, object: e.0.1, mask: e.1 }
    } else if kind == 1 {
        Op::Revoke { subject: e.0.0, object: e.0.1 }
    } else if kind == 2 {
        Op::SetRole { object: e.0.0, role: e.0.1, mask: e.1 }
    } else if kind == 3 {
        Op::SetInherit { object: e.0.0, child: e.0.1, parent: e.1 }
    } else {
        Op::RemoveInherit { object: e.0.0, child: e.0.1 }
    }
}

fn make_op(kind: u8, e: (Key, u64)) -> (op: Op)
    ensures
        op == op_of(kind, e),
{
    if kind == 0 {
        Op::Grant { subject: e.0.0, object: e.0.1, mask: e.1 }
    } else if kind == 1 {
        Op::Revoke { subject: e.0.0, object: e.0.1 }
    } else if kind == 2 {
        Op::SetRole { object: e.0.0, role: e.0.1, mask: e.1 }
    } else if kind == 3 {
        Op::SetInherit { object: e.0.0, child: e.0.1, parent: e.1 }
    } else {
        Op::RemoveInherit { object: e.0.0, child: e.0.1 }
    }
}

/// Pending operations merged per key. Grants OR into one mask per
/// (subject, object); a revoke drops the pending grant for its pair; a link
/// drops the pending removal for its (object, child) and vice versa.
pub struct Batch {
    grants: Table<u64>,
    revokes: Table<u64>,
    roles: Table<u64>,
    inherits: Table<u64>,
    rm_inherits: Table<u64>,
    count: usize,
}

/// The contents of a batch, each group as rows ascending by key. Revokes and
/// link removals carry the value 0.
pub struct BatchView {
    pub grants: Seq<(Key, u64)>,
    pub revokes: Seq<(Key, u64)>,
    pub roles: Seq<(Key, u64)>,
    pub inherits: Seq<(Key, u64)>,
    pub rm_inherits: Seq<(Key, u64)>,
    /// Operations added since the last flush.
    pub count: nat,
}

/// The operations a flush applies, in order: grants, revokes, role
/// definitions, links, link removals, each group ascending by key.
pub open spec fn pending_ops(v: BatchView) -> Seq<Op> {
    v.grants.map_values(|e: (Key, u64)| op_of(0, e)) + v.revokes.map_values(|e: (Key, u64)| op_of(1, e))
        + v.roles.map_values(|e: (Key, u64)| op_of(2, e)) + v.inherits.map_values(|e: (Key, u64)| op_of(3, e))
        + v.rm_inherits.map_values(|e: (Key, u64)| op_of(4, e))
}

impl View for Batch {
    type V = BatchView;

    closed spec fn view(&self) -> BatchView {
        BatchView {
            grants: self.grants@,
            revokes: self.revokes@,
            roles: self.roles@,
            inherits: self.inherits@,
            rm_inherits: self.rm_inherits@,
            count: self.count as nat,
        }
    }
}

/// Appends the operations of the rows of `t`, as group `kind`.
fn push_ops(v: &mut Vec<Op>, t: &Table<u64>, kind: u8)
    requires
        t.wf(),
    ensures
        final(v)@ == old(v)@ + t@.map_values(|e: (Key, u64)| op_of(kind, e)),
{
    let ghost f = |e: (Key, u64)| op_of(kind, e);
    let ghost v0 = v@;
    let mut i: usize = 0;
    while i < t.len()
        invariant
            t.wf(),
            i <= t@.len(),
            v@ == v0 + t@.take(i as int).map_values(f),
            f == (|e: (Key, u64)| op_of(kind, e)),
        decreases t@.len() - i,
    {
        let e = t.row(i);
        v.push(make_op(kind, e));
        proof {
            assert(t@.take(i + 1).map_values(f) =~= t@.take(i as int).map_values(f).push(f(e)));
            assert(v@ =~= v0 + t@.take(i + 1).map_values(f));
        }
        i = i + 1;
    }
    assert(t@.take(i as int) =~= t@);
}

impl Batch {
    /// All five tables are well formed.
    pub closed spec fn wf(&self) -> bool {
        &&& self.grants.wf()
        &&& self.revokes.wf()
        &&& self.roles.wf()
        &&& self.inherits.wf()
        &&& self.rm_inherits.wf()
    }

    /// The rows of a well-formed batch ascend strictly by key.
    pub proof fn lemma_sorted(&self)
        requires
            self.wf(),
        ensures
            sorted(self@.grants),
            sorted(self@.revokes),
            sorted(self@.roles),
            sorted(self@.inherits),
            sorted(self@.rm_inherits),
    {
        self.grants.lemma_sorted();
        self.revokes.lemma_sorted();
        self.roles.lemma_sorted();
        self.inherits.lemma_sorted();
        self.rm_inherits.lemma_sorted();
    }

    pub fn new() -> (b: Self)
        ensures
            b.wf(),
            b@.grants.len() == 0,
            b@.revokes.len() == 0,
            b@.roles.len() == 0,
            b@.inherits.len() == 0,
            b@.rm_inherits.len() == 0,
            b@.count == 0,
    {
        Batch {
            grants: Table::new(),
            revokes: Table::new(),
            roles: Table::new(),
            inherits: Table::new(),
            rm_inherits: Table::new(),
            count: 0,
        }
    }

    /// Operations added since the last flush.
    pub fn len(&self) -> (n: usize)
        ensures
            n == self@.count,
    {
        self.count
    }

    pub fn is_empty(&self) -> (b: bool)
        ensures
            b == (self@.count == 0),
    {
        self.count == 0
    }

    /// Merges `op` into the batch.
    pub fn add(&mut self, op: Op)
        requires
            old(self).wf(),
            old(self)@.count < usize::MAX,
        ensures
            final(self).wf(),
            final(self)@.count == old(self)@.count + 1,
            match op {
                Op::Grant { subject, object, mask } => {
                    &&& as_map(final(self)@.grants) == as_map(old(self)@.grants).insert(
                        (subject, object, 0),
                        (match opt_get(as_map(old(self)@.grants), (subject, object, 0)) {
                            Some(v) => v,
                            None => 0,
                        }) | mask,
                    )
                    &&& final(self)@.revokes == old(self)@.revokes
                    &&& final(self)@.roles == old(self)@.roles
                    &&& final(self)@.inherits == old(self)@.inherits
                    &&& final(self)@.rm_inherits == old(self)@.rm_inherits
                },
                Op::Revoke { subject, object } => {
                    &&& as_map(final(self)@.grants) == as_map(old(self)@.grants).remove((subject, object, 0))
                    &&& as_map(final(self)@.revokes) == as_map(old(self)@.revokes).insert((subject, object, 0), 0)
                    &&& final(self)@.roles == old(self)@.roles
                    &&& final(self)@.inherits == old(self)@.inherits
                    &&& final(self)@.rm_inherits == old(self)@.rm_inherits
                },
                Op::SetRole { object, role, mask } => {
                    &&& final(self)@.grants == old(self)@.grants
                    &&& final(self)@.revokes == old(self)@.revokes
                    &&& as_map(final(self)@.roles) == as_map(old(self)@.roles).insert((object, role, 0), mask)
                    &&& final(self)@.inherits == old(self)@.inherits
                    &&& final(self)@.rm_inherits == old(self)@.rm_inherits
                },
                Op::SetInherit { object, child, parent } => {
                    &&& final(self)@.grants == old(self)@.grants
                    &&& final(self)@.revokes == old(self)@.revokes
                    &&& final(self)@.roles == old(self)@.roles
                    &&& as_map(final(self)@.inherits) == as_map(old(self)@.inherits).insert((object, child, 0), parent)
                    &&& as_map(final(self)@.rm_inherits) == as_map(old(self)@.rm_inherits).remove((object, child, 0))
                },
                Op::RemoveInherit { object, child } => {
                    &&& final(self)@.grants == old(self)@.grants
                    &&& final(self)@.revokes == old(self)@.revokes
                    &&& final(self)@.roles == old(self)@.roles
                    &&& as_map(final(self)@.inherits) == as_map(old(self)@.inherits).remove((object, child, 0))
                    &&& as_map(final(self)@.rm_inherits) == as_map(old(self)@.rm_inherits).insert((object, child, 0), 0)
                },
            },
    {
        self.count = self.count + 1;
        match op {
            Op::Grant { subject, object, mask } => {
                let cur = match self.grants.get((subject, object, 0)) {
                    Some(v) => v,
                    None => 0,
                };
                self.grants.insert((subject, object, 0), cur | mask);
            },
            Op::Revoke { subject, object } => {
                self.grants.remove((subject, object, 0));
                self.revokes.insert((subject, object, 0), 0);
            },
            Op::SetRole { object, role, mask } => {
                self.roles.insert((object, role, 0), mask);
            },
            Op::SetInherit { object, child, parent } => {
                self.rm_inherits.remove((object, child, 0));
                self.inherits.insert((object, child, 0), parent);
            },
            Op::RemoveInherit { object, child } => {
                self.inherits.remove((object, child, 0));
                self.rm_inherits.insert((object, child, 0), 0);
            },
        }
    }

    /// Applies the pending operations to `st` as one transaction: all of
    /// them, or (when a link is refused) none. An empty batch does nothing.
    /// Otherwise the batch is emptied, except that a refused link leaves the
    /// pending link removals in place (they were never reached); the count
    /// restarts at 0 either way.
    pub fn flush(&mut self, st: &mut MaskStore) -> (r: Result<(), CapbitError>)
        requires
            old(self).wf(),
            old(st).wf(),
        ensures
            final(self).wf(),
            final(st).wf(),
            old(self)@.count == 0 ==> r is Ok && *final(st) == *old(st) && final(self)@ == old(self)@,
            old(self)@.count != 0 ==> {
                &&& final(self)@.count == 0
                &&& as_map(final(self)@.grants) == Map::<Key, u64>::empty()
                &&& as_map(final(self)@.revokes) == Map::<Key, u64>::empty()
                &&& as_map(final(self)@.roles) == Map::<Key, u64>::empty()
                &&& as_map(final(self)@.inherits) == Map::<Key, u64>::empty()
                &&& match ops_apply(grants_of(old(st)), pending_ops(old(self)@)) {
                    Ok(m) => {
                        &&& r is Ok
                        &&& grants_of(final(st)) == m
                        &&& final(st).same_rest(old(st))
                        &&& as_map(final(self)@.rm_inherits) == Map::<Key, u64>::empty()
                    },
                    Err(msg) => {
                        &&& r matches Err(e) && e.0@ == msg
                        &&& *final(st) == *old(st)
                        &&& final(self)@.rm_inherits == old(self)@.rm_inherits
                    },
                }
            },
    {
        if self.count == 0 {
            return Ok(());
        }
        let ghost v0 = self@;
        let mut ops: Vec<Op> = Vec::new();
        push_ops(&mut ops, &self.grants, 0);
        push_ops(&mut ops, &self.revokes, 1);
        push_ops(&mut ops, &self.roles, 2);
        push_ops(&mut ops, &self.inherits, 3);
        push_ops(&mut ops, &self.rm_inherits, 4);
        assert(ops@ =~= pending_ops(v0));
        self.count = 0;
        self.grants.clear_rows();
        self.revokes.clear_rows();
        self.roles.clear_rows();
        self.inherits.clear_rows();
        let mut d = st.duplicate();
        let ghost m0 = grants_of(&*st);
        assert(grants_of(&d) == m0);
        let mut i: usize = 0;
        while i < ops.len()
            invariant
                d.wf(),
                st.wf(),
                i <= ops@.len(),
                ops_apply(m0, ops@.take(i as int)) == Ok::<Grants, Seq<char>>(grants_of(&d)),
                d.same_rest(&*st),
                m0 == grants_of(&*st),
                *st == *old(st),
                self.wf(),
                v0 == old(self)@,
                v0.count != 0,
                ops@ == pending_ops(v0),
                self@.count == 0,
                as_map(self@.grants) == Map::<Key, u64>::empty(),
                as_map(self@.revokes) == Map::<Key, u64>::empty(),
                as_map(self@.roles) == Map::<Key, u64>::empty(),
                as_map(self@.inherits) == Map::<Key, u64>::empty(),
                self@.rm_inherits == v0.rm_inherits,
            decreases ops@.len() - i,
        {
            let ghost before = grants_of(&d);
            proof {
                assert(ops@.take(i + 1).drop_last() =~= ops@.take(i as int));
                assert(ops@.take(i + 1).last() == ops@[i as int]);
            }
            match apply_op(&mut d, ops[i]) {
                Ok(()) => {},
                Err(e) => {
                    proof {
                        let k = i as int;
                        assert(ops_apply(m0, ops@.take(k + 1)) is Err);
                        lemma_ops_apply_err_extends(m0, ops@, k + 1);
                        assert(ops@.take(ops@.len() as int) =~= ops@);
                    }
                    return Err(e);
                },
            }
            i = i + 1;
        }
        self.rm_inherits.clear_rows();
        proof {
            assert(ops@.take(i as int) =~= ops@);
        }
        *st = d;
        Ok(())
    }
}

/// Once operations are refused, more operations after them are refused with
/// the same message.
proof fn lemma_ops_apply_err_extends(m: Grants, ops: Seq<Op>, k: int)
    requires
        0 <= k <= ops.len(),
        ops_apply(m, ops.take(k)) is Err,
    ensures
        ops_apply(m, ops) == ops_apply(m, ops.take(k)),
    decreases ops.len() - k,
{
    if k < ops.len() {
        assert(ops.take(k + 1).drop_last() =~= ops.take(k));
        lemma_ops_apply_err_extends(m, ops, k + 1);
    } else {
        assert(ops.take(k) =~= ops);
    }
}


/// The flush threshold and the statistics it adapts by.
pub struct AdaptiveView {
    pub capacity: nat,
    pub min: nat,
    pub max: nat,
    /// Flushes in the window that found the batch full.
    pub fills: nat,
    /// Flushes in the window that happened on a timeout.
    pub timeouts: nat,
    /// Flushes in the window.
    pub window: nat,
}

/// The threshold after a window: grown by half (up to `max`) when more than
/// 60% of its flushes found the batch full, else shrunk by a third (down to
/// `min`) when more than 60% were timeouts and the threshold exceeds twice
/// `min`; the window then starts over.
pub open spec fn adapted(v: AdaptiveView) -> AdaptiveView {
    if v.window == 0 {
        v
    } else {
        let fill_pct = v.fills * 100 / v.window;
        let timeout_pct = v.timeouts * 100 / v.window;
        let cap = if fill_pct > 60 {
            if v.capacity * 3 / 2 < v.max {
                v.capacity * 3 / 2
            } else {
                v.max
            }
        } else if timeout_pct > 60 && v.capacity > v.min * 2 {
            if v.capacity * 2 / 3 > v.min {
                v.capacity * 2 / 3
            } else {
                v.min
            }
        } else {
            v.capacity
        };
        AdaptiveView { capacity: cap, min: v.min, max: v.max, fills: 0, timeouts: 0, window: 0 }
    }
}

/// The statistics after one flush of `batch_len` operations; every eighth
/// flush closes the window and adapts the threshold.
pub open spec fn recorded(v: AdaptiveView, batch_len: nat, was_timeout: bool) -> AdaptiveView {
    let v2 = AdaptiveView {
        capacity: v.capacity,
        min: v.min,
        max: v.max,
        fills: if !was_timeout && batch_len >= v.capacity {
            v.fills + 1
        } else {
            v.fills
        },
        timeouts: if was_timeout {
            v.timeouts + 1
        } else {
            v.timeouts
        },
        window: v.window + 1,
    };
    if v2.window >= 8 {
        adapted(v2)
    } else {
        v2
    }
}

/// Adaptive flush threshold: starts at 200 operations, between 50 and 5000.
pub struct Adaptive {
    capacity: usize,
    min: usize,
    max: usize,
    fills: u32,
    timeouts: u32,
    window: u32,
}

impl View for Adaptive {
    type V = AdaptiveView;

    closed spec fn view(&self) -> AdaptiveView {
        AdaptiveView {
            capacity: self.capacity as nat,
            min: self.min as nat,
            max: self.max as nat,
            fills: self.fills as nat,
            timeouts: self.timeouts as nat,
            window: self.window as nat,
        }
    }
}

impl Adaptive {
    /// The threshold stays within its bounds and a window holds fewer than
    /// eight flushes.
    pub closed spec fn wf(&self) -> bool {
        &&& self.min <= self.capacity <= self.max <= 5000
        &&& self.fills + self.timeouts <= self.window < 8
    }

    pub fn new() -> (a: Self)
        ensures
            a.wf(),
            a@ == (AdaptiveView { capacity: 200, min: 50, max: 5000, fills: 0, timeouts: 0, window: 0 }),
    {
        Adaptive { capacity: 200, min: 50, max: 5000, fills: 0, timeouts: 0, window: 0 }
    }

    /// Flush when the batch reached the threshold or 20 ms have passed.
    pub fn should_flush(&self, batch_len: usize, elapsed_ms: u64) -> (b: bool)
        ensures
            b == (batch_len >= self@.capacity || elapsed_ms >= 20),
    {
        batch_len >= self.capacity || elapsed_ms >= 20
    }

    /// Flush on the periodic timeout: the batch holds something and 20 ms
    /// have passed since the last flush.
    pub fn should_flush_on_timeout(&self, batch_len: usize, elapsed_ms: u64) -> (b: bool)
        ensures
            b == (batch_len > 0 && elapsed_ms >= 20),
    {
        batch_len > 0 && elapsed_ms >= 20
    }

    /// Records a flush of `batch_len` operations.
    pub fn record(&mut self, batch_len: usize, was_timeout: bool)
        requires
            old(self).wf(),
        ensures
            final(self).wf(),
            final(self)@ == recorded(old(self)@, batch_len as nat, was_timeout),
    {
        self.window = self.window + 1;
        if was_timeout {
            self.timeouts = self.timeouts + 1;
        } else if batch_len >= self.capacity {
            self.fills = self.fills + 1;
        }
        if self.window >= 8 {
            self.adapt();
        }
    }

    fn adapt(&mut self)
        requires
            old(self).min <= old(self).capacity <= old(self).max <= 5000,
            old(self).fills + old(self).timeouts <= old(self).window <= 8,
        ensures
            final(self).wf(),
            final(self)@ == adapted(old(self)@),
    {
        if self.window == 0 {
            return;
        }
        let fill_pct = self.fills * 100 / self.window;
        let timeout_pct = self.timeouts * 100 / self.window;
        if fill_pct > 60 {
            let grown = self.capacity * 3 / 2;
            self.capacity = if grown < self.max { grown } else { self.max };
        } else if timeout_pct > 60 && self.capacity > self.min * 2 {
            let shrunk = self.capacity * 2 / 3;
            self.capacity = if shrunk > self.min { shrunk } else { self.min };
        }
        self.fills = 0;
        self.timeouts = 0;
        self.window = 0;
    }
}

} // verus!
