//! The mask store: the role a subject holds on an object, the mask each role
//! stands for on an object, per-object inheritance links between subjects,
//! and entity labels. A subject's permissions on an object are the union of
//! the masks along its inheritance chain on that object.
use vstd::prelude::*;
#[allow(unused_imports)]
use vstd::string::*;
use crate::constants::MAX_INHERITANCE_DEPTH;
use crate::error::CapbitError;
use crate::labels::{Labels, Names};
use crate::table::{Key, Table, opt_get, scan_spec};

verus! {

/// The (second key part, value) pairs of scanned rows.
pub open spec fn pairs(rows: Seq<(Key, u64)>) -> Seq<(u64, u64)> {
    rows.map_values(|e: (Key, u64)| (e.0.1, e.1))
}

/// The labels after labelling `id` with `name`: an entity that held `name`
/// before loses its label.
pub open spec fn relabelled(
    labels: Map<u64, Seq<char>>,
    names: Map<Seq<char>, u64>,
    id: u64,
    name: Seq<char>,
) -> Map<u64, Seq<char>> {
    (if names.contains_key(name) && names[name] != id {
        labels.remove(names[name])
    } else {
        labels
    }).insert(id, name)
}

/// Every key of the map ends in 0.
pub open spec fn flat_keys(m: Map<Key, u64>) -> bool {
    forall|k: Key| #[trigger] m.contains_key(k) ==> k.2 == 0
}

/// The store. Roles by (subject, object), mirrored by (object, subject); role
/// masks by (object, role); parents by (object, child); labels both ways; and
/// the next entity id to hand out.
pub struct MaskStore {
    fwd: Table<u64>,
    rev: Table<u64>,
    roles: Table<u64>,
    inh: Table<u64>,
    labels: Labels,
    names: Names,
    next_id: u64,
}

impl MaskStore {
    /// Roles, keyed `(subject, object, 0)`.
    pub closed spec fn caps_map(&self) -> Map<Key, u64> {
        self.fwd.map()
    }

    /// Role rows keyed `(subject, object, 0)`, ascending.
    pub closed spec fn cap_rows(&self) -> Seq<(Key, u64)> {
        self.fwd@
    }

    /// Role rows keyed `(object, subject, 0)`, ascending.
    pub closed spec fn rev_rows(&self) -> Seq<(Key, u64)> {
        self.rev@
    }

    /// Role masks, keyed `(object, role, 0)`.
    pub closed spec fn roles_map(&self) -> Map<Key, u64> {
        self.roles.map()
    }

    /// Parents, keyed `(object, child, 0)`.
    pub closed spec fn inh_map(&self) -> Map<Key, u64> {
        self.inh.map()
    }

    /// Names by id.
    pub closed spec fn label_map(&self) -> Map<u64, Seq<char>> {
        self.labels.map()
    }

    /// Id/name pairs, ascending by id.
    pub closed spec fn label_rows(&self) -> Seq<(u64, Seq<char>)> {
        self.labels.rows()
    }

    /// Ids by name.
    pub closed spec fn name_map(&self) -> Map<Seq<char>, u64> {
        self.names.map()
    }

    /// The next entity id to hand out.
    pub closed spec fn next(&self) -> u64 {
        self.next_id
    }

    /// The role `subject` holds on `object`.
    pub open spec fn cap(&self, subject: u64, object: u64) -> Option<u64> {
        opt_get(self.caps_map(), (subject, object, 0))
    }

    /// The mask `role` stands for on `object`, if defined.
    pub open spec fn role_mask(&self, object: u64, role: u64) -> Option<u64> {
        opt_get(self.roles_map(), (object, role, 0))
    }

    /// The parent of `child` on `object`.
    pub open spec fn parent(&self, object: u64, child: u64) -> Option<u64> {
        opt_get(self.inh_map(), (object, child, 0))
    }

    /// The rest of the store is as in `other`, but for the roles.
    pub open spec fn same_but_caps(&self, other: &MaskStore) -> bool {
        &&& self.roles_map() == other.roles_map()
        &&& self.inh_map() == other.inh_map()
        &&& self.label_map() == other.label_map()
        &&& self.name_map() == other.name_map()
        &&& self.next() == other.next()
    }

    /// Only the labels (both directions) and the next id may differ from `other`.
    pub open spec fn same_grants(&self, other: &MaskStore) -> bool {
        &&& self.caps_map() == other.caps_map()
        &&& self.roles_map() == other.roles_map()
        &&& self.inh_map() == other.inh_map()
    }

    /// Tables well formed, keys ending in 0, and the mirror in step.
    pub closed spec fn wf(&self) -> bool {
        &&& self.fwd.wf()
        &&& self.rev.wf()
        &&& self.roles.wf()
        &&& self.inh.wf()
        &&& self.labels.wf()
        &&& self.names.wf()
        &&& flat_keys(self.fwd.map())
        &&& flat_keys(self.rev.map())
        &&& flat_keys(self.roles.map())
        &&& flat_keys(self.inh.map())
        &&& forall|k: Key| #[trigger] self.fwd.map().contains_key(k) ==> self.rev.map().contains_key((k.1, k.0, k.2))
            && self.rev.map()[(k.1, k.0, k.2)] == self.fwd.map()[k]
        &&& forall|k: Key| #[trigger] self.rev.map().contains_key(k) ==> self.fwd.map().contains_key((k.1, k.0, k.2))
    }

    /// The role rows and their mirror list the same roles.
    pub proof fn lemma_rows(&self)
        requires
            self.wf(),
        ensures
            forall|k: Key| #[trigger] self.caps_map().contains_key(k) ==> k.2 == 0,
            forall|s: u64, o: u64| #[trigger] self.cap(s, o) == opt_get(self.caps_map(), (s, o, 0)),
    {
    }

    /// An empty store; ids are handed out from 1.
    pub fn new() -> (st: Self)
        ensures
            st.wf(),
            st.caps_map() == Map::<Key, u64>::empty(),
            st.roles_map() == Map::<Key, u64>::empty(),
            st.inh_map() == Map::<Key, u64>::empty(),
            st.label_map() == Map::<u64, Seq<char>>::empty(),
            st.name_map() == Map::<Seq<char>, u64>::empty(),
            st.next() == 1,
    {
        MaskStore {
            fwd: Table::new(),
            rev: Table::new(),
            roles: Table::new(),
            inh: Table::new(),
            labels: Labels::new(),
            names: Names::new(),
            next_id: 1,
        }
    }

    fn put_cap(&mut self, subject: u64, object: u64, role: u64)
        requires
            old(self).wf(),
        ensures
            final(self).wf(),
            final(self).caps_map() == old(self).caps_map().insert((subject, object, 0), role),
            final(self).same_but_caps(old(self)),
    {
        self.fwd.insert((subject, object, 0), role);
        self.rev.insert((object, subject, 0), role);
        proof {
            let o = old(self);
            assert forall|k: Key| #[trigger] self.fwd.map().contains_key(k) implies self.rev.map().contains_key(
                (k.1, k.0, k.2),
            ) && self.rev.map()[(k.1, k.0, k.2)] == self.fwd.map()[k] by {
                if k != (subject, object, 0u64) {
                    assert(o.fwd.map().contains_key(k));
                }
            }
            assert forall|k: Key| #[trigger] self.rev.map().contains_key(k) implies self.fwd.map().contains_key(
                (k.1, k.0, k.2),
            ) by {
                if k != (object, subject, 0u64) {
                    assert(o.rev.map().contains_key(k));
                }
            }
        }
    }

    /// The role `subject` holds on `object`, 0 for none.
    pub fn get_cap(&self, subject: u64, object: u64) -> (r: u64)
        requires
            self.wf(),
        ensures
            r == (match self.cap(subject, object) {
                Some(v) => v,
                None => 0,
            }),
    {
        match self.fwd.get((subject, object, 0)) {
            Some(v) => v,
            None => 0,
        }
    }

    /// The mask of `role` on `object`, if defined.
    pub fn get_role_mask(&self, object: u64, role: u64) -> (r: Option<u64>)
        requires
            self.wf(),
        ensures
            r == self.role_mask(object, role),
    {
        self.roles.get((object, role, 0))
    }

    /// The parent of `child` on `object`.
    pub fn get_parent(&self, object: u64, child: u64) -> (r: Option<u64>)
        requires
            self.wf(),
        ensures
            r == self.parent(object, child),
    {
        self.inh.get((object, child, 0))
    }

    /// Grants bits: ORs `mask` into the role `subject` holds on `object`.
    pub fn grant(&mut self, subject: u64, object: u64, mask: u64)
        requires
            old(self).wf(),
        ensures
            final(self).wf(),
            final(self).caps_map() == old(self).caps_map().insert(
                (subject, object, 0),
                (match old(self).cap(subject, object) {
                    Some(v) => v,
                    None => 0,
                }) | mask,
            ),
            final(self).same_but_caps(old(self)),
    {
        let cur = self.get_cap(subject, object);
        self.put_cap(subject, object, cur | mask);
    }

    /// Sets the role `subject` holds on `object` to exactly `mask`.
    pub fn grant_set(&mut self, subject: u64, object: u64, mask: u64)
        requires
            old(self).wf(),
        ensures
            final(self).wf(),
            final(self).caps_map() == old(self).caps_map().insert((subject, object, 0), mask),
            final(self).same_but_caps(old(self)),
    {
        self.put_cap(subject, object, mask);
    }

    /// Revokes everything `subject` holds on `object`, and its inheritance
    /// link on `object`; whether it held a role.
    pub fn revoke(&mut self, subject: u64, object: u64) -> (had: bool)
        requires
            old(self).wf(),
        ensures
            final(self).wf(),
            had == old(self).caps_map().contains_key((subject, object, 0)),
            final(self).caps_map() == old(self).caps_map().remove((subject, object, 0)),
            final(self).inh_map() == old(self).inh_map().remove((object, subject, 0)),
            final(self).roles_map() == old(self).roles_map(),
            final(self).label_map() == old(self).label_map(),
            final(self).name_map() == old(self).name_map(),
            final(self).next() == old(self).next(),
    {
        let had = self.fwd.contains((subject, object, 0));
        self.fwd.remove((subject, object, 0));
        self.rev.remove((object, subject, 0));
        self.inh.remove((object, subject, 0));
        proof {
            let o = old(self);
            assert forall|k: Key| #[trigger] self.fwd.map().contains_key(k) implies self.rev.map().contains_key(
                (k.1, k.0, k.2),
            ) && self.rev.map()[(k.1, k.0, k.2)] == self.fwd.map()[k] by {
                assert(o.fwd.map().contains_key(k));
            }
            assert forall|k: Key| #[trigger] self.rev.map().contains_key(k) implies self.fwd.map().contains_key(
                (k.1, k.0, k.2),
            ) by {
                assert(o.rev.map().contains_key(k));
            }
            assert forall|k: Key| #[trigger] self.inh.map().contains_key(k) implies k.2 == 0 by {
                assert(o.inh.map().contains_key(k));
            }
        }
        had
    }

    /// Defines the mask `role` stands for on `object`.
    pub fn set_role(&mut self, object: u64, role: u64, mask: u64)
        requires
            old(self).wf(),
        ensures
            final(self).wf(),
            final(self).roles_map() == old(self).roles_map().insert((object, role, 0), mask),
            final(self).caps_map() == old(self).caps_map(),
            final(self).inh_map() == old(self).inh_map(),
            final(self).label_map() == old(self).label_map(),
            final(self).name_map() == old(self).name_map(),
            final(self).next() == old(self).next(),
    {
        self.roles.insert((object, role, 0), mask);
        proof {
            assert forall|k: Key| #[trigger] self.roles.map().contains_key(k) implies k.2 == 0 by {
                if k != (object, role, 0u64) {
                    assert(old(self).roles.map().contains_key(k));
                }
            }
        }
    }
}


impl MaskStore {
    /// Whether following parents on `object` from `cur`, for at most `steps`
    /// lookups, meets `target`.
    pub open spec fn reaches(&self, object: u64, cur: u64, target: u64, steps: nat) -> bool
        decreases steps,
    {
        if steps == 0 {
            false
        } else {
            match self.parent(object, cur) {
                Some(p) => p == target || self.reaches(object, p, target, (steps - 1) as nat),
                None => false,
            }
        }
    }

    /// Why linking `child` to `parent` on `object` is refused, if it is.
    pub open spec fn link_refusal(&self, object: u64, child: u64, parent: u64) -> Option<Seq<char>> {
        if child == parent {
            Some("Cannot reference self"@)
        } else if self.reaches(object, parent, child, MAX_INHERITANCE_DEPTH as nat) {
            Some("Circular reference"@)
        } else {
            None
        }
    }

    fn no_cycle(&self, object: u64, from: u64, to: u64) -> (r: Result<(), CapbitError>)
        requires
            self.wf(),
        ensures
            match self.link_refusal(object, from, to) {
                Some(m) => r matches Err(e) && e.0@ == m,
                None => r is Ok,
            },
    {
        proof {
            reveal_strlit("Cannot reference self");
            reveal_strlit("Circular reference");
        }
        if from == to {
            return Err(CapbitError(String::from_str("Cannot reference self")));
        }
        let mut cur = to;
        let mut i: usize = 0;
        while i < MAX_INHERITANCE_DEPTH
            invariant
                self.wf(),
                from != to,
                i <= MAX_INHERITANCE_DEPTH,
                self.reaches(object, to, from, MAX_INHERITANCE_DEPTH as nat) == self.reaches(
                    object,
                    cur,
                    from,
                    (MAX_INHERITANCE_DEPTH - i) as nat,
                ),
            decreases MAX_INHERITANCE_DEPTH - i,
        {
            match self.get_parent(object, cur) {
                Some(p) => {
                    if p == from {
                        return Err(CapbitError(String::from_str("Circular reference")));
                    }
                    cur = p;
                },
                None => {
                    return Ok(());
                },
            }
            i = i + 1;
        }
        Ok(())
    }

    /// Links `child` to `parent` on `object`. Refused when `child` is
    /// `parent`, or when `child` is among the first ten ancestors of `parent`
    /// on `object`.
    pub fn set_inherit(&mut self, object: u64, child: u64, parent: u64) -> (r: Result<(), CapbitError>)
        requires
            old(self).wf(),
        ensures
            final(self).wf(),
            match old(self).link_refusal(object, child, parent) {
                Some(m) => r matches Err(e) && e.0@ == m && *final(self) == *old(self),
                None => r is Ok && final(self).inh_map() == old(self).inh_map().insert((object, child, 0), parent)
                    && final(self).caps_map() == old(self).caps_map() && final(self).roles_map() == old(
                    self,
                ).roles_map() && final(self).label_map() == old(self).label_map() && final(self).name_map()
                    == old(self).name_map() && final(self).next() == old(self).next(),
            },
    {
        match self.no_cycle(object, child, parent) {
            Err(e) => Err(e),
            Ok(()) => {
                self.inh.insert((object, child, 0), parent);
                proof {
                    assert forall|k: Key| #[trigger] self.inh.map().contains_key(k) implies k.2 == 0 by {
                        if k != (object, child, 0u64) {
                            assert(old(self).inh.map().contains_key(k));
                        }
                    }
                }
                Ok(())
            },
        }
    }

    /// Removes the link of `child` on `object`; whether there was one.
    pub fn remove_inherit(&mut self, object: u64, child: u64) -> (had: bool)
        requires
            old(self).wf(),
        ensures
            final(self).wf(),
            had == old(self).inh_map().contains_key((object, child, 0)),
            final(self).inh_map() == old(self).inh_map().remove((object, child, 0)),
            final(self).caps_map() == old(self).caps_map(),
            final(self).roles_map() == old(self).roles_map(),
            final(self).label_map() == old(self).label_map(),
            final(self).name_map() == old(self).name_map(),
            final(self).next() == old(self).next(),
    {
        let had = self.inh.contains((object, child, 0));
        self.inh.remove((object, child, 0));
        proof {
            assert forall|k: Key| #[trigger] self.inh.map().contains_key(k) implies k.2 == 0 by {
                assert(old(self).inh.map().contains_key(k));
            }
        }
        had
    }

    /// The next entity id to hand out.
    pub fn next_id(&self) -> (id: u64)
        ensures
            id == self.next(),
    {
        self.next_id
    }

    /// Sets the next entity id to hand out.
    pub fn set_next_id(&mut self, id: u64)
        requires
            old(self).wf(),
        ensures
            final(self).wf(),
            final(self).next() == id,
            final(self).same_grants(old(self)),
            final(self).label_map() == old(self).label_map(),
            final(self).name_map() == old(self).name_map(),
    {
        self.next_id = id;
    }

    /// Creates an entity named `name` under the next id, and returns the id.
    pub fn create_entity(&mut self, name: &str) -> (id: u64)
        requires
            old(self).wf(),
            old(self).next() < u64::MAX,
        ensures
            final(self).wf(),
            id == old(self).next(),
            final(self).next() == id + 1,
            final(self).label_map() == old(self).label_map().insert(id, name@),
            final(self).name_map() == old(self).name_map().insert(name@, id),
            final(self).same_grants(old(self)),
    {
        let id = self.next_id;
        self.labels.put(id, name);
        self.names.put(name, id);
        self.next_id = id + 1;
        id
    }

    /// Renames entity `id`: its old name (if any) is released, and `new_name`
    /// is stored both ways.
    pub fn rename_entity(&mut self, id: u64, new_name: &str)
        requires
            old(self).wf(),
        ensures
            final(self).wf(),
            final(self).label_map() == old(self).label_map().insert(id, new_name@),
            final(self).name_map() == (if old(self).label_map().contains_key(id) {
                old(self).name_map().remove(old(self).label_map()[id])
            } else {
                old(self).name_map()
            }).insert(new_name@, id),
            final(self).same_grants(old(self)),
            final(self).next() == old(self).next(),
    {
        match self.labels.get(id) {
            Some(old_name) => {
                self.names.del(old_name.as_str());
            },
            None => {},
        }
        self.labels.put(id, new_name);
        self.names.put(new_name, id);
    }

    /// Deletes entity `id`'s label, and its name if it has one; whether it had
    /// a label.
    pub fn delete_entity(&mut self, id: u64) -> (had: bool)
        requires
            old(self).wf(),
        ensures
            final(self).wf(),
            had == old(self).label_map().contains_key(id),
            final(self).label_map() == old(self).label_map().remove(id),
            final(self).name_map() == (if old(self).label_map().contains_key(id) {
                old(self).name_map().remove(old(self).label_map()[id])
            } else {
                old(self).name_map()
            }),
            final(self).same_grants(old(self)),
            final(self).next() == old(self).next(),
    {
        match self.labels.get(id) {
            Some(name) => {
                self.names.del(name.as_str());
            },
            None => {},
        }
        self.labels.del(id)
    }

    /// Labels `id` with `name`. An entity that held `name` before loses its
    /// label (but keeps any other name that points to it).
    pub fn set_label(&mut self, id: u64, name: &str)
        requires
            old(self).wf(),
        ensures
            final(self).wf(),
            final(self).label_map() == relabelled(old(self).label_map(), old(self).name_map(), id, name@),
            final(self).name_map() == old(self).name_map().insert(name@, id),
            final(self).same_grants(old(self)),
            final(self).next() == old(self).next(),
    {
        match self.names.get(name) {
            Some(old_id) => {
                if old_id != id {
                    self.labels.del(old_id);
                }
            },
            None => {},
        }
        self.labels.put(id, name);
        self.names.put(name, id);
    }

    /// The label of `id`.
    pub fn get_label(&self, id: u64) -> (r: Option<String>)
        requires
            self.wf(),
        ensures
            r is Some <==> self.label_map().contains_key(id),
            r matches Some(s) ==> s@ == self.label_map()[id],
    {
        self.labels.get(id)
    }

    /// The id stored under `name`.
    pub fn get_id_by_label(&self, name: &str) -> (r: Option<u64>)
        requires
            self.wf(),
        ensures
            r == (if self.name_map().contains_key(name@) { Some(self.name_map()[name@]) } else { None::<u64> }),
    {
        self.names.get(name)
    }

    /// All labels, ascending by id.
    pub fn list_labels(&self) -> (r: Vec<(u64, String)>)
        requires
            self.wf(),
        ensures
            r@.map_values(|e: (u64, String)| (e.0, e.1@)) == self.label_rows(),
    {
        self.labels.list()
    }

    /// The label rows ascend strictly by id and list exactly the labels.
    pub proof fn lemma_label_rows(&self)
        requires
            self.wf(),
        ensures
            forall|i: int, j: int| 0 <= i < j < self.label_rows().len() ==> #[trigger] self.label_rows()[i].0
                < #[trigger] self.label_rows()[j].0,
            forall|i: int| 0 <= i < self.label_rows().len() ==> #[trigger] self.label_map().contains_key(
                self.label_rows()[i].0,
            ) && self.label_map()[self.label_rows()[i].0] == self.label_rows()[i].1,
            forall|id: u64| #[trigger] self.label_map().contains_key(id) ==> exists|i: int|
                0 <= i < self.label_rows().len() && #[trigger] self.label_rows()[i].0 == id,
    {
        self.labels.lemma_rows();
        assert forall|id: u64| #[trigger] self.label_map().contains_key(id) implies exists|i: int|
            0 <= i < self.label_rows().len() && #[trigger] self.label_rows()[i].0 == id by {
            let c = choose|i: int| 0 <= i < self.labels.rows().len() && #[trigger] self.labels.rows()[i].0 == id;
            assert(self.label_rows()[c].0 == id);
        }
    }

    /// The (object, role) pairs of `subject`, ascending by object.
    pub fn list_fwd(&self, subject: u64) -> (r: Vec<(u64, u64)>)
        requires
            self.wf(),
        ensures
            r@ == pairs(scan_spec(self.cap_rows(), subject, None, 0)),
    {
        let rows = self.fwd.scan(subject, None, 0);
        let mut r: Vec<(u64, u64)> = Vec::new();
        let mut i: usize = 0;
        while i < rows.len()
            invariant
                i <= rows@.len(),
                r@ == pairs(rows@.take(i as int)),
            decreases rows@.len() - i,
        {
            let e = rows[i];
            r.push((e.0.1, e.1));
            assert(pairs(rows@.take(i + 1)) =~= pairs(rows@.take(i as int)).push((e.0.1, e.1)));
            i = i + 1;
        }
        assert(rows@.take(i as int) =~= rows@);
        r
    }

    /// The (subject, role) pairs on `object`, ascending by subject.
    pub fn list_rev(&self, object: u64) -> (r: Vec<(u64, u64)>)
        requires
            self.wf(),
        ensures
            r@ == pairs(scan_spec(self.rev_rows(), object, None, 0)),
    {
        let rows = self.rev.scan(object, None, 0);
        let mut r: Vec<(u64, u64)> = Vec::new();
        let mut i: usize = 0;
        while i < rows.len()
            invariant
                i <= rows@.len(),
                r@ == pairs(rows@.take(i as int)),
            decreases rows@.len() - i,
        {
            let e = rows[i];
            r.push((e.0.1, e.1));
            assert(pairs(rows@.take(i + 1)) =~= pairs(rows@.take(i as int)).push((e.0.1, e.1)));
            i = i + 1;
        }
        assert(rows@.take(i as int) =~= rows@);
        r
    }
}


impl MaskStore {
    /// Everything but the roles held, the role masks and the links is as in `other`.
    pub open spec fn same_rest(&self, other: &MaskStore) -> bool {
        &&& self.label_map() == other.label_map()
        &&& self.name_map() == other.name_map()
        &&& self.next() == other.next()
    }

    /// A copy of the store.
    pub fn duplicate(&self) -> (d: Self)
        requires
            self.wf(),
        ensures
            d.wf(),
            d.caps_map() == self.caps_map(),
            d.cap_rows() == self.cap_rows(),
            d.rev_rows() == self.rev_rows(),
            d.roles_map() == self.roles_map(),
            d.inh_map() == self.inh_map(),
            d.label_map() == self.label_map(),
            d.label_rows() == self.label_rows(),
            d.name_map() == self.name_map(),
            d.next() == self.next(),
    {
        MaskStore {
            fwd: self.fwd.duplicate(),
            rev: self.rev.duplicate(),
            roles: self.roles.duplicate(),
            inh: self.inh.duplicate(),
            labels: self.labels.duplicate(),
            names: self.names.duplicate(),
            next_id: self.next_id,
        }
    }
}

} // verus!
