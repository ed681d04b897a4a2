//! The entity graph: typed entities named `"type:name"`, roles by label,
//! grants of a role from a seeker entity on a scope entity, capability masks
//! of a role on a scope, delegations (a seeker inherits what a source holds
//! on a scope), and capability labels. Entities, roles and types are kept by
//! number; names are resolved on the way in.
use vstd::prelude::*;
#[allow(unused_imports)]
use vstd::string::*;
#[allow(unused_imports)]
use vstd::utf8::*;
use crate::keys::{
    deinterleave, first_colon, interleave, interleaves, lemma_interleave_bijective, name_hash, name_hash_of,
};
use crate::labels::{Names, Texts, str_equal};
use crate::sorting::{sort_texts, sorted_texts, views};
use crate::table::{Key, Table, as_map, opt_get, sorted};
use crate::text::{decimal, decimal_string, lemma_split_at_ascii, str_from_utf8};

verus! {

/// An operation on the graph was refused; the message says why.
#[derive(Debug, Clone)]
pub struct CapbitError {
    /// What went wrong, in words.
    pub message: String,
}

fn fail<T>(message: String) -> (r: Result<T, CapbitError>)
    ensures
        r matches Err(e) && e.message == message,
{
    Err(CapbitError { message })
}

/// Two 32-bit numbers packed into one 64-bit key part, the first in the high half.
pub open spec fn pack(a: u32, b: u32) -> u64 {
    (a * 0x1_0000_0000int + b) as u64
}

/// Packing is one to one.
pub proof fn lemma_pack(a: u32, b: u32, c: u32, d: u32)
    ensures
        pack(a, b) == a * 0x1_0000_0000int + b,
        pack(a, b) == pack(c, d) ==> a == c && b == d,
{
    assert(a * 0x1_0000_0000int + b <= 0xFFFF_FFFF_FFFF_FFFFint) by (nonlinear_arith)
        requires
            a <= 0xFFFF_FFFF,
            b <= 0xFFFF_FFFF,
    ;
    assert(c * 0x1_0000_0000int + d <= 0xFFFF_FFFF_FFFF_FFFFint) by (nonlinear_arith)
        requires
            c <= 0xFFFF_FFFF,
            d <= 0xFFFF_FFFF,
    ;
    if a * 0x1_0000_0000int + b == c * 0x1_0000_0000int + d {
        assert(a == c && b == d) by (nonlinear_arith)
            requires
                a * 0x1_0000_0000int + b == c * 0x1_0000_0000int + d,
                0 <= b < 0x1_0000_0000int,
                0 <= d < 0x1_0000_0000int,
                a >= 0,
                c >= 0,
        ;
    }
}

fn pack_ids(a: u32, b: u32) -> (r: u64)
    ensures
        r == pack(a, b),
{
    proof {
        lemma_pack(a, b, a, b);
    }
    (a as u64) * 0x1_0000_0000u64 + (b as u64)
}

/// `a` is the first dimension of `z`.
pub open spec fn first_of(z: u64, a: u32) -> bool {
    exists|b: u32| #[trigger] interleaves(z, a, b)
}

/// The first dimension of an interleaved key part.
pub open spec fn first_dim(z: u64) -> u32 {
    choose|a: u32| #[trigger] first_of(z, a)
}

fn entity_of_key(z: u64) -> (e: u32)
    ensures
        e == first_dim(z),
{
    let (a, b) = deinterleave(z);
    proof {
        assert(first_of(z, a));
        let a2 = first_dim(z);
        let b2 = choose|b2: u32| #[trigger] interleaves(z, a2, b2);
        lemma_interleave_bijective(z, a, b, z, a2, b2);
    }
    a
}

/// The text `"type:name"` splits at its first `':'` into `t` and `n`.
pub open spec fn splits(label: Seq<u8>, t: Seq<u8>, n: Seq<u8>) -> bool {
    exists|i: int|
        #![trigger label[i]]
        0 <= i < label.len() && label[i] == 58u8 && (forall|j: int| 0 <= j < i ==> label[j] != 58u8) && t
            == label.subrange(0, i) && n == label.subrange(i + 1, label.len() as int)
}

/// Index of the first `':'` of `b`.
pub open spec fn colon_at(b: Seq<u8>) -> int {
    choose|i: int| first_colon(b, i)
}

/// The type part of a `"type:name"` label's bytes.
pub open spec fn label_type_bytes(b: Seq<u8>) -> Seq<u8> {
    b.subrange(0, colon_at(b))
}

/// The name part of a `"type:name"` label's bytes.
pub open spec fn label_name_bytes(b: Seq<u8>) -> Seq<u8> {
    b.subrange(colon_at(b) + 1, b.len() as int)
}

/// The type part of a label.
pub open spec fn label_type(label: &str) -> Seq<char> {
    decode_utf8(label_type_bytes(label.spec_bytes()))
}

/// The name part of a label.
pub open spec fn label_name(label: &str) -> Seq<char> {
    decode_utf8(label_name_bytes(label.spec_bytes()))
}

/// The message for a label without `':'`.
pub open spec fn invalid_label(label: &str) -> Seq<char> {
    "Invalid entity ID '"@ + label@ + "': must be 'type:id' format"@
}

/// Splits `"type:name"` at its first `':'`.
pub fn parse_entity_id(entity_id: &str) -> (r: Result<(&str, &str), CapbitError>)
    ensures
        r is Ok <==> entity_id.spec_bytes().contains(58u8),
        r is Ok ==> first_colon(entity_id.spec_bytes(), colon_at(entity_id.spec_bytes())),
        r matches Ok((t, n)) ==> t.spec_bytes() == label_type_bytes(entity_id.spec_bytes()) && n.spec_bytes()
            == label_name_bytes(entity_id.spec_bytes()) && t@ == label_type(entity_id) && n@ == label_name(entity_id),
        r matches Ok((t, n)) ==> splits(entity_id.spec_bytes(), t.spec_bytes(), n.spec_bytes()),
        r matches Err(e) ==> e.message@ == "Invalid entity ID '"@ + entity_id@ + "': must be 'type:id' format"@,
{
    let b = entity_id.as_bytes();
    proof {
        encode_utf8_valid_utf8(entity_id@);
    }
    let mut k: usize = 0;
    while k < b.len()
        invariant
            k <= b@.len(),
            b@ == entity_id.spec_bytes(),
            valid_utf8(b@),
            forall|j: int| 0 <= j < k ==> b@[j] != 58u8,
        decreases b@.len() - k,
    {
        if b[k] == 58u8 {
            proof {
                lemma_split_at_ascii(b@, k as int);
                assert(b@[k as int] == 58u8);
                assert(first_colon(b@, k as int));
                let c = colon_at(b@);
                assert(first_colon(b@, c));
                if c < k {
                    assert(b@[c] != 58u8);
                } else if c > k {
                    assert(b@[k as int] != 58u8);
                }
            }
            let t = match str_from_utf8(vstd::slice::slice_subrange(b, 0, k)) {
                Ok(t) => t,
                Err(_) => {
                    proof {
                        assert(false);
                    }
                    ""
                },
            };
            let n = match str_from_utf8(vstd::slice::slice_subrange(b, k + 1, b.len())) {
                Ok(n) => n,
                Err(_) => {
                    proof {
                        assert(false);
                    }
                    ""
                },
            };
            proof {
                encode_utf8_decode_utf8(t@);
                encode_utf8_decode_utf8(n@);
            }
            return Ok((t, n));
        }
        k = k + 1;
    }
    proof {
        reveal_strlit("Invalid entity ID '");
        reveal_strlit("': must be 'type:id' format");
        if entity_id.spec_bytes().contains(58u8) {
            let w = choose|w: int| 0 <= w < entity_id.spec_bytes().len() && entity_id.spec_bytes()[w] == 58u8;
            assert(b@[w] != 58u8);
        }
    }
    fail(String::from_str("Invalid entity ID '").concat(entity_id).concat("': must be 'type:id' format"))
}

/// The graph.
pub struct Graph {
    types: Names,
    type_names: Texts,
    next_type: u32,
    entities: Texts,
    counters: Table<u64>,
    roles: Texts,
    role_ids: Names,
    next_role: u32,
    grants: Table<u64>,
    caps: Table<u64>,
    inherits: Table<u64>,
    cap_labels: Texts,
}

/// The value of `o`, or `d`.
pub open spec fn or_else<V>(o: Option<V>, d: V) -> V {
    match o {
        Some(v) => v,
        None => d,
    }
}

impl Graph {
    /// Type ids by type name.
    pub closed spec fn types_map(&self) -> Map<Seq<char>, u64> {
        self.types.map()
    }

    /// Type names, keyed `(type_id, 0, 0)`.
    pub closed spec fn type_names_map(&self) -> Map<Key, Seq<char>> {
        self.type_names.map()
    }

    /// Type name rows, ascending by type id.
    pub closed spec fn type_name_rows(&self) -> Seq<(Key, Seq<char>)> {
        self.type_names.rows()
    }

    /// The last type id handed out.
    pub closed spec fn last_type(&self) -> u32 {
        self.next_type
    }

    /// Entity names, keyed `(type_id, interleave(entity_id, name_hash), 0)`.
    pub closed spec fn entities_map(&self) -> Map<Key, Seq<char>> {
        self.entities.map()
    }

    /// Entity rows, ascending by key.
    pub closed spec fn entity_rows(&self) -> Seq<(Key, Seq<char>)> {
        self.entities.rows()
    }

    /// The last entity id handed out per type, keyed `(type_id, 0, 0)`.
    pub closed spec fn counters_map(&self) -> Map<Key, u64> {
        self.counters.map()
    }

    /// Role labels, keyed `(role_id, 0, 0)`.
    pub closed spec fn roles_map(&self) -> Map<Key, Seq<char>> {
        self.roles.map()
    }

    /// Role ids by label.
    pub closed spec fn role_ids_map(&self) -> Map<Seq<char>, u64> {
        self.role_ids.map()
    }

    /// The last role id handed out.
    pub closed spec fn last_role(&self) -> u32 {
        self.next_role
    }

    /// Grants, keyed `(pack(seeker), pack(scope), role_id)`, valued by epoch.
    pub closed spec fn grants_map(&self) -> Map<Key, u64> {
        self.grants.map()
    }

    /// Grant rows, ascending by key.
    pub closed spec fn grant_rows(&self) -> Seq<(Key, u64)> {
        self.grants@
    }

    /// Capability masks, keyed `(pack(scope), role_id, 0)`.
    pub closed spec fn caps_map(&self) -> Map<Key, u64> {
        self.caps.map()
    }

    /// Capability rows, ascending by key.
    pub closed spec fn cap_rows(&self) -> Seq<(Key, u64)> {
        self.caps@
    }

    /// Delegations, keyed `(pack(seeker), pack(scope), pack(source))`, valued by epoch.
    pub closed spec fn inherits_map(&self) -> Map<Key, u64> {
        self.inherits.map()
    }

    /// Delegation rows, ascending by key.
    pub closed spec fn inherit_rows(&self) -> Seq<(Key, u64)> {
        self.inherits@
    }

    /// Capability labels, keyed `(pack(scope), bit, 0)`.
    pub closed spec fn cap_labels_map(&self) -> Map<Key, Seq<char>> {
        self.cap_labels.map()
    }

    /// Capability label rows, ascending by key.
    pub closed spec fn cap_label_rows(&self) -> Seq<(Key, Seq<char>)> {
        self.cap_labels.rows()
    }

    /// Every part is well formed, and stored type and role ids fit in 32 bits.
    pub closed spec fn wf(&self) -> bool {
        &&& self.types.wf()
        &&& self.type_names.wf()
        &&& self.entities.wf()
        &&& self.counters.wf()
        &&& self.roles.wf()
        &&& self.role_ids.wf()
        &&& self.grants.wf()
        &&& self.caps.wf()
        &&& self.inherits.wf()
        &&& self.cap_labels.wf()
        &&& forall|n: Seq<char>| #[trigger] self.types.map().contains_key(n) ==> self.types.map()[n] <= self.next_type
        &&& forall|n: Seq<char>| #[trigger] self.role_ids.map().contains_key(n) ==> self.role_ids.map()[n]
            <= u32::MAX
        &&& forall|n: Seq<char>| #[trigger] self.role_ids.map().contains_key(n) ==> {
            &&& self.role_ids.map()[n] <= self.next_role
            &&& self.roles.map().contains_key((self.role_ids.map()[n], 0, 0))
            &&& self.roles.map()[(self.role_ids.map()[n], 0, 0)] == n
        }
        &&& forall|kk: Key| #[trigger] self.roles.map().contains_key(kk) ==> {
            &&& self.role_ids.map().contains_key(self.roles.map()[kk])
            &&& self.role_ids.map()[self.roles.map()[kk]] == kk.0
            &&& kk.1 == 0 && kk.2 == 0
        }
        &&& forall|k: Key| #[trigger] self.grants.map().contains_key(k) ==> k.2 <= u32::MAX
        &&& forall|k: Key| #[trigger] self.counters.map().contains_key(k) ==> self.counters.map()[k] <= u32::MAX
        &&& forall|k: Key| #[trigger] self.entities.map().contains_key(k) ==> k.0 <= self.next_type
    }

    /// The row sequences that reads walk denote the maps that writes state:
    /// grant, delegation and capability rows ascend by key and their map is
    /// the stored map; every entity row is in the entity map and every entry
    /// of it has a row; a role found by label carries that label.
    pub proof fn lemma_rows_denote(&self)
        requires
            self.wf(),
        ensures
            self.grants_map() == as_map(self.grant_rows()),
            sorted(self.grant_rows()),
            self.inherits_map() == as_map(self.inherit_rows()),
            sorted(self.inherit_rows()),
            self.caps_map() == as_map(self.cap_rows()),
            sorted(self.cap_rows()),
            forall|i: int|
                0 <= i < self.entity_rows().len() ==> #[trigger] self.entities_map().contains_key(
                    self.entity_rows()[i].0,
                ) && self.entities_map()[self.entity_rows()[i].0] == self.entity_rows()[i].1,
            forall|k: Key| #[trigger]
                self.entities_map().contains_key(k) ==> exists|i: int|
                    0 <= i < self.entity_rows().len() && #[trigger] self.entity_rows()[i].0 == k,
            forall|l: Seq<char>| #[trigger]
                self.role_id_of(l) is Some ==> self.role_label_of(self.role_id_of(l)->0) == Some(l),
            forall|id: u32| #[trigger]
                self.role_label_of(id) is Some ==> self.role_id_of(self.role_label_of(id)->0) == Some(id),
            forall|k: Key| #[trigger] self.grants_map().contains_key(k) ==> k.2 <= u32::MAX,
    {
        assert forall|id: u32| #[trigger] self.role_label_of(id) is Some implies self.role_id_of(
            self.role_label_of(id)->0,
        ) == Some(id) by {
            let kk = (id as u64, 0u64, 0u64);
            assert(self.roles.map().contains_key(kk));
            assert(self.role_ids.map()[self.roles.map()[kk]] == id as u64);
        }
        self.grants.lemma_sorted();
        self.inherits.lemma_sorted();
        self.caps.lemma_sorted();
        self.entities.lemma_rows();
        assert forall|i: int| 0 <= i < self.entity_rows().len() implies #[trigger] self.entities_map().contains_key(
            self.entity_rows()[i].0,
        ) && self.entities_map()[self.entity_rows()[i].0] == self.entity_rows()[i].1 by {
            assert(self.entities.map().contains_key(self.entities.rows()[i].0));
        }
        assert forall|k: Key| #[trigger] self.entities_map().contains_key(k) implies exists|i: int|
            0 <= i < self.entity_rows().len() && #[trigger] self.entity_rows()[i].0 == k by {
            assert(self.entities.map().contains_key(k));
            let c = choose|i: int| 0 <= i < self.entities.rows().len() && #[trigger] self.entities.rows()[i].0 == k;
            assert(self.entity_rows()[c].0 == k);
        }
        assert forall|l: Seq<char>| #[trigger] self.role_id_of(l) is Some implies self.role_label_of(
            self.role_id_of(l)->0,
        ) == Some(l) by {
            let v = self.role_ids.map()[l];
            assert(v <= u32::MAX);
            assert((v as u32) as u64 == v);
        }
    }

    /// Nothing but the grants, delegations and capabilities changed.
    pub open spec fn same_names(&self, other: &Graph) -> bool {
        &&& self.types_map() == other.types_map()
        &&& self.type_names_map() == other.type_names_map()
        &&& self.last_type() == other.last_type()
        &&& self.entities_map() == other.entities_map()
        &&& self.entity_rows() == other.entity_rows()
        &&& self.counters_map() == other.counters_map()
        &&& self.cap_labels_map() == other.cap_labels_map()
    }

    /// The roles are as in `other`.
    pub open spec fn same_roles(&self, other: &Graph) -> bool {
        &&& self.roles_map() == other.roles_map()
        &&& self.role_ids_map() == other.role_ids_map()
        &&& self.last_role() == other.last_role()
    }

    /// An empty graph.
    pub fn new() -> (g: Self)
        ensures
            g.wf(),
            g.types_map() == Map::<Seq<char>, u64>::empty(),
            g.entities_map() == Map::<Key, Seq<char>>::empty(),
            g.roles_map() == Map::<Key, Seq<char>>::empty(),
            g.grants_map() == Map::<Key, u64>::empty(),
            g.caps_map() == Map::<Key, u64>::empty(),
            g.inherits_map() == Map::<Key, u64>::empty(),
            g.cap_labels_map() == Map::<Key, Seq<char>>::empty(),
            g.last_type() == 0,
            g.last_role() == 0,
    {
        Graph {
            types: Names::new(),
            type_names: Texts::new(),
            next_type: 0,
            entities: Texts::new(),
            counters: Table::new(),
            roles: Texts::new(),
            role_ids: Names::new(),
            next_role: 0,
            grants: Table::new(),
            caps: Table::new(),
            inherits: Table::new(),
            cap_labels: Texts::new(),
        }
    }
}

impl Graph {
    /// The id of type `name`.
    pub open spec fn type_id_of(&self, name: Seq<char>) -> Option<u32> {
        if self.types_map().contains_key(name) {
            Some(self.types_map()[name] as u32)
        } else {
            None
        }
    }

    /// The label of role `role_id`.
    pub open spec fn role_label_of(&self, role_id: u32) -> Option<Seq<char>> {
        opt_get(self.roles_map(), (role_id as u64, 0, 0))
    }

    /// The id of the role labelled `label`.
    pub open spec fn role_id_of(&self, label: Seq<char>) -> Option<u32> {
        if self.role_ids_map().contains_key(label) {
            Some(self.role_ids_map()[label] as u32)
        } else {
            None
        }
    }

    /// The last entity id handed out for type `type_id` (0 before the first).
    pub open spec fn counter_of(&self, type_id: u32) -> u64 {
        or_else(opt_get(self.counters_map(), (type_id as u64, 0, 0)), 0)
    }

    /// Ids have room to grow: more types, roles, and entities of each type can be numbered.
    pub open spec fn has_room(&self) -> bool {
        &&& self.last_type() < u32::MAX
        &&& self.last_role() < u32::MAX
        &&& forall|k: Key| #[trigger] self.counters_map().contains_key(k) ==> self.counters_map()[k] < u32::MAX
    }

    /// Resolves a type name to its id.
    pub fn resolve_type(&self, tname: &str) -> (r: Result<u32, CapbitError>)
        requires
            self.wf(),
        ensures
            r is Ok <==> self.type_id_of(tname@) is Some,
            r matches Ok(id) ==> self.type_id_of(tname@) == Some(id),
            r matches Err(e) ==> e.message@ == "Type '"@ + tname@ + "' not found"@,
    {
        match self.types.get(tname) {
            Some(id) => {
                proof {
                    assert(self.types.map().contains_key(tname@));
                }
                Ok(id as u32)
            },
            None => {
                proof {
                    reveal_strlit("Type '");
                    reveal_strlit("' not found");
                }
                fail(String::from_str("Type '").concat(tname).concat("' not found"))
            },
        }
    }

    /// Whether type `tname` exists.
    pub fn type_exists(&self, tname: &str) -> (b: bool)
        requires
            self.wf(),
        ensures
            b == self.types_map().contains_key(tname@),
    {
        self.types.get(tname).is_some()
    }

    /// Resolves a type id to its name.
    pub fn resolve_type_name(&self, type_id: u32) -> (r: Result<String, CapbitError>)
        requires
            self.wf(),
        ensures
            r is Ok <==> self.type_names_map().contains_key((type_id as u64, 0, 0)),
            r matches Ok(n) ==> n@ == self.type_names_map()[(type_id as u64, 0, 0)],
            r matches Err(e) ==> e.message@ == "Type ID "@ + decimal(type_id as nat) + " not found"@,
    {
        match self.type_names.get((type_id as u64, 0, 0)) {
            Some(n) => Ok(n),
            None => {
                proof {
                    reveal_strlit("Type ID ");
                    reveal_strlit(" not found");
                }
                fail(String::from_str("Type ID ").concat(decimal_string(type_id as u64).as_str()).concat(" not found"))
            },
        }
    }

    fn add_type(&mut self, tname: &str) -> (id: u32)
        requires
            old(self).wf(),
            old(self).last_type() < u32::MAX,
        ensures
            final(self).wf(),
            id == old(self).last_type() + 1,
            final(self).last_type() == id,
            final(self).types_map() == old(self).types_map().insert(tname@, id as u64),
            final(self).type_names_map() == old(self).type_names_map().insert((id as u64, 0, 0), tname@),
            final(self).entities_map() == old(self).entities_map(),
            final(self).counters_map() == old(self).counters_map(),
            final(self).cap_labels_map() == old(self).cap_labels_map(),
            final(self).same_roles(old(self)),
            final(self).grants_map() == old(self).grants_map(),
            final(self).caps_map() == old(self).caps_map(),
            final(self).inherits_map() == old(self).inherits_map(),
    {
        let id = self.next_type + 1;
        self.types.put(tname, id as u64);
        self.type_names.put((id as u64, 0, 0), tname);
        self.next_type = id;
        proof {
            assert forall|k: Key| #[trigger] self.entities.map().contains_key(k) implies k.0 <= self.next_type by {
                assert(old(self).entities.map().contains_key(k));
            }
            assert forall|nm: Seq<char>| #[trigger] self.types.map().contains_key(nm) implies self.types.map()[nm]
                <= self.next_type by {
                if nm != tname@ {
                    assert(old(self).types.map().contains_key(nm));
                }
            }
        }
        id
    }

    /// Creates type `tname` under the next type id; refused when it exists.
    pub fn create_type_in(&mut self, tname: &str) -> (r: Result<u32, CapbitError>)
        requires
            old(self).wf(),
            old(self).last_type() < u32::MAX,
        ensures
            final(self).wf(),
            r is Err <==> old(self).types_map().contains_key(tname@),
            r matches Err(e) ==> e.message@ == "Type '"@ + tname@ + "' already exists"@ && *final(self)
                == *old(self),
            r matches Ok(id) ==> id == old(self).last_type() + 1 && final(self).last_type() == id
                && final(self).types_map() == old(self).types_map().insert(tname@, id as u64)
                && final(self).type_names_map() == old(self).type_names_map().insert((id as u64, 0, 0), tname@)
                && final(self).entities_map() == old(self).entities_map() && final(self).counters_map() == old(
                self,
            ).counters_map() && final(self).cap_labels_map() == old(self).cap_labels_map() && final(self).same_roles(
                old(self),
            ) && final(self).grants_map() == old(self).grants_map() && final(self).caps_map() == old(self).caps_map()
                && final(self).inherits_map() == old(self).inherits_map(),
    {
        if self.types.get(tname).is_some() {
            proof {
                reveal_strlit("Type '");
                reveal_strlit("' already exists");
            }
            return fail(String::from_str("Type '").concat(tname).concat("' already exists"));
        }
        Ok(self.add_type(tname))
    }

    /// The id of role `label`, creating the role under the next role id when
    /// new. An empty label is refused, and nothing changes.
    pub fn resolve_or_create_role(&mut self, label: &str) -> (r: Result<u32, CapbitError>)
        requires
            old(self).wf(),
            old(self).last_role() < u32::MAX,
        ensures
            final(self).wf(),
            r is Err <==> label@.len() == 0,
            r matches Err(e) ==> e.message@ == empty_role_message() && *final(self) == *old(self),
            r matches Ok(id) ==> {
                &&& old(self).role_id_of(label@) is Some ==> id == old(self).role_id_of(label@)->0 && *final(self)
                    == *old(self)
                &&& old(self).role_id_of(label@) is None ==> id == old(self).last_role() + 1 && final(self).last_role()
                    == id && final(self).roles_map() == old(self).roles_map().insert((id as u64, 0, 0), label@)
                    && final(self).role_ids_map() == old(self).role_ids_map().insert(label@, id as u64)
                &&& final(self).same_names(old(self))
                &&& final(self).grants_map() == old(self).grants_map()
                &&& final(self).caps_map() == old(self).caps_map()
                &&& final(self).inherits_map() == old(self).inherits_map()
                &&& final(self).role_id_of(label@) == Some(id)
            },
    {
        if label.unicode_len() == 0 {
            proof {
                reveal_strlit("Role label cannot be empty");
            }
            return fail(String::from_str("Role label cannot be empty"));
        }
        match self.role_ids.get(label) {
            Some(id) => Ok(id as u32),
            None => {
                let id = self.next_role + 1;
                self.roles.put((id as u64, 0, 0), label);
                self.role_ids.put(label, id as u64);
                self.next_role = id;
                Ok(id)
            },
        }
    }

    /// Resolves a role label to its id.
    pub fn resolve_role(&self, label: &str) -> (r: Result<u32, CapbitError>)
        requires
            self.wf(),
        ensures
            r is Ok <==> self.role_id_of(label@) is Some,
            r matches Ok(id) ==> self.role_id_of(label@) == Some(id),
            r matches Err(e) ==> e.message@ == "Role '"@ + label@ + "' not found"@,
    {
        match self.role_ids.get(label) {
            Some(id) => Ok(id as u32),
            None => {
                proof {
                    reveal_strlit("Role '");
                    reveal_strlit("' not found");
                }
                fail(String::from_str("Role '").concat(label).concat("' not found"))
            },
        }
    }

    /// Resolves a role id to its label.
    pub fn resolve_role_label(&self, role_id: u32) -> (r: Result<String, CapbitError>)
        requires
            self.wf(),
        ensures
            r is Ok <==> self.role_label_of(role_id) is Some,
            r matches Ok(l) ==> Some(l@) == self.role_label_of(role_id),
            r matches Err(e) ==> e.message@ == "Role ID "@ + decimal(role_id as nat) + " not found"@,
    {
        match self.roles.get((role_id as u64, 0, 0)) {
            Some(l) => Ok(l),
            None => {
                proof {
                    reveal_strlit("Role ID ");
                    reveal_strlit(" not found");
                }
                fail(String::from_str("Role ID ").concat(decimal_string(role_id as u64).as_str()).concat(" not found"))
            },
        }
    }
}

impl Graph {
    /// Row `i` is an entity of type `tid` named `name`.
    pub open spec fn named_at(&self, tid: u32, name: Seq<char>, i: int) -> bool {
        &&& 0 <= i < self.entity_rows().len()
        &&& self.entity_rows()[i].0.0 == tid as u64
        &&& self.entity_rows()[i].1 == name
    }

    /// Row `i` is the first entity of type `tid` named `name`.
    pub open spec fn first_named(&self, tid: u32, name: Seq<char>, i: int) -> bool {
        &&& self.named_at(tid, name, i)
        &&& forall|j: int| 0 <= j < i ==> !#[trigger] self.named_at(tid, name, j)
    }

    /// The id of the first entity of type `tid` named `name`.
    pub open spec fn entity_named(&self, tid: u32, name: Seq<char>) -> Option<u32> {
        if exists|i: int| #[trigger] self.named_at(tid, name, i) {
            Some(first_dim(self.entity_rows()[choose|i: int| #[trigger] self.first_named(tid, name, i)].0.1))
        } else {
            None
        }
    }

    /// Row `i` is an entity of type `tid` with id `eid`.
    pub open spec fn id_at(&self, tid: u32, eid: u32, i: int) -> bool {
        &&& 0 <= i < self.entity_rows().len()
        &&& self.entity_rows()[i].0.0 == tid as u64
        &&& first_dim(self.entity_rows()[i].0.1) == eid
    }

    /// Row `i` is the first entity of type `tid` with id `eid`.
    pub open spec fn first_id(&self, tid: u32, eid: u32, i: int) -> bool {
        &&& self.id_at(tid, eid, i)
        &&& forall|j: int| 0 <= j < i ==> !#[trigger] self.id_at(tid, eid, j)
    }

    /// The name of the first entity of type `tid` with id `eid`.
    pub open spec fn entity_name(&self, tid: u32, eid: u32) -> Option<Seq<char>> {
        if exists|i: int| #[trigger] self.id_at(tid, eid, i) {
            Some(self.entity_rows()[choose|i: int| #[trigger] self.first_id(tid, eid, i)].1)
        } else {
            None
        }
    }

    /// How the label with characters `c` resolves: to `(type_id, entity_id)`,
    /// or to the refusal text.
    pub open spec fn resolved_view(&self, c: Seq<char>) -> Result<(u32, u32), Seq<char>> {
        let b = encode_utf8(c);
        if !b.contains(58u8) {
            Err("Invalid entity ID '"@ + c + "': must be 'type:id' format"@)
        } else {
            let t = decode_utf8(label_type_bytes(b));
            match self.type_id_of(t) {
                None => Err("Type '"@ + t + "' not found"@),
                Some(tid) => match self.entity_named(tid, decode_utf8(label_name_bytes(b))) {
                    Some(eid) => Ok((tid, eid)),
                    None => Err("Entity '"@ + c + "' not found"@),
                },
            }
        }
    }

    /// How `label` resolves: to `(type_id, entity_id)`, or to the refusal text.
    pub open spec fn resolved(&self, label: &str) -> Result<(u32, u32), Seq<char>> {
        self.resolved_view(label@)
    }

    /// Resolution reads only the types and the entity rows: two graphs that
    /// agree on them resolve every label alike.
    pub proof fn lemma_same_resolution(&self, other: &Graph)
        requires
            self.types_map() == other.types_map(),
            self.entity_rows() == other.entity_rows(),
        ensures
            forall|c: Seq<char>| #[trigger] self.resolved_view(c) == other.resolved_view(c),
    {
        assert forall|tid: u32, name: Seq<char>| #[trigger] self.entity_named(tid, name) == other.entity_named(
            tid,
            name,
        ) by {
            if exists|i: int| #[trigger] self.named_at(tid, name, i) {
                let i = choose|i: int| #[trigger] self.named_at(tid, name, i);
                let f = self.first_index(tid, name, i);
                self.lemma_first_named(tid, name, f);
                assert(other.named_at(tid, name, f));
                assert forall|j: int| 0 <= j < f implies !#[trigger] other.named_at(tid, name, j) by {
                    assert(!self.named_at(tid, name, j));
                }
                assert(other.first_named(tid, name, f));
                other.lemma_first_named(tid, name, f);
            } else {
                assert forall|i: int| !#[trigger] other.named_at(tid, name, i) by {
                    assert(!self.named_at(tid, name, i));
                }
            }
        }
        assert forall|c: Seq<char>| #[trigger] self.resolved_view(c) == other.resolved_view(c) by {
            let b = encode_utf8(c);
            let t = decode_utf8(label_type_bytes(b));
            let nm = decode_utf8(label_name_bytes(b));
            assert(self.type_id_of(t) == other.type_id_of(t));
            if let Some(tid) = self.type_id_of(t) {
                assert(self.entity_named(tid, nm) == other.entity_named(tid, nm));
            }
        }
    }

    /// Some row at or before `i` is the first row of type `tid` named `name`.
    proof fn first_index(&self, tid: u32, name: Seq<char>, i: int) -> (f: int)
        requires
            self.named_at(tid, name, i),
        ensures
            self.first_named(tid, name, f),
        decreases i,
    {
        if exists|j: int| 0 <= j < i && #[trigger] self.named_at(tid, name, j) {
            let j = choose|j: int| 0 <= j < i && #[trigger] self.named_at(tid, name, j);
            self.first_index(tid, name, j)
        } else {
            i
        }
    }

    proof fn lemma_first_named(&self, tid: u32, name: Seq<char>, i: int)
        requires
            self.first_named(tid, name, i),
        ensures
            self.entity_named(tid, name) == Some(first_dim(self.entity_rows()[i].0.1)),
    {
        let c = choose|c: int| #[trigger] self.first_named(tid, name, c);
        assert(self.first_named(tid, name, c));
        if c < i {
            assert(!self.named_at(tid, name, c));
        } else if c > i {
            assert(!self.named_at(tid, name, i));
        }
    }

    proof fn lemma_first_id(&self, tid: u32, eid: u32, i: int)
        requires
            self.first_id(tid, eid, i),
        ensures
            self.entity_name(tid, eid) == Some(self.entity_rows()[i].1),
    {
        let c = choose|c: int| #[trigger] self.first_id(tid, eid, c);
        assert(self.first_id(tid, eid, c));
        if c < i {
            assert(!self.id_at(tid, eid, c));
        } else if c > i {
            assert(!self.id_at(tid, eid, i));
        }
    }

    fn find_by_name(&self, tid: u32, name: &str) -> (r: Option<usize>)
        requires
            self.wf(),
        ensures
            r matches Some(i) ==> self.first_named(tid, name@, i as int),
            r is None ==> forall|i: int| !#[trigger] self.named_at(tid, name@, i),
    {
        let mut i: usize = 0;
        while i < self.entities.len()
            invariant
                self.wf(),
                i <= self.entity_rows().len(),
                forall|j: int| 0 <= j < i ==> !#[trigger] self.named_at(tid, name@, j),
            decreases self.entity_rows().len() - i,
        {
            let (k, n) = self.entities.row(i);
            if k.0 == tid as u64 && str_equal(n.as_str(), name) {
                return Some(i);
            }
            i = i + 1;
        }
        None
    }

    fn find_by_id(&self, tid: u32, eid: u32) -> (r: Option<usize>)
        requires
            self.wf(),
        ensures
            r matches Some(i) ==> self.first_id(tid, eid, i as int),
            r is None ==> forall|i: int| !#[trigger] self.id_at(tid, eid, i),
    {
        let mut i: usize = 0;
        while i < self.entities.len()
            invariant
                self.wf(),
                i <= self.entity_rows().len(),
                forall|j: int| 0 <= j < i ==> !#[trigger] self.id_at(tid, eid, j),
            decreases self.entity_rows().len() - i,
        {
            let (k, _) = self.entities.row(i);
            if k.0 == tid as u64 && entity_of_key(k.1) == eid {
                return Some(i);
            }
            i = i + 1;
        }
        None
    }

    /// Resolves `"type:name"` to `(type_id, entity_id)`.
    pub fn resolve_entity(&self, label: &str) -> (r: Result<(u32, u32), CapbitError>)
        requires
            self.wf(),
        ensures
            r is Ok <==> self.resolved(label) is Ok,
            r matches Ok(p) ==> self.resolved(label) == Ok::<(u32, u32), Seq<char>>(p),
            r matches Err(e) ==> self.resolved(label) == Err::<(u32, u32), Seq<char>>(e.message@),
    {
        let (t, n) = match parse_entity_id(label) {
            Ok(p) => p,
            Err(e) => return Err(e),
        };
        let tid = match self.resolve_type(t) {
            Ok(id) => id,
            Err(e) => return Err(e),
        };
        match self.find_by_name(tid, n) {
            Some(i) => {
                let (k, _) = self.entities.row(i);
                proof {
                    self.lemma_first_named(tid, n@, i as int);
                }
                Ok((tid, entity_of_key(k.1)))
            },
            None => {
                proof {
                    reveal_strlit("Entity '");
                    reveal_strlit("' not found");
                }
                fail(String::from_str("Entity '").concat(label).concat("' not found"))
            },
        }
    }

    /// Whether `label` resolves to an entity.
    pub fn entity_exists_in(&self, label: &str) -> (b: bool)
        requires
            self.wf(),
        ensures
            b == self.resolved(label) is Ok,
    {
        self.resolve_entity(label).is_ok()
    }

    /// Resolves `(type_id, entity_id)` to `"type:name"`.
    pub fn resolve_entity_label(&self, tid: u32, eid: u32) -> (r: Result<String, CapbitError>)
        requires
            self.wf(),
        ensures
            r is Ok <==> self.type_names_map().contains_key((tid as u64, 0, 0)) && self.entity_name(tid, eid) is Some,
            r matches Ok(s) ==> s@ == self.type_names_map()[(tid as u64, 0, 0)] + seq![':'] + self.entity_name(
                tid,
                eid,
            )->0,
            !self.type_names_map().contains_key((tid as u64, 0, 0)) ==> (r matches Err(e) && e.message@ == "Type ID "@
                + decimal(tid as nat) + " not found"@),
            self.type_names_map().contains_key((tid as u64, 0, 0)) && self.entity_name(tid, eid) is None ==> (r matches Err(
                e,
            ) && e.message@ == "Entity "@ + decimal(tid as nat) + ":"@ + decimal(eid as nat) + " not found"@),
    {
        let tn = match self.resolve_type_name(tid) {
            Ok(n) => n,
            Err(e) => return Err(e),
        };
        proof {
            reveal_strlit(":");
        }
        match self.find_by_id(tid, eid) {
            Some(i) => {
                let (_, n) = self.entities.row(i);
                proof {
                    self.lemma_first_id(tid, eid, i as int);
                }
                Ok(tn.concat(":").concat(n.as_str()))
            },
            None => {
                proof {
                    reveal_strlit("Entity ");
                    reveal_strlit(" not found");
                }
                fail(String::from_str("Entity ").concat(decimal_string(tid as u64).as_str()).concat(":").concat(
                    decimal_string(eid as u64).as_str(),
                ).concat(" not found"))
            },
        }
    }
}


/// `post` is `pre` after deleting entity `(tid, eid)` (which exists in
/// `pre`): its row is gone, and so are the grants it takes part in, the
/// delegations it takes part in, and the capabilities defined on it; types,
/// counters, capability labels and roles stay.
pub open spec fn entity_deleted(pre: Graph, post: Graph, tid: u32, eid: u32) -> bool {
    let p = pack(tid, eid);
    &&& exists|i: int|
        #![trigger pre.first_id(tid, eid, i)]
        pre.first_id(tid, eid, i) && post.entities_map() == pre.entities_map().remove(pre.entity_rows()[i].0)
    &&& forall|k: Key|
        #[trigger] opt_get(post.grants_map(), k) == (if k.0 == p || k.1 == p {
            None
        } else {
            opt_get(pre.grants_map(), k)
        })
    &&& forall|k: Key|
        #[trigger] opt_get(post.inherits_map(), k) == (if k.0 == p || k.1 == p || k.2 == p {
            None
        } else {
            opt_get(pre.inherits_map(), k)
        })
    &&& forall|k: Key|
        #[trigger] opt_get(post.caps_map(), k) == (if k.0 == p {
            None
        } else {
            opt_get(pre.caps_map(), k)
        })
    &&& post.types_map() == pre.types_map()
    &&& post.type_names_map() == pre.type_names_map()
    &&& post.last_type() == pre.last_type()
    &&& post.counters_map() == pre.counters_map()
    &&& post.cap_labels_map() == pre.cap_labels_map()
    &&& post.same_roles(&pre)
}

/// The type part of the label with characters `c`.
pub open spec fn ltype(c: Seq<char>) -> Seq<char> {
    decode_utf8(label_type_bytes(encode_utf8(c)))
}

/// The name part of the label with characters `c`.
pub open spec fn lname(c: Seq<char>) -> Seq<char> {
    decode_utf8(label_name_bytes(encode_utf8(c)))
}

/// `post` is `pre` after creating the entity labelled `c` as `(tid, eid)`.
pub open spec fn entity_created(pre: Graph, post: Graph, c: Seq<char>, tid: u32, eid: u32) -> bool {
    let ty = ltype(c);
    let fresh = pre.type_id_of(ty) is None;
    &&& tid == (if fresh { (pre.last_type() + 1) as u32 } else { pre.type_id_of(ty)->0 })
    &&& fresh ==> post.types_map() == pre.types_map().insert(ty, tid as u64) && post.type_names_map()
        == pre.type_names_map().insert((tid as u64, 0, 0), ty) && post.last_type() == tid
    &&& !fresh ==> post.types_map() == pre.types_map() && post.type_names_map() == pre.type_names_map()
        && post.last_type() == pre.last_type()
    &&& eid == pre.counter_of(tid) + 1
    &&& post.counters_map() == pre.counters_map().insert((tid as u64, 0, 0), eid as u64)
    &&& exists|z: u64|
        interleaves(z, eid, name_hash_of(label_name_bytes(encode_utf8(c)))) && post.entities_map()
            == #[trigger] pre.entities_map().insert((tid as u64, z, 0), lname(c))
    &&& post.same_links(&pre)
}

/// `post` is `pre` after granting role `rel` to `s` on `o` at `now`.
pub open spec fn relationship_set(pre: Graph, post: Graph, s: Seq<char>, rel: Seq<char>, o: Seq<char>, now: u64) -> bool {
    let (x, y) = both(pre.resolved_view(s), pre.resolved_view(o))->Ok_0;
    &&& pre.roles_after(rel, &post)
    &&& post.grants_map() == pre.grants_map().insert((pack(x.0, x.1), pack(y.0, y.1), pre.role_after(rel) as u64), now)
    &&& post.caps_map() == pre.caps_map()
    &&& post.inherits_map() == pre.inherits_map()
    &&& post.same_names(&pre)
}

/// `post` is `pre` after removing the grant of role `rel` to `s` on `o`;
/// `had` says whether it existed.
pub open spec fn relationship_deleted(pre: Graph, post: Graph, s: Seq<char>, rel: Seq<char>, o: Seq<char>, had: bool) -> bool {
    let (x, y) = both(pre.resolved_view(s), pre.resolved_view(o))->Ok_0;
    let k = (pack(x.0, x.1), pack(y.0, y.1), pre.role_id_of(rel)->0 as u64);
    &&& had == pre.grants_map().contains_key(k)
    &&& post.grants_map() == pre.grants_map().remove(k)
    &&& post.caps_map() == pre.caps_map()
    &&& post.inherits_map() == pre.inherits_map()
    &&& post.same_names(&pre)
    &&& post.same_roles(&pre)
}

/// `post` is `pre` after setting the mask of role `rel` on `e` to `mask`.
pub open spec fn capability_set(pre: Graph, post: Graph, e: Seq<char>, rel: Seq<char>, mask: u64) -> bool {
    let x = pre.resolved_view(e)->Ok_0;
    &&& pre.roles_after(rel, &post)
    &&& post.caps_map() == pre.caps_map().insert((pack(x.0, x.1), pre.role_after(rel) as u64, 0), mask)
    &&& post.grants_map() == pre.grants_map()
    &&& post.inherits_map() == pre.inherits_map()
    &&& post.same_names(&pre)
}

/// `post` is `pre` after recording the delegation `(s, o, c)` at `now`.
pub open spec fn inheritance_set(pre: Graph, post: Graph, s: Seq<char>, o: Seq<char>, c: Seq<char>, now: u64) -> bool {
    &&& post.inherits_map() == pre.inherits_map().insert(pre.delegation_key_view(s, o, c)->Ok_0, now)
    &&& post.grants_map() == pre.grants_map()
    &&& post.caps_map() == pre.caps_map()
    &&& post.same_names(&pre)
    &&& post.same_roles(&pre)
}

/// `post` is `pre` after removing the delegation `(s, o, c)`; `had` says
/// whether it existed.
pub open spec fn inheritance_deleted(pre: Graph, post: Graph, s: Seq<char>, o: Seq<char>, c: Seq<char>, had: bool) -> bool {
    &&& had == pre.inherits_map().contains_key(pre.delegation_key_view(s, o, c)->Ok_0)
    &&& post.inherits_map() == pre.inherits_map().remove(pre.delegation_key_view(s, o, c)->Ok_0)
    &&& post.grants_map() == pre.grants_map()
    &&& post.caps_map() == pre.caps_map()
    &&& post.same_names(&pre)
    &&& post.same_roles(&pre)
}

/// `post` is `pre` with type `tname` (its name and its id row) removed, and
/// nothing else changed.
pub open spec fn type_dropped(pre: Graph, post: Graph, tname: Seq<char>) -> bool {
    &&& post.types_map() == pre.types_map().remove(tname)
    &&& post.type_names_map() == pre.type_names_map().remove((pre.types_map()[tname], 0, 0))
    &&& post.last_type() == pre.last_type()
    &&& post.entities_map() == pre.entities_map()
    &&& post.counters_map() == pre.counters_map()
    &&& post.same_links(&pre)
    &&& post.wf()
}

/// The type part of `label` starts with `'_'` (an internal type, created on demand).
pub open spec fn internal_label(label: &str) -> bool {
    label_type_bytes(label.spec_bytes()).len() > 0 && label_type_bytes(label.spec_bytes())[0] == 95u8
}

impl Graph {
    /// Why creating the entity labelled `c` is refused, if it is.
    pub open spec fn create_refusal_view(&self, c: Seq<char>) -> Option<Seq<char>> {
        let b = encode_utf8(c);
        if !b.contains(58u8) {
            Some("Invalid entity ID '"@ + c + "': must be 'type:id' format"@)
        } else {
            match self.type_id_of(ltype(c)) {
                None => if label_type_bytes(b).len() > 0 && label_type_bytes(b)[0] == 95u8 {
                    None
                } else {
                    Some("Type '"@ + ltype(c) + "' not found"@)
                },
                Some(tid) => if self.entity_named(tid, lname(c)) is Some {
                    Some("Entity '"@ + c + "' already exists"@)
                } else {
                    None
                },
            }
        }
    }

    /// Why creating the entity `label` is refused, if it is.
    pub open spec fn create_refusal(&self, label: &str) -> Option<Seq<char>> {
        self.create_refusal_view(label@)
    }

    /// Only the entity tables (types, type names, counters, entities) may differ from `other`.
    pub open spec fn same_links(&self, other: &Graph) -> bool {
        &&& self.same_roles(other)
        &&& self.grants_map() == other.grants_map()
        &&& self.caps_map() == other.caps_map()
        &&& self.inherits_map() == other.inherits_map()
        &&& self.cap_labels_map() == other.cap_labels_map()
    }

    /// Creates the entity `label` (`"type:name"`) under the next id of its
    /// type. A type whose name starts with `'_'` is created when missing;
    /// other types must exist. Refused when the name is taken in its type.
    pub fn create_entity_in(&mut self, label: &str) -> (r: Result<(u32, u32), CapbitError>)
        requires
            old(self).wf(),
            old(self).has_room(),
        ensures
            final(self).wf(),
            r is Err <==> old(self).create_refusal(label) is Some,
            r matches Err(e) ==> Some(e.message@) == old(self).create_refusal(label) && *final(self) == *old(self),
            r matches Ok((tid, eid)) ==> {
                let ty = label_type(label);
                let fresh = old(self).type_id_of(ty) is None;
                &&& tid == (if fresh { (old(self).last_type() + 1) as u32 } else { old(self).type_id_of(ty)->0 })
                &&& fresh ==> final(self).types_map() == old(self).types_map().insert(ty, tid as u64)
                    && final(self).type_names_map() == old(self).type_names_map().insert((tid as u64, 0, 0), ty)
                    && final(self).last_type() == tid
                &&& !fresh ==> final(self).types_map() == old(self).types_map() && final(self).type_names_map()
                    == old(self).type_names_map() && final(self).last_type() == old(self).last_type()
                &&& eid == old(self).counter_of(tid) + 1
                &&& final(self).counters_map() == old(self).counters_map().insert((tid as u64, 0, 0), eid as u64)
                &&& exists|z: u64|
                    interleaves(z, eid, name_hash_of(label_name_bytes(label.spec_bytes())))
                        && final(self).entities_map() == #[trigger] old(self).entities_map().insert(
                        (tid as u64, z, 0),
                        label_name(label),
                    )
                &&& final(self).same_links(old(self))
            },
            r matches Ok((tid, eid)) ==> entity_created(*old(self), *final(self), label@, tid, eid),
    {
        let (t, n) = match parse_entity_id(label) {
            Ok(p) => p,
            Err(e) => return Err(e),
        };
        let tb = t.as_bytes();
        let internal = tb.len() > 0 && tb[0] == 95u8;
        let ghost g0 = *self;
        let tid = if internal {
            match self.types.get(t) {
                Some(id) => {
                    proof {
                        assert(self.types.map().contains_key(t@));
                    }
                    id as u32
                },
                None => {
                    let id = self.add_type(t);
                    proof {
                        assert forall|i: int| !#[trigger] self.named_at(id, n@, i) by {
                            if self.named_at(id, n@, i) {
                                self.entities.lemma_rows();
                                assert(self.entities.map().contains_key(self.entity_rows()[i].0));
                            }
                        }
                    }
                    id
                },
            }
        } else {
            match self.resolve_type(t) {
                Ok(id) => id,
                Err(e) => return Err(e),
            }
        };
        if self.find_by_name(tid, n).is_some() {
            proof {
                reveal_strlit("Entity '");
                reveal_strlit("' already exists");
            }
            return fail(String::from_str("Entity '").concat(label).concat("' already exists"));
        }
        let cur = match self.counters.get((tid as u64, 0, 0)) {
            Some(c) => c,
            None => 0,
        };
        proof {
            assert(self.counters.map() == old(self).counters.map());
            if old(self).counters_map().contains_key((tid as u64, 0u64, 0u64)) {
                assert(old(self).counters_map()[(tid as u64, 0u64, 0u64)] < u32::MAX);
            }
            assert(cur < u32::MAX);
            assert(cur == old(self).counter_of(tid));
        }
        let eid = (cur + 1) as u32;
        self.counters.insert((tid as u64, 0, 0), cur + 1);
        let z = interleave(eid, name_hash(n));
        self.entities.put((tid as u64, z, 0), n);
        proof {
            assert forall|k: Key| #[trigger] self.counters.map().contains_key(k) implies self.counters.map()[k]
                <= u32::MAX by {
                if k != (tid as u64, 0u64, 0u64) {
                    assert(g0.counters.map().contains_key(k));
                }
            }
            assert forall|k: Key| #[trigger] self.entities.map().contains_key(k) implies k.0 <= self.next_type by {
                if k != (tid as u64, z, 0u64) {
                    assert(old(self).entities.map().contains_key(k));
                }
            }
            assert(self.entities_map() == old(self).entities_map().insert((tid as u64, z, 0), label_name(label)));
            assert(interleaves(z, eid, name_hash_of(label_name_bytes(label.spec_bytes()))));
        }
        Ok((tid, eid))
    }
}

impl Graph {
    /// Deletes entity `(tid, eid)` and cascades: its grants as seeker and as
    /// scope, the delegations it takes part in as seeker, scope or source, and
    /// the capabilities defined on it. Whether the entity existed; a missing
    /// entity changes nothing.
    pub fn delete_entity_in(&mut self, tid: u32, eid: u32) -> (found: bool)
        requires
            old(self).wf(),
        ensures
            final(self).wf(),
            found == old(self).entity_name(tid, eid) is Some,
            !found ==> *final(self) == *old(self),
            found ==> entity_deleted(*old(self), *final(self), tid, eid),
    {
        let i = match self.find_by_id(tid, eid) {
            Some(i) => i,
            None => {
                proof {
                    assert(!exists|i: int| #[trigger] self.id_at(tid, eid, i));
                }
                return false;
            },
        };
        proof {
            self.lemma_first_id(tid, eid, i as int);
        }
        let (key, _) = self.entities.row(i);
        let p = pack_ids(tid, eid);
        self.entities.del(key);
        let ghost g1 = *self;
        self.grants.remove_part(0, p);
        let ghost g2 = *self;
        self.grants.remove_part(1, p);
        proof {
            assert forall|k: Key| #[trigger] opt_get(self.grants_map(), k) == (if k.0 == p || k.1 == p {
                None
            } else {
                opt_get(old(self).grants_map(), k)
            }) by {
                assert(opt_get(self.grants.map(), k) == (if crate::table::key_part(k, 1) == p { None } else { opt_get(g2.grants.map(), k) }));
                assert(opt_get(g2.grants.map(), k) == (if crate::table::key_part(k, 0) == p { None } else { opt_get(g1.grants.map(), k) }));
            }
        }
        let ghost h1 = *self;
        self.inherits.remove_part(0, p);
        let ghost h2 = *self;
        self.inherits.remove_part(1, p);
        let ghost h3 = *self;
        self.inherits.remove_part(2, p);
        proof {
            assert forall|k: Key| #[trigger] opt_get(self.inherits_map(), k) == (if k.0 == p || k.1 == p || k.2 == p {
                None
            } else {
                opt_get(old(self).inherits_map(), k)
            }) by {
                assert(opt_get(self.inherits.map(), k) == (if crate::table::key_part(k, 2) == p { None } else { opt_get(h3.inherits.map(), k) }));
                assert(opt_get(h3.inherits.map(), k) == (if crate::table::key_part(k, 1) == p { None } else { opt_get(h2.inherits.map(), k) }));
                assert(opt_get(h2.inherits.map(), k) == (if crate::table::key_part(k, 0) == p { None } else { opt_get(h1.inherits.map(), k) }));
            }
        }
        self.caps.remove_part(0, p);
        proof {
            assert forall|k: Key| #[trigger] self.entities.map().contains_key(k) implies k.0 <= self.next_type by {
                assert(old(self).entities.map().contains_key(k));
            }
            assert forall|k: Key| #[trigger] self.grants.map().contains_key(k) implies k.2 <= u32::MAX by {
                assert(opt_get(self.grants_map(), k) is Some);
                assert(old(self).grants.map().contains_key(k));
            }
        }
        true
    }

    /// Deletes type `tname` (its name and its id rows) and then the entity
    /// `"_type:<tname>"`, if that resolves; whether the type existed.
    /// Entities of the type are left in place.
    pub fn delete_type_in(&mut self, tname: &str) -> (found: bool)
        requires
            old(self).wf(),
        ensures
            final(self).wf(),
            found == old(self).types_map().contains_key(tname@),
            !found ==> *final(self) == *old(self),
            found ==> exists|mid: Graph|
                #![trigger type_dropped(*old(self), mid, tname@)]
                type_dropped(*old(self), mid, tname@) && match mid.resolved_view("_type:"@ + tname@) {
                    Err(_) => *final(self) == mid,
                    Ok((t, e)) => if mid.entity_name(t, e) is Some {
                        entity_deleted(mid, *final(self), t, e)
                    } else {
                        *final(self) == mid
                    },
                },
    {
        let id = match self.types.get(tname) {
            Some(id) => id,
            None => {
                return false;
            },
        };
        proof {
            assert(self.types.map().contains_key(tname@));
        }
        self.types.del(tname);
        let _ = self.type_names.del((id, 0, 0));
        proof {
            assert forall|n: Seq<char>| #[trigger] self.types.map().contains_key(n) implies self.types.map()[n]
                <= self.next_type by {
                assert(old(self).types.map().contains_key(n));
            }
        }
        let ghost mid = *self;
        proof {
            reveal_strlit("_type:");
        }
        let label = String::from_str("_type:").concat(tname);
        let _ = self.delete_entity_by_label_in(label.as_str());
        assert(type_dropped(*old(self), mid, tname@));
        true
    }

    /// Deletes the entity `label` (and cascades as `delete_entity_in`);
    /// refused when it does not resolve.
    pub fn delete_entity_by_label_in(&mut self, label: &str) -> (r: Result<bool, CapbitError>)
        requires
            old(self).wf(),
        ensures
            final(self).wf(),
            r is Ok <==> old(self).resolved(label) is Ok,
            r matches Err(e) ==> old(self).resolved(label) == Err::<(u32, u32), Seq<char>>(e.message@) && *final(self)
                == *old(self),
            r matches Ok(found) ==> {
                let (t, e) = old(self).resolved(label)->Ok_0;
                &&& found == old(self).entity_name(t, e) is Some
                &&& !found ==> *final(self) == *old(self)
                &&& found ==> entity_deleted(*old(self), *final(self), t, e)
            },
    {
        let (tid, eid) = match self.resolve_entity(label) {
            Ok(p) => p,
            Err(e) => return Err(e),
        };
        Ok(self.delete_entity_in(tid, eid))
    }

    /// Renames entity `(tid, eid)` to `new_name`; its id, and so its grants,
    /// stay. Refused when there is no such entity, or when another entity of
    /// the type has that name.
    pub fn rename_entity_in(&mut self, tid: u32, eid: u32, new_name: &str) -> (r: Result<(), CapbitError>)
        requires
            old(self).wf(),
        ensures
            final(self).wf(),
            old(self).entity_name(tid, eid) is None ==> (r matches Err(e) && e.message@ == "Entity "@ + decimal(
                tid as nat,
            ) + ":"@ + decimal(eid as nat) + " not found"@),
            r is Err ==> *final(self) == *old(self),
            r is Ok ==> exists|i: int, z: u64|
                #![trigger old(self).first_id(tid, eid, i), interleaves(z, eid, name_hash_of(new_name.spec_bytes()))]
                old(self).first_id(tid, eid, i) && interleaves(z, eid, name_hash_of(new_name.spec_bytes()))
                    && (forall|j: int|
                    #![trigger old(self).named_at(tid, new_name@, j)]
                    old(self).named_at(tid, new_name@, j) ==> old(self).entity_rows()[j].0 == old(
                        self,
                    ).entity_rows()[i].0) && final(self).entities_map() == old(self).entities_map().remove(
                    old(self).entity_rows()[i].0,
                ).insert((tid as u64, z, 0), new_name@),
            r is Ok ==> final(self).same_links(old(self)) && final(self).types_map() == old(self).types_map()
                && final(self).type_names_map() == old(self).type_names_map() && final(self).last_type() == old(
                self,
            ).last_type() && final(self).counters_map() == old(self).counters_map(),
            old(self).entity_name(tid, eid) is Some ==> (r is Err <==> exists|j: int|
                #![trigger old(self).named_at(tid, new_name@, j)]
                old(self).named_at(tid, new_name@, j) && old(self).entity_rows()[j].0 != old(self).entity_rows()[
                    choose|i: int| #[trigger] old(self).first_id(tid, eid, i)
                ].0),
            old(self).entity_name(tid, eid) is Some && r is Err ==> (r matches Err(e) && e.message@
                == "Entity name '"@ + new_name@ + "' already exists"@),
    {
        let i = match self.find_by_id(tid, eid) {
            Some(i) => i,
            None => {
                proof {
                    reveal_strlit("Entity ");
                    reveal_strlit(":");
                    reveal_strlit(" not found");
                    assert(!exists|i: int| #[trigger] self.id_at(tid, eid, i));
                }
                return fail(String::from_str("Entity ").concat(decimal_string(tid as u64).as_str()).concat(":").concat(
                    decimal_string(eid as u64).as_str(),
                ).concat(" not found"));
            },
        };
        proof {
            self.lemma_first_id(tid, eid, i as int);
            let c = choose|c: int| #[trigger] self.first_id(tid, eid, c);
            assert(self.first_id(tid, eid, c));
            if c < i {
                assert(!self.id_at(tid, eid, c));
            } else if c > i {
                assert(!self.id_at(tid, eid, i as int));
            }
        }
        let (old_key, _) = self.entities.row(i);
        proof {
            self.entities.lemma_rows();
            assert(self.entities.map().contains_key(old_key));
        }
        let mut j: usize = 0;
        while j < self.entities.len()
            invariant
                self.wf(),
                *self == *old(self),
                j <= self.entity_rows().len(),
                i < self.entity_rows().len(),
                old_key == self.entity_rows()[i as int].0,
                old(self).first_id(tid, eid, i as int),
                old(self).entity_name(tid, eid) is Some,
                (choose|c: int| #[trigger] old(self).first_id(tid, eid, c)) == i,
                forall|q: int|
                    0 <= q < j ==> !(#[trigger] self.named_at(tid, new_name@, q) && self.entity_rows()[q].0 != old_key),
            decreases self.entity_rows().len() - j,
        {
            let (k, n) = self.entities.row(j);
            if k.0 == tid as u64 && str_equal(n.as_str(), new_name) && !crate::table::key_eq(k, old_key) {
                proof {
                    reveal_strlit("Entity name '");
                    reveal_strlit("' already exists");
                    assert(self.named_at(tid, new_name@, j as int));
                }
                return fail(String::from_str("Entity name '").concat(new_name).concat("' already exists"));
            }
            j = j + 1;
        }
        self.entities.del(old_key);
        let z = interleave(eid, name_hash(new_name));
        self.entities.put((tid as u64, z, 0), new_name);
        proof {
            assert forall|k: Key| #[trigger] self.entities.map().contains_key(k) implies k.0 <= self.next_type by {
                if k != (tid as u64, z, 0u64) {
                    assert(old(self).entities.map().contains_key(k));
                } else {
                    assert(old(self).entities.map().contains_key(old_key));
                }
            }
            assert forall|q: int| #[trigger] old(self).named_at(tid, new_name@, q) implies old(self).entity_rows()[q].0
                == old(self).entity_rows()[i as int].0 by {
                assert(!(old(self).named_at(tid, new_name@, q) && old(self).entity_rows()[q].0 != old_key));
            }
        }
        Ok(())
    }
}

/// Two resolutions, in order: the first refusal, or both results.
pub open spec fn both(a: Result<(u32, u32), Seq<char>>, b: Result<(u32, u32), Seq<char>>) -> Result<
    ((u32, u32), (u32, u32)),
    Seq<char>,
> {
    match a {
        Err(m) => Err(m),
        Ok(x) => match b {
            Err(m) => Err(m),
            Ok(y) => Ok((x, y)),
        },
    }
}

/// The refusal text for an empty role label.
pub open spec fn empty_role_message() -> Seq<char> {
    "Role label cannot be empty"@
}

/// A resolution followed by the check that a role label is not empty.
pub open spec fn then_label<A>(r: Result<A, Seq<char>>, label: Seq<char>) -> Result<A, Seq<char>> {
    match r {
        Err(m) => Err(m),
        Ok(x) => if label.len() == 0 {
            Err(empty_role_message())
        } else {
            Ok(x)
        },
    }
}

impl Graph {
    /// The id role `label` has after `resolve_or_create_role`.
    pub open spec fn role_after(&self, label: Seq<char>) -> u32 {
        match self.role_id_of(label) {
            Some(id) => id,
            None => (self.last_role() + 1) as u32,
        }
    }

    /// `other` has the roles of `self` after `resolve_or_create_role(label)`.
    pub open spec fn roles_after(&self, label: Seq<char>, other: &Graph) -> bool {
        if self.role_id_of(label) is Some {
            other.same_roles(self)
        } else {
            let id = self.role_after(label);
            &&& other.last_role() == id
            &&& other.roles_map() == self.roles_map().insert((id as u64, 0, 0), label)
            &&& other.role_ids_map() == self.role_ids_map().insert(label, id as u64)
        }
    }

    /// Grants role `rel_type` (created when new) to `subject` on `object`,
    /// stamped `now`; returns `now`. Refused when either entity does not
    /// resolve.
    pub fn set_relationship_in(&mut self, subject: &str, rel_type: &str, object: &str, now: u64) -> (r: Result<u64, CapbitError>)
        requires
            old(self).wf(),
            old(self).has_room(),
        ensures
            final(self).wf(),
            r is Ok <==> then_label(both(old(self).resolved(subject), old(self).resolved(object)), rel_type@) is Ok,
            r matches Err(e) ==> then_label(both(old(self).resolved(subject), old(self).resolved(object)), rel_type@)
                == Err::<((u32, u32), (u32, u32)), Seq<char>>(e.message@) && *final(self) == *old(self),
            r matches Ok(t) ==> t == now && {
                let (s, o) = both(old(self).resolved(subject), old(self).resolved(object))->Ok_0;
                &&& old(self).roles_after(rel_type@, final(self))
                &&& final(self).grants_map() == old(self).grants_map().insert(
                    (pack(s.0, s.1), pack(o.0, o.1), old(self).role_after(rel_type@) as u64),
                    now,
                )
                &&& final(self).caps_map() == old(self).caps_map()
                &&& final(self).inherits_map() == old(self).inherits_map()
                &&& final(self).same_names(old(self))
            },
            r is Ok ==> relationship_set(*old(self), *final(self), subject@, rel_type@, object@, now),
    {
        let (st, si) = match self.resolve_entity(subject) {
            Ok(p) => p,
            Err(e) => return Err(e),
        };
        let (ot, oi) = match self.resolve_entity(object) {
            Ok(p) => p,
            Err(e) => return Err(e),
        };
        let role = match self.resolve_or_create_role(rel_type) {
            Ok(id) => id,
            Err(e) => return Err(e),
        };
        self.grants.insert((pack_ids(st, si), pack_ids(ot, oi), role as u64), now);
        Ok(now)
    }

    /// Removes the grant of role `rel_type` to `subject` on `object`; whether
    /// it existed. Refused when an entity or the role does not resolve.
    pub fn delete_relationship_in(&mut self, subject: &str, rel_type: &str, object: &str) -> (r: Result<bool, CapbitError>)
        requires
            old(self).wf(),
        ensures
            final(self).wf(),
            r is Ok <==> both(old(self).resolved(subject), old(self).resolved(object)) is Ok && old(self).role_id_of(
                rel_type@,
            ) is Some,
            r is Err ==> *final(self) == *old(self),
            r matches Err(e) ==> (both(old(self).resolved(subject), old(self).resolved(object)) is Err ==> both(
                old(self).resolved(subject),
                old(self).resolved(object),
            ) == Err::<((u32, u32), (u32, u32)), Seq<char>>(e.message@)) && (both(
                old(self).resolved(subject),
                old(self).resolved(object),
            ) is Ok ==> e.message@ == "Role '"@ + rel_type@ + "' not found"@),
            r matches Ok(had) ==> {
                let (s, o) = both(old(self).resolved(subject), old(self).resolved(object))->Ok_0;
                let k = (pack(s.0, s.1), pack(o.0, o.1), old(self).role_id_of(rel_type@)->0 as u64);
                &&& had == old(self).grants_map().contains_key(k)
                &&& final(self).grants_map() == old(self).grants_map().remove(k)
                &&& final(self).caps_map() == old(self).caps_map()
                &&& final(self).inherits_map() == old(self).inherits_map()
                &&& final(self).same_names(old(self))
                &&& final(self).same_roles(old(self))
            },
            r matches Ok(had) ==> relationship_deleted(*old(self), *final(self), subject@, rel_type@, object@, had),
    {
        let (st, si) = match self.resolve_entity(subject) {
            Ok(p) => p,
            Err(e) => return Err(e),
        };
        let (ot, oi) = match self.resolve_entity(object) {
            Ok(p) => p,
            Err(e) => return Err(e),
        };
        let role = match self.resolve_role(rel_type) {
            Ok(r) => r,
            Err(e) => return Err(e),
        };
        let k = (pack_ids(st, si), pack_ids(ot, oi), role as u64);
        let had = self.grants.contains(k);
        self.grants.remove(k);
        Ok(had)
    }

    /// Sets the capability mask of role `rel_type` (created when new) on
    /// `entity`; returns `now`. Refused when the entity does not resolve.
    pub fn set_capability_in(&mut self, entity: &str, rel_type: &str, cap_mask: u64, now: u64) -> (r: Result<u64, CapbitError>)
        requires
            old(self).wf(),
            old(self).has_room(),
        ensures
            final(self).wf(),
            r is Ok <==> then_label(old(self).resolved(entity), rel_type@) is Ok,
            r matches Err(e) ==> then_label(old(self).resolved(entity), rel_type@) == Err::<(u32, u32), Seq<char>>(
                e.message@,
            ) && *final(self) == *old(self),
            r matches Ok(t) ==> t == now && {
                let s = old(self).resolved(entity)->Ok_0;
                &&& old(self).roles_after(rel_type@, final(self))
                &&& final(self).caps_map() == old(self).caps_map().insert(
                    (pack(s.0, s.1), old(self).role_after(rel_type@) as u64, 0),
                    cap_mask,
                )
                &&& final(self).grants_map() == old(self).grants_map()
                &&& final(self).inherits_map() == old(self).inherits_map()
                &&& final(self).same_names(old(self))
            },
            r is Ok ==> capability_set(*old(self), *final(self), entity@, rel_type@, cap_mask),
    {
        let (st, si) = match self.resolve_entity(entity) {
            Ok(p) => p,
            Err(e) => return Err(e),
        };
        let role = match self.resolve_or_create_role(rel_type) {
            Ok(id) => id,
            Err(e) => return Err(e),
        };
        self.caps.insert((pack_ids(st, si), role as u64, 0), cap_mask);
        Ok(now)
    }

    /// Removes the capability of role `rel_type` on `entity`; whether it
    /// existed. Refused when the entity or the role does not resolve.
    pub fn delete_capability_in(&mut self, entity: &str, rel_type: &str) -> (r: Result<bool, CapbitError>)
        requires
            old(self).wf(),
        ensures
            final(self).wf(),
            r is Ok <==> old(self).resolved(entity) is Ok && old(self).role_id_of(rel_type@) is Some,
            r is Err ==> *final(self) == *old(self),
            r matches Ok(had) ==> {
                let s = old(self).resolved(entity)->Ok_0;
                let k = (pack(s.0, s.1), old(self).role_id_of(rel_type@)->0 as u64, 0);
                &&& had == old(self).caps_map().contains_key(k)
                &&& final(self).caps_map() == old(self).caps_map().remove(k)
                &&& final(self).grants_map() == old(self).grants_map()
                &&& final(self).inherits_map() == old(self).inherits_map()
                &&& final(self).same_names(old(self))
                &&& final(self).same_roles(old(self))
            },
    {
        let (st, si) = match self.resolve_entity(entity) {
            Ok(p) => p,
            Err(e) => return Err(e),
        };
        let role = match self.resolve_role(rel_type) {
            Ok(r) => r,
            Err(e) => return Err(e),
        };
        let k = (pack_ids(st, si), role as u64, 0);
        let had = self.caps.contains(k);
        self.caps.remove(k);
        Ok(had)
    }

    /// The key of a delegation of the rights of the entity labelled `source`
    /// on `object` to `subject`, once all three resolve.
    pub open spec fn delegation_key_view(&self, subject: Seq<char>, object: Seq<char>, source: Seq<char>) -> Result<
        Key,
        Seq<char>,
    > {
        match both(self.resolved_view(subject), self.resolved_view(object)) {
            Err(m) => Err(m),
            Ok((s, o)) => match self.resolved_view(source) {
                Err(m) => Err(m),
                Ok(c) => Ok((pack(s.0, s.1), pack(o.0, o.1), pack(c.0, c.1))),
            },
        }
    }

    /// The key of a delegation of `source`'s rights on `object` to `subject`,
    /// once all three resolve.
    pub open spec fn delegation_key(&self, subject: &str, object: &str, source: &str) -> Result<Key, Seq<char>> {
        self.delegation_key_view(subject@, object@, source@)
    }

    /// Records that `subject` inherits on `object` what `source` holds there,
    /// stamped `now`; returns `now`. Refused when an entity does not resolve.
    pub fn set_inheritance_in(&mut self, subject: &str, object: &str, source: &str, now: u64) -> (r: Result<u64, CapbitError>)
        requires
            old(self).wf(),
        ensures
            final(self).wf(),
            r is Ok <==> old(self).delegation_key(subject, object, source) is Ok,
            r matches Err(e) ==> old(self).delegation_key(subject, object, source) == Err::<Key, Seq<char>>(e.message@)
                && *final(self) == *old(self),
            r matches Ok(t) ==> t == now && final(self).inherits_map() == old(self).inherits_map().insert(
                old(self).delegation_key(subject, object, source)->Ok_0,
                now,
            ) && final(self).grants_map() == old(self).grants_map() && final(self).caps_map() == old(self).caps_map()
                && final(self).same_names(old(self)) && final(self).same_roles(old(self)),
            r is Ok ==> inheritance_set(*old(self), *final(self), subject@, object@, source@, now),
    {
        let (st, si) = match self.resolve_entity(subject) {
            Ok(p) => p,
            Err(e) => return Err(e),
        };
        let (ot, oi) = match self.resolve_entity(object) {
            Ok(p) => p,
            Err(e) => return Err(e),
        };
        let (ct, ci) = match self.resolve_entity(source) {
            Ok(p) => p,
            Err(e) => return Err(e),
        };
        self.inherits.insert((pack_ids(st, si), pack_ids(ot, oi), pack_ids(ct, ci)), now);
        Ok(now)
    }

    /// Removes a delegation; whether it existed. Refused when an entity does
    /// not resolve.
    pub fn delete_inheritance_in(&mut self, subject: &str, object: &str, source: &str) -> (r: Result<bool, CapbitError>)
        requires
            old(self).wf(),
        ensures
            final(self).wf(),
            r is Ok <==> old(self).delegation_key(subject, object, source) is Ok,
            r matches Err(e) ==> old(self).delegation_key(subject, object, source) == Err::<Key, Seq<char>>(e.message@)
                && *final(self) == *old(self),
            r matches Ok(had) ==> had == old(self).inherits_map().contains_key(
                old(self).delegation_key(subject, object, source)->Ok_0,
            ) && final(self).inherits_map() == old(self).inherits_map().remove(
                old(self).delegation_key(subject, object, source)->Ok_0,
            ) && final(self).grants_map() == old(self).grants_map() && final(self).caps_map() == old(self).caps_map()
                && final(self).same_names(old(self)) && final(self).same_roles(old(self)),
            r matches Ok(had) ==> inheritance_deleted(*old(self), *final(self), subject@, object@, source@, had),
    {
        let (st, si) = match self.resolve_entity(subject) {
            Ok(p) => p,
            Err(e) => return Err(e),
        };
        let (ot, oi) = match self.resolve_entity(object) {
            Ok(p) => p,
            Err(e) => return Err(e),
        };
        let (ct, ci) = match self.resolve_entity(source) {
            Ok(p) => p,
            Err(e) => return Err(e),
        };
        let k = (pack_ids(st, si), pack_ids(ot, oi), pack_ids(ct, ci));
        let had = self.inherits.contains(k);
        self.inherits.remove(k);
        Ok(had)
    }
}

impl Graph {
    /// Labels capability bit `cap_bit` (its low 32 bits) on `entity`.
    /// Refused when the entity does not resolve.
    pub fn set_cap_label_in(&mut self, entity: &str, cap_bit: u64, label: &str) -> (r: Result<(), CapbitError>)
        requires
            old(self).wf(),
        ensures
            final(self).wf(),
            r is Ok <==> old(self).resolved(entity) is Ok,
            r matches Err(e) ==> old(self).resolved(entity) == Err::<(u32, u32), Seq<char>>(e.message@) && *final(self)
                == *old(self),
            r is Ok ==> {
                let s = old(self).resolved(entity)->Ok_0;
                &&& final(self).cap_labels_map() == old(self).cap_labels_map().insert(
                    (pack(s.0, s.1), cap_bit as u32 as u64, 0),
                    label@,
                )
                &&& final(self).same_links_but_labels(old(self))
            },
    {
        let (st, si) = match self.resolve_entity(entity) {
            Ok(p) => p,
            Err(e) => return Err(e),
        };
        self.cap_labels.put((pack_ids(st, si), cap_bit as u32 as u64, 0), label);
        Ok(())
    }

    /// Removes the label of capability bit `cap_bit` on `entity`; whether
    /// there was one. Refused when the entity does not resolve.
    pub fn delete_cap_label_in(&mut self, entity: &str, cap_bit: u64) -> (r: Result<bool, CapbitError>)
        requires
            old(self).wf(),
        ensures
            final(self).wf(),
            r is Ok <==> old(self).resolved(entity) is Ok,
            r matches Err(e) ==> old(self).resolved(entity) == Err::<(u32, u32), Seq<char>>(e.message@) && *final(self)
                == *old(self),
            r matches Ok(had) ==> {
                let s = old(self).resolved(entity)->Ok_0;
                let k = (pack(s.0, s.1), cap_bit as u32 as u64, 0);
                &&& had == old(self).cap_labels_map().contains_key(k)
                &&& final(self).cap_labels_map() == old(self).cap_labels_map().remove(k)
                &&& final(self).same_links_but_labels(old(self))
            },
    {
        let (st, si) = match self.resolve_entity(entity) {
            Ok(p) => p,
            Err(e) => return Err(e),
        };
        Ok(self.cap_labels.del((pack_ids(st, si), cap_bit as u32 as u64, 0)))
    }

    /// Everything but the capability labels is as in `other`.
    pub open spec fn same_links_but_labels(&self, other: &Graph) -> bool {
        &&& self.same_roles(other)
        &&& self.grants_map() == other.grants_map()
        &&& self.caps_map() == other.caps_map()
        &&& self.inherits_map() == other.inherits_map()
        &&& self.types_map() == other.types_map()
        &&& self.type_names_map() == other.type_names_map()
        &&& self.last_type() == other.last_type()
        &&& self.entities_map() == other.entities_map()
        &&& self.entity_rows() == other.entity_rows()
        &&& self.counters_map() == other.counters_map()
    }

    /// The label of capability bit `cap_bit` (its low 32 bits) on `entity`.
    pub fn get_cap_label_in(&self, entity: &str, cap_bit: u64) -> (r: Result<Option<String>, CapbitError>)
        requires
            self.wf(),
        ensures
            r is Ok <==> self.resolved(entity) is Ok,
            r matches Err(e) ==> self.resolved(entity) == Err::<(u32, u32), Seq<char>>(e.message@),
            r matches Ok(l) ==> {
                let s = self.resolved(entity)->Ok_0;
                let k = (pack(s.0, s.1), cap_bit as u32 as u64, 0);
                &&& l is Some <==> self.cap_labels_map().contains_key(k)
                &&& l matches Some(t) ==> t@ == self.cap_labels_map()[k]
            },
    {
        let (st, si) = match self.resolve_entity(entity) {
            Ok(p) => p,
            Err(e) => return Err(e),
        };
        Ok(self.cap_labels.get((pack_ids(st, si), cap_bit as u32 as u64, 0)))
    }

    /// The capability mask of role `rel_type` on `entity`; `None` when the
    /// role is unknown or has no mask there. Refused when the entity does not
    /// resolve.
    pub fn get_capability_in(&self, entity: &str, rel_type: &str) -> (r: Result<Option<u64>, CapbitError>)
        requires
            self.wf(),
        ensures
            r is Ok <==> self.resolved(entity) is Ok,
            r matches Err(e) ==> self.resolved(entity) == Err::<(u32, u32), Seq<char>>(e.message@),
            r matches Ok(m) ==> {
                let s = self.resolved(entity)->Ok_0;
                m == match self.role_id_of(rel_type@) {
                    None => None,
                    Some(role) => opt_get(self.caps_map(), (pack(s.0, s.1), role as u64, 0)),
                }
            },
    {
        let (st, si) = match self.resolve_entity(entity) {
            Ok(p) => p,
            Err(e) => return Err(e),
        };
        let role = match self.resolve_role(rel_type) {
            Ok(id) => id,
            Err(_) => return Ok(None),
        };
        Ok(self.caps.get((pack_ids(st, si), role as u64, 0)))
    }
}

/// The delegation rows of seeker `x` on scope `po`.
pub open spec fn on_scope(e: (Key, u64), x: u64, po: u64) -> bool {
    e.0.0 == x && e.0.1 == po
}

/// Rows on scope `po` whose seeker is not in `visited`.
pub open spec fn unvisited_on(visited: Set<u64>, po: u64) -> spec_fn((Key, u64)) -> bool {
    |e: (Key, u64)| !visited.contains(e.0.0) && e.0.1 == po
}

/// Rows of seeker `x` on scope `po`.
pub open spec fn scope_rows(x: u64, po: u64) -> spec_fn((Key, u64)) -> bool {
    |e: (Key, u64)| on_scope(e, x, po)
}

/// How many delegation rows on scope `po` have a seeker not yet visited.
pub open spec fn pending(rows: Seq<(Key, u64)>, visited: Set<u64>, po: u64) -> nat {
    rows.filter(unvisited_on(visited, po)).len()
}

/// The sources `x` inherits from on scope `po`, in row order, each at depth `d`.
pub open spec fn children(rows: Seq<(Key, u64)>, x: u64, po: u64, d: usize) -> Seq<(u64, usize)> {
    rows.filter(scope_rows(x, po)).map_values(|e: (Key, u64)| (e.0.2, d))
}

/// Visiting `x` removes its rows on the scope from the pending ones.
pub proof fn lemma_pending_visit(rows: Seq<(Key, u64)>, visited: Set<u64>, po: u64, x: u64)
    requires
        !visited.contains(x),
    ensures
        pending(rows, visited, po) == pending(rows, visited.insert(x), po) + rows.filter(scope_rows(x, po)).len(),
    decreases rows.len(),
{
    let p1 = unvisited_on(visited, po);
    let p2 = unvisited_on(visited.insert(x), po);
    let p3 = scope_rows(x, po);
    if rows.len() == 0 {
        assert(rows.filter(p1) =~= Seq::<(Key, u64)>::empty());
        assert(rows.filter(p2) =~= Seq::<(Key, u64)>::empty());
        assert(rows.filter(p3) =~= Seq::<(Key, u64)>::empty());
    } else {
        let init = rows.drop_last();
        let e = rows.last();
        lemma_pending_visit(init, visited, po, x);
        assert(init.push(e) =~= rows);
        init.lemma_filter_push(e, p1);
        init.lemma_filter_push(e, p2);
        init.lemma_filter_push(e, p3);
        if p1(e) {
            if e.0.0 == x {
                assert(p3(e) && !p2(e));
            } else {
                assert(p2(e) && !p3(e));
            }
        } else {
            assert(!p2(e));
            if p3(e) {
                assert(visited.contains(e.0.0) || e.0.1 != po);
                assert(false);
            }
        }
    }
}

/// The bits grant row `e` adds for seeker `x`: the mask of its role on its
/// scope, when that scope is `po` or the type scope `ts`; else nothing.
pub open spec fn grant_bits(caps: Map<Key, u64>, e: (Key, u64), x: u64, po: u64, ts: Option<u64>) -> Option<u64> {
    if e.0.0 == x && (e.0.1 == po || ts == Some(e.0.1)) {
        Some(or_else(opt_get(caps, (e.0.1, e.0.2, 0)), 0))
    } else {
        None
    }
}

/// `acc` united with the bits the grant rows add for seeker `x`, in row order.
pub open spec fn grant_union(caps: Map<Key, u64>, rows: Seq<(Key, u64)>, acc: u64, x: u64, po: u64, ts: Option<u64>) -> u64
    decreases rows.len(),
{
    if rows.len() == 0 {
        acc
    } else {
        let prev = grant_union(caps, rows.drop_last(), acc, x, po, ts);
        match grant_bits(caps, rows.last(), x, po, ts) {
            Some(b) => prev | b,
            None => prev,
        }
    }
}

impl Graph {
    /// The depth-first walk of `check_access` from `stack`: pop a seeker; if
    /// already visited skip it, else unite its grant bits into `acc`, mark it
    /// visited, and (below depth `limit`) push the sources it inherits from on
    /// the scope, in row order. The result is `acc` once the stack is empty.
    pub open spec fn walk(
        &self,
        po: u64,
        ts: Option<u64>,
        limit: usize,
        stack: Seq<(u64, usize)>,
        visited: Set<u64>,
        acc: u64,
    ) -> u64
        decreases stack.len() + pending(self.inherit_rows(), visited, po),
    {
        if stack.len() == 0 {
            acc
        } else {
            let (x, d) = stack.last();
            let rest = stack.drop_last();
            if visited.contains(x) {
                self.walk(po, ts, limit, rest, visited, acc)
            } else {
                let acc2 = grant_union(self.caps_map(), self.grant_rows(), acc, x, po, ts);
                let kids = if d < limit {
                    children(self.inherit_rows(), x, po, (d + 1) as usize)
                } else {
                    Seq::<(u64, usize)>::empty()
                };
                proof {
                    lemma_pending_visit(self.inherit_rows(), visited, po, x);
                }
                self.walk(po, ts, limit, rest + kids, visited.insert(x), acc2)
            }
        }
    }
}

/// The bytes of `"_type:"`.
pub open spec fn type_prefix() -> Seq<u8> {
    seq![95u8, 116u8, 121u8, 112u8, 101u8, 58u8]
}

impl Graph {
    /// The type scope checked besides the object labelled `c`: the entity
    /// `"_type:<type>"` of the object's type, when the object is not itself
    /// such an entity and that entity resolves.
    pub open spec fn type_scope_view(&self, c: Seq<char>) -> Option<u64> {
        let b = encode_utf8(c);
        if type_prefix().is_prefix_of(b) {
            None
        } else {
            match self.resolved_view("_type:"@ + decode_utf8(label_type_bytes(b))) {
                Ok(p) => Some(pack(p.0, p.1)),
                Err(_) => None,
            }
        }
    }

    /// The type scope checked besides `object`.
    pub open spec fn type_scope(&self, object: &str) -> Option<u64> {
        self.type_scope_view(object@)
    }

    /// What `check_access` gives for the labels `subject` and `object`, with
    /// depth limit `limit`: the refusal text, or the effective mask.
    pub open spec fn access_view(&self, subject: Seq<char>, object: Seq<char>, limit: usize) -> Result<u64, Seq<char>> {
        match both(self.resolved_view(subject), self.resolved_view(object)) {
            Err(m) => Err(m),
            Ok((s, o)) => Ok(
                self.walk(
                    pack(o.0, o.1),
                    self.type_scope_view(object),
                    limit,
                    seq![(pack(s.0, s.1), 0usize)],
                    Set::<u64>::empty(),
                    0,
                ),
            ),
        }
    }

    fn grant_bits_of(&self, x: u64, po: u64, ts: Option<u64>, acc0: u64) -> (acc: u64)
        requires
            self.wf(),
        ensures
            acc == grant_union(self.caps_map(), self.grant_rows(), acc0, x, po, ts),
    {
        let mut acc = acc0;
        let mut i: usize = 0;
        while i < self.grants.len()
            invariant
                self.wf(),
                i <= self.grant_rows().len(),
                acc == grant_union(self.caps_map(), self.grant_rows().take(i as int), acc0, x, po, ts),
            decreases self.grant_rows().len() - i,
        {
            let (k, v) = self.grants.row(i);
            let hit = k.0 == x && (k.1 == po || match ts {
                Some(t) => k.1 == t,
                None => false,
            });
            proof {
                let rows = self.grant_rows();
                assert(rows.take(i + 1).drop_last() =~= rows.take(i as int));
                assert(rows.take(i + 1).last() == (k, v));
            }
            if hit {
                let m = match self.caps.get((k.1, k.2, 0)) {
                    Some(m) => m,
                    None => 0,
                };
                acc = acc | m;
            }
            i = i + 1;
        }
        assert(self.grant_rows().take(i as int) =~= self.grant_rows());
        acc
    }

    fn push_children(&self, stack: &mut Vec<(u64, usize)>, x: u64, po: u64, d: usize)
        requires
            self.wf(),
        ensures
            final(stack)@ == old(stack)@ + children(self.inherit_rows(), x, po, d),
    {
        let mut j: usize = 0;
        let f = |e: (Key, u64)| (e.0.2, d);
        while j < self.inherits.len()
            invariant
                self.wf(),
                j <= self.inherit_rows().len(),
                stack@ == old(stack)@ + self.inherit_rows().take(j as int).filter(scope_rows(x, po)).map_values(
                    |e: (Key, u64)| (e.0.2, d),
                ),
            decreases self.inherit_rows().len() - j,
        {
            let (k, v) = self.inherits.row(j);
            proof {
                let rows = self.inherit_rows();
                assert(rows.take(j + 1) =~= rows.take(j as int).push((k, v)));
                rows.take(j as int).lemma_filter_push((k, v), scope_rows(x, po));
            }
            if k.0 == x && k.1 == po {
                let ghost before = stack@;
                stack.push((k.2, d));
                proof {
                    let rows = self.inherit_rows();
                    let fl = rows.take(j as int).filter(scope_rows(x, po));
                    assert(fl.push((k, v)).map_values(|e: (Key, u64)| (e.0.2, d)) =~= fl.map_values(
                        |e: (Key, u64)| (e.0.2, d),
                    ).push((k.2, d)));
                    assert(stack@ =~= old(stack)@ + rows.take(j + 1).filter(scope_rows(x, po)).map_values(
                        |e: (Key, u64)| (e.0.2, d),
                    ));
                }
            }
            j = j + 1;
        }
        assert(self.inherit_rows().take(j as int) =~= self.inherit_rows());
    }

    /// The capability mask `subject` effectively holds on `object`. Walks
    /// depth first from `subject` through the delegations on `object` (to a
    /// depth of `max_depth`, 100 by default, visiting each seeker once), and
    /// unites the masks of the roles each visited seeker is granted on
    /// `object`, or on the type entity `"_type:<type>"` of `object`. Refused
    /// when `subject` or `object` does not resolve.
    pub fn check_access_in(&self, subject: &str, object: &str, max_depth: Option<usize>) -> (r: Result<u64, CapbitError>)
        requires
            self.wf(),
        ensures
            r is Ok <==> both(self.resolved(subject), self.resolved(object)) is Ok,
            r matches Err(e) ==> both(self.resolved(subject), self.resolved(object)) == Err::<((u32, u32), (u32, u32)), Seq<char>>(e.message@),
            r matches Ok(mask) ==> {
                let (s, o) = both(self.resolved(subject), self.resolved(object))->Ok_0;
                let limit = match max_depth {
                    Some(d) => d,
                    None => 100usize,
                };
                mask == self.walk(
                    pack(o.0, o.1),
                    self.type_scope(object),
                    limit,
                    seq![(pack(s.0, s.1), 0usize)],
                    Set::<u64>::empty(),
                    0,
                )
            },
            r matches Ok(mask) ==> self.access_view(subject@, object@, or_else(max_depth, 100usize)) == Ok::<u64, Seq<char>>(mask),
            r matches Err(e) ==> self.access_view(subject@, object@, or_else(max_depth, 100usize)) == Err::<u64, Seq<char>>(e.message@),
    {
        let (st, si) = match self.resolve_entity(subject) {
            Ok(p) => p,
            Err(e) => return Err(e),
        };
        let (ot, oi) = match self.resolve_entity(object) {
            Ok(p) => p,
            Err(e) => return Err(e),
        };
        let limit = match max_depth {
            Some(d) => d,
            None => 100,
        };
        let ps = pack_ids(st, si);
        let po = pack_ids(ot, oi);
        let prefix: [u8; 6] = [95, 116, 121, 112, 101, 58];
        assert(prefix@ =~= type_prefix());
        let ob = object.as_bytes();
        let is_type_obj = ob.len() >= 6 && crate::text::bytes_equal(vstd::slice::slice_subrange(ob, 0, 6), &prefix);
        proof {
            if ob@.len() >= 6 {
                assert(ob@.subrange(0, 6) == type_prefix() <==> type_prefix().is_prefix_of(ob@));
            }
        }
        let ts: Option<u64> = if is_type_obj {
            None
        } else {
            match parse_entity_id(object) {
                Ok((t, _)) => {
                    proof {
                        reveal_strlit("_type:");
                    }
                    let label = String::from_str("_type:").concat(t);
                    match self.resolve_entity(label.as_str()) {
                        Ok((a, b)) => Some(pack_ids(a, b)),
                        Err(_) => None,
                    }
                },
                Err(_) => {
                    proof {
                        assert(false);
                    }
                    None
                },
            }
        };
        assert(ts == self.type_scope(object));
        let mut acc: u64 = 0;
        let mut visited: Vec<u64> = Vec::new();
        let ghost mut vis: Set<u64> = Set::empty();
        let mut stack: Vec<(u64, usize)> = Vec::new();
        stack.push((ps, 0));
        let ghost target = self.walk(po, ts, limit, stack@, vis, acc);
        assert(stack@ =~= seq![(ps, 0usize)]);
        while stack.len() > 0
            invariant
                self.wf(),
                target == self.walk(po, ts, limit, stack@, vis, acc),
                forall|y: u64| visited@.contains(y) <==> vis.contains(y),
            decreases stack@.len() + pending(self.inherit_rows(), vis, po),
        {
            let ghost before = stack@;
            let (x, d) = match stack.pop() {
                Some(e) => e,
                None => {
                    proof {
                        assert(false);
                    }
                    (0, 0)
                },
            };
            proof {
                assert(before.last() == (x, d));
                assert(stack@ == before.drop_last());
            }
            if !crate::capbit::vec_contains(&visited, x) {
                proof {
                    lemma_pending_visit(self.inherit_rows(), vis, po, x);
                }
                let ghost vbefore = visited@;
                visited.push(x);
                acc = self.grant_bits_of(x, po, ts, acc);
                if d < limit {
                    self.push_children(&mut stack, x, po, d + 1);
                } else {
                    assert(stack@ =~= stack@ + Seq::<(u64, usize)>::empty());
                }
                proof {
                    let vis0 = vis;
                    vis = vis.insert(x);
                    assert(visited@ == vbefore.push(x));
                    assert forall|y: u64| visited@.contains(y) <==> vis.contains(y) by {
                        if y == x {
                            assert(visited@[vbefore.len() as int] == x);
                        } else {
                            if vbefore.contains(y) {
                                let q = choose|q: int| 0 <= q < vbefore.len() && vbefore[q] == y;
                                assert(visited@[q] == y);
                            }
                            if visited@.contains(y) {
                                let q = choose|q: int| 0 <= q < visited@.len() && visited@[q] == y;
                                assert(q < vbefore.len());
                                assert(vbefore[q] == y);
                            }
                            assert(vbefore.contains(y) <==> vis0.contains(y));
                        }
                    }
                }
            }
        }
        Ok(acc)
    }
}

impl Graph {
    /// Same contents, part by part.
    pub open spec fn same_state(&self, other: &Graph) -> bool {
        &&& self.types_map() == other.types_map()
        &&& self.type_names_map() == other.type_names_map()
        &&& self.type_name_rows() == other.type_name_rows()
        &&& self.last_type() == other.last_type()
        &&& self.entities_map() == other.entities_map()
        &&& self.entity_rows() == other.entity_rows()
        &&& self.counters_map() == other.counters_map()
        &&& self.roles_map() == other.roles_map()
        &&& self.role_ids_map() == other.role_ids_map()
        &&& self.last_role() == other.last_role()
        &&& self.grant_rows() == other.grant_rows()
        &&& self.grants_map() == other.grants_map()
        &&& self.cap_rows() == other.cap_rows()
        &&& self.caps_map() == other.caps_map()
        &&& self.inherit_rows() == other.inherit_rows()
        &&& self.inherits_map() == other.inherits_map()
        &&& self.cap_labels_map() == other.cap_labels_map()
        &&& self.cap_label_rows() == other.cap_label_rows()
    }

    /// A copy of the graph.
    pub fn duplicate(&self) -> (g: Self)
        requires
            self.wf(),
        ensures
            g.wf(),
            g.same_state(self),
    {
        let g = Graph {
            types: self.types.duplicate(),
            type_names: self.type_names.duplicate(),
            next_type: self.next_type,
            entities: self.entities.duplicate(),
            counters: self.counters.duplicate(),
            roles: self.roles.duplicate(),
            role_ids: self.role_ids.duplicate(),
            next_role: self.next_role,
            grants: self.grants.duplicate(),
            caps: self.caps.duplicate(),
            inherits: self.inherits.duplicate(),
            cap_labels: self.cap_labels.duplicate(),
        };
        assert(g.types.map() == self.types.map());
        assert(g.counters.map() == self.counters.map());
        assert(g.entities.map() == self.entities.map());
        assert(g.role_ids.map() == self.role_ids.map());
        assert(g.roles.map() == self.roles.map());
        assert(g.grants.map() == self.grants.map());
        g
    }
}

/// One write of a batch.
#[derive(Debug, Clone)]
pub enum WriteOp {
    /// Grant a role to a seeker on a scope.
    SetRelationship { subject: String, rel_type: String, object: String },
    /// Remove a grant.
    DeleteRelationship { subject: String, rel_type: String, object: String },
    /// Set the capability mask of a role on an entity.
    SetCapability { entity: String, rel_type: String, cap_mask: u64 },
    /// Add a delegation.
    SetInheritance { subject: String, object: String, source: String },
    /// Remove a delegation.
    DeleteInheritance { subject: String, object: String, source: String },
    /// Label a capability bit on an entity.
    SetCapLabel { entity: String, cap_bit: u64, label: String },
}

/// Why `op` is refused on `g`, if it is.
#[verifier::opaque]
pub open spec fn op_refusal(g: Graph, op: WriteOp) -> Option<Seq<char>> {
    match op {
        WriteOp::SetRelationship { subject, rel_type, object } => match then_label(
            both(g.resolved_view(subject@), g.resolved_view(object@)),
            rel_type@,
        ) {
            Err(m) => Some(m),
            Ok(_) => None,
        },
        WriteOp::DeleteRelationship { subject, rel_type, object } => match both(
            g.resolved_view(subject@),
            g.resolved_view(object@),
        ) {
            Err(m) => Some(m),
            Ok(_) => if g.role_id_of(rel_type@) is None {
                Some("Role '"@ + rel_type@ + "' not found"@)
            } else {
                None
            },
        },
        WriteOp::SetCapability { entity, rel_type, cap_mask } => match then_label(g.resolved_view(entity@), rel_type@) {
            Err(m) => Some(m),
            Ok(_) => None,
        },
        WriteOp::SetInheritance { subject, object, source } => match g.delegation_key_view(
            subject@,
            object@,
            source@,
        ) {
            Err(m) => Some(m),
            Ok(_) => None,
        },
        WriteOp::DeleteInheritance { subject, object, source } => match g.delegation_key_view(
            subject@,
            object@,
            source@,
        ) {
            Err(m) => Some(m),
            Ok(_) => None,
        },
        WriteOp::SetCapLabel { entity, cap_bit, label } => match g.resolved_view(entity@) {
            Err(m) => Some(m),
            Ok(_) => None,
        },
    }
}

/// `post` is `pre` after `op` succeeded, at time `now`.
#[verifier::opaque]
pub open spec fn op_applied(pre: Graph, post: Graph, op: WriteOp, now: u64) -> bool {
    match op {
        WriteOp::SetRelationship { subject, rel_type, object } => {
            let (s, o) = both(pre.resolved_view(subject@), pre.resolved_view(object@))->Ok_0;
            &&& pre.roles_after(rel_type@, &post)
            &&& post.grants_map() == pre.grants_map().insert(
                (pack(s.0, s.1), pack(o.0, o.1), pre.role_after(rel_type@) as u64),
                now,
            )
            &&& post.caps_map() == pre.caps_map()
            &&& post.inherits_map() == pre.inherits_map()
            &&& post.same_names(&pre)
        },
        WriteOp::DeleteRelationship { subject, rel_type, object } => {
            let (s, o) = both(pre.resolved_view(subject@), pre.resolved_view(object@))->Ok_0;
            let k = (pack(s.0, s.1), pack(o.0, o.1), pre.role_id_of(rel_type@)->0 as u64);
            &&& post.grants_map() == pre.grants_map().remove(k)
            &&& post.caps_map() == pre.caps_map()
            &&& post.inherits_map() == pre.inherits_map()
            &&& post.same_names(&pre)
            &&& post.same_roles(&pre)
        },
        WriteOp::SetCapability { entity, rel_type, cap_mask } => {
            let s = pre.resolved_view(entity@)->Ok_0;
            &&& pre.roles_after(rel_type@, &post)
            &&& post.caps_map() == pre.caps_map().insert((pack(s.0, s.1), pre.role_after(rel_type@) as u64, 0), cap_mask)
            &&& post.grants_map() == pre.grants_map()
            &&& post.inherits_map() == pre.inherits_map()
            &&& post.same_names(&pre)
        },
        WriteOp::SetInheritance { subject, object, source } => {
            &&& post.inherits_map() == pre.inherits_map().insert(
                pre.delegation_key_view(subject@, object@, source@)->Ok_0,
                now,
            )
            &&& post.grants_map() == pre.grants_map()
            &&& post.caps_map() == pre.caps_map()
            &&& post.same_names(&pre)
            &&& post.same_roles(&pre)
        },
        WriteOp::DeleteInheritance { subject, object, source } => {
            &&& post.inherits_map() == pre.inherits_map().remove(pre.delegation_key_view(subject@, object@, source@)->Ok_0)
            &&& post.grants_map() == pre.grants_map()
            &&& post.caps_map() == pre.caps_map()
            &&& post.same_names(&pre)
            &&& post.same_roles(&pre)
        },
        WriteOp::SetCapLabel { entity, cap_bit, label } => {
            let s = pre.resolved_view(entity@)->Ok_0;
            &&& post.cap_labels_map() == pre.cap_labels_map().insert((pack(s.0, s.1), cap_bit as u32 as u64, 0), label@)
            &&& post.same_links_but_labels(&pre)
        },
    }
}

/// Write `i` of `ops` is accepted in `states[i]` and leads to `states[i + 1]`.
pub open spec fn step_ok(states: Seq<Graph>, ops: Seq<WriteOp>, now: u64, i: int) -> bool {
    &&& op_refusal(states[i], ops[i]) is None
    &&& op_applied(states[i], states[i + 1], ops[i], now)
}

/// `states` runs the first `k` ops of `ops` from `states[0]`, each accepted.
pub open spec fn runs(states: Seq<Graph>, ops: Seq<WriteOp>, now: u64, k: int) -> bool {
    &&& 0 <= k <= ops.len()
    &&& states.len() == k + 1
    &&& forall|i: int| 0 <= i < k ==> #[trigger] step_ok(states, ops, now, i)
}

/// Room for `n` more roles, and ids for types and entities left.
pub open spec fn room_for(g: Graph, n: nat) -> bool {
    &&& g.last_type() < u32::MAX
    &&& g.last_role() + n < u32::MAX
    &&& forall|k: Key| #[trigger] g.counters_map().contains_key(k) ==> g.counters_map()[k] < u32::MAX
}

impl Graph {
    /// Whether the id counters leave room for `n` more roles and for more
    /// types and entities: what the batch writes ask before they run.
    pub fn has_room_for(&self, n: usize) -> (b: bool)
        requires
            self.wf(),
        ensures
            b == room_for(*self, n as nat),
    {
        if self.next_type >= u32::MAX {
            return false;
        }
        if n as u64 >= (u32::MAX - self.next_role) as u64 {
            return false;
        }
        proof {
            self.counters.lemma_sorted();
        }
        let mut i: usize = 0;
        while i < self.counters.len()
            invariant
                self.counters.wf(),
                sorted(self.counters@),
                i <= self.counters@.len(),
                forall|j: int| 0 <= j < i ==> (#[trigger] self.counters@[j]).1 < u32::MAX,
            decreases self.counters@.len() - i,
        {
            let (k, v) = self.counters.row(i);
            if v >= u32::MAX as u64 {
                proof {
                    let rows = self.counters@;
                    assert(self.counters_map().contains_key(k));
                    let j = choose|j: int| 0 <= j < rows.len() && #[trigger] rows[j].0 == k;
                    Table::<u64>::lemma_sorted_unique(rows, i as int, j);
                }
                return false;
            }
            i = i + 1;
        }
        proof {
            assert forall|k: Key| #[trigger] self.counters_map().contains_key(k) implies self.counters_map()[k] < u32::MAX by {
                let rows = self.counters@;
                let j = choose|j: int| 0 <= j < rows.len() && #[trigger] rows[j].0 == k;
                assert(rows[j].1 < u32::MAX);
            }
        }
        true
    }
}

/// A write keeps the type and entity counters, and adds at most one role.
pub proof fn lemma_op_bounds(pre: Graph, post: Graph, op: WriteOp, now: u64)
    requires
        op_applied(pre, post, op, now),
    ensures
        post.last_type() == pre.last_type(),
        post.counters_map() == pre.counters_map(),
        post.last_role() <= pre.last_role() + 1,
{
    reveal(op_applied);
}

/// Extending a run by one accepted write.
pub proof fn lemma_run_step(states: Seq<Graph>, ops: Seq<WriteOp>, now: u64, k: int, post: Graph)
    requires
        runs(states, ops, now, k),
        k < ops.len(),
        op_refusal(states[k], ops[k]) is None,
        op_applied(states[k], post, ops[k], now),
    ensures
        runs(states.push(post), ops, now, k + 1),
{
    let s2 = states.push(post);
    assert forall|j: int| 0 <= j < k + 1 implies #[trigger] step_ok(s2, ops, now, j) by {
        assert(s2[j] == states[j]);
        if j < k {
            assert(s2[j + 1] == states[j + 1]);
            assert(step_ok(states, ops, now, j));
        } else {
            assert(s2[j + 1] == post);
        }
    }
    assert(s2.len() == k + 2);
}

/// Applies one write.
pub fn apply_op(g: &mut Graph, op: &WriteOp, now: u64) -> (r: Result<(), CapbitError>)
    requires
        old(g).wf(),
        old(g).has_room(),
    ensures
        final(g).wf(),
        match op_refusal(*old(g), *op) {
            Some(m) => r matches Err(e) && e.message@ == m && *final(g) == *old(g),
            None => r is Ok && op_applied(*old(g), *final(g), *op, now),
        },
{
    reveal(op_applied);
    reveal(op_refusal);
    match op {
        WriteOp::SetRelationship { subject, rel_type, object } => {
            match g.set_relationship_in(subject.as_str(), rel_type.as_str(), object.as_str(), now) {
                Ok(_) => Ok(()),
                Err(e) => Err(e),
            }
        },
        WriteOp::DeleteRelationship { subject, rel_type, object } => {
            match g.delete_relationship_in(subject.as_str(), rel_type.as_str(), object.as_str()) {
                Ok(_) => Ok(()),
                Err(e) => Err(e),
            }
        },
        WriteOp::SetCapability { entity, rel_type, cap_mask } => {
            match g.set_capability_in(entity.as_str(), rel_type.as_str(), *cap_mask, now) {
                Ok(_) => Ok(()),
                Err(e) => Err(e),
            }
        },
        WriteOp::SetInheritance { subject, object, source } => {
            match g.set_inheritance_in(subject.as_str(), object.as_str(), source.as_str(), now) {
                Ok(_) => Ok(()),
                Err(e) => Err(e),
            }
        },
        WriteOp::DeleteInheritance { subject, object, source } => {
            match g.delete_inheritance_in(subject.as_str(), object.as_str(), source.as_str()) {
                Ok(_) => Ok(()),
                Err(e) => Err(e),
            }
        },
        WriteOp::SetCapLabel { entity, cap_bit, label } => {
            g.set_cap_label_in(entity.as_str(), *cap_bit, label.as_str())
        },
    }
}

/// A batch of writes, applied together or not at all.
#[derive(Debug, Clone)]
pub struct WriteBatch {
    ops: Vec<WriteOp>,
}

impl View for WriteBatch {
    type V = Seq<WriteOp>;

    closed spec fn view(&self) -> Seq<WriteOp> {
        self.ops@
    }
}

impl WriteBatch {
    /// An empty batch.
    pub fn new() -> (b: Self)
        ensures
            b@ == Seq::<WriteOp>::empty(),
    {
        WriteBatch { ops: Vec::new() }
    }

    /// An empty batch with room for `capacity` writes.
    pub fn with_capacity(capacity: usize) -> (b: Self)
        ensures
            b@ == Seq::<WriteOp>::empty(),
    {
        WriteBatch { ops: Vec::with_capacity(capacity) }
    }

    /// Queues a grant.
    pub fn set_relationship(&mut self, subject: &str, rel_type: &str, object: &str) -> (r: &mut Self)
        ensures
            r@.len() == old(self)@.len() + 1,
            r@.take(old(self)@.len() as int) == old(self)@,
            r@.last() matches WriteOp::SetRelationship { subject: s, rel_type: t, object: o } && s@ == subject@
                && t@ == rel_type@ && o@ == object@,
            final(self)@ == final(r)@,
    {
        self.ops.push(
            WriteOp::SetRelationship {
                subject: String::from_str(subject),
                rel_type: String::from_str(rel_type),
                object: String::from_str(object),
            },
        );
        proof {
            assert(self.ops@.take(old(self)@.len() as int) =~= old(self).ops@);
        }
        self
    }

    /// Queues the removal of a grant.
    pub fn delete_relationship(&mut self, subject: &str, rel_type: &str, object: &str) -> (r: &mut Self)
        ensures
            r@.len() == old(self)@.len() + 1,
            r@.take(old(self)@.len() as int) == old(self)@,
            r@.last() matches WriteOp::DeleteRelationship { subject: s, rel_type: t, object: o } && s@ == subject@
                && t@ == rel_type@ && o@ == object@,
            final(self)@ == final(r)@,
    {
        self.ops.push(
            WriteOp::DeleteRelationship {
                subject: String::from_str(subject),
                rel_type: String::from_str(rel_type),
                object: String::from_str(object),
            },
        );
        proof {
            assert(self.ops@.take(old(self)@.len() as int) =~= old(self).ops@);
        }
        self
    }

    /// Queues a capability mask.
    pub fn set_capability(&mut self, entity: &str, rel_type: &str, cap_mask: u64) -> (r: &mut Self)
        ensures
            r@.len() == old(self)@.len() + 1,
            r@.take(old(self)@.len() as int) == old(self)@,
            r@.last() matches WriteOp::SetCapability { entity: e, rel_type: t, cap_mask: m } && e@ == entity@
                && t@ == rel_type@ && m == cap_mask,
            final(self)@ == final(r)@,
    {
        self.ops.push(
            WriteOp::SetCapability {
                entity: String::from_str(entity),
                rel_type: String::from_str(rel_type),
                cap_mask,
            },
        );
        proof {
            assert(self.ops@.take(old(self)@.len() as int) =~= old(self).ops@);
        }
        self
    }

    /// Queues a delegation.
    pub fn set_inheritance(&mut self, subject: &str, object: &str, source: &str) -> (r: &mut Self)
        ensures
            r@.len() == old(self)@.len() + 1,
            r@.take(old(self)@.len() as int) == old(self)@,
            r@.last() matches WriteOp::SetInheritance { subject: s, object: o, source: c } && s@ == subject@
                && o@ == object@ && c@ == source@,
            final(self)@ == final(r)@,
    {
        self.ops.push(
            WriteOp::SetInheritance {
                subject: String::from_str(subject),
                object: String::from_str(object),
                source: String::from_str(source),
            },
        );
        proof {
            assert(self.ops@.take(old(self)@.len() as int) =~= old(self).ops@);
        }
        self
    }

    /// Queues the removal of a delegation.
    pub fn delete_inheritance(&mut self, subject: &str, object: &str, source: &str) -> (r: &mut Self)
        ensures
            r@.len() == old(self)@.len() + 1,
            r@.take(old(self)@.len() as int) == old(self)@,
            r@.last() matches WriteOp::DeleteInheritance { subject: s, object: o, source: c } && s@ == subject@
                && o@ == object@ && c@ == source@,
            final(self)@ == final(r)@,
    {
        self.ops.push(
            WriteOp::DeleteInheritance {
                subject: String::from_str(subject),
                object: String::from_str(object),
                source: String::from_str(source),
            },
        );
        proof {
            assert(self.ops@.take(old(self)@.len() as int) =~= old(self).ops@);
        }
        self
    }

    /// Queues a capability label.
    pub fn set_cap_label(&mut self, entity: &str, cap_bit: u64, label: &str) -> (r: &mut Self)
        ensures
            r@.len() == old(self)@.len() + 1,
            r@.take(old(self)@.len() as int) == old(self)@,
            r@.last() matches WriteOp::SetCapLabel { entity: e, cap_bit: b, label: l } && e@ == entity@ && b
                == cap_bit && l@ == label@,
            final(self)@ == final(r)@,
    {
        self.ops.push(
            WriteOp::SetCapLabel { entity: String::from_str(entity), cap_bit, label: String::from_str(label) },
        );
        proof {
            assert(self.ops@.take(old(self)@.len() as int) =~= old(self).ops@);
        }
        self
    }

    /// How many writes are queued.
    pub fn len(&self) -> (n: usize)
        ensures
            n == self@.len(),
    {
        self.ops.len()
    }

    /// Whether no write is queued.
    pub fn is_empty(&self) -> (b: bool)
        ensures
            b == (self@.len() == 0),
    {
        self.ops.len() == 0
    }

    /// Drops every queued write.
    pub fn clear(&mut self)
        ensures
            final(self)@ == Seq::<WriteOp>::empty(),
    {
        self.ops.clear();
    }

    /// Applies the queued writes in order, as one transaction, and returns
    /// `now`. When a write is refused, the graph is left as it was and the
    /// refusal of that (the first refused) write is returned.
    pub fn execute(&self, g: &mut Graph, now: u64) -> (r: Result<u64, CapbitError>)
        requires
            old(g).wf(),
            room_for(*old(g), self@.len()),
        ensures
            final(g).wf(),
            r matches Ok(t) ==> t == now && exists|states: Seq<Graph>|
                #![trigger runs(states, self@, now, self@.len() as int)]
                runs(states, self@, now, self@.len() as int) && states[0] == *old(g) && states.last() == *final(g),
            r matches Err(e) ==> final(g).same_state(old(g)) && exists|states: Seq<Graph>, k: int|
                #![trigger runs(states, self@, now, k)]
                0 <= k < self@.len() && runs(states, self@, now, k) && states[0] == *old(g) && op_refusal(
                    states[k],
                    self@[k],
                ) == Some(e.message@),
    {
        if self.ops.len() == 0 {
            proof {
                assert(runs(seq![*g], self@, now, 0));
            }
            return Ok(now);
        }
        let snapshot = g.duplicate();
        let ghost mut states: Seq<Graph> = seq![*g];
        let mut i: usize = 0;
        while i < self.ops.len()
            invariant
                g.wf(),
                snapshot.wf(),
                snapshot.same_state(old(g)),
                i <= self@.len(),
                runs(states, self@, now, i as int),
                states[0] == *old(g),
                states.last() == *g,
                g.last_type() == old(g).last_type(),
                g.counters_map() == old(g).counters_map(),
                g.last_role() <= old(g).last_role() + i,
                room_for(*old(g), self@.len()),
            decreases self@.len() - i,
        {
            proof {
                assert forall|k: Key| #[trigger] g.counters_map().contains_key(k) implies g.counters_map()[k]
                    < u32::MAX by {
                    assert(old(g).counters_map().contains_key(k));
                }
            }
            match apply_op(g, &self.ops[i], now) {
                Ok(()) => {
                    proof {
                        lemma_op_bounds(states.last(), *g, self@[i as int], now);
                        lemma_run_step(states, self@, now, i as int, *g);
                        states = states.push(*g);
                    }
                },
                Err(e) => {
                    *g = snapshot;
                    return Err(e);
                },
            }
            i = i + 1;
        }
        Ok(now)
    }
}

/// An empty write batch.
pub fn write_batch() -> (b: WriteBatch)
    ensures
        b@ == Seq::<WriteOp>::empty(),
{
    WriteBatch::new()
}

/// The `Some` results of `f` over `rows`, in order.
pub open spec fn collect<A, B>(rows: Seq<A>, f: spec_fn(A) -> Option<B>) -> Seq<B>
    decreases rows.len(),
{
    if rows.len() == 0 {
        seq![]
    } else {
        let prev = collect(rows.drop_last(), f);
        match f(rows.last()) {
            Some(b) => prev.push(b),
            None => prev,
        }
    }
}

/// A row that `f` reports is reported by `collect`.
pub proof fn lemma_collect_has<A, B>(rows: Seq<A>, f: spec_fn(A) -> Option<B>, i: int)
    requires
        0 <= i < rows.len(),
        f(rows[i]) is Some,
    ensures
        collect(rows, f).contains(f(rows[i])->0),
    decreases rows.len(),
{
    let prev = collect(rows.drop_last(), f);
    if i == rows.len() - 1 {
        assert(collect(rows, f) == prev.push(f(rows.last())->0));
        assert(collect(rows, f)[prev.len() as int] == f(rows[i])->0);
    } else {
        lemma_collect_has(rows.drop_last(), f, i);
        assert(rows.drop_last()[i] == rows[i]);
        let j = choose|j: int| 0 <= j < prev.len() && prev[j] == f(rows[i])->0;
        match f(rows.last()) {
            Some(b) => {
                assert(collect(rows, f)[j] == prev[j]);
            },
            None => {},
        }
    }
}

/// What `collect` reports comes from some row.
pub proof fn lemma_collect_from<A, B>(rows: Seq<A>, f: spec_fn(A) -> Option<B>, b: B)
    requires
        collect(rows, f).contains(b),
    ensures
        exists|i: int| 0 <= i < rows.len() && f(rows[i]) == Some(b),
    decreases rows.len(),
{
    let prev = collect(rows.drop_last(), f);
    let j = choose|j: int| 0 <= j < collect(rows, f).len() && collect(rows, f)[j] == b;
    match f(rows.last()) {
        Some(c) => {
            if j == prev.len() {
                assert(f(rows[rows.len() - 1]) == Some(b));
            } else {
                assert(prev[j] == b);
                lemma_collect_from(rows.drop_last(), f, b);
                let i = choose|i: int| 0 <= i < rows.drop_last().len() && f(rows.drop_last()[i]) == Some(b);
                assert(rows[i] == rows.drop_last()[i]);
            }
        },
        None => {
            assert(prev.contains(b));
            lemma_collect_from(rows.drop_last(), f, b);
            let i = choose|i: int| 0 <= i < rows.drop_last().len() && f(rows.drop_last()[i]) == Some(b);
            assert(rows[i] == rows.drop_last()[i]);
        },
    }
}

impl Graph {
    /// A role label is listed between `ps` and `po` exactly when a stored
    /// grant between them carries a role with that label.
    pub proof fn lemma_relationships_listed(&self, ps: u64, po: u64, l: Seq<char>)
        requires
            self.wf(),
        ensures
            self.relationships_of(ps, po).contains(l) <==> exists|k: Key|
                #[trigger] self.grants_map().contains_key(k) && k.0 == ps && k.1 == po && self.role_label_of(
                    k.2 as u32,
                ) == Some(l),
    {
        self.lemma_rows_denote();
        let f = |e: (Key, u64)| self.relationship_row(e, ps, po);
        if self.relationships_of(ps, po).contains(l) {
            lemma_collect_from(self.grant_rows(), f, l);
            let i = choose|i: int| 0 <= i < self.grant_rows().len() && f(self.grant_rows()[i]) == Some(l);
            let k = self.grant_rows()[i].0;
            crate::table::Table::<u64>::lemma_map_at(self.grant_rows(), i);
            assert(self.grants_map().contains_key(k));
        }
        if exists|k: Key|
            #[trigger] self.grants_map().contains_key(k) && k.0 == ps && k.1 == po && self.role_label_of(k.2 as u32)
                == Some(l) {
            let k = choose|k: Key|
                #[trigger] self.grants_map().contains_key(k) && k.0 == ps && k.1 == po && self.role_label_of(
                    k.2 as u32,
                ) == Some(l);
            let i = choose|i: int| 0 <= i < self.grant_rows().len() && #[trigger] self.grant_rows()[i].0 == k;
            assert(f(self.grant_rows()[i]) == Some(l));
            lemma_collect_has(self.grant_rows(), f, i);
        }
    }
}

impl Graph {
    /// The role labels `get_relationships` reports for seeker `ps` on scope `po`.
    pub open spec fn relationships_of(&self, ps: u64, po: u64) -> Seq<Seq<char>> {
        collect(self.grant_rows(), |e: (Key, u64)| self.relationship_row(e, ps, po))
    }

    /// The (source, seeker) label pairs `get_inheritance_for_object` reports
    /// for scope `po`.
    pub open spec fn delegations_on(&self, po: u64) -> Seq<(Seq<char>, Seq<char>)> {
        collect(self.inherit_rows(), |e: (Key, u64)| self.object_delegation_row(e, po))
    }
}

/// Both present.
pub open spec fn pair<A, B>(a: Option<A>, b: Option<B>) -> Option<(A, B)> {
    match (a, b) {
        (Some(x), Some(y)) => Some((x, y)),
        _ => None,
    }
}

/// All three present.
pub open spec fn triple<A, B, C>(a: Option<A>, b: Option<B>, c: Option<C>) -> Option<(A, B, C)> {
    match (a, b, c) {
        (Some(x), Some(y), Some(z)) => Some((x, y, z)),
        _ => None,
    }
}

/// The text of an optional string.
pub open spec fn opt_view(o: Option<String>) -> Option<Seq<char>> {
    match o {
        Some(s) => Some(s@),
        None => None,
    }
}

/// Collecting one more row.
pub proof fn lemma_collect_step<A, B>(rows: Seq<A>, f: spec_fn(A) -> Option<B>, i: int)
    requires
        0 <= i < rows.len(),
    ensures
        collect(rows.take(i + 1), f) == match f(rows[i]) {
            Some(b) => collect(rows.take(i), f).push(b),
            None => collect(rows.take(i), f),
        },
{
    assert(rows.take(i + 1).drop_last() =~= rows.take(i));
    assert(rows.take(i + 1).last() == rows[i]);
}

impl Graph {
    /// `"type:name"` of the entity packed in `p`, when its type and the entity exist.
    pub open spec fn label_of(&self, p: u64) -> Option<Seq<char>> {
        let t = (p / 0x1_0000_0000) as u32;
        let e = (p % 0x1_0000_0000) as u32;
        if self.type_names_map().contains_key((t as u64, 0, 0)) && self.entity_name(t, e) is Some {
            Some(self.type_names_map()[(t as u64, 0, 0)] + seq![':'] + self.entity_name(t, e)->0)
        } else {
            None
        }
    }

    fn label_of_packed(&self, p: u64) -> (r: Option<String>)
        requires
            self.wf(),
        ensures
            opt_view(r) == self.label_of(p),
    {
        match self.resolve_entity_label((p / 0x1_0000_0000) as u32, (p % 0x1_0000_0000) as u32) {
            Ok(l) => Some(l),
            Err(_) => None,
        }
    }

    fn role_label_opt(&self, role: u64) -> (r: Option<String>)
        requires
            self.wf(),
        ensures
            opt_view(r) == self.role_label_of(role as u32),
    {
        match self.resolve_role_label(role as u32) {
            Ok(l) => Some(l),
            Err(_) => None,
        }
    }

    fn type_name_opt(&self, t: u64) -> (r: Option<String>)
        requires
            self.wf(),
        ensures
            opt_view(r) == opt_get(self.type_names_map(), (t as u32 as u64, 0, 0)),
    {
        match self.resolve_type_name(t as u32) {
            Ok(n) => Some(n),
            Err(_) => None,
        }
    }
}

impl Graph {

    /// What `get_relationships` reports for one row.
    pub open spec fn relationship_row(&self, e: (Key, u64), ps: u64, po: u64) -> Option<Seq<char>> {
        let k = e.0;
        let v = e.1;
        if k.0 == ps && k.1 == po { self.role_label_of(k.2 as u32) } else { None }
    }

    /// What `get_inheritance` reports for one row.
    pub open spec fn inheritance_row(&self, e: (Key, u64), ps: u64, po: u64) -> Option<Seq<char>> {
        let k = e.0;
        let v = e.1;
        if k.0 == ps && k.1 == po { self.label_of(k.2) } else { None }
    }

    /// What `get_inheritors_from_source` reports for one row.
    pub open spec fn inheritor_row(&self, e: (Key, u64), pc: u64, po: u64) -> Option<Seq<char>> {
        let k = e.0;
        let v = e.1;
        if k.2 == pc && k.1 == po { self.label_of(k.0) } else { None }
    }

    /// What `get_inheritance_for_object` reports for one row.
    pub open spec fn object_delegation_row(&self, e: (Key, u64), po: u64) -> Option<(Seq<char>, Seq<char>)> {
        let k = e.0;
        let v = e.1;
        if k.1 == po { pair(self.label_of(k.2), self.label_of(k.0)) } else { None }
    }

    /// What `list_accessible` reports for one row.
    pub open spec fn accessible_row(&self, e: (Key, u64), ps: u64) -> Option<(Seq<char>, Seq<char>)> {
        let k = e.0;
        let v = e.1;
        if k.0 == ps { pair(self.label_of(k.1), self.role_label_of(k.2 as u32)) } else { None }
    }

    /// What `list_subjects` reports for one row.
    pub open spec fn subject_row(&self, e: (Key, u64), po: u64) -> Option<(Seq<char>, Seq<char>)> {
        let k = e.0;
        let v = e.1;
        if k.1 == po { pair(self.label_of(k.0), self.role_label_of(k.2 as u32)) } else { None }
    }

    /// What `list_all_entities` reports for one row.
    pub open spec fn entity_label_row(&self, e: (Key, Seq<char>)) -> Option<Seq<char>> {
        let k = e.0;
        let v = e.1;
        match opt_get(self.type_names_map(), (k.0 as u32 as u64, 0, 0)) { Some(t) => Some(t + seq![':'] + v), None => None }
    }

    /// What `list_all_grants` reports for one row.
    pub open spec fn grant_label_row(&self, e: (Key, u64)) -> Option<(Seq<char>, Seq<char>, Seq<char>)> {
        let k = e.0;
        let v = e.1;
        triple(self.label_of(k.0), self.role_label_of(k.2 as u32), self.label_of(k.1))
    }

    /// What `list_all_capabilities` reports for one row.
    pub open spec fn capability_label_row(&self, e: (Key, u64)) -> Option<(Seq<char>, Seq<char>, u64)> {
        let k = e.0;
        let v = e.1;
        match pair(self.label_of(k.0), self.role_label_of(k.1 as u32)) { Some((a, b)) => Some((a, b, v)), None => None }
    }

    /// What `list_all_cap_labels` reports for one row.
    pub open spec fn cap_label_label_row(&self, e: (Key, Seq<char>)) -> Option<(Seq<char>, u64, Seq<char>)> {
        let k = e.0;
        let v = e.1;
        match self.label_of(k.0) { Some(a) => Some((a, k.1, v)), None => None }
    }

    /// What `list_all_delegations` reports for one row.
    pub open spec fn delegation_label_row(&self, e: (Key, u64)) -> Option<(Seq<char>, Seq<char>, Seq<char>)> {
        let k = e.0;
        let v = e.1;
        triple(self.label_of(k.0), self.label_of(k.1), self.label_of(k.2))
    }

    fn relationship_row_exec(&self, k: Key, v: u64, ps: u64, po: u64) -> (o: Option<String>)
        requires
            self.wf(),
        ensures
            o matches Some(x) ==> self.relationship_row((k, v), ps, po) == Some((|x: String| x@)(x)),
            o is None ==> self.relationship_row((k, v), ps, po) is None,
    {
        if k.0 == ps && k.1 == po { self.role_label_opt(k.2) } else { None }
    }

    fn inheritance_row_exec(&self, k: Key, v: u64, ps: u64, po: u64) -> (o: Option<String>)
        requires
            self.wf(),
        ensures
            o matches Some(x) ==> self.inheritance_row((k, v), ps, po) == Some((|x: String| x@)(x)),
            o is None ==> self.inheritance_row((k, v), ps, po) is None,
    {
        if k.0 == ps && k.1 == po { self.label_of_packed(k.2) } else { None }
    }

    fn inheritor_row_exec(&self, k: Key, v: u64, pc: u64, po: u64) -> (o: Option<String>)
        requires
            self.wf(),
        ensures
            o matches Some(x) ==> self.inheritor_row((k, v), pc, po) == Some((|x: String| x@)(x)),
            o is None ==> self.inheritor_row((k, v), pc, po) is None,
    {
        if k.2 == pc && k.1 == po { self.label_of_packed(k.0) } else { None }
    }

    fn object_delegation_row_exec(&self, k: Key, v: u64, po: u64) -> (o: Option<(String, String)>)
        requires
            self.wf(),
        ensures
            o matches Some(x) ==> self.object_delegation_row((k, v), po) == Some((|x: (String, String)| (x.0@, x.1@))(x)),
            o is None ==> self.object_delegation_row((k, v), po) is None,
    {
        if k.1 == po {
            match (self.label_of_packed(k.2), self.label_of_packed(k.0)) {
                (Some(a), Some(b)) => Some((a, b)),
                _ => None,
            }
        } else {
            None
        }
    }

    fn accessible_row_exec(&self, k: Key, v: u64, ps: u64) -> (o: Option<(String, String)>)
        requires
            self.wf(),
        ensures
            o matches Some(x) ==> self.accessible_row((k, v), ps) == Some((|x: (String, String)| (x.0@, x.1@))(x)),
            o is None ==> self.accessible_row((k, v), ps) is None,
    {
        if k.0 == ps {
            match (self.label_of_packed(k.1), self.role_label_opt(k.2)) {
                (Some(a), Some(b)) => Some((a, b)),
                _ => None,
            }
        } else {
            None
        }
    }

    fn subject_row_exec(&self, k: Key, v: u64, po: u64) -> (o: Option<(String, String)>)
        requires
            self.wf(),
        ensures
            o matches Some(x) ==> self.subject_row((k, v), po) == Some((|x: (String, String)| (x.0@, x.1@))(x)),
            o is None ==> self.subject_row((k, v), po) is None,
    {
        if k.1 == po {
            match (self.label_of_packed(k.0), self.role_label_opt(k.2)) {
                (Some(a), Some(b)) => Some((a, b)),
                _ => None,
            }
        } else {
            None
        }
    }

    fn entity_label_row_exec(&self, k: Key, v: String) -> (o: Option<String>)
        requires
            self.wf(),
        ensures
            o matches Some(x) ==> self.entity_label_row((k, v@)) == Some((|x: String| x@)(x)),
            o is None ==> self.entity_label_row((k, v@)) is None,
    {
        match self.type_name_opt(k.0) {
            Some(t) => {
                proof {
                    reveal_strlit(":");
                }
                Some(t.concat(":").concat(v.as_str()))
            },
            None => None,
        }
    }

    fn grant_label_row_exec(&self, k: Key, v: u64) -> (o: Option<(String, String, String)>)
        requires
            self.wf(),
        ensures
            o matches Some(x) ==> self.grant_label_row((k, v)) == Some((|x: (String, String, String)| (x.0@, x.1@, x.2@))(x)),
            o is None ==> self.grant_label_row((k, v)) is None,
    {
        match (self.label_of_packed(k.0), self.role_label_opt(k.2), self.label_of_packed(k.1)) {
            (Some(a), Some(b), Some(c)) => Some((a, b, c)),
            _ => None,
        }
    }

    fn capability_label_row_exec(&self, k: Key, v: u64) -> (o: Option<(String, String, u64)>)
        requires
            self.wf(),
        ensures
            o matches Some(x) ==> self.capability_label_row((k, v)) == Some((|x: (String, String, u64)| (x.0@, x.1@, x.2))(x)),
            o is None ==> self.capability_label_row((k, v)) is None,
    {
        match (self.label_of_packed(k.0), self.role_label_opt(k.1)) {
            (Some(a), Some(b)) => Some((a, b, v)),
            _ => None,
        }
    }

    fn cap_label_label_row_exec(&self, k: Key, v: String) -> (o: Option<(String, u64, String)>)
        requires
            self.wf(),
        ensures
            o matches Some(x) ==> self.cap_label_label_row((k, v@)) == Some((|x: (String, u64, String)| (x.0@, x.1, x.2@))(x)),
            o is None ==> self.cap_label_label_row((k, v@)) is None,
    {
        match self.label_of_packed(k.0) {
            Some(a) => Some((a, k.1, v)),
            None => None,
        }
    }

    fn delegation_label_row_exec(&self, k: Key, v: u64) -> (o: Option<(String, String, String)>)
        requires
            self.wf(),
        ensures
            o matches Some(x) ==> self.delegation_label_row((k, v)) == Some((|x: (String, String, String)| (x.0@, x.1@, x.2@))(x)),
            o is None ==> self.delegation_label_row((k, v)) is None,
    {
        match (self.label_of_packed(k.0), self.label_of_packed(k.1), self.label_of_packed(k.2)) {
            (Some(a), Some(b), Some(c)) => Some((a, b, c)),
            _ => None,
        }
    }
}

/// The labels of the roles `subject` is granted on `object`, by role id.
pub fn get_relationships(g: &Graph, subject: &str, object: &str) -> (r: Result<Vec<String>, CapbitError>)
    requires
        g.wf(),
    ensures
        r is Ok <==> both(g.resolved(subject), g.resolved(object)) is Ok,
        r matches Err(e) ==> both(g.resolved(subject), g.resolved(object)) == Err::<((u32, u32), (u32, u32)), Seq<char>>(e.message@),
        r matches Ok(v) ==> {
            let (x, y) = both(g.resolved(subject), g.resolved(object))->Ok_0;
            v@.map_values(|x: String| x@) == g.relationships_of(pack(x.0, x.1), pack(y.0, y.1))
        },
{
    let (st, si) = match g.resolve_entity(subject) {
        Ok(p) => p,
        Err(e) => return Err(e),
    };
    let (ot, oi) = match g.resolve_entity(object) {
        Ok(p) => p,
        Err(e) => return Err(e),
    };
    let ps = pack_ids(st, si);
    let po = pack_ids(ot, oi);
    let mut r: Vec<String> = Vec::new();
    let mut i: usize = 0;
    while i < g.grants.len()
        invariant
            g.wf(),
            i <= g.grant_rows().len(),
            r@.map_values(|x: String| x@) == collect(g.grant_rows().take(i as int), |e: (Key, u64)| g.relationship_row(e, ps, po)),
        decreases g.grant_rows().len() - i,
    {
        let (k, v) = g.grants.row(i);
        proof {
            lemma_collect_step(g.grant_rows(), |e: (Key, u64)| g.relationship_row(e, ps, po), i as int);
        }
        match g.relationship_row_exec(k, v, ps, po) {
            Some(x) => {
                let ghost before = r@;
                r.push(x);
                proof {
                    assert(r@.map_values(|x: String| x@) =~= before.map_values(|x: String| x@).push((|x: String| x@)(x)));
                }
            },
            None => {},
        }
        i = i + 1;
    }
    assert(g.grant_rows().take(i as int) =~= g.grant_rows());
    Ok(r)
}

/// The labels of the sources `subject` inherits from on `object`, in row order.
pub fn get_inheritance(g: &Graph, subject: &str, object: &str) -> (r: Result<Vec<String>, CapbitError>)
    requires
        g.wf(),
    ensures
        r is Ok <==> both(g.resolved(subject), g.resolved(object)) is Ok,
        r matches Err(e) ==> both(g.resolved(subject), g.resolved(object)) == Err::<((u32, u32), (u32, u32)), Seq<char>>(e.message@),
        r matches Ok(v) ==> {
            let (x, y) = both(g.resolved(subject), g.resolved(object))->Ok_0;
            v@.map_values(|x: String| x@) == collect(g.inherit_rows(), |e| g.inheritance_row(e, pack(x.0, x.1), pack(y.0, y.1)))
        },
{
    let (st, si) = match g.resolve_entity(subject) {
        Ok(p) => p,
        Err(e) => return Err(e),
    };
    let (ot, oi) = match g.resolve_entity(object) {
        Ok(p) => p,
        Err(e) => return Err(e),
    };
    let ps = pack_ids(st, si);
    let po = pack_ids(ot, oi);
    let mut r: Vec<String> = Vec::new();
    let mut i: usize = 0;
    while i < g.inherits.len()
        invariant
            g.wf(),
            i <= g.inherit_rows().len(),
            r@.map_values(|x: String| x@) == collect(g.inherit_rows().take(i as int), |e: (Key, u64)| g.inheritance_row(e, ps, po)),
        decreases g.inherit_rows().len() - i,
    {
        let (k, v) = g.inherits.row(i);
        proof {
            lemma_collect_step(g.inherit_rows(), |e: (Key, u64)| g.inheritance_row(e, ps, po), i as int);
        }
        match g.inheritance_row_exec(k, v, ps, po) {
            Some(x) => {
                let ghost before = r@;
                r.push(x);
                proof {
                    assert(r@.map_values(|x: String| x@) =~= before.map_values(|x: String| x@).push((|x: String| x@)(x)));
                }
            },
            None => {},
        }
        i = i + 1;
    }
    assert(g.inherit_rows().take(i as int) =~= g.inherit_rows());
    Ok(r)
}

/// The labels of the seekers that inherit from `source` on `object`, in row order.
pub fn get_inheritors_from_source(g: &Graph, source: &str, object: &str) -> (r: Result<Vec<String>, CapbitError>)
    requires
        g.wf(),
    ensures
        r is Ok <==> both(g.resolved(source), g.resolved(object)) is Ok,
        r matches Err(e) ==> both(g.resolved(source), g.resolved(object)) == Err::<((u32, u32), (u32, u32)), Seq<char>>(e.message@),
        r matches Ok(v) ==> {
            let (x, y) = both(g.resolved(source), g.resolved(object))->Ok_0;
            v@.map_values(|x: String| x@) == collect(g.inherit_rows(), |e| g.inheritor_row(e, pack(x.0, x.1), pack(y.0, y.1)))
        },
{
    let (ct, ci) = match g.resolve_entity(source) {
        Ok(p) => p,
        Err(e) => return Err(e),
    };
    let (ot, oi) = match g.resolve_entity(object) {
        Ok(p) => p,
        Err(e) => return Err(e),
    };
    let pc = pack_ids(ct, ci);
    let po = pack_ids(ot, oi);
    let mut r: Vec<String> = Vec::new();
    let mut i: usize = 0;
    while i < g.inherits.len()
        invariant
            g.wf(),
            i <= g.inherit_rows().len(),
            r@.map_values(|x: String| x@) == collect(g.inherit_rows().take(i as int), |e: (Key, u64)| g.inheritor_row(e, pc, po)),
        decreases g.inherit_rows().len() - i,
    {
        let (k, v) = g.inherits.row(i);
        proof {
            lemma_collect_step(g.inherit_rows(), |e: (Key, u64)| g.inheritor_row(e, pc, po), i as int);
        }
        match g.inheritor_row_exec(k, v, pc, po) {
            Some(x) => {
                let ghost before = r@;
                r.push(x);
                proof {
                    assert(r@.map_values(|x: String| x@) =~= before.map_values(|x: String| x@).push((|x: String| x@)(x)));
                }
            },
            None => {},
        }
        i = i + 1;
    }
    assert(g.inherit_rows().take(i as int) =~= g.inherit_rows());
    Ok(r)
}

/// `(source, seeker)` label pairs of the delegations on `object`, in row order.
pub fn get_inheritance_for_object(g: &Graph, object: &str) -> (r: Result<Vec<(String, String)>, CapbitError>)
    requires
        g.wf(),
    ensures
        r is Ok <==> g.resolved(object) is Ok,
        r matches Err(e) ==> g.resolved(object) == Err::<(u32, u32), Seq<char>>(e.message@),
        r matches Ok(v) ==> {
            let x = g.resolved(object)->Ok_0;
            v@.map_values(|x: (String, String)| (x.0@, x.1@)) == g.delegations_on(pack(x.0, x.1))
        },
{
    let (ot, oi) = match g.resolve_entity(object) {
        Ok(p) => p,
        Err(e) => return Err(e),
    };
    let po = pack_ids(ot, oi);
    let mut r: Vec<(String, String)> = Vec::new();
    let mut i: usize = 0;
    while i < g.inherits.len()
        invariant
            g.wf(),
            i <= g.inherit_rows().len(),
            r@.map_values(|x: (String, String)| (x.0@, x.1@)) == collect(g.inherit_rows().take(i as int), |e: (Key, u64)| g.object_delegation_row(e, po)),
        decreases g.inherit_rows().len() - i,
    {
        let (k, v) = g.inherits.row(i);
        proof {
            lemma_collect_step(g.inherit_rows(), |e: (Key, u64)| g.object_delegation_row(e, po), i as int);
        }
        match g.object_delegation_row_exec(k, v, po) {
            Some(x) => {
                let ghost before = r@;
                r.push(x);
                proof {
                    assert(r@.map_values(|x: (String, String)| (x.0@, x.1@)) =~= before.map_values(|x: (String, String)| (x.0@, x.1@)).push((|x: (String, String)| (x.0@, x.1@))(x)));
                }
            },
            None => {},
        }
        i = i + 1;
    }
    assert(g.inherit_rows().take(i as int) =~= g.inherit_rows());
    Ok(r)
}

/// `(scope, role)` labels of the grants `subject` holds, by scope then role.
pub fn list_accessible(g: &Graph, subject: &str) -> (r: Result<Vec<(String, String)>, CapbitError>)
    requires
        g.wf(),
    ensures
        r is Ok <==> g.resolved(subject) is Ok,
        r matches Err(e) ==> g.resolved(subject) == Err::<(u32, u32), Seq<char>>(e.message@),
        r matches Ok(v) ==> {
            let x = g.resolved(subject)->Ok_0;
            v@.map_values(|x: (String, String)| (x.0@, x.1@)) == collect(g.grant_rows(), |e| g.accessible_row(e, pack(x.0, x.1)))
        },
{
    let (st, si) = match g.resolve_entity(subject) {
        Ok(p) => p,
        Err(e) => return Err(e),
    };
    let ps = pack_ids(st, si);
    let mut r: Vec<(String, String)> = Vec::new();
    let mut i: usize = 0;
    while i < g.grants.len()
        invariant
            g.wf(),
            i <= g.grant_rows().len(),
            r@.map_values(|x: (String, String)| (x.0@, x.1@)) == collect(g.grant_rows().take(i as int), |e: (Key, u64)| g.accessible_row(e, ps)),
        decreases g.grant_rows().len() - i,
    {
        let (k, v) = g.grants.row(i);
        proof {
            lemma_collect_step(g.grant_rows(), |e: (Key, u64)| g.accessible_row(e, ps), i as int);
        }
        match g.accessible_row_exec(k, v, ps) {
            Some(x) => {
                let ghost before = r@;
                r.push(x);
                proof {
                    assert(r@.map_values(|x: (String, String)| (x.0@, x.1@)) =~= before.map_values(|x: (String, String)| (x.0@, x.1@)).push((|x: (String, String)| (x.0@, x.1@))(x)));
                }
            },
            None => {},
        }
        i = i + 1;
    }
    assert(g.grant_rows().take(i as int) =~= g.grant_rows());
    Ok(r)
}

/// `(seeker, role)` labels of the grants on `object`, in row order.
pub fn list_subjects(g: &Graph, object: &str) -> (r: Result<Vec<(String, String)>, CapbitError>)
    requires
        g.wf(),
    ensures
        r is Ok <==> g.resolved(object) is Ok,
        r matches Err(e) ==> g.resolved(object) == Err::<(u32, u32), Seq<char>>(e.message@),
        r matches Ok(v) ==> {
            let x = g.resolved(object)->Ok_0;
            v@.map_values(|x: (String, String)| (x.0@, x.1@)) == collect(g.grant_rows(), |e| g.subject_row(e, pack(x.0, x.1)))
        },
{
    let (ot, oi) = match g.resolve_entity(object) {
        Ok(p) => p,
        Err(e) => return Err(e),
    };
    let po = pack_ids(ot, oi);
    let mut r: Vec<(String, String)> = Vec::new();
    let mut i: usize = 0;
    while i < g.grants.len()
        invariant
            g.wf(),
            i <= g.grant_rows().len(),
            r@.map_values(|x: (String, String)| (x.0@, x.1@)) == collect(g.grant_rows().take(i as int), |e: (Key, u64)| g.subject_row(e, po)),
        decreases g.grant_rows().len() - i,
    {
        let (k, v) = g.grants.row(i);
        proof {
            lemma_collect_step(g.grant_rows(), |e: (Key, u64)| g.subject_row(e, po), i as int);
        }
        match g.subject_row_exec(k, v, po) {
            Some(x) => {
                let ghost before = r@;
                r.push(x);
                proof {
                    assert(r@.map_values(|x: (String, String)| (x.0@, x.1@)) =~= before.map_values(|x: (String, String)| (x.0@, x.1@)).push((|x: (String, String)| (x.0@, x.1@))(x)));
                }
            },
            None => {},
        }
        i = i + 1;
    }
    assert(g.grant_rows().take(i as int) =~= g.grant_rows());
    Ok(r)
}

/// `"type:name"` of every entity whose type is known, by type then key.
pub fn list_all_entities(g: &Graph) -> (r: Result<Vec<String>, CapbitError>)
    requires
        g.wf(),
    ensures
        r matches Ok(v) && v@.map_values(|x: String| x@) == collect(g.entity_rows(), |e| g.entity_label_row(e)),
{

    let mut r: Vec<String> = Vec::new();
    let mut i: usize = 0;
    while i < g.entities.len()
        invariant
            g.wf(),
            i <= g.entity_rows().len(),
            r@.map_values(|x: String| x@) == collect(g.entity_rows().take(i as int), |e: (Key, Seq<char>)| g.entity_label_row(e)),
        decreases g.entity_rows().len() - i,
    {
        let (k, v) = g.entities.row(i);
        proof {
            lemma_collect_step(g.entity_rows(), |e: (Key, Seq<char>)| g.entity_label_row(e), i as int);
        }
        match g.entity_label_row_exec(k, v) {
            Some(x) => {
                let ghost before = r@;
                r.push(x);
                proof {
                    assert(r@.map_values(|x: String| x@) =~= before.map_values(|x: String| x@).push((|x: String| x@)(x)));
                }
            },
            None => {},
        }
        i = i + 1;
    }
    assert(g.entity_rows().take(i as int) =~= g.entity_rows());
    Ok(r)
}

/// `(seeker, role, scope)` labels of every grant whose parts resolve, in row order.
pub fn list_all_grants(g: &Graph) -> (r: Result<Vec<(String, String, String)>, CapbitError>)
    requires
        g.wf(),
    ensures
        r matches Ok(v) && v@.map_values(|x: (String, String, String)| (x.0@, x.1@, x.2@)) == collect(g.grant_rows(), |e| g.grant_label_row(e)),
{

    let mut r: Vec<(String, String, String)> = Vec::new();
    let mut i: usize = 0;
    while i < g.grants.len()
        invariant
            g.wf(),
            i <= g.grant_rows().len(),
            r@.map_values(|x: (String, String, String)| (x.0@, x.1@, x.2@)) == collect(g.grant_rows().take(i as int), |e: (Key, u64)| g.grant_label_row(e)),
        decreases g.grant_rows().len() - i,
    {
        let (k, v) = g.grants.row(i);
        proof {
            lemma_collect_step(g.grant_rows(), |e: (Key, u64)| g.grant_label_row(e), i as int);
        }
        match g.grant_label_row_exec(k, v) {
            Some(x) => {
                let ghost before = r@;
                r.push(x);
                proof {
                    assert(r@.map_values(|x: (String, String, String)| (x.0@, x.1@, x.2@)) =~= before.map_values(|x: (String, String, String)| (x.0@, x.1@, x.2@)).push((|x: (String, String, String)| (x.0@, x.1@, x.2@))(x)));
                }
            },
            None => {},
        }
        i = i + 1;
    }
    assert(g.grant_rows().take(i as int) =~= g.grant_rows());
    Ok(r)
}

/// `(entity, role, mask)` of every capability whose entity and role resolve, in row order.
pub fn list_all_capabilities(g: &Graph) -> (r: Result<Vec<(String, String, u64)>, CapbitError>)
    requires
        g.wf(),
    ensures
        r matches Ok(v) && v@.map_values(|x: (String, String, u64)| (x.0@, x.1@, x.2)) == collect(g.cap_rows(), |e| g.capability_label_row(e)),
{

    let mut r: Vec<(String, String, u64)> = Vec::new();
    let mut i: usize = 0;
    while i < g.caps.len()
        invariant
            g.wf(),
            i <= g.cap_rows().len(),
            r@.map_values(|x: (String, String, u64)| (x.0@, x.1@, x.2)) == collect(g.cap_rows().take(i as int), |e: (Key, u64)| g.capability_label_row(e)),
        decreases g.cap_rows().len() - i,
    {
        let (k, v) = g.caps.row(i);
        proof {
            lemma_collect_step(g.cap_rows(), |e: (Key, u64)| g.capability_label_row(e), i as int);
        }
        match g.capability_label_row_exec(k, v) {
            Some(x) => {
                let ghost before = r@;
                r.push(x);
                proof {
                    assert(r@.map_values(|x: (String, String, u64)| (x.0@, x.1@, x.2)) =~= before.map_values(|x: (String, String, u64)| (x.0@, x.1@, x.2)).push((|x: (String, String, u64)| (x.0@, x.1@, x.2))(x)));
                }
            },
            None => {},
        }
        i = i + 1;
    }
    assert(g.cap_rows().take(i as int) =~= g.cap_rows());
    Ok(r)
}

/// `(entity, bit, label)` of every capability label whose entity resolves, in row order.
pub fn list_all_cap_labels(g: &Graph) -> (r: Result<Vec<(String, u64, String)>, CapbitError>)
    requires
        g.wf(),
    ensures
        r matches Ok(v) && v@.map_values(|x: (String, u64, String)| (x.0@, x.1, x.2@)) == collect(g.cap_label_rows(), |e| g.cap_label_label_row(e)),
{

    let mut r: Vec<(String, u64, String)> = Vec::new();
    let mut i: usize = 0;
    while i < g.cap_labels.len()
        invariant
            g.wf(),
            i <= g.cap_label_rows().len(),
            r@.map_values(|x: (String, u64, String)| (x.0@, x.1, x.2@)) == collect(g.cap_label_rows().take(i as int), |e: (Key, Seq<char>)| g.cap_label_label_row(e)),
        decreases g.cap_label_rows().len() - i,
    {
        let (k, v) = g.cap_labels.row(i);
        proof {
            lemma_collect_step(g.cap_label_rows(), |e: (Key, Seq<char>)| g.cap_label_label_row(e), i as int);
        }
        match g.cap_label_label_row_exec(k, v) {
            Some(x) => {
                let ghost before = r@;
                r.push(x);
                proof {
                    assert(r@.map_values(|x: (String, u64, String)| (x.0@, x.1, x.2@)) =~= before.map_values(|x: (String, u64, String)| (x.0@, x.1, x.2@)).push((|x: (String, u64, String)| (x.0@, x.1, x.2@))(x)));
                }
            },
            None => {},
        }
        i = i + 1;
    }
    assert(g.cap_label_rows().take(i as int) =~= g.cap_label_rows());
    Ok(r)
}

/// `(seeker, scope, source)` labels of every delegation whose parts resolve, in row order.
pub fn list_all_delegations(g: &Graph) -> (r: Result<Vec<(String, String, String)>, CapbitError>)
    requires
        g.wf(),
    ensures
        r matches Ok(v) && v@.map_values(|x: (String, String, String)| (x.0@, x.1@, x.2@)) == collect(g.inherit_rows(), |e| g.delegation_label_row(e)),
{

    let mut r: Vec<(String, String, String)> = Vec::new();
    let mut i: usize = 0;
    while i < g.inherits.len()
        invariant
            g.wf(),
            i <= g.inherit_rows().len(),
            r@.map_values(|x: (String, String, String)| (x.0@, x.1@, x.2@)) == collect(g.inherit_rows().take(i as int), |e: (Key, u64)| g.delegation_label_row(e)),
        decreases g.inherit_rows().len() - i,
    {
        let (k, v) = g.inherits.row(i);
        proof {
            lemma_collect_step(g.inherit_rows(), |e: (Key, u64)| g.delegation_label_row(e), i as int);
        }
        match g.delegation_label_row_exec(k, v) {
            Some(x) => {
                let ghost before = r@;
                r.push(x);
                proof {
                    assert(r@.map_values(|x: (String, String, String)| (x.0@, x.1@, x.2@)) =~= before.map_values(|x: (String, String, String)| (x.0@, x.1@, x.2@)).push((|x: (String, String, String)| (x.0@, x.1@, x.2@))(x)));
                }
            },
            None => {},
        }
        i = i + 1;
    }
    assert(g.inherit_rows().take(i as int) =~= g.inherit_rows());
    Ok(r)
}

/// Closes the graph (nothing to release in memory).
pub fn close() {
}

/// Empties the graph.
pub fn clear_all(g: &mut Graph)
    ensures
        final(g).wf(),
        final(g).types_map() == Map::<Seq<char>, u64>::empty(),
        final(g).entities_map() == Map::<Key, Seq<char>>::empty(),
        final(g).roles_map() == Map::<Key, Seq<char>>::empty(),
        final(g).grants_map() == Map::<Key, u64>::empty(),
        final(g).caps_map() == Map::<Key, u64>::empty(),
        final(g).inherits_map() == Map::<Key, u64>::empty(),
        final(g).cap_labels_map() == Map::<Key, Seq<char>>::empty(),
        final(g).last_type() == 0,
        final(g).last_role() == 0,
{
    *g = Graph::new();
}

/// Whether `entity_id` resolves to an entity.
pub fn entity_exists(g: &Graph, entity_id: &str) -> (b: bool)
    requires
        g.wf(),
    ensures
        b == g.resolved(entity_id) is Ok,
{
    g.entity_exists_in(entity_id)
}

/// Whether type `tname` exists.
pub fn type_exists(g: &Graph, tname: &str) -> (b: bool)
    requires
        g.wf(),
    ensures
        b == g.types_map().contains_key(tname@),
{
    g.type_exists(tname)
}

/// Grants role `rel_type` to `subject` on `object`, stamped `now`.
pub fn set_relationship(g: &mut Graph, subject: &str, rel_type: &str, object: &str, now: u64) -> (r: Result<u64, CapbitError>)
    requires
        old(g).wf(),
        old(g).has_room(),
    ensures
        final(g).wf(),
        r is Ok <==> then_label(both(old(g).resolved(subject), old(g).resolved(object)), rel_type@) is Ok,
        r matches Err(e) ==> then_label(both(old(g).resolved(subject), old(g).resolved(object)), rel_type@)
            == Err::<((u32, u32), (u32, u32)), Seq<char>>(e.message@) && *final(g) == *old(g),
        r matches Ok(t) ==> t == now && {
            let (s, o) = both(old(g).resolved(subject), old(g).resolved(object))->Ok_0;
            &&& old(g).roles_after(rel_type@, final(g))
            &&& final(g).grants_map() == old(g).grants_map().insert(
                (pack(s.0, s.1), pack(o.0, o.1), old(g).role_after(rel_type@) as u64),
                now,
            )
            &&& final(g).caps_map() == old(g).caps_map()
            &&& final(g).inherits_map() == old(g).inherits_map()
            &&& final(g).same_names(old(g))
        },
        r is Ok ==> forall|c: Seq<char>| #[trigger] final(g).resolved_view(c) == old(g).resolved_view(c),
{
    let r = g.set_relationship_in(subject, rel_type, object, now);
    proof {
        if r is Ok {
            g.lemma_same_resolution(old(g));
        }
    }
    r
}

/// Removes the grant of role `rel_type` to `subject` on `object`.
pub fn delete_relationship(g: &mut Graph, subject: &str, rel_type: &str, object: &str) -> (r: Result<bool, CapbitError>)
    requires
        old(g).wf(),
    ensures
        final(g).wf(),
        r is Ok <==> both(old(g).resolved(subject), old(g).resolved(object)) is Ok && old(g).role_id_of(rel_type@) is Some,
        r is Err ==> *final(g) == *old(g),
        r matches Ok(had) ==> {
            let (s, o) = both(old(g).resolved(subject), old(g).resolved(object))->Ok_0;
            let k = (pack(s.0, s.1), pack(o.0, o.1), old(g).role_id_of(rel_type@)->0 as u64);
            &&& had == old(g).grants_map().contains_key(k)
            &&& final(g).grants_map() == old(g).grants_map().remove(k)
            &&& final(g).caps_map() == old(g).caps_map()
            &&& final(g).inherits_map() == old(g).inherits_map()
            &&& final(g).same_names(old(g))
            &&& final(g).same_roles(old(g))
        },
{
    g.delete_relationship_in(subject, rel_type, object)
}

/// Sets the capability mask of role `rel_type` on `entity`.
pub fn set_capability(g: &mut Graph, entity: &str, rel_type: &str, cap_mask: u64, now: u64) -> (r: Result<u64, CapbitError>)
    requires
        old(g).wf(),
        old(g).has_room(),
    ensures
        final(g).wf(),
        r is Ok <==> then_label(old(g).resolved(entity), rel_type@) is Ok,
        r matches Err(e) ==> then_label(old(g).resolved(entity), rel_type@) == Err::<(u32, u32), Seq<char>>(e.message@)
            && *final(g) == *old(g),
        r matches Ok(t) ==> t == now && {
            let s = old(g).resolved(entity)->Ok_0;
            &&& old(g).roles_after(rel_type@, final(g))
            &&& final(g).caps_map() == old(g).caps_map().insert((pack(s.0, s.1), old(g).role_after(rel_type@) as u64, 0), cap_mask)
            &&& final(g).grants_map() == old(g).grants_map()
            &&& final(g).inherits_map() == old(g).inherits_map()
            &&& final(g).same_names(old(g))
        },
        r is Ok ==> forall|c: Seq<char>| #[trigger] final(g).resolved_view(c) == old(g).resolved_view(c),
{
    let r = g.set_capability_in(entity, rel_type, cap_mask, now);
    proof {
        if r is Ok {
            g.lemma_same_resolution(old(g));
        }
    }
    r
}

/// The capability mask of role `rel_type` on `entity`.
pub fn get_capability(g: &Graph, entity: &str, rel_type: &str) -> (r: Result<Option<u64>, CapbitError>)
    requires
        g.wf(),
    ensures
        r is Ok <==> g.resolved(entity) is Ok,
        r matches Err(e) ==> g.resolved(entity) == Err::<(u32, u32), Seq<char>>(e.message@),
        r matches Ok(m) ==> {
            let s = g.resolved(entity)->Ok_0;
            m == match g.role_id_of(rel_type@) {
                None => None,
                Some(role) => opt_get(g.caps_map(), (pack(s.0, s.1), role as u64, 0)),
            }
        },
{
    g.get_capability_in(entity, rel_type)
}

/// Records that `subject` inherits on `object` what `source` holds there.
pub fn set_inheritance(g: &mut Graph, subject: &str, object: &str, source: &str, now: u64) -> (r: Result<u64, CapbitError>)
    requires
        old(g).wf(),
    ensures
        final(g).wf(),
        r is Ok <==> old(g).delegation_key(subject, object, source) is Ok,
        r matches Err(e) ==> old(g).delegation_key(subject, object, source) == Err::<Key, Seq<char>>(e.message@)
            && *final(g) == *old(g),
        r matches Ok(t) ==> t == now && final(g).inherits_map() == old(g).inherits_map().insert(
            old(g).delegation_key(subject, object, source)->Ok_0,
            now,
        ) && final(g).grants_map() == old(g).grants_map() && final(g).caps_map() == old(g).caps_map()
            && final(g).same_names(old(g)) && final(g).same_roles(old(g)),
        r is Ok ==> forall|c: Seq<char>| #[trigger] final(g).resolved_view(c) == old(g).resolved_view(c),
{
    let r = g.set_inheritance_in(subject, object, source, now);
    proof {
        if r is Ok {
            g.lemma_same_resolution(old(g));
        }
    }
    r
}

/// Removes a delegation.
pub fn delete_inheritance(g: &mut Graph, subject: &str, object: &str, source: &str) -> (r: Result<bool, CapbitError>)
    requires
        old(g).wf(),
    ensures
        final(g).wf(),
        r is Ok <==> old(g).delegation_key(subject, object, source) is Ok,
        r matches Err(e) ==> old(g).delegation_key(subject, object, source) == Err::<Key, Seq<char>>(e.message@)
            && *final(g) == *old(g),
        r matches Ok(had) ==> had == old(g).inherits_map().contains_key(old(g).delegation_key(subject, object, source)->Ok_0)
            && final(g).inherits_map() == old(g).inherits_map().remove(old(g).delegation_key(subject, object, source)->Ok_0)
            && final(g).grants_map() == old(g).grants_map() && final(g).caps_map() == old(g).caps_map()
            && final(g).same_names(old(g)) && final(g).same_roles(old(g)),
{
    g.delete_inheritance_in(subject, object, source)
}

/// Labels capability bit `cap_bit` on `entity`.
pub fn set_cap_label(g: &mut Graph, entity: &str, cap_bit: u64, label: &str) -> (r: Result<(), CapbitError>)
    requires
        old(g).wf(),
    ensures
        final(g).wf(),
        r is Ok <==> old(g).resolved(entity) is Ok,
        r matches Err(e) ==> old(g).resolved(entity) == Err::<(u32, u32), Seq<char>>(e.message@) && *final(g) == *old(g),
        r is Ok ==> {
            let s = old(g).resolved(entity)->Ok_0;
            &&& final(g).cap_labels_map() == old(g).cap_labels_map().insert((pack(s.0, s.1), cap_bit as u32 as u64, 0), label@)
            &&& final(g).same_links_but_labels(old(g))
        },
        r is Ok ==> forall|c: Seq<char>| #[trigger] final(g).resolved_view(c) == old(g).resolved_view(c),
{
    let r = g.set_cap_label_in(entity, cap_bit, label);
    proof {
        if r is Ok {
            g.lemma_same_resolution(old(g));
        }
    }
    r
}

/// The label of capability bit `cap_bit` on `entity`.
pub fn get_cap_label(g: &Graph, entity: &str, cap_bit: u64) -> (r: Result<Option<String>, CapbitError>)
    requires
        g.wf(),
    ensures
        r is Ok <==> g.resolved(entity) is Ok,
        r matches Err(e) ==> g.resolved(entity) == Err::<(u32, u32), Seq<char>>(e.message@),
        r matches Ok(l) ==> {
            let s = g.resolved(entity)->Ok_0;
            let k = (pack(s.0, s.1), cap_bit as u32 as u64, 0);
            &&& l is Some <==> g.cap_labels_map().contains_key(k)
            &&& l matches Some(t) ==> t@ == g.cap_labels_map()[k]
        },
{
    g.get_cap_label_in(entity, cap_bit)
}

/// Removes the label of capability bit `cap_bit` on `entity`.
pub fn delete_cap_label(g: &mut Graph, entity: &str, cap_bit: u64) -> (r: Result<bool, CapbitError>)
    requires
        old(g).wf(),
    ensures
        final(g).wf(),
        r is Ok <==> old(g).resolved(entity) is Ok,
        r matches Err(e) ==> old(g).resolved(entity) == Err::<(u32, u32), Seq<char>>(e.message@) && *final(g) == *old(g),
        r matches Ok(had) ==> {
            let s = old(g).resolved(entity)->Ok_0;
            let k = (pack(s.0, s.1), cap_bit as u32 as u64, 0);
            &&& had == old(g).cap_labels_map().contains_key(k)
            &&& final(g).cap_labels_map() == old(g).cap_labels_map().remove(k)
            &&& final(g).same_links_but_labels(old(g))
        },
{
    g.delete_cap_label_in(entity, cap_bit)
}

/// The effective capability mask of `subject` on `object` (see `Graph::check_access_in`).
pub fn check_access(g: &Graph, subject: &str, object: &str, max_depth: Option<usize>) -> (r: Result<u64, CapbitError>)
    requires
        g.wf(),
    ensures
        r is Ok <==> both(g.resolved(subject), g.resolved(object)) is Ok,
        r matches Err(e) ==> both(g.resolved(subject), g.resolved(object)) == Err::<((u32, u32), (u32, u32)), Seq<char>>(e.message@),
        r matches Ok(mask) ==> {
            let (s, o) = both(g.resolved(subject), g.resolved(object))->Ok_0;
            let limit = match max_depth {
                Some(d) => d,
                None => 100usize,
            };
            mask == g.walk(pack(o.0, o.1), g.type_scope(object), limit, seq![(pack(s.0, s.1), 0usize)], Set::<u64>::empty(), 0)
        },
{
    g.check_access_in(subject, object, max_depth)
}

/// Whether `subject` effectively holds every bit of `required` on `object`.
pub fn has_capability(g: &Graph, subject: &str, object: &str, required: u64) -> (r: Result<bool, CapbitError>)
    requires
        g.wf(),
    ensures
        r is Ok <==> both(g.resolved(subject), g.resolved(object)) is Ok,
        r matches Err(e) ==> both(g.resolved(subject), g.resolved(object)) == Err::<((u32, u32), (u32, u32)), Seq<char>>(e.message@),
        r matches Ok(b) ==> {
            let (s, o) = both(g.resolved(subject), g.resolved(object))->Ok_0;
            b == (g.walk(pack(o.0, o.1), g.type_scope(object), 100usize, seq![(pack(s.0, s.1), 0usize)], Set::<u64>::empty(), 0)
                & required == required)
        },
{
    match g.check_access_in(subject, object, None) {
        Ok(m) => Ok((m & required) == required),
        Err(e) => Err(e),
    }
}

/// The ops of a batch of grants, in entry order.
pub open spec fn relationship_ops(ops: Seq<WriteOp>, entries: Seq<(String, String, String)>) -> bool {
    &&& ops.len() == entries.len()
    &&& forall|i: int| 0 <= i < ops.len() ==> (#[trigger] ops[i] matches WriteOp::SetRelationship { subject: s, rel_type: t, object: o }
        && s@ == entries[i].0@ && t@ == entries[i].1@ && o@ == entries[i].2@)
}

/// Grants each `(subject, rel_type, object)` of `entries` in order, as one
/// transaction; returns how many. When one is refused, nothing is applied.
pub fn batch_set_relationships(g: &mut Graph, entries: &[(String, String, String)], now: u64) -> (r: Result<u64, CapbitError>)
    requires
        old(g).wf(),
        room_for(*old(g), entries@.len()),
    ensures
        final(g).wf(),
        exists|ops: Seq<WriteOp>| #![trigger relationship_ops(ops, entries@)]
            relationship_ops(ops, entries@) && {
            &&& r matches Ok(n) ==> n == entries@.len() && exists|states: Seq<Graph>|
                #![trigger runs(states, ops, now, ops.len() as int)]
                runs(states, ops, now, ops.len() as int) && states[0] == *old(g) && states.last() == *final(g)
            &&& r matches Err(e) ==> final(g).same_state(old(g)) && exists|states: Seq<Graph>, k: int|
                #![trigger runs(states, ops, now, k)]
                0 <= k < ops.len() && runs(states, ops, now, k) && states[0] == *old(g) && op_refusal(states[k], ops[k])
                    == Some(e.message@)
        },
{
    let mut b = WriteBatch::new();
    let mut i: usize = 0;
    while i < entries.len()
        invariant
            i <= entries@.len(),
            relationship_ops(b@, entries@.take(i as int)),
        decreases entries@.len() - i,
    {
        let ghost before = b@;
        b.set_relationship(entries[i].0.as_str(), entries[i].1.as_str(), entries[i].2.as_str());
        proof {
            assert forall|j: int| 0 <= j < b@.len() implies (#[trigger] b@[j] matches WriteOp::SetRelationship {
                subject: s,
                rel_type: t,
                object: o,
            } && s@ == entries@.take(i + 1)[j].0@ && t@ == entries@.take(i + 1)[j].1@ && o@ == entries@.take(i + 1)[j].2@) by {
                if j < i {
                    assert(b@[j] == before[j]);
                }
            }
        }
        i = i + 1;
    }
    assert(entries@.take(i as int) =~= entries@);
    match b.execute(g, now) {
        Ok(_) => Ok(entries.len() as u64),
        Err(e) => Err(e),
    }
}

/// The ops of a batch of capability masks, in entry order.
pub open spec fn capability_ops(ops: Seq<WriteOp>, entries: Seq<(String, String, u64)>) -> bool {
    &&& ops.len() == entries.len()
    &&& forall|i: int| 0 <= i < ops.len() ==> (#[trigger] ops[i] matches WriteOp::SetCapability { entity: s, rel_type: t, cap_mask: o }
        && s@ == entries[i].0@ && t@ == entries[i].1@ && o == entries[i].2)
}

/// Sets each `(entity, rel_type, cap_mask)` of `entries` in order, as one
/// transaction; returns how many. When one is refused, nothing is applied.
pub fn batch_set_capabilities(g: &mut Graph, entries: &[(String, String, u64)], now: u64) -> (r: Result<u64, CapbitError>)
    requires
        old(g).wf(),
        room_for(*old(g), entries@.len()),
    ensures
        final(g).wf(),
        exists|ops: Seq<WriteOp>| #![trigger capability_ops(ops, entries@)]
            capability_ops(ops, entries@) && {
            &&& r matches Ok(n) ==> n == entries@.len() && exists|states: Seq<Graph>|
                #![trigger runs(states, ops, now, ops.len() as int)]
                runs(states, ops, now, ops.len() as int) && states[0] == *old(g) && states.last() == *final(g)
            &&& r matches Err(e) ==> final(g).same_state(old(g)) && exists|states: Seq<Graph>, k: int|
                #![trigger runs(states, ops, now, k)]
                0 <= k < ops.len() && runs(states, ops, now, k) && states[0] == *old(g) && op_refusal(states[k], ops[k])
                    == Some(e.message@)
        },
{
    let mut b = WriteBatch::new();
    let mut i: usize = 0;
    while i < entries.len()
        invariant
            i <= entries@.len(),
            capability_ops(b@, entries@.take(i as int)),
        decreases entries@.len() - i,
    {
        let ghost before = b@;
        b.set_capability(entries[i].0.as_str(), entries[i].1.as_str(), entries[i].2);
        proof {
            assert forall|j: int| 0 <= j < b@.len() implies (#[trigger] b@[j] matches WriteOp::SetCapability {
                entity: s,
                rel_type: t,
                cap_mask: o,
            } && s@ == entries@.take(i + 1)[j].0@ && t@ == entries@.take(i + 1)[j].1@ && o == entries@.take(i + 1)[j].2) by {
                if j < i {
                    assert(b@[j] == before[j]);
                }
            }
        }
        i = i + 1;
    }
    assert(entries@.take(i as int) =~= entries@);
    match b.execute(g, now) {
        Ok(_) => Ok(entries.len() as u64),
        Err(e) => Err(e),
    }
}

/// The ops of a batch of delegations, in entry order.
pub open spec fn inheritance_ops(ops: Seq<WriteOp>, entries: Seq<(String, String, String)>) -> bool {
    &&& ops.len() == entries.len()
    &&& forall|i: int| 0 <= i < ops.len() ==> (#[trigger] ops[i] matches WriteOp::SetInheritance { subject: s, object: t, source: o }
        && s@ == entries[i].0@ && t@ == entries[i].1@ && o@ == entries[i].2@)
}

/// Records each `(subject, object, source)` delegation of `entries` in
/// order, as one transaction; returns how many. When one is refused, nothing
/// is applied.
pub fn batch_set_inheritance(g: &mut Graph, entries: &[(String, String, String)], now: u64) -> (r: Result<u64, CapbitError>)
    requires
        old(g).wf(),
        room_for(*old(g), entries@.len()),
    ensures
        final(g).wf(),
        exists|ops: Seq<WriteOp>| #![trigger inheritance_ops(ops, entries@)]
            inheritance_ops(ops, entries@) && {
            &&& r matches Ok(n) ==> n == entries@.len() && exists|states: Seq<Graph>|
                #![trigger runs(states, ops, now, ops.len() as int)]
                runs(states, ops, now, ops.len() as int) && states[0] == *old(g) && states.last() == *final(g)
            &&& r matches Err(e) ==> final(g).same_state(old(g)) && exists|states: Seq<Graph>, k: int|
                #![trigger runs(states, ops, now, k)]
                0 <= k < ops.len() && runs(states, ops, now, k) && states[0] == *old(g) && op_refusal(states[k], ops[k])
                    == Some(e.message@)
        },
{
    let mut b = WriteBatch::new();
    let mut i: usize = 0;
    while i < entries.len()
        invariant
            i <= entries@.len(),
            inheritance_ops(b@, entries@.take(i as int)),
        decreases entries@.len() - i,
    {
        let ghost before = b@;
        b.set_inheritance(entries[i].0.as_str(), entries[i].1.as_str(), entries[i].2.as_str());
        proof {
            assert forall|j: int| 0 <= j < b@.len() implies (#[trigger] b@[j] matches WriteOp::SetInheritance {
                subject: s,
                object: t,
                source: o,
            } && s@ == entries@.take(i + 1)[j].0@ && t@ == entries@.take(i + 1)[j].1@ && o@ == entries@.take(i + 1)[j].2@) by {
                if j < i {
                    assert(b@[j] == before[j]);
                }
            }
        }
        i = i + 1;
    }
    assert(entries@.take(i as int) =~= entries@);
    match b.execute(g, now) {
        Ok(_) => Ok(entries.len() as u64),
        Err(e) => Err(e),
    }
}


/// All type names, ascending in byte order.
pub fn list_all_types(g: &Graph) -> (r: Result<Vec<String>, CapbitError>)
    requires
        g.wf(),
    ensures
        r matches Ok(v) && sorted_texts(views(v@)) && forall|y: Seq<char>| views(v@).contains(y) <==> g.types_map().contains_key(y),
{
    let names = g.types.names();
    let sorted = sort_texts(names);
    proof {
        assert forall|y: Seq<char>| views(names@).contains(y) <==> g.types_map().contains_key(y) by {
            if views(names@).contains(y) {
                let m = choose|m: int| 0 <= m < views(names@).len() && views(names@)[m] == y;
                assert(g.types.rows()[m].0 == y);
            }
            if g.types_map().contains_key(y) {
                let m = choose|m: int| 0 <= m < g.types.rows().len() && #[trigger] g.types.rows()[m].0 == y;
                assert(views(names@)[m] == y);
            }
        }
    }
    Ok(sorted)
}

} // verus!
