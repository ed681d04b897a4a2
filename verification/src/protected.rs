//! Permission-checked writes to the entity graph: each needs its system
//! capability on the scope it touches, or on the type entity of that scope.
use vstd::prelude::*;
#[allow(unused_imports)]
use vstd::string::*;
#[allow(unused_imports)]
use vstd::utf8::*;
use crate::graph::{
    CapbitError, Graph, both, then_label, capability_set, check_access, entity_created, entity_deleted, inheritance_deleted,
    inheritance_set, label_type_bytes, ltype, pack, parse_entity_id, relationship_deleted, relationship_set,
    type_prefix,
};
use crate::keys::first_colon;
use crate::system_cap::{
    CAP_WRITE, DELEGATE_DELETE, DELEGATE_WRITE, ENTITY_ADMIN, ENTITY_CREATE, ENTITY_DELETE, GRANT_DELETE,
    GRANT_WRITE, TYPE_CREATE,
};
use crate::table::Key;
use crate::text::{hex_string, hexadecimal};

verus! {

/// `n` in lowercase hexadecimal, zero-padded to at least four digits (as `{:04x}`).
pub open spec fn hex4(n: u64) -> Seq<char> {
    (if n < 0x10 {
        "000"@
    } else if n < 0x100 {
        "00"@
    } else if n < 0x1000 {
        "0"@
    } else {
        ""@
    }) + hexadecimal(n as nat)
}

/// The refusal text for `requester` lacking `required` on `scope`.
pub open spec fn lacks_permission(requester: Seq<char>, required: u64, scope: Seq<char>) -> Seq<char> {
    requester + " lacks permission 0x"@ + hex4(required) + " on "@ + scope
}

/// Whether `requester` may act with `required` on `scope`: it holds all of
/// `required` there, or (for a scope that is not itself a type entity) on
/// the type entity `"_type:<type>"` of the scope. A label that does not
/// resolve refuses with its own text.
pub open spec fn permission(g: Graph, requester: Seq<char>, scope: Seq<char>, required: u64) -> Result<(), Seq<char>> {
    match g.access_view(requester, scope, 100) {
        Err(m) => Err(m),
        Ok(caps) => if caps & required == required {
            Ok(())
        } else {
            let b = encode_utf8(scope);
            if !type_prefix().is_prefix_of(b) && b.contains(58u8) {
                match g.access_view(requester, "_type:"@ + decode_utf8(label_type_bytes(b)), 100) {
                    Err(m) => Err(m),
                    Ok(tc) => if tc & required == required {
                        Ok(())
                    } else {
                        Err(lacks_permission(requester, required, scope))
                    },
                }
            } else {
                Err(lacks_permission(requester, required, scope))
            }
        },
    }
}

fn starts_with_type(s: &str) -> (b: bool)
    ensures
        b == type_prefix().is_prefix_of(s.spec_bytes()),
{
    let prefix: [u8; 6] = [95, 116, 121, 112, 101, 58];
    assert(prefix@ =~= type_prefix());
    let sb = s.as_bytes();
    if sb.len() < 6 {
        return false;
    }
    let r = crate::text::bytes_equal(vstd::slice::slice_subrange(sb, 0, 6), &prefix);
    assert(sb@.subrange(0, 6) == type_prefix() <==> type_prefix().is_prefix_of(sb@));
    r
}

fn hex4_string(n: u64) -> (s: String)
    ensures
        s@ == hex4(n),
{
    proof {
        reveal_strlit("000");
        reveal_strlit("00");
        reveal_strlit("0");
        reveal_strlit("");
    }
    let pad = if n < 0x10 {
        "000"
    } else if n < 0x100 {
        "00"
    } else if n < 0x1000 {
        "0"
    } else {
        ""
    };
    String::from_str(pad).concat(hex_string(n).as_str())
}

/// Checks that `requester` holds `required` on `scope` (or on its type entity).
pub fn check_permission(g: &Graph, requester: &str, scope: &str, required: u64) -> (r: Result<(), CapbitError>)
    requires
        g.wf(),
    ensures
        r is Ok <==> permission(*g, requester@, scope@, required) is Ok,
        r matches Err(e) ==> permission(*g, requester@, scope@, required) == Err::<(), Seq<char>>(e.message@),
{
    let caps = match check_access(g, requester, scope, None) {
        Ok(c) => c,
        Err(e) => return Err(e),
    };
    if (caps & required) == required {
        return Ok(());
    }
    if !starts_with_type(scope) {
        match parse_entity_id(scope) {
            Ok((t, _)) => {
                proof {
                    reveal_strlit("_type:");
                }
                let ts = String::from_str("_type:").concat(t);
                let tc = match check_access(g, requester, ts.as_str(), None) {
                    Ok(c) => c,
                    Err(e) => return Err(e),
                };
                if (tc & required) == required {
                    return Ok(());
                }
            },
            Err(_) => {},
        }
    }
    proof {
        reveal_strlit(" lacks permission 0x");
        reveal_strlit(" on ");
    }
    let m = String::from_str(requester).concat(" lacks permission 0x").concat(hex4_string(required).as_str()).concat(
        " on ",
    ).concat(scope);
    Err(CapbitError { message: m })
}

/// Creates the entity `"<entity_type>:<id>"`; needs ENTITY_CREATE on
/// `"_type:<entity_type>"`. Refused, with the graph unchanged, when the
/// permission is missing or the entity cannot be created.
pub fn create_entity(g: &mut Graph, requester: &str, entity_type: &str, id: &str) -> (r: Result<(u32, u32), CapbitError>)
    requires
        old(g).wf(),
        old(g).has_room(),
    ensures
        final(g).wf(),
        ({
            let scope = "_type:"@ + entity_type@;
            let label = entity_type@ + ":"@ + id@;
            match permission(*old(g), requester@, scope, ENTITY_CREATE) {
                Err(m) => r matches Err(e) && e.message@ == m && *final(g) == *old(g),
                Ok(()) => match old(g).create_refusal_view(label) {
                    Some(m) => r matches Err(e) && e.message@ == m && *final(g) == *old(g),
                    None => r matches Ok((tid, eid)) && entity_created(*old(g), *final(g), label, tid, eid),
                },
            }
        }),
{
    proof {
        reveal_strlit("_type:");
        reveal_strlit(":");
    }
    let scope = String::from_str("_type:").concat(entity_type);
    match check_permission(g, requester, scope.as_str(), ENTITY_CREATE) {
        Ok(()) => {},
        Err(e) => return Err(e),
    }
    let label = String::from_str(entity_type).concat(":").concat(id);
    g.create_entity_in(label.as_str())
}

/// Deletes the entity `entity_id` (and cascades); needs ENTITY_DELETE on
/// `"_type:<type>"`. Refused, with the graph unchanged, when the label has no
/// `':'`, the permission is missing, or the entity does not resolve.
pub fn delete_entity(g: &mut Graph, requester: &str, entity_id: &str) -> (r: Result<bool, CapbitError>)
    requires
        old(g).wf(),
    ensures
        final(g).wf(),
        !entity_id.spec_bytes().contains(58u8) ==> (r matches Err(e) && e.message@ == "Invalid entity ID '"@ + entity_id@
            + "': must be 'type:id' format"@ && *final(g) == *old(g)),
        entity_id.spec_bytes().contains(58u8) ==> ({
            let scope = "_type:"@ + ltype(entity_id@);
            match permission(*old(g), requester@, scope, ENTITY_DELETE) {
                Err(m) => r matches Err(e) && e.message@ == m && *final(g) == *old(g),
                Ok(()) => match old(g).resolved(entity_id) {
                    Err(m) => r matches Err(e) && e.message@ == m && *final(g) == *old(g),
                    Ok((t, i)) => r matches Ok(found) && found == (old(g).entity_name(t, i) is Some) && (!found ==> *final(g) == *old(g)) && (found ==> entity_deleted(*old(g), *final(g), t, i)),
                },
            }
        }),
{
    let (t, _) = match parse_entity_id(entity_id) {
        Ok(p) => p,
        Err(e) => return Err(e),
    };
    proof {
        reveal_strlit("_type:");
    }
    let scope = String::from_str("_type:").concat(t);
    match check_permission(g, requester, scope.as_str(), ENTITY_DELETE) {
        Ok(()) => {},
        Err(e) => return Err(e),
    }
    g.delete_entity_by_label_in(entity_id)
}

/// Grants role `relation` to `seeker` on `scope`; needs GRANT_WRITE on
/// `scope`, and a scope that is a type entity or exists.
pub fn set_grant(g: &mut Graph, requester: &str, seeker: &str, relation: &str, scope: &str, now: u64) -> (r: Result<u64, CapbitError>)
    requires
        old(g).wf(),
        old(g).has_room(),
    ensures
        final(g).wf(),
        match permission(*old(g), requester@, scope@, GRANT_WRITE) {
            Err(m) => r matches Err(e) && e.message@ == m && *final(g) == *old(g),
            Ok(()) => if !type_prefix().is_prefix_of(scope.spec_bytes()) && old(g).resolved(scope) is Err {
                r matches Err(e) && e.message@ == "Scope '"@ + scope@ + "' does not exist"@ && *final(g) == *old(g)
            } else {
                match then_label(both(old(g).resolved(seeker), old(g).resolved(scope)), relation@) {
                    Err(m) => r matches Err(e) && e.message@ == m && *final(g) == *old(g),
                    Ok(_) => r == Ok::<u64, CapbitError>(now) && relationship_set(*old(g), *final(g), seeker@, relation@, scope@, now),
                }
            },
        },
{
    match check_permission(g, requester, scope, GRANT_WRITE) {
        Ok(()) => {},
        Err(e) => return Err(e),
    }
    if !starts_with_type(scope) && !g.entity_exists_in(scope) {
        proof {
            reveal_strlit("Scope '");
            reveal_strlit("' does not exist");
        }
        return Err(CapbitError { message: String::from_str("Scope '").concat(scope).concat("' does not exist") });
    }
    g.set_relationship_in(seeker, relation, scope, now)
}

/// Removes the grant of role `relation` to `seeker` on `scope`; needs
/// GRANT_DELETE on `scope`.
pub fn delete_grant(g: &mut Graph, requester: &str, seeker: &str, relation: &str, scope: &str) -> (r: Result<bool, CapbitError>)
    requires
        old(g).wf(),
    ensures
        final(g).wf(),
        match permission(*old(g), requester@, scope@, GRANT_DELETE) {
            Err(m) => r matches Err(e) && e.message@ == m && *final(g) == *old(g),
            Ok(()) => (r is Ok <==> both(old(g).resolved(seeker), old(g).resolved(scope)) is Ok && old(g).role_id_of(
                relation@,
            ) is Some) && (r is Err ==> *final(g) == *old(g)) && (r matches Ok(had) ==> relationship_deleted(
                *old(g),
                *final(g),
                seeker@,
                relation@,
                scope@,
                had,
            )),
        },
{
    match check_permission(g, requester, scope, GRANT_DELETE) {
        Ok(()) => {},
        Err(e) => return Err(e),
    }
    g.delete_relationship_in(seeker, relation, scope)
}

/// Sets the capability mask of role `relation` on `scope`; needs CAP_WRITE
/// on `scope`.
pub fn set_capability(g: &mut Graph, requester: &str, scope: &str, relation: &str, cap_mask: u64, now: u64) -> (r: Result<u64, CapbitError>)
    requires
        old(g).wf(),
        old(g).has_room(),
    ensures
        final(g).wf(),
        match permission(*old(g), requester@, scope@, CAP_WRITE) {
            Err(m) => r matches Err(e) && e.message@ == m && *final(g) == *old(g),
            Ok(()) => match then_label(old(g).resolved(scope), relation@) {
                Err(m) => r matches Err(e) && e.message@ == m && *final(g) == *old(g),
                Ok(_) => r == Ok::<u64, CapbitError>(now) && capability_set(*old(g), *final(g), scope@, relation@, cap_mask),
            },
        },
{
    match check_permission(g, requester, scope, CAP_WRITE) {
        Ok(()) => {},
        Err(e) => return Err(e),
    }
    g.set_capability_in(scope, relation, cap_mask, now)
}

/// Records that `seeker` inherits on `scope` what `delegate` holds there;
/// needs DELEGATE_WRITE on `scope`.
pub fn set_delegation(g: &mut Graph, requester: &str, seeker: &str, scope: &str, delegate: &str, now: u64) -> (r: Result<u64, CapbitError>)
    requires
        old(g).wf(),
    ensures
        final(g).wf(),
        match permission(*old(g), requester@, scope@, DELEGATE_WRITE) {
            Err(m) => r matches Err(e) && e.message@ == m && *final(g) == *old(g),
            Ok(()) => match old(g).delegation_key(seeker, scope, delegate) {
                Err(m) => r matches Err(e) && e.message@ == m && *final(g) == *old(g),
                Ok(_) => r == Ok::<u64, CapbitError>(now) && inheritance_set(*old(g), *final(g), seeker@, scope@, delegate@, now),
            },
        },
{
    match check_permission(g, requester, scope, DELEGATE_WRITE) {
        Ok(()) => {},
        Err(e) => return Err(e),
    }
    g.set_inheritance_in(seeker, scope, delegate, now)
}

/// Removes a delegation; needs DELEGATE_DELETE on `scope`.
pub fn delete_delegation(g: &mut Graph, requester: &str, seeker: &str, scope: &str, delegate: &str) -> (r: Result<bool, CapbitError>)
    requires
        old(g).wf(),
    ensures
        final(g).wf(),
        match permission(*old(g), requester@, scope@, DELEGATE_DELETE) {
            Err(m) => r matches Err(e) && e.message@ == m && *final(g) == *old(g),
            Ok(()) => match old(g).delegation_key(seeker, scope, delegate) {
                Err(m) => r matches Err(e) && e.message@ == m && *final(g) == *old(g),
                Ok(_) => r matches Ok(had) && inheritance_deleted(*old(g), *final(g), seeker@, scope@, delegate@, had),
            },
        },
{
    match check_permission(g, requester, scope, DELEGATE_DELETE) {
        Ok(()) => {},
        Err(e) => return Err(e),
    }
    g.delete_inheritance_in(seeker, scope, delegate)
}

/// `g1` is `g0` after creating type `t` under the next type id.
pub open spec fn type_added(g0: Graph, g1: Graph, t: Seq<char>) -> bool {
    let id = (g0.last_type() + 1) as u32;
    &&& g1.last_type() == id
    &&& g1.types_map() == g0.types_map().insert(t, id as u64)
    &&& g1.type_names_map() == g0.type_names_map().insert((id as u64, 0, 0), t)
    &&& g1.entities_map() == g0.entities_map()
    &&& g1.counters_map() == g0.counters_map()
    &&& g1.same_links(&g0)
}

/// Room to create a type with its type entity, role and grant.
pub open spec fn room_for_type(g: Graph) -> bool {
    &&& g.last_type() + 2 < u32::MAX
    &&& g.last_role() + 2 < u32::MAX
    &&& forall|k: Key| #[trigger] g.counters_map().contains_key(k) ==> g.counters_map()[k] + 1 < u32::MAX
}

/// Creates type `tname` with its type entity `"_type:<tname>"`, defines the
/// `admin` role there as ENTITY_ADMIN, and grants `admin` on it to
/// `requester`; returns `now`. Needs TYPE_CREATE on `"_type:_type"`. One
/// transaction: when a step is refused, the graph is left as it was.
pub fn create_type(g: &mut Graph, requester: &str, tname: &str, now: u64) -> (r: Result<u64, CapbitError>)
    requires
        old(g).wf(),
        room_for_type(*old(g)),
    ensures
        final(g).wf(),
        ({
            let te = "_type:"@ + tname@;
            match permission(*old(g), requester@, "_type:_type"@, TYPE_CREATE) {
                Err(m) => r matches Err(e) && e.message@ == m && *final(g) == *old(g),
                Ok(()) => if old(g).types_map().contains_key(tname@) {
                    r matches Err(e) && e.message@ == "Type '"@ + tname@ + "' already exists"@ && *final(g) == *old(g)
                } else {
                    exists|g1: Graph, g2: Graph, g3: Graph| #![trigger type_added(*old(g), g1, tname@), g2.wf(), g3.wf()]
                        type_added(*old(g), g1, tname@) && match g1.create_refusal_view(te) {
                            Some(m) => r matches Err(e) && e.message@ == m && final(g).same_state(old(g)),
                            None => (exists|tid: u32, eid: u32| entity_created(g1, g2, te, tid, eid)) && match g2.resolved_view(te) {
                                Err(m) => r matches Err(e) && e.message@ == m && final(g).same_state(old(g)),
                                Ok(_) => capability_set(g2, g3, te, "admin"@, ENTITY_ADMIN) && match both(
                                    g3.resolved_view(requester@),
                                    g3.resolved_view(te),
                                ) {
                                    Err(m) => r matches Err(e) && e.message@ == m && final(g).same_state(old(g)),
                                    Ok(_) => r == Ok::<u64, CapbitError>(now) && relationship_set(g3, *final(g), requester@, "admin"@, te, now),
                                },
                            },
                        }
                },
            }
        }),
{
    proof {
        reveal_strlit("_type:_type");
        reveal_strlit("_type:");
        reveal_strlit("admin");
    }
    match check_permission(g, requester, "_type:_type", TYPE_CREATE) {
        Ok(()) => {},
        Err(e) => return Err(e),
    }
    let snap = g.duplicate();
    let ghost g0 = *g;
    match g.create_type_in(tname) {
        Ok(_) => {},
        Err(e) => return Err(e),
    }
    let ghost g1 = *g;
    let te = String::from_str("_type:").concat(tname);
    proof {
        assert forall|k: Key| #[trigger] g.counters_map().contains_key(k) implies g.counters_map()[k] < u32::MAX by {
            assert(g0.counters_map().contains_key(k));
        }
    }
    match g.create_entity_in(te.as_str()) {
        Ok(_) => {},
        Err(e) => {
            *g = snap;
            proof {
                assert(type_added(g0, g1, tname@));
            }
            return Err(e);
        },
    }
    let ghost g2 = *g;
    proof {
        let (tid, eid) = choose|tid: u32, eid: u32| entity_created(g1, g2, te@, tid, eid);
        assert forall|k: Key| #[trigger] g.counters_map().contains_key(k) implies g.counters_map()[k] < u32::MAX by {
            if k != (tid as u64, 0u64, 0u64) {
                assert(g1.counters_map().contains_key(k));
                assert(g0.counters_map().contains_key(k));
            } else {
                if g0.counters_map().contains_key(k) {
                    assert(g0.counters_map()[k] + 1 < u32::MAX);
                }
            }
        }
    }
    match g.set_capability_in(te.as_str(), "admin", ENTITY_ADMIN, now) {
        Ok(_) => {},
        Err(e) => {
            *g = snap;
            proof {
                assert(type_added(g0, g1, tname@));
            }
            return Err(e);
        },
    }
    let ghost g3 = *g;
    proof {
        assert forall|k: Key| #[trigger] g.counters_map().contains_key(k) implies g.counters_map()[k] < u32::MAX by {
            assert(g2.counters_map().contains_key(k));
        }
    }
    match g.set_relationship_in(requester, "admin", te.as_str(), now) {
        Ok(_) => {},
        Err(e) => {
            *g = snap;
            proof {
                assert(type_added(g0, g1, tname@));
            }
            return Err(e);
        },
    }
    proof {
        assert(type_added(g0, g1, tname@));
    }
    Ok(now)
}

} // verus!
