//! Writes of the mask store on behalf of an actor, each behind a permission
//! check: grants need GRANT on the object, role and inheritance changes need
//! ADMIN on the system object, listing needs VIEW. Apart from `grant_set`,
//! which writes at once, a write gives the operation to hand to the write
//! batcher.
use vstd::prelude::*;
#[allow(unused_imports)]
use vstd::string::*;
use crate::constants::{ADMIN, GRANT, SYSTEM_ID, VIEW};
use crate::error::CapbitError;
use crate::mask_store::{MaskStore, pairs};
use crate::planner::Op;
use crate::read::{check, effective_mask, list_for_object_internal};
use crate::table::scan_spec;
use crate::text::{decimal, decimal_string, hex_string, hexadecimal};

verus! {

/// Whether `actor` holds every bit of `perm` on `object`.
pub open spec fn allowed(st: &MaskStore, actor: u64, object: u64, perm: u64) -> bool {
    effective_mask(st, actor, object) & perm == perm
}

/// The refusal text for `actor` lacking `perm` on `object`.
pub open spec fn lacks_message(actor: u64, perm: u64, object: u64) -> Seq<char> {
    decimal(actor as nat) + " lacks "@ + hexadecimal(perm as nat) + " on "@ + decimal(object as nat)
}

/// The refusal text for `actor` lacking `perm` on the system object.
pub open spec fn lacks_system_message(actor: u64, perm: u64) -> Seq<char> {
    decimal(actor as nat) + " lacks "@ + hexadecimal(perm as nat) + " on _system"@
}

fn require(st: &MaskStore, actor: u64, object: u64, perm: u64) -> (r: Result<(), CapbitError>)
    requires
        st.wf(),
    ensures
        r is Ok <==> allowed(st, actor, object, perm),
        r matches Err(e) ==> e.0@ == lacks_message(actor, perm, object),
{
    if check(st, actor, object, perm) {
        Ok(())
    } else {
        proof {
            reveal_strlit(" lacks ");
            reveal_strlit(" on ");
        }
        let m = decimal_string(actor).concat(" lacks ").concat(hex_string(perm).as_str()).concat(" on ").concat(
            decimal_string(object).as_str(),
        );
        Err(CapbitError(m))
    }
}

fn require_system(st: &MaskStore, actor: u64, perm: u64) -> (r: Result<(), CapbitError>)
    requires
        st.wf(),
    ensures
        r is Ok <==> allowed(st, actor, SYSTEM_ID, perm),
        r matches Err(e) ==> e.0@ == lacks_system_message(actor, perm),
{
    if check(st, actor, SYSTEM_ID, perm) {
        Ok(())
    } else {
        proof {
            reveal_strlit(" lacks ");
            reveal_strlit(" on _system");
        }
        let m = decimal_string(actor).concat(" lacks ").concat(hex_string(perm).as_str()).concat(" on _system");
        Err(CapbitError(m))
    }
}

/// Checks that `actor` holds GRANT on `object`, and gives the operation that
/// ORs `mask` into the role `subject` holds there, for the write batcher.
pub fn grant(st: &MaskStore, actor: u64, subject: u64, object: u64, mask: u64) -> (r: Result<Op, CapbitError>)
    requires
        st.wf(),
    ensures
        r is Ok <==> allowed(st, actor, object, GRANT),
        r matches Err(e) ==> e.0@ == lacks_message(actor, GRANT, object),
        r matches Ok(op) ==> op == (Op::Grant { subject, object, mask }),
{
    require(st, actor, object, GRANT)?;
    Ok(Op::Grant { subject, object, mask })
}

/// Sets the role `subject` holds on `object` to exactly `mask`; `actor`
/// needs GRANT on `object`. A refused call changes nothing.
pub fn grant_set(st: &mut MaskStore, actor: u64, subject: u64, object: u64, mask: u64) -> (r: Result<(), CapbitError>)
    requires
        old(st).wf(),
    ensures
        final(st).wf(),
        r is Ok <==> allowed(old(st), actor, object, GRANT),
        r matches Err(e) ==> e.0@ == lacks_message(actor, GRANT, object) && *final(st) == *old(st),
        r is Ok ==> final(st).caps_map() == old(st).caps_map().insert((subject, object, 0), mask)
            && final(st).same_but_caps(old(st)),
{
    require(st, actor, object, GRANT)?;
    st.grant_set(subject, object, mask);
    Ok(())
}

/// Checks that `actor` holds GRANT on `object`, and gives the operation that
/// revokes everything `subject` holds there (and its link there).
pub fn revoke(st: &MaskStore, actor: u64, subject: u64, object: u64) -> (r: Result<Op, CapbitError>)
    requires
        st.wf(),
    ensures
        r is Ok <==> allowed(st, actor, object, GRANT),
        r matches Err(e) ==> e.0@ == lacks_message(actor, GRANT, object),
        r matches Ok(op) ==> op == (Op::Revoke { subject, object }),
{
    require(st, actor, object, GRANT)?;
    Ok(Op::Revoke { subject, object })
}

/// Checks that `actor` holds ADMIN on the system object, and gives the
/// operation that defines the mask of `role` on `object`.
pub fn set_role(st: &MaskStore, actor: u64, object: u64, role: u64, mask: u64) -> (r: Result<Op, CapbitError>)
    requires
        st.wf(),
    ensures
        r is Ok <==> allowed(st, actor, SYSTEM_ID, ADMIN),
        r matches Err(e) ==> e.0@ == lacks_system_message(actor, ADMIN),
        r matches Ok(op) ==> op == (Op::SetRole { object, role, mask }),
{
    require_system(st, actor, ADMIN)?;
    Ok(Op::SetRole { object, role, mask })
}

/// Checks that `actor` holds ADMIN on the system object, and gives the
/// operation that links `child` to `parent` on `object`. Whether the link
/// would close a cycle is decided when the batch holding it is flushed.
pub fn set_inherit(st: &MaskStore, actor: u64, object: u64, child: u64, parent: u64) -> (r: Result<Op, CapbitError>)
    requires
        st.wf(),
    ensures
        r is Ok <==> allowed(st, actor, SYSTEM_ID, ADMIN),
        r matches Err(e) ==> e.0@ == lacks_system_message(actor, ADMIN),
        r matches Ok(op) ==> op == (Op::SetInherit { object, child, parent }),
{
    require_system(st, actor, ADMIN)?;
    Ok(Op::SetInherit { object, child, parent })
}

/// Checks that `actor` holds ADMIN on the system object, and gives the
/// operation that removes the link of `child` on `object`.
pub fn remove_inherit(st: &MaskStore, actor: u64, object: u64, child: u64) -> (r: Result<Op, CapbitError>)
    requires
        st.wf(),
    ensures
        r is Ok <==> allowed(st, actor, SYSTEM_ID, ADMIN),
        r matches Err(e) ==> e.0@ == lacks_system_message(actor, ADMIN),
        r matches Ok(op) ==> op == (Op::RemoveInherit { object, child }),
{
    require_system(st, actor, ADMIN)?;
    Ok(Op::RemoveInherit { object, child })
}

/// The subjects holding a role on `object`, with the role, ascending by
/// subject; `actor` needs VIEW on `object`.
pub fn list_for_object(st: &MaskStore, actor: u64, object: u64) -> (r: Result<Vec<(u64, u64)>, CapbitError>)
    requires
        st.wf(),
    ensures
        r is Ok <==> allowed(st, actor, object, VIEW),
        r matches Err(e) ==> e.0@ == lacks_message(actor, VIEW, object),
        r matches Ok(v) ==> v@ == pairs(scan_spec(st.rev_rows(), object, None, 0)),
{
    require(st, actor, object, VIEW)?;
    Ok(list_for_object_internal(st, object))
}

} // verus!
