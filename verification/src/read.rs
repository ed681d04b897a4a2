//! Reads of the mask store.
use vstd::prelude::*;
#[allow(unused_imports)]
use vstd::string::*;
use crate::constants::MAX_INHERITANCE_DEPTH;
use crate::mask_store::{MaskStore, pairs};
use crate::table::scan_spec;

verus! {

/// The bits the role `subject` holds on `object` stands for: nothing for no
/// role or role 0; the role's mask when defined on `object`; else the role
/// id's own bits.
pub open spec fn role_bits(st: &MaskStore, subject: u64, object: u64) -> u64 {
    match st.cap(subject, object) {
        None => 0,
        Some(r) => if r == 0 {
            0
        } else {
            match st.role_mask(object, r) {
                Some(m) => m,
                None => r,
            }
        },
    }
}

/// `acc` united with the role bits of `subject` and of its parents on
/// `object`, taking at most `steps` subjects.
pub open spec fn chain_mask(st: &MaskStore, acc: u64, subject: u64, object: u64, steps: nat) -> u64
    decreases steps,
{
    if steps == 0 {
        acc
    } else {
        let acc2 = acc | role_bits(st, subject, object);
        match st.parent(object, subject) {
            Some(p) => chain_mask(st, acc2, p, object, (steps - 1) as nat),
            None => acc2,
        }
    }
}

/// The permissions of `subject` on `object`: the union of the role bits along
/// its inheritance chain on `object`, over at most ten subjects.
pub open spec fn effective_mask(st: &MaskStore, subject: u64, object: u64) -> u64 {
    chain_mask(st, 0, subject, object, MAX_INHERITANCE_DEPTH as nat)
}

/// Computes the permissions of `subject` on `object` (no recursion).
pub fn resolve(st: &MaskStore, subject: u64, object: u64) -> (mask: u64)
    requires
        st.wf(),
    ensures
        mask == effective_mask(st, subject, object),
{
    let mut mask: u64 = 0;
    let mut s = subject;
    let mut i: usize = 0;
    while i < MAX_INHERITANCE_DEPTH
        invariant
            st.wf(),
            i <= MAX_INHERITANCE_DEPTH,
            effective_mask(st, subject, object) == chain_mask(st, mask, s, object, (MAX_INHERITANCE_DEPTH - i) as nat),
        decreases MAX_INHERITANCE_DEPTH - i,
    {
        let role = st.get_cap(s, object);
        let bits = if role == 0 {
            0
        } else {
            match st.get_role_mask(object, role) {
                Some(m) => m,
                None => role,
            }
        };
        mask = mask | bits;
        match st.get_parent(object, s) {
            Some(p) => s = p,
            None => return mask,
        }
        i = i + 1;
    }
    mask
}

/// The permissions of `subject` on `object`.
pub fn get_mask(st: &MaskStore, subject: u64, object: u64) -> (mask: u64)
    requires
        st.wf(),
    ensures
        mask == effective_mask(st, subject, object),
{
    resolve(st, subject, object)
}

/// The role `subject` holds directly on `object`, 0 for none.
pub fn get_role_id(st: &MaskStore, subject: u64, object: u64) -> (role: u64)
    requires
        st.wf(),
    ensures
        role == (match st.cap(subject, object) {
            Some(v) => v,
            None => 0,
        }),
{
    st.get_cap(subject, object)
}

/// Whether `subject` holds every bit of `required` on `object`.
pub fn check(st: &MaskStore, subject: u64, object: u64, required: u64) -> (ok: bool)
    requires
        st.wf(),
    ensures
        ok == (effective_mask(st, subject, object) & required == required),
{
    (get_mask(st, subject, object) & required) == required
}

/// The mask of `role` on `object`; an undefined role stands for its own bits.
pub fn get_role(st: &MaskStore, object: u64, role: u64) -> (mask: u64)
    requires
        st.wf(),
    ensures
        mask == (match st.role_mask(object, role) {
            Some(m) => m,
            None => role,
        }),
{
    match st.get_role_mask(object, role) {
        Some(m) => m,
        None => role,
    }
}

/// The parent of `child` on `object`.
pub fn get_inherit(st: &MaskStore, object: u64, child: u64) -> (parent: Option<u64>)
    requires
        st.wf(),
    ensures
        parent == st.parent(object, child),
{
    st.get_parent(object, child)
}

/// The objects `subject` holds a role on, with the role, ascending by object.
pub fn list_for_subject(st: &MaskStore, subject: u64) -> (r: Vec<(u64, u64)>)
    requires
        st.wf(),
    ensures
        r@ == pairs(scan_spec(st.cap_rows(), subject, None, 0)),
{
    st.list_fwd(subject)
}

/// How many objects `subject` holds a role on.
pub fn count_for_subject(st: &MaskStore, subject: u64) -> (n: usize)
    requires
        st.wf(),
    ensures
        n == scan_spec(st.cap_rows(), subject, None, 0).len(),
{
    st.list_fwd(subject).len()
}

/// How many subjects hold a role on `object`.
pub fn count_for_object(st: &MaskStore, object: u64) -> (n: usize)
    requires
        st.wf(),
    ensures
        n == scan_spec(st.rev_rows(), object, None, 0).len(),
{
    st.list_rev(object).len()
}

/// The label of entity `id`.
pub fn get_label(st: &MaskStore, id: u64) -> (r: Option<String>)
    requires
        st.wf(),
    ensures
        r is Some <==> st.label_map().contains_key(id),
        r matches Some(s) ==> s@ == st.label_map()[id],
{
    st.get_label(id)
}

/// The entity id stored under `name`.
pub fn get_id_by_label(st: &MaskStore, name: &str) -> (r: Option<u64>)
    requires
        st.wf(),
    ensures
        r == (if st.name_map().contains_key(name@) { Some(st.name_map()[name@]) } else { None::<u64> }),
{
    st.get_id_by_label(name)
}

/// All entity labels, ascending by id.
pub fn list_labels(st: &MaskStore) -> (r: Vec<(u64, String)>)
    requires
        st.wf(),
    ensures
        r@.map_values(|e: (u64, String)| (e.0, e.1@)) == st.label_rows(),
{
    st.list_labels()
}

/// The subjects holding a role on `object`, with the role, ascending by
/// subject; no permission check.
pub fn list_for_object_internal(st: &MaskStore, object: u64) -> (r: Vec<(u64, u64)>)
    requires
        st.wf(),
    ensures
        r@ == pairs(scan_spec(st.rev_rows(), object, None, 0)),
{
    st.list_rev(object)
}

} // verus!
