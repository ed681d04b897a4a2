//! Bootstrap of the mask store: the system object, the root user, the system
//! roles, and the root user's full role on the system object.
use vstd::prelude::*;
#[allow(unused_imports)]
use vstd::string::*;
use crate::constants::{ADMIN, GRANT, ROLE_ADMIN, ROLE_FULL, ROLE_GRANTER, ROLE_VIEWER, ROOT_USER_ID, SYSTEM_ID, VIEW};
use crate::error::CapbitError;
use crate::mask_store::{MaskStore, relabelled};
use crate::read::{effective_mask, get_mask};

verus! {

/// Bootstrapped: the root user holds some permission on the system object.
pub open spec fn bootstrapped(st: &MaskStore) -> bool {
    effective_mask(st, ROOT_USER_ID, SYSTEM_ID) != 0
}

/// Whether the store has been bootstrapped.
pub fn is_bootstrapped(st: &MaskStore) -> (b: bool)
    requires
        st.wf(),
    ensures
        b == bootstrapped(st),
{
    get_mask(st, ROOT_USER_ID, SYSTEM_ID) != 0
}

/// The root user's id once bootstrapped; `None` before.
pub fn get_root_user(st: &MaskStore) -> (r: Result<Option<u64>, CapbitError>)
    requires
        st.wf(),
    ensures
        r == Ok::<Option<u64>, CapbitError>(if bootstrapped(st) {
            Some(ROOT_USER_ID)
        } else {
            None
        }),
{
    if is_bootstrapped(st) {
        Ok(Some(ROOT_USER_ID))
    } else {
        Ok(None)
    }
}

/// The system object's id, once bootstrapped.
pub fn get_system(st: &MaskStore) -> (r: Result<u64, CapbitError>)
    requires
        st.wf(),
    ensures
        r is Ok <==> bootstrapped(st),
        r matches Ok(id) ==> id == SYSTEM_ID,
        r matches Err(e) ==> e.0@ == "Not bootstrapped"@,
{
    if is_bootstrapped(st) {
        Ok(SYSTEM_ID)
    } else {
        proof {
            reveal_strlit("Not bootstrapped");
        }
        Err(CapbitError(String::from_str("Not bootstrapped")))
    }
}

/// Bootstraps the store and returns `(system_id, root_user_id)`: labels the
/// system object `_system` and the root user `_root_user`, defines the
/// granter, admin, viewer and full roles on the system object, gives the
/// root user the full role there, and hands out ids from 3 on. Refused, with
/// the store unchanged, when already bootstrapped.
pub fn bootstrap(st: &mut MaskStore) -> (r: Result<(u64, u64), CapbitError>)
    requires
        old(st).wf(),
    ensures
        final(st).wf(),
        r is Err <==> bootstrapped(old(st)),
        r matches Err(e) ==> e.0@ == "Already bootstrapped"@ && *final(st) == *old(st),
        r matches Ok(ids) ==> ids == (SYSTEM_ID, ROOT_USER_ID),
        r is Ok ==> {
            let l1 = relabelled(old(st).label_map(), old(st).name_map(), SYSTEM_ID, "_system"@);
            let n1 = old(st).name_map().insert("_system"@, SYSTEM_ID);
            &&& final(st).label_map() == relabelled(l1, n1, ROOT_USER_ID, "_root_user"@)
            &&& final(st).name_map() == n1.insert("_root_user"@, ROOT_USER_ID)
            &&& final(st).roles_map() == old(st).roles_map().insert((SYSTEM_ID, ROLE_GRANTER, 0), GRANT).insert(
                (SYSTEM_ID, ROLE_ADMIN, 0),
                ADMIN,
            ).insert((SYSTEM_ID, ROLE_VIEWER, 0), VIEW).insert((SYSTEM_ID, ROLE_FULL, 0), GRANT | ADMIN | VIEW)
            &&& final(st).caps_map() == old(st).caps_map().insert(
                (ROOT_USER_ID, SYSTEM_ID, 0),
                (match old(st).cap(ROOT_USER_ID, SYSTEM_ID) {
                    Some(v) => v,
                    None => 0,
                }) | ROLE_FULL,
            )
            &&& final(st).inh_map() == old(st).inh_map()
            &&& final(st).next() == 3
        },
{
    if is_bootstrapped(st) {
        proof {
            reveal_strlit("Already bootstrapped");
        }
        return Err(CapbitError(String::from_str("Already bootstrapped")));
    }
    st.set_label(SYSTEM_ID, "_system");
    st.set_label(ROOT_USER_ID, "_root_user");
    st.set_role(SYSTEM_ID, ROLE_GRANTER, GRANT);
    st.set_role(SYSTEM_ID, ROLE_ADMIN, ADMIN);
    st.set_role(SYSTEM_ID, ROLE_VIEWER, VIEW);
    st.set_role(SYSTEM_ID, ROLE_FULL, GRANT | ADMIN | VIEW);
    st.grant(ROOT_USER_ID, SYSTEM_ID, ROLE_FULL);
    st.set_next_id(3);
    Ok((SYSTEM_ID, ROOT_USER_ID))
}

} // verus!
