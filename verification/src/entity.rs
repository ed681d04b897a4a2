//! Entity management in the mask store: entities are ids with labels, and
//! need no permission.
use vstd::prelude::*;
use crate::mask_store::{MaskStore, relabelled};

verus! {

/// Creates an entity named `name` and returns its id (the next free one).
pub fn create_entity(st: &mut MaskStore, name: &str) -> (id: u64)
    requires
        old(st).wf(),
        old(st).next() < u64::MAX,
    ensures
        final(st).wf(),
        id == old(st).next(),
        final(st).next() == id + 1,
        final(st).label_map() == old(st).label_map().insert(id, name@),
        final(st).name_map() == old(st).name_map().insert(name@, id),
        final(st).same_grants(old(st)),
{
    st.create_entity(name)
}

/// Renames entity `id` to `new_name`, releasing its old name.
pub fn rename_entity(st: &mut MaskStore, id: u64, new_name: &str)
    requires
        old(st).wf(),
    ensures
        final(st).wf(),
        final(st).label_map() == old(st).label_map().insert(id, new_name@),
        final(st).name_map() == (if old(st).label_map().contains_key(id) {
            old(st).name_map().remove(old(st).label_map()[id])
        } else {
            old(st).name_map()
        }).insert(new_name@, id),
        final(st).same_grants(old(st)),
        final(st).next() == old(st).next(),
{
    st.rename_entity(id, new_name)
}

/// Deletes entity `id`'s label and name; whether it had a label.
pub fn delete_entity(st: &mut MaskStore, id: u64) -> (had: bool)
    requires
        old(st).wf(),
    ensures
        final(st).wf(),
        had == old(st).label_map().contains_key(id),
        final(st).label_map() == old(st).label_map().remove(id),
        final(st).name_map() == (if old(st).label_map().contains_key(id) {
            old(st).name_map().remove(old(st).label_map()[id])
        } else {
            old(st).name_map()
        }),
        final(st).same_grants(old(st)),
        final(st).next() == old(st).next(),
{
    st.delete_entity(id)
}

/// Labels entity `id` with `name`, taking the name from any entity that held it.
pub fn set_label(st: &mut MaskStore, id: u64, name: &str)
    requires
        old(st).wf(),
    ensures
        final(st).wf(),
        final(st).label_map() == relabelled(old(st).label_map(), old(st).name_map(), id, name@),
        final(st).name_map() == old(st).name_map().insert(name@, id),
        final(st).same_grants(old(st)),
        final(st).next() == old(st).next(),
{
    st.set_label(id, name)
}

} // verus!
