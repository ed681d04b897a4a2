//! Keys of the mask store's tables.
use vstd::prelude::*;
use crate::keys::be64;

verus! {

/// A 16-byte key from two ids, each in big-endian order, so that keys sort
/// by the first id and then by the second.
pub fn key(a: u64, b: u64) -> (k: [u8; 16])
    ensures
        k@ == be64(a) + be64(b),
{
    let k = [
        (a >> 56) as u8, (a >> 48) as u8, (a >> 40) as u8, (a >> 32) as u8,
        (a >> 24) as u8, (a >> 16) as u8, (a >> 8) as u8, a as u8,
        (b >> 56) as u8, (b >> 48) as u8, (b >> 40) as u8, (b >> 32) as u8,
        (b >> 24) as u8, (b >> 16) as u8, (b >> 8) as u8, b as u8,
    ];
    assert(k@ =~= be64(a) + be64(b));
    k
}

} // verus!
