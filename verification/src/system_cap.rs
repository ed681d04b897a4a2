//! System capability bits of the entity graph.
use vstd::prelude::*;

verus! {

/// May create types (on `_type:_type`).
pub const TYPE_CREATE: u64 = 0x0001;

/// May delete types (on `_type:_type`).
pub const TYPE_DELETE: u64 = 0x0002;

/// May create entities of a type (on `_type:<type>`).
pub const ENTITY_CREATE: u64 = 0x0004;

/// May delete entities of a type (on `_type:<type>`).
pub const ENTITY_DELETE: u64 = 0x0008;

/// May read grants.
pub const GRANT_READ: u64 = 0x0010;

/// May write grants.
pub const GRANT_WRITE: u64 = 0x0020;

/// May delete grants.
pub const GRANT_DELETE: u64 = 0x0040;

/// May read capability definitions.
pub const CAP_READ: u64 = 0x0080;

/// May write capability definitions.
pub const CAP_WRITE: u64 = 0x0100;

/// May delete capability definitions.
pub const CAP_DELETE: u64 = 0x0200;

/// May read delegations.
pub const DELEGATE_READ: u64 = 0x0400;

/// May write delegations.
pub const DELEGATE_WRITE: u64 = 0x0800;

/// May delete delegations.
pub const DELEGATE_DELETE: u64 = 0x1000;

/// May see the system's own entities, grants and capabilities.
pub const SYSTEM_READ: u64 = 0x2000;

/// May manage passwords of entities of a type.
pub const PASSWORD_ADMIN: u64 = 0x4000;

/// All grant bits.
pub const GRANT_ADMIN: u64 = 0x0070;

/// All capability-definition bits.
pub const CAP_ADMIN: u64 = 0x0380;

/// All delegation bits.
pub const DELEGATE_ADMIN: u64 = 0x1C00;

/// The read bits.
pub const READ_ONLY: u64 = 0x0490;

/// Full control over the entities of a type.
pub const ENTITY_ADMIN: u64 = 0x1FFC;

/// Full control over types, entities, system visibility and passwords.
pub const TYPE_ADMIN: u64 = 0x7FFF;

/// Every capability bit.
pub const ALL: u64 = 0x7FFF;

/// The composite masks are the unions of their parts.
pub proof fn lemma_composites()
    ensures
        GRANT_ADMIN == GRANT_READ | GRANT_WRITE | GRANT_DELETE,
        CAP_ADMIN == CAP_READ | CAP_WRITE | CAP_DELETE,
        DELEGATE_ADMIN == DELEGATE_READ | DELEGATE_WRITE | DELEGATE_DELETE,
        READ_ONLY == GRANT_READ | CAP_READ | DELEGATE_READ,
        ENTITY_ADMIN == ENTITY_CREATE | ENTITY_DELETE | CAP_ADMIN | GRANT_ADMIN | DELEGATE_ADMIN,
        TYPE_ADMIN == TYPE_CREATE | TYPE_DELETE | ENTITY_ADMIN | SYSTEM_READ | PASSWORD_ADMIN,
{
    assert(0x0070u64 == 0x0010u64 | 0x0020u64 | 0x0040u64) by (bit_vector);
    assert(0x0380u64 == 0x0080u64 | 0x0100u64 | 0x0200u64) by (bit_vector);
    assert(0x1C00u64 == 0x0400u64 | 0x0800u64 | 0x1000u64) by (bit_vector);
    assert(0x0490u64 == 0x0010u64 | 0x0080u64 | 0x0400u64) by (bit_vector);
    assert(0x1FFCu64 == 0x0004u64 | 0x0008u64 | 0x0380u64 | 0x0070u64 | 0x1C00u64) by (bit_vector);
    assert(0x7FFFu64 == 0x0001u64 | 0x0002u64 | 0x1FFCu64 | 0x2000u64 | 0x4000u64) by (bit_vector);
}

} // verus!
