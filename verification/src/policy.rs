//! Errors, edge policies, reserved ids and roles, and the permission bit space.
use vstd::prelude::*;
#[allow(unused_imports)]
use vstd::string::*;

verus! {

/// Errors of the store.
#[derive(Debug, Clone, PartialEq, Eq)]
pub enum Error {
    /// Actor lacks the required permission bits.
    Denied,
    /// Tuple already exists (role definition, bootstrap, object).
    Exists,
    /// Referenced tuple does not exist (e.g. granting an undefined role).
    NotFound,
    /// Operation would create a membership or delegation cycle.
    Cycle,
    /// Underlying storage error.
    Storage(String),
}

impl Error {
    /// Human-readable message: "denied", "exists", "not found", "cycle", or
    /// "storage: " followed by the storage error's text.
    pub fn message(&self) -> (s: String)
        ensures
            match self {
                Error::Denied => s@ == "denied"@,
                Error::Exists => s@ == "exists"@,
                Error::NotFound => s@ == "not found"@,
                Error::Cycle => s@ == "cycle"@,
                Error::Storage(m) => s@ == "storage: "@ + m@,
            },
    {
        match self {
            Error::Denied => String::from_str("denied"),
            Error::Exists => String::from_str("exists"),
            Error::NotFound => String::from_str("not found"),
            Error::Cycle => String::from_str("cycle"),
            Error::Storage(m) => {
                let mut s = String::from_str("storage: ");
                s.append(m.as_str());
                s
            },
        }
    }
}

/// Edge strength. Composition along a chain takes the minimum; `Not` absorbs.
#[derive(Debug, Clone, Copy, PartialEq, Eq, Structural)]
pub enum Policy {
    /// Explicit denial / exclusion. Overrides positive edges.
    Not,
    /// Discretionary, conditional (DAC-like).
    Possible,
    /// Structural, mandatory (MAC-like).
    Necessary,
}

/// The weaker of two policies.
pub open spec fn pmin(a: Policy, b: Policy) -> Policy {
    if a.level() <= b.level() {
        a
    } else {
        b
    }
}

impl Policy {
    /// Numeric level of a policy: `Not` < `Possible` < `Necessary`. This is
    /// also its stored encoding.
    pub open spec fn level(self) -> nat {
        match self {
            Policy::Not => 0,
            Policy::Possible => 1,
            Policy::Necessary => 2,
        }
    }

    /// Stored encoding of a policy.
    pub fn to_u64(self) -> (r: u64)
        ensures
            r == self.level(),
    {
        match self {
            Policy::Not => 0,
            Policy::Possible => 1,
            Policy::Necessary => 2,
        }
    }

    /// Decode a stored policy: 0 is `Not`, 1 is `Possible`, anything else `Necessary`.
    pub fn from_u64(v: u64) -> (p: Policy)
        ensures
            p == (if v == 0 {
                Policy::Not
            } else if v == 1 {
                Policy::Possible
            } else {
                Policy::Necessary
            }),
    {
        if v == 0 {
            Policy::Not
        } else if v == 1 {
            Policy::Possible
        } else {
            Policy::Necessary
        }
    }

    /// The weaker of two policies.
    pub fn min(self, other: Policy) -> (p: Policy)
        ensures
            p == pmin(self, other),
    {
        if self.to_u64() <= other.to_u64() {
            self
        } else {
            other
        }
    }
}

/// Decoding inverts encoding.
pub proof fn lemma_policy_roundtrip(p: Policy)
    ensures
        (if p.level() == 0 {
            Policy::Not
        } else if p.level() == 1 {
            Policy::Possible
        } else {
            Policy::Necessary
        }) == p,
{
}

/// Composition by `min` can only weaken: the result is no stronger than
/// either input, and it is one of them.
pub proof fn lemma_pmin_attenuates(a: Policy, b: Policy)
    ensures
        pmin(a, b).level() <= a.level(),
        pmin(a, b).level() <= b.level(),
        pmin(a, b) == a || pmin(a, b) == b,
        pmin(a, b) == pmin(b, a),
{
}

pub const _SYSTEM: u64 = 1;

pub const _ROOT: u64 = 2;

pub const _OWNER: u64 = 1;

pub const _ADMIN: u64 = 2;

pub const _EDITOR: u64 = 3;

pub const _VIEWER: u64 = 4;

/// Granting this role on a group object makes the subject a member of the group.
pub const _MEMBER: u64 = 5;

/// Read role definitions, grants, memberships, delegations on an object.
pub const _READ_META: u64 = 1;

/// Define, update, delete role definitions on an object.
pub const _DEFINE: u64 = 2;

/// Grant roles (including membership) on an object.
pub const _GRANT: u64 = 4;

/// Revoke roles on an object.
pub const _REVOKE: u64 = 8;

/// Create or remove delegation edges on an object.
pub const _DELEGATE: u64 = 16;

/// Create new objects (checked against `_SYSTEM`).
pub const _CREATE_OBJ: u64 = 32;

/// Delete an object and cascade all its tuples.
pub const _DELETE_OBJ: u64 = 64;

/// Set or clear the type-parent of an object.
pub const _SET_PARENT: u64 = 128;

/// Read the audit log (checked against `_SYSTEM`).
pub const _AUDIT: u64 = 256;

/// All bits reserved for meta-permissions (bits 0..16).
pub const META_BITS: u64 = 0xFFFF;

/// All bits available to the application (bits 16..64).
pub const APP_BITS: u64 = 0xFFFF_FFFF_FFFF_0000;

/// First application bit index.
pub const APP_BIT_BASE: u32 = 16;

/// Application permission bit `n` (0..48).
pub fn app_bit(n: u32) -> (b: u64)
    requires
        n < 48,
    ensures
        b == 1u64 << (16 + n),
        b & META_BITS == 0,
        b & APP_BITS == b,
        b != 0,
{
    let s: u32 = APP_BIT_BASE + n;
    assert((1u64 << s) & 0xFFFFu64 == 0 && (1u64 << s) & 0xFFFF_FFFF_FFFF_0000u64 == (1u64 << s)
        && (1u64 << s) != 0) by (bit_vector)
        requires
            16 <= s < 64,
    ;
    1u64 << s
}

/// Conventional application bits (apps may redefine freely).
pub const APP_READ: u64 = 0x1_0000;

pub const APP_WRITE: u64 = 0x2_0000;

pub const APP_DELETE: u64 = 0x4_0000;

/// Default role masks seeded on bootstrap and object creation.
pub const OWNER_BITS: u64 = 0xFFFF_FFFF_FFFF_FFFF;

pub const ADMIN_BITS: u64 = _READ_META | _GRANT | _REVOKE | _DELEGATE | _SET_PARENT | APP_BITS;

pub const EDITOR_BITS: u64 = _READ_META | APP_READ | APP_WRITE;

pub const VIEWER_BITS: u64 = _READ_META | APP_READ;

/// Longest delegation chain followed during resolution.
pub const MAX_DELEGATION_HOPS: usize = 10;

/// Longest type-parent chain followed during role lookup.
pub const MAX_TYPE_DEPTH: usize = 8;

/// The two permission spaces are disjoint and together cover every bit.
pub proof fn lemma_bit_spaces()
    ensures
        META_BITS & APP_BITS == 0,
        META_BITS | APP_BITS == OWNER_BITS,
        APP_READ & META_BITS == 0,
        APP_WRITE & META_BITS == 0,
        APP_DELETE & META_BITS == 0,
{
    assert(0xFFFFu64 & 0xFFFF_FFFF_FFFF_0000u64 == 0) by (bit_vector);
    assert(0xFFFFu64 | 0xFFFF_FFFF_FFFF_0000u64 == 0xFFFF_FFFF_FFFF_FFFFu64) by (bit_vector);
    assert(0x1_0000u64 & 0xFFFFu64 == 0) by (bit_vector);
    assert(0x2_0000u64 & 0xFFFFu64 == 0) by (bit_vector);
    assert(0x4_0000u64 & 0xFFFFu64 == 0) by (bit_vector);
}

/// Three-bucket resolution result. `denied` bits override the other two.
#[derive(Debug, Clone, Copy, PartialEq, Eq)]
pub struct Masks {
    /// Bits held at Necessary strength (structural / mandatory).
    pub necessary: u64,
    /// Bits held at Possible strength (discretionary / conditional).
    pub possible: u64,
    /// Bits explicitly denied. Already subtracted from the other buckets.
    pub denied: u64,
}

impl Default for Masks {
    fn default() -> (m: Masks)
        ensures
            m == (Masks { necessary: 0, possible: 0, denied: 0 }),
    {
        Masks { necessary: 0, possible: 0, denied: 0 }
    }
}

impl Masks {
    /// Flat effective mask: everything held at any positive strength, post-deny.
    pub fn allowed(&self) -> (r: u64)
        ensures
            r == self.necessary | self.possible,
    {
        self.necessary | self.possible
    }
}

/// One row of the audit log.
#[derive(Debug, Clone, Copy, PartialEq, Eq)]
pub struct AuditEntry {
    pub seq: u64,
    pub ts_ms: u64,
    pub actor: u64,
    pub op: u64,
    pub args: [u64; 4],
}

/// Audit op codes.
pub const OP_BOOTSTRAP: u64 = 1;

pub const OP_CREATE_OBJECT: u64 = 2;

pub const OP_DELETE_OBJECT: u64 = 3;

pub const OP_DEFINE_ROLE: u64 = 4;

pub const OP_UPDATE_ROLE: u64 = 5;

pub const OP_DELETE_ROLE: u64 = 6;

pub const OP_GRANT: u64 = 7;

pub const OP_REVOKE: u64 = 8;

pub const OP_DELEGATE: u64 = 9;

pub const OP_UNDELEGATE: u64 = 10;

pub const OP_SET_PARENT: u64 = 11;

pub const OP_CLEAR_PARENT: u64 = 12;

pub const OP_CLEAR: u64 = 13;

/// Open options.
#[derive(Debug, Clone)]
pub struct Options {
    /// fsync every mutation. Default true: losing a revoke is a security event.
    /// Set false for bulk loads or when the host journals elsewhere.
    pub durable: bool,
}

impl Default for Options {
    fn default() -> (o: Options)
        ensures
            o.durable,
    {
        Options { durable: true }
    }
}

} // verus!
