//! Permission bits, reserved ids and roles of the mask store, and the names of
//! the permission bits.
use vstd::prelude::*;
#[allow(unused_imports)]
use vstd::string::*;
#[allow(unused_imports)]
use vstd::utf8::*;
use crate::text::bytes_equal;

verus! {

/// May read.
pub const READ: u64 = 1;

/// May write.
pub const WRITE: u64 = 2;

/// May delete.
pub const DELETE: u64 = 4;

/// May create.
pub const CREATE: u64 = 8;

/// May grant and revoke on the object.
pub const GRANT: u64 = 16;

/// May execute.
pub const EXECUTE: u64 = 32;

/// May list who holds permissions on the object.
pub const VIEW: u64 = 0x4000_0000_0000_0000;

/// May define roles and inheritance.
pub const ADMIN: u64 = 0x8000_0000_0000_0000;

/// The system object, created by bootstrap.
pub const SYSTEM_ID: u64 = 1;

/// The root user, created by bootstrap.
pub const ROOT_USER_ID: u64 = 2;

/// Role on the system object: may grant and revoke.
pub const ROLE_GRANTER: u64 = 1;

/// Role on the system object: may define roles and inheritance.
pub const ROLE_ADMIN: u64 = 2;

/// Role on the system object: may list holders.
pub const ROLE_VIEWER: u64 = 3;

/// Role on the system object: all system permissions.
pub const ROLE_FULL: u64 = 4;

/// Longest inheritance chain that is followed.
pub const MAX_INHERITANCE_DEPTH: usize = 10;

/// Name of permission bit number `i` in the naming table (0..8).
pub open spec fn cap_name(i: int) -> Seq<char> {
    if i == 0 {
        "read"@
    } else if i == 1 {
        "write"@
    } else if i == 2 {
        "delete"@
    } else if i == 3 {
        "create"@
    } else if i == 4 {
        "grant"@
    } else if i == 5 {
        "execute"@
    } else if i == 6 {
        "view"@
    } else {
        "admin"@
    }
}

/// Bit of entry `i` of the naming table (0..8).
pub open spec fn cap_bit(i: int) -> u64 {
    if i == 0 {
        READ
    } else if i == 1 {
        WRITE
    } else if i == 2 {
        DELETE
    } else if i == 3 {
        CREATE
    } else if i == 4 {
        GRANT
    } else if i == 5 {
        EXECUTE
    } else if i == 6 {
        VIEW
    } else {
        ADMIN
    }
}

/// Names, in table order, of the first `n` table entries whose bit `mask` holds.
pub open spec fn names_in(mask: u64, n: int) -> Seq<Seq<char>>
    decreases n,
{
    if n <= 0 {
        seq![]
    } else {
        names_in(mask, n - 1) + if mask & cap_bit(n - 1) == cap_bit(n - 1) {
            seq![cap_name(n - 1)]
        } else {
            seq![]
        }
    }
}

/// The bit named `s` in the table, or 0 for a name not in it.
pub open spec fn bit_named(s: Seq<char>) -> u64 {
    if s == cap_name(0) {
        cap_bit(0)
    } else if s == cap_name(1) {
        cap_bit(1)
    } else if s == cap_name(2) {
        cap_bit(2)
    } else if s == cap_name(3) {
        cap_bit(3)
    } else if s == cap_name(4) {
        cap_bit(4)
    } else if s == cap_name(5) {
        cap_bit(5)
    } else if s == cap_name(6) {
        cap_bit(6)
    } else if s == cap_name(7) {
        cap_bit(7)
    } else {
        0
    }
}

/// The union of the bits named by `names[..n]`.
pub open spec fn bits_named(names: Seq<Seq<char>>, n: int) -> u64
    decreases n,
{
    if n <= 0 {
        0
    } else {
        bits_named(names, n - 1) | bit_named(names[n - 1])
    }
}

fn cap_entry(i: usize) -> (r: (&'static str, u64))
    requires
        i < 8,
    ensures
        r.0@ == cap_name(i as int),
        r.1 == cap_bit(i as int),
{
    proof {
        reveal_strlit("read");
        reveal_strlit("write");
        reveal_strlit("delete");
        reveal_strlit("create");
        reveal_strlit("grant");
        reveal_strlit("execute");
        reveal_strlit("view");
        reveal_strlit("admin");
    }
    if i == 0 {
        ("read", READ)
    } else if i == 1 {
        ("write", WRITE)
    } else if i == 2 {
        ("delete", DELETE)
    } else if i == 3 {
        ("create", CREATE)
    } else if i == 4 {
        ("grant", GRANT)
    } else if i == 5 {
        ("execute", EXECUTE)
    } else if i == 6 {
        ("view", VIEW)
    } else {
        ("admin", ADMIN)
    }
}

/// The names of the permission bits that `mask` holds, in table order
/// (read, write, delete, create, grant, execute, view, admin).
pub fn caps_to_names(mask: u64) -> (names: Vec<&'static str>)
    ensures
        names@.map_values(|s: &'static str| s@) == names_in(mask, 8),
{
    let mut names: Vec<&'static str> = Vec::new();
    let mut i: usize = 0;
    while i < 8
        invariant
            i <= 8,
            names@.map_values(|s: &'static str| s@) == names_in(mask, i as int),
        decreases 8 - i,
    {
        let (n, b) = cap_entry(i);
        let ghost before = names@;
        if mask & b == b {
            names.push(n);
            assert(names@.map_values(|s: &'static str| s@) =~= before.map_values(|s: &'static str| s@) + seq![
                n@,
            ]);
        } else {
            assert(names_in(mask, i + 1) =~= names_in(mask, i as int));
        }
        i = i + 1;
    }
    names
}

fn str_equal(a: &str, b: &str) -> (r: bool)
    ensures
        r == (a@ == b@),
{
    proof {
        encode_utf8_decode_utf8(a@);
        encode_utf8_decode_utf8(b@);
    }
    bytes_equal(a.as_bytes(), b.as_bytes())
}

fn bit_for_name(n: &str) -> (bit: u64)
    ensures
        bit == bit_named(n@),
{
    let mut j: usize = 0;
    while j < 8
        invariant
            j <= 8,
            forall|k: int| 0 <= k < j ==> n@ != cap_name(k),
        decreases 8 - j,
    {
        let (name, b) = cap_entry(j);
        if str_equal(name, n) {
            return b;
        }
        j = j + 1;
    }
    0
}

/// The union of the bits named in `names`; names not in the table add nothing.
pub fn names_to_caps(names: &[&str]) -> (mask: u64)
    ensures
        mask == bits_named(names@.map_values(|s: &str| s@), names@.len() as int),
{
    let ghost views = names@.map_values(|s: &str| s@);
    let mut mask: u64 = 0;
    let mut i: usize = 0;
    while i < names.len()
        invariant
            i <= names@.len(),
            views == names@.map_values(|s: &str| s@),
            mask == bits_named(views, i as int),
        decreases names@.len() - i,
    {
        let n = names[i];
        let bit = bit_for_name(n);
        proof {
            assert(views[i as int] == n@);
        }
        mask = mask | bit;
        i = i + 1;
    }
    mask
}

/// The bits of the first `n` entries of the naming table.
pub open spec fn table_bits(n: int) -> u64
    decreases n,
{
    if n <= 0 {
        0
    } else {
        table_bits(n - 1) | cap_bit(n - 1)
    }
}

/// `bits_named` reads only the first `n` names.
proof fn lemma_bits_named_prefix(s: Seq<Seq<char>>, t: Seq<Seq<char>>, n: int)
    requires
        0 <= n <= s.len(),
    ensures
        bits_named(s + t, n) == bits_named(s, n),
    decreases n,
{
    if n > 0 {
        lemma_bits_named_prefix(s, t, n - 1);
        assert((s + t)[n - 1] == s[n - 1]);
    }
}

/// Each table name names its own bit.
proof fn lemma_bit_named_entry(i: int)
    requires
        0 <= i < 8,
    ensures
        bit_named(cap_name(i)) == cap_bit(i),
{
    reveal_strlit("read");
    reveal_strlit("write");
    reveal_strlit("delete");
    reveal_strlit("create");
    reveal_strlit("grant");
    reveal_strlit("execute");
    reveal_strlit("view");
    reveal_strlit("admin");
    // The eight names start with eight different letters.
    assert(cap_name(0)[0] == 'r' && cap_name(1)[0] == 'w' && cap_name(2)[0] == 'd' && cap_name(3)[0] == 'c');
    assert(cap_name(4)[0] == 'g' && cap_name(5)[0] == 'e' && cap_name(6)[0] == 'v' && cap_name(7)[0] == 'a');
}

/// A table bit is a single bit: a mask holds all of it or none of it.
proof fn lemma_single_bit(m: u64, c: u64, i: int)
    requires
        0 <= i < 8,
    ensures
        m & cap_bit(i) == cap_bit(i) ==> (m & c) | cap_bit(i) == m & (c | cap_bit(i)),
        m & cap_bit(i) != cap_bit(i) ==> m & c == m & (c | cap_bit(i)),
{
    let b = cap_bit(i);
    assert(b == 1 || b == 2 || b == 4 || b == 8 || b == 16 || b == 32 || b == 0x4000_0000_0000_0000u64 || b
        == 0x8000_0000_0000_0000u64);
    assert((m & b == b) ==> (m & c) | b == m & (c | b)) by (bit_vector);
    assert((b == 1 || b == 2 || b == 4 || b == 8 || b == 16 || b == 32 || b == 0x4000_0000_0000_0000u64 || b
        == 0x8000_0000_0000_0000u64) && m & b != b ==> m & c == m & (c | b)) by (bit_vector);
}

proof fn lemma_names_in_bits(m: u64, n: int)
    requires
        0 <= n <= 8,
    ensures
        bits_named(names_in(m, n), names_in(m, n).len() as int) == m & table_bits(n),
    decreases n,
{
    if n == 0 {
        assert(m & 0 == 0) by (bit_vector);
    } else {
        lemma_names_in_bits(m, n - 1);
        let s = names_in(m, n - 1);
        let c = table_bits(n - 1);
        lemma_single_bit(m, c, n - 1);
        if m & cap_bit(n - 1) == cap_bit(n - 1) {
            let t = seq![cap_name(n - 1)];
            assert(names_in(m, n) == s + t);
            lemma_bits_named_prefix(s, t, s.len() as int);
            assert((s + t)[s.len() as int] == cap_name(n - 1));
            lemma_bit_named_entry(n - 1);
        } else {
            assert(names_in(m, n) =~= s);
        }
    }
}

/// Naming a mask and reading the names back gives the mask's table bits:
/// `names_to_caps(caps_to_names(m)) == m & (READ | WRITE | DELETE | CREATE |
/// GRANT | EXECUTE | VIEW | ADMIN)`.
pub proof fn lemma_names_caps_roundtrip(m: u64)
    ensures
        bits_named(names_in(m, 8), names_in(m, 8).len() as int) == m & (READ | WRITE | DELETE | CREATE | GRANT
            | EXECUTE | VIEW | ADMIN),
{
    lemma_names_in_bits(m, 8);
    reveal_with_fuel(table_bits, 9);
    assert(table_bits(8) == ((((((((0u64 | READ) | WRITE) | DELETE) | CREATE) | GRANT) | EXECUTE) | VIEW) | ADMIN));
    assert(((((((((0u64 | 1u64) | 2u64) | 4u64) | 8u64) | 16u64) | 32u64) | 0x4000_0000_0000_0000u64)
        | 0x8000_0000_0000_0000u64) == (1u64 | 2u64 | 4u64 | 8u64 | 16u64 | 32u64 | 0x4000_0000_0000_0000u64
        | 0x8000_0000_0000_0000u64)) by (bit_vector);
}

} // verus!
