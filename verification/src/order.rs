//! Orderings of stored keys: plain lexicographic order, and the order of
//! entity keys on one dimension of their interleaved part.
use std::cmp::Ordering;
use vstd::prelude::*;
use vstd::utf8::{encode_utf8, encode_utf8_decode_utf8};
use crate::keys::{
    be32, bit_at, entity_key_bytes, grant_key_bytes, lemma_be32_first_diff, lemma_name_hash_le, name_hash_of,
    less_one, padded_le, rest_bytes, even_bit, get64, interleaves, lemma_bits_eq32, lemma_keys_roundtrip,
    odd_bit, read64,
};

verus! {

/// Lexicographic order of byte strings; a proper prefix comes first.
pub open spec fn lex_order(a: Seq<u8>, b: Seq<u8>) -> Ordering
    decreases a.len(),
{
    if a.len() == 0 {
        if b.len() == 0 {
            Ordering::Equal
        } else {
            Ordering::Less
        }
    } else if b.len() == 0 {
        Ordering::Greater
    } else if a[0] < b[0] {
        Ordering::Less
    } else if a[0] > b[0] {
        Ordering::Greater
    } else {
        lex_order(a.drop_first(), b.drop_first())
    }
}

/// Numeric order of two integers.
pub open spec fn num_order(x: u64, y: u64) -> Ordering {
    if x < y {
        Ordering::Less
    } else if x == y {
        Ordering::Equal
    } else {
        Ordering::Greater
    }
}

/// Lexicographic order says `Equal` exactly for equal byte strings.
pub proof fn lemma_lex_order_equal(a: Seq<u8>, b: Seq<u8>)
    ensures
        (lex_order(a, b) == Ordering::Equal) <==> a == b,
    decreases a.len(),
{
    if a.len() == 0 || b.len() == 0 {
        if a.len() == 0 && b.len() == 0 {
            assert(a =~= b);
        }
    } else if a[0] != b[0] {
        if a == b {
            assert(a[0] == b[0]);
        }
    } else {
        lemma_lex_order_equal(a.drop_first(), b.drop_first());
        assert(a =~= seq![a[0]] + a.drop_first());
        assert(b =~= seq![b[0]] + b.drop_first());
        if a == b {
            assert(a.drop_first() =~= b.drop_first());
        }
    }
}

/// Lexicographic order is antisymmetric: `a` before `b` exactly when `b`
/// after `a`.
pub proof fn lemma_lex_order_flip(a: Seq<u8>, b: Seq<u8>)
    ensures
        (lex_order(a, b) == Ordering::Less) <==> (lex_order(b, a) == Ordering::Greater),
    decreases a.len(),
{
    if a.len() > 0 && b.len() > 0 && a[0] == b[0] {
        lemma_lex_order_flip(a.drop_first(), b.drop_first());
    }
}

/// Lexicographic order is transitive.
pub proof fn lemma_lex_order_trans(a: Seq<u8>, b: Seq<u8>, c: Seq<u8>)
    requires
        lex_order(a, b) == Ordering::Less,
        lex_order(b, c) == Ordering::Less,
    ensures
        lex_order(a, c) == Ordering::Less,
    decreases a.len(),
{
    if a.len() > 0 && b.len() > 0 && c.len() > 0 && a[0] == b[0] && b[0] == c[0] {
        lemma_lex_order_trans(a.drop_first(), b.drop_first(), c.drop_first());
    }
}

/// `s` without its first `i` elements.
pub open spec fn tail(s: Seq<u8>, i: usize) -> Seq<u8> {
    s.skip(i as int)
}

/// Compares two byte strings lexicographically.
pub fn compare_bytes(a: &[u8], b: &[u8]) -> (o: Ordering)
    ensures
        o == lex_order(a@, b@),
{
    let mut i: usize = 0;
    assert(tail(a@, 0) =~= a@);
    assert(tail(b@, 0) =~= b@);
    while i < a.len() && i < b.len()
        invariant
            i <= a@.len(),
            i <= b@.len(),
            lex_order(a@, b@) == lex_order(tail(a@, i), tail(b@, i)),
        decreases a@.len() - i,
    {
        if a[i] < b[i] {
            return Ordering::Less;
        }
        if a[i] > b[i] {
            return Ordering::Greater;
        }
        assert(tail(a@, i).drop_first() =~= a@.skip(i + 1));
        assert(tail(b@, i).drop_first() =~= b@.skip(i + 1));
        i = i + 1;
    }
    if i < b.len() {
        Ordering::Less
    } else if i < a.len() {
        Ordering::Greater
    } else {
        Ordering::Equal
    }
}

/// Even bit positions: the first dimension (entity id, seeker id).
pub const EVEN_MASK: u64 = 0x5555_5555_5555_5555;

/// Odd bit positions: the second dimension (name hash, scope id).
pub const ODD_MASK: u64 = 0xAAAA_AAAA_AAAA_AAAA;

/// Which dimension of an interleaved entity key orders it.
#[derive(Debug, Clone, Copy, PartialEq, Eq, Structural)]
pub struct CompareMode {
    /// `false`: the first dimension (even bits); `true`: the second (odd bits).
    pub second: bool,
}

impl Default for CompareMode {
    fn default() -> (m: Self)
        ensures
            !m.second,
    {
        CompareMode { second: false }
    }
}

/// Orders entity keys by their first dimension (entity id).
pub fn set_mode_first(mode: &mut CompareMode)
    ensures
        !final(mode).second,
{
    mode.second = false;
}

/// Orders entity keys by their second dimension (name hash).
pub fn set_mode_second(mode: &mut CompareMode)
    ensures
        final(mode).second,
{
    mode.second = true;
}

/// The current dimension: `true` for the second.
pub fn get_mode(mode: &CompareMode) -> (second: bool)
    ensures
        second == mode.second,
{
    mode.second
}

/// The mask that selects the dimension of `mode`.
pub open spec fn mode_mask(mode: CompareMode) -> u64 {
    if mode.second {
        ODD_MASK
    } else {
        EVEN_MASK
    }
}

/// Order of two entity keys under `mode`: first by their type prefix, then by
/// the bits of the selected dimension of their interleaved part.
pub open spec fn entity_order(mode: CompareMode, a: Seq<u8>, b: Seq<u8>) -> Ordering {
    match lex_order(a.take(4), b.take(4)) {
        Ordering::Equal => num_order(read64(a, 4) & mode_mask(mode), read64(b, 4) & mode_mask(mode)),
        other => other,
    }
}

/// Compares two entity keys (`[type_id:4][interleaved:8]`) under `mode`.
pub fn entity_compare(mode: &CompareMode, a: &[u8], b: &[u8]) -> (o: Ordering)
    requires
        a@.len() >= 12,
        b@.len() >= 12,
    ensures
        o == entity_order(*mode, a@, b@),
{
    let head = compare_bytes(vstd::slice::slice_subrange(a, 0, 4), vstd::slice::slice_subrange(b, 0, 4));
    assert(a@.subrange(0, 4) =~= a@.take(4));
    assert(b@.subrange(0, 4) =~= b@.take(4));
    match head {
        Ordering::Equal => {},
        other => return other,
    }
    let za = get64(a, 4);
    let zb = get64(b, 4);
    let m = if mode.second { ODD_MASK } else { EVEN_MASK };
    let x = za & m;
    let y = zb & m;
    if x < y {
        Ordering::Less
    } else if x == y {
        Ordering::Equal
    } else {
        Ordering::Greater
    }
}

/// Compares grant keys: plain lexicographic order, so the keys of one seeker
/// are adjacent.
pub fn grant_compare(a: &[u8], b: &[u8]) -> (o: Ordering)
    ensures
        o == lex_order(a@, b@),
{
    compare_bytes(a, b)
}

/// Compares delegation keys: plain lexicographic order.
pub fn inheritance_compare(a: &[u8], b: &[u8]) -> (o: Ordering)
    ensures
        o == lex_order(a@, b@),
{
    compare_bytes(a, b)
}

/// Compares capability keys: plain lexicographic order.
pub fn capability_compare(a: &[u8], b: &[u8]) -> (o: Ordering)
    ensures
        o == lex_order(a@, b@),
{
    compare_bytes(a, b)
}

/// Compares capability label keys: plain lexicographic order.
pub fn cap_label_compare(a: &[u8], b: &[u8]) -> (o: Ordering)
    ensures
        o == lex_order(a@, b@),
{
    compare_bytes(a, b)
}


proof fn lemma_mask_bit(x: u64, y: u64, i: u64)
    by (bit_vector)
    requires
        i < 32,
    ensures
        (x & 0x5555_5555_5555_5555u64) == (y & 0x5555_5555_5555_5555u64)
            ==> ((x >> ((2 * i) as u64)) & 1u64) == ((y >> ((2 * i) as u64)) & 1u64),
        (x & 0xAAAA_AAAA_AAAA_AAAAu64) == (y & 0xAAAA_AAAA_AAAA_AAAAu64)
            ==> ((x >> ((2 * i + 1) as u64)) & 1u64) == ((y >> ((2 * i + 1) as u64)) & 1u64),
{
}

proof fn lemma_mask_even(x: u64, y: u64)
    ensures
        (x & EVEN_MASK) == (y & EVEN_MASK) <==> forall|i: u64| i < 32 ==> #[trigger] even_bit(x, i) == even_bit(y, i),
{
    assert forall|i: u64| i < 32 && (x & EVEN_MASK) == (y & EVEN_MASK) implies #[trigger] even_bit(x, i) == even_bit(y, i) by {
        lemma_mask_bit(x, y, i);
    }
    if forall|i: u64| i < 32 ==> #[trigger] even_bit(x, i) == even_bit(y, i) {
        assert(even_bit(x, 0u64) == even_bit(y, 0u64));
        assert(even_bit(x, 1u64) == even_bit(y, 1u64));
        assert(even_bit(x, 2u64) == even_bit(y, 2u64));
        assert(even_bit(x, 3u64) == even_bit(y, 3u64));
        assert(even_bit(x, 4u64) == even_bit(y, 4u64));
        assert(even_bit(x, 5u64) == even_bit(y, 5u64));
        assert(even_bit(x, 6u64) == even_bit(y, 6u64));
        assert(even_bit(x, 7u64) == even_bit(y, 7u64));
        assert(even_bit(x, 8u64) == even_bit(y, 8u64));
        assert(even_bit(x, 9u64) == even_bit(y, 9u64));
        assert(even_bit(x, 10u64) == even_bit(y, 10u64));
        assert(even_bit(x, 11u64) == even_bit(y, 11u64));
        assert(even_bit(x, 12u64) == even_bit(y, 12u64));
        assert(even_bit(x, 13u64) == even_bit(y, 13u64));
        assert(even_bit(x, 14u64) == even_bit(y, 14u64));
        assert(even_bit(x, 15u64) == even_bit(y, 15u64));
        assert(even_bit(x, 16u64) == even_bit(y, 16u64));
        assert(even_bit(x, 17u64) == even_bit(y, 17u64));
        assert(even_bit(x, 18u64) == even_bit(y, 18u64));
        assert(even_bit(x, 19u64) == even_bit(y, 19u64));
        assert(even_bit(x, 20u64) == even_bit(y, 20u64));
        assert(even_bit(x, 21u64) == even_bit(y, 21u64));
        assert(even_bit(x, 22u64) == even_bit(y, 22u64));
        assert(even_bit(x, 23u64) == even_bit(y, 23u64));
        assert(even_bit(x, 24u64) == even_bit(y, 24u64));
        assert(even_bit(x, 25u64) == even_bit(y, 25u64));
        assert(even_bit(x, 26u64) == even_bit(y, 26u64));
        assert(even_bit(x, 27u64) == even_bit(y, 27u64));
        assert(even_bit(x, 28u64) == even_bit(y, 28u64));
        assert(even_bit(x, 29u64) == even_bit(y, 29u64));
        assert(even_bit(x, 30u64) == even_bit(y, 30u64));
        assert(even_bit(x, 31u64) == even_bit(y, 31u64));
        assert((x & 0x5555_5555_5555_5555u64) == (y & 0x5555_5555_5555_5555u64)) by (bit_vector)
            requires
            (x >> 0u64) & 1u64 == (y >> 0u64) & 1u64,
            (x >> 2u64) & 1u64 == (y >> 2u64) & 1u64,
            (x >> 4u64) & 1u64 == (y >> 4u64) & 1u64,
            (x >> 6u64) & 1u64 == (y >> 6u64) & 1u64,
            (x >> 8u64) & 1u64 == (y >> 8u64) & 1u64,
            (x >> 10u64) & 1u64 == (y >> 10u64) & 1u64,
            (x >> 12u64) & 1u64 == (y >> 12u64) & 1u64,
            (x >> 14u64) & 1u64 == (y >> 14u64) & 1u64,
            (x >> 16u64) & 1u64 == (y >> 16u64) & 1u64,
            (x >> 18u64) & 1u64 == (y >> 18u64) & 1u64,
            (x >> 20u64) & 1u64 == (y >> 20u64) & 1u64,
            (x >> 22u64) & 1u64 == (y >> 22u64) & 1u64,
            (x >> 24u64) & 1u64 == (y >> 24u64) & 1u64,
            (x >> 26u64) & 1u64 == (y >> 26u64) & 1u64,
            (x >> 28u64) & 1u64 == (y >> 28u64) & 1u64,
            (x >> 30u64) & 1u64 == (y >> 30u64) & 1u64,
            (x >> 32u64) & 1u64 == (y >> 32u64) & 1u64,
            (x >> 34u64) & 1u64 == (y >> 34u64) & 1u64,
            (x >> 36u64) & 1u64 == (y >> 36u64) & 1u64,
            (x >> 38u64) & 1u64 == (y >> 38u64) & 1u64,
            (x >> 40u64) & 1u64 == (y >> 40u64) & 1u64,
            (x >> 42u64) & 1u64 == (y >> 42u64) & 1u64,
            (x >> 44u64) & 1u64 == (y >> 44u64) & 1u64,
            (x >> 46u64) & 1u64 == (y >> 46u64) & 1u64,
            (x >> 48u64) & 1u64 == (y >> 48u64) & 1u64,
            (x >> 50u64) & 1u64 == (y >> 50u64) & 1u64,
            (x >> 52u64) & 1u64 == (y >> 52u64) & 1u64,
            (x >> 54u64) & 1u64 == (y >> 54u64) & 1u64,
            (x >> 56u64) & 1u64 == (y >> 56u64) & 1u64,
            (x >> 58u64) & 1u64 == (y >> 58u64) & 1u64,
            (x >> 60u64) & 1u64 == (y >> 60u64) & 1u64,
            (x >> 62u64) & 1u64 == (y >> 62u64) & 1u64,
        {}
    }
}

proof fn lemma_mask_odd(x: u64, y: u64)
    ensures
        (x & ODD_MASK) == (y & ODD_MASK) <==> forall|i: u64| i < 32 ==> #[trigger] odd_bit(x, i) == odd_bit(y, i),
{
    assert forall|i: u64| i < 32 && (x & ODD_MASK) == (y & ODD_MASK) implies #[trigger] odd_bit(x, i) == odd_bit(y, i) by {
        lemma_mask_bit(x, y, i);
    }
    if forall|i: u64| i < 32 ==> #[trigger] odd_bit(x, i) == odd_bit(y, i) {
        assert(odd_bit(x, 0u64) == odd_bit(y, 0u64));
        assert(odd_bit(x, 1u64) == odd_bit(y, 1u64));
        assert(odd_bit(x, 2u64) == odd_bit(y, 2u64));
        assert(odd_bit(x, 3u64) == odd_bit(y, 3u64));
        assert(odd_bit(x, 4u64) == odd_bit(y, 4u64));
        assert(odd_bit(x, 5u64) == odd_bit(y, 5u64));
        assert(odd_bit(x, 6u64) == odd_bit(y, 6u64));
        assert(odd_bit(x, 7u64) == odd_bit(y, 7u64));
        assert(odd_bit(x, 8u64) == odd_bit(y, 8u64));
        assert(odd_bit(x, 9u64) == odd_bit(y, 9u64));
        assert(odd_bit(x, 10u64) == odd_bit(y, 10u64));
        assert(odd_bit(x, 11u64) == odd_bit(y, 11u64));
        assert(odd_bit(x, 12u64) == odd_bit(y, 12u64));
        assert(odd_bit(x, 13u64) == odd_bit(y, 13u64));
        assert(odd_bit(x, 14u64) == odd_bit(y, 14u64));
        assert(odd_bit(x, 15u64) == odd_bit(y, 15u64));
        assert(odd_bit(x, 16u64) == odd_bit(y, 16u64));
        assert(odd_bit(x, 17u64) == odd_bit(y, 17u64));
        assert(odd_bit(x, 18u64) == odd_bit(y, 18u64));
        assert(odd_bit(x, 19u64) == odd_bit(y, 19u64));
        assert(odd_bit(x, 20u64) == odd_bit(y, 20u64));
        assert(odd_bit(x, 21u64) == odd_bit(y, 21u64));
        assert(odd_bit(x, 22u64) == odd_bit(y, 22u64));
        assert(odd_bit(x, 23u64) == odd_bit(y, 23u64));
        assert(odd_bit(x, 24u64) == odd_bit(y, 24u64));
        assert(odd_bit(x, 25u64) == odd_bit(y, 25u64));
        assert(odd_bit(x, 26u64) == odd_bit(y, 26u64));
        assert(odd_bit(x, 27u64) == odd_bit(y, 27u64));
        assert(odd_bit(x, 28u64) == odd_bit(y, 28u64));
        assert(odd_bit(x, 29u64) == odd_bit(y, 29u64));
        assert(odd_bit(x, 30u64) == odd_bit(y, 30u64));
        assert(odd_bit(x, 31u64) == odd_bit(y, 31u64));
        assert((x & 0xAAAA_AAAA_AAAA_AAAAu64) == (y & 0xAAAA_AAAA_AAAA_AAAAu64)) by (bit_vector)
            requires
            (x >> 1u64) & 1u64 == (y >> 1u64) & 1u64,
            (x >> 3u64) & 1u64 == (y >> 3u64) & 1u64,
            (x >> 5u64) & 1u64 == (y >> 5u64) & 1u64,
            (x >> 7u64) & 1u64 == (y >> 7u64) & 1u64,
            (x >> 9u64) & 1u64 == (y >> 9u64) & 1u64,
            (x >> 11u64) & 1u64 == (y >> 11u64) & 1u64,
            (x >> 13u64) & 1u64 == (y >> 13u64) & 1u64,
            (x >> 15u64) & 1u64 == (y >> 15u64) & 1u64,
            (x >> 17u64) & 1u64 == (y >> 17u64) & 1u64,
            (x >> 19u64) & 1u64 == (y >> 19u64) & 1u64,
            (x >> 21u64) & 1u64 == (y >> 21u64) & 1u64,
            (x >> 23u64) & 1u64 == (y >> 23u64) & 1u64,
            (x >> 25u64) & 1u64 == (y >> 25u64) & 1u64,
            (x >> 27u64) & 1u64 == (y >> 27u64) & 1u64,
            (x >> 29u64) & 1u64 == (y >> 29u64) & 1u64,
            (x >> 31u64) & 1u64 == (y >> 31u64) & 1u64,
            (x >> 33u64) & 1u64 == (y >> 33u64) & 1u64,
            (x >> 35u64) & 1u64 == (y >> 35u64) & 1u64,
            (x >> 37u64) & 1u64 == (y >> 37u64) & 1u64,
            (x >> 39u64) & 1u64 == (y >> 39u64) & 1u64,
            (x >> 41u64) & 1u64 == (y >> 41u64) & 1u64,
            (x >> 43u64) & 1u64 == (y >> 43u64) & 1u64,
            (x >> 45u64) & 1u64 == (y >> 45u64) & 1u64,
            (x >> 47u64) & 1u64 == (y >> 47u64) & 1u64,
            (x >> 49u64) & 1u64 == (y >> 49u64) & 1u64,
            (x >> 51u64) & 1u64 == (y >> 51u64) & 1u64,
            (x >> 53u64) & 1u64 == (y >> 53u64) & 1u64,
            (x >> 55u64) & 1u64 == (y >> 55u64) & 1u64,
            (x >> 57u64) & 1u64 == (y >> 57u64) & 1u64,
            (x >> 59u64) & 1u64 == (y >> 59u64) & 1u64,
            (x >> 61u64) & 1u64 == (y >> 61u64) & 1u64,
            (x >> 63u64) & 1u64 == (y >> 63u64) & 1u64,
        {}
    }
}

proof fn lemma_dimension_equal(z1: u64, a1: u32, b1: u32, z2: u64, a2: u32, b2: u32)
    requires
        interleaves(z1, a1, b1),
        interleaves(z2, a2, b2),
    ensures
        (z1 & EVEN_MASK) == (z2 & EVEN_MASK) <==> a1 == a2,
        (z1 & ODD_MASK) == (z2 & ODD_MASK) <==> b1 == b2,
{
    lemma_mask_even(z1, z2);
    lemma_mask_odd(z1, z2);
    if a1 == a2 {
        assert forall|i: u64| i < 32 implies #[trigger] even_bit(z1, i) == even_bit(z2, i) by {
            assert(even_bit(z1, i) == bit_at(a1 as u64, i));
        }
    }
    if forall|i: u64| i < 32 ==> #[trigger] even_bit(z1, i) == even_bit(z2, i) {
        assert forall|i: u64| i < 32 implies #[trigger] bit_at(a1 as u64, i) == bit_at(a2 as u64, i) by {
            assert(even_bit(z1, i) == even_bit(z2, i));
        }
        lemma_bits_eq32(a1, a2);
    }
    if b1 == b2 {
        assert forall|i: u64| i < 32 implies #[trigger] odd_bit(z1, i) == odd_bit(z2, i) by {
            assert(odd_bit(z1, i) == bit_at(b1 as u64, i));
        }
    }
    if forall|i: u64| i < 32 ==> #[trigger] odd_bit(z1, i) == odd_bit(z2, i) {
        assert forall|i: u64| i < 32 implies #[trigger] bit_at(b1 as u64, i) == bit_at(b2 as u64, i) by {
            assert(odd_bit(z1, i) == odd_bit(z2, i));
        }
        lemma_bits_eq32(b1, b2);
    }
}

/// Under the first mode two entity keys of one type are equal exactly when
/// their entity ids are; under the second, exactly when their name hashes are.
/// So one index, ordered either way, finds an entity by id or by name.
pub proof fn lemma_entity_order_dimension(mode: CompareMode, t: u32, z1: u64, a1: u32, b1: u32, z2: u64, a2: u32, b2: u32)
    requires
        interleaves(z1, a1, b1),
        interleaves(z2, a2, b2),
    ensures
        (entity_order(mode, entity_key_bytes(t, z1), entity_key_bytes(t, z2)) == Ordering::Equal)
            <==> (if mode.second { b1 == b2 } else { a1 == a2 }),
{
    let k1 = entity_key_bytes(t, z1);
    let k2 = entity_key_bytes(t, z2);
    assert(k1.take(4) =~= be32(t));
    assert(k2.take(4) =~= be32(t));
    lemma_lex_order_equal(k1.take(4), k2.take(4));
    lemma_keys_roundtrip(t, t, t, t, t, t, z1);
    lemma_keys_roundtrip(t, t, t, t, t, t, z2);
    lemma_dimension_equal(z1, a1, b1, z2, a2, b2);
}


/// `a` comes before `b` in the byte order of their UTF-8 encodings.
pub open spec fn text_before(a: Seq<char>, b: Seq<char>) -> bool {
    lex_order(encode_utf8(a), encode_utf8(b)) == Ordering::Less
}

/// Does `a` come before `b` in byte order?
pub fn text_precedes(a: &str, b: &str) -> (r: bool)
    ensures
        r == text_before(a@, b@),
{
    match compare_bytes(a.as_bytes(), b.as_bytes()) {
        Ordering::Less => true,
        _ => false,
    }
}

/// Byte order on texts is total and asymmetric.
pub proof fn lemma_text_total(a: Seq<char>, b: Seq<char>)
    ensures
        a != b ==> text_before(a, b) || text_before(b, a),
        !(text_before(a, b) && text_before(b, a)),
{
    let x = encode_utf8(a);
    let y = encode_utf8(b);
    lemma_lex_order_equal(x, y);
    lemma_lex_order_flip(x, y);
    lemma_lex_order_flip(y, x);
    if a != b && x == y {
        encode_utf8_decode_utf8(a);
        encode_utf8_decode_utf8(b);
    }
}

/// Byte order on texts is transitive.
pub proof fn lemma_text_trans(a: Seq<char>, b: Seq<char>, c: Seq<char>)
    requires
        text_before(a, b),
        text_before(b, c),
    ensures
        text_before(a, c),
{
    lemma_lex_order_trans(encode_utf8(a), encode_utf8(b), encode_utf8(c));
}

/// A shared prefix does not change the order.
proof fn lemma_lex_shared_prefix(p: Seq<u8>, a: Seq<u8>, b: Seq<u8>)
    ensures
        lex_order(p + a, p + b) == lex_order(a, b),
    decreases p.len(),
{
    if p.len() > 0 {
        lemma_lex_shared_prefix(p.drop_first(), a, b);
        assert((p + a).drop_first() =~= p.drop_first() + a);
        assert((p + b).drop_first() =~= p.drop_first() + b);
    } else {
        assert(p + a =~= a);
        assert(p + b =~= b);
    }
}

/// The first position where two strings differ decides their order.
proof fn lemma_lex_first_diff(a: Seq<u8>, b: Seq<u8>, i: int)
    requires
        0 <= i < a.len(),
        i < b.len(),
        forall|j: int| 0 <= j < i ==> a[j] == b[j],
        a[i] != b[i],
    ensures
        lex_order(a, b) == (if a[i] < b[i] {
            Ordering::Less
        } else {
            Ordering::Greater
        }),
    decreases i,
{
    if i > 0 {
        assert(a[0] == b[0]);
        lemma_lex_first_diff(a.drop_first(), b.drop_first(), i - 1);
    }
}

/// The order of `x` against `y` as numbers.
pub open spec fn u32_order(x: u32, y: u32) -> Ordering {
    if x < y {
        Ordering::Less
    } else if x == y {
        Ordering::Equal
    } else {
        Ordering::Greater
    }
}

/// Strings that start with big-endian numbers order by those numbers first.
proof fn lemma_be32_lex(x: u32, y: u32, r1: Seq<u8>, r2: Seq<u8>)
    ensures
        lex_order(be32(x) + r1, be32(y) + r2) == (if x == y {
            lex_order(r1, r2)
        } else {
            u32_order(x, y)
        }),
{
    lemma_be32_first_diff(x, y);
    let a = be32(x) + r1;
    let b = be32(y) + r2;
    if x == y {
        lemma_lex_shared_prefix(be32(x), r1, r2);
    } else {
        assert(a[0] == be32(x)[0] && b[0] == be32(y)[0]);
        assert(a[1] == be32(x)[1] && b[1] == be32(y)[1]);
        assert(a[2] == be32(x)[2] && b[2] == be32(y)[2]);
        assert(a[3] == be32(x)[3] && b[3] == be32(y)[3]);
        if be32(x)[0] != be32(y)[0] {
            lemma_lex_first_diff(a, b, 0);
        } else if be32(x)[1] != be32(y)[1] {
            lemma_lex_first_diff(a, b, 1);
        } else if be32(x)[2] != be32(y)[2] {
            lemma_lex_first_diff(a, b, 2);
        } else {
            lemma_lex_first_diff(a, b, 3);
        }
    }
}

/// Field-by-field order of grant key fields.
pub open spec fn grant_fields_order(p: (u32, u32, u32, u32, u32), q: (u32, u32, u32, u32, u32)) -> Ordering {
    if p.0 != q.0 {
        u32_order(p.0, q.0)
    } else if p.1 != q.1 {
        u32_order(p.1, q.1)
    } else if p.2 != q.2 {
        u32_order(p.2, q.2)
    } else if p.3 != q.3 {
        u32_order(p.3, q.3)
    } else {
        u32_order(p.4, q.4)
    }
}

/// `grant_compare` on two grant keys is the order of their fields, seeker
/// type first and role last.
pub proof fn lemma_grant_key_order(p: (u32, u32, u32, u32, u32), q: (u32, u32, u32, u32, u32))
    ensures
        lex_order(grant_key_bytes(p.0, p.1, p.2, p.3, p.4), grant_key_bytes(q.0, q.1, q.2, q.3, q.4))
            == grant_fields_order(p, q),
{
    let e = Seq::<u8>::empty();
    assert(grant_key_bytes(p.0, p.1, p.2, p.3, p.4) =~= be32(p.0) + (be32(p.1) + (be32(p.2) + (be32(p.3) + (be32(
        p.4,
    ) + e)))));
    assert(grant_key_bytes(q.0, q.1, q.2, q.3, q.4) =~= be32(q.0) + (be32(q.1) + (be32(q.2) + (be32(q.3) + (be32(
        q.4,
    ) + e)))));
    lemma_be32_lex(p.4, q.4, e, e);
    lemma_lex_order_equal(e, e);
    lemma_be32_lex(p.3, q.3, be32(p.4) + e, be32(q.4) + e);
    lemma_be32_lex(p.2, q.2, be32(p.3) + (be32(p.4) + e), be32(q.3) + (be32(q.4) + e));
    lemma_be32_lex(p.1, q.1, be32(p.2) + (be32(p.3) + (be32(p.4) + e)), be32(q.2) + (be32(q.3) + (be32(q.4) + e)));
    lemma_be32_lex(
        p.0,
        q.0,
        be32(p.1) + (be32(p.2) + (be32(p.3) + (be32(p.4) + e))),
        be32(q.1) + (be32(q.2) + (be32(q.3) + (be32(q.4) + e))),
    );
}

/// Byte strings in order keep their zero-padded prefixes in order.
proof fn lemma_lex_padded(a: Seq<u8>, b: Seq<u8>, n: nat)
    requires
        lex_order(a, b) != Ordering::Greater,
    ensures
        padded_le(a, b, n),
    decreases n,
{
    if n > 0 {
        if a.len() == 0 {
            if b.len() == 0 || b[0] == 0 {
                lemma_lex_padded(a, rest_bytes(b), less_one(n));
            }
        } else if b.len() > 0 && a[0] == b[0] {
            lemma_lex_padded(a.drop_first(), b.drop_first(), less_one(n));
        }
    }
}

/// `name_hash` keeps byte order: a name no later than another hashes no
/// higher.
pub proof fn lemma_name_hash_monotone(a: Seq<u8>, b: Seq<u8>)
    requires
        lex_order(a, b) != Ordering::Greater,
    ensures
        name_hash_of(a) <= name_hash_of(b),
{
    lemma_lex_padded(a, b, 4);
    lemma_name_hash_le(a, b);
}

} // verus!
