//! Fixed-width key layouts: big-endian integer fields and bit-interleaved
//! pairs, so that one sorted index answers lookups on either dimension.
use vstd::prelude::*;
#[allow(unused_imports)]
use vstd::string::*;
#[allow(unused_imports)]
use vstd::utf8::*;
use crate::text::{lemma_split_at_ascii, str_from_utf8};

verus! {

// ---------------------------------------------------------------------------
// Bits
// ---------------------------------------------------------------------------

/// Bit `k` of `x` (0 or 1).
pub open spec fn bit_at(x: u64, k: u64) -> u64 {
    (x >> k) & 1u64
}

/// Bit `2i` of `z`: bit `i` of the first dimension.
pub open spec fn even_bit(z: u64, i: u64) -> u64 {
    (z >> ((2 * i) as u64)) & 1u64
}

/// Bit `2i + 1` of `z`: bit `i` of the second dimension.
pub open spec fn odd_bit(z: u64, i: u64) -> u64 {
    (z >> ((2 * i + 1) as u64)) & 1u64
}

/// `z` holds the bits of `a` at its even positions and those of `b` at its
/// odd positions. For given `a`, `b` exactly one `z` does so, and each `z`
/// holds exactly one pair.
pub open spec fn interleaves(z: u64, a: u32, b: u32) -> bool {
    forall|i: u64|
        #![trigger even_bit(z, i)]
        #![trigger odd_bit(z, i)]
        i < 32 ==> even_bit(z, i) == bit_at(a as u64, i) && odd_bit(z, i) == bit_at(b as u64, i)
}

proof fn lemma_interleave_step(r: u64, a: u64, b: u64, i: u64, j: u64)
    by (bit_vector)
    requires
        i < 32,
        (r >> ((2 * i) as u64)) == 0,
    ensures
        ({
            let r2 = r | (((a >> i) & 1u64) << ((2 * i) as u64)) | (((b >> i) & 1u64) << ((2 * i + 1) as u64));
            &&& j < i ==> ((r2 >> ((2 * j) as u64)) & 1u64) == ((r >> ((2 * j) as u64)) & 1u64)
            &&& j < i ==> ((r2 >> ((2 * j + 1) as u64)) & 1u64) == ((r >> ((2 * j + 1) as u64)) & 1u64)
            &&& ((r2 >> ((2 * i) as u64)) & 1u64) == ((a >> i) & 1u64)
            &&& ((r2 >> ((2 * i + 1) as u64)) & 1u64) == ((b >> i) & 1u64)
            &&& i + 1 < 32 ==> (r2 >> ((2 * (i + 1)) as u64)) == 0
        }),
{
}

/// Interleaves two 32-bit values into one 64-bit value: the bits of `a` go to
/// the even positions, those of `b` to the odd positions.
pub fn interleave(a: u32, b: u32) -> (z: u64)
    ensures
        interleaves(z, a, b),
{
    let wa: u64 = a as u64;
    let wb: u64 = b as u64;
    let mut result: u64 = 0;
    let mut i: u64 = 0;
    assert(0u64 >> 0u64 == 0) by (bit_vector);
    while i < 32
        invariant
            i <= 32,
            wa == a as u64,
            wb == b as u64,
            forall|j: u64|
                #![trigger even_bit(result, j)]
                #![trigger odd_bit(result, j)]
                j < i ==> even_bit(result, j) == bit_at(wa, j) && odd_bit(result, j) == bit_at(wb, j),
            i < 32 ==> (result >> ((2 * i) as u64)) == 0,
        decreases 32 - i,
    {
        let r2 = result | (((wa >> i) & 1) << (2 * i)) | (((wb >> i) & 1) << (2 * i + 1));
        proof {
            assert forall|j: u64| j < i + 1 implies #[trigger] even_bit(r2, j) == bit_at(wa, j)
                && odd_bit(r2, j) == bit_at(wb, j) by {
                lemma_interleave_step(result, wa, wb, i, j);
                if j < i {
                    assert(even_bit(result, j) == bit_at(wa, j));
                }
            }
            lemma_interleave_step(result, wa, wb, i, 0);
        }
        result = r2;
        i = i + 1;
    }
    result
}

proof fn lemma_deinterleave_step(x: u32, z: u64, i: u64, j: u64, odd: bool)
    by (bit_vector)
    requires
        i < 32,
        ((x as u64) >> i) == 0,
    ensures
        ({
            let s: u64 = if odd { (2 * i + 1) as u64 } else { (2 * i) as u64 };
            let x2 = x | ((((z >> s) & 1u64) as u32) << (i as u32));
            &&& j < i ==> (((x2 as u64) >> j) & 1u64) == (((x as u64) >> j) & 1u64)
            &&& (((x2 as u64) >> i) & 1u64) == ((z >> s) & 1u64)
            &&& i + 1 < 32 ==> ((x2 as u64) >> ((i + 1) as u64)) == 0
        }),
{
}

/// Splits a 64-bit value back into the two 32-bit values it interleaves:
/// even positions give the first, odd positions the second.
pub fn deinterleave(z: u64) -> (r: (u32, u32))
    ensures
        interleaves(z, r.0, r.1),
{
    let mut a: u32 = 0;
    let mut b: u32 = 0;
    let mut i: u64 = 0;
    assert((0u32 as u64) >> 0u64 == 0) by (bit_vector);
    while i < 32
        invariant
            i <= 32,
            forall|j: u64|
                #![trigger bit_at(a as u64, j)]
                #![trigger bit_at(b as u64, j)]
                j < i ==> bit_at(a as u64, j) == even_bit(z, j) && bit_at(b as u64, j) == odd_bit(z, j),
            i < 32 ==> ((a as u64) >> i) == 0 && ((b as u64) >> i) == 0,
        decreases 32 - i,
    {
        let a2 = a | (#[verifier::truncate] (((z >> (2 * i)) & 1) as u32) << (i as u32));
        let b2 = b | (#[verifier::truncate] (((z >> (2 * i + 1)) & 1) as u32) << (i as u32));
        proof {
            assert forall|j: u64| j < i + 1 implies #[trigger] bit_at(a2 as u64, j) == even_bit(z, j)
                && bit_at(b2 as u64, j) == odd_bit(z, j) by {
                lemma_deinterleave_step(a, z, i, j, false);
                lemma_deinterleave_step(b, z, i, j, true);
                if j < i {
                    assert(bit_at(a as u64, j) == even_bit(z, j));
                }
            }
            lemma_deinterleave_step(a, z, i, 0, false);
            lemma_deinterleave_step(b, z, i, 0, true);
        }
        a = a2;
        b = b2;
        i = i + 1;
    }
    (a, b)
}


pub(crate) proof fn lemma_bits_eq32(x: u32, y: u32)
    requires
        forall|j: u64| j < 32 ==> #[trigger] bit_at(x as u64, j) == bit_at(y as u64, j),
    ensures
        x == y,
{
    assert(bit_at(x as u64, 0u64) == bit_at(y as u64, 0u64));
    assert(bit_at(x as u64, 1u64) == bit_at(y as u64, 1u64));
    assert(bit_at(x as u64, 2u64) == bit_at(y as u64, 2u64));
    assert(bit_at(x as u64, 3u64) == bit_at(y as u64, 3u64));
    assert(bit_at(x as u64, 4u64) == bit_at(y as u64, 4u64));
    assert(bit_at(x as u64, 5u64) == bit_at(y as u64, 5u64));
    assert(bit_at(x as u64, 6u64) == bit_at(y as u64, 6u64));
    assert(bit_at(x as u64, 7u64) == bit_at(y as u64, 7u64));
    assert(bit_at(x as u64, 8u64) == bit_at(y as u64, 8u64));
    assert(bit_at(x as u64, 9u64) == bit_at(y as u64, 9u64));
    assert(bit_at(x as u64, 10u64) == bit_at(y as u64, 10u64));
    assert(bit_at(x as u64, 11u64) == bit_at(y as u64, 11u64));
    assert(bit_at(x as u64, 12u64) == bit_at(y as u64, 12u64));
    assert(bit_at(x as u64, 13u64) == bit_at(y as u64, 13u64));
    assert(bit_at(x as u64, 14u64) == bit_at(y as u64, 14u64));
    assert(bit_at(x as u64, 15u64) == bit_at(y as u64, 15u64));
    assert(bit_at(x as u64, 16u64) == bit_at(y as u64, 16u64));
    assert(bit_at(x as u64, 17u64) == bit_at(y as u64, 17u64));
    assert(bit_at(x as u64, 18u64) == bit_at(y as u64, 18u64));
    assert(bit_at(x as u64, 19u64) == bit_at(y as u64, 19u64));
    assert(bit_at(x as u64, 20u64) == bit_at(y as u64, 20u64));
    assert(bit_at(x as u64, 21u64) == bit_at(y as u64, 21u64));
    assert(bit_at(x as u64, 22u64) == bit_at(y as u64, 22u64));
    assert(bit_at(x as u64, 23u64) == bit_at(y as u64, 23u64));
    assert(bit_at(x as u64, 24u64) == bit_at(y as u64, 24u64));
    assert(bit_at(x as u64, 25u64) == bit_at(y as u64, 25u64));
    assert(bit_at(x as u64, 26u64) == bit_at(y as u64, 26u64));
    assert(bit_at(x as u64, 27u64) == bit_at(y as u64, 27u64));
    assert(bit_at(x as u64, 28u64) == bit_at(y as u64, 28u64));
    assert(bit_at(x as u64, 29u64) == bit_at(y as u64, 29u64));
    assert(bit_at(x as u64, 30u64) == bit_at(y as u64, 30u64));
    assert(bit_at(x as u64, 31u64) == bit_at(y as u64, 31u64));
    assert(x == y) by (bit_vector)
        requires
            ((x as u64) >> 0u64) & 1u64 == ((y as u64) >> 0u64) & 1u64,
            ((x as u64) >> 1u64) & 1u64 == ((y as u64) >> 1u64) & 1u64,
            ((x as u64) >> 2u64) & 1u64 == ((y as u64) >> 2u64) & 1u64,
            ((x as u64) >> 3u64) & 1u64 == ((y as u64) >> 3u64) & 1u64,
            ((x as u64) >> 4u64) & 1u64 == ((y as u64) >> 4u64) & 1u64,
            ((x as u64) >> 5u64) & 1u64 == ((y as u64) >> 5u64) & 1u64,
            ((x as u64) >> 6u64) & 1u64 == ((y as u64) >> 6u64) & 1u64,
            ((x as u64) >> 7u64) & 1u64 == ((y as u64) >> 7u64) & 1u64,
            ((x as u64) >> 8u64) & 1u64 == ((y as u64) >> 8u64) & 1u64,
            ((x as u64) >> 9u64) & 1u64 == ((y as u64) >> 9u64) & 1u64,
            ((x as u64) >> 10u64) & 1u64 == ((y as u64) >> 10u64) & 1u64,
            ((x as u64) >> 11u64) & 1u64 == ((y as u64) >> 11u64) & 1u64,
            ((x as u64) >> 12u64) & 1u64 == ((y as u64) >> 12u64) & 1u64,
            ((x as u64) >> 13u64) & 1u64 == ((y as u64) >> 13u64) & 1u64,
            ((x as u64) >> 14u64) & 1u64 == ((y as u64) >> 14u64) & 1u64,
            ((x as u64) >> 15u64) & 1u64 == ((y as u64) >> 15u64) & 1u64,
            ((x as u64) >> 16u64) & 1u64 == ((y as u64) >> 16u64) & 1u64,
            ((x as u64) >> 17u64) & 1u64 == ((y as u64) >> 17u64) & 1u64,
            ((x as u64) >> 18u64) & 1u64 == ((y as u64) >> 18u64) & 1u64,
            ((x as u64) >> 19u64) & 1u64 == ((y as u64) >> 19u64) & 1u64,
            ((x as u64) >> 20u64) & 1u64 == ((y as u64) >> 20u64) & 1u64,
            ((x as u64) >> 21u64) & 1u64 == ((y as u64) >> 21u64) & 1u64,
            ((x as u64) >> 22u64) & 1u64 == ((y as u64) >> 22u64) & 1u64,
            ((x as u64) >> 23u64) & 1u64 == ((y as u64) >> 23u64) & 1u64,
            ((x as u64) >> 24u64) & 1u64 == ((y as u64) >> 24u64) & 1u64,
            ((x as u64) >> 25u64) & 1u64 == ((y as u64) >> 25u64) & 1u64,
            ((x as u64) >> 26u64) & 1u64 == ((y as u64) >> 26u64) & 1u64,
            ((x as u64) >> 27u64) & 1u64 == ((y as u64) >> 27u64) & 1u64,
            ((x as u64) >> 28u64) & 1u64 == ((y as u64) >> 28u64) & 1u64,
            ((x as u64) >> 29u64) & 1u64 == ((y as u64) >> 29u64) & 1u64,
            ((x as u64) >> 30u64) & 1u64 == ((y as u64) >> 30u64) & 1u64,
            ((x as u64) >> 31u64) & 1u64 == ((y as u64) >> 31u64) & 1u64,
    {}
}

proof fn lemma_bits_eq64(x: u64, y: u64)
    requires
        forall|j: u64|
            #![trigger even_bit(x, j)]
            #![trigger odd_bit(x, j)]
            j < 32 ==> even_bit(x, j) == even_bit(y, j) && odd_bit(x, j) == odd_bit(y, j),
    ensures
        x == y,
{
    assert(even_bit(x, 0u64) == even_bit(y, 0u64) && odd_bit(x, 0u64) == odd_bit(y, 0u64));
    assert(even_bit(x, 1u64) == even_bit(y, 1u64) && odd_bit(x, 1u64) == odd_bit(y, 1u64));
    assert(even_bit(x, 2u64) == even_bit(y, 2u64) && odd_bit(x, 2u64) == odd_bit(y, 2u64));
    assert(even_bit(x, 3u64) == even_bit(y, 3u64) && odd_bit(x, 3u64) == odd_bit(y, 3u64));
    assert(even_bit(x, 4u64) == even_bit(y, 4u64) && odd_bit(x, 4u64) == odd_bit(y, 4u64));
    assert(even_bit(x, 5u64) == even_bit(y, 5u64) && odd_bit(x, 5u64) == odd_bit(y, 5u64));
    assert(even_bit(x, 6u64) == even_bit(y, 6u64) && odd_bit(x, 6u64) == odd_bit(y, 6u64));
    assert(even_bit(x, 7u64) == even_bit(y, 7u64) && odd_bit(x, 7u64) == odd_bit(y, 7u64));
    assert(even_bit(x, 8u64) == even_bit(y, 8u64) && odd_bit(x, 8u64) == odd_bit(y, 8u64));
    assert(even_bit(x, 9u64) == even_bit(y, 9u64) && odd_bit(x, 9u64) == odd_bit(y, 9u64));
    assert(even_bit(x, 10u64) == even_bit(y, 10u64) && odd_bit(x, 10u64) == odd_bit(y, 10u64));
    assert(even_bit(x, 11u64) == even_bit(y, 11u64) && odd_bit(x, 11u64) == odd_bit(y, 11u64));
    assert(even_bit(x, 12u64) == even_bit(y, 12u64) && odd_bit(x, 12u64) == odd_bit(y, 12u64));
    assert(even_bit(x, 13u64) == even_bit(y, 13u64) && odd_bit(x, 13u64) == odd_bit(y, 13u64));
    assert(even_bit(x, 14u64) == even_bit(y, 14u64) && odd_bit(x, 14u64) == odd_bit(y, 14u64));
    assert(even_bit(x, 15u64) == even_bit(y, 15u64) && odd_bit(x, 15u64) == odd_bit(y, 15u64));
    assert(even_bit(x, 16u64) == even_bit(y, 16u64) && odd_bit(x, 16u64) == odd_bit(y, 16u64));
    assert(even_bit(x, 17u64) == even_bit(y, 17u64) && odd_bit(x, 17u64) == odd_bit(y, 17u64));
    assert(even_bit(x, 18u64) == even_bit(y, 18u64) && odd_bit(x, 18u64) == odd_bit(y, 18u64));
    assert(even_bit(x, 19u64) == even_bit(y, 19u64) && odd_bit(x, 19u64) == odd_bit(y, 19u64));
    assert(even_bit(x, 20u64) == even_bit(y, 20u64) && odd_bit(x, 20u64) == odd_bit(y, 20u64));
    assert(even_bit(x, 21u64) == even_bit(y, 21u64) && odd_bit(x, 21u64) == odd_bit(y, 21u64));
    assert(even_bit(x, 22u64) == even_bit(y, 22u64) && odd_bit(x, 22u64) == odd_bit(y, 22u64));
    assert(even_bit(x, 23u64) == even_bit(y, 23u64) && odd_bit(x, 23u64) == odd_bit(y, 23u64));
    assert(even_bit(x, 24u64) == even_bit(y, 24u64) && odd_bit(x, 24u64) == odd_bit(y, 24u64));
    assert(even_bit(x, 25u64) == even_bit(y, 25u64) && odd_bit(x, 25u64) == odd_bit(y, 25u64));
    assert(even_bit(x, 26u64) == even_bit(y, 26u64) && odd_bit(x, 26u64) == odd_bit(y, 26u64));
    assert(even_bit(x, 27u64) == even_bit(y, 27u64) && odd_bit(x, 27u64) == odd_bit(y, 27u64));
    assert(even_bit(x, 28u64) == even_bit(y, 28u64) && odd_bit(x, 28u64) == odd_bit(y, 28u64));
    assert(even_bit(x, 29u64) == even_bit(y, 29u64) && odd_bit(x, 29u64) == odd_bit(y, 29u64));
    assert(even_bit(x, 30u64) == even_bit(y, 30u64) && odd_bit(x, 30u64) == odd_bit(y, 30u64));
    assert(even_bit(x, 31u64) == even_bit(y, 31u64) && odd_bit(x, 31u64) == odd_bit(y, 31u64));
    assert(x == y) by (bit_vector)
        requires
            (x >> 0u64) & 1u64 == (y >> 0u64) & 1u64,
            (x >> 1u64) & 1u64 == (y >> 1u64) & 1u64,
            (x >> 2u64) & 1u64 == (y >> 2u64) & 1u64,
            (x >> 3u64) & 1u64 == (y >> 3u64) & 1u64,
            (x >> 4u64) & 1u64 == (y >> 4u64) & 1u64,
            (x >> 5u64) & 1u64 == (y >> 5u64) & 1u64,
            (x >> 6u64) & 1u64 == (y >> 6u64) & 1u64,
            (x >> 7u64) & 1u64 == (y >> 7u64) & 1u64,
            (x >> 8u64) & 1u64 == (y >> 8u64) & 1u64,
            (x >> 9u64) & 1u64 == (y >> 9u64) & 1u64,
            (x >> 10u64) & 1u64 == (y >> 10u64) & 1u64,
            (x >> 11u64) & 1u64 == (y >> 11u64) & 1u64,
            (x >> 12u64) & 1u64 == (y >> 12u64) & 1u64,
            (x >> 13u64) & 1u64 == (y >> 13u64) & 1u64,
            (x >> 14u64) & 1u64 == (y >> 14u64) & 1u64,
            (x >> 15u64) & 1u64 == (y >> 15u64) & 1u64,
            (x >> 16u64) & 1u64 == (y >> 16u64) & 1u64,
            (x >> 17u64) & 1u64 == (y >> 17u64) & 1u64,
            (x >> 18u64) & 1u64 == (y >> 18u64) & 1u64,
            (x >> 19u64) & 1u64 == (y >> 19u64) & 1u64,
            (x >> 20u64) & 1u64 == (y >> 20u64) & 1u64,
            (x >> 21u64) & 1u64 == (y >> 21u64) & 1u64,
            (x >> 22u64) & 1u64 == (y >> 22u64) & 1u64,
            (x >> 23u64) & 1u64 == (y >> 23u64) & 1u64,
            (x >> 24u64) & 1u64 == (y >> 24u64) & 1u64,
            (x >> 25u64) & 1u64 == (y >> 25u64) & 1u64,
            (x >> 26u64) & 1u64 == (y >> 26u64) & 1u64,
            (x >> 27u64) & 1u64 == (y >> 27u64) & 1u64,
            (x >> 28u64) & 1u64 == (y >> 28u64) & 1u64,
            (x >> 29u64) & 1u64 == (y >> 29u64) & 1u64,
            (x >> 30u64) & 1u64 == (y >> 30u64) & 1u64,
            (x >> 31u64) & 1u64 == (y >> 31u64) & 1u64,
            (x >> 32u64) & 1u64 == (y >> 32u64) & 1u64,
            (x >> 33u64) & 1u64 == (y >> 33u64) & 1u64,
            (x >> 34u64) & 1u64 == (y >> 34u64) & 1u64,
            (x >> 35u64) & 1u64 == (y >> 35u64) & 1u64,
            (x >> 36u64) & 1u64 == (y >> 36u64) & 1u64,
            (x >> 37u64) & 1u64 == (y >> 37u64) & 1u64,
            (x >> 38u64) & 1u64 == (y >> 38u64) & 1u64,
            (x >> 39u64) & 1u64 == (y >> 39u64) & 1u64,
            (x >> 40u64) & 1u64 == (y >> 40u64) & 1u64,
            (x >> 41u64) & 1u64 == (y >> 41u64) & 1u64,
            (x >> 42u64) & 1u64 == (y >> 42u64) & 1u64,
            (x >> 43u64) & 1u64 == (y >> 43u64) & 1u64,
            (x >> 44u64) & 1u64 == (y >> 44u64) & 1u64,
            (x >> 45u64) & 1u64 == (y >> 45u64) & 1u64,
            (x >> 46u64) & 1u64 == (y >> 46u64) & 1u64,
            (x >> 47u64) & 1u64 == (y >> 47u64) & 1u64,
            (x >> 48u64) & 1u64 == (y >> 48u64) & 1u64,
            (x >> 49u64) & 1u64 == (y >> 49u64) & 1u64,
            (x >> 50u64) & 1u64 == (y >> 50u64) & 1u64,
            (x >> 51u64) & 1u64 == (y >> 51u64) & 1u64,
            (x >> 52u64) & 1u64 == (y >> 52u64) & 1u64,
            (x >> 53u64) & 1u64 == (y >> 53u64) & 1u64,
            (x >> 54u64) & 1u64 == (y >> 54u64) & 1u64,
            (x >> 55u64) & 1u64 == (y >> 55u64) & 1u64,
            (x >> 56u64) & 1u64 == (y >> 56u64) & 1u64,
            (x >> 57u64) & 1u64 == (y >> 57u64) & 1u64,
            (x >> 58u64) & 1u64 == (y >> 58u64) & 1u64,
            (x >> 59u64) & 1u64 == (y >> 59u64) & 1u64,
            (x >> 60u64) & 1u64 == (y >> 60u64) & 1u64,
            (x >> 61u64) & 1u64 == (y >> 61u64) & 1u64,
            (x >> 62u64) & 1u64 == (y >> 62u64) & 1u64,
            (x >> 63u64) & 1u64 == (y >> 63u64) & 1u64,
    {
    }
}

/// Interleaving is a bijection between pairs of 32-bit values and 64-bit
/// values: a value interleaves one pair only, and a pair is interleaved into
/// one value only. So `deinterleave(interleave(a, b)) == (a, b)` and
/// `interleave` of the halves of `deinterleave(z)` gives back `z`.
pub proof fn lemma_interleave_bijective(z: u64, a: u32, b: u32, z2: u64, a2: u32, b2: u32)
    ensures
        interleaves(z, a, b) && interleaves(z, a2, b2) ==> a == a2 && b == b2,
        interleaves(z, a, b) && interleaves(z2, a, b) ==> z == z2,
{
    if interleaves(z, a, b) && interleaves(z, a2, b2) {
        assert forall|j: u64| j < 32 implies #[trigger] bit_at(a as u64, j) == bit_at(a2 as u64, j) by {
            assert(even_bit(z, j) == bit_at(a as u64, j));
        }
        assert forall|j: u64| j < 32 implies #[trigger] bit_at(b as u64, j) == bit_at(b2 as u64, j) by {
            assert(odd_bit(z, j) == bit_at(b as u64, j));
        }
        lemma_bits_eq32(a, a2);
        lemma_bits_eq32(b, b2);
    }
    if interleaves(z, a, b) && interleaves(z2, a, b) {
        assert forall|j: u64| j < 32 implies #[trigger] even_bit(z, j) == even_bit(z2, j)
            && odd_bit(z, j) == odd_bit(z2, j) by {
            assert(even_bit(z, j) == bit_at(a as u64, j));
            assert(even_bit(z2, j) == bit_at(a as u64, j));
        }
        lemma_bits_eq64(z, z2);
    }
}


// ---------------------------------------------------------------------------
// Big-endian fields
// ---------------------------------------------------------------------------

/// The four big-endian bytes of `x`.
pub open spec fn be32(x: u32) -> Seq<u8> {
    seq![(x >> 24u32) as u8, (x >> 16u32) as u8, (x >> 8u32) as u8, x as u8]
}

/// The eight big-endian bytes of `x`.
pub open spec fn be64(x: u64) -> Seq<u8> {
    seq![
        (x >> 56u64) as u8, (x >> 48u64) as u8, (x >> 40u64) as u8, (x >> 32u64) as u8,
        (x >> 24u64) as u8, (x >> 16u64) as u8, (x >> 8u64) as u8, x as u8,
    ]
}

/// The big-endian `u32` in `s[o..o + 4]`.
pub open spec fn read32(s: Seq<u8>, o: int) -> u32 {
    ((s[o] as u32) << 24u32) | ((s[o + 1] as u32) << 16u32) | ((s[o + 2] as u32) << 8u32) | (s[o + 3] as u32)
}

/// The big-endian `u64` in `s[o..o + 8]`.
pub open spec fn read64(s: Seq<u8>, o: int) -> u64 {
    ((s[o] as u64) << 56u64) | ((s[o + 1] as u64) << 48u64) | ((s[o + 2] as u64) << 40u64)
        | ((s[o + 3] as u64) << 32u64) | ((s[o + 4] as u64) << 24u64) | ((s[o + 5] as u64) << 16u64)
        | ((s[o + 6] as u64) << 8u64) | (s[o + 7] as u64)
}

/// Reading back the bytes of a field gives the field.
pub proof fn lemma_be_roundtrip(x: u32, y: u64)
    ensures
        read32(be32(x), 0) == x,
        read64(be64(y), 0) == y,
{
    assert((((x >> 24u32) as u8) as u32) << 24u32 | (((x >> 16u32) as u8) as u32) << 16u32
        | (((x >> 8u32) as u8) as u32) << 8u32 | ((x as u8) as u32) == x) by (bit_vector);
    assert((((y >> 56u64) as u8) as u64) << 56u64 | (((y >> 48u64) as u8) as u64) << 48u64
        | (((y >> 40u64) as u8) as u64) << 40u64 | (((y >> 32u64) as u8) as u64) << 32u64
        | (((y >> 24u64) as u8) as u64) << 24u64 | (((y >> 16u64) as u8) as u64) << 16u64
        | (((y >> 8u64) as u8) as u64) << 8u64 | ((y as u8) as u64) == y) by (bit_vector);
}

/// Big-endian bytes order like the numbers: the first byte where two
/// encodings differ decides, and equal encodings mean equal numbers.
pub proof fn lemma_be32_first_diff(x: u32, y: u32)
    ensures
        be32(x)[0] != be32(y)[0] ==> (x < y <==> be32(x)[0] < be32(y)[0]),
        be32(x)[0] == be32(y)[0] && be32(x)[1] != be32(y)[1] ==> (x < y <==> be32(x)[1] < be32(y)[1]),
        be32(x)[0] == be32(y)[0] && be32(x)[1] == be32(y)[1] && be32(x)[2] != be32(y)[2] ==> (x < y <==> be32(x)[2]
            < be32(y)[2]),
        be32(x)[0] == be32(y)[0] && be32(x)[1] == be32(y)[1] && be32(x)[2] == be32(y)[2] && be32(x)[3] != be32(y)[3]
            ==> (x < y <==> be32(x)[3] < be32(y)[3]),
        be32(x)[0] == be32(y)[0] && be32(x)[1] == be32(y)[1] && be32(x)[2] == be32(y)[2] && be32(x)[3] == be32(y)[3]
            ==> x == y,
        be32(x).len() == 4,
{
    let a0 = (x >> 24u32) as u8;
    let a1 = (x >> 16u32) as u8;
    let a2 = (x >> 8u32) as u8;
    let a3 = x as u8;
    let c0 = (y >> 24u32) as u8;
    let c1 = (y >> 16u32) as u8;
    let c2 = (y >> 8u32) as u8;
    let c3 = y as u8;
    assert(be32(x)[0] == a0 && be32(x)[1] == a1 && be32(x)[2] == a2 && be32(x)[3] == a3);
    assert(be32(y)[0] == c0 && be32(y)[1] == c1 && be32(y)[2] == c2 && be32(y)[3] == c3);
    assert((((x >> 24u32) as u8) != ((y >> 24u32) as u8) ==> (x < y <==> ((x >> 24u32) as u8) < ((y >> 24u32) as u8)))
        && (((x >> 24u32) as u8) == ((y >> 24u32) as u8) && ((x >> 16u32) as u8) != ((y >> 16u32) as u8) ==> (x < y
        <==> ((x >> 16u32) as u8) < ((y >> 16u32) as u8))) && (((x >> 24u32) as u8) == ((y >> 24u32) as u8) && ((x
        >> 16u32) as u8) == ((y >> 16u32) as u8) && ((x >> 8u32) as u8) != ((y >> 8u32) as u8) ==> (x < y <==> ((x
        >> 8u32) as u8) < ((y >> 8u32) as u8))) && (((x >> 24u32) as u8) == ((y >> 24u32) as u8) && ((x >> 16u32) as u8)
        == ((y >> 16u32) as u8) && ((x >> 8u32) as u8) == ((y >> 8u32) as u8) && (x as u8) != (y as u8) ==> (x < y
        <==> (x as u8) < (y as u8))) && (((x >> 24u32) as u8) == ((y >> 24u32) as u8) && ((x >> 16u32) as u8) == ((y
        >> 16u32) as u8) && ((x >> 8u32) as u8) == ((y >> 8u32) as u8) && (x as u8) == (y as u8) ==> x == y))
        by (bit_vector);
}

/// The seeker prefix starts a grant key exactly when the key is one of that
/// seeker's.
pub proof fn lemma_seeker_prefix_selects(st: u32, si: u32, a: u32, b: u32, c: u32, d: u32, r: u32)
    ensures
        seeker_prefix_bytes(st, si).is_prefix_of(grant_key_bytes(a, b, c, d, r)) <==> (a == st && b == si),
        seeker_prefix_bytes(st, si) == grant_key_bytes(st, si, c, d, r).subrange(0, 8),
{
    let p = seeker_prefix_bytes(st, si);
    let k = grant_key_bytes(a, b, c, d, r);
    lemma_be32_first_diff(a, st);
    lemma_be32_first_diff(b, si);
    assert(grant_key_bytes(st, si, c, d, r).subrange(0, 8) =~= p);
    if p.is_prefix_of(k) {
        assert(k[0] == be32(a)[0] && p[0] == be32(st)[0]);
        assert(k[1] == be32(a)[1] && p[1] == be32(st)[1]);
        assert(k[2] == be32(a)[2] && p[2] == be32(st)[2]);
        assert(k[3] == be32(a)[3] && p[3] == be32(st)[3]);
        assert(k[4] == be32(b)[0] && p[4] == be32(si)[0]);
        assert(k[5] == be32(b)[1] && p[5] == be32(si)[1]);
        assert(k[6] == be32(b)[2] && p[6] == be32(si)[2]);
        assert(k[7] == be32(b)[3] && p[7] == be32(si)[3]);
    }
    if a == st && b == si {
        assert(k.subrange(0, 8) =~= p);
    }
}

fn put32(x: u32) -> (r: [u8; 4])
    ensures
        r@ == be32(x),
{
    let r = [(x >> 24) as u8, (x >> 16) as u8, (x >> 8) as u8, x as u8];
    assert(r@ =~= be32(x));
    r
}

fn put64(x: u64) -> (r: [u8; 8])
    ensures
        r@ == be64(x),
{
    let r = [
        (x >> 56) as u8, (x >> 48) as u8, (x >> 40) as u8, (x >> 32) as u8,
        (x >> 24) as u8, (x >> 16) as u8, (x >> 8) as u8, x as u8,
    ];
    assert(r@ =~= be64(x));
    r
}

pub(crate) fn get32(s: &[u8], o: usize) -> (x: u32)
    requires
        o + 4 <= s@.len(),
    ensures
        x == read32(s@, o as int),
{
    ((s[o] as u32) << 24) | ((s[o + 1] as u32) << 16) | ((s[o + 2] as u32) << 8) | (s[o + 3] as u32)
}

pub(crate) fn get64(s: &[u8], o: usize) -> (x: u64)
    requires
        o + 8 <= s@.len(),
    ensures
        x == read64(s@, o as int),
{
    ((s[o] as u64) << 56) | ((s[o + 1] as u64) << 48) | ((s[o + 2] as u64) << 40)
        | ((s[o + 3] as u64) << 32) | ((s[o + 4] as u64) << 24) | ((s[o + 5] as u64) << 16)
        | ((s[o + 6] as u64) << 8) | (s[o + 7] as u64)
}


// ---------------------------------------------------------------------------
// Name hashing
// ---------------------------------------------------------------------------

/// Byte `i` of `b` as a `u32`, or 0 past the end.
pub open spec fn byte_or_zero(b: Seq<u8>, i: int) -> u32 {
    if i < b.len() {
        b[i] as u32
    } else {
        0
    }
}

/// The first four bytes of `b`, big-endian, padded with zero bytes: names
/// keep their lexicographic order on those bytes.
pub open spec fn name_hash_of(b: Seq<u8>) -> u32 {
    (byte_or_zero(b, 0) << 24u32) | (byte_or_zero(b, 1) << 16u32) | (byte_or_zero(b, 2) << 8u32)
        | byte_or_zero(b, 3)
}

/// `s` without its first byte (the empty string stays empty).
pub open spec fn rest_bytes(s: Seq<u8>) -> Seq<u8> {
    if s.len() > 0 {
        s.drop_first()
    } else {
        s
    }
}

/// `n - 1`, as a natural number.
pub open spec fn less_one(n: nat) -> nat {
    (n - 1) as nat
}

/// The first `n` zero-padded bytes of `a` come, in order, no later than
/// those of `b`.
pub open spec fn padded_le(a: Seq<u8>, b: Seq<u8>, n: nat) -> bool
    decreases n,
{
    if n == 0 {
        true
    } else if byte_or_zero(a, 0) < byte_or_zero(b, 0) {
        true
    } else if byte_or_zero(a, 0) == byte_or_zero(b, 0) {
        padded_le(rest_bytes(a), rest_bytes(b), less_one(n))
    } else {
        false
    }
}

proof fn lemma_rest_bytes(s: Seq<u8>, j: int)
    requires
        j >= 0,
    ensures
        byte_or_zero(rest_bytes(s), j) == byte_or_zero(s, j + 1),
{
}

/// Names whose first four padded bytes are in order hash in order.
pub proof fn lemma_name_hash_le(a: Seq<u8>, b: Seq<u8>)
    requires
        padded_le(a, b, 4),
    ensures
        name_hash_of(a) <= name_hash_of(b),
{
    reveal_with_fuel(padded_le, 5);
    let a1 = rest_bytes(a);
    let a2 = rest_bytes(a1);
    let a3 = rest_bytes(a2);
    let b1 = rest_bytes(b);
    let b2 = rest_bytes(b1);
    let b3 = rest_bytes(b2);
    lemma_rest_bytes(a, 0);
    lemma_rest_bytes(a1, 0);
    lemma_rest_bytes(a, 1);
    lemma_rest_bytes(a2, 0);
    lemma_rest_bytes(a1, 1);
    lemma_rest_bytes(a, 2);
    lemma_rest_bytes(b, 0);
    lemma_rest_bytes(b1, 0);
    lemma_rest_bytes(b, 1);
    lemma_rest_bytes(b2, 0);
    lemma_rest_bytes(b1, 1);
    lemma_rest_bytes(b, 2);
    let c0 = byte_or_zero(a, 0);
    let c1 = byte_or_zero(a, 1);
    let c2 = byte_or_zero(a, 2);
    let c3 = byte_or_zero(a, 3);
    let d0 = byte_or_zero(b, 0);
    let d1 = byte_or_zero(b, 1);
    let d2 = byte_or_zero(b, 2);
    let d3 = byte_or_zero(b, 3);
    assert(c0 < d0 || (c0 == d0 && (c1 < d1 || (c1 == d1 && (c2 < d2 || (c2 == d2 && c3 <= d3))))));
    assert(c0 < 256 && c1 < 256 && c2 < 256 && c3 < 256 && d0 < 256 && d1 < 256 && d2 < 256 && d3 < 256);
    assert((c0 < 256 && c1 < 256 && c2 < 256 && c3 < 256 && d0 < 256 && d1 < 256 && d2 < 256 && d3 < 256) && (c0
        < d0 || (c0 == d0 && (c1 < d1 || (c1 == d1 && (c2 < d2 || (c2 == d2 && c3 <= d3)))))) ==> ((c0 << 24u32) | (c1
        << 16u32) | (c2 << 8u32) | c3) <= ((d0 << 24u32) | (d1 << 16u32) | (d2 << 8u32) | d3)) by (bit_vector);
}

/// Hashes a name to a `u32`: its first four UTF-8 bytes, big-endian, zero-padded.
pub fn name_hash(name: &str) -> (h: u32)
    ensures
        h == name_hash_of(name.spec_bytes()),
{
    let bytes = name.as_bytes();
    let n = bytes.len();
    let b0: u32 = if n > 0 { bytes[0] as u32 } else { 0 };
    let b1: u32 = if n > 1 { bytes[1] as u32 } else { 0 };
    let b2: u32 = if n > 2 { bytes[2] as u32 } else { 0 };
    let b3: u32 = if n > 3 { bytes[3] as u32 } else { 0 };
    (b0 << 24) | (b1 << 16) | (b2 << 8) | b3
}

// ---------------------------------------------------------------------------
// Key layouts
// ---------------------------------------------------------------------------

/// Entity key: `[type_id:4][interleave(entity_id, name_hash):8]`.
pub open spec fn entity_key_bytes(type_id: u32, z: u64) -> Seq<u8> {
    be32(type_id) + be64(z)
}

/// Builds the 12-byte entity key: the type id, then the entity id interleaved
/// with the hash of the name.
pub fn entity_key(type_id: u32, entity_id: u32, name: &str) -> (key: [u8; 12])
    ensures
        exists|z: u64|
            interleaves(z, entity_id, name_hash_of(name.spec_bytes())) && key@ == #[trigger] entity_key_bytes(type_id, z),
{
    let t = put32(type_id);
    let z = interleave(entity_id, name_hash(name));
    let w = put64(z);
    let key = [t[0], t[1], t[2], t[3], w[0], w[1], w[2], w[3], w[4], w[5], w[6], w[7]];
    assert(key@ =~= entity_key_bytes(type_id, z));
    key
}

/// Grant key: seeker type and id, scope type and id, role id.
pub open spec fn grant_key_bytes(seeker_type: u32, seeker_id: u32, scope_type: u32, scope_id: u32, role_id: u32) -> Seq<u8> {
    be32(seeker_type) + be32(seeker_id) + be32(scope_type) + be32(scope_id) + be32(role_id)
}

/// Builds the 20-byte grant key; the seeker fields come first, so that all
/// grants of one seeker are adjacent.
pub fn grant_key(seeker_type: u32, seeker_id: u32, scope_type: u32, scope_id: u32, role_id: u32) -> (key: [u8; 20])
    ensures
        key@ == grant_key_bytes(seeker_type, seeker_id, scope_type, scope_id, role_id),
{
    let f0 = put32(seeker_type);
    let f1 = put32(seeker_id);
    let f2 = put32(scope_type);
    let f3 = put32(scope_id);
    let f4 = put32(role_id);
    let key = [f0[0], f0[1], f0[2], f0[3], f1[0], f1[1], f1[2], f1[3], f2[0], f2[1], f2[2], f2[3], f3[0], f3[1], f3[2], f3[3], f4[0], f4[1], f4[2], f4[3]];
    assert(key@ =~= grant_key_bytes(seeker_type, seeker_id, scope_type, scope_id, role_id));
    key
}

/// Seeker prefix of grant and delegation keys.
pub open spec fn seeker_prefix_bytes(seeker_type: u32, seeker_id: u32) -> Seq<u8> {
    be32(seeker_type) + be32(seeker_id)
}

/// The 8-byte prefix shared by every grant key of one seeker.
pub fn grant_seeker_prefix(seeker_type: u32, seeker_id: u32) -> (key: [u8; 8])
    ensures
        key@ == seeker_prefix_bytes(seeker_type, seeker_id),
{
    let f0 = put32(seeker_type);
    let f1 = put32(seeker_id);
    let key = [f0[0], f0[1], f0[2], f0[3], f1[0], f1[1], f1[2], f1[3]];
    assert(key@ =~= seeker_prefix_bytes(seeker_type, seeker_id));
    key
}

/// Seeker and scope prefix of grant and delegation keys.
pub open spec fn seeker_scope_prefix_bytes(seeker_type: u32, seeker_id: u32, scope_type: u32, scope_id: u32) -> Seq<u8> {
    be32(seeker_type) + be32(seeker_id) + be32(scope_type) + be32(scope_id)
}

/// The 16-byte prefix shared by every grant key of one seeker on one scope.
pub fn grant_seeker_scope_prefix(seeker_type: u32, seeker_id: u32, scope_type: u32, scope_id: u32) -> (key: [u8; 16])
    ensures
        key@ == seeker_scope_prefix_bytes(seeker_type, seeker_id, scope_type, scope_id),
{
    let f0 = put32(seeker_type);
    let f1 = put32(seeker_id);
    let f2 = put32(scope_type);
    let f3 = put32(scope_id);
    let key = [f0[0], f0[1], f0[2], f0[3], f1[0], f1[1], f1[2], f1[3], f2[0], f2[1], f2[2], f2[3], f3[0], f3[1], f3[2], f3[3]];
    assert(key@ =~= seeker_scope_prefix_bytes(seeker_type, seeker_id, scope_type, scope_id));
    key
}

/// Capability key: scope type and id, role id.
pub open spec fn capability_key_bytes(scope_type: u32, scope_id: u32, role_id: u32) -> Seq<u8> {
    be32(scope_type) + be32(scope_id) + be32(role_id)
}

/// Builds the 12-byte capability key.
pub fn capability_key(scope_type: u32, scope_id: u32, role_id: u32) -> (key: [u8; 12])
    ensures
        key@ == capability_key_bytes(scope_type, scope_id, role_id),
{
    let f0 = put32(scope_type);
    let f1 = put32(scope_id);
    let f2 = put32(role_id);
    let key = [f0[0], f0[1], f0[2], f0[3], f1[0], f1[1], f1[2], f1[3], f2[0], f2[1], f2[2], f2[3]];
    assert(key@ =~= capability_key_bytes(scope_type, scope_id, role_id));
    key
}

/// Delegation key: seeker, scope and source, each as type and id.
pub open spec fn inheritance_key_bytes(seeker_type: u32, seeker_id: u32, scope_type: u32, scope_id: u32, source_type: u32, source_id: u32) -> Seq<u8> {
    be32(seeker_type) + be32(seeker_id) + be32(scope_type) + be32(scope_id) + be32(source_type) + be32(source_id)
}

/// Builds the 24-byte delegation key; the seeker fields come first.
pub fn inheritance_key(seeker_type: u32, seeker_id: u32, scope_type: u32, scope_id: u32, source_type: u32, source_id: u32) -> (key: [u8; 24])
    ensures
        key@ == inheritance_key_bytes(seeker_type, seeker_id, scope_type, scope_id, source_type, source_id),
{
    let f0 = put32(seeker_type);
    let f1 = put32(seeker_id);
    let f2 = put32(scope_type);
    let f3 = put32(scope_id);
    let f4 = put32(source_type);
    let f5 = put32(source_id);
    let key = [f0[0], f0[1], f0[2], f0[3], f1[0], f1[1], f1[2], f1[3], f2[0], f2[1], f2[2], f2[3], f3[0], f3[1], f3[2], f3[3], f4[0], f4[1], f4[2], f4[3], f5[0], f5[1], f5[2], f5[3]];
    assert(key@ =~= inheritance_key_bytes(seeker_type, seeker_id, scope_type, scope_id, source_type, source_id));
    key
}

/// The 8-byte prefix shared by every delegation key of one seeker.
pub fn inheritance_seeker_prefix(seeker_type: u32, seeker_id: u32) -> (key: [u8; 8])
    ensures
        key@ == seeker_prefix_bytes(seeker_type, seeker_id),
{
    let f0 = put32(seeker_type);
    let f1 = put32(seeker_id);
    let key = [f0[0], f0[1], f0[2], f0[3], f1[0], f1[1], f1[2], f1[3]];
    assert(key@ =~= seeker_prefix_bytes(seeker_type, seeker_id));
    key
}

/// The 16-byte prefix shared by every delegation key of one seeker on one scope.
pub fn inheritance_seeker_scope_prefix(seeker_type: u32, seeker_id: u32, scope_type: u32, scope_id: u32) -> (key: [u8; 16])
    ensures
        key@ == seeker_scope_prefix_bytes(seeker_type, seeker_id, scope_type, scope_id),
{
    let f0 = put32(seeker_type);
    let f1 = put32(seeker_id);
    let f2 = put32(scope_type);
    let f3 = put32(scope_id);
    let key = [f0[0], f0[1], f0[2], f0[3], f1[0], f1[1], f1[2], f1[3], f2[0], f2[1], f2[2], f2[3], f3[0], f3[1], f3[2], f3[3]];
    assert(key@ =~= seeker_scope_prefix_bytes(seeker_type, seeker_id, scope_type, scope_id));
    key
}

/// Capability label key: scope type and id, capability bit.
pub open spec fn cap_label_key_bytes(scope_type: u32, scope_id: u32, bit: u32) -> Seq<u8> {
    be32(scope_type) + be32(scope_id) + be32(bit)
}

/// Builds the 12-byte capability label key.
pub fn cap_label_key(scope_type: u32, scope_id: u32, bit: u32) -> (key: [u8; 12])
    ensures
        key@ == cap_label_key_bytes(scope_type, scope_id, bit),
{
    let f0 = put32(scope_type);
    let f1 = put32(scope_id);
    let f2 = put32(bit);
    let key = [f0[0], f0[1], f0[2], f0[3], f1[0], f1[1], f1[2], f1[3], f2[0], f2[1], f2[2], f2[3]];
    assert(key@ =~= cap_label_key_bytes(scope_type, scope_id, bit));
    key
}

/// The 4-byte prefix shared by every entity key of one type.
pub fn entity_type_prefix(type_id: u32) -> (prefix: [u8; 4])
    ensures
        prefix@ == be32(type_id),
{
    put32(type_id)
}

/// The interleaved part of a key for one id alone: the id in the even bits
/// (first dimension) or, when `is_second`, in the odd bits.
pub fn grant_prefix_for_id(id: u32, is_second: bool) -> (prefix: [u8; 8])
    ensures
        exists|z: u64|
            #![trigger be64(z)]
            prefix@ == be64(z) && (if is_second { interleaves(z, 0, id) } else { interleaves(z, id, 0) }),
{
    let z = if is_second { interleave(0, id) } else { interleave(id, 0) };
    put64(z)
}

/// The 8-byte prefix shared by every capability key of one scope.
pub fn capability_scope_prefix(scope_type: u32, scope_id: u32) -> (prefix: [u8; 8])
    ensures
        prefix@ == be32(scope_type) + be32(scope_id),
{
    let a = put32(scope_type);
    let b = put32(scope_id);
    let prefix = [a[0], a[1], a[2], a[3], b[0], b[1], b[2], b[3]];
    assert(prefix@ =~= be32(scope_type) + be32(scope_id));
    prefix
}


// ---------------------------------------------------------------------------
// Key parsing
// ---------------------------------------------------------------------------

/// Parses an entity key back into `(type_id, entity_id, name_hash)`; `None`
/// for fewer than 12 bytes.
pub fn parse_entity_key(key: &[u8]) -> (r: Option<(u32, u32, u32)>)
    ensures
        r is None <==> key@.len() < 12,
        r matches Some((t, e, h)) ==> t == read32(key@, 0) && interleaves(read64(key@, 4), e, h),
{
    if key.len() < 12 {
        return None;
    }
    let type_id = get32(key, 0);
    let z = get64(key, 4);
    let (entity_id, name_hash) = deinterleave(z);
    Some((type_id, entity_id, name_hash))
}

/// Parses a grant key back into
/// `(seeker_type, seeker_id, scope_type, scope_id, role_id)`; `None` for fewer
/// than 20 bytes.
pub fn parse_grant_key(key: &[u8]) -> (r: Option<(u32, u32, u32, u32, u32)>)
    ensures
        r == (if key@.len() < 20 {
            None
        } else {
            Some((read32(key@, 0), read32(key@, 4), read32(key@, 8), read32(key@, 12), read32(key@, 16)))
        }),
{
    if key.len() < 20 {
        return None;
    }
    Some((get32(key, 0), get32(key, 4), get32(key, 8), get32(key, 12), get32(key, 16)))
}

/// Parses a capability key back into `(scope_type, scope_id, role_id)`;
/// `None` for fewer than 12 bytes.
pub fn parse_capability_key(key: &[u8]) -> (r: Option<(u32, u32, u32)>)
    ensures
        r == (if key@.len() < 12 {
            None
        } else {
            Some((read32(key@, 0), read32(key@, 4), read32(key@, 8)))
        }),
{
    if key.len() < 12 {
        return None;
    }
    Some((get32(key, 0), get32(key, 4), get32(key, 8)))
}

/// Parses a delegation key back into
/// `(seeker_type, seeker_id, scope_type, scope_id, source_type, source_id)`;
/// `None` for fewer than 24 bytes.
pub fn parse_inheritance_key(key: &[u8]) -> (r: Option<(u32, u32, u32, u32, u32, u32)>)
    ensures
        r == (if key@.len() < 24 {
            None
        } else {
            Some((read32(key@, 0), read32(key@, 4), read32(key@, 8), read32(key@, 12), read32(key@, 16), read32(key@, 20)))
        }),
{
    if key.len() < 24 {
        return None;
    }
    Some((get32(key, 0), get32(key, 4), get32(key, 8), get32(key, 12), get32(key, 16), get32(key, 20)))
}

/// Parses a capability label key back into `(scope_type, scope_id, bit)`;
/// `None` for fewer than 12 bytes.
pub fn parse_cap_label_key(key: &[u8]) -> (r: Option<(u32, u32, u32)>)
    ensures
        r == (if key@.len() < 12 {
            None
        } else {
            Some((read32(key@, 0), read32(key@, 4), read32(key@, 8)))
        }),
{
    if key.len() < 12 {
        return None;
    }
    Some((get32(key, 0), get32(key, 4), get32(key, 8)))
}

/// Every key layout parses back into the fields it was built from.
pub proof fn lemma_keys_roundtrip(a: u32, b: u32, c: u32, d: u32, e: u32, f: u32, z: u64)
    ensures
        read32(entity_key_bytes(a, z), 0) == a && read64(entity_key_bytes(a, z), 4) == z,
        read32(grant_key_bytes(a, b, c, d, e), 0) == a && read32(grant_key_bytes(a, b, c, d, e), 4) == b
            && read32(grant_key_bytes(a, b, c, d, e), 8) == c && read32(grant_key_bytes(a, b, c, d, e), 12) == d
            && read32(grant_key_bytes(a, b, c, d, e), 16) == e,
        read32(capability_key_bytes(a, b, c), 0) == a && read32(capability_key_bytes(a, b, c), 4) == b
            && read32(capability_key_bytes(a, b, c), 8) == c,
        read32(cap_label_key_bytes(a, b, c), 0) == a && read32(cap_label_key_bytes(a, b, c), 4) == b
            && read32(cap_label_key_bytes(a, b, c), 8) == c,
        read32(inheritance_key_bytes(a, b, c, d, e, f), 0) == a && read32(inheritance_key_bytes(a, b, c, d, e, f), 4) == b
            && read32(inheritance_key_bytes(a, b, c, d, e, f), 8) == c
            && read32(inheritance_key_bytes(a, b, c, d, e, f), 12) == d
            && read32(inheritance_key_bytes(a, b, c, d, e, f), 16) == e
            && read32(inheritance_key_bytes(a, b, c, d, e, f), 20) == f,
{
    lemma_be_roundtrip(a, z);
    lemma_be_roundtrip(b, z);
    lemma_be_roundtrip(c, z);
    lemma_be_roundtrip(d, z);
    lemma_be_roundtrip(e, z);
    lemma_be_roundtrip(f, z);
}


// ---------------------------------------------------------------------------
// Length-prefixed keys (older layout)
// ---------------------------------------------------------------------------

/// Length-prefixed concatenation: each part as its length byte (the length
/// taken modulo 256, as a cast to `u8` does), then its bytes.
pub open spec fn legacy_key(parts: Seq<Seq<u8>>) -> Seq<u8>
    decreases parts.len(),
{
    if parts.len() == 0 {
        seq![]
    } else {
        legacy_key(parts.drop_last()) + seq![parts.last().len() as u8] + parts.last()
    }
}

/// The parts a length-prefixed key holds, read from the front up to the end
/// of the bytes or up to a part that would run past them.
pub open spec fn legacy_parts(b: Seq<u8>) -> Seq<Seq<u8>>
    decreases b.len(),
{
    if b.len() == 0 {
        seq![]
    } else if 1 + (b[0] as int) > b.len() {
        seq![]
    } else {
        seq![b.subrange(1, 1 + b[0] as int)] + legacy_parts(b.subrange(1 + b[0] as int, b.len() as int))
    }
}

/// The UTF-8 bytes of each string.
pub open spec fn bytes_of_strs(parts: Seq<&str>) -> Seq<Seq<u8>> {
    parts.map_values(|p: &str| p.spec_bytes())
}

pub(crate) fn push_bytes(key: &mut Vec<u8>, bytes: &[u8])
    ensures
        final(key)@ == old(key)@ + bytes@,
{
    let mut i: usize = 0;
    while i < bytes.len()
        invariant
            i <= bytes@.len(),
            key@ == old(key)@ + bytes@.subrange(0, i as int),
        decreases bytes@.len() - i,
    {
        key.push(bytes[i]);
        i = i + 1;
        assert(key@ =~= old(key)@ + bytes@.subrange(0, i as int));
    }
    assert(bytes@.subrange(0, bytes@.len() as int) =~= bytes@);
}

fn push_part(key: &mut Vec<u8>, part: &[u8])
    ensures
        final(key)@ == old(key)@ + seq![part@.len() as u8] + part@,
{
    key.push(part.len() as u8);
    push_bytes(key, part);
    assert(final(key)@ =~= old(key)@ + seq![part@.len() as u8] + part@);
}

/// Builds a length-prefixed key from its parts.
pub fn build_key(parts: &[&str]) -> (key: Vec<u8>)
    ensures
        key@ == legacy_key(bytes_of_strs(parts@)),
{
    let mut key: Vec<u8> = Vec::new();
    let mut i: usize = 0;
    while i < parts.len()
        invariant
            i <= parts@.len(),
            key@ == legacy_key(bytes_of_strs(parts@).take(i as int)),
        decreases parts@.len() - i,
    {
        let part = parts[i];
        push_part(&mut key, part.as_bytes());
        proof {
            let all = bytes_of_strs(parts@);
            assert(all.take(i + 1).drop_last() =~= all.take(i as int));
            assert(all.take(i + 1).last() == part.spec_bytes());
        }
        i = i + 1;
    }
    assert(bytes_of_strs(parts@).take(parts@.len() as int) =~= bytes_of_strs(parts@));
    key
}

/// Builds a prefix for scanning: the same bytes as `build_key`.
pub fn build_prefix(parts: &[&str]) -> (prefix: Vec<u8>)
    ensures
        prefix@ == legacy_key(bytes_of_strs(parts@)),
{
    build_key(parts)
}

proof fn lemma_legacy_key_pair(a: Seq<u8>, b: Seq<u8>)
    ensures
        legacy_key(seq![a, b]) == seq![a.len() as u8] + a + seq![b.len() as u8] + b,
{
    let ps = seq![a, b];
    assert(ps.drop_last() =~= seq![a]);
    assert(seq![a].drop_last() =~= Seq::<Seq<u8>>::empty());
    assert(legacy_key(Seq::<Seq<u8>>::empty()) == Seq::<u8>::empty());
    assert(legacy_key(seq![a]) =~= seq![a.len() as u8] + a);
    assert(legacy_key(ps) =~= seq![a.len() as u8] + a + seq![b.len() as u8] + b);
}

/// Builds the length-prefixed key of an entity: its type, then its id.
pub fn entity_key_legacy(entity_type: &str, id: &str) -> (key: Vec<u8>)
    ensures
        key@ == legacy_key(seq![entity_type.spec_bytes(), id.spec_bytes()]),
{
    let mut key: Vec<u8> = Vec::new();
    push_part(&mut key, entity_type.as_bytes());
    push_part(&mut key, id.as_bytes());
    proof {
        let ps = seq![entity_type.spec_bytes(), id.spec_bytes()];
        lemma_legacy_key_pair(entity_type.spec_bytes(), id.spec_bytes());
    }
    key
}

/// `b[i]` is the first `':'` byte of `b`.
pub open spec fn first_colon(b: Seq<u8>, i: int) -> bool {
    0 <= i < b.len() && b[i] == 58u8 && forall|j: int| 0 <= j < i ==> b[j] != 58u8
}

/// Converts `"type:id"` into the length-prefixed entity key, splitting at the
/// first `':'`; `None` when there is no `':'`.
pub fn entity_from_str(s: &str) -> (key: Option<Vec<u8>>)
    ensures
        key is None <==> !s.spec_bytes().contains(58u8),
        key matches Some(k) ==> exists|i: int|
            #![trigger first_colon(s.spec_bytes(), i)]
            first_colon(s.spec_bytes(), i) && k@ == legacy_key(
                seq![s.spec_bytes().subrange(0, i), s.spec_bytes().subrange(i + 1, s.spec_bytes().len() as int)],
            ),
{
    let b = s.as_bytes();
    let mut i: usize = 0;
    while i < b.len()
        invariant
            i <= b@.len(),
            b@ == s.spec_bytes(),
            forall|j: int| 0 <= j < i ==> b@[j] != 58u8,
        decreases b@.len() - i,
    {
        if b[i] == 58u8 {
            let t = vstd::slice::slice_subrange(b, 0, i);
            let id = vstd::slice::slice_subrange(b, i + 1, b.len());
            let mut key: Vec<u8> = Vec::new();
            push_part(&mut key, t);
            push_part(&mut key, id);
            proof {
                lemma_legacy_key_pair(t@, id@);
                assert(s.spec_bytes()[i as int] == 58u8);
                assert(s.spec_bytes().contains(58u8));
                assert(first_colon(s.spec_bytes(), i as int));
            }
            return Some(key);
        }
        i = i + 1;
    }
    proof {
        if s.spec_bytes().contains(58u8) {
            let k = choose|k: int| 0 <= k < s.spec_bytes().len() && s.spec_bytes()[k] == 58u8;
            assert(b@[k] != 58u8);
        }
    }
    None
}


proof fn lemma_legacy_parts_step(b: Seq<u8>, i: int)
    requires
        0 <= i < b.len(),
        i + 1 + (b[i] as int) <= b.len(),
    ensures
        legacy_parts(b.subrange(i, b.len() as int)) == seq![b.subrange(i + 1, i + 1 + b[i] as int)]
            + legacy_parts(b.subrange(i + 1 + b[i] as int, b.len() as int)),
{
    let r = b.subrange(i, b.len() as int);
    assert(r[0] == b[i]);
    assert(r.subrange(1, 1 + b[i] as int) =~= b.subrange(i + 1, i + 1 + b[i] as int));
    assert(r.subrange(1 + b[i] as int, r.len() as int) =~= b.subrange(i + 1 + b[i] as int, b.len() as int));
}

/// Where part `n` of a length-prefixed key lies, if the key holds that many parts.
fn part_range(bytes: &[u8], n: usize) -> (r: Option<(usize, usize)>)
    ensures
        r is None <==> n >= legacy_parts(bytes@).len(),
        r matches Some((s, e)) ==> s <= e <= bytes@.len() && bytes@.subrange(s as int, e as int)
            == legacy_parts(bytes@)[n as int],
{
    let mut i: usize = 0;
    let mut count: usize = 0;
    let ghost mut seen: Seq<Seq<u8>> = Seq::empty();
    assert(bytes@.subrange(0, bytes@.len() as int) =~= bytes@);
    while i < bytes.len()
        invariant
            i <= bytes@.len(),
            count <= n,
            seen.len() == count,
            legacy_parts(bytes@) == seen + legacy_parts(bytes@.subrange(i as int, bytes@.len() as int)),
        decreases bytes@.len() - i,
    {
        let l = bytes[i] as usize;
        if l >= bytes.len() - i {
            proof {
                let rest = bytes@.subrange(i as int, bytes@.len() as int);
                assert(rest[0] == bytes@[i as int]);
                assert(legacy_parts(rest) =~= Seq::<Seq<u8>>::empty());
                assert(legacy_parts(bytes@) =~= seen);
            }
            return None;
        }
        proof {
            lemma_legacy_parts_step(bytes@, i as int);
        }
        if count == n {
            return Some((i + 1, i + 1 + l));
        }
        proof {
            let part = bytes@.subrange(i + 1, i + 1 + l);
            assert(seen + (seq![part] + legacy_parts(bytes@.subrange(i + 1 + l, bytes@.len() as int)))
                =~= seen.push(part) + legacy_parts(bytes@.subrange(i + 1 + l, bytes@.len() as int)));
            seen = seen.push(part);
        }
        i = i + 1 + l;
        count = count + 1;
    }
    proof {
        assert(bytes@.subrange(i as int, bytes@.len() as int) =~= Seq::<u8>::empty());
        assert(legacy_parts(bytes@) =~= seen);
    }
    None
}

/// The parts of a length-prefixed key as strings, in order: up to the end of
/// the bytes, a part that would run past them, or the first part that is not
/// valid UTF-8.
pub fn parse_key(bytes: &[u8]) -> (r: Vec<&str>)
    ensures
        r@.len() <= legacy_parts(bytes@).len(),
        forall|j: int| 0 <= j < r@.len() ==> (#[trigger] r@[j]).spec_bytes() == legacy_parts(bytes@)[j],
        r@.len() < legacy_parts(bytes@).len() ==> !valid_utf8(legacy_parts(bytes@)[r@.len() as int]),
{
    let mut parts: Vec<&str> = Vec::new();
    let mut i: usize = 0;
    let ghost mut seen: Seq<Seq<u8>> = Seq::empty();
    assert(bytes@.subrange(0, bytes@.len() as int) =~= bytes@);
    while i < bytes.len()
        invariant
            i <= bytes@.len(),
            seen.len() == parts@.len(),
            forall|j: int| 0 <= j < parts@.len() ==> (#[trigger] parts@[j]).spec_bytes() == seen[j],
            legacy_parts(bytes@) == seen + legacy_parts(bytes@.subrange(i as int, bytes@.len() as int)),
        decreases bytes@.len() - i,
    {
        let l = bytes[i] as usize;
        if l >= bytes.len() - i {
            proof {
                let rest = bytes@.subrange(i as int, bytes@.len() as int);
                assert(rest[0] == bytes@[i as int]);
                assert(legacy_parts(rest) =~= Seq::<Seq<u8>>::empty());
                assert(legacy_parts(bytes@) =~= seen);
            }
            return parts;
        }
        proof {
            lemma_legacy_parts_step(bytes@, i as int);
        }
        let ghost part = bytes@.subrange(i + 1, i + 1 + l);
        match str_from_utf8(vstd::slice::slice_subrange(bytes, i + 1, i + 1 + l)) {
            Ok(p) => {
                parts.push(p);
            },
            Err(_) => {
                proof {
                    assert(legacy_parts(bytes@)[seen.len() as int] == part);
                }
                return parts;
            },
        }
        proof {
            assert(seen + (seq![part] + legacy_parts(bytes@.subrange(i + 1 + l, bytes@.len() as int)))
                =~= seen.push(part) + legacy_parts(bytes@.subrange(i + 1 + l, bytes@.len() as int)));
            seen = seen.push(part);
        }
        i = i + 1 + l;
    }
    proof {
        assert(bytes@.subrange(i as int, bytes@.len() as int) =~= Seq::<u8>::empty());
        assert(legacy_parts(bytes@) =~= seen);
    }
    parts
}

/// Part `n` of a length-prefixed key as a string; `None` when the key holds
/// fewer parts or that part is not valid UTF-8.
pub fn get_part(bytes: &[u8], n: usize) -> (r: Option<&str>)
    ensures
        r is Some <==> n < legacy_parts(bytes@).len() && valid_utf8(legacy_parts(bytes@)[n as int]),
        r matches Some(s) ==> s.spec_bytes() == legacy_parts(bytes@)[n as int],
{
    match part_range(bytes, n) {
        None => None,
        Some((s, e)) => match str_from_utf8(vstd::slice::slice_subrange(bytes, s, e)) {
            Ok(t) => Some(t),
            Err(_) => None,
        },
    }
}

/// Converts a length-prefixed entity key back into `"type:id"`; `None` when
/// the key holds fewer than two parts or one of them is not valid UTF-8.
pub fn entity_to_str(bytes: &[u8]) -> (r: Option<String>)
    ensures
        r is Some <==> legacy_parts(bytes@).len() >= 2 && valid_utf8(legacy_parts(bytes@)[0])
            && valid_utf8(legacy_parts(bytes@)[1]),
        r matches Some(s) ==> s@ == decode_utf8(legacy_parts(bytes@)[0]) + seq![':']
            + decode_utf8(legacy_parts(bytes@)[1]),
{
    let t = match get_part(bytes, 0) {
        Some(t) => t,
        None => return None,
    };
    let id = match get_part(bytes, 1) {
        Some(id) => id,
        None => return None,
    };
    let s = String::from_str(t).concat(":").concat(id);
    proof {
        reveal_strlit(":");
        vstd::utf8::encode_utf8_decode_utf8(t@);
        vstd::utf8::encode_utf8_decode_utf8(id@);
    }
    Some(s)
}


/// A length-prefixed key read from the front: the first part's length and
/// bytes, then the key of the other parts.
proof fn lemma_legacy_key_front(parts: Seq<Seq<u8>>)
    requires
        parts.len() > 0,
    ensures
        legacy_key(parts) == seq![parts[0].len() as u8] + parts[0] + legacy_key(parts.drop_first()),
    decreases parts.len(),
{
    if parts.len() == 1 {
        assert(parts.drop_last() =~= Seq::<Seq<u8>>::empty());
        assert(parts.drop_first() =~= Seq::<Seq<u8>>::empty());
        assert(legacy_key(parts) =~= seq![parts[0].len() as u8] + parts[0] + legacy_key(parts.drop_first()));
    } else {
        let d = parts.drop_last();
        lemma_legacy_key_front(d);
        assert(d.drop_first() =~= parts.drop_first().drop_last());
        assert(d[0] == parts[0]);
        assert(parts.drop_first().last() == parts.last());
        assert(legacy_key(parts) =~= seq![parts[0].len() as u8] + parts[0] + legacy_key(parts.drop_first()));
    }
}

/// Any number of parts of at most 255 bytes each read back from their
/// length-prefixed key: `parse_key(build_key(parts)) == parts`.
pub proof fn lemma_legacy_roundtrip(parts: Seq<Seq<u8>>)
    requires
        forall|j: int| 0 <= j < parts.len() ==> (#[trigger] parts[j]).len() < 256,
    ensures
        legacy_parts(legacy_key(parts)) == parts,
    decreases parts.len(),
{
    if parts.len() == 0 {
        assert(legacy_key(parts) =~= Seq::<u8>::empty());
        assert(legacy_parts(legacy_key(parts)) =~= parts);
    } else {
        let p = parts[0];
        let rest = parts.drop_first();
        assert forall|j: int| 0 <= j < rest.len() implies (#[trigger] rest[j]).len() < 256 by {
            assert(rest[j] == parts[j + 1]);
        }
        lemma_legacy_roundtrip(rest);
        lemma_legacy_key_front(parts);
        let k = legacy_key(parts);
        assert(k[0] == p.len() as u8);
        assert((p.len() as u8) as int == p.len());
        assert(k.subrange(1, 1 + p.len() as int) =~= p);
        assert(k.subrange(1 + p.len() as int, k.len() as int) =~= legacy_key(rest));
        assert(legacy_parts(k) =~= seq![p] + rest);
        assert(seq![p] + rest =~= parts);
    }
}

/// A two-part length-prefixed key reads back as its two parts when each is
/// shorter than 256 bytes (a longer part's length byte wraps around).
pub proof fn lemma_legacy_pair_roundtrip(a: Seq<u8>, b: Seq<u8>)
    requires
        a.len() < 256,
        b.len() < 256,
    ensures
        legacy_parts(legacy_key(seq![a, b])) == seq![a, b],
{
    lemma_legacy_key_pair(a, b);
    let k = legacy_key(seq![a, b]);
    assert(k[0] == a.len() as u8);
    assert(k.subrange(1, 1 + a.len() as int) =~= a);
    let rest = k.subrange(1 + a.len() as int, k.len() as int);
    assert(rest =~= seq![b.len() as u8] + b);
    assert(rest[0] == b.len() as u8);
    assert(rest.subrange(1, 1 + b.len() as int) =~= b);
    assert(rest.subrange(1 + b.len() as int, rest.len() as int) =~= Seq::<u8>::empty());
    assert(legacy_parts(Seq::<u8>::empty()) =~= Seq::<Seq<u8>>::empty());
    assert(legacy_parts(rest) =~= seq![b]);
    assert(legacy_parts(k) =~= seq![a, b]);
}

/// Entity text round trip: for text `s` whose first `':'` stands at byte `i`,
/// with fewer than 256 bytes on each side of it, the key that
/// `entity_from_str(s)` builds holds two valid UTF-8 parts, and
/// `entity_to_str` of that key gives back exactly `s`.
pub proof fn lemma_entity_text_roundtrip(s: Seq<char>, i: int)
    requires
        first_colon(encode_utf8(s), i),
        i < 256,
        encode_utf8(s).len() - i - 1 < 256,
    ensures
        ({
            let b = encode_utf8(s);
            let k = legacy_key(seq![b.subrange(0, i), b.subrange(i + 1, b.len() as int)]);
            &&& legacy_parts(k).len() >= 2
            &&& valid_utf8(legacy_parts(k)[0])
            &&& valid_utf8(legacy_parts(k)[1])
            &&& decode_utf8(legacy_parts(k)[0]) + seq![':'] + decode_utf8(legacy_parts(k)[1]) == s
        }),
{
    let b = encode_utf8(s);
    let a = b.subrange(0, i);
    let c = b.subrange(i + 1, b.len() as int);
    encode_utf8_valid_utf8(s);
    lemma_split_at_ascii(b, i);
    lemma_legacy_pair_roundtrip(a, c);
    let colon = seq![':'];
    let w = decode_utf8(a) + colon + decode_utf8(c);
    decode_utf8_encode_utf8(a);
    decode_utf8_encode_utf8(c);
    crate::entity_id::lemma_encode_concat(decode_utf8(a) + colon, decode_utf8(c));
    crate::entity_id::lemma_encode_concat(decode_utf8(a), colon);
    assert(is_ascii_chars(colon));
    is_ascii_chars_encode_utf8(colon);
    assert(encode_utf8(colon) =~= seq![58u8]);
    assert(b =~= a + seq![58u8] + c);
    assert(encode_utf8(w) == b);
    encode_utf8_decode_utf8(s);
    encode_utf8_decode_utf8(w);
}

} // verus!
