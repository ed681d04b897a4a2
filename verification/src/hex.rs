//! Lowercase hexadecimal text of bytes.
use vstd::prelude::*;
use crate::auth::ascii_text;
use crate::text::hex_char;

verus! {

/// Lowercase hex digit of the nibble `j % 2` (high first) of byte `j / 2`.
pub open spec fn hex_nibble(s: Seq<u8>, j: int) -> nat {
    if j % 2 == 0 {
        (s[j / 2] / 16) as nat
    } else {
        (s[j / 2] % 16) as nat
    }
}

/// Lowercase hexadecimal encoding, two digits per byte.
pub open spec fn hex_encoding(s: Seq<u8>) -> Seq<char> {
    Seq::new(2 * s.len(), |j: int| hex_char(hex_nibble(s, j)))
}

fn hex_digit(d: u8) -> (c: u8)
    requires
        d < 16,
    ensures
        c as char == hex_char(d as nat),
        c < 128,
{
    if d < 10 {
        48 + d
    } else {
        87 + d
    }
}

/// Lowercase hex encoding, two digits per byte.
pub fn encode(data: &[u8]) -> (s: String)
    requires
        data@.len() <= usize::MAX / 2,
    ensures
        s@ == hex_encoding(data@),
{
    let mut out: Vec<u8> = Vec::new();
    let mut i: usize = 0;
    while i < data.len()
        invariant
            i <= data@.len(),
            data@.len() <= usize::MAX / 2,
            out@.len() == 2 * i,
            forall|j: int| 0 <= j < out@.len() ==> out@[j] as char == hex_char(hex_nibble(data@, j)) && out@[j] < 128,
        decreases data@.len() - i,
    {
        let b = data[i];
        proof {
            assert((2 * i) / 2 == i && (2 * i) % 2 == 0);
            assert((2 * i + 1) / 2 == i && (2 * i + 1) % 2 == 1);
        }
        out.push(hex_digit(b / 16));
        out.push(hex_digit(b % 16));
        i = i + 1;
    }
    let s = ascii_text(out.as_slice());
    assert(s@ =~= hex_encoding(data@));
    s
}

} // verus!
