//! Adler-32, the checksum that guards the header and the blocks of an MDX
//! archive.

use vstd::prelude::*;

verus! {

/// The modulus of both running sums: the largest prime below 65536.
pub const ADLER_MOD: u32 = 65521;

/// The low sum: one plus the sum of all bytes, modulo 65521.
pub open spec fn adler_a(data: Seq<u8>) -> nat
    decreases data.len(),
{
    if data.len() == 0 {
        1
    } else {
        (adler_a(data.drop_last()) + data.last() as nat) % 65521
    }
}

/// The high sum: the sum of the low sums after each byte, modulo 65521.
pub open spec fn adler_b(data: Seq<u8>) -> nat
    decreases data.len(),
{
    if data.len() == 0 {
        0
    } else {
        (adler_b(data.drop_last()) + adler_a(data)) % 65521
    }
}

/// The Adler-32 checksum of `data`: the high sum in the upper sixteen bits,
/// the low sum in the lower.
pub open spec fn adler32_spec(data: Seq<u8>) -> nat {
    adler_b(data) * 65536 + adler_a(data)
}

/// Computes the Adler-32 checksum of `data`.
pub fn adler32(data: &[u8]) -> (sum: u32)
    ensures
        sum as nat == adler32_spec(data@),
{
    let mut a: u32 = 1;
    let mut b: u32 = 0;
    let mut i: usize = 0;
    proof {
        assert(data@.take(0) =~= Seq::<u8>::empty());
    }
    while i < data.len()
        invariant
            i <= data@.len(),
            a as nat == adler_a(data@.take(i as int)),
            b as nat == adler_b(data@.take(i as int)),
            a < 65521,
            b < 65521,
        decreases data@.len() - i,
    {
        proof {
            assert(data@.take(i + 1).drop_last() =~= data@.take(i as int));
            assert(data@.take(i + 1).last() == data@[i as int]);
        }
        a = (a + data[i] as u32) % ADLER_MOD;
        b = (b + a) % ADLER_MOD;
        i = i + 1;
    }
    proof {
        assert(data@.take(i as int) =~= data@);
    }
    assert((b << 16) | a == b * 65536 + a) by (bit_vector)
        requires
            a < 65521,
            b < 65521,
    ;
    (b << 16) | a
}

} // verus!
