//! The Adler-32 checksum.
use vstd::prelude::*;

verus! {

/// The modulus of both halves of the checksum.
pub const ADLER_MOD: u32 = 65521;

/// The checksum of no bytes.
pub const ADLER_INIT: u32 = 1;

/// Both halves are reduced, as they are in every checksum.
pub open spec fn valid_sum(sum: u32) -> bool {
    &&& sum % 0x1_0000 < ADLER_MOD
    &&& sum / 0x1_0000 < ADLER_MOD
}

/// The checksum after one more byte: the low half is one more than the sum of all bytes, the high
/// half is the sum of the low halves after each byte.
pub open spec fn adler_step(sum: u32, byte: u8) -> u32 {
    let a = (sum % 0x1_0000 + byte) % (ADLER_MOD as int);
    let b = (sum / 0x1_0000 + a) % (ADLER_MOD as int);
    (b * 0x1_0000 + a) as u32
}

/// The checksum of a byte string, continued from the checksum `sum` of what came before it.
pub open spec fn adler_update(sum: u32, data: Seq<u8>) -> u32
    decreases data.len(),
{
    if data.len() == 0 {
        sum
    } else {
        adler_step(adler_update(sum, data.drop_last()), data.last())
    }
}

/// The Adler-32 checksum of a byte string.
pub open spec fn adler32(data: Seq<u8>) -> u32 {
    adler_update(ADLER_INIT, data)
}

/// Continuing in two parts is continuing with both.
pub proof fn lemma_adler_concat(sum: u32, a: Seq<u8>, b: Seq<u8>)
    ensures
        adler_update(sum, a + b) == adler_update(adler_update(sum, a), b),
    decreases b.len(),
{
    if b.len() == 0 {
        assert(a + b =~= a);
    } else {
        lemma_adler_concat(sum, a, b.drop_last());
        assert((a + b).drop_last() =~= a + b.drop_last());
    }
}

/// A continued checksum is a checksum.
pub proof fn lemma_adler_valid(sum: u32, data: Seq<u8>)
    requires
        valid_sum(sum),
    ensures
        valid_sum(adler_update(sum, data)),
    decreases data.len(),
{
    if data.len() > 0 {
        lemma_adler_valid(sum, data.drop_last());
    }
}

/// Continues a checksum with `simd_adler32::Adler32`: the hasher starts from the checksum so far
/// (`from_checksum`), is fed the bytes (`write`) and is asked for its value (`finish`).
///
/// Trusted: that the crate computes Adler-32, as [`adler_update`] defines it, from any checksum
/// with reduced halves.
#[verifier::external_body]
pub(crate) fn update_checksum(sum: u32, data: &[u8]) -> (res: u32)
    requires
        valid_sum(sum),
    ensures
        res == adler_update(sum, data@),
{
    let mut hasher = simd_adler32::Adler32::from_checksum(sum);
    hasher.write(data);
    hasher.finish()
}

} // verus!
