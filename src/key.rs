use vstd::prelude::*;

verus! {

/// The order key of a 64-bit floating-point number, given by its bits: the
/// magnitude bits for a number with the sign bit clear, and minus the
/// magnitude bits, less one, for a number with the sign bit set. Keys compare
/// as the numbers do, with minus zero just below zero.
pub open spec fn key_of_bits(bits: u64) -> int {
    if bits >= 0x8000_0000_0000_0000 {
        -((bits - 0x8000_0000_0000_0000) as int) - 1
    } else {
        bits as int
    }
}

/// The order key of the number with the given bits.
pub fn order_key(bits: u64) -> (k: i64)
    ensures
        k == key_of_bits(bits),
{
    if bits >= 0x8000_0000_0000_0000 {
        let m = bits - 0x8000_0000_0000_0000;
        -(m as i64) - 1
    } else {
        bits as i64
    }
}

/// The bits of the number whose order key is `k`.
pub fn key_bits(k: i64) -> (bits: u64)
    ensures
        key_of_bits(bits) == k,
{
    if k < 0 {
        let m = (-(k + 1)) as u64;
        m + 0x8000_0000_0000_0000
    } else {
        k as u64
    }
}

/// Each set of bits has its own key, so that a number comes back from its
/// key unchanged.
pub proof fn lemma_key_one_to_one(a: u64, b: u64)
    ensures
        key_of_bits(a) == key_of_bits(b) ==> a == b,
{
}

} // verus!
