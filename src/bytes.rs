//! Byte strings as the construction sees them: bit access in most-significant-first
//! order, and bytewise exclusive or.
use vstd::prelude::*;

verus! {

/// The `i`-th bit of `x`, counting from the most significant bit of byte 0.
pub open spec fn bit_of(x: Seq<u8>, i: int) -> bool {
    (x[i / 8] >> ((7 - i % 8) as u8)) & 1u8 == 1u8
}

/// Bytewise exclusive or; the result has the length of `a`.
pub open spec fn xor_seq(a: Seq<u8>, b: Seq<u8>) -> Seq<u8> {
    Seq::new(a.len(), |j: int| a[j] ^ b[j])
}

/// The all-zero string of length `n`.
pub open spec fn zeros(n: nat) -> Seq<u8> {
    Seq::new(n, |j: int| 0u8)
}

/// `a` when `t` holds, else the all-zero string of the same length.
pub open spec fn mask(t: bool, a: Seq<u8>) -> Seq<u8> {
    if t {
        a
    } else {
        zeros(a.len())
    }
}

/// Reads bit `i` of `x` in most-significant-first order.
pub fn get_bit<const N: usize>(x: &[u8; N], i: usize) -> (r: bool)
    requires
        i < 8 * N,
    ensures
        r == bit_of(x@, i as int),
{
    let byte: u8 = x[i / 8];
    let shift: u8 = (7 - i % 8) as u8;
    (byte >> shift) & 1u8 == 1u8
}

/// The all-zero block.
pub fn zero_block<const L: usize>() -> (r: [u8; L])
    ensures
        r@ == zeros(L as nat),
{
    let r: [u8; L] = [0u8; L];
    assert(r@ =~= zeros(L as nat));
    r
}

/// Bytewise exclusive or of two blocks.
pub fn xor_blocks<const L: usize>(a: &[u8; L], b: &[u8; L]) -> (r: [u8; L])
    ensures
        r@ == xor_seq(a@, b@),
{
    let mut r: [u8; L] = [0u8; L];
    let mut j: usize = 0;
    while j < L
        invariant
            j <= L,
            r@.len() == L,
            a@.len() == L,
            b@.len() == L,
            forall|k: int| 0 <= k < j ==> r@[k] == a@[k] ^ b@[k],
        decreases L - j,
    {
        r[j] = a[j] ^ b[j];
        j = j + 1;
    }
    assert(r@ =~= xor_seq(a@, b@));
    r
}

/// `a` when `t` holds, else the all-zero block.
pub fn mask_block<const L: usize>(t: bool, a: &[u8; L]) -> (r: [u8; L])
    ensures
        r@ == mask(t, a@),
{
    if t {
        *a
    } else {
        zero_block()
    }
}

} // verus!
