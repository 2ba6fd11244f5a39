//! The length-doubling generator that the tree walks with, and its AES-256
//! Matyas–Meyer–Oseas instantiation.
use vstd::prelude::*;
use crate::bytes::{xor_blocks, xor_seq};
use aes::cipher::{BlockEncrypt, KeyInit};

verus! {

/// One child of a seed: a seed, a value and a control bit.
pub struct Node {
    pub s: Seq<u8>,
    pub v: Seq<u8>,
    pub t: bool,
}

/// The mathematical value of one child as the generator returns it.
pub open spec fn node_of<const L: usize>(h: ([u8; L], [u8; L], bool)) -> Node {
    Node { s: h.0@, v: h.1@, t: h.2 }
}

/// Pseudorandom generator used by the construction: it expands a `LAMBDA`-byte
/// seed into a left and a right child.
pub trait Prg<const LAMBDA: usize> {
    /// The left and right children of `seed`.
    spec fn expand(&self, seed: Seq<u8>) -> (Node, Node);

    /// Children of a `LAMBDA`-byte seed have `LAMBDA`-byte seeds and values.
    proof fn lemma_expand_len(&self, seed: Seq<u8>)
        requires
            seed.len() == LAMBDA,
        ensures
            self.expand(seed).0.s.len() == LAMBDA,
            self.expand(seed).0.v.len() == LAMBDA,
            self.expand(seed).1.s.len() == LAMBDA,
            self.expand(seed).1.v.len() == LAMBDA,
    ;

    /// Expands `seed`; the result is a function of the seed alone.
    fn gen(&self, seed: &[u8; LAMBDA]) -> (r: [([u8; LAMBDA], [u8; LAMBDA], bool); 2])
        ensures
            node_of(r[0]) == self.expand(seed@).0,
            node_of(r[1]) == self.expand(seed@).1,
    ;
}

/// One AES-256 block encryption of `block` under `key`.
pub uninterp spec fn aes256_encrypt(key: Seq<u8>, block: Seq<u8>) -> Seq<u8>;

/// Relies on `aes::Aes256` (`KeyInit::new`, `BlockEncrypt::encrypt_block`): one
/// block encrypted under a 32-byte key, a function of the key and the block alone.
#[verifier::external_body]
fn aes256_encrypt_block(key: &[u8; 32], block: &[u8; 16]) -> (r: [u8; 16])
    ensures
        r@ == aes256_encrypt(key@, block@),
{
    let cipher = aes::Aes256::new(aes::cipher::generic_array::GenericArray::from_slice(key));
    let mut b = aes::cipher::generic_array::GenericArray::clone_from_slice(block);
    cipher.encrypt_block(&mut b);
    let mut r = [0u8; 16];
    r.copy_from_slice(&b);
    r
}

/// Matyas–Meyer–Oseas compression: `E_key(seed) ^ seed`.
pub open spec fn mmo(key: Seq<u8>, seed: Seq<u8>) -> Seq<u8> {
    Seq::new(seed.len(), |j: int| aes256_encrypt(key, seed)[j] ^ seed[j])
}

/// Generator built from five fixed AES-256 keys: blocks `B_i = E_{K_i}(s) ^ s`,
/// left child `(B_0, B_1, bit 0 of B_4[0])`, right child `(B_2, B_3, bit 1 of B_4[0])`.
pub struct Aes256MmoPrg {
    keys: [[u8; 32]; 5],
}

impl Aes256MmoPrg {
    /// The five keys, in order.
    pub closed spec fn key_seqs(&self) -> Seq<Seq<u8>> {
        Seq::new(5, |i: int| self.keys[i]@)
    }

    /// Builds the generator from its five keys.
    pub fn new(keys: [[u8; 32]; 5]) -> (r: Self)
        ensures
            r.key_seqs() == Seq::new(5, |i: int| keys[i]@),
    {
        Aes256MmoPrg { keys }
    }

    /// Block `i` of the compression of `seed`.
    fn block(&self, i: usize, seed: &[u8; 16]) -> (r: [u8; 16])
        requires
            i < 5,
        ensures
            r@ == mmo(self.key_seqs()[i as int], seed@),
    {
        let e = aes256_encrypt_block(&self.keys[i], seed);
        let r = xor_blocks(&e, seed);
        assert(r@ =~= mmo(self.key_seqs()[i as int], seed@));
        r
    }
}

/// Control bit `k` (least significant first) of byte 0 of `b`.
pub open spec fn low_bit(b: Seq<u8>, k: u8) -> bool {
    (b[0] >> k) & 1u8 == 1u8
}

impl Prg<16> for Aes256MmoPrg {
    open spec fn expand(&self, seed: Seq<u8>) -> (Node, Node) {
        let k = self.key_seqs();
        let b4 = mmo(k[4], seed);
        (
            Node { s: mmo(k[0], seed), v: mmo(k[1], seed), t: low_bit(b4, 0) },
            Node { s: mmo(k[2], seed), v: mmo(k[3], seed), t: low_bit(b4, 1) },
        )
    }

    proof fn lemma_expand_len(&self, seed: Seq<u8>) {
    }

    fn gen(&self, seed: &[u8; 16]) -> (r: [([u8; 16], [u8; 16], bool); 2]) {
        let b0 = self.block(0, seed);
        let b1 = self.block(1, seed);
        let b2 = self.block(2, seed);
        let b3 = self.block(3, seed);
        let b4 = self.block(4, seed);
        let x: u8 = b4[0];
        assert((x >> 0u8) & 1u8 == x & 1u8) by (bit_vector);
        let tl = x & 1u8 == 1u8;
        let tr = (b4[0] >> 1u8) & 1u8 == 1u8;
        [(b0, b1, tl), (b2, b3, tr)]
    }
}

} // verus!
