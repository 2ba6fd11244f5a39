//! Byte layout of correction words and shares. Counts are eight-byte
//! little-endian integers; every `LAMBDA`-byte field is written at its fixed
//! width, with no length prefix; control bits are one byte, `0` or `1`.
use vstd::prelude::*;
use crate::construction::{Cw, CwView, Share, ShareView};

verus! {

/// One control bit as a byte.
pub open spec fn bool_byte(t: bool) -> u8 {
    if t {
        1u8
    } else {
        0u8
    }
}

/// `n` as eight little-endian bytes.
pub open spec fn le64(n: u64) -> Seq<u8> {
    seq![
        (n & 0xff) as u8,
        ((n >> 8u64) & 0xff) as u8,
        ((n >> 16u64) & 0xff) as u8,
        ((n >> 24u64) & 0xff) as u8,
        ((n >> 32u64) & 0xff) as u8,
        ((n >> 40u64) & 0xff) as u8,
        ((n >> 48u64) & 0xff) as u8,
        ((n >> 56u64) & 0xff) as u8,
    ]
}

/// The pieces of `s` one after another.
pub open spec fn flat(s: Seq<Seq<u8>>) -> Seq<u8>
    decreases s.len(),
{
    if s.len() == 0 {
        Seq::empty()
    } else {
        s[0] + flat(s.skip(1))
    }
}

/// A correction word: `s`, `v`, `tl`, `tr`.
pub open spec fn cw_bytes(c: CwView) -> Seq<u8> {
    c.s + c.v + seq![bool_byte(c.tl), bool_byte(c.tr)]
}

/// What follows the initial seeds in a share: the count of correction words,
/// the words, and the final correction word.
pub open spec fn share_tail(k: ShareView) -> Seq<u8> {
    le64(k.cws.len() as u64) + flat(k.cws.map_values(|c: CwView| cw_bytes(c))) + k.cw_np1
}

/// A share: the count of initial seeds, the seeds, then the tail.
pub open spec fn share_bytes(k: ShareView) -> Seq<u8> {
    le64(k.s0s.len() as u64) + flat(k.s0s) + share_tail(k)
}

/// A correction word whose fields have width `lambda`.
pub open spec fn cw_fits(c: CwView, lambda: nat) -> bool {
    c.s.len() == lambda && c.v.len() == lambda
}

/// A share whose fields have width `lambda` and whose counts fit in eight bytes.
pub open spec fn share_fits(k: ShareView, lambda: nat) -> bool {
    &&& k.s0s.len() <= u64::MAX
    &&& k.cws.len() <= u64::MAX
    &&& forall|j: int| 0 <= j < k.s0s.len() ==> (#[trigger] k.s0s[j]).len() == lambda
    &&& forall|j: int| 0 <= j < k.cws.len() ==> cw_fits(#[trigger] k.cws[j], lambda)
    &&& k.cw_np1.len() == lambda
}

proof fn lemma_flat_push(x: Seq<Seq<u8>>, y: Seq<u8>)
    ensures
        flat(x.push(y)) == flat(x) + y,
    decreases x.len(),
{
    if x.len() == 0 {
        assert(x.push(y).skip(1) =~= Seq::<Seq<u8>>::empty());
        assert(x.push(y)[0] == y);
        assert(flat(x.push(y).skip(1)) == Seq::<u8>::empty());
        assert(flat(x.push(y)) == y + Seq::<u8>::empty());
        assert(flat(x.push(y)) =~= flat(x) + y);
    } else {
        lemma_flat_push(x.skip(1), y);
        assert(x.push(y).skip(1) =~= x.skip(1).push(y));
        assert(x.push(y)[0] == x[0]);
        assert(flat(x.push(y)) == x[0] + flat(x.skip(1).push(y)));
        assert(flat(x) == x[0] + flat(x.skip(1)));
        assert(flat(x.push(y)) =~= flat(x) + y);
    }
}

proof fn lemma_le64_injective(n: u64, m: u64)
    requires
        le64(n) == le64(m),
    ensures
        n == m,
{
    assert(le64(n)[0] == le64(m)[0]);
    assert(le64(n)[1] == le64(m)[1]);
    assert(le64(n)[2] == le64(m)[2]);
    assert(le64(n)[3] == le64(m)[3]);
    assert(le64(n)[4] == le64(m)[4]);
    assert(le64(n)[5] == le64(m)[5]);
    assert(le64(n)[6] == le64(m)[6]);
    assert(le64(n)[7] == le64(m)[7]);
    assert(((n & 0xff) as u8 == (m & 0xff) as u8 && ((n >> 8u64) & 0xff) as u8 == ((m >> 8u64)
        & 0xff) as u8 && ((n >> 16u64) & 0xff) as u8 == ((m >> 16u64) & 0xff) as u8 && ((n >> 24u64)
        & 0xff) as u8 == ((m >> 24u64) & 0xff) as u8 && ((n >> 32u64) & 0xff) as u8 == ((m
        >> 32u64) & 0xff) as u8 && ((n >> 40u64) & 0xff) as u8 == ((m >> 40u64) & 0xff) as u8 && ((n
        >> 48u64) & 0xff) as u8 == ((m >> 48u64) & 0xff) as u8 && ((n >> 56u64) & 0xff) as u8 == ((m
        >> 56u64) & 0xff) as u8) ==> n == m) by (bit_vector);
}

/// Appends `n` as eight little-endian bytes.
fn write_u64(out: &mut Vec<u8>, n: u64)
    ensures
        final(out)@ == old(out)@ + le64(n),
{
    out.push((n & 0xff) as u8);
    out.push(((n >> 8u64) & 0xff) as u8);
    out.push(((n >> 16u64) & 0xff) as u8);
    out.push(((n >> 24u64) & 0xff) as u8);
    out.push(((n >> 32u64) & 0xff) as u8);
    out.push(((n >> 40u64) & 0xff) as u8);
    out.push(((n >> 48u64) & 0xff) as u8);
    out.push(((n >> 56u64) & 0xff) as u8);
    assert(final(out)@ =~= old(out)@ + le64(n));
}

/// Reads eight little-endian bytes at `pos`.
fn read_u64(b: &[u8], pos: usize) -> (r: u64)
    requires
        pos + 8 <= b@.len(),
    ensures
        le64(r) == b@.subrange(pos as int, pos + 8),
{
    let b0 = b[pos];
    let b1 = b[pos + 1];
    let b2 = b[pos + 2];
    let b3 = b[pos + 3];
    let b4 = b[pos + 4];
    let b5 = b[pos + 5];
    let b6 = b[pos + 6];
    let b7 = b[pos + 7];
    let r: u64 = (b0 as u64) | ((b1 as u64) << 8u64) | ((b2 as u64) << 16u64) | ((b3 as u64) << 24u64)
        | ((b4 as u64) << 32u64) | ((b5 as u64) << 40u64) | ((b6 as u64) << 48u64) | ((b7 as u64)
        << 56u64);
    assert((r & 0xff) as u8 == b0 && ((r >> 8u64) & 0xff) as u8 == b1 && ((r >> 16u64) & 0xff) as u8
        == b2 && ((r >> 24u64) & 0xff) as u8 == b3 && ((r >> 32u64) & 0xff) as u8 == b4 && ((r
        >> 40u64) & 0xff) as u8 == b5 && ((r >> 48u64) & 0xff) as u8 == b6 && ((r >> 56u64) & 0xff) as u8
        == b7) by (bit_vector)
        requires
            r == (b0 as u64) | ((b1 as u64) << 8u64) | ((b2 as u64) << 16u64) | ((b3 as u64) << 24u64)
                | ((b4 as u64) << 32u64) | ((b5 as u64) << 40u64) | ((b6 as u64) << 48u64) | ((b7
                as u64) << 56u64),
    ;
    assert(le64(r) =~= b@.subrange(pos as int, pos + 8));
    r
}

/// Appends the bytes of a block.
fn write_block<const L: usize>(out: &mut Vec<u8>, a: &[u8; L])
    ensures
        final(out)@ == old(out)@ + a@,
{
    let mut j: usize = 0;
    while j < L
        invariant
            j <= L,
            a@.len() == L,
            out@ == old(out)@ + a@.subrange(0, j as int),
        decreases L - j,
    {
        out.push(a[j]);
        j = j + 1;
        assert(out@ =~= old(out)@ + a@.subrange(0, j as int));
    }
    assert(a@.subrange(0, L as int) =~= a@);
}

/// Reads a block at `pos`.
fn read_block<const L: usize>(b: &[u8], pos: usize) -> (r: [u8; L])
    requires
        pos + L <= b@.len(),
    ensures
        r@ == b@.subrange(pos as int, pos + L),
{
    let blen = b.len();
    let mut r: [u8; L] = [0u8; L];
    let mut j: usize = 0;
    while j < L
        invariant
            j <= L,
            blen == b@.len(),
            pos + L <= b@.len(),
            r@.len() == L,
            forall|q: int| 0 <= q < j ==> r@[q] == b@[pos + q],
        decreases L - j,
    {
        r[j] = b[pos + j];
        j = j + 1;
    }
    assert(r@ =~= b@.subrange(pos as int, pos + L));
    r
}

/// Reads a control bit at `pos`: `None` unless the byte is `0` or `1`.
fn read_bool(b: &[u8], pos: usize) -> (r: Option<bool>)
    requires
        pos < b@.len(),
    ensures
        match r {
            Some(t) => bool_byte(t) == b@[pos as int],
            None => b@[pos as int] != 0 && b@[pos as int] != 1,
        },
{
    if b[pos] == 0 {
        Some(false)
    } else if b[pos] == 1 {
        Some(true)
    } else {
        None
    }
}

/// Appends the bytes of a correction word.
fn write_cw<const L: usize>(out: &mut Vec<u8>, c: &Cw<L>)
    ensures
        final(out)@ == old(out)@ + cw_bytes(c@),
{
    write_block(out, &c.s);
    write_block(out, &c.v);
    out.push(if c.tl { 1u8 } else { 0u8 });
    out.push(if c.tr { 1u8 } else { 0u8 });
    assert(final(out)@ =~= old(out)@ + cw_bytes(c@));
}

/// Reads a correction word at `pos`: `None` where a control-bit byte is
/// neither `0` nor `1`.
fn read_cw<const L: usize>(b: &[u8], pos: usize) -> (r: Option<Cw<L>>)
    requires
        pos + 2 * L + 2 <= b@.len(),
    ensures
        match r {
            Some(c) => cw_bytes(c@) == b@.subrange(pos as int, pos + 2 * L + 2),
            None => forall|c: CwView| cw_fits(c, L as nat) ==> cw_bytes(c) != b@.subrange(
                pos as int,
                pos + 2 * L + 2,
            ),
        },
{
    let blen = b.len();
    assert(blen == b@.len());
    let s: [u8; L] = read_block(b, pos);
    let v: [u8; L] = read_block(b, pos + L);
    let tl = read_bool(b, pos + 2 * L);
    let tr = read_bool(b, pos + 2 * L + 1);
    let ghost w = b@.subrange(pos as int, pos + 2 * L + 2);
    proof {
        assert forall|c: CwView| cw_fits(c, L as nat) && cw_bytes(c) == w implies c.s == s@ && c.v
            == v@ && bool_byte(c.tl) == b@[pos + 2 * L] && bool_byte(c.tr) == b@[pos + 2 * L + 1] by {
            assert(c.s =~= w.subrange(0, L as int));
            assert(c.v =~= w.subrange(L as int, 2 * L));
            assert(cw_bytes(c)[2 * L] == bool_byte(c.tl));
            assert(cw_bytes(c)[2 * L + 1] == bool_byte(c.tr));
        }
    }
    match (tl, tr) {
        (Some(tl), Some(tr)) => {
            let c = Cw { s, v, tl, tr };
            assert(cw_bytes(c@) =~= w);
            Some(c)
        },
        _ => None,
    }
}

impl<const LAMBDA: usize> Cw<LAMBDA> {
    /// The word's bytes: `s`, `v`, then `tl` and `tr` as one byte each.
    pub fn serialize(&self) -> (r: Vec<u8>)
        ensures
            r@ == cw_bytes(self@),
    {
        let mut out: Vec<u8> = Vec::new();
        write_cw(&mut out, self);
        assert(out@ =~= cw_bytes(self@));
        out
    }

    /// The word that `b` holds: `None` exactly where no word has these bytes
    /// (a wrong length, or a control-bit byte other than `0` or `1`).
    #[verifier::rlimit(100)]
    #[verifier::spinoff_prover]
    pub fn deserialize(b: &[u8]) -> (r: Option<Cw<LAMBDA>>)
        requires
            2 * LAMBDA + 2 <= usize::MAX,
        ensures
            match r {
                Some(c) => cw_bytes(c@) == b@,
                None => forall|c: CwView| cw_fits(c, LAMBDA as nat) ==> cw_bytes(c) != b@,
            },
    {
        if b.len() != 2 * LAMBDA + 2 {
            return None;
        }
        let r = read_cw(b, 0);
        assert(b@.subrange(0, 2 * LAMBDA + 2) =~= b@);
        r
    }
}

/// `kv` is a share with fields of width `lambda` whose bytes are `b`.
pub open spec fn share_encoded_by(kv: ShareView, b: Seq<u8>, lambda: nat) -> bool {
    share_fits(kv, lambda) && share_bytes(kv) == b
}

proof fn lemma_flat_front(s: Seq<Seq<u8>>, j: int, tail: Seq<u8>)
    requires
        0 <= j < s.len(),
    ensures
        flat(s.skip(j)) + tail == s[j] + (flat(s.skip(j + 1)) + tail),
{
    assert(s.skip(j).skip(1) =~= s.skip(j + 1));
    assert(s.skip(j)[0] == s[j]);
    assert(flat(s.skip(j)) == s[j] + flat(s.skip(j + 1)));
    assert(flat(s.skip(j)) + tail =~= s[j] + (flat(s.skip(j + 1)) + tail));
}

proof fn lemma_split(b: Seq<u8>, pos: int, a: Seq<u8>, rest: Seq<u8>)
    requires
        0 <= pos <= b.len(),
        b.subrange(pos, b.len() as int) == a + rest,
    ensures
        b.len() - pos == a.len() + rest.len(),
        b.subrange(pos, pos + a.len()) == a,
        b.subrange(pos + a.len(), b.len() as int) == rest,
{
    let r = b.subrange(pos, b.len() as int);
    assert(r.len() == a.len() + rest.len());
    assert(b.subrange(pos, pos + a.len()) =~= r.subrange(0, a.len() as int));
    assert(r.subrange(0, a.len() as int) =~= a);
    assert(b.subrange(pos + a.len(), b.len() as int) =~= r.subrange(a.len() as int, r.len() as int));
    assert(r.subrange(a.len() as int, r.len() as int) =~= rest);
}

proof fn lemma_join(b: Seq<u8>, pos: int, end: int)
    requires
        0 <= pos <= end <= b.len(),
    ensures
        b.subrange(0, end) == b.subrange(0, pos) + b.subrange(pos, end),
{
    assert(b.subrange(0, end) =~= b.subrange(0, pos) + b.subrange(pos, end));
}

proof fn lemma_cw_bytes_injective(c1: CwView, c2: CwView, lambda: nat)
    requires
        cw_fits(c1, lambda),
        cw_fits(c2, lambda),
        cw_bytes(c1) == cw_bytes(c2),
    ensures
        c1 == c2,
{
    let w = cw_bytes(c1);
    let l = lambda as int;
    assert(c1.s =~= w.subrange(0, l));
    assert(c2.s =~= w.subrange(0, l));
    assert(c1.v =~= w.subrange(l, 2 * l));
    assert(c2.v =~= w.subrange(l, 2 * l));
    assert(cw_bytes(c1)[2 * l] == bool_byte(c1.tl));
    assert(cw_bytes(c2)[2 * l] == bool_byte(c2.tl));
    assert(cw_bytes(c1)[2 * l + 1] == bool_byte(c1.tr));
    assert(cw_bytes(c2)[2 * l + 1] == bool_byte(c2.tr));
}

impl<const LAMBDA: usize> Share<LAMBDA> {
    /// The share's bytes: the count of initial seeds and the seeds, the count
    /// of correction words and the words, then the final correction word.
    pub fn serialize(&self) -> (r: Vec<u8>)
        ensures
            r@ == share_bytes(self@),
    {
        let mut out: Vec<u8> = Vec::new();
        write_u64(&mut out, self.s0s.len() as u64);
        let ghost head = le64(self.s0s.len() as u64);
        assert(out@ =~= head + flat(self@.s0s.take(0)));
        let mut j: usize = 0;
        while j < self.s0s.len()
            invariant
                j <= self.s0s@.len(),
                head == le64(self.s0s@.len() as u64),
                out@ == head + flat(self@.s0s.take(j as int)),
            decreases self.s0s@.len() - j,
        {
            write_block(&mut out, &self.s0s[j]);
            proof {
                lemma_flat_push(self@.s0s.take(j as int), self@.s0s[j as int]);
                assert(self@.s0s.take(j + 1) =~= self@.s0s.take(j as int).push(self@.s0s[j as int]));
            }
            j = j + 1;
        }
        assert(self@.s0s.take(j as int) =~= self@.s0s);
        write_u64(&mut out, self.cws.len() as u64);
        let ghost cwb = self@.cws.map_values(|c: CwView| cw_bytes(c));
        let ghost mid = head + flat(self@.s0s) + le64(self.cws@.len() as u64);
        assert(out@ =~= mid + flat(cwb.take(0)));
        let mut i: usize = 0;
        while i < self.cws.len()
            invariant
                i <= self.cws@.len(),
                cwb == self@.cws.map_values(|c: CwView| cw_bytes(c)),
                out@ == mid + flat(cwb.take(i as int)),
            decreases self.cws@.len() - i,
        {
            write_cw(&mut out, &self.cws[i]);
            proof {
                lemma_flat_push(cwb.take(i as int), cwb[i as int]);
                assert(cwb.take(i + 1) =~= cwb.take(i as int).push(cwb[i as int]));
            }
            i = i + 1;
        }
        assert(cwb.take(i as int) =~= cwb);
        write_block(&mut out, &self.cw_np1);
        assert(out@ =~= share_bytes(self@));
        out
    }

    /// The share that `b` holds. Where some share with `LAMBDA`-byte fields has
    /// these bytes, that share comes back, so that `deserialize` undoes
    /// `serialize`; where none has, `None`.
    #[verifier::rlimit(100)]
    #[verifier::spinoff_prover]
    pub fn deserialize(b: &[u8]) -> (r: Option<Share<LAMBDA>>)
        requires
            2 * LAMBDA + 2 <= usize::MAX,
        ensures
            match r {
                Some(k) => share_encoded_by(k@, b@, LAMBDA as nat),
                None => forall|kv: ShareView| !#[trigger] share_encoded_by(kv, b@, LAMBDA as nat),
            },
            forall|kv: ShareView| #[trigger] share_encoded_by(kv, b@, LAMBDA as nat) ==> (r matches Some(k) && k@ == kv),
    {
        let blen = b.len();
        let w: usize = 2 * LAMBDA + 2;
        if blen < 8 {
            assert forall|kv: ShareView| !#[trigger] share_encoded_by(kv, b@, LAMBDA as nat) by {
                assert(share_bytes(kv).len() >= 8);
            }
            return None;
        }
        let c0 = read_u64(b, 0);
        proof {
            assert forall|kv: ShareView| #[trigger] share_encoded_by(kv, b@, LAMBDA as nat) implies kv.s0s.len()
                == c0 && b@.subrange(8, blen as int) == flat(kv.s0s.skip(0)) + share_tail(kv) by {
                assert(b@.subrange(0, blen as int) =~= b@);
                assert(kv.s0s.skip(0) =~= kv.s0s);
                assert(share_bytes(kv) =~= le64(kv.s0s.len() as u64) + (flat(kv.s0s) + share_tail(kv)));
                lemma_split(b@, 0, le64(kv.s0s.len() as u64), flat(kv.s0s) + share_tail(kv));
                lemma_le64_injective(c0, kv.s0s.len() as u64);
            }
            assert(b@.subrange(0, 8) =~= le64(c0) + flat(Seq::<[u8; LAMBDA]>::empty().map_values(
                |a: [u8; LAMBDA]| a@,
            )));
        }
        let mut pos: usize = 8;
        let mut seeds: Vec<[u8; LAMBDA]> = Vec::new();
        let mut j: u64 = 0;
        while j < c0
            invariant
                blen == b@.len(),
                8 <= pos <= blen,
                j <= c0,
                seeds@.len() == j,
                b@.subrange(0, pos as int) == le64(c0) + flat(seeds@.map_values(|a: [u8; LAMBDA]| a@)),
                forall|kv: ShareView| #[trigger] share_encoded_by(kv, b@, LAMBDA as nat) ==> {
                    &&& kv.s0s.len() == c0
                    &&& seeds@.map_values(|a: [u8; LAMBDA]| a@) == kv.s0s.take(j as int)
                    &&& b@.subrange(pos as int, blen as int) == flat(kv.s0s.skip(j as int)) + share_tail(kv)
                },
            decreases c0 - j,
        {
            proof {
                assert forall|kv: ShareView| #[trigger] share_encoded_by(kv, b@, LAMBDA as nat) implies {
                    &&& blen - pos >= LAMBDA
                    &&& b@.subrange(pos as int, pos + LAMBDA) == kv.s0s[j as int]
                    &&& b@.subrange(pos + LAMBDA, blen as int) == flat(kv.s0s.skip(j + 1)) + share_tail(kv)
                } by {
                    lemma_flat_front(kv.s0s, j as int, share_tail(kv));
                    lemma_split(b@, pos as int, kv.s0s[j as int], flat(kv.s0s.skip(j + 1)) + share_tail(kv));
                }
            }
            if blen - pos < LAMBDA {
                return None;
            }
            let seed: [u8; LAMBDA] = read_block(b, pos);
            let ghost before = seeds@;
            seeds.push(seed);
            proof {
                lemma_join(b@, pos as int, pos + LAMBDA);
                lemma_flat_push(before.map_values(|a: [u8; LAMBDA]| a@), seed@);
                assert(seeds@.map_values(|a: [u8; LAMBDA]| a@) =~= before.map_values(|a: [u8; LAMBDA]| a@).push(seed@));
                assert forall|kv: ShareView| #[trigger] share_encoded_by(kv, b@, LAMBDA as nat) implies seeds@.map_values(
                    |a: [u8; LAMBDA]| a@,
                ) == kv.s0s.take(j + 1) by {
                    assert(kv.s0s.take(j + 1) =~= kv.s0s.take(j as int).push(kv.s0s[j as int]));
                }
            }
            pos = pos + LAMBDA;
            j = j + 1;
        }
        let ghost seeds_view = seeds@.map_values(|a: [u8; LAMBDA]| a@);
        proof {
            assert forall|kv: ShareView| #[trigger] share_encoded_by(kv, b@, LAMBDA as nat) implies {
                &&& blen - pos >= 8
                &&& b@.subrange(pos as int, pos + 8) == le64(kv.cws.len() as u64)
                &&& b@.subrange(pos + 8, blen as int) == flat(kv.cws.map_values(|c: CwView| cw_bytes(c)).skip(0))
                    + kv.cw_np1
                &&& seeds_view == kv.s0s
            } by {
                assert(kv.s0s.skip(j as int) =~= Seq::<Seq<u8>>::empty());
                assert(kv.s0s.take(j as int) =~= kv.s0s);
                let cwb = kv.cws.map_values(|c: CwView| cw_bytes(c));
                assert(cwb.skip(0) =~= cwb);
                assert(flat(kv.s0s.skip(j as int)) + share_tail(kv) =~= le64(kv.cws.len() as u64) + (flat(cwb) + kv.cw_np1));
                lemma_split(b@, pos as int, le64(kv.cws.len() as u64), flat(cwb) + kv.cw_np1);
            }
        }
        if blen - pos < 8 {
            return None;
        }
        let c1 = read_u64(b, pos);
        let ghost head = b@.subrange(0, pos + 8);
        proof {
            lemma_join(b@, pos as int, pos + 8);
            assert forall|kv: ShareView| #[trigger] share_encoded_by(kv, b@, LAMBDA as nat) implies kv.cws.len() == c1 by {
                lemma_le64_injective(c1, kv.cws.len() as u64);
            }
            assert(head =~= head + flat(Seq::<Cw<LAMBDA>>::empty().map_values(|c: Cw<LAMBDA>| cw_bytes(c@))));
        }
        pos = pos + 8;
        let mut cws: Vec<Cw<LAMBDA>> = Vec::new();
        let mut i: u64 = 0;
        while i < c1
            invariant
                blen == b@.len(),
                w == 2 * LAMBDA + 2,
                8 <= pos <= blen,
                head.len() <= pos,
                i <= c1,
                cws@.len() == i,
                b@.subrange(0, pos as int) == head + flat(cws@.map_values(|c: Cw<LAMBDA>| cw_bytes(c@))),
                forall|kv: ShareView| #[trigger] share_encoded_by(kv, b@, LAMBDA as nat) ==> {
                    &&& kv.cws.len() == c1
                    &&& cws@.map_values(|c: Cw<LAMBDA>| c@) == kv.cws.take(i as int)
                    &&& b@.subrange(pos as int, blen as int) == flat(kv.cws.map_values(|c: CwView| cw_bytes(c)).skip(
                        i as int,
                    )) + kv.cw_np1
                },
            decreases c1 - i,
        {
            proof {
                assert forall|kv: ShareView| #[trigger] share_encoded_by(kv, b@, LAMBDA as nat) implies {
                    &&& blen - pos >= w
                    &&& b@.subrange(pos as int, pos + w) == cw_bytes(kv.cws[i as int])
                    &&& b@.subrange(pos + w, blen as int) == flat(kv.cws.map_values(|c: CwView| cw_bytes(c)).skip(i + 1))
                        + kv.cw_np1
                } by {
                    let cwb = kv.cws.map_values(|c: CwView| cw_bytes(c));
                    lemma_flat_front(cwb, i as int, kv.cw_np1);
                    assert(cw_fits(kv.cws[i as int], LAMBDA as nat));
                    lemma_split(b@, pos as int, cwb[i as int], flat(cwb.skip(i + 1)) + kv.cw_np1);
                }
            }
            if blen - pos < w {
                return None;
            }
            let c = read_cw(b, pos);
            match c {
                None => {
                    proof {
                        assert forall|kv: ShareView| !#[trigger] share_encoded_by(kv, b@, LAMBDA as nat) by {
                            if share_encoded_by(kv, b@, LAMBDA as nat) {
                                assert(cw_fits(kv.cws[i as int], LAMBDA as nat));
                            }
                        }
                    }
                    return None;
                },
                Some(c) => {
                    let ghost before = cws@;
                    cws.push(c);
                    proof {
                        lemma_join(b@, pos as int, pos + w);
                        lemma_flat_push(before.map_values(|c: Cw<LAMBDA>| cw_bytes(c@)), cw_bytes(c@));
                        assert(cws@.map_values(|c: Cw<LAMBDA>| cw_bytes(c@)) =~= before.map_values(
                            |c: Cw<LAMBDA>| cw_bytes(c@),
                        ).push(cw_bytes(c@)));
                        assert forall|kv: ShareView| #[trigger] share_encoded_by(kv, b@, LAMBDA as nat) implies cws@.map_values(
                            |c: Cw<LAMBDA>| c@,
                        ) == kv.cws.take(i + 1) by {
                            assert(cw_fits(kv.cws[i as int], LAMBDA as nat));
                            lemma_cw_bytes_injective(c@, kv.cws[i as int], LAMBDA as nat);
                            assert(cws@.map_values(|c: Cw<LAMBDA>| c@) =~= before.map_values(|c: Cw<LAMBDA>| c@).push(c@));
                            assert(kv.cws.take(i + 1) =~= kv.cws.take(i as int).push(kv.cws[i as int]));
                        }
                    }
                    pos = pos + w;
                    i = i + 1;
                },
            }
        }
        proof {
            assert forall|kv: ShareView| #[trigger] share_encoded_by(kv, b@, LAMBDA as nat) implies {
                &&& b@.subrange(pos as int, blen as int) == kv.cw_np1
                &&& cws@.map_values(|c: Cw<LAMBDA>| c@) == kv.cws
            } by {
                let cwb = kv.cws.map_values(|c: CwView| cw_bytes(c));
                assert(cwb.skip(i as int) =~= Seq::<Seq<u8>>::empty());
                assert(flat(cwb.skip(i as int)) + kv.cw_np1 =~= kv.cw_np1);
                assert(kv.cws.take(i as int) =~= kv.cws);
            }
        }
        if blen - pos != LAMBDA {
            return None;
        }
        let cw_np1: [u8; LAMBDA] = read_block(b, pos);
        let k = Share { s0s: seeds, cws, cw_np1 };
        proof {
            lemma_join(b@, pos as int, blen as int);
            assert(b@.subrange(0, blen as int) =~= b@);
            let cwb = k@.cws.map_values(|c: CwView| cw_bytes(c));
            assert(cwb =~= k.cws@.map_values(|c: Cw<LAMBDA>| cw_bytes(c@)));
            assert(b@ =~= share_bytes(k@));
            assert forall|kv: ShareView| #[trigger] share_encoded_by(kv, b@, LAMBDA as nat) implies k@ == kv by {
                assert(k@.s0s =~= kv.s0s);
                assert(k@.cws =~= kv.cws);
            }
        }
        Some(k)
    }
}

} // verus!
