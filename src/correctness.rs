//! Why the two parties' outputs reconstruct the comparison function.
use vstd::prelude::*;
use crate::bytes::{bit_of, mask, xor_seq, zeros};
use crate::codec::{share_bytes, share_encoded_by, share_fits};
use crate::construction::{
    cmp_fn_value, eval_point, eval_state, gen_cw, gen_share, gen_state, in_beta_region, level_cw,
    pick, prefix_cmp, BoundState, Dcf, DcfImpl,
};
use crate::prg::Prg;

verus! {

/// Off the threshold's path both parties add the same terms: the XOR of their
/// values is unchanged.
proof fn lemma_same_terms(v0: Seq<u8>, v1: Seq<u8>, p: Seq<u8>, m: Seq<u8>)
    requires
        v1.len() == v0.len(),
        p.len() == v0.len(),
        m.len() == v0.len(),
    ensures
        xor_seq(xor_seq(xor_seq(v0, p), m), xor_seq(xor_seq(v1, p), m)) == xor_seq(v0, v1),
{
    let lhs = xor_seq(xor_seq(xor_seq(v0, p), m), xor_seq(xor_seq(v1, p), m));
    assert forall|j: int| 0 <= j < v0.len() implies lhs[j] == xor_seq(v0, v1)[j] by {
        let (a, b, c, d) = (v0[j], v1[j], p[j], m[j]);
        assert(((a ^ c) ^ d) ^ ((b ^ c) ^ d) == a ^ b) by (bit_vector);
    }
    assert(lhs =~= xor_seq(v0, v1));
}

/// On the threshold's path exactly one party applies the value correction `w`.
proof fn lemma_keep_value(v0: Seq<u8>, v1: Seq<u8>, u0: Seq<u8>, u1: Seq<u8>, w: Seq<u8>, t0: bool, t1: bool)
    requires
        t0 != t1,
        v1.len() == v0.len(),
        u0.len() == v0.len(),
        u1.len() == v0.len(),
        w.len() == v0.len(),
    ensures
        xor_seq(xor_seq(xor_seq(v0, u0), mask(t0, w)), xor_seq(xor_seq(v1, u1), mask(t1, w)))
            == xor_seq(xor_seq(xor_seq(xor_seq(v0, v1), u0), u1), w),
{
    let lhs = xor_seq(xor_seq(xor_seq(v0, u0), mask(t0, w)), xor_seq(xor_seq(v1, u1), mask(t1, w)));
    let rhs = xor_seq(xor_seq(xor_seq(xor_seq(v0, v1), u0), u1), w);
    assert forall|j: int| 0 <= j < v0.len() implies lhs[j] == rhs[j] by {
        let (a, b, c, d, e) = (v0[j], v1[j], u0[j], u1[j], w[j]);
        if t0 {
            assert(((a ^ c) ^ e) ^ ((b ^ d) ^ 0u8) == (((a ^ b) ^ c) ^ d) ^ e) by (bit_vector);
        } else {
            assert(((a ^ c) ^ 0u8) ^ ((b ^ d) ^ e) == (((a ^ b) ^ c) ^ d) ^ e) by (bit_vector);
        }
    }
    assert(lhs =~= rhs);
}

/// Where the point leaves the threshold's path, the value correction cancels
/// everything but the `beta` it may carry.
proof fn lemma_leave_value(
    v0: Seq<u8>,
    v1: Seq<u8>,
    q0: Seq<u8>,
    q1: Seq<u8>,
    beta: Seq<u8>,
    t0: bool,
    t1: bool,
    with_beta: bool,
)
    requires
        t0 != t1,
        v1.len() == v0.len(),
        q0.len() == v0.len(),
        q1.len() == v0.len(),
        beta.len() == v0.len(),
    ensures
        ({
            let raw = xor_seq(xor_seq(q0, q1), xor_seq(v0, v1));
            let w = if with_beta {
                xor_seq(raw, beta)
            } else {
                raw
            };
            xor_seq(xor_seq(xor_seq(v0, q0), mask(t0, w)), xor_seq(xor_seq(v1, q1), mask(t1, w)))
                == if with_beta {
                beta
            } else {
                zeros(v0.len())
            }
        }),
{
    let raw = xor_seq(xor_seq(q0, q1), xor_seq(v0, v1));
    let w = if with_beta {
        xor_seq(raw, beta)
    } else {
        raw
    };
    let lhs = xor_seq(xor_seq(xor_seq(v0, q0), mask(t0, w)), xor_seq(xor_seq(v1, q1), mask(t1, w)));
    let rhs = if with_beta {
        beta
    } else {
        zeros(v0.len())
    };
    assert forall|j: int| 0 <= j < v0.len() implies lhs[j] == rhs[j] by {
        let (a, b, c, d, e) = (v0[j], v1[j], q0[j], q1[j], beta[j]);
        if with_beta {
            assert(((a ^ c) ^ (((c ^ d) ^ (a ^ b)) ^ e)) ^ ((b ^ d) ^ 0u8) == e) by (bit_vector);
            assert(((a ^ c) ^ 0u8) ^ ((b ^ d) ^ (((c ^ d) ^ (a ^ b)) ^ e)) == e) by (bit_vector);
        } else {
            assert(((a ^ c) ^ ((c ^ d) ^ (a ^ b))) ^ ((b ^ d) ^ 0u8) == 0u8) by (bit_vector);
            assert(((a ^ c) ^ 0u8) ^ ((b ^ d) ^ ((c ^ d) ^ (a ^ b))) == 0u8) by (bit_vector);
        }
    }
    assert(lhs =~= rhs);
}

/// Where the point leaves the threshold's path, the seed correction makes the
/// two parties' seeds equal.
proof fn lemma_leave_seed(q0: Seq<u8>, q1: Seq<u8>, t0: bool, t1: bool)
    requires
        t0 != t1,
        q1.len() == q0.len(),
    ensures
        xor_seq(q0, mask(t0, xor_seq(q0, q1))) == xor_seq(q1, mask(t1, xor_seq(q0, q1))),
{
    let lhs = xor_seq(q0, mask(t0, xor_seq(q0, q1)));
    let rhs = xor_seq(q1, mask(t1, xor_seq(q0, q1)));
    assert forall|j: int| 0 <= j < q0.len() implies lhs[j] == rhs[j] by {
        let (a, b) = (q0[j], q1[j]);
        assert(a ^ (a ^ b) == b ^ 0u8) by (bit_vector);
        assert(a ^ 0u8 == b ^ (a ^ b)) by (bit_vector);
    }
    assert(lhs =~= rhs);
}

/// At the leaf of the threshold's path the last correction cancels everything.
proof fn lemma_leaf_on_path(v0: Seq<u8>, v1: Seq<u8>, s0: Seq<u8>, s1: Seq<u8>, t0: bool, t1: bool)
    requires
        t0 != t1,
        v1.len() == v0.len(),
        s0.len() == v0.len(),
        s1.len() == v0.len(),
    ensures
        ({
            let w = xor_seq(xor_seq(s0, s1), xor_seq(v0, v1));
            xor_seq(xor_seq(xor_seq(v0, s0), mask(t0, w)), xor_seq(xor_seq(v1, s1), mask(t1, w)))
                == zeros(v0.len())
        }),
{
    let w = xor_seq(xor_seq(s0, s1), xor_seq(v0, v1));
    let lhs = xor_seq(xor_seq(xor_seq(v0, s0), mask(t0, w)), xor_seq(xor_seq(v1, s1), mask(t1, w)));
    assert forall|j: int| 0 <= j < v0.len() implies lhs[j] == zeros(v0.len())[j] by {
        let (a, b, c, d) = (v0[j], v1[j], s0[j], s1[j]);
        assert(((a ^ c) ^ ((c ^ d) ^ (a ^ b))) ^ ((b ^ d) ^ 0u8) == 0u8) by (bit_vector);
        assert(((a ^ c) ^ 0u8) ^ ((b ^ d) ^ ((c ^ d) ^ (a ^ b))) == 0u8) by (bit_vector);
    }
    assert(lhs =~= zeros(v0.len()));
}

/// The dealer's seeds and value accumulator keep their length.
proof fn lemma_gen_len<const L: usize, P: Prg<L>>(
    prg: P,
    alpha: Seq<u8>,
    beta: Seq<u8>,
    s0: Seq<u8>,
    s1: Seq<u8>,
    bound: BoundState,
    i: nat,
)
    requires
        s0.len() == L,
        s1.len() == L,
        beta.len() == L,
    ensures
        gen_state(prg, alpha, beta, s0, s1, bound, i).s0.len() == L,
        gen_state(prg, alpha, beta, s0, s1, bound, i).s1.len() == L,
        gen_state(prg, alpha, beta, s0, s1, bound, i).v_alpha.len() == L,
    decreases i,
{
    if i > 0 {
        let j = (i - 1) as nat;
        lemma_gen_len(prg, alpha, beta, s0, s1, bound, j);
        let g = gen_state(prg, alpha, beta, s0, s1, bound, j);
        prg.lemma_expand_len(g.s0);
        prg.lemma_expand_len(g.s1);
    }
}

/// The two parties' walk towards `x`, level by level: while `x` agrees with the
/// threshold they hold the dealer's seeds and bits, with values that XOR to the
/// dealer's accumulator; once it has left it they hold equal seeds and bits, with
/// values that XOR to the comparison's outcome.
proof fn lemma_walk<const L: usize, P: Prg<L>>(
    prg: P,
    alpha: Seq<u8>,
    beta: Seq<u8>,
    s0: Seq<u8>,
    s1: Seq<u8>,
    bound: BoundState,
    x: Seq<u8>,
    i: nat,
)
    requires
        s0.len() == L,
        s1.len() == L,
        beta.len() == L,
        x.len() == alpha.len(),
        i <= 8 * alpha.len(),
    ensures
        ({
            let k = gen_share(prg, alpha, beta, s0, s1, bound);
            let e0 = eval_state(prg, k.party(false), false, x, i);
            let e1 = eval_state(prg, k.party(true), true, x, i);
            let g = gen_state(prg, alpha, beta, s0, s1, bound, i);
            let c = prefix_cmp(x, alpha, i);
            &&& e0.s.len() == L
            &&& e1.s.len() == L
            &&& e0.v.len() == L
            &&& e1.v.len() == L
            &&& c == 0 ==> {
                &&& e0.s == g.s0
                &&& e1.s == g.s1
                &&& e0.t == g.t0
                &&& e1.t == g.t1
                &&& g.t0 != g.t1
                &&& xor_seq(e0.v, e1.v) == g.v_alpha
            }
            &&& c != 0 ==> {
                &&& e0.s == e1.s
                &&& e0.t == e1.t
                &&& xor_seq(e0.v, e1.v) == if (c < 0 && bound == BoundState::LtBeta) || (c > 0
                    && bound == BoundState::GtBeta) {
                    beta
                } else {
                    zeros(L as nat)
                }
            }
        }),
    decreases i,
{
    let k = gen_share(prg, alpha, beta, s0, s1, bound);
    if i == 0 {
        assert(0u8 ^ 0u8 == 0u8) by (bit_vector);
        assert(xor_seq(zeros(L as nat), zeros(L as nat)) =~= zeros(L as nat));
    } else {
        let j = (i - 1) as nat;
        lemma_walk(prg, alpha, beta, s0, s1, bound, x, j);
        lemma_gen_len(prg, alpha, beta, s0, s1, bound, j);
        let e0 = eval_state(prg, k.party(false), false, x, j);
        let e1 = eval_state(prg, k.party(true), true, x, j);
        let g = gen_state(prg, alpha, beta, s0, s1, bound, j);
        let a = bit_of(alpha, j as int);
        let xi = bit_of(x, j as int);
        let cw = level_cw(prg, a, beta, bound, g);
        assert(k.cws[j as int] == gen_cw(prg, alpha, beta, s0, s1, bound, j));
        assert(k.party(false).cws[j as int] == cw);
        assert(k.party(true).cws[j as int] == cw);
        prg.lemma_expand_len(e0.s);
        prg.lemma_expand_len(e1.s);
        prg.lemma_expand_len(g.s0);
        prg.lemma_expand_len(g.s1);
        let c = prefix_cmp(x, alpha, j);
        let ex0 = prg.expand(e0.s);
        let ex1 = prg.expand(e1.s);
        if c == 0 {
            if xi == a {
                lemma_keep_value(e0.v, e1.v, pick(ex0, a).v, pick(ex1, a).v, cw.v, e0.t, e1.t);
            } else {
                lemma_leave_value(
                    e0.v,
                    e1.v,
                    pick(ex0, xi).v,
                    pick(ex1, xi).v,
                    beta,
                    e0.t,
                    e1.t,
                    match bound {
                        BoundState::LtBeta => a,
                        BoundState::GtBeta => !a,
                    },
                );
                lemma_leave_seed(pick(ex0, xi).s, pick(ex1, xi).s, e0.t, e1.t);
            }
        } else {
            lemma_same_terms(e0.v, e1.v, pick(ex0, xi).v, mask(e0.t, cw.v));
        }
    }
}

/// The reconstruction law of the model: for every threshold `alpha`, value
/// `beta`, pair of initial seeds, bound and point `x` of the domain, party 0's
/// output XOR party 1's output is `beta` where the bound relation holds between
/// `x` and `alpha`, and all zeros elsewhere.
pub proof fn lemma_model_reconstruction<const L: usize, P: Prg<L>>(
    prg: P,
    alpha: Seq<u8>,
    beta: Seq<u8>,
    s0: Seq<u8>,
    s1: Seq<u8>,
    bound: BoundState,
    x: Seq<u8>,
)
    requires
        s0.len() == L,
        s1.len() == L,
        beta.len() == L,
        x.len() == alpha.len(),
    ensures
        ({
            let k = gen_share(prg, alpha, beta, s0, s1, bound);
            xor_seq(eval_point(prg, k.party(false), false, x), eval_point(prg, k.party(true), true, x))
                == cmp_fn_value(bound, alpha, beta, x)
        }),
{
    let n = 8 * alpha.len();
    let k = gen_share(prg, alpha, beta, s0, s1, bound);
    lemma_walk(prg, alpha, beta, s0, s1, bound, x, n);
    lemma_gen_len(prg, alpha, beta, s0, s1, bound, n);
    let e0 = eval_state(prg, k.party(false), false, x, n);
    let e1 = eval_state(prg, k.party(true), true, x, n);
    let g = gen_state(prg, alpha, beta, s0, s1, bound, n);
    if prefix_cmp(x, alpha, n) == 0 {
        lemma_leaf_on_path(e0.v, e1.v, e0.s, e1.s, e0.t, e1.t);
    } else {
        lemma_same_terms(e0.v, e1.v, e0.s, mask(e0.t, k.cw_np1));
    }
}

/// Reconstruction: for every bound, threshold `alpha`, value `beta`, pair of
/// initial seeds and point `x`, where `k` is the dealer's share and each party
/// evaluates its own part of it, party 0's output XOR party 1's output is
/// `beta` where the bound relation between `x` and `alpha` holds, and all zeros
/// elsewhere.
pub proof fn lemma_reconstruction<const N: usize, const L: usize, P: Prg<L>>(
    d: DcfImpl<N, L, P>,
    alpha: [u8; N],
    beta: [u8; L],
    s0: [u8; L],
    s1: [u8; L],
    bound: BoundState,
    x: [u8; N],
)
    ensures
        ({
            let k = d.share_of(alpha@, beta@, s0@, s1@, bound);
            xor_seq(d.output_of(false, k.party(false), x@), d.output_of(true, k.party(true), x@))
                == cmp_fn_value(bound, alpha@, beta@, x@)
        }),
{
    lemma_model_reconstruction(d.prg_model(), alpha@, beta@, s0@, s1@, bound, x@);
}

/// Every threshold agrees with itself on every prefix.
proof fn lemma_prefix_cmp_self(a: Seq<u8>, i: nat)
    ensures
        prefix_cmp(a, a, i) == 0,
    decreases i,
{
    if i > 0 {
        lemma_prefix_cmp_self(a, (i - 1) as nat);
    }
}

/// The threshold itself maps to zero: at `x = alpha` the two parties' outputs
/// XOR to all zeros, under either bound.
pub proof fn lemma_alpha_maps_to_zero<const N: usize, const L: usize, P: Prg<L>>(
    d: DcfImpl<N, L, P>,
    alpha: [u8; N],
    beta: [u8; L],
    s0: [u8; L],
    s1: [u8; L],
    bound: BoundState,
)
    ensures
        ({
            let k = d.share_of(alpha@, beta@, s0@, s1@, bound);
            xor_seq(d.output_of(false, k.party(false), alpha@), d.output_of(true, k.party(true), alpha@))
                == zeros(L as nat)
        }),
{
    lemma_reconstruction(d, alpha, beta, s0, s1, bound, alpha);
    lemma_prefix_cmp_self(alpha@, 8 * alpha@.len());
    assert(!in_beta_region(bound, alpha@, alpha@));
}

/// Determinism: two instances over the same generator produce the same share
/// from the same threshold, value, seeds and bound, and the same output from
/// the same party, share and point.
pub proof fn lemma_deterministic<const N: usize, const L: usize, P: Prg<L>>(
    d1: DcfImpl<N, L, P>,
    d2: DcfImpl<N, L, P>,
    alpha: [u8; N],
    beta: [u8; L],
    s0: [u8; L],
    s1: [u8; L],
    bound: BoundState,
    b: bool,
    x: [u8; N],
)
    requires
        d1.prg_model() == d2.prg_model(),
    ensures
        d1.share_of(alpha@, beta@, s0@, s1@, bound) == d2.share_of(alpha@, beta@, s0@, s1@, bound),
        ({
            let k = d1.share_of(alpha@, beta@, s0@, s1@, bound).party(b);
            d1.output_of(b, k, x@) == d2.output_of(b, k, x@)
        }),
{
}

/// Round trip of generated shares: the dealer's share, and each party's part
/// of it, has `L`-byte fields, and its bytes encode it; so `Share::deserialize`
/// applied to what `Share::serialize` returns gives the share back.
pub proof fn lemma_gen_share_round_trips<const N: usize, const L: usize, P: Prg<L>>(
    d: DcfImpl<N, L, P>,
    alpha: [u8; N],
    beta: [u8; L],
    s0: [u8; L],
    s1: [u8; L],
    bound: BoundState,
    b: bool,
)
    requires
        8 * N <= usize::MAX,
    ensures
        ({
            let k = d.share_of(alpha@, beta@, s0@, s1@, bound);
            &&& share_encoded_by(k, share_bytes(k), L as nat)
            &&& share_encoded_by(k.party(b), share_bytes(k.party(b)), L as nat)
        }),
{
    let prg = d.prg_model();
    let k = d.share_of(alpha@, beta@, s0@, s1@, bound);
    assert forall|j: int| 0 <= j < k.cws.len() implies #[trigger] k.cws[j].s.len() == L && k.cws[j].v.len()
        == L by {
        lemma_gen_len(prg, alpha@, beta@, s0@, s1@, bound, j as nat);
        let g = gen_state(prg, alpha@, beta@, s0@, s1@, bound, j as nat);
        prg.lemma_expand_len(g.s0);
        prg.lemma_expand_len(g.s1);
    }
    lemma_gen_len(prg, alpha@, beta@, s0@, s1@, bound, 8 * N as nat);
    assert(share_fits(k, L as nat));
    assert(share_fits(k.party(b), L as nat));
}

} // verus!
