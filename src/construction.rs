//! The comparison-function key shares, the model of generation and evaluation
//! over the binary tree of seeds, and the executable dealer and evaluator.
use vstd::prelude::*;
use crate::bytes::{bit_of, get_bit, mask, mask_block, xor_blocks, xor_seq, zero_block, zeros};
use crate::prg::{node_of, Node, Prg};

verus! {

/// Comparison function: `N` is the byte size of the domain, `LAMBDA` the byte
/// size of the range.
pub struct CmpFn<const N: usize, const LAMBDA: usize> {
    /// The threshold.
    pub alpha: [u8; N],
    /// The value on the side of the threshold that the bound selects.
    pub beta: [u8; LAMBDA],
}

/// Which side of `alpha` maps to `beta`; `alpha` itself never does.
#[derive(Clone, Copy, PartialEq, Eq, Structural)]
pub enum BoundState {
    /// `f(x) = beta` iff `x < alpha`.
    LtBeta,
    /// `f(x) = beta` iff `x > alpha`.
    GtBeta,
}

/// Correction word of one tree level.
#[derive(Clone, Copy)]
pub struct Cw<const LAMBDA: usize> {
    pub s: [u8; LAMBDA],
    pub v: [u8; LAMBDA],
    pub tl: bool,
    pub tr: bool,
}

/// Mathematical value of a correction word.
pub struct CwView {
    pub s: Seq<u8>,
    pub v: Seq<u8>,
    pub tl: bool,
    pub tr: bool,
}

impl<const LAMBDA: usize> View for Cw<LAMBDA> {
    type V = CwView;

    open spec fn view(&self) -> CwView {
        CwView { s: self.s@, v: self.v@, tl: self.tl, tr: self.tr }
    }
}

/// Key share. `cws` and `cw_np1` are common to both parties; only the initial
/// seeds differ. The dealer's output holds both seeds, a party's share one.
#[derive(Clone)]
pub struct Share<const LAMBDA: usize> {
    pub s0s: Vec<[u8; LAMBDA]>,
    pub cws: Vec<Cw<LAMBDA>>,
    pub cw_np1: [u8; LAMBDA],
}

/// Mathematical value of a key share.
pub struct ShareView {
    pub s0s: Seq<Seq<u8>>,
    pub cws: Seq<CwView>,
    pub cw_np1: Seq<u8>,
}

impl ShareView {
    /// The share handed to party `b`: only its own initial seed is kept.
    pub open spec fn party(self, b: bool) -> ShareView {
        ShareView {
            s0s: seq![if b { self.s0s[1] } else { self.s0s[0] }],
            cws: self.cws,
            cw_np1: self.cw_np1,
        }
    }
}

impl<const LAMBDA: usize> Share<LAMBDA> {
    /// The share handed to party `b`: the dealer's share with only party `b`'s
    /// initial seed kept.
    pub fn for_party(&self, b: bool) -> (r: Share<LAMBDA>)
        requires
            self@.s0s.len() == 2,
        ensures
            r@ == self@.party(b),
    {
        let seed: [u8; LAMBDA] = if b {
            self.s0s[1]
        } else {
            self.s0s[0]
        };
        let mut s0s: Vec<[u8; LAMBDA]> = Vec::new();
        s0s.push(seed);
        let mut cws: Vec<Cw<LAMBDA>> = Vec::new();
        let mut i: usize = 0;
        while i < self.cws.len()
            invariant
                i <= self.cws@.len(),
                cws@.len() == i,
                forall|j: int| 0 <= j < i ==> cws@[j] == self.cws@[j],
            decreases self.cws@.len() - i,
        {
            cws.push(self.cws[i]);
            i = i + 1;
        }
        let r = Share { s0s, cws, cw_np1: self.cw_np1 };
        assert(r@.s0s =~= self@.party(b).s0s);
        assert(r@.cws =~= self@.cws);
        r
    }
}

impl<const LAMBDA: usize> View for Share<LAMBDA> {
    type V = ShareView;

    open spec fn view(&self) -> ShareView {
        ShareView {
            s0s: self.s0s@.map_values(|a: [u8; LAMBDA]| a@),
            cws: self.cws@.map_values(|c: Cw<LAMBDA>| c@),
            cw_np1: self.cw_np1@,
        }
    }
}

/// Lexicographic comparison of the first `i` bits (most significant first):
/// `-1`, `0` or `1` as `x` is below, equal to or above `a` there.
pub open spec fn prefix_cmp(x: Seq<u8>, a: Seq<u8>, i: nat) -> int
    decreases i,
{
    if i == 0 {
        0
    } else {
        let c = prefix_cmp(x, a, (i - 1) as nat);
        if c != 0 {
            c
        } else if bit_of(x, i - 1) == bit_of(a, i - 1) {
            0
        } else if bit_of(x, i - 1) {
            1
        } else {
            -1
        }
    }
}

/// Whether `x` lies in the region that maps to `beta`.
pub open spec fn in_beta_region(bound: BoundState, x: Seq<u8>, alpha: Seq<u8>) -> bool {
    match bound {
        BoundState::LtBeta => prefix_cmp(x, alpha, 8 * alpha.len()) < 0,
        BoundState::GtBeta => prefix_cmp(x, alpha, 8 * alpha.len()) > 0,
    }
}

/// The comparison function itself.
pub open spec fn cmp_fn_value(bound: BoundState, alpha: Seq<u8>, beta: Seq<u8>, x: Seq<u8>) -> Seq<u8> {
    if in_beta_region(bound, x, alpha) {
        beta
    } else {
        zeros(beta.len())
    }
}

/// The right child when `right` holds, else the left one.
pub open spec fn pick(e: (Node, Node), right: bool) -> Node {
    if right {
        e.1
    } else {
        e.0
    }
}

/// Whether the value correction of a level whose threshold bit is `a` carries
/// `beta`: the side that leaves the threshold's path is the `beta` side.
pub open spec fn beta_on_lose(bound: BoundState, a: bool) -> bool {
    match bound {
        BoundState::LtBeta => a,
        BoundState::GtBeta => !a,
    }
}

/// The dealer's state on the threshold's path at one tree level.
pub struct LevelState {
    pub s0: Seq<u8>,
    pub s1: Seq<u8>,
    pub t0: bool,
    pub t1: bool,
    pub v_alpha: Seq<u8>,
}

/// Correction word of a level whose threshold bit is `a`, from the dealer's state.
pub open spec fn level_cw<const L: usize, P: Prg<L>>(
    prg: P,
    a: bool,
    beta: Seq<u8>,
    bound: BoundState,
    st: LevelState,
) -> CwView {
    let e0 = prg.expand(st.s0);
    let e1 = prg.expand(st.s1);
    let v_raw = xor_seq(xor_seq(pick(e0, !a).v, pick(e1, !a).v), st.v_alpha);
    CwView {
        s: xor_seq(pick(e0, !a).s, pick(e1, !a).s),
        v: if beta_on_lose(bound, a) {
            xor_seq(v_raw, beta)
        } else {
            v_raw
        },
        tl: e0.0.t ^ e1.0.t ^ a ^ true,
        tr: e0.1.t ^ e1.1.t ^ a,
    }
}

/// The dealer's state one level down the threshold's path.
pub open spec fn level_next<const L: usize, P: Prg<L>>(
    prg: P,
    a: bool,
    cw: CwView,
    st: LevelState,
) -> LevelState {
    let k0 = pick(prg.expand(st.s0), a);
    let k1 = pick(prg.expand(st.s1), a);
    let tk = if a {
        cw.tr
    } else {
        cw.tl
    };
    LevelState {
        s0: xor_seq(k0.s, mask(st.t0, cw.s)),
        s1: xor_seq(k1.s, mask(st.t1, cw.s)),
        t0: k0.t ^ (st.t0 && tk),
        t1: k1.t ^ (st.t1 && tk),
        v_alpha: xor_seq(xor_seq(xor_seq(st.v_alpha, k0.v), k1.v), cw.v),
    }
}

/// The dealer's state after `i` levels.
pub open spec fn gen_state<const L: usize, P: Prg<L>>(
    prg: P,
    alpha: Seq<u8>,
    beta: Seq<u8>,
    s0: Seq<u8>,
    s1: Seq<u8>,
    bound: BoundState,
    i: nat,
) -> LevelState
    decreases i,
{
    if i == 0 {
        LevelState { s0, s1, t0: false, t1: true, v_alpha: zeros(L as nat) }
    } else {
        let st = gen_state(prg, alpha, beta, s0, s1, bound, (i - 1) as nat);
        let a = bit_of(alpha, i - 1);
        level_next(prg, a, level_cw(prg, a, beta, bound, st), st)
    }
}

/// Correction word of level `i + 1` (index `i`).
pub open spec fn gen_cw<const L: usize, P: Prg<L>>(
    prg: P,
    alpha: Seq<u8>,
    beta: Seq<u8>,
    s0: Seq<u8>,
    s1: Seq<u8>,
    bound: BoundState,
    i: nat,
) -> CwView {
    level_cw(prg, bit_of(alpha, i as int), beta, bound, gen_state(prg, alpha, beta, s0, s1, bound, i))
}

/// The dealer's output for threshold `alpha`, value `beta` and initial seeds `s0`, `s1`.
pub open spec fn gen_share<const L: usize, P: Prg<L>>(
    prg: P,
    alpha: Seq<u8>,
    beta: Seq<u8>,
    s0: Seq<u8>,
    s1: Seq<u8>,
    bound: BoundState,
) -> ShareView {
    let n = 8 * alpha.len();
    let last = gen_state(prg, alpha, beta, s0, s1, bound, n);
    ShareView {
        s0s: seq![s0, s1],
        cws: Seq::new(n, |i: int| gen_cw(prg, alpha, beta, s0, s1, bound, i as nat)),
        cw_np1: xor_seq(xor_seq(last.s0, last.s1), last.v_alpha),
    }
}

/// An evaluator's state at one tree level.
pub struct PartyState {
    pub s: Seq<u8>,
    pub t: bool,
    pub v: Seq<u8>,
}

/// An evaluator's state one level down, towards the child that bit `xi` selects.
pub open spec fn eval_next<const L: usize, P: Prg<L>>(
    prg: P,
    cw: CwView,
    xi: bool,
    st: PartyState,
) -> PartyState {
    let c = pick(prg.expand(st.s), xi);
    let tc = if xi {
        cw.tr
    } else {
        cw.tl
    };
    PartyState {
        s: xor_seq(c.s, mask(st.t, cw.s)),
        t: c.t ^ (st.t && tc),
        v: xor_seq(xor_seq(st.v, c.v), mask(st.t, cw.v)),
    }
}

/// Party `b`'s state after `i` levels of the walk towards `x`.
pub open spec fn eval_state<const L: usize, P: Prg<L>>(
    prg: P,
    k: ShareView,
    b: bool,
    x: Seq<u8>,
    i: nat,
) -> PartyState
    decreases i,
{
    if i == 0 {
        PartyState { s: k.s0s[0], t: b, v: zeros(L as nat) }
    } else {
        let st = eval_state(prg, k, b, x, (i - 1) as nat);
        eval_next(prg, k.cws[i - 1], bit_of(x, i - 1), st)
    }
}

/// Party `b`'s output share at `x`.
pub open spec fn eval_point<const L: usize, P: Prg<L>>(
    prg: P,
    k: ShareView,
    b: bool,
    x: Seq<u8>,
) -> Seq<u8> {
    let st = eval_state(prg, k, b, x, k.cws.len());
    xor_seq(xor_seq(st.v, st.s), mask(st.t, k.cw_np1))
}

/// Distributed comparison function: a dealer splits a comparison function into
/// two key shares, and each party evaluates its share on a batch of points.
pub trait Dcf<const N: usize, const LAMBDA: usize> {
    /// The share that the dealer produces.
    spec fn share_of(&self, alpha: Seq<u8>, beta: Seq<u8>, s0: Seq<u8>, s1: Seq<u8>, bound: BoundState) -> ShareView;

    /// Party `b`'s output share at `x`.
    spec fn output_of(&self, b: bool, k: ShareView, x: Seq<u8>) -> Seq<u8>;

    /// Dealer: `s0s` are the two initial seeds, which the caller samples at random.
    fn gen(&self, f: &CmpFn<N, LAMBDA>, s0s: [&[u8; LAMBDA]; 2], bound: BoundState) -> (k: Share<LAMBDA>)
        requires
            8 * N <= usize::MAX,
        ensures
            k@ == self.share_of(f.alpha@, f.beta@, s0s[0]@, s0s[1]@, bound),
            k@.s0s.len() == 2,
            k@.cws.len() == 8 * N,
    ;

    /// Evaluator: party `b` (`false` is 0, `true` is 1) writes its output share
    /// at `xs[j]` into `ys[j]`.
    fn eval(&self, b: bool, k: &Share<LAMBDA>, xs: &[[u8; N]], ys: &mut [[u8; LAMBDA]])
        requires
            8 * N <= usize::MAX,
            k@.cws.len() == 8 * N,
            k@.s0s.len() == 1,
            old(ys)@.len() == xs@.len(),
        ensures
            final(ys)@.len() == xs@.len(),
            forall|j: int| 0 <= j < xs@.len() ==> final(ys)@[j]@ == self.output_of(b, k@, xs@[j]@),
    ;
}

/// Implementation of [`Dcf`] over a generator `PrgT`.
pub struct DcfImpl<const N: usize, const LAMBDA: usize, PrgT> where PrgT: Prg<LAMBDA> {
    prg: PrgT,
}

impl<const N: usize, const LAMBDA: usize, PrgT> DcfImpl<N, LAMBDA, PrgT> where PrgT: Prg<LAMBDA> {
    /// The generator the instance walks with.
    pub closed spec fn prg_model(&self) -> PrgT {
        self.prg
    }

    pub fn new(prg: PrgT) -> (r: Self)
        ensures
            r.prg_model() == prg,
    {
        Self { prg }
    }

    /// Party `b`'s output share at one point `x`.
    fn eval_one(&self, b: bool, k: &Share<LAMBDA>, x: &[u8; N]) -> (y: [u8; LAMBDA])
        requires
            8 * N <= usize::MAX,
            k@.cws.len() == 8 * N,
            k@.s0s.len() == 1,
        ensures
            y@ == eval_point(self.prg, k@, b, x@),
    {
        let n: usize = 8 * N;
        let mut s: [u8; LAMBDA] = k.s0s[0];
        let mut t: bool = b;
        let mut v: [u8; LAMBDA] = zero_block();
        let mut i: usize = 0;
        while i < n
            invariant
                n == 8 * N,
                i <= n,
                k@.cws.len() == n,
                k@.s0s.len() == 1,
                (PartyState { s: s@, t, v: v@ }) == eval_state(self.prg, k@, b, x@, i as nat),
            decreases n - i,
        {
            let cw: &Cw<LAMBDA> = &k.cws[i];
            let e = self.prg.gen(&s);
            let xi = get_bit(x, i);
            let c = if xi {
                e[1]
            } else {
                e[0]
            };
            let tc = if xi {
                cw.tr
            } else {
                cw.tl
            };
            let ms = mask_block(t, &cw.s);
            let mv = mask_block(t, &cw.v);
            let vc = xor_blocks(&v, &c.1);
            v = xor_blocks(&vc, &mv);
            s = xor_blocks(&c.0, &ms);
            t = c.2 ^ (t && tc);
            i = i + 1;
        }
        let vs = xor_blocks(&v, &s);
        let mc = mask_block(t, &k.cw_np1);
        xor_blocks(&vs, &mc)
    }
}

impl<const N: usize, const LAMBDA: usize, PrgT> Dcf<N, LAMBDA> for DcfImpl<N, LAMBDA, PrgT> where
    PrgT: Prg<LAMBDA>,
 {
    open spec fn share_of(&self, alpha: Seq<u8>, beta: Seq<u8>, s0: Seq<u8>, s1: Seq<u8>, bound: BoundState) -> ShareView {
        gen_share(self.prg_model(), alpha, beta, s0, s1, bound)
    }

    open spec fn output_of(&self, b: bool, k: ShareView, x: Seq<u8>) -> Seq<u8> {
        eval_point(self.prg_model(), k, b, x)
    }

    fn gen(&self, f: &CmpFn<N, LAMBDA>, s0s: [&[u8; LAMBDA]; 2], bound: BoundState) -> (k: Share<LAMBDA>) {
        let n: usize = 8 * N;
        let ghost alpha = f.alpha@;
        let ghost beta = f.beta@;
        let ghost g0 = s0s[0]@;
        let ghost g1 = s0s[1]@;
        let mut s0: [u8; LAMBDA] = *s0s[0];
        let mut s1: [u8; LAMBDA] = *s0s[1];
        let mut t0: bool = false;
        let mut t1: bool = true;
        let mut v_alpha: [u8; LAMBDA] = zero_block();
        let mut cws: Vec<Cw<LAMBDA>> = Vec::new();
        let mut i: usize = 0;
        while i < n
            invariant
                n == 8 * N,
                i <= n,
                alpha == f.alpha@,
                beta == f.beta@,
                cws@.len() == i,
                (LevelState { s0: s0@, s1: s1@, t0, t1, v_alpha: v_alpha@ })
                    == gen_state(self.prg, alpha, beta, g0, g1, bound, i as nat),
                forall|j: int| 0 <= j < i ==> cws@[j]@ == gen_cw(self.prg, alpha, beta, g0, g1, bound, j as nat),
            decreases n - i,
        {
            let e0 = self.prg.gen(&s0);
            let e1 = self.prg.gen(&s1);
            let a = get_bit(&f.alpha, i);
            let (keep0, lose0) = if a {
                (e0[1], e0[0])
            } else {
                (e0[0], e0[1])
            };
            let (keep1, lose1) = if a {
                (e1[1], e1[0])
            } else {
                (e1[0], e1[1])
            };
            let s_cw = xor_blocks(&lose0.0, &lose1.0);
            let vl = xor_blocks(&lose0.1, &lose1.1);
            let v_raw = xor_blocks(&vl, &v_alpha);
            let with_beta = match bound {
                BoundState::LtBeta => a,
                BoundState::GtBeta => !a,
            };
            let v_cw = if with_beta {
                xor_blocks(&v_raw, &f.beta)
            } else {
                v_raw
            };
            let tl_cw = e0[0].2 ^ e1[0].2 ^ a ^ true;
            let tr_cw = e0[1].2 ^ e1[1].2 ^ a;
            let tk = if a {
                tr_cw
            } else {
                tl_cw
            };
            let va0 = xor_blocks(&v_alpha, &keep0.1);
            let va1 = xor_blocks(&va0, &keep1.1);
            v_alpha = xor_blocks(&va1, &v_cw);
            let m0 = mask_block(t0, &s_cw);
            let m1 = mask_block(t1, &s_cw);
            s0 = xor_blocks(&keep0.0, &m0);
            s1 = xor_blocks(&keep1.0, &m1);
            t0 = keep0.2 ^ (t0 && tk);
            t1 = keep1.2 ^ (t1 && tk);
            cws.push(Cw { s: s_cw, v: v_cw, tl: tl_cw, tr: tr_cw });
            i = i + 1;
        }
        let ss = xor_blocks(&s0, &s1);
        let cw_np1 = xor_blocks(&ss, &v_alpha);
        let mut seeds: Vec<[u8; LAMBDA]> = Vec::new();
        seeds.push(*s0s[0]);
        seeds.push(*s0s[1]);
        let k = Share { s0s: seeds, cws, cw_np1 };
        assert(k@.s0s =~= seq![g0, g1]);
        assert(k@.cws =~= gen_share(self.prg, alpha, beta, g0, g1, bound).cws);
        k
    }

    fn eval(&self, b: bool, k: &Share<LAMBDA>, xs: &[[u8; N]], ys: &mut [[u8; LAMBDA]]) {
        let mut j: usize = 0;
        while j < xs.len()
            invariant
                8 * N <= usize::MAX,
                k@.cws.len() == 8 * N,
                k@.s0s.len() == 1,
                ys@.len() == xs@.len(),
                forall|q: int| 0 <= q < j ==> ys@[q]@ == eval_point(self.prg, k@, b, xs@[q]@),
            decreases xs@.len() - j,
        {
            let y = self.eval_one(b, k, &xs[j]);
            ys[j] = y;
            j = j + 1;
        }
    }
}

} // verus!
