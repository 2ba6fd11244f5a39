use dcf::{Aes256MmoPrg, BoundState, CmpFn, Dcf, DcfImpl, Prg, Share};

pub const KEYS: [[u8; 32]; 5] = [
    [0x6a, 0x39, 0x1b, 0x5f, 0xb3, 0x58, 0xf3, 0x33, 0xac, 0x57, 0x15, 0x1b, 0x08, 0x31, 0x32, 0x4b, 0xb3, 0x49, 0xb9, 0x90, 0x72, 0x1c, 0x4e, 0xb5, 0xee, 0x39, 0x57, 0xd3, 0xbb, 0x40, 0xc6, 0x64],
    [0x9b, 0x15, 0xc8, 0x0f, 0xb7, 0xbc, 0x21, 0x71, 0x9e, 0x89, 0xb8, 0xf7, 0x0e, 0xa0, 0x53, 0x9d, 0x4e, 0xfa, 0x0c, 0x3b, 0x16, 0xe4, 0x98, 0x82, 0x62, 0xfc, 0x64, 0x79, 0xb5, 0x8c, 0x7b, 0xc2],
    [0xdb, 0xc1, 0xb4, 0xc9, 0x00, 0xff, 0xe4, 0x8d, 0x57, 0x5b, 0x5d, 0xa5, 0xc6, 0x38, 0x04, 0x01, 0x25, 0xf6, 0x5d, 0xb0, 0xfe, 0x3e, 0x24, 0x49, 0x4b, 0x76, 0xea, 0x98, 0x64, 0x57, 0xd9, 0x86],
    [0x08, 0x4f, 0xed, 0x08, 0xb9, 0x78, 0xaf, 0x4d, 0x7d, 0x19, 0x6a, 0x74, 0x46, 0xa8, 0x6b, 0x58, 0x00, 0x9e, 0x63, 0x6b, 0x61, 0x1d, 0xb1, 0x62, 0x11, 0xb6, 0x5a, 0x9a, 0xad, 0xff, 0x29, 0xc5],
    [0xe5, 0x2d, 0x9c, 0x50, 0x8c, 0x50, 0x23, 0x47, 0x34, 0x4d, 0x8c, 0x07, 0xad, 0x91, 0xcb, 0xd6, 0x06, 0x8a, 0xfc, 0x75, 0xff, 0x62, 0x92, 0xf0, 0x62, 0xa0, 0x9c, 0xa3, 0x81, 0xc8, 0x9e, 0x71],
];

pub const ALPHAS: [[u8; 16]; 5] = [
    [0x4b, 0xa9, 0x57, 0xf5, 0xdd, 0x05, 0xe9, 0xfc, 0x3f, 0x04, 0xf6, 0xfb, 0x55, 0x6f, 0xa8, 0x43],
    [0xc2, 0x47, 0x4b, 0xda, 0xc6, 0xbb, 0x99, 0x98, 0x46, 0x71, 0x22, 0x66, 0xb7, 0x8c, 0x73, 0x55],
    [0xc2, 0x47, 0x4b, 0xda, 0xc6, 0xbb, 0x99, 0x98, 0x46, 0x71, 0x22, 0x66, 0xb7, 0x8c, 0x73, 0x56],
    [0xc2, 0x47, 0x4b, 0xda, 0xc6, 0xbb, 0x99, 0x98, 0x46, 0x71, 0x22, 0x66, 0xb7, 0x8c, 0x73, 0x57],
    [0xef, 0x96, 0x97, 0xd7, 0x8f, 0x8a, 0xa4, 0x41, 0x50, 0x0a, 0xb3, 0x35, 0xb5, 0x6b, 0xff, 0x97],
];

pub const BETA: [u8; 16] = [0x03, 0x11, 0x97, 0x12, 0x43, 0x8a, 0xe9, 0x23, 0x81, 0xa8, 0xde, 0xa8, 0x8f, 0x20, 0xc0, 0xbb];

pub const SEEDS: [[u8; 16]; 2] = [
    [0xec, 0x18, 0xea, 0xc8, 0xd7, 0x58, 0xb1, 0xeb, 0xa5, 0x2d, 0x3c, 0x10, 0xd3, 0x9a, 0xdc, 0x6d],
    [0xe8, 0xbc, 0x16, 0x3c, 0x82, 0xee, 0xe1, 0x87, 0x33, 0x28, 0x8c, 0x7d, 0x4a, 0xc6, 0x36, 0xdb],
];

fn xor16(a: &[u8; 16], b: &[u8; 16]) -> [u8; 16] {
    let mut r = [0u8; 16];
    for i in 0..16 {
        r[i] = a[i] ^ b[i];
    }
    r
}

fn dealer(bound: BoundState) -> (DcfImpl<16, 16, Aes256MmoPrg>, Share<16>) {
    let dcf = DcfImpl::<16, 16, _>::new(Aes256MmoPrg::new(KEYS));
    let f = CmpFn { alpha: ALPHAS[2], beta: BETA };
    let k = dcf.gen(&f, [&SEEDS[0], &SEEDS[1]], bound);
    (dcf, k)
}

fn split(k: &Share<16>) -> (Share<16>, Share<16>) {
    let mut k0 = k.clone();
    k0.s0s = vec![k0.s0s[0]];
    let mut k1 = k.clone();
    k1.s0s = vec![k1.s0s[1]];
    (k0, k1)
}

fn reconstruct(bound: BoundState) -> Vec<[u8; 16]> {
    let (dcf, k) = dealer(bound);
    let (k0, k1) = split(&k);
    let mut ys0 = vec![[0u8; 16]; ALPHAS.len()];
    let mut ys1 = vec![[0u8; 16]; ALPHAS.len()];
    dcf.eval(false, &k0, &ALPHAS, &mut ys0);
    dcf.eval(true, &k1, &ALPHAS, &mut ys1);
    ys0.iter().zip(ys1.iter()).map(|(a, b)| xor16(a, b)).collect()
}

#[test]
fn test_dcf_gen_then_eval_ok() {
    let ys = reconstruct(BoundState::LtBeta);
    assert_eq!(ys, vec![BETA, BETA, [0; 16], [0; 16], [0; 16]]);
}

#[test]
fn test_dcf_gen_gt_beta_then_eval_ok() {
    let ys = reconstruct(BoundState::GtBeta);
    assert_eq!(ys, vec![[0; 16], [0; 16], [0; 16], BETA, BETA]);
}

#[test]
fn test_dcf_gen_then_eval_not_zeros() {
    let (dcf, k) = dealer(BoundState::LtBeta);
    let (k0, k1) = split(&k);
    let mut ys0 = vec![[0u8; 16]; ALPHAS.len()];
    let mut ys1 = vec![[0u8; 16]; ALPHAS.len()];
    dcf.eval(false, &k0, &ALPHAS, &mut ys0);
    dcf.eval(true, &k1, &ALPHAS, &mut ys1);
    assert_ne!(ys0[2], [0; 16]);
    assert_ne!(ys1[2], [0; 16]);
}

#[test]
fn gen_produces_one_correction_word_per_bit() {
    let (_, k) = dealer(BoundState::LtBeta);
    assert_eq!(k.s0s, vec![SEEDS[0], SEEDS[1]]);
    assert_eq!(k.cws.len(), 128);
}

#[test]
fn for_party_keeps_own_seed_and_common_words() {
    let (_, k) = dealer(BoundState::GtBeta);
    let k1 = k.for_party(true);
    assert_eq!(k1.s0s, vec![SEEDS[1]]);
    assert_eq!(k1.cw_np1, k.cw_np1);
    assert_eq!(k1.cws.len(), k.cws.len());
    for (a, b) in k1.cws.iter().zip(k.cws.iter()) {
        assert_eq!((a.s, a.v, a.tl, a.tr), (b.s, b.v, b.tl, b.tr));
    }
    let k0 = k.for_party(false);
    assert_eq!(k0.s0s, vec![SEEDS[0]]);
}

#[test]
fn gen_and_eval_are_deterministic() {
    let (dcf, k) = dealer(BoundState::LtBeta);
    let (_, again) = dealer(BoundState::LtBeta);
    assert_eq!(k.s0s, again.s0s);
    assert_eq!(k.cw_np1, again.cw_np1);
    for (a, b) in k.cws.iter().zip(again.cws.iter()) {
        assert_eq!((a.s, a.v, a.tl, a.tr), (b.s, b.v, b.tl, b.tr));
    }
    let k0 = k.for_party(false);
    let mut first = vec![[0u8; 16]; ALPHAS.len()];
    let mut second = vec![[0u8; 16]; ALPHAS.len()];
    dcf.eval(false, &k0, &ALPHAS, &mut first);
    dcf.eval(false, &k0, &ALPHAS, &mut second);
    assert_eq!(first, second);
}

#[test]
fn alpha_maps_to_zero_under_both_bounds() {
    assert_eq!(reconstruct(BoundState::LtBeta)[2], [0; 16]);
    assert_eq!(reconstruct(BoundState::GtBeta)[2], [0; 16]);
}

#[test]
fn party_outputs_are_masked_on_every_point() {
    for bound in [BoundState::LtBeta, BoundState::GtBeta] {
        let (dcf, k) = dealer(bound);
        for b in [false, true] {
            let kb = k.for_party(b);
            let mut ys = vec![[0u8; 16]; ALPHAS.len()];
            dcf.eval(b, &kb, &ALPHAS, &mut ys);
            for y in ys.iter() {
                assert_ne!(*y, [0u8; 16]);
            }
        }
    }
}

fn check_one_byte_domain(alpha: u8, bound: BoundState) {
    let dcf = DcfImpl::<1, 16, _>::new(Aes256MmoPrg::new(KEYS));
    let f = CmpFn { alpha: [alpha], beta: BETA };
    let k = dcf.gen(&f, [&SEEDS[0], &SEEDS[1]], bound);
    assert_eq!(k.cws.len(), 8);
    let k0 = k.for_party(false);
    let k1 = k.for_party(true);
    let xs: Vec<[u8; 1]> = (0..=255u8).map(|x| [x]).collect();
    let mut ys0 = vec![[0u8; 16]; xs.len()];
    let mut ys1 = vec![[0u8; 16]; xs.len()];
    dcf.eval(false, &k0, &xs, &mut ys0);
    dcf.eval(true, &k1, &xs, &mut ys1);
    for x in 0..=255u8 {
        let inside = match bound {
            BoundState::LtBeta => x < alpha,
            BoundState::GtBeta => x > alpha,
        };
        let expected = if inside { BETA } else { [0u8; 16] };
        assert_eq!(xor16(&ys0[x as usize], &ys1[x as usize]), expected);
    }
}

#[test]
fn one_byte_domain_every_point_lt() {
    for alpha in [0u8, 1, 0x7f, 0x80, 0xa5, 0xfe, 0xff] {
        check_one_byte_domain(alpha, BoundState::LtBeta);
    }
}

#[test]
fn one_byte_domain_every_point_gt() {
    for alpha in [0u8, 1, 0x7f, 0x80, 0xa5, 0xfe, 0xff] {
        check_one_byte_domain(alpha, BoundState::GtBeta);
    }
}

#[test]
fn empty_batch_writes_nothing() {
    let (dcf, k) = dealer(BoundState::LtBeta);
    let k0 = k.for_party(false);
    let xs: Vec<[u8; 16]> = Vec::new();
    let mut ys: Vec<[u8; 16]> = Vec::new();
    dcf.eval(false, &k0, &xs, &mut ys);
    assert!(ys.is_empty());
}

#[test]
fn aes_mmo_block_matches_known_vector() {
    // AES-256 known answer: key 00..1f, plaintext 00112233..ff.
    let mut key = [0u8; 32];
    for i in 0..32 {
        key[i] = i as u8;
    }
    let seed: [u8; 16] = [
        0x00, 0x11, 0x22, 0x33, 0x44, 0x55, 0x66, 0x77, 0x88, 0x99, 0xaa, 0xbb, 0xcc, 0xdd, 0xee, 0xff,
    ];
    let cipher: [u8; 16] = [
        0x8e, 0xa2, 0xb7, 0xca, 0x51, 0x67, 0x45, 0xbf, 0xea, 0xfc, 0x49, 0x90, 0x4b, 0x49, 0x60, 0x89,
    ];
    let prg = Aes256MmoPrg::new([key; 5]);
    let out = prg.gen(&seed);
    let block = xor16(&cipher, &seed);
    assert_eq!(out[0].0, block);
    assert_eq!(out[0].1, block);
    assert_eq!(out[1].0, block);
    assert_eq!(out[1].1, block);
    assert_eq!(out[0].2, block[0] & 1 == 1);
    assert_eq!(out[1].2, (block[0] >> 1) & 1 == 1);
}

#[test]
fn aes_mmo_children_differ_per_key() {
    let prg = Aes256MmoPrg::new(KEYS);
    let out = prg.gen(&SEEDS[0]);
    assert_ne!(out[0].0, [0u8; 16]);
    assert_ne!(out[0].0, out[0].1);
    assert_ne!(out[0].0, out[1].0);
    assert_ne!(out[1].0, out[1].1);
}
