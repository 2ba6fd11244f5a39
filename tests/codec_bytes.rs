use dcf::{Aes256MmoPrg, BoundState, CmpFn, Cw, Dcf, DcfImpl, Share};

const KEYS: [[u8; 32]; 5] = [[7u8; 32], [11u8; 32], [13u8; 32], [17u8; 32], [19u8; 32]];

fn sample_share() -> Share<16> {
    let dcf = DcfImpl::<16, 16, _>::new(Aes256MmoPrg::new(KEYS));
    let f = CmpFn { alpha: [0x5au8; 16], beta: [0xc3u8; 16] };
    dcf.gen(&f, [&[1u8; 16], &[2u8; 16]], BoundState::LtBeta)
}

fn same_share(a: &Share<16>, b: &Share<16>) -> bool {
    a.s0s == b.s0s
        && a.cw_np1 == b.cw_np1
        && a.cws.len() == b.cws.len()
        && a.cws.iter().zip(b.cws.iter()).all(|(x, y)| (x.s, x.v, x.tl, x.tr) == (y.s, y.v, y.tl, y.tr))
}

#[test]
fn cw_bytes_are_fixed_width() {
    let c = Cw::<16> { s: [1u8; 16], v: [2u8; 16], tl: true, tr: false };
    let mut expected = vec![1u8; 16];
    expected.extend_from_slice(&[2u8; 16]);
    expected.push(1);
    expected.push(0);
    assert_eq!(c.serialize(), expected);
    let back = Cw::<16>::deserialize(&expected).unwrap();
    assert_eq!((back.s, back.v, back.tl, back.tr), (c.s, c.v, c.tl, c.tr));
}

#[test]
fn cw_rejects_bad_control_byte_and_length() {
    let c = Cw::<16> { s: [3u8; 16], v: [4u8; 16], tl: false, tr: true };
    let mut bytes = c.serialize();
    bytes[33] = 2;
    assert!(Cw::<16>::deserialize(&bytes).is_none());
    let short = &c.serialize()[..33];
    assert!(Cw::<16>::deserialize(short).is_none());
}

#[test]
fn share_round_trip() {
    let k = sample_share();
    let bytes = k.serialize();
    assert_eq!(bytes.len(), 8 + 2 * 16 + 8 + 128 * 34 + 16);
    assert_eq!(&bytes[..8], &[2, 0, 0, 0, 0, 0, 0, 0]);
    assert_eq!(&bytes[8..24], &[1u8; 16]);
    assert_eq!(&bytes[40..48], &[128, 0, 0, 0, 0, 0, 0, 0]);
    let back = Share::<16>::deserialize(&bytes).unwrap();
    assert!(same_share(&k, &back));
}

#[test]
fn party_share_round_trip() {
    let k = sample_share().for_party(true);
    let back = Share::<16>::deserialize(&k.serialize()).unwrap();
    assert!(same_share(&k, &back));
    assert_eq!(back.s0s, vec![[2u8; 16]]);
}

#[test]
fn share_rejects_truncated_and_trailing_bytes() {
    let bytes = sample_share().serialize();
    assert!(Share::<16>::deserialize(&bytes[..bytes.len() - 1]).is_none());
    let mut longer = bytes.clone();
    longer.push(0);
    assert!(Share::<16>::deserialize(&longer).is_none());
    assert!(Share::<16>::deserialize(&bytes[..7]).is_none());
    let mut bad = bytes.clone();
    bad[48 + 32] = 9;
    assert!(Share::<16>::deserialize(&bad).is_none());
}

#[test]
fn empty_share_round_trip() {
    let k = Share::<16> { s0s: Vec::new(), cws: Vec::new(), cw_np1: [5u8; 16] };
    let bytes = k.serialize();
    assert_eq!(bytes.len(), 8 + 8 + 16);
    let back = Share::<16>::deserialize(&bytes).unwrap();
    assert!(same_share(&k, &back));
}
