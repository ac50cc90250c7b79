use polycommit::bls::{pairing, Fr, G1, G2};

const MODULUS: [u64; 4] =
    [0xffffffff00000001, 0x53bda402fffe5bfe, 0x3339d80809a1d805, 0x73eda753299d7d48];

const G1_GENERATOR: [u8; 48] = [
    0x97, 0xf1, 0xd3, 0xa7, 0x31, 0x97, 0xd7, 0x94, 0x26, 0x95, 0x63, 0x8c, 0x4f, 0xa9, 0xac, 0x0f,
    0xc3, 0x68, 0x8c, 0x4f, 0x97, 0x74, 0xb9, 0x05, 0xa1, 0x4e, 0x3a, 0x3f, 0x17, 0x1b, 0xac, 0x58,
    0x6c, 0x55, 0xe8, 0x3f, 0xf9, 0x7a, 0x1a, 0xef, 0xfb, 0x3a, 0xf0, 0x0a, 0xdb, 0x22, 0xc6, 0xbb,
];

const G2_GENERATOR: [u8; 96] = [
    0x93, 0xe0, 0x2b, 0x60, 0x52, 0x71, 0x9f, 0x60, 0x7d, 0xac, 0xd3, 0xa0, 0x88, 0x27, 0x4f, 0x65,
    0x59, 0x6b, 0xd0, 0xd0, 0x99, 0x20, 0xb6, 0x1a, 0xb5, 0xda, 0x61, 0xbb, 0xdc, 0x7f, 0x50, 0x49,
    0x33, 0x4c, 0xf1, 0x12, 0x13, 0x94, 0x5d, 0x57, 0xe5, 0xac, 0x7d, 0x05, 0x5d, 0x04, 0x2b, 0x7e,
    0x02, 0x4a, 0xa2, 0xb2, 0xf0, 0x8f, 0x0a, 0x91, 0x26, 0x08, 0x05, 0x27, 0x2d, 0xc5, 0x10, 0x51,
    0xc6, 0xe4, 0x7a, 0xd4, 0xfa, 0x40, 0x3b, 0x02, 0xb4, 0x51, 0x0b, 0x64, 0x7a, 0xe3, 0xd1, 0x77,
    0x0b, 0xac, 0x03, 0x26, 0xa8, 0x05, 0xbb, 0xef, 0xd4, 0x80, 0x56, 0xc8, 0xc1, 0x21, 0xbd, 0xb8,
];

#[test]
fn field_elements_from_small_numbers() {
    assert_eq!(Fr::from_u64(5).to_limbs(), [5, 0, 0, 0]);
    assert_eq!(Fr::zero().to_limbs(), [0, 0, 0, 0]);
    assert_eq!(Fr::one().to_limbs(), [1, 0, 0, 0]);
    assert!(Fr::zero().is_zero());
    assert!(!Fr::one().is_zero());
    assert!(Fr::from_u64(9).equals(&Fr::from_u64(9)));
    assert!(!Fr::from_u64(9).equals(&Fr::from_u64(10)));
}

#[test]
fn field_elements_from_limbs_are_below_the_modulus() {
    assert!(Fr::from_limbs(MODULUS).is_none());
    assert!(Fr::from_limbs([u64::MAX; 4]).is_none());
    assert!(Fr::from_limbs([0, 0, 0, 0x73eda753299d7d49]).is_none());
    assert!(Fr::from_limbs([0x00000000_00000002, 0x53bda402fffe5bfe, 0x3339d80809a1d805, 0x73eda753299d7d48]).is_some());
    let top = [0xffffffff00000000, 0x53bda402fffe5bfe, 0x3339d80809a1d805, 0x73eda753299d7d48];
    let e = Fr::from_limbs(top).unwrap();
    assert_eq!(e.to_limbs(), top);
    assert!(Fr::from_limbs([7, 0, 0, 0]).unwrap().equals(&Fr::from_u64(7)));
}

#[test]
fn field_sum_difference_and_product() {
    let a = Fr::from_u64(1_000_000_007);
    let b = Fr::from_u64(998_244_353);
    assert_eq!(a.add(&b).to_limbs(), [1_998_244_360, 0, 0, 0]);
    assert_eq!(a.sub(&b).to_limbs(), [1_755_654, 0, 0, 0]);
    assert_eq!(a.mul(&b).to_limbs(), [998_244_359_987_710_471, 0, 0, 0]);
    // zero less one is the modulus less one
    let minus_one = Fr::zero().sub(&Fr::one());
    assert_eq!(
        minus_one.to_limbs(),
        [0xffffffff00000000, 0x53bda402fffe5bfe, 0x3339d80809a1d805, 0x73eda753299d7d48]
    );
    assert!(minus_one.add(&Fr::from_u64(2)).equals(&Fr::one()));
    assert!(minus_one.mul(&minus_one).equals(&Fr::one()));
    assert_eq!(b.sub(&a).add(&a).to_limbs(), b.to_limbs());
}

#[test]
fn field_quotient() {
    let six = Fr::from_u64(6);
    let three = Fr::from_u64(3);
    assert!(six.div(&three).unwrap().equals(&Fr::from_u64(2)));
    assert!(six.div(&Fr::zero()).is_none());
    let third = Fr::one().div(&three).unwrap();
    assert_eq!(
        third.to_limbs(),
        [0xaaaaaaaa00000001, 0xe27e6d5755543d54, 0xccd13ab0066be558, 0x4d491a377113a8da]
    );
    assert!(third.mul(&three).equals(&Fr::one()));
}

#[test]
fn group_constants_have_their_known_encodings() {
    assert_eq!(G1::generator().to_bytes(), G1_GENERATOR);
    assert_eq!(G2::generator().to_bytes(), G2_GENERATOR);
    let mut identity = [0u8; 48];
    identity[0] = 0xc0;
    assert_eq!(G1::identity().to_bytes(), identity);
}

#[test]
fn group_decoding_accepts_only_valid_encodings() {
    assert!(G1::from_bytes(G1_GENERATOR).unwrap().equals(&G1::generator()));
    assert!(G1::from_bytes([0u8; 48]).is_none());
    // the neutral element has one encoding only
    assert!(G1::from_bytes([0xff; 48]).is_none());
    let mut marked = [0u8; 48];
    marked[0] = 0xc0;
    assert!(G1::from_bytes(marked).unwrap().equals(&G1::identity()));
    marked[47] = 1;
    assert!(G1::from_bytes(marked).is_none());
    assert_eq!(G2::from_bytes(G2_GENERATOR).unwrap().to_bytes(), G2_GENERATOR);
    assert!(G2::from_bytes([0u8; 96]).is_none());
    assert!(G2::from_bytes([0xff; 96]).is_none());
}

#[test]
fn first_group_arithmetic() {
    let g = G1::generator();
    let two = Fr::from_u64(2);
    let twice = g.add(&g);
    assert!(twice.equals(&g.mul(&two)));
    assert!(!twice.equals(&g));
    assert!(twice.sub(&g).equals(&g));
    assert!(g.sub(&g).equals(&G1::identity()));
    assert!(g.add(&G1::identity()).equals(&g));
    assert!(g.mul(&Fr::zero()).equals(&G1::identity()));
    // the group has the order of the field
    let minus_one = Fr::zero().sub(&Fr::one());
    assert!(g.mul(&minus_one).add(&g).equals(&G1::identity()));
}

#[test]
fn second_group_arithmetic() {
    let h = G2::generator();
    let twice = h.mul(&Fr::from_u64(2));
    assert_ne!(twice.to_bytes(), h.to_bytes());
    assert_eq!(twice.sub(&h).to_bytes(), h.to_bytes());
    assert_eq!(h.mul(&Fr::from_u64(3)).sub(&twice).to_bytes(), h.to_bytes());
    assert_eq!(h.mul(&Fr::one()).to_bytes(), h.to_bytes());
}

#[test]
fn pairing_is_bilinear() {
    let g = G1::generator();
    let h = G2::generator();
    let a = Fr::from_u64(6);
    let left = pairing(&g.mul(&a), &h);
    let right = pairing(&g, &h.mul(&a));
    assert_eq!(left, right);
    assert_eq!(
        pairing(&g.mul(&Fr::from_u64(2)), &h.mul(&Fr::from_u64(3))),
        left
    );
    assert_ne!(pairing(&g, &h), left);
    assert_eq!(left.len(), 576);
}
