use polycommit::encoding::{bytes_equal, push_bytes, push_u64_le};
use polycommit::poly::is_power_of_two;
use polycommit::ristretto::{Point, Scalar};

const BASEPOINT: [u8; 32] = [
    0xe2, 0xf2, 0xae, 0x0a, 0x6a, 0xbc, 0x4e, 0x71, 0xa8, 0x84, 0xa9, 0x61, 0xc5, 0x00, 0x51, 0x5f,
    0x58, 0xe3, 0x0b, 0x6a, 0xa5, 0x82, 0xdd, 0x8d, 0xb6, 0xa6, 0x59, 0x45, 0xe0, 0x8d, 0x2d, 0x76,
];

#[test]
fn scalar_from_u64_is_little_endian() {
    let s = Scalar::from_u64(0x0102030405060708);
    let mut expected = [0u8; 32];
    expected[..8].copy_from_slice(&[8, 7, 6, 5, 4, 3, 2, 1]);
    assert_eq!(s.to_bytes(), expected);
    assert_eq!(Scalar::zero().to_bytes(), [0u8; 32]);
    assert_eq!(Scalar::one().to_bytes(), Scalar::from_u64(1).to_bytes());
}

#[test]
fn scalar_bytes_are_reduced_modulo_the_group_order() {
    let s = Scalar::from_bytes_mod_order([0xff; 32]);
    let expected: [u8; 32] = [
        28, 149, 152, 141, 116, 49, 236, 214, 112, 207, 125, 115, 244, 91, 239, 198, 254, 255,
        255, 255, 255, 255, 255, 255, 255, 255, 255, 255, 255, 255, 255, 15,
    ];
    assert_eq!(s.to_bytes(), expected);
}

#[test]
fn scalar_sum_and_product() {
    let a = Scalar::from_u64(1_000_000_007);
    let b = Scalar::from_u64(998_244_353);
    assert!(a.add(&b).equals(&Scalar::from_u64(1_998_244_360)));
    assert!(a.mul(&b).equals(&Scalar::from_u64(998_244_359_987_710_471)));
    assert!(!a.add(&b).equals(&a));
    assert!(!a.mul(&b).equals(&a));
}

#[test]
fn scalar_sum_wraps_at_the_group_order() {
    // the group order less one, plus two, is one
    let order_less_one = Scalar::from_bytes_mod_order([
        0xec, 0xd3, 0xf5, 0x5c, 0x1a, 0x63, 0x12, 0x58, 0xd6, 0x9c, 0xf7, 0xa2, 0xde, 0xf9, 0xde,
        0x14, 0, 0, 0, 0, 0, 0, 0, 0, 0, 0, 0, 0, 0, 0, 0, 0x10,
    ]);
    assert!(order_less_one.add(&Scalar::from_u64(2)).equals(&Scalar::one()));
    assert!(order_less_one.mul(&order_less_one).equals(&Scalar::one()));
}

#[test]
fn scalar_inverse_times_scalar_is_one() {
    let a = Scalar::from_u64(42);
    let inverse = a.invert().unwrap();
    assert!(a.mul(&inverse).equals(&Scalar::one()));
    assert!(!inverse.equals(&a));
    assert!(Scalar::zero().invert().is_none());
    assert!(Scalar::one().invert().unwrap().equals(&Scalar::one()));
}

#[test]
fn scalar_zero_test_and_equality() {
    assert!(Scalar::zero().is_zero());
    assert!(!Scalar::one().is_zero());
    assert!(Scalar::from_u64(7).equals(&Scalar::from_u64(7)));
    assert!(!Scalar::from_u64(7).equals(&Scalar::from_u64(8)));
}

#[test]
fn point_constants_have_their_known_encodings() {
    assert_eq!(Point::identity().to_bytes(), [0u8; 32]);
    assert_eq!(Point::basepoint().to_bytes(), BASEPOINT);
}

#[test]
fn point_decoding_accepts_only_valid_encodings() {
    let p = Point::from_bytes(BASEPOINT).unwrap();
    assert!(p.equals(&Point::basepoint()));
    assert!(Point::from_bytes([0u8; 32]).is_some());
    assert!(Point::from_bytes([0xff; 32]).is_none());
    let mut odd = [0u8; 32];
    odd[0] = 1;
    assert!(Point::from_bytes(odd).is_none());
}

#[test]
fn point_sum_and_product_agree() {
    let b = Point::basepoint();
    let twice = b.add(&b);
    assert!(twice.equals(&b.mul(&Scalar::from_u64(2))));
    assert!(!twice.equals(&b));
    assert!(b.add(&Point::identity()).equals(&b));
    assert!(b.mul(&Scalar::zero()).equals(&Point::identity()));
    assert!(b.mul(&Scalar::one()).equals(&b));
    let five = b.mul(&Scalar::from_u64(5));
    assert!(twice.add(&twice).add(&b).equals(&five));
}

#[test]
fn bytes_are_compared_and_appended() {
    assert!(bytes_equal(&[1, 2, 3], &[1, 2, 3]));
    assert!(!bytes_equal(&[1, 2, 3], &[1, 2, 4]));
    assert!(!bytes_equal(&[1, 2, 3], &[1, 2]));
    assert!(bytes_equal(&[], &[]));
    let mut out = vec![9u8];
    push_bytes(&mut out, &[1, 2]);
    push_u64_le(&mut out, 0x0102030405060708);
    assert_eq!(out, vec![9, 1, 2, 8, 7, 6, 5, 4, 3, 2, 1]);
}

#[test]
fn powers_of_two_are_recognised() {
    assert!(!is_power_of_two(0));
    assert!(is_power_of_two(1));
    assert!(is_power_of_two(2));
    assert!(!is_power_of_two(3));
    assert!(is_power_of_two(8));
    assert!(!is_power_of_two(12));
    assert!(is_power_of_two(1 << 20));
}
