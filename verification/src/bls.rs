//! The scalar field and the two source groups of BLS12-381, with the
//! pairing. Field elements are held as four 64-bit limbs, group elements as
//! their compressed encodings. The arithmetic is arkworks'.

use crate::poly::mod_inverse;
use ark_ec::pairing::Pairing;
use ark_ec::CurveGroup;
use ark_ec::Group;
use ark_ff::PrimeField;
use ark_ff::Zero;
use ark_serialize::CanonicalDeserialize;
use ark_serialize::CanonicalSerialize;
use vstd::arithmetic::div_mod::lemma_small_mod;
use vstd::prelude::*;

verus! {

/// The prime order of the two source groups, and the size of the scalar field.
pub open spec fn scalar_modulus() -> nat {
    52435875175126190479447740508185965837690552500527637822603658699938581184513nat
}

/// The number that a limb `low` and, above it, the number `high` spell.
pub open spec fn above(low: u64, high: nat) -> nat {
    (low as nat) + 0x1_0000_0000_0000_0000nat * high
}

/// The number that four 64-bit limbs spell, the least significant first.
pub open spec fn limbs_value(limbs: Seq<u64>) -> nat {
    above(limbs[0], above(limbs[1], above(limbs[2], limbs[3] as nat)))
}

/// Numbers spelt limb by limb are ordered by their higher parts first.
proof fn lemma_above_order(a: u64, x: nat, b: u64, y: nat)
    ensures
        above(a, x) < above(b, y) <==> (x < y || (x == y && a < b)),
        above(a, x) == above(b, y) <==> (x == y && a == b),
{
    if x < y {
        assert(0x1_0000_0000_0000_0000nat * y >= 0x1_0000_0000_0000_0000nat * x
            + 0x1_0000_0000_0000_0000nat);
    } else if y < x {
        assert(0x1_0000_0000_0000_0000nat * x >= 0x1_0000_0000_0000_0000nat * y
            + 0x1_0000_0000_0000_0000nat);
    }
}

/// Limbs that spell the same number are the same limbs.
proof fn lemma_limbs_injective(a: Seq<u64>, b: Seq<u64>)
    requires
        limbs_value(a) == limbs_value(b),
    ensures
        a[0] == b[0],
        a[1] == b[1],
        a[2] == b[2],
        a[3] == b[3],
{
    lemma_above_order(
        a[0],
        above(a[1], above(a[2], a[3] as nat)),
        b[0],
        above(b[1], above(b[2], b[3] as nat)),
    );
    lemma_above_order(a[1], above(a[2], a[3] as nat), b[1], above(b[2], b[3] as nat));
    lemma_above_order(a[2], a[3] as nat, b[2], b[3] as nat);
}

/// The limbs of the field's size.
proof fn lemma_modulus_limbs()
    ensures
        scalar_modulus() == above(
            0xffffffff00000001u64,
            above(0x53bda402fffe5bfeu64, above(0x3339d80809a1d805u64, 0x73eda753299d7d48nat)),
        ),
{
    assert(above(0x3339d80809a1d805u64, 0x73eda753299d7d48nat)
        == 0x73eda753299d7d483339d80809a1d805nat);
    assert(above(0x53bda402fffe5bfeu64, 0x73eda753299d7d483339d80809a1d805nat)
        == 0x73eda753299d7d483339d80809a1d80553bda402fffe5bfenat);
    assert(above(0xffffffff00000001u64, 0x73eda753299d7d483339d80809a1d80553bda402fffe5bfenat)
        == 0x73eda753299d7d483339d80809a1d80553bda402fffe5bfeffffffff00000001nat);
    assert(0x73eda753299d7d483339d80809a1d80553bda402fffe5bfeffffffff00000001nat
        == 52435875175126190479447740508185965837690552500527637822603658699938581184513nat);
}

/// The compressed encoding of the neutral element of the first group.
pub open spec fn g1_identity_encoding() -> Seq<u8> {
    Seq::new(48, |i: int| if i == 0 { 0xc0u8 } else { 0u8 })
}

/// The compressed encoding of the generator of the first group.
pub open spec fn g1_generator_encoding() -> Seq<u8> {
    seq![
        0x97u8, 0xf1u8, 0xd3u8, 0xa7u8, 0x31u8, 0x97u8, 0xd7u8, 0x94u8,
        0x26u8, 0x95u8, 0x63u8, 0x8cu8, 0x4fu8, 0xa9u8, 0xacu8, 0x0fu8,
        0xc3u8, 0x68u8, 0x8cu8, 0x4fu8, 0x97u8, 0x74u8, 0xb9u8, 0x05u8,
        0xa1u8, 0x4eu8, 0x3au8, 0x3fu8, 0x17u8, 0x1bu8, 0xacu8, 0x58u8,
        0x6cu8, 0x55u8, 0xe8u8, 0x3fu8, 0xf9u8, 0x7au8, 0x1au8, 0xefu8,
        0xfbu8, 0x3au8, 0xf0u8, 0x0au8, 0xdbu8, 0x22u8, 0xc6u8, 0xbbu8,
    ]
}

/// The compressed encoding of the generator of the second group.
pub open spec fn g2_generator_encoding() -> Seq<u8> {
    seq![
        0x93u8, 0xe0u8, 0x2bu8, 0x60u8, 0x52u8, 0x71u8, 0x9fu8, 0x60u8,
        0x7du8, 0xacu8, 0xd3u8, 0xa0u8, 0x88u8, 0x27u8, 0x4fu8, 0x65u8,
        0x59u8, 0x6bu8, 0xd0u8, 0xd0u8, 0x99u8, 0x20u8, 0xb6u8, 0x1au8,
        0xb5u8, 0xdau8, 0x61u8, 0xbbu8, 0xdcu8, 0x7fu8, 0x50u8, 0x49u8,
        0x33u8, 0x4cu8, 0xf1u8, 0x12u8, 0x13u8, 0x94u8, 0x5du8, 0x57u8,
        0xe5u8, 0xacu8, 0x7du8, 0x05u8, 0x5du8, 0x04u8, 0x2bu8, 0x7eu8,
        0x02u8, 0x4au8, 0xa2u8, 0xb2u8, 0xf0u8, 0x8fu8, 0x0au8, 0x91u8,
        0x26u8, 0x08u8, 0x05u8, 0x27u8, 0x2du8, 0xc5u8, 0x10u8, 0x51u8,
        0xc6u8, 0xe4u8, 0x7au8, 0xd4u8, 0xfau8, 0x40u8, 0x3bu8, 0x02u8,
        0xb4u8, 0x51u8, 0x0bu8, 0x64u8, 0x7au8, 0xe3u8, 0xd1u8, 0x77u8,
        0x0bu8, 0xacu8, 0x03u8, 0x26u8, 0xa8u8, 0x05u8, 0xbbu8, 0xefu8,
        0xd4u8, 0x80u8, 0x56u8, 0xc8u8, 0xc1u8, 0x21u8, 0xbdu8, 0xb8u8,
    ]
}

/// Whether `encoding` decodes to an element of the first group.
pub uninterp spec fn bls_g1_decodes(encoding: Seq<u8>) -> bool;

/// The compressed encoding of the element that `encoding` decodes to.
pub uninterp spec fn bls_g1_recoded(encoding: Seq<u8>) -> Seq<u8>;

/// Whether `encoding` is the compressed encoding of an element of the first
/// group: it decodes, and to an element that is encoded so.
pub open spec fn bls_g1_valid(encoding: Seq<u8>) -> bool {
    bls_g1_decodes(encoding) && bls_g1_recoded(encoding) == encoding
}

/// The encoding of the sum of the elements that `a` and `b` encode.
pub uninterp spec fn bls_g1_add(a: Seq<u8>, b: Seq<u8>) -> Seq<u8>;

/// The encoding of the difference of the elements that `a` and `b` encode.
pub uninterp spec fn bls_g1_sub(a: Seq<u8>, b: Seq<u8>) -> Seq<u8>;

/// The encoding of `scalar` times the element that `point` encodes.
pub uninterp spec fn bls_g1_mul(point: Seq<u8>, scalar: nat) -> Seq<u8>;

/// Whether `encoding` decodes to an element of the second group.
pub uninterp spec fn bls_g2_decodes(encoding: Seq<u8>) -> bool;

/// The compressed encoding of the element that `encoding` decodes to.
pub uninterp spec fn bls_g2_recoded(encoding: Seq<u8>) -> Seq<u8>;

/// Whether `encoding` is the compressed encoding of an element of the second
/// group: it decodes, and to an element that is encoded so.
pub open spec fn bls_g2_valid(encoding: Seq<u8>) -> bool {
    bls_g2_decodes(encoding) && bls_g2_recoded(encoding) == encoding
}

/// The encoding of the difference of the elements that `a` and `b` encode.
pub uninterp spec fn bls_g2_sub(a: Seq<u8>, b: Seq<u8>) -> Seq<u8>;

/// The encoding of `scalar` times the element that `point` encodes.
pub uninterp spec fn bls_g2_mul(point: Seq<u8>, scalar: nat) -> Seq<u8>;

/// The encoding of the pairing of the elements that `p` and `q` encode.
pub uninterp spec fn bls_pairing(p: Seq<u8>, q: Seq<u8>) -> Seq<u8>;

/// An element of the scalar field.
#[derive(Clone, Copy, Debug)]
pub struct Fr {
    limbs: [u64; 4],
}

/// An element of the first source group.
#[derive(Clone, Copy, Debug)]
pub struct G1 {
    bytes: [u8; 48],
}

/// An element of the second source group.
#[derive(Clone, Copy, Debug)]
pub struct G2 {
    bytes: [u8; 96],
}

impl View for Fr {
    type V = nat;

    closed spec fn view(&self) -> nat {
        limbs_value(self.limbs@) % scalar_modulus()
    }
}

impl View for G1 {
    type V = Seq<u8>;

    closed spec fn view(&self) -> Seq<u8> {
        self.bytes@
    }
}

impl View for G2 {
    type V = Seq<u8>;

    closed spec fn view(&self) -> Seq<u8> {
        self.bytes@
    }
}

/// The values of a sequence of field elements.
pub open spec fn fr_values(elements: Seq<Fr>) -> Seq<nat> {
    Seq::new(elements.len(), |i: int| elements[i]@)
}

/// The encodings of a sequence of elements of the first group.
pub open spec fn g1_encodings(points: Seq<G1>) -> Seq<Seq<u8>> {
    Seq::new(points.len(), |i: int| points[i]@)
}

/// The encodings of a sequence of elements of the second group.
pub open spec fn g2_encodings(points: Seq<G2>) -> Seq<Seq<u8>> {
    Seq::new(points.len(), |i: int| points[i]@)
}

/// `Add` of arkworks' field elements: the sum modulo the field's size.
#[verifier::external_body]
fn fr_sum(a: &Fr, b: &Fr) -> (r: [u64; 4])
    ensures
        limbs_value(r@) == (a@ + b@) % scalar_modulus(),
{
    let x = ark_bls12_381::Fr::from_bigint(ark_ff::BigInt::new(a.limbs)).unwrap();
    let y = ark_bls12_381::Fr::from_bigint(ark_ff::BigInt::new(b.limbs)).unwrap();
    (x + y).into_bigint().0
}

/// `Sub` of arkworks' field elements: the difference modulo the field's size.
#[verifier::external_body]
fn fr_difference(a: &Fr, b: &Fr) -> (r: [u64; 4])
    ensures
        limbs_value(r@) == (a@ + scalar_modulus() - b@) % (scalar_modulus() as int),
{
    let x = ark_bls12_381::Fr::from_bigint(ark_ff::BigInt::new(a.limbs)).unwrap();
    let y = ark_bls12_381::Fr::from_bigint(ark_ff::BigInt::new(b.limbs)).unwrap();
    (x - y).into_bigint().0
}

/// `Mul` of arkworks' field elements: the product modulo the field's size.
#[verifier::external_body]
fn fr_product(a: &Fr, b: &Fr) -> (r: [u64; 4])
    ensures
        limbs_value(r@) == (a@ * b@) % scalar_modulus(),
{
    let x = ark_bls12_381::Fr::from_bigint(ark_ff::BigInt::new(a.limbs)).unwrap();
    let y = ark_bls12_381::Fr::from_bigint(ark_ff::BigInt::new(b.limbs)).unwrap();
    (x * y).into_bigint().0
}

/// `Div` of arkworks' field elements, which panics on a zero divisor: `a`
/// times the inverse of `b` modulo the field's size, a prime; times `b` it
/// gives `a` back.
#[verifier::external_body]
fn fr_quotient(a: &Fr, b: &Fr) -> (r: [u64; 4])
    requires
        b@ != 0,
    ensures
        limbs_value(r@) == (a@ * mod_inverse(b@, scalar_modulus())) % scalar_modulus(),
        (limbs_value(r@) * b@) % scalar_modulus() == a@,
{
    let x = ark_bls12_381::Fr::from_bigint(ark_ff::BigInt::new(a.limbs)).unwrap();
    let y = ark_bls12_381::Fr::from_bigint(ark_ff::BigInt::new(b.limbs)).unwrap();
    (x / y).into_bigint().0
}

/// `deserialize_compressed` of arkworks' `G1Affine`, and `serialize_compressed`
/// of what it gives: the encoding of the element that `bytes` decodes to, if
/// they decode to one. The neutral element has more than one encoding that
/// decodes, so what comes back need not be `bytes`.
#[verifier::external_body]
fn g1_recode(bytes: &[u8; 48]) -> (r: Option<[u8; 48]>)
    ensures
        r is Some <==> bls_g1_decodes(bytes@),
        r matches Some(c) ==> c@ == bls_g1_recoded(bytes@),
{
    match ark_bls12_381::G1Affine::deserialize_compressed(&bytes[..]) {
        Ok(p) => {
            let mut out = [0u8; 48];
            p.serialize_compressed(&mut out[..]).unwrap();
            Some(out)
        },
        Err(_) => None,
    }
}

/// `deserialize_compressed` of arkworks' `G2Affine`, and `serialize_compressed`
/// of what it gives: the encoding of the element that `bytes` decodes to, if
/// they decode to one.
#[verifier::external_body]
fn g2_recode(bytes: &[u8; 96]) -> (r: Option<[u8; 96]>)
    ensures
        r is Some <==> bls_g2_decodes(bytes@),
        r matches Some(c) ==> c@ == bls_g2_recoded(bytes@),
{
    match ark_bls12_381::G2Affine::deserialize_compressed(&bytes[..]) {
        Ok(p) => {
            let mut out = [0u8; 96];
            p.serialize_compressed(&mut out[..]).unwrap();
            Some(out)
        },
        Err(_) => None,
    }
}

/// `Zero::zero` of arkworks' `G1Projective`, compressed: the neutral element,
/// whose encoding is the byte `0xc0` and forty-seven zero bytes.
#[verifier::external_body]
fn g1_encoded_identity() -> (r: [u8; 48])
    ensures
        r@ == g1_identity_encoding(),
        bls_g1_valid(r@),
{
    let mut out = [0u8; 48];
    ark_bls12_381::G1Projective::zero().into_affine().serialize_compressed(&mut out[..]).unwrap();
    out
}

/// `Group::generator` of arkworks' `G1Projective`, compressed.
#[verifier::external_body]
fn g1_encoded_generator() -> (r: [u8; 48])
    ensures
        r@ == g1_generator_encoding(),
        bls_g1_valid(r@),
{
    let mut out = [0u8; 48];
    ark_bls12_381::G1Projective::generator().into_affine().serialize_compressed(
        &mut out[..],
    ).unwrap();
    out
}

/// `Group::generator` of arkworks' `G2Projective`, compressed.
#[verifier::external_body]
fn g2_encoded_generator() -> (r: [u8; 96])
    ensures
        r@ == g2_generator_encoding(),
        bls_g2_valid(r@),
{
    let mut out = [0u8; 96];
    ark_bls12_381::G2Projective::generator().into_affine().serialize_compressed(
        &mut out[..],
    ).unwrap();
    out
}

/// `Add` of arkworks' `G1Projective`, on the elements that `a` and `b` hold,
/// compressed again. Every `G1` holds a valid encoding, so the decoding
/// succeeds.
#[verifier::external_body]
fn g1_sum(a: &G1, b: &G1) -> (r: [u8; 48])
    ensures
        r@ == bls_g1_add(a@, b@),
        bls_g1_valid(r@),
{
    let p = ark_bls12_381::G1Affine::deserialize_compressed_unchecked(&a.bytes[..]).unwrap();
    let q = ark_bls12_381::G1Affine::deserialize_compressed_unchecked(&b.bytes[..]).unwrap();
    let sum = ark_bls12_381::G1Projective::from(p) + ark_bls12_381::G1Projective::from(q);
    let mut out = [0u8; 48];
    sum.into_affine().serialize_compressed(&mut out[..]).unwrap();
    out
}

/// `Sub` of arkworks' `G1Projective`, on the elements that `a` and `b` hold,
/// compressed again.
#[verifier::external_body]
fn g1_difference(a: &G1, b: &G1) -> (r: [u8; 48])
    ensures
        r@ == bls_g1_sub(a@, b@),
        bls_g1_valid(r@),
{
    let p = ark_bls12_381::G1Affine::deserialize_compressed_unchecked(&a.bytes[..]).unwrap();
    let q = ark_bls12_381::G1Affine::deserialize_compressed_unchecked(&b.bytes[..]).unwrap();
    let diff = ark_bls12_381::G1Projective::from(p) - ark_bls12_381::G1Projective::from(q);
    let mut out = [0u8; 48];
    diff.into_affine().serialize_compressed(&mut out[..]).unwrap();
    out
}

/// `Mul` of arkworks' `G1Projective` by a field element, on the element that
/// `p` holds, compressed again.
#[verifier::external_body]
fn g1_product(p: &G1, k: &Fr) -> (r: [u8; 48])
    ensures
        r@ == bls_g1_mul(p@, k@),
        bls_g1_valid(r@),
{
    let q = ark_bls12_381::G1Affine::deserialize_compressed_unchecked(&p.bytes[..]).unwrap();
    let s = ark_bls12_381::Fr::from_bigint(ark_ff::BigInt::new(k.limbs)).unwrap();
    let mut out = [0u8; 48];
    (ark_bls12_381::G1Projective::from(q) * s).into_affine().serialize_compressed(
        &mut out[..],
    ).unwrap();
    out
}

/// `Sub` of arkworks' `G2Projective`, on the elements that `a` and `b` hold,
/// compressed again.
#[verifier::external_body]
fn g2_difference(a: &G2, b: &G2) -> (r: [u8; 96])
    ensures
        r@ == bls_g2_sub(a@, b@),
        bls_g2_valid(r@),
{
    let p = ark_bls12_381::G2Affine::deserialize_compressed_unchecked(&a.bytes[..]).unwrap();
    let q = ark_bls12_381::G2Affine::deserialize_compressed_unchecked(&b.bytes[..]).unwrap();
    let diff = ark_bls12_381::G2Projective::from(p) - ark_bls12_381::G2Projective::from(q);
    let mut out = [0u8; 96];
    diff.into_affine().serialize_compressed(&mut out[..]).unwrap();
    out
}

/// `Mul` of arkworks' `G2Projective` by a field element, on the element that
/// `p` holds, compressed again.
#[verifier::external_body]
fn g2_product(p: &G2, k: &Fr) -> (r: [u8; 96])
    ensures
        r@ == bls_g2_mul(p@, k@),
        bls_g2_valid(r@),
{
    let q = ark_bls12_381::G2Affine::deserialize_compressed_unchecked(&p.bytes[..]).unwrap();
    let s = ark_bls12_381::Fr::from_bigint(ark_ff::BigInt::new(k.limbs)).unwrap();
    let mut out = [0u8; 96];
    (ark_bls12_381::G2Projective::from(q) * s).into_affine().serialize_compressed(
        &mut out[..],
    ).unwrap();
    out
}

/// `Pairing::pairing` of arkworks' `Bls12_381`, on the elements that `p` and
/// `q` hold: the pairing, in its compressed encoding.
#[verifier::external_body]
fn pairing_encoded(p: &G1, q: &G2) -> (r: Vec<u8>)
    ensures
        r@ == bls_pairing(p@, q@),
{
    let a = ark_bls12_381::G1Affine::deserialize_compressed_unchecked(&p.bytes[..]).unwrap();
    let b = ark_bls12_381::G2Affine::deserialize_compressed_unchecked(&q.bytes[..]).unwrap();
    let mut out: Vec<u8> = Vec::new();
    ark_bls12_381::Bls12_381::pairing(a, b).serialize_compressed(&mut out).unwrap();
    out
}

impl Fr {
    #[verifier::type_invariant]
    spec fn reduced(self) -> bool {
        limbs_value(self.limbs@) < scalar_modulus()
    }

    /// The value of a field element is below the size of the field.
    pub proof fn lemma_below_modulus(self)
        ensures
            self@ < scalar_modulus(),
    {
    }

    /// The field element that `x` stands for.
    pub fn from_u64(x: u64) -> (e: Fr)
        ensures
            e@ == x,
    {
        let limbs: [u64; 4] = [x, 0, 0, 0];
        proof {
            assert(above(0u64, 0nat) == 0);
            assert(limbs_value(limbs@) == x);
            lemma_small_mod(x as nat, scalar_modulus());
        }
        Fr { limbs }
    }

    /// The field element zero.
    pub fn zero() -> (e: Fr)
        ensures
            e@ == 0,
    {
        Fr::from_u64(0)
    }

    /// The field element one.
    pub fn one() -> (e: Fr)
        ensures
            e@ == 1,
    {
        Fr::from_u64(1)
    }

    /// The field element with the limbs `limbs`, the least significant
    /// first, if they spell a number below the field's size.
    pub fn from_limbs(limbs: [u64; 4]) -> (e: Option<Fr>)
        ensures
            e is Some <==> limbs_value(limbs@) < scalar_modulus(),
            e matches Some(f) ==> f@ == limbs_value(limbs@),
    {
        let below = if limbs[3] != 0x73eda753299d7d48 {
            limbs[3] < 0x73eda753299d7d48
        } else if limbs[2] != 0x3339d80809a1d805 {
            limbs[2] < 0x3339d80809a1d805
        } else if limbs[1] != 0x53bda402fffe5bfe {
            limbs[1] < 0x53bda402fffe5bfe
        } else {
            limbs[0] < 0xffffffff00000001
        };
        proof {
            lemma_modulus_limbs();
            let m3 = 0x73eda753299d7d48nat;
            let m2 = above(0x3339d80809a1d805u64, m3);
            let m1 = above(0x53bda402fffe5bfeu64, m2);
            let v3 = limbs[3] as nat;
            let v2 = above(limbs[2], v3);
            let v1 = above(limbs[1], v2);
            lemma_above_order(limbs[2], v3, 0x3339d80809a1d805u64, m3);
            lemma_above_order(limbs[1], v2, 0x53bda402fffe5bfeu64, m2);
            lemma_above_order(limbs[0], v1, 0xffffffff00000001u64, m1);
            assert(below == (limbs_value(limbs@) < scalar_modulus()));
            if below {
                lemma_small_mod(limbs_value(limbs@), scalar_modulus());
            }
        }
        if below {
            Some(Fr { limbs })
        } else {
            None
        }
    }

    /// The limbs, the least significant first.
    pub fn to_limbs(&self) -> (limbs: [u64; 4])
        ensures
            limbs_value(limbs@) == self@,
    {
        proof {
            use_type_invariant(self);
            lemma_small_mod(limbs_value(self.limbs@), scalar_modulus());
        }
        self.limbs
    }

    /// The sum.
    pub fn add(&self, other: &Fr) -> (e: Fr)
        ensures
            e@ == (self@ + other@) % scalar_modulus(),
    {
        Fr { limbs: fr_sum(self, other) }
    }

    /// The difference.
    pub fn sub(&self, other: &Fr) -> (e: Fr)
        ensures
            e@ == (self@ + scalar_modulus() - other@) % (scalar_modulus() as int),
    {
        Fr { limbs: fr_difference(self, other) }
    }

    /// The product.
    pub fn mul(&self, other: &Fr) -> (e: Fr)
        ensures
            e@ == (self@ * other@) % scalar_modulus(),
    {
        Fr { limbs: fr_product(self, other) }
    }

    /// The quotient, unless `other` is zero.
    pub fn div(&self, other: &Fr) -> (quotient: Option<Fr>)
        ensures
            quotient is Some <==> other@ != 0,
            quotient matches Some(e) ==> e@ == (self@ * mod_inverse(other@, scalar_modulus()))
                % scalar_modulus() && (e@ * other@) % scalar_modulus() == self@,
    {
        if other.is_zero() {
            None
        } else {
            Some(Fr { limbs: fr_quotient(self, other) })
        }
    }

    /// Whether this is the field element zero.
    pub fn is_zero(&self) -> (zero: bool)
        ensures
            zero == (self@ == 0),
    {
        proof {
            use_type_invariant(self);
            lemma_small_mod(limbs_value(self.limbs@), scalar_modulus());
            let zeros: Seq<u64> = seq![0u64, 0u64, 0u64, 0u64];
            assert(above(0u64, 0nat) == 0);
            assert(limbs_value(zeros) == 0);
            if self@ == 0 {
                lemma_limbs_injective(self.limbs@, zeros);
            }
        }
        self.limbs[0] == 0 && self.limbs[1] == 0 && self.limbs[2] == 0 && self.limbs[3] == 0
    }

    /// Whether two field elements are the same.
    pub fn equals(&self, other: &Fr) -> (same: bool)
        ensures
            same == (self@ == other@),
    {
        proof {
            use_type_invariant(self);
            use_type_invariant(other);
            lemma_small_mod(limbs_value(self.limbs@), scalar_modulus());
            lemma_small_mod(limbs_value(other.limbs@), scalar_modulus());
            if self@ == other@ {
                lemma_limbs_injective(self.limbs@, other.limbs@);
            }
        }
        self.limbs[0] == other.limbs[0] && self.limbs[1] == other.limbs[1] && self.limbs[2]
            == other.limbs[2] && self.limbs[3] == other.limbs[3]
    }
}

impl G1 {
    #[verifier::type_invariant]
    spec fn valid(self) -> bool {
        bls_g1_valid(self.bytes@)
    }

    /// The element that `bytes` encodes, if they encode one.
    pub fn from_bytes(bytes: [u8; 48]) -> (point: Option<G1>)
        ensures
            point is Some <==> bls_g1_valid(bytes@),
            point matches Some(p) ==> p@ == bytes@,
    {
        match g1_recode(&bytes) {
            Some(canonical) => {
                if crate::encoding::bytes_equal(canonical.as_slice(), bytes.as_slice()) {
                    Some(G1 { bytes })
                } else {
                    None
                }
            },
            None => None,
        }
    }

    /// The compressed encoding.
    pub fn to_bytes(&self) -> (bytes: [u8; 48])
        ensures
            bytes@ == self@,
            bls_g1_valid(self@),
    {
        proof {
            use_type_invariant(self);
        }
        self.bytes
    }

    /// The neutral element.
    pub fn identity() -> (p: G1)
        ensures
            p@ == g1_identity_encoding(),
    {
        G1 { bytes: g1_encoded_identity() }
    }

    /// The generator.
    pub fn generator() -> (p: G1)
        ensures
            p@ == g1_generator_encoding(),
    {
        G1 { bytes: g1_encoded_generator() }
    }

    /// The sum of two elements.
    pub fn add(&self, other: &G1) -> (p: G1)
        ensures
            p@ == bls_g1_add(self@, other@),
    {
        G1 { bytes: g1_sum(self, other) }
    }

    /// The difference of two elements.
    pub fn sub(&self, other: &G1) -> (p: G1)
        ensures
            p@ == bls_g1_sub(self@, other@),
    {
        G1 { bytes: g1_difference(self, other) }
    }

    /// The element, `k` times.
    pub fn mul(&self, k: &Fr) -> (p: G1)
        ensures
            p@ == bls_g1_mul(self@, k@),
    {
        G1 { bytes: g1_product(self, k) }
    }

    /// Whether two elements are the same.
    pub fn equals(&self, other: &G1) -> (same: bool)
        ensures
            same == (self@ == other@),
    {
        crate::encoding::bytes_equal(self.bytes.as_slice(), other.bytes.as_slice())
    }
}

impl G2 {
    #[verifier::type_invariant]
    spec fn valid(self) -> bool {
        bls_g2_valid(self.bytes@)
    }

    /// The element that `bytes` encodes, if they encode one.
    pub fn from_bytes(bytes: [u8; 96]) -> (point: Option<G2>)
        ensures
            point is Some <==> bls_g2_valid(bytes@),
            point matches Some(p) ==> p@ == bytes@,
    {
        match g2_recode(&bytes) {
            Some(canonical) => {
                if crate::encoding::bytes_equal(canonical.as_slice(), bytes.as_slice()) {
                    Some(G2 { bytes })
                } else {
                    None
                }
            },
            None => None,
        }
    }

    /// The compressed encoding.
    pub fn to_bytes(&self) -> (bytes: [u8; 96])
        ensures
            bytes@ == self@,
            bls_g2_valid(self@),
    {
        proof {
            use_type_invariant(self);
        }
        self.bytes
    }

    /// The generator.
    pub fn generator() -> (p: G2)
        ensures
            p@ == g2_generator_encoding(),
    {
        G2 { bytes: g2_encoded_generator() }
    }

    /// The difference of two elements.
    pub fn sub(&self, other: &G2) -> (p: G2)
        ensures
            p@ == bls_g2_sub(self@, other@),
    {
        G2 { bytes: g2_difference(self, other) }
    }

    /// The element, `k` times.
    pub fn mul(&self, k: &Fr) -> (p: G2)
        ensures
            p@ == bls_g2_mul(self@, k@),
    {
        G2 { bytes: g2_product(self, k) }
    }
}

/// The pairing of `p` and `q`, in its compressed encoding.
pub fn pairing(p: &G1, q: &G2) -> (e: Vec<u8>)
    ensures
        e@ == bls_pairing(p@, q@),
{
    pairing_encoded(p, q)
}

} // verus!
