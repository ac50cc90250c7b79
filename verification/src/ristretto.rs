//! Scalars and points of the Ristretto group, held as their canonical
//! encodings. The arithmetic is curve25519-dalek's.

use crate::encoding::{bytes_equal, le_value, lemma_le_value_injective, lemma_le_value_zero};
use crate::poly::mod_inverse;
use vstd::arithmetic::div_mod::lemma_small_mod;
use vstd::prelude::*;

verus! {

/// The prime order of the Ristretto group: 2^252 + 27742317777372353535851937790883648493.
pub open spec fn group_order() -> nat {
    7237005577332262213973186563042994240857116359379907606001950938285454250989nat
}

/// Thirty-two zero bytes: the encoding of the group's neutral element.
pub open spec fn identity_encoding() -> Seq<u8> {
    Seq::new(32, |i: int| 0u8)
}

/// The encoding of the Ristretto basepoint.
pub open spec fn basepoint_encoding() -> Seq<u8> {
    seq![
        0xe2u8, 0xf2u8, 0xaeu8, 0x0au8, 0x6au8, 0xbcu8, 0x4eu8, 0x71u8,
        0xa8u8, 0x84u8, 0xa9u8, 0x61u8, 0xc5u8, 0x00u8, 0x51u8, 0x5fu8,
        0x58u8, 0xe3u8, 0x0bu8, 0x6au8, 0xa5u8, 0x82u8, 0xddu8, 0x8du8,
        0xb6u8, 0xa6u8, 0x59u8, 0x45u8, 0xe0u8, 0x8du8, 0x2du8, 0x76u8,
    ]
}

/// Whether `encoding` decodes to a point of the group.
pub uninterp spec fn ristretto_valid(encoding: Seq<u8>) -> bool;

/// The encoding of the sum of the points that `a` and `b` encode.
pub uninterp spec fn ristretto_add(a: Seq<u8>, b: Seq<u8>) -> Seq<u8>;

/// The encoding of `scalar` times the point that `point` encodes.
pub uninterp spec fn ristretto_mul(point: Seq<u8>, scalar: nat) -> Seq<u8>;

/// An integer modulo the group order, as thirty-two little-endian bytes.
#[derive(Clone, Copy, Debug)]
pub struct Scalar {
    bytes: [u8; 32],
}

/// A point of the group, as its thirty-two byte encoding.
#[derive(Clone, Copy, Debug)]
pub struct Point {
    bytes: [u8; 32],
}

impl View for Scalar {
    type V = nat;

    closed spec fn view(&self) -> nat {
        le_value(self.bytes@) % group_order()
    }
}

impl View for Point {
    type V = Seq<u8>;

    closed spec fn view(&self) -> Seq<u8> {
        self.bytes@
    }
}

/// The values of a sequence of scalars.
pub open spec fn scalar_values(scalars: Seq<Scalar>) -> Seq<nat> {
    Seq::new(scalars.len(), |i: int| scalars[i]@)
}

/// The encodings of a sequence of points.
pub open spec fn encodings(points: Seq<Point>) -> Seq<Seq<u8>> {
    Seq::new(points.len(), |i: int| points[i]@)
}

/// The sum of the first `count` products `scalars[i] * points[i]`, added up
/// from the neutral element in the order of the indices.
pub open spec fn msm_prefix(scalars: Seq<nat>, points: Seq<Seq<u8>>, count: nat) -> Seq<u8>
    decreases count,
{
    if count == 0 {
        identity_encoding()
    } else {
        ristretto_add(
            msm_prefix(scalars, points, (count - 1) as nat),
            ristretto_mul(points[count - 1], scalars[count - 1]),
        )
    }
}

/// `curve25519_dalek::scalar::Scalar::from_bytes_mod_order`: the canonical
/// encoding of the 256-bit little-endian number `bytes`, reduced modulo the
/// group order.
#[verifier::external_body]
fn reduce_mod_order(bytes: &[u8; 32]) -> (r: [u8; 32])
    ensures
        le_value(r@) == le_value(bytes@) % group_order(),
{
    curve25519_dalek::scalar::Scalar::from_bytes_mod_order(*bytes).to_bytes()
}

/// `Add` of curve25519-dalek's scalars: the sum modulo the group order.
#[verifier::external_body]
fn scalar_sum(a: &Scalar, b: &Scalar) -> (r: [u8; 32])
    ensures
        le_value(r@) == (a@ + b@) % group_order(),
{
    let x = curve25519_dalek::scalar::Scalar::from_bytes_mod_order(a.bytes);
    let y = curve25519_dalek::scalar::Scalar::from_bytes_mod_order(b.bytes);
    (x + y).to_bytes()
}

/// `Mul` of curve25519-dalek's scalars: the product modulo the group order.
#[verifier::external_body]
fn scalar_product(a: &Scalar, b: &Scalar) -> (r: [u8; 32])
    ensures
        le_value(r@) == (a@ * b@) % group_order(),
{
    let x = curve25519_dalek::scalar::Scalar::from_bytes_mod_order(a.bytes);
    let y = curve25519_dalek::scalar::Scalar::from_bytes_mod_order(b.bytes);
    (x * y).to_bytes()
}

/// `curve25519_dalek::scalar::Scalar::invert`, which asks for a scalar other
/// than zero: the multiplicative inverse modulo the group order, a prime.
#[verifier::external_body]
fn scalar_inverse(a: &Scalar) -> (r: [u8; 32])
    requires
        a@ != 0,
    ensures
        le_value(r@) == mod_inverse(a@, group_order()),
        le_value(r@) < group_order(),
        (a@ * le_value(r@)) % group_order() == 1,
{
    curve25519_dalek::scalar::Scalar::from_bytes_mod_order(a.bytes).invert().to_bytes()
}

/// `curve25519_dalek::ristretto::CompressedRistretto::decompress`: whether
/// `bytes` decodes to a point.
#[verifier::external_body]
fn decodes(bytes: &[u8; 32]) -> (r: bool)
    ensures
        r == ristretto_valid(bytes@),
{
    curve25519_dalek::ristretto::CompressedRistretto(*bytes).decompress().is_some()
}

/// `Identity::identity` of curve25519-dalek's Ristretto point, compressed:
/// the neutral element, which is encoded as thirty-two zero bytes.
#[verifier::external_body]
fn encoded_identity() -> (r: [u8; 32])
    ensures
        r@ == identity_encoding(),
        ristretto_valid(r@),
{
    let p: curve25519_dalek::ristretto::RistrettoPoint =
        curve25519_dalek::traits::Identity::identity();
    p.compress().to_bytes()
}

/// `curve25519_dalek::constants::RISTRETTO_BASEPOINT_POINT`, compressed: the
/// basepoint, whose encoding the crate lists as
/// `RISTRETTO_BASEPOINT_COMPRESSED`.
#[verifier::external_body]
fn encoded_basepoint() -> (r: [u8; 32])
    ensures
        r@ == basepoint_encoding(),
        ristretto_valid(r@),
{
    curve25519_dalek::constants::RISTRETTO_BASEPOINT_POINT.compress().to_bytes()
}

/// `Add` of curve25519-dalek's Ristretto points, on the points that `a` and
/// `b` hold, compressed again. Every `Point` holds a valid encoding, so the
/// decoding succeeds.
#[verifier::external_body]
fn point_sum(a: &Point, b: &Point) -> (r: [u8; 32])
    ensures
        r@ == ristretto_add(a@, b@),
        ristretto_valid(r@),
{
    let p = curve25519_dalek::ristretto::CompressedRistretto(a.bytes).decompress().unwrap();
    let q = curve25519_dalek::ristretto::CompressedRistretto(b.bytes).decompress().unwrap();
    (p + q).compress().to_bytes()
}

/// `Mul<Scalar>` of curve25519-dalek's Ristretto points, on the point that
/// `p` holds, compressed again.
#[verifier::external_body]
fn point_product(p: &Point, k: &Scalar) -> (r: [u8; 32])
    ensures
        r@ == ristretto_mul(p@, k@),
        ristretto_valid(r@),
{
    let q = curve25519_dalek::ristretto::CompressedRistretto(p.bytes).decompress().unwrap();
    let s = curve25519_dalek::scalar::Scalar::from_bytes_mod_order(k.bytes);
    (q * s).compress().to_bytes()
}

/// `MultiscalarMul::multiscalar_mul` of curve25519-dalek's Ristretto points,
/// which asks for as many scalars as points: the sum of the products
/// `scalars[i] * points[i]`, compressed.
#[verifier::external_body]
fn multiscalar_product(scalars: &Vec<Scalar>, points: &Vec<Point>) -> (r: [u8; 32])
    requires
        scalars.len() == points.len(),
    ensures
        r@ == msm_prefix(scalar_values(scalars@), encodings(points@), scalars.len() as nat),
        ristretto_valid(r@),
{
    let s = scalars.iter().map(|k| curve25519_dalek::scalar::Scalar::from_bytes_mod_order(k.bytes));
    let p = points.iter().map(
        |q| curve25519_dalek::ristretto::CompressedRistretto(q.bytes).decompress().unwrap(),
    );
    let sum = <curve25519_dalek::ristretto::RistrettoPoint
        as curve25519_dalek::traits::MultiscalarMul>::multiscalar_mul(s, p);
    sum.compress().to_bytes()
}

impl Scalar {
    #[verifier::type_invariant]
    spec fn reduced(self) -> bool {
        le_value(self.bytes@) < group_order()
    }

    /// The value of a scalar is below the group order.
    pub proof fn lemma_below_order(self)
        ensures
            self@ < group_order(),
    {
    }

    /// The scalar zero.
    pub fn zero() -> (s: Scalar)
        ensures
            s@ == 0,
    {
        let bytes = [0u8; 32];
        proof {
            lemma_le_value_zero(bytes@);
        }
        Scalar { bytes }
    }

    /// The scalar one.
    pub fn one() -> (s: Scalar)
        ensures
            s@ == 1,
    {
        Scalar::from_u64(1)
    }

    /// The scalar that `x` stands for.
    pub fn from_u64(x: u64) -> (s: Scalar)
        ensures
            s@ == x,
    {
        let mut bytes = [0u8; 32];
        let mut k: usize = 7;
        let mut unit: u64 = 0x0100_0000_0000_0000;
        assert(x / 0x0100_0000_0000_0000u64 < 256) by (bit_vector);
        let ghost zeros = bytes@;
        bytes[7] = (x / unit) as u8;
        proof {
            // the bytes above the eighth are zero, and so is what they spell
            assert(bytes@.skip(8) =~= zeros.skip(8));
            lemma_le_value_zero(bytes@.skip(8));
            assert(bytes@.skip(7).drop_first() =~= bytes@.skip(8));
        }
        while k > 0
            invariant
                (k == 7 && unit == 0x0100_0000_0000_0000) || (k == 6 && unit
                    == 0x0001_0000_0000_0000) || (k == 5 && unit == 0x0000_0100_0000_0000) || (k
                    == 4 && unit == 0x0000_0001_0000_0000) || (k == 3 && unit
                    == 0x0000_0000_0100_0000) || (k == 2 && unit == 0x0000_0000_0001_0000) || (k
                    == 1 && unit == 0x0000_0000_0000_0100) || (k == 0 && unit == 1),
                le_value(bytes@.skip(k as int)) == x / unit,
            decreases k,
        {
            let ghost before = bytes@;
            let ghost above = unit;
            unit = unit / 256;
            k -= 1;
            bytes[k] = ((x / unit) % 256) as u8;
            proof {
                assert(bytes@.skip(k as int).drop_first() =~= before.skip(k + 1));
                assert(above == unit * 256);
                assert(x / above == (x / unit) / 256) by {
                    vstd::arithmetic::div_mod::lemma_div_denominator(
                        x as int,
                        unit as int,
                        256,
                    );
                }
            }
        }
        proof {
            assert(bytes@.skip(0) =~= bytes@);
            lemma_small_mod(x as nat, group_order());
        }
        Scalar { bytes }
    }

    /// The scalar that the 256-bit little-endian number `bytes` stands for.
    pub fn from_bytes_mod_order(bytes: [u8; 32]) -> (s: Scalar)
        ensures
            s@ == le_value(bytes@) % group_order(),
    {
        Scalar { bytes: reduce_mod_order(&bytes) }
    }

    /// The canonical little-endian encoding.
    pub fn to_bytes(&self) -> (bytes: [u8; 32])
        ensures
            le_value(bytes@) == self@,
    {
        proof {
            use_type_invariant(self);
        }
        self.bytes
    }

    /// The sum modulo the group order.
    pub fn add(&self, other: &Scalar) -> (s: Scalar)
        ensures
            s@ == (self@ + other@) % group_order(),
    {
        Scalar { bytes: scalar_sum(self, other) }
    }

    /// The product modulo the group order.
    pub fn mul(&self, other: &Scalar) -> (s: Scalar)
        ensures
            s@ == (self@ * other@) % group_order(),
    {
        Scalar { bytes: scalar_product(self, other) }
    }

    /// The multiplicative inverse, which every scalar but zero has.
    pub fn invert(&self) -> (inverse: Option<Scalar>)
        ensures
            inverse is Some <==> self@ != 0,
            inverse matches Some(s) ==> s@ == mod_inverse(self@, group_order())
                && (self@ * s@) % group_order() == 1,
    {
        if self.is_zero() {
            None
        } else {
            Some(Scalar { bytes: scalar_inverse(self) })
        }
    }

    /// Whether this is the scalar zero.
    pub fn is_zero(&self) -> (zero: bool)
        ensures
            zero == (self@ == 0),
    {
        let zeros = [0u8; 32];
        proof {
            use_type_invariant(self);
            lemma_small_mod(le_value(self.bytes@), group_order());
            lemma_le_value_zero(zeros@);
            lemma_le_value_zero(self.bytes@);
        }
        let same = bytes_equal(self.bytes.as_slice(), zeros.as_slice());
        proof {
            if !same && self@ == 0 {
                assert(self.bytes@ =~= zeros@);
            }
        }
        same
    }

    /// Whether two scalars are the same.
    pub fn equals(&self, other: &Scalar) -> (same: bool)
        ensures
            same == (self@ == other@),
    {
        let same = bytes_equal(self.bytes.as_slice(), other.bytes.as_slice());
        proof {
            use_type_invariant(self);
            use_type_invariant(other);
            lemma_small_mod(le_value(self.bytes@), group_order());
            lemma_small_mod(le_value(other.bytes@), group_order());
            if self@ == other@ {
                lemma_le_value_injective(self.bytes@, other.bytes@);
            }
        }
        same
    }
}

impl Point {
    #[verifier::type_invariant]
    spec fn valid(self) -> bool {
        ristretto_valid(self.bytes@)
    }

    /// The point that `bytes` encodes, if they encode one.
    pub fn from_bytes(bytes: [u8; 32]) -> (point: Option<Point>)
        ensures
            point is Some <==> ristretto_valid(bytes@),
            point matches Some(p) ==> p@ == bytes@,
    {
        if decodes(&bytes) {
            Some(Point { bytes })
        } else {
            None
        }
    }

    /// The encoding.
    pub fn to_bytes(&self) -> (bytes: [u8; 32])
        ensures
            bytes@ == self@,
            ristretto_valid(self@),
    {
        proof {
            use_type_invariant(self);
        }
        self.bytes
    }

    /// The neutral element.
    pub fn identity() -> (p: Point)
        ensures
            p@ == identity_encoding(),
    {
        Point { bytes: encoded_identity() }
    }

    /// The basepoint.
    pub fn basepoint() -> (p: Point)
        ensures
            p@ == basepoint_encoding(),
    {
        Point { bytes: encoded_basepoint() }
    }

    /// The sum of two points.
    pub fn add(&self, other: &Point) -> (p: Point)
        ensures
            p@ == ristretto_add(self@, other@),
    {
        Point { bytes: point_sum(self, other) }
    }

    /// The point, `k` times.
    pub fn mul(&self, k: &Scalar) -> (p: Point)
        ensures
            p@ == ristretto_mul(self@, k@),
    {
        Point { bytes: point_product(self, k) }
    }

    /// Whether two points are the same.
    pub fn equals(&self, other: &Point) -> (same: bool)
        ensures
            same == (self@ == other@),
    {
        bytes_equal(self.bytes.as_slice(), other.bytes.as_slice())
    }
}

/// The sum of the products `scalars[i] * points[i]`, over two vectors of one
/// length.
pub(crate) fn multiscalar_mul(scalars: &Vec<Scalar>, points: &Vec<Point>) -> (p: Point)
    requires
        scalars.len() == points.len(),
    ensures
        p@ == msm_prefix(scalar_values(scalars@), encodings(points@), scalars.len() as nat),
{
    Point { bytes: multiscalar_product(scalars, points) }
}

} // verus!
