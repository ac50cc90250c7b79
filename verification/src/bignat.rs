//! Natural numbers of any size, held as big-endian bytes. The arithmetic is
//! num-bigint's.

use vstd::arithmetic::power::pow;
use vstd::prelude::*;

verus! {

/// The number that `bytes` spells in base 256, most significant byte first.
pub open spec fn be_value(bytes: Seq<u8>) -> nat
    decreases bytes.len(),
{
    if bytes.len() == 0 {
        0
    } else {
        256 * be_value(bytes.drop_last()) + (bytes.last() as nat)
    }
}

/// The shortest big-endian spelling of `n`; a single zero byte for zero.
pub open spec fn be_bytes(n: nat) -> Seq<u8>
    decreases n,
{
    if n < 256 {
        seq![n as u8]
    } else {
        be_bytes(n / 256).push((n % 256) as u8)
    }
}

/// The number of bits of `n`: zero for zero, and else one more than the
/// position of the highest bit that is set.
pub open spec fn bit_length(n: nat) -> nat
    decreases n,
{
    if n == 0 {
        0
    } else {
        1 + bit_length(n / 2)
    }
}

/// A natural number.
#[derive(Clone, Debug)]
pub struct BigNat {
    bytes: Vec<u8>,
}

impl View for BigNat {
    type V = nat;

    closed spec fn view(&self) -> nat {
        be_value(self.bytes@)
    }
}

/// The values of a sequence of numbers.
pub open spec fn big_values(numbers: Seq<BigNat>) -> Seq<nat> {
    Seq::new(numbers.len(), |i: int| numbers[i]@)
}

/// `num_bigint::BigUint::to_bytes_be`: the shortest big-endian spelling, a
/// single zero byte for zero.
#[verifier::external_body]
fn big_spelling(a: &BigNat) -> (r: Vec<u8>)
    ensures
        r@ == be_bytes(a@),
{
    num_bigint::BigUint::from_bytes_be(&a.bytes).to_bytes_be()
}

/// `Add` of num-bigint's `BigUint`: the sum.
#[verifier::external_body]
fn big_sum(a: &BigNat, b: &BigNat) -> (r: Vec<u8>)
    ensures
        be_value(r@) == a@ + b@,
{
    let x = num_bigint::BigUint::from_bytes_be(&a.bytes);
    let y = num_bigint::BigUint::from_bytes_be(&b.bytes);
    (x + y).to_bytes_be()
}

/// `Mul` of num-bigint's `BigUint`: the product.
#[verifier::external_body]
fn big_product(a: &BigNat, b: &BigNat) -> (r: Vec<u8>)
    ensures
        be_value(r@) == a@ * b@,
{
    let x = num_bigint::BigUint::from_bytes_be(&a.bytes);
    let y = num_bigint::BigUint::from_bytes_be(&b.bytes);
    (x * y).to_bytes_be()
}

/// `num_bigint::BigUint::modpow`, which panics on the modulus zero: the
/// power, modulo `modulus`.
#[verifier::external_body]
fn big_modpow(base: &BigNat, exponent: &BigNat, modulus: &BigNat) -> (r: Vec<u8>)
    requires
        modulus@ != 0,
    ensures
        be_value(r@) == pow(base@ as int, exponent@) % (modulus@ as int),
{
    let b = num_bigint::BigUint::from_bytes_be(&base.bytes);
    let e = num_bigint::BigUint::from_bytes_be(&exponent.bytes);
    let m = num_bigint::BigUint::from_bytes_be(&modulus.bytes);
    b.modpow(&e, &m).to_bytes_be()
}

/// `Shl<usize>` of num-bigint's `BigUint`: the number times two to the power
/// `bits`.
#[verifier::external_body]
fn big_shifted(a: &BigNat, bits: usize) -> (r: Vec<u8>)
    ensures
        be_value(r@) == a@ * pow(2, bits as nat),
{
    (num_bigint::BigUint::from_bytes_be(&a.bytes) << bits).to_bytes_be()
}

/// `PartialOrd` of num-bigint's `BigUint`: whether `a` is below `b`.
#[verifier::external_body]
fn big_below(a: &BigNat, b: &BigNat) -> (r: bool)
    ensures
        r == (a@ < b@),
{
    num_bigint::BigUint::from_bytes_be(&a.bytes) < num_bigint::BigUint::from_bytes_be(&b.bytes)
}

/// `num_bigint::BigUint::bits`: the fewest bits that spell the number.
#[verifier::external_body]
fn big_bits(a: &BigNat) -> (r: u64)
    ensures
        r == bit_length(a@),
{
    num_bigint::BigUint::from_bytes_be(&a.bytes).bits()
}

impl BigNat {
    /// The number that `bytes` spells, most significant byte first.
    pub fn from_bytes_be(bytes: &[u8]) -> (n: BigNat)
        ensures
            n@ == be_value(bytes@),
    {
        BigNat { bytes: vstd::slice::slice_to_vec(bytes) }
    }

    /// The number `x`.
    pub fn from_u64(x: u64) -> (n: BigNat)
        ensures
            n@ == x,
    {
        let mut bytes: Vec<u8> = Vec::new();
        let mut unit: u64 = 0x0100_0000_0000_0000;
        assert(x / 0x0100_0000_0000_0000u64 < 256) by (bit_vector);
        bytes.push((x / unit) as u8);
        proof {
            assert(bytes@.drop_last() =~= Seq::<u8>::empty());
            assert(be_value(bytes@.drop_last()) == 0);
        }
        while unit > 1
            invariant
                unit == 0x0100_0000_0000_0000 || unit == 0x0001_0000_0000_0000 || unit
                    == 0x0000_0100_0000_0000 || unit == 0x0000_0001_0000_0000 || unit
                    == 0x0000_0000_0100_0000 || unit == 0x0000_0000_0001_0000 || unit
                    == 0x0000_0000_0000_0100 || unit == 1,
                be_value(bytes@) == x / unit,
            decreases unit,
        {
            let ghost before = bytes@;
            let ghost above = unit;
            unit = unit / 256;
            let digit: u8 = ((x / unit) % 256) as u8;
            bytes.push(digit);
            proof {
                assert(bytes@.drop_last() =~= before);
                assert(above == unit * 256);
                assert(x / above == (x / unit) / 256) by {
                    vstd::arithmetic::div_mod::lemma_div_denominator(
                        x as int,
                        unit as int,
                        256,
                    );
                }
            }
        }
        BigNat { bytes }
    }

    /// The shortest big-endian spelling; a single zero byte for zero.
    pub fn to_bytes_be(&self) -> (bytes: Vec<u8>)
        ensures
            bytes@ == be_bytes(self@),
    {
        big_spelling(self)
    }

    /// The sum.
    pub fn add(&self, other: &BigNat) -> (n: BigNat)
        ensures
            n@ == self@ + other@,
    {
        BigNat { bytes: big_sum(self, other) }
    }

    /// The product.
    pub fn mul(&self, other: &BigNat) -> (n: BigNat)
        ensures
            n@ == self@ * other@,
    {
        BigNat { bytes: big_product(self, other) }
    }

    /// The number to the power `exponent`, modulo `modulus`; none for the
    /// modulus zero.
    pub fn modpow(&self, exponent: &BigNat, modulus: &BigNat) -> (power: Option<BigNat>)
        ensures
            power is Some <==> modulus@ != 0,
            power matches Some(n) ==> n@ == pow(self@ as int, exponent@) % (modulus@ as int),
    {
        if modulus.is_zero() {
            None
        } else {
            Some(BigNat { bytes: big_modpow(self, exponent, modulus) })
        }
    }

    /// The number times two to the power `bits`.
    pub fn shl(&self, bits: usize) -> (n: BigNat)
        ensures
            n@ == self@ * pow(2, bits as nat),
    {
        BigNat { bytes: big_shifted(self, bits) }
    }

    /// Whether the number is below `other`.
    pub fn below(&self, other: &BigNat) -> (yes: bool)
        ensures
            yes == (self@ < other@),
    {
        big_below(self, other)
    }

    /// The number of bits.
    pub fn bits(&self) -> (count: u64)
        ensures
            count == bit_length(self@),
    {
        big_bits(self)
    }

    /// Whether the number is zero.
    pub fn is_zero(&self) -> (zero: bool)
        ensures
            zero == (self@ == 0),
    {
        self.bits() == 0
    }
}

} // verus!
