//! A commitment by modular exponentiation: the coefficients of a polynomial
//! are hashed, and a base is raised to the digest modulo a large number. It
//! binds to the bytes that are hashed and proves nothing of the polynomial;
//! its check looks at sizes only.

use crate::bignat::{be_bytes, be_value, big_values, bit_length, BigNat};
use crate::encoding::push_bytes;
use crate::poly::horner_from;
use crate::sha::{sha256, sha256_digest};
use vstd::arithmetic::power::pow;
use vstd::prelude::*;

verus! {

/// `bytes` cut or filled with zero bytes at the end to the length `len`.
pub open spec fn padded(bytes: Seq<u8>, len: nat) -> Seq<u8> {
    if bytes.len() >= len {
        bytes.take(len as int)
    } else {
        bytes + Seq::new((len - bytes.len()) as nat, |i: int| 0u8)
    }
}

/// What is hashed for the first `count` coefficients: the shortest big-endian
/// spelling of each, cut or filled to thirty-two bytes, one after the other.
pub open spec fn commit_input(values: Seq<nat>, count: nat) -> Seq<u8>
    decreases count,
{
    if count == 0 {
        Seq::empty()
    } else {
        commit_input(values, (count - 1) as nat) + padded(be_bytes(values[count - 1]), 32)
    }
}

/// The SHA-256 digest of `data`, read as a big-endian number.
pub fn hash_to_big(data: &[u8]) -> (h: BigNat)
    ensures
        h@ == be_value(sha256_digest(data@)),
{
    let digest = sha256(data);
    BigNat::from_bytes_be(digest.as_slice())
}

/// The modulus of the scheme: two to the power 2048.
pub fn gen_rsa_modulus() -> (n: BigNat)
    ensures
        n@ == pow(2, 2048),
{
    BigNat::from_u64(1).shl(2048)
}

/// `bytes` cut or filled with zero bytes at the end to the length `len`.
fn pad_to(bytes: Vec<u8>, len: usize) -> (out: Vec<u8>)
    ensures
        out@ == padded(bytes@, len as nat),
{
    let mut out = bytes;
    if out.len() >= len {
        out.truncate(len);
        assert(out@ =~= bytes@.take(len as int));
    } else {
        while out.len() < len
            invariant
                bytes.len() <= out.len() <= len,
                out@ == bytes@ + Seq::new((out.len() - bytes.len()) as nat, |i: int| 0u8),
            decreases len - out.len(),
        {
            let ghost before = out@;
            out.push(0u8);
            assert(out@ =~= bytes@ + Seq::new((out.len() - bytes.len()) as nat, |i: int| 0u8));
        }
    }
    out
}

/// The commitment to the coefficients `coeffs`: `g` to the power of the
/// digest of the coefficients, modulo `n`; none for the modulus zero.
pub fn commit_poly(coeffs: &[BigNat], g: &BigNat, n: &BigNat) -> (commitment: Option<BigNat>)
    ensures
        commitment is Some <==> n@ != 0,
        commitment matches Some(c) ==> c@ == pow(
            g@ as int,
            be_value(sha256_digest(commit_input(big_values(coeffs@), coeffs.len() as nat))),
        ) % (n@ as int),
{
    let mut bytes: Vec<u8> = Vec::new();
    let mut i: usize = 0;
    while i < coeffs.len()
        invariant
            i <= coeffs.len(),
            bytes@ == commit_input(big_values(coeffs@), i as nat),
        decreases coeffs.len() - i,
    {
        let b = pad_to(coeffs[i].to_bytes_be(), 32);
        push_bytes(&mut bytes, b.as_slice());
        i += 1;
    }
    let h = hash_to_big(bytes.as_slice());
    g.modpow(&h, n)
}

/// The challenge that a commitment gives: the digest of its shortest
/// big-endian spelling.
pub fn fiat_shamir_challenge(commitment: &BigNat) -> (challenge: BigNat)
    ensures
        challenge@ == be_value(sha256_digest(be_bytes(commitment@))),
{
    let c_bytes = commitment.to_bytes_be();
    hash_to_big(c_bytes.as_slice())
}

/// The value at `x` of the polynomial with the coefficients `coeffs`, in the
/// natural numbers.
pub fn eval_poly(coeffs: &[BigNat], x: &BigNat) -> (y: BigNat)
    ensures
        y@ == horner_from(big_values(coeffs@), x@, 0),
{
    let mut y = BigNat::from_u64(0);
    let mut i: usize = coeffs.len();
    while i > 0
        invariant
            i <= coeffs.len(),
            y@ == horner_from(big_values(coeffs@), x@, i as nat),
        decreases i,
    {
        i -= 1;
        let carried = y.mul(x);
        proof {
            let tail = horner_from(big_values(coeffs@), x@, (i + 1) as nat);
            assert(tail * x@ == x@ * tail) by (nonlinear_arith);
        }
        y = coeffs[i].add(&carried);
    }
    y
}

/// What the size check accepts: the commitment is below the modulus, the
/// value has at least one bit and fewer than 10000, and the challenge has at
/// least one bit and fewer than 1000.
pub open spec fn sizes_accepted(commitment: nat, n: nat, x: nat, y: nat) -> bool {
    &&& commitment < n
    &&& 0 < bit_length(y) < 10000
    &&& 0 < bit_length(x) < 1000
}

/// The three answers of the size check.
#[derive(Clone, Copy, Debug)]
pub struct SizeChecks {
    /// Whether the commitment is below the modulus.
    pub commitment_in_range: bool,
    /// Whether the value has at least one bit and fewer than 10000.
    pub evaluation_reasonable: bool,
    /// Whether the challenge has at least one bit and fewer than 1000.
    pub challenge_reasonable: bool,
}

/// The three answers of the size check for a commitment, a challenge `x` and
/// a value `y` under the modulus `n`.
pub fn size_checks(commitment: &BigNat, n: &BigNat, x: &BigNat, y: &BigNat) -> (checks: SizeChecks)
    ensures
        checks.commitment_in_range == (commitment@ < n@),
        checks.evaluation_reasonable == (0 < bit_length(y@) < 10000),
        checks.challenge_reasonable == (0 < bit_length(x@) < 1000),
{
    let y_bits = y.bits();
    let x_bits = x.bits();
    SizeChecks {
        commitment_in_range: commitment.below(n),
        evaluation_reasonable: y_bits > 0 && y_bits < 10000,
        challenge_reasonable: x_bits > 0 && x_bits < 1000,
    }
}

/// Whether the sizes of a commitment, a challenge `x` and a value `y` are
/// plausible for the modulus `n`. The base `_g` plays no part.
pub fn verify_eval(commitment: &BigNat, _g: &BigNat, n: &BigNat, x: &BigNat, y: &BigNat) -> (ok:
    bool)
    ensures
        ok == sizes_accepted(commitment@, n@, x@, y@),
{
    let checks = size_checks(commitment, n, x, y);
    checks.commitment_in_range && checks.evaluation_reasonable && checks.challenge_reasonable
}

} // verus!
