//! The pairing-based scheme: a reference string of powers of a secret,
//! commitments of one group element, and evaluation proofs that commit to a
//! quotient and are checked by one pairing equation.

use crate::bls::{
    bls_g1_add, bls_g1_mul, bls_g1_sub, bls_g2_mul, bls_g2_sub, bls_pairing, fr_values,
    g1_encodings, g1_generator_encoding, g1_identity_encoding, g2_encodings,
    g2_generator_encoding, pairing, scalar_modulus, Fr, G1, G2,
};
use crate::encoding::bytes_equal;
use crate::error::CommitError;
use crate::poly::{
    agrees_at, coeff, degree, division_identity, horner_from, is_division, lemma_conv_take,
    lemma_conv_zero, lemma_division_by_linear, lemma_division_step, lemma_eval_step, lemma_horner_from_agree,
    lemma_horner_zero_tail, lemma_linear_quotient_identity, lemma_trimmed_len, lemma_trimmed_len_agree, lemma_trimmed_len_is,
    linear_quotient, poly_eval, sub_mod, trimmed_len,
};
use vstd::arithmetic::div_mod::lemma_small_mod;
use vstd::prelude::*;
use vstd::slice::slice_to_vec;

verus! {

/// The generator of the first group times `s^i`, as the setup reaches it: by
/// `i` multiplications by `s`.
pub open spec fn g1_power(s: nat, i: nat) -> Seq<u8>
    decreases i,
{
    if i == 0 {
        g1_generator_encoding()
    } else {
        bls_g1_mul(g1_power(s, (i - 1) as nat), s)
    }
}

/// The generator of the second group times `s^i`, as the setup reaches it.
pub open spec fn g2_power(s: nat, i: nat) -> Seq<u8>
    decreases i,
{
    if i == 0 {
        g2_generator_encoding()
    } else {
        bls_g2_mul(g2_power(s, (i - 1) as nat), s)
    }
}

/// The sum of the first `count` products `scalars[i] * points[i]`, added up
/// from the neutral element in the order of the indices.
pub open spec fn g1_msm(scalars: Seq<nat>, points: Seq<Seq<u8>>, count: nat) -> Seq<u8>
    decreases count,
{
    if count == 0 {
        g1_identity_encoding()
    } else {
        bls_g1_add(
            g1_msm(scalars, points, (count - 1) as nat),
            bls_g1_mul(points[count - 1], scalars[count - 1]),
        )
    }
}

/// A structured reference string: the powers of a secret in both groups. The
/// secret itself is not part of it.
pub struct KZGSetup {
    pub powers_of_g: Vec<G1>,
    pub powers_of_h: Vec<G2>,
}

/// What a reference string holds.
pub struct KZGSetupView {
    pub powers_of_g: Seq<Seq<u8>>,
    pub powers_of_h: Seq<Seq<u8>>,
}

impl View for KZGSetup {
    type V = KZGSetupView;

    open spec fn view(&self) -> KZGSetupView {
        KZGSetupView {
            powers_of_g: g1_encodings(self.powers_of_g@),
            powers_of_h: g2_encodings(self.powers_of_h@),
        }
    }
}

impl KZGSetupView {
    /// The highest degree that can be committed to: one less than the number
    /// of powers in the first group.
    pub open spec fn degree_bound(self) -> int {
        self.powers_of_g.len() - 1
    }
}

/// The reference string for the degree `degree` that the secret `s` gives.
pub open spec fn srs_of(s: nat, degree: nat) -> KZGSetupView {
    KZGSetupView {
        powers_of_g: Seq::new(degree + 1, |i: int| g1_power(s, i as nat)),
        powers_of_h: Seq::new(degree + 1, |i: int| g2_power(s, i as nat)),
    }
}

/// The reference string for polynomials up to the degree `degree`, from the
/// secret `s`. The caller draws the secret, once, and drops it: the string
/// holds its powers only.
pub fn kzg_trusted_setup(degree: usize, s: &Fr) -> (setup: KZGSetup)
    requires
        degree < usize::MAX,
    ensures
        setup@ == srs_of(s@, degree as nat),
        setup.powers_of_g.len() == degree + 1,
        setup.powers_of_h.len() == degree + 1,
{
    let mut powers_of_g: Vec<G1> = Vec::new();
    let mut powers_of_h: Vec<G2> = Vec::new();
    let mut cur_g = G1::generator();
    let mut cur_h = G2::generator();
    let mut i: usize = 0;
    while i <= degree
        invariant
            i <= degree + 1,
            degree < usize::MAX,
            powers_of_g.len() == i,
            powers_of_h.len() == i,
            cur_g@ == g1_power(s@, i as nat),
            cur_h@ == g2_power(s@, i as nat),
            forall|j: int| 0 <= j < i ==> powers_of_g[j]@ == g1_power(s@, j as nat),
            forall|j: int| 0 <= j < i ==> powers_of_h[j]@ == g2_power(s@, j as nat),
        decreases degree + 1 - i,
    {
        powers_of_g.push(cur_g);
        powers_of_h.push(cur_h);
        cur_g = cur_g.mul(s);
        cur_h = cur_h.mul(s);
        i += 1;
    }
    let setup = KZGSetup { powers_of_g, powers_of_h };
    assert(setup@.powers_of_g =~= srs_of(s@, degree as nat).powers_of_g);
    assert(setup@.powers_of_h =~= srs_of(s@, degree as nat).powers_of_h);
    setup
}

/// The number of coefficients of `poly` up to the last one that is not zero.
pub fn effective_len(poly: &[Fr]) -> (k: usize)
    ensures
        k == trimmed_len(fr_values(poly@)),
        k <= poly.len(),
{
    let mut k: usize = poly.len();
    while k > 0 && poly[k - 1].is_zero()
        invariant
            k <= poly.len(),
            forall|i: int| k <= i < poly.len() ==> fr_values(poly@)[i] == 0,
        decreases k,
    {
        k -= 1;
    }
    proof {
        lemma_trimmed_len_is(fr_values(poly@), k as nat);
    }
    k
}

/// The commitment to the polynomial `poly`: the sum of `poly[i]` times the
/// `i`-th power of the reference string in the first group, over the
/// coefficients up to the last that is not zero. A polynomial whose degree is
/// above the bound of the reference string is refused.
pub fn kzg_commit(poly: &[Fr], setup: &KZGSetup) -> (result: Result<G1, CommitError>)
    ensures
        result is Err <==> degree(fr_values(poly@)) > setup@.degree_bound(),
        result matches Ok(c) ==> c@ == g1_msm(
            fr_values(poly@),
            setup@.powers_of_g,
            trimmed_len(fr_values(poly@)),
        ),
        result matches Err(e) ==> e == CommitError::DegreeExceeded,
{
    let count = effective_len(poly);
    if count > setup.powers_of_g.len() {
        return Err(CommitError::DegreeExceeded);
    }
    let mut sum = G1::identity();
    let mut i: usize = 0;
    while i < count
        invariant
            i <= count,
            count <= poly.len(),
            count <= setup.powers_of_g.len(),
            sum@ == g1_msm(fr_values(poly@), setup@.powers_of_g, i as nat),
        decreases count - i,
    {
        let term = setup.powers_of_g[i].mul(&poly[i]);
        sum = sum.add(&term);
        i += 1;
    }
    Ok(sum)
}

/// The value of the polynomial `poly` at `z`.
pub fn evaluate(poly: &[Fr], z: &Fr) -> (y: Fr)
    ensures
        y@ == poly_eval(fr_values(poly@), z@, scalar_modulus()),
{
    let mut y = Fr::zero();
    let mut i: usize = poly.len();
    while i > 0
        invariant
            i <= poly.len(),
            y@ == horner_from(fr_values(poly@), z@, i as nat) % scalar_modulus(),
        decreases i,
    {
        i -= 1;
        let carried = y.mul(z);
        y = poly[i].add(&carried);
        proof {
            lemma_eval_step(
                poly@[i as int]@,
                z@,
                horner_from(fr_values(poly@), z@, (i + 1) as nat),
                scalar_modulus(),
            );
        }
    }
    y
}

/// Takes `c * X^p * divisor` from `remainder`, over the coefficients of
/// `divisor` up to `X^dd`.
fn subtract_multiple(remainder: &mut Vec<Fr>, divisor: &[Fr], c: &Fr, p: usize, dd: usize)
    requires
        dd < divisor.len(),
        p + dd < old(remainder).len(),
    ensures
        final(remainder).len() == old(remainder).len(),
        forall|k: int|
            0 <= k < old(remainder).len() ==> final(remainder)[k]@ == (if p <= k <= p + dd {
                sub_mod(old(remainder)[k]@, c@ * divisor[k - p]@, scalar_modulus())
            } else {
                old(remainder)[k]@
            }),
{
    let top = p + dd;
    let mut j: usize = 0;
    while j <= dd
        invariant
            j <= dd + 1,
            top == p + dd,
            dd < divisor.len(),
            top < remainder.len(),
            remainder.len() == old(remainder).len(),
            forall|k: int|
                0 <= k < remainder.len() ==> remainder[k]@ == (if top - j < k <= top {
                    sub_mod(old(remainder)[k]@, c@ * divisor[k - p]@, scalar_modulus())
                } else {
                    old(remainder)[k]@
                }),
        decreases dd + 1 - j,
    {
        let index = top - j;
        let scaled = c.mul(&divisor[dd - j]);
        let before = remainder[index];
        let after = before.sub(&scaled);
        proof {
            before.lemma_below_modulus();
            lemma_small_mod(before@, scalar_modulus());
        }
        remainder.set(index, after);
        j += 1;
    }
}

/// The quotient and the remainder of the polynomial `numerator` by the
/// polynomial `divisor`, by long division; none where `divisor` is the zero
/// polynomial.
pub fn naive_poly_division(numerator: &[Fr], divisor: &[Fr]) -> (result: Option<
    (Vec<Fr>, Vec<Fr>),
>)
    ensures
        result is Some <==> trimmed_len(fr_values(divisor@)) > 0,
        result matches Some((q, r)) ==> is_division(
            fr_values(numerator@),
            fr_values(divisor@),
            fr_values(q@),
            fr_values(r@),
            scalar_modulus(),
        ),
{
    let divisor_len = effective_len(divisor);
    if divisor_len == 0 {
        return None;
    }
    let ghost num = fr_values(numerator@);
    let ghost dvals = fr_values(divisor@);
    let dd = divisor_len - 1;
    let lead = divisor[dd];
    let n = numerator.len();
    let mut remainder = slice_to_vec(numerator);
    let mut quotient: Vec<Fr> = Vec::new();
    let mut filled: usize = 0;
    while filled < n
        invariant
            filled <= n,
            quotient.len() == filled,
            forall|k: int| 0 <= k < filled ==> quotient[k]@ == 0,
        decreases n - filled,
    {
        quotient.push(Fr::zero());
        filled += 1;
    }
    let mut top = effective_len(numerator);
    proof {
        lemma_trimmed_len(num);
        lemma_trimmed_len(dvals);
        assert forall|k: int| 0 <= k implies #[trigger] agrees_at(
            num,
            dvals,
            fr_values(quotient@),
            fr_values(remainder@),
            scalar_modulus(),
            k,
        ) by {
            lemma_conv_zero(fr_values(quotient@), dvals, k, (k + 1) as nat);
            assert(coeff(fr_values(remainder@), k) == coeff(num, k));
        }
        assert forall|k: int| top <= k < n implies remainder[k]@ == 0 by {
            assert(num[k] == 0);
        }
    }
    while top > dd
        invariant
            n == numerator.len(),
            num == fr_values(numerator@),
            dvals == fr_values(divisor@),
            dd < divisor.len(),
            dd + 1 == trimmed_len(dvals),
            lead@ == dvals[dd as int],
            lead@ != 0,
            top <= n,
            remainder.len() == n,
            quotient.len() == n,
            division_identity(
                num,
                dvals,
                fr_values(quotient@),
                fr_values(remainder@),
                scalar_modulus(),
            ),
            forall|k: int| top <= k < n ==> remainder[k]@ == 0,
            forall|k: int| 0 <= k < top - dd ==> quotient[k]@ == 0,
        decreases top,
    {
        let i = top - 1;
        let at = i - dd;
        let ghost q_old = fr_values(quotient@);
        let ghost r_old = fr_values(remainder@);
        let c = match remainder[i].div(&lead) {
            Some(c) => c,
            None => {
                // the leading coefficient is not zero
                return None;
            },
        };
        quotient.set(at, c);
        subtract_multiple(&mut remainder, divisor, &c, at, dd);
        proof {
            let r_new = fr_values(remainder@);
            assert(fr_values(quotient@) =~= q_old.update(at as int, c@));
            assert forall|t: int| t > i - at implies coeff(dvals, t) == 0 by {
                lemma_trimmed_len(dvals);
            }
            assert forall|k: int| 0 <= k < r_old.len() implies r_new[k] == (if at <= k <= i {
                sub_mod(r_old[k], c@ * coeff(dvals, k - at), scalar_modulus())
            } else {
                r_old[k]
            }) by {}
            lemma_division_step(
                num,
                dvals,
                q_old,
                r_old,
                r_new,
                scalar_modulus(),
                at as int,
                i as int,
                c@,
            );
            // the leading term is gone
            remainder@[i as int].lemma_below_modulus();
            assert(r_old[i as int] < scalar_modulus()) by {
                // r_old[i] is the value of a field element
                assert(r_old[i as int] == (c@ * lead@) % scalar_modulus());
            }
            lemma_small_mod(r_old[i as int], scalar_modulus());
            assert(r_new[i as int] == 0);
        }
        top = i;
    }
    let remainder_len = effective_len(remainder.as_slice());
    let quotient_len = effective_len(quotient.as_slice());
    let ghost q_full = fr_values(quotient@);
    let ghost r_full = fr_values(remainder@);
    proof {
        lemma_trimmed_len(q_full);
        lemma_trimmed_len(r_full);
        if remainder_len > dd {
            assert(r_full[remainder_len - 1] != 0);
            assert(remainder[remainder_len - 1]@ == 0);
        }
    }
    remainder.truncate(remainder_len);
    quotient.truncate(quotient_len);
    proof {
        let q = fr_values(quotient@);
        let r = fr_values(remainder@);
        assert(q =~= q_full.take(quotient_len as int));
        assert(r =~= r_full.take(remainder_len as int));
        assert forall|k: int| 0 <= k implies #[trigger] agrees_at(
            num,
            dvals,
            q,
            r,
            scalar_modulus(),
            k,
        ) by {
            assert(agrees_at(num, dvals, q_full, r_full, scalar_modulus(), k));
            lemma_conv_take(q_full, dvals, k, (k + 1) as nat, quotient_len as int);
            assert(coeff(r, k) == coeff(r_full, k));
        }
        lemma_trimmed_len_is(q, quotient_len as nat);
        lemma_trimmed_len_is(r, remainder_len as nat);
        assert forall|k: int| 0 <= k < q.len() implies q[k] < scalar_modulus() by {
            quotient@[k].lemma_below_modulus();
        }
        assert forall|k: int| 0 <= k < r.len() implies r[k] < scalar_modulus() by {
            remainder@[k].lemma_below_modulus();
        }
    }
    Some((quotient, remainder))
}

/// Sums over scalars that agree on the first `count` entries agree.
proof fn lemma_g1_msm_agree(a: Seq<nat>, b: Seq<nat>, points: Seq<Seq<u8>>, count: nat)
    requires
        forall|i: int| 0 <= i < count ==> a[i] == b[i],
    ensures
        g1_msm(a, points, count) == g1_msm(b, points, count),
    decreases count,
{
    if count > 0 {
        lemma_g1_msm_agree(a, b, points, (count - 1) as nat);
    }
}

/// The witness for the polynomial `f` at `z` over the powers `powers`: the
/// commitment to the quotient of `f` by `X - z`.
pub open spec fn kzg_witness(f: Seq<nat>, z: nat, powers: Seq<Seq<u8>>) -> Seq<u8> {
    let q = linear_quotient(f, z, scalar_modulus());
    g1_msm(q, powers, trimmed_len(q))
}

/// The witness of a constant polynomial is the neutral element, whatever the
/// point.
pub proof fn lemma_constant_polynomial_witness(c: nat, z: nat, powers: Seq<Seq<u8>>)
    ensures
        kzg_witness(seq![c], z, powers) == g1_identity_encoding(),
{
    let q = linear_quotient(seq![c], z, scalar_modulus());
    assert(q.len() == 0);
    assert(trimmed_len(q) == 0);
}

/// Why the pairing check can hold of a proof that `kzg_create_proof` builds:
/// at every `s`, and so at the secret of the reference string, the polynomial
/// `f` less its value at `z` is the quotient that the witness commits to
/// times `s - z`, in the scalar field.
pub proof fn lemma_witness_polynomial(f: Seq<nat>, z: nat, s: nat)
    ensures
        poly_eval(f, s, scalar_modulus()) == (poly_eval(
            linear_quotient(f, z, scalar_modulus()),
            s,
            scalar_modulus(),
        ) * sub_mod(s, z, scalar_modulus()) + poly_eval(f, z, scalar_modulus()))
            % scalar_modulus(),
{
    lemma_linear_quotient_identity(f, z, s, scalar_modulus());
}

/// The value `y` of the polynomial `poly` at `z`, and the witness of it: the
/// commitment to the quotient of `poly - y` by `X - z`, which long division
/// yields with no remainder. A polynomial whose degree is above the bound of
/// the reference string is refused.
pub fn kzg_create_proof(poly: &[Fr], z: &Fr, setup: &KZGSetup) -> (result: Result<
    (Fr, G1),
    CommitError,
>)
    ensures
        result is Err <==> degree(fr_values(poly@)) > setup@.degree_bound(),
        result matches Ok((y, witness)) ==> y@ == poly_eval(
            fr_values(poly@),
            z@,
            scalar_modulus(),
        ) && witness@ == kzg_witness(fr_values(poly@), z@, setup@.powers_of_g),
        result matches Err(e) ==> e == CommitError::DegreeExceeded,
{
    let count = effective_len(poly);
    if count > setup.powers_of_g.len() {
        return Err(CommitError::DegreeExceeded);
    }
    let ghost f = fr_values(poly@);
    let ghost m = scalar_modulus();
    let fz = evaluate(poly, z);
    let mut coeffs = slice_to_vec(poly);
    if coeffs.len() > 0 {
        let constant = coeffs[0].sub(&fz);
        coeffs.set(0, constant);
    }
    let neg_z = Fr::zero().sub(z);
    let mut divisor: Vec<Fr> = Vec::new();
    divisor.push(neg_z);
    divisor.push(Fr::one());
    let ghost num = fr_values(coeffs@);
    let ghost d = fr_values(divisor@);
    proof {
        z.lemma_below_modulus();
        fz.lemma_below_modulus();
        assert(d.last() == 1);
        assert(trimmed_len(d) == 2);
        assert((d[0] + z@) % m == 0) by {
            if z@ == 0 {
                assert(d[0] == 0);
            } else {
                lemma_small_mod((m - z@) as nat, m);
                assert(d[0] + z@ == m);
            }
        }
    }
    let (quotient, remainder) = match naive_poly_division(coeffs.as_slice(), divisor.as_slice()) {
        Some(pair) => pair,
        None => {
            // the divisor is not the zero polynomial
            return Err(CommitError::DivisionRemainderNonzero);
        },
    };
    let ghost q = fr_values(quotient@);
    let ghost r = fr_values(remainder@);
    let ghost lq = linear_quotient(f, z@, m);
    proof {
        lemma_division_by_linear(num, d, q, r, z@, m);
        // the numerator differs from the polynomial in the constant term only
        assert forall|k: int| 1 <= k implies coeff(num, k) == coeff(f, k) by {}
        lemma_horner_from_agree(num, f, z@, 1);
        assert forall|k: int| 0 <= k implies coeff(q, k) == coeff(lq, k) by {
            assert(coeff(q, k) == coeff(linear_quotient(num, z@, m), k));
            lemma_horner_from_agree(num, f, z@, (k + 1) as nat);
        }
        // the numerator has the root z, so that nothing remains
        let tail = horner_from(f, z@, 1);
        assert(poly_eval(num, z@, m) == 0) by {
            if poly.len() == 0 {
                assert(horner_from(num, z@, 0) == 0);
                lemma_small_mod(0, m);
            } else {
                // num[0] = f[0] - f(z), and f(z) = f[0] + z * tail
                let f0 = f[0];
                assert(fz@ == (f0 + z@ * tail) % m);
                assert(num[0] == (f0 + m - fz@) % (m as int));
                assert(horner_from(num, z@, 0) == num[0] + z@ * tail);
                let u = z@ * tail;
                vstd::arithmetic::div_mod::lemma_add_mod_noop(num[0] as int, u as int, m as int);
                vstd::arithmetic::div_mod::lemma_add_mod_noop(
                    (f0 + m - fz@) as int,
                    u as int,
                    m as int,
                );
                vstd::arithmetic::div_mod::lemma_mod_add_multiples_vanish(
                    (f0 + u - fz@) as int,
                    m as int,
                );
                vstd::arithmetic::div_mod::lemma_sub_mod_noop(
                    (f0 + u) as int,
                    fz@ as int,
                    m as int,
                );
                lemma_small_mod(fz@, m);
                lemma_small_mod(0, m);
            }
        }
        assert(remainder.len() == 0) by {
            if r.len() == 1 {
                lemma_trimmed_len(r);
                assert(r[0] != 0);
            }
        }
        // the quotient's degree is below the polynomial's
        lemma_trimmed_len_agree(q, lq);
        lemma_trimmed_len(f);
        lemma_trimmed_len(lq);
        assert(trimmed_len(lq) <= count) by {
            if trimmed_len(lq) > count {
                let top = trimmed_len(lq) - 1;
                assert(lq[top] != 0);
                lemma_horner_zero_tail(f, z@, (top + 1) as nat);
                lemma_small_mod(0, m);
            }
        }
        lemma_trimmed_len(q);
        assert forall|i: int| 0 <= i < trimmed_len(q) implies q[i] == lq[i] by {
            assert(coeff(q, i) == coeff(lq, i));
        }
        lemma_g1_msm_agree(q, lq, setup@.powers_of_g, trimmed_len(q));
    }
    if remainder.len() != 0 {
        return Err(CommitError::DivisionRemainderNonzero);
    }
    match kzg_commit(quotient.as_slice(), setup) {
        Ok(witness) => Ok((fz, witness)),
        Err(e) => Err(e),
    }
}

/// What the pairing check accepts: the reference string has its first two
/// powers in the second group, `h` and `s * h`, and the pairing of
/// `commitment - y * g` with `h` is the pairing of `proof` with
/// `s * h - z * h`, where `g` is the generator of the first group.
pub open spec fn kzg_accepts(
    commitment: Seq<u8>,
    z: nat,
    y: nat,
    proof: Seq<u8>,
    setup: KZGSetupView,
) -> bool {
    &&& setup.powers_of_h.len() >= 2
    &&& bls_pairing(
        bls_g1_sub(commitment, bls_g1_mul(g1_generator_encoding(), y)),
        setup.powers_of_h[0],
    ) == bls_pairing(
        proof,
        bls_g2_sub(setup.powers_of_h[1], bls_g2_mul(setup.powers_of_h[0], z)),
    )
}

/// Whether `proof` shows that the polynomial committed to in `commitment` has
/// the value `y` at `z`.
pub fn kzg_verify(commitment: &G1, z: &Fr, y: &Fr, proof: &G1, setup: &KZGSetup) -> (ok: bool)
    ensures
        ok == kzg_accepts(commitment@, z@, y@, proof@, setup@),
{
    if setup.powers_of_h.len() < 2 {
        return false;
    }
    let h = setup.powers_of_h[0];
    let s_g2 = setup.powers_of_h[1];
    let s_minus_z_g2 = s_g2.sub(&h.mul(z));
    let shifted = commitment.sub(&G1::generator().mul(y));
    let left = pairing(&shifted, &h);
    let right = pairing(proof, &s_minus_z_g2);
    bytes_equal(left.as_slice(), right.as_slice())
}

} // verus!
