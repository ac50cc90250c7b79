//! The two schemes as one capability: commit to a polynomial, prove its value
//! at a point, and verify such a proof, over parameters that are set up once.

use crate::bls::{fr_values, scalar_modulus, Fr, G1};
use crate::error::CommitError;
use crate::kzg::{
    g1_msm, kzg_accepts, kzg_commit, kzg_create_proof, kzg_trusted_setup, kzg_verify,
    kzg_witness, srs_of, KZGSetup,
};
use crate::poly::{degree, is_pow2, linear_quotient, poly_eval, trimmed_len};
use crate::ristretto::{encodings, group_order, msm_prefix, scalar_values, Point, Scalar};
use crate::supersonic_ipa::{
    commit, create_ipa_proof, create_kate_witness, eval_poly_scalar, generate_g_vec,
    generators, initial_state, proof_from, supersonic_accepts, verify_ipa_proof,
    verify_kate_witness, EvaluationProof, SupersonicProofView,
};
use vstd::prelude::*;

verus! {

/// A polynomial commitment scheme.
pub trait PolynomialCommitment {
    /// What is set up once and used for every commitment and proof.
    type Parameters;

    /// The coefficients, points and values.
    type Scalar;

    /// A commitment to a polynomial.
    type Commitment;

    /// A proof of a value.
    type Proof;

    /// Whether `params` are the parameters of the size `size` that come of
    /// the secret `secret`: for polynomials up to the degree `size` in the
    /// pairing-based scheme, for `size` coefficients in the inner-product
    /// scheme, where the secret plays no part.
    spec fn is_setup(size: usize, secret: &Self::Scalar, params: &Self::Parameters) -> bool;

    /// Whether the parameters allow a commitment to `coeffs`.
    spec fn can_commit(params: &Self::Parameters, coeffs: Seq<Self::Scalar>) -> bool;

    /// Whether the parameters allow a proof for `coeffs`.
    spec fn can_prove(params: &Self::Parameters, coeffs: Seq<Self::Scalar>) -> bool;

    /// The error that tells that the parameters do not allow `coeffs`.
    spec fn refusal() -> CommitError;

    /// Whether `commitment` is the commitment to `coeffs`.
    spec fn is_commitment(
        params: &Self::Parameters,
        coeffs: Seq<Self::Scalar>,
        commitment: &Self::Commitment,
    ) -> bool;

    /// Whether `value` is the value of `coeffs` at `point`, and `proof` the
    /// proof that the scheme builds of it.
    spec fn is_opening(
        params: &Self::Parameters,
        coeffs: Seq<Self::Scalar>,
        point: &Self::Scalar,
        value: &Self::Scalar,
        proof: &Self::Proof,
    ) -> bool;

    /// What the verifier accepts.
    spec fn accepts(
        params: &Self::Parameters,
        commitment: &Self::Commitment,
        point: &Self::Scalar,
        value: &Self::Scalar,
        proof: &Self::Proof,
    ) -> bool;

    /// Parameters of the size `size`. Where the scheme needs a secret, it is
    /// `secret`, which the caller draws once and drops; it is used here and
    /// nowhere else.
    fn setup(size: usize, secret: &Self::Scalar) -> (params: Self::Parameters)
        requires
            size < usize::MAX,
        ensures
            Self::is_setup(size, secret, &params),
    ;

    /// The commitment to the polynomial `coeffs`.
    fn commit(params: &Self::Parameters, coeffs: &[Self::Scalar]) -> (result: Result<
        Self::Commitment,
        CommitError,
    >)
        ensures
            result is Ok <==> Self::can_commit(params, coeffs@),
            result matches Ok(c) ==> Self::is_commitment(params, coeffs@, &c),
            result matches Err(e) ==> e == Self::refusal(),
    ;

    /// The value of the polynomial `coeffs` at `point`, and the proof of it.
    fn prove(params: &Self::Parameters, coeffs: &[Self::Scalar], point: &Self::Scalar) -> (result:
        Result<(Self::Scalar, Self::Proof), CommitError>)
        ensures
            result is Ok <==> Self::can_prove(params, coeffs@),
            result matches Ok((value, proof)) ==> Self::is_opening(
                params,
                coeffs@,
                point,
                &value,
                &proof,
            ),
            result matches Err(e) ==> e == Self::refusal(),
    ;

    /// Whether `proof` is accepted as a proof that the polynomial committed
    /// to in `commitment` has the value `value` at `point`.
    fn verify(
        params: &Self::Parameters,
        commitment: &Self::Commitment,
        point: &Self::Scalar,
        value: &Self::Scalar,
        proof: &Self::Proof,
    ) -> (ok: bool)
        ensures
            ok == Self::accepts(params, commitment, point, value, proof),
    ;
}

/// The pairing-based scheme, over a reference string.
pub struct Kzg;

/// The inner-product scheme, over a vector of generators.
pub struct Supersonic;

impl PolynomialCommitment for Kzg {
    type Parameters = KZGSetup;

    type Scalar = Fr;

    type Commitment = G1;

    type Proof = G1;

    open spec fn is_setup(size: usize, secret: &Fr, params: &KZGSetup) -> bool {
        params@ == srs_of(secret@, size as nat)
    }

    open spec fn can_commit(params: &KZGSetup, coeffs: Seq<Fr>) -> bool {
        degree(fr_values(coeffs)) <= params@.degree_bound()
    }

    open spec fn can_prove(params: &KZGSetup, coeffs: Seq<Fr>) -> bool {
        degree(fr_values(coeffs)) <= params@.degree_bound()
    }

    open spec fn refusal() -> CommitError {
        CommitError::DegreeExceeded
    }

    open spec fn is_commitment(params: &KZGSetup, coeffs: Seq<Fr>, commitment: &G1) -> bool {
        commitment@ == g1_msm(
            fr_values(coeffs),
            params@.powers_of_g,
            trimmed_len(fr_values(coeffs)),
        )
    }

    open spec fn is_opening(
        params: &KZGSetup,
        coeffs: Seq<Fr>,
        point: &Fr,
        value: &Fr,
        proof: &G1,
    ) -> bool {
        &&& value@ == poly_eval(fr_values(coeffs), point@, scalar_modulus())
        &&& proof@ == kzg_witness(fr_values(coeffs), point@, params@.powers_of_g)
    }

    open spec fn accepts(
        params: &KZGSetup,
        commitment: &G1,
        point: &Fr,
        value: &Fr,
        proof: &G1,
    ) -> bool {
        kzg_accepts(commitment@, point@, value@, proof@, params@)
    }

    fn setup(size: usize, secret: &Fr) -> (params: KZGSetup) {
        kzg_trusted_setup(size, secret)
    }

    fn commit(params: &KZGSetup, coeffs: &[Fr]) -> (result: Result<G1, CommitError>) {
        kzg_commit(coeffs, params)
    }

    fn prove(params: &KZGSetup, coeffs: &[Fr], point: &Fr) -> (result: Result<
        (Fr, G1),
        CommitError,
    >) {
        kzg_create_proof(coeffs, point, params)
    }

    fn verify(params: &KZGSetup, commitment: &G1, point: &Fr, value: &Fr, proof: &G1) -> (ok:
        bool) {
        kzg_verify(commitment, point, value, proof, params)
    }
}

impl PolynomialCommitment for Supersonic {
    type Parameters = Vec<Point>;

    type Scalar = Scalar;

    type Commitment = Point;

    type Proof = EvaluationProof;

    open spec fn is_setup(size: usize, secret: &Scalar, params: &Vec<Point>) -> bool {
        encodings(params@) == generators(size as nat)
    }

    open spec fn can_commit(params: &Vec<Point>, coeffs: Seq<Scalar>) -> bool {
        is_pow2(coeffs.len()) && params.len() >= coeffs.len()
    }

    open spec fn can_prove(params: &Vec<Point>, coeffs: Seq<Scalar>) -> bool {
        is_pow2(coeffs.len()) && params.len() == coeffs.len()
    }

    open spec fn refusal() -> CommitError {
        CommitError::InvalidLength
    }

    open spec fn is_commitment(params: &Vec<Point>, coeffs: Seq<Scalar>, commitment: &Point) -> bool {
        commitment@ == msm_prefix(scalar_values(coeffs), encodings(params@), coeffs.len())
    }

    open spec fn is_opening(
        params: &Vec<Point>,
        coeffs: Seq<Scalar>,
        point: &Scalar,
        value: &Scalar,
        proof: &EvaluationProof,
    ) -> bool {
        &&& value@ == poly_eval(scalar_values(coeffs), point@, group_order())
        &&& proof.witness@ == msm_prefix(
            linear_quotient(scalar_values(coeffs), point@, group_order()),
            encodings(params@),
            (coeffs.len() - 1) as nat,
        )
        &&& proof.ipa_proof@ == proof_from(
            initial_state(scalar_values(coeffs), encodings(params@), point@),
        )
    }

    open spec fn accepts(
        params: &Vec<Point>,
        commitment: &Point,
        point: &Scalar,
        value: &Scalar,
        proof: &EvaluationProof,
    ) -> bool {
        supersonic_accepts(
            SupersonicProofView {
                commitment: commitment@,
                witness: proof.witness@,
                ipa_proof: proof.ipa_proof@,
                point: point@,
                value: value@,
            },
            encodings(params@),
        )
    }

    fn setup(size: usize, _secret: &Scalar) -> (params: Vec<Point>) {
        generate_g_vec(size)
    }

    fn commit(params: &Vec<Point>, coeffs: &[Scalar]) -> (result: Result<Point, CommitError>) {
        commit(coeffs, params.as_slice())
    }

    fn prove(params: &Vec<Point>, coeffs: &[Scalar], point: &Scalar) -> (result: Result<
        (Scalar, EvaluationProof),
        CommitError,
    >) {
        let ipa_proof = match create_ipa_proof(coeffs, params.as_slice(), point) {
            Ok(ipa_proof) => ipa_proof,
            Err(e) => {
                return Err(e);
            },
        };
        let value = eval_poly_scalar(coeffs, point);
        let witness = match create_kate_witness(coeffs, point, &value, params.as_slice()) {
            Ok(witness) => witness,
            Err(e) => {
                return Err(e);
            },
        };
        Ok((value, EvaluationProof { witness, ipa_proof }))
    }

    fn verify(
        params: &Vec<Point>,
        commitment: &Point,
        point: &Scalar,
        value: &Scalar,
        proof: &EvaluationProof,
    ) -> (ok: bool) {
        let kate_valid = verify_kate_witness(commitment, &proof.witness, value, params.as_slice());
        let ipa_valid = verify_ipa_proof(
            commitment,
            params.as_slice(),
            point,
            value,
            &proof.ipa_proof,
        );
        kate_valid && ipa_valid
    }
}

/// With any scheme: commits to the polynomial `coeffs`, proves its value at
/// `point`, and says whether the verifier accepts the proof. Fails where the
/// parameters do not allow the polynomial.
pub fn open_and_check<S: PolynomialCommitment>(
    params: &S::Parameters,
    coeffs: &[S::Scalar],
    point: &S::Scalar,
) -> (result: Result<(S::Commitment, S::Scalar, S::Proof, bool), CommitError>)
    ensures
        result is Ok <==> S::can_commit(params, coeffs@) && S::can_prove(params, coeffs@),
        result matches Ok((commitment, value, proof, accepted)) ==> {
            &&& S::is_commitment(params, coeffs@, &commitment)
            &&& S::is_opening(params, coeffs@, point, &value, &proof)
            &&& accepted == S::accepts(params, &commitment, point, &value, &proof)
        },
        result matches Err(e) ==> e == S::refusal(),
{
    let commitment = match S::commit(params, coeffs) {
        Ok(commitment) => commitment,
        Err(e) => {
            return Err(e);
        },
    };
    let (value, proof) = match S::prove(params, coeffs, point) {
        Ok(pair) => pair,
        Err(e) => {
            return Err(e);
        },
    };
    let accepted = S::verify(params, &commitment, point, &value, &proof);
    Ok((commitment, value, proof, accepted))
}

} // verus!
