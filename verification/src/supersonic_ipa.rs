//! The inner-product scheme: commitments to coefficient vectors over hashed
//! generators, and evaluation proofs made of a quotient witness and a
//! logarithmic number of folding rounds.

use crate::encoding::{join_ranges, le_bytes, le_value, push_bytes, push_u64_le};
use crate::error::CommitError;
use crate::poly::{
    horner_from, is_pow2, is_power_of_two, lemma_eval_step, lemma_linear_quotient_identity,
    lemma_pow2_log2, linear_quotient, log2, mod_inverse, poly_eval, pow2, sub_mod,
};
use crate::ristretto::{
    basepoint_encoding, encodings, group_order, identity_encoding, msm_prefix, multiscalar_mul,
    ristretto_add, ristretto_mul, scalar_values, Point, Scalar,
};
use crate::sha::{sha256, sha256_digest};
use vstd::arithmetic::div_mod::{
    lemma_add_mod_noop_right, lemma_mul_mod_noop_left, lemma_small_mod,
};
use vstd::arithmetic::power::{lemma_pow0, pow};
use vstd::prelude::*;
use vstd::slice::slice_to_vec;

verus! {

/// The scalar that the digest of `data` stands for.
pub open spec fn hash_scalar(data: Seq<u8>) -> nat {
    le_value(sha256_digest(data)) % group_order()
}

/// The point that `data` is hashed to: the basepoint times the scalar that
/// the digest of `data` stands for.
pub open spec fn hash_point(data: Seq<u8>) -> Seq<u8> {
    ristretto_mul(basepoint_encoding(), hash_scalar(data))
}

/// What is hashed for the generator of index `i` in the vector with the tag
/// `tag`: the tag, then the eight little-endian bytes of `i`.
pub open spec fn generator_tag(tag: u8, i: nat) -> Seq<u8> {
    seq![tag] + le_bytes(i, 8)
}

/// The first `n` generators of the vector with the tag `tag`.
pub open spec fn hashed_generators(tag: u8, n: nat) -> Seq<Seq<u8>> {
    Seq::new(n, |i: int| hash_point(generator_tag(tag, i as nat)))
}

/// The first `n` generators of the vector `G`, over which commitments are
/// made: those with the letter `g` as the tag.
pub open spec fn generators(n: nat) -> Seq<Seq<u8>> {
    hashed_generators(0x67u8, n)
}

/// The first `n` generators of the vector `H`, which is used inside the fold
/// only: those with the letter `h` as the tag.
pub open spec fn fold_generators(n: nat) -> Seq<Seq<u8>> {
    hashed_generators(0x68u8, n)
}

/// The evaluation vector of `x`: `1, x, x^2, ..., x^(n-1)` modulo the group order.
pub open spec fn powers(x: nat, n: nat) -> Seq<nat> {
    Seq::new(n, |i: int| (pow(x as int, i as nat) % (group_order() as int)) as nat)
}

/// The smaller of two lengths.
pub open spec fn shorter(a: nat, b: nat) -> nat {
    if a <= b {
        a
    } else {
        b
    }
}

/// The scalar that `data` is hashed to.
pub fn hash_to_scalar(data: &[u8]) -> (s: Scalar)
    ensures
        s@ == hash_scalar(data@),
{
    Scalar::from_bytes_mod_order(sha256(data))
}

/// The point that `data` is hashed to.
pub fn hash_to_point(data: &[u8]) -> (p: Point)
    ensures
        p@ == hash_point(data@),
{
    let scalar = hash_to_scalar(data);
    Point::basepoint().mul(&scalar)
}

/// The first `n` generators of the vector with the tag `tag`, each hashed
/// from the tag and its index.
fn generate_tagged(tag: u8, n: usize) -> (vec: Vec<Point>)
    ensures
        vec.len() == n,
        encodings(vec@) == hashed_generators(tag, n as nat),
{
    let mut vec: Vec<Point> = Vec::new();
    let mut i: usize = 0;
    while i < n
        invariant
            i <= n,
            vec.len() == i,
            forall|j: int| 0 <= j < i ==> vec[j]@ == hash_point(generator_tag(tag, j as nat)),
        decreases n - i,
    {
        let mut data: Vec<u8> = Vec::new();
        data.push(tag);
        push_u64_le(&mut data, i as u64);
        assert(data@ =~= generator_tag(tag, i as nat));
        let point = hash_to_point(data.as_slice());
        vec.push(point);
        i += 1;
    }
    assert(encodings(vec@) =~= hashed_generators(tag, n as nat));
    vec
}

/// The first `n` generators of the vector `G`, over which commitments are made.
pub fn generate_g_vec(n: usize) -> (g_vec: Vec<Point>)
    ensures
        g_vec.len() == n,
        encodings(g_vec@) == generators(n as nat),
{
    generate_tagged(0x67u8, n)
}

/// The first `n` generators of the vector `H`, which is used inside the fold
/// only.
pub fn generate_h_vec(n: usize) -> (h_vec: Vec<Point>)
    ensures
        h_vec.len() == n,
        encodings(h_vec@) == fold_generators(n as nat),
{
    generate_tagged(0x68u8, n)
}

/// The sum of `scalars[i] * points[i]` over the indices that both have.
pub fn linear_combination(scalars: &[Scalar], points: &[Point]) -> (sum: Point)
    ensures
        sum@ == msm_prefix(
            scalar_values(scalars@),
            encodings(points@),
            shorter(scalars.len() as nat, points.len() as nat),
        ),
{
    let count = if scalars.len() <= points.len() {
        scalars.len()
    } else {
        points.len()
    };
    let mut sum = Point::identity();
    let mut i: usize = 0;
    while i < count
        invariant
            i <= count,
            count <= scalars.len(),
            count <= points.len(),
            sum@ == msm_prefix(scalar_values(scalars@), encodings(points@), i as nat),
        decreases count - i,
    {
        let term = points[i].mul(&scalars[i]);
        sum = sum.add(&term);
        i += 1;
    }
    sum
}

/// The commitment to `coeffs` over `g_vec`: the sum of `coeffs[i] * g_vec[i]`.
/// Needs a power of two as the number of coefficients, and a generator for
/// each.
pub fn commit(coeffs: &[Scalar], g_vec: &[Point]) -> (result: Result<Point, CommitError>)
    ensures
        result is Ok <==> is_pow2(coeffs.len() as nat) && g_vec.len() >= coeffs.len(),
        result matches Ok(c) ==> c@ == msm_prefix(
            scalar_values(coeffs@),
            encodings(g_vec@),
            coeffs.len() as nat,
        ),
        result matches Err(e) ==> e == CommitError::InvalidLength,
{
    if !is_power_of_two(coeffs.len()) || g_vec.len() < coeffs.len() {
        return Err(CommitError::InvalidLength);
    }
    Ok(linear_combination(coeffs, g_vec))
}

/// The value of the polynomial `coeffs` at `x`.
pub fn eval_poly_scalar(coeffs: &[Scalar], x: &Scalar) -> (y: Scalar)
    ensures
        y@ == poly_eval(scalar_values(coeffs@), x@, group_order()),
{
    let mut y = Scalar::zero();
    let mut i: usize = coeffs.len();
    while i > 0
        invariant
            i <= coeffs.len(),
            y@ == horner_from(scalar_values(coeffs@), x@, i as nat) % group_order(),
        decreases i,
    {
        i -= 1;
        let carried = y.mul(x);
        y = coeffs[i].add(&carried);
        proof {
            lemma_eval_step(
                coeffs@[i as int]@,
                x@,
                horner_from(scalar_values(coeffs@), x@, (i + 1) as nat),
                group_order(),
            );
        }
    }
    y
}

/// The evaluation vector of `x`, of length `n`.
pub fn generate_evaluation_vector(x: &Scalar, n: usize) -> (eval_vec: Vec<Scalar>)
    ensures
        eval_vec.len() == n,
        scalar_values(eval_vec@) == powers(x@, n as nat),
{
    let mut eval_vec: Vec<Scalar> = Vec::new();
    let mut i: usize = 0;
    while i < n
        invariant
            i <= n,
            eval_vec.len() == i,
            forall|j: int| 0 <= j < i ==> eval_vec[j]@ == pow(x@ as int, j as nat) % (
            group_order() as int),
        decreases n - i,
    {
        if i == 0 {
            eval_vec.push(Scalar::one());
            proof {
                lemma_pow0(x@ as int);
            }
        } else {
            let next = eval_vec[i - 1].mul(x);
            proof {
                let before = pow(x@ as int, (i - 1) as nat);
                assert(pow(x@ as int, i as nat) == x@ * before) by {
                    reveal(pow);
                }
                lemma_mul_mod_noop_left(before, x@ as int, group_order() as int);
                assert(before * x@ == x@ * before) by (nonlinear_arith);
            }
            eval_vec.push(next);
        }
        i += 1;
    }
    assert(scalar_values(eval_vec@) =~= powers(x@, n as nat));
    eval_vec
}

/// The witness that `y` is the value at `x` of the polynomial `coeffs`: the
/// commitment over `g_vec` to the quotient by `X - x`. Dividing leaves the
/// polynomial's value at `x` as the remainder, so a `y` that is not this value
/// is refused.
pub fn create_kate_witness(coeffs: &[Scalar], x: &Scalar, y: &Scalar, g_vec: &[Point]) -> (result:
    Result<Point, CommitError>)
    ensures
        result is Ok <==> coeffs.len() >= 1 && g_vec.len() >= coeffs.len() - 1 && y@ == poly_eval(
            scalar_values(coeffs@),
            x@,
            group_order(),
        ),
        result matches Ok(witness) ==> witness@ == msm_prefix(
            linear_quotient(scalar_values(coeffs@), x@, group_order()),
            encodings(g_vec@),
            (coeffs.len() - 1) as nat,
        ),
        result matches Err(e) ==> e == (if coeffs.len() == 0 || g_vec.len() < coeffs.len() - 1 {
            CommitError::InvalidLength
        } else {
            CommitError::DivisionRemainderNonzero
        }),
{
    let n = coeffs.len();
    if n == 0 || g_vec.len() < n - 1 {
        return Err(CommitError::InvalidLength);
    }
    let ghost values = scalar_values(coeffs@);
    let mut quotient: Vec<Scalar> = Vec::new();
    let mut k: usize = 0;
    while k < n - 1
        invariant
            k <= n - 1,
            quotient.len() == k,
        decreases n - 1 - k,
    {
        quotient.push(Scalar::zero());
        k += 1;
    }
    let mut remainder = coeffs[n - 1];
    proof {
        remainder.lemma_below_order();
        lemma_small_mod(remainder@, group_order());
        assert(horner_from(values, x@, n as nat) == 0);
        assert(x@ * 0 == 0);
        assert(horner_from(values, x@, (n - 1) as nat) == remainder@);
    }
    let mut i: usize = n - 1;
    while i > 0
        invariant
            i <= n - 1,
            n == coeffs.len(),
            values == scalar_values(coeffs@),
            quotient.len() == n - 1,
            remainder@ == horner_from(values, x@, i as nat) % group_order(),
            forall|j: int|
                i <= j < n - 1 ==> quotient[j]@ == horner_from(values, x@, (j + 1) as nat)
                    % group_order(),
        decreases i,
    {
        i -= 1;
        quotient.set(i, remainder);
        let carried = remainder.mul(x);
        remainder = coeffs[i].add(&carried);
        proof {
            lemma_eval_step(
                coeffs@[i as int]@,
                x@,
                horner_from(values, x@, (i + 1) as nat),
                group_order(),
            );
        }
    }
    if !remainder.equals(y) {
        return Err(CommitError::DivisionRemainderNonzero);
    }
    assert(scalar_values(quotient@) =~= linear_quotient(values, x@, group_order()));
    Ok(linear_combination(quotient.as_slice(), g_vec))
}

/// The four vectors that the folding protocol works on: the coefficients `a`,
/// the evaluation vector `b`, and the generators `g` and `h`.
pub struct FoldState {
    pub a: Seq<nat>,
    pub b: Seq<nat>,
    pub g: Seq<Seq<u8>>,
    pub h: Seq<Seq<u8>>,
}

/// What a proof of the folding protocol holds: the cross-commitments of the
/// rounds, and the two scalars that are left.
pub struct IpaProofView {
    pub l_vec: Seq<Seq<u8>>,
    pub r_vec: Seq<Seq<u8>>,
    pub a_final: nat,
    pub b_final: nat,
}

/// A proof of the folding protocol.
pub struct IpaProof {
    pub l_vec: Vec<Point>,
    pub r_vec: Vec<Point>,
    pub a_final: Scalar,
    pub b_final: Scalar,
}

impl View for IpaProof {
    type V = IpaProofView;

    open spec fn view(&self) -> IpaProofView {
        IpaProofView {
            l_vec: encodings(self.l_vec@),
            r_vec: encodings(self.r_vec@),
            a_final: self.a_final@,
            b_final: self.b_final@,
        }
    }
}

/// The left half of `v` plus `c` times its right half, entry by entry.
pub open spec fn fold_scalars(v: Seq<nat>, c: nat) -> Seq<nat> {
    let mid = v.len() / 2;
    Seq::new(mid, |i: int| (v[i] + c * v[mid + i]) % group_order())
}

/// The left half of `v` plus `c` times its right half, entry by entry.
pub open spec fn fold_points(v: Seq<Seq<u8>>, c: nat) -> Seq<Seq<u8>> {
    let mid = v.len() / 2;
    Seq::new(mid, |i: int| ristretto_add(v[i], ristretto_mul(v[mid + i], c)))
}

/// The cross-commitment `L`: the left half of `a` over the right half of `g`,
/// plus the right half of `b` over the left half of `h`.
pub open spec fn cross_left(st: FoldState) -> Seq<u8> {
    let mid = (st.a.len() / 2) as int;
    let len = st.a.len() as int;
    msm_prefix(
        st.a.subrange(0, mid) + st.b.subrange(mid, len),
        st.g.subrange(mid, len) + st.h.subrange(0, mid),
        (2 * mid) as nat,
    )
}

/// The cross-commitment `R`: the right half of `a` over the left half of `g`,
/// plus the left half of `b` over the right half of `h`.
pub open spec fn cross_right(st: FoldState) -> Seq<u8> {
    let mid = (st.a.len() / 2) as int;
    let len = st.a.len() as int;
    msm_prefix(
        st.a.subrange(mid, len) + st.b.subrange(0, mid),
        st.g.subrange(0, mid) + st.h.subrange(mid, len),
        (2 * mid) as nat,
    )
}

/// The challenge of a round: the scalar that the encodings of `l` and `r`,
/// one after the other, are hashed to.
pub open spec fn challenge(l: Seq<u8>, r: Seq<u8>) -> nat {
    hash_scalar(l + r)
}

/// The vectors after one round: each folded by the round's challenge.
pub open spec fn fold_step(st: FoldState) -> FoldState {
    let c = challenge(cross_left(st), cross_right(st));
    FoldState {
        a: fold_scalars(st.a, c),
        b: fold_scalars(st.b, c),
        g: fold_points(st.g, c),
        h: fold_points(st.h, c),
    }
}

/// The cross-commitments `L` of all the rounds that follow from `st`.
pub open spec fn fold_lefts(st: FoldState) -> Seq<Seq<u8>>
    decreases st.a.len(),
{
    if st.a.len() <= 1 {
        Seq::empty()
    } else {
        seq![cross_left(st)] + fold_lefts(fold_step(st))
    }
}

/// The cross-commitments `R` of all the rounds that follow from `st`.
pub open spec fn fold_rights(st: FoldState) -> Seq<Seq<u8>>
    decreases st.a.len(),
{
    if st.a.len() <= 1 {
        Seq::empty()
    } else {
        seq![cross_right(st)] + fold_rights(fold_step(st))
    }
}

/// The vectors when no round is left.
pub open spec fn fold_final(st: FoldState) -> FoldState
    decreases st.a.len(),
{
    if st.a.len() <= 1 {
        st
    } else {
        fold_final(fold_step(st))
    }
}

/// The vectors that the prover starts from: the coefficients, the evaluation
/// vector of `x`, the generators `g`, and as `h` the generators of the vector
/// `H`.
pub open spec fn initial_state(coeffs: Seq<nat>, g: Seq<Seq<u8>>, x: nat) -> FoldState {
    FoldState { a: coeffs, b: powers(x, coeffs.len()), g, h: fold_generators(coeffs.len()) }
}

/// The proof that the protocol yields from `st`.
pub open spec fn proof_from(st: FoldState) -> IpaProofView {
    IpaProofView {
        l_vec: fold_lefts(st),
        r_vec: fold_rights(st),
        a_final: fold_final(st).a[0],
        b_final: fold_final(st).b[0],
    }
}

/// The challenge of the round with the cross-commitments `l` and `r`.
pub fn round_challenge(l: &Point, r: &Point) -> (c: Scalar)
    ensures
        c@ == challenge(l@, r@),
{
    let mut data: Vec<u8> = Vec::new();
    let left = l.to_bytes();
    let right = r.to_bytes();
    push_bytes(&mut data, left.as_slice());
    push_bytes(&mut data, right.as_slice());
    assert(data@ =~= l@ + r@);
    hash_to_scalar(data.as_slice())
}

/// The left half of `v` plus `c` times its right half.
fn fold_scalar_vec(v: &Vec<Scalar>, c: &Scalar) -> (folded: Vec<Scalar>)
    ensures
        folded.len() == v.len() / 2,
        scalar_values(folded@) == fold_scalars(scalar_values(v@), c@),
{
    let mid = v.len() / 2;
    let mut folded: Vec<Scalar> = Vec::new();
    let mut i: usize = 0;
    while i < mid
        invariant
            i <= mid,
            mid == v.len() / 2,
            folded.len() == i,
            forall|j: int|
                0 <= j < i ==> folded[j]@ == (v[j]@ + c@ * v[mid + j]@) % group_order(),
        decreases mid - i,
    {
        let scaled = c.mul(&v[mid + i]);
        let entry = v[i].add(&scaled);
        proof {
            lemma_add_mod_noop_right(
                v[i as int]@ as int,
                (c@ * v[mid + i]@) as int,
                group_order() as int,
            );
        }
        folded.push(entry);
        i += 1;
    }
    assert(scalar_values(folded@) =~= fold_scalars(scalar_values(v@), c@));
    folded
}

/// The left half of `v` plus `c` times its right half.
fn fold_point_vec(v: &Vec<Point>, c: &Scalar) -> (folded: Vec<Point>)
    ensures
        folded.len() == v.len() / 2,
        encodings(folded@) == fold_points(encodings(v@), c@),
{
    let mid = v.len() / 2;
    let mut folded: Vec<Point> = Vec::new();
    let mut i: usize = 0;
    while i < mid
        invariant
            i <= mid,
            mid == v.len() / 2,
            folded.len() == i,
            forall|j: int|
                0 <= j < i ==> folded[j]@ == ristretto_add(v[j]@, ristretto_mul(v[mid + j]@, c@)),
        decreases mid - i,
    {
        let scaled = v[mid + i].mul(c);
        let entry = v[i].add(&scaled);
        folded.push(entry);
        i += 1;
    }
    assert(encodings(folded@) =~= fold_points(encodings(v@), c@));
    folded
}

/// The proof that the inner product of `coeffs` and the evaluation vector of
/// `x` is what it is: one pair of cross-commitments for each halving of the
/// vectors, and the two scalars that are left when their length is one.
/// Needs a power of two as the length, and as many generators.
pub fn create_ipa_proof(coeffs: &[Scalar], g_vec: &[Point], x: &Scalar) -> (result: Result<
    IpaProof,
    CommitError,
>)
    ensures
        result is Ok <==> is_pow2(coeffs.len() as nat) && g_vec.len() == coeffs.len(),
        result matches Ok(proof) ==> proof@ == proof_from(
            initial_state(scalar_values(coeffs@), encodings(g_vec@), x@),
        ) && proof.l_vec.len() == log2(coeffs.len() as nat) && proof.r_vec.len() == log2(
            coeffs.len() as nat,
        ) && pow2(proof.l_vec.len() as nat) == coeffs.len(),
        result matches Err(e) ==> e == CommitError::InvalidLength,
{
    let n = coeffs.len();
    if !is_power_of_two(n) || g_vec.len() != n {
        return Err(CommitError::InvalidLength);
    }
    proof {
        lemma_pow2_log2(n as nat);
    }
    let mut a_vec = slice_to_vec(coeffs);
    let mut b_vec = generate_evaluation_vector(x, n);
    let mut g_vec = slice_to_vec(g_vec);
    let mut h_vec = generate_h_vec(n);
    let ghost start = initial_state(scalar_values(a_vec@), encodings(g_vec@), x@);
    let mut l_vec: Vec<Point> = Vec::new();
    let mut r_vec: Vec<Point> = Vec::new();
    assert(encodings(l_vec@) =~= Seq::<Seq<u8>>::empty());
    assert(encodings(r_vec@) =~= Seq::<Seq<u8>>::empty());
    assert(Seq::<Seq<u8>>::empty() + fold_lefts(start) =~= fold_lefts(start));
    assert(Seq::<Seq<u8>>::empty() + fold_rights(start) =~= fold_rights(start));
    while a_vec.len() > 1
        invariant
            is_pow2(a_vec.len() as nat),
            b_vec.len() == a_vec.len(),
            g_vec.len() == a_vec.len(),
            h_vec.len() == a_vec.len(),
            l_vec.len() == r_vec.len(),
            l_vec.len() + log2(a_vec.len() as nat) == log2(n as nat),
            fold_lefts(start) == encodings(l_vec@) + fold_lefts(
                FoldState {
                    a: scalar_values(a_vec@),
                    b: scalar_values(b_vec@),
                    g: encodings(g_vec@),
                    h: encodings(h_vec@),
                },
            ),
            fold_rights(start) == encodings(r_vec@) + fold_rights(
                FoldState {
                    a: scalar_values(a_vec@),
                    b: scalar_values(b_vec@),
                    g: encodings(g_vec@),
                    h: encodings(h_vec@),
                },
            ),
            fold_final(start) == fold_final(
                FoldState {
                    a: scalar_values(a_vec@),
                    b: scalar_values(b_vec@),
                    g: encodings(g_vec@),
                    h: encodings(h_vec@),
                },
            ),
        decreases a_vec.len(),
    {
        let len = a_vec.len();
        let mid = len / 2;
        let ghost st = FoldState {
            a: scalar_values(a_vec@),
            b: scalar_values(b_vec@),
            g: encodings(g_vec@),
            h: encodings(h_vec@),
        };
        let l_scalars = join_ranges(&a_vec, 0, &b_vec, mid, mid);
        let l_points = join_ranges(&g_vec, mid, &h_vec, 0, mid);
        let l_commit = multiscalar_mul(&l_scalars, &l_points);
        let r_scalars = join_ranges(&a_vec, mid, &b_vec, 0, mid);
        let r_points = join_ranges(&g_vec, 0, &h_vec, mid, mid);
        let r_commit = multiscalar_mul(&r_scalars, &r_points);
        proof {
            assert(scalar_values(l_scalars@) =~= st.a.subrange(0, mid as int) + st.b.subrange(
                mid as int,
                len as int,
            ));
            assert(encodings(l_points@) =~= st.g.subrange(mid as int, len as int) + st.h.subrange(
                0,
                mid as int,
            ));
            assert(scalar_values(r_scalars@) =~= st.a.subrange(mid as int, len as int)
                + st.b.subrange(0, mid as int));
            assert(encodings(r_points@) =~= st.g.subrange(0, mid as int) + st.h.subrange(
                mid as int,
                len as int,
            ));
            assert(l_commit@ == cross_left(st));
            assert(r_commit@ == cross_right(st));
        }
        let ghost lefts = encodings(l_vec@);
        let ghost rights = encodings(r_vec@);
        l_vec.push(l_commit);
        r_vec.push(r_commit);
        let c = round_challenge(&l_commit, &r_commit);
        a_vec = fold_scalar_vec(&a_vec, &c);
        b_vec = fold_scalar_vec(&b_vec, &c);
        g_vec = fold_point_vec(&g_vec, &c);
        h_vec = fold_point_vec(&h_vec, &c);
        proof {
            let next = FoldState {
                a: scalar_values(a_vec@),
                b: scalar_values(b_vec@),
                g: encodings(g_vec@),
                h: encodings(h_vec@),
            };
            assert(next == fold_step(st));
            assert(encodings(l_vec@) =~= lefts.push(cross_left(st)));
            assert(encodings(r_vec@) =~= rights.push(cross_right(st)));
            assert(lefts + (seq![cross_left(st)] + fold_lefts(next)) =~= lefts.push(
                cross_left(st),
            ) + fold_lefts(next));
            assert(rights + (seq![cross_right(st)] + fold_rights(next)) =~= rights.push(
                cross_right(st),
            ) + fold_rights(next));
        }
    }
    proof {
        let last = FoldState {
            a: scalar_values(a_vec@),
            b: scalar_values(b_vec@),
            g: encodings(g_vec@),
            h: encodings(h_vec@),
        };
        assert(encodings(l_vec@) + fold_lefts(last) =~= encodings(l_vec@));
        assert(encodings(r_vec@) + fold_rights(last) =~= encodings(r_vec@));
        assert(fold_final(last) == last);
    }
    Ok(IpaProof { l_vec, r_vec, a_final: a_vec[0], b_final: b_vec[0] })
}

/// An evaluation proof: the quotient witness and the proof of the folding
/// protocol.
pub struct EvaluationProof {
    pub witness: Point,
    pub ipa_proof: IpaProof,
}

/// A commitment, a point, the value claimed there, and the proof of it.
pub struct SupersonicProof {
    pub commitment: Point,
    pub evaluation_proof: EvaluationProof,
    pub point: Scalar,
    pub value: Scalar,
}

/// What a `SupersonicProof` holds.
pub struct SupersonicProofView {
    pub commitment: Seq<u8>,
    pub witness: Seq<u8>,
    pub ipa_proof: IpaProofView,
    pub point: nat,
    pub value: nat,
}

impl View for SupersonicProof {
    type V = SupersonicProofView;

    open spec fn view(&self) -> SupersonicProofView {
        SupersonicProofView {
            commitment: self.commitment@,
            witness: self.evaluation_proof.witness@,
            ipa_proof: self.evaluation_proof.ipa_proof@,
            point: self.point@,
            value: self.value@,
        }
    }
}

/// The proof that the prover builds for the polynomial `coeffs` at `x`, over
/// the hashed generators.
pub open spec fn honest_proof(coeffs: Seq<nat>, x: nat) -> SupersonicProofView {
    let g = generators(coeffs.len());
    SupersonicProofView {
        commitment: msm_prefix(coeffs, g, coeffs.len()),
        witness: msm_prefix(
            linear_quotient(coeffs, x, group_order()),
            g,
            (coeffs.len() - 1) as nat,
        ),
        ipa_proof: proof_from(initial_state(coeffs, g, x)),
        point: x,
        value: poly_eval(coeffs, x, group_order()),
    }
}

/// What the verifier accepts over the generators `g`: the witness check and
/// the folding protocol's checks.
pub open spec fn supersonic_accepts(proof: SupersonicProofView, g: Seq<Seq<u8>>) -> bool {
    &&& witness_accepts(proof.commitment, proof.witness, proof.value, g)
    &&& ipa_accepts(proof.commitment, g, proof.value, proof.ipa_proof)
}

/// The challenges that a verifier derives from the cross-commitments of a proof.
pub open spec fn challenges(l_vec: Seq<Seq<u8>>, r_vec: Seq<Seq<u8>>) -> Seq<nat> {
    Seq::new(l_vec.len(), |i: int| challenge(l_vec[i], r_vec[i]))
}

/// `v` after the first `rounds` folds, by the challenges `cs` in their order.
pub open spec fn refold_points(v: Seq<Seq<u8>>, cs: Seq<nat>, rounds: nat) -> Seq<Seq<u8>>
    decreases rounds,
{
    if rounds == 0 {
        v
    } else {
        fold_points(refold_points(v, cs, (rounds - 1) as nat), cs[rounds - 1])
    }
}

/// `v` after the first `rounds` folds, by the challenges `cs` in their order.
pub open spec fn refold_scalars(v: Seq<nat>, cs: Seq<nat>, rounds: nat) -> Seq<nat>
    decreases rounds,
{
    if rounds == 0 {
        v
    } else {
        fold_scalars(refold_scalars(v, cs, (rounds - 1) as nat), cs[rounds - 1])
    }
}

/// The commitment `c` with the cross-commitments of the first `rounds` rounds
/// folded in: for each round, in order, `L` times the inverse of the round's
/// challenge plus `R` times the challenge is added.
pub open spec fn folded_commitment(
    c: Seq<u8>,
    l_vec: Seq<Seq<u8>>,
    r_vec: Seq<Seq<u8>>,
    cs: Seq<nat>,
    rounds: nat,
) -> Seq<u8>
    decreases rounds,
{
    if rounds == 0 {
        c
    } else {
        let i = rounds - 1;
        ristretto_add(
            folded_commitment(c, l_vec, r_vec, cs, i as nat),
            ristretto_add(
                ristretto_mul(l_vec[i], mod_inverse(cs[i], group_order())),
                ristretto_mul(r_vec[i], cs[i]),
            ),
        )
    }
}

/// Whether `proof` has the shape that `n` generators ask for: `n` is a power
/// of two, there are as many `L` as `R`, one pair for each halving of `n`,
/// and no challenge is zero.
pub open spec fn well_shaped(n: nat, proof: IpaProofView) -> bool {
    &&& is_pow2(n)
    &&& proof.l_vec.len() == log2(n)
    &&& proof.r_vec.len() == log2(n)
    &&& forall|i: int|
        0 <= i < proof.l_vec.len() ==> #[trigger] challenges(proof.l_vec, proof.r_vec)[i] != 0
}

/// The folding equation: the commitment with the cross-commitments folded in
/// is `a_final` times the folded `g` plus `b_final` times the folded `h`,
/// where `h` is the generators of the vector `H`.
pub open spec fn fold_equation(commitment: Seq<u8>, g: Seq<Seq<u8>>, proof: IpaProofView) -> bool {
    let cs = challenges(proof.l_vec, proof.r_vec);
    let rounds = proof.l_vec.len();
    &&& well_shaped(g.len(), proof)
    &&& folded_commitment(commitment, proof.l_vec, proof.r_vec, cs, rounds) == msm_prefix(
        seq![proof.a_final, proof.b_final],
        seq![
            refold_points(g, cs, rounds)[0],
            refold_points(fold_generators(g.len()), cs, rounds)[0],
        ],
        2,
    )
}

/// What the verifier of the folding protocol accepts: the folding equation
/// holds, and `a_final * b_final` is `y`.
pub open spec fn ipa_accepts(commitment: Seq<u8>, g: Seq<Seq<u8>>, y: nat, proof: IpaProofView) -> bool {
    &&& fold_equation(commitment, g, proof)
    &&& (proof.a_final * proof.b_final) % group_order() == y
}

/// What the witness check accepts: the witness plus `y` times the first
/// generator is the commitment.
pub open spec fn witness_accepts(commitment: Seq<u8>, witness: Seq<u8>, y: nat, g: Seq<Seq<u8>>) -> bool {
    g.len() >= 1 && ristretto_add(witness, ristretto_mul(g[0], y)) == commitment
}

/// Folding by the challenges halves the length each round, so that `log2` of
/// a power of two many rounds leave one entry.
proof fn lemma_fold_lengths(n: nat)
    requires
        is_pow2(n),
        n >= 2,
    ensures
        is_pow2(n / 2),
        log2(n) == 1 + log2(n / 2),
{
}

/// Folding by a first challenge and then by `rounds` more is folding by all
/// of them.
proof fn lemma_refold_points_front(v: Seq<Seq<u8>>, c: nat, rest: Seq<nat>, rounds: nat)
    requires
        rounds <= rest.len(),
    ensures
        refold_points(v, seq![c] + rest, rounds + 1) == refold_points(
            fold_points(v, c),
            rest,
            rounds,
        ),
    decreases rounds,
{
    let cs = seq![c] + rest;
    if rounds == 0 {
        assert(refold_points(v, cs, 0) == v);
        assert(cs[0] == c);
    } else {
        lemma_refold_points_front(v, c, rest, (rounds - 1) as nat);
        assert(cs[rounds as int] == rest[rounds - 1]);
    }
}

/// Folding by a first challenge and then by `rounds` more is folding by all
/// of them.
proof fn lemma_refold_scalars_front(v: Seq<nat>, c: nat, rest: Seq<nat>, rounds: nat)
    requires
        rounds <= rest.len(),
    ensures
        refold_scalars(v, seq![c] + rest, rounds + 1) == refold_scalars(
            fold_scalars(v, c),
            rest,
            rounds,
        ),
    decreases rounds,
{
    let cs = seq![c] + rest;
    if rounds == 0 {
        assert(refold_scalars(v, cs, 0) == v);
        assert(cs[0] == c);
    } else {
        lemma_refold_scalars_front(v, c, rest, (rounds - 1) as nat);
        assert(cs[rounds as int] == rest[rounds - 1]);
    }
}

/// The verifier follows the prover. Of the proof that the protocol yields
/// from four vectors of one length, a power of two: it holds one pair of
/// cross-commitments for each halving of the length; the challenges that the
/// verifier derives from them are those by which the prover folded, so that
/// folding the four vectors by them gives what the prover was left with; and
/// `b_final` is what is left of `b`.
pub proof fn lemma_verifier_refolds_as_prover(st: FoldState)
    requires
        is_pow2(st.a.len()),
        st.b.len() == st.a.len(),
        st.g.len() == st.a.len(),
        st.h.len() == st.a.len(),
    ensures
        proof_from(st).l_vec.len() == log2(st.a.len()),
        proof_from(st).r_vec.len() == log2(st.a.len()),
        refold_scalars(
            st.a,
            challenges(proof_from(st).l_vec, proof_from(st).r_vec),
            log2(st.a.len()),
        ) == fold_final(st).a,
        refold_scalars(
            st.b,
            challenges(proof_from(st).l_vec, proof_from(st).r_vec),
            log2(st.a.len()),
        ) == fold_final(st).b,
        refold_points(
            st.g,
            challenges(proof_from(st).l_vec, proof_from(st).r_vec),
            log2(st.a.len()),
        ) == fold_final(st).g,
        refold_points(
            st.h,
            challenges(proof_from(st).l_vec, proof_from(st).r_vec),
            log2(st.a.len()),
        ) == fold_final(st).h,
        fold_final(st).a.len() == 1,
        fold_final(st).b.len() == 1,
        proof_from(st).b_final == refold_scalars(
            st.b,
            challenges(proof_from(st).l_vec, proof_from(st).r_vec),
            log2(st.a.len()),
        )[0],
    decreases st.a.len(),
{
    if st.a.len() >= 2 {
        let next = fold_step(st);
        let c = challenge(cross_left(st), cross_right(st));
        lemma_fold_lengths(st.a.len());
        lemma_verifier_refolds_as_prover(next);
        let l = proof_from(st).l_vec;
        let r = proof_from(st).r_vec;
        let l_rest = proof_from(next).l_vec;
        let r_rest = proof_from(next).r_vec;
        assert(l == seq![cross_left(st)] + l_rest);
        assert(r == seq![cross_right(st)] + r_rest);
        let cs = challenges(l, r);
        let rest = challenges(l_rest, r_rest);
        assert(cs =~= seq![c] + rest);
        let rounds = log2(next.a.len());
        lemma_refold_scalars_front(st.a, c, rest, rounds);
        lemma_refold_scalars_front(st.b, c, rest, rounds);
        lemma_refold_points_front(st.g, c, rest, rounds);
        lemma_refold_points_front(st.h, c, rest, rounds);
    }
}

/// The proof for a constant polynomial: no round, the constant and one as
/// the scalars that are left, the neutral element as the witness, and the
/// constant as the value, whatever the point.
pub proof fn lemma_constant_polynomial_proof(c: nat, x: nat)
    requires
        c < group_order(),
    ensures
        honest_proof(seq![c], x).ipa_proof.l_vec.len() == 0,
        honest_proof(seq![c], x).ipa_proof.r_vec.len() == 0,
        honest_proof(seq![c], x).ipa_proof.a_final == c,
        honest_proof(seq![c], x).ipa_proof.b_final == 1,
        honest_proof(seq![c], x).witness == identity_encoding(),
        honest_proof(seq![c], x).value == c,
{
    let coeffs = seq![c];
    let st = initial_state(coeffs, generators(1), x);
    assert(fold_final(st) == st);
    lemma_pow0(x as int);
    lemma_small_mod(1, group_order());
    assert(st.b[0] == 1);
    assert(horner_from(coeffs, x, 1) == 0);
    assert(x * 0 == 0);
    assert(horner_from(coeffs, x, 0) == c);
    lemma_small_mod(c, group_order());
}

/// Why the division in `create_kate_witness` leaves the value as the
/// remainder: at every `t`, the polynomial `f` is its quotient by `X - x`
/// times `t - x`, plus its value at `x`, in the scalar field.
pub proof fn lemma_quotient_polynomial(f: Seq<nat>, x: nat, t: nat)
    ensures
        poly_eval(f, t, group_order()) == (poly_eval(
            linear_quotient(f, x, group_order()),
            t,
            group_order(),
        ) * sub_mod(t, x, group_order()) + poly_eval(f, x, group_order())) % group_order(),
{
    lemma_linear_quotient_identity(f, x, t, group_order());
}

/// The challenges of `proof`, if it has as many `L` as `R`.
fn derive_challenges(proof: &IpaProof) -> (cs: Vec<Scalar>)
    requires
        proof.l_vec.len() == proof.r_vec.len(),
    ensures
        cs.len() == proof.l_vec.len(),
        scalar_values(cs@) == challenges(proof@.l_vec, proof@.r_vec),
{
    let mut cs: Vec<Scalar> = Vec::new();
    let mut i: usize = 0;
    while i < proof.l_vec.len()
        invariant
            i <= proof.l_vec.len(),
            proof.l_vec.len() == proof.r_vec.len(),
            cs.len() == i,
            forall|j: int|
                0 <= j < i ==> cs[j]@ == challenge(proof.l_vec[j]@, proof.r_vec[j]@),
        decreases proof.l_vec.len() - i,
    {
        let c = round_challenge(&proof.l_vec[i], &proof.r_vec[i]);
        cs.push(c);
        i += 1;
    }
    assert(scalar_values(cs@) =~= challenges(proof@.l_vec, proof@.r_vec));
    cs
}

/// Whether the folding equation holds of `proof` for `commitment` over the
/// generators `g_vec`.
pub fn verify_proof(commitment: &Point, g_vec: &[Point], proof: &IpaProof) -> (ok: bool)
    ensures
        ok == fold_equation(commitment@, encodings(g_vec@), proof@),
{
    let n = g_vec.len();
    let rounds = proof.l_vec.len();
    if !is_power_of_two(n) || proof.r_vec.len() != rounds {
        return false;
    }
    let cs = derive_challenges(proof);
    let ghost l = proof@.l_vec;
    let ghost r = proof@.r_vec;
    let ghost cv = challenges(l, r);
    let mut g = slice_to_vec(g_vec);
    let mut h = generate_h_vec(n);
    let mut folded = *commitment;
    let mut i: usize = 0;
    while i < rounds
        invariant
            i <= rounds,
            rounds == proof.l_vec.len(),
            rounds == proof.r_vec.len(),
            cs.len() == rounds,
            scalar_values(cs@) == cv,
            l == encodings(proof.l_vec@),
            r == encodings(proof.r_vec@),
            cv == challenges(l, r),
            n == g_vec.len(),
            is_pow2(n as nat),
            is_pow2(g.len() as nat),
            g.len() == h.len(),
            i + log2(g.len() as nat) == log2(n as nat),
            forall|j: int| 0 <= j < i ==> cv[j] != 0,
            encodings(g@) == refold_points(encodings(g_vec@), cv, i as nat),
            encodings(h@) == refold_points(fold_generators(n as nat), cv, i as nat),
            folded@ == folded_commitment(commitment@, l, r, cv, i as nat),
        decreases rounds - i,
    {
        if g.len() < 2 {
            // more rounds than halvings
            assert(log2(g.len() as nat) == 0);
            assert(proof@.l_vec.len() == rounds);
            assert(!well_shaped(encodings(g_vec@).len(), proof@));
            return false;
        }
        let c = cs[i];
        assert(c@ == cv[i as int]);
        let inverse = match c.invert() {
            Some(inverse) => inverse,
            None => {
                assert(challenges(proof@.l_vec, proof@.r_vec)[i as int] == 0);
                return false;
            },
        };
        let left = proof.l_vec[i].mul(&inverse);
        let right = proof.r_vec[i].mul(&c);
        let term = left.add(&right);
        folded = folded.add(&term);
        proof {
            lemma_fold_lengths(g.len() as nat);
        }
        g = fold_point_vec(&g, &c);
        h = fold_point_vec(&h, &c);
        i += 1;
    }
    if g.len() != 1 {
        // fewer rounds than halvings
        return false;
    }
    let mut scalars: Vec<Scalar> = Vec::new();
    scalars.push(proof.a_final);
    scalars.push(proof.b_final);
    let mut points: Vec<Point> = Vec::new();
    points.push(g[0]);
    points.push(h[0]);
    let expected = multiscalar_mul(&scalars, &points);
    proof {
        assert(scalar_values(scalars@) =~= seq![proof@.a_final, proof@.b_final]);
        assert(encodings(points@) =~= seq![
            refold_points(encodings(g_vec@), cv, rounds as nat)[0],
            refold_points(fold_generators(n as nat), cv, rounds as nat)[0],
        ]);
    }
    folded.equals(&expected)
}

/// Whether the verifier of the folding protocol accepts `proof` as a proof
/// that the polynomial committed to in `commitment` over `g_vec` has the value
/// `y`: the folding equation holds, and the two scalars that are left have
/// the product `y`. The point `_x` plays no part.
pub fn verify_ipa_proof(
    commitment: &Point,
    g_vec: &[Point],
    _x: &Scalar,
    y: &Scalar,
    proof: &IpaProof,
) -> (ok: bool)
    ensures
        ok == ipa_accepts(commitment@, encodings(g_vec@), y@, proof@),
{
    if !verify_proof(commitment, g_vec, proof) {
        return false;
    }
    let product = proof.a_final.mul(&proof.b_final);
    product.equals(y)
}

/// Whether the witness check holds: the witness plus `y` times the first
/// generator is the commitment.
pub fn verify_kate_witness(commitment: &Point, witness: &Point, y: &Scalar, g_vec: &[Point]) -> (ok:
    bool)
    ensures
        ok == witness_accepts(commitment@, witness@, y@, encodings(g_vec@)),
{
    if g_vec.len() == 0 {
        return false;
    }
    let y_g = g_vec[0].mul(y);
    let expected = witness.add(&y_g);
    expected.equals(commitment)
}

/// The commitment to `coeffs` over the hashed generators, and the generators.
/// Needs a power of two as the number of coefficients.
pub fn supersonic_commit(coeffs: &[Scalar]) -> (result: Result<(Point, Vec<Point>), CommitError>)
    ensures
        result is Ok <==> is_pow2(coeffs.len() as nat),
        result matches Ok((commitment, g_vec)) ==> g_vec.len() == coeffs.len() && encodings(g_vec@)
            == generators(coeffs.len() as nat) && commitment@ == msm_prefix(
            scalar_values(coeffs@),
            generators(coeffs.len() as nat),
            coeffs.len() as nat,
        ),
        result matches Err(e) ==> e == CommitError::InvalidLength,
{
    let g_vec = generate_g_vec(coeffs.len());
    match commit(coeffs, g_vec.as_slice()) {
        Ok(commitment) => Ok((commitment, g_vec)),
        Err(e) => Err(e),
    }
}

/// The commitment to `coeffs`, the value at `x`, and the proof of that value:
/// the quotient witness and the proof of the folding protocol. Needs a power
/// of two as the number of coefficients.
pub fn supersonic_create_proof(coeffs: &[Scalar], x: &Scalar) -> (result: Result<
    SupersonicProof,
    CommitError,
>)
    ensures
        result is Ok <==> is_pow2(coeffs.len() as nat),
        result matches Ok(proof) ==> proof@ == honest_proof(scalar_values(coeffs@), x@)
            && proof.evaluation_proof.ipa_proof.l_vec.len() == log2(coeffs.len() as nat)
            && proof.evaluation_proof.ipa_proof.r_vec.len() == log2(coeffs.len() as nat)
            && pow2(proof.evaluation_proof.ipa_proof.l_vec.len() as nat) == coeffs.len(),
        result matches Err(e) ==> e == CommitError::InvalidLength,
{
    let (commitment, g_vec) = match supersonic_commit(coeffs) {
        Ok(pair) => pair,
        Err(e) => {
            return Err(e);
        },
    };
    let y = eval_poly_scalar(coeffs, x);
    let witness = match create_kate_witness(coeffs, x, &y, g_vec.as_slice()) {
        Ok(witness) => witness,
        Err(e) => {
            return Err(e);
        },
    };
    let ipa_proof = match create_ipa_proof(coeffs, g_vec.as_slice(), x) {
        Ok(ipa_proof) => ipa_proof,
        Err(e) => {
            return Err(e);
        },
    };
    let evaluation_proof = EvaluationProof { witness, ipa_proof };
    Ok(SupersonicProof { commitment, evaluation_proof, point: *x, value: y })
}

/// Whether `proof` is accepted over the generators `g_vec`: the witness check
/// holds, and the verifier of the folding protocol accepts.
pub fn supersonic_verify_proof(proof: &SupersonicProof, g_vec: &[Point]) -> (ok: bool)
    ensures
        ok == supersonic_accepts(proof@, encodings(g_vec@)),
{
    let kate_valid = verify_kate_witness(
        &proof.commitment,
        &proof.evaluation_proof.witness,
        &proof.value,
        g_vec,
    );
    let ipa_valid = verify_ipa_proof(
        &proof.commitment,
        g_vec,
        &proof.point,
        &proof.value,
        &proof.evaluation_proof.ipa_proof,
    );
    kate_valid && ipa_valid
}

/// The proof of the folding protocol for the polynomial `coeffs` at `x`, over
/// the hashed generators. Needs a power of two as the number of coefficients.
pub fn create_proof(coeffs: &[Scalar], x: &Scalar) -> (result: Result<IpaProof, CommitError>)
    ensures
        result is Ok <==> is_pow2(coeffs.len() as nat),
        result matches Ok(proof) ==> proof@ == proof_from(
            initial_state(scalar_values(coeffs@), generators(coeffs.len() as nat), x@),
        ) && proof.l_vec.len() == log2(coeffs.len() as nat) && proof.r_vec.len() == log2(
            coeffs.len() as nat,
        ) && pow2(proof.l_vec.len() as nat) == coeffs.len(),
        result matches Err(e) ==> e == CommitError::InvalidLength,
{
    let g_vec = generate_g_vec(coeffs.len());
    create_ipa_proof(coeffs, g_vec.as_slice(), x)
}

} // verus!
