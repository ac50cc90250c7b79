use polycommit::error::CommitError;
use polycommit::ristretto::{Point, Scalar};
use polycommit::supersonic_ipa::{
    commit, linear_combination, create_ipa_proof, create_kate_witness, create_proof, eval_poly_scalar,
    generate_evaluation_vector, generate_g_vec, generate_h_vec, hash_to_point, hash_to_scalar, round_challenge,
    supersonic_commit, supersonic_create_proof, supersonic_verify_proof, verify_ipa_proof,
    verify_kate_witness, verify_proof, IpaProof,
};

fn scalars(values: &[u64]) -> Vec<Scalar> {
    values.iter().map(|v| Scalar::from_u64(*v)).collect()
}

fn same_points(a: &[Point], b: &[Point]) -> bool {
    a.len() == b.len() && a.iter().zip(b.iter()).all(|(p, q)| p.equals(q))
}

#[test]
fn hash_to_scalar_reduces_the_digest() {
    // SHA-256 of the empty string, read little-endian, modulo the group order
    let expected: [u8; 32] = [
        66, 141, 247, 113, 20, 13, 193, 91, 106, 235, 30, 154, 64, 142, 94, 188, 38, 174, 65, 228,
        100, 155, 147, 76, 164, 149, 153, 27, 120, 82, 184, 5,
    ];
    assert_eq!(hash_to_scalar(&[]).to_bytes(), expected);
    assert!(!hash_to_scalar(b"abc").equals(&hash_to_scalar(&[])));
}

#[test]
fn hash_to_point_is_the_basepoint_times_the_hashed_scalar() {
    let p = hash_to_point(b"abc");
    assert!(p.equals(&Point::basepoint().mul(&hash_to_scalar(b"abc"))));
    assert!(!p.equals(&Point::basepoint()));
}

#[test]
fn generators_are_hashed_from_their_index() {
    let g = generate_g_vec(3);
    assert_eq!(g.len(), 3);
    assert!(g[0].equals(&hash_to_point(&[0x67, 0, 0, 0, 0, 0, 0, 0, 0])));
    assert!(g[1].equals(&hash_to_point(&[0x67, 1, 0, 0, 0, 0, 0, 0, 0])));
    assert!(g[2].equals(&hash_to_point(&[0x67, 2, 0, 0, 0, 0, 0, 0, 0])));
    assert!(!g[0].equals(&g[1]));
    assert!(generate_g_vec(0).is_empty());
    // a longer vector starts with the shorter one
    assert!(same_points(&generate_g_vec(8)[..3], &g));
}

#[test]
fn commitment_is_the_sum_of_coefficient_times_generator() {
    let g = generate_g_vec(4);
    let coeffs = scalars(&[3, 0, 5, 1]);
    let expected = g[0].mul(&Scalar::from_u64(3)).add(&g[2].mul(&Scalar::from_u64(5))).add(&g[3]);
    assert!(commit(&coeffs, &g).unwrap().equals(&expected));
    assert!(linear_combination(&coeffs, &g).equals(&expected));
    // more generators than coefficients are in order, fewer are not
    let longer = generate_g_vec(8);
    assert!(commit(&coeffs, &longer).unwrap().equals(&expected));
    assert_eq!(commit(&coeffs, &g[..3]).unwrap_err(), CommitError::InvalidLength);
    assert_eq!(commit(&coeffs[..3], &g).unwrap_err(), CommitError::InvalidLength);
    assert_eq!(commit(&[], &g).unwrap_err(), CommitError::InvalidLength);
    assert!(commit(&coeffs[..1], &g).unwrap().equals(&g[0].mul(&Scalar::from_u64(3))));
}

#[test]
fn linear_combination_runs_over_the_shorter_vector() {
    let g = generate_g_vec(4);
    let coeffs = scalars(&[3, 0, 5, 1]);
    let three = g[0].mul(&Scalar::from_u64(3));
    assert!(linear_combination(&coeffs[..1], &g).equals(&three));
    assert!(linear_combination(&coeffs, &g[..1]).equals(&three));
    assert!(linear_combination(&coeffs[..3], &g).equals(&three.add(&g[2].mul(&Scalar::from_u64(5)))));
    assert!(linear_combination(&[], &g).equals(&Point::identity()));
}

#[test]
fn evaluation_of_the_scenario_polynomial() {
    let coeffs = scalars(&[1, 2, 3, 4, 5, 6, 7, 8]);
    let y = eval_poly_scalar(&coeffs, &Scalar::from_u64(42));
    // 1 + 2 * 42 + 3 * 42^2 + ... + 8 * 42^7
    assert!(y.equals(&Scalar::from_u64(1_883_537_895_793)));
    assert!(eval_poly_scalar(&[], &Scalar::from_u64(42)).is_zero());
    assert!(eval_poly_scalar(&coeffs, &Scalar::zero()).equals(&Scalar::one()));
}

#[test]
fn evaluation_vector_holds_the_powers() {
    let v = generate_evaluation_vector(&Scalar::from_u64(42), 4);
    assert_eq!(v.len(), 4);
    assert!(v[0].equals(&Scalar::one()));
    assert!(v[1].equals(&Scalar::from_u64(42)));
    assert!(v[2].equals(&Scalar::from_u64(1764)));
    assert!(v[3].equals(&Scalar::from_u64(74088)));
    assert!(generate_evaluation_vector(&Scalar::from_u64(42), 0).is_empty());
}

#[test]
fn witness_commits_to_the_quotient() {
    // x^2 - 1 = (x - 1) * (x + 1) + 0, with -1 written as 3 - 4: f = 3 + 0x + x^2 at x = 2 is 7
    // f(X) - 7 = (X - 2) * (X + 2)
    let coeffs = scalars(&[3, 0, 1]);
    let g = generate_g_vec(4);
    let x = Scalar::from_u64(2);
    let y = Scalar::from_u64(7);
    let witness = create_kate_witness(&coeffs, &x, &y, &g).unwrap();
    let expected = g[0].mul(&Scalar::from_u64(2)).add(&g[1]);
    assert!(witness.equals(&expected));
}

#[test]
fn witness_is_refused_for_a_wrong_value() {
    let coeffs = scalars(&[3, 0, 1]);
    let g = generate_g_vec(4);
    let x = Scalar::from_u64(2);
    let err = create_kate_witness(&coeffs, &x, &Scalar::from_u64(8), &g).unwrap_err();
    assert_eq!(err, CommitError::DivisionRemainderNonzero);
}

#[test]
fn witness_is_refused_for_bad_lengths() {
    let g = generate_g_vec(4);
    let x = Scalar::from_u64(2);
    let err = create_kate_witness(&[], &x, &Scalar::zero(), &g).unwrap_err();
    assert_eq!(err, CommitError::InvalidLength);
    let coeffs = scalars(&[3, 0, 1]);
    let err = create_kate_witness(&coeffs, &x, &Scalar::from_u64(7), &g[..1]).unwrap_err();
    assert_eq!(err, CommitError::InvalidLength);
    // two generators are enough for three coefficients
    assert!(create_kate_witness(&coeffs, &x, &Scalar::from_u64(7), &g[..2]).is_ok());
}

#[test]
fn round_challenge_hashes_both_encodings() {
    let l = Point::basepoint();
    let r = l.add(&l);
    let mut data = Vec::new();
    data.extend_from_slice(&l.to_bytes());
    data.extend_from_slice(&r.to_bytes());
    assert!(round_challenge(&l, &r).equals(&hash_to_scalar(&data)));
    assert!(!round_challenge(&l, &r).equals(&round_challenge(&r, &l)));
}

#[test]
fn second_generator_vector_has_its_own_tag() {
    let h = generate_h_vec(3);
    assert_eq!(h.len(), 3);
    assert!(h[0].equals(&hash_to_point(&[0x68, 0, 0, 0, 0, 0, 0, 0, 0])));
    assert!(h[1].equals(&hash_to_point(&[0x68, 1, 0, 0, 0, 0, 0, 0, 0])));
    assert!(h[2].equals(&hash_to_point(&[0x68, 2, 0, 0, 0, 0, 0, 0, 0])));
    let g = generate_g_vec(3);
    for p in &h {
        for q in &g {
            assert!(!p.equals(q));
        }
    }
    assert!(generate_h_vec(0).is_empty());
}

#[test]
fn proof_of_two_coefficients_by_hand() {
    // one round: L = a0 * G1 + b1 * H0, R = a1 * G0 + b0 * H1
    let coeffs = scalars(&[5, 9]);
    let x = Scalar::from_u64(3);
    let g = generate_g_vec(2);
    let h = generate_h_vec(2);
    let proof = create_ipa_proof(&coeffs, &g, &x).unwrap();
    assert_eq!(proof.l_vec.len(), 1);
    assert_eq!(proof.r_vec.len(), 1);
    let l = g[1].mul(&Scalar::from_u64(5)).add(&h[0].mul(&Scalar::from_u64(3)));
    let r = g[0].mul(&Scalar::from_u64(9)).add(&h[1].mul(&Scalar::one()));
    assert!(proof.l_vec[0].equals(&l));
    assert!(proof.r_vec[0].equals(&r));
    let c = round_challenge(&l, &r);
    // a = 5 + c * 9, b = 1 + c * 3
    assert!(proof.a_final.equals(&Scalar::from_u64(5).add(&c.mul(&Scalar::from_u64(9)))));
    assert!(proof.b_final.equals(&Scalar::one().add(&c.mul(&Scalar::from_u64(3)))));
}

#[test]
fn cross_commitments_of_zero_coefficients_are_generators_of_the_second_vector() {
    // with a = (0, 0) and b = (1, 1): L = H0 and R = H1, and neither is a generator of G
    let coeffs = scalars(&[0, 0]);
    let g = generate_g_vec(2);
    let h = generate_h_vec(2);
    let proof = create_ipa_proof(&coeffs, &g, &Scalar::one()).unwrap();
    assert!(proof.l_vec[0].equals(&h[0]));
    assert!(proof.r_vec[0].equals(&h[1]));
    assert!(!proof.l_vec[0].equals(&g[0]));
    assert!(!proof.r_vec[0].equals(&g[1]));
}

#[test]
fn scenario_proof_has_three_rounds_and_the_value() {
    let coeffs = scalars(&[1, 2, 3, 4, 5, 6, 7, 8]);
    let x = Scalar::from_u64(42);
    let proof = supersonic_create_proof(&coeffs, &x).unwrap();
    assert_eq!(proof.evaluation_proof.ipa_proof.l_vec.len(), 3);
    assert_eq!(proof.evaluation_proof.ipa_proof.r_vec.len(), 3);
    assert!(proof.value.equals(&Scalar::from_u64(1_883_537_895_793)));
    assert!(proof.point.equals(&x));
    let (commitment, g) = supersonic_commit(&coeffs).unwrap();
    assert!(proof.commitment.equals(&commitment));
    assert!(same_points(&g, &generate_g_vec(8)));
    assert!(commitment.equals(&commit(&coeffs, &g).unwrap()));
}

#[test]
fn round_count_is_the_logarithm_of_the_length() {
    let x = Scalar::from_u64(42);
    for (n, rounds) in [(1usize, 0usize), (2, 1), (4, 2), (8, 3), (16, 4)] {
        let coeffs: Vec<Scalar> = (0..n).map(|i| Scalar::from_u64(i as u64 + 1)).collect();
        let proof = create_proof(&coeffs, &x).unwrap();
        assert_eq!(proof.l_vec.len(), rounds);
        assert_eq!(proof.r_vec.len(), rounds);
    }
}

#[test]
fn lengths_that_are_no_power_of_two_are_refused() {
    let x = Scalar::from_u64(42);
    for n in [0usize, 3, 5, 6, 7, 12] {
        let coeffs: Vec<Scalar> = (0..n).map(|i| Scalar::from_u64(i as u64 + 1)).collect();
        assert_eq!(supersonic_commit(&coeffs).unwrap_err(), CommitError::InvalidLength);
        assert_eq!(supersonic_create_proof(&coeffs, &x).err(), Some(CommitError::InvalidLength));
        assert_eq!(create_proof(&coeffs, &x).err(), Some(CommitError::InvalidLength));
        let g = generate_g_vec(n);
        assert_eq!(create_ipa_proof(&coeffs, &g, &x).err(), Some(CommitError::InvalidLength));
    }
    // as many generators as coefficients are asked for
    let coeffs = scalars(&[1, 2, 3, 4]);
    let g = generate_g_vec(8);
    assert_eq!(create_ipa_proof(&coeffs, &g, &x).err(), Some(CommitError::InvalidLength));
}

#[test]
fn proofs_are_reproducible() {
    let coeffs = scalars(&[1, 2, 3, 4, 5, 6, 7, 8]);
    let x = Scalar::from_u64(42);
    let first = supersonic_create_proof(&coeffs, &x).unwrap();
    let second = supersonic_create_proof(&coeffs, &x).unwrap();
    assert_eq!(first.commitment.to_bytes(), second.commitment.to_bytes());
    assert_eq!(first.value.to_bytes(), second.value.to_bytes());
    assert_eq!(
        first.evaluation_proof.witness.to_bytes(),
        second.evaluation_proof.witness.to_bytes()
    );
    let a = &first.evaluation_proof.ipa_proof;
    let b = &second.evaluation_proof.ipa_proof;
    assert!(same_points(&a.l_vec, &b.l_vec));
    assert!(same_points(&a.r_vec, &b.r_vec));
    assert_eq!(a.a_final.to_bytes(), b.a_final.to_bytes());
    assert_eq!(a.b_final.to_bytes(), b.b_final.to_bytes());
    let plain = create_proof(&coeffs, &x).unwrap();
    assert!(same_points(&a.l_vec, &plain.l_vec));
    assert_eq!(a.a_final.to_bytes(), plain.a_final.to_bytes());
}

#[test]
fn constant_polynomial_has_an_empty_fold_and_the_neutral_witness() {
    let coeffs = scalars(&[7]);
    let g = generate_g_vec(1);
    for x in [0u64, 1, 42, 1 << 40] {
        let proof = supersonic_create_proof(&coeffs, &Scalar::from_u64(x)).unwrap();
        let ipa = &proof.evaluation_proof.ipa_proof;
        assert!(ipa.l_vec.is_empty());
        assert!(ipa.r_vec.is_empty());
        assert!(ipa.a_final.equals(&Scalar::from_u64(7)));
        assert!(ipa.b_final.equals(&Scalar::one()));
        assert!(proof.value.equals(&Scalar::from_u64(7)));
        assert!(proof.evaluation_proof.witness.equals(&Point::identity()));
        assert!(verify_kate_witness(
            &proof.commitment,
            &proof.evaluation_proof.witness,
            &proof.value,
            &g
        ));
    }
}

#[test]
fn witness_check_is_witness_plus_value_times_first_generator() {
    let g = generate_g_vec(2);
    let witness = g[1];
    let y = Scalar::from_u64(5);
    let commitment = witness.add(&g[0].mul(&y));
    assert!(verify_kate_witness(&commitment, &witness, &y, &g));
    assert!(!verify_kate_witness(&commitment, &witness, &Scalar::from_u64(6), &g));
    assert!(!verify_kate_witness(&commitment, &g[0], &y, &g));
    assert!(!verify_kate_witness(&commitment, &witness, &y, &[]));
}

#[test]
fn fold_equation_of_a_single_generator_by_hand() {
    // no round: the commitment must be a * G0 + b * H0
    let g = generate_g_vec(1);
    let h = generate_h_vec(1);
    let proof = IpaProof {
        l_vec: Vec::new(),
        r_vec: Vec::new(),
        a_final: Scalar::one(),
        b_final: Scalar::from_u64(7),
    };
    let commitment = g[0].add(&h[0].mul(&Scalar::from_u64(7)));
    assert!(verify_proof(&commitment, &g, &proof));
    assert!(verify_ipa_proof(&commitment, &g, &Scalar::from_u64(42), &Scalar::from_u64(7), &proof));
    // the point plays no part
    assert!(verify_ipa_proof(&commitment, &g, &Scalar::from_u64(43), &Scalar::from_u64(7), &proof));
    // another value, another commitment
    assert!(!verify_ipa_proof(&commitment, &g, &Scalar::from_u64(42), &Scalar::from_u64(8), &proof));
    assert!(!verify_proof(&g[0].mul(&Scalar::from_u64(8)), &g, &proof));
    assert!(!verify_proof(&g[0], &g, &proof));
}

#[test]
fn fold_equation_of_two_generators_by_hand() {
    let g = generate_g_vec(2);
    let h = generate_h_vec(2);
    let l = Point::basepoint();
    let r = l.add(&l);
    let c = round_challenge(&l, &r);
    let inverse = c.invert().unwrap();
    let a = Scalar::from_u64(11);
    let b = Scalar::from_u64(13);
    let folded_g = g[0].add(&g[1].mul(&c));
    let folded_h = h[0].add(&h[1].mul(&c));
    let right_side = folded_g.mul(&a).add(&folded_h.mul(&b));
    // choose the commitment so that C + (L / c + R * c) is the right side
    let minus_one = Scalar::zero().add(&Scalar::from_bytes_mod_order([
        0xec, 0xd3, 0xf5, 0x5c, 0x1a, 0x63, 0x12, 0x58, 0xd6, 0x9c, 0xf7, 0xa2, 0xde, 0xf9, 0xde,
        0x14, 0, 0, 0, 0, 0, 0, 0, 0, 0, 0, 0, 0, 0, 0, 0, 0x10,
    ]));
    let term = l.mul(&inverse).add(&r.mul(&c));
    let commitment = right_side.add(&term.mul(&minus_one));
    let proof = IpaProof { l_vec: vec![l], r_vec: vec![r], a_final: a, b_final: b };
    assert!(verify_proof(&commitment, &g, &proof));
    let x = Scalar::from_u64(3);
    let y = Scalar::from_u64(143);
    assert!(verify_ipa_proof(&commitment, &g, &x, &y, &proof));
    // the point plays no part; a claimed value or a commitment that differs is refused
    assert!(verify_ipa_proof(&commitment, &g, &Scalar::from_u64(4), &y, &proof));
    assert!(!verify_ipa_proof(&commitment, &g, &x, &y.add(&Scalar::one()), &proof));
    assert!(!verify_proof(&commitment.add(&l), &g, &proof));
    // folding the second vector by the first vector's generators is refused
    let mixed = folded_g.mul(&a).add(&folded_g.mul(&b)).add(&term.mul(&minus_one));
    assert!(!verify_proof(&mixed, &g, &proof));
}

#[test]
fn malformed_proofs_are_refused() {
    let g = generate_g_vec(4);
    let p = Point::basepoint();
    let commitment = p;
    let one = Scalar::one();
    // too few rounds, too many rounds, unequal numbers of L and R
    let short = IpaProof { l_vec: vec![p], r_vec: vec![p], a_final: one, b_final: one };
    assert!(!verify_proof(&commitment, &g, &short));
    let long = IpaProof { l_vec: vec![p; 3], r_vec: vec![p; 3], a_final: one, b_final: one };
    assert!(!verify_proof(&commitment, &g, &long));
    let uneven = IpaProof { l_vec: vec![p; 2], r_vec: vec![p; 1], a_final: one, b_final: one };
    assert!(!verify_proof(&commitment, &g, &uneven));
    assert!(!verify_ipa_proof(&commitment, &g, &one, &one, &uneven));
    // a number of generators that is no power of two
    let exact = IpaProof { l_vec: vec![p; 2], r_vec: vec![p; 2], a_final: one, b_final: one };
    assert!(!verify_proof(&commitment, &g[..3], &exact));
    assert!(!verify_proof(&commitment, &[], &exact));
}

#[test]
fn scenario_with_a_corrupted_coefficient_is_refused() {
    let coeffs = scalars(&[1, 2, 3, 4, 5, 6, 7, 8]);
    let x = Scalar::from_u64(42);
    let mut proof = supersonic_create_proof(&coeffs, &x).unwrap();
    let corrupted = scalars(&[2, 2, 3, 4, 5, 6, 7, 8]);
    let (commitment, g) = supersonic_commit(&corrupted).unwrap();
    assert!(!commitment.equals(&proof.commitment));
    proof.commitment = commitment;
    assert!(!supersonic_verify_proof(&proof, &g));
}

#[test]
fn honest_proofs_do_not_meet_the_folding_equation() {
    // Both halves of every vector are folded by the same challenge, so that the
    // cross terms of a round enter the folded commitment with the challenge
    // itself, and not with its inverse on one side: the equation that adds
    // L / c + R * c to the commitment does not hold of what the prover builds.
    // With a single coefficient there is no round, and the equation asks for
    // a * G0 + b * H0 with b = 1, which is the commitment plus H0.
    let x = Scalar::from_u64(42);
    for values in [vec![7u64], vec![5, 9], vec![1, 2, 3, 4, 5, 6, 7, 8]] {
        let coeffs = scalars(&values);
        let proof = supersonic_create_proof(&coeffs, &x).unwrap();
        let g = generate_g_vec(coeffs.len());
        assert!(!verify_proof(&proof.commitment, &g, &proof.evaluation_proof.ipa_proof));
        assert!(!supersonic_verify_proof(&proof, &g));
    }
}
