use polycommit::bls::{Fr, G1, G2};
use polycommit::error::CommitError;
use polycommit::kzg::{
    effective_len, evaluate, kzg_commit, kzg_create_proof, kzg_trusted_setup, kzg_verify,
    naive_poly_division, KZGSetup,
};

fn elements(values: &[u64]) -> Vec<Fr> {
    values.iter().map(|v| Fr::from_u64(*v)).collect()
}

fn same_elements(a: &[Fr], b: &[Fr]) -> bool {
    a.len() == b.len() && a.iter().zip(b.iter()).all(|(x, y)| x.equals(y))
}

fn random_fr(rng: &mut impl ark_std::rand::Rng) -> Fr {
    let drawn = <ark_bls12_381::Fr as ark_std::UniformRand>::rand(rng);
    Fr::from_limbs(ark_ff::PrimeField::into_bigint(drawn).0).unwrap()
}

fn minus(v: u64) -> Fr {
    Fr::zero().sub(&Fr::from_u64(v))
}

#[test]
fn setup_holds_the_powers_of_the_secret() {
    let s = Fr::from_u64(5);
    let setup = kzg_trusted_setup(3, &s);
    assert_eq!(setup.powers_of_g.len(), 4);
    assert_eq!(setup.powers_of_h.len(), 4);
    let g = G1::generator();
    let h = G2::generator();
    assert!(setup.powers_of_g[0].equals(&g));
    assert!(setup.powers_of_g[1].equals(&g.mul(&Fr::from_u64(5))));
    assert!(setup.powers_of_g[2].equals(&g.mul(&Fr::from_u64(25))));
    assert!(setup.powers_of_g[3].equals(&g.mul(&Fr::from_u64(125))));
    assert_eq!(setup.powers_of_h[0].to_bytes(), h.to_bytes());
    assert_eq!(setup.powers_of_h[1].to_bytes(), h.mul(&Fr::from_u64(5)).to_bytes());
    assert_eq!(setup.powers_of_h[3].to_bytes(), h.mul(&Fr::from_u64(125)).to_bytes());
    let smallest = kzg_trusted_setup(0, &s);
    assert_eq!(smallest.powers_of_g.len(), 1);
    assert_eq!(smallest.powers_of_h.len(), 1);
}

#[test]
fn setup_from_a_drawn_secret() {
    let mut rng = ark_std::test_rng();
    let setup = kzg_trusted_setup(4, &random_fr(&mut rng));
    assert_eq!(setup.powers_of_g.len(), 5);
    assert_eq!(setup.powers_of_h.len(), 5);
    assert!(setup.powers_of_g[0].equals(&G1::generator()));
    assert_eq!(setup.powers_of_h[0].to_bytes(), G2::generator().to_bytes());
    assert!(!setup.powers_of_g[1].equals(&G1::generator()));
    // another draw, another string
    let other = kzg_trusted_setup(4, &random_fr(&mut rng));
    assert!(!setup.powers_of_g[1].equals(&other.powers_of_g[1]));
}

#[test]
fn effective_length_ignores_trailing_zeros() {
    assert_eq!(effective_len(&[]), 0);
    assert_eq!(effective_len(&elements(&[0, 0, 0])), 0);
    assert_eq!(effective_len(&elements(&[1, 0, 0])), 1);
    assert_eq!(effective_len(&elements(&[0, 0, 3])), 3);
    assert_eq!(effective_len(&elements(&[0, 2, 0, 0])), 2);
}

#[test]
fn evaluation_by_hand() {
    // 3 + 2x + x^2 at 5
    let poly = elements(&[3, 2, 1]);
    assert!(evaluate(&poly, &Fr::from_u64(5)).equals(&Fr::from_u64(38)));
    assert!(evaluate(&poly, &Fr::zero()).equals(&Fr::from_u64(3)));
    assert!(evaluate(&[], &Fr::from_u64(5)).is_zero());
    let scenario = elements(&[1, 2, 3, 4, 5, 6, 7, 8]);
    assert!(evaluate(&scenario, &Fr::from_u64(42)).equals(&Fr::from_u64(1_883_537_895_793)));
}

#[test]
fn commitment_is_the_sum_of_coefficient_times_power() {
    let setup = kzg_trusted_setup(3, &Fr::from_u64(5));
    let poly = elements(&[3, 2, 1]);
    // 3 + 2 * 5 + 25 = 38
    let c = kzg_commit(&poly, &setup).unwrap();
    assert!(c.equals(&G1::generator().mul(&Fr::from_u64(38))));
    assert!(kzg_commit(&[], &setup).unwrap().equals(&G1::identity()));
    assert!(kzg_commit(&elements(&[0, 0]), &setup).unwrap().equals(&G1::identity()));
}

#[test]
fn degree_bound_is_enforced_exactly() {
    let setup = kzg_trusted_setup(3, &Fr::from_u64(5));
    // degree three is the bound
    assert!(kzg_commit(&elements(&[1, 1, 1, 1]), &setup).is_ok());
    assert!(kzg_create_proof(&elements(&[1, 1, 1, 1]), &Fr::from_u64(2), &setup).is_ok());
    // degree four is above it
    let above = elements(&[1, 1, 1, 1, 1]);
    assert_eq!(kzg_commit(&above, &setup).unwrap_err(), CommitError::DegreeExceeded);
    assert_eq!(
        kzg_create_proof(&above, &Fr::from_u64(2), &setup).err(),
        Some(CommitError::DegreeExceeded)
    );
    // zeros above the bound do not count
    let padded = elements(&[1, 1, 1, 1, 0, 0]);
    let c = kzg_commit(&padded, &setup).unwrap();
    assert!(c.equals(&kzg_commit(&elements(&[1, 1, 1, 1]), &setup).unwrap()));
    assert!(kzg_create_proof(&padded, &Fr::from_u64(2), &setup).is_ok());
    // a string without powers takes the zero polynomial only
    let empty = KZGSetup { powers_of_g: Vec::new(), powers_of_h: Vec::new() };
    assert!(kzg_commit(&elements(&[0]), &empty).is_ok());
    assert_eq!(kzg_commit(&elements(&[1]), &empty).unwrap_err(), CommitError::DegreeExceeded);
}

#[test]
fn division_by_hand() {
    // x^2 - 1 = (x - 1) * (x + 1)
    let numerator = vec![minus(1), Fr::zero(), Fr::one()];
    let divisor = vec![minus(1), Fr::one()];
    let (q, r) = naive_poly_division(&numerator, &divisor).unwrap();
    assert!(same_elements(&q, &elements(&[1, 1])));
    assert!(r.is_empty());
    // x^2 + 1 = (x - 1) * (x + 1) + 2
    let (q, r) = naive_poly_division(&elements(&[1, 0, 1]), &divisor).unwrap();
    assert!(same_elements(&q, &elements(&[1, 1])));
    assert!(same_elements(&r, &elements(&[2])));
    // 6x^3 + 5x^2 + 4 = (2x^2 + 1) * (3x + 5/2) + (3/2 - 3x)
    let half = Fr::one().div(&Fr::from_u64(2)).unwrap();
    let (q, r) = naive_poly_division(&elements(&[4, 0, 5, 6]), &elements(&[1, 0, 2])).unwrap();
    assert!(same_elements(&q, &[Fr::from_u64(5).mul(&half), Fr::from_u64(3)]));
    assert!(same_elements(&r, &[Fr::from_u64(3).mul(&half), minus(3)]));
}

#[test]
fn division_edge_cases() {
    let divisor = elements(&[1, 1]);
    assert!(naive_poly_division(&elements(&[1, 2, 3]), &[]).is_none());
    assert!(naive_poly_division(&elements(&[1, 2, 3]), &elements(&[0, 0])).is_none());
    // a numerator of lower degree is its own remainder
    let (q, r) = naive_poly_division(&elements(&[7]), &divisor).unwrap();
    assert!(q.is_empty());
    assert!(same_elements(&r, &elements(&[7])));
    let (q, r) = naive_poly_division(&[], &divisor).unwrap();
    assert!(q.is_empty());
    assert!(r.is_empty());
    // zeros at the end of either polynomial change nothing
    let (q, r) = naive_poly_division(&elements(&[1, 2, 1, 0, 0]), &elements(&[1, 1, 0])).unwrap();
    assert!(same_elements(&q, &elements(&[1, 1])));
    assert!(r.is_empty());
    // division by a constant
    let (q, r) = naive_poly_division(&elements(&[2, 4, 6]), &elements(&[2])).unwrap();
    assert!(same_elements(&q, &elements(&[1, 2, 3])));
    assert!(r.is_empty());
}

#[test]
fn proof_commits_to_the_quotient() {
    let setup = kzg_trusted_setup(3, &Fr::from_u64(5));
    // f = 3 + x^2, f(2) = 7, f - 7 = (x - 2) * (x + 2), and 5 + 2 = 7
    let poly = elements(&[3, 0, 1]);
    let (y, witness) = kzg_create_proof(&poly, &Fr::from_u64(2), &setup).unwrap();
    assert!(y.equals(&Fr::from_u64(7)));
    assert!(witness.equals(&G1::generator().mul(&Fr::from_u64(7))));
}

#[test]
fn genuine_proof_is_accepted_and_a_shifted_value_is_not() {
    let mut rng = ark_std::test_rng();
    let setup = kzg_trusted_setup(7, &random_fr(&mut rng));
    let poly: Vec<Fr> = (0..8).map(|_| random_fr(&mut rng)).collect();
    let z = random_fr(&mut rng);
    let commitment = kzg_commit(&poly, &setup).unwrap();
    let (y, proof) = kzg_create_proof(&poly, &z, &setup).unwrap();
    assert!(y.equals(&evaluate(&poly, &z)));
    assert!(kzg_verify(&commitment, &z, &y, &proof, &setup));
    assert!(!kzg_verify(&commitment, &z, &y.add(&Fr::one()), &proof, &setup));
    assert!(!kzg_verify(&commitment, &z.add(&Fr::one()), &y, &proof, &setup));
    assert!(!kzg_verify(&commitment.add(&G1::generator()), &z, &y, &proof, &setup));
    assert!(!kzg_verify(&commitment, &z, &y, &proof.add(&G1::generator()), &setup));
}

#[test]
fn genuine_proofs_are_accepted_for_many_polynomials() {
    let mut rng = ark_std::test_rng();
    let setup = kzg_trusted_setup(5, &random_fr(&mut rng));
    for len in 0..=6usize {
        let poly: Vec<Fr> = (0..len).map(|_| random_fr(&mut rng)).collect();
        let z = random_fr(&mut rng);
        let commitment = kzg_commit(&poly, &setup).unwrap();
        let (y, proof) = kzg_create_proof(&poly, &z, &setup).unwrap();
        assert!(kzg_verify(&commitment, &z, &y, &proof, &setup));
    }
}

#[test]
fn constant_polynomial_has_the_neutral_witness() {
    let setup = kzg_trusted_setup(2, &Fr::from_u64(11));
    let poly = elements(&[7]);
    let commitment = kzg_commit(&poly, &setup).unwrap();
    for z in [0u64, 1, 11, 42, u64::MAX] {
        let z = Fr::from_u64(z);
        let (y, witness) = kzg_create_proof(&poly, &z, &setup).unwrap();
        assert!(y.equals(&Fr::from_u64(7)));
        assert!(witness.equals(&G1::identity()));
        assert!(kzg_verify(&commitment, &z, &y, &witness, &setup));
        assert!(!kzg_verify(&commitment, &z, &Fr::from_u64(8), &witness, &setup));
    }
}

#[test]
fn proofs_are_reproducible_for_one_setup() {
    let setup = kzg_trusted_setup(7, &Fr::from_u64(123_456_789));
    let poly = elements(&[1, 2, 3, 4, 5, 6, 7, 8]);
    let z = Fr::from_u64(42);
    let (y1, w1) = kzg_create_proof(&poly, &z, &setup).unwrap();
    let (y2, w2) = kzg_create_proof(&poly, &z, &setup).unwrap();
    assert_eq!(y1.to_limbs(), y2.to_limbs());
    assert_eq!(w1.to_bytes(), w2.to_bytes());
    assert_eq!(y1.to_limbs(), [1_883_537_895_793, 0, 0, 0]);
    let again = kzg_trusted_setup(7, &Fr::from_u64(123_456_789));
    let (_, w3) = kzg_create_proof(&poly, &z, &again).unwrap();
    assert_eq!(w1.to_bytes(), w3.to_bytes());
}

#[test]
fn verification_needs_two_powers_in_the_second_group() {
    let setup = kzg_trusted_setup(0, &Fr::from_u64(11));
    let poly = elements(&[7]);
    let commitment = kzg_commit(&poly, &setup).unwrap();
    let z = Fr::from_u64(3);
    let (y, witness) = kzg_create_proof(&poly, &z, &setup).unwrap();
    assert!(!kzg_verify(&commitment, &z, &y, &witness, &setup));
}

#[test]
fn flipped_bits_are_refused() {
    let mut rng = ark_std::test_rng();
    let setup = kzg_trusted_setup(7, &random_fr(&mut rng));
    let poly: Vec<Fr> = (0..8).map(|_| random_fr(&mut rng)).collect();
    let z = random_fr(&mut rng);
    let commitment = kzg_commit(&poly, &setup).unwrap();
    let (y, proof) = kzg_create_proof(&poly, &z, &setup).unwrap();
    assert!(kzg_verify(&commitment, &z, &y, &proof, &setup));
    let mut tried = 0;
    for bit in [0usize, 1, 7, 63, 64, 100, 128, 191, 200, 250] {
        // the claimed value
        let mut limbs = y.to_limbs();
        limbs[bit / 64] ^= 1 << (bit % 64);
        if let Some(flipped) = Fr::from_limbs(limbs) {
            assert!(!kzg_verify(&commitment, &z, &flipped, &proof, &setup));
            tried += 1;
        }
        // the point
        let mut limbs = z.to_limbs();
        limbs[bit / 64] ^= 1 << (bit % 64);
        if let Some(flipped) = Fr::from_limbs(limbs) {
            assert!(!kzg_verify(&commitment, &flipped, &y, &proof, &setup));
            tried += 1;
        }
        // the commitment and the witness, where the flipped bytes still encode an element
        let mut bytes = commitment.to_bytes();
        bytes[47 - bit / 8] ^= 1 << (bit % 8);
        if let Some(flipped) = G1::from_bytes(bytes) {
            assert!(!kzg_verify(&flipped, &z, &y, &proof, &setup));
            tried += 1;
        }
        let mut bytes = proof.to_bytes();
        bytes[47 - bit / 8] ^= 1 << (bit % 8);
        if let Some(flipped) = G1::from_bytes(bytes) {
            assert!(!kzg_verify(&commitment, &z, &y, &flipped, &setup));
            tried += 1;
        }
    }
    assert!(tried >= 10);
}
