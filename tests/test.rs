use ark_bls12_381::Fr;
use ark_ff::{Field, One, PrimeField, UniformRand, Zero};
use ark_std::rand::RngCore;
use ark_std::test_rng;
use asvc::error::CustomError;
use asvc::field::{fr_div, Scalar};
use asvc::poly::{check_indices, linear_factor, vanishing_derivative, vanishing_poly};
use asvc::scheme::{
    aggregate_proofs, check_primitive_root, commit, evaluation_domain, key_gen, prove_pos, update_commit,
    update_proof, verify_pos, verify_upk, Parameters, Proof, VerifyingKey,
};

fn to_scalar(f: Fr) -> Scalar {
    Scalar::from_limbs(f.into_repr().0).unwrap()
}

fn to_fr(s: &Scalar) -> Fr {
    Fr::from_repr(ark_ff::BigInteger256(s.limbs)).unwrap()
}

fn rand_scalar<R: RngCore>(rng: &mut R) -> Scalar {
    to_scalar(Fr::rand(rng))
}

fn setup(size: usize) -> (Parameters, Scalar, Vec<Scalar>) {
    let rng = &mut test_rng();
    let params = key_gen(size, &mut rand_scalar(rng)).unwrap();
    let (_, omega) = evaluation_domain(size).unwrap();
    let values: Vec<Scalar> = (0..size).map(|_| rand_scalar(rng)).collect();
    (params, omega, values)
}

fn add_scalars(a: &Scalar, b: &Scalar) -> Scalar {
    to_scalar(to_fr(a) + to_fr(b))
}

#[test]
fn test_aggregatable_svc() {
    let rng = &mut test_rng();
    let size: usize = 8;
    let params = key_gen(size, &mut rand_scalar(rng)).unwrap();
    let (_, omega) = evaluation_domain(size).unwrap();

    let mut values = Vec::<Scalar>::new();
    for _ in 0..8 {
        values.push(rand_scalar(rng));
    }

    let c = commit(&params.proving_key, values.clone()).unwrap();

    let points: Vec<u32> = vec![0, 1, 5];
    let point_values = vec![values[0], values[1], values[5]];
    let proof = prove_pos(&params.proving_key, values.clone(), points.clone()).unwrap();
    let rs = verify_pos(&params.verifying_key, &c, point_values, points, &proof, omega).unwrap();
    assert!(rs);

    let index: u32 = 2;
    let rs = verify_upk(
        &params.verifying_key,
        index,
        &params.proving_key.list_update_keys[index as usize],
        omega,
    )
    .unwrap();
    assert!(rs);

    let index: u32 = 3;
    let delta = rand_scalar(rng);
    let points_i = vec![index];
    let point_values_i = vec![add_scalars(&values[index as usize], &delta)];
    let upk = &params.proving_key.list_update_keys[index as usize];
    let uc = update_commit(&c, delta, index, upk, omega, size).unwrap();
    let proof = prove_pos(&params.proving_key, values.clone(), points_i.clone()).unwrap();
    let proof = update_proof(&proof, delta, index, index, upk, upk, omega, size).unwrap();
    let rs = verify_pos(&params.verifying_key, &uc, point_values_i, points_i, &proof, omega).unwrap();
    assert!(rs);

    let index_i: u32 = 4;
    let points_i = vec![index_i];
    let point_values_i = vec![values[index_i as usize]];
    let proof = prove_pos(&params.proving_key, values.clone(), points_i.clone()).unwrap();
    let proof = update_proof(
        &proof,
        delta,
        index_i,
        index,
        &params.proving_key.list_update_keys[index_i as usize],
        &params.proving_key.list_update_keys[index as usize],
        omega,
        size,
    )
    .unwrap();
    let rs = verify_pos(&params.verifying_key, &uc, point_values_i, points_i, &proof, omega).unwrap();
    assert!(rs);

    let points: Vec<u32> = vec![1, 5];
    let point_values = vec![values[1], values[5]];
    let point_proofs = vec![
        prove_pos(&params.proving_key, values.clone(), vec![1]).unwrap(),
        prove_pos(&params.proving_key, values.clone(), vec![5]).unwrap(),
    ];
    let proofs = aggregate_proofs(points.clone(), point_proofs, omega).unwrap();
    let rs = verify_pos(&params.verifying_key, &c, point_values, points, &proofs, omega).unwrap();
    assert!(rs);
}

#[test]
fn every_update_key_verifies() {
    let (params, omega, _) = setup(8);
    for i in 0..8u32 {
        let upk = &params.proving_key.list_update_keys[i as usize];
        assert!(verify_upk(&params.verifying_key, i, upk, omega).unwrap());
    }
}

#[test]
fn update_key_for_another_position_is_rejected() {
    let (params, omega, _) = setup(8);
    let upk = &params.proving_key.list_update_keys[3];
    assert!(!verify_upk(&params.verifying_key, 4, upk, omega).unwrap());
}

#[test]
fn opening_of_every_subset_shape_verifies() {
    let (params, omega, values) = setup(8);
    let c = commit(&params.proving_key, values.clone()).unwrap();
    let sets: Vec<Vec<u32>> = vec![vec![], vec![7], vec![0, 1, 5], vec![6, 2], (0..8).collect()];
    for points in sets {
        let vals: Vec<Scalar> = points.iter().map(|&i| values[i as usize]).collect();
        let proof = prove_pos(&params.proving_key, values.clone(), points.clone()).unwrap();
        assert!(verify_pos(&params.verifying_key, &c, vals, points, &proof, omega).unwrap());
    }
}

#[test]
fn changed_value_is_rejected() {
    let (params, omega, values) = setup(8);
    let c = commit(&params.proving_key, values.clone()).unwrap();
    let points: Vec<u32> = vec![0, 1, 5];
    let proof = prove_pos(&params.proving_key, values.clone(), points.clone()).unwrap();
    let mut vals = vec![values[0], values[1], values[5]];
    vals[1] = add_scalars(&vals[1], &Scalar::one());
    assert!(!verify_pos(&params.verifying_key, &c, vals, points, &proof, omega).unwrap());
}

#[test]
fn commitment_update_matches_fresh_commitment() {
    let (params, omega, values) = setup(8);
    let rng = &mut test_rng();
    let delta = rand_scalar(rng);
    let c = commit(&params.proving_key, values.clone()).unwrap();
    let mut changed = values.clone();
    changed[6] = add_scalars(&changed[6], &delta);
    let fresh = commit(&params.proving_key, changed).unwrap();
    let upk = &params.proving_key.list_update_keys[6];
    let updated = update_commit(&c, delta, 6, upk, omega, 8).unwrap();
    assert!(fresh.equals(&updated));
    assert!(!fresh.equals(&c));
}

#[test]
fn same_index_proof_update_matches_fresh_proof() {
    let (params, omega, values) = setup(8);
    let delta = Scalar::from_u64(12345);
    let proof = prove_pos(&params.proving_key, values.clone(), vec![2]).unwrap();
    let upk = &params.proving_key.list_update_keys[2];
    let updated = update_proof(&proof, delta, 2, 2, upk, upk, omega, 8).unwrap();
    let mut changed = values.clone();
    changed[2] = add_scalars(&changed[2], &delta);
    let fresh = prove_pos(&params.proving_key, changed.clone(), vec![2]).unwrap();
    assert!(fresh.equals(&updated));
    let c = commit(&params.proving_key, changed.clone()).unwrap();
    assert!(verify_pos(&params.verifying_key, &c, vec![changed[2]], vec![2], &updated, omega).unwrap());
}

#[test]
fn aggregation_of_three_proofs_verifies() {
    let (params, omega, values) = setup(8);
    let c = commit(&params.proving_key, values.clone()).unwrap();
    let points: Vec<u32> = vec![7, 0, 2];
    let proofs: Vec<Proof> =
        points.iter().map(|&i| prove_pos(&params.proving_key, values.clone(), vec![i]).unwrap()).collect();
    let agg = aggregate_proofs(points.clone(), proofs, omega).unwrap();
    let vals: Vec<Scalar> = points.iter().map(|&i| values[i as usize]).collect();
    assert!(verify_pos(&params.verifying_key, &c, vals, points.clone(), &agg, omega).unwrap());
    let direct = prove_pos(&params.proving_key, values.clone(), points).unwrap();
    assert!(direct.equals(&agg));
}

#[test]
fn short_vector_commits_as_zero_padded() {
    let (params, _, values) = setup(8);
    let short = values[..3].to_vec();
    let mut padded = short.clone();
    padded.resize(8, Scalar::zero());
    let a = commit(&params.proving_key, short).unwrap();
    let b = commit(&params.proving_key, padded).unwrap();
    assert!(a.equals(&b));
}

#[test]
fn domain_generator_has_exact_order() {
    let (size, omega) = evaluation_domain(8).unwrap();
    assert_eq!(size, 8);
    let w = to_fr(&omega);
    assert_eq!(w.pow([8u64]), Fr::one());
    for k in 1..8u64 {
        assert_ne!(w.pow([k]), Fr::one());
    }
    assert!(check_primitive_root(&omega, 8));
    assert!(!check_primitive_root(&omega, 16));
    assert!(!check_primitive_root(&Scalar::one(), 2));
}

#[test]
fn domain_size_rounds_up_to_power_of_two() {
    assert_eq!(evaluation_domain(5).unwrap().0, 8);
    assert_eq!(evaluation_domain(1).unwrap().0, 1);
    assert_eq!(evaluation_domain(0).unwrap().0, 1);
    assert_eq!(evaluation_domain(1usize << 33), Err(CustomError::DomainUnavailable));
}

#[test]
fn key_gen_on_non_power_of_two_uses_domain_size() {
    let rng = &mut test_rng();
    let mut tau = rand_scalar(rng);
    let params = key_gen(5, &mut tau).unwrap();
    assert!(tau.is_zero());
    assert_eq!(params.proving_key.list_g1_tau_i.len(), 9);
    assert_eq!(params.proving_key.list_l_i.len(), 8);
    assert_eq!(params.proving_key.list_update_keys.len(), 8);
    assert_eq!(params.verifying_key.list_g2_tau_i.len(), 9);
}

#[test]
fn key_gen_rejects_zero_size() {
    assert!(matches!(key_gen(0, &mut Scalar::from_u64(7)), Err(CustomError::InvalidParameter)));
}

#[test]
fn key_gen_rejects_trapdoor_on_domain() {
    let (_, omega) = evaluation_domain(8).unwrap();
    let mut tau = to_scalar(to_fr(&omega).pow([3u64]));
    assert!(matches!(key_gen(8, &mut tau), Err(CustomError::ArithmeticFailure)));
    assert!(tau.is_zero());
    assert!(matches!(key_gen(8, &mut Scalar::one()), Err(CustomError::ArithmeticFailure)));
}

#[test]
fn commit_rejects_bad_lengths() {
    let (params, _, values) = setup(8);
    assert!(matches!(commit(&params.proving_key, vec![]), Err(CustomError::InvalidParameter)));
    let mut long = values.clone();
    long.push(Scalar::one());
    assert!(matches!(commit(&params.proving_key, long), Err(CustomError::InvalidParameter)));
}

#[test]
fn prove_pos_rejects_bad_indices() {
    let (params, _, values) = setup(8);
    let dup = prove_pos(&params.proving_key, values.clone(), vec![1, 1]);
    assert!(matches!(dup, Err(CustomError::InvalidParameter)));
    let out = prove_pos(&params.proving_key, values.clone(), vec![8]);
    assert!(matches!(out, Err(CustomError::InvalidParameter)));
    let mut long = values.clone();
    long.push(Scalar::one());
    assert!(matches!(prove_pos(&params.proving_key, long, vec![0]), Err(CustomError::InvalidParameter)));
}

#[test]
fn verify_pos_returns_false_on_malformed_inputs() {
    let (params, omega, values) = setup(8);
    let c = commit(&params.proving_key, values.clone()).unwrap();
    let proof = prove_pos(&params.proving_key, values.clone(), vec![1]).unwrap();
    let vk = &params.verifying_key;
    assert_eq!(verify_pos(vk, &c, vec![values[1], values[2]], vec![1], &proof, omega), Ok(false));
    assert_eq!(verify_pos(vk, &c, vec![values[1], values[1]], vec![1, 1], &proof, omega), Ok(false));
    assert_eq!(verify_pos(vk, &c, vec![values[1]], vec![9], &proof, omega), Ok(false));
}

#[test]
fn update_operations_reject_zero_size() {
    let (params, omega, values) = setup(8);
    let c = commit(&params.proving_key, values.clone()).unwrap();
    let upk = &params.proving_key.list_update_keys;
    assert!(matches!(update_commit(&c, Scalar::one(), 1, &upk[1], omega, 0), Err(CustomError::InvalidParameter)));
    let proof = prove_pos(&params.proving_key, values.clone(), vec![1]).unwrap();
    let r = update_proof(&proof, Scalar::one(), 1, 2, &upk[1], &upk[2], omega, 0);
    assert!(matches!(r, Err(CustomError::InvalidParameter)));
    let r = update_proof(&proof, Scalar::one(), 1, 1, &upk[1], &upk[1], omega, 0);
    assert!(matches!(r, Err(CustomError::InvalidParameter)));
    let r = update_proof(&proof, Scalar::one(), 1, 2, &upk[1], &upk[2], Scalar::one(), 8);
    assert!(matches!(r, Err(CustomError::ArithmeticFailure)));
}

#[test]
fn aggregate_rejects_bad_inputs() {
    let (params, omega, values) = setup(8);
    let p1 = prove_pos(&params.proving_key, values.clone(), vec![1]).unwrap();
    let p2 = prove_pos(&params.proving_key, values.clone(), vec![1]).unwrap();
    let r = aggregate_proofs(vec![1], vec![], omega);
    assert!(matches!(r, Err(CustomError::InvalidParameter)));
    let p3 = prove_pos(&params.proving_key, values.clone(), vec![2]).unwrap();
    let r = aggregate_proofs(vec![1, 1], vec![p1, p2], omega);
    assert!(matches!(r, Err(CustomError::InvalidParameter)));
    let p1 = prove_pos(&params.proving_key, values.clone(), vec![1]).unwrap();
    let r = aggregate_proofs(vec![1, 2], vec![p1, p3], Scalar::one());
    assert!(matches!(r, Err(CustomError::ArithmeticFailure)));
}

#[test]
fn vanishing_polynomial_coefficients() {
    // (x - 2)(x - 3) = x^2 - 5x + 6
    let p = vanishing_poly(&vec![Scalar::from_u64(2), Scalar::from_u64(3)]);
    assert_eq!(p.len(), 3);
    assert_eq!(p[0], Scalar::from_u64(6));
    assert_eq!(to_fr(&p[1]), -Fr::from(5u64));
    assert_eq!(p[2], Scalar::one());
    let f = linear_factor(&Scalar::from_u64(4));
    assert_eq!(to_fr(&f[0]), -Fr::from(4u64));
    assert_eq!(f[1], Scalar::one());
}

#[test]
fn vanishing_derivative_is_product_of_differences() {
    let roots = vec![Scalar::from_u64(1), Scalar::from_u64(2), Scalar::from_u64(4)];
    // (1 - 2)(1 - 4) = 3, (4 - 1)(4 - 2) = 6
    assert_eq!(vanishing_derivative(&roots, 0), Scalar::from_u64(3));
    assert_eq!(vanishing_derivative(&roots, 2), Scalar::from_u64(6));
    assert_eq!(to_fr(&vanishing_derivative(&roots, 1)), -Fr::from(2u64));
}

#[test]
fn index_checks() {
    assert!(check_indices(&vec![0, 3, 7], 8));
    assert!(!check_indices(&vec![0, 3, 8], 8));
    assert!(!check_indices(&vec![3, 0, 3], 8));
    assert!(check_indices(&vec![], 0));
}

#[test]
fn scalar_division_and_limbs() {
    let six = Scalar::from_u64(6);
    let three = Scalar::from_u64(3);
    assert_eq!(fr_div(&six, &three), Some(Scalar::from_u64(2)));
    assert_eq!(fr_div(&six, &Scalar::zero()), None);
    let inv = fr_div(&Scalar::one(), &three).unwrap();
    assert_eq!(to_fr(&inv) * Fr::from(3u64), Fr::one());
    let modulus = [0xffffffff00000001u64, 0x53bda402fffe5bfe, 0x3339d80809a1d805, 0x73eda753299d7d48];
    assert!(Scalar::from_limbs(modulus).is_none());
    let mut below = modulus;
    below[0] -= 1;
    assert_eq!(to_fr(&Scalar::from_limbs(below).unwrap()), -Fr::one());
    assert!(Scalar::zero().is_zero());
    assert!(!six.equals(&three));
    assert_eq!(Fr::zero(), to_fr(&Scalar::zero()));
}

#[test]
fn verify_pos_reports_colliding_positions() {
    let (params, omega, values) = setup(8);
    let c = commit(&params.proving_key, values.clone()).unwrap();
    let proof = prove_pos(&params.proving_key, values.clone(), vec![0, 1]).unwrap();
    let vals = vec![values[0], values[1]];
    let r = verify_pos(&params.verifying_key, &c, vals.clone(), vec![0, 1], &proof, Scalar::one());
    assert_eq!(r, Err(CustomError::ArithmeticFailure));
    assert_eq!(verify_pos(&params.verifying_key, &c, vals, vec![0, 1], &proof, omega), Ok(true));
}

#[test]
fn verify_pos_rejects_short_key() {
    let (params, omega, values) = setup(8);
    let vk = &params.verifying_key;
    let short = VerifyingKey {
        list_g1_tau_i: vk.list_g1_tau_i[..1].to_vec(),
        list_g2_tau_i: vk.list_g2_tau_i.clone(),
        a: vk.a.clone(),
    };
    let c = commit(&params.proving_key, values.clone()).unwrap();
    let proof = prove_pos(&params.proving_key, values.clone(), vec![0, 1]).unwrap();
    let r = verify_pos(&short, &c, vec![values[0], values[1]], vec![0, 1], &proof, omega);
    assert_eq!(r, Err(CustomError::InvalidParameter));
    let empty = VerifyingKey { list_g1_tau_i: vec![], list_g2_tau_i: vec![], a: vk.a.clone() };
    let r = verify_pos(&empty, &c, vec![values[0]], vec![0], &proof, omega);
    assert_eq!(r, Err(CustomError::InvalidParameter));
    let upk = &params.proving_key.list_update_keys[0];
    assert_eq!(verify_upk(&empty, 0, upk, omega), Err(CustomError::InvalidParameter));
}

#[test]
fn update_operations_reject_out_of_range_positions() {
    let (params, omega, values) = setup(8);
    let c = commit(&params.proving_key, values.clone()).unwrap();
    let upk = &params.proving_key.list_update_keys;
    let r = update_commit(&c, Scalar::one(), 8, &upk[0], omega, 8);
    assert!(matches!(r, Err(CustomError::InvalidParameter)));
    let proof = prove_pos(&params.proving_key, values.clone(), vec![1]).unwrap();
    let r = update_proof(&proof, Scalar::one(), 9, 9, &upk[1], &upk[1], omega, 8);
    assert!(matches!(r, Err(CustomError::InvalidParameter)));
    let r = update_proof(&proof, Scalar::one(), 1, 8, &upk[1], &upk[1], omega, 8);
    assert!(matches!(r, Err(CustomError::InvalidParameter)));
    let r = verify_upk(&params.verifying_key, 8, &upk[0], omega);
    assert_eq!(r, Err(CustomError::InvalidParameter));
}

#[test]
fn index_order_does_not_matter() {
    let (params, omega, values) = setup(8);
    let c = commit(&params.proving_key, values.clone()).unwrap();
    let a = prove_pos(&params.proving_key, values.clone(), vec![0, 1, 5]).unwrap();
    let b = prove_pos(&params.proving_key, values.clone(), vec![5, 0, 1]).unwrap();
    assert!(a.equals(&b));
    let vals = vec![values[5], values[0], values[1]];
    assert_eq!(verify_pos(&params.verifying_key, &c, vals, vec![5, 0, 1], &a, omega), Ok(true));
}
