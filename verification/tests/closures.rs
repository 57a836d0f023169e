//! The borrow chain, and the closures of opening claims.
use flock_prover::carry_gate::{
    borrow_tables, prove_chain, prove_chain_with, verify_chain, ChainProof, M,
};
use flock_prover::claim_closure::{prove_closure, verify_closure};
use flock_prover::face_closure::{challenge_count, close_faces, plan_faces, ClosedClaim};
use flock_prover::field::F128;
use flock_prover::packed_bits::pack_witness;
use flock_prover::vectors::Rng;

fn words(n: usize) -> Vec<u16> {
    let mut s = 7_u64;
    (0..n)
        .map(|_| {
            s = s.wrapping_mul(6364136223846793005).wrapping_add(1);
            (s >> 33) as u16
        })
        .collect()
}

fn dense_eval(bits: &[bool], point: &[F128]) -> F128 {
    let mut layer: Vec<F128> = bits
        .iter()
        .map(|&b| if b { F128::one() } else { F128::zero() })
        .collect();
    for &r in point {
        let half = layer.len() / 2;
        for i in 0..half {
            let low = layer[i];
            layer[i] = low + r * (low + layer[half + i]);
        }
        layer.truncate(half);
    }
    layer[0]
}

fn chain_challenges(vars: usize, seed: u64) -> (Vec<F128>, Vec<Vec<F128>>) {
    let mut rng = Rng::new(seed);
    let rho = (0..vars).map(|_| rng.next_f128()).collect();
    let layers = (0..16)
        .map(|_| (0..vars).map(|_| rng.next_f128()).collect())
        .collect();
    (rho, layers)
}

#[test]
fn packed_rounds_match_reference_and_all_claims_verify() {
    for n in [1_usize, 2, 128, 256, 4096] {
        let words = words(n);
        let vars = n.trailing_zeros() as usize;
        let (rho, challenges) = chain_challenges(vars, 3);
        let (proof, point) = prove_chain(&words, &rho, &challenges);
        let (expected, expected_point) = prove_chain_with(&words, false, &rho, &challenges);
        assert_eq!(proof, expected);
        assert_eq!(point, expected_point);
        let checked = verify_chain(&proof, vars, &rho, &challenges).unwrap();
        let outputs: Vec<_> = words.iter().map(|&x| x < M).collect();
        assert_eq!(
            checked.output_value,
            dense_eval(&outputs, &checked.output_point)
        );
        assert_eq!(checked.inputs.len(), 16);
        for claim in checked.inputs {
            let bits: Vec<_> = words.iter().map(|&x| x >> claim.bit & 1 != 0).collect();
            assert_eq!(claim.value, dense_eval(&bits, &claim.point));
        }
    }
}

/// The challenges of a layer, drawn from all that the proof said before it.
fn layer_challenges(proof: &ChainProof, layer: usize, vars: usize) -> Vec<F128> {
    let mut said = proof.output_value.lo ^ proof.output_value.hi.rotate_left(1);
    let mut mix = |x: F128| said = Rng::new(said ^ x.lo ^ x.hi.rotate_left(1)).next_u64();
    for part in &proof.layers[..layer] {
        for evals in &part.rounds {
            evals.iter().for_each(|&e| mix(e));
        }
        mix(part.x_value);
        mix(part.d_value);
    }
    let mut rng = Rng::new(said);
    (0..vars).map(|_| rng.next_f128()).collect()
}

fn transcript_challenges(proof: &ChainProof, vars: usize) -> Vec<Vec<F128>> {
    (0..16).map(|k| layer_challenges(proof, k, vars)).collect()
}

#[test]
fn rejects_forged_rounds_terminals_and_output() {
    let words = words(128);
    let (rho, mut challenges) = chain_challenges(7, 4);
    // Every layer's challenges follow the messages before it.
    let (mut proof, _) = prove_chain(&words, &rho, &challenges);
    for layer in 0..16 {
        challenges[layer] = layer_challenges(&proof, layer, 7);
        proof = prove_chain(&words, &rho, &challenges).0;
    }
    assert_eq!(transcript_challenges(&proof, 7), challenges);
    assert!(verify_chain(&proof, 7, &rho, &challenges).is_ok());
    for kind in 0..4 {
        let mut bad = proof.clone();
        let one = F128::one();
        match kind {
            0 => bad.layers[3].rounds[2][2] = bad.layers[3].rounds[2][2] + one,
            1 => bad.layers[4].x_value = bad.layers[4].x_value + one,
            2 => bad.layers[15].d_value = bad.layers[15].d_value + one,
            _ => bad.output_value = bad.output_value + one,
        }
        let challenges = transcript_challenges(&bad, 7);
        assert!(verify_chain(&bad, 7, &rho, &challenges).is_err());
    }
}

#[test]
fn every_chain_error_has_its_input() {
    let words = words(128);
    let (rho, challenges) = chain_challenges(7, 8);
    let (proof, _) = prove_chain(&words, &rho, &challenges);
    let refused = |bad: &ChainProof| verify_chain(bad, 7, &rho, &challenges).err();
    let mut bad = proof.clone();
    bad.layers.pop();
    assert_eq!(refused(&bad), Some("invalid borrow-chain shape"));
    let mut bad = proof.clone();
    bad.layers[0].rounds.pop();
    assert_eq!(refused(&bad), Some("invalid borrow layer arity"));
    let mut bad = proof.clone();
    bad.layers[0].rounds[0][0] = bad.layers[0].rounds[0][0] + F128::one();
    assert_eq!(refused(&bad), Some("borrow round sum mismatch"));
    let mut bad = proof.clone();
    bad.layers[0].x_value = bad.layers[0].x_value + F128::one();
    assert_eq!(refused(&bad), Some("borrow layer terminal mismatch"));
    assert!(refused(&proof).is_none());
    // One word whose lowest bit is clear borrows whatever came in.
    let (rho, challenges) = chain_challenges(0, 8);
    let (mut bad, _) = prove_chain(&[0], &rho, &challenges);
    assert_eq!(bad.layers[15].d_value, F128::zero());
    bad.layers[15].d_value = F128::one();
    assert_eq!(
        verify_chain(&bad, 0, &rho, &challenges).err(),
        Some("nonzero initial borrow")
    );
}

#[test]
fn the_last_borrow_compares_with_the_modulus() {
    let tables = borrow_tables(&[0, 61_444, 61_445, 65_535]);
    assert_eq!(tables.last().unwrap(), &vec![true, true, false, false]);
    assert_eq!(tables[0], vec![false; 4]);
}

#[test]
fn the_closure_collapses_claims_and_rejects_a_lie() {
    let vars = 12;
    let mut acc = 0x9e37_79b9_u64;
    let bits: Vec<bool> = (0..1 << vars)
        .map(|_| {
            acc = acc.wrapping_mul(6364136223846793005).wrapping_add(1);
            acc >> 63 == 1
        })
        .collect();
    let z_packed = pack_witness(&bits);
    // A family-shaped claim set: shared free coordinates with Boolean offsets,
    // plus one fully dense point.
    let coord = |seed: u64| F128 {
        lo: seed.wrapping_mul(0x9e37_79b9_7f4a_7c15) | 5,
        hi: seed.wrapping_mul(0x2545_f491_4f6c_dd1d) | 3,
    };
    let shared: Vec<F128> = (0..7).map(|i| coord(i + 11)).collect();
    let mut points: Vec<Vec<F128>> = Vec::new();
    for offset in 0..12_u64 {
        let mut p = Vec::with_capacity(vars);
        for j in 0..5 {
            p.push(if (offset >> j) & 1 == 1 {
                F128::one()
            } else {
                F128::zero()
            });
        }
        p.extend_from_slice(&shared);
        points.push(p);
    }
    points.push((0..vars as u64).map(|i| coord(100 + i)).collect());
    let values: Vec<F128> = points.iter().map(|p| dense_eval(&bits, p)).collect();

    let mut rng = Rng::new(17);
    let mu = rng.next_f128();
    let challenges: Vec<F128> = (0..vars).map(|_| rng.next_f128()).collect();
    let (proof, r) = prove_closure(&z_packed, vars, &points, mu, &challenges);
    assert_eq!(
        proof.z_value,
        dense_eval(&bits, &r),
        "terminal is the witness MLE"
    );

    let (r_v, z_v) =
        verify_closure(&proof, vars, &points, &values, mu, &challenges).expect("honest");
    assert_eq!((r_v, z_v), (r, proof.z_value));

    // One lied value must fail (the batching catches it).
    let mut lied = values.clone();
    lied[3] = lied[3] + F128::one();
    assert_eq!(
        verify_closure(&proof, vars, &points, &lied, mu, &challenges).err(),
        Some("a closure round does not sum to its claim")
    );
    let mut short = proof.clone();
    short.rounds.pop();
    assert_eq!(
        verify_closure(&short, vars, &points, &values, mu, &challenges).err(),
        Some("closure round count does not match the domain")
    );
    let mut forged = proof.clone();
    forged.z_value = forged.z_value + F128::one();
    assert_eq!(
        verify_closure(&forged, vars, &points, &values, mu, &challenges).err(),
        Some("the closure terminal does not match the claims")
    );
}

fn claims(corners: &[usize]) -> (Vec<bool>, Vec<Vec<F128>>, Vec<F128>) {
    let bits: Vec<_> = (0..128).map(|i| (i * 17 + (i >> 1) * 9) % 11 < 5).collect();
    let points: Vec<Vec<F128>> = corners
        .iter()
        .map(|&corner| {
            (0..7)
                .map(|axis| {
                    if [0, 2, 4].contains(&axis) {
                        let bit = [0, 2, 4].iter().position(|&x| x == axis).unwrap();
                        if corner & (1 << bit) != 0 {
                            F128::one()
                        } else {
                            F128::zero()
                        }
                    } else {
                        F128 {
                            lo: 71 + axis as u64,
                            hi: 5,
                        }
                    }
                })
                .collect()
        })
        .collect();
    let values = points.iter().map(|p| dense_eval(&bits, p)).collect();
    (bits, points, values)
}

fn closed(points: &[Vec<F128>], values: &[F128], seed: u64) -> Result<Vec<ClosedClaim>, &'static str> {
    let families = plan_faces(points, values)?;
    let count = challenge_count(&families, 7).unwrap();
    let mut rng = Rng::new(seed);
    let challenges: Vec<F128> = (0..count).map(|_| rng.next_f128()).collect();
    Ok(close_faces(points, values, &families, 7, &challenges))
}

#[test]
fn complete_and_incomplete_faces_match_direct_evaluation() {
    for (corners, expected) in [
        (vec![0, 1, 2, 3, 4, 5, 6, 7], 1),
        (vec![0, 1, 2], 2),
        (vec![0, 0, 1, 4], 2),
    ] {
        let (bits, points, values) = claims(&corners);
        let first = closed(&points, &values, 6).unwrap();
        assert_eq!(first.len(), expected);
        for claim in &first {
            assert_eq!(claim.value, dense_eval(&bits, &claim.point));
        }
        let replay = closed(&points, &values, 6).unwrap();
        for (a, b) in first.iter().zip(replay) {
            assert_eq!(a.point, b.point);
            assert_eq!(a.value, b.value);
        }
    }
}

#[test]
fn closing_gives_no_more_claims_than_points() {
    for (corners, distinct, faces) in [
        (vec![], 0, 0),
        (vec![5, 5, 5], 1, 1),
        (vec![0, 3, 5, 6], 4, 4),
        (vec![0, 3, 5, 6, 6, 3, 1], 5, 4),
        (vec![7, 6, 5, 4, 4, 5, 6, 7], 4, 1),
    ] {
        let (_, points, values) = claims(&corners);
        let count = closed(&points, &values, 9).unwrap().len();
        assert_eq!(count, faces);
        assert!(count <= distinct);
        // Every distinct point is a corner of one face.
        let families = plan_faces(&points, &values).unwrap();
        let corners: usize = families
            .iter()
            .flat_map(|family| &family.cubes)
            .map(|cube| cube.vertices.len())
            .sum();
        assert_eq!(corners, distinct);
    }
}

#[test]
fn binds_all_values_and_rejects_conflicting_duplicates() {
    let (bits, points, mut values) = claims(&[0, 1, 2, 3]);
    values[3] = values[3] + F128::one();
    let first = closed(&points, &values, 6).unwrap();
    assert_ne!(first[0].value, dense_eval(&bits, &first[0].point));
    let (_, points, mut values) = claims(&[0, 0]);
    values[1] = values[1] + F128::one();
    assert_eq!(
        plan_faces(&points, &values).err(),
        Some("conflicting duplicate face claim")
    );
    assert_eq!(plan_faces(&points, &[]).err(), Some("face claim count mismatch"));
    assert_eq!(
        plan_faces(&[vec![F128::one()], vec![]], &[F128::one(), F128::one()]).err(),
        Some("invalid face claim arity")
    );
}
