//! The ledgers that bind the compact circuit's reductions.
use flock_prover::face_closure::{challenge_count, close_faces, plan_faces};
use flock_prover::field::F128;
use flock_prover::hash_to_point_hybrid::assembly::{record_bit, record_word};
use flock_prover::hash_to_point_hybrid::circuit::Setup;
use flock_prover::hash_to_point_hybrid::protocol::{
    open, prove_core, verify_open, Proof, VerifyCore,
};
use flock_prover::hash_to_point_hybrid::reductions::{
    absorb_statement_ledger, checked_prefix, checked_suffix, circuit_ledger,
    prove_circuit_after_root, prove_record, quirky, recombine, recombine_verifier, record_ledger,
    verify_record, CommitmentDefaults, CommitmentParams, Profile, RecordRelation, RelationLedger,
    VerifierCircuitReduction, VerifierRecordReduction, CIRCUIT_LEDGER_LABEL, RECORD_LEDGER_LABEL,
    STATEMENT_LEDGER_LABEL,
};
use flock_prover::hash_to_point_hybrid::{count_fragments, flatten, Relocation};
use flock_prover::hash_to_point_record::compact_scatter::Factors;
use flock_prover::prover::{QuirkyPoint, ZClaim};
use flock_prover::sumcheck::ScatterProof;
use flock_prover::transcript::Observation;
use flock_prover::vectors::Rng;

fn sample(rng: &mut Rng, n: usize) -> Vec<F128> {
    (0..n).map(|_| rng.next_f128()).collect()
}

fn defaults() -> CommitmentDefaults {
    CommitmentDefaults {
        profile: Profile::Fast,
        merkle_hash: b"sha256".to_vec(),
    }
}

fn params() -> CommitmentParams {
    CommitmentParams {
        m: 22,
        log_inv_rate: 1,
        log_batch_size: 6,
        profile: Profile::Fast,
        merkle_hash: b"sha256".to_vec(),
    }
}

#[test]
fn hybrid_reduction_statement_ledger_binds_and_checks_all_parameters() {
    let setup = Setup::new(8, &[9; 32], &[5; 32]);
    let absorbed = |setup: &Setup, root: &[u8]| {
        let mut out = Vec::new();
        absorb_statement_ledger(setup, &defaults(), &params(), root, &mut out).unwrap();
        out
    };
    let baseline = absorbed(&setup, &[37; 32]);
    assert_eq!(
        baseline[0],
        Observation::Label(STATEMENT_LEDGER_LABEL.as_bytes().to_vec())
    );
    let mut root = [37; 32];
    root[0] ^= 1;
    assert_ne!(baseline, absorbed(&setup, &root));
    assert_eq!(baseline[3], Observation::Bytes(vec![9; 32]));
    let mut other = setup;
    other.descriptor[0] ^= 1;
    assert_ne!(baseline, absorbed(&other, &[37; 32]));
    other.descriptor[0] ^= 1;
    other.statement[0] ^= 1;
    assert_ne!(baseline, absorbed(&other, &[37; 32]));
    other.statement[0] ^= 1;
    assert_eq!(baseline, absorbed(&other, &[37; 32]));
    for which in 0..5 {
        let mut wrong = params();
        match which {
            0 => wrong.m = usize::MAX,
            1 => wrong.log_inv_rate += 1,
            2 => wrong.log_batch_size += 1,
            3 => wrong.profile = Profile::Secure,
            _ => wrong.merkle_hash = b"blake3".to_vec(),
        }
        let mut out = Vec::new();
        assert_eq!(
            absorb_statement_ledger(&other, &defaults(), &wrong, &[37; 32], &mut out),
            Err("hybrid commitment parameters")
        );
        assert!(out.is_empty());
    }
    let names: Vec<&str> = [Profile::Fast, Profile::Slim, Profile::Secure, Profile::Grind]
        .iter()
        .map(|p| p.name())
        .collect();
    assert_eq!(names, ["fast", "slim", "secure", "grind"]);
}

/// Random fragment values, and the openings that they make up.
fn opened(points: &[Vec<F128>], relocation: Relocation, rng: &mut Rng) -> (Vec<F128>, Vec<F128>) {
    let groups = flatten(points, relocation);
    let values = sample(rng, count_fragments(&groups).unwrap());
    let mut at = 0;
    let mut originals = Vec::new();
    for group in &groups {
        let mut sum = F128::zero();
        for f in group {
            sum = sum + f.weight * values[at];
            at += 1;
        }
        originals.push(sum);
    }
    (originals, values)
}

fn absorbed(ledger: &RelationLedger) -> Vec<Observation> {
    let mut out = Vec::new();
    ledger.absorb(&mut out);
    out
}

fn empty_scatter() -> ScatterProof {
    ScatterProof {
        claim: F128::zero(),
        rounds: vec![],
    }
}

fn random_claim(rng: &mut Rng) -> ZClaim {
    ZClaim {
        point: QuirkyPoint {
            z_skip: rng.next_f128(),
            x_inner_rest: sample(rng, 2),
            x_outer: sample(rng, 3),
        },
        value: rng.next_f128(),
    }
}

#[test]
fn hybrid_reduction_ledgers_bind_returned_values_points_weights_and_order() {
    let mut rng = Rng::new(107);
    let one = F128::one();
    let points: Vec<_> = (0..3).map(|_| sample(&mut rng, 17)).collect();
    let (originals, values) = opened(&points, Relocation::Record, &mut rng);
    let ledger =
        RelationLedger::checked(points.clone(), Relocation::Record, &originals, &values).unwrap();
    let baseline = absorbed(&ledger);
    for which in 0..6 {
        let mut wrong = ledger.clone();
        match which {
            0 => {
                wrong.originals[0] = wrong.originals[0] + one;
                wrong.values[0] = wrong.values[0] + one;
            }
            1 => wrong.source_points[0][0] = wrong.source_points[0][0] + one,
            2 => {
                wrong.groups[0][0].point[0] = wrong.groups[0][0].point[0] + one;
                wrong.points[0][0] = wrong.points[0][0] + one;
            }
            3 => wrong.groups[0][0].weight = wrong.groups[0][0].weight + one,
            4 => {
                wrong.source_points.swap(0, 1);
                wrong.groups.swap(0, 1);
                wrong.originals.swap(0, 1);
            }
            _ => {
                wrong.source_points[0].push(F128::zero());
            }
        }
        assert_ne!(baseline, absorbed(&wrong), "mutation {which}");
    }
    let mut invalid = values.clone();
    invalid[1] = invalid[1] + one;
    let checked = |points: &[Vec<F128>], values: &[F128]| {
        RelationLedger::checked(points.to_vec(), Relocation::Record, &originals, values).err()
    };
    assert_eq!(checked(&points, &invalid), Some("hybrid relocation identity"));
    assert_eq!(checked(&points, &values[..2]), Some("hybrid relocation shape"));
    assert_eq!(checked(&points[..2], &values), Some("hybrid relocation shape"));

    let claim = random_claim(&mut rng);
    let bound = |claim: &ZClaim| {
        let mut out = Vec::new();
        quirky(&mut out, claim);
        out
    };
    for which in 0..4 {
        let mut wrong = claim.clone();
        match which {
            0 => wrong.point.z_skip = wrong.point.z_skip + one,
            1 => wrong.point.x_inner_rest[0] = wrong.point.x_inner_rest[0] + one,
            2 => wrong.point.x_outer[0] = wrong.point.x_outer[0] + one,
            _ => wrong.value = wrong.value + one,
        }
        assert_ne!(bound(&claim), bound(&wrong));
    }
    let other = random_claim(&mut rng);
    let mut out = Vec::new();
    circuit_ledger(&claim, &other, &ledger, &mut out);
    assert_eq!(
        out[0],
        Observation::Label(CIRCUIT_LEDGER_LABEL.as_bytes().to_vec())
    );
    let mut swapped = Vec::new();
    circuit_ledger(&other, &claim, &ledger, &mut swapped);
    assert_ne!(out, swapped);
    let mut out = Vec::new();
    record_ledger(&ledger, &points[0], originals[0], &mut out);
    assert_eq!(
        out[0],
        Observation::Label(RECORD_LEDGER_LABEL.as_bytes().to_vec())
    );
    let mut moved = Vec::new();
    record_ledger(&ledger, &points[0], originals[1], &mut moved);
    assert_ne!(out, moved);
}

#[test]
fn hybrid_reduction_split_preserves_full_proof_ledgers_and_transcript() {
    // The two halves of one proof's fragment values, split and put together.
    let mut rng = Rng::new(109);
    let sponge_points: Vec<_> = (0..2).map(|_| sample(&mut rng, 19)).collect();
    let record_points: Vec<_> = (0..2).map(|_| sample(&mut rng, 17)).collect();
    let (sponge_values, mut fragments) = opened(&sponge_points, Relocation::Sponge, &mut rng);
    let (record_values, tail) = opened(&record_points, Relocation::Record, &mut rng);
    let split = fragments.len();
    fragments.extend_from_slice(&tail);
    let circuit = |fragments: &[F128]| {
        checked_prefix(
            sponge_points.clone(),
            Relocation::Sponge,
            &sponge_values,
            fragments,
        )
    };
    let record = |fragments: &[F128]| {
        checked_suffix(
            record_points.clone(),
            Relocation::Record,
            &record_values,
            fragments,
        )
    };
    let sponge_ledger = circuit(&fragments).unwrap();
    let record_ledger = record(&fragments).unwrap();
    assert_eq!(sponge_ledger.values, fragments[..split].to_vec());
    assert_eq!(record_ledger.values, fragments[split..].to_vec());

    let claims = |fragments: &[F128]| Proof {
        scatter: empty_scatter(),
        sponge_values: sponge_values.clone(),
        record_values: record_values.clone(),
        fingerprint: F128::one(),
        fragment_values: fragments.to_vec(),
    };
    let (ab, c) = (random_claim(&mut rng), random_claim(&mut rng));
    let r_fp = sample(&mut rng, 4);
    let circuit_half = |address: usize, sponge: RelationLedger| VerifierCircuitReduction {
        proof: address,
        ab: ab.clone(),
        c: c.clone(),
        sponge,
    };
    let record_half = |address: usize, record: RelationLedger| VerifierRecordReduction {
        proof: address,
        record,
        r_fp: r_fp.clone(),
        fingerprint: F128::one(),
    };
    let joined = recombine_verifier(
        &claims(&fragments),
        64,
        circuit_half(64, sponge_ledger.clone()),
        record_half(64, record_ledger.clone()),
    )
    .unwrap();
    assert_eq!(joined.points.len(), fragments.len());
    assert_eq!(joined.points[..split], sponge_ledger.points[..]);
    assert_eq!(joined.points[split..], record_ledger.points[..]);
    assert_eq!(joined.r_fp, r_fp);
    assert_eq!(joined.ab.value, ab.value);
    assert_eq!(
        recombine_verifier(
            &claims(&fragments),
            64,
            circuit_half(64, sponge_ledger.clone()),
            record_half(128, record_ledger.clone()),
        )
        .err(),
        Some("hybrid reduction proof source")
    );
    assert_eq!(
        recombine_verifier(
            &claims(&fragments[1..]),
            64,
            circuit_half(64, sponge_ledger.clone()),
            record_half(64, record_ledger.clone()),
        )
        .err(),
        Some("hybrid relocation shape")
    );
    let replayed =
        verify_record(&claims(&fragments), 64, Ok((record_points.clone(), r_fp.clone()))).unwrap();
    assert_eq!(replayed.r_fp(), &r_fp[..]);
    assert_eq!(replayed.fingerprint(), F128::one());
    assert_eq!(replayed.record.values, record_ledger.values);
    let (mut left, mut right) = (Vec::new(), Vec::new());
    replayed.absorb_ledger(&mut left);
    record_half(64, record_ledger.clone()).absorb_ledger(&mut right);
    assert_eq!(left, right);
    assert_eq!(
        verify_record(&claims(&fragments), 64, Err("the relation's own error")).err(),
        Some("the relation's own error")
    );

    for which in 0..4 {
        let mut wrong = fragments.clone();
        match which {
            0 => wrong[0] = wrong[0] + F128::one(),
            1 => {
                wrong.pop();
            }
            2 => wrong.push(F128::zero()),
            _ => *wrong.last_mut().unwrap() = F128::zero(),
        }
        let joined = circuit(&wrong).and_then(|c| {
            record(&wrong).and_then(|r| {
                recombine_verifier(
                    &claims(&wrong),
                    64,
                    circuit_half(64, c),
                    record_half(64, r),
                )
            })
        });
        assert!(joined.is_err(), "mutation {which}");
    }
    assert_eq!(circuit(&fragments[..1]).err(), Some("hybrid relocation shape"));
    assert_eq!(record(&fragments[..1]).err(), Some("hybrid relocation shape"));
}

#[test]
fn hybrid_reduction_record_borrow_matches_arbitrary_packed_witness() {
    let mut rng = Rng::new(113);
    let record_vars = 2;
    let z = sample(&mut rng, 1 << (record_vars + 19 - 7));
    let total = 131_072 << record_vars;
    let scalar: Vec<bool> = (0..total).map(|p| record_bit(&z, p)).collect();
    let packed: Vec<bool> = (0..total)
        .map(|p| (record_word(&z, p / 64 * 64) >> (p % 64)) & 1 == 1)
        .collect();
    let (beta, gamma, delta) = (rng.next_f128(), rng.next_f128(), rng.next_f128());
    let challenges = sample(&mut rng, record_vars + 10);
    let (left, left_point) =
        Factors::new(&scalar, record_vars, beta, gamma, delta).prove(&challenges);
    let (right, right_point) =
        Factors::new(&packed, record_vars, beta, gamma, delta).prove(&challenges);
    assert_eq!(left, right);
    assert_eq!(left_point, right_point);
    // Two batches evaluated apart and appended are the batch of both.
    let points: Vec<_> = (0..2).map(|_| sample(&mut rng, 19)).collect();
    let mut appended = RelationLedger::evaluate(&z, &points[..1], Relocation::Record);
    appended.append(RelationLedger::evaluate(&z, &points[1..], Relocation::Record));
    let whole = RelationLedger::evaluate(&z, &points, Relocation::Record);
    assert_eq!(appended.originals, whole.originals);
    assert_eq!(appended.values, whole.values);
    assert_eq!(absorbed(&appended), absorbed(&whole));
}

#[test]
fn split_reductions_recombine_to_the_whole_core() {
    let mut rng = Rng::new(127);
    let setup = Setup::new(8, &[3; 32], &[7; 32]);
    let z = sample(&mut rng, 1 << 15);
    let (delta, r) = (rng.next_f128(), sample(&mut rng, 11));
    let (ab, c) = (random_claim(&mut rng), random_claim(&mut rng));
    let relation = RecordRelation {
        scatter: empty_scatter(),
        scatter_points: vec![sample(&mut rng, 20)],
        fingerprint_points: vec![sample(&mut rng, 20)],
        r_fp: sample(&mut rng, 12),
        fingerprint: rng.next_f128(),
    };
    let core = prove_core(
        &setup,
        &z,
        ab.clone(),
        c.clone(),
        delta,
        &r,
        relation.clone(),
    )
    .unwrap();
    let half = |address: usize| {
        prove_circuit_after_root(&setup, address, &z, ab.clone(), c.clone(), delta, &r).unwrap()
    };
    let record = prove_record(&setup, 4096, &z, relation.clone());
    assert_eq!(record.r_fp(), &relation.r_fp[..]);
    assert_eq!(record.fingerprint(), relation.fingerprint);
    let joined = recombine(4096, z.len(), 22, half(4096), record.clone()).unwrap();
    assert_eq!(joined.points, core.points);
    assert_eq!(joined.values, core.values);
    assert_eq!(joined.sponge_values, core.sponge_values);
    assert_eq!(joined.record_values, core.record_values);
    assert_eq!(joined.r_fp, core.r_fp);
    assert_eq!(joined.fingerprint, core.fingerprint);
    for (address, len, m, circuit) in [
        (4097, z.len(), 22, half(4096)),
        (4096, z.len() - 1, 22, half(4096)),
        (4096, z.len(), 23, half(4096)),
        (4096, z.len(), 22, half(8192)),
    ] {
        assert_eq!(
            recombine(address, len, m, circuit, record.clone()).err(),
            Some("hybrid reduction witness source")
        );
    }
    let (mut whole, mut split) = (Vec::new(), Vec::new());
    circuit_ledger(&ab, &c, &half(4096).sponge, &mut whole);
    record_ledger(&record.record, &record.r_fp, record.fingerprint, &mut whole);
    half(4096).absorb_ledger(&mut split);
    record.absorb_ledger(&mut split);
    assert_eq!(whole, split);

    // Both sides of the opening list the same claims.
    let families = plan_faces(&core.points, &core.values).unwrap();
    let challenges = sample(&mut rng, challenge_count(&families, 22).unwrap());
    let closed = close_faces(&core.points, &core.values, &families, 22, &challenges);
    let checked = VerifyCore {
        r_fp: core.r_fp.clone(),
        ab: core.ab.clone(),
        c: core.c.clone(),
        points: core.points.clone(),
    };
    let switches = closed.len() + 2;
    let claims =
        verify_open(&checked, &core.values, &families, 22, &challenges, switches).unwrap();
    assert_eq!(claims.len(), switches);
    assert_eq!(claims[2].value, closed[0].value);
    assert_eq!(
        claims[0].x_full,
        [ab.point.x_inner_rest.clone(), ab.point.x_outer.clone()].concat()
    );
    let (x_fulls, rows) = open(&core, &families, 22, &challenges, None, vec![delta]);
    assert_eq!(rows.len(), switches);
    assert_eq!(rows[1], Some(vec![delta]));
    for (x, claim) in x_fulls.iter().zip(&claims) {
        assert_eq!(x, &claim.x_full);
    }
    assert_eq!(
        verify_open(&checked, &core.values, &families, 22, &challenges, switches + 1).err(),
        Some("hybrid opening shape")
    );
}
