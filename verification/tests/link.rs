//! The words' linkage, the masked tags, and the single root.
use flock_prover::field::F128;
use flock_prover::hash_to_point_link::composed::{
    prove_hash_to_point, record_extras, verify_extras, verify_hash_to_point, LaneClaims,
    LanesChallenges, LanesProof, LinkChallenges,
};
use flock_prover::hash_to_point_link::consistency::{
    mask_claim_point, prove_consistency_with, verify_consistency_with, zh_fingerprint_points,
    zh_fingerprint_value, MASK_PLANE, MASK_REPS,
};
use flock_prover::hash_to_point_link::single_root::{
    lift_to_root, prove_hash_to_point_single_root, root_witness, single_root_claims,
    single_root_params, single_root_rows, verify_hash_to_point_single_root, CircuitRows,
};
use flock_prover::hash_to_point_link::{
    aligned_pieces, keccak_link_claims, pow, prove_link_claims, record_coords, slot_link_claims,
    verify_link_claims, weighted_coord, weighted_sum, LinkProof,
};
use flock_prover::hash_to_point_slots::setup::{PcsParams, SlotSetup};
use flock_prover::hash_to_point_slots::witness::zh_position;
use flock_prover::hash_to_point_slots::{K, K_LOG, PLANE, SLOTS};
use flock_prover::hash_to_point_sponge::gather::{gather_eval, gather_eval_many};
use flock_prover::hash_to_point_sponge::{
    sponge_initial_states, sponge_trace, state_to_physical_bytes, SpongePublic, SpongeRecord,
    SpongeSetup,
};
use flock_prover::keccak::{keccak_f, State};
use flock_prover::packed_bits::{bit, pack_witness, set_bit, zero_words};
use flock_prover::prover::{LowBinding, QuirkyPoint, ZClaim};
use flock_prover::vectors::Rng;

fn small(v: u64) -> F128 {
    F128 { lo: v, hi: 0 }
}

fn sample(rng: &mut Rng, n: usize) -> Vec<F128> {
    (0..n).map(|_| rng.next_f128()).collect()
}

fn test_records(n: usize) -> Vec<SpongeRecord> {
    (0..n as u8)
        .map(|seed| SpongeRecord {
            salt: [seed.wrapping_add(1); 40],
            hpk: [seed.wrapping_mul(3).wrapping_add(7); 64],
            message: (0..33).map(|i| seed.wrapping_add(i)).collect(),
        })
        .collect()
}

#[test]
fn aligned_pieces_tile_their_ranges() {
    for (start, end) in [(0, 68), (68, 136), (476, 544), (1, 11), (0, 1024)] {
        let pieces = aligned_pieces(start, end);
        let mut cursor = start;
        for (base, k) in pieces {
            assert_eq!(base, cursor);
            assert_eq!(base % (1 << k), 0);
            cursor = base + (1 << k);
        }
        assert_eq!(cursor, end);
    }
}

/// The slot witness of the records, without the blocks that pad it.
fn slot_witness(blocks: &[[u16; SLOTS]]) -> Vec<F128> {
    let z = SlotSetup::new(blocks.len()).generate_witness(&blocks.to_vec());
    pack_witness(&z[..blocks.len() * K])
}

/// A state in the order of its bytes.
fn write_state(words: &mut Vec<F128>, base: usize, state: &State) {
    for (i, byte) in state_to_physical_bytes(state).iter().enumerate() {
        for t in 0..8 {
            set_bit(words, base + 8 * i + t, (byte >> t) & 1 == 1);
        }
    }
}

/// The states of every record, each in its slot of its block.
fn state_slots(records: &[SpongeRecord]) -> (Vec<F128>, Vec<[u16; SLOTS]>) {
    let mut traces = Vec::new();
    let mut words = Vec::new();
    for record in records {
        let (states, squeezed) = sponge_trace(record);
        traces.push(states);
        let mut block = [0_u16; SLOTS];
        block.copy_from_slice(&squeezed);
        words.push(block);
    }
    let initial = sponge_initial_states(&traces);
    let mut z = zero_words(records.len() * 4096);
    for record in 0..records.len() {
        for block in 0..4 {
            for sub in 0..3 {
                let mut state = initial[3 * (4 * record + block) + sub];
                let base = (4 * record + block) * 131_072 + 2 * sub * 2_048;
                write_state(&mut z, base, &state);
                keccak_f(&mut state);
                write_state(&mut z, base + 2_048, &state);
            }
        }
    }
    (z, words)
}

#[test]
fn the_linkage_identity_holds_on_honest_witnesses() {
    // Build both witnesses, evaluate every claim, and check that the two
    // weighted sums agree, plus that a tampered word breaks them.
    let records = 2;
    let (keccak_z, blocks) = state_slots(&test_records(records));
    let slot_setup = SlotSetup::new(records);
    let slot_z_bools = slot_setup.generate_witness(&blocks);
    let slot_z = pack_witness(&slot_z_bools);

    let (delta, nu, mu, gamma) = (small(0x1111), small(0x2323), small(0x4545), small(0x6767));
    let slot_record_vars = slot_setup.r1cs.m - K_LOG;
    let slot_claims =
        slot_link_claims(slot_record_vars, delta, nu, mu, gamma).expect("defined");
    let keccak_claims = keccak_link_claims(1, delta, nu, mu, gamma).expect("defined");

    let slot_sum = slot_claims.iter().fold(F128::zero(), |sum, claim| {
        sum + claim.coefficient * gather_eval(&slot_z, &claim.point)
    });
    let keccak_sum = keccak_claims.iter().fold(F128::zero(), |sum, claim| {
        sum + claim.coefficient * gather_eval(&keccak_z, &claim.point)
    });
    assert_eq!(slot_sum, keccak_sum, "the honest linkage identity");

    // A tampered slot word breaks the identity.
    let mut tampered = blocks.clone();
    tampered[1][100] ^= 4;
    let tampered_bools = slot_setup.generate_witness(&tampered);
    let tampered_z = pack_witness(&tampered_bools);
    let tampered_sum = slot_claims.iter().fold(F128::zero(), |sum, claim| {
        sum + claim.coefficient * gather_eval(&tampered_z, &claim.point)
    });
    assert_ne!(tampered_sum, keccak_sum);

    let (proof, slot_points, keccak_points) =
        prove_link_claims(slot_record_vars, 1, &slot_z, &keccak_z, delta, nu, mu, gamma);
    assert_eq!(weighted_sum(&slot_claims, &proof.slot_values), slot_sum);
    let verified = verify_link_claims(slot_record_vars, 1, &proof, delta, nu, mu, gamma).unwrap();
    assert_eq!(verified, (slot_points, keccak_points));
    let mut wrong = proof.clone();
    wrong.slot_values[3] = wrong.slot_values[3] + F128::one();
    assert_eq!(
        verify_link_claims(slot_record_vars, 1, &wrong, delta, nu, mu, gamma).err(),
        Some("the word linkage does not hold")
    );
    let mut wrong = proof.clone();
    wrong.keccak_values.pop();
    assert_eq!(
        verify_link_claims(slot_record_vars, 1, &wrong, delta, nu, mu, gamma).err(),
        Some("wrong linkage claim count")
    );
    assert_eq!(
        verify_link_claims(slot_record_vars, 1, &proof, delta, F128::one(), mu, gamma).err(),
        Some("degenerate")
    );
}

/// A record's table with a full dense region and a mask for each repetition.
fn masked_table(rng: &mut Rng) -> Vec<F128> {
    let mut z = zero_words(K / 128);
    for j in 0..512 {
        for c in 0..15 {
            if rng.bit() {
                set_bit(&mut z, zh_position(j, c), true);
            }
        }
    }
    for rep in 0..MASK_REPS {
        for h in 0..128 {
            if (rep + h) % 3 == 0 {
                set_bit(&mut z, MASK_PLANE * PLANE + 128 * rep + h, true);
            }
        }
    }
    z
}

#[test]
fn generated_blocks_leave_the_mask_plane_empty() {
    let (_, blocks) = state_slots(&test_records(1));
    let z = slot_witness(&blocks);
    for slot in 0..PLANE {
        assert!(!bit(&z, MASK_PLANE * PLANE + slot));
    }
    // The words themselves stand from the first plane on.
    for b in 0..16 {
        assert_eq!(bit(&z, (1 + b) * PLANE + 100), (blocks[0][100] >> b) & 1 == 1);
    }
}

#[test]
fn tags_bind_the_fingerprint_and_the_mask() {
    let mut rng = Rng::new(131);
    let z = masked_table(&mut rng);
    let challenges: Vec<(Vec<F128>, F128)> = (0..MASK_REPS)
        .map(|_| (sample(&mut rng, 9), rng.next_f128()))
        .collect();
    let (proof, points) = prove_consistency_with(0, &z, &challenges);
    for (rep, (r, gamma)) in challenges.iter().enumerate() {
        // The packed leaves' extension, from the bits.
        let mut fingerprint = F128::zero();
        for j in 0..512 {
            let mut leaf = F128::zero();
            for c in 0..15 {
                if bit(&z, zh_position(j, c)) {
                    leaf = leaf + small(1 << c);
                }
            }
            let mut weight = F128::one();
            for (k, &coordinate) in r.iter().enumerate() {
                weight = weight
                    * if (j >> (8 - k)) & 1 == 1 {
                        coordinate
                    } else {
                        F128::one() + coordinate
                    };
            }
            fingerprint = fingerprint + weight * leaf;
        }
        let values = gather_eval_many(&z, &zh_fingerprint_points(0, r));
        assert_eq!(zh_fingerprint_value(&values), fingerprint);
        let mut mask = F128::zero();
        for h in 0..128 {
            if (rep + h) % 3 == 0 {
                mask = mask
                    + if h < 64 {
                        small(1 << h)
                    } else {
                        F128 {
                            lo: 0,
                            hi: 1 << (h - 64),
                        }
                    };
            }
        }
        let (point, scale) = mask_claim_point(0, rep);
        assert_eq!(scale * gather_eval(&z, &point), mask);
        assert_eq!(proof.tags[rep], *gamma * fingerprint + mask);
    }
    let (listed, values) = verify_consistency_with(0, &proof, &challenges).unwrap();
    assert_eq!(listed, points);
    assert_eq!(values, proof.values.concat());
    let mut wrong = proof.clone();
    wrong.tags[1] = wrong.tags[1] + F128::one();
    assert_eq!(
        verify_consistency_with(0, &wrong, &challenges).err(),
        Some("a consistency tag equation does not hold")
    );
    let mut wrong = proof.clone();
    wrong.values[0][7] = wrong.values[0][7] + F128::one();
    assert!(verify_consistency_with(0, &wrong, &challenges).is_err());
    let mut wrong = proof.clone();
    wrong.values[0].pop();
    assert_eq!(
        verify_consistency_with(0, &wrong, &challenges).err(),
        Some("wrong consistency claim count")
    );
    let mut wrong = proof.clone();
    wrong.tags.pop();
    assert_eq!(
        verify_consistency_with(0, &wrong, &challenges).err(),
        Some("wrong consistency repetition count")
    );
}

#[test]
fn fingerprint_matches_reference_with_nonzero_padding() {
    let mut rng = Rng::new(137);
    // Arbitrary packed bits, including coordinate fifteen of every leaf. No
    // honest zero padding is assumed.
    let mut packed = sample(&mut rng, K / 128);
    for leaf in 0..512 {
        set_bit(&mut packed, zh_position(leaf, 15), true);
    }
    for r in [
        vec![F128::zero(); 9],
        vec![F128::one(); 9],
        sample(&mut rng, 9),
    ] {
        let points = zh_fingerprint_points(0, &r);
        let values = gather_eval_many(&packed, &points);
        let expected = values
            .iter()
            .enumerate()
            .fold(F128::zero(), |sum, (i, &v)| sum + small(1 << i) * v);
        assert_eq!(values.len(), 15);
        assert_eq!(zh_fingerprint_value(&values), expected);
    }
}

#[test]
fn both_arguments_leave_their_claims_in_order() {
    let (keccak_z, blocks) = state_slots(&test_records(1));
    let mut slot_z = slot_witness(&blocks);
    let mut rng = Rng::new(139);
    let masked = masked_table(&mut rng);
    for p in 0..K {
        if bit(&masked, p) {
            set_bit(&mut slot_z, p, true);
        }
    }
    let link_challenges = LinkChallenges {
        delta: small(0x1111),
        nu: small(0x2323),
        mu: small(0x4545),
        gamma: small(0x6767),
    };
    let challenges: Vec<(Vec<F128>, F128)> = (0..MASK_REPS)
        .map(|_| (sample(&mut rng, 9), rng.next_f128()))
        .collect();
    let LinkChallenges { delta, nu, mu, gamma } = link_challenges;
    let (link, slot_points, keccak_points) =
        prove_link_claims(0, 0, &slot_z, &keccak_z, delta, nu, mu, gamma);
    let (consistency, consistency_points) = prove_consistency_with(0, &slot_z, &challenges);
    let extras =
        verify_extras(0, 0, &link, link_challenges, &consistency, &challenges).unwrap();
    assert_eq!(extras.keccak_points, keccak_points);
    let (points, values) = record_extras(
        slot_points,
        &link.slot_values,
        consistency_points,
        &consistency.values,
    );
    assert_eq!(extras.record_points, points);
    assert_eq!(extras.record_values, values);
    assert_eq!(values, gather_eval_many(&slot_z, &points));

    let mut wrong = consistency.clone();
    wrong.tags[0] = wrong.tags[0] + F128::one();
    assert_eq!(
        verify_extras(0, 0, &link, link_challenges, &wrong, &challenges).err(),
        Some("a consistency tag equation does not hold")
    );
    // The linkage is checked first.
    let empty = LinkProof {
        slot_values: vec![],
        keccak_values: vec![],
    };
    assert_eq!(
        verify_extras(0, 0, &empty, link_challenges, &wrong, &challenges).err(),
        Some("wrong linkage claim count")
    );
}

#[test]
fn weighted_coordinates_reproduce_their_weights() {
    let mut rng = Rng::new(149);
    let (w0, w1) = (rng.next_f128(), rng.next_f128());
    let (coord, scale) = weighted_coord(w0, w1).unwrap();
    assert_eq!(scale * (F128::one() + coord), w0);
    assert_eq!(scale * coord, w1);
    assert!(weighted_coord(w0, w0).is_none());
    assert_eq!(pow(w0, 5), w0 * w0 * w0 * w0 * w0);
    assert_eq!(pow(w0, 0), F128::one());
    let (coords, scale) = record_coords(2, w0).unwrap();
    assert_eq!(scale * coords[0] * (F128::one() + coords[1]), w0 * w0);
    assert!(record_coords(2, F128::one()).is_none());
}

fn quirky(rng: &mut Rng) -> ZClaim {
    ZClaim {
        point: QuirkyPoint {
            z_skip: rng.next_f128(),
            x_inner_rest: sample(rng, 2),
            x_outer: sample(rng, 1),
        },
        value: rng.next_f128(),
    }
}

#[test]
fn a_single_root_holds_both_lanes() {
    let mut rng = Rng::new(151);
    let lane = |m: usize, log_inv_rate: usize| PcsParams {
        m,
        log_inv_rate,
        log_batch_size: 6,
    };
    let root = single_root_params(&lane(9, 1), &lane(8, 1));
    assert_eq!((root.m, root.log_inv_rate, root.log_batch_size), (10, 1, 6));
    let sponge = sample(&mut rng, 4);
    let slots = sample(&mut rng, 2);
    let words = root_witness(&sponge, &slots, 4);
    assert_eq!(words[..4], sponge[..]);
    assert_eq!(words[4..6], slots[..]);
    assert_eq!(words[6..], [F128::zero(); 2]);

    // A lane's opening is the root's at the lifted point.
    let point = sample(&mut rng, 8);
    let mut lifted = lift_to_root(point.iter().rev().copied().collect(), 8, 10, true);
    lifted.reverse();
    assert_eq!(gather_eval(&words, &lifted), gather_eval(&slots, &point));

    let mut claims = |m: usize, n: usize| LaneClaims {
        m,
        ab: quirky(&mut rng),
        c: quirky(&mut rng),
        points: (0..n).map(|_| sample(&mut rng, m)).collect(),
        values: sample(&mut rng, n),
    };
    let (first, second) = (claims(9, 2), claims(8, 1));
    let root = single_root_claims(&first, &second, 10).unwrap();
    assert_eq!(root.values.len(), 7);
    assert_eq!(root.values[2..4], first.values[..]);
    assert_eq!(root.values[4], second.ab.value);
    assert_eq!(root.x_fulls[6].last(), Some(&F128::one()));
    assert_eq!(root.x_fulls[0].last(), Some(&F128::zero()));
    assert!(matches!(root.bindings[4], LowBinding::Quirky { .. }));
    assert!(matches!(root.bindings[6], LowBinding::Multilinear { .. }));
    let mut short = first.clone();
    short.values.pop();
    assert_eq!(
        single_root_claims(&short, &second, 10).err(),
        Some("single-root claim bookkeeping disagrees")
    );
}

#[test]
fn single_root_rows_follow_the_claims() {
    let rows = single_root_rows(2, 1, None, vec![small(1)], vec![small(2)], vec![small(3)]);
    assert_eq!(
        rows,
        vec![
            None,
            Some(vec![small(1)]),
            None,
            None,
            Some(vec![small(2)]),
            Some(vec![small(3)]),
            None
        ]
    );
}

#[test]
fn both_lanes_hold_up_to_their_openings() {
    let records = 4;
    let inputs = test_records(records);
    let publics: Vec<SpongePublic> = inputs
        .iter()
        .map(|r| SpongePublic {
            hpk: r.hpk,
            message: r.message.clone(),
        })
        .collect();
    let setup = SpongeSetup::new(records);
    let (sponge_z, blocks) = state_slots(&inputs);
    let mut record_z = slot_witness(&blocks);
    let mut rng = Rng::new(211);
    let masked = masked_table(&mut rng);
    for rec in 0..records {
        for p in 0..K {
            if bit(&masked, p) {
                set_bit(&mut record_z, rec * K + p, true);
            }
        }
    }
    let challenges = LanesChallenges {
        delta: rng.next_f128(),
        r: sample(&mut rng, 11),
        link: LinkChallenges {
            delta: rng.next_f128(),
            nu: rng.next_f128(),
            mu: rng.next_f128(),
            gamma: rng.next_f128(),
        },
        consistency: (0..MASK_REPS)
            .map(|_| (sample(&mut rng, 11), rng.next_f128()))
            .collect(),
    };
    let opened = prove_hash_to_point(2, 2, &sponge_z, &record_z, &challenges).unwrap();
    let own_point = sample(&mut rng, 19);
    let own = LaneClaims {
        m: 19,
        ab: quirky(&mut rng),
        c: quirky(&mut rng),
        points: vec![own_point.clone()],
        values: vec![gather_eval(&record_z, &own_point)],
    };
    let circuit = (quirky(&mut rng), quirky(&mut rng));
    let given = || LanesProof {
        circuit: Some(circuit.clone()),
        sponge_values: opened.sponge_values.clone(),
        record: Ok(own.clone()),
        link: opened.link.clone(),
        consistency: opened.consistency.clone(),
    };
    let verify = |given: LanesProof, publics: &[SpongePublic]| {
        verify_hash_to_point(&setup, publics, 2, given, &challenges)
    };

    // Every listed value is what the lane's witness opens to.
    let (sponge, record) = verify(given(), &publics).unwrap();
    let keccak_claims = opened.keccak_points.len();
    assert_eq!(sponge.len(), 2 + 22 + keccak_claims);
    assert_eq!(record.len(), 2 + 1 + opened.record_points.len());
    let sponge_opened = [
        gather_eval_many(&sponge_z, &opened.sponge_points),
        gather_eval_many(&sponge_z, &opened.keccak_points),
    ]
    .concat();
    let record_opened = gather_eval_many(&record_z, &opened.record_points);
    let values: Vec<F128> = sponge[2..].iter().map(|o| o.value).collect();
    assert_eq!(values, sponge_opened);
    let values: Vec<F128> = record[3..].iter().map(|o| o.value).collect();
    assert_eq!(values, record_opened);
    assert_eq!(values, opened.record_values);

    // The same claims over one root.
    let root =
        verify_hash_to_point_single_root(&setup, &publics, 2, 22, given(), &challenges).unwrap();
    assert_eq!(root.values.len(), sponge.len() + record.len());
    assert_eq!(root.values[2..sponge.len()], sponge_opened[..]);
    assert_eq!(root.x_fulls[sponge.len() + 3].last(), Some(&F128::one()));
    let opening = prove_hash_to_point_single_root(
        2,
        2,
        22,
        &sponge_z,
        &record_z,
        CircuitRows {
            ab: circuit.0.clone(),
            c: circuit.1.clone(),
            rows_ab: None,
            rows_c: vec![small(5)],
        },
        own.clone(),
        (vec![small(6)], vec![small(7)]),
        &challenges,
    )
    .unwrap();
    assert_eq!(opening.claims.values, root.values);
    assert_eq!(opening.claims.x_fulls, root.x_fulls);
    assert_eq!(opening.rows.len(), root.values.len());
    assert_eq!(opening.rows[1], Some(vec![small(5)]));
    assert_eq!(opening.rows[sponge.len()], Some(vec![small(6)]));
    let mut short = given();
    short.record = Ok(LaneClaims {
        values: vec![],
        ..own.clone()
    });
    assert_eq!(
        verify_hash_to_point_single_root(&setup, &publics, 2, 22, short, &challenges).err(),
        Some("single-root claim bookkeeping disagrees")
    );

    // Each check refuses in its turn.
    let mut wrong = given();
    wrong.link.slot_values[3] = wrong.link.slot_values[3] + F128::one();
    wrong.consistency.tags[1] = wrong.consistency.tags[1] + F128::one();
    assert_eq!(
        verify(wrong, &publics).err(),
        Some("the word linkage does not hold")
    );
    let mut wrong_publics = publics.clone();
    wrong_publics[3].message[0] ^= 1;
    let mut wrong = given();
    wrong.record = Err("the record lane's own error");
    assert!(matches!(
        verify(wrong, &wrong_publics),
        Err("a record-start state does not pin to its public frame")
            | Err("the absorption edge does not hold")
    ));
    let mut wrong = given();
    wrong.record = Err("the record lane's own error");
    assert_eq!(
        verify(wrong, &publics).err(),
        Some("the record lane's own error")
    );
    let mut wrong = given();
    wrong.consistency.tags[1] = wrong.consistency.tags[1] + F128::one();
    assert_eq!(
        verify(wrong, &publics).err(),
        Some("a consistency tag equation does not hold")
    );
    let mut wrong = given();
    wrong.consistency.values[0][7] = wrong.consistency.values[0][7] + F128::one();
    assert!(verify(wrong, &publics).is_err());
    let mut wrong = given();
    wrong.circuit = None;
    assert_eq!(
        verify(wrong, &publics).err(),
        Some("keccak R1CS verification failed")
    );
    let mut degenerate = challenges.clone();
    degenerate.link.mu = F128::one();
    assert!(prove_hash_to_point(2, 2, &sponge_z, &record_z, &degenerate).is_none());
}
