//! The compact circuit: its layout, its witness, and the relocated openings.
use flock_prover::face_closure::{challenge_count, close_faces, plan_faces};
use flock_prover::field::F128;
use flock_prover::hash_to_point_hybrid::assembly::{
    assemble, record_bit, record_word, SpongeWitness, Witness,
};
use flock_prover::hash_to_point_hybrid::circuit::{
    descriptor, descriptor_stream, sponge_rows, Setup,
};
use flock_prover::hash_to_point_hybrid::direct::{assemble_direct, compact_sponge_witness};
use flock_prover::hash_to_point_hybrid::layout::{
    record_position, sponge_position, word_source, CONST, END, K, PROFILE, SPONGE_CONST,
    SPONGE_END, SPONGE_K, SPONGE_PRODUCTS, STATES, STATE_STRIDE,
};
use flock_prover::hash_to_point_hybrid::protocol::{prove_core, verify_core, Proof};
use flock_prover::hash_to_point_hybrid::reductions::{
    recombine_verifier, verify_circuit_after_root, verify_record, RecordRelation,
};
use flock_prover::hash_to_point_hybrid::{
    check_fragments, count_fragments, evaluations, flatten, Relocation,
};
use flock_prover::hash_to_point_record::compact_scatter::Factors;
use flock_prover::hash_to_point_slots as slots;
use flock_prover::hash_to_point_slots::setup::{word_position, SlotSetup};
use flock_prover::hash_to_point_sponge::chaining::{check_chain, sponge_points};
use flock_prover::hash_to_point_sponge::gather::gather_eval_many;
use flock_prover::hash_to_point_sponge::{SpongePublic, SpongeRecord};
use flock_prover::packed_bits::{bit, copy64, pack_witness, set_bit, zero_words};
use flock_prover::prover::{QuirkyPoint, ZClaim};
use flock_prover::sumcheck::ScatterProof;
use flock_prover::vectors::Rng;

fn fixtures(n: usize) -> Vec<SpongeRecord> {
    (0..n)
        .map(|i| SpongeRecord {
            salt: [i as u8; 40],
            hpk: [i as u8 + 1; 64],
            message: vec![i as u8; [31, 32, 165][i % 3]],
        })
        .collect()
}

fn sample(rng: &mut Rng, n: usize) -> Vec<F128> {
    (0..n).map(|_| rng.next_f128()).collect()
}

fn setup(records: usize) -> Setup {
    Setup::new(records, &[3; 32], &[7; 32])
}

fn record_witness(setup: &SlotSetup, words: &[Vec<u16>]) -> Vec<F128> {
    let blocks: Vec<[u16; slots::SLOTS]> = words
        .iter()
        .map(|w| w.as_slice().try_into().unwrap())
        .collect();
    pack_witness(&setup.generate_witness(&blocks))
}

fn direct_witness(setup: &Setup, inputs: &[SpongeRecord]) -> Witness {
    let compact = compact_sponge_witness(inputs);
    let record = record_witness(&setup.slots, &compact.all_words);
    assemble_direct(
        &setup.slots.r1cs.a_0,
        &setup.slots.r1cs.b_0,
        compact,
        &record,
        inputs.len(),
    )
}

/// A compact column moved back to the sponge's own addresses.
fn uncompacted(words: &[F128], records: usize) -> Vec<F128> {
    let mut old = zero_words(records * K / 128);
    for rec in 0..records {
        for block in 0..4 {
            for p in 0..SPONGE_K {
                if let Some(new) = sponge_position(block, p) {
                    if bit(words, rec * K + new) {
                        set_bit(&mut old, rec * K + block * SPONGE_K + p, true);
                    }
                }
            }
        }
    }
    old
}

/// The assembly limb by limb: the sponge's, then the record's, then the rows
/// that copy the words.
fn assemble_reference(
    setup: &Setup,
    sponge: &SpongeWitness,
    record: &[F128],
    records: usize,
) -> Witness {
    let image = |rows: &[Vec<usize>]| -> Vec<F128> {
        let mut out = zero_words(record.len());
        for rec in 0..records {
            for (w, row) in rows.iter().enumerate() {
                let parity = row
                    .iter()
                    .fold(false, |acc, &c| acc ^ bit(record, rec * slots::K + c));
                if parity {
                    set_bit(&mut out, rec * slots::K + w, true);
                }
            }
        }
        out
    };
    let record_a = image(&setup.slots.r1cs.a_0.rows);
    let record_b = image(&setup.slots.r1cs.b_0.rows);
    let mut z = zero_words(records * K / 128);
    let mut a = z.clone();
    let mut b = z.clone();
    for rec in 0..records {
        for block in 0..4 {
            for old in (0..SPONGE_K).step_by(64) {
                if let Some(new) = sponge_position(block, old) {
                    let src = rec * K + block * SPONGE_K + old;
                    copy64(&sponge.z_packed, src, &mut z, rec * K + new);
                    copy64(&sponge.a_packed, src, &mut a, rec * K + new);
                    copy64(&sponge.b_packed, src, &mut b, rec * K + new);
                }
            }
        }
        for old in (0..slots::K).step_by(64) {
            if let Some(new) = record_position(old) {
                let src = rec * slots::K + old;
                copy64(record, src, &mut z, rec * K + new);
                copy64(&record_a, src, &mut a, rec * K + new);
                copy64(&record_b, src, &mut b, rec * K + new);
            }
        }
        for slot in 0..slots::SLOTS {
            for i in 0..16 {
                let row = record_position(word_position(slot, i)).unwrap();
                let value = bit(&z, rec * K + word_source(slot, i));
                set_bit(&mut a, rec * K + row, value);
            }
        }
    }
    Witness { z, a, b }
}

fn c50_record_position(old: usize) -> Option<usize> {
    if old == slots::Z_CONST_POS {
        return Some(90112);
    }
    let (plane, slot) = (old / 1024, old % 1024);
    if plane < 112 && slot < 640 {
        let (base, width, offset) = if slot < 512 {
            ((slot / 256) * 32768, 256, slot % 256)
        } else {
            (2 * 32768, 128, slot - 512)
        };
        Some(base + plane * width + offset)
    } else if (112..120).contains(&plane) {
        Some(81920 + (plane - 112) * 1024 + slot)
    } else {
        None
    }
}

fn c50_sponge_position(block: usize, old: usize) -> Option<usize> {
    if old == SPONGE_CONST {
        return Some(90112);
    }
    if old < 6 * 2048 {
        let slot = old / 2048;
        let permutation = 4 * (slot / 2) + block;
        let offset = old % 2048;
        (permutation < 10 && offset < 1600)
            .then_some(98304 + (2 * permutation + slot % 2) * 2048 + offset)
    } else if (SPONGE_PRODUCTS..SPONGE_END).contains(&old) {
        let offset = old - SPONGE_PRODUCTS;
        let permutation = 4 * (offset / 38400) + block;
        (permutation < 10).then_some(139264 + permutation * 38400 + offset % 38400)
    } else {
        None
    }
}

fn c50_word_source(slot: usize, i: usize) -> usize {
    assert!(slot < slots::SLOTS && i < 16);
    98304 + (2 * (1 + slot / 68) + 1) * 2048 + 16 * (slot % 68) + (i ^ 8)
}

#[test]
fn hybrid_aligned_matches_frozen_c50_descriptor_and_maps() {
    assert_eq!(PROFILE, "aligned-state-v2");
    assert_eq!(K, 524288);
    assert_eq!(END, 523264);
    let setup = setup(8);
    let mut h = blake3::Hasher::new();
    h.update(b"aerie/hybrid-keccak-f1600-24-slot-v2/256-256-128-slot-segments/aligned-state-subcubes/copy-big-endian-words");
    h.update(&[3; 32]);
    h.update(&[7; 32]);
    for old in 0..slots::K {
        let expected = c50_record_position(old);
        assert_eq!(record_position(old), expected);
        h.update(&(expected.unwrap_or(usize::MAX) as u64).to_le_bytes());
    }
    for block in 0..4 {
        for old in 0..SPONGE_K {
            let expected = c50_sponge_position(block, old);
            assert_eq!(sponge_position(block, old), expected);
            h.update(&(expected.unwrap_or(usize::MAX) as u64).to_le_bytes());
        }
    }
    for slot in 0..slots::SLOTS {
        for i in 0..16 {
            let expected = c50_word_source(slot, i);
            assert_eq!(word_source(slot, i), expected);
            h.update(&(expected as u64).to_le_bytes());
        }
    }
    assert_eq!(setup.descriptor, *h.finalize().as_bytes());
    assert_eq!(setup.descriptor, descriptor(&[3; 32], &[7; 32]));
    // Both digests are part of what is hashed.
    assert_ne!(setup.descriptor, descriptor(&[4; 32], &[7; 32]));
    assert_ne!(setup.descriptor, descriptor(&[3; 32], &[8; 32]));
    let stream = descriptor_stream(&[3; 32], &[7; 32]);
    assert_eq!(setup.descriptor, *blake3::hash(&stream).as_bytes());
    assert_eq!((setup.r1cs.m, setup.record_vars()), (22, 3));
    assert_eq!(setup.n_cols(), K);
    assert_eq!(setup.const_pin_col(), Some(CONST));
    assert_eq!(
        (setup.params.m, setup.params.log_inv_rate, setup.params.log_batch_size),
        (22, 1, 6)
    );
}

#[test]
fn hybrid_aligned_direct_preserves_state_padding_and_record_boundaries() {
    let inputs = fixtures(8);
    let setup = setup(inputs.len());
    let direct = compact_sponge_witness(&inputs);
    let original = SpongeWitness {
        z_packed: uncompacted(&direct.witness.z, inputs.len()),
        a_packed: uncompacted(&direct.witness.a, inputs.len()),
        b_packed: uncompacted(&direct.witness.b, inputs.len()),
    };
    let mut rng = Rng::new(61);
    // Every retained inactive slot and high target bit is arbitrary.
    let record = sample(&mut rng, inputs.len() * slots::K / 128);
    let expected = assemble_reference(&setup, &original, &record, inputs.len());
    let actual = assemble_direct(
        &setup.slots.r1cs.a_0,
        &setup.slots.r1cs.b_0,
        direct,
        &record,
        inputs.len(),
    );
    assert_eq!(actual.z, expected.z);
    assert_eq!(actual.a, expected.a);
    assert_eq!(actual.b, expected.b);
    for rec in 0..inputs.len() {
        for state in 0..20 {
            let base = rec * K + 98304 + state * 2048;
            for i in 1600..2048 {
                assert!(!bit(&actual.z, base + i));
                assert!(!bit(&actual.a, base + i));
                assert!(!bit(&actual.b, base + i));
            }
        }
        for plane in [0, 15, 64, 96, 111, 112, 119] {
            for slot in [255, 256, 511, 512, 611, 612, 639, 640, 767, 768, 1023] {
                let old = plane * 1024 + slot;
                if let Some(new) = c50_record_position(old) {
                    assert_eq!(
                        bit(&actual.z, rec * K + new),
                        bit(&record, rec * slots::K + old),
                    );
                }
            }
        }
    }
}

fn rows_hold(a: &[F128], b: &[F128], z: &[F128]) -> bool {
    a.iter()
        .zip(b)
        .zip(z)
        .all(|((a, b), z)| a.lo & b.lo == z.lo && a.hi & b.hi == z.hi)
}

#[test]
fn hybrid_aligned_nonzero_state_padding_is_rejected() {
    let inputs = fixtures(8);
    let setup = setup(inputs.len());
    let witness = direct_witness(&setup, &inputs);
    assert!(rows_hold(&witness.a, &witness.b, &witness.z));
    // This retained state-padding cell lies inside the live domain, so its row
    // must not be left out.
    let cell = 7 * K + 98304 + 19 * 2048 + 2047;
    assert!(cell % K < END);
    assert!(!bit(&witness.a, cell));
    assert!(!bit(&witness.b, cell));
    let mut z = witness.z.clone();
    set_bit(&mut z, cell, true);
    assert!(!rows_hold(&witness.a, &witness.b, &z));
}

fn layout_retains_live_rows_and_disjoint_columns() {
    let setup = setup(8);
    // An omitted record row must have been exactly 0 * 0 = z_row; no retained
    // row may name an omitted column.
    for matrix in [&setup.slots.r1cs.a_0, &setup.slots.r1cs.b_0] {
        for (row, columns) in matrix.rows.iter().enumerate() {
            if record_position(row).is_none() {
                assert!(columns.is_empty(), "omitted live row {row}");
            }
            for &column in columns {
                assert!(record_position(column).is_some());
            }
        }
    }
    let mut occupied = vec![false; K];
    occupied[CONST] = true;
    for old in 1..slots::K {
        if let Some(new) = record_position(old) {
            assert!(!occupied[new], "record alias at {new}");
            occupied[new] = true;
        }
    }
    for block in 0..4 {
        for old in 0..SPONGE_K {
            if old == SPONGE_CONST {
                assert_eq!(sponge_position(block, old), Some(CONST));
            } else if let Some(new) = sponge_position(block, old) {
                assert!(!occupied[new], "sponge alias at {new}");
                occupied[new] = true;
            }
        }
    }
    // State padding must be unoccupied by every row and column map.
    for state in 0..20 {
        let base = STATES + state * STATE_STRIDE;
        assert_eq!(base % 2048, 0);
        assert!(occupied[base..base + 1600].iter().all(|&b| b));
        assert!(occupied[base + 1600..base + 2048].iter().all(|&b| !b));
    }
    assert!(occupied[END..].iter().all(|&b| !b));
}

#[test]
fn aligned_tests_hybrid_aligned_layout_retains_live_rows_and_disjoint_columns() {
    layout_retains_live_rows_and_disjoint_columns();
}

#[test]
fn tests_hybrid_aligned_layout_retains_live_rows_and_disjoint_columns() {
    layout_retains_live_rows_and_disjoint_columns();
}

fn state_queries_close_to_four_claims(seed: u64) {
    let mut rng = Rng::new(seed);
    let delta = rng.next_f128();
    let r = sample(&mut rng, 11);
    let points = sponge_points(14, delta, &r).unwrap();
    let groups = flatten(&points, Relocation::Sponge);
    assert_eq!(groups.len(), 22);
    assert!(groups.iter().all(|group| group.len() == 1));
    assert!(groups.iter().flatten().all(|f| f.weight == F128::one()));
    let points: Vec<_> = groups.iter().flatten().map(|f| f.point.clone()).collect();
    let zeros = vec![F128::zero(); points.len()];
    let families = plan_faces(&points, &zeros).unwrap();
    let vars = points[0].len();
    let count = challenge_count(&families, vars).unwrap();
    let closed = close_faces(&points, &zeros, &families, vars, &sample(&mut rng, count));
    // Two complete faces cover the twenty states, plus two salt subcubes.
    assert_eq!(closed.len(), 4);
}

#[test]
fn aligned_tests_hybrid_aligned_state_queries_close_to_four_claims() {
    state_queries_close_to_four_claims(67);
}

#[test]
fn tests_hybrid_aligned_state_queries_close_to_four_claims() {
    state_queries_close_to_four_claims(71);
}

fn fragments_match_arbitrary_retained_values(seed: u64) {
    let setup = setup(8);
    let mut rng = Rng::new(seed);
    let mut old_record = sample(&mut rng, 8 * slots::K / 128);
    for record in 0..8 {
        for old in 0..slots::K {
            if record_position(old).is_none() || (1..64).contains(&old) {
                set_bit(&mut old_record, record * slots::K + old, false);
            }
        }
    }
    let mut old_sponge = sample(&mut rng, 8 * K / 128);
    for record in 0..8 {
        for block in 0..4 {
            for slot in 0..6 {
                for i in 1600..2048 {
                    set_bit(
                        &mut old_sponge,
                        record * K + block * slots::K + slot * 2048 + i,
                        false,
                    );
                }
            }
        }
    }
    let sponge = SpongeWitness {
        z_packed: old_sponge.clone(),
        a_packed: vec![F128::zero(); old_sponge.len()],
        b_packed: vec![F128::zero(); old_sponge.len()],
    };
    let w = assemble(
        &setup.slots.r1cs.a_0,
        &setup.slots.r1cs.b_0,
        &sponge,
        &old_record,
        8,
    );
    // Nonzero top target bits and inactive-but-retained slot bits are kept.
    let points = vec![sample(&mut rng, 20), sample(&mut rng, 20)];
    let (relocated, _, _) = evaluations(&w.z, &flatten(&points, Relocation::Record));
    assert_eq!(relocated, gather_eval_many(&old_record, &points));
    let delta = rng.next_f128();
    let r = sample(&mut rng, 11);
    let points = sponge_points(3, delta, &r).unwrap();
    let (relocated, _, _) = evaluations(&w.z, &flatten(&points, Relocation::Sponge));
    assert_eq!(relocated, gather_eval_many(&old_sponge, &points));
}

#[test]
fn aligned_tests_hybrid_aligned_fragments_match_arbitrary_retained_values() {
    fragments_match_arbitrary_retained_values(73);
}

#[test]
fn tests_hybrid_aligned_fragments_match_arbitrary_retained_values() {
    fragments_match_arbitrary_retained_values(79);
}

#[test]
fn hybrid_rows_and_word_copy_constraints() {
    let setup = setup(8);
    let w = direct_witness(&setup, &fixtures(8));
    assert!(rows_hold(&w.a, &w.b, &w.z));
    for slot in 0..slots::SLOTS {
        for i in 0..16 {
            let row = record_position(word_position(slot, i)).unwrap();
            assert_eq!(bit(&w.a, row), bit(&w.z, word_source(slot, i)));
            assert!(bit(&w.b, row));
            // Flipping just the record input breaks the copy row itself.
            assert_ne!(bit(&w.a, row) & bit(&w.b, row), !bit(&w.z, row));
        }
    }
    let mut rng = Rng::new(83);
    let alpha = rng.next_f128();
    let weights = sample(&mut rng, K);
    let zero = F128::zero();
    let pick = |set: bool, value: F128| if set { value } else { zero };
    // The sponge's own columns enter by their sum over the rows of each block,
    // which the constant column carries here.
    let mut sponge = vec![vec![zero; SPONGE_K]; 4];
    for (block, columns) in sponge.iter_mut().enumerate() {
        let rows = sponge_rows(block, &weights);
        assert_eq!(rows[SPONGE_CONST], zero);
        let mut sum = zero;
        for old in 0..SPONGE_K {
            if old != SPONGE_CONST {
                let place = sponge_position(block, old);
                assert_eq!(rows[old], place.map_or(zero, |p| weights[p]));
                if let Some(p) = place {
                    sum = sum + pick(bit(&w.a, p), alpha * weights[p]);
                    sum = sum + pick(bit(&w.b, p), weights[p]);
                }
            }
        }
        columns[SPONGE_CONST] = sum;
    }
    let columns = setup.fold_alpha_batched(alpha, &weights, &sponge);
    let left = weights.iter().enumerate().fold(zero, |s, (i, &r)| {
        s + pick(bit(&w.a, i), alpha * r) + pick(bit(&w.b, i), r)
    });
    let right = columns
        .iter()
        .enumerate()
        .fold(zero, |s, (i, &r)| s + pick(bit(&w.z, i), r));
    assert_eq!(left, right);
}

#[test]
fn hybrid_relocation_matches_original_witness() {
    let inputs = fixtures(8);
    let setup = setup(8);
    let compact = compact_sponge_witness(&inputs);
    let record = record_witness(&setup.slots, &compact.all_words);
    let sponge = SpongeWitness {
        z_packed: uncompacted(&compact.witness.z, 8),
        a_packed: uncompacted(&compact.witness.a, 8),
        b_packed: uncompacted(&compact.witness.b, 8),
    };
    let old_record = record[..slots::K / 128].to_vec();
    let old_sponge = sponge.z_packed[..K / 128].to_vec();
    let w = assemble(
        &setup.slots.r1cs.a_0,
        &setup.slots.r1cs.b_0,
        &sponge,
        &record,
        8,
    );
    let mut rng = Rng::new(89);
    let points = vec![
        sample(&mut rng, 17),
        vec![F128::zero(); 17],
        vec![F128::one(); 17],
    ];
    let (relocated, _, _) =
        evaluations(&w.z[..K / 128], &flatten(&points, Relocation::Record));
    assert_eq!(relocated, gather_eval_many(&old_record, &points));
    let r = sample(&mut rng, 11);
    let points = sponge_points(0, rng.next_f128(), &r).unwrap();
    let (relocated, _, _) =
        evaluations(&w.z[..K / 128], &flatten(&points, Relocation::Sponge));
    assert_eq!(relocated, gather_eval_many(&old_sponge, &points));
}

#[test]
fn hybrid_optional_stripes_and_inplace_assembly_preserve_witness() {
    for n in [8, 32] {
        let inputs = fixtures(n);
        let setup = setup(n);
        let compact = compact_sponge_witness(&inputs);
        let record = record_witness(&setup.slots, &compact.all_words);
        let original = SpongeWitness {
            z_packed: uncompacted(&compact.witness.z, n),
            a_packed: uncompacted(&compact.witness.a, n),
            b_packed: uncompacted(&compact.witness.b, n),
        };
        let expected = assemble_reference(&setup, &original, &record, n);
        let (a_0, b_0) = (&setup.slots.r1cs.a_0, &setup.slots.r1cs.b_0);
        let got = assemble(a_0, b_0, &original, &record, n);
        assert_eq!(got.z, expected.z);
        assert_eq!(got.a, expected.a);
        assert_eq!(got.b, expected.b);
    }
}

#[test]
fn hybrid_inplace_assembly_matches_reference_on_arbitrary_bits() {
    let setup = setup(8);
    let mut rng = Rng::new(97);
    let sponge = SpongeWitness {
        z_packed: sample(&mut rng, 8 * K / 128),
        a_packed: sample(&mut rng, 8 * K / 128),
        b_packed: sample(&mut rng, 8 * K / 128),
    };
    let record = sample(&mut rng, 8 * slots::K / 128);
    // Arbitrary high and padding bits exercise every copied limb. The rows that
    // copy words must still come from the sponge even when the record's word
    // bits disagree.
    let expected = assemble_reference(&setup, &sponge, &record, 8);
    let got = assemble(
        &setup.slots.r1cs.a_0,
        &setup.slots.r1cs.b_0,
        &sponge,
        &record,
        8,
    );
    assert_eq!(got.z, expected.z);
    assert_eq!(got.a, expected.a);
    assert_eq!(got.b, expected.b);
}

#[test]
fn hybrid_packed_record_access_matches_arbitrary_scalar_relation() {
    let record_vars = 3;
    let mut rng = Rng::new(101);
    let z = sample(&mut rng, 1 << (record_vars + 19 - 7));
    let total = slots::K << record_vars;
    let scalar: Vec<bool> = (0..total).map(|p| record_bit(&z, p)).collect();
    let mut packed = Vec::with_capacity(total);
    for p in (0..total).step_by(64) {
        let word = record_word(&z, p);
        for i in 0..64 {
            packed.push((word >> i) & 1 == 1);
        }
    }
    for (p, (&a, &b)) in scalar.iter().zip(&packed).enumerate() {
        // The constant's limb is read whole.
        if !(1..64).contains(&(p % slots::K)) {
            assert_eq!(a, b);
        }
    }
    let (beta, gamma, delta) = (rng.next_f128(), rng.next_f128(), rng.next_f128());
    let challenges = sample(&mut rng, record_vars + 10);
    let expected = Factors::new(&scalar, record_vars, beta, gamma, delta).prove(&challenges);
    let actual = Factors::new(&packed, record_vars, beta, gamma, delta).prove(&challenges);
    assert_eq!(expected.0, actual.0);
    assert_eq!(expected.1, actual.1);
    let points = vec![sample(&mut rng, 20), sample(&mut rng, 20)];
    let groups = flatten(&points, Relocation::Record);
    let (originals, fragments, values) = evaluations(&z, &groups);
    assert_eq!(values, gather_eval_many(&z, &fragments));
    assert_eq!(check_fragments(&groups, &values, &originals), Ok(fragments));
}

#[test]
fn the_sponge_relation_holds_through_the_relocation() {
    let inputs = fixtures(8);
    let publics: Vec<SpongePublic> = inputs
        .iter()
        .map(|r| SpongePublic {
            hpk: r.hpk,
            message: r.message.clone(),
        })
        .collect();
    let setup = setup(8);
    let w = direct_witness(&setup, &inputs);
    let mut rng = Rng::new(103);
    let delta = rng.next_f128();
    let r = sample(&mut rng, 11);
    let points = sponge_points(3, delta, &r).unwrap();
    let groups = flatten(&points, Relocation::Sponge);
    assert_eq!(count_fragments(&groups), Some(22));
    let (originals, fragments, values) = evaluations(&w.z, &groups);
    assert_eq!(originals.len(), 22);
    check_chain(&originals, &publics, 3, delta, &r).unwrap();
    assert_eq!(check_fragments(&groups, &values, &originals), Ok(fragments));
    let mut bad = originals.clone();
    bad[0] = bad[0] + F128::one();
    assert!(check_chain(&bad, &publics, 3, delta, &r).is_err());
    assert_eq!(
        check_fragments(&groups, &values, &bad),
        Err("hybrid relocation identity")
    );
    assert_eq!(
        check_fragments(&groups, &values[1..], &originals),
        Err("hybrid relocation shape")
    );
    let mut bad = publics.clone();
    bad[0].hpk[0] ^= 1;
    assert!(check_chain(&originals, &bad, 3, delta, &r).is_err());
}

#[test]
fn the_whole_relation_is_checked_up_to_its_opening() {
    let inputs = fixtures(8);
    let publics: Vec<SpongePublic> = inputs
        .iter()
        .map(|r| SpongePublic {
            hpk: r.hpk,
            message: r.message.clone(),
        })
        .collect();
    let setup = setup(8);
    let w = direct_witness(&setup, &inputs);
    let mut rng = Rng::new(223);
    let (delta, r) = (rng.next_f128(), sample(&mut rng, 11));
    let claim = ZClaim {
        point: QuirkyPoint {
            z_skip: rng.next_f128(),
            x_inner_rest: sample(&mut rng, 12),
            x_outer: sample(&mut rng, 3),
        },
        value: rng.next_f128(),
    };
    let relation = RecordRelation {
        scatter: ScatterProof {
            claim: F128::zero(),
            rounds: vec![],
        },
        scatter_points: vec![sample(&mut rng, 20), sample(&mut rng, 20)],
        fingerprint_points: vec![sample(&mut rng, 20)],
        r_fp: sample(&mut rng, 12),
        fingerprint: rng.next_f128(),
    };
    let core = prove_core(
        &setup,
        &w.z,
        claim.clone(),
        claim.clone(),
        delta,
        &r,
        relation.clone(),
    )
    .unwrap();
    assert_eq!(core.sponge_values.len(), 22);
    let honest = Proof {
        scatter: core.scatter.clone(),
        sponge_values: core.sponge_values.clone(),
        record_values: core.record_values.clone(),
        fingerprint: core.fingerprint,
        fragment_values: core.values.clone(),
    };
    let points: Vec<Vec<F128>> = [
        relation.scatter_points.clone(),
        relation.fingerprint_points.clone(),
    ]
    .concat();
    let replay = || Ok((points.clone(), relation.r_fp.clone()));
    let circuit = || Some((claim.clone(), claim.clone()));
    let whole = |p: &Proof, publics: &[SpongePublic]| {
        verify_core(3, publics, p, circuit(), replay(), delta, &r).map(|core| core.points)
    };
    // The two halves, replayed apart and put together, decide the same.
    let split = |p: &Proof, publics: &[SpongePublic]| {
        let first = verify_circuit_after_root(3, publics, p, 64, circuit(), delta, &r)?;
        let second = verify_record(p, 64, replay())?;
        recombine_verifier(p, 64, first, second).map(|core| core.points)
    };
    assert_eq!(whole(&honest, &publics), Ok(core.points.clone()));
    assert_eq!(split(&honest, &publics), Ok(core.points.clone()));
    for category in 0..4 {
        let mut bad = honest.clone();
        let expected = match category {
            0 => {
                bad.sponge_values[0] = bad.sponge_values[0] + F128::one();
                "a record-start state does not pin to its public frame"
            }
            1 => {
                bad.record_values[0] = bad.record_values[0] + F128::one();
                "hybrid relocation identity"
            }
            2 => {
                bad.fragment_values[0] = bad.fragment_values[0] + F128::one();
                "hybrid relocation identity"
            }
            _ => {
                bad.fragment_values.pop();
                "hybrid relocation shape"
            }
        };
        assert_eq!(whole(&bad, &publics), Err(expected));
        assert!(split(&bad, &publics).is_err());
    }
    let mut bad_publics = publics.clone();
    bad_publics[0].hpk[0] ^= 1;
    assert!(whole(&honest, &bad_publics).is_err());
    assert!(split(&honest, &bad_publics).is_err());
    assert_eq!(
        verify_core(3, &publics, &honest, None, replay(), delta, &r).err(),
        Some("hybrid binary circuit")
    );
    assert_eq!(
        verify_core(3, &publics, &honest, circuit(), Err("its own error"), delta, &r).err(),
        Some("its own error")
    );
}
