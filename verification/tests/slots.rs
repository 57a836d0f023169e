//! The candidate slots' circuit.
use flock_prover::field::F128;
use flock_prover::hash_to_point_slots::matrices::{build_matrices, pos};
use flock_prover::hash_to_point_slots::packed::{gather_four, Program};
use flock_prover::hash_to_point_slots::setup::{
    accept_position, build_block_r1cs, centering_position, gate_position, quotient_position,
    SlotSetup,
};
use flock_prover::hash_to_point_slots::witness::{
    build_block_witness, build_block_witness_with, is_input, zh_position,
};
use flock_prover::hash_to_point_slots::{
    ACCEPT_BOUND, D, FALCON_Q, G, H, K, SLOTS, U, USEFUL_BITS, X, Z_CONST_POS,
};
use flock_prover::packed_bits::pack_witness;
use flock_prover::r1cs::BlockR1cs;
use sha3::digest::{ExtendableOutput, Update, XofReader};
use sha3::Shake256;

fn word_battery() -> [u16; SLOTS] {
    // 612 words: the boundary edges first, pseudo-random fill after.
    let mut words = [0_u16; SLOTS];
    let edges = [
        0_u16, 1, 6_144, 6_145, 12_288, 12_289, 24_577, 36_866, 49_155, 61_444, 61_445, 61_446,
        65_535,
    ];
    words[..edges.len()].copy_from_slice(&edges);
    for (index, word) in words.iter_mut().enumerate().skip(edges.len()) {
        *word = (index as u16).wrapping_mul(9_973).wrapping_add(12_345);
    }
    words
}

fn single_block_r1cs() -> BlockR1cs {
    // The whole domain is eight blocks, so the same block is tiled.
    build_block_r1cs(3)
}

fn tiled(z_block: &[bool]) -> Vec<bool> {
    let mut z = Vec::with_capacity(8 * K);
    for _ in 0..8 {
        z.extend_from_slice(z_block);
    }
    z
}

#[test]
fn honest_block_satisfies() {
    let words = word_battery();
    let (block, counter) = build_block_witness(&words);
    let expected = words
        .iter()
        .filter(|&&word| u32::from(word) < ACCEPT_BOUND)
        .count() as u16;
    assert_eq!(counter, expected);
    assert!(single_block_r1cs().satisfies(&tiled(&block)));
}

#[test]
fn counter_counts_all_record_slots() {
    let words = word_battery();
    let (block, counter) = build_block_witness(&words);
    let accepted = words
        .iter()
        .filter(|&&word| u32::from(word) < ACCEPT_BOUND)
        .count() as u16;
    assert_eq!(counter, accepted);
    // Random words are accepted at the rate 61,445/65,536, so a full record's
    // 612 slots clear 512 acceptances here.
    assert!(counter >= 512);
    let _ = block;
}

#[test]
fn tampered_wires_fail_satisfies() {
    let words = word_battery();
    let (block, _counter) = build_block_witness(&words);
    let r1cs = single_block_r1cs();
    for position in [
        accept_position(0),
        centering_position(3),
        pos(G + 5, 0),
        pos(D + 9, 2),
        pos(H + 1, 0),
    ] {
        let mut tampered = block.clone();
        tampered[position] = !tampered[position];
        assert!(
            !r1cs.satisfies(&tiled(&tampered)),
            "tampered wire {position} must break a row"
        );
    }
}

#[test]
fn a_wrong_quotient_breaks_a_forced_zero_row() {
    // Every ordinary wire is definitional, so a wrong free input still
    // satisfies those rows; the forced-zero rows are what reject it.
    let words = word_battery();
    let (mut block, _counter) = build_block_witness(&words);

    // Re-derive slot 5 (an accepted word) with quotient + 1.
    let slot = 5;
    let word = words[slot];
    let wrong_quotient = (u32::from(word) / FALCON_Q + 1) as u16;
    for i in 0..3 {
        block[quotient_position(slot, i)] = (wrong_quotient >> i) & 1 == 1;
    }
    let r1cs = single_block_r1cs();
    let eval = |lin: &[usize], z: &[bool]| lin.iter().fold(false, |acc, &col| acc ^ z[col]);
    for w in 0..USEFUL_BITS {
        if is_input(w) {
            continue;
        }
        block[w] = eval(&r1cs.a_0.rows[w], &block) & eval(&r1cs.b_0.rows[w], &block);
    }
    assert!(
        !r1cs.satisfies(&tiled(&block)),
        "the wrong quotient must break a forced-zero row"
    );
}

#[test]
fn real_shake_stream_matches_the_reference_compaction() {
    // SHAKE256(salt || hpk || 0x00 || 0x00 || message), 612 big-endian
    // candidates, against an independent integer reference.
    let salt = [7_u8; 40];
    let hpk = [42_u8; 64];
    let mut hasher = Shake256::default();
    hasher.update(&salt);
    hasher.update(&hpk);
    hasher.update(&[0x00, 0x00]);
    hasher.update(b"hash-to-point record differential");
    let mut reader = hasher.finalize_xof();
    let mut words = [0_u16; SLOTS];
    for word in words.iter_mut() {
        let mut bytes = [0_u8; 2];
        reader.read(&mut bytes);
        *word = u16::from_be_bytes(bytes);
    }

    let (block, counter) = build_block_witness(&words);
    assert!(
        counter >= 512,
        "612 candidates yield 512 acceptances w.h.p."
    );
    assert!(single_block_r1cs().satisfies(&tiled(&block)));

    // The first 512 accepted (a, u) in order.
    let mut reference = Vec::new();
    for &word in &words {
        if u32::from(word) < ACCEPT_BOUND && reference.len() < 512 {
            let residue = u32::from(word) % FALCON_Q;
            reference.push((residue as u16, residue > (FALCON_Q - 1) / 2));
        }
    }
    assert_eq!(reference.len(), 512);

    // The gated slots reproduce exactly that sequence, in order, with `a`
    // recovered from the committed quotient wires.
    let mut gated = Vec::new();
    for (slot, &word) in words.iter().enumerate() {
        if block[gate_position(slot)] {
            let mut quotient = 0_u16;
            for i in 0..3 {
                quotient |= u16::from(block[quotient_position(slot, i)]) << i;
            }
            gated.push((word - 12_289 * quotient, block[centering_position(slot)]));
        }
    }
    assert_eq!(gated, reference);

    // The dense region holds the same values, coordinate by coordinate.
    for (j, &(a, u)) in reference.iter().enumerate() {
        for c in 0..14 {
            assert_eq!(block[zh_position(j, c)], (a >> c) & 1 == 1);
        }
        assert_eq!(block[zh_position(j, 14)], u);
    }
}

#[test]
fn transpose_preserves_every_input_bit() {
    for input_bit in 0..64 {
        let word = 1_u64 << input_bit;
        for bit in 0..16 {
            assert_eq!(
                gather_four(word >> bit),
                if input_bit % 16 == bit {
                    1 << (input_bit / 16)
                } else {
                    0
                }
            );
        }
    }
    assert_eq!(gather_four(u64::MAX), 15);
}

#[test]
fn packed_executor_matches_matrix_witness_for_every_word_and_counter_boundaries() {
    let (a, b) = build_matrices();
    let program = Program::new(&a, &b).expect("canonical slot matrices");
    let compare = |words: &[u16; SLOTS]| {
        let (reference, _) = build_block_witness_with(&a, &b, words);
        let mut packed = vec![F128::zero(); K / 128];
        program.write(words, &mut packed);
        assert_eq!(packed, pack_witness(&reference));
    };
    for first in (0..=u16::MAX as usize).step_by(SLOTS) {
        compare(&std::array::from_fn(|offset| (first + offset) as u16));
    }
    for accepted in [0, 1, 255, 256, 511, 512, 513, SLOTS] {
        compare(&std::array::from_fn(|slot| {
            if slot < accepted {
                0
            } else {
                u16::MAX
            }
        }));
        compare(&std::array::from_fn(|slot| {
            if slot >= SLOTS - accepted {
                6144
            } else {
                61445
            }
        }));
    }
}

#[test]
fn specialization_rejects_changed_wiring_and_nonzero_padding_rows() {
    let (mut a, b) = build_matrices();
    a.rows[pos(D, 7)].push(pos(X, 8));
    assert!(Program::new(&a, &b).is_none());
    let (mut a, b) = build_matrices();
    a.rows[pos(H, 7)].clear();
    assert!(Program::new(&a, &b).is_none());
    let (mut a, b) = build_matrices();
    a.rows[pos(U, SLOTS)].push(Z_CONST_POS);
    assert!(Program::new(&a, &b).is_none());
}

#[test]
fn a_batch_is_padded_with_zero_words_and_satisfies() {
    let setup = SlotSetup::new(2);
    assert_eq!(setup.n_blocks, 2);
    assert_eq!(setup.r1cs.m, 20);
    let z = setup.generate_witness(&vec![word_battery(), [61_445; SLOTS]]);
    assert_eq!(z.len(), 8 * K);
    assert!(setup.r1cs.satisfies(&z));
    let (block, _) = build_block_witness(&word_battery());
    assert_eq!(&z[..K], &block[..]);
}
