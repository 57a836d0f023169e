//! Packed tables and their extensions.
use flock_prover::family_h::{Direction, TransposeTable};
use flock_prover::field::F128;
use flock_prover::hash_to_point_sponge::gather::{gather_eval, gather_eval_many};
use flock_prover::lookup::subset_sums;
use flock_prover::mle::{bit_mle, eq_table};
use flock_prover::packed_bits::{bit, copy64, set_bit, write64, zero_words};
use flock_prover::packed_mle::{
    evaluate_bits, evaluate_packed, evaluate_packed_tables, high_tensor, pack_bits, LowMap,
};

fn new(lo: u64, hi: u64) -> F128 {
    F128 { lo, hi }
}

fn pseudo(state: &mut u64) -> u64 {
    *state ^= *state << 13;
    *state ^= *state >> 7;
    *state ^= *state << 17;
    *state
}

#[test]
fn mixed_shapes_match_dense_fold_and_bool_adapter() {
    let mut seed = 0xabcdef432111;
    for vars in [0, 1, 5, 7, 8, 10, 15] {
        let bits: Vec<_> = (0..1 << vars).map(|_| pseudo(&mut seed) & 1 == 1).collect();
        let mut packed = vec![F128::zero(); bits.len().div_ceil(128)];
        for (i, &bit) in bits.iter().enumerate() {
            if bit {
                if i % 128 < 64 {
                    packed[i / 128].lo |= 1 << (i % 64);
                } else {
                    packed[i / 128].hi |= 1 << (i % 64);
                }
            }
        }
        assert_eq!(pack_bits(&bits), packed);
        let base: Vec<_> = (0..vars)
            .map(|_| new(pseudo(&mut seed), pseudo(&mut seed)))
            .collect();
        let points: Vec<_> = (0..24)
            .map(|pattern| {
                base.iter()
                    .enumerate()
                    .map(|(i, &r)| match (pattern + 3 * i) % 7 {
                        0 | 1 => F128::zero(),
                        2 | 3 => F128::one(),
                        _ => r,
                    })
                    .collect::<Vec<_>>()
            })
            .collect();
        let expected: Vec<_> = points.iter().map(|p| bit_mle(&bits, p)).collect();
        assert_eq!(
            evaluate_packed(&packed, &points),
            expected,
            "packed vars={vars}"
        );
        assert_eq!(evaluate_bits(&bits, &points), expected, "bool vars={vars}");
        assert_eq!(gather_eval_many(&packed, &points), expected);
        assert_eq!(gather_eval(&packed, &points[5]), expected[5]);
        assert_eq!(
            evaluate_packed_tables(&[packed.clone(), packed], &points[4]),
            vec![expected[4], expected[4]]
        );
    }
}

#[test]
fn all_low_boolean_patterns_select_exactly_the_requested_bit() {
    let word = new(0x0123456789abcdef, 0xfedcba9876543210);
    for i in 0..128 {
        let point = std::array::from_fn(|j| {
            if (i >> (6 - j)) & 1 == 1 {
                F128::one()
            } else {
                F128::zero()
            }
        });
        let limb = if i < 64 { word.lo } else { word.hi };
        let expected = if (limb >> (i % 64)) & 1 == 1 {
            F128::one()
        } else {
            F128::zero()
        };
        assert_eq!(LowMap::new(&point).apply(word), expected);
    }
    assert!(evaluate_packed(&[], &[]).is_empty());
    assert!(evaluate_bits(&[], &[]).is_empty());
}

fn high_tensor_reference(free: &[(usize, F128)]) -> (Vec<usize>, Vec<F128>) {
    let mut addresses = vec![0];
    let mut weights = vec![F128::one()];
    for &(bit, r) in free {
        let mut next_addresses = Vec::with_capacity(2 * addresses.len());
        let mut next_weights = Vec::with_capacity(2 * weights.len());
        for (&address, &weight) in addresses.iter().zip(&weights) {
            let high = weight * r;
            next_addresses.extend([address, address | (1 << bit)]);
            next_weights.extend([weight + high, high]);
        }
        addresses = next_addresses;
        weights = next_weights;
    }
    (addresses, weights)
}

#[test]
fn parallel_high_tensor_matches_every_address_and_weight() {
    for count in [0usize, 1, 4, 12, 13, 17, 20, 21] {
        for boolean in [false, true] {
            let free: Vec<_> = (0..count)
                .map(|i| {
                    let value = if boolean && i % 5 == 0 {
                        F128::one()
                    } else if boolean && i % 5 == 1 {
                        F128::zero()
                    } else {
                        new(
                            (i as u64 + 11).wrapping_mul(0x9e3779b97f4a7c15),
                            (i as u64 + 7).wrapping_mul(0xc2b2ae3d27d4eb4f),
                        )
                    };
                    (2 * (count - i) - 1, value)
                })
                .collect();
            assert_eq!(
                high_tensor(&free, 2 * count),
                high_tensor_reference(&free),
                "count={count}, boolean={boolean}"
            );
        }
    }
}

#[test]
fn packed_limbs_are_read_and_written_in_place() {
    let mut words = zero_words(3);
    set_bit(&mut words, 130, true);
    assert!(bit(&words, 130));
    assert_eq!(words[1], new(4, 0));
    write64(&mut words, 320, 0x55);
    assert_eq!(words[2], new(0, 0x55));
    let source = vec![new(1, 2)];
    copy64(&source, 64, &mut words, 0);
    assert_eq!(words[0], new(2, 0));
    set_bit(&mut words, 130, false);
    assert_eq!(words[1], F128::zero());
}

#[test]
fn tables_of_weights_have_their_entries() {
    let (a, b) = (new(5, 0), new(9, 1));
    assert_eq!(
        subset_sums(F128::zero(), &[a, b]),
        vec![F128::zero(), a, b, a + b]
    );
    let one = F128::one();
    assert_eq!(
        eq_table(&[a, b]),
        vec![
            (one + a) * (one + b),
            (one + a) * b,
            a * (one + b),
            a * b
        ]
    );
}

#[test]
fn the_field_multiplies_and_inverts() {
    // x^127 * x is the reduction polynomial's tail.
    let x = new(2, 0);
    let top = new(0, 1 << 63);
    assert_eq!(top * x, new(0x87, 0));
    let a = new(0x0123456789abcdef, 0xfedcba9876543210);
    assert_eq!(a * a.inv(), F128::one());
    assert_eq!(F128::zero().inv(), F128::zero());
    assert_eq!(a + a, F128::zero());
}

/// The row witness satisfies the relation and its output words are the native
/// transpose.
#[test]
fn transpose_row_satisfies_and_matches_native() {
    let mut seed = 0x7472_414Eu64;
    let mut next = || {
        seed = seed
            .wrapping_mul(6364136223846793005)
            .wrapping_add(1442695040888963407);
        seed
    };
    let v: Vec<F128> = (0..128).map(|_| new(next(), next())).collect();
    let [z, a, b] = TransposeTable::build_witness(&v);
    let (a0, b0) = TransposeTable::build_matrices();
    // (A z) and (B z) = z, bitwise.
    for r in 0..TransposeTable::k() {
        let av = a0.rows[r].iter().fold(false, |acc, &c| acc ^ z[c]);
        let bv = b0.rows[r].iter().fold(false, |acc, &c| acc ^ z[c]);
        assert_eq!(av && bv, z[r], "constraint row {r}");
        assert_eq!(av, a[r], "a witness row {r}");
        assert_eq!(bv, b[r], "b witness row {r}");
    }
    // Output words == the native transpose.
    let u: Vec<F128> = (0..128)
        .map(|t| {
            let mut word = new(0, 0);
            for (i, x) in v.iter().enumerate() {
                let limb = if t < 64 { x.lo } else { x.hi };
                let set = (limb >> (t % 64)) & 1;
                if i < 64 {
                    word.lo |= set << i;
                } else {
                    word.hi |= set << (i - 64);
                }
            }
            word
        })
        .collect();
    let mut outputs = Vec::new();
    for b_idx in 0..128 {
        let base = TransposeTable::U + b_idx * 128;
        let mut lo = 0u64;
        let mut hi = 0u64;
        for i in 0..64 {
            if z[base + i] {
                lo |= 1 << i;
            }
            if z[base + 64 + i] {
                hi |= 1 << i;
            }
        }
        assert_eq!(F128 { lo, hi }, u[b_idx], "output word {b_idx}");
        outputs.push(new(lo, hi));
    }
    // And the recombination that an inner product consumes.
    let eq: Vec<F128> = (0..128).map(|_| new(next(), next())).collect();
    let dot = outputs
        .iter()
        .zip(&eq)
        .fold(F128::zero(), |acc, (&x, &y)| acc + x * y);
    let manual = (0..128).fold(F128::zero(), |acc, b_idx| acc + eq[b_idx] * u[b_idx]);
    assert_eq!(dot, manual);
    // The wired words: inputs first, then outputs.
    let schema = TransposeTable::io_schema();
    assert_eq!(schema.len(), 256);
    assert_eq!(schema[1].column, 1);
    assert!(matches!(schema[1].direction, Direction::Input));
    assert_eq!(schema[128].column, 128);
    assert!(matches!(schema[128].direction, Direction::Output));
    let r1cs = TransposeTable::build_block_r1cs(2);
    assert_eq!((r1cs.m, r1cs.k_log), (18, 16));
    assert_eq!(r1cs.const_pin, Some(TransposeTable::CONST));
}
