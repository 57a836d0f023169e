//! The scatter of the accepted values, its terminal and its compact prover.
use flock_prover::field::F128;
use flock_prover::hash_to_point_record::compact_scatter::Factors;
use flock_prover::hash_to_point_record::counter_prefix::CounterPolynomials;
use flock_prover::hash_to_point_record::{flock_claim_shape, multilinear_claims};
use flock_prover::hash_to_point_scatter::discharge::{
    counter_source_table, gt_mle, prove_discharge, verify_discharge, DischargeOpenings,
    DischargeProof,
};
use flock_prover::hash_to_point_scatter::polynomial_product::{
    mul22, mul32, mul33, mul44, mul54, mul55, mul95, naive, product13, round,
};
use flock_prover::hash_to_point_scatter::power_sum::{
    dense_power_sum, frobenius_powers, power_sum_point, COORD_VARS,
};
use flock_prover::hash_to_point_scatter::slot_tables::{dense_table, factor_tables, FACTORS};
use flock_prover::hash_to_point_scatter::{first_round, interpolate, prove, small, verify};
use flock_prover::hash_to_point_slots::setup::{
    borrow_position, centering_position, counter_position, gate_position, increment_position,
    plane_of, quotient_position, word_position, SlotSetup,
};
use flock_prover::hash_to_point_slots::witness::build_block_witness;
use flock_prover::hash_to_point_slots::{
    COUNTER_BITS, G, GATE, K, K_LOG, PLANE, Q, SLOTS, SLOT_VARS, U, X,
};
use flock_prover::hash_to_point_sponge::gather::gather_eval;
use flock_prover::mle::{bit_mle, eval_mle};
use flock_prover::packed_bits::pack_witness;
use flock_prover::polynomial::eval_poly;
use flock_prover::prover::LowBinding;
use flock_prover::vectors::Rng;

fn record() -> ([u16; SLOTS], Vec<bool>) {
    let mut words = [0_u16; SLOTS];
    for (index, word) in words.iter_mut().enumerate() {
        *word = (index as u16).wrapping_mul(31_337).wrapping_add(77);
    }
    let (block, _counter) = build_block_witness(&words);
    (words, block)
}

fn sample(rng: &mut Rng, n: usize) -> Vec<F128> {
    (0..n).map(|_| rng.next_f128()).collect()
}

fn product(factors: &[Vec<F128>], at: usize) -> F128 {
    factors.iter().fold(F128::one(), |p, f| p * f[at])
}

#[test]
fn the_power_sum_identity_holds() {
    let beta = F128 {
        lo: 0x1234_5678_9abc,
        hi: 0x42,
    };
    let table: Vec<F128> = (0..512_u64)
        .map(|j| small(j.wrapping_mul(97) ^ 5))
        .collect();
    let mut direct = F128::zero();
    let mut power = F128::one();
    for &c in &table {
        direct = direct + c * power;
        power = power * beta;
    }
    let (point, scale) = power_sum_point(beta, 9).expect("beta powers != 1");
    assert_eq!(direct, scale * eval_mle(&table, &point));
    assert!(power_sum_point(F128::one(), 9).is_none());
}

#[test]
fn slot_and_dense_sides_agree_on_an_honest_record() {
    let (words, block) = record();
    let beta = F128 {
        lo: 0xdead_beef_1234,
        hi: 0x9,
    };
    let gamma = F128 {
        lo: 0x5555_aaaa,
        hi: 0x77,
    };
    let factors = factor_tables(&block, &words, gamma, beta);
    let slot_side =
        (0..1 << SLOT_VARS).fold(F128::zero(), |sum, s| sum + product(&factors, s));
    let dense = dense_table(&block, &words);
    let dense_side = dense_power_sum(&dense, beta, gamma).expect("derived point defined");
    assert_eq!(slot_side, dense_side);
}

#[test]
fn a_tampered_dense_table_breaks_the_identity() {
    let (words, block) = record();
    let beta = small(0x1111_2222);
    let gamma = small(0x3333);
    let factors = factor_tables(&block, &words, gamma, beta);
    let slot_side =
        (0..1 << SLOT_VARS).fold(F128::zero(), |sum, s| sum + product(&factors, s));
    let mut dense = dense_table(&block, &words);
    // Swap two adjacent outputs: order matters.
    for c in 0..16 {
        dense.swap((100 << COORD_VARS) | c, (101 << COORD_VARS) | c);
    }
    let dense_side = dense_power_sum(&dense, beta, gamma).expect("defined");
    assert_ne!(slot_side, dense_side);
}

/// The extension of one plane of a block.
fn plane_open(block: &[bool], plane: usize, point: &[F128]) -> F128 {
    let table: Vec<F128> = (0..PLANE)
        .map(|slot| {
            if block[plane * PLANE + slot] {
                F128::one()
            } else {
                F128::zero()
            }
        })
        .collect();
    eval_mle(&table, point)
}

#[test]
fn plane_openings_are_sub_cube_openings_of_the_block() {
    let (_words, block) = record();
    let full: Vec<F128> = block
        .iter()
        .map(|&b| if b { F128::one() } else { F128::zero() })
        .collect();
    let r: Vec<F128> = (0..SLOT_VARS as u64).map(|i| small(i * 71 + 3)).collect();
    for plane in [
        plane_of(gate_position(0)),
        plane_of(centering_position(0)),
        plane_of(increment_position(0, 4)),
    ] {
        let mut point: Vec<F128> = (0..7)
            .map(|j| small(u64::from((plane >> (6 - j)) & 1 == 1)))
            .collect();
        point.extend_from_slice(&r);
        assert_eq!(
            eval_mle(&full, &point),
            plane_open(&block, plane, &r),
            "plane {plane}"
        );
    }
}

fn discharge_openings(block: &[bool], r: &[F128], at: &[F128]) -> DischargeOpenings {
    DischargeOpenings {
        sources: (0..COUNTER_BITS)
            .map(|b| eval_mle(&counter_source_table(block, b), at))
            .collect(),
        gate: plane_open(block, GATE, r),
        words: (0..14).map(|b| plane_open(block, X + b, r)).collect(),
        quotients: (0..3).map(|b| plane_open(block, Q + b, r)).collect(),
        borrows: (0..14).map(|b| plane_open(block, G + b, r)).collect(),
        centering: plane_open(block, U, r),
    }
}

#[test]
fn full_scatter_with_terminal_discharge_verifies() {
    let (words, block) = record();
    let beta = F128 {
        lo: 0x7777_1234,
        hi: 0x3,
    };
    let gamma = F128 {
        lo: 0x2468_ace0,
        hi: 0x5,
    };
    let factors = factor_tables(&block, &words, gamma, beta);

    let mut rng = Rng::new(31);
    let challenges = sample(&mut rng, SLOT_VARS);
    let (proof, prover_point) = prove(factors, &challenges);
    let rho = rng.next_f128();
    let inner = sample(&mut rng, SLOT_VARS);
    let discharge = prove_discharge(&block, &prover_point, rho, &inner);

    // The scatter claim still equals the dense side.
    let dense = dense_table(&block, &words);
    assert_eq!(
        proof.claim,
        dense_power_sum(&dense, beta, gamma).expect("defined")
    );

    let (point, terminal) =
        verify(&proof, SLOT_VARS, FACTORS, &challenges).expect("scatter verifies");
    let openings = discharge_openings(&block, &point, &inner);
    let check = |d: &DischargeProof, terminal: F128, o: &DischargeOpenings| {
        verify_discharge(d, &point, beta, gamma, terminal, o, rho, &inner)
    };
    check(&discharge, terminal, &openings).expect("discharge verifies");

    // A tampered counter claim rejects.
    let mut wrong = discharge.clone();
    wrong.counter_claims[3] = wrong.counter_claims[3] + F128::one();
    assert_eq!(
        check(&wrong, terminal, &openings),
        Err("discharge claims do not combine to the sumcheck claim")
    );
    let mut wrong = discharge.clone();
    wrong.counter_claims.pop();
    assert_eq!(
        check(&wrong, terminal, &openings),
        Err("discharge has the wrong claim count")
    );
    let mut wrong = openings.clone();
    wrong.sources[2] = wrong.sources[2] + F128::one();
    assert_eq!(
        check(&discharge, terminal, &wrong),
        Err("discharge sumcheck terminal does not match the openings")
    );
    let mut wrong = openings.clone();
    wrong.gate = wrong.gate + F128::one();
    assert_eq!(
        check(&discharge, terminal, &wrong),
        Err("the reconstructed scatter terminal does not match")
    );
}

#[test]
fn scatter_sumcheck_roundtrips_and_matches_the_dense_side() {
    let (words, block) = record();
    let beta = F128 {
        lo: 0xabcd_ef01_2345,
        hi: 0x1,
    };
    let gamma = F128 {
        lo: 0x9876_5432,
        hi: 0x2,
    };
    let factors = factor_tables(&block, &words, gamma, beta);
    let mut rng = Rng::new(37);
    let challenges = sample(&mut rng, SLOT_VARS);
    let (proof, prover_point) = prove(factors.clone(), &challenges);

    // The claim equals the dense side: the scatter binds the tables.
    let dense = dense_table(&block, &words);
    assert_eq!(
        proof.claim,
        dense_power_sum(&dense, beta, gamma).expect("defined")
    );

    let (point, terminal) =
        verify(&proof, SLOT_VARS, FACTORS, &challenges).expect("honest scatter verifies");
    assert_eq!(point, prover_point);
    let expected = factors
        .iter()
        .map(|factor| eval_mle(factor, &point))
        .fold(F128::one(), |p, v| p * v);
    assert_eq!(terminal, expected);

    // A tampered round rejects or mismatches the terminal.
    let mut wrong = proof.clone();
    wrong.rounds[4][2] = wrong.rounds[4][2] + F128::one();
    match verify(&wrong, SLOT_VARS, FACTORS, &challenges) {
        Err(_) => {}
        Ok((tampered_point, tampered_terminal)) => {
            let recomputed = factors
                .iter()
                .map(|factor| eval_mle(factor, &tampered_point))
                .fold(F128::one(), |p, v| p * v);
            assert_ne!(tampered_terminal, recomputed);
        }
    }
    let mut wrong = proof.clone();
    wrong.rounds.pop();
    assert!(verify(&wrong, SLOT_VARS, FACTORS, &challenges).is_err());
    let mut wrong = proof.clone();
    wrong.claim = wrong.claim + F128::one();
    assert!(verify(&wrong, SLOT_VARS, FACTORS, &challenges).is_err());
}

/// The thirteen full tables, from the committed bits alone.
fn record_factor_tables(
    z: &[bool],
    record_vars: usize,
    beta: F128,
    gamma: F128,
    delta: F128,
) -> Vec<Vec<F128>> {
    let size = (1 << record_vars) * PLANE;
    let betas = frobenius_powers(beta, COUNTER_BITS);
    let mut tables = vec![vec![F128::zero(); size]; 13];
    let mut weight = F128::one();
    for record in 0..1 << record_vars {
        let base = record * K;
        for slot in 0..PLANE {
            let at = record * PLANE + slot;
            tables[1][at] = weight;
            let live = slot < SLOTS;
            let bit = |p: usize| live && z[base + p];
            tables[0][at] = small(u64::from(bit(gate_position(slot))));
            for b in 0..COUNTER_BITS {
                tables[2 + b][at] = if bit(counter_position(slot, b)) {
                    betas[b]
                } else {
                    F128::one()
                };
            }
            let q = |i: usize| bit(quotient_position(slot, i));
            let mut value = F128::zero();
            let mut power = F128::one();
            let mut borrow = false;
            for c in 0..14 {
                let multiple = match c {
                    0..=2 => q(c),
                    12 => q(0),
                    13 => q(0) ^ q(1),
                    _ => false,
                };
                if bit(word_position(slot, c)) ^ multiple ^ borrow {
                    value = value + power;
                }
                borrow ^= bit(borrow_position(slot, c));
                power = power * gamma;
            }
            if bit(centering_position(slot)) {
                value = value + power;
            }
            tables[12][at] = value;
        }
        weight = weight * delta;
    }
    tables
}

#[test]
fn compact_scatter_matches_dense_on_arbitrary_committed_bits() {
    for record_vars in [2_usize, 3, 5] {
        for special in [false, true] {
            let z: Vec<bool> = (0..K << record_vars)
                .map(|address| {
                    let mut x = (address as u64).wrapping_add(0x9e3779b97f4a7c15);
                    x = (x ^ (x >> 30)).wrapping_mul(0xbf58476d1ce4e5b9);
                    x = (x ^ (x >> 27)).wrapping_mul(0x94d049bb133111eb);
                    ((x ^ (x >> 31)) & 1) != 0
                })
                .collect();
            let mut rng = Rng::new(41);
            let beta = if special { F128::one() } else { rng.next_f128() };
            let gamma = rng.next_f128();
            let delta = if special { F128::zero() } else { rng.next_f128() };
            let dense = record_factor_tables(&z, record_vars, beta, gamma, delta);
            let challenges = sample(&mut rng, record_vars + SLOT_VARS);
            let (expected, expected_point) = prove(dense, &challenges);
            let factors = Factors::new(&z, record_vars, beta, gamma, delta);
            let (actual, actual_point) = factors.prove(&challenges);
            assert_eq!(actual.claim, expected.claim);
            assert_eq!(actual.rounds, expected.rounds);
            assert_eq!(actual_point, expected_point);
            let (actual, actual_point) = factors.prove_compact(&challenges);
            assert_eq!(actual.claim, expected.claim);
            assert_eq!(actual.rounds, expected.rounds);
            assert_eq!(actual_point, expected_point);
        }
    }
}

fn affine(low: F128, high: F128, r: F128) -> F128 {
    low + r * (low + high)
}

#[test]
fn all_counter_polynomials_match_their_affine_factors() {
    for beta in [
        F128::zero(),
        F128::one(),
        F128 {
            lo: 0xa392_b841_f430_32bf,
            hi: 0xb149_44ac_3218_91ff,
        },
    ] {
        let powers = frobenius_powers(beta, 10);
        let lookup = CounterPolynomials::new(&powers);
        let t = F128 {
            lo: 0x890d_4781_943b_6621,
            hi: 0x4427_d21b_9876_5531,
        };
        for code in 0..59049 {
            let mut trits = code;
            let mut expected = F128::one();
            for &b in &powers {
                match trits % 3 {
                    0 => {}
                    1 => expected = expected * affine(F128::one(), b, t),
                    2 => expected = expected * affine(b, F128::one(), t),
                    _ => unreachable!(),
                }
                trits /= 3;
            }
            let got = lookup.coefficients[code]
                .iter()
                .rev()
                .fold(F128::zero(), |s, &c| s * t + c);
            assert_eq!(got, expected, "code {code}");
        }
        for a in [0, 1, 31, 32, 511, 512, 1023] {
            for b in 0..1024 {
                let p = &lookup.coefficients[lookup.code(a, b)];
                let got = p.iter().rev().fold(F128::zero(), |s, &c| s * t + c)
                    * lookup.common[usize::from(a & b)];
                let expected = powers.iter().enumerate().fold(F128::one(), |p, (j, &q)| {
                    p * affine(
                        if a >> j & 1 == 0 { F128::one() } else { q },
                        if b >> j & 1 == 0 { F128::one() } else { q },
                        t,
                    )
                });
                assert_eq!(got, expected);
            }
        }
    }
}

#[test]
fn weighted_tail_has_exact_coordinate_weights() {
    // The four coordinates that weigh a leaf's sixteen bits by powers of x.
    let (tail, scale) = power_sum_point(F128 { lo: 2, hi: 0 }, 4).unwrap();
    for coordinate in 0..16 {
        let weight = tail.iter().enumerate().fold(scale, |acc, (j, &p)| {
            acc * if coordinate & (1 << (3 - j)) == 0 {
                F128::one() + p
            } else {
                p
            }
        });
        assert_eq!(
            weight,
            F128 {
                lo: 1 << coordinate,
                hi: 0
            }
        );
    }
}

#[test]
fn fast_products_match_the_schoolbook() {
    let mut rng = Rng::new(43);
    let mut part = |n: usize| sample(&mut rng, n);
    let (a2, b2, a3, b3) = (part(2), part(2), part(3), part(3));
    assert_eq!(mul22(&a2, &b2), naive(&a2, &b2));
    assert_eq!(mul32(&a3, &b2), naive(&a3, &b2));
    assert_eq!(mul33(&a3, &b3), naive(&a3, &b3));
    let (a4, b4, a5, b5, a9) = (part(4), part(4), part(5), part(5), part(9));
    assert_eq!(mul44(&a4, &b4), naive(&a4, &b4));
    assert_eq!(mul54(&a5, &b4), naive(&a5, &b4));
    assert_eq!(mul55(&a5, &b5), naive(&a5, &b5));
    assert_eq!(mul95(&a9, &b5), naive(&a9, &b5));
    let factors: Vec<[F128; 2]> = (0..13).map(|_| [part(1)[0], part(1)[0]]).collect();
    let out = product13(&factors);
    let t = part(1)[0];
    let direct = factors
        .iter()
        .fold(F128::one(), |p, f| p * (f[0] + t * f[1]));
    assert_eq!(eval_poly(&out, t), direct);
    let tables: Vec<Vec<F128>> = (0..13).map(|_| part(8)).collect();
    assert_eq!(round(&tables), first_round(&tables));
}

#[test]
fn interpolation_reproduces_the_nodes() {
    let mut rng = Rng::new(47);
    let evals = sample(&mut rng, 6);
    for (i, &e) in evals.iter().enumerate() {
        assert_eq!(interpolate(&evals, small(i as u64)), e);
    }
}

#[test]
fn greater_than_extends_the_comparison() {
    let bits = |v: usize| -> Vec<F128> { (0..3).map(|j| small(((v >> (2 - j)) & 1) as u64)).collect() };
    for x in 0..8 {
        for y in 0..8 {
            assert_eq!(gt_mle(&bits(x), &bits(y)), small(u64::from(x > y)));
        }
    }
}

fn record_batch(n: usize) -> Vec<[u16; SLOTS]> {
    (0..n)
        .map(|block| {
            let mut words = [0_u16; SLOTS];
            for (slot, word) in words.iter_mut().enumerate() {
                *word = ((block * SLOTS + slot) as u16)
                    .wrapping_mul(9_973)
                    .wrapping_add(211);
            }
            words
        })
        .collect()
}

#[test]
fn multilinear_openings_verify_against_the_real_commitment() {
    // The claims that an opening is handed take the values of the witness: the
    // low coordinates bind a word's bits and the outer ones select the word.
    let n_records = 32;
    let setup = SlotSetup::new(n_records);
    let blocks = record_batch(n_records);
    let z = setup.generate_witness(&blocks);
    let m = setup.r1cs.m;
    assert_eq!(m, 22);
    let z_packed = pack_witness(&z);

    // Three points: two plane sub-cubes at random slot and record coordinates
    // and one fully random point.
    let record_vars = m - K_LOG;
    let plane = plane_of(gate_position(0));
    let mut plane_point: Vec<F128> = (0..record_vars as u64)
        .map(|i| small(i * 913 + 7))
        .collect();
    for j in 0..7 {
        plane_point.push(small(((plane >> (6 - j)) & 1) as u64));
    }
    plane_point.extend((0..10u64).map(|i| small(i * 331 + 11)));

    let plane2 = plane_of(centering_position(0));
    let mut plane_point2 = plane_point.clone();
    for (j, coord) in plane_point2[record_vars..record_vars + 7]
        .iter_mut()
        .enumerate()
    {
        *coord = small(((plane2 >> (6 - j)) & 1) as u64);
    }

    let random_point: Vec<F128> = (0..m as u64).map(|i| small(i * 7919 + 3)).collect();

    let points = vec![plane_point, plane_point2, random_point];
    let values: Vec<F128> = points.iter().map(|p| bit_mle(&z, p)).collect();
    let claims = multilinear_claims(&points, &values);
    for ((claim, point), value) in claims.iter().zip(&points).zip(&values) {
        assert_eq!(claim.value, *value);
        let (x_low, x_outer) = flock_claim_shape(point);
        assert_eq!(claim.x_full, x_outer);
        match claim.binding {
            LowBinding::Multilinear { x_low: low } => assert_eq!(low, x_low),
            LowBinding::Quirky { .. } => panic!("multilinear"),
        }
        // Undo the shape: the point again, and the value it has.
        let mut again: Vec<F128> = x_outer[1..].to_vec();
        again.reverse();
        let mut low = x_low.to_vec();
        low.reverse();
        again.extend(low);
        assert_eq!(&again, point);
        assert_eq!(gather_eval(&z_packed, &again), *value);
    }
    let mut wrong = values.clone();
    wrong[1] = wrong[1] + F128::one();
    assert_ne!(multilinear_claims(&points, &wrong)[1].value, claims[1].value);
}
