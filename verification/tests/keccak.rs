//! The permutation, its layers and the sponge.
use flock_prover::field::F128;
use flock_prover::hash_to_point_sponge::lane::{
    open_sponge, prove_sponge_core, sponge_inputs, verify_sponge, verify_sponge_core,
    verify_sponge_open, SpongeVerifyCore,
};
use flock_prover::hash_to_point_sponge::{
    sponge_trace, state_from_physical_bytes, state_to_physical_bytes, SpongePublic, SpongeRecord,
    SpongeSetup,
};
use flock_prover::keccak::{
    chi_lanes, iota_lanes, keccak_f, lanes_to_state, rho_pi_lanes, round_constant, theta_lanes,
    Lanes, State, STATE_BITS,
};
use flock_prover::keccak_gkr::{
    apply_taps, linear_taps, neighbor, prove_layer, round_constant_mle, CUBE, STATE_VARS,
};
use flock_prover::mle::{bit_mle, eval_mle};
use flock_prover::packed_bits::{set_bit, zero_words};
use flock_prover::prover::{QuirkyPoint, ZClaim};
use flock_prover::vectors::Rng;
use sha3::digest::{ExtendableOutput, Update, XofReader};
use sha3::Shake256;

fn random_state(seed: u64) -> State {
    let mut state = [false; STATE_BITS];
    let mut acc = seed | 1;
    for slot in state.iter_mut() {
        acc = acc
            .wrapping_mul(6364136223846793005)
            .wrapping_add(1442695040888963407);
        *slot = acc >> 63 == 1;
    }
    state
}

fn cube_bits(state: &State) -> Vec<bool> {
    let mut bits = state.to_vec();
    bits.resize(CUBE, false);
    bits
}

fn reference_round(bits: &[bool], round: usize) -> Vec<bool> {
    let mut lanes: Lanes = [0; 25];
    for (i, &bit) in bits.iter().enumerate().take(STATE_BITS) {
        if bit {
            lanes[i % 25] |= 1 << (i / 25);
        }
    }
    theta_lanes(&mut lanes);
    let a = rho_pi_lanes(&lanes);
    let mut b: Lanes = [0; 25];
    for x in 0..5 {
        for y in 0..5 {
            b[x + 5 * y] = a[x + 5 * y] ^ (!a[(x + 1) % 5 + 5 * y] & a[(x + 2) % 5 + 5 * y]);
        }
    }
    assert_eq!(b, chi_lanes(&a));
    iota_lanes(&mut b, round);
    let mut out = vec![false; CUBE];
    for (i, slot) in out.iter_mut().enumerate().take(STATE_BITS) {
        *slot = (b[i % 25] >> (i / 25)) & 1 == 1;
    }
    out
}

#[test]
fn probed_taps_reproduce_the_reference_round() {
    let taps = linear_taps();
    for seed in [3_u64, 77, 991] {
        let state = random_state(seed);
        let bits = cube_bits(&state);
        let a0 = apply_taps(&taps, &bits);
        let mut out = vec![false; CUBE];
        for i in 0..STATE_BITS {
            out[i] = a0[i] ^ (!a0[neighbor(i, 1)] & a0[neighbor(i, 2)]);
        }
        // iota on lane 0.
        let rc = round_constant(5);
        for z in 0..64 {
            if (rc >> z) & 1 == 1 {
                out[25 * z] ^= true;
            }
        }
        assert_eq!(out, reference_round(&bits, 5), "seed {seed}");
    }
}

fn lift(bits: &[bool]) -> Vec<F128> {
    bits.iter()
        .map(|&b| if b { F128::one() } else { F128::zero() })
        .collect()
}

#[test]
fn one_layer_reduction_is_exact_and_the_chain_closes() {
    let taps = linear_taps();
    let state0 = random_state(42);
    // Chain of 24 rounds; keep every intermediate state.
    let mut states = vec![cube_bits(&state0)];
    for round in 0..24 {
        let next = reference_round(states.last().unwrap(), round);
        states.push(next);
    }

    // Start from a random claim on the output state's extension and walk the
    // layers down to the first, checking every reduced claim directly.
    let mut rng = Rng::new(11);
    let mut point: Vec<F128> = (0..STATE_VARS).map(|_| rng.next_f128()).collect();
    let mut claim = eval_mle(&lift(&states[24]), &point);
    for round in (0..24).rev() {
        // Peel iota: the chi output claim.
        let chi_claim = claim + round_constant_mle(round, &point);
        let chi: Vec<F128> = (0..STATE_VARS).map(|_| rng.next_f128()).collect();
        let gamma = rng.next_f128();
        let linear: Vec<F128> = (0..STATE_VARS).map(|_| rng.next_f128()).collect();
        let (proof, next_point) =
            prove_layer(&taps, &states[round], &point, &chi, gamma, &linear);
        // Sum rule at round 1 of the chi sumcheck.
        assert_eq!(
            proof.chi_rounds[0][0] + proof.chi_rounds[0][1],
            chi_claim,
            "chi claim, round {round}"
        );
        // The reduced claim matches the previous state's extension.
        assert_eq!(
            proof.previous_claim,
            eval_mle(&lift(&states[round]), &next_point),
            "layer terminal, round {round}"
        );
        claim = proof.previous_claim;
        point = next_point;
    }
    assert_eq!(claim, eval_mle(&lift(&states[0]), &point));
}

#[test]
fn the_permutation_is_twenty_four_rounds() {
    let mut state = random_state(9);
    let mut bits = cube_bits(&state);
    for round in 0..24 {
        bits = reference_round(&bits, round);
    }
    keccak_f(&mut state);
    assert_eq!(state.to_vec(), bits[..STATE_BITS].to_vec());
    // Iota of the first round touches lane zero alone.
    let mut lanes: Lanes = [0; 25];
    iota_lanes(&mut lanes, 0);
    assert_eq!(lanes[0], 1);
    assert_eq!(lanes_to_state(&lanes).iter().filter(|&&b| b).count(), 1);
}

fn test_record(seed: u8) -> SpongeRecord {
    SpongeRecord {
        salt: [seed.wrapping_add(1); 40],
        hpk: [seed.wrapping_mul(3).wrapping_add(7); 64],
        message: (0..33).map(|i| seed.wrapping_add(i)).collect(),
    }
}

#[test]
fn sponge_trace_matches_the_sha3_stream() {
    for seed in [0_u8, 5, 99] {
        let record = test_record(seed);
        let (_states, words) = sponge_trace(&record);
        assert_eq!(words.len(), 612);

        let mut hasher = Shake256::default();
        hasher.update(&record.salt);
        hasher.update(&record.hpk);
        hasher.update(&[0x00, 0x00]);
        hasher.update(&record.message);
        let mut reader = hasher.finalize_xof();
        for (index, &word) in words.iter().enumerate() {
            let mut bytes = [0_u8; 2];
            reader.read(&mut bytes);
            assert_eq!(word, u16::from_be_bytes(bytes), "word {index}, seed {seed}");
        }
    }
}

#[test]
fn physical_bytes_round_trip() {
    let state = random_state(123);
    let bytes = state_to_physical_bytes(&state);
    assert_eq!(state_from_physical_bytes(&bytes).to_vec(), state.to_vec());
    let mut other = bytes;
    other[17] ^= 0x20;
    let changed = state_from_physical_bytes(&other);
    assert_eq!(
        (0..STATE_BITS).filter(|&i| changed[i] != state[i]).count(),
        1
    );
}

/// A state in the order of its bytes.
fn write_state(words: &mut Vec<F128>, base: usize, state: &State) {
    for (i, byte) in state_to_physical_bytes(state).iter().enumerate() {
        for t in 0..8 {
            set_bit(words, base + 8 * i + t, (byte >> t) & 1 == 1);
        }
    }
}

/// The committed states of every record, each in its slot of its block.
fn committed_states(inputs: &[State], records: usize) -> Vec<F128> {
    let mut words = zero_words(records * 4096);
    for record in 0..records {
        for block in 0..4 {
            for sub in 0..3 {
                let mut state = inputs[3 * (4 * record + block) + sub];
                let base = (4 * record + block) * 131_072 + 2 * sub * 2_048;
                write_state(&mut words, base, &state);
                keccak_f(&mut state);
                write_state(&mut words, base + 2_048, &state);
            }
        }
    }
    words
}

#[test]
fn sponge_proof_roundtrips_and_rejects_wrong_publics() {
    let records = 8;
    let setup = SpongeSetup::new(records);
    let inputs: Vec<SpongeRecord> = (0..records as u8).map(test_record).collect();
    let publics: Vec<SpongePublic> = inputs
        .iter()
        .map(|record| SpongePublic {
            hpk: record.hpk,
            message: record.message.clone(),
        })
        .collect();

    let traced = sponge_inputs(&setup, &inputs);
    assert_eq!(traced.words.len(), records);
    assert_eq!(traced.states.len(), 12 * records);
    let z = committed_states(&traced.states, records);
    let mut rng = Rng::new(21);
    let delta = rng.next_f128();
    let r: Vec<F128> = (0..11).map(|_| rng.next_f128()).collect();
    let (points, values) = prove_sponge_core(setup.record_vars(), &z, delta, &r).unwrap();
    let verify = |values: &[F128], publics: &[SpongePublic], delta: F128| {
        let circuit = Some((claim(1), claim(2)));
        verify_sponge_core(&setup, publics, circuit, values, delta, &r).map(|core| core.points)
    };
    assert_eq!(verify(&values, &publics, delta), Ok(points.clone()));
    assert_eq!(
        verify_sponge_core(&setup, &publics, None, &values, delta, &r).err(),
        Some("keccak R1CS verification failed")
    );
    let circuit = Some((claim(1), claim(2)));
    let claims = verify_sponge(&setup, &publics, circuit, &values, delta, &r).unwrap();
    assert_eq!(claims.len(), 24);
    assert_eq!(claims[0].value, claim(1).value);
    assert_eq!(claims[23].value, values[21]);
    let circuit = Some((claim(1), claim(2)));
    assert_eq!(
        verify_sponge(&setup, &publics, circuit, &values[1..], delta, &r).err(),
        Some("wrong opening value count")
    );

    // A different public message must break the frame or xor checks.
    let mut wrong_publics = publics.clone();
    wrong_publics[3].message[5] ^= 1;
    assert!(verify(&values, &wrong_publics, delta).is_err());

    // A different key likewise (it lives in the pinned frame).
    let mut wrong_publics = publics.clone();
    wrong_publics[0].hpk[10] ^= 1;
    assert_eq!(
        verify(&values, &wrong_publics, delta),
        Err("a record-start state does not pin to its public frame")
    );

    // A tampered edge opening rejects.
    let mut wrong = values.clone();
    wrong[4] = wrong[4] + F128::one();
    assert_eq!(
        verify(&wrong, &publics, delta),
        Err("a sponge chain edge does not hold")
    );
    let mut wrong = values.clone();
    wrong[1] = wrong[1] + F128::one();
    assert_eq!(
        verify(&wrong, &publics, delta),
        Err("the absorption edge does not hold")
    );
    assert_eq!(
        verify(&values[..21], &publics, delta),
        Err("wrong opening value count")
    );
    assert_eq!(
        verify(&values, &publics, F128::one()),
        Err("degenerate delta")
    );
    assert!(prove_sponge_core(setup.record_vars(), &z, F128::one(), &r).is_none());

    // The values are those of the committed bits.
    let bits: Vec<bool> = (0..records * 524_288)
        .map(|p| flock_prover::packed_bits::bit(&z, p))
        .collect();
    assert_eq!(values[20], bit_mle(&bits, &points[20]));
}

#[test]
fn a_state_off_its_chain_breaks_an_edge() {
    let setup = SpongeSetup::new(2);
    let inputs: Vec<SpongeRecord> = (0..2_u8).map(test_record).collect();
    let publics: Vec<SpongePublic> = inputs
        .iter()
        .map(|record| SpongePublic {
            hpk: record.hpk,
            message: record.message.clone(),
        })
        .collect();
    let traced = sponge_inputs(&setup, &inputs);
    let z = committed_states(&traced.states, 2);
    let mut rng = Rng::new(33);
    let delta = rng.next_f128();
    let r: Vec<F128> = (0..11).map(|_| rng.next_f128()).collect();
    let outcome = |flipped: usize| {
        let mut z = z.clone();
        let value = flock_prover::packed_bits::bit(&z, flipped);
        set_bit(&mut z, flipped, !value);
        let (_, values) = prove_sponge_core(setup.record_vars(), &z, delta, &r).unwrap();
        let circuit = Some((claim(1), claim(2)));
        verify_sponge_core(&setup, &publics, circuit, &values, delta, &r).err()
    };
    // Permutation 5 of record 1: block 1, slots 2 and 3.
    let slot = 524_288 + 131_072 + 2 * 2_048;
    assert_eq!(outcome(slot + 700), Some("a sponge chain edge does not hold"));
    assert_eq!(outcome(slot + 2_048 + 3), Some("a sponge chain edge does not hold"));
    // The padding of a slot is chained with it.
    assert_eq!(outcome(slot + 1_700), Some("a sponge chain edge does not hold"));
    // The output of permutation 0 is chained to the input of permutation 1.
    assert_eq!(outcome(2_048 + 9), Some("the absorption edge does not hold"));
    // A record start is public past its 320 salt bits.
    assert_eq!(
        outcome(320),
        Some("a record-start state does not pin to its public frame")
    );
    assert_eq!(outcome(319), None);
}

fn claim(seed: u64) -> ZClaim {
    let mut rng = Rng::new(seed);
    ZClaim {
        point: QuirkyPoint {
            z_skip: rng.next_f128(),
            x_inner_rest: vec![rng.next_f128(), rng.next_f128()],
            x_outer: vec![rng.next_f128()],
        },
        value: rng.next_f128(),
    }
}

#[test]
fn a_lane_opens_its_claims_in_order() {
    let mut rng = Rng::new(5);
    let point = |rng: &mut Rng| -> Vec<F128> { (0..9).map(|_| rng.next_f128()).collect() };
    let points = vec![point(&mut rng), point(&mut rng)];
    let values = vec![rng.next_f128(), rng.next_f128()];
    let extra = vec![point(&mut rng)];
    let extra_values = vec![rng.next_f128()];
    let (ab, c) = (claim(1), claim(2));
    let core = SpongeVerifyCore {
        ab: ab.clone(),
        c: c.clone(),
        points: points.clone(),
    };
    let opened = verify_sponge_open(&core, &values, &extra, &extra_values).unwrap();
    let got: Vec<F128> = opened.iter().map(|o| o.value).collect();
    assert_eq!(
        got,
        vec![ab.value, c.value, values[0], values[1], extra_values[0]]
    );
    assert_eq!(opened[2].x_full, vec![points[0][2], points[0][1], points[0][0]]);
    assert_eq!(
        verify_sponge_open(&core, &values, &extra, &[]).err(),
        Some("extra claim points and values disagree")
    );
    let (x_fulls, rows) = open_sponge(&ab, &c, None, vec![values[0]], &points, &extra);
    for (x, o) in x_fulls.iter().zip(&opened) {
        assert_eq!(x, &o.x_full);
    }
    assert_eq!(rows, vec![None, Some(vec![values[0]]), None, None, None]);
}
