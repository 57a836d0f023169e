//! The arguments' transcripts.
use flock_prover::carry_gate::prove_chain;
use flock_prover::claim_closure::prove_closure;
use flock_prover::field::F128;
use flock_prover::hash_to_point_hybrid::circuit::Setup;
use flock_prover::hash_to_point_scatter::discharge::DischargeProof;
use flock_prover::hash_to_point_scatter::prove;
use flock_prover::keccak_gkr::{linear_taps, prove_layer};
use flock_prover::transcript::scripts::{
    chain_script, closure_script, consistency_challenges, discharge_script, faces_script,
    link_script, round_layer_script, scatter_script, sponge_script, Event,
};
use flock_prover::transcript::Observation;
use flock_prover::vectors::Rng;

fn sample(rng: &mut Rng, n: usize) -> Vec<F128> {
    (0..n).map(|_| rng.next_f128()).collect()
}

fn label(text: &str) -> Event {
    Event::Observe(Observation::Label(text.as_bytes().to_vec()))
}

fn bytes(part: &[u8]) -> Event {
    Event::Observe(Observation::Bytes(part.to_vec()))
}

fn element(x: F128) -> Event {
    Event::Observe(Observation::Element(x))
}

fn elements(xs: &[F128]) -> Event {
    Event::Observe(Observation::Elements(xs.to_vec()))
}

#[test]
fn the_chain_observes_every_message_before_its_challenge() {
    let mut rng = Rng::new(191);
    let rho = sample(&mut rng, 1);
    let layers: Vec<Vec<F128>> = (0..16).map(|_| sample(&mut rng, 1)).collect();
    let (proof, _) = prove_chain(&[0x5555, 0x3AAA], &rho, &layers);
    let script = chain_script(1, &proof);
    assert_eq!(
        script[..5],
        [
            label("flock-borrow-chain-cost-gate-v1"),
            bytes(&1u64.to_le_bytes()),
            bytes(&0xF005u16.to_le_bytes()),
            Event::DrawMany(1),
            element(proof.output_value),
        ]
    );
    assert_eq!(script.len(), 5 + 16 * 4);
    assert_eq!(
        script[5..9],
        [
            elements(&proof.layers[0].rounds[0]),
            Event::Draw,
            element(proof.layers[0].x_value),
            element(proof.layers[0].d_value),
        ]
    );
    // A later challenge changes no earlier message.
    let mut other = layers.clone();
    other[7] = sample(&mut rng, 1);
    let (changed, _) = prove_chain(&[0x5555, 0x3AAA], &rho, &other);
    assert_eq!(proof.layers[..7], changed.layers[..7]);
    assert_eq!(proof.layers[7].rounds, changed.layers[7].rounds);
    assert_ne!(proof.layers[7].x_value, changed.layers[7].x_value);
}

#[test]
fn the_closures_observe_every_claim_first() {
    let mut rng = Rng::new(193);
    let z = sample(&mut rng, 2);
    let points = vec![sample(&mut rng, 8), sample(&mut rng, 8)];
    let values = sample(&mut rng, 2);
    let challenges = sample(&mut rng, 8);
    let (proof, _) = prove_closure(&z, 8, &points, rng.next_f128(), &challenges);
    let script = closure_script(&values, &proof);
    assert_eq!(
        script[..3],
        [
            label("aerie-claim-closure-v0"),
            elements(&values),
            Event::Draw
        ]
    );
    assert_eq!(script[17], elements(&proof.rounds[7]));
    assert_eq!(script[18..], [Event::Draw, element(proof.z_value)]);

    let script = faces_script(8, &points, &values, 2);
    assert_eq!(
        script,
        vec![
            label("flock-complete-face-closure-v1"),
            bytes(&8u64.to_le_bytes()),
            bytes(&2u64.to_le_bytes()),
            elements(&points[0]),
            element(values[0]),
            elements(&points[1]),
            element(values[1]),
            Event::Draw,
            Event::Draw,
        ]
    );
    let mut lied = values.clone();
    lied[1] = lied[1] + F128::one();
    assert_ne!(script, faces_script(8, &points, &lied, 2));
}

#[test]
fn the_scatter_and_its_discharge_nest() {
    let mut rng = Rng::new(197);
    let tables = vec![sample(&mut rng, 4), sample(&mut rng, 4)];
    let challenges = sample(&mut rng, 2);
    let (proof, _) = prove(tables, &challenges);
    let script = scatter_script(&proof);
    assert_eq!(
        script,
        vec![
            label("aerie-scatter-v0"),
            element(proof.claim),
            elements(&proof.rounds[0]),
            Event::Draw,
            elements(&proof.rounds[1]),
            Event::Draw,
        ]
    );
    let claims = sample(&mut rng, 10);
    let discharge = DischargeProof {
        counter_claims: claims.clone(),
        counter_sumcheck: proof,
    };
    let mut expected = vec![
        label("aerie-scatter-discharge-v0"),
        elements(&claims),
        Event::Draw,
    ];
    expected.extend(script);
    assert_eq!(discharge_script(&discharge), expected);
}

#[test]
fn lanes_draw_their_challenges() {
    assert_eq!(
        link_script(),
        vec![
            label("aerie-word-link-v0"),
            Event::Draw,
            Event::Draw,
            Event::Draw,
            Event::Draw
        ]
    );
    assert_eq!(
        consistency_challenges(3),
        vec![
            label("aerie-consistency-v0"),
            Event::DrawMany(12),
            Event::Draw,
            Event::DrawMany(12),
            Event::Draw
        ]
    );
    assert_eq!(
        sponge_script(),
        vec![
            label("aerie-sponge-challenges-v0"),
            Event::Draw,
            Event::DrawMany(11)
        ]
    );
    let setup = Setup::new(8, &[1; 32], &[2; 32]);
    let mut out = Vec::new();
    setup.bind(&mut out);
    assert_eq!(
        out,
        vec![
            Observation::Label(b"aerie-hybrid-compact-circuit-v2".to_vec()),
            Observation::Bytes(setup.descriptor.to_vec()),
        ]
    );
}

#[test]
fn a_layer_spells_its_messages() {
    let mut rng = Rng::new(199);
    let taps = linear_taps();
    let bits: Vec<bool> = (0..2048).map(|i| i < 1600 && rng.bit()).collect();
    let rho = sample(&mut rng, 11);
    let (chi, gamma, linear) = (sample(&mut rng, 11), rng.next_f128(), sample(&mut rng, 11));
    let (proof, _) = prove_layer(&taps, &bits, &rho, &chi, gamma, &linear);
    let script = round_layer_script(&proof);
    assert_eq!(script.len(), 11 * 5 + 3 + 1 + 11 * 4 + 1);
    assert_eq!(script[3], element(proof.chi_rounds[0][3]));
    assert_eq!(script[4], Event::Draw);
    assert_eq!(script[55], element(proof.tap_values[0]));
    assert_eq!(script[58], Event::Draw);
    assert_eq!(script.last(), Some(&element(proof.previous_claim)));
}
