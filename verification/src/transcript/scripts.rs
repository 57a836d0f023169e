//! The transcripts of the arguments, as data: what each observes, and where it
//! draws its challenges. A caller's challenger runs a script and hands the drawn
//! challenges to the argument's prover or verifier.
use vstd::prelude::*;
use vstd::string::*;

use crate::bytes::{le_bytes, write_le};
use crate::carry_gate::{message_list, ChainProof, LayerProof, M};
use crate::claim_closure::{round_list, ClosureProof};
use crate::field::F128;
use crate::hash_to_point_hybrid::point_views;
use crate::hash_to_point_link::consistency::MASK_REPS;
use crate::hash_to_point_scatter::discharge::DischargeProof;
use crate::keccak_gkr;
use crate::mle::copy_table;
use crate::sumcheck::{tables, ScatterProof};
use crate::transcript::{observed, Observation, Observed};

verus! {

/// The label of the borrow chain.
pub const CHAIN_LABEL: &'static str = "flock-borrow-chain-cost-gate-v1";

/// The label of the claim closure.
pub const CLOSURE_LABEL: &'static str = "aerie-claim-closure-v0";

/// The label of the face closure.
pub const FACES_LABEL: &'static str = "flock-complete-face-closure-v1";

/// The label of the scatter.
pub const SCATTER_LABEL: &'static str = "aerie-scatter-v0";

/// The label of the scatter's discharge.
pub const DISCHARGE_LABEL: &'static str = "aerie-scatter-discharge-v0";

/// The label of the words' linkage.
pub const LINK_LABEL: &'static str = "aerie-word-link-v0";

/// The label of the masked tags.
pub const CONSISTENCY_LABEL: &'static str = "aerie-consistency-v0";

/// The label of the sponge's lane.
pub const SPONGE_LABEL: &'static str = "aerie-sponge-challenges-v0";

/// One step of a transcript.
#[derive(Clone, Debug, PartialEq, Eq)]
pub enum Event {
    Observe(Observation),
    /// Draw one challenge.
    Draw,
    /// Draw a list of challenges at once.
    DrawMany(usize),
}

/// The content of a step.
pub enum Scripted {
    Observe(Observed),
    Draw,
    DrawMany(int),
}

/// The content of a step.
pub open spec fn scripted(event: Event) -> Scripted {
    match event {
        Event::Observe(o) => Scripted::Observe(observed(o)),
        Event::Draw => Scripted::Draw,
        Event::DrawMany(n) => Scripted::DrawMany(n as int),
    }
}

/// The content of a script.
pub open spec fn script_of(events: Seq<Event>) -> Seq<Scripted> {
    Seq::new(events.len(), |i: int| scripted(events[i]))
}

/// A label is observed.
pub open spec fn labelled(label: Seq<u8>) -> Scripted {
    Scripted::Observe(Observed::Label(label))
}

/// One element is observed.
pub open spec fn element(x: F128) -> Scripted {
    Scripted::Observe(Observed::Element(x))
}

/// A list of elements is observed at once.
pub open spec fn elements(xs: Seq<F128>) -> Scripted {
    Scripted::Observe(Observed::Elements(xs))
}

/// A number is observed as little-endian bytes.
pub open spec fn number(v: int, bytes: nat) -> Scripted {
    Scripted::Observe(Observed::Bytes(le_bytes(v, bytes)))
}

/// The first `n` messages, each followed by its challenge.
pub open spec fn rounds_script(rounds: Seq<Seq<F128>>, n: int) -> Seq<Scripted>
    decreases n,
{
    if n <= 0 {
        seq![]
    } else {
        rounds_script(rounds, n - 1) + seq![elements(rounds[n - 1]), Scripted::Draw]
    }
}

/// The first `n` elements, one by one.
pub open spec fn one_by_one(xs: Seq<F128>, n: int) -> Seq<Scripted>
    decreases n,
{
    if n <= 0 {
        seq![]
    } else {
        one_by_one(xs, n - 1).push(element(xs[n - 1]))
    }
}

/// The first `n` messages, each element by element and followed by its
/// challenge.
pub open spec fn spelled_rounds(rounds: Seq<Seq<F128>>, n: int) -> Seq<Scripted>
    decreases n,
{
    if n <= 0 {
        seq![]
    } else {
        (spelled_rounds(rounds, n - 1) + one_by_one(
            rounds[n - 1],
            rounds[n - 1].len() as int,
        )).push(Scripted::Draw)
    }
}

fn push(events: &mut Vec<Event>, event: Event)
    ensures
        script_of(final(events)@) == script_of(old(events)@).push(scripted(event)),
{
    let ghost before = events@;
    events.push(event);
    assert(script_of(events@) =~= script_of(before).push(scripted(event)));
}

fn push_label(events: &mut Vec<Event>, label: &str)
    ensures
        script_of(final(events)@) == script_of(old(events)@).push(labelled(label.spec_bytes())),
{
    let mut bytes: Vec<u8> = Vec::new();
    crate::bytes::write_bytes(&mut bytes, label.as_bytes());
    assert(bytes@ =~= label.spec_bytes());
    push(events, Event::Observe(Observation::Label(bytes)));
}

fn push_number(events: &mut Vec<Event>, v: u64, bytes: usize)
    ensures
        script_of(final(events)@) == script_of(old(events)@).push(number(v as int, bytes as nat)),
{
    let mut out: Vec<u8> = Vec::new();
    write_le(&mut out, v, bytes);
    assert(out@ =~= le_bytes(v as int, bytes as nat));
    push(events, Event::Observe(Observation::Bytes(out)));
}

fn push_element(events: &mut Vec<Event>, x: F128)
    ensures
        script_of(final(events)@) == script_of(old(events)@).push(element(x)),
{
    push(events, Event::Observe(Observation::Element(x)));
}

fn push_elements(events: &mut Vec<Event>, xs: &[F128])
    ensures
        script_of(final(events)@) == script_of(old(events)@).push(elements(xs@)),
{
    push(events, Event::Observe(Observation::Elements(copy_table(xs))));
}

/// A message and its challenge.
fn push_round(events: &mut Vec<Event>, evals: &[F128])
    ensures
        script_of(final(events)@) == script_of(old(events)@) + seq![
            elements(evals@),
            Scripted::Draw,
        ],
{
    let ghost before = script_of(events@);
    push_elements(events, evals);
    push(events, Event::Draw);
    assert(script_of(events@) =~= before + seq![elements(evals@), Scripted::Draw]);
}

/// Elements one by one.
fn push_spelled(events: &mut Vec<Event>, xs: &[F128])
    ensures
        script_of(final(events)@) == script_of(old(events)@) + one_by_one(
            xs@,
            xs@.len() as int,
        ),
{
    let ghost before = script_of(events@);
    let mut i: usize = 0;
    assert(script_of(events@) =~= before + one_by_one(xs@, 0));
    while i < xs.len()
        invariant
            i <= xs@.len(),
            script_of(events@) == before + one_by_one(xs@, i as int),
        decreases xs@.len() - i,
    {
        push_element(events, xs[i]);
        i = i + 1;
        assert(script_of(events@) =~= before + one_by_one(xs@, i as int));
    }
}

/// The transcript of a layer of the borrow chain.
pub open spec fn chain_layer_script(layer: LayerProof) -> Seq<Scripted> {
    rounds_script(message_list(layer.rounds@), layer.rounds@.len() as int) + seq![
        element(layer.x_value),
        element(layer.d_value),
    ]
}

/// The first `n` layers of the borrow chain.
pub open spec fn chain_layers_script(layers: Seq<LayerProof>, n: int) -> Seq<Scripted>
    decreases n,
{
    if n <= 0 {
        seq![]
    } else {
        chain_layers_script(layers, n - 1) + chain_layer_script(layers[n - 1])
    }
}

/// The transcript of the borrow chain.
pub open spec fn chain_scripted(vars: int, proof: ChainProof) -> Seq<Scripted> {
    seq![
        labelled(CHAIN_LABEL.spec_bytes()),
        number(vars, 8),
        number(M as int, 2),
        Scripted::DrawMany(vars),
        element(proof.output_value),
    ] + chain_layers_script(proof.layers@, proof.layers@.len() as int)
}

/// The transcript of the borrow chain: the sizes, the output's point, its value,
/// and every layer.
pub fn chain_script(vars: usize, proof: &ChainProof) -> (events: Vec<Event>)
    ensures
        script_of(events@) == chain_scripted(vars as int, *proof),
        script_of(events@) == seq![
            labelled(CHAIN_LABEL.spec_bytes()),
            number(vars as int, 8),
            number(M as int, 2),
            Scripted::DrawMany(vars as int),
            element(proof.output_value),
        ] + chain_layers_script(proof.layers@, proof.layers@.len() as int),
{
    let mut events: Vec<Event> = Vec::new();
    push_label(&mut events, CHAIN_LABEL);
    push_number(&mut events, vars as u64, 8);
    push_number(&mut events, M as u64, 2);
    push(&mut events, Event::DrawMany(vars));
    push_element(&mut events, proof.output_value);
    let ghost head = seq![
        labelled(CHAIN_LABEL.spec_bytes()),
        number(vars as int, 8),
        number(M as int, 2),
        Scripted::DrawMany(vars as int),
        element(proof.output_value),
    ];
    assert(script_of(events@) =~= head);
    let mut k: usize = 0;
    assert(script_of(events@) =~= head + chain_layers_script(proof.layers@, 0));
    while k < proof.layers.len()
        invariant
            k <= proof.layers@.len(),
            script_of(events@) == head + chain_layers_script(proof.layers@, k as int),
        decreases proof.layers@.len() - k,
    {
        let ghost before = script_of(events@);
        push_chain_layer(&mut events, &proof.layers[k]);
        k = k + 1;
        assert(script_of(events@) =~= head + chain_layers_script(proof.layers@, k as int));
    }
    events
}

fn push_chain_layer(events: &mut Vec<Event>, layer: &LayerProof)
    ensures
        script_of(final(events)@) == script_of(old(events)@) + chain_layer_script(*layer),
{
    let ghost before = script_of(events@);
    let ghost messages = message_list(layer.rounds@);
    let mut i: usize = 0;
    assert(script_of(events@) =~= before + rounds_script(messages, 0));
    while i < layer.rounds.len()
        invariant
            messages == message_list(layer.rounds@),
            i <= layer.rounds@.len(),
            script_of(events@) == before + rounds_script(messages, i as int),
        decreases layer.rounds@.len() - i,
    {
        push_round(events, layer.rounds[i].as_slice());
        i = i + 1;
        assert(script_of(events@) =~= before + rounds_script(messages, i as int));
    }
    push_element(events, layer.x_value);
    push_element(events, layer.d_value);
    assert(script_of(events@) =~= before + chain_layer_script(*layer));
}

/// The transcript of the claim closure.
pub open spec fn closure_scripted(values: Seq<F128>, proof: ClosureProof) -> Seq<Scripted> {
    (seq![labelled(CLOSURE_LABEL.spec_bytes()), elements(values), Scripted::Draw] + rounds_script(
        round_list(proof.rounds@),
        proof.rounds@.len() as int,
    )).push(element(proof.z_value))
}

/// The transcript of the claim closure: every value before the combiner, every
/// message before its challenge, and the value that is left.
pub fn closure_script(values: &[F128], proof: &ClosureProof) -> (events: Vec<Event>)
    ensures
        script_of(events@) == closure_scripted(values@, *proof),
        script_of(events@) == (seq![
            labelled(CLOSURE_LABEL.spec_bytes()),
            elements(values@),
            Scripted::Draw,
        ] + rounds_script(round_list(proof.rounds@), proof.rounds@.len() as int)).push(
            element(proof.z_value),
        ),
{
    let mut events: Vec<Event> = Vec::new();
    push_label(&mut events, CLOSURE_LABEL);
    push_elements(&mut events, values);
    push(&mut events, Event::Draw);
    let ghost head = seq![
        labelled(CLOSURE_LABEL.spec_bytes()),
        elements(values@),
        Scripted::Draw,
    ];
    let ghost messages = round_list(proof.rounds@);
    let mut i: usize = 0;
    assert(script_of(events@) =~= head + rounds_script(messages, 0));
    while i < proof.rounds.len()
        invariant
            messages == round_list(proof.rounds@),
            i <= proof.rounds@.len(),
            script_of(events@) == head + rounds_script(messages, i as int),
        decreases proof.rounds@.len() - i,
    {
        push_round(&mut events, proof.rounds[i].as_slice());
        i = i + 1;
        assert(script_of(events@) =~= head + rounds_script(messages, i as int));
    }
    push_element(&mut events, proof.z_value);
    events
}

/// The first `n` claims of the face closure.
pub open spec fn claims_script(points: Seq<Seq<F128>>, values: Seq<F128>, n: int) -> Seq<Scripted>
    decreases n,
{
    if n <= 0 {
        seq![]
    } else {
        claims_script(points, values, n - 1) + seq![
            elements(points[n - 1]),
            element(values[n - 1]),
        ]
    }
}

/// The transcript of the face closure: every claim, then the challenges of all
/// faces one by one.
pub open spec fn faces_scripted(
    vars: int,
    points: Seq<Seq<F128>>,
    values: Seq<F128>,
    draws: nat,
) -> Seq<Scripted> {
    seq![
        labelled(FACES_LABEL.spec_bytes()),
        number(vars, 8),
        number(points.len() as int, 8),
    ] + claims_script(points, values, points.len() as int) + Seq::new(
        draws,
        |i: int| Scripted::Draw,
    )
}

/// The transcript of the face closure.
pub fn faces_script(vars: usize, points: &[Vec<F128>], values: &[F128], draws: usize) -> (events:
    Vec<Event>)
    requires
        points@.len() == values@.len(),
    ensures
        script_of(events@) == faces_scripted(
            vars as int,
            point_views(points@),
            values@,
            draws as nat,
        ),
{
    let mut events: Vec<Event> = Vec::new();
    push_label(&mut events, FACES_LABEL);
    push_number(&mut events, vars as u64, 8);
    push_number(&mut events, points.len() as u64, 8);
    let ghost views = point_views(points@);
    let ghost head = seq![
        labelled(FACES_LABEL.spec_bytes()),
        number(vars as int, 8),
        number(views.len() as int, 8),
    ];
    let mut i: usize = 0;
    assert(script_of(events@) =~= head + claims_script(views, values@, 0));
    while i < points.len()
        invariant
            views == point_views(points@),
            points@.len() == values@.len(),
            i <= points@.len(),
            script_of(events@) == head + claims_script(views, values@, i as int),
        decreases points@.len() - i,
    {
        push_elements(&mut events, points[i].as_slice());
        push_element(&mut events, values[i]);
        i = i + 1;
        assert(script_of(events@) =~= head + claims_script(views, values@, i as int));
    }
    let ghost claims = script_of(events@);
    let mut d: usize = 0;
    assert(script_of(events@) =~= claims + Seq::new(0, |i: int| Scripted::Draw));
    while d < draws
        invariant
            d <= draws,
            script_of(events@) == claims + Seq::new(d as nat, |i: int| Scripted::Draw),
        decreases draws - d,
    {
        push(&mut events, Event::Draw);
        d = d + 1;
        assert(script_of(events@) =~= claims + Seq::new(d as nat, |i: int| Scripted::Draw));
    }
    events
}

/// The transcript of a scatter: the claim, and every message before its
/// challenge.
pub open spec fn scatter_scripted(proof: ScatterProof) -> Seq<Scripted> {
    seq![labelled(SCATTER_LABEL.spec_bytes()), element(proof.claim)] + rounds_script(
        tables(proof.rounds@),
        proof.rounds@.len() as int,
    )
}

fn push_scatter(events: &mut Vec<Event>, proof: &ScatterProof)
    ensures
        script_of(final(events)@) == script_of(old(events)@) + scatter_scripted(*proof),
{
    let ghost before = script_of(events@);
    push_label(events, SCATTER_LABEL);
    push_element(events, proof.claim);
    let ghost head = before + seq![labelled(SCATTER_LABEL.spec_bytes()), element(proof.claim)];
    let ghost messages = tables(proof.rounds@);
    let mut i: usize = 0;
    assert(script_of(events@) =~= head + rounds_script(messages, 0));
    while i < proof.rounds.len()
        invariant
            messages == tables(proof.rounds@),
            i <= proof.rounds@.len(),
            script_of(events@) == head + rounds_script(messages, i as int),
        decreases proof.rounds@.len() - i,
    {
        push_round(events, proof.rounds[i].as_slice());
        i = i + 1;
        assert(script_of(events@) =~= head + rounds_script(messages, i as int));
    }
    assert(script_of(events@) =~= before + scatter_scripted(*proof));
}

/// The transcript of a scatter.
pub fn scatter_script(proof: &ScatterProof) -> (events: Vec<Event>)
    ensures
        script_of(events@) == scatter_scripted(*proof),
{
    let mut events: Vec<Event> = Vec::new();
    push_scatter(&mut events, proof);
    assert(script_of(events@) =~= scatter_scripted(*proof));
    events
}

/// The transcript of the scatter's discharge.
pub open spec fn discharge_scripted(proof: DischargeProof) -> Seq<Scripted> {
    seq![
        labelled(DISCHARGE_LABEL.spec_bytes()),
        elements(proof.counter_claims@),
        Scripted::Draw,
    ] + scatter_scripted(proof.counter_sumcheck)
}

/// The transcript of the scatter's discharge: every counter claim before the
/// combiner, and the counters' own scatter.
pub fn discharge_script(proof: &DischargeProof) -> (events: Vec<Event>)
    ensures
        script_of(events@) == discharge_scripted(*proof),
        script_of(events@) == seq![
            labelled(DISCHARGE_LABEL.spec_bytes()),
            elements(proof.counter_claims@),
            Scripted::Draw,
        ] + scatter_scripted(proof.counter_sumcheck),
{
    let mut events: Vec<Event> = Vec::new();
    push_label(&mut events, DISCHARGE_LABEL);
    push_elements(&mut events, proof.counter_claims.as_slice());
    push(&mut events, Event::Draw);
    assert(script_of(events@) =~= seq![
        labelled(DISCHARGE_LABEL.spec_bytes()),
        elements(proof.counter_claims@),
        Scripted::Draw,
    ]);
    push_scatter(&mut events, &proof.counter_sumcheck);
    events
}

/// The transcript of the words' linkage: its four challenges.
pub fn link_script() -> (events: Vec<Event>)
    ensures
        script_of(events@) == seq![
            labelled(LINK_LABEL.spec_bytes()),
            Scripted::Draw,
            Scripted::Draw,
            Scripted::Draw,
            Scripted::Draw,
        ],
{
    let mut events: Vec<Event> = Vec::new();
    push_label(&mut events, LINK_LABEL);
    push(&mut events, Event::Draw);
    push(&mut events, Event::Draw);
    push(&mut events, Event::Draw);
    push(&mut events, Event::Draw);
    assert(script_of(events@) =~= seq![
        labelled(LINK_LABEL.spec_bytes()),
        Scripted::Draw,
        Scripted::Draw,
        Scripted::Draw,
        Scripted::Draw,
    ]);
    events
}

/// The challenges of the first `n` repetitions of the masked tags.
pub open spec fn repetitions_script(record_vars: int, n: int) -> Seq<Scripted>
    decreases n,
{
    if n <= 0 {
        seq![]
    } else {
        repetitions_script(record_vars, n - 1) + seq![
            Scripted::DrawMany(record_vars + 9),
            Scripted::Draw,
        ]
    }
}

/// The transcript of the masked tags.
pub open spec fn consistency_scripted(record_vars: int) -> Seq<Scripted> {
    seq![labelled(CONSISTENCY_LABEL.spec_bytes())] + repetitions_script(
        record_vars,
        MASK_REPS as int,
    )
}

/// The transcript of the masked tags: a point over the packed leaves and a
/// multiplier for every repetition.
pub fn consistency_challenges(record_vars: usize) -> (events: Vec<Event>)
    requires
        record_vars + 9 <= usize::MAX,
    ensures
        script_of(events@) == consistency_scripted(record_vars as int),
        script_of(events@) == seq![labelled(CONSISTENCY_LABEL.spec_bytes())] + repetitions_script(
            record_vars as int,
            MASK_REPS as int,
        ),
{
    let mut events: Vec<Event> = Vec::new();
    push_label(&mut events, CONSISTENCY_LABEL);
    let ghost head = seq![labelled(CONSISTENCY_LABEL.spec_bytes())];
    let mut rep: usize = 0;
    assert(script_of(events@) =~= head + repetitions_script(record_vars as int, 0));
    while rep < MASK_REPS
        invariant
            record_vars + 9 <= usize::MAX,
            rep <= MASK_REPS,
            script_of(events@) == head + repetitions_script(record_vars as int, rep as int),
        decreases MASK_REPS - rep,
    {
        push(&mut events, Event::DrawMany(record_vars + 9));
        push(&mut events, Event::Draw);
        rep = rep + 1;
        assert(script_of(events@) =~= head + repetitions_script(record_vars as int, rep as int));
    }
    events
}

/// The transcript of the sponge's lane: the records' challenge and the point
/// over a state's bits.
pub fn sponge_script() -> (events: Vec<Event>)
    ensures
        script_of(events@) == seq![
            labelled(SPONGE_LABEL.spec_bytes()),
            Scripted::Draw,
            Scripted::DrawMany(11),
        ],
{
    let mut events: Vec<Event> = Vec::new();
    push_label(&mut events, SPONGE_LABEL);
    push(&mut events, Event::Draw);
    push(&mut events, Event::DrawMany(11));
    assert(script_of(events@) =~= seq![
        labelled(SPONGE_LABEL.spec_bytes()),
        Scripted::Draw,
        Scripted::DrawMany(11),
    ]);
    events
}

/// The transcript of a layer of the permutation.
pub open spec fn layer_scripted(proof: keccak_gkr::LayerProof) -> Seq<Scripted> {
    (spelled_rounds(message_list(proof.chi_rounds@), proof.chi_rounds@.len() as int) + one_by_one(
        proof.tap_values@,
        3,
    )).push(Scripted::Draw) + spelled_rounds(
        round_list(proof.linear_rounds@),
        proof.linear_rounds@.len() as int,
    ) + seq![element(proof.previous_claim)]
}

/// The transcript of a layer of the permutation: the chi messages, the three
/// values, the combiner, the linear messages and the claim that is left.
pub fn round_layer_script(proof: &keccak_gkr::LayerProof) -> (events: Vec<Event>)
    ensures
        script_of(events@) == layer_scripted(*proof),
        script_of(events@) == (spelled_rounds(
            message_list(proof.chi_rounds@),
            proof.chi_rounds@.len() as int,
        ) + one_by_one(proof.tap_values@, 3)).push(Scripted::Draw) + spelled_rounds(
            round_list(proof.linear_rounds@),
            proof.linear_rounds@.len() as int,
        ) + seq![element(proof.previous_claim)],
{
    let mut events: Vec<Event> = Vec::new();
    let ghost chi = message_list(proof.chi_rounds@);
    let mut i: usize = 0;
    assert(script_of(events@) =~= spelled_rounds(chi, 0));
    while i < proof.chi_rounds.len()
        invariant
            chi == message_list(proof.chi_rounds@),
            i <= proof.chi_rounds@.len(),
            script_of(events@) == spelled_rounds(chi, i as int),
        decreases proof.chi_rounds@.len() - i,
    {
        push_spelled(&mut events, proof.chi_rounds[i].as_slice());
        push(&mut events, Event::Draw);
        i = i + 1;
    }
    push_spelled(&mut events, proof.tap_values.as_slice());
    push(&mut events, Event::Draw);
    let ghost first = script_of(events@);
    let ghost linear = round_list(proof.linear_rounds@);
    let mut j: usize = 0;
    assert(script_of(events@) =~= first + spelled_rounds(linear, 0));
    while j < proof.linear_rounds.len()
        invariant
            linear == round_list(proof.linear_rounds@),
            j <= proof.linear_rounds@.len(),
            script_of(events@) == first + spelled_rounds(linear, j as int),
        decreases proof.linear_rounds@.len() - j,
    {
        push_spelled(&mut events, proof.linear_rounds[j].as_slice());
        push(&mut events, Event::Draw);
        j = j + 1;
        assert(script_of(events@) =~= first + spelled_rounds(linear, j as int));
    }
    let ghost second = script_of(events@);
    push_element(&mut events, proof.previous_claim);
    assert(script_of(events@) =~= second + seq![element(proof.previous_claim)]);
    events
}

/// Messages that are observed alike are the same messages: the challenges of a
/// sumcheck are drawn over all that its prover said.
pub proof fn rounds_are_bound(left: Seq<Seq<F128>>, right: Seq<Seq<F128>>, n: int)
    requires
        0 <= n <= left.len(),
        n <= right.len(),
        rounds_script(left, n) == rounds_script(right, n),
    ensures
        left.take(n) == right.take(n),
    decreases n,
{
    if n > 0 {
        let a = rounds_script(left, n - 1);
        let b = rounds_script(right, n - 1);
        lemma_rounds_length(left, n - 1);
        lemma_rounds_length(right, n - 1);
        let (l, r) = (rounds_script(left, n), rounds_script(right, n));
        assert(l[2 * (n - 1)] == elements(left[n - 1]));
        assert(r[2 * (n - 1)] == elements(right[n - 1]));
        assert(a =~= l.take(2 * (n - 1)));
        assert(b =~= r.take(2 * (n - 1)));
        rounds_are_bound(left, right, n - 1);
        assert(left.take(n) =~= left.take(n - 1).push(left[n - 1]));
        assert(right.take(n) =~= right.take(n - 1).push(right[n - 1]));
    } else {
        assert(left.take(n) =~= right.take(n));
    }
}

/// Two events a round.
pub(crate) proof fn lemma_rounds_length(rounds: Seq<Seq<F128>>, n: int)
    requires
        0 <= n,
    ensures
        rounds_script(rounds, n).len() == 2 * n,
    decreases n,
{
    if n > 0 {
        lemma_rounds_length(rounds, n - 1);
    }
}

/// Claims that are observed alike are the same claims: the challenges of the
/// faces are drawn over every point and every value.
pub proof fn claims_are_bound(
    points: Seq<Seq<F128>>,
    values: Seq<F128>,
    other_points: Seq<Seq<F128>>,
    other_values: Seq<F128>,
    n: int,
)
    requires
        0 <= n <= points.len(),
        n <= values.len(),
        n <= other_points.len(),
        n <= other_values.len(),
        claims_script(points, values, n) == claims_script(other_points, other_values, n),
    ensures
        points.take(n) == other_points.take(n),
        values.take(n) == other_values.take(n),
    decreases n,
{
    if n > 0 {
        let a = claims_script(points, values, n - 1);
        let b = claims_script(other_points, other_values, n - 1);
        lemma_claims_length(points, values, n - 1);
        lemma_claims_length(other_points, other_values, n - 1);
        let l = claims_script(points, values, n);
        let r = claims_script(other_points, other_values, n);
        assert(l[2 * (n - 1)] == elements(points[n - 1]));
        assert(r[2 * (n - 1)] == elements(other_points[n - 1]));
        assert(l[2 * (n - 1) + 1] == element(values[n - 1]));
        assert(r[2 * (n - 1) + 1] == element(other_values[n - 1]));
        assert(a =~= l.take(2 * (n - 1)));
        assert(b =~= r.take(2 * (n - 1)));
        claims_are_bound(points, values, other_points, other_values, n - 1);
        assert(points.take(n) =~= points.take(n - 1).push(points[n - 1]));
        assert(other_points.take(n) =~= other_points.take(n - 1).push(other_points[n - 1]));
        assert(values.take(n) =~= values.take(n - 1).push(values[n - 1]));
        assert(other_values.take(n) =~= other_values.take(n - 1).push(other_values[n - 1]));
    } else {
        assert(points.take(n) =~= other_points.take(n));
        assert(values.take(n) =~= other_values.take(n));
    }
}

/// Two events a claim.
pub(crate) proof fn lemma_claims_length(points: Seq<Seq<F128>>, values: Seq<F128>, n: int)
    requires
        0 <= n,
    ensures
        claims_script(points, values, n).len() == 2 * n,
    decreases n,
{
    if n > 0 {
        lemma_claims_length(points, values, n - 1);
    }
}

} // verus!
