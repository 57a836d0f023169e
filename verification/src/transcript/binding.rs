//! What a transcript binds: the place of every message and of every challenge,
//! and that transcripts which are alike come from proofs which are alike.
use vstd::prelude::*;

use crate::carry_gate::{message_list, ChainProof, LayerProof};
use crate::claim_closure::{round_list, ClosureProof};
use crate::field::F128;
use crate::hash_to_point_scatter::discharge::DischargeProof;
use crate::keccak_gkr;
use crate::sumcheck::{tables, ScatterProof};
use crate::transcript::scripts::{
    chain_layer_script, chain_layers_script, chain_scripted, claims_script, closure_scripted,
    consistency_scripted, discharge_scripted, element, elements, faces_scripted, layer_scripted,
    lemma_claims_length, lemma_rounds_length, one_by_one, repetitions_script, rounds_are_bound,
    rounds_script, scatter_scripted, spelled_rounds, Scripted,
};

verus! {

/// The challenge of a round is drawn just after the round's message, and the
/// next message comes just after it: messages and challenges alternate, as many
/// of the one as of the other.
pub proof fn rounds_alternate(rounds: Seq<Seq<F128>>, n: int, i: int)
    requires
        0 <= i < n,
    ensures
        rounds_script(rounds, n).len() == 2 * n,
        rounds_script(rounds, n)[2 * i] == elements(rounds[i]),
        rounds_script(rounds, n)[2 * i + 1] == Scripted::Draw,
    decreases n,
{
    lemma_rounds_length(rounds, n - 1);
    if i < n - 1 {
        rounds_alternate(rounds, n - 1, i);
    }
}

/// Two sequences that agree and whose first parts are of one length agree in
/// both parts.
proof fn lemma_parts(a: Seq<Scripted>, b: Seq<Scripted>, c: Seq<Scripted>, d: Seq<Scripted>)
    requires
        a + b == c + d,
        a.len() == c.len(),
    ensures
        a == c,
        b == d,
{
    let (l, r) = (a + b, c + d);
    assert forall|i: int| 0 <= i < a.len() implies a[i] == c[i] by {
        assert(l[i] == a[i] && r[i] == c[i]);
    }
    assert(b.len() == l.len() - a.len() && d.len() == r.len() - c.len());
    assert forall|i: int| 0 <= i < b.len() implies b[i] == d[i] by {
        assert(l[a.len() + i] == b[i] && r[c.len() + i] == d[i]);
    }
    assert(a =~= c);
    assert(b =~= d);
}

/// Closures of as many rounds whose transcripts are alike have the same claimed
/// values, the same messages and the same value left: the combiner is drawn over
/// every claim and each challenge over all messages before it.
pub proof fn closures_are_bound(
    values: Seq<F128>,
    proof: ClosureProof,
    other_values: Seq<F128>,
    other: ClosureProof,
)
    requires
        proof.rounds@.len() == other.rounds@.len(),
        closure_scripted(values, proof) == closure_scripted(other_values, other),
    ensures
        values == other_values,
        proof.rounds@ == other.rounds@,
        proof.z_value == other.z_value,
        closure_scripted(values, proof).len() == 2 * proof.rounds@.len() + 4,
        closure_scripted(values, proof)[2] == Scripted::Draw,
        closure_scripted(values, proof)[1] == elements(values),
{
    let n = proof.rounds@.len() as int;
    let (l, r) = (closure_scripted(values, proof), closure_scripted(other_values, other));
    let (a, b) = (
        rounds_script(round_list(proof.rounds@), n),
        rounds_script(round_list(other.rounds@), n),
    );
    lemma_rounds_length(round_list(proof.rounds@), n);
    lemma_rounds_length(round_list(other.rounds@), n);
    assert(l[1] == elements(values) && r[1] == elements(other_values));
    assert(l[2 * n + 3] == element(proof.z_value) && r[2 * n + 3] == element(other.z_value));
    assert(l.subrange(3, 3 + 2 * n) =~= a);
    assert(r.subrange(3, 3 + 2 * n) =~= b);
    rounds_are_bound(round_list(proof.rounds@), round_list(other.rounds@), n);
    lemma_arrays3(proof.rounds@, other.rounds@);
}

proof fn lemma_arrays3(a: Seq<[F128; 3]>, b: Seq<[F128; 3]>)
    requires
        a.len() == b.len(),
        round_list(a).take(a.len() as int) == round_list(b).take(a.len() as int),
    ensures
        a == b,
{
    assert forall|i: int| 0 <= i < a.len() implies a[i] == b[i] by {
        assert(round_list(a).take(a.len() as int)[i] == a[i]@);
        assert(round_list(b).take(a.len() as int)[i] == b[i]@);
        assert(a[i] =~= b[i]);
    }
    assert(a =~= b);
}

proof fn lemma_arrays4(a: Seq<[F128; 4]>, b: Seq<[F128; 4]>)
    requires
        a.len() == b.len(),
        message_list(a).take(a.len() as int) == message_list(b).take(a.len() as int),
    ensures
        a == b,
{
    assert forall|i: int| 0 <= i < a.len() implies a[i] == b[i] by {
        assert(message_list(a).take(a.len() as int)[i] == a[i]@);
        assert(message_list(b).take(a.len() as int)[i] == b[i]@);
        assert(a[i] =~= b[i]);
    }
    assert(a =~= b);
}

/// Scatters of as many rounds whose transcripts are alike have the same claim
/// and the same messages.
pub proof fn scatters_are_bound(proof: ScatterProof, other: ScatterProof)
    requires
        proof.rounds@.len() == other.rounds@.len(),
        scatter_scripted(proof) == scatter_scripted(other),
    ensures
        proof.claim == other.claim,
        tables(proof.rounds@) == tables(other.rounds@),
        scatter_scripted(proof).len() == 2 * proof.rounds@.len() + 2,
        scatter_scripted(proof)[1] == element(proof.claim),
{
    let n = proof.rounds@.len() as int;
    let (l, r) = (scatter_scripted(proof), scatter_scripted(other));
    let (a, b) = (
        rounds_script(tables(proof.rounds@), n),
        rounds_script(tables(other.rounds@), n),
    );
    lemma_rounds_length(tables(proof.rounds@), n);
    lemma_rounds_length(tables(other.rounds@), n);
    assert(l[1] == element(proof.claim) && r[1] == element(other.claim));
    assert(l.skip(2) =~= a);
    assert(r.skip(2) =~= b);
    rounds_are_bound(tables(proof.rounds@), tables(other.rounds@), n);
    assert(tables(proof.rounds@).take(n) =~= tables(proof.rounds@));
    assert(tables(other.rounds@).take(n) =~= tables(other.rounds@));
}

/// Discharges of as many rounds whose transcripts are alike have the same
/// counter claims and the same scatter of the counters; the combiner is drawn
/// just after the counter claims.
pub proof fn discharges_are_bound(proof: DischargeProof, other: DischargeProof)
    requires
        proof.counter_sumcheck.rounds@.len() == other.counter_sumcheck.rounds@.len(),
        discharge_scripted(proof) == discharge_scripted(other),
    ensures
        proof.counter_claims@ == other.counter_claims@,
        proof.counter_sumcheck.claim == other.counter_sumcheck.claim,
        tables(proof.counter_sumcheck.rounds@) == tables(other.counter_sumcheck.rounds@),
        discharge_scripted(proof)[1] == elements(proof.counter_claims@),
        discharge_scripted(proof)[2] == Scripted::Draw,
        discharge_scripted(proof).skip(3) == scatter_scripted(proof.counter_sumcheck),
{
    let (l, r) = (discharge_scripted(proof), discharge_scripted(other));
    assert(l[1] == elements(proof.counter_claims@) && r[1] == elements(other.counter_claims@));
    assert(l.skip(3) =~= scatter_scripted(proof.counter_sumcheck));
    assert(r.skip(3) =~= scatter_scripted(other.counter_sumcheck));
    scatters_are_bound(proof.counter_sumcheck, other.counter_sumcheck);
}

proof fn lemma_layer_bound(one: LayerProof, other: LayerProof)
    requires
        one.rounds@.len() == other.rounds@.len(),
        chain_layer_script(one) == chain_layer_script(other),
    ensures
        one.rounds@ == other.rounds@,
        one.x_value == other.x_value,
        one.d_value == other.d_value,
{
    let n = one.rounds@.len() as int;
    let (l, r) = (chain_layer_script(one), chain_layer_script(other));
    lemma_rounds_length(message_list(one.rounds@), n);
    lemma_rounds_length(message_list(other.rounds@), n);
    assert(l[2 * n] == element(one.x_value) && r[2 * n] == element(other.x_value));
    assert(l[2 * n + 1] == element(one.d_value) && r[2 * n + 1] == element(other.d_value));
    assert(l.take(2 * n) =~= rounds_script(message_list(one.rounds@), n));
    assert(r.take(2 * n) =~= rounds_script(message_list(other.rounds@), n));
    rounds_are_bound(message_list(one.rounds@), message_list(other.rounds@), n);
    lemma_arrays4(one.rounds@, other.rounds@);
}

proof fn lemma_layers_length(layers: Seq<LayerProof>, vars: int, n: int)
    requires
        0 <= n <= layers.len(),
        0 <= vars,
        forall|k: int| 0 <= k < n ==> (#[trigger] layers[k]).rounds@.len() == vars,
    ensures
        chain_layers_script(layers, n).len() == n * (2 * vars + 2),
    decreases n,
{
    if n > 0 {
        lemma_layers_length(layers, vars, n - 1);
        lemma_rounds_length(message_list(layers[n - 1].rounds@), vars);
        assert(layers[n - 1].rounds@.len() == vars);
        assert(n * (2 * vars + 2) == (n - 1) * (2 * vars + 2) + (2 * vars + 2))
            by (nonlinear_arith);
    }
}

proof fn lemma_layers_bound(
    layers: Seq<LayerProof>,
    others: Seq<LayerProof>,
    vars: int,
    n: int,
)
    requires
        0 <= n <= layers.len(),
        n <= others.len(),
        0 <= vars,
        forall|k: int| 0 <= k < n ==> (#[trigger] layers[k]).rounds@.len() == vars,
        forall|k: int| 0 <= k < n ==> (#[trigger] others[k]).rounds@.len() == vars,
        chain_layers_script(layers, n) == chain_layers_script(others, n),
    ensures
        forall|k: int|
            0 <= k < n ==> {
                &&& (#[trigger] layers[k]).rounds@ == others[k].rounds@
                &&& layers[k].x_value == others[k].x_value
                &&& layers[k].d_value == others[k].d_value
            },
    decreases n,
{
    if n > 0 {
        lemma_layers_length(layers, vars, n - 1);
        lemma_layers_length(others, vars, n - 1);
        lemma_parts(
            chain_layers_script(layers, n - 1),
            chain_layer_script(layers[n - 1]),
            chain_layers_script(others, n - 1),
            chain_layer_script(others[n - 1]),
        );
        assert(layers[n - 1].rounds@.len() == vars && others[n - 1].rounds@.len() == vars);
        lemma_layer_bound(layers[n - 1], others[n - 1]);
        lemma_layers_bound(layers, others, vars, n - 1);
    }
}

/// Borrow chains of one shape whose transcripts are alike have the same output
/// and the same layers, message by message; the point of the output is drawn
/// before its value is observed, and every layer follows that value.
pub proof fn chains_are_bound(vars: int, proof: ChainProof, other: ChainProof)
    requires
        0 <= vars,
        proof.layers@.len() == other.layers@.len(),
        forall|k: int|
            0 <= k < proof.layers@.len() ==> (#[trigger] proof.layers@[k]).rounds@.len() == vars,
        forall|k: int|
            0 <= k < other.layers@.len() ==> (#[trigger] other.layers@[k]).rounds@.len() == vars,
        chain_scripted(vars, proof) == chain_scripted(vars, other),
    ensures
        proof.output_value == other.output_value,
        forall|k: int|
            0 <= k < proof.layers@.len() ==> {
                &&& (#[trigger] proof.layers@[k]).rounds@ == other.layers@[k].rounds@
                &&& proof.layers@[k].x_value == other.layers@[k].x_value
                &&& proof.layers@[k].d_value == other.layers@[k].d_value
            },
        chain_scripted(vars, proof)[3] == Scripted::DrawMany(vars),
        chain_scripted(vars, proof)[4] == element(proof.output_value),
        chain_scripted(vars, proof).len() == 5 + proof.layers@.len() * (2 * vars + 2),
{
    let n = proof.layers@.len() as int;
    let (l, r) = (chain_scripted(vars, proof), chain_scripted(vars, other));
    assert(l[4] == element(proof.output_value) && r[4] == element(other.output_value));
    assert(l.skip(5) =~= chain_layers_script(proof.layers@, n));
    assert(r.skip(5) =~= chain_layers_script(other.layers@, n));
    lemma_layers_length(proof.layers@, vars, n);
    lemma_layers_bound(proof.layers@, other.layers@, vars, n);
}

/// In the face closure every observation comes before every challenge: the
/// claims in order, point then value, and then as many challenges as are asked
/// for, one by one.
pub proof fn faces_are_claimed_before_they_are_drawn(
    vars: int,
    points: Seq<Seq<F128>>,
    values: Seq<F128>,
    draws: nat,
    i: int,
)
    requires
        points.len() == values.len(),
    ensures
        ({
            let script = faces_scripted(vars, points, values, draws);
            let n = points.len() as int;
            &&& script.len() == 3 + 2 * n + draws
            &&& 0 <= i < n ==> script[3 + 2 * i] == elements(points[i]) && script[4 + 2 * i]
                == element(values[i])
            &&& 3 + 2 * n <= i < script.len() ==> script[i] == Scripted::Draw
            &&& 0 <= i < 3 ==> script[i] is Observe
        }),
{
    let n = points.len() as int;
    let script = faces_scripted(vars, points, values, draws);
    lemma_claims_length(points, values, n);
    if 0 <= i < n {
        lemma_claim_places(points, values, n, i);
        assert(script[3 + 2 * i] == claims_script(points, values, n)[2 * i]);
        assert(script[4 + 2 * i] == claims_script(points, values, n)[2 * i + 1]);
    }
}

proof fn lemma_claim_places(points: Seq<Seq<F128>>, values: Seq<F128>, n: int, i: int)
    requires
        0 <= i < n,
    ensures
        claims_script(points, values, n)[2 * i] == elements(points[i]),
        claims_script(points, values, n)[2 * i + 1] == element(values[i]),
    decreases n,
{
    lemma_claims_length(points, values, n - 1);
    if i < n - 1 {
        lemma_claims_length(points, values, n);
        lemma_claim_places(points, values, n - 1, i);
    }
}

/// Every repetition of the masked tags draws a point over the packed leaves, of
/// nine coordinates more than the records have, and then its multiplier; nothing
/// but the label is observed.
pub proof fn every_tag_draws_its_point(record_vars: int, rep: int)
    requires
        0 <= rep < 2,
    ensures
        consistency_scripted(record_vars).len() == 5,
        consistency_scripted(record_vars)[1 + 2 * rep] == Scripted::DrawMany(record_vars + 9),
        consistency_scripted(record_vars)[2 + 2 * rep] == Scripted::Draw,
{
    reveal_with_fuel(repetitions_script, 3);
}

proof fn lemma_spelled(xs: Seq<F128>, n: int)
    requires
        0 <= n,
    ensures
        one_by_one(xs, n) == Seq::new(n as nat, |i: int| element(xs[i])),
    decreases n,
{
    if n > 0 {
        lemma_spelled(xs, n - 1);
    }
    assert(one_by_one(xs, n) =~= Seq::new(n as nat, |i: int| element(xs[i])));
}

/// Messages of `width` elements each that are spelled out: each is followed by
/// its challenge and by nothing else.
proof fn lemma_spelled_places(rounds: Seq<Seq<F128>>, width: int, n: int, i: int, j: int)
    requires
        0 <= i < n <= rounds.len(),
        0 <= j <= width,
        forall|k: int| 0 <= k < n ==> (#[trigger] rounds[k]).len() == width,
    ensures
        spelled_rounds(rounds, n).len() == n * (width + 1),
        0 <= i * (width + 1) + j < n * (width + 1),
        spelled_rounds(rounds, n)[i * (width + 1) + j] == (if j < width {
            element(rounds[i][j])
        } else {
            Scripted::Draw
        }),
    decreases n,
{
    let w = width + 1;
    let last = rounds[n - 1];
    assert(last.len() == width);
    lemma_spelled(last, width);
    assert(n * w == (n - 1) * w + w) by (nonlinear_arith);
    if n > 1 {
        if i < n - 1 {
            lemma_spelled_places(rounds, width, n - 1, i, j);
        } else {
            lemma_spelled_places(rounds, width, n - 1, 0, 0);
        }
    } else {
        assert(spelled_rounds(rounds, 0).len() == 0);
        assert(0 * w == 0) by (nonlinear_arith);
    }
    assert(spelled_rounds(rounds, n) =~= (spelled_rounds(rounds, n - 1) + one_by_one(
        last,
        width,
    )).push(Scripted::Draw));
    assert(spelled_rounds(rounds, n - 1).len() == (n - 1) * w);
}

/// A layer of the permutation spells its messages out, each followed by its
/// challenge: four elements in every chi round and three in every linear one.
/// Between them come the three values and the combiner, and the claim that is
/// left comes last.
pub proof fn layers_spell_their_messages(proof: keccak_gkr::LayerProof, i: int, j: int)
    requires
        0 <= i,
        0 <= j,
    ensures
        ({
            let script = layer_scripted(proof);
            let chi = proof.chi_rounds@.len() as int;
            let linear = proof.linear_rounds@.len() as int;
            &&& script.len() == 5 * chi + 4 * linear + 5
            &&& i < chi && j < 4 ==> script[5 * i + j] == element(proof.chi_rounds@[i]@[j])
            &&& i < chi ==> script[5 * i + 4] == Scripted::Draw
            &&& i < 3 ==> script[5 * chi + i] == element(proof.tap_values@[i])
            &&& script[5 * chi + 3] == Scripted::Draw
            &&& i < linear && j < 3 ==> script[5 * chi + 4 + 4 * i + j] == element(
                proof.linear_rounds@[i]@[j],
            )
            &&& i < linear ==> script[5 * chi + 4 + 4 * i + 3] == Scripted::Draw
            &&& script.last() == element(proof.previous_claim)
        }),
{
    let script = layer_scripted(proof);
    let chi = proof.chi_rounds@.len() as int;
    let linear = proof.linear_rounds@.len() as int;
    let first = message_list(proof.chi_rounds@);
    let second = round_list(proof.linear_rounds@);
    let (a, b) = (spelled_rounds(first, chi), spelled_rounds(second, linear));
    lemma_spelled(proof.tap_values@, 3);
    if chi > 0 {
        lemma_spelled_places(first, 4, chi, 0, 0);
    }
    if linear > 0 {
        lemma_spelled_places(second, 3, linear, 0, 0);
    }
    assert(a.len() == 5 * chi && b.len() == 4 * linear);
    if i < chi {
        lemma_spelled_places(first, 4, chi, i, 4);
        assert(script[5 * i + 4] == a[5 * i + 4]);
        if j < 4 {
            lemma_spelled_places(first, 4, chi, i, j);
            assert(script[5 * i + j] == a[5 * i + j]);
        }
    }
    if i < linear {
        lemma_spelled_places(second, 3, linear, i, 3);
        assert(script[5 * chi + 4 + 4 * i + 3] == b[4 * i + 3]);
        if j < 3 {
            lemma_spelled_places(second, 3, linear, i, j);
            assert(script[5 * chi + 4 + 4 * i + j] == b[4 * i + j]);
        }
    }
}

} // verus!
