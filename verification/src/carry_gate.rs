//! The sixteen-bit borrow chain as a layered sumcheck.
//!
//! Layer `i` reduces a claim on the borrows after bit `i` to a claim on word
//! bit `i` and a claim on the borrows before it. The chain reduces the claim
//! that a word is below the bound to sixteen word-bit claims; the caller
//! authenticates those and binds the output claim. No borrow is committed.
use vstd::arithmetic::power2::{lemma2_to64, lemma_pow2_pos, lemma_pow2_unfold, pow2};
use vstd::prelude::*;

use crate::claim_closure::{eq_factor, eq_points, lemma_eq_extension};
use crate::field::{
    fadd, fmul, fone, fzero, lemma_fadd_assoc, lemma_fadd_comm, lemma_fadd_self, lemma_fadd_zero,
    lemma_fmul_assoc, lemma_fmul_comm, lemma_fmul_distr, lemma_fmul_one, lemma_fmul_zero, F128,
};
use crate::hash_to_point_scatter::soundness::{coincidence_free, coincides};
use crate::hash_to_point_scatter::{interpolate, small};
use crate::hash_to_point_slots::relation::{lemma_shift_bit, nat_bit};
use crate::mle::{
    bit_element, bit_mle, bit_table, bit_value, copy_table, eq_weight, fold_all, fold_in_place,
    fold_table, lemma_fold_all_concat, lemma_mle_is_weighted_sum, lerp, mle,
};
use crate::polynomial::lemma_poly_add;
use crate::sumcheck::{
    lagrange, lemma_lagrange_exact, lemma_round_value_poly, lerp_term, node, round_value,
};
use crate::sums::{fprod, fsum, lemma_fsum_add, lemma_fsum_congr};

pub mod packed_round;

verus! {

pub const WORD_BITS: usize = 16;

/// The bound of the comparison.
pub const M: u16 = 0xF005;

/// The borrow after a bit: `x` is the word's bit, `d` the borrow before it and
/// `mi` the bound's bit.
pub open spec fn gate(x: F128, d: F128, mi: bool) -> F128 {
    if mi {
        fadd(fadd(fone(), x), fmul(x, d))
    } else {
        fmul(d, fadd(fone(), x))
    }
}

/// The borrow after a bit, on field elements.
pub fn polynomial(x: F128, d: F128, mi: bool) -> (value: F128)
    ensures
        value == gate(x, d, mi),
{
    if mi {
        F128::one() + x + x * d
    } else {
        d * (F128::one() + x)
    }
}

/// The round polynomial of a layer at `r`.
pub open spec fn layer_value(
    e: Seq<F128>,
    x: Seq<F128>,
    d: Seq<F128>,
    mi: bool,
    r: F128,
) -> F128 {
    let half = (e.len() / 2) as int;
    fsum(
        |j: int|
            fmul(
                lerp(e[j], e[half + j], r),
                gate(lerp(x[j], x[half + j], r), lerp(d[j], d[half + j], r), mi),
            ),
        half,
    )
}

/// A layer's round message: the round polynomial at the nodes 0 to 3.
pub open spec fn layer_evals(e: Seq<F128>, x: Seq<F128>, d: Seq<F128>, mi: bool) -> Seq<F128> {
    Seq::new(4, |t: int| layer_value(e, x, d, mi, node(t)))
}

/// The equality table of a point.
pub open spec fn eq_list(rho: Seq<F128>) -> Seq<F128> {
    Seq::new(pow2(rho.len()), |i: int| eq_weight(rho, i))
}

/// The messages of a layer under the given challenges.
pub open spec fn layer_rounds(
    rho: Seq<F128>,
    x: Seq<bool>,
    d: Seq<bool>,
    mi: bool,
    challenges: Seq<F128>,
) -> Seq<Seq<F128>> {
    Seq::new(
        challenges.len(),
        |k: int|
            layer_evals(
                fold_all(eq_list(rho), challenges.take(k)),
                fold_all(bit_table(x), challenges.take(k)),
                fold_all(bit_table(d), challenges.take(k)),
                mi,
            ),
    )
}

/// A layer's message depends only on the challenges before it.
pub proof fn layer_messages_precede_their_challenges(
    rho: Seq<F128>,
    x: Seq<bool>,
    d: Seq<bool>,
    mi: bool,
    drawn: Seq<F128>,
    other: Seq<F128>,
    k: int,
)
    requires
        0 <= k < drawn.len(),
        k < other.len(),
        drawn.take(k) == other.take(k),
    ensures
        layer_rounds(rho, x, d, mi, drawn)[k] == layer_rounds(rho, x, d, mi, other)[k],
{
}

/// The contents of a list of round messages.
pub open spec fn message_list(rounds: Seq<[F128; 4]>) -> Seq<Seq<F128>> {
    Seq::new(rounds.len(), |k: int| rounds[k]@)
}

/// The messages of one layer, and the claimed values of its two inputs.
#[derive(Clone, Debug, PartialEq, Eq)]
pub struct LayerProof {
    pub rounds: Vec<[F128; 4]>,
    pub x_value: F128,
    pub d_value: F128,
}

/// The output claim and the layers, from bit 15 down to bit 0.
#[derive(Clone, Debug, PartialEq, Eq)]
pub struct ChainProof {
    pub output_value: F128,
    pub layers: Vec<LayerProof>,
}

/// A claim on one bit of the words.
#[derive(Clone, Debug)]
pub struct WordBitClaim {
    pub bit: usize,
    pub point: Vec<F128>,
    pub value: F128,
}

/// What a verified chain leaves to authenticate.
#[derive(Clone, Debug)]
pub struct ChainClaims {
    pub output_point: Vec<F128>,
    pub output_value: F128,
    pub inputs: Vec<WordBitClaim>,
}

// ---------------------------------------------------------------------------
// The borrows.
// ---------------------------------------------------------------------------

/// The borrow after the low `i` bits: the word's low bits are below the
/// bound's.
pub open spec fn borrow_after(word: u16, i: int) -> bool {
    (word as int) % (pow2(i as nat) as int) < (M as int) % (pow2(i as nat) as int)
}

/// The borrows after `i` bits of every word.
pub open spec fn borrow_table(words: Seq<u16>, i: int) -> Seq<bool> {
    Seq::new(words.len(), |j: int| borrow_after(words[j], i))
}

/// Bit `i` of every word.
pub open spec fn word_bits(words: Seq<u16>, i: int) -> Seq<bool> {
    Seq::new(words.len(), |j: int| nat_bit(words[j] as int, i))
}

proof fn lemma_mod_step(v: int, i: nat)
    requires
        0 <= v,
    ensures
        v % (pow2(i + 1) as int) == v % (pow2(i) as int) + (if nat_bit(v, i as int) {
            pow2(i) as int
        } else {
            0
        }),
        0 <= v % (pow2(i) as int) < pow2(i),
{
    let p = pow2(i) as int;
    lemma_pow2_pos(i);
    lemma_pow2_unfold(i + 1);
    vstd::arithmetic::div_mod::lemma_mod_breakdown(v, p, 2);
    assert(p * 2 == pow2(i + 1));
    let b = (v / p) % 2;
    assert(p * b == if b == 1 {
        p
    } else {
        0
    }) by (nonlinear_arith)
        requires
            b == 0 || b == 1,
    ;
    vstd::arithmetic::div_mod::lemma_mod_bound(v, p);
}

/// The borrow recurrence.
proof fn lemma_borrow_step(word: u16, i: int)
    requires
        0 <= i < 16,
    ensures
        borrow_after(word, i + 1) == (if nat_bit(M as int, i) {
            !nat_bit(word as int, i) || borrow_after(word, i)
        } else {
            !nat_bit(word as int, i) && borrow_after(word, i)
        }),
{
    lemma_mod_step(word as int, i as nat);
    lemma_mod_step(M as int, i as nat);
}

/// On bits the borrow gate is the borrow after.
proof fn lemma_gate_bits(word: u16, i: int)
    requires
        0 <= i < 16,
    ensures
        gate(
            bit_value(nat_bit(word as int, i)),
            bit_value(borrow_after(word, i)),
            nat_bit(M as int, i),
        ) == bit_value(borrow_after(word, i + 1)),
{
    lemma_borrow_step(word, i);
    let x = bit_value(nat_bit(word as int, i));
    let d = bit_value(borrow_after(word, i));
    lemma_fmul_zero(d);
    lemma_fmul_one(d);
    lemma_fmul_comm(d, fone());
    lemma_fmul_comm(d, fzero());
    lemma_fadd_zero(fone());
    lemma_fadd_self(fone());
    lemma_fadd_zero(fzero());
    lemma_fadd_zero(d);
}

/// The borrows after `0, ..., 16` bits of every word.
pub fn borrow_tables(words: &[u16]) -> (d: Vec<Vec<bool>>)
    ensures
        d@.len() == 17,
        forall|i: int| 0 <= i < 17 ==> (#[trigger] d@[i])@ == borrow_table(words@, i),
{
    let mut d: Vec<Vec<bool>> = Vec::new();
    let mut first: Vec<bool> = Vec::new();
    let mut j: usize = 0;
    proof {
        lemma2_to64();
    }
    while j < words.len()
        invariant
            j <= words@.len(),
            pow2(0) == 1,
            first@.len() == j,
            forall|k: int| 0 <= k < j ==> #[trigger] first@[k] == borrow_after(words@[k], 0),
        decreases words@.len() - j,
    {
        assert((words@[j as int] as int) % 1 == 0 && (M as int) % 1 == 0);
        first.push(false);
        j = j + 1;
    }
    assert(first@ =~= borrow_table(words@, 0));
    d.push(first);
    let mut i: usize = 0;
    while i < WORD_BITS
        invariant
            i <= WORD_BITS,
            d@.len() == i + 1,
            forall|k: int| 0 <= k < i + 1 ==> (#[trigger] d@[k])@ == borrow_table(words@, k),
        decreases WORD_BITS - i,
    {
        assert(d@[i as int]@ == borrow_table(words@, i as int));
        let m = bound_bit(i);
        let mut next: Vec<bool> = Vec::new();
        let mut j: usize = 0;
        while j < words.len()
            invariant
                i < WORD_BITS,
                d@.len() == i + 1,
                d@[i as int]@ == borrow_table(words@, i as int),
                m == nat_bit(M as int, i as int),
                j <= words@.len(),
                next@.len() == j,
                forall|k: int| 0 <= k < j ==> #[trigger] next@[k] == borrow_after(words@[k], i + 1),
            decreases words@.len() - j,
        {
            let x = word_bit(words[j], i);
            let borrow = d[i][j];
            proof {
                lemma_borrow_step(words@[j as int], i as int);
            }
            next.push((!x && (m || borrow)) || (m && borrow));
            j = j + 1;
        }
        assert(next@ =~= borrow_table(words@, i + 1));
        d.push(next);
        i = i + 1;
    }
    d
}

/// Bit `i` of a word.
fn word_bit(word: u16, i: usize) -> (set: bool)
    requires
        i < 16,
    ensures
        set == nat_bit(word as int, i as int),
{
    proof {
        lemma_shift_bit(word as u32, i as u32);
    }
    ((word as u32) >> (i as u32)) & 1 == 1
}

/// Bit `i` of the bound.
fn bound_bit(i: usize) -> (set: bool)
    requires
        i < 16,
    ensures
        set == nat_bit(M as int, i as int),
{
    word_bit(M, i)
}

// ---------------------------------------------------------------------------
// Proving a layer.
// ---------------------------------------------------------------------------

/// A dense round message.
fn dense_evals(e: &Vec<F128>, x: &Vec<F128>, d: &Vec<F128>, mi: bool) -> (evals: [F128; 4])
    requires
        e@.len() % 2 == 0,
        x@.len() == e@.len(),
        d@.len() == e@.len(),
    ensures
        evals@ == layer_evals(e@, x@, d@, mi),
{
    let e0 = dense_value(e, x, d, mi, small(0));
    let e1 = dense_value(e, x, d, mi, small(1));
    let e2 = dense_value(e, x, d, mi, small(2));
    let e3 = dense_value(e, x, d, mi, small(3));
    let evals: [F128; 4] = [e0, e1, e2, e3];
    assert(evals@ =~= layer_evals(e@, x@, d@, mi));
    evals
}

fn dense_value(e: &Vec<F128>, x: &Vec<F128>, d: &Vec<F128>, mi: bool, r: F128) -> (value: F128)
    requires
        e@.len() % 2 == 0,
        x@.len() == e@.len(),
        d@.len() == e@.len(),
    ensures
        value == layer_value(e@, x@, d@, mi, r),
{
    let total: usize = e.len();
    let half: usize = total / 2;
    let ghost f = |j: int|
        fmul(
            lerp(e@[j], e@[half + j], r),
            gate(lerp(x@[j], x@[half + j], r), lerp(d@[j], d@[half + j], r), mi),
        );
    let mut sum = F128::zero();
    let mut j: usize = 0;
    while j < half
        invariant
            total == e@.len(),
            total == 2 * half,
            x@.len() == total,
            d@.len() == total,
            f == (|j: int|
                fmul(
                    lerp(e@[j], e@[half + j], r),
                    gate(lerp(x@[j], x@[half + j], r), lerp(d@[j], d@[half + j], r), mi),
                )),
            j <= half,
            sum == fsum(f, j as int),
        decreases half - j,
    {
        let de = e[j] + e[half + j];
        let dx = x[j] + x[half + j];
        let dd = d[j] + d[half + j];
        sum = sum + (e[j] + r * de) * polynomial(x[j] + r * dx, d[j] + r * dd, mi);
        j = j + 1;
    }
    sum
}

/// The field elements of a bit table.
pub fn lift(bits: &[bool]) -> (table: Vec<F128>)
    ensures
        table@ == bit_table(bits@),
{
    let mut table: Vec<F128> = Vec::new();
    let mut i: usize = 0;
    while i < bits.len()
        invariant
            i <= bits@.len(),
            table@.len() == i,
            forall|k: int| 0 <= k < i ==> #[trigger] table@[k] == bit_value(bits@[k]),
        decreases bits@.len() - i,
    {
        table.push(bit_element(bits[i]));
        i = i + 1;
    }
    assert(table@ =~= bit_table(bits@));
    table
}

/// Reduce the claim of a layer at `rho` under the given challenges. The packed
/// kernel computes the first three messages from packed bits; both kernels
/// give the same messages.
pub fn prove_layer(
    x: &[bool],
    d: &[bool],
    mi: bool,
    rho: &[F128],
    packed: bool,
    challenges: &[F128],
) -> (result: (LayerProof, Vec<F128>))
    requires
        challenges@.len() == rho@.len(),
        x@.len() == pow2(rho@.len()),
        d@.len() == x@.len(),
    ensures
        message_list(result.0.rounds@) == layer_rounds(rho@, x@, d@, mi, challenges@),
        result.0.x_value == mle(bit_table(x@), challenges@),
        result.0.d_value == mle(bit_table(d@), challenges@),
        result.1@ == challenges@,
{
    let n: usize = rho.len();
    let total: usize = x.len();
    let ghost te = eq_list(rho@);
    let ghost tx = bit_table(x@);
    let ghost td = bit_table(d@);
    let mut rounds: Vec<[F128; 4]> = Vec::new();
    let mut point: Vec<F128> = Vec::new();
    let top: usize = if !packed {
        0
    } else if n < 3 {
        n
    } else {
        3
    };
    assert(challenges@.take(0) =~= Seq::<F128>::empty());
    while point.len() < top
        invariant
            n == rho@.len(),
            n == challenges@.len(),
            top <= n,
            top <= 3,
            x@.len() == pow2(n as nat),
            d@.len() == x@.len(),
            te == eq_list(rho@),
            tx == bit_table(x@),
            td == bit_table(d@),
            point@.len() <= top,
            point@ == challenges@.take(point@.len() as int),
            rounds@.len() == point@.len(),
            forall|k: int|
                0 <= k < rounds@.len() ==> (#[trigger] rounds@[k])@ == layer_evals(
                    fold_all(te, challenges@.take(k)),
                    fold_all(tx, challenges@.take(k)),
                    fold_all(td, challenges@.take(k)),
                    mi,
                ),
        decreases top - point@.len(),
    {
        let evals = packed_round::packed_round(x, d, mi, rho, point.as_slice());
        let k: usize = point.len();
        rounds.push(evals);
        point.push(challenges[k]);
        assert(point@ =~= challenges@.take(k + 1));
    }
    let (mut e, mut xs, mut ds) = packed_round::fold_inputs(x, d, rho, point.as_slice());
    proof {
        packed_round::lemma_fold_sizes(rho@, x@, d@, point@);
    }
    while point.len() < n
        invariant
            n == rho@.len(),
            n == challenges@.len(),
            te == eq_list(rho@),
            tx == bit_table(x@),
            td == bit_table(d@),
            point@.len() <= n,
            point@ == challenges@.take(point@.len() as int),
            e@ == fold_all(te, point@),
            xs@ == fold_all(tx, point@),
            ds@ == fold_all(td, point@),
            e@.len() == pow2((n - point@.len()) as nat),
            xs@.len() == e@.len(),
            ds@.len() == e@.len(),
            rounds@.len() == point@.len(),
            forall|k: int|
                0 <= k < rounds@.len() ==> (#[trigger] rounds@[k])@ == layer_evals(
                    fold_all(te, challenges@.take(k)),
                    fold_all(tx, challenges@.take(k)),
                    fold_all(td, challenges@.take(k)),
                    mi,
                ),
        decreases n - point@.len(),
    {
        let k: usize = point.len();
        proof {
            lemma_pow2_unfold((n - k) as nat);
        }
        let evals = dense_evals(&e, &xs, &ds, mi);
        let r = challenges[k];
        let ghost before = point@;
        proof {
            lemma_fold_all_concat(te, before, seq![r]);
            lemma_fold_all_concat(tx, before, seq![r]);
            lemma_fold_all_concat(td, before, seq![r]);
            reveal_with_fuel(fold_all, 2);
            assert(seq![r].drop_first() =~= Seq::<F128>::empty());
        }
        fold_in_place(&mut e, r);
        fold_in_place(&mut xs, r);
        fold_in_place(&mut ds, r);
        rounds.push(evals);
        point.push(r);
        proof {
            assert(point@ =~= before + seq![r]);
            assert(point@ =~= challenges@.take(k + 1));
        }
    }
    proof {
        lemma2_to64();
        assert(point@ =~= challenges@);
        assert(message_list(rounds@) =~= layer_rounds(rho@, x@, d@, mi, challenges@));
    }
    (LayerProof { rounds, x_value: xs[0], d_value: ds[0] }, point)
}

/// The point of layer `k`'s incoming claim.
pub open spec fn layer_point(rho: Seq<F128>, challenges: Seq<Seq<F128>>, k: int) -> Seq<F128> {
    if k == 0 {
        rho
    } else {
        challenges[k - 1]
    }
}

/// The challenge lists.
pub open spec fn challenge_lists(challenges: Seq<Vec<F128>>) -> Seq<Seq<F128>> {
    Seq::new(challenges.len(), |k: int| challenges[k]@)
}

/// Layer `k` is the honest one.
pub open spec fn honest_layer(
    layer: LayerProof,
    words: Seq<u16>,
    rho: Seq<F128>,
    challenges: Seq<Seq<F128>>,
    k: int,
) -> bool {
    let i = 15 - k;
    &&& message_list(layer.rounds@) == layer_rounds(
        layer_point(rho, challenges, k),
        word_bits(words, i),
        borrow_table(words, i),
        nat_bit(M as int, i),
        challenges[k],
    )
    &&& layer.x_value == mle(bit_table(word_bits(words, i)), challenges[k])
    &&& layer.d_value == mle(bit_table(borrow_table(words, i)), challenges[k])
}

/// Bit `i` of every word.
fn bits_of(words: &[u16], i: usize) -> (bits: Vec<bool>)
    requires
        i < 16,
    ensures
        bits@ == word_bits(words@, i as int),
{
    let mut bits: Vec<bool> = Vec::new();
    let mut j: usize = 0;
    while j < words.len()
        invariant
            i < 16,
            j <= words@.len(),
            bits@.len() == j,
            forall|k: int| 0 <= k < j ==> #[trigger] bits@[k] == nat_bit(words@[k] as int, i as int),
        decreases words@.len() - j,
    {
        bits.push(word_bit(words[j], i));
        j = j + 1;
    }
    assert(bits@ =~= word_bits(words@, i as int));
    bits
}

/// Prove the chain with the packed kernel.
pub fn prove_chain(words: &[u16], rho: &Vec<F128>, challenges: &[Vec<F128>]) -> (result: (
    ChainProof,
    Vec<F128>,
))
    requires
        words@.len() == pow2(rho@.len()),
        challenges@.len() == 16,
        forall|k: int| 0 <= k < 16 ==> (#[trigger] challenges@[k])@.len() == rho@.len(),
    ensures
        result.0.output_value == mle(bit_table(borrow_table(words@, 16)), rho@),
        result.0.layers@.len() == 16,
        forall|k: int|
            0 <= k < 16 ==> honest_layer(
                #[trigger] result.0.layers@[k],
                words@,
                rho@,
                challenge_lists(challenges@),
                k,
            ),
        result.1@ == challenges@[15]@,
{
    prove_chain_with(words, true, rho, challenges)
}

/// Prove the chain: the output claim at `rho`, and the sixteen layers under
/// their challenges. Both kernels give the same proof.
pub fn prove_chain_with(
    words: &[u16],
    packed: bool,
    rho: &Vec<F128>,
    challenges: &[Vec<F128>],
) -> (result: (ChainProof, Vec<F128>))
    requires
        words@.len() == pow2(rho@.len()),
        challenges@.len() == 16,
        forall|k: int| 0 <= k < 16 ==> (#[trigger] challenges@[k])@.len() == rho@.len(),
    ensures
        result.0.output_value == mle(bit_table(borrow_table(words@, 16)), rho@),
        result.0.layers@.len() == 16,
        forall|k: int|
            0 <= k < 16 ==> honest_layer(
                #[trigger] result.0.layers@[k],
                words@,
                rho@,
                challenge_lists(challenges@),
                k,
            ),
        result.1@ == challenges@[15]@,
{
    let ghost lists = challenge_lists(challenges@);
    let d = borrow_tables(words);
    assert(d@[16]@ == borrow_table(words@, 16));
    let output_value = bit_mle(d[16].as_slice(), rho.as_slice());
    let mut layers: Vec<LayerProof> = Vec::new();
    let mut current = copy_table(rho.as_slice());
    let mut k: usize = 0;
    while k < WORD_BITS
        invariant
            words@.len() == pow2(rho@.len()),
            challenges@.len() == 16,
            forall|k: int| 0 <= k < 16 ==> (#[trigger] challenges@[k])@.len() == rho@.len(),
            lists == challenge_lists(challenges@),
            d@.len() == 17,
            forall|i: int| 0 <= i < 17 ==> (#[trigger] d@[i])@ == borrow_table(words@, i),
            k <= WORD_BITS,
            current@ == layer_point(rho@, lists, k as int),
            current@.len() == rho@.len(),
            layers@.len() == k,
            forall|j: int|
                0 <= j < k ==> honest_layer(#[trigger] layers@[j], words@, rho@, lists, j),
        decreases WORD_BITS - k,
    {
        let i: usize = WORD_BITS - 1 - k;
        let x = bits_of(words, i);
        assert(d@[i as int]@ == borrow_table(words@, i as int));
        assert(challenges@[k as int]@.len() == rho@.len());
        let (layer, point) = prove_layer(
            x.as_slice(),
            d[i].as_slice(),
            bound_bit(i),
            current.as_slice(),
            packed,
            challenges[k].as_slice(),
        );
        layers.push(layer);
        current = point;
        k = k + 1;
    }
    (ChainProof { output_value, layers }, current)
}

// ---------------------------------------------------------------------------
// Verification.
// ---------------------------------------------------------------------------

/// The claim after a layer's rounds; `None` where a round does not sum to its
/// claim.
pub open spec fn layer_walk(
    rounds: Seq<Seq<F128>>,
    claim: F128,
    challenges: Seq<F128>,
) -> Option<F128>
    decreases rounds.len(),
{
    if rounds.len() == 0 {
        Some(claim)
    } else if fadd(rounds[0][0], rounds[0][1]) != claim {
        None
    } else {
        layer_walk(
            rounds.drop_first(),
            lagrange(rounds[0], challenges[0]),
            challenges.drop_first(),
        )
    }
}

/// What one layer's checks give: the borrow claim that is left, or the first
/// check that fails.
pub open spec fn layer_outcome(
    rounds: Seq<Seq<F128>>,
    x_value: F128,
    d_value: F128,
    vars: int,
    claim: F128,
    rho: Seq<F128>,
    mi: bool,
    challenges: Seq<F128>,
) -> Result<F128, Seq<char>> {
    if rounds.len() != vars {
        Err("invalid borrow layer arity"@)
    } else {
        match layer_walk(rounds, claim, challenges) {
            None => Err("borrow round sum mismatch"@),
            Some(value) => if value != fmul(
                eq_points(rho, challenges),
                gate(x_value, d_value, mi),
            ) {
                Err("borrow layer terminal mismatch"@)
            } else {
                Ok(d_value)
            },
        }
    }
}

/// The layers' checks from layer `k` on.
pub open spec fn chain_walk(
    layers: Seq<LayerProof>,
    k: int,
    vars: int,
    claim: F128,
    rho: Seq<F128>,
    challenges: Seq<Seq<F128>>,
) -> Result<F128, Seq<char>>
    decreases layers.len() - k,
{
    if k >= layers.len() {
        Ok(claim)
    } else {
        match layer_outcome(
            message_list(layers[k].rounds@),
            layers[k].x_value,
            layers[k].d_value,
            vars,
            claim,
            layer_point(rho, challenges, k),
            nat_bit(M as int, 15 - k),
            challenges[k],
        ) {
            Err(message) => Err(message),
            Ok(next) => chain_walk(layers, k + 1, vars, next, rho, challenges),
        }
    }
}

/// What the chain verifier returns: success, or the first check that fails.
pub open spec fn chain_outcome(
    proof: ChainProof,
    vars: int,
    rho: Seq<F128>,
    challenges: Seq<Seq<F128>>,
) -> Result<(), Seq<char>> {
    if vars >= usize::BITS || proof.layers@.len() != WORD_BITS {
        Err("invalid borrow-chain shape"@)
    } else {
        match chain_walk(proof.layers@, 0, vars, proof.output_value, rho, challenges) {
            Err(message) => Err(message),
            Ok(claim) => if claim != fzero() {
                Err("nonzero initial borrow"@)
            } else {
                Ok(())
            },
        }
    }
}

/// `1 + a + b` is the equality of two coordinates.
pub proof fn lemma_eq_factor(a: F128, b: F128)
    ensures
        eq_factor(a, b) == fadd(fadd(fone(), a), b),
{
    let na = fadd(fone(), a);
    lemma_fmul_distr(na, fone(), b);
    lemma_fmul_one(na);
    lemma_fmul_comm(na, fone());
    lemma_fmul_comm(na, b);
    lemma_fmul_distr(b, fone(), a);
    lemma_fmul_one(b);
    lemma_fmul_comm(b, fone());
    lemma_fmul_comm(b, a);
    let ab = fmul(a, b);
    // ab + (na + (b + ab)) = na + b
    lemma_fadd_comm(b, ab);
    lemma_fadd_assoc(na, ab, b);
    lemma_fadd_comm(na, ab);
    lemma_fadd_assoc(ab, na, b);
    lemma_fadd_assoc(ab, ab, fadd(na, b));
    lemma_fadd_self(ab);
    lemma_fadd_zero(fadd(na, b));
}

/// The equality polynomial of two points of one dimension.
pub fn eq_at(a: &[F128], b: &[F128]) -> (eq: F128)
    requires
        a@.len() == b@.len(),
    ensures
        eq == eq_points(a@, b@),
{
    let ghost f = |j: int| eq_factor(a@[j], b@[j]);
    let mut eq = F128::one();
    let mut j: usize = 0;
    while j < a.len()
        invariant
            a@.len() == b@.len(),
            j <= a@.len(),
            f == (|j: int| eq_factor(a@[j], b@[j])),
            eq == fprod(f, j as int),
        decreases a@.len() - j,
    {
        proof {
            lemma_eq_factor(a@[j as int], b@[j as int]);
        }
        eq = eq * (F128::one() + a[j] + b[j]);
        j = j + 1;
    }
    eq
}

/// Check one layer.
fn check_layer(
    layer: &LayerProof,
    vars: usize,
    claim: F128,
    rho: &Vec<F128>,
    mi: bool,
    challenges: &Vec<F128>,
) -> (result: Result<F128, &'static str>)
    requires
        rho@.len() == vars,
        challenges@.len() == vars,
    ensures
        match layer_outcome(
            message_list(layer.rounds@),
            layer.x_value,
            layer.d_value,
            vars as int,
            claim,
            rho@,
            mi,
            challenges@,
        ) {
            Ok(next) => result matches Ok(value) && value == next,
            Err(message) => result matches Err(e) && e@ == message,
        },
{
    if layer.rounds.len() != vars {
        return Err("invalid borrow layer arity");
    }
    let ghost rounds = message_list(layer.rounds@);
    let mut running = claim;
    let mut k: usize = 0;
    proof {
        assert(rounds.skip(0) =~= rounds);
        assert(challenges@.skip(0) =~= challenges@);
    }
    while k < vars
        invariant
            rounds == message_list(layer.rounds@),
            rounds.len() == vars,
            challenges@.len() == vars,
            k <= vars,
            layer_walk(rounds, claim, challenges@) == layer_walk(
                rounds.skip(k as int),
                running,
                challenges@.skip(k as int),
            ),
        decreases vars - k,
    {
        let ghost rest = rounds.skip(k as int);
        let evals = &layer.rounds[k];
        assert(rest[0] == evals@);
        if evals[0] + evals[1] != running {
            return Err("borrow round sum mismatch");
        }
        running = interpolate(evals.as_slice(), challenges[k]);
        proof {
            assert(rest.drop_first() =~= rounds.skip(k + 1));
            assert(challenges@.skip(k as int).drop_first() =~= challenges@.skip(k + 1));
        }
        k = k + 1;
    }
    let terminal = eq_at(rho.as_slice(), challenges.as_slice()) * polynomial(
        layer.x_value,
        layer.d_value,
        mi,
    );
    if running != terminal {
        return Err("borrow layer terminal mismatch");
    }
    Ok(layer.d_value)
}

/// The claims that the chain leaves: word bit `15 - k` at the challenge point
/// of layer `k`.
pub open spec fn leaves_claims(
    claims: ChainClaims,
    proof: ChainProof,
    rho: Seq<F128>,
    challenges: Seq<Seq<F128>>,
) -> bool {
    &&& claims.output_point@ == rho
    &&& claims.output_value == proof.output_value
    &&& claims.inputs@.len() == 16
    &&& forall|k: int|
        0 <= k < 16 ==> ({
            let input = #[trigger] claims.inputs@[k];
            &&& input.bit == 15 - k
            &&& input.point@ == challenges[k]
            &&& input.value == proof.layers@[k].x_value
        })
}

/// Check every layer transition and return the claims that the caller has to
/// authenticate against the word bits, with the output claim it has to bind.
pub fn verify_chain(
    proof: &ChainProof,
    vars: usize,
    rho: &Vec<F128>,
    challenges: &[Vec<F128>],
) -> (result: Result<ChainClaims, &'static str>)
    requires
        rho@.len() == vars,
        challenges@.len() == 16,
        forall|k: int| 0 <= k < 16 ==> (#[trigger] challenges@[k])@.len() == vars,
    ensures
        match chain_outcome(*proof, vars as int, rho@, challenge_lists(challenges@)) {
            Ok(()) => result matches Ok(claims) && leaves_claims(
                claims,
                *proof,
                rho@,
                challenge_lists(challenges@),
            ),
            Err(message) => result matches Err(e) && e@ == message,
        },
{
    let ghost lists = challenge_lists(challenges@);
    if vars >= usize::BITS as usize || proof.layers.len() != WORD_BITS {
        return Err("invalid borrow-chain shape");
    }
    let mut current = copy_table(rho.as_slice());
    let mut claim = proof.output_value;
    let mut inputs: Vec<WordBitClaim> = Vec::new();
    let mut k: usize = 0;
    while k < WORD_BITS
        invariant
            rho@.len() == vars,
            challenges@.len() == 16,
            forall|k: int| 0 <= k < 16 ==> (#[trigger] challenges@[k])@.len() == vars,
            lists == challenge_lists(challenges@),
            proof.layers@.len() == 16,
            vars < usize::BITS,
            k <= WORD_BITS,
            current@ == layer_point(rho@, lists, k as int),
            current@.len() == vars,
            chain_walk(proof.layers@, 0, vars as int, proof.output_value, rho@, lists)
                == chain_walk(proof.layers@, k as int, vars as int, claim, rho@, lists),
            inputs@.len() == k,
            forall|j: int|
                0 <= j < k ==> ({
                    let input = #[trigger] inputs@[j];
                    &&& input.bit == 15 - j
                    &&& input.point@ == lists[j]
                    &&& input.value == proof.layers@[j].x_value
                }),
        decreases WORD_BITS - k,
    {
        let bit: usize = WORD_BITS - 1 - k;
        assert(challenges@[k as int]@.len() == vars);
        assert(lists[k as int] == challenges@[k as int]@);
        claim = match check_layer(
            &proof.layers[k],
            vars,
            claim,
            &current,
            bound_bit(bit),
            &challenges[k],
        ) {
            Ok(next) => next,
            Err(e) => {
                return Err(e);
            },
        };
        let point = copy_table(challenges[k].as_slice());
        inputs.push(WordBitClaim { bit, point, value: proof.layers[k].x_value });
        current = copy_table(challenges[k].as_slice());
        k = k + 1;
    }
    if claim != F128::zero() {
        return Err("nonzero initial borrow");
    }
    Ok(
        ChainClaims {
            output_point: copy_table(rho.as_slice()),
            output_value: proof.output_value,
            inputs,
        },
    )
}

// ---------------------------------------------------------------------------
// Completeness.
// ---------------------------------------------------------------------------

spec fn ones(n: nat) -> Seq<F128> {
    Seq::new(n, |i: int| fone())
}

/// A layer as a sum of three-factor products.
spec fn layer_product_value(
    e: Seq<F128>,
    x: Seq<F128>,
    d: Seq<F128>,
    mi: bool,
    r: F128,
) -> F128 {
    let u = ones(e.len());
    if mi {
        fadd(
            fadd(round_value(seq![e, u, u], r), round_value(seq![e, x, u], r)),
            round_value(seq![e, x, d], r),
        )
    } else {
        fadd(round_value(seq![e, d, u], r), round_value(seq![e, x, d], r))
    }
}

proof fn lemma_three_term(a: Seq<F128>, b: Seq<F128>, c: Seq<F128>, j: int, r: F128)
    ensures
        lerp_term(seq![a, b, c], j, r) == fmul(
            fmul(
                lerp(a[j], a[a.len() / 2 + j], r),
                lerp(b[j], b[a.len() / 2 + j], r),
            ),
            lerp(c[j], c[a.len() / 2 + j], r),
        ),
{
    reveal_with_fuel(fprod, 4);
    lemma_fmul_one(lerp(a[j], a[a.len() / 2 + j], r));
}

proof fn lemma_lerp_ones(r: F128)
    ensures
        lerp(fone(), fone(), r) == fone(),
{
    lemma_fadd_self(fone());
    lemma_fmul_zero(r);
    lemma_fadd_zero(fone());
}

proof fn lemma_layer_is_products(
    e: Seq<F128>,
    x: Seq<F128>,
    d: Seq<F128>,
    mi: bool,
    r: F128,
)
    requires
        e.len() % 2 == 0,
    ensures
        layer_value(e, x, d, mi, r) == layer_product_value(e, x, d, mi, r),
{
    let half = (e.len() / 2) as int;
    let u = ones(e.len());
    let f = |j: int|
        fmul(
            lerp(e[j], e[half + j], r),
            gate(lerp(x[j], x[half + j], r), lerp(d[j], d[half + j], r), mi),
        );
    let a = |j: int| lerp_term(seq![e, u, u], j, r);
    let b = |j: int| lerp_term(seq![e, x, u], j, r);
    let c = |j: int| lerp_term(seq![e, x, d], j, r);
    let g = |j: int| lerp_term(seq![e, d, u], j, r);
    lemma_lerp_ones(r);
    if mi {
        lemma_fsum_add(a, b, half);
        let ab = |j: int| fadd(a(j), b(j));
        lemma_fsum_congr(ab, |j: int| fadd(a(j), b(j)), half);
        lemma_fsum_add(ab, c, half);
        let abc = |j: int| fadd(ab(j), c(j));
        assert forall|j: int| 0 <= j < half implies #[trigger] f(j) == abc(j) by {
            lemma_three_term(e, u, u, j, r);
            lemma_three_term(e, x, u, j, r);
            lemma_three_term(e, x, d, j, r);
            let (ej, xj, dj) = (
                lerp(e[j], e[half + j], r),
                lerp(x[j], x[half + j], r),
                lerp(d[j], d[half + j], r),
            );
            lemma_fmul_one(ej);
            lemma_fmul_one(fmul(ej, xj));
            lemma_fmul_distr(ej, fadd(fone(), xj), fmul(xj, dj));
            lemma_fmul_distr(ej, fone(), xj);
            lemma_fmul_comm(ej, fone());
            lemma_fmul_assoc(ej, xj, dj);
        }
        lemma_fsum_congr(f, abc, half);
        lemma_fsum_congr(abc, |j: int| fadd(ab(j), c(j)), half);
    } else {
        lemma_fsum_add(g, c, half);
        let gc = |j: int| fadd(g(j), c(j));
        assert forall|j: int| 0 <= j < half implies #[trigger] f(j) == gc(j) by {
            lemma_three_term(e, d, u, j, r);
            lemma_three_term(e, x, d, j, r);
            let (ej, xj, dj) = (
                lerp(e[j], e[half + j], r),
                lerp(x[j], x[half + j], r),
                lerp(d[j], d[half + j], r),
            );
            lemma_fmul_one(fmul(ej, dj));
            lemma_fmul_distr(dj, fone(), xj);
            lemma_fmul_one(dj);
            lemma_fmul_comm(dj, fone());
            lemma_fmul_comm(dj, xj);
            lemma_fmul_distr(ej, dj, fmul(xj, dj));
            lemma_fmul_assoc(ej, xj, dj);
        }
        lemma_fsum_congr(f, gc, half);
        lemma_fsum_congr(gc, |j: int| fadd(g(j), c(j)), half);
    }
}

/// Interpolating a layer message at the challenge gives the round polynomial.
proof fn lemma_layer_interpolates(
    e: Seq<F128>,
    x: Seq<F128>,
    d: Seq<F128>,
    mi: bool,
    r: F128,
)
    requires
        e.len() % 2 == 0,
    ensures
        lagrange(layer_evals(e, x, d, mi), r) == layer_value(e, x, d, mi, r),
{
    let u = ones(e.len());
    let half = (e.len() / 2) as int;
    let p = |r: F128| layer_value(e, x, d, mi, r);
    let a = |r: F128| fsum(|j: int| lerp_term(seq![e, u, u], j, r), half);
    let b = |r: F128| fsum(|j: int| lerp_term(seq![e, x, u], j, r), half);
    let c = |r: F128| fsum(|j: int| lerp_term(seq![e, x, d], j, r), half);
    let g = |r: F128| fsum(|j: int| lerp_term(seq![e, d, u], j, r), half);
    lemma_round_value_poly(seq![e, u, u], half);
    lemma_round_value_poly(seq![e, x, u], half);
    lemma_round_value_poly(seq![e, x, d], half);
    lemma_round_value_poly(seq![e, d, u], half);
    if mi {
        let ab = |r: F128| fadd(a(r), b(r));
        lemma_poly_add(a, b, ab, 4);
        assert forall|r: F128| #[trigger] p(r) == fadd(ab(r), c(r)) by {
            lemma_layer_is_products(e, x, d, mi, r);
        }
        lemma_poly_add(ab, c, p, 4);
    } else {
        assert forall|r: F128| #[trigger] p(r) == fadd(g(r), c(r)) by {
            lemma_layer_is_products(e, x, d, mi, r);
        }
        lemma_poly_add(g, c, p, 4);
    }
    lemma_lagrange_exact(p, layer_evals(e, x, d, mi), r);
}

/// The layer's sum over the domain.
spec fn layer_sum(e: Seq<F128>, x: Seq<F128>, d: Seq<F128>, mi: bool) -> F128 {
    fsum(|j: int| fmul(e[j], gate(x[j], d[j], mi)), e.len() as int)
}

/// A layer message's values at zero and one sum to the layer's sum, and the
/// value at the challenge is the sum of the bound tables.
proof fn lemma_layer_round(
    e: Seq<F128>,
    x: Seq<F128>,
    d: Seq<F128>,
    mi: bool,
    n: nat,
    r: F128,
)
    requires
        n > 0,
        e.len() == pow2(n),
        x.len() == e.len(),
        d.len() == e.len(),
    ensures
        fadd(layer_evals(e, x, d, mi)[0], layer_evals(e, x, d, mi)[1]) == layer_sum(e, x, d, mi),
        layer_value(e, x, d, mi, r) == layer_sum(
            fold_table(e, r),
            fold_table(x, r),
            fold_table(d, r),
            mi,
        ),
{
    lemma_pow2_unfold(n);
    let half = (e.len() / 2) as int;
    assert(node(0) == fzero() && node(1) == fone());
    let f = |j: int| fmul(e[j], gate(x[j], d[j], mi));
    crate::sums::lemma_fsum_split(f, half, half);
    let f0 = |j: int|
        fmul(
            lerp(e[j], e[half + j], fzero()),
            gate(lerp(x[j], x[half + j], fzero()), lerp(d[j], d[half + j], fzero()), mi),
        );
    let f1 = |j: int|
        fmul(
            lerp(e[j], e[half + j], fone()),
            gate(lerp(x[j], x[half + j], fone()), lerp(d[j], d[half + j], fone()), mi),
        );
    let high = |j: int| f(half + j);
    assert forall|j: int| 0 <= j < half implies #[trigger] f0(j) == f(j) by {
        lemma_ends(e[j], e[half + j]);
        lemma_ends(x[j], x[half + j]);
        lemma_ends(d[j], d[half + j]);
    }
    assert forall|j: int| 0 <= j < half implies #[trigger] f1(j) == high(j) by {
        lemma_ends(e[j], e[half + j]);
        lemma_ends(x[j], x[half + j]);
        lemma_ends(d[j], d[half + j]);
    }
    lemma_fsum_congr(f0, f, half);
    lemma_fsum_congr(f1, high, half);
    lemma_fsum_congr(high, |i: int| f(half + i), half);
    lemma_fsum_congr(
        |j: int|
            fmul(
                lerp(e[j], e[half + j], r),
                gate(lerp(x[j], x[half + j], r), lerp(d[j], d[half + j], r), mi),
            ),
        |j: int|
            fmul(fold_table(e, r)[j], gate(fold_table(x, r)[j], fold_table(d, r)[j], mi)),
        half,
    );
}

proof fn lemma_ends(a: F128, b: F128)
    ensures
        lerp(a, b, fzero()) == a,
        lerp(a, b, fone()) == b,
{
    lemma_fmul_zero(fadd(a, b));
    lemma_fadd_zero(a);
    lemma_fmul_one(fadd(a, b));
    lemma_fadd_assoc(a, a, b);
    lemma_fadd_self(a);
    lemma_fadd_zero(b);
}

/// The honest messages of a layer walk to the terminal.
proof fn lemma_layer_walk(
    e: Seq<F128>,
    x: Seq<F128>,
    d: Seq<F128>,
    mi: bool,
    challenges: Seq<F128>,
)
    requires
        e.len() == pow2(challenges.len()),
        x.len() == e.len(),
        d.len() == e.len(),
    ensures
        layer_walk(
            Seq::new(
                challenges.len(),
                |k: int|
                    layer_evals(
                        fold_all(e, challenges.take(k)),
                        fold_all(x, challenges.take(k)),
                        fold_all(d, challenges.take(k)),
                        mi,
                    ),
            ),
            layer_sum(e, x, d, mi),
            challenges,
        ) == Some(
            fmul(mle(e, challenges), gate(mle(x, challenges), mle(d, challenges), mi)),
        ),
    decreases challenges.len(),
{
    lemma2_to64();
    let rounds = Seq::new(
        challenges.len(),
        |k: int|
            layer_evals(
                fold_all(e, challenges.take(k)),
                fold_all(x, challenges.take(k)),
                fold_all(d, challenges.take(k)),
                mi,
            ),
    );
    if challenges.len() == 0 {
        reveal_with_fuel(fsum, 2);
        lemma_fadd_zero(fmul(e[0], gate(x[0], d[0], mi)));
    } else {
        let n = challenges.len();
        let r = challenges[0];
        let rest = challenges.drop_first();
        lemma_pow2_unfold(n);
        let (e1, x1, d1) = (fold_table(e, r), fold_table(x, r), fold_table(d, r));
        assert(challenges.take(0) =~= Seq::<F128>::empty());
        assert(rounds[0] == layer_evals(e, x, d, mi));
        lemma_layer_round(e, x, d, mi, n, r);
        lemma_layer_interpolates(e, x, d, mi, r);
        lemma_layer_walk(e1, x1, d1, mi, rest);
        let tail = Seq::new(
            rest.len(),
            |k: int|
                layer_evals(
                    fold_all(e1, rest.take(k)),
                    fold_all(x1, rest.take(k)),
                    fold_all(d1, rest.take(k)),
                    mi,
                ),
        );
        assert forall|k: int| 0 <= k < rest.len() implies #[trigger] rounds.drop_first()[k]
            == tail[k] by {
            assert(challenges.take(k + 1).drop_first() =~= rest.take(k));
            assert(challenges.take(k + 1)[0] == r);
        }
        assert(rounds.drop_first() =~= tail);
    }
}

/// The borrow claim after a bit is the layer's sum.
proof fn lemma_layer_claim(words: Seq<u16>, rho: Seq<F128>, i: int)
    requires
        words.len() == pow2(rho.len()),
        0 <= i < 16,
    ensures
        mle(bit_table(borrow_table(words, i + 1)), rho) == layer_sum(
            eq_list(rho),
            bit_table(word_bits(words, i)),
            bit_table(borrow_table(words, i)),
            nat_bit(M as int, i),
        ),
{
    let table = bit_table(borrow_table(words, i + 1));
    lemma_mle_is_weighted_sum(table, rho);
    let e = eq_list(rho);
    let x = bit_table(word_bits(words, i));
    let d = bit_table(borrow_table(words, i));
    let mi = nat_bit(M as int, i);
    let f = |j: int| fmul(table[j], eq_weight(rho, j));
    let g = |j: int| fmul(e[j], gate(x[j], d[j], mi));
    assert forall|j: int| 0 <= j < table.len() implies #[trigger] f(j) == g(j) by {
        lemma_gate_bits(words[j], i);
        lemma_fmul_comm(table[j], eq_weight(rho, j));
    }
    lemma_fsum_congr(f, g, table.len() as int);
}

proof fn lemma_honest_layer(
    layer: LayerProof,
    words: Seq<u16>,
    rho: Seq<F128>,
    challenges: Seq<Seq<F128>>,
    k: int,
)
    requires
        0 <= k < 16,
        challenges.len() == 16,
        words.len() == pow2(rho.len()),
        forall|j: int| 0 <= j < 16 ==> (#[trigger] challenges[j]).len() == rho.len(),
        honest_layer(layer, words, rho, challenges, k),
    ensures
        layer_outcome(
            message_list(layer.rounds@),
            layer.x_value,
            layer.d_value,
            rho.len() as int,
            mle(bit_table(borrow_table(words, 16 - k)), layer_point(rho, challenges, k)),
            layer_point(rho, challenges, k),
            nat_bit(M as int, 15 - k),
            challenges[k],
        ) == Ok::<F128, Seq<char>>(
            mle(bit_table(borrow_table(words, 15 - k)), challenges[k]),
        ),
{
    let i = 15 - k;
    let p = layer_point(rho, challenges, k);
    assert(p.len() == rho.len()) by {
        if k > 0 {
            assert(challenges[k - 1].len() == rho.len());
        }
    }
    assert(challenges[k].len() == rho.len());
    let e = eq_list(p);
    let x = bit_table(word_bits(words, i));
    let d = bit_table(borrow_table(words, i));
    let mi = nat_bit(M as int, i);
    lemma_layer_claim(words, p, i);
    lemma_layer_walk(e, x, d, mi, challenges[k]);
    assert(layer_rounds(p, word_bits(words, i), borrow_table(words, i), mi, challenges[k])
        =~= Seq::new(
        challenges[k].len(),
        |j: int|
            layer_evals(
                fold_all(e, challenges[k].take(j)),
                fold_all(x, challenges[k].take(j)),
                fold_all(d, challenges[k].take(j)),
                mi,
            ),
    ));
    lemma_eq_extension(p, challenges[k]);
}

proof fn lemma_honest_chain(
    layers: Seq<LayerProof>,
    words: Seq<u16>,
    rho: Seq<F128>,
    challenges: Seq<Seq<F128>>,
    k: int,
)
    requires
        0 <= k <= 16,
        layers.len() == 16,
        challenges.len() == 16,
        words.len() == pow2(rho.len()),
        forall|j: int| 0 <= j < 16 ==> (#[trigger] challenges[j]).len() == rho.len(),
        forall|j: int|
            0 <= j < 16 ==> honest_layer(#[trigger] layers[j], words, rho, challenges, j),
    ensures
        chain_walk(
            layers,
            k,
            rho.len() as int,
            mle(bit_table(borrow_table(words, 16 - k)), layer_point(rho, challenges, k)),
            rho,
            challenges,
        ) == Ok::<F128, Seq<char>>(
            mle(bit_table(borrow_table(words, 0)), layer_point(rho, challenges, 16)),
        ),
    decreases 16 - k,
{
    if k < 16 {
        assert(honest_layer(layers[k], words, rho, challenges, k));
        lemma_honest_layer(layers[k], words, rho, challenges, k);
        lemma_honest_chain(layers, words, rho, challenges, k + 1);
        assert(layer_point(rho, challenges, k + 1) == challenges[k]);
    }
}

/// Completeness: the verifier accepts an honest chain, the output claim is the
/// extension of the comparisons with the bound, and every input claim is the
/// extension of its word bit.
pub proof fn honest_chain_verifies(
    proof: ChainProof,
    words: Seq<u16>,
    rho: Seq<F128>,
    challenges: Seq<Seq<F128>>,
)
    requires
        rho.len() < usize::BITS,
        words.len() == pow2(rho.len()),
        challenges.len() == 16,
        forall|j: int| 0 <= j < 16 ==> (#[trigger] challenges[j]).len() == rho.len(),
        proof.output_value == mle(bit_table(borrow_table(words, 16)), rho),
        proof.layers@.len() == 16,
        forall|j: int|
            0 <= j < 16 ==> honest_layer(#[trigger] proof.layers@[j], words, rho, challenges, j),
    ensures
        chain_outcome(proof, rho.len() as int, rho, challenges) == Ok::<(), Seq<char>>(()),
        borrow_table(words, 16) == Seq::new(words.len(), |j: int| words[j] < M),
        forall|k: int|
            0 <= k < 16 ==> (#[trigger] proof.layers@[k]).x_value == mle(
                bit_table(word_bits(words, 15 - k)),
                challenges[k],
            ),
{
    lemma2_to64();
    lemma_honest_chain(proof.layers@, words, rho, challenges, 0);
    assert(challenges[15].len() == rho.len());
    lemma_no_borrow(words, challenges[15]);
    lemma_borrow_is_less(words);
}

/// The borrow after every bit is the comparison.
proof fn lemma_borrow_is_less(words: Seq<u16>)
    ensures
        borrow_table(words, 16) == Seq::new(words.len(), |j: int| words[j] < M),
{
    lemma2_to64();
    assert forall|j: int| 0 <= j < words.len() implies borrow_after(words[j], 16) == (words[j]
        < M) by {
        assert((words[j] as int) % 65_536 == words[j] as int);
        assert((M as int) % 65_536 == M as int);
    }
    assert(borrow_table(words, 16) =~= Seq::new(words.len(), |j: int| words[j] < M));
}

// ---------------------------------------------------------------------------
// Soundness.
// ---------------------------------------------------------------------------

/// The honest messages of three tables.
spec fn table_rounds(
    e: Seq<F128>,
    x: Seq<F128>,
    d: Seq<F128>,
    mi: bool,
    challenges: Seq<F128>,
) -> Seq<Seq<F128>> {
    Seq::new(
        challenges.len(),
        |k: int|
            layer_evals(
                fold_all(e, challenges.take(k)),
                fold_all(x, challenges.take(k)),
                fold_all(d, challenges.take(k)),
                mi,
            ),
    )
}

/// A walk that ends in the tables' terminal without a coincidence started from
/// their sum.
proof fn lemma_layer_walk_sound(
    e: Seq<F128>,
    x: Seq<F128>,
    d: Seq<F128>,
    mi: bool,
    rounds: Seq<Seq<F128>>,
    claim: F128,
    challenges: Seq<F128>,
)
    requires
        e.len() == pow2(challenges.len()),
        x.len() == e.len(),
        d.len() == e.len(),
        rounds.len() == challenges.len(),
        layer_walk(rounds, claim, challenges) == Some(
            fmul(mle(e, challenges), gate(mle(x, challenges), mle(d, challenges), mi)),
        ),
        coincidence_free(rounds, table_rounds(e, x, d, mi, challenges), challenges),
    ensures
        claim == layer_sum(e, x, d, mi),
    decreases challenges.len(),
{
    lemma_layer_walk(e, x, d, mi, challenges);
    let honest = table_rounds(e, x, d, mi, challenges);
    if challenges.len() > 0 {
        let n = challenges.len();
        let r = challenges[0];
        let rest = challenges.drop_first();
        lemma_pow2_unfold(n);
        let (e1, x1, d1) = (fold_table(e, r), fold_table(x, r), fold_table(d, r));
        assert(challenges.take(0) =~= Seq::<F128>::empty());
        assert(honest[0] == layer_evals(e, x, d, mi));
        lemma_layer_round(e, x, d, mi, n, r);
        lemma_layer_interpolates(e, x, d, mi, r);
        let tail = table_rounds(e1, x1, d1, mi, rest);
        assert forall|k: int| 0 <= k < rest.len() implies !(#[trigger] coincides(
            rounds.drop_first(),
            tail,
            rest,
            k,
        )) by {
            assert(challenges.take(k + 1).drop_first() =~= rest.take(k));
            assert(challenges.take(k + 1)[0] == r);
            assert(tail[k] == honest[k + 1]);
            assert(!coincides(rounds, honest, challenges, k + 1));
        }
        lemma_layer_walk_sound(
            e1,
            x1,
            d1,
            mi,
            rounds.drop_first(),
            lagrange(rounds[0], r),
            rest,
        );
        assert(!coincides(rounds, honest, challenges, 0));
        assert(rounds[0] == layer_evals(e, x, d, mi));
    }
}

/// No message of layer `k` coincides with the honest one.
pub open spec fn layer_coincidence_free(
    layer: LayerProof,
    words: Seq<u16>,
    rho: Seq<F128>,
    challenges: Seq<Seq<F128>>,
    k: int,
) -> bool {
    coincidence_free(
        message_list(layer.rounds@),
        layer_rounds(
            layer_point(rho, challenges, k),
            word_bits(words, 15 - k),
            borrow_table(words, 15 - k),
            nat_bit(M as int, 15 - k),
            challenges[k],
        ),
        challenges[k],
    )
}

/// The claim on which the layers from `k` on are accepted is the borrow's.
proof fn lemma_chain_sound(
    layers: Seq<LayerProof>,
    words: Seq<u16>,
    rho: Seq<F128>,
    challenges: Seq<Seq<F128>>,
    k: int,
    claim: F128,
)
    requires
        0 <= k <= 16,
        layers.len() == 16,
        challenges.len() == 16,
        words.len() == pow2(rho.len()),
        forall|j: int| 0 <= j < 16 ==> (#[trigger] challenges[j]).len() == rho.len(),
        forall|j: int|
            0 <= j < 16 ==> (#[trigger] layers[j]).x_value == mle(
                bit_table(word_bits(words, 15 - j)),
                challenges[j],
            ),
        forall|j: int|
            0 <= j < 16 ==> layer_coincidence_free(
                #[trigger] layers[j],
                words,
                rho,
                challenges,
                j,
            ),
        chain_walk(layers, k, rho.len() as int, claim, rho, challenges) == Ok::<F128, Seq<char>>(
            fzero(),
        ),
    ensures
        claim == mle(bit_table(borrow_table(words, 16 - k)), layer_point(rho, challenges, k)),
    decreases 16 - k,
{
    if k == 16 {
        lemma_no_borrow(words, challenges[15]);
    } else {
        let layer = layers[k];
        let i = 15 - k;
        let p = layer_point(rho, challenges, k);
        let c = challenges[k];
        assert(p.len() == rho.len()) by {
            if k > 0 {
                assert(challenges[k - 1].len() == rho.len());
            }
        }
        assert(c.len() == rho.len());
        lemma_chain_sound(layers, words, rho, challenges, k + 1, layer.d_value);
        assert(layer_point(rho, challenges, k + 1) == c);
        let e = eq_list(p);
        let x = bit_table(word_bits(words, i));
        let d = bit_table(borrow_table(words, i));
        let mi = nat_bit(M as int, i);
        lemma_layer_claim(words, p, i);
        lemma_eq_extension(p, c);
        assert(layer_coincidence_free(layers[k], words, rho, challenges, k));
        assert(layer_rounds(p, word_bits(words, i), borrow_table(words, i), mi, c) =~= table_rounds(
            e,
            x,
            d,
            mi,
            c,
        ));
        lemma_layer_walk_sound(e, x, d, mi, message_list(layer.rounds@), claim, c);
    }
}

/// Before the first bit there is no borrow.
proof fn lemma_no_borrow(words: Seq<u16>, p: Seq<F128>)
    requires
        words.len() == pow2(p.len()),
    ensures
        mle(bit_table(borrow_table(words, 0)), p) == fzero(),
{
    lemma2_to64();
    let none = bit_table(borrow_table(words, 0));
    assert(none =~= Seq::new(pow2(p.len()), |i: int| fzero())) by {
        assert forall|j: int| 0 <= j < words.len() implies none[j] == fzero() by {
            assert((words[j] as int) % 1 == 0 && (M as int) % 1 == 0);
        }
    }
    crate::mle::lemma_mle_constant(fzero(), p);
}

/// Soundness: where the verifier accepts, the input claims are true of the
/// words and no message coincides with the honest one, the output claim is the
/// extension of the comparisons with the bound.
pub proof fn accepted_chains_are_true(
    proof: ChainProof,
    words: Seq<u16>,
    rho: Seq<F128>,
    challenges: Seq<Seq<F128>>,
)
    requires
        words.len() == pow2(rho.len()),
        challenges.len() == 16,
        forall|j: int| 0 <= j < 16 ==> (#[trigger] challenges[j]).len() == rho.len(),
        chain_outcome(proof, rho.len() as int, rho, challenges) == Ok::<(), Seq<char>>(()),
        forall|j: int|
            0 <= j < 16 ==> (#[trigger] proof.layers@[j]).x_value == mle(
                bit_table(word_bits(words, 15 - j)),
                challenges[j],
            ),
        forall|j: int|
            0 <= j < 16 ==> layer_coincidence_free(
                #[trigger] proof.layers@[j],
                words,
                rho,
                challenges,
                j,
            ),
    ensures
        proof.output_value == mle(
            bit_table(Seq::new(words.len(), |j: int| words[j] < M)),
            rho,
        ),
{
    lemma_chain_sound(proof.layers@, words, rho, challenges, 0, proof.output_value);
    lemma_borrow_is_less(words);
}

/// An honest chain leaves true claims: each of the sixteen is the extension of
/// the word bit that it names, at its own point, every bit is named once, and
/// the output claim is the extension of the comparisons with the bound.
pub proof fn honest_chains_leave_true_claims(
    claims: ChainClaims,
    proof: ChainProof,
    words: Seq<u16>,
    rho: Seq<F128>,
    challenges: Seq<Seq<F128>>,
    k: int,
)
    requires
        rho.len() < usize::BITS,
        words.len() == pow2(rho.len()),
        challenges.len() == 16,
        forall|j: int| 0 <= j < 16 ==> (#[trigger] challenges[j]).len() == rho.len(),
        proof.output_value == mle(bit_table(borrow_table(words, 16)), rho),
        proof.layers@.len() == 16,
        forall|j: int|
            0 <= j < 16 ==> honest_layer(#[trigger] proof.layers@[j], words, rho, challenges, j),
        leaves_claims(claims, proof, rho, challenges),
        0 <= k < 16,
    ensures
        claims.inputs@[k].value == mle(
            bit_table(word_bits(words, claims.inputs@[k].bit as int)),
            claims.inputs@[k].point@,
        ),
        claims.inputs@[15 - k].bit == k,
        claims.output_value == mle(
            bit_table(Seq::new(words.len(), |j: int| words[j] < M)),
            claims.output_point@,
        ),
{
    honest_chain_verifies(proof, words, rho, challenges);
    assert(claims.inputs@[k].bit == 15 - k);
    assert(claims.inputs@[15 - k].bit == k);
    assert(proof.layers@[k].x_value == mle(
        bit_table(word_bits(words, 15 - k)),
        challenges[k],
    ));
}

} // verus!
