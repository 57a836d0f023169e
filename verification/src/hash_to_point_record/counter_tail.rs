//! The later compact rounds of the record scatter.
//!
//! After `k` record coordinates are bound, a counter factor at a position
//! depends on the bit's value in `2^k` rows. These bits make a code, and a
//! table of `2^(2^k)` entries gives the factor. Binding a coordinate joins the
//! codes of a pair.
use vstd::arithmetic::power2::{
    lemma2_to64, lemma_pow2_adds, lemma_pow2_pos, lemma_pow2_strictly_increases, lemma_pow2_unfold,
    pow2,
};
use vstd::prelude::*;
use vstd::slice::slice_subrange;

use crate::field::{
    fadd, fmul, fone, fselect, fzero, lemma_fadd_assoc, lemma_fadd_self, lemma_fadd_swap,
    lemma_fadd_zero, lemma_fmul_assoc, lemma_fmul_comm, lemma_fmul_distr, lemma_fmul_one,
    lemma_fmul_zero, F128,
};
use crate::hash_to_point_record::compact_scatter::{
    accumulate, core_term, lemma_round_by_records, lemma_zero_gate, pair_at, record_sum,
    weight_steps, Factors,
};
use crate::hash_to_point_record::counter_prefix::counter_entry;
use crate::hash_to_point_scatter::polynomial_product::{add_at, lemma_pair, product13, zeros};
use crate::hash_to_point_scatter::{
    bind_factors, honest_rounds, lemma_fold_factors_concat, prove_remaining,
};
use crate::hash_to_point_slots::relation::{lemma_shift_bit, nat_bit};
use crate::hash_to_point_slots::{COUNTER_BITS, PLANE, SLOTS, SLOT_VARS};
use crate::lookup::{subset_sum, subset_sums};
use crate::mle::{bit_element, fold_all, fold_in_place, fold_table, lemma_lerp, lerp};
use crate::polynomial::horner;
use crate::sumcheck::{
    fold_factors, lemma_round_binds, lemma_round_sums, node, product_sum, round_evals, round_value,
    shaped, tables, ScatterProof,
};
use crate::sums::{
    fprod, fsum, lemma_fprod_congr, lemma_fprod_split, lemma_fsum_congr, lemma_fsum_scale,
    lemma_fsum_split,
};

verus! {

/// The weights of a point's corners; the first coordinate binds the least
/// significant bit of the corner.
pub open spec fn corner_weights(point: Seq<F128>) -> Seq<F128>
    decreases point.len(),
{
    if point.len() == 0 {
        seq![fone()]
    } else {
        next_weights(corner_weights(point.drop_last()), point.last())
    }
}

/// The weights with one more coordinate.
pub open spec fn next_weights(weights: Seq<F128>, r: F128) -> Seq<F128> {
    Seq::new(weights.len(), |j: int| fmul(weights[j], fadd(fone(), r))) + Seq::new(
        weights.len(),
        |j: int| fmul(weights[j], r),
    )
}

/// The counter factor of a code: `1 + (1 + beta) * sum of the weights of its
/// corners`.
pub open spec fn code_entry(beta: F128, weights: Seq<F128>, code: int) -> F128 {
    fadd(fone(), subset_sum(scaled_weights(beta, weights), code))
}

/// The weights times `1 + beta`.
pub open spec fn scaled_weights(beta: F128, weights: Seq<F128>) -> Seq<F128> {
    Seq::new(weights.len(), |j: int| fmul(fadd(fone(), beta), weights[j]))
}

pub proof fn lemma_corner_len(point: Seq<F128>)
    ensures
        corner_weights(point).len() == pow2(point.len()),
    decreases point.len(),
{
    lemma2_to64();
    if point.len() > 0 {
        lemma_corner_len(point.drop_last());
        lemma_pow2_unfold(point.len());
    }
}

/// The bits of two numbers joined at bit `m`.
proof fn lemma_bit_join(low: int, high: int, m: nat, j: int)
    requires
        0 <= low < pow2(m),
        0 <= high,
        0 <= j,
    ensures
        nat_bit(low + high * pow2(m), j) == (if j < m {
            nat_bit(low, j)
        } else {
            nat_bit(high, j - m)
        }),
{
    let p = pow2(j as nat) as int;
    lemma_pow2_pos(j as nat);
    lemma_pow2_pos(m);
    let n = pow2(m) as int;
    if j < m {
        let k = pow2((m - j) as nat) as int;
        lemma_pow2_adds(j as nat, (m - j) as nat);
        lemma_pow2_unfold((m - j) as nat);
        let half = pow2((m - j - 1) as nat) as int;
        let q = high * k;
        assert(high * n == q * p) by (nonlinear_arith)
            requires
                n == p * k,
                q == high * k,
        ;
        vstd::arithmetic::div_mod::lemma_hoist_over_denominator(low, q, p as nat);
        assert((low + high * n) / p == low / p + q);
        assert(q == 2 * (high * half)) by (nonlinear_arith)
            requires
                q == high * k,
                k == 2 * half,
        ;
        let e = high * half;
        assert((low / p + 2 * e) % 2 == (low / p) % 2);
    } else {
        let k = pow2((j - m) as nat) as int;
        lemma_pow2_adds(m, (j - m) as nat);
        lemma_pow2_pos((j - m) as nat);
        let v = low + high * n;
        assert(v >= 0) by (nonlinear_arith)
            requires
                v == low + high * n,
                low >= 0,
                high >= 0,
                n > 0,
        ;
        vstd::arithmetic::div_mod::lemma_div_denominator(v, n, k);
        assert(high * n == n * high) by (nonlinear_arith);
        vstd::arithmetic::div_mod::lemma_fundamental_div_mod_converse(v, n, high, low);
    }
}

/// `lerp(1 + a, 1 + b, r) = 1 + ((1 + r) a + r b)`.
proof fn lemma_lerp_affine(a: F128, b: F128, r: F128)
    ensures
        lerp(fadd(fone(), a), fadd(fone(), b), r) == fadd(
            fone(),
            fadd(fmul(fadd(fone(), r), a), fmul(r, b)),
        ),
{
    lemma_lerp(a, b, r);
    lemma_fadd_swap(fone(), a, fone(), b);
    lemma_fadd_self(fone());
    lemma_fadd_zero(fadd(a, b));
    lemma_fadd_assoc(fone(), a, fmul(r, fadd(a, b)));
}

/// Binding a coordinate joins the codes.
pub proof fn lemma_code_step(beta: F128, weights: Seq<F128>, low: int, high: int, r: F128)
    requires
        0 <= low < pow2(weights.len()),
        0 <= high < pow2(weights.len()),
    ensures
        lerp(code_entry(beta, weights, low), code_entry(beta, weights, high), r) == code_entry(
            beta,
            next_weights(weights, r),
            low + high * pow2(weights.len()),
        ),
{
    let m = weights.len() as int;
    let s = scaled_weights(beta, weights);
    let next = next_weights(weights, r);
    let t = scaled_weights(beta, next);
    let code = low + high * pow2(weights.len());
    lemma_lerp_affine(subset_sum(s, low), subset_sum(s, high), r);
    let f = |j: int| fselect(nat_bit(code, j), t[j]);
    lemma_fsum_split(f, m, m);
    let a = |j: int| fselect(nat_bit(low, j), s[j]);
    let b = |j: int| fselect(nat_bit(high, j), s[j]);
    let fa = |j: int| fmul(fadd(fone(), r), a(j));
    let fb = |j: int| fmul(r, b(j));
    let k = fadd(fone(), beta);
    assert forall|j: int| 0 <= j < m implies #[trigger] f(j) == fa(j) by {
        lemma_bit_join(low, high, weights.len(), j);
        let w = weights[j];
        let x = fadd(fone(), r);
        lemma_fmul_comm(w, x);
        lemma_fmul_assoc(k, x, w);
        lemma_fmul_comm(k, x);
        lemma_fmul_assoc(x, k, w);
        lemma_fmul_zero(x);
    }
    let upper = |j: int| f(m + j);
    assert forall|j: int| 0 <= j < m implies #[trigger] upper(j) == fb(j) by {
        lemma_bit_join(low, high, weights.len(), m + j);
        let w = weights[j];
        lemma_fmul_comm(w, r);
        lemma_fmul_assoc(k, r, w);
        lemma_fmul_comm(k, r);
        lemma_fmul_assoc(r, k, w);
        lemma_fmul_zero(r);
    }
    lemma_fsum_congr(f, fa, m);
    lemma_fsum_congr(upper, |i: int| f(m + i), m);
    lemma_fsum_congr(upper, fb, m);
    lemma_fsum_scale(fadd(fone(), r), a, m);
    lemma_fsum_scale(r, b, m);
}

/// A bit is the code of its single row.
pub proof fn lemma_code_start(beta: F128, set: bool)
    ensures
        counter_entry(set, beta) == code_entry(beta, seq![fone()], if set {
            1
        } else {
            0
        }),
{
    lemma2_to64();
    let w = scaled_weights(beta, seq![fone()]);
    reveal_with_fuel(fsum, 2);
    let k = fadd(fone(), beta);
    lemma_fmul_one(k);
    lemma_fadd_zero(k);
    lemma_fadd_zero(fzero());
    lemma_fadd_zero(fone());
    lemma_fadd_assoc(fone(), fone(), beta);
    lemma_fadd_self(fone());
    lemma_fadd_zero(beta);
    assert(pow2(0) == 1);
    assert(1int / 1 == 1 && 0int / 1 == 0);
    assert(nat_bit(1, 0) && !nat_bit(0, 0));
}

/// The weights of a point's corners.
fn corners(point: &[F128]) -> (weights: Vec<F128>)
    requires
        point@.len() <= 4,
    ensures
        weights@ == corner_weights(point@),
        weights@.len() == pow2(point@.len()),
{
    let mut weights: Vec<F128> = Vec::new();
    weights.push(F128::one());
    let mut k: usize = 0;
    proof {
        lemma2_to64();
        assert(point@.take(0) =~= Seq::<F128>::empty());
        assert(weights@ =~= corner_weights(point@.take(0)));
    }
    while k < point.len()
        invariant
            point@.len() <= 4,
            k <= point@.len(),
            weights@ == corner_weights(point@.take(k as int)),
            weights@.len() == pow2(k as nat),
        decreases point@.len() - k,
    {
        let r = point[k];
        let size: usize = weights.len();
        let mut low: Vec<F128> = Vec::new();
        let mut high: Vec<F128> = Vec::new();
        let mut j: usize = 0;
        while j < size
            invariant
                j <= size,
                size == weights@.len(),
                low@.len() == j,
                high@.len() == j,
                forall|i: int|
                    0 <= i < j ==> #[trigger] low@[i] == fmul(weights@[i], fadd(fone(), r)),
                forall|i: int| 0 <= i < j ==> #[trigger] high@[i] == fmul(weights@[i], r),
            decreases size - j,
        {
            let w = weights[j];
            let up = w * r;
            proof {
                lemma_fmul_distr(w, fone(), r);
                lemma_fmul_one(w);
                lemma_fmul_comm(w, fone());
            }
            low.push(w + up);
            high.push(up);
            j = j + 1;
        }
        let ghost lows = low@;
        let ghost highs = high@;
        low.append(&mut high);
        proof {
            assert(low@ =~= next_weights(weights@, r));
            assert(point@.take(k + 1).drop_last() =~= point@.take(k as int));
            assert(point@.take(k + 1).last() == r);
            lemma_pow2_unfold((k + 1) as nat);
        }
        weights = low;
        k = k + 1;
    }
    assert(point@.take(k as int) =~= point@);
    weights
}

impl Factors {
    /// The counter factors of every code after the coordinates are bound.
    pub fn counter_luts(&self, point: &[F128]) -> (luts: Vec<Vec<F128>>)
        requires
            self.well_formed(),
            point@.len() <= 4,
        ensures
            luts@.len() == COUNTER_BITS,
            forall|b: int|
                0 <= b < COUNTER_BITS ==> (#[trigger] luts@[b])@ == Seq::new(
                    pow2(pow2(point@.len())),
                    |code: int| code_entry(self.beta@[b], corner_weights(point@), code),
                ),
    {
        let weights = corners(point);
        proof {
            lemma_code_widths();
        }
        let mut luts: Vec<Vec<F128>> = Vec::new();
        let mut b: usize = 0;
        while b < COUNTER_BITS
            invariant
                self.well_formed(),
                point@.len() <= 4,
                weights@ == corner_weights(point@),
                weights@.len() == pow2(point@.len()),
                pow2(pow2(point@.len())) <= 65_536,
                b <= COUNTER_BITS,
                luts@.len() == b,
                forall|c: int|
                    0 <= c < b ==> (#[trigger] luts@[c])@ == Seq::new(
                        pow2(pow2(point@.len())),
                        |code: int| code_entry(self.beta@[c], corner_weights(point@), code),
                    ),
            decreases COUNTER_BITS - b,
        {
            let k = F128::one() + self.beta[b];
            let mut scaled: Vec<F128> = Vec::new();
            let mut j: usize = 0;
            while j < weights.len()
                invariant
                    j <= weights@.len(),
                    scaled@.len() == j,
                    forall|i: int| 0 <= i < j ==> #[trigger] scaled@[i] == fmul(k, weights@[i]),
                decreases weights@.len() - j,
            {
                scaled.push(k * weights[j]);
                j = j + 1;
            }
            let ghost beta = self.beta@[b as int];
            assert(scaled@ =~= scaled_weights(beta, weights@));
            let table = subset_sums(F128::one(), scaled.as_slice());
            assert(table@ =~= Seq::new(
                pow2(pow2(point@.len())),
                |code: int| code_entry(beta, corner_weights(point@), code),
            ));
            luts.push(table);
            b = b + 1;
        }
        luts
    }
}

proof fn lemma_code_widths()
    ensures
        pow2(pow2(0)) == 2,
        pow2(pow2(1)) == 4,
        pow2(pow2(2)) == 16,
        pow2(pow2(3)) == 256,
        pow2(pow2(4)) == 65_536,
{
    lemma2_to64();
}

/// The rows folded at a few record coordinates.
pub struct Folded {
    pub gates: Vec<F128>,
    pub values: Vec<F128>,
    pub codes: Vec<Vec<u16>>,
    pub prefix: F128,
}

impl Factors {
    /// The codes give the counter tables.
    pub open spec fn counters_are(
        self,
        current: Seq<Seq<F128>>,
        codes: Seq<Vec<u16>>,
        weights: Seq<F128>,
    ) -> bool {
        &&& codes.len() == COUNTER_BITS
        &&& forall|b: int|
            0 <= b < COUNTER_BITS ==> (#[trigger] codes[b])@.len() == current[2 + b].len()
        &&& forall|b: int, i: int|
            #![trigger codes[b]@[i]]
            0 <= b < COUNTER_BITS && 0 <= i < current[2 + b].len() ==> codes[b]@[i] < pow2(
                weights.len(),
            ) && current[2 + b][i] == code_entry(self.beta@[b], weights, codes[b]@[i] as int)
    }

    /// The folded state stands for the current tables, with `left + 1` record
    /// coordinates unbound.
    pub open spec fn folded_as(
        self,
        state: Folded,
        current: Seq<Seq<F128>>,
        weights: Seq<F128>,
        left: int,
    ) -> bool {
        &&& current.len() == 13
        &&& 0 <= left < self.record_vars
        &&& forall|f: int|
            0 <= f < 13 ==> (#[trigger] current[f]).len() == 2 * (pow2(left as nat) * PLANE)
        &&& state.gates@ == current[0]
        &&& state.values@ == current[12]
        &&& self.weights_are(current[1], state.prefix)
        &&& self.counters_are(current, state.codes@, weights)
        &&& forall|i: int|
            0 <= i < current[0].len() && i % (PLANE as int) >= SLOTS ==> #[trigger] current[0][i]
                == fzero()
    }

    /// The affine factors of one slot pair, without the record weight.
    fn pair_factors(
        &self,
        state: &Folded,
        luts: &Vec<Vec<F128>>,
        i: usize,
        half: usize,
        current: Ghost<Seq<Seq<F128>>>,
        weights: Ghost<Seq<F128>>,
        left: Ghost<int>,
    ) -> (affine: Vec<[F128; 2]>)
        requires
            self.well_formed(),
            self.folded_as(*state, current@, weights@, left@),
            weights@.len() <= 16,
            luts@.len() == COUNTER_BITS,
            forall|b: int|
                0 <= b < COUNTER_BITS ==> (#[trigger] luts@[b])@ == Seq::new(
                    pow2(weights@.len()),
                    |code: int| code_entry(self.beta@[b], weights@, code),
                ),
            half == pow2(left@ as nat) * PLANE,
            i < half,
        ensures
            affine@.len() == 13,
            forall|r: F128|
                #![trigger core_term(current@, i as int, r)]
                core_term(current@, i as int, r) == fprod(
                    |k: int| horner(affine@[0 + k]@, r),
                    13,
                ),
    {
        let ghost cur = current@;
        let total: usize = state.gates.len();
        let mut affine: Vec<[F128; 2]> = Vec::new();
        proof {
            assert(cur[0].len() == 2 * half && cur[12].len() == 2 * half);
        }
        let g0 = state.gates[i];
        let g1 = state.gates[half + i];
        affine.push([g0, g0 + g1]);
        let mut b: usize = 0;
        while b < COUNTER_BITS
            invariant
                self.well_formed(),
                self.folded_as(*state, cur, weights@, left@),
                luts@.len() == COUNTER_BITS,
                forall|b: int|
                    0 <= b < COUNTER_BITS ==> (#[trigger] luts@[b])@ == Seq::new(
                        pow2(weights@.len()),
                        |code: int| code_entry(self.beta@[b], weights@, code),
                    ),
                half == pow2(left@ as nat) * PLANE,
                total == 2 * half,
                i < half,
                b <= COUNTER_BITS,
                affine@.len() == 1 + b,
                affine@[0]@[0] == cur[0][i as int],
                affine@[0]@[1] == fadd(cur[0][i as int], cur[0][half + i]),
                forall|k: int|
                    0 <= k < b ==> (#[trigger] affine@[1 + k])@[0] == cur[2 + k][i as int]
                        && affine@[1 + k]@[1] == fadd(cur[2 + k][i as int], cur[2 + k][half + i]),
            decreases COUNTER_BITS - b,
        {
            assert(state.codes@[b as int]@.len() == cur[2 + b].len());
            assert(cur[2 + b].len() == 2 * half);
            assert(luts@[b as int]@.len() == pow2(weights@.len()));
            let low: usize = state.codes[b][i] as usize;
            let high: usize = state.codes[b][half + i] as usize;
            assert(state.codes@[b as int]@[i as int] < pow2(weights@.len()));
            assert(state.codes@[b as int]@[half + i] < pow2(weights@.len()));
            let a = luts[b][low];
            let z = luts[b][high];
            let ghost before = affine@;
            affine.push([a, a + z]);
            proof {
                assert forall|k: int| 0 <= k < b + 1 implies (#[trigger] affine@[1 + k])@[0]
                    == cur[2 + k][i as int] && affine@[1 + k]@[1] == fadd(
                    cur[2 + k][i as int],
                    cur[2 + k][half + i],
                ) by {
                    if k < b {
                        assert(affine@[1 + k] == before[1 + k]);
                    }
                }
            }
            b = b + 1;
        }
        let v0 = state.values[i];
        let v1 = state.values[half + i];
        affine.push([v0, v0 + v1]);
        affine.push([F128::one(), F128::zero()]);
        proof {
            assert forall|r: F128|
                #![trigger core_term(cur, i as int, r)]
                core_term(cur, i as int, r) == fprod(|k: int| horner(affine@[0 + k]@, r), 13) by {
                let f = |k: int| horner(affine@[0 + k]@, r);
                let counters = |b: int| pair_at(cur, 2 + b, i as int, r);
                assert(cur[0].len() / 2 == half);
                lemma_pair(affine@[0], r);
                assert(f(0) == pair_at(cur, 0, i as int, r));
                assert forall|k: int| 0 <= k < 10 implies #[trigger] counters(k) == f(1 + k) by {
                    lemma_pair(affine@[1 + k], r);
                    assert(affine@[1 + k]@[0] == cur[2 + k][i as int]);
                }
                lemma_fprod_split(f, 1, 10);
                lemma_fprod_congr(counters, |k: int| f(1 + k), 10);
                lemma_pair(affine@[11], r);
                assert(f(11) == pair_at(cur, 12, i as int, r));
                lemma_pair(affine@[12], r);
                lemma_fmul_zero(r);
                lemma_fadd_zero(fone());
                assert(f(12) == fone());
                assert(fprod(f, 13) == fmul(fprod(f, 12), f(12)));
                assert(fprod(f, 12) == fmul(fprod(f, 11), f(11)));
                lemma_fmul_one(fprod(f, 12));
                reveal_with_fuel(fprod, 2);
                lemma_fmul_one(f(0));
            }
        }
        affine
    }

    /// One round message from the folded state.
    fn compact_round(
        &self,
        state: &Folded,
        luts: &Vec<Vec<F128>>,
        left: usize,
        current: Ghost<Seq<Seq<F128>>>,
        weights: Ghost<Seq<F128>>,
    ) -> (evals: Vec<F128>)
        requires
            self.well_formed(),
            self.folded_as(*state, current@, weights@, left as int),
            weights@.len() <= 16,
            luts@.len() == COUNTER_BITS,
            forall|b: int|
                0 <= b < COUNTER_BITS ==> (#[trigger] luts@[b])@ == Seq::new(
                    pow2(weights@.len()),
                    |code: int| code_entry(self.beta@[b], weights@, code),
                ),
        ensures
            evals@ == round_evals(current@),
    {
        let ghost cur = current@;
        let total: usize = state.gates.len();
        let half: usize = total / 2;
        proof {
            assert(cur[0].len() == 2 * (pow2(left as nat) * PLANE));
            lemma_pow2_strictly_increases(left as nat, self.record_vars as nat);
        }
        let records: usize = half / PLANE;
        assert(records == pow2(left as nat));
        let steps = weight_steps(state.prefix, self.delta_powers[left]);
        let mut evals = zeros(14);
        let mut record: usize = 0;
        while record < records
            invariant
                self.well_formed(),
                self.folded_as(*state, cur, weights@, left as int),
                cur == current@,
                weights@.len() <= 16,
                luts@.len() == COUNTER_BITS,
                forall|b: int|
                    0 <= b < COUNTER_BITS ==> (#[trigger] luts@[b])@ == Seq::new(
                        pow2(weights@.len()),
                        |code: int| code_entry(self.beta@[b], weights@, code),
                    ),
                total == state.gates@.len(),
                total == 2 * half,
                half == records * PLANE,
                records == pow2(left as nat),
                records <= self.delta@.len(),
                record <= records,
                evals@.len() == 14,
                steps@.len() == 14,
                forall|t: int|
                    0 <= t < 14 ==> #[trigger] evals@[t] == fsum(
                        |k: int|
                            fmul(
                                record_sum(cur, k, node(t)),
                                fmul(self.delta@[k], steps@[t]),
                            ),
                        record as int,
                    ),
            decreases records - record,
        {
            let mut coefficients = zeros(14);
            let mut slot: usize = 0;
            proof {
                assert(record * PLANE + PLANE <= half) by (nonlinear_arith)
                    requires
                        record < records,
                        half == records * PLANE,
                ;
                assert(cur[0].len() / 2 == half);
            }
            while slot < SLOTS
                invariant
                    self.well_formed(),
                    self.folded_as(*state, cur, weights@, left as int),
                    cur == current@,
                    cur[0].len() / 2 == half,
                    weights@.len() <= 16,
                    luts@.len() == COUNTER_BITS,
                    forall|b: int|
                        0 <= b < COUNTER_BITS ==> (#[trigger] luts@[b])@ == Seq::new(
                            pow2(weights@.len()),
                            |code: int| code_entry(self.beta@[b], weights@, code),
                        ),
                    total == state.gates@.len(),
                    total == 2 * half,
                    half == pow2(left as nat) * PLANE,
                    record * PLANE + PLANE <= half,
                    slot <= SLOTS,
                    coefficients@.len() == 14,
                    forall|r: F128| #[trigger]
                        horner(coefficients@, r) == fsum(
                            |s: int| core_term(cur, record * PLANE + s, r),
                            slot as int,
                        ),
                decreases SLOTS - slot,
            {
                let i: usize = record * PLANE + slot;
                let ghost before = coefficients@;
                if state.gates[i] == F128::zero() && state.gates[half + i] == F128::zero() {
                    proof {
                        assert forall|r: F128| #[trigger] horner(coefficients@, r) == fsum(
                            |s: int| core_term(cur, record * PLANE + s, r),
                            slot + 1,
                        ) by {
                            lemma_zero_gate(cur, i as int, r);
                            lemma_fadd_zero(horner(before, r));
                        }
                    }
                } else {
                    let affine = self.pair_factors(
                        state,
                        luts,
                        i,
                        half,
                        Ghost(cur),
                        weights,
                        Ghost(left as int),
                    );
                    let product = product13(&affine);
                    add_at(&mut coefficients, product.as_slice(), 0);
                    proof {
                        assert forall|r: F128| #[trigger] horner(coefficients@, r) == fsum(
                            |s: int| core_term(cur, record * PLANE + s, r),
                            slot + 1,
                        ) by {
                            assert(core_term(cur, i as int, r) == horner(product@, r));
                            lemma_fmul_one(horner(product@, r));
                            assert(horner(before, r) == fsum(
                                |s: int| core_term(cur, record * PLANE + s, r),
                                slot as int,
                            ));
                        }
                    }
                }
                slot = slot + 1;
            }
            let ghost before = evals@;
            accumulate(&mut evals, &coefficients, self.delta[record], &steps);
            proof {
                assert forall|t: int| 0 <= t < 14 implies #[trigger] evals@[t] == fsum(
                    |k: int|
                        fmul(record_sum(cur, k, node(t)), fmul(self.delta@[k], steps@[t])),
                    record + 1,
                ) by {
                    let s = record_sum(cur, record as int, node(t));
                    assert(horner(coefficients@, node(t)) == s);
                    lemma_fmul_assoc(s, self.delta@[record as int], steps@[t]);
                    assert(before[t] == fsum(
                        |k: int|
                            fmul(record_sum(cur, k, node(t)), fmul(self.delta@[k], steps@[t])),
                        record as int,
                    ));
                }
            }
            record = record + 1;
        }
        proof {
            assert forall|t: int| 0 <= t < 14 implies #[trigger] evals@[t] == round_value(
                cur,
                node(t),
            ) by {
                let r = node(t);
                let weight = |k: int| fmul(self.delta@[k], steps@[t]);
                assert forall|i: int| 0 <= i < records * PLANE implies #[trigger] pair_at(
                    cur,
                    1,
                    i,
                    r,
                ) == weight(i / PLANE as int) by {
                    assert(cur[1].len() == cur[0].len());
                    self.lemma_weight_pair(cur[1], state.prefix, left as int, i, r);
                }
                assert forall|i: int|
                    0 <= i < records * PLANE && i % (PLANE as int) >= SLOTS implies #[trigger] pair_at(
                    cur,
                    0,
                    i,
                    r,
                ) == fzero() by {
                    assert((half + i) % (PLANE as int) == i % (PLANE as int));
                    assert(cur[0][i] == fzero());
                    assert(cur[0][half + i] == fzero());
                    lemma_zero_gate(cur, i, r);
                }
                lemma_round_by_records(cur, records as int, r, weight);
                lemma_fsum_congr(
                    |k: int| fmul(record_sum(cur, k, r), fmul(self.delta@[k], steps@[t])),
                    |k: int| fmul(record_sum(cur, k, r), weight(k)),
                    records as int,
                );
            }
            assert(evals@ =~= round_evals(cur));
        }
        evals
    }

    /// Binding a coordinate keeps the padded gates at zero and the record
    /// weights geometric.
    pub proof fn lemma_bind(
        self,
        current: Seq<Seq<F128>>,
        prefix: F128,
        left: int,
        r: F128,
    )
        requires
            self.well_formed(),
            current.len() == 13,
            1 <= left < self.record_vars,
            forall|f: int|
                0 <= f < 13 ==> (#[trigger] current[f]).len() == 2 * (pow2(left as nat) * PLANE),
            self.weights_are(current[1], prefix),
            forall|i: int|
                0 <= i < current[0].len() && i % (PLANE as int) >= SLOTS
                    ==> #[trigger] current[0][i] == fzero(),
        ensures
            ({
                let next = fold_factors(current, seq![r]);
                &&& next.len() == 13
                &&& forall|f: int|
                    0 <= f < 13 ==> (#[trigger] next[f]).len() == 2 * (pow2((left - 1) as nat)
                        * PLANE)
                &&& forall|f: int| 0 <= f < 13 ==> #[trigger] next[f] == fold_table(current[f], r)
                &&& self.weights_are(
                    next[1],
                    fmul(prefix, lerp(fone(), self.delta_powers@[left], r)),
                )
                &&& forall|i: int|
                    0 <= i < next[0].len() && i % (PLANE as int) >= SLOTS
                        ==> #[trigger] next[0][i] == fzero()
            }),
    {
        let next = fold_factors(current, seq![r]);
        let half = pow2(left as nat) * PLANE;
        lemma_pow2_unfold(left as nat);
        assert forall|f: int| 0 <= f < 13 implies #[trigger] next[f] == fold_table(current[f], r) by {
            reveal_with_fuel(fold_all, 2);
            assert(seq![r].drop_first() =~= Seq::<F128>::empty());
        }
        assert forall|f: int| 0 <= f < 13 implies (#[trigger] next[f]).len() == 2 * (pow2(
            (left - 1) as nat,
        ) * PLANE) by {
            assert(current[f].len() == 2 * half);
        }
        let step = fmul(prefix, lerp(fone(), self.delta_powers@[left], r));
        assert(current[1].len() == 2 * half && current[0].len() == 2 * half);
        assert forall|i: int| 0 <= i < next[1].len() implies #[trigger] next[1][i] == fmul(
            step,
            self.delta@[i / PLANE as int],
        ) by {
            self.lemma_weight_pair(current[1], prefix, left, i, r);
            lemma_fmul_comm(self.delta@[i / PLANE as int], step);
        }
        assert forall|i: int|
            0 <= i < next[0].len() && i % (PLANE as int) >= SLOTS implies #[trigger] next[0][i]
            == fzero() by {
            assert((half + i) % (PLANE as int) == i % (PLANE as int));
            assert(current[0][i] == fzero());
            assert(current[0][half + i] == fzero());
            lemma_fadd_zero(fzero());
            lemma_fmul_zero(r);
        }
    }

    /// Bind a record coordinate of the folded state.
    fn bind(
        &self,
        state: Folded,
        left: usize,
        shift: u32,
        r: F128,
        current: Ghost<Seq<Seq<F128>>>,
        weights: Ghost<Seq<F128>>,
    ) -> (next: Folded)
        requires
            self.well_formed(),
            1 <= left,
            self.folded_as(state, current@, weights@, left as int),
            1 <= weights@.len() <= 8,
            shift == pow2(weights@.len()),
        ensures
            self.folded_as(
                next,
                fold_factors(current@, seq![r]),
                next_weights(weights@, r),
                left - 1,
            ),
    {
        let ghost cur = current@;
        let ghost bound = fold_factors(cur, seq![r]);
        let Folded { gates, values, codes, prefix } = state;
        let mut gates = gates;
        let mut values = values;
        let half: usize = gates.len() / 2;
        proof {
            self.lemma_bind(cur, prefix, left as int, r);
            assert(cur[0].len() == 2 * (pow2(left as nat) * PLANE));
            assert(cur[12].len() == 2 * (pow2(left as nat) * PLANE));
            lemma2_to64();
            assert(weights@.len() < 8 ==> pow2(weights@.len()) < 256) by {
                if weights@.len() < 8 {
                    lemma_pow2_strictly_increases(weights@.len(), 8);
                }
            }
            lemma_pow2_adds(weights@.len(), weights@.len());
        }
        fold_in_place(&mut gates, r);
        fold_in_place(&mut values, r);
        let mut joined: Vec<Vec<u16>> = Vec::new();
        let mut b: usize = 0;
        while b < COUNTER_BITS
            invariant
                self.well_formed(),
                cur.len() == 13,
                bound == fold_factors(cur, seq![r]),
                self.counters_are(cur, codes@, weights@),
                forall|f: int| 0 <= f < 13 ==> (#[trigger] cur[f]).len() == 2 * half,
                forall|f: int| 0 <= f < 13 ==> #[trigger] bound[f] == fold_table(cur[f], r),
                1 <= weights@.len() <= 8,
                shift == pow2(weights@.len()),
                shift <= 256,
                pow2(2 * weights@.len()) == shift * shift,
                b <= COUNTER_BITS,
                joined@.len() == b,
                forall|c: int| 0 <= c < b ==> (#[trigger] joined@[c])@.len() == half,
                forall|c: int, i: int|
                    #![trigger joined@[c]@[i]]
                    0 <= c < b && 0 <= i < half ==> joined@[c]@[i] < pow2(2 * weights@.len())
                        && bound[2 + c][i] == code_entry(
                        self.beta@[c],
                        next_weights(weights@, r),
                        joined@[c]@[i] as int,
                    ),
            decreases COUNTER_BITS - b,
        {
            assert(codes@[b as int]@.len() == cur[2 + b].len());
            let total: usize = codes[b].len();
            let ghost before = joined@;
            let mut plane: Vec<u16> = Vec::new();
            let mut i: usize = 0;
            while i < half
                invariant
                    self.well_formed(),
                    cur.len() == 13,
                    self.counters_are(cur, codes@, weights@),
                    b < COUNTER_BITS,
                    total == codes@[b as int]@.len(),
                    total == 2 * half,
                    cur[2 + b].len() == 2 * half,
                    bound[2 + b] == fold_table(cur[2 + b], r),
                    1 <= weights@.len() <= 8,
                    shift == pow2(weights@.len()),
                    shift <= 256,
                    pow2(2 * weights@.len()) == shift * shift,
                    i <= half,
                    plane@.len() == i,
                    forall|k: int|
                        0 <= k < i ==> (#[trigger] plane@[k]) < pow2(2 * weights@.len())
                            && bound[2 + b][k] == code_entry(
                            self.beta@[b as int],
                            next_weights(weights@, r),
                            plane@[k] as int,
                        ),
                decreases half - i,
            {
                let low: u32 = codes[b][i] as u32;
                let high: u32 = codes[b][half + i] as u32;
                proof {
                    assert(codes@[b as int]@[i as int] < pow2(weights@.len()));
                    assert(codes@[b as int]@[half + i] < pow2(weights@.len()));
                    lemma_code_step(
                        self.beta@[b as int],
                        weights@,
                        low as int,
                        high as int,
                        r,
                    );
                    assert(low + high * shift < shift * shift) by (nonlinear_arith)
                        requires
                            low < shift,
                            high < shift,
                    ;
                    assert(shift * shift <= 65_536) by (nonlinear_arith)
                        requires
                            shift <= 256,
                    ;
                }
                plane.push((low + high * shift) as u16);
                i = i + 1;
            }
            joined.push(plane);
            proof {
                assert forall|c: int, i: int|
                    #![trigger joined@[c]@[i]]
                    0 <= c < b + 1 && 0 <= i < half implies joined@[c]@[i] < pow2(
                    2 * weights@.len(),
                ) && bound[2 + c][i] == code_entry(
                    self.beta@[c],
                    next_weights(weights@, r),
                    joined@[c]@[i] as int,
                ) by {
                    if c < b {
                        assert(joined@[c] == before[c]);
                        assert(before[c]@[i] < pow2(2 * weights@.len()));
                    }
                }
            }
            b = b + 1;
        }
        let step = self.delta_powers[left];
        let next_prefix = prefix * (F128::one() + r * (F128::one() + step));
        let next = Folded { gates, values, codes: joined, prefix: next_prefix };
        proof {
            let w = next_weights(weights@, r);
            assert(w.len() == 2 * weights@.len());
            assert(self.counters_are(bound, next.codes@, w));
        }
        next
    }

    /// The folded state after the first coordinate.
    fn fold_rows(&self, r: F128) -> (state: Folded)
        requires
            self.well_formed(),
        ensures
            self.folded_as(
                state,
                fold_factors(self.tables(), seq![r]),
                next_weights(seq![fone()], r),
                self.record_vars - 2,
            ),
    {
        let ghost ts = self.tables();
        let ghost bound = fold_factors(ts, seq![r]);
        let ghost weights = next_weights(seq![fone()], r);
        let total: usize = self.rows.len();
        let half: usize = total / 2;
        let left: usize = self.record_vars - 1;
        proof {
            lemma2_to64();
            self.lemma_sizes(0);
            assert(self.weights_are(ts[1], fone())) by {
                assert forall|i: int| 0 <= i < ts[1].len() implies #[trigger] ts[1][i] == fmul(
                    fone(),
                    self.delta@[i / PLANE as int],
                ) by {
                    lemma_fmul_one(self.delta@[i / PLANE as int]);
                }
            }
            assert forall|i: int|
                0 <= i < ts[0].len() && i % (PLANE as int) >= SLOTS implies #[trigger] ts[0][i]
                == fzero() by {
                assert(!self.rows@[i].gate);
            }
            self.lemma_bind(ts, fone(), left as int, r);
        }
        let mut gates: Vec<F128> = Vec::new();
        let mut values: Vec<F128> = Vec::new();
        let mut i: usize = 0;
        while i < half
            invariant
                self.well_formed(),
                ts == self.tables(),
                total == self.rows@.len(),
                total == 2 * half,
                total == self.size(),
                i <= half,
                gates@.len() == i,
                values@.len() == i,
                forall|k: int| 0 <= k < i ==> #[trigger] gates@[k] == fold_table(ts[0], r)[k],
                forall|k: int| 0 <= k < i ==> #[trigger] values@[k] == fold_table(ts[12], r)[k],
            decreases half - i,
        {
            let a = self.rows[i];
            let b = self.rows[half + i];
            assert(self.rows@[i as int].value < 32_768);
            assert(self.rows@[half + i].value < 32_768);
            let g0 = bit_element(a.gate);
            let g1 = bit_element(b.gate);
            gates.push(g0 + r * (g0 + g1));
            let v0 = self.gamma[a.value as usize];
            let v1 = self.gamma[b.value as usize];
            values.push(v0 + r * (v0 + v1));
            i = i + 1;
        }
        let mut codes: Vec<Vec<u16>> = Vec::new();
        let mut bit: usize = 0;
        while bit < COUNTER_BITS
            invariant
                self.well_formed(),
                ts == self.tables(),
                bound == fold_factors(ts, seq![r]),
                weights == next_weights(seq![fone()], r),
                forall|f: int| 0 <= f < 13 ==> #[trigger] bound[f] == fold_table(ts[f], r),
                total == self.rows@.len(),
                total == 2 * half,
                total == self.size(),
                pow2(2) == 4,
                pow2(1) == 2,
                bit <= COUNTER_BITS,
                codes@.len() == bit,
                forall|c: int| 0 <= c < bit ==> (#[trigger] codes@[c])@.len() == half,
                forall|c: int, i: int|
                    #![trigger codes@[c]@[i]]
                    0 <= c < bit && 0 <= i < half ==> codes@[c]@[i] < pow2(2) && bound[2 + c][i]
                        == code_entry(self.beta@[c], weights, codes@[c]@[i] as int),
            decreases COUNTER_BITS - bit,
        {
            let ghost before = codes@;
            let mut plane: Vec<u16> = Vec::new();
            let mut i: usize = 0;
            while i < half
                invariant
                    self.well_formed(),
                    ts == self.tables(),
                    bit < COUNTER_BITS,
                    weights == next_weights(seq![fone()], r),
                    bound[2 + bit] == fold_table(ts[2 + bit], r),
                    total == self.rows@.len(),
                    total == 2 * half,
                    total == self.size(),
                    pow2(2) == 4,
                    pow2(1) == 2,
                    i <= half,
                    plane@.len() == i,
                    forall|k: int|
                        0 <= k < i ==> (#[trigger] plane@[k]) < pow2(2) && bound[2 + bit][k]
                            == code_entry(self.beta@[bit as int], weights, plane@[k] as int),
                decreases half - i,
            {
                let low: u32 = self.rows[i].count as u32;
                let high: u32 = self.rows[half + i].count as u32;
                proof {
                    lemma_shift_bit(low, bit as u32);
                    lemma_shift_bit(high, bit as u32);
                }
                let a: u16 = if (low >> (bit as u32)) & 1 == 1 {
                    1
                } else {
                    0
                };
                let z: u16 = if (high >> (bit as u32)) & 1 == 1 {
                    1
                } else {
                    0
                };
                proof {
                    let beta = self.beta@[bit as int];
                    lemma_code_start(beta, nat_bit(low as int, bit as int));
                    lemma_code_start(beta, nat_bit(high as int, bit as int));
                    lemma_code_step(beta, seq![fone()], a as int, z as int, r);
                }
                plane.push(a + 2 * z);
                i = i + 1;
            }
            codes.push(plane);
            proof {
                assert forall|c: int, i: int|
                    #![trigger codes@[c]@[i]]
                    0 <= c < bit + 1 && 0 <= i < half implies codes@[c]@[i] < pow2(2) && bound[2
                    + c][i] == code_entry(self.beta@[c], weights, codes@[c]@[i] as int) by {
                    if c < bit {
                        assert(codes@[c] == before[c]);
                        assert(before[c]@[i] < pow2(2));
                    }
                }
            }
            bit = bit + 1;
        }
        let step = self.delta_powers[left];
        let prefix = F128::one() + r * (F128::one() + step);
        let state = Folded { gates, values, codes, prefix };
        proof {
            lemma_fmul_one(prefix);
            assert(state.gates@ =~= bound[0]);
            assert(state.values@ =~= bound[12]);
            assert(weights.len() == 2);
            assert(self.counters_are(bound, state.codes@, weights));
        }
        state
    }

    /// The full tables of the folded state.
    fn expand(
        &self,
        state: &Folded,
        luts: &Vec<Vec<F128>>,
        left: Ghost<int>,
        current: Ghost<Seq<Seq<F128>>>,
        weights: Ghost<Seq<F128>>,
    ) -> (factors: Vec<Vec<F128>>)
        requires
            self.well_formed(),
            self.folded_as(*state, current@, weights@, left@),
            weights@.len() <= 16,
            luts@.len() == COUNTER_BITS,
            forall|b: int|
                0 <= b < COUNTER_BITS ==> (#[trigger] luts@[b])@ == Seq::new(
                    pow2(weights@.len()),
                    |code: int| code_entry(self.beta@[b], weights@, code),
                ),
        ensures
            tables(factors@) == current@,
    {
        let ghost cur = current@;
        let length: usize = state.gates.len();
        let mut factors: Vec<Vec<F128>> = Vec::new();
        factors.push(crate::mle::copy_table(state.gates.as_slice()));
        let mut weights_table: Vec<F128> = Vec::new();
        let mut i: usize = 0;
        proof {
            assert(cur[0].len() == 2 * (pow2(left@ as nat) * PLANE));
            assert(cur[1].len() == cur[0].len());
            lemma_pow2_unfold((left@ + 1) as nat);
            if left@ + 1 < self.record_vars {
                lemma_pow2_strictly_increases((left@ + 1) as nat, self.record_vars as nat);
            }
        }
        while i < length
            invariant
                self.well_formed(),
                self.weights_are(cur[1], state.prefix),
                cur[1].len() == length,
                length <= self.delta@.len() * PLANE,
                i <= length,
                weights_table@.len() == i,
                forall|k: int| 0 <= k < i ==> #[trigger] weights_table@[k] == cur[1][k],
            decreases length - i,
        {
            weights_table.push(state.prefix * self.delta[i / PLANE]);
            i = i + 1;
        }
        assert(weights_table@ =~= cur[1]);
        factors.push(weights_table);
        let mut b: usize = 0;
        while b < COUNTER_BITS
            invariant
                self.well_formed(),
                self.folded_as(*state, cur, weights@, left@),
                luts@.len() == COUNTER_BITS,
                forall|b: int|
                    0 <= b < COUNTER_BITS ==> (#[trigger] luts@[b])@ == Seq::new(
                        pow2(weights@.len()),
                        |code: int| code_entry(self.beta@[b], weights@, code),
                    ),
                length == cur[0].len(),
                b <= COUNTER_BITS,
                factors@.len() == 2 + b,
                forall|f: int| 0 <= f < 2 + b ==> (#[trigger] factors@[f])@ == cur[f],
            decreases COUNTER_BITS - b,
        {
            assert(state.codes@[b as int]@.len() == cur[2 + b].len());
            assert(cur[2 + b].len() == cur[0].len());
            let mut table: Vec<F128> = Vec::new();
            let mut i: usize = 0;
            while i < length
                invariant
                    self.folded_as(*state, cur, weights@, left@),
                    b < COUNTER_BITS,
                    luts@.len() == COUNTER_BITS,
                    luts@[b as int]@ == Seq::new(
                        pow2(weights@.len()),
                        |code: int| code_entry(self.beta@[b as int], weights@, code),
                    ),
                    length == cur[2 + b].len(),
                    state.codes@[b as int]@.len() == length,
                    i <= length,
                    table@.len() == i,
                    forall|k: int| 0 <= k < i ==> #[trigger] table@[k] == cur[2 + b][k],
                decreases length - i,
            {
                let code: usize = state.codes[b][i] as usize;
                assert(state.codes@[b as int]@[i as int] < pow2(weights@.len()));
                table.push(luts[b][code]);
                i = i + 1;
            }
            assert(table@ =~= cur[2 + b]);
            factors.push(table);
            b = b + 1;
        }
        factors.push(crate::mle::copy_table(state.values.as_slice()));
        assert(tables(factors@) =~= cur);
        factors
    }

    /// Prove the record scatter: the same messages, from the compact rows as
    /// long as their codes fit.
    pub fn prove_compact(&self, challenges: &[F128]) -> (result: (ScatterProof, Vec<F128>))
        requires
            self.well_formed(),
            challenges@.len() == self.record_vars + SLOT_VARS,
        ensures
            result.0.claim == product_sum(self.tables()),
            tables(result.0.rounds@) == honest_rounds(self.tables(), challenges@),
            result.1@ == challenges@,
    {
        let ghost ts = self.tables();
        let ghost n = (self.record_vars + SLOT_VARS) as nat;
        let mut rounds: Vec<Vec<F128>> = Vec::new();
        let mut point: Vec<F128> = Vec::new();
        let evals = self.first_round_polynomial();
        let claim = evals[0] + evals[1];
        proof {
            assert(shaped(ts, n)) by {
                assert forall|f: int| 0 <= f < ts.len() implies (#[trigger] ts[f]).len() == pow2(n) by {}
            }
            lemma_round_sums(ts, n);
            assert(node(0) == fzero() && node(1) == fone());
            assert(fold_factors(ts, challenges@.take(0)) =~= ts);
        }
        rounds.push(evals);
        let r = challenges[0];
        point.push(r);
        let state = self.fold_rows(r);
        proof {
            assert(challenges@.take(1) =~= seq![r]);
            assert(point@ =~= challenges@.take(1));
            reveal_with_fuel(corner_weights, 2);
            assert(challenges@.take(1).drop_last() =~= Seq::<F128>::empty());
            assert(corner_weights(challenges@.take(1)) == next_weights(seq![fone()], r));
            assert forall|j: int| 0 <= j < 1 implies (#[trigger] rounds@[j])@ == round_evals(
                fold_factors(ts, challenges@.take(j)),
            ) by {}
        }
        self.continue_compact(state, challenges, &mut rounds, &mut point);
        proof {
            assert(tables(rounds@) =~= honest_rounds(ts, challenges@));
        }
        (ScatterProof { claim, rounds }, point)
    }

    /// Continue from the state after the first coordinate: further compact
    /// rounds while codes fit, then the rounds of the full tables.
    fn continue_compact(
        &self,
        state: Folded,
        challenges: &[F128],
        rounds: &mut Vec<Vec<F128>>,
        point: &mut Vec<F128>,
    )
        requires
            self.well_formed(),
            challenges@.len() == self.record_vars + SLOT_VARS,
            self.folded_as(
                state,
                fold_factors(self.tables(), challenges@.take(1)),
                corner_weights(challenges@.take(1)),
                self.record_vars - 2,
            ),
            old(rounds)@.len() == 1,
            forall|j: int|
                0 <= j < 1 ==> (#[trigger] old(rounds)@[j])@ == round_evals(
                    fold_factors(self.tables(), challenges@.take(j)),
                ),
            old(point)@ == challenges@.take(1),
        ensures
            tables(final(rounds)@) == honest_rounds(self.tables(), challenges@),
            final(point)@ == challenges@,
    {
        let ghost ts = self.tables();
        let mut state = state;
        let mut k: usize = 1;
        let mut shift: u32 = 4;
        let top: usize = if self.record_vars < 5 {
            self.record_vars - 1
        } else {
            4
        };
        proof {
            lemma2_to64();
            lemma_code_widths();
            lemma_corner_len(challenges@.take(1));
        }
        while k < top
            invariant
                self.well_formed(),
                ts == self.tables(),
                challenges@.len() == self.record_vars + SLOT_VARS,
                1 <= k <= top,
                top <= 4,
                top < self.record_vars,
                self.folded_as(
                    state,
                    fold_factors(ts, challenges@.take(k as int)),
                    corner_weights(challenges@.take(k as int)),
                    self.record_vars - 1 - k,
                ),
                corner_weights(challenges@.take(k as int)).len() == pow2(k as nat),
                shift == pow2(pow2(k as nat)),
                rounds@.len() == k,
                forall|j: int|
                    0 <= j < k ==> (#[trigger] rounds@[j])@ == round_evals(
                        fold_factors(ts, challenges@.take(j)),
                    ),
                point@ == challenges@.take(k as int),
            decreases top - k,
        {
            let ghost taken = challenges@.take(k as int);
            let ghost current = fold_factors(ts, taken);
            let ghost weights = corner_weights(taken);
            proof {
                lemma2_to64();
                lemma_code_widths();
            }
            let luts = self.counter_luts(point.as_slice());
            let left: usize = self.record_vars - 1 - k;
            let evals = self.compact_round(&state, &luts, left, Ghost(current), Ghost(weights));
            rounds.push(evals);
            let r = challenges[k];
            state = self.bind(state, left, shift, r, Ghost(current), Ghost(weights));
            point.push(r);
            proof {
                let more = challenges@.take(k + 1);
                assert(more =~= taken + seq![r]);
                assert(more.drop_last() =~= taken);
                assert(more.last() == r);
                lemma_fold_factors_concat(ts, taken, seq![r]);
                lemma_corner_len(more);
                assert(point@ =~= more);
            }
            k = k + 1;
            shift = if k == 2 {
                16
            } else if k == 3 {
                256
            } else {
                65_536
            };
        }
        let ghost taken = challenges@.take(k as int);
        let ghost current = fold_factors(ts, taken);
        let ghost weights = corner_weights(taken);
        let ghost left = self.record_vars - 1 - k;
        proof {
            lemma2_to64();
            lemma_code_widths();
        }
        let luts = self.counter_luts(point.as_slice());
        let remaining: usize = self.record_vars - 1 - k;
        let evals = self.compact_round(&state, &luts, remaining, Ghost(current), Ghost(weights));
        rounds.push(evals);
        let mut factors = self.expand(&state, &luts, Ghost(left), Ghost(current), Ghost(weights));
        let r = challenges[k];
        proof {
            self.lemma_sizes(k as int);
            let m = (self.record_vars + SLOT_VARS - k) as nat;
            assert(shaped(current, m)) by {
                assert forall|f: int| 0 <= f < current.len() implies (#[trigger] current[f]).len()
                    == pow2(m) by {}
            }
            lemma_round_binds(current, m, r);
            lemma_pow2_unfold(m);
            assert forall|f: int| 0 <= f < factors@.len() implies (#[trigger] factors@[f])@
                == current[f] by {
                assert(tables(factors@)[f] == factors@[f]@);
            }
            assert forall|f: int| 0 <= f < current.len() implies (#[trigger] current[f]).len()
                == current[0].len() by {}
        }
        bind_factors(&mut factors, r);
        point.push(r);
        k = k + 1;
        let ghost more = challenges@.take(k as int);
        let total: usize = challenges.len();
        let rest = slice_subrange(challenges, k, total);
        let ghost bound = tables(factors@);
        proof {
            assert(more =~= taken + seq![r]);
            lemma_fold_factors_concat(ts, taken, seq![r]);
            assert(point@ =~= more);
            assert(rest@ =~= challenges@.skip(k as int));
            assert(factors@.len() == bound.len());
        }
        let ghost head = rounds@;
        prove_remaining(factors, rest, rounds, point);
        proof {
            assert(point@ =~= challenges@);
            let expected = honest_rounds(ts, challenges@);
            assert(tables(rounds@).len() == expected.len());
            assert forall|j: int| 0 <= j < expected.len() implies tables(rounds@)[j]
                == #[trigger] expected[j] by {
                if j < k {
                    assert(tables(rounds@)[j] == tables(head)[j]);
                    assert(head[j]@ == round_evals(fold_factors(ts, challenges@.take(j))));
                } else {
                    let tail = rest@.take(j - k);
                    assert(more + tail =~= challenges@.take(j));
                    lemma_fold_factors_concat(ts, more, tail);
                    assert(tables(rounds@)[j] == honest_rounds(bound, rest@)[j - k]);
                }
            }
            assert(tables(rounds@) =~= expected);
        }
    }
}

} // verus!
