//! The thirteen-factor record scatter from compact rows.
//!
//! A row holds a slot's counter, its packed value and its gate. The first
//! rounds bind record coordinates, over which the counter factors take few
//! values, so their tables stay implicit until the rows have been folded a few
//! times. The messages are those of the product sumcheck of the full tables.
use vstd::arithmetic::power2::{
    lemma2_to64, lemma_pow2_adds, lemma_pow2_pos, lemma_pow2_strictly_increases, lemma_pow2_unfold,
    pow2,
};
use vstd::prelude::*;

use crate::field::{
    fadd, fmul, fone, fzero, lemma_fadd_assoc, lemma_fadd_self, lemma_fadd_zero, lemma_fmul_assoc,
    lemma_fmul_comm, lemma_fmul_distr, lemma_fmul_one, lemma_fmul_zero, F128,
};
use crate::frobenius::frob;
use crate::hash_to_point_record::counter_prefix::{
    counter_entry, lemma_pair_product, pair_product, CounterPolynomials,
};
use crate::hash_to_point_scatter::polynomial_product::{add_at, lemma_two_terms, naive, zeros};
use crate::hash_to_point_scatter::power_sum::{frobenius_powers, lemma_fsum_blocks};
use crate::hash_to_point_scatter::small;
use crate::hash_to_point_slots::relation::{
    bits_value, multiple_bit, nat_bit, residue_bit, value, wire_at,
};
use crate::hash_to_point_slots::setup::{
    borrow_position, centering_position, counter_position, gate_position, power_of_two,
    quotient_position, word_position,
};
use crate::hash_to_point_slots::{CNT, COUNTER_BITS, G, GATE, K, PLANE, SLOTS, SLOT_VARS, U, X};
use crate::lookup::{subset_sum, subset_sums};
use crate::mle::{bit_value, lerp};
use crate::polynomial::{eval_poly, horner};
use crate::r1cs::block_of;
use crate::sumcheck::{lerp_term, node, round_evals, round_value};
use crate::sums::{
    fpow, fprod, fsum, lemma_fpow_add, lemma_fprod_congr, lemma_fprod_split, lemma_fsum_congr,
    lemma_fsum_scale, lemma_fsum_split, lemma_fsum_zero,
};

verus! {

/// Factors of the record scatter: gate, record weight, ten counters, value.
pub const DEGREE: usize = 13;

/// One slot of one record.
#[derive(Clone, Copy, Debug, PartialEq, Eq, Structural)]
pub struct Row {
    pub count: u16,
    pub value: u16,
    pub gate: bool,
}

/// The compact factors of a batch of records.
pub struct Factors {
    pub rows: Vec<Row>,
    pub record_vars: usize,
    pub beta: Vec<F128>,
    pub gamma: Vec<F128>,
    pub delta: Vec<F128>,
    pub delta_powers: Vec<F128>,
}

/// The record weights are geometric: entry `j + 2^k` is entry `j` times step
/// `k`.
pub open spec fn geometric(delta: Seq<F128>, steps: Seq<F128>) -> bool {
    &&& delta.len() == pow2(steps.len())
    &&& delta[0] == fone()
    &&& forall|k: int, j: int|
        #![trigger steps[k], delta[j]]
        0 <= k < steps.len() && 0 <= j < pow2(k as nat) ==> delta[j + pow2(k as nat)] == fmul(
            delta[j],
            steps[k],
        )
}

impl Factors {
    /// The number of rows: `2^10` for each of `2^record_vars` records.
    pub open spec fn size(self) -> int {
        pow2((self.record_vars + SLOT_VARS) as nat) as int
    }

    /// The shapes agree, row entries are in the range of their tables, padded
    /// slots have no gate, and the record weights are geometric.
    pub open spec fn well_formed(self) -> bool {
        &&& 2 <= self.record_vars < 64
        &&& self.rows@.len() == self.size()
        &&& self.beta@.len() == COUNTER_BITS
        &&& self.gamma@.len() == 32_768
        &&& self.delta_powers@.len() == self.record_vars
        &&& geometric(self.delta@, self.delta_powers@)
        &&& forall|i: int|
            0 <= i < self.rows@.len() ==> (#[trigger] self.rows@[i]).count < 1_024
                && self.rows@[i].value < 32_768
        &&& forall|i: int|
            0 <= i < self.rows@.len() && i % (PLANE as int) >= SLOTS ==> !(
            #[trigger] self.rows@[i]).gate
    }

    /// Entry `i` of table `f`.
    pub open spec fn entry(self, f: int, i: int) -> F128 {
        if f == 0 {
            bit_value(self.rows@[i].gate)
        } else if f == 1 {
            self.delta@[i / PLANE as int]
        } else if f < 12 {
            counter_entry(nat_bit(self.rows@[i].count as int, f - 2), self.beta@[f - 2])
        } else {
            self.gamma@[self.rows@[i].value as int]
        }
    }

    /// The full tables: gate, record weight, ten counters, value.
    pub open spec fn tables(self) -> Seq<Seq<F128>> {
        Seq::new(
            DEGREE as nat,
            |f: int| Seq::new(self.size() as nat, |i: int| self.entry(f, i)),
        )
    }
}

// ---------------------------------------------------------------------------
// The round polynomial by records.
// ---------------------------------------------------------------------------

/// The affine value of table `f` at position `i`.
pub open spec fn pair_at(current: Seq<Seq<F128>>, f: int, i: int, r: F128) -> F128 {
    lerp(current[f][i], current[f][current[0].len() / 2 + i], r)
}

/// The product of all tables but the record weight.
pub open spec fn core_term(current: Seq<Seq<F128>>, i: int, r: F128) -> F128 {
    fmul(
        fmul(
            pair_at(current, 0, i, r),
            fprod(|b: int| pair_at(current, 2 + b, i, r), 10),
        ),
        pair_at(current, 12, i, r),
    )
}

/// The sum of the core terms of a record's live slots.
pub open spec fn record_sum(current: Seq<Seq<F128>>, record: int, r: F128) -> F128 {
    fsum(|slot: int| core_term(current, record * PLANE + slot, r), SLOTS as int)
}

proof fn lemma_core_term(current: Seq<Seq<F128>>, i: int, r: F128)
    requires
        current.len() == 13,
    ensures
        lerp_term(current, i, r) == fmul(core_term(current, i, r), pair_at(current, 1, i, r)),
{
    let f = |k: int| lerp(current[k][i], current[k][current[0].len() / 2 + i], r);
    let counters = |b: int| pair_at(current, 2 + b, i, r);
    lemma_fprod_split(f, 2, 10);
    lemma_fprod_congr(counters, |k: int| f(2 + k), 10);
    assert(fprod(f, 13) == fmul(fprod(f, 12), f(12)));
    reveal_with_fuel(fprod, 3);
    lemma_fmul_one(f(0));
    let g = f(0);
    let d = f(1);
    let c = fprod(counters, 10);
    let v = f(12);
    // ((g d) c) v = ((g c) v) d
    lemma_fmul_assoc(g, d, c);
    lemma_fmul_comm(d, c);
    lemma_fmul_assoc(g, c, d);
    lemma_fmul_assoc(fmul(g, c), d, v);
    lemma_fmul_comm(d, v);
    lemma_fmul_assoc(fmul(g, c), v, d);
}

/// The round polynomial is the sum over records of the record's core sum under
/// its weight.
pub proof fn lemma_round_by_records(
    current: Seq<Seq<F128>>,
    records: int,
    r: F128,
    weight: spec_fn(int) -> F128,
)
    requires
        current.len() == 13,
        0 <= records,
        current[0].len() == 2 * (records * PLANE),
        forall|i: int|
            0 <= i < records * PLANE ==> #[trigger] pair_at(current, 1, i, r) == weight(
                i / PLANE as int,
            ),
        forall|i: int|
            0 <= i < records * PLANE && i % (PLANE as int) >= SLOTS ==> #[trigger] pair_at(
                current,
                0,
                i,
                r,
            ) == fzero(),
    ensures
        round_value(current, r) == fsum(
            |record: int| fmul(record_sum(current, record, r), weight(record)),
            records,
        ),
{
    let f = |i: int| lerp_term(current, i, r);
    assert(current[0].len() / 2 == records * PLANE);
    lemma_fsum_blocks(f, records, PLANE as int);
    let blocks = |j: int| fsum(|c: int| f(j * PLANE + c), PLANE as int);
    let sums = |record: int| fmul(record_sum(current, record, r), weight(record));
    assert forall|j: int| 0 <= j < records implies #[trigger] blocks(j) == sums(j) by {
        assert(j * PLANE + PLANE <= records * PLANE) by (nonlinear_arith)
            requires
                j < records,
        ;
        assert(0 <= j * PLANE) by (nonlinear_arith)
            requires
                0 <= j,
        ;
        let g = |slot: int| core_term(current, j * PLANE + slot, r);
        let w = weight(j);
        let scaled = |slot: int| fmul(w, g(slot));
        let block = |c: int| f(j * PLANE + c);
        lemma_fsum_scale(w, g, SLOTS as int);
        assert forall|slot: int| 0 <= slot < SLOTS implies #[trigger] block(slot) == scaled(slot) by {
            let i = j * PLANE + slot;
            assert(i / PLANE as int == j);
            lemma_core_term(current, i, r);
            assert(pair_at(current, 1, i, r) == weight(i / PLANE as int));
            lemma_fmul_comm(g(slot), w);
        }
        lemma_fsum_congr(block, scaled, SLOTS as int);
        lemma_fsum_split(block, SLOTS as int, PLANE - SLOTS);
        let pad = |c: int| block(SLOTS + c);
        assert forall|c: int| 0 <= c < PLANE - SLOTS implies #[trigger] pad(c) == fzero() by {
            let i = j * PLANE + (SLOTS + c);
            assert(i % (PLANE as int) == SLOTS + c);
            lemma_core_term(current, i, r);
            assert(pair_at(current, 0, i, r) == fzero());
            lemma_fmul_zero(fprod(|b: int| pair_at(current, 2 + b, i, r), 10));
            lemma_fmul_zero(pair_at(current, 12, i, r));
            lemma_fmul_zero(pair_at(current, 1, i, r));
        }
        lemma_fsum_zero(pad, PLANE - SLOTS);
        lemma_fsum_congr(pad, |i: int| block(SLOTS + i), PLANE - SLOTS);
        lemma_fadd_zero(fsum(block, SLOTS as int));
        lemma_fmul_comm(w, fsum(g, SLOTS as int));
        lemma_fsum_congr(block, |c: int| f(j * PLANE + c), PLANE as int);
    }
    lemma_fsum_congr(blocks, sums, records);
}

/// A pair of equal or vanishing gates.
pub proof fn lemma_zero_gate(current: Seq<Seq<F128>>, i: int, r: F128)
    requires
        current[0][i] == fzero(),
        current[0][current[0].len() / 2 + i] == fzero(),
    ensures
        pair_at(current, 0, i, r) == fzero(),
        core_term(current, i, r) == fzero(),
{
    lemma_fadd_zero(fzero());
    lemma_fmul_zero(r);
    lemma_fmul_zero(fprod(|b: int| pair_at(current, 2 + b, i, r), 10));
    lemma_fmul_zero(pair_at(current, 12, i, r));
}

/// The sums of a record's polynomial at the nodes, under its weight.
pub fn accumulate(total: &mut Vec<F128>, coefficients: &Vec<F128>, weight: F128, steps: &Vec<F128>)
    requires
        old(total)@.len() == 14,
        steps@.len() == 14,
    ensures
        final(total)@ == Seq::new(
            14,
            |t: int|
                fadd(
                    old(total)@[t],
                    fmul(fmul(horner(coefficients@, node(t)), weight), steps@[t]),
                ),
        ),
{
    let ghost before = total@;
    let mut t: usize = 0;
    while t < 14
        invariant
            t <= 14,
            before.len() == 14,
            total@.len() == 14,
            steps@.len() == 14,
            forall|k: int| t <= k < 14 ==> #[trigger] total@[k] == before[k],
            forall|k: int|
                0 <= k < t ==> #[trigger] total@[k] == fadd(
                    before[k],
                    fmul(fmul(horner(coefficients@, node(k)), weight), steps@[k]),
                ),
        decreases 14 - t,
    {
        let value = eval_poly(coefficients.as_slice(), small(t as u64));
        let sum = total[t] + value * weight * steps[t];
        total[t] = sum;
        t = t + 1;
    }
    assert(total@ =~= Seq::new(
        14,
        |t: int|
            fadd(before[t], fmul(fmul(horner(coefficients@, node(t)), weight), steps@[t])),
    ));
}

/// The record weights at the nodes: the prefix times the affine step.
pub fn weight_steps(prefix: F128, step: F128) -> (steps: Vec<F128>)
    ensures
        steps@ == Seq::new(14, |t: int| fmul(prefix, lerp(fone(), step, node(t)))),
{
    let mut steps: Vec<F128> = Vec::new();
    let mut t: u64 = 0;
    while t < 14
        invariant
            t <= 14,
            steps@.len() == t,
            forall|k: int|
                0 <= k < t ==> #[trigger] steps@[k] == fmul(prefix, lerp(fone(), step, node(k))),
        decreases 14 - t,
    {
        let x = small(t);
        steps.push(prefix * (F128::one() + x * (F128::one() + step)));
        t = t + 1;
    }
    assert(steps@ =~= Seq::new(14, |t: int| fmul(prefix, lerp(fone(), step, node(t)))));
    steps
}

/// `(a, s a)` interpolates to `a (1, s)`.
pub proof fn lemma_lerp_scaled(a: F128, s: F128, r: F128)
    ensures
        lerp(a, fmul(a, s), r) == fmul(a, lerp(fone(), s, r)),
{
    lemma_fmul_distr(a, fone(), s);
    lemma_fmul_one(a);
    let d = fadd(fone(), s);
    assert(fadd(a, fmul(a, s)) == fmul(a, d));
    lemma_fmul_assoc(r, a, d);
    lemma_fmul_comm(r, a);
    lemma_fmul_assoc(a, r, d);
    lemma_fmul_distr(a, fone(), fmul(r, d));
}

impl Factors {
    /// After `k` record coordinates are bound, the record weights carry a
    /// common prefix.
    pub open spec fn weights_are(self, current: Seq<F128>, prefix: F128) -> bool {
        forall|i: int|
            0 <= i < current.len() ==> #[trigger] current[i] == fmul(
                prefix,
                self.delta@[i / PLANE as int],
            )
    }

    /// The pair of record weights in a record, and the folded prefix.
    pub proof fn lemma_weight_pair(self, current: Seq<F128>, prefix: F128, left: int, i: int, r: F128)
        requires
            self.well_formed(),
            0 <= left < self.record_vars,
            current.len() == 2 * (pow2(left as nat) * PLANE),
            self.weights_are(current, prefix),
            0 <= i < pow2(left as nat) * PLANE,
        ensures
            lerp(current[i], current[current.len() / 2 + i], r) == fmul(
                self.delta@[i / PLANE as int],
                fmul(prefix, lerp(fone(), self.delta_powers@[left], r)),
            ),
            0 <= i / PLANE as int,
            i / (PLANE as int) < pow2(left as nat),
            pow2(left as nat) <= self.delta@.len(),
    {
        let n = pow2(left as nat) as int;
        let half = n * PLANE;
        let j = i / PLANE as int;
        assert(current.len() / 2 == half);
        assert((half + i) / PLANE as int == n + j);
        assert(j < n);
        lemma_pow2_strictly_increases(left as nat, self.record_vars as nat);
        assert(self.delta@[j + pow2(left as nat)] == fmul(
            self.delta@[j],
            self.delta_powers@[left],
        ));
        let d = self.delta@[j];
        let s = self.delta_powers@[left];
        let a = fmul(prefix, d);
        assert(current[i] == a);
        assert(current[half + i] == fmul(prefix, fmul(d, s)));
        lemma_fmul_assoc(prefix, d, s);
        lemma_lerp_scaled(a, s, r);
        let l = lerp(fone(), s, r);
        lemma_fmul_comm(prefix, d);
        lemma_fmul_assoc(d, prefix, l);
    }
}

// ---------------------------------------------------------------------------
// The first round.
// ---------------------------------------------------------------------------

impl Factors {
    /// The core polynomial of one slot pair in the first round, added to the
    /// record's coefficients.
    fn add_first_pair(
        &self,
        lookup: &CounterPolynomials,
        i: usize,
        half: usize,
        coefficients: &mut Vec<F128>,
    )
        requires
            self.well_formed(),
            lookup.for_powers(self.beta@),
            2 * half == self.size(),
            i < half,
            old(coefficients)@.len() == 14,
        ensures
            final(coefficients)@.len() == 14,
            forall|r: F128| #[trigger]
                horner(final(coefficients)@, r) == fadd(
                    horner(old(coefficients)@, r),
                    core_term(self.tables(), i as int, r),
                ),
    {
        let total: usize = self.rows.len();
        let a = self.rows[i];
        let b = self.rows[half + i];
        let ghost ts = self.tables();
        let ghost before = coefficients@;
        proof {
            assert(self.rows@[i as int].count < 1_024);
            assert(self.rows@[half + i].count < 1_024);
            assert(ts[0].len() / 2 == half);
        }
        if !a.gate && !b.gate {
            proof {
                assert forall|r: F128| #[trigger] horner(coefficients@, r) == fadd(
                    horner(before, r),
                    core_term(ts, i as int, r),
                ) by {
                    lemma_zero_gate(ts, i as int, r);
                    lemma_fadd_zero(horner(before, r));
                }
            }
            return;
        }
        let code: usize = lookup.code(a.count, b.count);
        proof {
            lemma_common_mask(a.count, b.count);
        }
        let common = lookup.common[(a.count & b.count) as usize];
        let va = self.gamma[a.value as usize];
        let vb = self.gamma[b.value as usize];
        let low = va * common;
        let slope = (va + vb) * common;
        let pair: [F128; 2] = [low, slope];
        assert(1 <= lookup.coefficients@[code as int]@.len() <= 11);
        let row = naive(lookup.coefficients[code].as_slice(), pair.as_slice());
        if a.gate {
            add_at(coefficients, row.as_slice(), 0);
        }
        let ghost middle = coefficients@;
        if a.gate != b.gate {
            add_at(coefficients, row.as_slice(), 1);
        }
        proof {
            assert forall|r: F128| #[trigger] horner(coefficients@, r) == fadd(
                horner(before, r),
                core_term(ts, i as int, r),
            ) by {
                // The row is the counter product times the value pair.
                let x = horner(row@, r);
                let p = horner(lookup.coefficients@[code as int]@, r);
                lemma_two_terms(pair@, r);
                assert(x == fmul(p, fadd(low, fmul(r, slope))));
                let v = lerp(va, vb, r);
                assert(fadd(low, fmul(r, slope)) == fmul(v, common)) by {
                    let d = fadd(va, vb);
                    lemma_fmul_assoc(r, d, common);
                    lemma_fmul_comm(v, common);
                    lemma_fmul_distr(common, va, fmul(r, d));
                    lemma_fmul_comm(common, va);
                    lemma_fmul_comm(common, fmul(r, d));
                }
                lemma_pair_product(a.count, b.count, self.beta@, r);
                let c = pair_product(a.count as int, b.count as int, self.beta@, r);
                assert(c == fmul(p, common));
                lemma_fmul_comm(v, common);
                lemma_fmul_assoc(p, common, v);
                assert(x == fmul(c, v));
                // The pair of gates is one, the variable, or both.
                let g = pair_at(ts, 0, i as int, r);
                assert(g == fadd(bit_value(a.gate), fmul(r, fadd(bit_value(a.gate), bit_value(b.gate)))));
                let counters = |k: int| pair_at(ts, 2 + k, i as int, r);
                let factors = |j: int|
                    lerp(
                        counter_entry(nat_bit(a.count as int, j), self.beta@[j]),
                        counter_entry(nat_bit(b.count as int, j), self.beta@[j]),
                        r,
                    );
                lemma_fprod_congr(counters, factors, 10);
                assert(pair_at(ts, 12, i as int, r) == v);
                lemma_fmul_assoc(g, c, v);
                assert(core_term(ts, i as int, r) == fmul(g, x));
                lemma_gate_pair(a.gate, b.gate, r, x);
                lemma_fmul_one(x);
                reveal_with_fuel(fpow, 2);
                lemma_fmul_one(r);
                lemma_fadd_zero(horner(before, r));
                if a.gate && !b.gate {
                    lemma_fadd_assoc(horner(before, r), x, fmul(r, x));
                }
            }
        }
    }

    /// The first round message, from the tabulated counter products.
    pub fn first_round_polynomial(&self) -> (evals: Vec<F128>)
        requires
            self.well_formed(),
        ensures
            evals@ == round_evals(self.tables()),
    {
        let lookup = CounterPolynomials::new(&self.beta);
        let total: usize = self.rows.len();
        let half: usize = total / 2;
        let ghost ts = self.tables();
        let ghost left = self.record_vars - 1;
        proof {
            self.lemma_sizes(0);
            lemma_fmul_one(fone());
            assert(self.weights_are(ts[1], fone())) by {
                assert forall|i: int| 0 <= i < ts[1].len() implies #[trigger] ts[1][i] == fmul(
                    fone(),
                    self.delta@[i / PLANE as int],
                ) by {
                    lemma_fmul_one(self.delta@[i / PLANE as int]);
                }
            }
        }
        let steps = weight_steps(F128::one(), self.delta_powers[self.record_vars - 1]);
        let records: usize = half / PLANE;
        let mut evals = zeros(14);
        let mut record: usize = 0;
        while record < records
            invariant
                self.well_formed(),
                lookup.for_powers(self.beta@),
                ts == self.tables(),
                total == self.rows@.len(),
                2 * half == self.size(),
                half == records * PLANE,
                records <= self.delta@.len(),
                record <= records,
                evals@.len() == 14,
                steps@.len() == 14,
                forall|t: int|
                    0 <= t < 14 ==> #[trigger] evals@[t] == fsum(
                        |k: int|
                            fmul(
                                record_sum(ts, k, node(t)),
                                fmul(self.delta@[k], steps@[t]),
                            ),
                        record as int,
                    ),
            decreases records - record,
        {
            let mut coefficients = zeros(14);
            let mut slot: usize = 0;
            proof {
                assert(record * PLANE + PLANE <= half) by (nonlinear_arith)
                    requires
                        record < records,
                        half == records * PLANE,
                ;
            }
            while slot < SLOTS
                invariant
                    self.well_formed(),
                    lookup.for_powers(self.beta@),
                    ts == self.tables(),
                    2 * half == self.size(),
                    record * PLANE + PLANE <= half,
                    slot <= SLOTS,
                    coefficients@.len() == 14,
                    forall|r: F128| #[trigger]
                        horner(coefficients@, r) == fsum(
                            |s: int| core_term(ts, record * PLANE + s, r),
                            slot as int,
                        ),
                decreases SLOTS - slot,
            {
                self.add_first_pair(&lookup, record * PLANE + slot, half, &mut coefficients);
                slot = slot + 1;
            }
            let ghost before = evals@;
            accumulate(&mut evals, &coefficients, self.delta[record], &steps);
            proof {
                assert forall|t: int| 0 <= t < 14 implies #[trigger] evals@[t] == fsum(
                    |k: int|
                        fmul(record_sum(ts, k, node(t)), fmul(self.delta@[k], steps@[t])),
                    record + 1,
                ) by {
                    let s = record_sum(ts, record as int, node(t));
                    assert(horner(coefficients@, node(t)) == s);
                    lemma_fmul_assoc(s, self.delta@[record as int], steps@[t]);
                    assert(before[t] == fsum(
                        |k: int|
                            fmul(record_sum(ts, k, node(t)), fmul(self.delta@[k], steps@[t])),
                        record as int,
                    ));
                }
            }
            record = record + 1;
        }
        proof {
            assert forall|t: int| 0 <= t < 14 implies #[trigger] evals@[t] == round_value(
                ts,
                node(t),
            ) by {
                let r = node(t);
                let step = self.delta_powers@[left];
                let weight = |k: int| fmul(self.delta@[k], steps@[t]);
                assert forall|i: int| 0 <= i < records * PLANE implies #[trigger] pair_at(
                    ts,
                    1,
                    i,
                    r,
                ) == weight(i / PLANE as int) by {
                    self.lemma_weight_pair(ts[1], fone(), left, i, r);
                }
                assert forall|i: int|
                    0 <= i < records * PLANE && i % (PLANE as int) >= SLOTS implies #[trigger] pair_at(
                    ts,
                    0,
                    i,
                    r,
                ) == fzero() by {
                    assert(!self.rows@[i].gate);
                    assert((half + i) % (PLANE as int) == i % (PLANE as int));
                    assert(!self.rows@[half + i].gate);
                    lemma_zero_gate(ts, i, r);
                }
                lemma_round_by_records(ts, records as int, r, weight);
                lemma_fsum_congr(
                    |k: int| fmul(record_sum(ts, k, r), fmul(self.delta@[k], steps@[t])),
                    |k: int| fmul(record_sum(ts, k, r), weight(k)),
                    records as int,
                );
            }
            assert(evals@ =~= round_evals(ts));
        }
        evals
    }

    /// The sizes after `k` record coordinates are bound.
    pub proof fn lemma_sizes(self, k: int)
        requires
            2 <= self.record_vars < 64,
            0 <= k < self.record_vars,
        ensures
            self.size() == pow2(self.record_vars as nat) * PLANE,
            pow2((self.record_vars + SLOT_VARS - k) as nat) == 2 * (pow2(
                (self.record_vars - k - 1) as nat,
            ) * PLANE),
            pow2((self.record_vars - k - 1) as nat) <= pow2(self.record_vars as nat),
            pow2((self.record_vars - k - 1) as nat) >= 1,
    {
        lemma2_to64();
        lemma_pow2_adds(self.record_vars as nat, 10);
        let left = (self.record_vars - k) as nat;
        lemma_pow2_adds(left, 10);
        lemma_pow2_unfold(left);
        lemma_pow2_pos((left - 1) as nat);
        lemma_pow2_strictly_increases((left - 1) as nat, self.record_vars as nat);
    }
}

proof fn lemma_common_mask(a: u16, b: u16)
    by (bit_vector)
    requires
        a < 1_024,
        b < 1_024,
    ensures
        (a & b) < 1_024,
{
}

/// A pair of gate bits picks `x`, `r x` or both.
proof fn lemma_gate_pair(a: bool, b: bool, r: F128, x: F128)
    ensures
        fmul(fadd(bit_value(a), fmul(r, fadd(bit_value(a), bit_value(b)))), x) == (if a && b {
            x
        } else if a {
            fadd(x, fmul(r, x))
        } else if b {
            fmul(r, x)
        } else {
            fzero()
        }),
{
    lemma_fadd_self(fone());
    lemma_fadd_self(fzero());
    lemma_fadd_zero(fone());
    lemma_fadd_zero(fzero());
    lemma_fmul_zero(r);
    lemma_fmul_zero(x);
    lemma_fmul_one(r);
    lemma_fmul_one(x);
    lemma_fadd_zero(r);
    if a && !b {
        lemma_fmul_comm(fadd(fone(), r), x);
        lemma_fmul_distr(x, fone(), r);
        lemma_fmul_comm(x, r);
    }
}

// ---------------------------------------------------------------------------
// Construction.
// ---------------------------------------------------------------------------

/// Bit `c` of a slot's packed value: a residue bit, or the centering flag.
pub open spec fn packed_value_bit(block: Seq<bool>, slot: int, c: int) -> bool {
    if c < 14 {
        residue_bit(block, slot, c)
    } else {
        value(block, U as int, slot)
    }
}

/// The row of a slot of a record's committed bits; a default row past the
/// last live slot.
pub open spec fn is_row(row: Row, block: Seq<bool>, slot: int) -> bool {
    if slot < SLOTS {
        &&& row.count == bits_value(|b: int| value(block, CNT + b, slot), COUNTER_BITS as int)
        &&& row.value == bits_value(|c: int| packed_value_bit(block, slot, c), 15)
        &&& row.gate == value(block, GATE as int, slot)
    } else {
        row.count == 0 && row.value == 0 && !row.gate
    }
}

/// Residue bit `c` of a slot, with the borrow before it: the difference of the
/// word and the quotient's multiple.
fn difference_bit(z: &[bool], base: usize, slot: usize, c: usize, borrow: bool) -> (set: bool)
    requires
        base + K <= z@.len(),
        slot < SLOTS,
        c < 14,
    ensures
        set == ((z@[base + wire_at(X + c, slot as int)] != multiple_bit(
            z@.subrange(base as int, base + K),
            slot as int,
            c as int,
        )) != borrow),
{
    let total: usize = z.len();
    let word = z[base + word_position(slot, c)];
    let multiple = if c < 3 {
        z[base + quotient_position(slot, c)]
    } else if c == 12 {
        z[base + quotient_position(slot, 0)]
    } else if c == 13 {
        z[base + quotient_position(slot, 1)] != z[base + quotient_position(slot, 0)]
    } else {
        false
    };
    (word != multiple) != borrow
}

/// The row of a live slot.
fn read_row(z: &[bool], base: usize, slot: usize) -> (row: Row)
    requires
        base + K <= z@.len(),
        slot < SLOTS,
    ensures
        is_row(row, z@.subrange(base as int, base + K), slot as int),
        row.count < 1_024,
        row.value < 32_768,
{
    let total: usize = z.len();
    let ghost block = z@.subrange(base as int, base + K);
    let ghost f = |b: int| value(block, CNT + b, slot as int);
    let ghost g = |c: int| packed_value_bit(block, slot as int, c);
    proof {
        lemma2_to64();
    }
    let mut count: u16 = 0;
    let mut power: u16 = 1;
    let mut b: usize = 0;
    while b < COUNTER_BITS
        invariant
            total == z@.len(),
            base + K <= total,
            slot < SLOTS,
            b <= COUNTER_BITS,
            block == z@.subrange(base as int, base + K),
            f == (|b: int| value(block, CNT + b, slot as int)),
            power == pow2(b as nat),
            count == bits_value(f, b as int),
            count < power,
        decreases COUNTER_BITS - b,
    {
        proof {
            lemma2_to64();
            lemma_pow2_unfold((b + 1) as nat);
            let w = wire_at(CNT + b, slot as int);
            assert(block[w] == z@[base + w]);
            assert(power <= 512);
        }
        if z[base + counter_position(slot, b)] {
            count = count + power;
        }
        power = 2 * power;
        b = b + 1;
    }
    let mut packed: u16 = 0;
    power = 1;
    let mut borrow = false;
    let mut c: usize = 0;
    while c < 14
        invariant
            total == z@.len(),
            base + K <= total,
            slot < SLOTS,
            c <= 14,
            block == z@.subrange(base as int, base + K),
            g == (|c: int| packed_value_bit(block, slot as int, c)),
            power == pow2(c as nat),
            packed == bits_value(g, c as int),
            packed < power,
            borrow == crate::hash_to_point_slots::relation::carry(
                block,
                G as int,
                slot as int,
                c as int,
            ),
        decreases 14 - c,
    {
        proof {
            lemma2_to64();
            lemma_pow2_unfold((c + 1) as nat);
            let w = wire_at(X + c, slot as int);
            assert(block[w] == z@[base + w]);
            let v = wire_at(G + c, slot as int);
            assert(block[v] == z@[base + v]);
            assert(power <= 8_192);
        }
        if difference_bit(z, base, slot, c, borrow) {
            packed = packed + power;
        }
        borrow = z[base + borrow_position(slot, c)] != borrow;
        power = 2 * power;
        c = c + 1;
    }
    proof {
        let w = wire_at(U as int, slot as int);
        assert(block[w] == z@[base + w]);
        let v = wire_at(GATE as int, slot as int);
        assert(block[v] == z@[base + v]);
        assert(bits_value(g, 15) == bits_value(g, 14) + (if g(14) {
            16_384int
        } else {
            0
        }));
    }
    if z[base + centering_position(slot)] {
        packed = packed + 16_384;
    }
    let gate = z[base + gate_position(slot)];
    Row { count, value: packed, gate }
}

/// The powers of a base; the steps are its squares.
fn record_weights(delta: F128, record_vars: usize, steps: &Vec<F128>) -> (weights: Vec<F128>)
    requires
        steps@ == Seq::new(record_vars as nat, |k: int| frob(delta, k)),
        pow2(record_vars as nat) <= usize::MAX,
    ensures
        weights@ == Seq::new(pow2(record_vars as nat), |j: int| fpow(delta, j)),
        geometric(weights@, steps@),
{
    let records: usize = power_of_two(record_vars);
    let mut weights: Vec<F128> = Vec::new();
    let mut power = F128::one();
    let mut j: usize = 0;
    while j < records
        invariant
            j <= records,
            weights@.len() == j,
            power == fpow(delta, j as int),
            forall|k: int| 0 <= k < j ==> #[trigger] weights@[k] == fpow(delta, k),
        decreases records - j,
    {
        weights.push(power);
        power = power * delta;
        j = j + 1;
    }
    proof {
        lemma_pow2_pos(record_vars as nat);
        assert(weights@ =~= Seq::new(pow2(record_vars as nat), |j: int| fpow(delta, j)));
        assert forall|k: int, i: int|
            #![trigger steps@[k], weights@[i]]
            0 <= k < steps@.len() && 0 <= i < pow2(k as nat) implies weights@[i + pow2(k as nat)]
            == fmul(weights@[i], steps@[k]) by {
            lemma_frob_is_power(delta, k);
            lemma_fpow_add(delta, i, pow2(k as nat) as int);
            lemma_pow2_unfold((k + 1) as nat);
            if k + 1 < record_vars {
                lemma_pow2_strictly_increases((k + 1) as nat, record_vars as nat);
            }
        }
    }
    weights
}

/// `base^(2^k)` by repeated squaring.
proof fn lemma_frob_is_power(base: F128, k: int)
    requires
        0 <= k,
    ensures
        frob(base, k) == fpow(base, pow2(k as nat) as int),
    decreases k,
{
    lemma2_to64();
    if k == 0 {
        reveal_with_fuel(fpow, 2);
        lemma_fmul_one(base);
    } else {
        lemma_frob_is_power(base, k - 1);
        lemma_pow2_unfold(k as nat);
        let n = pow2((k - 1) as nat) as int;
        lemma_fpow_add(base, n, n);
    }
}

impl Factors {
    /// Read the rows from the committed bits, `2^17` per record, and tabulate
    /// the powers.
    pub fn new(z: &[bool], record_vars: usize, beta: F128, gamma: F128, delta: F128) -> (factors:
        Factors)
        requires
            2 <= record_vars < 47,
            z@.len() == pow2(record_vars as nat) * K,
        ensures
            factors.well_formed(),
            factors.record_vars == record_vars,
            factors.beta@ == Seq::new(COUNTER_BITS as nat, |b: int| frob(beta, b)),
            factors.delta_powers@ == Seq::new(record_vars as nat, |k: int| frob(delta, k)),
            factors.delta@ == Seq::new(pow2(record_vars as nat), |j: int| fpow(delta, j)),
            forall|v: int|
                0 <= v < 32_768 ==> #[trigger] factors.gamma@[v] == subset_sum(
                    Seq::new(15, |c: int| fpow(gamma, c)),
                    v,
                ),
            forall|i: int|
                0 <= i < factors.rows@.len() ==> is_row(
                    #[trigger] factors.rows@[i],
                    block_of(z@, K as int, i / PLANE as int),
                    i % (PLANE as int),
                ),
    {
        let total: usize = z.len();
        proof {
            lemma2_to64();
            lemma_pow2_pos(record_vars as nat);
            lemma_pow2_adds(record_vars as nat, 10);
            assert(pow2(record_vars as nat) <= total) by (nonlinear_arith)
                requires
                    total == pow2(record_vars as nat) * K,
                    pow2(record_vars as nat) > 0,
            ;
            assert(pow2(record_vars as nat) * PLANE <= total) by (nonlinear_arith)
                requires
                    total == pow2(record_vars as nat) * K,
                    pow2(record_vars as nat) > 0,
                    PLANE <= K,
            ;
        }
        let records: usize = power_of_two(record_vars);
        let mut rows: Vec<Row> = Vec::new();
        let mut record: usize = 0;
        while record < records
            invariant
                total == z@.len(),
                total == records * K,
                records * PLANE <= total,
                record <= records,
                rows@.len() == record * PLANE,
                forall|i: int|
                    0 <= i < rows@.len() ==> (#[trigger] rows@[i]).count < 1_024 && rows@[i].value
                        < 32_768,
                forall|i: int|
                    0 <= i < rows@.len() ==> is_row(
                        #[trigger] rows@[i],
                        block_of(z@, K as int, i / PLANE as int),
                        i % (PLANE as int),
                    ),
            decreases records - record,
        {
            proof {
                assert(record * K + K <= total) by (nonlinear_arith)
                    requires
                        record < records,
                        total == records * K,
                ;
                assert(record * PLANE + PLANE <= records * PLANE) by (nonlinear_arith)
                    requires
                        record < records,
                ;
            }
            let base: usize = record * K;
            let ghost block = block_of(z@, K as int, record as int);
            assert(block =~= z@.subrange(base as int, base + K)) by {
                assert(record * K + K == (record + 1) * K) by (nonlinear_arith);
            }
            let mut slot: usize = 0;
            while slot < PLANE
                invariant
                    total == z@.len(),
                    base + K <= total,
                    block == z@.subrange(base as int, base + K),
                    block == block_of(z@, K as int, record as int),
                    slot <= PLANE,
                    rows@.len() == record * PLANE + slot,
                    forall|i: int|
                        0 <= i < rows@.len() ==> (#[trigger] rows@[i]).count < 1_024
                            && rows@[i].value < 32_768,
                    forall|i: int|
                        0 <= i < rows@.len() ==> is_row(
                            #[trigger] rows@[i],
                            block_of(z@, K as int, i / PLANE as int),
                            i % (PLANE as int),
                        ),
                decreases PLANE - slot,
            {
                let row = if slot < SLOTS {
                    read_row(z, base, slot)
                } else {
                    Row { count: 0, value: 0, gate: false }
                };
                assert((record * PLANE + slot) / PLANE as int == record);
                assert((record * PLANE + slot) % (PLANE as int) == slot);
                rows.push(row);
                slot = slot + 1;
            }
            assert((record + 1) * PLANE == record * PLANE + PLANE) by (nonlinear_arith);
            record = record + 1;
        }
        let powers = crate::hash_to_point_scatter::slot_tables::powers_of(gamma, 15);
        let table = subset_sums(F128::zero(), powers.as_slice());
        let beta_powers = frobenius_powers(beta, COUNTER_BITS);
        let delta_powers = frobenius_powers(delta, record_vars);
        let weights = record_weights(delta, record_vars, &delta_powers);
        let factors = Factors {
            rows,
            record_vars,
            beta: beta_powers,
            gamma: table,
            delta: weights,
            delta_powers,
        };
        proof {
            assert forall|v: int| 0 <= v < 32_768 implies #[trigger] factors.gamma@[v]
                == subset_sum(Seq::new(15, |c: int| fpow(gamma, c)), v) by {
                lemma_fadd_zero(subset_sum(powers@, v));
            }
            assert forall|i: int|
                0 <= i < factors.rows@.len() && i % (PLANE as int) >= SLOTS implies !(
            #[trigger] factors.rows@[i]).gate by {
                assert(is_row(
                    factors.rows@[i],
                    block_of(z@, K as int, i / PLANE as int),
                    i % (PLANE as int),
                ));
            }
        }
        factors
    }
}

} // verus!
