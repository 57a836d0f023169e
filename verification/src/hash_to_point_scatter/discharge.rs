//! Terminal discharge of the scatter sumcheck: every factor's multilinear
//! extension at the scatter point reduces to openings of witness planes, and
//! to one two-factor sumcheck for the counter's prefix parities, whose weight
//! is the greater-than multilinear.
use vstd::arithmetic::power2::{lemma2_to64, lemma_pow2_unfold, pow2};
use vstd::prelude::*;

use crate::field::{
    fadd, fmul, fone, fselect, fzero, lemma_fadd_assoc, lemma_fadd_comm, lemma_fadd_zero,
    lemma_fmul_assoc, lemma_fmul_comm, lemma_fmul_distr, lemma_fmul_one, lemma_fmul_zero, F128,
};
use crate::frobenius::frob;
use crate::hash_to_point_scatter::power_sum::frobenius_powers;
use crate::hash_to_point_scatter::{honest_rounds, prove, verify, verify_outcome};
use crate::hash_to_point_slots::relation::{increment, value, wire_at};
use crate::hash_to_point_slots::setup::{accept_position, increment_position};
use crate::hash_to_point_slots::{ACC, COUNTER_BITS, H, PLANE, SLOT_VARS};
use crate::mle::{
    bit_element, bit_value, eq_table, eq_weight, fold_table, lemma_eq_weight_first,
    lemma_eq_weights_sum, lemma_lerp, lemma_mle_add, lemma_mle_constant, lemma_mle_scale, lerp, mle,
};
use crate::sumcheck::{product_sum, shaped, tables, ScatterProof};
use crate::sums::{
    fpow, fprod, fsum, lemma_fsum_add, lemma_fsum_congr, lemma_fsum_scale, lemma_fsum_single,
    lemma_fsum_split, lemma_fsum_zero,
};

verus! {

/// `sum_{s > t} eq(r, s)`.
pub open spec fn gt_weight(r: Seq<F128>, t: int) -> F128 {
    fsum(|s: int| fselect(s > t, eq_weight(r, s)), pow2(r.len()) as int)
}

/// The greater-than weights of a point.
pub open spec fn gt_weights(r: Seq<F128>) -> Seq<F128> {
    Seq::new(pow2(r.len()), |t: int| gt_weight(r, t))
}

/// The greater-than recursion, most significant variable first.
spec fn gt_value(x: Seq<F128>, y: Seq<F128>) -> F128
    decreases x.len(),
{
    if x.len() == 0 {
        fzero()
    } else {
        fadd(
            fmul(x[0], fadd(fone(), y[0])),
            fmul(both_weight(x[0], y[0]), gt_value(x.drop_first(), y.drop_first())),
        )
    }
}

/// `x y + (1 + x)(1 + y)`: the weight of equal bits.
spec fn both_weight(x: F128, y: F128) -> F128 {
    fadd(fmul(x, y), fmul(fadd(fone(), x), fadd(fone(), y)))
}

proof fn lemma_gt_weight_low(x: Seq<F128>, t: int)
    requires
        x.len() > 0,
        0 <= t < pow2((x.len() - 1) as nat),
    ensures
        gt_weight(x, t) == fadd(
            fmul(fadd(fone(), x[0]), gt_weight(x.drop_first(), t)),
            x[0],
        ),
{
    lemma_pow2_unfold(x.len());
    let n = pow2((x.len() - 1) as nat) as int;
    let rest = x.drop_first();
    let f = |s: int| fselect(s > t, eq_weight(x, s));
    lemma_fsum_split(f, n, n);
    let g = |s: int| fselect(s > t, eq_weight(rest, s));
    let low = |s: int| fmul(fadd(fone(), x[0]), g(s));
    assert forall|s: int| 0 <= s < n implies #[trigger] f(s) == low(s) by {
        lemma_eq_weight_first(x, false, s);
        lemma_fmul_zero(fadd(fone(), x[0]));
    }
    lemma_fsum_congr(f, low, n);
    lemma_fsum_scale(fadd(fone(), x[0]), g, n);
    let w = |s: int| eq_weight(rest, s);
    let high = |s: int| f(n + s);
    let scaled = |s: int| fmul(x[0], w(s));
    assert forall|s: int| 0 <= s < n implies #[trigger] high(s) == scaled(s) by {
        lemma_eq_weight_first(x, true, s);
    }
    lemma_fsum_congr(high, |i: int| f(n + i), n);
    lemma_fsum_congr(high, scaled, n);
    lemma_fsum_scale(x[0], w, n);
    lemma_eq_weights_sum(rest);
    lemma_fmul_one(x[0]);
}

proof fn lemma_gt_weight_high(x: Seq<F128>, t: int)
    requires
        x.len() > 0,
        0 <= t < pow2((x.len() - 1) as nat),
    ensures
        gt_weight(x, t + pow2((x.len() - 1) as nat)) == fmul(x[0], gt_weight(x.drop_first(), t)),
{
    lemma_pow2_unfold(x.len());
    let n = pow2((x.len() - 1) as nat) as int;
    let rest = x.drop_first();
    let f = |s: int| fselect(s > t + n, eq_weight(x, s));
    lemma_fsum_split(f, n, n);
    lemma_fsum_zero(f, n);
    let g = |s: int| fselect(s > t, eq_weight(rest, s));
    let high = |s: int| f(n + s);
    let scaled = |s: int| fmul(x[0], g(s));
    assert forall|s: int| 0 <= s < n implies #[trigger] high(s) == scaled(s) by {
        lemma_eq_weight_first(x, true, s);
        lemma_fmul_zero(x[0]);
    }
    lemma_fsum_congr(high, |i: int| f(n + i), n);
    lemma_fsum_congr(high, scaled, n);
    lemma_fsum_scale(x[0], g, n);
    lemma_fadd_zero(fsum(scaled, n));
}

/// `(1 + y)((1 + x) g + x) + y (x g)` collects the greater-than step.
proof fn lemma_gt_step(x: F128, y: F128, g: F128)
    ensures
        lerp(fadd(fmul(fadd(fone(), x), g), x), fmul(x, g), y) == fadd(
            fmul(both_weight(x, y), g),
            fmul(x, fadd(fone(), y)),
        ),
{
    let nx = fadd(fone(), x);
    let ny = fadd(fone(), y);
    lemma_lerp(fadd(fmul(nx, g), x), fmul(x, g), y);
    lemma_fmul_distr(ny, fmul(nx, g), x);
    lemma_fmul_assoc(ny, nx, g);
    lemma_fmul_comm(ny, nx);
    lemma_fmul_comm(ny, x);
    lemma_fmul_assoc(y, x, g);
    lemma_fmul_comm(y, x);
    // (nx ny) g + x ny + (x y) g
    let a = fmul(fmul(nx, ny), g);
    let b = fmul(x, ny);
    let c = fmul(fmul(x, y), g);
    lemma_fadd_assoc(a, b, c);
    lemma_fadd_comm(b, c);
    lemma_fadd_assoc(a, c, b);
    lemma_fmul_distr(g, fmul(x, y), fmul(nx, ny));
    lemma_fmul_comm(g, fmul(x, y));
    lemma_fmul_comm(g, fmul(nx, ny));
    lemma_fmul_comm(g, both_weight(x, y));
    lemma_fadd_comm(a, c);
}

/// The greater-than recursion evaluates the multilinear extension of the
/// greater-than weights.
proof fn lemma_gt_value(x: Seq<F128>, y: Seq<F128>)
    requires
        x.len() == y.len(),
    ensures
        gt_value(x, y) == mle(gt_weights(x), y),
    decreases x.len(),
{
    lemma2_to64();
    let whole = gt_weights(x);
    if x.len() == 0 {
        reveal_with_fuel(fsum, 2);
        lemma_fadd_zero(fzero());
    } else {
        let n = pow2((x.len() - 1) as nat);
        lemma_pow2_unfold(x.len());
        let xr = x.drop_first();
        let yr = y.drop_first();
        lemma_gt_value(xr, yr);
        let inner = gt_weights(xr);
        let a = both_weight(x[0], y[0]);
        let c = fmul(x[0], fadd(fone(), y[0]));
        let scaled = Seq::new(inner.len(), |i: int| fmul(a, inner[i]));
        let constant = Seq::new(n, |i: int| c);
        let folded = fold_table(whole, y[0]);
        assert forall|t: int| 0 <= t < n implies #[trigger] folded[t] == fadd(scaled[t], constant[t]) by {
            lemma_gt_weight_low(x, t);
            lemma_gt_weight_high(x, t);
            lemma_gt_step(x[0], y[0], gt_weight(xr, t));
        }
        assert(folded =~= Seq::new(scaled.len(), |i: int| fadd(scaled[i], constant[i])));
        lemma_mle_scale(a, inner, yr);
        lemma_mle_constant(c, yr);
        lemma_mle_add(scaled, constant, yr);
        assert(mle(whole, y) == mle(folded, yr));
        lemma_fadd_comm(fmul(a, mle(inner, yr)), c);
    }
}

/// The greater-than multilinear at `(x, y)`: the multilinear extension at `y`
/// of the weights `sum_{s > t} eq(x, s)`.
pub fn gt_mle(x: &[F128], y: &[F128]) -> (result: F128)
    requires
        x@.len() == y@.len(),
    ensures
        result == mle(gt_weights(x@), y@),
{
    let mut prefix = F128::one();
    let mut sum = F128::zero();
    let mut i: usize = 0;
    proof {
        assert(x@.skip(0) =~= x@ && y@.skip(0) =~= y@);
        lemma_fmul_one(gt_value(x@, y@));
        lemma_fadd_zero(gt_value(x@, y@));
    }
    while i < x.len()
        invariant
            x@.len() == y@.len(),
            i <= x@.len(),
            gt_value(x@, y@) == fadd(sum, fmul(prefix, gt_value(x@.skip(i as int), y@.skip(i as int)))),
        decreases x@.len() - i,
    {
        let xi = x[i];
        let yi = y[i];
        proof {
            let xs = x@.skip(i as int);
            let ys = y@.skip(i as int);
            assert(xs.drop_first() =~= x@.skip(i + 1));
            assert(ys.drop_first() =~= y@.skip(i + 1));
            let rest = gt_value(x@.skip(i + 1), y@.skip(i + 1));
            let head = fmul(xi, fadd(fone(), yi));
            let b = both_weight(xi, yi);
            lemma_fmul_distr(prefix, head, fmul(b, rest));
            lemma_fmul_assoc(prefix, b, rest);
            lemma_fmul_assoc(prefix, xi, fadd(fone(), yi));
            lemma_fadd_assoc(sum, fmul(prefix, head), fmul(fmul(prefix, b), rest));
        }
        sum = sum + prefix * xi * (F128::one() + yi);
        prefix = prefix * (xi * yi + (F128::one() + xi) * (F128::one() + yi));
        i = i + 1;
    }
    proof {
        lemma_fmul_zero(prefix);
        lemma_fadd_zero(sum);
        lemma_gt_value(x@, y@);
    }
    sum
}

proof fn lemma_gt_weight_step(r: Seq<F128>, t: int)
    requires
        0 <= t,
        t + 1 < pow2(r.len()),
    ensures
        gt_weight(r, t) == fadd(gt_weight(r, t + 1), eq_weight(r, t + 1)),
{
    let n = pow2(r.len()) as int;
    let f = |s: int| fselect(s > t, eq_weight(r, s));
    let g = |s: int| fselect(s > t + 1, eq_weight(r, s));
    let h = |s: int| fselect(s == t + 1, eq_weight(r, s));
    lemma_fsum_add(g, h, n);
    assert forall|s: int| 0 <= s < n implies #[trigger] f(s) == fadd(g(s), h(s)) by {
        lemma_fadd_zero(eq_weight(r, s));
        lemma_fadd_zero(fzero());
    }
    lemma_fsum_congr(f, |s: int| fadd(g(s), h(s)), n);
    lemma_fsum_single(h, n, t + 1);
}

proof fn lemma_gt_weight_last(r: Seq<F128>)
    ensures
        gt_weight(r, pow2(r.len()) - 1) == fzero(),
{
    let n = pow2(r.len()) as int;
    lemma_fsum_zero(|s: int| fselect(s > n - 1, eq_weight(r, s)), n);
}

/// The prover's weight table: the reverse suffix sums of the equality table.
pub fn weight_table(r: &[F128]) -> (weights: Vec<F128>)
    requires
        pow2(r@.len()) <= usize::MAX,
    ensures
        weights@ == gt_weights(r@),
{
    let eq = eq_table(r);
    let n: usize = eq.len();
    proof {
        vstd::arithmetic::power2::lemma_pow2_pos(r@.len());
        lemma_gt_weight_last(r@);
    }
    let mut reversed: Vec<F128> = Vec::new();
    let mut suffix = F128::zero();
    reversed.push(suffix);
    let mut k: usize = 1;
    while k < n
        invariant
            n == pow2(r@.len()),
            eq@ == Seq::new(pow2(r@.len()), |i: int| eq_weight(r@, i)),
            1 <= k <= n,
            reversed@.len() == k,
            suffix == gt_weight(r@, n - k),
            forall|i: int| 0 <= i < k ==> #[trigger] reversed@[i] == gt_weight(r@, n - 1 - i),
        decreases n - k,
    {
        proof {
            lemma_gt_weight_step(r@, n - 1 - k);
        }
        suffix = suffix + eq[n - k];
        reversed.push(suffix);
        k = k + 1;
    }
    let mut weights: Vec<F128> = Vec::new();
    let mut t: usize = 0;
    while t < n
        invariant
            n == pow2(r@.len()),
            t <= n,
            reversed@.len() == n,
            weights@.len() == t,
            forall|i: int| 0 <= i < n ==> #[trigger] reversed@[i] == gt_weight(r@, n - 1 - i),
            forall|i: int| 0 <= i < t ==> #[trigger] weights@[i] == gt_weight(r@, i),
        decreases n - t,
    {
        weights.push(reversed[n - 1 - t]);
        t = t + 1;
    }
    assert(weights@ =~= gt_weights(r@));
    weights
}

/// The discharge messages: the claimed prefix-parity extensions at the
/// scatter point, and the batched two-factor sumcheck that backs them.
#[derive(Clone, Debug)]
pub struct DischargeProof {
    pub counter_claims: Vec<F128>,
    pub counter_sumcheck: ScatterProof,
}

/// The wire whose prefix parity is counter bit `bit`: the accept flag for bit
/// zero, and the carry out of the bit below for the others.
pub fn counter_source_position(slot: usize, bit: usize) -> (w: usize)
    requires
        slot < PLANE,
        bit <= COUNTER_BITS,
    ensures
        w == if bit == 0 {
            wire_at(ACC as int, slot as int)
        } else {
            wire_at(H + bit - 1, slot as int)
        },
{
    if bit == 0 {
        accept_position(slot)
    } else {
        increment_position(slot, bit - 1)
    }
}

/// The increments into counter bit `bit`, over the padded slot domain.
pub open spec fn source_table(z: Seq<bool>, bit: int) -> Seq<F128> {
    Seq::new(PLANE as nat, |s: int| bit_value(increment(z, s, bit)))
}

/// The increments into counter bit `bit`, over the padded slot domain.
pub fn counter_source_table(block: &[bool], bit: usize) -> (table: Vec<F128>)
    requires
        bit < COUNTER_BITS,
        block@.len() >= wire_at(H + COUNTER_BITS, 0),
    ensures
        table@ == source_table(block@, bit as int),
{
    let mut table: Vec<F128> = Vec::new();
    let mut slot: usize = 0;
    while slot < PLANE
        invariant
            bit < COUNTER_BITS,
            block@.len() >= wire_at(H + COUNTER_BITS, 0),
            slot <= PLANE,
            table@.len() == slot,
            forall|s: int|
                0 <= s < slot ==> #[trigger] table@[s] == bit_value(
                    increment(block@, s, bit as int),
                ),
        decreases PLANE - slot,
    {
        let w = counter_source_position(slot, bit);
        table.push(bit_element(block[w]));
        slot = slot + 1;
    }
    assert(table@ =~= source_table(block@, bit as int));
    table
}

/// The claim of counter bit `bit`: the increments under the greater-than
/// weights of the scatter point.
pub open spec fn counter_claim(z: Seq<bool>, r: Seq<F128>, bit: int) -> F128 {
    fsum(|s: int| fmul(gt_weight(r, s), source_table(z, bit)[s]), PLANE as int)
}

/// The sources combined under the powers of `rho`.
pub open spec fn combined_sources(z: Seq<bool>, rho: F128) -> Seq<F128> {
    Seq::new(
        PLANE as nat,
        |s: int|
            fsum(
                |b: int| fmul(fpow(rho, b), source_table(z, b)[s]),
                COUNTER_BITS as int,
            ),
    )
}

/// The two factors of the discharge sumcheck.
pub open spec fn discharge_tables(z: Seq<bool>, r: Seq<F128>, rho: F128) -> Seq<Seq<F128>> {
    seq![gt_weights(r), combined_sources(z, rho)]
}

/// The claimed extensions of the ten prefix parities at the scatter point.
pub fn counter_claims(block: &[bool], r: &[F128]) -> (claims: Vec<F128>)
    requires
        block@.len() >= wire_at(H + COUNTER_BITS, 0),
        r@.len() == SLOT_VARS,
    ensures
        claims@ == Seq::new(COUNTER_BITS as nat, |b: int| counter_claim(block@, r@, b)),
{
    proof {
        lemma2_to64();
    }
    let weights = weight_table(r);
    let mut claims: Vec<F128> = Vec::new();
    let mut bit: usize = 0;
    while bit < COUNTER_BITS
        invariant
            block@.len() >= wire_at(H + COUNTER_BITS, 0),
            weights@ == gt_weights(r@),
            weights@.len() == PLANE,
            bit <= COUNTER_BITS,
            claims@.len() == bit,
            forall|b: int| 0 <= b < bit ==> #[trigger] claims@[b] == counter_claim(block@, r@, b),
        decreases COUNTER_BITS - bit,
    {
        let h = counter_source_table(block, bit);
        let ghost f = |s: int| fmul(gt_weight(r@, s), source_table(block@, bit as int)[s]);
        let mut sum = F128::zero();
        let mut s: usize = 0;
        while s < PLANE
            invariant
                s <= PLANE,
                weights@ == gt_weights(r@),
                weights@.len() == PLANE,
                h@ == source_table(block@, bit as int),
                f == (|s: int| fmul(gt_weight(r@, s), source_table(block@, bit as int)[s])),
                sum == fsum(f, s as int),
            decreases PLANE - s,
        {
            sum = sum + weights[s] * h[s];
            s = s + 1;
        }
        claims.push(sum);
        bit = bit + 1;
    }
    assert(claims@ =~= Seq::new(COUNTER_BITS as nat, |b: int| counter_claim(block@, r@, b)));
    claims
}

/// The sources combined under the powers of `rho`.
fn combine_sources(block: &[bool], rho: F128) -> (combined: Vec<F128>)
    requires
        block@.len() >= wire_at(H + COUNTER_BITS, 0),
    ensures
        combined@ == combined_sources(block@, rho),
{
    let mut combined: Vec<F128> = Vec::new();
    let mut slot: usize = 0;
    while slot < PLANE
        invariant
            block@.len() >= wire_at(H + COUNTER_BITS, 0),
            slot <= PLANE,
            combined@.len() == slot,
            forall|s: int| 0 <= s < slot ==> #[trigger] combined@[s] == combined_sources(block@, rho)[s],
        decreases PLANE - slot,
    {
        let ghost f = |b: int| fmul(fpow(rho, b), source_table(block@, b)[slot as int]);
        let mut sum = F128::zero();
        let mut power = F128::one();
        let mut bit: usize = 0;
        while bit < COUNTER_BITS
            invariant
                block@.len() >= wire_at(H + COUNTER_BITS, 0),
                slot < PLANE,
                bit <= COUNTER_BITS,
                f == (|b: int| fmul(fpow(rho, b), source_table(block@, b)[slot as int])),
                sum == fsum(f, bit as int),
                power == fpow(rho, bit as int),
            decreases COUNTER_BITS - bit,
        {
            let v = bit_element(block[counter_source_position(slot, bit)]);
            sum = sum + power * v;
            power = power * rho;
            bit = bit + 1;
        }
        combined.push(sum);
        slot = slot + 1;
    }
    assert(combined@ =~= combined_sources(block@, rho));
    combined
}

/// The two tables of the discharge sumcheck: the greater-than weights of the
/// scatter point, and the sources combined under the powers of `rho`.
pub fn discharge_factors(block: &[bool], r: &[F128], rho: F128) -> (factors: Vec<Vec<F128>>)
    requires
        block@.len() >= wire_at(H + COUNTER_BITS, 0),
        r@.len() == SLOT_VARS,
    ensures
        tables(factors@) == discharge_tables(block@, r@, rho),
{
    proof {
        lemma2_to64();
    }
    let weights = weight_table(r);
    let combined = combine_sources(block, rho);
    let mut factors: Vec<Vec<F128>> = Vec::new();
    factors.push(weights);
    factors.push(combined);
    assert(tables(factors@) =~= discharge_tables(block@, r@, rho));
    factors
}

/// Prove the prefix-parity claims at the scatter point `r`: the combiner
/// `rho` is drawn after the claims, and the round challenges after that.
pub fn prove_discharge(block: &[bool], r: &[F128], rho: F128, challenges: &[F128]) -> (proof:
    DischargeProof)
    requires
        block@.len() >= wire_at(H + COUNTER_BITS, 0),
        r@.len() == SLOT_VARS,
        challenges@.len() == SLOT_VARS,
    ensures
        proof.counter_claims@ == Seq::new(
            COUNTER_BITS as nat,
            |b: int| counter_claim(block@, r@, b),
        ),
        proof.counter_sumcheck.claim == product_sum(discharge_tables(block@, r@, rho)),
        tables(proof.counter_sumcheck.rounds@) == honest_rounds(
            discharge_tables(block@, r@, rho),
            challenges@,
        ),
{
    proof {
        lemma2_to64();
    }
    let counter_claims = counter_claims(block, r);
    let factors = discharge_factors(block, r, rho);
    proof {
        assert(shaped(tables(factors@), challenges@.len()));
    }
    let (counter_sumcheck, _point) = prove(factors, challenges);
    DischargeProof { counter_claims, counter_sumcheck }
}

/// The plane openings that the discharge reads: the counter sources at the
/// sumcheck point, everything else at the scatter point.
#[derive(Clone, Debug)]
pub struct DischargeOpenings {
    pub sources: Vec<F128>,
    pub gate: F128,
    pub words: Vec<F128>,
    pub quotients: Vec<F128>,
    pub borrows: Vec<F128>,
    pub centering: F128,
}

impl DischargeOpenings {
    /// One opening per plane that is read.
    pub open spec fn complete(self) -> bool {
        &&& self.sources@.len() == COUNTER_BITS
        &&& self.words@.len() == 14
        &&& self.quotients@.len() == 3
        &&& self.borrows@.len() == 14
    }
}

/// `sum_b rho^b values[b]`.
pub open spec fn combined_value(values: Seq<F128>, rho: F128) -> F128 {
    fsum(|b: int| fmul(fpow(rho, b), values[b]), values.len() as int)
}

/// The opening of multiple bit `c`: the planes of `12,289 q` below bit 14.
pub open spec fn multiple_opening(quotients: Seq<F128>, c: int) -> F128 {
    if c < 3 {
        quotients[c]
    } else if c == 12 {
        quotients[0]
    } else if c == 13 {
        fadd(quotients[0], quotients[1])
    } else {
        fzero()
    }
}

/// The opening of residue bit `c`.
pub open spec fn residue_opening(
    words: Seq<F128>,
    quotients: Seq<F128>,
    borrows: Seq<F128>,
    c: int,
) -> F128 {
    fadd(fadd(words[c], multiple_opening(quotients, c)), fsum(|i: int| borrows[i], c))
}

/// The opening of the value factor.
pub open spec fn value_opening(
    words: Seq<F128>,
    quotients: Seq<F128>,
    borrows: Seq<F128>,
    centering: F128,
    gamma: F128,
) -> F128 {
    fadd(
        fsum(
            |c: int| fmul(fpow(gamma, c), residue_opening(words, quotients, borrows, c)),
            14,
        ),
        fmul(fpow(gamma, 14), centering),
    )
}

/// The scatter terminal as the openings and the claims give it.
pub open spec fn reconstructed(
    gate: F128,
    claims: Seq<F128>,
    value: F128,
    beta: F128,
) -> F128 {
    fmul(fmul(gate, fprod(|b: int| counter_opening(claims[b], beta, b), claims.len() as int)), value)
}

/// Counter factor `b` from the claim of its bit: `1 + (beta^(2^b) + 1) claim`.
pub open spec fn counter_opening(claim: F128, beta: F128, b: int) -> F128 {
    fadd(fone(), fmul(fadd(frob(beta, b), fone()), claim))
}

/// What the discharge verifier returns: success, or the first check that
/// fails.
pub open spec fn discharge_outcome(
    claims: Seq<F128>,
    sumcheck_claim: F128,
    rounds: Seq<Seq<F128>>,
    r: Seq<F128>,
    beta: F128,
    terminal: F128,
    sources: Seq<F128>,
    gate: F128,
    value: F128,
    rho: F128,
    challenges: Seq<F128>,
) -> Result<(), Seq<char>> {
    if claims.len() != COUNTER_BITS {
        Err("discharge has the wrong claim count"@)
    } else if sumcheck_claim != combined_value(claims, rho) {
        Err("discharge claims do not combine to the sumcheck claim"@)
    } else {
        match verify_outcome(sumcheck_claim, rounds, SLOT_VARS as int, 2, challenges) {
            Err(message) => Err(message),
            Ok(sub_terminal) => if sub_terminal != fmul(
                mle(gt_weights(r), challenges),
                combined_value(sources, rho),
            ) {
                Err("discharge sumcheck terminal does not match the openings"@)
            } else if reconstructed(gate, claims, value, beta) != terminal {
                Err("the reconstructed scatter terminal does not match"@)
            } else {
                Ok(())
            },
        }
    }
}

/// `sum_b rho^b values[b]`.
fn combine(values: &Vec<F128>, rho: F128) -> (sum: F128)
    ensures
        sum == combined_value(values@, rho),
{
    let ghost f = |b: int| fmul(fpow(rho, b), values@[b]);
    let mut sum = F128::zero();
    let mut power = F128::one();
    let mut b: usize = 0;
    while b < values.len()
        invariant
            b <= values@.len(),
            f == (|b: int| fmul(fpow(rho, b), values@[b])),
            sum == fsum(f, b as int),
            power == fpow(rho, b as int),
        decreases values@.len() - b,
    {
        sum = sum + power * values[b];
        power = power * rho;
        b = b + 1;
    }
    sum
}

/// The value factor's opening from the plane openings.
fn open_value(openings: &DischargeOpenings, gamma: F128) -> (val: F128)
    requires
        openings.complete(),
    ensures
        val == value_opening(
            openings.words@,
            openings.quotients@,
            openings.borrows@,
            openings.centering,
            gamma,
        ),
{
    let ghost xs = openings.words@;
    let ghost qs = openings.quotients@;
    let ghost gs = openings.borrows@;
    let ghost f = |c: int| fmul(fpow(gamma, c), residue_opening(xs, qs, gs, c));
    let ghost g = |i: int| gs[i];
    let mut gamma_power = F128::one();
    let mut val = F128::zero();
    let mut borrow = F128::zero();
    let mut c: usize = 0;
    while c < 14
        invariant
            openings.complete(),
            c <= 14,
            xs == openings.words@,
            qs == openings.quotients@,
            gs == openings.borrows@,
            f == (|c: int| fmul(fpow(gamma, c), residue_opening(xs, qs, gs, c))),
            g == (|i: int| gs[i]),
            gamma_power == fpow(gamma, c as int),
            val == fsum(f, c as int),
            borrow == fsum(g, c as int),
        decreases 14 - c,
    {
        let m_c = if c < 3 {
            openings.quotients[c]
        } else if c == 12 {
            openings.quotients[0]
        } else if c == 13 {
            openings.quotients[0] + openings.quotients[1]
        } else {
            F128::zero()
        };
        val = val + gamma_power * (openings.words[c] + m_c + borrow);
        borrow = borrow + openings.borrows[c];
        gamma_power = gamma_power * gamma;
        c = c + 1;
    }
    val + gamma_power * openings.centering
}

/// Verify the discharge and reconstruct the scatter terminal from the plane
/// openings, checking it against `terminal`.
pub fn verify_discharge(
    proof: &DischargeProof,
    r: &[F128],
    beta: F128,
    gamma: F128,
    terminal: F128,
    openings: &DischargeOpenings,
    rho: F128,
    challenges: &[F128],
) -> (result: Result<(), &'static str>)
    requires
        r@.len() == SLOT_VARS,
        challenges@.len() == SLOT_VARS,
        openings.complete(),
    ensures
        match discharge_outcome(
            proof.counter_claims@,
            proof.counter_sumcheck.claim,
            tables(proof.counter_sumcheck.rounds@),
            r@,
            beta,
            terminal,
            openings.sources@,
            openings.gate,
            value_opening(
                openings.words@,
                openings.quotients@,
                openings.borrows@,
                openings.centering,
                gamma,
            ),
            rho,
            challenges@,
        ) {
            Ok(()) => result is Ok,
            Err(message) => result matches Err(e) && e@ == message,
        },
{
    if proof.counter_claims.len() != COUNTER_BITS {
        return Err("discharge has the wrong claim count");
    }
    // The batched sumcheck's claim must combine the individual claims.
    let combined_claim = combine(&proof.counter_claims, rho);
    if proof.counter_sumcheck.claim != combined_claim {
        return Err("discharge claims do not combine to the sumcheck claim");
    }
    let (point, sub_terminal) = match verify(&proof.counter_sumcheck, SLOT_VARS, 2, challenges) {
        Ok(checked) => checked,
        Err(e) => {
            return Err(e);
        },
    };
    // The terminal: the greater-than weight times the combined sources.
    let h_combined = combine(&openings.sources, rho);
    if sub_terminal != gt_mle(r, point.as_slice()) * h_combined {
        return Err("discharge sumcheck terminal does not match the openings");
    }
    // The scatter terminal from the openings at `r` and the claims.
    let beta_powers = frobenius_powers(beta, COUNTER_BITS);
    let ghost claims = proof.counter_claims@;
    let ghost f = |b: int| counter_opening(claims[b], beta, b);
    let mut product = openings.gate;
    let mut bit: usize = 0;
    proof {
        lemma_fmul_one(openings.gate);
    }
    while bit < COUNTER_BITS
        invariant
            bit <= COUNTER_BITS,
            claims == proof.counter_claims@,
            claims.len() == COUNTER_BITS,
            beta_powers@ == Seq::new(COUNTER_BITS as nat, |b: int| frob(beta, b)),
            f == (|b: int| counter_opening(claims[b], beta, b)),
            product == fmul(openings.gate, fprod(f, bit as int)),
        decreases COUNTER_BITS - bit,
    {
        proof {
            lemma_fmul_assoc(openings.gate, fprod(f, bit as int), f(bit as int));
        }
        product = product * (F128::one() + (beta_powers[bit] + F128::one())
            * proof.counter_claims[bit]);
        bit = bit + 1;
    }
    product = product * open_value(openings, gamma);
    if product != terminal {
        return Err("the reconstructed scatter terminal does not match");
    }
    Ok(())
}

} // verus!
