//! A Keccak round as two sumchecks over the padded state cube.
//!
//! Write `a = pi rho theta(L)` and let `a1, a2` be its neighbours one and two
//! lanes on. In characteristic two `chi` is `a + a2 + a1 a2` and `iota` adds a
//! public constant, so a claim on a round's output state is a claim on
//! `sum_x eq(rho, x) (a + a2 + a1 a2)(x)`. One cubic sumcheck leaves claims on
//! `a, a1, a2` at one point. Each is a linear image of `L`, so one more
//! sumcheck, batched by powers of a challenge, leaves one claim on `L`.
use vstd::arithmetic::power2::{lemma2_to64, lemma_pow2_unfold, pow2};
use vstd::prelude::*;

use crate::carry_gate::{eq_list, lift, message_list};
use crate::claim_closure::{eq_points, lemma_eq_extension, round_list};
use crate::field::{
    fadd, fmul, fone, fzero, lemma_fadd_assoc, lemma_fadd_comm, lemma_fadd_self, lemma_fadd_zero,
    lemma_fmul_assoc, lemma_fmul_comm, lemma_fmul_distr, lemma_fmul_one, lemma_fmul_zero, F128,
};
use crate::hash_to_point_scatter::small;
use crate::keccak::{
    chi, keccak_round, lane_bit, lane_bits, neighbor_of, rho_pi, rho_pi_lanes, rho_pi_source,
    round_constant, round_constant_of, theta, theta_lanes, Lanes, STATE_BITS,
};
use crate::mle::{
    bit_table, bit_value, copy_table, eq_table, eq_weight, fold_all, fold_in_place, fold_table,
    lemma_fold_all_concat, lemma_mle_add, lemma_mle_is_weighted_sum, lerp, mle,
};
use crate::polynomial::lemma_poly_add;
use crate::sumcheck::{
    lagrange, lemma_lagrange_exact, lemma_round_value_poly, lerp_term, node, round_evals,
    round_value,
};
use crate::sums::{
    fprod, fsum, lemma_fsum_add, lemma_fsum_congr, lemma_fsum_exchange, lemma_fsum_scale,
    lemma_fsum_single, lemma_fsum_split, lemma_fsum_zero,
};

verus! {

/// The state cube: 1,600 bits in `2^11`.
pub const STATE_VARS: usize = 11;

pub const CUBE: usize = 2048;

// ---------------------------------------------------------------------------
// The linear layer.
// ---------------------------------------------------------------------------

/// The parity of `n` bits.
pub open spec fn parity(f: spec_fn(int) -> bool, n: int) -> bool
    decreases n,
{
    if n <= 0 {
        false
    } else {
        parity(f, n - 1) != f(n - 1)
    }
}

/// The state with one bit set.
pub open spec fn unit(i: int) -> Seq<bool> {
    Seq::new(1600, |k: int| k == i)
}

/// The linear layer of a round.
pub open spec fn linear_layer(s: Seq<bool>) -> Seq<bool> {
    rho_pi(theta(s))
}

/// The eleven bits that the linear layer adds up for bit `out`.
pub open spec fn tap_source(out: int, j: int) -> int {
    let q = rho_pi_source(out);
    let x = q % 25 % 5;
    let z = q / 25;
    if j == 0 {
        q
    } else if j <= 5 {
        (x + 4) % 5 + 5 * (j - 1) + 25 * z
    } else {
        (x + 1) % 5 + 5 * (j - 6) + 25 * ((z + 63) % 64)
    }
}

proof fn lemma_linear_bit(s: Seq<bool>, out: int)
    requires
        0 <= out < 1600,
    ensures
        linear_layer(s)[out] == parity(|j: int| s[tap_source(out, j)], 11),
        forall|j: int| 0 <= j < 11 ==> 0 <= #[trigger] tap_source(out, j) < 1600,
{
    reveal_with_fuel(parity, 12);
    let f = |j: int| s[tap_source(out, j)];
    let q = rho_pi_source(out);
    assert(0 <= q < 1600);
    assert(f(0) == s[q]);
    assert(forall|j: int| 0 <= j < 11 ==> 0 <= #[trigger] tap_source(out, j) < 1600);
}

proof fn lemma_parity_congr(f: spec_fn(int) -> bool, g: spec_fn(int) -> bool, n: int)
    requires
        forall|i: int| 0 <= i < n ==> #[trigger] f(i) == g(i),
    ensures
        parity(f, n) == parity(g, n),
    decreases n,
{
    if n > 0 {
        lemma_parity_congr(f, g, n - 1);
    }
}

proof fn lemma_parity_single(s: Seq<bool>, k: int, n: int)
    requires
        0 <= n,
    ensures
        parity(|i: int| s[i] && i == k, n) == (0 <= k < n && s[k]),
    decreases n,
{
    if n > 0 {
        lemma_parity_single(s, k, n - 1);
    }
}

proof fn lemma_parity_none(f: spec_fn(int) -> bool, n: int)
    requires
        forall|i: int| 0 <= i < n ==> !(#[trigger] f(i)),
    ensures
        !parity(f, n),
    decreases n,
{
    if n > 0 {
        lemma_parity_none(f, n - 1);
    }
}

proof fn lemma_parity_sum(f: spec_fn(int) -> bool, g: spec_fn(int) -> bool, n: int)
    ensures
        parity(|i: int| f(i) != g(i), n) == (parity(f, n) != parity(g, n)),
    decreases n,
{
    if n > 0 {
        lemma_parity_sum(f, g, n - 1);
    }
}

/// Selecting by a parity of positions is the parity of the selections.
proof fn lemma_parity_select(s: Seq<bool>, source: spec_fn(int) -> int, m: int, n: int)
    requires
        0 <= n,
        forall|j: int| 0 <= j < m ==> 0 <= #[trigger] source(j) < n,
    ensures
        parity(|i: int| s[i] && parity(|j: int| source(j) == i, m), n) == parity(
            |j: int| s[source(j)],
            m,
        ),
    decreases m,
{
    let f = |i: int| s[i] && parity(|j: int| source(j) == i, m);
    if m <= 0 {
        lemma_parity_none(f, n);
    } else {
        lemma_parity_select(s, source, m - 1, n);
        let g = |i: int| s[i] && parity(|j: int| source(j) == i, m - 1);
        let k = source(m - 1);
        let h = |i: int| s[i] && i == k;
        assert forall|i: int| 0 <= i < n implies #[trigger] f(i) == (g(i) != h(i)) by {
            let e = |j: int| source(j) == i;
            assert(parity(e, m) == (parity(e, m - 1) != e(m - 1)));
        }
        lemma_parity_congr(f, |i: int| g(i) != h(i), n);
        lemma_parity_sum(g, h, n);
        lemma_parity_single(s, k, n);
    }
}

/// The linear layer is determined by its values on unit states.
pub proof fn linear_layer_is_linear(s: Seq<bool>, out: int)
    requires
        0 <= out < 1600,
    ensures
        linear_layer(s)[out] == parity(|i: int| s[i] && linear_layer(unit(i))[out], 1600),
{
    lemma_linear_bit(s, out);
    let source = |j: int| tap_source(out, j);
    assert forall|j: int| 0 <= j < 11 implies 0 <= #[trigger] source(j) < 1600 by {
        assert(0 <= tap_source(out, j) < 1600);
    }
    lemma_parity_select(s, source, 11, 1600);
    lemma_parity_congr(|j: int| s[tap_source(out, j)], |j: int| s[source(j)], 11);
    let f = |i: int| s[i] && parity(|j: int| source(j) == i, 11);
    let g = |i: int| s[i] && linear_layer(unit(i))[out];
    assert forall|i: int| 0 <= i < 1600 implies #[trigger] f(i) == g(i) by {
        lemma_linear_bit(unit(i), out);
        let a = |j: int| unit(i)[tap_source(out, j)];
        let b = |j: int| source(j) == i;
        assert forall|j: int| 0 <= j < 11 implies #[trigger] a(j) == b(j) by {
            assert(0 <= tap_source(out, j) < 1600);
        }
        lemma_parity_congr(a, b, 11);
    }
    lemma_parity_congr(f, g, 1600);
}

/// The linear layer as tap lists.
#[derive(Clone, Debug)]
pub struct LinearTaps {
    /// The input bits added into each output bit.
    pub taps: Vec<Vec<u16>>,
}

/// The inputs below `n` whose unit state sets `out`, in order.
pub open spec fn tap_list(out: int, n: int) -> Seq<u16>
    decreases n,
{
    if n <= 0 {
        Seq::empty()
    } else if linear_layer(unit(n - 1))[out] {
        tap_list(out, n - 1).push((n - 1) as u16)
    } else {
        tap_list(out, n - 1)
    }
}

/// The parity of the listed bits.
pub open spec fn tap_parity(taps: Seq<u16>, bits: Seq<bool>) -> bool {
    parity(|t: int| bits[taps[t] as int], taps.len() as int)
}

impl LinearTaps {
    /// One list per state bit, all inside the cube.
    pub open spec fn well_formed(self) -> bool {
        &&& self.taps@.len() == 1600
        &&& forall|i: int, t: int|
            #![trigger self.taps@[i]@[t]]
            0 <= i < 1600 && 0 <= t < self.taps@[i]@.len() ==> self.taps@[i]@[t] < 2048
    }

    /// The lists are those of the linear layer.
    pub open spec fn is_linear(self) -> bool {
        &&& self.taps@.len() == 1600
        &&& forall|i: int| 0 <= i < 1600 ==> (#[trigger] self.taps@[i])@ == tap_list(i, 1600)
    }
}

proof fn lemma_tap_list(out: int, n: int, bits: Seq<bool>)
    requires
        0 <= n <= 1600,
    ensures
        forall|t: int| 0 <= t < tap_list(out, n).len() ==> #[trigger] tap_list(out, n)[t] < n,
        tap_parity(tap_list(out, n), bits) == parity(
            |i: int| bits[i] && linear_layer(unit(i))[out],
            n,
        ),
        tap_list(out, n).len() <= n,
    decreases n,
{
    if n > 0 {
        lemma_tap_list(out, n - 1, bits);
        let list = tap_list(out, n);
        let before = tap_list(out, n - 1);
        if linear_layer(unit(n - 1))[out] {
            lemma_parity_congr(
                |t: int| bits[list[t] as int],
                |t: int| bits[before[t] as int],
                before.len() as int,
            );
        }
    }
}

/// The taps of the linear layer reproduce it on every state.
pub proof fn taps_reproduce_the_linear_layer(taps: LinearTaps, bits: Seq<bool>, out: int)
    requires
        taps.is_linear(),
        0 <= out < 1600,
        bits.len() >= 1600,
    ensures
        taps.well_formed(),
        tap_parity(taps.taps@[out]@, bits) == linear_layer(bits.take(1600))[out],
{
    let s = bits.take(1600);
    assert(taps.taps@[out]@ == tap_list(out, 1600));
    lemma_tap_list(out, 1600, bits);
    linear_layer_is_linear(s, out);
    lemma_parity_congr(
        |i: int| bits[i] && linear_layer(unit(i))[out],
        |i: int| s[i] && linear_layer(unit(i))[out],
        1600,
    );
    assert forall|i: int, t: int|
        #![trigger taps.taps@[i]@[t]]
        0 <= i < 1600 && 0 <= t < taps.taps@[i]@.len() implies taps.taps@[i]@[t] < 2048 by {
        assert(taps.taps@[i]@ == tap_list(i, 1600));
        lemma_tap_list(i, 1600, bits);
    }
}

/// The taps of `pi rho theta`, read off the lane functions on unit states.
pub fn linear_taps() -> (result: LinearTaps)
    ensures
        result.is_linear(),
        result.well_formed(),
{
    let mut taps: Vec<Vec<u16>> = Vec::new();
    let mut i: usize = 0;
    while i < STATE_BITS
        invariant
            i <= STATE_BITS,
            taps@.len() == i,
            forall|k: int| 0 <= k < i ==> (#[trigger] taps@[k])@ == tap_list(k, 0),
        decreases STATE_BITS - i,
    {
        let row: Vec<u16> = Vec::new();
        assert(row@ =~= tap_list(i as int, 0));
        taps.push(row);
        i = i + 1;
    }
    let mut input: usize = 0;
    while input < STATE_BITS
        invariant
            input <= STATE_BITS,
            taps@.len() == 1600,
            forall|k: int| 0 <= k < 1600 ==> (#[trigger] taps@[k])@ == tap_list(k, input as int),
        decreases STATE_BITS - input,
    {
        let mut lanes = unit_lanes(input);
        theta_lanes(&mut lanes);
        let out = rho_pi_lanes(&lanes);
        let ghost image = linear_layer(unit(input as int));
        let mut k: usize = 0;
        while k < STATE_BITS
            invariant
                input < STATE_BITS,
                k <= STATE_BITS,
                lane_bits(out@) == image,
                image == linear_layer(unit(input as int)),
                taps@.len() == 1600,
                forall|j: int| 0 <= j < k ==> (#[trigger] taps@[j])@ == tap_list(j, input + 1),
                forall|j: int| k <= j < 1600 ==> (#[trigger] taps@[j])@ == tap_list(j, input as int),
            decreases STATE_BITS - k,
        {
            let ghost before = taps@;
            let set = (out[k % 25] >> ((k / 25) as u64)) & 1 == 1;
            assert(set == lane_bits(out@)[k as int]);
            if set {
                let mut row: Vec<u16> = Vec::new();
                std::mem::swap(&mut row, &mut taps[k]);
                row.push(input as u16);
                std::mem::swap(&mut row, &mut taps[k]);
            }
            proof {
                assert forall|j: int| 0 <= j < k + 1 implies (#[trigger] taps@[j])@ == tap_list(
                    j,
                    input + 1,
                ) by {
                    if j < k {
                        assert(taps@[j] == before[j]);
                    }
                }
                assert forall|j: int| k + 1 <= j < 1600 implies (#[trigger] taps@[j])@ == tap_list(
                    j,
                    input as int,
                ) by {
                    assert(taps@[j] == before[j]);
                }
            }
            k = k + 1;
        }
        input = input + 1;
    }
    let result = LinearTaps { taps };
    proof {
        taps_reproduce_the_linear_layer(result, unit(0), 0);
    }
    result
}

/// The lanes of a unit state.
fn unit_lanes(input: usize) -> (lanes: Lanes)
    requires
        input < STATE_BITS,
    ensures
        lane_bits(lanes@) == unit(input as int),
{
    let mut state: [bool; 1600] = [false; 1600];
    state[input] = true;
    assert(state@ =~= unit(input as int));
    crate::keccak::state_to_lanes(&state)
}

/// The bit `dx` lanes on in the same row.
pub fn neighbor(index: usize, dx: usize) -> (n: usize)
    requires
        index < STATE_BITS,
        dx < 5,
    ensures
        n == neighbor_of(index as int, dx as int),
        n < STATE_BITS,
{
    let lane: usize = index % 25;
    let z: usize = index / 25;
    let shifted: usize = (lane % 5 + dx) % 5 + 5 * (lane / 5);
    shifted + 25 * z
}

/// The linear image of a state on the cube.
pub open spec fn image_bits(taps: LinearTaps, bits: Seq<bool>) -> Seq<bool> {
    Seq::new(2048, |i: int| i < 1600 && tap_parity(taps.taps@[i]@, bits))
}

/// The image's bits `dx` lanes on.
pub open spec fn shifted_bits(image: Seq<bool>, dx: int) -> Seq<bool> {
    Seq::new(2048, |i: int| i < 1600 && image[neighbor_of(i, dx)])
}

/// Apply the taps to a bit state.
pub fn apply_taps(taps: &LinearTaps, bits: &[bool]) -> (out: Vec<bool>)
    requires
        taps.well_formed(),
        bits@.len() == 2048,
    ensures
        out@ == image_bits(*taps, bits@),
{
    let mut out: Vec<bool> = Vec::new();
    let mut i: usize = 0;
    while i < CUBE
        invariant
            taps.well_formed(),
            bits@.len() == 2048,
            i <= CUBE,
            out@.len() == i,
            forall|k: int| 0 <= k < i ==> #[trigger] out@[k] == image_bits(*taps, bits@)[k],
        decreases CUBE - i,
    {
        let mut acc = false;
        if i < STATE_BITS {
            let row = &taps.taps[i];
            let ghost f = |t: int| bits@[row@[t] as int];
            let mut t: usize = 0;
            while t < row.len()
                invariant
                    taps.well_formed(),
                    bits@.len() == 2048,
                    i < STATE_BITS,
                    *row == taps.taps@[i as int],
                    f == (|t: int| bits@[row@[t] as int]),
                    t <= row@.len(),
                    acc == parity(f, t as int),
                decreases row@.len() - t,
            {
                assert(taps.taps@[i as int]@[t as int] < 2048);
                acc = acc != bits[row[t] as usize];
                t = t + 1;
            }
        }
        out.push(acc);
        i = i + 1;
    }
    assert(out@ =~= image_bits(*taps, bits@));
    out
}

fn shift_image(image: &Vec<bool>, dx: usize) -> (out: Vec<bool>)
    requires
        image@.len() == 2048,
        dx < 5,
    ensures
        out@ == shifted_bits(image@, dx as int),
{
    let mut out: Vec<bool> = Vec::new();
    let mut i: usize = 0;
    while i < CUBE
        invariant
            image@.len() == 2048,
            dx < 5,
            i <= CUBE,
            out@.len() == i,
            forall|k: int| 0 <= k < i ==> #[trigger] out@[k] == shifted_bits(image@, dx as int)[k],
        decreases CUBE - i,
    {
        if i < STATE_BITS {
            out.push(image[neighbor(i, dx)]);
        } else {
            out.push(false);
        }
        i = i + 1;
    }
    assert(out@ =~= shifted_bits(image@, dx as int));
    out
}

// ---------------------------------------------------------------------------
// The public constant.
// ---------------------------------------------------------------------------

/// A state on the cube.
pub open spec fn padded(s: Seq<bool>) -> Seq<bool> {
    Seq::new(2048, |i: int| i < 1600 && s[i])
}

/// The bits that iota adds.
pub open spec fn constant_bits(round: int) -> Seq<bool> {
    Seq::new(
        2048,
        |i: int| i < 1600 && i % 25 == 0 && lane_bit(round_constant_of(round), i / 25),
    )
}

/// The extension of the bits that iota adds.
pub fn round_constant_mle(round: usize, rho: &[F128]) -> (value: F128)
    requires
        round < 24,
        rho@.len() == 11,
    ensures
        value == mle(bit_table(constant_bits(round as int)), rho@),
{
    proof {
        lemma2_to64();
    }
    let constant = round_constant(round);
    let weights = eq_table(rho);
    let ghost table = bit_table(constant_bits(round as int));
    let ghost f = |i: int| fmul(table[i], eq_weight(rho@, i));
    let mut sum = F128::zero();
    let mut i: usize = 0;
    while i < CUBE
        invariant
            rho@.len() == 11,
            pow2(11) == 2048,
            constant == round_constant_of(round as int),
            weights@ == Seq::new(pow2(rho@.len()), |i: int| eq_weight(rho@, i)),
            table == bit_table(constant_bits(round as int)),
            f == (|i: int| fmul(table[i], eq_weight(rho@, i))),
            i <= CUBE,
            sum == fsum(f, i as int),
        decreases CUBE - i,
    {
        proof {
            lemma_fmul_one(weights@[i as int]);
            lemma_fmul_zero(weights@[i as int]);
            lemma_fadd_zero(sum);
            lemma_fadd_comm(sum, fzero());
            lemma_fmul_comm(fzero(), weights@[i as int]);
        }
        if i < STATE_BITS && i % 25 == 0 && (constant >> ((i / 25) as u64)) & 1 == 1 {
            sum = sum + weights[i];
        }
        i = i + 1;
    }
    proof {
        lemma_mle_is_weighted_sum(table, rho@);
    }
    sum
}

// ---------------------------------------------------------------------------
// The chi sumcheck.
// ---------------------------------------------------------------------------

/// `a + a2 + a1 a2`.
pub open spec fn chi_gate(t0: F128, t1: F128, t2: F128) -> F128 {
    fadd(fadd(t0, t2), fmul(t1, t2))
}

/// The chi round polynomial at `r`.
pub open spec fn chi_value(
    e: Seq<F128>,
    a0: Seq<F128>,
    a1: Seq<F128>,
    a2: Seq<F128>,
    r: F128,
) -> F128 {
    let half = (e.len() / 2) as int;
    fsum(
        |j: int|
            fmul(
                lerp(e[j], e[half + j], r),
                chi_gate(
                    lerp(a0[j], a0[half + j], r),
                    lerp(a1[j], a1[half + j], r),
                    lerp(a2[j], a2[half + j], r),
                ),
            ),
        half,
    )
}

/// A chi round message: the round polynomial at the nodes 0 to 3.
pub open spec fn chi_evals(
    e: Seq<F128>,
    a0: Seq<F128>,
    a1: Seq<F128>,
    a2: Seq<F128>,
) -> Seq<F128> {
    Seq::new(4, |t: int| chi_value(e, a0, a1, a2, node(t)))
}

/// The chi messages under the given challenges.
pub open spec fn chi_messages(
    e: Seq<F128>,
    a0: Seq<F128>,
    a1: Seq<F128>,
    a2: Seq<F128>,
    challenges: Seq<F128>,
) -> Seq<Seq<F128>> {
    Seq::new(
        challenges.len(),
        |k: int|
            chi_evals(
                fold_all(e, challenges.take(k)),
                fold_all(a0, challenges.take(k)),
                fold_all(a1, challenges.take(k)),
                fold_all(a2, challenges.take(k)),
            ),
    )
}

fn chi_at(e: &Vec<F128>, a0: &Vec<F128>, a1: &Vec<F128>, a2: &Vec<F128>, r: F128) -> (value: F128)
    requires
        e@.len() % 2 == 0,
        a0@.len() == e@.len(),
        a1@.len() == e@.len(),
        a2@.len() == e@.len(),
    ensures
        value == chi_value(e@, a0@, a1@, a2@, r),
{
    let total: usize = e.len();
    let half: usize = total / 2;
    let ghost f = |j: int|
        fmul(
            lerp(e@[j], e@[half + j], r),
            chi_gate(
                lerp(a0@[j], a0@[half + j], r),
                lerp(a1@[j], a1@[half + j], r),
                lerp(a2@[j], a2@[half + j], r),
            ),
        );
    let mut sum = F128::zero();
    let mut j: usize = 0;
    while j < half
        invariant
            total == e@.len(),
            total == 2 * half,
            a0@.len() == total,
            a1@.len() == total,
            a2@.len() == total,
            f == (|j: int|
                fmul(
                    lerp(e@[j], e@[half + j], r),
                    chi_gate(
                        lerp(a0@[j], a0@[half + j], r),
                        lerp(a1@[j], a1@[half + j], r),
                        lerp(a2@[j], a2@[half + j], r),
                    ),
                )),
            j <= half,
            sum == fsum(f, j as int),
        decreases half - j,
    {
        let ft = e[j] + r * (e[j] + e[half + j]);
        let t0 = a0[j] + r * (a0[j] + a0[half + j]);
        let t1 = a1[j] + r * (a1[j] + a1[half + j]);
        let t2 = a2[j] + r * (a2[j] + a2[half + j]);
        sum = sum + ft * (t0 + t2 + t1 * t2);
        j = j + 1;
    }
    sum
}

/// The messages and the bound tables of the chi sumcheck.
fn prove_chi(
    e: Vec<F128>,
    a0: Vec<F128>,
    a1: Vec<F128>,
    a2: Vec<F128>,
    challenges: &[F128],
) -> (result: (Vec<[F128; 4]>, [F128; 3]))
    requires
        e@.len() == pow2(challenges@.len()),
        a0@.len() == e@.len(),
        a1@.len() == e@.len(),
        a2@.len() == e@.len(),
    ensures
        message_list(result.0@) == chi_messages(e@, a0@, a1@, a2@, challenges@),
        result.1@ == seq![mle(a0@, challenges@), mle(a1@, challenges@), mle(a2@, challenges@)],
{
    let ghost (g, g0, g1, g2) = (e@, a0@, a1@, a2@);
    let (mut e, mut a0, mut a1, mut a2) = (e, a0, a1, a2);
    let n: usize = challenges.len();
    let mut rounds: Vec<[F128; 4]> = Vec::new();
    let mut k: usize = 0;
    assert(challenges@.take(0) =~= Seq::<F128>::empty());
    while k < n
        invariant
            n == challenges@.len(),
            k <= n,
            e@ == fold_all(g, challenges@.take(k as int)),
            a0@ == fold_all(g0, challenges@.take(k as int)),
            a1@ == fold_all(g1, challenges@.take(k as int)),
            a2@ == fold_all(g2, challenges@.take(k as int)),
            e@.len() == pow2((n - k) as nat),
            a0@.len() == e@.len(),
            a1@.len() == e@.len(),
            a2@.len() == e@.len(),
            rounds@.len() == k,
            forall|j: int|
                0 <= j < k ==> (#[trigger] rounds@[j])@ == chi_messages(
                    g,
                    g0,
                    g1,
                    g2,
                    challenges@,
                )[j],
        decreases n - k,
    {
        proof {
            lemma_pow2_unfold((n - k) as nat);
        }
        let v0 = chi_at(&e, &a0, &a1, &a2, small(0));
        let v1 = chi_at(&e, &a0, &a1, &a2, small(1));
        let v2 = chi_at(&e, &a0, &a1, &a2, small(2));
        let v3 = chi_at(&e, &a0, &a1, &a2, small(3));
        let evals: [F128; 4] = [v0, v1, v2, v3];
        let r = challenges[k];
        proof {
            assert(evals@ =~= chi_evals(e@, a0@, a1@, a2@));
            let before = challenges@.take(k as int);
            assert(challenges@.take(k + 1) =~= before + seq![r]);
            lemma_fold_all_concat(g, before, seq![r]);
            lemma_fold_all_concat(g0, before, seq![r]);
            lemma_fold_all_concat(g1, before, seq![r]);
            lemma_fold_all_concat(g2, before, seq![r]);
            reveal_with_fuel(fold_all, 2);
            assert(seq![r].drop_first() =~= Seq::<F128>::empty());
        }
        fold_in_place(&mut e, r);
        fold_in_place(&mut a0, r);
        fold_in_place(&mut a1, r);
        fold_in_place(&mut a2, r);
        rounds.push(evals);
        k = k + 1;
    }
    proof {
        lemma2_to64();
        assert(challenges@.take(n as int) =~= challenges@);
        assert(message_list(rounds@) =~= chi_messages(g, g0, g1, g2, challenges@));
    }
    let values: [F128; 3] = [a0[0], a1[0], a2[0]];
    assert(values@ =~= seq![mle(g0, challenges@), mle(g1, challenges@), mle(g2, challenges@)]);
    (rounds, values)
}

// ---------------------------------------------------------------------------
// The linear reduction.
// ---------------------------------------------------------------------------

/// `c` for every listed tap that is `u`.
pub open spec fn tap_hits(taps: Seq<u16>, u: int, c: F128, n: int) -> F128 {
    fsum(
        |t: int|
            if taps[t] == u {
                c
            } else {
                fzero()
            },
        n,
    )
}

/// The power of the batching challenge for a neighbour.
pub open spec fn batch_power(gamma: F128, j: int) -> F128 {
    if j == 0 {
        fone()
    } else if j == 1 {
        gamma
    } else {
        fmul(gamma, gamma)
    }
}

/// What output bit `out` adds to the weight of input `u` for neighbour `j`.
pub open spec fn weight_part(
    taps: LinearTaps,
    gamma: F128,
    point: Seq<F128>,
    u: int,
    out: int,
    j: int,
) -> F128 {
    let row = taps.taps@[neighbor_of(out, j)]@;
    tap_hits(row, u, fmul(batch_power(gamma, j), eq_weight(point, out)), row.len() as int)
}

/// The weight of input `u` from the first `n` output bits.
pub open spec fn linear_weight(
    taps: LinearTaps,
    gamma: F128,
    point: Seq<F128>,
    u: int,
    n: int,
) -> F128 {
    fsum(
        |out: int| fsum(|j: int| weight_part(taps, gamma, point, u, out, j), 3),
        n,
    )
}

/// The weights of the linear reduction.
pub open spec fn linear_weights(taps: LinearTaps, gamma: F128, point: Seq<F128>) -> Seq<F128> {
    Seq::new(2048, |u: int| linear_weight(taps, gamma, point, u, 1600))
}

/// Add a weight at every listed tap.
fn add_taps(table: &mut Vec<F128>, row: &Vec<u16>, c: F128)
    requires
        old(table)@.len() == 2048,
        forall|t: int| 0 <= t < row@.len() ==> #[trigger] row@[t] < 2048,
    ensures
        final(table)@.len() == 2048,
        forall|u: int|
            0 <= u < 2048 ==> #[trigger] final(table)@[u] == fadd(
                old(table)@[u],
                tap_hits(row@, u, c, row@.len() as int),
            ),
{
    let ghost start = table@;
    let mut t: usize = 0;
    proof {
        assert forall|u: int| 0 <= u < 2048 implies #[trigger] table@[u] == fadd(
            start[u],
            tap_hits(row@, u, c, 0),
        ) by {
            lemma_fadd_zero(start[u]);
            lemma_fadd_comm(start[u], fzero());
        }
    }
    while t < row.len()
        invariant
            start.len() == 2048,
            table@.len() == 2048,
            forall|t: int| 0 <= t < row@.len() ==> #[trigger] row@[t] < 2048,
            t <= row@.len(),
            forall|u: int|
                0 <= u < 2048 ==> #[trigger] table@[u] == fadd(
                    start[u],
                    tap_hits(row@, u, c, t as int),
                ),
        decreases row@.len() - t,
    {
        let ghost before = table@;
        let u: usize = row[t] as usize;
        table[u] = table[u] + c;
        proof {
            assert forall|v: int| 0 <= v < 2048 implies #[trigger] table@[v] == fadd(
                start[v],
                tap_hits(row@, v, c, t + 1),
            ) by {
                let h = tap_hits(row@, v, c, t as int);
                assert(before[v] == fadd(start[v], h));
                lemma_fadd_assoc(start[v], h, c);
                lemma_fadd_zero(h);
                lemma_fadd_comm(h, fzero());
            }
        }
        t = t + 1;
    }
}

/// The weight table of the linear reduction.
fn build_weights(taps: &LinearTaps, gamma: F128, point: &[F128]) -> (table: Vec<F128>)
    requires
        taps.well_formed(),
        point@.len() == 11,
    ensures
        table@ == linear_weights(*taps, gamma, point@),
{
    proof {
        lemma2_to64();
    }
    let eq = eq_table(point);
    let powers: [F128; 3] = [F128::one(), gamma, gamma * gamma];
    let mut table: Vec<F128> = Vec::new();
    while table.len() < CUBE
        invariant
            table@.len() <= CUBE,
            forall|u: int| 0 <= u < table@.len() ==> #[trigger] table@[u] == fzero(),
        decreases CUBE - table@.len(),
    {
        table.push(F128::zero());
    }
    let mut out: usize = 0;
    while out < STATE_BITS
        invariant
            taps.well_formed(),
            point@.len() == 11,
            pow2(11) == 2048,
            eq@ == Seq::new(pow2(point@.len()), |i: int| eq_weight(point@, i)),
            forall|j: int| 0 <= j < 3 ==> #[trigger] powers@[j] == batch_power(gamma, j),
            out <= STATE_BITS,
            table@.len() == 2048,
            forall|u: int|
                0 <= u < 2048 ==> #[trigger] table@[u] == linear_weight(
                    *taps,
                    gamma,
                    point@,
                    u,
                    out as int,
                ),
        decreases STATE_BITS - out,
    {
        let ghost start = table@;
        let mut j: usize = 0;
        proof {
            assert forall|u: int| 0 <= u < 2048 implies #[trigger] table@[u] == fadd(
                start[u],
                fsum(|j: int| weight_part(*taps, gamma, point@, u, out as int, j), 0),
            ) by {
                lemma_fadd_zero(start[u]);
                lemma_fadd_comm(start[u], fzero());
            }
        }
        while j < 3
            invariant
                taps.well_formed(),
                point@.len() == 11,
                pow2(11) == 2048,
                eq@ == Seq::new(pow2(point@.len()), |i: int| eq_weight(point@, i)),
                forall|j: int| 0 <= j < 3 ==> #[trigger] powers@[j] == batch_power(gamma, j),
                out < STATE_BITS,
                start.len() == 2048,
                table@.len() == 2048,
                j <= 3,
                forall|u: int|
                    0 <= u < 2048 ==> #[trigger] table@[u] == fadd(
                        start[u],
                        fsum(
                            |j: int| weight_part(*taps, gamma, point@, u, out as int, j),
                            j as int,
                        ),
                    ),
            decreases 3 - j,
        {
            let ghost before = table@;
            let source: usize = neighbor(out, j);
            let row = &taps.taps[source];
            assert forall|t: int| 0 <= t < row@.len() implies #[trigger] row@[t] < 2048 by {
                assert(taps.taps@[source as int]@[t] < 2048);
            }
            add_taps(&mut table, row, powers[j] * eq[out]);
            proof {
                assert forall|u: int| 0 <= u < 2048 implies #[trigger] table@[u] == fadd(
                    start[u],
                    fsum(|j: int| weight_part(*taps, gamma, point@, u, out as int, j), j + 1),
                ) by {
                    let f = |j: int| weight_part(*taps, gamma, point@, u, out as int, j);
                    assert(before[u] == fadd(start[u], fsum(f, j as int)));
                    assert(f(j as int) == tap_hits(
                        row@,
                        u,
                        fmul(powers@[j as int], eq@[out as int]),
                        row@.len() as int,
                    ));
                    lemma_fadd_assoc(start[u], fsum(f, j as int), f(j as int));
                }
            }
            j = j + 1;
        }
        proof {
            assert forall|u: int| 0 <= u < 2048 implies #[trigger] table@[u] == linear_weight(
                *taps,
                gamma,
                point@,
                u,
                out + 1,
            ) by {
                assert(start[u] == linear_weight(*taps, gamma, point@, u, out as int));
            }
        }
        out = out + 1;
    }
    assert(table@ =~= linear_weights(*taps, gamma, point@));
    table
}

/// The messages of the linear reduction under the given challenges.
pub open spec fn linear_messages(
    v: Seq<F128>,
    l: Seq<F128>,
    challenges: Seq<F128>,
) -> Seq<Seq<F128>> {
    Seq::new(
        challenges.len(),
        |k: int|
            round_evals(
                seq![fold_all(v, challenges.take(k)), fold_all(l, challenges.take(k))],
            ),
    )
}

fn pair_at(v: &Vec<F128>, l: &Vec<F128>, r: F128) -> (value: F128)
    requires
        v@.len() % 2 == 0,
        l@.len() == v@.len(),
    ensures
        value == round_value(seq![v@, l@], r),
{
    let total: usize = v.len();
    let half: usize = total / 2;
    let ghost factors = seq![v@, l@];
    let ghost f = |j: int| lerp_term(factors, j, r);
    let mut sum = F128::zero();
    let mut j: usize = 0;
    while j < half
        invariant
            total == v@.len(),
            total == 2 * half,
            l@.len() == total,
            factors == seq![v@, l@],
            f == (|j: int| lerp_term(factors, j, r)),
            j <= half,
            sum == fsum(f, j as int),
        decreases half - j,
    {
        let a = v[j] + r * (v[j] + v[half + j]);
        let b = l[j] + r * (l[j] + l[half + j]);
        proof {
            reveal_with_fuel(fprod, 3);
            lemma_fmul_one(a);
            assert(f(j as int) == fmul(a, b));
        }
        sum = sum + a * b;
        j = j + 1;
    }
    sum
}

/// The messages of the linear reduction and the value it leaves.
fn prove_linear(v: Vec<F128>, l: Vec<F128>, challenges: &[F128]) -> (result: (
    Vec<[F128; 3]>,
    F128,
))
    requires
        v@.len() == pow2(challenges@.len()),
        l@.len() == v@.len(),
    ensures
        round_list(result.0@) == linear_messages(v@, l@, challenges@),
        result.1 == mle(l@, challenges@),
{
    let ghost (gv, gl) = (v@, l@);
    let (mut v, mut l) = (v, l);
    let n: usize = challenges.len();
    let mut rounds: Vec<[F128; 3]> = Vec::new();
    let mut k: usize = 0;
    assert(challenges@.take(0) =~= Seq::<F128>::empty());
    while k < n
        invariant
            n == challenges@.len(),
            k <= n,
            v@ == fold_all(gv, challenges@.take(k as int)),
            l@ == fold_all(gl, challenges@.take(k as int)),
            v@.len() == pow2((n - k) as nat),
            l@.len() == v@.len(),
            rounds@.len() == k,
            forall|j: int|
                0 <= j < k ==> (#[trigger] rounds@[j])@ == linear_messages(gv, gl, challenges@)[j],
        decreases n - k,
    {
        proof {
            lemma_pow2_unfold((n - k) as nat);
        }
        let e0 = pair_at(&v, &l, small(0));
        let e1 = pair_at(&v, &l, small(1));
        let e2 = pair_at(&v, &l, small(2));
        let evals: [F128; 3] = [e0, e1, e2];
        let r = challenges[k];
        proof {
            assert(evals@ =~= round_evals(seq![v@, l@]));
            let before = challenges@.take(k as int);
            assert(challenges@.take(k + 1) =~= before + seq![r]);
            lemma_fold_all_concat(gv, before, seq![r]);
            lemma_fold_all_concat(gl, before, seq![r]);
            reveal_with_fuel(fold_all, 2);
            assert(seq![r].drop_first() =~= Seq::<F128>::empty());
        }
        fold_in_place(&mut v, r);
        fold_in_place(&mut l, r);
        rounds.push(evals);
        k = k + 1;
    }
    proof {
        lemma2_to64();
        assert(challenges@.take(n as int) =~= challenges@);
        assert(round_list(rounds@) =~= linear_messages(gv, gl, challenges@));
    }
    (rounds, l[0])
}

// ---------------------------------------------------------------------------
// A layer.
// ---------------------------------------------------------------------------

/// One layer: the chi messages, the claimed tap values, the messages of the
/// linear reduction, and the claim that is left on the previous state.
#[derive(Clone, Debug)]
pub struct LayerProof {
    pub chi_rounds: Vec<[F128; 4]>,
    pub tap_values: [F128; 3],
    pub linear_rounds: Vec<[F128; 3]>,
    pub previous_claim: F128,
}

/// A message of either reduction depends only on the challenges before it.
pub proof fn reduction_messages_precede_their_challenges(
    e: Seq<F128>,
    a: (Seq<F128>, Seq<F128>, Seq<F128>),
    v: Seq<F128>,
    l: Seq<F128>,
    drawn: Seq<F128>,
    other: Seq<F128>,
    k: int,
)
    requires
        0 <= k < drawn.len(),
        k < other.len(),
        drawn.take(k) == other.take(k),
    ensures
        chi_messages(e, a.0, a.1, a.2, drawn)[k] == chi_messages(e, a.0, a.1, a.2, other)[k],
        linear_messages(v, l, drawn)[k] == linear_messages(v, l, other)[k],
{
}

/// The three tables of a layer.
pub open spec fn layer_tables(taps: LinearTaps, bits: Seq<bool>) -> (
    Seq<F128>,
    Seq<F128>,
    Seq<F128>,
) {
    let image = image_bits(taps, bits);
    (
        bit_table(image),
        bit_table(shifted_bits(image, 1)),
        bit_table(shifted_bits(image, 2)),
    )
}

/// Reduce a claim on a round's output at `rho` to a claim on its input, under
/// the given challenges. The point of the new claim is the last challenges'.
pub fn prove_layer(
    taps: &LinearTaps,
    l_prev_bits: &[bool],
    rho: &[F128],
    chi_challenges: &[F128],
    gamma: F128,
    linear_challenges: &[F128],
) -> (result: (LayerProof, Vec<F128>))
    requires
        taps.well_formed(),
        l_prev_bits@.len() == 2048,
        rho@.len() == 11,
        chi_challenges@.len() == 11,
        linear_challenges@.len() == 11,
    ensures
        ({
            let tables = layer_tables(*taps, l_prev_bits@);
            &&& message_list(result.0.chi_rounds@) == chi_messages(
                eq_list(rho@),
                tables.0,
                tables.1,
                tables.2,
                chi_challenges@,
            )
            &&& result.0.tap_values@ == seq![
                mle(tables.0, chi_challenges@),
                mle(tables.1, chi_challenges@),
                mle(tables.2, chi_challenges@),
            ]
        }),
        round_list(result.0.linear_rounds@) == linear_messages(
            linear_weights(*taps, gamma, chi_challenges@),
            bit_table(l_prev_bits@),
            linear_challenges@,
        ),
        result.0.previous_claim == mle(bit_table(l_prev_bits@), linear_challenges@),
        result.1@ == linear_challenges@,
{
    proof {
        lemma2_to64();
    }
    let a0_bits = apply_taps(taps, l_prev_bits);
    let a1_bits = shift_image(&a0_bits, 1);
    let a2_bits = shift_image(&a0_bits, 2);
    let eq = eq_table(rho);
    assert(eq@ =~= eq_list(rho@));
    let (chi_rounds, tap_values) = prove_chi(
        eq,
        lift(a0_bits.as_slice()),
        lift(a1_bits.as_slice()),
        lift(a2_bits.as_slice()),
        chi_challenges,
    );
    let weights = build_weights(taps, gamma, chi_challenges);
    let (linear_rounds, previous_claim) = prove_linear(
        weights,
        lift(l_prev_bits),
        linear_challenges,
    );
    (
        LayerProof { chi_rounds, tap_values, linear_rounds, previous_claim },
        copy_table(linear_challenges),
    )
}

// ---------------------------------------------------------------------------
// What a layer proves.
// ---------------------------------------------------------------------------

/// The chi sum over the cube.
pub open spec fn chi_sum(e: Seq<F128>, a0: Seq<F128>, a1: Seq<F128>, a2: Seq<F128>) -> F128 {
    fsum(|j: int| fmul(e[j], chi_gate(a0[j], a1[j], a2[j])), e.len() as int)
}

proof fn lemma_bit_xor(a: bool, b: bool)
    ensures
        bit_value(a != b) == fadd(bit_value(a), bit_value(b)),
{
    lemma_fadd_zero(fone());
    lemma_fadd_zero(fzero());
    lemma_fadd_self(fone());
}

proof fn lemma_chi_bits(a: bool, b: bool, c: bool)
    ensures
        bit_value(a != (!b && c)) == chi_gate(bit_value(a), bit_value(b), bit_value(c)),
{
    let (x, y, z) = (bit_value(a), bit_value(b), bit_value(c));
    lemma_bit_xor(a, !b && c);
    lemma_fmul_one(z);
    lemma_fmul_zero(z);
    lemma_fadd_assoc(x, z, fmul(y, z));
    lemma_fadd_self(z);
    lemma_fadd_zero(z);
    lemma_fadd_comm(z, fzero());
}

/// A claim on a round's output is the public constant's extension plus the
/// chi sum over the round's input.
pub proof fn round_claim_splits(
    taps: LinearTaps,
    s: Seq<bool>,
    round: int,
    rho: Seq<F128>,
)
    requires
        taps.is_linear(),
        s.len() == 1600,
        rho.len() == 11,
    ensures
        ({
            let tables = layer_tables(taps, padded(s));
            mle(bit_table(padded(keccak_round(s, round))), rho) == fadd(
                mle(bit_table(constant_bits(round)), rho),
                chi_sum(eq_list(rho), tables.0, tables.1, tables.2),
            )
        }),
{
    lemma2_to64();
    let p = padded(s);
    let tables = layer_tables(taps, p);
    let image = image_bits(taps, p);
    let a = linear_layer(s);
    let b = chi(a);
    let table = bit_table(padded(keccak_round(s, round)));
    let constant = bit_table(constant_bits(round));
    let gates = Seq::new(
        2048,
        |i: int| chi_gate(tables.0[i], tables.1[i], tables.2[i]),
    );
    assert(p.take(1600) =~= s);
    assert forall|i: int| 0 <= i < 1600 implies #[trigger] image[i] == a[i] by {
        taps_reproduce_the_linear_layer(taps, p, i);
    }
    lemma_chi_bits(false, false, false);
    lemma_fadd_zero(fzero());
    assert forall|i: int| 0 <= i < 2048 implies #[trigger] table[i] == fadd(
        constant[i],
        gates[i],
    ) by {
        if i < 1600 {
            let n1 = neighbor_of(i, 1);
            let n2 = neighbor_of(i, 2);
            assert(0 <= n1 < 1600 && 0 <= n2 < 1600);
            assert(image[i] == a[i] && image[n1] == a[n1] && image[n2] == a[n2]);
            lemma_chi_bits(a[i], a[n1], a[n2]);
            lemma_bit_xor(b[i], i % 25 == 0 && lane_bit(round_constant_of(round), i / 25));
            lemma_fadd_comm(constant[i], gates[i]);
        } else {
            assert(tables.0[i] == fzero() && tables.1[i] == fzero() && tables.2[i] == fzero());
            lemma_fmul_zero(fzero());
        }
    }
    let sum = Seq::new(constant.len(), |i: int| fadd(constant[i], gates[i]));
    assert(table =~= sum);
    lemma_mle_add(constant, gates, rho);
    lemma_mle_is_weighted_sum(gates, rho);
    let e = eq_list(rho);
    let f = |j: int| fmul(gates[j], eq_weight(rho, j));
    let g = |j: int| fmul(e[j], chi_gate(tables.0[j], tables.1[j], tables.2[j]));
    assert forall|j: int| 0 <= j < 2048 implies #[trigger] f(j) == g(j) by {
        lemma_fmul_comm(gates[j], eq_weight(rho, j));
    }
    lemma_fsum_congr(f, g, 2048);
}

spec fn ones(n: nat) -> Seq<F128> {
    Seq::new(n, |i: int| fone())
}

proof fn lemma_three_term(a: Seq<F128>, b: Seq<F128>, c: Seq<F128>, j: int, r: F128)
    ensures
        lerp_term(seq![a, b, c], j, r) == fmul(
            fmul(
                lerp(a[j], a[a.len() / 2 + j], r),
                lerp(b[j], b[a.len() / 2 + j], r),
            ),
            lerp(c[j], c[a.len() / 2 + j], r),
        ),
{
    reveal_with_fuel(fprod, 4);
    lemma_fmul_one(lerp(a[j], a[a.len() / 2 + j], r));
}

proof fn lemma_chi_products(
    e: Seq<F128>,
    a0: Seq<F128>,
    a1: Seq<F128>,
    a2: Seq<F128>,
    r: F128,
)
    requires
        e.len() % 2 == 0,
    ensures
        chi_value(e, a0, a1, a2, r) == fadd(
            fadd(
                round_value(seq![e, a0, ones(e.len())], r),
                round_value(seq![e, a2, ones(e.len())], r),
            ),
            round_value(seq![e, a1, a2], r),
        ),
{
    let half = (e.len() / 2) as int;
    let u = ones(e.len());
    let f = |j: int|
        fmul(
            lerp(e[j], e[half + j], r),
            chi_gate(
                lerp(a0[j], a0[half + j], r),
                lerp(a1[j], a1[half + j], r),
                lerp(a2[j], a2[half + j], r),
            ),
        );
    let a = |j: int| lerp_term(seq![e, a0, u], j, r);
    let b = |j: int| lerp_term(seq![e, a2, u], j, r);
    let c = |j: int| lerp_term(seq![e, a1, a2], j, r);
    lemma_fadd_self(fone());
    lemma_fmul_zero(r);
    lemma_fadd_zero(fone());
    lemma_fsum_add(a, b, half);
    let ab = |j: int| fadd(a(j), b(j));
    lemma_fsum_congr(ab, |j: int| fadd(a(j), b(j)), half);
    lemma_fsum_add(ab, c, half);
    let abc = |j: int| fadd(ab(j), c(j));
    assert forall|j: int| 0 <= j < half implies #[trigger] f(j) == abc(j) by {
        lemma_three_term(e, a0, u, j, r);
        lemma_three_term(e, a2, u, j, r);
        lemma_three_term(e, a1, a2, j, r);
        let ej = lerp(e[j], e[half + j], r);
        let (x, y, z) = (
            lerp(a0[j], a0[half + j], r),
            lerp(a1[j], a1[half + j], r),
            lerp(a2[j], a2[half + j], r),
        );
        lemma_fmul_one(fmul(ej, x));
        lemma_fmul_one(fmul(ej, z));
        lemma_fmul_comm(fmul(ej, x), fone());
        lemma_fmul_comm(fmul(ej, z), fone());
        lemma_fmul_distr(ej, fadd(x, z), fmul(y, z));
        lemma_fmul_distr(ej, x, z);
        lemma_fmul_assoc(ej, y, z);
    }
    lemma_fsum_congr(f, abc, half);
    lemma_fsum_congr(abc, |j: int| fadd(ab(j), c(j)), half);
}

proof fn lemma_chi_interpolates(
    e: Seq<F128>,
    a0: Seq<F128>,
    a1: Seq<F128>,
    a2: Seq<F128>,
    r: F128,
)
    requires
        e.len() % 2 == 0,
    ensures
        lagrange(chi_evals(e, a0, a1, a2), r) == chi_value(e, a0, a1, a2, r),
{
    let u = ones(e.len());
    let half = (e.len() / 2) as int;
    let p = |r: F128| chi_value(e, a0, a1, a2, r);
    let a = |r: F128| fsum(|j: int| lerp_term(seq![e, a0, u], j, r), half);
    let b = |r: F128| fsum(|j: int| lerp_term(seq![e, a2, u], j, r), half);
    let c = |r: F128| fsum(|j: int| lerp_term(seq![e, a1, a2], j, r), half);
    lemma_round_value_poly(seq![e, a0, u], half);
    lemma_round_value_poly(seq![e, a2, u], half);
    lemma_round_value_poly(seq![e, a1, a2], half);
    let ab = |r: F128| fadd(a(r), b(r));
    lemma_poly_add(a, b, ab, 4);
    assert forall|r: F128| #[trigger] p(r) == fadd(ab(r), c(r)) by {
        lemma_chi_products(e, a0, a1, a2, r);
    }
    lemma_poly_add(ab, c, p, 4);
    lemma_lagrange_exact(p, chi_evals(e, a0, a1, a2), r);
}

proof fn lemma_ends(a: F128, b: F128)
    ensures
        lerp(a, b, fzero()) == a,
        lerp(a, b, fone()) == b,
{
    lemma_fmul_zero(fadd(a, b));
    lemma_fadd_zero(a);
    lemma_fmul_one(fadd(a, b));
    lemma_fadd_assoc(a, a, b);
    lemma_fadd_self(a);
    lemma_fadd_zero(b);
}

proof fn lemma_chi_round(
    e: Seq<F128>,
    a0: Seq<F128>,
    a1: Seq<F128>,
    a2: Seq<F128>,
    n: nat,
    r: F128,
)
    requires
        n > 0,
        e.len() == pow2(n),
        a0.len() == e.len(),
        a1.len() == e.len(),
        a2.len() == e.len(),
    ensures
        fadd(chi_evals(e, a0, a1, a2)[0], chi_evals(e, a0, a1, a2)[1]) == chi_sum(e, a0, a1, a2),
        chi_value(e, a0, a1, a2, r) == chi_sum(
            fold_table(e, r),
            fold_table(a0, r),
            fold_table(a1, r),
            fold_table(a2, r),
        ),
{
    lemma_pow2_unfold(n);
    let half = (e.len() / 2) as int;
    let at = |j: int, r: F128|
        fmul(
            lerp(e[j], e[half + j], r),
            chi_gate(
                lerp(a0[j], a0[half + j], r),
                lerp(a1[j], a1[half + j], r),
                lerp(a2[j], a2[half + j], r),
            ),
        );
    let f = |j: int| fmul(e[j], chi_gate(a0[j], a1[j], a2[j]));
    lemma_fsum_split(f, half, half);
    let f0 = |j: int| at(j, fzero());
    let f1 = |j: int| at(j, fone());
    let high = |j: int| f(half + j);
    assert forall|j: int| 0 <= j < half implies #[trigger] f0(j) == f(j) by {
        lemma_ends(e[j], e[half + j]);
        lemma_ends(a0[j], a0[half + j]);
        lemma_ends(a1[j], a1[half + j]);
        lemma_ends(a2[j], a2[half + j]);
    }
    assert forall|j: int| 0 <= j < half implies #[trigger] f1(j) == high(j) by {
        lemma_ends(e[j], e[half + j]);
        lemma_ends(a0[j], a0[half + j]);
        lemma_ends(a1[j], a1[half + j]);
        lemma_ends(a2[j], a2[half + j]);
    }
    lemma_fsum_congr(f0, f, half);
    lemma_fsum_congr(f1, high, half);
    lemma_fsum_congr(high, |i: int| f(half + i), half);
    assert(node(0) == fzero() && node(1) == fone());
    let h0 = |j: int|
        fmul(
            lerp(e[j], e[half + j], fzero()),
            chi_gate(
                lerp(a0[j], a0[half + j], fzero()),
                lerp(a1[j], a1[half + j], fzero()),
                lerp(a2[j], a2[half + j], fzero()),
            ),
        );
    let h1 = |j: int|
        fmul(
            lerp(e[j], e[half + j], fone()),
            chi_gate(
                lerp(a0[j], a0[half + j], fone()),
                lerp(a1[j], a1[half + j], fone()),
                lerp(a2[j], a2[half + j], fone()),
            ),
        );
    lemma_fsum_congr(f0, h0, half);
    lemma_fsum_congr(f1, h1, half);
    let (e1, b0, b1, b2) = (
        fold_table(e, r),
        fold_table(a0, r),
        fold_table(a1, r),
        fold_table(a2, r),
    );
    lemma_fsum_congr(
        |j: int|
            fmul(
                lerp(e[j], e[half + j], r),
                chi_gate(
                    lerp(a0[j], a0[half + j], r),
                    lerp(a1[j], a1[half + j], r),
                    lerp(a2[j], a2[half + j], r),
                ),
            ),
        |j: int| fmul(e1[j], chi_gate(b0[j], b1[j], b2[j])),
        half,
    );
}

proof fn lemma_chi_walk(
    e: Seq<F128>,
    a0: Seq<F128>,
    a1: Seq<F128>,
    a2: Seq<F128>,
    challenges: Seq<F128>,
)
    requires
        e.len() == pow2(challenges.len()),
        a0.len() == e.len(),
        a1.len() == e.len(),
        a2.len() == e.len(),
    ensures
        crate::carry_gate::layer_walk(
            chi_messages(e, a0, a1, a2, challenges),
            chi_sum(e, a0, a1, a2),
            challenges,
        ) == Some(
            fmul(
                mle(e, challenges),
                chi_gate(mle(a0, challenges), mle(a1, challenges), mle(a2, challenges)),
            ),
        ),
    decreases challenges.len(),
{
    lemma2_to64();
    let rounds = chi_messages(e, a0, a1, a2, challenges);
    if challenges.len() == 0 {
        reveal_with_fuel(fsum, 2);
        lemma_fadd_zero(fmul(e[0], chi_gate(a0[0], a1[0], a2[0])));
    } else {
        let n = challenges.len();
        let r = challenges[0];
        let rest = challenges.drop_first();
        lemma_pow2_unfold(n);
        let (e1, b0, b1, b2) = (
            fold_table(e, r),
            fold_table(a0, r),
            fold_table(a1, r),
            fold_table(a2, r),
        );
        assert(challenges.take(0) =~= Seq::<F128>::empty());
        assert(rounds[0] == chi_evals(e, a0, a1, a2));
        lemma_chi_round(e, a0, a1, a2, n, r);
        lemma_chi_interpolates(e, a0, a1, a2, r);
        lemma_chi_walk(e1, b0, b1, b2, rest);
        let tail = chi_messages(e1, b0, b1, b2, rest);
        assert forall|k: int| 0 <= k < rest.len() implies #[trigger] rounds.drop_first()[k]
            == tail[k] by {
            assert(challenges.take(k + 1).drop_first() =~= rest.take(k));
            assert(challenges.take(k + 1)[0] == r);
        }
        assert(rounds.drop_first() =~= tail);
    }
}

/// The chi messages reduce the chi sum to the tap values: every message sums
/// to the running claim, and the claim that is left is the equality weight
/// times the chi expression of the tap values.
pub proof fn chi_reduces_to_taps(
    taps: LinearTaps,
    bits: Seq<bool>,
    rho: Seq<F128>,
    challenges: Seq<F128>,
)
    requires
        rho.len() == 11,
        challenges.len() == 11,
    ensures
        ({
            let tables = layer_tables(taps, bits);
            crate::carry_gate::layer_walk(
                chi_messages(eq_list(rho), tables.0, tables.1, tables.2, challenges),
                chi_sum(eq_list(rho), tables.0, tables.1, tables.2),
                challenges,
            ) == Some(
                fmul(
                    eq_points(rho, challenges),
                    chi_gate(
                        mle(tables.0, challenges),
                        mle(tables.1, challenges),
                        mle(tables.2, challenges),
                    ),
                ),
            )
        }),
{
    lemma2_to64();
    let tables = layer_tables(taps, bits);
    lemma_chi_walk(eq_list(rho), tables.0, tables.1, tables.2, challenges);
    lemma_eq_extension(rho, challenges);
}

/// The parity of bits as a field sum.
proof fn lemma_parity_lift(f: spec_fn(int) -> bool, n: int)
    requires
        0 <= n,
    ensures
        bit_value(parity(f, n)) == fsum(|t: int| bit_value(f(t)), n),
    decreases n,
{
    if n > 0 {
        lemma_parity_lift(f, n - 1);
        lemma_bit_xor(parity(f, n - 1), f(n - 1));
    }
}

/// Hits weighted by a table give the listed entries.
proof fn lemma_hits_sum(row: Seq<u16>, l: Seq<F128>, c: F128)
    requires
        l.len() == 2048,
        forall|t: int| 0 <= t < row.len() ==> #[trigger] row[t] < 2048,
    ensures
        fsum(|u: int| fmul(tap_hits(row, u, c, row.len() as int), l[u]), 2048) == fmul(
            c,
            fsum(|t: int| l[row[t] as int], row.len() as int),
        ),
{
    let n = row.len() as int;
    let cell = |u: int, t: int|
        fmul(
            l[u],
            if row[t] == u {
                c
            } else {
                fzero()
            },
        );
    let f = |u: int| fmul(tap_hits(row, u, c, n), l[u]);
    let rows = |u: int| fsum(|t: int| cell(u, t), n);
    assert forall|u: int| 0 <= u < 2048 implies #[trigger] f(u) == rows(u) by {
        let h = |t: int|
            if row[t] == u {
                c
            } else {
                fzero()
            };
        lemma_fsum_scale(l[u], h, n);
        lemma_fsum_congr(|t: int| fmul(l[u], h(t)), |t: int| cell(u, t), n);
        lemma_fmul_comm(tap_hits(row, u, c, n), l[u]);
        lemma_fsum_congr(
            h,
            |t: int|
                if row[t] == u {
                    c
                } else {
                    fzero()
                },
            n,
        );
    }
    lemma_fsum_congr(f, rows, 2048);
    lemma_fsum_exchange(cell, 2048, n);
    lemma_fsum_congr(rows, |u: int| fsum(|t: int| cell(u, t), n), 2048);
    let columns = |t: int| fsum(|u: int| cell(u, t), 2048);
    let g = |t: int| fmul(c, l[row[t] as int]);
    assert forall|t: int| 0 <= t < n implies #[trigger] columns(t) == g(t) by {
        let k = row[t] as int;
        let h = |u: int| cell(u, t);
        assert forall|u: int| 0 <= u < 2048 && u != k implies #[trigger] h(u) == fzero() by {
            lemma_fmul_zero(l[u]);
            lemma_fmul_comm(l[u], fzero());
        }
        lemma_fsum_single(h, 2048, k);
        lemma_fmul_comm(l[k], c);
    }
    lemma_fsum_congr(columns, g, n);
    lemma_fsum_congr(columns, |t: int| fsum(|u: int| cell(u, t), 2048), n);
    lemma_fsum_scale(c, |t: int| l[row[t] as int], n);
    lemma_fsum_congr(g, |t: int| fmul(c, (|t: int| l[row[t] as int])(t)), n);
}

/// The sum of two tables' products.
pub open spec fn inner_product(v: Seq<F128>, l: Seq<F128>) -> F128 {
    fsum(|u: int| fmul(v[u], l[u]), v.len() as int)
}

/// The tap values, batched by the powers of the challenge, are the inner
/// product of the linear weights with the previous state.
pub proof fn taps_reduce_to_the_previous_state(
    taps: LinearTaps,
    bits: Seq<bool>,
    gamma: F128,
    point: Seq<F128>,
)
    requires
        taps.well_formed(),
        bits.len() == 2048,
        point.len() == 11,
    ensures
        ({
            let tables = layer_tables(taps, bits);
            inner_product(linear_weights(taps, gamma, point), bit_table(bits)) == fadd(
                fadd(mle(tables.0, point), fmul(gamma, mle(tables.1, point))),
                fmul(fmul(gamma, gamma), mle(tables.2, point)),
            )
        }),
{
    lemma2_to64();
    let l = bit_table(bits);
    let v = linear_weights(taps, gamma, point);
    let tables = layer_tables(taps, bits);
    let image = image_bits(taps, bits);
    let part = |u: int, out: int| fsum(|j: int| weight_part(taps, gamma, point, u, out, j), 3);
    // sum_u l(u) sum_out part = sum_out sum_u l(u) part
    let cell = |u: int, out: int| fmul(l[u], part(u, out));
    let f = |u: int| fmul(v[u], l[u]);
    let rows = |u: int| fsum(|out: int| cell(u, out), 1600);
    assert forall|u: int| 0 <= u < 2048 implies #[trigger] f(u) == rows(u) by {
        let h = |out: int| part(u, out);
        lemma_fsum_scale(l[u], h, 1600);
        lemma_fsum_congr(|out: int| fmul(l[u], h(out)), |out: int| cell(u, out), 1600);
        lemma_fsum_congr(
            h,
            |out: int| fsum(|j: int| weight_part(taps, gamma, point, u, out, j), 3),
            1600,
        );
        lemma_fmul_comm(v[u], l[u]);
    }
    lemma_fsum_congr(f, rows, 2048);
    lemma_fsum_exchange(cell, 2048, 1600);
    lemma_fsum_congr(rows, |u: int| fsum(|out: int| cell(u, out), 1600), 2048);
    let columns = |out: int| fsum(|u: int| cell(u, out), 2048);
    lemma_fsum_congr(columns, |out: int| fsum(|u: int| cell(u, out), 2048), 1600);
    let entry = |j: int, out: int|
        if j == 0 {
            tables.0[out]
        } else if j == 1 {
            tables.1[out]
        } else {
            tables.2[out]
        };
    let term = |j: int, out: int| fmul(batch_power(gamma, j), fmul(eq_weight(point, out), entry(j, out)));
    let t0 = |out: int| term(0, out);
    let t1 = |out: int| term(1, out);
    let t2 = |out: int| term(2, out);
    let t01 = |out: int| fadd(t0(out), t1(out));
    let all = |out: int| fadd(t01(out), t2(out));
    assert forall|out: int| 0 <= out < 1600 implies #[trigger] columns(out) == all(out) by {
        lemma_output_column(taps, bits, gamma, point, out);
        lemma_fsum_congr(
            |u: int| cell(u, out),
            |u: int|
                fmul(
                    l[u],
                    fsum(|j: int| weight_part(taps, gamma, point, u, out, j), 3),
                ),
            2048,
        );
    }
    lemma_fsum_congr(columns, all, 1600);
    lemma_fsum_add(t01, t2, 1600);
    lemma_fsum_congr(all, |out: int| fadd(t01(out), t2(out)), 1600);
    lemma_fsum_add(t0, t1, 1600);
    lemma_fsum_congr(t01, |out: int| fadd(t0(out), t1(out)), 1600);
    lemma_table_extension(tables.0, point, fone(), t0);
    lemma_table_extension(tables.1, point, gamma, t1);
    lemma_table_extension(tables.2, point, fmul(gamma, gamma), t2);
    lemma_fmul_one(mle(tables.0, point));
}

/// A padded table's extension from its live entries.
proof fn lemma_table_extension(
    table: Seq<F128>,
    point: Seq<F128>,
    c: F128,
    f: spec_fn(int) -> F128,
)
    requires
        table.len() == 2048,
        point.len() == 11,
        forall|i: int| 1600 <= i < 2048 ==> #[trigger] table[i] == fzero(),
        forall|i: int|
            0 <= i < 1600 ==> #[trigger] f(i) == fmul(c, fmul(eq_weight(point, i), table[i])),
    ensures
        fsum(f, 1600) == fmul(c, mle(table, point)),
{
    lemma2_to64();
    lemma_mle_is_weighted_sum(table, point);
    let g = |i: int| fmul(table[i], eq_weight(point, i));
    lemma_fsum_split(g, 1600, 448);
    let tail = |i: int| g(1600 + i);
    assert forall|i: int| 0 <= i < 448 implies #[trigger] tail(i) == fzero() by {
        assert(table[1600 + i] == fzero());
        lemma_fmul_zero(eq_weight(point, 1600 + i));
        lemma_fmul_comm(fzero(), eq_weight(point, 1600 + i));
    }
    lemma_fsum_zero(tail, 448);
    lemma_fsum_congr(tail, |i: int| g(1600 + i), 448);
    lemma_fadd_zero(fsum(g, 1600));
    lemma_fadd_comm(fsum(g, 1600), fzero());
    lemma_fsum_scale(c, g, 1600);
    assert forall|i: int| 0 <= i < 1600 implies #[trigger] f(i) == fmul(c, g(i)) by {
        lemma_fmul_comm(table[i], eq_weight(point, i));
    }
    lemma_fsum_congr(f, |i: int| fmul(c, g(i)), 1600);
}

/// One output bit's share of the inner product.
proof fn lemma_output_column(
    taps: LinearTaps,
    bits: Seq<bool>,
    gamma: F128,
    point: Seq<F128>,
    out: int,
)
    requires
        taps.well_formed(),
        bits.len() == 2048,
        point.len() == 11,
        0 <= out < 1600,
    ensures
        ({
            let tables = layer_tables(taps, bits);
            let l = bit_table(bits);
            let w = eq_weight(point, out);
            fsum(
                |u: int|
                    fmul(
                        l[u],
                        fsum(|j: int| weight_part(taps, gamma, point, u, out, j), 3),
                    ),
                2048,
            ) == fadd(
                fadd(
                    fmul(fone(), fmul(w, tables.0[out])),
                    fmul(gamma, fmul(w, tables.1[out])),
                ),
                fmul(fmul(gamma, gamma), fmul(w, tables.2[out])),
            )
        }),
{
    let tables = layer_tables(taps, bits);
    let l = bit_table(bits);
    let w = eq_weight(point, out);
    let image = image_bits(taps, bits);
    let part = |u: int, j: int| weight_part(taps, gamma, point, u, out, j);
    let p0 = |u: int| fmul(part(u, 0), l[u]);
    let p1 = |u: int| fmul(part(u, 1), l[u]);
    let p2 = |u: int| fmul(part(u, 2), l[u]);
    let p01 = |u: int| fadd(p0(u), p1(u));
    let all = |u: int| fadd(p01(u), p2(u));
    let f = |u: int|
        fmul(l[u], fsum(|j: int| weight_part(taps, gamma, point, u, out, j), 3));
    assert forall|u: int| 0 <= u < 2048 implies #[trigger] f(u) == all(u) by {
        reveal_with_fuel(fsum, 4);
        let (a, b, c) = (part(u, 0), part(u, 1), part(u, 2));
        lemma_fadd_zero(a);
        lemma_fmul_distr(l[u], fadd(a, b), c);
        lemma_fmul_distr(l[u], a, b);
        lemma_fmul_comm(l[u], a);
        lemma_fmul_comm(l[u], b);
        lemma_fmul_comm(l[u], c);
    }
    lemma_fsum_congr(f, all, 2048);
    lemma_fsum_add(p01, p2, 2048);
    lemma_fsum_congr(all, |u: int| fadd(p01(u), p2(u)), 2048);
    lemma_fsum_add(p0, p1, 2048);
    lemma_fsum_congr(p01, |u: int| fadd(p0(u), p1(u)), 2048);
    lemma_neighbor_share(taps, bits, gamma, point, out, 0, p0);
    lemma_neighbor_share(taps, bits, gamma, point, out, 1, p1);
    lemma_neighbor_share(taps, bits, gamma, point, out, 2, p2);
    assert(neighbor_of(out, 0) == out);
    assert(0 <= neighbor_of(out, 1) < 1600 && 0 <= neighbor_of(out, 2) < 1600);
}

proof fn lemma_neighbor_share(
    taps: LinearTaps,
    bits: Seq<bool>,
    gamma: F128,
    point: Seq<F128>,
    out: int,
    j: int,
    p: spec_fn(int) -> F128,
)
    requires
        taps.well_formed(),
        bits.len() == 2048,
        0 <= out < 1600,
        0 <= j < 3,
        forall|u: int|
            0 <= u < 2048 ==> #[trigger] p(u) == fmul(
                weight_part(taps, gamma, point, u, out, j),
                bit_table(bits)[u],
            ),
    ensures
        fsum(p, 2048) == fmul(
            batch_power(gamma, j),
            fmul(
                eq_weight(point, out),
                bit_value(image_bits(taps, bits)[neighbor_of(out, j)]),
            ),
        ),
{
    let l = bit_table(bits);
    let n = neighbor_of(out, j);
    assert(0 <= n < 1600);
    let row = taps.taps@[n]@;
    let w = eq_weight(point, out);
    let c = fmul(batch_power(gamma, j), w);
    assert forall|t: int| 0 <= t < row.len() implies #[trigger] row[t] < 2048 by {
        assert(taps.taps@[n]@[t] < 2048);
    }
    lemma_hits_sum(row, l, c);
    lemma_fsum_congr(
        p,
        |u: int| fmul(tap_hits(row, u, c, row.len() as int), l[u]),
        2048,
    );
    let f = |t: int| bits[row[t] as int];
    lemma_parity_lift(f, row.len() as int);
    let lifted = |t: int| bit_value(f(t));
    let listed = |t: int| l[row[t] as int];
    assert forall|t: int| 0 <= t < row.len() implies #[trigger] lifted(t) == listed(t) by {
        assert(row[t] < 2048);
    }
    lemma_fsum_congr(lifted, listed, row.len() as int);
    lemma_fsum_congr(lifted, |t: int| bit_value(f(t)), row.len() as int);
    lemma_fsum_congr(listed, |t: int| l[row[t] as int], row.len() as int);
    lemma_fmul_assoc(
        batch_power(gamma, j),
        w,
        bit_value(image_bits(taps, bits)[n]),
    );
}

} // verus!
