//! The factor tables of the slot side and the dense output table of a record.
use vstd::arithmetic::power2::{lemma2_to64, pow2};
use vstd::prelude::*;

use crate::field::{
    fadd, fmul, fone, fselect, fzero, lemma_fadd_zero, lemma_fmul_assoc, lemma_fmul_comm,
    lemma_fmul_one, lemma_fmul_zero, F128,
};
use crate::frobenius::frob;
use crate::hash_to_point_scatter::power_sum::{
    double_power_sum, frobenius_powers, lemma_fpow_bits, COORD_VARS, INDEX_VARS, LIVE_COORDS,
};
use crate::hash_to_point_slots::relation::{
    bits_value, lemma_shift_bit, nat_bit, quotient_value, value, wire_at,
};
use crate::hash_to_point_slots::setup::{centering_position, gate_position, quotient_position};
use crate::hash_to_point_slots::witness::{
    accept_count, block_witness_meaning, carries_words, dense_region, dense_wire, is_block_witness,
    lemma_outputs_len, lemma_target_bits, outputs, target,
};
use crate::hash_to_point_slots::{ACCEPT_BOUND, COUNTER_BITS, FALCON_Q, GATE, PLANE, Q, SLOTS, U};
use crate::mle::{bit_element, bit_value};
use crate::polynomial::{distinct, lemma_power_sums_bind};
use crate::sumcheck::{product_sum, tables, term};
use crate::sums::{
    fpow, fprod, fsum, lemma_fprod_congr, lemma_fsum_congr, lemma_fsum_scale, lemma_fsum_split,
    lemma_fsum_zero,
};

verus! {

/// Factors of a term: the write gate, ten counter factors, and the value.
pub const FACTORS: usize = 12;

/// The number of accepted words before `slot`; past the last live slot the
/// counter is frozen.
pub open spec fn count_at(words: Seq<u16>, slot: int) -> int {
    accept_count(words, if slot < SLOTS {
        slot
    } else {
        SLOTS as int
    })
}

/// The residue that the committed quotient leaves of a word.
pub open spec fn committed_residue(z: Seq<bool>, words: Seq<u16>, slot: int) -> int {
    (words[slot] as int - FALCON_Q * quotient_value(z, slot)) % 65_536
}

/// Coordinate `c` of a slot's packed value: a residue bit, or the centering
/// flag.
pub open spec fn coordinate(z: Seq<bool>, words: Seq<u16>, slot: int, c: int) -> bool {
    if c < 14 {
        nat_bit(committed_residue(z, words, slot), c)
    } else {
        c == 14 && value(z, U as int, slot)
    }
}

/// The slot's coordinates combined under the powers of `gamma`.
pub open spec fn slot_value(z: Seq<bool>, words: Seq<u16>, gamma: F128, slot: int) -> F128 {
    fsum(
        |c: int| fselect(coordinate(z, words, slot, c), fpow(gamma, c)),
        LIVE_COORDS as int,
    )
}

/// Entry `slot` of factor `f`.
pub open spec fn factor_entry(
    z: Seq<bool>,
    words: Seq<u16>,
    gamma: F128,
    beta: F128,
    f: int,
    slot: int,
) -> F128 {
    if f == 0 {
        bit_value(slot < SLOTS && value(z, GATE as int, slot))
    } else if f <= COUNTER_BITS {
        counter_entry(words, beta, f - 1, slot)
    } else if slot < SLOTS {
        slot_value(z, words, gamma, slot)
    } else {
        fzero()
    }
}

/// Counter factor `bit` at `slot`: `beta^(2^bit)` where the count has the bit.
pub open spec fn counter_entry(words: Seq<u16>, beta: F128, bit: int, slot: int) -> F128 {
    if nat_bit(count_at(words, slot), bit) {
        frob(beta, bit)
    } else {
        fone()
    }
}

/// The twelve factors over the padded slot domain.
pub open spec fn slot_factors(
    z: Seq<bool>,
    words: Seq<u16>,
    gamma: F128,
    beta: F128,
) -> Seq<Seq<F128>> {
    Seq::new(
        FACTORS as nat,
        |f: int| Seq::new(PLANE as nat, |s: int| factor_entry(z, words, gamma, beta, f, s)),
    )
}

/// The count before each slot of the padded domain.
fn counts(words: &[u16; SLOTS]) -> (result: Vec<u32>)
    ensures
        result@.len() == PLANE,
        forall|s: int|
            0 <= s < PLANE ==> #[trigger] result@[s] == count_at(words@, s) && result@[s] <= SLOTS,
{
    let mut result: Vec<u32> = Vec::new();
    let mut count: u32 = 0;
    let mut slot: usize = 0;
    while slot < PLANE
        invariant
            slot <= PLANE,
            result@.len() == slot,
            count == count_at(words@, slot as int),
            count <= slot,
            count <= SLOTS,
            forall|s: int|
                0 <= s < slot ==> #[trigger] result@[s] == count_at(words@, s) && result@[s]
                    <= SLOTS,
        decreases PLANE - slot,
    {
        result.push(count);
        if slot < SLOTS && (words[slot] as u32) < ACCEPT_BOUND {
            count = count + 1;
        }
        slot = slot + 1;
    }
    result
}

fn gate_table(block: &[bool]) -> (table: Vec<F128>)
    requires
        block@.len() > wire_at(GATE as int, SLOTS - 1),
    ensures
        table@ == Seq::new(
            PLANE as nat,
            |s: int| bit_value(s < SLOTS && value(block@, GATE as int, s)),
        ),
{
    let mut table: Vec<F128> = Vec::new();
    let mut slot: usize = 0;
    while slot < PLANE
        invariant
            block@.len() > wire_at(GATE as int, SLOTS - 1),
            slot <= PLANE,
            table@.len() == slot,
            forall|s: int|
                0 <= s < slot ==> #[trigger] table@[s] == bit_value(
                    s < SLOTS && value(block@, GATE as int, s),
                ),
        decreases PLANE - slot,
    {
        let set = slot < SLOTS && block[gate_position(slot)];
        table.push(bit_element(set));
        slot = slot + 1;
    }
    assert(table@ =~= Seq::new(
        PLANE as nat,
        |s: int| bit_value(s < SLOTS && value(block@, GATE as int, s)),
    ));
    table
}

fn counter_table(counts: &Vec<u32>, bit: u32, power: F128) -> (table: Vec<F128>)
    requires
        bit < 32,
    ensures
        table@ == Seq::new(
            counts@.len(),
            |s: int| if nat_bit(counts@[s] as int, bit as int) {
                power
            } else {
                fone()
            },
        ),
{
    let mut table: Vec<F128> = Vec::new();
    let mut slot: usize = 0;
    while slot < counts.len()
        invariant
            bit < 32,
            slot <= counts@.len(),
            table@.len() == slot,
            forall|s: int|
                0 <= s < slot ==> #[trigger] table@[s] == if nat_bit(counts@[s] as int, bit as int) {
                    power
                } else {
                    fone()
                },
        decreases counts@.len() - slot,
    {
        proof {
            lemma_shift_bit(counts@[slot as int], bit);
        }
        if (counts[slot] >> bit) & 1 == 1 {
            table.push(power);
        } else {
            table.push(F128::one());
        }
        slot = slot + 1;
    }
    assert(table@ =~= Seq::new(
        counts@.len(),
        |s: int| if nat_bit(counts@[s] as int, bit as int) {
            power
        } else {
            fone()
        },
    ));
    table
}

/// The residue that a slot's quotient wires leave of its word.
fn residue_of(block: &[bool], words: &[u16; SLOTS], slot: usize) -> (residue: u32)
    requires
        slot < SLOTS,
        block@.len() > wire_at(Q + 2, slot as int),
    ensures
        residue == committed_residue(block@, words@, slot as int),
        residue < 65_536,
{
    let mut quotient: u32 = 0;
    if block[quotient_position(slot, 0)] {
        quotient = quotient + 1;
    }
    if block[quotient_position(slot, 1)] {
        quotient = quotient + 2;
    }
    if block[quotient_position(slot, 2)] {
        quotient = quotient + 4;
    }
    proof {
        lemma2_to64();
        reveal_with_fuel(bits_value, 4);
        assert(quotient == quotient_value(block@, slot as int));
    }
    let word: u32 = words[slot] as u32;
    let shifted: u32 = word + 131_072 - FALCON_Q * quotient;
    shifted % 65_536
}

/// Whether coordinate `c` of a slot's packed value is set.
fn coordinate_of(block: &[bool], residue: u32, slot: usize, c: usize, words: Ghost<Seq<u16>>) -> (set:
    bool)
    requires
        slot < SLOTS,
        c < LIVE_COORDS,
        block@.len() > wire_at(U as int, slot as int),
        residue == committed_residue(block@, words@, slot as int),
    ensures
        set == coordinate(block@, words@, slot as int, c as int),
{
    if c < 14 {
        proof {
            lemma_shift_bit(residue, c as u32);
        }
        (residue >> (c as u32)) & 1 == 1
    } else {
        block[centering_position(slot)]
    }
}

/// The value of a slot's coordinates.
fn slot_value_of(
    block: &[bool],
    words: &[u16; SLOTS],
    powers: &Vec<F128>,
    slot: usize,
    gamma: Ghost<F128>,
) -> (v: F128)
    requires
        slot < SLOTS,
        block@.len() > wire_at(U as int, slot as int),
        powers@ == Seq::new(LIVE_COORDS as nat, |c: int| fpow(gamma@, c)),
    ensures
        v == slot_value(block@, words@, gamma@, slot as int),
{
    let residue = residue_of(block, words, slot);
    let ghost f = |c: int|
        fselect(coordinate(block@, words@, slot as int, c), fpow(gamma@, c));
    let mut v = F128::zero();
    let mut c: usize = 0;
    while c < LIVE_COORDS
        invariant
            slot < SLOTS,
            c <= LIVE_COORDS,
            block@.len() > wire_at(U as int, slot as int),
            powers@ == Seq::new(LIVE_COORDS as nat, |c: int| fpow(gamma@, c)),
            residue == committed_residue(block@, words@, slot as int),
            f == (|c: int| fselect(coordinate(block@, words@, slot as int, c), fpow(gamma@, c))),
            v == fsum(f, c as int),
        decreases LIVE_COORDS - c,
    {
        let ghost before = v;
        if coordinate_of(block, residue, slot, c, Ghost(words@)) {
            v = v + powers[c];
        } else {
            proof {
                lemma_fadd_zero(before);
            }
        }
        assert(v == fadd(before, f(c as int)));
        c = c + 1;
    }
    v
}

/// `base^c` for `c < count`.
pub fn powers_of(base: F128, count: usize) -> (powers: Vec<F128>)
    ensures
        powers@ == Seq::new(count as nat, |c: int| fpow(base, c)),
{
    let mut powers: Vec<F128> = Vec::new();
    let mut current = F128::one();
    let mut c: usize = 0;
    while c < count
        invariant
            c <= count,
            powers@.len() == c,
            current == fpow(base, c as int),
            forall|i: int| 0 <= i < c ==> #[trigger] powers@[i] == fpow(base, i),
        decreases count - c,
    {
        powers.push(current);
        current = current * base;
        c = c + 1;
    }
    assert(powers@ =~= Seq::new(count as nat, |c: int| fpow(base, c)));
    powers
}

/// The twelve factor tables over the padded slot domain, from one record
/// block's witness bits. At padded slots the write gate and the value are zero and
/// the counter factors keep the final count's bits.
pub fn factor_tables(block: &[bool], words: &[u16; SLOTS], gamma: F128, beta: F128) -> (factors: Vec<
    Vec<F128>,
>)
    requires
        block@.len() > wire_at(GATE as int, SLOTS - 1),
    ensures
        tables(factors@) == slot_factors(block@, words@, gamma, beta),
{
    let beta_powers = frobenius_powers(beta, COUNTER_BITS);
    let gamma_powers = powers_of(gamma, LIVE_COORDS);
    let count = counts(words);
    let ghost z = block@;
    let ghost ws = words@;
    let ghost expected = slot_factors(z, ws, gamma, beta);

    let mut factors: Vec<Vec<F128>> = Vec::new();
    factors.push(gate_table(block));
    assert(factors@[0]@ =~= expected[0]);
    let mut bit: usize = 0;
    while bit < COUNTER_BITS
        invariant
            bit <= COUNTER_BITS,
            factors@.len() == 1 + bit,
            expected == slot_factors(z, ws, gamma, beta),
            beta_powers@ == Seq::new(COUNTER_BITS as nat, |b: int| frob(beta, b)),
            count@.len() == PLANE,
            forall|s: int|
                0 <= s < PLANE ==> #[trigger] count@[s] == count_at(ws, s) && count@[s] <= SLOTS,
            forall|f: int| 0 <= f < factors@.len() ==> (#[trigger] factors@[f])@ == expected[f],
        decreases COUNTER_BITS - bit,
    {
        let table = counter_table(&count, bit as u32, beta_powers[bit]);
        assert(table@ =~= expected[1 + bit]);
        factors.push(table);
        bit = bit + 1;
    }
    let mut values: Vec<F128> = Vec::new();
    let mut slot: usize = 0;
    while slot < PLANE
        invariant
            slot <= PLANE,
            block@ == z,
            words@ == ws,
            z.len() > wire_at(GATE as int, SLOTS - 1),
            gamma_powers@ == Seq::new(LIVE_COORDS as nat, |c: int| fpow(gamma, c)),
            values@.len() == slot,
            forall|s: int|
                0 <= s < slot ==> #[trigger] values@[s] == factor_entry(z, ws, gamma, beta, 11, s),
        decreases PLANE - slot,
    {
        if slot < SLOTS {
            values.push(slot_value_of(block, words, &gamma_powers, slot, Ghost(gamma)));
        } else {
            values.push(F128::zero());
        }
        slot = slot + 1;
    }
    assert(values@ =~= expected[11]);
    factors.push(values);
    assert(tables(factors@) =~= expected);
    factors
}

/// The gated slots among the first `n`, in order.
pub open spec fn gated(z: Seq<bool>, n: int) -> Seq<int>
    decreases n,
{
    if n <= 0 {
        Seq::empty()
    } else if value(z, GATE as int, n - 1) {
        gated(z, n - 1).push(n - 1)
    } else {
        gated(z, n - 1)
    }
}

/// Entry `i` of the dense table: coordinate `i % 16` of gated slot `i / 16`.
pub open spec fn dense_entry(z: Seq<bool>, words: Seq<u16>, i: int) -> bool {
    let slots = gated(z, SLOTS as int);
    i / 16 < slots.len() && coordinate(z, words, slots[i / 16], i % 16)
}

/// The dense table: the gated slots' coordinates in counter order.
pub open spec fn dense_outputs(z: Seq<bool>, words: Seq<u16>) -> Seq<F128> {
    Seq::new(8_192, |i: int| bit_value(dense_entry(z, words, i)))
}

proof fn lemma_gated(z: Seq<bool>, n: int, j: int)
    requires
        0 <= n,
        0 <= j < gated(z, n).len(),
    ensures
        0 <= gated(z, n)[j] < n,
        gated(z, n).len() <= n,
    decreases n,
{
    if n > 0 {
        if j < gated(z, n - 1).len() {
            lemma_gated(z, n - 1, j);
        } else if gated(z, n - 1).len() > 0 {
            lemma_gated(z, n - 1, 0);
        }
    }
}

proof fn lemma_gated_prefix(z: Seq<bool>, n: int, m: int)
    requires
        0 <= n <= m,
    ensures
        gated(z, n).len() <= gated(z, m).len(),
        gated(z, n) == gated(z, m).take(gated(z, n).len() as int),
    decreases m - n,
{
    if n < m {
        lemma_gated_prefix(z, n, m - 1);
        assert(gated(z, n) =~= gated(z, m).take(gated(z, n).len() as int));
    } else {
        assert(gated(z, n) =~= gated(z, m).take(gated(z, n).len() as int));
    }
}

/// The dense table that a correct prover commits: bit `c` of the packed value
/// of the `j`-th gated slot at `16 j + c`.
pub fn dense_table(block: &[bool], words: &[u16; SLOTS]) -> (dense: Vec<F128>)
    requires
        block@.len() > wire_at(GATE as int, SLOTS - 1),
        gated(block@, SLOTS as int).len() == 512,
    ensures
        dense@ == dense_outputs(block@, words@),
{
    let ghost z = block@;
    let ghost ws = words@;
    let ghost slots = gated(z, SLOTS as int);
    let mut dense: Vec<F128> = Vec::new();
    let mut slot: usize = 0;
    while slot < SLOTS
        invariant
            slot <= SLOTS,
            block@ == z,
            words@ == ws,
            z.len() > wire_at(GATE as int, SLOTS - 1),
            slots == gated(z, SLOTS as int),
            slots.len() == 512,
            dense@.len() == 16 * gated(z, slot as int).len(),
            dense@.len() <= 8_192,
            forall|i: int|
                0 <= i < dense@.len() ==> #[trigger] dense@[i] == bit_value(dense_entry(z, ws, i)),
        decreases SLOTS - slot,
    {
        proof {
            lemma_gated_prefix(z, slot as int, SLOTS as int);
            lemma_gated_prefix(z, slot + 1, SLOTS as int);
        }
        if block[gate_position(slot)] {
            let ghost start = dense@.len() as int;
            let ghost j = gated(z, slot as int).len() as int;
            assert(gated(z, slot + 1) == gated(z, slot as int).push(slot as int));
            assert(slots[j] == slot) by {
                assert(slots.take(j + 1)[j] == slots[j]);
            }
            let residue = residue_of(block, words, slot);
            let mut c: usize = 0;
            while c < LIVE_COORDS
                invariant
                    c <= LIVE_COORDS,
                    slot < SLOTS,
                    block@ == z,
                    z.len() > wire_at(GATE as int, SLOTS - 1),
                    residue == committed_residue(z, ws, slot as int),
                    start == 16 * j,
                    0 <= j < 512,
                    slots == gated(z, SLOTS as int),
                    slots.len() == 512,
                    slots[j] == slot,
                    dense@.len() == start + c,
                    forall|i: int|
                        0 <= i < dense@.len() ==> #[trigger] dense@[i] == bit_value(
                            dense_entry(z, ws, i),
                        ),
                decreases LIVE_COORDS - c,
            {
                let set = coordinate_of(block, residue, slot, c, Ghost(ws));
                assert((start + c) / 16 == j && (start + c) % 16 == c);
                dense.push(bit_element(set));
                c = c + 1;
            }
            assert((start + 15) / 16 == j && (start + 15) % 16 == 15);
            dense.push(F128::zero());
        }
        slot = slot + 1;
    }
    assert(dense@ =~= dense_outputs(z, ws));
    dense
}

/// Where the rows hold, the gated slots are the first 512 accepted ones: before
/// each of them the counter holds its output index.
proof fn lemma_gated_counts(z: Seq<bool>, words: Seq<u16>, n: int)
    requires
        carries_words(z, words),
        words.len() == SLOTS,
        0 <= n <= SLOTS,
    ensures
        gated(z, n).len() == outputs(words, n).len(),
        forall|j: int|
            0 <= j < gated(z, n).len() ==> outputs(words, n)[j] == target(
                words[#[trigger] gated(z, n)[j]],
            ),
    decreases n,
{
    if n > 0 {
        lemma_gated_counts(z, words, n - 1);
        block_witness_meaning(z, words, n - 1);
        lemma_outputs_len(words, n - 1);
    }
}

/// Where the rows hold, the coordinates of a slot are the bits of its target.
proof fn lemma_coordinate_is_target_bit(z: Seq<bool>, words: Seq<u16>, slot: int, c: int)
    requires
        carries_words(z, words),
        words.len() == SLOTS,
        0 <= slot < SLOTS,
        0 <= c < 16,
    ensures
        coordinate(z, words, slot, c) == nat_bit(target(words[slot]), c),
{
    block_witness_meaning(z, words, slot);
    let w = words[slot] as int;
    assert(w - 12_289 * (w / 12_289) == w % 12_289);
    lemma_target_bits(words[slot], c);
}

/// The dense table of a record with 512 accepted words is the dense region of
/// its block witness.
pub proof fn dense_table_is_the_dense_region(z: Seq<bool>, words: Seq<u16>, j: int, c: int)
    requires
        is_block_witness(z, words),
        words.len() == SLOTS,
        accept_count(words, SLOTS as int) >= 512,
        0 <= j < 512,
        0 <= c < 16,
    ensures
        gated(z, SLOTS as int).len() == 512,
        dense_outputs(z, words)[16 * j + c] == bit_value(z[dense_wire(j, c)]),
{
    let n = SLOTS as int;
    lemma_gated_counts(z, words, n);
    lemma_outputs_len(words, n);
    let slot = gated(z, n)[j];
    lemma_gated(z, n, j);
    lemma_coordinate_is_target_bit(z, words, slot, c);
    assert((16 * j + c) / 16 == j && (16 * j + c) % 16 == c);
}

/// The gated slots' values under the powers of `beta`, in counter order.
spec fn gated_sum(z: Seq<bool>, words: Seq<u16>, gamma: F128, beta: F128, n: int) -> F128 {
    fsum(
        |j: int| fmul(fpow(beta, j), slot_value(z, words, gamma, gated(z, SLOTS as int)[j])),
        gated(z, n).len() as int,
    )
}

proof fn lemma_slot_term(z: Seq<bool>, words: Seq<u16>, gamma: F128, beta: F128, slot: int)
    requires
        0 <= slot < PLANE,
        0 <= count_at(words, slot) < 1_024,
    ensures
        term(slot_factors(z, words, gamma, beta), slot) == fmul(
            fmul(
                factor_entry(z, words, gamma, beta, 0, slot),
                fpow(beta, count_at(words, slot)),
            ),
            factor_entry(z, words, gamma, beta, 11, slot),
        ),
{
    let factors = slot_factors(z, words, gamma, beta);
    let f = |k: int| factors[k][slot];
    let g = |b: int| counter_entry(words, beta, b, slot);
    let count = count_at(words, slot);
    assert(fprod(f, 12) == fmul(fprod(f, 11), f(11)));
    lemma_product_of_counters(f, g, 10);
    lemma2_to64();
    lemma_fpow_bits(beta, count, 10);
    let h = |b: int| if nat_bit(count, b) {
        frob(beta, b)
    } else {
        fone()
    };
    lemma_fprod_congr(g, h, 10);
}

pub proof fn lemma_product_of_counters(f: spec_fn(int) -> F128, g: spec_fn(int) -> F128, n: int)
    requires
        0 <= n,
        forall|b: int| 0 <= b < n ==> #[trigger] g(b) == f(b + 1),
    ensures
        fprod(f, n + 1) == fmul(f(0), fprod(g, n)),
    decreases n,
{
    if n == 0 {
        reveal_with_fuel(fprod, 2);
        lemma_fmul_one(f(0));
        lemma_fmul_comm(fone(), f(0));
    } else {
        lemma_product_of_counters(f, g, n - 1);
        assert(g(n - 1) == f(n));
        lemma_fmul_assoc(f(0), fprod(g, n - 1), g(n - 1));
    }
}

proof fn lemma_slot_side(z: Seq<bool>, words: Seq<u16>, gamma: F128, beta: F128, n: int)
    requires
        carries_words(z, words),
        words.len() == SLOTS,
        0 <= n <= SLOTS,
    ensures
        fsum(|s: int| term(slot_factors(z, words, gamma, beta), s), n) == gated_sum(
            z,
            words,
            gamma,
            beta,
            n,
        ),
    decreases n,
{
    let f = |s: int| term(slot_factors(z, words, gamma, beta), s);
    let g = |j: int|
        fmul(fpow(beta, j), slot_value(z, words, gamma, gated(z, SLOTS as int)[j]));
    if n > 0 {
        let s = n - 1;
        lemma_slot_side(z, words, gamma, beta, s);
        block_witness_meaning(z, words, s);
        lemma_outputs_len(words, s);
        lemma_slot_term(z, words, gamma, beta, s);
        let v = slot_value(z, words, gamma, s);
        let p = fpow(beta, count_at(words, s));
        if value(z, GATE as int, s) {
            lemma_gated_counts(z, words, s);
            lemma_gated_prefix(z, n, SLOTS as int);
            let j = gated(z, s).len() as int;
            assert(gated(z, SLOTS as int)[j] == s) by {
                assert(gated(z, SLOTS as int).take(j + 1)[j] == s);
            }
            lemma_fmul_one(p);
            assert(f(s) == g(j));
        } else {
            lemma_fmul_zero(p);
            lemma_fmul_zero(v);
            lemma_fadd_zero(fsum(f, s));
        }
    }
}

/// The scatter identity: on a record with 512 accepted words, the product
/// sumcheck of the slot side has the dense table's power sum as its claim.
pub proof fn slot_side_equals_dense_side(z: Seq<bool>, words: Seq<u16>, gamma: F128, beta: F128)
    requires
        carries_words(z, words),
        words.len() == SLOTS,
        accept_count(words, SLOTS as int) >= 512,
    ensures
        product_sum(slot_factors(z, words, gamma, beta)) == double_power_sum(
            dense_outputs(z, words),
            beta,
            gamma,
            INDEX_VARS as nat,
            COORD_VARS as nat,
        ),
{
    lemma2_to64();
    let n = SLOTS as int;
    let factors = slot_factors(z, words, gamma, beta);
    let dense = dense_outputs(z, words);
    lemma_outputs_len(words, n);
    lemma_gated_counts(z, words, n);
    lemma_slot_side(z, words, gamma, beta, n);
    // The padded slots add nothing.
    let f = |s: int| term(factors, s);
    lemma_fsum_split(f, n, PLANE - n);
    let pad = |i: int| f(n + i);
    assert forall|i: int| 0 <= i < PLANE - n implies #[trigger] pad(i) == fzero() by {
        lemma_slot_term(z, words, gamma, beta, n + i);
        lemma_fmul_zero(fpow(beta, count_at(words, n + i)));
        lemma_fmul_zero(fzero());
    }
    lemma_fsum_zero(pad, PLANE - n);
    lemma_fsum_congr(pad, |i: int| f(n + i), PLANE - n);
    lemma_fadd_zero(fsum(f, n));
    assert(product_sum(factors) == gated_sum(z, words, gamma, beta, n));
    // Row `j` of the dense table is the value of gated slot `j`.
    let g = |j: int| fmul(fpow(beta, j), slot_value(z, words, gamma, gated(z, n)[j]));
    let rows = |j: int|
        fsum(
            |c: int| fmul(dense[j * pow2(4) + c], fmul(fpow(beta, j), fpow(gamma, c))),
            pow2(4) as int,
        );
    assert forall|j: int| 0 <= j < 512 implies #[trigger] g(j) == rows(j) by {
        let slot = gated(z, n)[j];
        let u = |c: int| fselect(coordinate(z, words, slot, c), fpow(gamma, c));
        lemma_fsum_scale(fpow(beta, j), u, 15);
        let left = |c: int| fmul(fpow(beta, j), u(c));
        let right = |c: int| fmul(dense[j * pow2(4) + c], fmul(fpow(beta, j), fpow(gamma, c)));
        assert forall|c: int| 0 <= c < 16 implies #[trigger] right(c) == (if c < 15 {
            left(c)
        } else {
            fzero()
        }) by {
            assert((j * 16 + c) / 16 == j && (j * 16 + c) % 16 == c);
            let p = fmul(fpow(beta, j), fpow(gamma, c));
            lemma_fmul_one(p);
            lemma_fmul_zero(p);
            lemma_fmul_zero(fpow(beta, j));
        }
        lemma_fsum_congr(left, right, 15);
        assert(right(15) == fzero());
        lemma_fadd_zero(fsum(right, 15));
    }
    lemma_fsum_congr(g, rows, 512);
}

/// The table that the dense region of a block commits.
pub open spec fn committed_table(z: Seq<bool>) -> Seq<F128> {
    Seq::new(8_192, |i: int| bit_value(z[dense_wire(i / 16, i % 16)]))
}

/// Row `j` of a dense table under the powers of `gamma`.
spec fn row_value(table: Seq<F128>, gamma: F128, j: int) -> F128 {
    fsum(|c: int| fmul(fpow(gamma, c), table[16 * j + c]), 16)
}

proof fn lemma_double_sum_by_rows(table: Seq<F128>, beta: F128, gamma: F128)
    ensures
        double_power_sum(table, beta, gamma, INDEX_VARS as nat, COORD_VARS as nat) == fsum(
            |j: int| fmul(fpow(beta, j), row_value(table, gamma, j)),
            512,
        ),
{
    lemma2_to64();
    let rows = |j: int|
        fsum(
            |c: int| fmul(table[j * pow2(4) + c], fmul(fpow(beta, j), fpow(gamma, c))),
            pow2(4) as int,
        );
    let g = |j: int| fmul(fpow(beta, j), row_value(table, gamma, j));
    assert forall|j: int| 0 <= j < 512 implies #[trigger] rows(j) == g(j) by {
        let u = |c: int| fmul(fpow(gamma, c), table[16 * j + c]);
        let right = |c: int| fmul(table[j * pow2(4) + c], fmul(fpow(beta, j), fpow(gamma, c)));
        lemma_fsum_scale(fpow(beta, j), u, 16);
        assert forall|c: int| 0 <= c < 16 implies #[trigger] right(c) == fmul(
            fpow(beta, j),
            u(c),
        ) by {
            let (t, p, q) = (table[16 * j + c], fpow(beta, j), fpow(gamma, c));
            assert(j * pow2(4) + c == 16 * j + c);
            lemma_fmul_comm(t, fmul(p, q));
            lemma_fmul_assoc(p, q, t);
        }
        lemma_fsum_congr(right, |c: int| fmul(fpow(beta, j), u(c)), 16);
    }
    lemma_fsum_congr(rows, g, 512);
}

/// The scatter binds the dense region: where the rows hold and the dense side
/// of the committed region equals the slot side at more challenges of each
/// kind than its degrees, the region holds the outputs in order. A region that
/// does not refutes all but as few.
pub proof fn scatter_binds_the_dense_region(
    z: Seq<bool>,
    words: Seq<u16>,
    betas: Seq<F128>,
    gammas: Seq<F128>,
)
    requires
        carries_words(z, words),
        words.len() == SLOTS,
        accept_count(words, SLOTS as int) >= 512,
        betas.len() == 512,
        gammas.len() == 16,
        distinct(betas),
        distinct(gammas),
        forall|a: int, b: int|
            0 <= a < 512 && 0 <= b < 16 ==> product_sum(
                slot_factors(z, words, #[trigger] gammas[b], #[trigger] betas[a]),
            ) == double_power_sum(
                committed_table(z),
                betas[a],
                gammas[b],
                INDEX_VARS as nat,
                COORD_VARS as nat,
            ),
    ensures
        dense_region(z, words, SLOTS as int),
{
    let n = SLOTS as int;
    let (held, honest) = (committed_table(z), dense_outputs(z, words));
    lemma_gated_counts(z, words, n);
    lemma_outputs_len(words, n);
    assert forall|j: int, c: int| 0 <= j < 512 && 0 <= c < 16 implies #[trigger] z[dense_wire(
        j,
        c,
    )] == (j < outputs(words, n).len() && nat_bit(outputs(words, n)[j], c)) by {
        let f = |c: int| held[16 * j + c];
        let g = |c: int| honest[16 * j + c];
        assert forall|b: int| 0 <= b < 16 implies fsum(
            |c: int| fmul(fpow(#[trigger] gammas[b], c), f(c)),
            16,
        ) == fsum(|c: int| fmul(fpow(gammas[b], c), g(c)), 16) by {
            let gamma = gammas[b];
            let x = |j: int| row_value(held, gamma, j);
            let y = |j: int| row_value(honest, gamma, j);
            assert forall|a: int| 0 <= a < 512 implies fsum(
                |j: int| fmul(fpow(#[trigger] betas[a], j), x(j)),
                512,
            ) == fsum(|j: int| fmul(fpow(betas[a], j), y(j)), 512) by {
                let beta = betas[a];
                slot_side_equals_dense_side(z, words, gamma, beta);
                lemma_double_sum_by_rows(held, beta, gamma);
                lemma_double_sum_by_rows(honest, beta, gamma);
                lemma_fsum_congr(
                    |j: int| fmul(fpow(beta, j), row_value(held, gamma, j)),
                    |j: int| fmul(fpow(betas[a], j), x(j)),
                    512,
                );
                lemma_fsum_congr(
                    |j: int| fmul(fpow(beta, j), row_value(honest, gamma, j)),
                    |j: int| fmul(fpow(betas[a], j), y(j)),
                    512,
                );
            }
            lemma_power_sums_bind(x, y, 512, betas, j);
            lemma_fsum_congr(
                |c: int| fmul(fpow(gamma, c), held[16 * j + c]),
                |c: int| fmul(fpow(gammas[b], c), f(c)),
                16,
            );
            lemma_fsum_congr(
                |c: int| fmul(fpow(gamma, c), honest[16 * j + c]),
                |c: int| fmul(fpow(gammas[b], c), g(c)),
                16,
            );
        }
        lemma_power_sums_bind(f, g, 16, gammas, c);
        let slot = gated(z, n)[j];
        lemma_gated(z, n, j);
        lemma_coordinate_is_target_bit(z, words, slot, c);
        assert((16 * j + c) / 16 == j && (16 * j + c) % 16 == c);
        assert(fone() != fzero());
    }
}

} // verus!
