//! The witness of one record block.
use vstd::arithmetic::power2::{lemma2_to64, pow2};
use vstd::prelude::*;

use crate::hash_to_point_slots::matrices::{build_matrices, pos, slot_matrices};
use crate::hash_to_point_slots::relation::{
    bits_value, block_holds, carry, chains_hold, count_before, counter_before, counter_rows_hold,
    flags_before, input_wire, lemma_bits_of_number, lemma_bits_value_congr,
    lemma_bits_value_injective, lemma_chain_meaning, lemma_counter_meaning, lemma_shift_bit,
    multiple_bit, nat_bit, quotient_value, residue_bit, residue_value, row_left, row_right,
    slot_row_holds, slot_soundness, value, wire_at, word_value,
};
use crate::hash_to_point_slots::{
    ACC, ACCEPT_BOUND, CNT, COUNTER_BITS, D, E, FALCON_Q, G, GATE, H, K, PIN_RANGE, PIN_T4, PLANE,
    Q, R_CHAIN, SLOTS, U, U_CHAIN, X, Z_BASE, Z_CONST_POS, Z_PLANES,
};
use crate::r1cs::{columns_below, eval_row, lin_eval, SparseBinaryMatrix};

verus! {

/// The word is accepted.
pub open spec fn accepts(word: u16) -> bool {
    word < ACCEPT_BOUND
}

/// The residue of an accepted word is above the middle.
pub open spec fn centered(word: u16) -> bool {
    word as int % FALCON_Q as int > 6_144
}

/// The packed output of a word: its residue, with the centering flag as bit
/// fourteen.
pub open spec fn target(word: u16) -> int {
    word as int % FALCON_Q as int + if centered(word) {
        16_384int
    } else {
        0
    }
}

/// The number of accepted words among the first `n`.
pub open spec fn accept_count(words: Seq<u16>, n: int) -> int
    decreases n,
{
    if n <= 0 {
        0
    } else {
        accept_count(words, n - 1) + if accepts(words[n - 1]) {
            1int
        } else {
            0
        }
    }
}

/// The outputs of the first 512 accepted words among the first `n`, in order.
pub open spec fn outputs(words: Seq<u16>, n: int) -> Seq<int>
    decreases n,
{
    if n <= 0 {
        Seq::empty()
    } else {
        let before = outputs(words, n - 1);
        if accepts(words[n - 1]) && accept_count(words, n - 1) < 512 {
            before.push(target(words[n - 1]))
        } else {
            before
        }
    }
}

pub proof fn lemma_outputs_len(words: Seq<u16>, n: int)
    requires
        0 <= n,
    ensures
        0 <= accept_count(words, n) <= n,
        outputs(words, n).len() == if accept_count(words, n) < 512 {
            accept_count(words, n)
        } else {
            512
        },
    decreases n,
{
    if n > 0 {
        lemma_outputs_len(words, n - 1);
    }
}

/// The wire of output `j`, coordinate `c`, in the dense region.
pub open spec fn dense_wire(j: int, c: int) -> int {
    Z_BASE * PLANE + 16 * j + c
}

/// The dense region holds the outputs of the first `n` words, and zeros after.
pub open spec fn dense_region(z: Seq<bool>, words: Seq<u16>, n: int) -> bool {
    forall|j: int, c: int|
        0 <= j < 512 && 0 <= c < 16 ==> #[trigger] z[dense_wire(j, c)] == (j < outputs(
            words,
            n,
        ).len() && nat_bit(outputs(words, n)[j], c))
}

/// The forced-zero wires are zero.
pub open spec fn pins_zero(z: Seq<bool>) -> bool {
    forall|p: int, slot: int|
        PIN_RANGE <= p <= PIN_T4 && 0 <= slot < SLOTS ==> !(#[trigger] value(z, p, slot))
}

/// Every row holds, and the word wires carry the words.
pub open spec fn carries_words(z: Seq<bool>, words: Seq<u16>) -> bool {
    &&& block_holds(z)
    &&& forall|slot: int| 0 <= slot < SLOTS ==> #[trigger] word_value(z, slot) == words[slot]
}

/// The block's witness for the given words: every row holds, the word wires
/// carry the words, the forced-zero wires are zero, and the dense region holds
/// the first 512 accepted outputs in order.
pub open spec fn is_block_witness(z: Seq<bool>, words: Seq<u16>) -> bool {
    &&& carries_words(z, words)
    &&& pins_zero(z)
    &&& dense_region(z, words, SLOTS as int)
}

/// What the rows say of each slot, whatever the dense region holds.
pub proof fn block_witness_meaning(z: Seq<bool>, words: Seq<u16>, slot: int)
    requires
        carries_words(z, words),
        words.len() == SLOTS,
        0 <= slot < SLOTS,
    ensures
        quotient_value(z, slot) == words[slot] as int / FALCON_Q as int,
        residue_value(z, slot) == words[slot] as int % FALCON_Q as int,
        value(z, ACC as int, slot) == accepts(words[slot]),
        value(z, U as int, slot) == centered(words[slot]),
        count_before(z, slot) == accept_count(words, slot),
        value(z, GATE as int, slot) == (accepts(words[slot]) && accept_count(words, slot) < 512),
{
    slot_soundness(z, slot);
    assert forall|s: int| 0 <= s < SLOTS implies #[trigger] counter_rows_hold(z, s) by {
        lemma_rows_in_range(z, s);
    }
    lemma_counter_meaning(z, SLOTS as int);
    assert(value(z, GATE as int, slot) == (value(z, ACC as int, slot) && flags_before(z, slot)
        < 512));
    lemma_flags_are_accepts(z, words, slot);
    lemma_counter_meaning(z, slot);
}

proof fn lemma_rows_in_range(z: Seq<bool>, slot: int)
    requires
        block_holds(z),
        0 <= slot < SLOTS,
    ensures
        counter_rows_hold(z, slot),
{
    assert(slot_row_holds(z, wire_at(GATE as int, slot)));
    assert forall|bit: int| 0 <= bit < COUNTER_BITS implies #[trigger] slot_row_holds(
        z,
        wire_at(H + bit, slot),
    ) by {}
    assert forall|bit: int| 0 <= bit < COUNTER_BITS implies #[trigger] slot_row_holds(
        z,
        wire_at(CNT + bit, slot),
    ) by {}
}

proof fn lemma_flags_are_accepts(z: Seq<bool>, words: Seq<u16>, n: int)
    requires
        block_holds(z),
        forall|slot: int| 0 <= slot < SLOTS ==> #[trigger] word_value(z, slot) == words[slot],
        0 <= n <= SLOTS,
    ensures
        flags_before(z, n) == accept_count(words, n),
    decreases n,
{
    if n > 0 {
        lemma_flags_are_accepts(z, words, n - 1);
        slot_soundness(z, n - 1);
        assert(word_value(z, n - 1) == words[n - 1]);
    }
}

// ---------------------------------------------------------------------------
// Which wires a row reads.
// ---------------------------------------------------------------------------

/// The two assignments agree on every wire up to `top`.
pub open spec fn agree(y: Seq<bool>, z: Seq<bool>, top: int) -> bool {
    forall|u: int| 0 <= u <= top ==> y[u] == z[u]
}

/// The two assignments agree on the constant wire, and up to plane `top` the
/// first agrees at slot `s` with the second at slot `t`.
pub open spec fn agree_slots(y: Seq<bool>, s: int, z: Seq<bool>, t: int, top: int) -> bool {
    &&& y[0] == z[0]
    &&& forall|q: int| 0 < q <= top ==> #[trigger] value(y, q, s) == value(z, q, t)
}

proof fn lemma_carry_local(y: Seq<bool>, s: int, z: Seq<bool>, t: int, plane: int, n: int, top: int)
    requires
        agree_slots(y, s, z, t, top),
        0 < plane,
        n > 0 ==> plane + n - 1 <= top,
    ensures
        carry(y, plane, s, n) == carry(z, plane, t, n),
    decreases n,
{
    if n > 0 {
        lemma_carry_local(y, s, z, t, plane, n - 1, top);
        assert(value(y, plane + n - 1, s) == value(z, plane + n - 1, t));
    }
}

proof fn lemma_multiple_local(y: Seq<bool>, s: int, z: Seq<bool>, t: int, i: int, top: int)
    requires
        agree_slots(y, s, z, t, top),
        0 <= i < 16,
        G - 1 <= top,
    ensures
        multiple_bit(y, s, i) == multiple_bit(z, t, i),
        value(y, X + i, s) == value(z, X + i, t),
{
    lemma_carry_local(y, s, z, t, E as int, 1, top);
    lemma_carry_local(y, s, z, t, E as int, 2, top);
    lemma_carry_local(y, s, z, t, E as int, 3, top);
    assert(value(y, Q as int, s) == value(z, Q as int, t));
    assert(value(y, Q + 1, s) == value(z, Q + 1, t));
    assert(value(y, Q + 2, s) == value(z, Q + 2, t));
    assert(value(y, X + i, s) == value(z, X + i, t));
}

proof fn lemma_residue_local(y: Seq<bool>, s: int, z: Seq<bool>, t: int, i: int, top: int)
    requires
        agree_slots(y, s, z, t, top),
        0 <= i < 16,
        U_CHAIN - 1 <= top,
    ensures
        residue_bit(y, s, i) == residue_bit(z, t, i),
{
    lemma_carry_local(y, s, z, t, G as int, i, top);
    lemma_multiple_local(y, s, z, t, i, top);
}

/// A product row reads the constant wire and lower planes of its own slot, in
/// the same way at every slot.
pub proof fn lemma_row_slot_local(y: Seq<bool>, s: int, z: Seq<bool>, t: int, p: int)
    requires
        D <= p < PIN_RANGE,
        0 <= s < SLOTS,
        0 <= t < SLOTS,
        agree_slots(y, s, z, t, p - 1),
    ensures
        row_left(y, wire_at(p, s)) == row_left(z, wire_at(p, t)),
        row_right(y, wire_at(p, s)) == row_right(z, wire_at(p, t)),
{
    let top = p - 1;
    assert(wire_at(p, s) / PLANE as int == p && wire_at(p, s) % PLANE as int == s);
    assert(wire_at(p, t) / PLANE as int == p && wire_at(p, t) % PLANE as int == t);
    if p < ACC {
        lemma_carry_local(y, s, z, t, D as int, p - D, top);
        assert(value(y, X + (p - D), s) == value(z, X + (p - D), t));
    } else if p == ACC {
        lemma_carry_local(y, s, z, t, D as int, 16, top);
    } else if p < G {
        lemma_carry_local(y, s, z, t, E as int, p - E, top);
        assert(value(y, Q as int, s) == value(z, Q as int, t));
        assert(value(y, Q + 1, s) == value(z, Q + 1, t));
        assert(value(y, Q + 2, s) == value(z, Q + 2, t));
    } else if p < U_CHAIN {
        lemma_carry_local(y, s, z, t, G as int, p - G, top);
        lemma_multiple_local(y, s, z, t, p - G, top);
    } else if p < U {
        lemma_carry_local(y, s, z, t, U_CHAIN as int, p - U_CHAIN, top);
        lemma_residue_local(y, s, z, t, p - U_CHAIN, top);
    } else if p == U {
        lemma_carry_local(y, s, z, t, U_CHAIN as int, 14, top);
    } else {
        lemma_carry_local(y, s, z, t, R_CHAIN as int, p - R_CHAIN, top);
        lemma_residue_local(y, s, z, t, p - R_CHAIN, top);
    }
}

/// A forced-zero row reads its own wire too.
pub proof fn lemma_pin_slot_local(y: Seq<bool>, s: int, z: Seq<bool>, t: int, p: int)
    requires
        PIN_RANGE <= p <= PIN_T4,
        0 <= s < SLOTS,
        0 <= t < SLOTS,
        agree_slots(y, s, z, t, PIN_RANGE - 1),
        value(y, p, s) == value(z, p, t),
    ensures
        row_left(y, wire_at(p, s)) == row_left(z, wire_at(p, t)),
        row_right(y, wire_at(p, s)) == row_right(z, wire_at(p, t)),
{
    let top = PIN_RANGE - 1;
    assert(wire_at(p, s) / PLANE as int == p && wire_at(p, s) % PLANE as int == s);
    assert(wire_at(p, t) / PLANE as int == p && wire_at(p, t) % PLANE as int == t);
    lemma_carry_local(y, s, z, t, R_CHAIN as int, 14, top);
    lemma_residue_local(y, s, z, t, 14, top);
    lemma_residue_local(y, s, z, t, 15, top);
    lemma_carry_local(y, s, z, t, G as int, 16, top);
    lemma_carry_local(y, s, z, t, E as int, 3, top);
}

/// Below the counter planes a row reads no wire above its own.
proof fn lemma_row_local(y: Seq<bool>, z: Seq<bool>, w: int)
    requires
        0 <= w < H * PLANE,
        agree(y, z, w),
    ensures
        row_left(y, w) == row_left(z, w),
        row_right(y, w) == row_right(z, w),
{
    let p = w / PLANE as int;
    let s = w % PLANE as int;
    assert(w == wire_at(p, s));
    assert(agree_slots(y, s, z, s, p)) by {
        assert forall|q: int| 0 <= q <= p implies #[trigger] value(y, q, s) == value(z, q, s) by {
            assert(0 <= wire_at(q, s) <= w);
        }
    }
    if !input_wire(w) && s < SLOTS && D <= p {
        if p < PIN_RANGE {
            lemma_row_slot_local(y, s, z, s, p);
        } else {
            lemma_pin_slot_local(y, s, z, s, p);
        }
    }
}

/// Below the dense region no row reads it.
proof fn lemma_row_below_dense(y: Seq<bool>, z: Seq<bool>, w: int)
    requires
        0 <= w < Z_BASE * PLANE,
        agree(y, z, Z_BASE * PLANE - 1),
    ensures
        row_left(y, w) == row_left(z, w),
        row_right(y, w) == row_right(z, w),
{
    if w < H * PLANE {
        lemma_row_local(y, z, w);
    }
}

// ---------------------------------------------------------------------------
// Uniqueness.
// ---------------------------------------------------------------------------

/// Rows and inputs determine the witness: two block witnesses of the same
/// words are equal.
pub proof fn block_witness_unique(y: Seq<bool>, z: Seq<bool>, words: Seq<u16>)
    requires
        is_block_witness(y, words),
        is_block_witness(z, words),
        words.len() == SLOTS,
    ensures
        y == z,
{
    lemma_chains_unique(y, z, words, H * PLANE);
    assert forall|slot: int| 0 <= slot <= PLANE implies #[trigger] counters_agree(y, z, slot) by {
        lemma_counters_unique(y, z, words, slot);
    }
    assert forall|w: int| 0 <= w < K implies y[w] == z[w] by {
        let p = w / PLANE as int;
        let s = w % PLANE as int;
        assert(w == wire_at(p, s));
        assert(slot_row_holds(y, w));
        assert(slot_row_holds(z, w));
        if w < H * PLANE {
        } else if p < CNT + COUNTER_BITS {
            assert(counters_agree(y, z, s + 1));
            assert(value(y, p, s) == value(z, p, s));
        } else if Z_BASE <= p < Z_BASE + Z_PLANES {
            let k = w - Z_BASE * PLANE;
            assert(w == dense_wire(k / 16, k % 16));
            assert(y[dense_wire(k / 16, k % 16)] == z[dense_wire(k / 16, k % 16)]);
        }
    }
    assert(y =~= z);
}

proof fn lemma_inputs_agree(y: Seq<bool>, z: Seq<bool>, words: Seq<u16>, p: int, slot: int)
    requires
        is_block_witness(y, words),
        is_block_witness(z, words),
        words.len() == SLOTS,
        0 <= slot < SLOTS,
        X <= p < D,
    ensures
        value(y, p, slot) == value(z, p, slot),
{
    assert(word_value(y, slot) == words[slot]);
    assert(word_value(z, slot) == words[slot]);
    slot_soundness(y, slot);
    slot_soundness(z, slot);
    if p < Q {
        lemma_bits_value_injective(
            |i: int| value(y, X + i, slot),
            |i: int| value(z, X + i, slot),
            16,
            p - X,
        );
    } else {
        lemma_bits_value_injective(
            |i: int| value(y, Q + i, slot),
            |i: int| value(z, Q + i, slot),
            3,
            p - Q,
        );
    }
}

proof fn lemma_chains_unique(y: Seq<bool>, z: Seq<bool>, words: Seq<u16>, top: int)
    requires
        is_block_witness(y, words),
        is_block_witness(z, words),
        words.len() == SLOTS,
        0 <= top <= H * PLANE,
    ensures
        agree(y, z, top - 1),
    decreases top,
{
    if top > 0 {
        let w = top - 1;
        lemma_chains_unique(y, z, words, w);
        let p = w / PLANE as int;
        let s = w % PLANE as int;
        assert(w == wire_at(p, s));
        assert(slot_row_holds(y, w));
        assert(slot_row_holds(z, w));
        if w == 0 {
        } else if input_wire(w) {
            lemma_inputs_agree(y, z, words, p, s);
        } else if s < SLOTS && PIN_RANGE <= p <= PIN_T4 {
            assert(!value(y, p, s) && !value(z, p, s));
        } else {
            // The row does not read its own wire.
            let fixed = y.update(w, z[w]);
            assert(agree(fixed, z, w));
            lemma_row_local(fixed, z, w);
            lemma_own_wire_unread(y, z[w], w);
        }
    }
}

/// Below the counter planes a product row does not read its own wire.
proof fn lemma_own_wire_unread(z: Seq<bool>, bit: bool, w: int)
    requires
        z.len() == K,
        0 <= w < H * PLANE,
        !input_wire(w),
        !(w % (PLANE as int) < SLOTS && PIN_RANGE <= w / PLANE as int <= PIN_T4),
    ensures
        row_left(z.update(w, bit), w) == row_left(z, w),
        row_right(z.update(w, bit), w) == row_right(z, w),
{
    let y = z.update(w, bit);
    let p = w / PLANE as int;
    let s = w % PLANE as int;
    assert(w == wire_at(p, s));
    if s < SLOTS && D <= p {
        assert(agree_slots(y, s, z, s, p - 1));
        lemma_row_slot_local(y, s, z, s, p);
    }
}

/// The counter planes agree below `slot`.
spec fn counters_agree(y: Seq<bool>, z: Seq<bool>, slot: int) -> bool {
    forall|p: int, s: int|
        H <= p < CNT + COUNTER_BITS && 0 <= s < slot ==> #[trigger] value(y, p, s) == value(z, p, s)
}

proof fn lemma_counters_unique(y: Seq<bool>, z: Seq<bool>, words: Seq<u16>, slot: int)
    requires
        is_block_witness(y, words),
        is_block_witness(z, words),
        words.len() == SLOTS,
        agree(y, z, H * PLANE - 1),
        0 <= slot <= PLANE,
    ensures
        counters_agree(y, z, slot),
    decreases slot,
{
    if slot > 0 {
        let s = slot - 1;
        lemma_counters_unique(y, z, words, s);
        assert(value(y, ACC as int, s) == value(z, ACC as int, s));
        assert forall|p: int| H <= p < H + COUNTER_BITS implies #[trigger] value(y, p, s) == value(
            z,
            p,
            s,
        ) by {
            lemma_increments_unique(y, z, s, p - H);
        }
        assert forall|p: int| GATE <= p < CNT + COUNTER_BITS implies #[trigger] value(y, p, s)
            == value(z, p, s) by {
            let w = wire_at(p, s);
            assert(slot_row_holds(y, w));
            assert(slot_row_holds(z, w));
            assert(w / PLANE as int == p && w % PLANE as int == s);
            if s < SLOTS && p > GATE {
                let bit = p - CNT;
                assert(counter_before(y, s, bit) == counter_before(z, s, bit)) by {
                    if s > 0 {
                        assert(value(y, CNT + bit, s - 1) == value(z, CNT + bit, s - 1));
                    }
                }
                if bit > 0 {
                    assert(value(y, H + bit - 1, s) == value(z, H + bit - 1, s));
                }
            } else if s > 0 {
                assert(value(y, CNT + 9, s - 1) == value(z, CNT + 9, s - 1));
            }
        }
    }
}

proof fn lemma_increments_unique(y: Seq<bool>, z: Seq<bool>, s: int, bit: int)
    requires
        block_holds(y),
        block_holds(z),
        0 <= s < PLANE,
        0 <= bit < COUNTER_BITS,
        counters_agree(y, z, s),
        value(y, ACC as int, s) == value(z, ACC as int, s),
    ensures
        value(y, H + bit, s) == value(z, H + bit, s),
    decreases bit,
{
    let w = wire_at(H + bit, s);
    assert(slot_row_holds(y, w));
    assert(slot_row_holds(z, w));
    assert(w / PLANE as int == H + bit && w % PLANE as int == s);
    if bit > 0 {
        lemma_increments_unique(y, z, s, bit - 1);
    }
    if s > 0 {
        assert(value(y, CNT + bit, s - 1) == value(z, CNT + bit, s - 1));
    }
}


// ---------------------------------------------------------------------------
// Generation.
// ---------------------------------------------------------------------------

/// Whether the wire is a free input.
pub fn is_input(w: usize) -> (input: bool)
    ensures
        input == input_wire(w as int),
{
    let plane: usize = w / PLANE;
    let slot: usize = w % PLANE;
    w == Z_CONST_POS || (slot < SLOTS && X <= plane && plane < Q + 3) || (Z_BASE <= plane && plane
        < Z_BASE + Z_PLANES)
}

/// The wires of the words and of their quotients by 12,289, among zeros.
pub open spec fn inputs_set(z: Seq<bool>, words: Seq<u16>, n: int) -> bool {
    &&& forall|i: int, slot: int|
        0 <= i < 16 && 0 <= slot < n ==> #[trigger] value(z, X + i, slot) == nat_bit(
            words[slot] as int,
            i,
        )
    &&& forall|i: int, slot: int|
        0 <= i < 3 && 0 <= slot < n ==> #[trigger] value(z, Q + i, slot) == nat_bit(
            words[slot] as int / FALCON_Q as int,
            i,
        )
}

/// Set the bits of `number` on the planes from `plane` at `slot`.
fn set_number(z: &mut Vec<bool>, plane: usize, bits: usize, slot: usize, number: u32)
    requires
        old(z)@.len() == K,
        plane + bits <= 128,
        bits <= 32,
        slot < PLANE,
    ensures
        final(z)@.len() == K,
        forall|i: int|
            0 <= i < bits ==> #[trigger] value(final(z)@, plane + i, slot as int) == nat_bit(
                number as int,
                i,
            ),
        forall|w: int|
            0 <= w < K && !(w % PLANE as int == slot && plane <= w / PLANE as int && w
                / (PLANE as int) < plane + bits) ==> #[trigger] final(z)@[w] == old(z)@[w],
{
    let ghost start = z@;
    let mut i: usize = 0;
    while i < bits
        invariant
            z@.len() == K,
            start.len() == K,
            plane + bits <= 128,
            bits <= 32,
            slot < PLANE,
            i <= bits,
            forall|k: int|
                0 <= k < i ==> #[trigger] value(z@, plane + k, slot as int) == nat_bit(
                    number as int,
                    k,
                ),
            forall|w: int|
                0 <= w < K && !(w % PLANE as int == slot && plane <= w / PLANE as int && w
                    / (PLANE as int) < plane + bits) ==> #[trigger] z@[w] == start[w],
        decreases bits - i,
    {
        proof {
            lemma_shift_bit(number, i as u32);
        }
        let shifted: u32 = number >> (i as u32);
        let ghost before = z@;
        z.set(pos(plane + i, slot), shifted & 1 == 1);
        assert forall|k: int| 0 <= k < i + 1 implies #[trigger] value(z@, plane + k, slot as int)
            == nat_bit(number as int, k) by {
            if k < i {
                assert(value(before, plane + k, slot as int) == nat_bit(number as int, k));
            }
        }
        i = i + 1;
    }
}

/// The free inputs of the block: the constant wire, the words and quotients.
fn input_wires(words: &[u16; SLOTS]) -> (z: Vec<bool>)
    ensures
        z@.len() == K,
        z@[0],
        inputs_set(z@, words@, SLOTS as int),
        forall|w: int|
            0 < w < K && !(X <= w / PLANE as int && w / (PLANE as int) < D) ==> !(
            #[trigger] z@[w]),
        forall|w: int| 0 < w < K && w % PLANE as int >= SLOTS ==> !(#[trigger] z@[w]),
{
    let mut z: Vec<bool> = Vec::with_capacity(K);
    let mut w: usize = 0;
    while w < K
        invariant
            w <= K,
            z@.len() == w,
            forall|v: int| 0 <= v < w ==> !(#[trigger] z@[v]),
        decreases K - w,
    {
        z.push(false);
        w = w + 1;
    }
    z.set(Z_CONST_POS, true);
    let mut slot: usize = 0;
    while slot < SLOTS
        invariant
            slot <= SLOTS,
            words@.len() == SLOTS,
            z@.len() == K,
            z@[0],
            inputs_set(z@, words@, slot as int),
            forall|w: int|
                0 < w < K && !(X <= w / PLANE as int && w / (PLANE as int) < D) ==> !(#[trigger] z@[w]),
            forall|w: int| 0 < w < K && w % PLANE as int >= slot ==> !(#[trigger] z@[w]),
        decreases SLOTS - slot,
    {
        let word: u32 = words[slot] as u32;
        let ghost before = z@;
        set_number(&mut z, X, 16, slot, word);
        let ghost middle = z@;
        set_number(&mut z, Q, 3, slot, word / FALCON_Q);
        proof {
            assert forall|i: int, s: int| 0 <= i < 16 && 0 <= s < slot + 1 implies #[trigger] value(
                z@,
                X + i,
                s,
            ) == nat_bit(words@[s] as int, i) by {
                let w = wire_at(X + i, s);
                assert(w % PLANE as int == s && w / PLANE as int == X + i);
                assert(z@[w] == middle[w]);
                if s < slot {
                    assert(middle[w] == before[w]);
                    assert(value(before, X + i, s) == nat_bit(words@[s] as int, i));
                } else {
                    assert(value(middle, X + i, s) == nat_bit(word as int, i));
                }
            }
            assert forall|i: int, s: int| 0 <= i < 3 && 0 <= s < slot + 1 implies #[trigger] value(
                z@,
                Q + i,
                s,
            ) == nat_bit(words@[s] as int / FALCON_Q as int, i) by {
                let w = wire_at(Q + i, s);
                assert(w % PLANE as int == s && w / PLANE as int == Q + i);
                if s < slot {
                    assert(z@[w] == middle[w]);
                    assert(middle[w] == before[w]);
                    assert(value(before, Q + i, s) == nat_bit(words@[s] as int / FALCON_Q as int, i));
                }
            }
        }
        slot = slot + 1;
    }
    z
}

/// The value of a row on an assignment.
fn row_product(a: &SparseBinaryMatrix, b: &SparseBinaryMatrix, z: &Vec<bool>, w: usize) -> (bit: bool)
    requires
        slot_matrices(*a, *b),
        z@.len() == K,
        w < K,
    ensures
        bit == (row_left(z@, w as int) && row_right(z@, w as int)),
{
    assert(columns_below(a.row(w as int), K as int));
    assert(columns_below(b.row(w as int), K as int));
    assert(lin_eval(a.row(w as int), z@) == row_left(z@, w as int));
    assert(lin_eval(b.row(w as int), z@) == row_right(z@, w as int));
    eval_row(&a.rows[w], z.as_slice()) && eval_row(&b.rows[w], z.as_slice())
}

/// Wire `w` has been set from its row: for a forced-zero row to the form that
/// has to vanish.
spec fn evaluated(z: Seq<bool>, w: int) -> bool {
    if w % (PLANE as int) < SLOTS && PIN_RANGE <= w / PLANE as int <= PIN_T4 {
        z[w] == (row_left(z.update(w, false), w) && z[0])
    } else {
        slot_row_holds(z, w)
    }
}

/// Evaluate the chain rows in wire order.
fn evaluate_chains(a: &SparseBinaryMatrix, b: &SparseBinaryMatrix, z: &mut Vec<bool>)
    requires
        slot_matrices(*a, *b),
        old(z)@.len() == K,
        old(z)@[0],
        forall|w: int| D * PLANE <= w < K ==> !(#[trigger] old(z)@[w]),
        forall|w: int| 0 < w < D * PLANE && !input_wire(w) ==> !(#[trigger] old(z)@[w]),
    ensures
        final(z)@.len() == K,
        final(z)@[0],
        forall|w: int| 0 <= w < D * PLANE ==> #[trigger] final(z)@[w] == old(z)@[w],
        forall|w: int| H * PLANE <= w < K ==> !(#[trigger] final(z)@[w]),
        forall|w: int| 0 <= w < H * PLANE ==> #[trigger] evaluated(final(z)@, w),
{
    let ghost start = z@;
    let mut w: usize = 0;
    while w < H * PLANE
        invariant
            slot_matrices(*a, *b),
            w <= H * PLANE,
            z@.len() == K,
            start.len() == K,
            start[0],
            z@[0],
            forall|v: int| D * PLANE <= v < K ==> !(#[trigger] start[v]),
            forall|v: int| 0 < v < D * PLANE && !input_wire(v) ==> !(#[trigger] start[v]),
            forall|v: int| 0 <= v < D * PLANE ==> #[trigger] z@[v] == start[v],
            forall|v: int| w <= v < K ==> #[trigger] z@[v] == start[v],
            forall|v: int| 0 <= v < w ==> #[trigger] evaluated(z@, v),
        decreases H * PLANE - w,
    {
        let ghost before = z@;
        if is_input(w) {
            assert(evaluated(z@, w as int));
        } else {
            let bit = row_product(a, b, z, w);
            z.set(w, bit);
            proof {
                let now = z@;
                assert(before[w as int] == start[w as int]);
                if w < D * PLANE {
                    assert(!start[w as int]);
                    assert(!row_right(before, w as int));
                }
                assert forall|v: int| 0 <= v < w implies #[trigger] evaluated(now, v) by {
                    assert(evaluated(before, v));
                    assert(agree(now, before, v));
                    lemma_row_local(now, before, v);
                    assert(agree(now.update(v, false), before.update(v, false), v));
                    lemma_row_local(now.update(v, false), before.update(v, false), v);
                }
                if w as int % (PLANE as int) < SLOTS && PIN_RANGE <= w as int / PLANE as int <= PIN_T4 {
                    assert(now.update(w as int, false) =~= before);
                    assert(evaluated(now, w as int));
                } else {
                    assert(now =~= before.update(w as int, bit));
                    lemma_own_wire_unread(before, bit, w as int);
                    assert(evaluated(now, w as int));
                }
            }
        }
        w = w + 1;
    }
}


/// Evaluate the write gate and counter rows slot by slot: each slot taps the counter
/// bits of the slot before.
fn evaluate_counters(a: &SparseBinaryMatrix, b: &SparseBinaryMatrix, z: &mut Vec<bool>)
    requires
        slot_matrices(*a, *b),
        old(z)@.len() == K,
    ensures
        final(z)@.len() == K,
        forall|w: int|
            0 <= w < K && !(H * PLANE <= w < (CNT + COUNTER_BITS) * PLANE) ==> #[trigger] final(z)@[w]
                == old(z)@[w],
        forall|w: int|
            H * PLANE <= w < (CNT + COUNTER_BITS) * PLANE ==> #[trigger] slot_row_holds(final(z)@, w),
{
    let ghost start = z@;
    let mut slot: usize = 0;
    while slot < PLANE
        invariant
            slot_matrices(*a, *b),
            slot <= PLANE,
            z@.len() == K,
            start.len() == K,
            forall|w: int|
                0 <= w < K && !(H * PLANE <= w < (CNT + COUNTER_BITS) * PLANE) ==> #[trigger] z@[w]
                    == start[w],
            forall|p: int, s: int|
                H <= p < CNT + COUNTER_BITS && 0 <= s < slot ==> #[trigger] slot_row_holds(
                    z@,
                    wire_at(p, s),
                ),
        decreases PLANE - slot,
    {
        let ghost before = z@;
        let gate: usize = pos(GATE, slot);
        let gate_bit = row_product(a, b, z, gate);
        z.set(gate, gate_bit);
        proof {
            assert(gate as int / PLANE as int == GATE && gate as int % PLANE as int == slot);
            assert(slot_row_holds(z@, wire_at(GATE as int, slot as int)));
            assert forall|p: int, s: int|
                H <= p < CNT + COUNTER_BITS && 0 <= s < slot implies #[trigger] slot_row_holds(
                z@,
                wire_at(p, s),
            ) by {
                assert(slot_row_holds(before, wire_at(p, s)));
                lemma_counter_row_local(before, z@, p, s);
            }
        }
        let mut bit: usize = 0;
        while bit < COUNTER_BITS
            invariant
                slot_matrices(*a, *b),
                slot < PLANE,
                bit <= COUNTER_BITS,
                z@.len() == K,
                start.len() == K,
                forall|w: int|
                    0 <= w < K && !(H * PLANE <= w < (CNT + COUNTER_BITS) * PLANE)
                        ==> #[trigger] z@[w] == start[w],
                forall|p: int, s: int|
                    H <= p < CNT + COUNTER_BITS && 0 <= s < slot ==> #[trigger] slot_row_holds(
                        z@,
                        wire_at(p, s),
                    ),
                slot_row_holds(z@, wire_at(GATE as int, slot as int)),
                forall|p: int|
                    (H <= p < H + bit || CNT <= p < CNT + bit) ==> #[trigger] slot_row_holds(
                        z@,
                        wire_at(p, slot as int),
                    ),
            decreases COUNTER_BITS - bit,
        {
            let ghost z0 = z@;
            let h: usize = pos(H + bit, slot);
            let h_bit = row_product(a, b, z, h);
            z.set(h, h_bit);
            let ghost z1 = z@;
            let c: usize = pos(CNT + bit, slot);
            let c_bit = row_product(a, b, z, c);
            z.set(c, c_bit);
            proof {
                let now = z@;
                assert(h as int / PLANE as int == H + bit && h as int % PLANE as int == slot);
                assert(c as int / PLANE as int == CNT + bit && c as int % PLANE as int == slot);
                assert forall|p: int, s: int|
                    H <= p < CNT + COUNTER_BITS && 0 <= s < slot implies #[trigger] slot_row_holds(
                    now,
                    wire_at(p, s),
                ) by {
                    assert(slot_row_holds(z0, wire_at(p, s)));
                    lemma_counter_row_local(z0, now, p, s);
                }
                assert forall|p: int|
                    (H <= p < H + bit || CNT <= p < CNT + bit || p == GATE) implies #[trigger] slot_row_holds(
                    now,
                    wire_at(p, slot as int),
                ) by {
                    assert(slot_row_holds(z0, wire_at(p, slot as int)));
                    lemma_counter_row_local(z0, now, p, slot as int);
                }
                // The two new rows.
                lemma_counter_row_local(z0, z1, H + bit, slot as int);
                lemma_counter_row_local(z1, now, CNT + bit, slot as int);
                lemma_counter_row_local(z1, now, H + bit, slot as int);
                assert(slot_row_holds(now, wire_at(H + bit, slot as int)));
                assert(slot_row_holds(now, wire_at(CNT + bit, slot as int)));
            }
            bit = bit + 1;
        }
        proof {
            assert forall|p: int, s: int|
                H <= p < CNT + COUNTER_BITS && 0 <= s < slot + 1 implies #[trigger] slot_row_holds(
                z@,
                wire_at(p, s),
            ) by {}
        }
        slot = slot + 1;
    }
    assert forall|w: int| H * PLANE <= w < (CNT + COUNTER_BITS) * PLANE implies #[trigger] slot_row_holds(
        z@,
        w,
    ) by {
        assert(w == wire_at(w / PLANE as int, w % PLANE as int));
    }
}

/// The increment planes that a counter row may read end below this plane.
spec fn lower_increments(p: int) -> int {
    if p < GATE {
        p
    } else {
        p - (CNT - H)
    }
}

/// The factors of a counter row are unchanged where the accept flag of the
/// slot, the counter bits of the slot before and the lower increments of the
/// slot are.
proof fn lemma_counter_row_local(y: Seq<bool>, z: Seq<bool>, p: int, s: int)
    requires
        H <= p < CNT + COUNTER_BITS,
        0 <= s < PLANE,
        y[0] == z[0],
        value(y, ACC as int, s) == value(z, ACC as int, s),
        s > 0 ==> forall|q: int|
            CNT <= q < CNT + COUNTER_BITS ==> #[trigger] value(y, q, s - 1) == value(z, q, s - 1),
        forall|q: int|
            H <= q < lower_increments(p) ==> #[trigger] value(y, q, s) == value(z, q, s),
    ensures
        row_left(y, wire_at(p, s)) == row_left(z, wire_at(p, s)),
        row_right(y, wire_at(p, s)) == row_right(z, wire_at(p, s)),
{
    let w = wire_at(p, s);
    assert(w / PLANE as int == p && w % PLANE as int == s);
    assert(!input_wire(w));
    if s < SLOTS {
        if p < GATE {
            if s > 0 {
                assert(value(y, CNT + (p - H), s - 1) == value(z, CNT + (p - H), s - 1));
            }
            if p > H {
                assert(value(y, p - 1, s) == value(z, p - 1, s));
            }
        } else if p == GATE {
            if s > 0 {
                assert(value(y, CNT + 9, s - 1) == value(z, CNT + 9, s - 1));
            }
        } else {
            if s > 0 {
                assert(value(y, p, s - 1) == value(z, p, s - 1));
            }
            if p > CNT {
                assert(value(y, H + (p - CNT) - 1, s) == value(z, H + (p - CNT) - 1, s));
            }
        }
    }
}


/// Write the gated outputs to the dense region, in counter order.
fn fill_outputs(z: &mut Vec<bool>, words: &[u16; SLOTS])
    requires
        old(z)@.len() == K,
        forall|slot: int|
            0 <= slot < SLOTS ==> #[trigger] value(old(z)@, GATE as int, slot) == (accepts(
                words@[slot],
            ) && accept_count(words@, slot) < 512),
        forall|slot: int|
            0 <= slot < SLOTS ==> #[trigger] value(old(z)@, U as int, slot) == centered(words@[slot]),
        forall|w: int| Z_BASE * PLANE <= w < K ==> !(#[trigger] old(z)@[w]),
    ensures
        final(z)@.len() == K,
        agree(final(z)@, old(z)@, Z_BASE * PLANE - 1),
        dense_region(final(z)@, words@, SLOTS as int),
        forall|w: int| (Z_BASE + Z_PLANES) * PLANE <= w < K ==> !(#[trigger] final(z)@[w]),
{
    let ghost start = z@;
    let mut index: usize = 0;
    let mut slot: usize = 0;
    while slot < SLOTS
        invariant
            slot <= SLOTS,
            words@.len() == SLOTS,
            z@.len() == K,
            start.len() == K,
            forall|slot: int|
                0 <= slot < SLOTS ==> #[trigger] value(start, GATE as int, slot) == (accepts(
                    words@[slot],
                ) && accept_count(words@, slot) < 512),
            forall|slot: int|
                0 <= slot < SLOTS ==> #[trigger] value(start, U as int, slot) == centered(words@[slot]),
            agree(z@, start, Z_BASE * PLANE - 1),
            dense_region(z@, words@, slot as int),
            index == outputs(words@, slot as int).len(),
            forall|w: int| (Z_BASE + Z_PLANES) * PLANE <= w < K ==> !(#[trigger] z@[w]),
        decreases SLOTS - slot,
    {
        proof {
            lemma_outputs_len(words@, slot as int);
            lemma_outputs_len(words@, slot + 1);
            assert(value(start, GATE as int, slot as int) == (accepts(words@[slot as int])
                && accept_count(words@, slot as int) < 512));
            assert(value(start, U as int, slot as int) == centered(words@[slot as int]));
        }
        if z[pos(GATE, slot)] {
            let word: u32 = words[slot] as u32;
            let residue: u32 = word - FALCON_Q * (word / FALCON_Q);
            let center = z[pos(U, slot)];
            let ghost before = z@;
            let mut c: usize = 0;
            while c < 14
                invariant
                    c <= 14,
                    index < 512,
                    z@.len() == K,
                    before.len() == K,
                    forall|i: int|
                        0 <= i < c ==> #[trigger] z@[dense_wire(index as int, i)] == nat_bit(
                            residue as int,
                            i,
                        ),
                    forall|w: int|
                        0 <= w < K && !(dense_wire(index as int, 0) <= w < dense_wire(
                            index as int,
                            14,
                        )) ==> #[trigger] z@[w] == before[w],
                decreases 14 - c,
            {
                proof {
                    lemma_shift_bit(residue, c as u32);
                }
                let shifted: u32 = residue >> (c as u32);
                z.set(zh_position(index, c), shifted & 1 == 1);
                c = c + 1;
            }
            z.set(zh_position(index, 14), center);
            proof {
                let t = target(words@[slot as int]);
                assert(residue as int == word as int % 12_289) by {
                    assert(word as int == 12_289 * (word as int / 12_289) + word as int % 12_289);
                }
                assert forall|j: int, i: int| 0 <= j < 512 && 0 <= i < 16 implies #[trigger] z@[dense_wire(
                    j,
                    i,
                )] == (j < outputs(words@, slot + 1).len() && nat_bit(
                    outputs(words@, slot + 1)[j],
                    i,
                )) by {
                    assert(before[dense_wire(j, i)] == (j < outputs(words@, slot as int).len()
                        && nat_bit(outputs(words@, slot as int)[j], i)));
                    if j == index {
                        lemma_target_bits(words@[slot as int], i);
                    }
                }
            }
            index = index + 1;
        }
        slot = slot + 1;
    }
}

/// The bits of a packed output.
pub proof fn lemma_target_bits(word: u16, i: int)
    requires
        0 <= i < 16,
    ensures
        nat_bit(target(word), i) == if i < 14 {
            nat_bit(word as int % FALCON_Q as int, i)
        } else {
            i == 14 && centered(word)
        },
{
    lemma2_to64();
    let r = word as int % FALCON_Q as int;
    let t = target(word);
    let p = pow2(i as nat) as int;
    if i == 14 {
        assert(t / 16_384 == if centered(word) {
            1int
        } else {
            0
        });
    } else if i == 15 {
        assert(t / 32_768 == 0);
    } else if centered(word) {
        let k = pow2((14 - i) as nat) as int;
        vstd::arithmetic::power2::lemma_pow2_adds(i as nat, (14 - i) as nat);
        vstd::arithmetic::power2::lemma_pow2_pos(i as nat);
        assert(p * k == 16_384);
        vstd::arithmetic::power2::lemma_pow2_unfold((14 - i) as nat);
        let half = pow2((14 - i - 1) as nat) as int;
        assert(t == r + p * k);
        vstd::arithmetic::div_mod::lemma_hoist_over_denominator(r, k, p as nat);
        assert((r + p * k) / p == r / p + k) by {
            assert(p * k == k * p) by (nonlinear_arith);
        }
        assert(k == 2 * half);
    }
}

/// Build one block's witness from prebuilt matrices by evaluating the rows in
/// wire order. Returns the block bits and the counter after the block.
pub fn build_block_witness_with(
    a_0: &SparseBinaryMatrix,
    b_0: &SparseBinaryMatrix,
    words: &[u16; SLOTS],
) -> (result: (Vec<bool>, u16))
    requires
        slot_matrices(*a_0, *b_0),
    ensures
        is_block_witness(result.0@, words@),
        result.1 == accept_count(words@, SLOTS as int),
{
    let mut z = input_wires(words);
    let ghost inputs = z@;
    evaluate_chains(a_0, b_0, &mut z);
    let ghost chained = z@;
    proof {
        assert forall|i: int, slot: int| 0 <= i < 16 && 0 <= slot < SLOTS implies #[trigger] value(
            chained,
            X + i,
            slot,
        ) == nat_bit(words@[slot] as int, i) by {
            assert(chained[wire_at(X + i, slot)] == inputs[wire_at(X + i, slot)]);
            assert(value(inputs, X + i, slot) == nat_bit(words@[slot] as int, i));
        }
        assert forall|i: int, slot: int| 0 <= i < 3 && 0 <= slot < SLOTS implies #[trigger] value(
            chained,
            Q + i,
            slot,
        ) == nat_bit(words@[slot] as int / FALCON_Q as int, i) by {
            assert(chained[wire_at(Q + i, slot)] == inputs[wire_at(Q + i, slot)]);
            assert(value(inputs, Q + i, slot) == nat_bit(words@[slot] as int / FALCON_Q as int, i));
        }
    }
    evaluate_counters(a_0, b_0, &mut z);
    let ghost counted = z@;
    proof {
        lemma_honest_block(chained, counted, words@);
    }
    fill_outputs(&mut z, words);
    proof {
        let done = z@;
        assert forall|w: int| 0 <= w < K implies #[trigger] slot_row_holds(done, w) by {
            if w < Z_BASE * PLANE {
                assert(slot_row_holds(counted, w));
                lemma_row_below_dense(done, counted, w);
            }
        }
        assert forall|slot: int| 0 <= slot < SLOTS implies #[trigger] word_value(done, slot)
            == words@[slot] by {
            assert(word_value(counted, slot) == words@[slot]);
            lemma_bits_value_congr(
                |i: int| value(done, X + i, slot),
                |i: int| value(counted, X + i, slot),
                16,
            );
        }
        assert forall|p: int, slot: int|
            PIN_RANGE <= p <= PIN_T4 && 0 <= slot < SLOTS implies !(#[trigger] value(done, p, slot)) by {
            assert(!value(counted, p, slot));
        }
    }
    let mut counter: u16 = 0;
    let mut slot: usize = 0;
    while slot < SLOTS
        invariant
            slot <= SLOTS,
            words@.len() == SLOTS,
            counter == accept_count(words@, slot as int),
            counter <= slot,
        decreases SLOTS - slot,
    {
        if (words[slot] as u32) < ACCEPT_BOUND {
            counter = counter + 1;
        }
        slot = slot + 1;
    }
    (z, counter)
}

/// After the evaluation every row below the dense region holds: the honest
/// quotient makes the forced-zero forms vanish.
proof fn lemma_honest_block(chained: Seq<bool>, z: Seq<bool>, words: Seq<u16>)
    requires
        chained.len() == K,
        z.len() == K,
        words.len() == SLOTS,
        chained[0],
        inputs_set(chained, words, SLOTS as int),
        forall|w: int| H * PLANE <= w < K ==> !(#[trigger] chained[w]),
        forall|w: int| 0 <= w < H * PLANE ==> #[trigger] evaluated(chained, w),
        forall|w: int|
            0 <= w < K && !(H * PLANE <= w < (CNT + COUNTER_BITS) * PLANE) ==> #[trigger] z[w]
                == chained[w],
        forall|w: int|
            H * PLANE <= w < (CNT + COUNTER_BITS) * PLANE ==> #[trigger] slot_row_holds(z, w),
    ensures
        z[0],
        forall|w: int| 0 <= w < Z_BASE * PLANE ==> #[trigger] slot_row_holds(z, w),
        forall|w: int| Z_BASE * PLANE <= w < K ==> !(#[trigger] z[w]),
        pins_zero(z),
        forall|slot: int| 0 <= slot < SLOTS ==> #[trigger] word_value(z, slot) == words[slot],
        forall|slot: int|
            0 <= slot < SLOTS ==> #[trigger] value(z, GATE as int, slot) == (accepts(words[slot])
                && accept_count(words, slot) < 512),
        forall|slot: int|
            0 <= slot < SLOTS ==> #[trigger] value(z, U as int, slot) == centered(words[slot]),
{
    assert forall|slot: int| 0 <= slot < SLOTS implies #[trigger] word_value(z, slot)
        == words[slot] && pins_at(z, slot) && value(z, ACC as int, slot) == accepts(words[slot])
        && value(z, U as int, slot) == centered(words[slot]) by {
        lemma_honest_slot(chained, z, words, slot);
    }
    assert forall|p: int, slot: int|
        PIN_RANGE <= p <= PIN_T4 && 0 <= slot < SLOTS implies !(#[trigger] value(z, p, slot)) by {
        assert(word_value(z, slot) == words[slot]);
        assert(pins_at(z, slot));
    }
    assert forall|w: int| 0 <= w < Z_BASE * PLANE implies #[trigger] slot_row_holds(z, w) by {
        let p = w / PLANE as int;
        let s = w % PLANE as int;
        assert(w == wire_at(p, s));
        if w < H * PLANE {
            assert(evaluated(chained, w));
            assert(agree(z, chained, w));
            lemma_row_local(z, chained, w);
            if s < SLOTS && PIN_RANGE <= p <= PIN_T4 {
                assert(word_value(z, s) == words[s]);
                assert(pins_at(z, s));
                assert(!value(z, p, s));
                assert(chained.update(w, false) =~= chained);
            }
        } else if w >= (CNT + COUNTER_BITS) * PLANE {
            assert(z[w] == chained[w]);
        }
    }
    assert forall|slot: int| 0 <= slot < SLOTS implies #[trigger] value(z, U as int, slot)
        == centered(words[slot]) by {
        assert(word_value(z, slot) == words[slot]);
    }
    assert forall|s: int| 0 <= s < SLOTS implies #[trigger] counter_rows_hold(z, s) by {
        assert(slot_row_holds(z, wire_at(GATE as int, s)));
        assert forall|bit: int| 0 <= bit < COUNTER_BITS implies #[trigger] slot_row_holds(
            z,
            wire_at(H + bit, s),
        ) by {}
        assert forall|bit: int| 0 <= bit < COUNTER_BITS implies #[trigger] slot_row_holds(
            z,
            wire_at(CNT + bit, s),
        ) by {}
    }
    lemma_counter_meaning(z, SLOTS as int);
    assert forall|slot: int| 0 <= slot < SLOTS implies #[trigger] value(z, GATE as int, slot) == (
    accepts(words[slot]) && accept_count(words, slot) < 512) by {
        assert(word_value(z, slot) == words[slot]);
        lemma_honest_flags(z, words, slot);
    }
}

proof fn lemma_honest_flags(z: Seq<bool>, words: Seq<u16>, n: int)
    requires
        0 <= n <= SLOTS,
        forall|slot: int|
            0 <= slot < SLOTS ==> (#[trigger] word_value(z, slot) == words[slot] && value(
                z,
                ACC as int,
                slot,
            ) == accepts(words[slot])),
    ensures
        flags_before(z, n) == accept_count(words, n),
    decreases n,
{
    if n > 0 {
        lemma_honest_flags(z, words, n - 1);
        assert(word_value(z, n - 1) == words[n - 1]);
    }
}

/// The forced-zero wires of a slot are zero.
spec fn pins_at(z: Seq<bool>, slot: int) -> bool {
    forall|p: int| PIN_RANGE <= p <= PIN_T4 ==> !(#[trigger] value(z, p, slot))
}

/// With the word and its quotient on the inputs, the chains give the honest
/// flags and every forced-zero form vanishes.
pub proof fn lemma_honest_chains(z: Seq<bool>, slot: int, word: u16)
    requires
        chains_hold(z, slot),
        0 <= slot < SLOTS,
        forall|i: int| 0 <= i < 16 ==> #[trigger] value(z, X + i, slot) == nat_bit(word as int, i),
        forall|i: int|
            0 <= i < 3 ==> #[trigger] value(z, Q + i, slot) == nat_bit(
                word as int / FALCON_Q as int,
                i,
            ),
    ensures
        word_value(z, slot) == word,
        value(z, ACC as int, slot) == accepts(word),
        value(z, U as int, slot) == centered(word),
        !carry(z, R_CHAIN as int, slot, 14),
        !residue_bit(z, slot, 14),
        !residue_bit(z, slot, 15),
        !carry(z, G as int, slot, 16),
        !carry(z, E as int, slot, 3),
{
    lemma2_to64();
    let v = word as int;
    lemma_bits_of_number(v, 16);
    lemma_bits_of_number(v / 12_289, 3);
    let x_bits = |i: int| value(z, X + i, slot);
    let q_bits = |i: int| value(z, Q + i, slot);
    let word_bits = |i: int| nat_bit(v, i);
    let quotient_bits = |i: int| nat_bit(v / 12_289, i);
    lemma_bits_value_congr(x_bits, word_bits, 16);
    lemma_bits_value_congr(q_bits, quotient_bits, 3);
    assert(bits_value(word_bits, 16) == v % 65_536);
    assert(bits_value(x_bits, 16) == v);
    assert(v / 12_289 < 8);
    assert(bits_value(quotient_bits, 3) == (v / 12_289) % 8);
    assert(bits_value(q_bits, 3) == v / 12_289);
    assert(word_value(z, slot) == v);
    assert(quotient_value(z, slot) == v / 12_289);
    lemma_chain_meaning(z, slot);
    assert(v == 12_289 * (v / 12_289) + v % 12_289);
}

proof fn lemma_honest_slot(chained: Seq<bool>, z: Seq<bool>, words: Seq<u16>, slot: int)
    requires
        chained.len() == K,
        z.len() == K,
        words.len() == SLOTS,
        0 <= slot < SLOTS,
        chained[0],
        inputs_set(chained, words, SLOTS as int),
        forall|w: int| 0 <= w < H * PLANE ==> #[trigger] evaluated(chained, w),
        forall|w: int| 0 <= w < H * PLANE ==> #[trigger] z[w] == chained[w],
    ensures
        word_value(z, slot) == words[slot],
        pins_at(z, slot),
        value(z, ACC as int, slot) == accepts(words[slot]),
        value(z, U as int, slot) == centered(words[slot]),
{
    let y = chained;
    assert forall|p: int| D <= p < PIN_RANGE implies #[trigger] slot_row_holds(
        y,
        wire_at(p, slot),
    ) by {
        let w = wire_at(p, slot);
        assert(w / PLANE as int == p && w % PLANE as int == slot);
        assert(evaluated(y, w));
    }
    lemma_honest_chains(y, slot, words[slot]);
    lemma_bits_value_congr(|i: int| value(z, X + i, slot), |i: int| value(y, X + i, slot), 16);
    assert forall|p: int| PIN_RANGE <= p <= PIN_T4 implies !(#[trigger] value(z, p, slot)) by {
        let w = wire_at(p, slot);
        assert(w / PLANE as int == p && w % PLANE as int == slot);
        assert(evaluated(y, w));
        lemma_cleared_pin(y, p, slot);
        assert(z[w] == y[w]);
    }
    assert(z[wire_at(ACC as int, slot)] == y[wire_at(ACC as int, slot)]);
    assert(z[wire_at(U as int, slot)] == y[wire_at(U as int, slot)]);
}

/// The left factor of a forced-zero row with its own wire cleared is the form
/// that has to vanish.
pub proof fn lemma_cleared_pin(y: Seq<bool>, p: int, slot: int)
    requires
        y.len() == K,
        PIN_RANGE <= p <= PIN_T4,
        0 <= slot < SLOTS,
        !carry(y, R_CHAIN as int, slot, 14),
        !residue_bit(y, slot, 14),
        !residue_bit(y, slot, 15),
        !carry(y, G as int, slot, 16),
        !carry(y, E as int, slot, 3),
    ensures
        !row_left(y.update(wire_at(p, slot), false), wire_at(p, slot)),
{
    let w = wire_at(p, slot);
    assert(w / PLANE as int == p && w % PLANE as int == slot);
    let cleared = y.update(w, false);
    let top = PIN_RANGE - 1;
    assert(agree_slots(cleared, slot, y, slot, top));
    lemma_carry_local(cleared, slot, y, slot, R_CHAIN as int, 14, top);
    lemma_carry_local(cleared, slot, y, slot, G as int, 16, top);
    lemma_carry_local(cleared, slot, y, slot, E as int, 3, top);
    lemma_residue_local(cleared, slot, y, slot, 14, top);
    lemma_residue_local(cleared, slot, y, slot, 15, top);
}

/// Build one block's witness. Returns the block bits and the counter after the
/// block.
pub fn build_block_witness(words: &[u16; SLOTS]) -> (result: (Vec<bool>, u16))
    ensures
        is_block_witness(result.0@, words@),
        result.1 == accept_count(words@, SLOTS as int),
{
    let (a_0, b_0) = build_matrices();
    build_block_witness_with(&a_0, &b_0, words)
}

/// The dense-region wire of output `j`, coordinate `c`: fourteen residue bits,
/// then the centering flag.
pub fn zh_position(j: usize, c: usize) -> (w: usize)
    requires
        j < 512,
        c < 16,
    ensures
        w == dense_wire(j as int, c as int),
        w < K,
{
    let index: usize = 16 * j + c;
    pos(Z_BASE + index / PLANE, index % PLANE)
}

} // verus!
