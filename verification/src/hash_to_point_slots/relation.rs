//! What the slot rows say, and what every satisfying assignment means.
use vstd::arithmetic::power2::{lemma2_to64, lemma_pow2_pos, lemma_pow2_unfold, pow2};
use vstd::prelude::*;

use crate::hash_to_point_slots::{
    ACC, ACCEPT_BOUND, ACCEPT_K, CENTER_K, CNT, COUNTER_BITS, D, E, FALCON_Q, G, GATE, H, K,
    PIN_A14, PIN_A15, PIN_B16, PIN_RANGE, PIN_T4, PLANE, Q, RANGE_K, R_CHAIN, SLOTS, U, U_CHAIN, X,
    Z_BASE, Z_PLANES,
};

verus! {

/// The wire of `plane` at `slot`.
pub open spec fn wire_at(plane: int, slot: int) -> int {
    plane * PLANE + slot
}

/// The value of the wire of `plane` at `slot`.
pub open spec fn value(z: Seq<bool>, plane: int, slot: int) -> bool {
    z[wire_at(plane, slot)]
}

/// The parity of the first `n` planes from `plane` at `slot`: the symbolic
/// carry of a chain after `n` steps.
pub open spec fn carry(z: Seq<bool>, plane: int, slot: int, n: int) -> bool
    decreases n,
{
    if n <= 0 {
        false
    } else {
        value(z, plane + n - 1, slot) != carry(z, plane, slot, n - 1)
    }
}

/// Bit `i` of a natural number.
pub open spec fn nat_bit(n: int, i: int) -> bool {
    (n / pow2(i as nat) as int) % 2 == 1
}

/// Bit `i` of a constant, as a tap on the constant-one wire.
pub open spec fn constant_bit(z: Seq<bool>, constant: int, i: int) -> bool {
    nat_bit(constant, i) && z[0]
}

/// Bit `i` of `3 q`.
pub open spec fn triple_bit(z: Seq<bool>, slot: int, i: int) -> bool {
    if i == 0 {
        value(z, Q as int, slot)
    } else if i == 1 {
        value(z, Q + 1, slot) != value(z, Q as int, slot)
    } else if i == 2 {
        (value(z, Q + 2, slot) != value(z, Q + 1, slot)) != carry(z, E as int, slot, 1)
    } else if i == 3 {
        value(z, Q + 2, slot) != carry(z, E as int, slot, 2)
    } else {
        carry(z, E as int, slot, 3)
    }
}

/// Bit `i` of `12,289 q = (3 q << 12) ^ q`.
pub open spec fn multiple_bit(z: Seq<bool>, slot: int, i: int) -> bool {
    if i < 3 {
        value(z, Q + i, slot)
    } else if 12 <= i < 16 {
        triple_bit(z, slot, i - 12)
    } else {
        false
    }
}

/// Bit `i` of `x - 12,289 q`.
pub open spec fn residue_bit(z: Seq<bool>, slot: int, i: int) -> bool {
    (value(z, X + i, slot) != multiple_bit(z, slot, i)) != carry(z, G as int, slot, i)
}

/// Bit `bit` of the counter before `slot`.
pub open spec fn counter_before(z: Seq<bool>, slot: int, bit: int) -> bool {
    slot > 0 && value(z, CNT + bit, slot - 1)
}

/// The increment into counter bit `bit` at `slot`.
pub open spec fn increment(z: Seq<bool>, slot: int, bit: int) -> bool {
    if bit == 0 {
        value(z, ACC as int, slot)
    } else {
        value(z, H + bit - 1, slot)
    }
}

/// A free input: the constant wire, the word and quotient bits of live slots,
/// or the dense output region.
pub open spec fn input_wire(w: int) -> bool {
    let plane = w / PLANE as int;
    let slot = w % PLANE as int;
    w == 0 || (slot < SLOTS && X <= plane < Q + 3) || Z_BASE <= plane < Z_BASE + Z_PLANES
}

/// The left factor of row `w`.
pub open spec fn row_left(z: Seq<bool>, w: int) -> bool {
    let p = w / PLANE as int;
    let s = w % PLANE as int;
    if input_wire(w) {
        z[w]
    } else if s >= SLOTS {
        false
    } else if D <= p < D + 16 {
        value(z, X + (p - D), s) != carry(z, D as int, s, p - D)
    } else if p == ACC {
        carry(z, D as int, s, 16) != z[0]
    } else if p == E {
        value(z, Q + 1, s)
    } else if p == E + 1 {
        value(z, Q + 2, s) != carry(z, E as int, s, 1)
    } else if p == E + 2 {
        carry(z, E as int, s, 2)
    } else if G <= p < G + 16 {
        (value(z, X + (p - G), s) != z[0]) != carry(z, G as int, s, p - G)
    } else if U_CHAIN <= p < U_CHAIN + 14 {
        residue_bit(z, s, p - U_CHAIN) != carry(z, U_CHAIN as int, s, p - U_CHAIN)
    } else if p == U {
        carry(z, U_CHAIN as int, s, 14)
    } else if R_CHAIN <= p < R_CHAIN + 14 {
        residue_bit(z, s, p - R_CHAIN) != carry(z, R_CHAIN as int, s, p - R_CHAIN)
    } else if p == PIN_RANGE {
        carry(z, R_CHAIN as int, s, 14) != z[w]
    } else if p == PIN_A14 {
        residue_bit(z, s, 14) != z[w]
    } else if p == PIN_A15 {
        residue_bit(z, s, 15) != z[w]
    } else if p == PIN_B16 {
        carry(z, G as int, s, 16) != z[w]
    } else if p == PIN_T4 {
        carry(z, E as int, s, 3) != z[w]
    } else if H <= p < H + COUNTER_BITS {
        counter_before(z, s, p - H)
    } else if p == GATE {
        value(z, ACC as int, s)
    } else if CNT <= p < CNT + COUNTER_BITS {
        counter_before(z, s, p - CNT) != increment(z, s, p - CNT)
    } else {
        false
    }
}

/// The right factor of row `w`.
pub open spec fn row_right(z: Seq<bool>, w: int) -> bool {
    let p = w / PLANE as int;
    let s = w % PLANE as int;
    if input_wire(w) {
        z[0]
    } else if s >= SLOTS {
        false
    } else if D <= p < D + 16 {
        constant_bit(z, ACCEPT_K as int, p - D) != carry(z, D as int, s, p - D)
    } else if p == ACC {
        z[0]
    } else if p == E {
        value(z, Q as int, s)
    } else if p == E + 1 {
        value(z, Q + 1, s) != carry(z, E as int, s, 1)
    } else if p == E + 2 {
        value(z, Q + 2, s) != carry(z, E as int, s, 2)
    } else if G <= p < G + 16 {
        multiple_bit(z, s, p - G) != carry(z, G as int, s, p - G)
    } else if U_CHAIN <= p < U_CHAIN + 14 {
        constant_bit(z, CENTER_K as int, p - U_CHAIN) != carry(
            z,
            U_CHAIN as int,
            s,
            p - U_CHAIN,
        )
    } else if p == U {
        z[0]
    } else if R_CHAIN <= p < R_CHAIN + 14 {
        constant_bit(z, RANGE_K as int, p - R_CHAIN) != carry(
            z,
            R_CHAIN as int,
            s,
            p - R_CHAIN,
        )
    } else if PIN_RANGE <= p <= PIN_T4 {
        z[0]
    } else if H <= p < H + COUNTER_BITS {
        increment(z, s, p - H)
    } else if p == GATE {
        counter_before(z, s, COUNTER_BITS - 1) != z[0]
    } else if CNT <= p < CNT + COUNTER_BITS {
        z[0]
    } else {
        false
    }
}

/// Row `w` holds.
pub open spec fn slot_row_holds(z: Seq<bool>, w: int) -> bool {
    (row_left(z, w) && row_right(z, w)) == z[w]
}

/// Every row of the block holds, with the constant wire at one.
pub open spec fn block_holds(z: Seq<bool>) -> bool {
    &&& z.len() == K
    &&& z[0]
    &&& forall|w: int| 0 <= w < K ==> #[trigger] slot_row_holds(z, w)
}

/// The number with the bits `bit(0), ..., bit(n - 1)`.
pub open spec fn bits_value(bit: spec_fn(int) -> bool, n: int) -> int
    decreases n,
{
    if n <= 0 {
        0
    } else {
        bits_value(bit, n - 1) + if bit(n - 1) {
            pow2((n - 1) as nat) as int
        } else {
            0
        }
    }
}

pub proof fn lemma_bits_value_range(bit: spec_fn(int) -> bool, n: int)
    requires
        0 <= n,
    ensures
        0 <= bits_value(bit, n) < pow2(n as nat),
    decreases n,
{
    lemma_pow2_pos(n as nat);
    if n > 0 {
        lemma_bits_value_range(bit, n - 1);
        lemma_pow2_unfold(n as nat);
    }
}

/// The bits of a number below `2^n` give the number back.
pub proof fn lemma_bits_of_number(v: int, n: int)
    requires
        0 <= v,
        0 <= n,
    ensures
        bits_value(|i: int| nat_bit(v, i), n) == v % pow2(n as nat) as int,
    decreases n,
{
    lemma_pow2_pos(n as nat);
    if n == 0 {
        lemma2_to64();
        assert(v % 1 == 0);
    } else {
        lemma_bits_of_number(v, n - 1);
        lemma_pow2_unfold(n as nat);
        let p = pow2((n - 1) as nat) as int;
        lemma_pow2_pos((n - 1) as nat);
        vstd::arithmetic::div_mod::lemma_mod_breakdown(v, p, 2);
        assert(p * 2 == pow2(n as nat));
        let b = (v / p) % 2;
        assert(p * b == if b == 1 {
            p
        } else {
            0
        }) by (nonlinear_arith)
            requires
                b == 0 || b == 1,
        ;
    }
}

pub proof fn lemma_bits_value_congr(f: spec_fn(int) -> bool, g: spec_fn(int) -> bool, n: int)
    requires
        forall|i: int| 0 <= i < n ==> #[trigger] f(i) == g(i),
    ensures
        bits_value(f, n) == bits_value(g, n),
    decreases n,
{
    if n > 0 {
        lemma_bits_value_congr(f, g, n - 1);
    }
}

/// Equal numbers have equal bits.
pub proof fn lemma_bits_value_injective(f: spec_fn(int) -> bool, g: spec_fn(int) -> bool, n: int, i: int)
    requires
        bits_value(f, n) == bits_value(g, n),
        0 <= i < n,
    ensures
        f(i) == g(i),
    decreases n,
{
    lemma_bits_value_range(f, n - 1);
    lemma_bits_value_range(g, n - 1);
    if i < n - 1 {
        lemma_bits_value_injective(f, g, n - 1, i);
    }
}

/// A majority carry chain adds: after `n` steps the carry is set exactly when
/// the two `n`-bit numbers sum to at least `2^n`.
pub proof fn lemma_carry_chain(
    p: spec_fn(int) -> bool,
    s: spec_fn(int) -> bool,
    c: spec_fn(int) -> bool,
    n: int,
)
    requires
        0 <= n,
        !c(0),
        forall|i: int|
            0 <= i < n ==> #[trigger] c(i + 1) == (((p(i) != c(i)) && (s(i) != c(i))) != c(i)),
    ensures
        bits_value(p, n) + bits_value(s, n) == bits_value(
            |i: int| (p(i) != s(i)) != c(i),
            n,
        ) + if c(n) {
            pow2(n as nat) as int
        } else {
            0
        },
        c(n) == (bits_value(p, n) + bits_value(s, n) >= pow2(n as nat)),
    decreases n,
{
    lemma_bits_value_range(|i: int| (p(i) != s(i)) != c(i), n);
    if n > 0 {
        lemma_carry_chain(p, s, c, n - 1);
        assert(c((n - 1) + 1) == (((p(n - 1) != c(n - 1)) && (s(n - 1) != c(n - 1))) != c(n - 1)));
        lemma_pow2_unfold(n as nat);
    }
}

/// A majority borrow chain subtracts: after `n` steps the borrow is set
/// exactly when the first number is smaller, and the difference bits are those
/// of the difference modulo `2^n`.
pub proof fn lemma_borrow_chain(
    x: spec_fn(int) -> bool,
    m: spec_fn(int) -> bool,
    c: spec_fn(int) -> bool,
    n: int,
)
    requires
        0 <= n,
        !c(0),
        forall|i: int|
            0 <= i < n ==> #[trigger] c(i + 1) == (((!x(i) != c(i)) && (m(i) != c(i))) != c(i)),
    ensures
        bits_value(|i: int| (x(i) != m(i)) != c(i), n) == bits_value(x, n) - bits_value(m, n)
            + if c(n) {
            pow2(n as nat) as int
        } else {
            0
        },
        c(n) == (bits_value(x, n) < bits_value(m, n)),
    decreases n,
{
    lemma_bits_value_range(|i: int| (x(i) != m(i)) != c(i), n);
    if n > 0 {
        lemma_borrow_chain(x, m, c, n - 1);
        assert(c((n - 1) + 1) == (((!x(n - 1) != c(n - 1)) && (m(n - 1) != c(n - 1))) != c(n - 1)));
        lemma_pow2_unfold(n as nat);
    }
}

/// The candidate word on the wires of `slot`.
pub open spec fn word_value(z: Seq<bool>, slot: int) -> int {
    bits_value(|i: int| value(z, X + i, slot), 16)
}

/// The quotient on the wires of `slot`.
pub open spec fn quotient_value(z: Seq<bool>, slot: int) -> int {
    bits_value(|i: int| value(z, Q + i, slot), 3)
}

/// The low fourteen difference bits at `slot`.
pub open spec fn residue_value(z: Seq<bool>, slot: int) -> int {
    bits_value(|i: int| residue_bit(z, slot, i), 14)
}

/// The counter before `slot`.
pub open spec fn count_before(z: Seq<bool>, slot: int) -> int {
    bits_value(|i: int| counter_before(z, slot, i), COUNTER_BITS as int)
}

/// The product rows of the chains at `slot` hold: everything at the slot but
/// the forced-zero rows and the counter.
pub open spec fn chains_hold(z: Seq<bool>, slot: int) -> bool {
    &&& z[0]
    &&& forall|p: int|
        D <= p < PIN_RANGE ==> #[trigger] slot_row_holds(z, wire_at(p, slot))
}

proof fn lemma_wire_split(plane: int, slot: int)
    requires
        0 <= plane,
        0 <= slot < PLANE,
    ensures
        wire_at(plane, slot) / PLANE as int == plane,
        wire_at(plane, slot) % PLANE as int == slot,
{
}

/// What the chains compute at a slot, whatever the free inputs hold.
pub proof fn lemma_chain_meaning(z: Seq<bool>, slot: int)
    requires
        chains_hold(z, slot),
        0 <= slot < SLOTS,
    ensures
        0 <= word_value(z, slot) < 65_536,
        0 <= quotient_value(z, slot) < 8,
        0 <= residue_value(z, slot) < 16_384,
        value(z, ACC as int, slot) == (word_value(z, slot) < ACCEPT_BOUND),
        carry(z, E as int, slot, 3) == (quotient_value(z, slot) > 5),
        !carry(z, E as int, slot, 3) ==> carry(z, G as int, slot, 16) == (word_value(z, slot) < FALCON_Q
            * quotient_value(z, slot)),
        !carry(z, E as int, slot, 3) && !carry(z, G as int, slot, 16) ==> word_value(z, slot)
            - FALCON_Q * quotient_value(z, slot) == residue_value(z, slot) + (if residue_bit(
            z,
            slot,
            14,
        ) {
            16_384int
        } else {
            0
        }) + (if residue_bit(z, slot, 15) {
            32_768int
        } else {
            0
        }),
        value(z, U as int, slot) == (residue_value(z, slot) > 6_144),
        carry(z, R_CHAIN as int, slot, 14) == (residue_value(z, slot) >= FALCON_Q),
{
    lemma2_to64();
    let x = |i: int| value(z, X + i, slot);
    let q = |i: int| value(z, Q + i, slot);
    let a = |i: int| residue_bit(z, slot, i);
    lemma_bits_value_range(x, 16);
    lemma_bits_value_range(q, 3);
    lemma_bits_value_range(a, 14);
    // Accept.
    let ck = |i: int| nat_bit(ACCEPT_K as int, i);
    let dc = |i: int| carry(z, D as int, slot, i);
    assert forall|i: int| 0 <= i < 16 implies #[trigger] dc(i + 1) == (((x(i) != dc(i)) && (ck(i)
        != dc(i))) != dc(i)) by {
        lemma_wire_split(D + i, slot);
        assert(slot_row_holds(z, wire_at(D + i, slot)));
    }
    lemma_carry_chain(x, ck, dc, 16);
    lemma_bits_of_number(ACCEPT_K as int, 16);
    lemma_wire_split(ACC as int, slot);
    assert(slot_row_holds(z, wire_at(ACC as int, slot)));
    // Three times the quotient.
    lemma_triple(z, slot);
    // The difference.
    let m = |i: int| multiple_bit(z, slot, i);
    let gc = |i: int| carry(z, G as int, slot, i);
    assert forall|i: int| 0 <= i < 16 implies #[trigger] gc(i + 1) == (((!x(i) != gc(i)) && (m(i)
        != gc(i))) != gc(i)) by {
        lemma_wire_split(G + i, slot);
        assert(slot_row_holds(z, wire_at(G + i, slot)));
    }
    lemma_borrow_chain(x, m, gc, 16);
    lemma_multiple(z, slot);
    assert(bits_value(a, 16) == bits_value(a, 14) + (if a(14) {
        16_384int
    } else {
        0
    }) + (if a(15) {
        32_768int
    } else {
        0
    })) by {
        reveal_with_fuel(bits_value, 3);
    }
    lemma_bits_value_congr(a, |i: int| (x(i) != m(i)) != gc(i), 16);
    // Centering.
    let uk = |i: int| nat_bit(CENTER_K as int, i);
    let uc = |i: int| carry(z, U_CHAIN as int, slot, i);
    assert forall|i: int| 0 <= i < 14 implies #[trigger] uc(i + 1) == (((a(i) != uc(i)) && (uk(i)
        != uc(i))) != uc(i)) by {
        lemma_wire_split(U_CHAIN + i, slot);
        assert(slot_row_holds(z, wire_at(U_CHAIN + i, slot)));
    }
    lemma_carry_chain(a, uk, uc, 14);
    lemma_bits_of_number(CENTER_K as int, 14);
    lemma_wire_split(U as int, slot);
    assert(slot_row_holds(z, wire_at(U as int, slot)));
    // Range.
    let rk = |i: int| nat_bit(RANGE_K as int, i);
    let rc = |i: int| carry(z, R_CHAIN as int, slot, i);
    assert forall|i: int| 0 <= i < 14 implies #[trigger] rc(i + 1) == (((a(i) != rc(i)) && (rk(i)
        != rc(i))) != rc(i)) by {
        lemma_wire_split(R_CHAIN + i, slot);
        assert(slot_row_holds(z, wire_at(R_CHAIN + i, slot)));
    }
    lemma_carry_chain(a, rk, rc, 14);
    lemma_bits_of_number(RANGE_K as int, 14);
}

/// The small adder computes three times the quotient.
proof fn lemma_triple(z: Seq<bool>, slot: int)
    requires
        chains_hold(z, slot),
        0 <= slot < SLOTS,
    ensures
        bits_value(|i: int| triple_bit(z, slot, i), 5) == 3 * quotient_value(z, slot),
        carry(z, E as int, slot, 3) == (quotient_value(z, slot) > 5),
{
    lemma2_to64();
    lemma_wire_split(E as int, slot);
    lemma_wire_split(E + 1, slot);
    lemma_wire_split(E + 2, slot);
    assert(slot_row_holds(z, wire_at(E as int, slot)));
    assert(slot_row_holds(z, wire_at(E + 1, slot)));
    assert(slot_row_holds(z, wire_at(E + 2, slot)));
    reveal_with_fuel(carry, 4);
    reveal_with_fuel(bits_value, 6);
}

/// Without overflow of `3 q` the multiple is `12,289 q`.
proof fn lemma_multiple(z: Seq<bool>, slot: int)
    requires
        chains_hold(z, slot),
        0 <= slot < SLOTS,
    ensures
        !carry(z, E as int, slot, 3) ==> bits_value(|i: int| multiple_bit(z, slot, i), 16)
            == FALCON_Q * quotient_value(z, slot),
{
    lemma2_to64();
    lemma_triple(z, slot);
    reveal_with_fuel(bits_value, 17);
}

/// Soundness of a slot: in every satisfying assignment the quotient wires hold
/// `x / 12,289`, the difference bits `x % 12,289`, the accept flag
/// `x < 61,445` and the centering flag `x % 12,289 > 6,144`.
pub proof fn slot_soundness(z: Seq<bool>, slot: int)
    requires
        block_holds(z),
        0 <= slot < SLOTS,
    ensures
        quotient_value(z, slot) == word_value(z, slot) / FALCON_Q as int,
        residue_value(z, slot) == word_value(z, slot) % FALCON_Q as int,
        value(z, ACC as int, slot) == (word_value(z, slot) < ACCEPT_BOUND),
        value(z, U as int, slot) == (word_value(z, slot) % FALCON_Q as int > 6_144),
{
    assert forall|p: int| D <= p < PIN_RANGE implies #[trigger] slot_row_holds(
        z,
        wire_at(p, slot),
    ) by {
        lemma_wire_split(p, slot);
    }
    lemma_chain_meaning(z, slot);
    lemma_wire_split(PIN_RANGE as int, slot);
    lemma_wire_split(PIN_A14 as int, slot);
    lemma_wire_split(PIN_A15 as int, slot);
    lemma_wire_split(PIN_B16 as int, slot);
    lemma_wire_split(PIN_T4 as int, slot);
    assert(slot_row_holds(z, wire_at(PIN_RANGE as int, slot)));
    assert(slot_row_holds(z, wire_at(PIN_A14 as int, slot)));
    assert(slot_row_holds(z, wire_at(PIN_A15 as int, slot)));
    assert(slot_row_holds(z, wire_at(PIN_B16 as int, slot)));
    assert(slot_row_holds(z, wire_at(PIN_T4 as int, slot)));
    let (x, q, a) = (word_value(z, slot), quotient_value(z, slot), residue_value(z, slot));
    assert(x == 12_289 * q + a && 0 <= a < 12_289);
    assert(q == x / 12_289 && a == x % 12_289) by (nonlinear_arith)
        requires
            x == 12_289 * q + a,
            0 <= a < 12_289,
    ;
}

/// A bit of a constant is the quotient's parity.
pub proof fn lemma_shift_bit(c: u32, i: u32)
    requires
        i < 32,
    ensures
        ((c >> i) & 1 == 1) == nat_bit(c as int, i as int),
{
    vstd::bits::lemma_u32_shr_is_div(c, i);
    let v = c >> i;
    assert((v & 1 == 1) == (v % 2 == 1)) by (bit_vector);
}

/// A bit of a wide constant is the quotient's parity.
pub proof fn lemma_shift_bit64(c: u64, i: u64)
    requires
        i < 64,
    ensures
        ((c >> i) & 1 == 1) == nat_bit(c as int, i as int),
{
    vstd::bits::lemma_u64_shr_is_div(c, i);
    let v = c >> i;
    assert((v & 1 == 1) == (v % 2 == 1)) by (bit_vector);
}

/// A ripple increment adds its carry in.
proof fn lemma_increment_chain(
    before: spec_fn(int) -> bool,
    after: spec_fn(int) -> bool,
    h: spec_fn(int) -> bool,
    n: int,
)
    requires
        0 <= n,
        forall|i: int| 0 <= i < n ==> #[trigger] h(i + 1) == (before(i) && h(i)),
        forall|i: int| 0 <= i < n ==> #[trigger] after(i) == (before(i) != h(i)),
    ensures
        bits_value(after, n) + (if h(n) {
            pow2(n as nat) as int
        } else {
            0
        }) == bits_value(before, n) + (if h(0) {
            1int
        } else {
            0
        }),
    decreases n,
{
    if n == 0 {
        lemma2_to64();
    } else {
        lemma_increment_chain(before, after, h, n - 1);
        assert(h((n - 1) + 1) == (before(n - 1) && h(n - 1)));
        assert(after(n - 1) == (before(n - 1) != h(n - 1)));
        lemma_pow2_unfold(n as nat);
    }
}

/// The counter rows of a slot hold.
pub open spec fn counter_rows_hold(z: Seq<bool>, slot: int) -> bool {
    &&& slot_row_holds(z, wire_at(GATE as int, slot))
    &&& forall|bit: int|
        0 <= bit < COUNTER_BITS ==> #[trigger] slot_row_holds(z, wire_at(H + bit, slot))
    &&& forall|bit: int|
        0 <= bit < COUNTER_BITS ==> #[trigger] slot_row_holds(z, wire_at(CNT + bit, slot))
}

/// The number of accept flags set before `slot`.
pub open spec fn flags_before(z: Seq<bool>, slot: int) -> int
    decreases slot,
{
    if slot <= 0 {
        0
    } else {
        flags_before(z, slot - 1) + if value(z, ACC as int, slot - 1) {
            1int
        } else {
            0
        }
    }
}

/// The counter wires count the accept flags, and the write gate opens on the first
/// 512 of them.
pub proof fn lemma_counter_meaning(z: Seq<bool>, slot: int)
    requires
        z[0],
        0 <= slot <= SLOTS,
        forall|s: int| 0 <= s < slot ==> #[trigger] counter_rows_hold(z, s),
    ensures
        count_before(z, slot) == flags_before(z, slot),
        0 <= flags_before(z, slot) <= slot,
        forall|s: int|
            0 <= s < slot ==> #[trigger] value(z, GATE as int, s) == (value(z, ACC as int, s)
                && flags_before(z, s) < 512),
    decreases slot,
{
    lemma2_to64();
    if slot == 0 {
        let none = |i: int| false;
        lemma_bits_value_congr(|i: int| counter_before(z, 0, i), none, COUNTER_BITS as int);
        lemma_no_bits(COUNTER_BITS as int);
    } else {
        let s = slot - 1;
        lemma_counter_meaning(z, s);
        assert(counter_rows_hold(z, s));
        let before = |i: int| counter_before(z, s, i);
        let after = |i: int| counter_before(z, slot, i);
        let h = |i: int| increment(z, s, i);
        assert forall|i: int| 0 <= i < COUNTER_BITS implies #[trigger] h(i + 1) == (before(i)
            && h(i)) by {
            lemma_wire_split(H + i, s);
            assert(slot_row_holds(z, wire_at(H + i, s)));
        }
        assert forall|i: int| 0 <= i < COUNTER_BITS implies #[trigger] after(i) == (before(i)
            != h(i)) by {
            lemma_wire_split(CNT + i, s);
            assert(slot_row_holds(z, wire_at(CNT + i, s)));
        }
        lemma_increment_chain(before, after, h, COUNTER_BITS as int);
        lemma_bits_value_range(after, COUNTER_BITS as int);
        lemma_wire_split(GATE as int, s);
        lemma_bits_value_range(before, 9);
        assert(before(9) == (count_before(z, s) >= 512)) by {
            reveal_with_fuel(bits_value, 2);
        }
    }
}

proof fn lemma_no_bits(n: int)
    ensures
        bits_value(|i: int| false, n) == 0,
    decreases n,
{
    if n > 0 {
        lemma_no_bits(n - 1);
    }
}

} // verus!
