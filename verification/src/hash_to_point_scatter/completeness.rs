//! Completeness of the terminal discharge on honest witnesses.
use vstd::arithmetic::power2::{lemma2_to64, pow2};
use vstd::prelude::*;

use crate::field::{
    fadd, fmul, fone, fselect, fzero, lemma_fadd_assoc, lemma_fadd_comm, lemma_fadd_self,
    lemma_fadd_zero, lemma_fmul_assoc, lemma_fmul_comm, lemma_fmul_one, lemma_fmul_zero, F128,
};
use crate::frobenius::frob;
use crate::hash_to_point_scatter::discharge::{
    combined_sources, combined_value, counter_claim, counter_opening, discharge_outcome,
    discharge_tables, gt_weight, gt_weights, multiple_opening, reconstructed, residue_opening,
    source_table, value_opening,
};
use crate::hash_to_point_scatter::slot_tables::{
    coordinate, count_at, counter_entry, factor_entry, lemma_product_of_counters, slot_factors,
};
use crate::hash_to_point_scatter::{honest_proof_verifies, honest_rounds};
use crate::hash_to_point_slots::relation::{
    bits_value, block_holds, carry, count_before, counter_before, counter_rows_hold, flags_before,
    increment, lemma_bits_of_number, lemma_bits_value_injective, lemma_counter_meaning,
    multiple_bit, nat_bit, residue_bit, residue_value, slot_row_holds, value, wire_at,
};
use crate::hash_to_point_slots::witness::{accept_count, block_witness_meaning, is_block_witness};
use crate::hash_to_point_slots::{
    ACC, CNT, COUNTER_BITS, G, GATE, H, PLANE, Q, SLOTS, SLOT_VARS, U, X, Z_BASE,
};
use crate::mle::{
    bit_value, eq_weight, lemma_mle_add, lemma_mle_combination, lemma_mle_constant,
    lemma_mle_is_weighted_sum, lemma_mle_scale, mle,
};
use crate::sumcheck::{product_sum, shaped, term, terminal_value};
use crate::sums::{
    fpow, fprod, fsum, lemma_fsum_add, lemma_fsum_congr, lemma_fsum_exchange, lemma_fsum_scale,
    lemma_fsum_single, lemma_fsum_zero,
};

verus! {

/// The bits of a witness plane over the padded slot domain.
pub open spec fn plane_table(z: Seq<bool>, plane: int) -> Seq<F128> {
    Seq::new(PLANE as nat, |s: int| bit_value(value(z, plane, s)))
}

/// The opening of a plane: its multilinear extension at the point.
pub open spec fn opening(z: Seq<bool>, plane: int, point: Seq<F128>) -> F128 {
    mle(plane_table(z, plane), point)
}

/// The openings of `n` planes from `plane`.
pub open spec fn openings(z: Seq<bool>, plane: int, n: nat, point: Seq<F128>) -> Seq<F128> {
    Seq::new(n, |i: int| opening(z, plane + i, point))
}

proof fn lemma_padding(z: Seq<bool>, plane: int, slot: int)
    requires
        block_holds(z),
        1 <= plane < Z_BASE,
        SLOTS <= slot < PLANE,
    ensures
        !value(z, plane, slot),
{
    let w = wire_at(plane, slot);
    assert(w / PLANE as int == plane && w % PLANE as int == slot);
    assert(slot_row_holds(z, w));
}

proof fn lemma_bit_xor(a: bool, b: bool)
    ensures
        bit_value(a != b) == fadd(bit_value(a), bit_value(b)),
{
    lemma_fadd_zero(fone());
    lemma_fadd_zero(fzero());
    lemma_fadd_self(fone());
}

proof fn lemma_counter_rows(z: Seq<bool>, slot: int)
    requires
        block_holds(z),
        0 <= slot < SLOTS,
    ensures
        counter_rows_hold(z, slot),
{
    assert(slot_row_holds(z, wire_at(GATE as int, slot)));
    assert forall|bit: int| 0 <= bit < COUNTER_BITS implies #[trigger] slot_row_holds(
        z,
        wire_at(H + bit, slot),
    ) by {}
    assert forall|bit: int| 0 <= bit < COUNTER_BITS implies #[trigger] slot_row_holds(
        z,
        wire_at(CNT + bit, slot),
    ) by {}
}

/// The counter wires hold the bits of the count, up to the last live slot.
proof fn lemma_count_bits(z: Seq<bool>, words: Seq<u16>, slot: int, bit: int)
    requires
        is_block_witness(z, words),
        words.len() == SLOTS,
        0 <= slot <= SLOTS,
        0 <= bit < COUNTER_BITS,
    ensures
        counter_before(z, slot, bit) == nat_bit(accept_count(words, slot), bit),
{
    lemma2_to64();
    assert forall|s: int| 0 <= s < slot implies #[trigger] counter_rows_hold(z, s) by {
        lemma_counter_rows(z, s);
    }
    lemma_counter_meaning(z, slot);
    lemma_flag_count(z, words, slot);
    let count = accept_count(words, slot);
    assert(count_before(z, slot) == count);
    let f = |i: int| counter_before(z, slot, i);
    let g = |i: int| nat_bit(count, i);
    lemma_bits_of_number(count, 10);
    assert(count % pow2(10) as int == count);
    assert(bits_value(g, 10) == count);
    assert(bits_value(f, 10) == count);
    lemma_bits_value_injective(f, g, 10, bit);
}

proof fn lemma_flag_count(z: Seq<bool>, words: Seq<u16>, slot: int)
    requires
        is_block_witness(z, words),
        words.len() == SLOTS,
        0 <= slot <= SLOTS,
    ensures
        flags_before(z, slot) == accept_count(words, slot),
    decreases slot,
{
    if slot > 0 {
        lemma_flag_count(z, words, slot - 1);
        block_witness_meaning(z, words, slot - 1);
    }
}

/// One more slot in the prefix flips the parity by its increment.
proof fn lemma_count_step(z: Seq<bool>, words: Seq<u16>, slot: int, bit: int)
    requires
        is_block_witness(z, words),
        words.len() == SLOTS,
        0 <= slot < PLANE - 1,
        0 <= bit < COUNTER_BITS,
    ensures
        nat_bit(count_at(words, slot + 1), bit) == (nat_bit(count_at(words, slot), bit)
            != increment(z, slot, bit)),
{
    if slot < SLOTS {
        lemma_count_bits(z, words, slot, bit);
        lemma_count_bits(z, words, slot + 1, bit);
        let w = wire_at(CNT + bit, slot);
        assert(w / PLANE as int == CNT + bit && w % PLANE as int == slot);
        assert(slot_row_holds(z, w));
    } else if bit == 0 {
        lemma_padding(z, ACC as int, slot);
    } else {
        lemma_padding(z, H + bit - 1, slot);
    }
}

/// The prefix parity of the increments, as a field sum, is the counter bit.
proof fn lemma_prefix_parity(z: Seq<bool>, words: Seq<u16>, slot: int, bit: int)
    requires
        is_block_witness(z, words),
        words.len() == SLOTS,
        0 <= slot < PLANE,
        0 <= bit < COUNTER_BITS,
    ensures
        bit_value(nat_bit(count_at(words, slot), bit)) == fsum(
            |t: int| fselect(slot > t, source_table(z, bit)[t]),
            PLANE as int,
        ),
    decreases slot,
{
    let v = source_table(z, bit);
    let f = |t: int| fselect(slot > t, v[t]);
    if slot == 0 {
        lemma_fsum_zero(f, PLANE as int);
        lemma_count_bits(z, words, 0, bit);
    } else {
        let s = slot - 1;
        lemma_prefix_parity(z, words, s, bit);
        lemma_count_step(z, words, s, bit);
        let g = |t: int| fselect(s > t, v[t]);
        let h = |t: int| fselect(t == s, v[t]);
        lemma_fsum_add(g, h, PLANE as int);
        assert forall|t: int| 0 <= t < PLANE implies #[trigger] f(t) == fadd(g(t), h(t)) by {
            lemma_fadd_zero(v[t]);
            lemma_fadd_zero(fzero());
        }
        lemma_fsum_congr(f, |t: int| fadd(g(t), h(t)), PLANE as int);
        lemma_fsum_single(h, PLANE as int, s);
        lemma_bit_xor(nat_bit(count_at(words, s), bit), increment(z, s, bit));
    }
}

/// The counter bit's extension at the scatter point is the discharge claim.
proof fn lemma_counter_extension(z: Seq<bool>, words: Seq<u16>, r: Seq<F128>, bit: int)
    requires
        is_block_witness(z, words),
        words.len() == SLOTS,
        r.len() == SLOT_VARS,
        0 <= bit < COUNTER_BITS,
    ensures
        mle(
            Seq::new(PLANE as nat, |s: int| bit_value(nat_bit(count_at(words, s), bit))),
            r,
        ) == counter_claim(z, r, bit),
{
    lemma2_to64();
    let n = PLANE as int;
    let v = source_table(z, bit);
    let table = Seq::new(PLANE as nat, |s: int| bit_value(nat_bit(count_at(words, s), bit)));
    lemma_mle_is_weighted_sum(table, r);
    let f = |s: int| fmul(table[s], eq_weight(r, s));
    let pair = |s: int, t: int| fmul(eq_weight(r, s), fselect(s > t, v[t]));
    let rows = |s: int| fsum(|t: int| pair(s, t), n);
    assert forall|s: int| 0 <= s < n implies #[trigger] f(s) == rows(s) by {
        lemma_prefix_parity(z, words, s, bit);
        let inner = |t: int| fselect(s > t, v[t]);
        lemma_fsum_scale(eq_weight(r, s), inner, n);
        lemma_fsum_congr(|t: int| fmul(eq_weight(r, s), inner(t)), |t: int| pair(s, t), n);
        lemma_fmul_comm(table[s], eq_weight(r, s));
    }
    lemma_fsum_congr(f, rows, n);
    lemma_fsum_exchange(pair, n, n);
    lemma_fsum_congr(rows, |i: int| fsum(|j: int| pair(i, j), n), n);
    let cols = |t: int| fsum(|s: int| pair(s, t), n);
    let claim = |t: int| fmul(gt_weight(r, t), v[t]);
    assert forall|t: int| 0 <= t < n implies #[trigger] claim(t) == cols(t) by {
        let w = |s: int| fselect(s > t, eq_weight(r, s));
        lemma_fsum_scale(v[t], w, n);
        let scaled = |s: int| fmul(v[t], w(s));
        let column = |s: int| pair(s, t);
        assert forall|s: int| 0 <= s < n implies #[trigger] scaled(s) == column(s) by {
            lemma_fmul_comm(v[t], eq_weight(r, s));
            lemma_fmul_zero(v[t]);
            lemma_fmul_zero(eq_weight(r, s));
        }
        lemma_fsum_congr(scaled, column, n);
        lemma_fmul_comm(v[t], gt_weight(r, t));
    }
    lemma_fsum_congr(claim, cols, n);
    lemma_fsum_congr(cols, |j: int| fsum(|i: int| pair(i, j), n), n);
}

/// The extension of a counter factor in terms of the claim of its bit.
proof fn lemma_counter_factor(z: Seq<bool>, words: Seq<u16>, beta: F128, r: Seq<F128>, bit: int)
    requires
        is_block_witness(z, words),
        words.len() == SLOTS,
        r.len() == SLOT_VARS,
        0 <= bit < COUNTER_BITS,
    ensures
        mle(Seq::new(PLANE as nat, |s: int| counter_entry(words, beta, bit, s)), r)
            == counter_opening(counter_claim(z, r, bit), beta, bit),
{
    lemma2_to64();
    let bits = Seq::new(PLANE as nat, |s: int| bit_value(nat_bit(count_at(words, s), bit)));
    let k = fadd(frob(beta, bit), fone());
    let ones = Seq::new(pow2(r.len()), |s: int| fone());
    let scaled = Seq::new(bits.len(), |s: int| fmul(k, bits[s]));
    let entries = Seq::new(PLANE as nat, |s: int| counter_entry(words, beta, bit, s));
    lemma_counter_extension(z, words, r, bit);
    lemma_mle_constant(fone(), r);
    lemma_mle_scale(k, bits, r);
    lemma_mle_add(ones, scaled, r);
    assert forall|s: int| 0 <= s < PLANE implies #[trigger] entries[s] == fadd(ones[s], scaled[s]) by {
        lemma_fmul_one(k);
        lemma_fmul_zero(k);
        lemma_fadd_zero(fone());
        lemma_fadd_comm(frob(beta, bit), fone());
        lemma_fadd_assoc(fone(), fone(), frob(beta, bit));
        lemma_fadd_self(fone());
        lemma_fadd_zero(frob(beta, bit));
    }
    assert(entries =~= Seq::new(ones.len(), |s: int| fadd(ones[s], scaled[s])));
}

/// The borrow's extension is the sum of the borrow planes' openings.
proof fn lemma_borrow_extension(z: Seq<bool>, r: Seq<F128>, c: int)
    requires
        r.len() == SLOT_VARS,
        0 <= c,
    ensures
        mle(Seq::new(PLANE as nat, |s: int| bit_value(carry(z, G as int, s, c))), r) == fsum(
            |i: int| opening(z, G + i, r),
            c,
        ),
    decreases c,
{
    lemma2_to64();
    let table = Seq::new(PLANE as nat, |s: int| bit_value(carry(z, G as int, s, c)));
    if c == 0 {
        lemma_mle_constant(fzero(), r);
        assert(table =~= Seq::new(pow2(r.len()), |i: int| fzero()));
    } else {
        lemma_borrow_extension(z, r, c - 1);
        let before = Seq::new(PLANE as nat, |s: int| bit_value(carry(z, G as int, s, c - 1)));
        let plane = plane_table(z, G + (c - 1));
        assert forall|s: int| 0 <= s < PLANE implies #[trigger] table[s] == fadd(before[s], plane[s]) by {
            lemma_bit_xor(carry(z, G as int, s, c - 1), value(z, G + c - 1, s));
        }
        assert(table =~= Seq::new(before.len(), |s: int| fadd(before[s], plane[s])));
        lemma_mle_add(before, plane, r);
    }
}

/// The multiple bit's extension in terms of the quotient planes' openings.
proof fn lemma_multiple_extension(z: Seq<bool>, r: Seq<F128>, c: int)
    requires
        r.len() == SLOT_VARS,
        0 <= c < 14,
    ensures
        mle(Seq::new(PLANE as nat, |s: int| bit_value(multiple_bit(z, s, c))), r)
            == multiple_opening(openings(z, Q as int, 3, r), c),
{
    lemma2_to64();
    let table = Seq::new(PLANE as nat, |s: int| bit_value(multiple_bit(z, s, c)));
    if c < 3 {
        assert(table =~= plane_table(z, Q + c));
    } else if c == 12 {
        assert(table =~= plane_table(z, Q as int));
        assert(Q as int == Q + 0);
    } else if c == 13 {
        let a = plane_table(z, Q + 0);
        let b = plane_table(z, Q + 1);
        assert forall|s: int| 0 <= s < PLANE implies #[trigger] table[s] == fadd(a[s], b[s]) by {
            lemma_bit_xor(value(z, Q + 1, s), value(z, Q as int, s));
            lemma_fadd_comm(a[s], b[s]);
        }
        assert(table =~= Seq::new(a.len(), |s: int| fadd(a[s], b[s])));
        lemma_mle_add(a, b, r);
    } else {
        lemma_mle_constant(fzero(), r);
        assert(table =~= Seq::new(pow2(r.len()), |i: int| fzero()));
    }
}

/// The bits that the value factor combines.
spec fn value_bit(z: Seq<bool>, s: int, c: int) -> bool {
    if c < 14 {
        residue_bit(z, s, c)
    } else {
        value(z, U as int, s)
    }
}

spec fn value_bits(z: Seq<bool>, c: int) -> Seq<F128> {
    Seq::new(PLANE as nat, |s: int| bit_value(value_bit(z, s, c)))
}

proof fn lemma_residue_extension(z: Seq<bool>, r: Seq<F128>, c: int)
    requires
        r.len() == SLOT_VARS,
        0 <= c < 14,
    ensures
        mle(value_bits(z, c), r) == residue_opening(
            openings(z, X as int, 14, r),
            openings(z, Q as int, 3, r),
            openings(z, G as int, 14, r),
            c,
        ),
{
    lemma2_to64();
    let word = plane_table(z, X + c);
    let multiple = Seq::new(PLANE as nat, |s: int| bit_value(multiple_bit(z, s, c)));
    let borrow = Seq::new(PLANE as nat, |s: int| bit_value(carry(z, G as int, s, c)));
    let first = Seq::new(word.len(), |s: int| fadd(word[s], multiple[s]));
    let whole = Seq::new(first.len(), |s: int| fadd(first[s], borrow[s]));
    lemma_mle_add(word, multiple, r);
    lemma_mle_add(first, borrow, r);
    lemma_multiple_extension(z, r, c);
    lemma_borrow_extension(z, r, c);
    lemma_fsum_congr(
        |i: int| opening(z, G + i, r),
        |i: int| openings(z, G as int, 14, r)[i],
        c,
    );
    assert forall|s: int| 0 <= s < PLANE implies #[trigger] value_bits(z, c)[s] == whole[s] by {
        lemma_bit_xor(value(z, X + c, s), multiple_bit(z, s, c));
        lemma_bit_xor(
            value(z, X + c, s) != multiple_bit(z, s, c),
            carry(z, G as int, s, c),
        );
    }
    assert(value_bits(z, c) =~= whole);
}

/// On every slot the value factor combines the residue bits and the flag.
proof fn lemma_value_entry(z: Seq<bool>, words: Seq<u16>, gamma: F128, beta: F128, s: int)
    requires
        is_block_witness(z, words),
        words.len() == SLOTS,
        0 <= s < PLANE,
    ensures
        factor_entry(z, words, gamma, beta, 11, s) == fsum(
            |c: int| fmul(fpow(gamma, c), value_bits(z, c)[s]),
            15,
        ),
{
    let g = |c: int| fmul(fpow(gamma, c), value_bits(z, c)[s]);
    if s < SLOTS {
        block_witness_meaning(z, words, s);
        let w = words[s] as int;
        assert(w - 12_289 * (w / 12_289) == w % 12_289);
        let f = |c: int| fselect(coordinate(z, words, s, c), fpow(gamma, c));
        assert forall|c: int| 0 <= c < 15 implies #[trigger] f(c) == g(c) by {
            if c < 14 {
                lemma2_to64();
                let a = |i: int| residue_bit(z, s, i);
                let b = |i: int| nat_bit(residue_value(z, s), i);
                let v = residue_value(z, s);
                lemma_bits_of_number(v, 14);
                assert(v % pow2(14) as int == v);
                assert(bits_value(b, 14) == v);
                assert(bits_value(a, 14) == v);
                lemma_bits_value_injective(a, b, 14, c);
            }
            lemma_fmul_one(fpow(gamma, c));
            lemma_fmul_zero(fpow(gamma, c));
        }
        lemma_fsum_congr(f, g, 15);
    } else {
        assert forall|c: int| 0 <= c < 15 implies #[trigger] g(c) == fzero() by {
            lemma_value_padding(z, s, c);
            lemma_fmul_zero(fpow(gamma, c));
        }
        lemma_fsum_zero(g, 15);
    }
}

proof fn lemma_value_padding(z: Seq<bool>, s: int, c: int)
    requires
        block_holds(z),
        SLOTS <= s < PLANE,
        0 <= c < 15,
    ensures
        !value_bit(z, s, c),
{
    if c == 14 {
        lemma_padding(z, U as int, s);
    } else {
        lemma_padding(z, X + c, s);
        lemma_padding(z, Q as int, s);
        lemma_padding(z, Q + 1, s);
        lemma_padding(z, Q + 2, s);
        lemma_borrow_padding(z, s, c);
    }
}

proof fn lemma_borrow_padding(z: Seq<bool>, s: int, c: int)
    requires
        block_holds(z),
        SLOTS <= s < PLANE,
        c <= 14,
    ensures
        !carry(z, G as int, s, c),
    decreases c,
{
    if c > 0 {
        lemma_borrow_padding(z, s, c - 1);
        lemma_padding(z, G + c - 1, s);
    }
}

proof fn lemma_value_extension(z: Seq<bool>, words: Seq<u16>, gamma: F128, beta: F128, r: Seq<F128>)
    requires
        is_block_witness(z, words),
        words.len() == SLOTS,
        r.len() == SLOT_VARS,
    ensures
        mle(slot_factors(z, words, gamma, beta)[11], r) == value_opening(
            openings(z, X as int, 14, r),
            openings(z, Q as int, 3, r),
            openings(z, G as int, 14, r),
            opening(z, U as int, r),
            gamma,
        ),
{
    lemma2_to64();
    let table = slot_factors(z, words, gamma, beta)[11];
    let k = |c: int| fpow(gamma, c);
    let t = |c: int| value_bits(z, c);
    lemma_mle_combination(k, t, 15, r);
    let whole = Seq::new(pow2(r.len()), |i: int| fsum(|c: int| fmul(k(c), t(c)[i]), 15));
    assert forall|s: int| 0 <= s < PLANE implies #[trigger] table[s] == whole[s] by {
        lemma_value_entry(z, words, gamma, beta, s);
        lemma_fsum_congr(
            |c: int| fmul(fpow(gamma, c), value_bits(z, c)[s]),
            |c: int| fmul(k(c), t(c)[s]),
            15,
        );
    }
    assert(table =~= whole);
    let sums = |c: int| fmul(k(c), mle(t(c), r));
    let opened = |c: int|
        fmul(
            fpow(gamma, c),
            residue_opening(
                openings(z, X as int, 14, r),
                openings(z, Q as int, 3, r),
                openings(z, G as int, 14, r),
                c,
            ),
        );
    assert forall|c: int| 0 <= c < 14 implies #[trigger] sums(c) == opened(c) by {
        lemma_residue_extension(z, r, c);
    }
    lemma_fsum_congr(sums, opened, 14);
    assert(value_bits(z, 14) =~= plane_table(z, U as int));
    assert(fsum(sums, 15) == fadd(fsum(sums, 14), sums(14)));
}

/// The scatter terminal is what the openings and the claims reconstruct.
proof fn lemma_terminal(z: Seq<bool>, words: Seq<u16>, gamma: F128, beta: F128, r: Seq<F128>)
    requires
        is_block_witness(z, words),
        words.len() == SLOTS,
        r.len() == SLOT_VARS,
    ensures
        terminal_value(slot_factors(z, words, gamma, beta), r) == reconstructed(
            opening(z, GATE as int, r),
            Seq::new(COUNTER_BITS as nat, |b: int| counter_claim(z, r, b)),
            value_opening(
                openings(z, X as int, 14, r),
                openings(z, Q as int, 3, r),
                openings(z, G as int, 14, r),
                opening(z, U as int, r),
                gamma,
            ),
            beta,
        ),
{
    let factors = slot_factors(z, words, gamma, beta);
    let claims = Seq::new(COUNTER_BITS as nat, |b: int| counter_claim(z, r, b));
    let f = |k: int| mle(factors[k], r);
    let g = |b: int| counter_opening(claims[b], beta, b);
    assert(factors[0] =~= plane_table(z, GATE as int)) by {
        assert forall|s: int| 0 <= s < PLANE implies factors[0][s] == plane_table(
            z,
            GATE as int,
        )[s] by {
            if s >= SLOTS {
                lemma_padding(z, GATE as int, s);
            }
        }
    }
    assert forall|b: int| 0 <= b < 10 implies #[trigger] g(b) == f(b + 1) by {
        lemma_counter_factor(z, words, beta, r, b);
        assert(factors[b + 1] =~= Seq::new(
            PLANE as nat,
            |s: int| counter_entry(words, beta, b, s),
        ));
    }
    lemma_product_of_counters(f, g, 10);
    lemma_value_extension(z, words, gamma, beta, r);
    assert(fprod(f, 12) == fmul(fprod(f, 11), f(11)));
}

/// The sumcheck's claim combines the individual claims.
pub proof fn lemma_combined_claim(z: Seq<bool>, r: Seq<F128>, rho: F128)
    requires
        r.len() == SLOT_VARS,
    ensures
        product_sum(discharge_tables(z, r, rho)) == combined_value(
            Seq::new(COUNTER_BITS as nat, |b: int| counter_claim(z, r, b)),
            rho,
        ),
{
    lemma2_to64();
    let n = PLANE as int;
    let factors = discharge_tables(z, r, rho);
    let claims = Seq::new(COUNTER_BITS as nat, |b: int| counter_claim(z, r, b));
    let pair = |s: int, b: int| fmul(gt_weight(r, s), fmul(fpow(rho, b), source_table(z, b)[s]));
    let f = |s: int| term(factors, s);
    let rows = |s: int| fsum(|b: int| pair(s, b), 10);
    assert forall|s: int| 0 <= s < n implies #[trigger] f(s) == rows(s) by {
        reveal_with_fuel(fprod, 3);
        let w = gt_weight(r, s);
        lemma_fmul_one(w);
        let inner = |b: int| fmul(fpow(rho, b), source_table(z, b)[s]);
        lemma_fsum_scale(w, inner, 10);
        lemma_fsum_congr(|b: int| fmul(w, inner(b)), |b: int| pair(s, b), 10);
    }
    lemma_fsum_congr(f, rows, n);
    lemma_fsum_exchange(pair, n, 10);
    lemma_fsum_congr(rows, |i: int| fsum(|j: int| pair(i, j), 10), n);
    let cols = |b: int| fsum(|s: int| pair(s, b), n);
    let combined = |b: int| fmul(fpow(rho, b), claims[b]);
    assert forall|b: int| 0 <= b < 10 implies #[trigger] combined(b) == cols(b) by {
        let w = |s: int| fmul(gt_weight(r, s), source_table(z, b)[s]);
        lemma_fsum_scale(fpow(rho, b), w, n);
        let scaled = |s: int| fmul(fpow(rho, b), w(s));
        let column = |s: int| pair(s, b);
        assert forall|s: int| 0 <= s < n implies #[trigger] scaled(s) == column(s) by {
            let p = fpow(rho, b);
            let g = gt_weight(r, s);
            let v = source_table(z, b)[s];
            lemma_fmul_assoc(p, g, v);
            lemma_fmul_comm(p, g);
            lemma_fmul_assoc(g, p, v);
        }
        lemma_fsum_congr(scaled, column, n);
    }
    lemma_fsum_congr(combined, cols, 10);
    lemma_fsum_congr(cols, |j: int| fsum(|i: int| pair(i, j), n), 10);
}

/// The sumcheck's terminal is the greater-than weight times the combined
/// source openings.
pub proof fn lemma_discharge_terminal(z: Seq<bool>, r: Seq<F128>, rho: F128, challenges: Seq<F128>)
    requires
        r.len() == SLOT_VARS,
        challenges.len() == SLOT_VARS,
    ensures
        terminal_value(discharge_tables(z, r, rho), challenges) == fmul(
            mle(gt_weights(r), challenges),
            combined_value(
                Seq::new(COUNTER_BITS as nat, |b: int| mle(source_table(z, b), challenges)),
                rho,
            ),
        ),
{
    lemma2_to64();
    let k = |b: int| fpow(rho, b);
    let t = |b: int| source_table(z, b);
    lemma_mle_combination(k, t, 10, challenges);
    let whole = Seq::new(
        pow2(challenges.len()),
        |i: int| fsum(|b: int| fmul(k(b), t(b)[i]), 10),
    );
    let combined = combined_sources(z, rho);
    assert forall|s: int| 0 <= s < PLANE implies #[trigger] combined[s] == whole[s] by {
        lemma_fsum_congr(
            |b: int| fmul(fpow(rho, b), source_table(z, b)[s]),
            |b: int| fmul(k(b), t(b)[s]),
            10,
        );
    }
    assert(combined =~= whole);
    let sources = Seq::new(COUNTER_BITS as nat, |b: int| mle(source_table(z, b), challenges));
    lemma_fsum_congr(
        |b: int| fmul(k(b), mle(t(b), challenges)),
        |b: int| fmul(fpow(rho, b), sources[b]),
        10,
    );
    reveal_with_fuel(fprod, 3);
    lemma_fmul_one(mle(gt_weights(r), challenges));
}

/// Completeness of the discharge: on a block witness the verifier accepts the
/// honest messages with the true plane openings, and the terminal that it
/// reconstructs is the one that the scatter sumcheck is left with.
pub proof fn honest_discharge_verifies(
    z: Seq<bool>,
    words: Seq<u16>,
    r: Seq<F128>,
    beta: F128,
    gamma: F128,
    rho: F128,
    challenges: Seq<F128>,
)
    requires
        is_block_witness(z, words),
        words.len() == SLOTS,
        r.len() == SLOT_VARS,
        challenges.len() == SLOT_VARS,
    ensures
        discharge_outcome(
            Seq::new(COUNTER_BITS as nat, |b: int| counter_claim(z, r, b)),
            product_sum(discharge_tables(z, r, rho)),
            honest_rounds(discharge_tables(z, r, rho), challenges),
            r,
            beta,
            terminal_value(slot_factors(z, words, gamma, beta), r),
            Seq::new(COUNTER_BITS as nat, |b: int| mle(source_table(z, b), challenges)),
            opening(z, GATE as int, r),
            value_opening(
                openings(z, X as int, 14, r),
                openings(z, Q as int, 3, r),
                openings(z, G as int, 14, r),
                opening(z, U as int, r),
                gamma,
            ),
            rho,
            challenges,
        ) == Ok::<(), Seq<char>>(()),
{
    lemma2_to64();
    let factors = discharge_tables(z, r, rho);
    assert(shaped(factors, challenges.len()));
    honest_proof_verifies(factors, challenges);
    lemma_combined_claim(z, r, rho);
    lemma_discharge_terminal(z, r, rho, challenges);
    lemma_terminal(z, words, gamma, beta, r);
}

} // verus!
