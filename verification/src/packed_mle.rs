//! Bit-table multilinear evaluation without a full-size tensor.
//!
//! Each 128-bit word is contracted with its seven low-coordinate weights, and
//! the results are summed under the equality tensor of the free high
//! coordinates. Coordinates that are zero or one select addresses instead.
use vstd::arithmetic::power2::{
    lemma2_to64, lemma_pow2_adds, lemma_pow2_pos, lemma_pow2_strictly_increases, lemma_pow2_unfold,
    pow2,
};
use vstd::prelude::*;
use vstd::slice::slice_subrange;

use crate::field::{
    coefficient, fadd, fmul, fone, fselect, fzero, lemma_fadd_comm, lemma_fadd_self,
    lemma_fadd_zero, lemma_fmul_assoc, lemma_fmul_comm, lemma_fmul_distr, lemma_fmul_one,
    lemma_fmul_zero, F128,
};
use crate::hash_to_point_scatter::power_sum::{lemma_eq_weight_concat, lemma_fsum_blocks};
use crate::hash_to_point_slots::relation::{lemma_shift_bit64, nat_bit};
use crate::hash_to_point_slots::setup::power_of_two;
use crate::lookup::{subset_sum, subset_sums};
use crate::mle::{
    bit_table, bit_value, eq_table, eq_weight, lemma_eq_weight_first, lemma_mle_is_weighted_sum,
    mle,
};
use crate::packed_bits::{packed_bit, set_bit, zero_words};
use crate::sums::{fsum, lemma_fsum_congr, lemma_fsum_scale, lemma_fsum_split, lemma_fsum_zero};

verus! {

/// The first `n` bits of the packed words.
pub open spec fn leading_bits(words: Seq<F128>, n: nat) -> Seq<bool> {
    Seq::new(n, |p: int| packed_bit(words, p))
}

// ---------------------------------------------------------------------------
// The low seven coordinates.
// ---------------------------------------------------------------------------

/// A word's bits under the weights.
pub open spec fn word_value(weights: Seq<F128>, word: F128) -> F128 {
    fsum(|t: int| fselect(coefficient(word, t), weights[t]), 128)
}

/// A word contraction: the nonzero weights, or a lookup table for each byte
/// that has one.
pub enum LowMap {
    Sparse(Vec<(usize, F128)>),
    Bytes(Vec<(usize, Vec<F128>)>),
}

/// Byte `byte` of a word.
pub open spec fn word_byte(word: F128, byte: int) -> int {
    ((if byte < 8 {
        word.lo
    } else {
        word.hi
    }) >> ((8 * (byte % 8)) as u64)) as int % 256
}

/// The listed weights of a word's bits.
pub open spec fn sparse_value(terms: Seq<(usize, F128)>, word: F128) -> F128 {
    fsum(|k: int| fselect(coefficient(word, terms[k].0 as int), terms[k].1), terms.len() as int)
}

/// The tables' entries of a word's bytes.
pub open spec fn bytes_value(tables: Seq<(usize, Vec<F128>)>, word: F128) -> F128 {
    fsum(|k: int| tables[k].1@[word_byte(word, tables[k].0 as int)], tables.len() as int)
}

impl LowMap {
    /// The positions are those of a word.
    pub open spec fn well_formed(self) -> bool {
        match self {
            LowMap::Sparse(terms) => forall|k: int|
                0 <= k < terms@.len() ==> (#[trigger] terms@[k]).0 < 128,
            LowMap::Bytes(tables) => forall|k: int|
                0 <= k < tables@.len() ==> (#[trigger] tables@[k]).0 < 16 && tables@[k].1@.len()
                    == 256,
        }
    }

    /// What the map makes of a word.
    pub open spec fn value(self, word: F128) -> F128 {
        match self {
            LowMap::Sparse(terms) => sparse_value(terms@, word),
            LowMap::Bytes(tables) => bytes_value(tables@, word),
        }
    }
}

/// A shifted and masked limb has the limb's bits.
proof fn lemma_byte_of_limb(limb: u64, s: u64, j: u64)
    by (bit_vector)
    requires
        s <= 56,
        j < 8,
    ensures
        (((limb >> s) & 255) >> j) & 1 == (limb >> ((s + j) as u64)) & 1,
        (limb >> s) & 255 == (limb >> s) % 256,
        (limb >> s) & 255 < 256,
{
}

proof fn lemma_word_byte_bit(word: F128, byte: int, j: int)
    requires
        0 <= byte < 16,
        0 <= j < 8,
    ensures
        nat_bit(word_byte(word, byte), j) == coefficient(word, 8 * byte + j),
        0 <= word_byte(word, byte) < 256,
{
    let limb = if byte < 8 {
        word.lo
    } else {
        word.hi
    };
    let s = (8 * (byte % 8)) as u64;
    lemma_byte_of_limb(limb, s, j as u64);
    lemma_shift_bit64((limb >> s) & 255, j as u64);
}

/// A word's value is the sum of its bytes' entries.
proof fn lemma_value_by_bytes(weights: Seq<F128>, word: F128)
    requires
        weights.len() == 128,
    ensures
        word_value(weights, word) == fsum(
            |byte: int| subset_sum(weights.subrange(8 * byte, 8 * byte + 8), word_byte(word, byte)),
            16,
        ),
{
    let f = |t: int| fselect(coefficient(word, t), weights[t]);
    lemma_fsum_blocks(f, 16, 8);
    let blocks = |j: int| fsum(|c: int| f(j * 8 + c), 8);
    let entries = |byte: int|
        subset_sum(weights.subrange(8 * byte, 8 * byte + 8), word_byte(word, byte));
    assert forall|byte: int| 0 <= byte < 16 implies #[trigger] blocks(byte) == entries(byte) by {
        let part = weights.subrange(8 * byte, 8 * byte + 8);
        let g = |c: int| f(byte * 8 + c);
        let h = |j: int| fselect(nat_bit(word_byte(word, byte), j), part[j]);
        assert forall|c: int| 0 <= c < 8 implies #[trigger] g(c) == h(c) by {
            lemma_word_byte_bit(word, byte, c);
        }
        lemma_fsum_congr(g, h, 8);
    }
    lemma_fsum_congr(blocks, entries, 16);
}

impl LowMap {
    /// The contraction with the equality weights of the low coordinates.
    pub fn new(point: &[F128; 7]) -> (map: LowMap)
        ensures
            map.well_formed(),
            forall|word: F128| #[trigger]
                map.value(word) == word_value(Seq::new(128, |t: int| eq_weight(point@, t)), word),
    {
        proof {
            lemma2_to64();
        }
        let weights = eq_table(point.as_slice());
        let ghost ws = weights@;
        assert(ws =~= Seq::new(128, |t: int| eq_weight(point@, t)));
        let terms = nonzero_terms(&weights);
        if terms.len() <= 8 {
            return LowMap::Sparse(terms);
        }
        let tables = byte_tables(&weights);
        LowMap::Bytes(tables)
    }

    /// The word's bits under the weights.
    pub fn apply(&self, word: F128) -> (value: F128)
        requires
            self.well_formed(),
        ensures
            value == self.value(word),
    {
        match self {
            LowMap::Sparse(terms) => {
                let ghost f = |k: int| fselect(coefficient(word, terms@[k].0 as int), terms@[k].1);
                let mut value = F128::zero();
                let mut k: usize = 0;
                while k < terms.len()
                    invariant
                        k <= terms@.len(),
                        forall|k: int| 0 <= k < terms@.len() ==> (#[trigger] terms@[k]).0 < 128,
                        f == (|k: int|
                            fselect(coefficient(word, terms@[k].0 as int), terms@[k].1)),
                        value == fsum(f, k as int),
                    decreases terms@.len() - k,
                {
                    let (bit, weight) = terms[k];
                    assert(terms@[k as int].0 < 128);
                    let limb: u64 = if bit < 64 {
                        word.lo
                    } else {
                        word.hi
                    };
                    let ghost before = value;
                    if (limb >> ((bit % 64) as u64)) & 1 == 1 {
                        value = value + weight;
                    } else {
                        proof {
                            lemma_fadd_zero(before);
                        }
                    }
                    assert(value == fadd(before, f(k as int)));
                    k = k + 1;
                }
                value
            },
            LowMap::Bytes(tables) => {
                let ghost f = |k: int| tables@[k].1@[word_byte(word, tables@[k].0 as int)];
                let mut value = F128::zero();
                let mut k: usize = 0;
                while k < tables.len()
                    invariant
                        k <= tables@.len(),
                        forall|k: int|
                            0 <= k < tables@.len() ==> (#[trigger] tables@[k]).0 < 16
                                && tables@[k].1@.len() == 256,
                        f == (|k: int| tables@[k].1@[word_byte(word, tables@[k].0 as int)]),
                        value == fsum(f, k as int),
                    decreases tables@.len() - k,
                {
                    let byte: usize = tables[k].0;
                    let limb: u64 = if byte < 8 {
                        word.lo
                    } else {
                        word.hi
                    };
                    let shift: u64 = (8 * (byte % 8)) as u64;
                    proof {
                        lemma_byte_of_limb(limb, shift, 0);
                    }
                    let index: usize = ((limb >> shift) & 255) as usize;
                    value = value + tables[k].1[index];
                    k = k + 1;
                }
                value
            },
        }
    }
}

/// The nonzero weights with their positions.
fn nonzero_terms(weights: &Vec<F128>) -> (terms: Vec<(usize, F128)>)
    requires
        weights@.len() == 128,
    ensures
        forall|k: int| 0 <= k < terms@.len() ==> (#[trigger] terms@[k]).0 < 128,
        forall|word: F128| #[trigger] sparse_value(terms@, word) == word_value(weights@, word),
{
    let mut terms: Vec<(usize, F128)> = Vec::new();
    let mut t: usize = 0;
    while t < 128
        invariant
            weights@.len() == 128,
            t <= 128,
            forall|k: int| 0 <= k < terms@.len() ==> (#[trigger] terms@[k]).0 < 128,
            forall|word: F128| #[trigger]
                sparse_value(terms@, word) == fsum(
                    |u: int| fselect(coefficient(word, u), weights@[u]),
                    t as int,
                ),
        decreases 128 - t,
    {
        let weight = weights[t];
        let ghost before = terms@;
        if weight != F128::zero() {
            terms.push((t, weight));
        }
        proof {
            assert forall|word: F128| #[trigger] sparse_value(terms@, word) == fsum(
                |u: int| fselect(coefficient(word, u), weights@[u]),
                t + 1,
            ) by {
                let f = |u: int| fselect(coefficient(word, u), weights@[u]);
                assert(sparse_value(before, word) == fsum(f, t as int));
                let g = |k: int| fselect(coefficient(word, before[k].0 as int), before[k].1);
                let h = |k: int| fselect(coefficient(word, terms@[k].0 as int), terms@[k].1);
                lemma_fsum_congr(g, h, before.len() as int);
                if weight == fzero() {
                    lemma_fadd_zero(fsum(f, t as int));
                    assert(terms@ =~= before);
                } else {
                    assert(h(before.len() as int) == f(t as int));
                }
            }
        }
        t = t + 1;
    }
    terms
}

/// Whether all eight weights from `start` are zero.
fn all_zero(weights: &Vec<F128>, start: usize) -> (zero: bool)
    requires
        start + 8 <= weights@.len(),
    ensures
        zero == (forall|j: int| 0 <= j < 8 ==> #[trigger] weights@[start + j] == fzero()),
{
    let total: usize = weights.len();
    let mut j: usize = 0;
    while j < 8
        invariant
            total == weights@.len(),
            start + 8 <= total,
            j <= 8,
            forall|i: int| 0 <= i < j ==> #[trigger] weights@[start + i] == fzero(),
        decreases 8 - j,
    {
        if weights[start + j] != F128::zero() {
            return false;
        }
        j = j + 1;
    }
    true
}

/// The lookup tables of the bytes that carry a nonzero weight.
fn byte_tables(weights: &Vec<F128>) -> (tables: Vec<(usize, Vec<F128>)>)
    requires
        weights@.len() == 128,
    ensures
        forall|k: int|
            0 <= k < tables@.len() ==> (#[trigger] tables@[k]).0 < 16 && tables@[k].1@.len()
                == 256,
        forall|word: F128| #[trigger] bytes_value(tables@, word) == word_value(weights@, word),
{
    let mut tables: Vec<(usize, Vec<F128>)> = Vec::new();
    let mut byte: usize = 0;
    while byte < 16
        invariant
            weights@.len() == 128,
            byte <= 16,
            forall|k: int|
                0 <= k < tables@.len() ==> (#[trigger] tables@[k]).0 < 16 && tables@[k].1@.len()
                    == 256,
            forall|word: F128| #[trigger]
                bytes_value(tables@, word) == fsum(
                    |b: int|
                        subset_sum(weights@.subrange(8 * b, 8 * b + 8), word_byte(word, b)),
                    byte as int,
                ),
        decreases 16 - byte,
    {
        let ghost before = tables@;
        let empty = all_zero(weights, 8 * byte);
        if !empty {
            proof {
                lemma2_to64();
            }
            let table = subset_sums(
                F128::zero(),
                slice_subrange(weights.as_slice(), 8 * byte, 8 * byte + 8),
            );
            tables.push((byte, table));
        }
        proof {
            assert forall|word: F128| #[trigger] bytes_value(tables@, word) == fsum(
                |b: int| subset_sum(weights@.subrange(8 * b, 8 * b + 8), word_byte(word, b)),
                byte + 1,
            ) by {
                let f = |b: int|
                    subset_sum(weights@.subrange(8 * b, 8 * b + 8), word_byte(word, b));
                assert(bytes_value(before, word) == fsum(f, byte as int));
                let g = |k: int| before[k].1@[word_byte(word, before[k].0 as int)];
                let h = |k: int| tables@[k].1@[word_byte(word, tables@[k].0 as int)];
                lemma_fsum_congr(g, h, before.len() as int);
                lemma_word_byte_bit(word, byte as int, 0);
                if empty {
                    let part = weights@.subrange(8 * byte, 8 * byte + 8);
                    let e = |j: int|
                        fselect(nat_bit(word_byte(word, byte as int), j), part[j]);
                    assert forall|j: int| 0 <= j < 8 implies #[trigger] e(j) == fzero() by {
                        assert(weights@[8 * byte + j] == fzero());
                    }
                    lemma_fsum_zero(e, 8);
                    lemma_fadd_zero(fsum(f, byte as int));
                    assert(tables@ =~= before);
                } else {
                    lemma_fadd_zero(f(byte as int));
                    assert(h(before.len() as int) == f(byte as int));
                }
            }
        }
        byte = byte + 1;
    }
    proof {
        assert forall|word: F128| #[trigger] bytes_value(tables@, word) == word_value(
            weights@,
            word,
        ) by {
            lemma_value_by_bytes(weights@, word);
        }
    }
    tables
}

// ---------------------------------------------------------------------------
// The high coordinates.
// ---------------------------------------------------------------------------

/// The address that the one-coordinates of a high point select.
pub open spec fn fixed_address(high: Seq<F128>) -> int
    decreases high.len(),
{
    if high.len() == 0 {
        0
    } else {
        fixed_address(high.drop_first()) + if high[0] == fone() {
            pow2((high.len() - 1) as nat) as int
        } else {
            0
        }
    }
}

/// The free coordinates of a high point, with the address bits they bind.
pub open spec fn free_coordinates(high: Seq<F128>) -> Seq<(usize, F128)>
    decreases high.len(),
{
    if high.len() == 0 {
        Seq::empty()
    } else if high[0] == fone() || high[0] == fzero() {
        free_coordinates(high.drop_first())
    } else {
        seq![((high.len() - 1) as usize, high[0])] + free_coordinates(high.drop_first())
    }
}

/// The coordinates of a free list.
pub open spec fn free_point(free: Seq<(usize, F128)>) -> Seq<F128> {
    Seq::new(free.len(), |k: int| free[k].1)
}

/// The address of corner `i` of a free list, first entry most significant.
pub open spec fn free_address(free: Seq<(usize, F128)>, i: int) -> int
    decreases free.len(),
{
    if free.len() == 0 {
        0
    } else {
        let half = pow2((free.len() - 1) as nat) as int;
        if i >= half {
            pow2(free[0].0 as nat) + free_address(free.drop_first(), i - half)
        } else {
            free_address(free.drop_first(), i)
        }
    }
}

/// Bits in decreasing order below `vars`.
pub open spec fn free_below(free: Seq<(usize, F128)>, vars: int) -> bool {
    &&& forall|k: int| 0 <= k < free.len() ==> (#[trigger] free[k]).0 < vars
    &&& forall|j: int, k: int|
        #![trigger free[j], free[k]]
        0 <= j < k < free.len() ==> free[k].0 < free[j].0
}

proof fn lemma_free_below_rest(free: Seq<(usize, F128)>, vars: int)
    requires
        free_below(free, vars),
        free.len() > 0,
    ensures
        free_below(free.drop_first(), free[0].0 as int),
        free[0].0 < vars,
{
    let rest = free.drop_first();
    assert forall|k: int| 0 <= k < rest.len() implies (#[trigger] rest[k]).0 < free[0].0 by {
        assert(rest[k] == free[k + 1]);
    }
    assert forall|j: int, k: int|
        #![trigger rest[j], rest[k]]
        0 <= j < k < rest.len() implies rest[k].0 < rest[j].0 by {
        assert(rest[j] == free[j + 1] && rest[k] == free[k + 1]);
    }
}

proof fn lemma_free_address_range(free: Seq<(usize, F128)>, vars: nat, i: int)
    requires
        free_below(free, vars as int),
        0 <= i < pow2(free.len()),
    ensures
        0 <= free_address(free, i) < pow2(vars),
        free.len() <= vars,
    decreases free.len(),
{
    lemma_pow2_pos(vars);
    if free.len() > 0 {
        lemma_free_below_rest(free, vars as int);
        let bit = free[0].0 as nat;
        lemma_pow2_unfold(free.len());
        let half = pow2((free.len() - 1) as nat) as int;
        let k = if i >= half {
            i - half
        } else {
            i
        };
        lemma_free_address_range(free.drop_first(), bit, k);
        lemma_pow2_unfold(bit + 1);
        if bit + 1 < vars {
            lemma_pow2_strictly_increases(bit + 1, vars);
        }
    }
}

pub proof fn lemma_free_coordinates_below(high: Seq<F128>)
    requires
        high.len() <= usize::MAX,
    ensures
        free_below(free_coordinates(high), high.len() as int),
    decreases high.len(),
{
    if high.len() > 0 {
        let rest = free_coordinates(high.drop_first());
        lemma_free_coordinates_below(high.drop_first());
        let free = free_coordinates(high);
        if high[0] != fone() && high[0] != fzero() {
            assert forall|k: int| 0 <= k < free.len() implies (#[trigger] free[k]).0 < high.len() by {
                if k > 0 {
                    assert(free[k] == rest[k - 1]);
                }
            }
            assert forall|j: int, k: int|
                #![trigger free[j], free[k]]
                0 <= j < k < free.len() implies free[k].0 < free[j].0 by {
                assert(free[k] == rest[k - 1]);
                if j > 0 {
                    assert(free[j] == rest[j - 1]);
                }
            }
        }
    }
}

/// The sum of a function of the address under the equality weights of a high
/// point is the sum over the corners of its free coordinates, from the address
/// that the fixed ones select.
pub proof fn lemma_high_sum(high: Seq<F128>, f: spec_fn(int) -> F128)
    requires
        high.len() <= usize::MAX,
    ensures
        fsum(|h: int| fmul(eq_weight(high, h), f(h)), pow2(high.len()) as int) == fsum(
            |i: int|
                fmul(
                    eq_weight(free_point(free_coordinates(high)), i),
                    f(fixed_address(high) + free_address(free_coordinates(high), i)),
                ),
            pow2(free_coordinates(high).len()) as int,
        ),
    decreases high.len(),
{
    lemma2_to64();
    let left = |h: int| fmul(eq_weight(high, h), f(h));
    let free = free_coordinates(high);
    let point = free_point(free);
    let base = fixed_address(high);
    let right = |i: int| fmul(eq_weight(point, i), f(base + free_address(free, i)));
    if high.len() == 0 {
        reveal_with_fuel(fsum, 2);
        assert(point =~= Seq::<F128>::empty());
        assert(high =~= Seq::<F128>::empty());
    } else {
        let n = pow2((high.len() - 1) as nat) as int;
        lemma_pow2_unfold(high.len());
        let r = high[0];
        let rest = high.drop_first();
        let rest_free = free_coordinates(rest);
        let rest_point = free_point(rest_free);
        let rest_base = fixed_address(rest);
        let shifted = |h: int| f(n + h);
        lemma_high_sum(rest, f);
        lemma_high_sum(rest, shifted);
        let low = |h: int| fmul(eq_weight(rest, h), f(h));
        let high_part = |h: int| fmul(eq_weight(rest, h), shifted(h));
        // The sum splits at the leading coordinate.
        let upper = |i: int| left(n + i);
        let scaled_low = |h: int| fmul(fadd(fone(), r), low(h));
        let scaled_high = |h: int| fmul(r, high_part(h));
        assert forall|h: int| 0 <= h < n implies #[trigger] left(h) == scaled_low(h) by {
            lemma_eq_weight_first(high, false, h);
            lemma_fmul_assoc(fadd(fone(), r), eq_weight(rest, h), f(h));
        }
        assert forall|h: int| 0 <= h < n implies #[trigger] upper(h) == scaled_high(h) by {
            lemma_eq_weight_first(high, true, h);
            lemma_fmul_assoc(r, eq_weight(rest, h), shifted(h));
        }
        lemma_fsum_split(left, n, n);
        lemma_fsum_congr(upper, |i: int| left(n + i), n);
        lemma_fsum_congr(left, scaled_low, n);
        lemma_fsum_congr(upper, scaled_high, n);
        lemma_fsum_scale(fadd(fone(), r), low, n);
        lemma_fsum_scale(r, high_part, n);
        let a = fsum(low, n);
        let b = fsum(high_part, n);
        let m = pow2(rest_free.len()) as int;
        let rest_low = |i: int|
            fmul(eq_weight(rest_point, i), f(rest_base + free_address(rest_free, i)));
        let rest_high = |i: int|
            fmul(eq_weight(rest_point, i), shifted(rest_base + free_address(rest_free, i)));
        assert(a == fsum(rest_low, m));
        assert(b == fsum(rest_high, m));
        if r == fzero() {
            lemma_fadd_zero(fone());
            lemma_fmul_one(a);
            lemma_fmul_zero(b);
            lemma_fadd_zero(a);
            lemma_fsum_congr(right, rest_low, m);
        } else if r == fone() {
            lemma_fadd_self(fone());
            lemma_fmul_zero(a);
            lemma_fmul_one(b);
            lemma_fadd_zero(b);
            lemma_fadd_comm(fzero(), b);
            lemma_fsum_congr(right, rest_high, m);
        } else {
            assert(free.drop_first() =~= rest_free);
            assert(point.drop_first() =~= rest_point);
            assert(free.len() == rest_free.len() + 1);
            lemma_pow2_unfold(free.len());
            lemma_pow2_pos(rest_free.len());
            lemma_fsum_split(right, m, m);
            let right_upper = |i: int| right(m + i);
            let free_low = |i: int| fmul(fadd(fone(), r), rest_low(i));
            let free_high = |i: int| fmul(r, rest_high(i));
            assert forall|i: int| 0 <= i < m implies #[trigger] right(i) == free_low(i) by {
                lemma_eq_weight_first(point, false, i);
                lemma_fmul_assoc(
                    fadd(fone(), r),
                    eq_weight(rest_point, i),
                    f(rest_base + free_address(rest_free, i)),
                );
            }
            assert forall|i: int| 0 <= i < m implies #[trigger] right_upper(i) == free_high(i) by {
                lemma_eq_weight_first(point, true, i);
                assert(free_address(free, m + i) == n + free_address(rest_free, i));
                lemma_fmul_assoc(
                    r,
                    eq_weight(rest_point, i),
                    shifted(rest_base + free_address(rest_free, i)),
                );
                assert(n + (rest_base + free_address(rest_free, i)) == base + free_address(
                    free,
                    m + i,
                ));
            }
            lemma_fsum_congr(right_upper, |i: int| right(m + i), m);
            lemma_fsum_congr(right, free_low, m);
            lemma_fsum_congr(right_upper, free_high, m);
            lemma_fsum_scale(fadd(fone(), r), rest_low, m);
            lemma_fsum_scale(r, rest_high, m);
        }
    }
}

/// The corners of a free list: their addresses and equality weights.
pub fn high_tensor(free: &Vec<(usize, F128)>, vars: usize) -> (result: (Vec<usize>, Vec<F128>))
    requires
        free_below(free@, vars as int),
        pow2(vars as nat) <= usize::MAX,
    ensures
        result.0@.len() == pow2(free@.len()),
        result.1@.len() == pow2(free@.len()),
        forall|i: int|
            0 <= i < pow2(free@.len()) ==> #[trigger] result.0@[i] == free_address(free@, i),
        forall|i: int|
            0 <= i < pow2(free@.len()) ==> #[trigger] result.1@[i] == eq_weight(
                free_point(free@),
                i,
            ),
{
    let mut addresses: Vec<usize> = Vec::new();
    let mut weights: Vec<F128> = Vec::new();
    addresses.push(0);
    weights.push(F128::one());
    let mut done: usize = 0;
    let total: usize = free.len();
    proof {
        lemma2_to64();
        assert(free@.skip(total as int) =~= Seq::<(usize, F128)>::empty());
        assert(free_point(free@.skip(total as int)) =~= Seq::<F128>::empty());
    }
    while done < total
        invariant
            total == free@.len(),
            done <= total,
            free_below(free@, vars as int),
            pow2(vars as nat) <= usize::MAX,
            addresses@.len() == pow2(done as nat),
            weights@.len() == pow2(done as nat),
            forall|i: int|
                0 <= i < addresses@.len() ==> #[trigger] addresses@[i] == free_address(
                    free@.skip(total - done),
                    i,
                ),
            forall|i: int|
                0 <= i < weights@.len() ==> #[trigger] weights@[i] == eq_weight(
                    free_point(free@.skip(total - done)),
                    i,
                ),
        decreases total - done,
    {
        let (bit, r) = free[total - 1 - done];
        let ghost rest = free@.skip(total - done);
        let ghost part = free@.skip(total - 1 - done);
        let ghost m = pow2(done as nat) as int;
        proof {
            assert(part.drop_first() =~= rest);
            assert(part[0] == free@[total - 1 - done]);
            assert(free_point(part).drop_first() =~= free_point(rest));
            lemma_skip_below(free@, vars as int, total - 1 - done);
            lemma_pow2_unfold((done + 1) as nat);
            assert(bit < vars) by {
                assert(part[0].0 < vars);
            }
            lemma_pow2_strictly_increases(bit as nat, vars as nat);
        }
        let power: usize = power_of_two(bit);
        let size: usize = addresses.len();
        let mut low_weights: Vec<F128> = Vec::new();
        let mut high_weights: Vec<F128> = Vec::new();
        let mut i: usize = 0;
        while i < size
            invariant
                i <= size,
                size == m,
                m == pow2(done as nat),
                part.len() == done + 1,
                part.drop_first() == rest,
                part[0] == (bit, r),
                free_below(part, vars as int),
                pow2(vars as nat) <= usize::MAX,
                power == pow2(bit as nat),
                free_point(part).drop_first() == free_point(rest),
                pow2((done + 1) as nat) == 2 * m,
                addresses@.len() == size + i,
                weights@.len() == size,
                low_weights@.len() == i,
                high_weights@.len() == i,
                forall|k: int|
                    0 <= k < size ==> #[trigger] addresses@[k] == free_address(rest, k),
                forall|k: int|
                    size <= k < size + i ==> #[trigger] addresses@[k] == free_address(part, k),
                forall|k: int|
                    0 <= k < size ==> #[trigger] weights@[k] == eq_weight(free_point(rest), k),
                forall|k: int|
                    0 <= k < i ==> #[trigger] low_weights@[k] == eq_weight(free_point(part), k),
                forall|k: int|
                    0 <= k < i ==> #[trigger] high_weights@[k] == eq_weight(
                        free_point(part),
                        m + k,
                    ),
            decreases size - i,
        {
            let weight = weights[i];
            let high = weight * r;
            proof {
                lemma_free_address_range(part, vars as nat, m + i);
                assert(free_address(part, m + i) == power + free_address(rest, i as int));
                assert(free_point(part)[0] == r);
                lemma_eq_weight_first(free_point(part), false, i as int);
                lemma_eq_weight_first(free_point(part), true, i as int);
                lemma_fmul_distr(weight, fone(), r);
                lemma_fmul_one(weight);
                lemma_fmul_comm(weight, fadd(fone(), r));
                lemma_fmul_comm(weight, r);
            }
            addresses.push(addresses[i] + power);
            low_weights.push(weight + high);
            high_weights.push(high);
            i = i + 1;
        }
        let ghost lows = low_weights@;
        let ghost highs = high_weights@;
        low_weights.append(&mut high_weights);
        weights = low_weights;
        proof {
            assert(weights@ =~= lows + highs);
            assert forall|k: int| 0 <= k < weights@.len() implies #[trigger] weights@[k]
                == eq_weight(free_point(part), k) by {
                if k >= m {
                    assert(highs[k - m] == eq_weight(free_point(part), m + (k - m)));
                } else {
                    assert(lows[k] == eq_weight(free_point(part), k));
                }
            }
            assert forall|k: int| 0 <= k < addresses@.len() implies #[trigger] addresses@[k]
                == free_address(part, k) by {
                if k < m {
                    assert(addresses@[k] == free_address(rest, k));
                }
            }
        }
        done = done + 1;
    }
    assert(free@.skip(0) =~= free@);
    (addresses, weights)
}

proof fn lemma_skip_below(free: Seq<(usize, F128)>, vars: int, n: int)
    requires
        free_below(free, vars),
        0 <= n <= free.len(),
    ensures
        free_below(free.skip(n), vars),
{
    let part = free.skip(n);
    assert forall|k: int| 0 <= k < part.len() implies (#[trigger] part[k]).0 < vars by {
        assert(part[k] == free[k + n]);
    }
    assert forall|j: int, k: int|
        #![trigger part[j], part[k]]
        0 <= j < k < part.len() implies part[k].0 < part[j].0 by {
        assert(part[j] == free[j + n] && part[k] == free[k + n]);
    }
}

// ---------------------------------------------------------------------------
// Evaluation.
// ---------------------------------------------------------------------------

/// The high coordinates of a point: all but the last seven.
pub open spec fn high_part(point: Seq<F128>) -> Seq<F128> {
    if point.len() <= 7 {
        Seq::empty()
    } else {
        point.take(point.len() - 7)
    }
}

/// The low coordinates of a point, with zeros for the missing ones.
pub open spec fn low_part(point: Seq<F128>) -> Seq<F128> {
    if point.len() < 7 {
        Seq::new((7 - point.len()) as nat, |i: int| fzero()) + point
    } else {
        point.skip(point.len() - 7)
    }
}

/// A point split by what its coordinates select.
struct Split {
    fixed: usize,
    free: Vec<(usize, F128)>,
    low: [F128; 7],
}

impl Split {
    spec fn of(self, point: Seq<F128>) -> bool {
        &&& self.fixed == fixed_address(high_part(point))
        &&& self.free@ == free_coordinates(high_part(point))
        &&& self.low@ == low_part(point)
    }
}

pub proof fn lemma_fixed_range(high: Seq<F128>)
    ensures
        0 <= fixed_address(high) < pow2(high.len()),
    decreases high.len(),
{
    lemma2_to64();
    if high.len() > 0 {
        lemma_fixed_range(high.drop_first());
        lemma_pow2_unfold(high.len());
    }
}

/// Split a point into its fixed address, its free coordinates and its low
/// coordinates.
fn split_point(point: &Vec<F128>) -> (split: Split)
    requires
        pow2(point@.len()) <= usize::MAX,
    ensures
        split.of(point@),
{
    let vars: usize = point.len();
    proof {
        lemma_exponent_fits(point@.len());
    }
    let mut low: [F128; 7] = [F128::zero(); 7];
    let mut k: usize = 0;
    while k < 7
        invariant
            vars == point@.len(),
            vars < 64,
            k <= 7,
            forall|i: int| 0 <= i < k ==> #[trigger] low@[i] == low_part(point@)[i],
            forall|i: int| k <= i < 7 ==> #[trigger] low@[i] == fzero(),
        decreases 7 - k,
    {
        if k + vars >= 7 {
            low[k] = point[k + vars - 7];
        }
        k = k + 1;
    }
    assert(low@ =~= low_part(point@));
    let ghost high = high_part(point@);
    let n: usize = if vars <= 7 {
        0
    } else {
        vars - 7
    };
    let mut fixed: usize = 0;
    let mut reversed: Vec<(usize, F128)> = Vec::new();
    let mut done: usize = 0;
    proof {
        assert(high.skip(n as int) =~= Seq::<F128>::empty());
    }
    while done < n
        invariant
            vars == point@.len(),
            pow2(vars as nat) <= usize::MAX,
            high == high_part(point@),
            high.len() == n,
            n <= vars,
            done <= n,
            fixed == fixed_address(high.skip(n - done)),
            reversed@.len() == free_coordinates(high.skip(n - done)).len(),
            forall|i: int|
                0 <= i < reversed@.len() ==> #[trigger] reversed@[i] == free_coordinates(
                    high.skip(n - done),
                )[reversed@.len() - 1 - i],
        decreases n - done,
    {
        let r = point[n - 1 - done];
        let ghost rest = high.skip(n - done);
        let ghost part = high.skip(n - 1 - done);
        let ghost before = reversed@;
        proof {
            assert(part.drop_first() =~= rest);
            assert(part[0] == r);
            lemma_fixed_range(part);
            assert(part.len() == done + 1);
            lemma_pow2_strictly_increases(done as nat, vars as nat);
            if done + 1 < vars {
                lemma_pow2_strictly_increases((done + 1) as nat, vars as nat);
            }
            lemma_pow2_unfold((done + 1) as nat);
            lemma_fixed_range(rest);
            assert(fone() != fzero());
        }
        if r == F128::one() {
            fixed = fixed + power_of_two(done);
        } else if r != F128::zero() {
            reversed.push((done, r));
        }
        proof {
            let now = free_coordinates(part);
            if r != fone() && r != fzero() {
                assert forall|i: int| 0 <= i < reversed@.len() implies #[trigger] reversed@[i]
                    == now[reversed@.len() - 1 - i] by {
                    if i < before.len() {
                        assert(reversed@[i] == before[i]);
                        assert(now[reversed@.len() - 1 - i] == free_coordinates(
                            rest,
                        )[before.len() - 1 - i]);
                    }
                }
            }
        }
        done = done + 1;
    }
    assert(high.skip(0) =~= high);
    let total: usize = reversed.len();
    let mut free: Vec<(usize, F128)> = Vec::new();
    let mut j: usize = 0;
    while j < total
        invariant
            total == reversed@.len(),
            total == free_coordinates(high).len(),
            j <= total,
            free@.len() == j,
            forall|i: int|
                0 <= i < total ==> #[trigger] reversed@[i] == free_coordinates(high)[total - 1 - i],
            forall|i: int| 0 <= i < j ==> #[trigger] free@[i] == free_coordinates(high)[i],
        decreases total - j,
    {
        free.push(reversed[total - 1 - j]);
        j = j + 1;
    }
    assert(free@ =~= free_coordinates(high));
    Split { fixed, free, low }
}

/// The target: the bit table's multilinear extension at the point.
spec fn target(words: Seq<F128>, point: Seq<F128>) -> F128 {
    mle(bit_table(leading_bits(words, pow2(point.len()))), point)
}

/// Leading zero coordinates of the low part select the first bits.
proof fn lemma_low_padding(words: Seq<F128>, point: Seq<F128>, missing: nat)
    requires
        missing + point.len() == 7,
        words.len() >= 1,
    ensures
        fsum(
            |t: int|
                fmul(
                    bit_value(packed_bit(words, t)),
                    eq_weight(Seq::new(missing, |i: int| fzero()) + point, t),
                ),
            128,
        ) == fsum(
            |t: int| fmul(bit_value(packed_bit(words, t)), eq_weight(point, t)),
            pow2(point.len()) as int,
        ),
{
    lemma2_to64();
    let n = pow2(point.len()) as int;
    let zeros = Seq::new(missing, |i: int| fzero());
    let f = |t: int| fmul(bit_value(packed_bit(words, t)), eq_weight(zeros + point, t));
    let g = |t: int| fmul(bit_value(packed_bit(words, t)), eq_weight(point, t));
    lemma_pow2_adds(missing, point.len());
    lemma_pow2_pos(point.len());
    let m = pow2(missing) as int;
    lemma_pow2_pos(missing);
    assert(n * m == 128) by {
        assert(n * m == m * n) by (nonlinear_arith);
    }
    assert(n <= 128) by (nonlinear_arith)
        requires
            n * m == 128,
            m >= 1,
            n >= 0,
    ;
    lemma_fsum_split(f, n, 128 - n);
    assert forall|t: int| 0 <= t < n implies #[trigger] f(t) == g(t) by {
        lemma_eq_weight_concat(zeros, point, t);
        vstd::arithmetic::div_mod::lemma_fundamental_div_mod_converse(t, n, 0, t);
        lemma_zero_corner(missing, 0);
        lemma_fmul_one(eq_weight(point, t));
    }
    lemma_fsum_congr(f, g, n);
    let tail = |i: int| f(n + i);
    assert forall|i: int| 0 <= i < 128 - n implies #[trigger] tail(i) == fzero() by {
        let t = n + i;
        lemma_eq_weight_concat(zeros, point, t);
        vstd::arithmetic::div_mod::lemma_div_is_ordered(n, t, n);
        vstd::arithmetic::div_mod::lemma_div_by_self(n);
        vstd::arithmetic::div_mod::lemma_fundamental_div_mod(t, n);
        vstd::arithmetic::div_mod::lemma_mod_bound(t, n);
        let q = t / n;
        assert(q < m) by (nonlinear_arith)
            requires
                t == n * q + t % n,
                t < n * m,
                0 <= t % n,
                0 < n,
        ;
        lemma_zero_corner(missing, q);
        lemma_fmul_zero(eq_weight(point, t % n));
        lemma_fmul_zero(bit_value(packed_bit(words, t)));
    }
    lemma_fsum_zero(tail, 128 - n);
    lemma_fsum_congr(tail, |i: int| f(n + i), 128 - n);
    lemma_fadd_zero(fsum(f, n));
}

/// The zero point weighs only the first corner.
proof fn lemma_zero_corner(n: nat, i: int)
    requires
        0 <= i < pow2(n),
    ensures
        eq_weight(Seq::new(n, |i: int| fzero()), i) == (if i == 0 {
            fone()
        } else {
            fzero()
        }),
    decreases n,
{
    lemma2_to64();
    let zeros = Seq::new(n, |i: int| fzero());
    if n > 0 {
        lemma_pow2_unfold(n);
        assert(zeros.drop_last() =~= Seq::new((n - 1) as nat, |i: int| fzero()));
        lemma_zero_corner((n - 1) as nat, i / 2);
        lemma_fadd_zero(fone());
        lemma_fmul_one(fone());
        lemma_fmul_zero(fone());
        lemma_fmul_zero(fzero());
    }
}

/// The contraction of the word at an address.
spec fn contracted(words: Seq<F128>, low: Seq<F128>, address: int) -> F128 {
    word_value(Seq::new(128, |t: int| eq_weight(low, t)), words[address])
}

/// The multilinear extension is the sum of the contracted words under the
/// high equality weights.
proof fn lemma_target_by_words(words: Seq<F128>, point: Seq<F128>)
    requires
        128 * words.len() >= pow2(point.len()),
        words.len() >= 1,
    ensures
        target(words, point) == fsum(
            |h: int|
                fmul(
                    eq_weight(high_part(point), h),
                    contracted(words, low_part(point), h),
                ),
            pow2(high_part(point).len()) as int,
        ),
{
    lemma2_to64();
    let vars = point.len();
    let high = high_part(point);
    let low = low_part(point);
    let bits = leading_bits(words, pow2(vars));
    let table = bit_table(bits);
    lemma_mle_is_weighted_sum(table, point);
    let f = |i: int| fmul(table[i], eq_weight(point, i));
    let rows = |h: int| fmul(eq_weight(high, h), contracted(words, low, h));
    let weights = Seq::new(128, |t: int| eq_weight(low, t));
    if vars < 7 {
        lemma_low_padding(words, point, (7 - vars) as nat);
        let g = |t: int| fmul(bit_value(packed_bit(words, t)), eq_weight(point, t));
        lemma_fsum_congr(f, g, pow2(vars) as int);
        let h = |t: int| fmul(bit_value(packed_bit(words, t)), eq_weight(low, t));
        let k = |t: int| fselect(coefficient(words[0], t), weights[t]);
        assert forall|t: int| 0 <= t < 128 implies #[trigger] h(t) == k(t) by {
            lemma_fmul_one(eq_weight(low, t));
            lemma_fmul_zero(eq_weight(low, t));
        }
        lemma_fsum_congr(h, k, 128);
        lemma_fsum_congr(
            |t: int|
                fmul(
                    bit_value(packed_bit(words, t)),
                    eq_weight(Seq::new((7 - vars) as nat, |i: int| fzero()) + point, t),
                ),
            h,
            128,
        );
        reveal_with_fuel(fsum, 2);
        lemma_fmul_one(contracted(words, low, 0));
        lemma_fadd_zero(contracted(words, low, 0));
    } else {
        let n = pow2(high.len()) as int;
        lemma_pow2_adds(high.len(), 7);
        assert(high + low =~= point);
        assert(low.len() == 7);
        lemma_fsum_blocks(f, n, 128);
        let blocks = |j: int| fsum(|c: int| f(j * 128 + c), 128);
        assert forall|j: int| 0 <= j < n implies #[trigger] blocks(j) == rows(j) by {
            let inner = |t: int| fselect(coefficient(words[j], t), weights[t]);
            let scaled = |t: int| fmul(eq_weight(high, j), inner(t));
            let block = |c: int| f(j * 128 + c);
            lemma_fsum_scale(eq_weight(high, j), inner, 128);
            assert forall|t: int| 0 <= t < 128 implies #[trigger] scaled(t) == block(t) by {
                let p = j * 128 + t;
                assert(p / 128 == j && p % 128 == t);
                lemma_eq_weight_concat(high, low, p);
                let w = eq_weight(high, j);
                let v = eq_weight(low, t);
                lemma_fmul_one(fmul(w, v));
                lemma_fmul_zero(fmul(w, v));
                lemma_fmul_zero(w);
            }
            lemma_fsum_congr(scaled, block, 128);
        }
        lemma_fsum_congr(blocks, rows, n);
    }
}

/// The contracted words at the selected addresses under the free weights.
fn weighted_words(
    words: &[F128],
    map: &LowMap,
    fixed: usize,
    addresses: &Vec<usize>,
    weights: &Vec<F128>,
    point: Ghost<Seq<F128>>,
) -> (sum: F128)
    requires
        pow2(point@.len()) <= usize::MAX,
        128 * words@.len() >= pow2(point@.len()),
        words@.len() >= 1,
        map.well_formed(),
        forall|word: F128| #[trigger]
            map.value(word) == word_value(
                Seq::new(128, |t: int| eq_weight(low_part(point@), t)),
                word,
            ),
        fixed == fixed_address(high_part(point@)),
        addresses@.len() == pow2(free_coordinates(high_part(point@)).len()),
        weights@.len() == addresses@.len(),
        forall|i: int|
            0 <= i < addresses@.len() ==> #[trigger] addresses@[i] == free_address(
                free_coordinates(high_part(point@)),
                i,
            ),
        forall|i: int|
            0 <= i < weights@.len() ==> #[trigger] weights@[i] == eq_weight(
                free_point(free_coordinates(high_part(point@))),
                i,
            ),
    ensures
        sum == target(words@, point@),
{
    let ghost high = high_part(point@);
    let ghost low = low_part(point@);
    let ghost free = free_coordinates(high);
    let ghost f = |a: int| contracted(words@, low, a);
    let ghost g = |i: int|
        fmul(eq_weight(free_point(free), i), f(fixed_address(high) + free_address(free, i)));
    let total: usize = words.len();
    proof {
        lemma_exponent_fits(point@.len());
    }
    let mut sum = F128::zero();
    let mut i: usize = 0;
    while i < addresses.len()
        invariant
            total == words@.len(),
            pow2(point@.len()) <= usize::MAX,
            128 * words@.len() >= pow2(point@.len()),
            words@.len() >= 1,
            map.well_formed(),
            high == high_part(point@),
            low == low_part(point@),
            free == free_coordinates(high),
            forall|word: F128| #[trigger]
                map.value(word) == word_value(Seq::new(128, |t: int| eq_weight(low, t)), word),
            f == (|a: int| contracted(words@, low, a)),
            g == (|i: int|
                fmul(eq_weight(free_point(free), i), f(fixed_address(high) + free_address(free, i)))),
            fixed == fixed_address(high),
            addresses@.len() == pow2(free.len()),
            weights@.len() == addresses@.len(),
            forall|i: int|
                0 <= i < addresses@.len() ==> #[trigger] addresses@[i] == free_address(free, i),
            forall|i: int|
                0 <= i < weights@.len() ==> #[trigger] weights@[i] == eq_weight(free_point(free), i),
            i <= addresses@.len(),
            sum == fsum(g, i as int),
        decreases addresses@.len() - i,
    {
        proof {
            lemma_selected_address(words@, point@, i as int);
        }
        let value = map.apply(words[fixed + addresses[i]]);
        proof {
            let a = fixed + addresses@[i as int];
            assert(value == contracted(words@, low, a));
            lemma_fmul_comm(value, weights@[i as int]);
        }
        sum = sum + value * weights[i];
        i = i + 1;
    }
    proof {
        lemma_high_sum(high, f);
        lemma_target_by_words(words@, point@);
        lemma_fsum_congr(
            |h: int| fmul(eq_weight(high, h), f(h)),
            |h: int| fmul(eq_weight(high, h), contracted(words@, low, h)),
            pow2(high.len()) as int,
        );
    }
    sum
}

/// The selected addresses lie in the packed words.
proof fn lemma_selected_address(words: Seq<F128>, point: Seq<F128>, i: int)
    requires
        pow2(point.len()) <= usize::MAX,
        128 * words.len() >= pow2(point.len()),
        words.len() >= 1,
        0 <= i < pow2(free_coordinates(high_part(point)).len()),
    ensures
        0 <= fixed_address(high_part(point)) + free_address(
            free_coordinates(high_part(point)),
            i,
        ) < words.len(),
{
    lemma2_to64();
    let high = high_part(point);
    lemma_exponent_fits(point.len());
    lemma_selected_sum(high, i);
    if point.len() > 7 {
        lemma_pow2_adds(high.len(), 7);
    }
}

pub proof fn lemma_exponent_fits(n: nat)
    requires
        pow2(n) <= usize::MAX,
    ensures
        n < 64,
{
    lemma2_to64();
    if n >= 64 {
        if n > 64 {
            lemma_pow2_strictly_increases(64, n);
        }
    }
}

pub proof fn lemma_selected_sum(high: Seq<F128>, i: int)
    requires
        high.len() <= usize::MAX,
        0 <= i < pow2(free_coordinates(high).len()),
    ensures
        0 <= free_address(free_coordinates(high), i),
        0 <= fixed_address(high) + free_address(free_coordinates(high), i) < pow2(high.len()),
    decreases high.len(),
{
    lemma2_to64();
    let free = free_coordinates(high);
    lemma_free_coordinates_below(high);
    lemma_free_address_range(free, high.len(), i);
    lemma_fixed_range(high);
    if high.len() > 0 {
        let rest = high.drop_first();
        lemma_pow2_unfold(high.len());
        if high[0] == fone() || high[0] == fzero() {
            lemma_selected_sum(rest, i);
        } else {
            assert(free.drop_first() =~= free_coordinates(rest));
            lemma_pow2_unfold(free.len());
            let half = pow2((free.len() - 1) as nat) as int;
            if i >= half {
                lemma_selected_sum(rest, i - half);
            } else {
                lemma_selected_sum(rest, i);
            }
        }
    }
}

/// Whether two free lists are equal.
pub fn same_free(a: &Vec<(usize, F128)>, b: &Vec<(usize, F128)>) -> (same: bool)
    ensures
        same == (a@ == b@),
{
    if a.len() != b.len() {
        return false;
    }
    let mut i: usize = 0;
    while i < a.len()
        invariant
            a@.len() == b@.len(),
            i <= a@.len(),
            forall|k: int| 0 <= k < i ==> #[trigger] a@[k] == b@[k],
        decreases a@.len() - i,
    {
        if a[i].0 != b[i].0 || a[i].1 != b[i].1 {
            assert(a@[i as int] != b@[i as int]);
            return false;
        }
        i = i + 1;
    }
    assert(a@ =~= b@);
    true
}

/// Whether two low points are equal.
fn same_low(a: &[F128; 7], b: &[F128; 7]) -> (same: bool)
    ensures
        same == (a@ == b@),
{
    let mut i: usize = 0;
    while i < 7
        invariant
            i <= 7,
            forall|k: int| 0 <= k < i ==> #[trigger] a@[k] == b@[k],
        decreases 7 - i,
    {
        if a[i] != b[i] {
            assert(a@[i as int] != b@[i as int]);
            return false;
        }
        i = i + 1;
    }
    assert(a@ =~= b@);
    true
}

/// The maps built so far, each with the low point it belongs to.
struct LowMaps {
    entries: Vec<([F128; 7], LowMap)>,
}

impl LowMaps {
    spec fn well_formed(self) -> bool {
        forall|k: int|
            0 <= k < self.entries@.len() ==> map_of(#[trigger] self.entries@[k].1, self.entries@[k].0@)
    }

    /// The index of the map of a low point, built on first use.
    fn find(&mut self, low: &[F128; 7]) -> (index: usize)
        requires
            old(self).well_formed(),
        ensures
            final(self).well_formed(),
            index < final(self).entries@.len(),
            final(self).entries@[index as int].0@ == low@,
    {
        let mut k: usize = 0;
        while k < self.entries.len()
            invariant
                self.well_formed(),
                *self == *old(self),
                k <= self.entries@.len(),
            decreases self.entries@.len() - k,
        {
            if same_low(&self.entries[k].0, low) {
                return k;
            }
            k = k + 1;
        }
        let map = LowMap::new(low);
        let ghost before = self.entries@;
        self.entries.push((*low, map));
        proof {
            assert forall|j: int| 0 <= j < self.entries@.len() implies map_of(
                #[trigger] self.entries@[j].1,
                self.entries@[j].0@,
            ) by {
                if j < before.len() {
                    assert(self.entries@[j] == before[j]);
                    assert(map_of(before[j].1, before[j].0@));
                }
            }
        }
        self.entries.len() - 1
    }
}

/// The map contracts with the weights of the low point.
spec fn map_of(map: LowMap, low: Seq<F128>) -> bool {
    &&& map.well_formed()
    &&& forall|word: F128| #[trigger]
        map.value(word) == word_value(Seq::new(128, |t: int| eq_weight(low, t)), word)
}

/// Evaluate MSB-first points of one dimension, sharing the high tensor among
/// points with equal free coordinates and the word maps among equal low ones.
fn evaluate(vars: usize, points: &[Vec<F128>], words: &[F128]) -> (values: Vec<F128>)
    requires
        pow2(vars as nat) <= usize::MAX,
        128 * words@.len() >= pow2(vars as nat),
        forall|k: int| 0 <= k < points@.len() ==> (#[trigger] points@[k])@.len() == vars,
    ensures
        values@ == Seq::new(points@.len(), |k: int| target(words@, points@[k]@)),
{
    let count: usize = points.len();
    let mut splits: Vec<Split> = Vec::new();
    let mut values: Vec<F128> = Vec::new();
    let mut done: Vec<bool> = Vec::new();
    let mut k: usize = 0;
    while k < count
        invariant
            count == points@.len(),
            k <= count,
            pow2(vars as nat) <= usize::MAX,
            forall|k: int| 0 <= k < points@.len() ==> (#[trigger] points@[k])@.len() == vars,
            splits@.len() == k,
            values@.len() == k,
            done@.len() == k,
            forall|j: int| 0 <= j < k ==> (#[trigger] splits@[j]).of(points@[j]@),
            forall|j: int| 0 <= j < k ==> !(#[trigger] done@[j]),
        decreases count - k,
    {
        assert(points@[k as int]@.len() == vars);
        splits.push(split_point(&points[k]));
        values.push(F128::zero());
        done.push(false);
        k = k + 1;
    }
    proof {
        lemma_pow2_pos(vars as nat);
        lemma_exponent_fits(vars as nat);
    }
    let mut lead: usize = 0;
    while lead < count
        invariant
            count == points@.len(),
            lead <= count,
            vars < 64,
            pow2(vars as nat) <= usize::MAX,
            128 * words@.len() >= pow2(vars as nat),
            words@.len() >= 1,
            forall|k: int| 0 <= k < points@.len() ==> (#[trigger] points@[k])@.len() == vars,
            splits@.len() == count,
            values@.len() == count,
            done@.len() == count,
            forall|j: int| 0 <= j < count ==> (#[trigger] splits@[j]).of(points@[j]@),
            forall|j: int| 0 <= j < lead ==> #[trigger] done@[j],
            forall|j: int|
                0 <= j < count && done@[j] ==> #[trigger] values@[j] == target(
                    words@,
                    points@[j]@,
                ),
        decreases count - lead,
    {
        if !done[lead] {
            let ghost high = high_part(points@[lead as int]@);
            proof {
                assert(points@[lead as int]@.len() == vars);
                assert(splits@[lead as int].of(points@[lead as int]@));
                lemma_free_coordinates_below(high);
                lemma_free_fits(splits@[lead as int].free@, high.len() as int, vars as int);
            }
            let (addresses, weights) = high_tensor(&splits[lead].free, vars);
            let mut maps = LowMaps { entries: Vec::new() };
            let mut j: usize = lead;
            while j < count
                invariant
                    count == points@.len(),
                    lead <= j <= count,
                    lead < count,
                    pow2(vars as nat) <= usize::MAX,
                    128 * words@.len() >= pow2(vars as nat),
                    words@.len() >= 1,
                    forall|k: int|
                        0 <= k < points@.len() ==> (#[trigger] points@[k])@.len() == vars,
                    splits@.len() == count,
                    values@.len() == count,
                    done@.len() == count,
                    maps.well_formed(),
                    forall|i: int| 0 <= i < count ==> (#[trigger] splits@[i]).of(points@[i]@),
                    addresses@.len() == pow2(splits@[lead as int].free@.len()),
                    weights@.len() == addresses@.len(),
                    forall|i: int|
                        0 <= i < addresses@.len() ==> #[trigger] addresses@[i] == free_address(
                            splits@[lead as int].free@,
                            i,
                        ),
                    forall|i: int|
                        0 <= i < weights@.len() ==> #[trigger] weights@[i] == eq_weight(
                            free_point(splits@[lead as int].free@),
                            i,
                        ),
                    forall|i: int| 0 <= i < lead ==> #[trigger] done@[i],
                    j > lead ==> done@[lead as int],
                    forall|i: int|
                        0 <= i < count && done@[i] ==> #[trigger] values@[i] == target(
                            words@,
                            points@[i]@,
                        ),
                decreases count - j,
            {
                if !done[j] && same_free(&splits[j].free, &splits[lead].free) {
                    assert(splits@[j as int].of(points@[j as int]@));
                    assert(points@[j as int]@.len() == vars);
                    let index = maps.find(&splits[j].low);
                    assert(map_of(maps.entries@[index as int].1, maps.entries@[index as int].0@));
                    let value = weighted_words(
                        words,
                        &maps.entries[index].1,
                        splits[j].fixed,
                        &addresses,
                        &weights,
                        Ghost(points@[j as int]@),
                    );
                    values[j] = value;
                    done[j] = true;
                }
                j = j + 1;
            }
        }
        lead = lead + 1;
    }
    assert(values@ =~= Seq::new(points@.len(), |k: int| target(words@, points@[k]@)));
    values
}

pub proof fn lemma_free_fits(free: Seq<(usize, F128)>, n: int, vars: int)
    requires
        free_below(free, n),
        n <= vars,
    ensures
        free_below(free, vars),
{
    assert forall|k: int| 0 <= k < free.len() implies (#[trigger] free[k]).0 < vars by {}
}

/// Evaluate MSB-first points against consecutive 128-bit words: the
/// multilinear extension of the leading bits at each point.
pub fn evaluate_packed(words: &[F128], points: &[Vec<F128>]) -> (values: Vec<F128>)
    requires
        forall|k: int|
            0 <= k < points@.len() ==> (#[trigger] points@[k])@.len() == points@[0]@.len(),
        points@.len() > 0 ==> pow2(points@[0]@.len()) <= usize::MAX && 128 * words@.len() >= pow2(
            points@[0]@.len(),
        ),
    ensures
        values@ == Seq::new(
            points@.len(),
            |k: int|
                mle(bit_table(leading_bits(words@, pow2(points@[k]@.len()))), points@[k]@),
        ),
{
    if points.len() == 0 {
        let values: Vec<F128> = Vec::new();
        assert(values@ =~= Seq::new(
            points@.len(),
            |k: int|
                mle(bit_table(leading_bits(words@, pow2(points@[k]@.len()))), points@[k]@),
        ));
        return values;
    }
    let values = evaluate(points[0].len(), points, words);
    assert(values@ =~= Seq::new(
        points@.len(),
        |k: int| mle(bit_table(leading_bits(words@, pow2(points@[k]@.len()))), points@[k]@),
    ));
    values
}

/// Evaluate several packed bit tables at one point, sharing the high equality
/// tensor and the word map.
pub fn evaluate_packed_tables(tables: &[Vec<F128>], point: &Vec<F128>) -> (values: Vec<F128>)
    requires
        pow2(point@.len()) <= usize::MAX,
        forall|k: int|
            0 <= k < tables@.len() ==> 128 * (#[trigger] tables@[k])@.len() >= pow2(point@.len()),
    ensures
        values@ == Seq::new(
            tables@.len(),
            |k: int| mle(bit_table(leading_bits(tables@[k]@, pow2(point@.len()))), point@),
        ),
{
    let ghost high = high_part(point@);
    proof {
        lemma_pow2_pos(point@.len());
        lemma_exponent_fits(point@.len());
        lemma_free_coordinates_below(high);
        lemma_free_fits(free_coordinates(high), high.len() as int, point@.len() as int);
    }
    let split = split_point(point);
    let (addresses, weights) = high_tensor(&split.free, point.len());
    let map = LowMap::new(&split.low);
    let mut values: Vec<F128> = Vec::new();
    let mut k: usize = 0;
    while k < tables.len()
        invariant
            pow2(point@.len()) <= usize::MAX,
            pow2(point@.len()) > 0,
            forall|k: int|
                0 <= k < tables@.len() ==> 128 * (#[trigger] tables@[k])@.len() >= pow2(
                    point@.len(),
                ),
            high == high_part(point@),
            split.of(point@),
            map_of(map, low_part(point@)),
            addresses@.len() == pow2(free_coordinates(high).len()),
            weights@.len() == addresses@.len(),
            forall|i: int|
                0 <= i < addresses@.len() ==> #[trigger] addresses@[i] == free_address(
                    free_coordinates(high),
                    i,
                ),
            forall|i: int|
                0 <= i < weights@.len() ==> #[trigger] weights@[i] == eq_weight(
                    free_point(free_coordinates(high)),
                    i,
                ),
            k <= tables@.len(),
            values@.len() == k,
            forall|j: int| 0 <= j < k ==> #[trigger] values@[j] == target(tables@[j]@, point@),
        decreases tables@.len() - k,
    {
        assert(128 * tables@[k as int]@.len() >= pow2(point@.len()));
        let value = weighted_words(
            tables[k].as_slice(),
            &map,
            split.fixed,
            &addresses,
            &weights,
            Ghost(point@),
        );
        values.push(value);
        k = k + 1;
    }
    assert(values@ =~= Seq::new(
        tables@.len(),
        |k: int| mle(bit_table(leading_bits(tables@[k]@, pow2(point@.len()))), point@),
    ));
    values
}

/// The packed words of a bit table, the last one padded with zeros.
pub fn pack_bits(bits: &[bool]) -> (words: Vec<F128>)
    ensures
        words@.len() == (bits@.len() + 127) / 128,
        128 * words@.len() >= bits@.len(),
        leading_bits(words@, bits@.len()) == bits@,
{
    let total: usize = bits.len();
    let count: usize = if total % 128 == 0 {
        total / 128
    } else {
        total / 128 + 1
    };
    let mut words = zero_words(count);
    let mut p: usize = 0;
    while p < total
        invariant
            total == bits@.len(),
            p <= total,
            words@.len() == count,
            total <= 128 * words@.len(),
            forall|q: int|
                0 <= q < total ==> #[trigger] packed_bit(words@, q) == (q < p && bits@[q]),
        decreases total - p,
    {
        set_bit(&mut words, p, bits[p]);
        p = p + 1;
    }
    assert(leading_bits(words@, bits@.len()) =~= bits@);
    words
}

/// Evaluate MSB-first points against a bit table.
pub fn evaluate_bits(bits: &[bool], points: &[Vec<F128>]) -> (values: Vec<F128>)
    requires
        forall|k: int|
            0 <= k < points@.len() ==> bits@.len() == pow2((#[trigger] points@[k])@.len()),
    ensures
        values@ == Seq::new(points@.len(), |k: int| mle(bit_table(bits@), points@[k]@)),
{
    if points.len() == 0 {
        let values: Vec<F128> = Vec::new();
        assert(values@ =~= Seq::new(points@.len(), |k: int| mle(bit_table(bits@), points@[k]@)));
        return values;
    }
    let words = pack_bits(bits);
    let total: usize = bits.len();
    proof {
        assert(bits@.len() == pow2(points@[0]@.len()));
        assert forall|k: int| 0 <= k < points@.len() implies (#[trigger] points@[k])@.len()
            == points@[0]@.len() by {
            let a = points@[k]@.len();
            let b = points@[0]@.len();
            if a < b {
                lemma_pow2_strictly_increases(a, b);
            } else if b < a {
                lemma_pow2_strictly_increases(b, a);
            }
        }
    }
    let values = evaluate(points[0].len(), points, words.as_slice());
    proof {
        assert forall|k: int| 0 <= k < points@.len() implies #[trigger] values@[k] == mle(
            bit_table(bits@),
            points@[k]@,
        ) by {
            assert(bits@.len() == pow2(points@[k]@.len()));
        }
    }
    assert(values@ =~= Seq::new(points@.len(), |k: int| mle(bit_table(bits@), points@[k]@)));
    values
}

} // verus!
