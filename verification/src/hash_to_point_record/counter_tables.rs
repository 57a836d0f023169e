//! The first two rounds of the record scatter by tables.
//!
//! In a round of the prefix the ten counter factors of a pair depend on the
//! counters of two or four rows. A table over the joined bits of several
//! counter bits holds the product of their factors, so a pair costs one lookup
//! for each group of bits.
use vstd::arithmetic::power2::{
    lemma2_to64, lemma_pow2_strictly_increases, lemma_pow2_unfold, pow2,
};
use vstd::prelude::*;
use vstd::slice::slice_subrange;

use crate::field::{
    fadd, fmul, fone, fzero, lemma_fadd_zero, lemma_fmul_assoc, lemma_fmul_comm, lemma_fmul_one,
    F128,
};
use crate::hash_to_point_record::compact_scatter::{
    core_term, lemma_round_by_records, lemma_zero_gate, pair_at, record_sum, weight_steps, Factors,
};
use crate::hash_to_point_record::counter_prefix::counter_entry;
use crate::hash_to_point_record::counter_tail::{
    code_entry, corner_weights, lemma_code_start, lemma_code_step, next_weights,
};
use crate::hash_to_point_scatter::polynomial_product::zeros;
use crate::hash_to_point_scatter::{
    honest_rounds, lemma_fold_factors_concat, prove_remaining, small,
};
use crate::hash_to_point_slots::relation::{
    bits_value, lemma_bits_value_congr, lemma_bits_value_range, lemma_shift_bit, nat_bit,
};
use crate::hash_to_point_slots::{COUNTER_BITS, PLANE, SLOTS, SLOT_VARS};
use crate::hash_to_point_sponge::lemma_value_bits;
use crate::mle::{bit_element, fold_all, fold_in_place, fold_table, lerp};
use crate::sumcheck::{
    fold_factors, lemma_round_binds, lemma_round_sums, node, product_sum, round_evals, round_value,
    shaped, tables, ScatterProof,
};
use crate::sums::{fprod, fsum, lemma_fprod_congr, lemma_fprod_split, lemma_fsum_congr};

verus! {

/// The counter bits of a group.
pub open spec fn group_width(prior: int) -> int {
    if prior == 0 {
        5
    } else {
        2
    }
}

/// The groups of the ten counter bits.
pub open spec fn group_count(prior: int) -> int {
    if prior == 0 {
        2
    } else {
        5
    }
}

/// The rows that a pair's counter factors depend on.
pub open spec fn input_count(prior: int) -> int {
    if prior == 0 {
        2
    } else {
        4
    }
}

/// The code of counter bit `b` of a group in the group's joined code.
pub open spec fn bit_code(code: int, width: int, inputs: int, b: int) -> int {
    bits_value(|j: int| nat_bit(code, j * width + b), inputs)
}

/// The affine value between two elements.
fn between(low: F128, high: F128, r: F128) -> (value: F128)
    ensures
        value == lerp(low, high, r),
{
    low + r * (low + high)
}

/// The bits of a code of four bits.
proof fn lemma_small_code(code: int)
    requires
        0 <= code < 16,
    ensures
        nat_bit(code, 0) == (code % 2 == 1),
        nat_bit(code, 1) == ((code / 2) % 2 == 1),
        nat_bit(code, 2) == ((code / 4) % 2 == 1),
        nat_bit(code, 3) == ((code / 8) % 2 == 1),
{
    lemma2_to64();
    assert(code / 1 == code);
}

/// A product over groups of `width` factors.
proof fn lemma_grouped_product(f: spec_fn(int) -> F128, width: int, groups: int)
    requires
        0 <= width,
        0 <= groups,
    ensures
        fprod(f, groups * width) == fprod(
            |g: int| fprod(|b: int| f(g * width + b), width),
            groups,
        ),
    decreases groups,
{
    if groups > 0 {
        let n = (groups - 1) * width;
        lemma_grouped_product(f, width, groups - 1);
        assert(groups * width == n + width && 0 <= n) by (nonlinear_arith)
            requires
                n == (groups - 1) * width,
                groups > 0,
                width >= 0,
        ;
        lemma_fprod_split(f, n, width);
        lemma_fprod_congr(|i: int| f(n + i), |b: int| f((groups - 1) * width + b), width);
    }
}

impl Factors {
    /// The row that holds input `j` of position `i`.
    pub open spec fn input_row(self, i: int, j: int) -> int {
        let n = self.size();
        if j == 0 {
            i
        } else if j == 1 {
            i + n / 2
        } else if j == 2 {
            i + n / 4
        } else {
            i + n / 4 + n / 2
        }
    }

    /// The code of counter bit `b` at position `i`.
    pub open spec fn pair_code(self, i: int, b: int, inputs: int) -> int {
        bits_value(
            |j: int| nat_bit(self.rows@[self.input_row(i, j)].count as int, b),
            inputs,
        )
    }

    /// The entry of a set or clear counter bit.
    fn bit_entry(&self, b: usize, set: bool) -> (entry: F128)
        requires
            self.well_formed(),
            b < COUNTER_BITS,
        ensures
            entry == counter_entry(set, self.beta@[b as int]),
    {
        if set {
            self.beta[b]
        } else {
            F128::one()
        }
    }

    /// The counter factor of a code of two or four rows, with the earlier
    /// coordinate bound to `prior` and the round's to `r`.
    pub fn counter_value(&self, b: usize, code: usize, prior: &[F128], r: F128) -> (value: F128)
        requires
            self.well_formed(),
            b < COUNTER_BITS,
            prior@.len() <= 1,
            code < (if prior@.len() == 0 {
                4int
            } else {
                16
            }),
        ensures
            value == code_entry(self.beta@[b as int], corner_weights(prior@.push(r)), code as int),
    {
        let ghost beta = self.beta@[b as int];
        let ghost one = seq![fone()];
        proof {
            lemma2_to64();
            lemma_small_code(code as int);
            reveal_with_fuel(corner_weights, 3);
            lemma_code_start(beta, nat_bit(code as int, 0));
            lemma_code_start(beta, nat_bit(code as int, 1));
            lemma_code_start(beta, nat_bit(code as int, 2));
            lemma_code_start(beta, nat_bit(code as int, 3));
            assert(prior@.push(r).drop_last() =~= prior@);
            assert(prior@.push(r).last() == r);
        }
        let c0: usize = code % 2;
        let c1: usize = (code / 2) % 2;
        let c2: usize = (code / 4) % 2;
        let c3: usize = (code / 8) % 2;
        let e0 = self.bit_entry(b, c0 == 1);
        let e1 = self.bit_entry(b, c1 == 1);
        if prior.len() == 0 {
            proof {
                assert(prior@ =~= Seq::<F128>::empty());
                lemma_code_step(beta, one, c0 as int, c1 as int, r);
            }
            between(e0, e1, r)
        } else {
            let e2 = self.bit_entry(b, c2 == 1);
            let e3 = self.bit_entry(b, c3 == 1);
            let p = prior[0];
            proof {
                assert(prior@.drop_last() =~= Seq::<F128>::empty());
                assert(prior@.last() == p);
                let w = next_weights(one, p);
                assert(corner_weights(prior@) == w);
                lemma_code_step(beta, one, c0 as int, c1 as int, p);
                lemma_code_step(beta, one, c2 as int, c3 as int, p);
                lemma_code_step(beta, w, c0 + c1 * 2, c2 + c3 * 2, r);
            }
            between(between(e0, e1, p), between(e2, e3, p), r)
        }
    }

    /// A counter factor's pair in the prefix is its code's entry.
    pub proof fn lemma_pair_code(self, prior: Seq<F128>, i: int, b: int, r: F128)
        requires
            self.well_formed(),
            prior.len() <= 1,
            0 <= b < COUNTER_BITS,
            0 <= i < (if prior.len() == 0 {
                self.size() / 2
            } else {
                self.size() / 4
            }),
        ensures
            pair_at(fold_factors(self.tables(), prior), 2 + b, i, r) == code_entry(
                self.beta@[b],
                corner_weights(prior.push(r)),
                self.pair_code(i, b, input_count(prior.len() as int)),
            ),
    {
        lemma2_to64();
        self.lemma_sizes(0);
        let n = self.size();
        let ts = self.tables();
        let beta = self.beta@[b];
        let one = seq![fone()];
        let bit = |j: int| nat_bit(self.rows@[self.input_row(i, j)].count as int, b);
        let v = |j: int| if bit(j) {
            1int
        } else {
            0
        };
        reveal_with_fuel(corner_weights, 3);
        reveal_with_fuel(bits_value, 5);
        reveal_with_fuel(fold_all, 3);
        assert(prior.push(r).drop_last() =~= prior);
        assert(prior.push(r).last() == r);
        lemma_code_start(beta, bit(0));
        lemma_code_start(beta, bit(1));
        lemma_code_start(beta, bit(2));
        lemma_code_start(beta, bit(3));
        if prior.len() == 0 {
            assert(prior =~= Seq::<F128>::empty());
            assert(fold_factors(ts, prior) =~= ts);
            lemma_code_step(beta, one, v(0), v(1), r);
        } else {
            let p = prior[0];
            let bound = fold_factors(ts, prior);
            assert(prior.drop_first() =~= Seq::<F128>::empty());
            assert(prior.drop_last() =~= Seq::<F128>::empty());
            assert(bound[2 + b] == fold_table(ts[2 + b], p));
            assert(bound[0] == fold_table(ts[0], p));
            let w = next_weights(one, p);
            assert(corner_weights(prior) == w);
            lemma_code_step(beta, one, v(0), v(1), p);
            lemma_code_step(beta, one, v(2), v(3), p);
            lemma_code_step(beta, w, v(0) + v(1) * 2, v(2) + v(3) * 2, r);
        }
    }

    /// The joined code of a group of counter bits at position `i`.
    pub open spec fn group_code(self, i: int, g: int, width: int, inputs: int) -> int {
        bits_value(
            |m: int|
                nat_bit(
                    self.rows@[self.input_row(i, m / width)].count as int,
                    g * width + m % width,
                ),
            width * inputs,
        )
    }

    /// The entry of a group's table.
    pub open spec fn table_entry(self, prior: Seq<F128>, r: F128, g: int, code: int) -> F128 {
        let width = group_width(prior.len() as int);
        let inputs = input_count(prior.len() as int);
        fprod(
            |b: int|
                code_entry(
                    self.beta@[g * width + b],
                    corner_weights(prior.push(r)),
                    bit_code(code, width, inputs, b),
                ),
            width,
        )
    }

    /// The groups' codes spell the bits' codes, so the tables' entries multiply
    /// to the counter factors of the pair.
    pub proof fn tabled_counters_are_the_factors(self, prior: Seq<F128>, i: int, r: F128)
        requires
            self.well_formed(),
            prior.len() <= 1,
            0 <= i < (if prior.len() == 0 {
                self.size() / 2
            } else {
                self.size() / 4
            }),
        ensures
            ({
                let width = group_width(prior.len() as int);
                let inputs = input_count(prior.len() as int);
                fprod(
                    |g: int|
                        self.table_entry(prior, r, g, self.group_code(i, g, width, inputs)),
                    group_count(prior.len() as int),
                ) == fprod(|b: int| pair_at(fold_factors(self.tables(), prior), 2 + b, i, r), 10)
            }),
    {
        let width = group_width(prior.len() as int);
        let inputs = input_count(prior.len() as int);
        let groups = group_count(prior.len() as int);
        let current = fold_factors(self.tables(), prior);
        let f = |b: int| pair_at(current, 2 + b, i, r);
        lemma_grouped_product(f, width, groups);
        assert(groups * width == 10);
        let entries = |g: int|
            self.table_entry(prior, r, g, self.group_code(i, g, width, inputs));
        let parts = |g: int| fprod(|b: int| f(g * width + b), width);
        assert forall|g: int| 0 <= g < groups implies #[trigger] entries(g) == parts(g) by {
            let code = self.group_code(i, g, width, inputs);
            let left = |b: int|
                code_entry(
                    self.beta@[g * width + b],
                    corner_weights(prior.push(r)),
                    bit_code(code, width, inputs, b),
                );
            let right = |b: int| f(g * width + b);
            assert forall|b: int| 0 <= b < width implies #[trigger] left(b) == right(b) by {
                assert(0 <= g * width + b < 10);
                self.lemma_pair_code(prior, i, g * width + b, r);
                self.lemma_bit_code(i, g, width, inputs, b);
            }
            lemma_fprod_congr(left, right, width);
            lemma_fprod_congr(right, |b: int| f(g * width + b), width);
        }
        lemma_fprod_congr(entries, parts, groups);
    }

    proof fn lemma_bit_code(self, i: int, g: int, width: int, inputs: int, b: int)
        requires
            (width == 5 && inputs == 2) || (width == 2 && inputs == 4),
            0 <= b < width,
        ensures
            bit_code(self.group_code(i, g, width, inputs), width, inputs, b) == self.pair_code(
                i,
                g * width + b,
                inputs,
            ),
    {
        let h = |m: int|
            nat_bit(
                self.rows@[self.input_row(i, m / width)].count as int,
                g * width + m % width,
            );
        let code = self.group_code(i, g, width, inputs);
        let left = |j: int| nat_bit(code, j * width + b);
        let right = |j: int| nat_bit(self.rows@[self.input_row(i, j)].count as int, g * width + b);
        assert forall|j: int| 0 <= j < inputs implies #[trigger] left(j) == right(j) by {
            let m = j * width + b;
            assert(0 <= m < width * inputs && m / width == j && m % width == b) by {
                if width == 5 {
                    assert(m == 5 * j + b && width * inputs == 10) by (nonlinear_arith)
                        requires
                            m == j * width + b,
                            width == 5,
                            inputs == 2,
                    ;
                } else {
                    assert(m == 2 * j + b && width * inputs == 8) by (nonlinear_arith)
                        requires
                            m == j * width + b,
                            width == 2,
                            inputs == 4,
                    ;
                }
            }
            lemma_value_bits(h, width * inputs, m);
        }
        lemma_bits_value_congr(left, right, inputs);
    }

    /// The joined codes of the groups at position `i`; the groups that the round
    /// does not have are zero.
    pub fn counter_codes(&self, i: usize, round: usize) -> (codes: [usize; 5])
        requires
            self.well_formed(),
            round <= 1,
            i < (if round == 0 {
                self.size() / 2
            } else {
                self.size() / 4
            }),
        ensures
            forall|g: int|
                0 <= g < group_count(round as int) ==> #[trigger] codes@[g]
                    == self.group_code(
                    i as int,
                    g,
                    group_width(round as int),
                    input_count(round as int),
                ),
            forall|g: int|
                group_count(round as int) <= g < 5 ==> #[trigger] codes@[g] == 0,
    {
        let n: usize = self.rows.len();
        let width: usize = if round == 0 {
            5
        } else {
            2
        };
        let inputs: usize = if round == 0 {
            2
        } else {
            4
        };
        let groups: usize = 10 / width;
        let mut codes: [usize; 5] = [0; 5];
        let mut g: usize = 0;
        while g < groups
            invariant
                self.well_formed(),
                round <= 1,
                n == self.rows@.len(),
                n == self.size(),
                i < (if round == 0 {
                    n / 2
                } else {
                    n / 4
                }),
                width == group_width(round as int),
                inputs == input_count(round as int),
                groups == group_count(round as int),
                g <= groups,
                forall|k: int|
                    0 <= k < g ==> #[trigger] codes@[k] == self.group_code(
                        i as int,
                        k,
                        width as int,
                        inputs as int,
                    ),
                forall|k: int| g <= k < 5 ==> #[trigger] codes@[k] == 0,
            decreases groups - g,
        {
            let ghost h = |m: int|
                nat_bit(
                    self.rows@[self.input_row(i as int, m / width as int)].count as int,
                    g * width + m % (width as int),
                );
            let mut code: usize = 0;
            let mut weight: usize = 1;
            let mut m: usize = 0;
            let total: usize = width * inputs;
            proof {
                lemma2_to64();
            }
            while m < total
                invariant
                    self.well_formed(),
                    round <= 1,
                    n == self.rows@.len(),
                    n == self.size(),
                    i < (if round == 0 {
                        n / 2
                    } else {
                        n / 4
                    }),
                    width == group_width(round as int),
                    inputs == input_count(round as int),
                    groups == group_count(round as int),
                    g < groups,
                    total == width * inputs,
                    h == (|m: int|
                        nat_bit(
                            self.rows@[self.input_row(i as int, m / width as int)].count as int,
                            g * width + m % (width as int),
                        )),
                    m <= total,
                    weight == pow2(m as nat),
                    weight <= 1_024,
                    code == bits_value(h, m as int),
                    code < weight,
                decreases total - m,
            {
                let j: usize = m / width;
                let row: usize = if j == 0 {
                    i
                } else if j == 1 {
                    i + n / 2
                } else if j == 2 {
                    i + n / 4
                } else {
                    i + n / 4 + n / 2
                };
                let count: u32 = self.rows[row].count as u32;
                let b: usize = g * width + m % width;
                proof {
                    lemma_shift_bit(count, b as u32);
                    lemma_pow2_unfold((m + 1) as nat);
                    lemma2_to64();
                    if m + 1 < 10 {
                        lemma_pow2_strictly_increases((m + 1) as nat, 10);
                    }
                }
                if (count >> (b as u32)) & 1 == 1 {
                    code = code + weight;
                }
                weight = 2 * weight;
                m = m + 1;
            }
            codes[g] = code;
            g = g + 1;
        }
        codes
    }

    /// The tables of the groups' counter factors at the round's point.
    pub fn counter_tables(&self, prior: &[F128], r: F128) -> (tables: Vec<Vec<F128>>)
        requires
            self.well_formed(),
            prior@.len() <= 1,
        ensures
            tables@.len() == group_count(prior@.len() as int),
            forall|g: int|
                0 <= g < tables@.len() ==> (#[trigger] tables@[g])@.len() == pow2(
                    (group_width(prior@.len() as int) * input_count(prior@.len() as int)) as nat,
                ),
            forall|g: int, code: int|
                #![trigger tables@[g]@[code]]
                0 <= g < tables@.len() && 0 <= code < tables@[g]@.len() ==> tables@[g]@[code]
                    == self.table_entry(prior@, r, g, code),
    {
        let width: usize = if prior.len() == 0 {
            5
        } else {
            2
        };
        let inputs: usize = if prior.len() == 0 {
            2
        } else {
            4
        };
        let groups: usize = 10 / width;
        let size: usize = if prior.len() == 0 {
            1_024
        } else {
            256
        };
        proof {
            lemma2_to64();
        }
        let mut tables: Vec<Vec<F128>> = Vec::new();
        let mut g: usize = 0;
        while g < groups
            invariant
                self.well_formed(),
                prior@.len() <= 1,
                width == group_width(prior@.len() as int),
                inputs == input_count(prior@.len() as int),
                groups == group_count(prior@.len() as int),
                size == pow2((width * inputs) as nat),
                size <= 1_024,
                g <= groups,
                tables@.len() == g,
                forall|k: int| 0 <= k < g ==> (#[trigger] tables@[k])@.len() == size,
                forall|k: int, code: int|
                    #![trigger tables@[k]@[code]]
                    0 <= k < g && 0 <= code < size ==> tables@[k]@[code] == self.table_entry(
                        prior@,
                        r,
                        k,
                        code,
                    ),
            decreases groups - g,
        {
            let ghost before = tables@;
            let mut table: Vec<F128> = Vec::new();
            let mut code: usize = 0;
            while code < size
                invariant
                    self.well_formed(),
                    prior@.len() <= 1,
                    width == group_width(prior@.len() as int),
                    inputs == input_count(prior@.len() as int),
                    groups == group_count(prior@.len() as int),
                    size == pow2((width * inputs) as nat),
                    size <= 1_024,
                    g < groups,
                    code <= size,
                    table@.len() == code,
                    forall|k: int|
                        0 <= k < code ==> #[trigger] table@[k] == self.table_entry(
                            prior@,
                            r,
                            g as int,
                            k,
                        ),
                decreases size - code,
            {
                let entry = self.group_product(prior, r, g, code);
                table.push(entry);
                code = code + 1;
            }
            tables.push(table);
            proof {
                assert forall|k: int, code: int|
                    #![trigger tables@[k]@[code]]
                    0 <= k < g + 1 && 0 <= code < size implies tables@[k]@[code]
                    == self.table_entry(prior@, r, k, code) by {
                    if k < g {
                        assert(tables@[k] == before[k]);
                        assert(before[k]@[code] == self.table_entry(prior@, r, k, code));
                    }
                }
            }
            g = g + 1;
        }
        tables
    }

    /// The product of a group's counter factors for a joined code.
    fn group_product(&self, prior: &[F128], r: F128, g: usize, code: usize) -> (product: F128)
        requires
            self.well_formed(),
            prior@.len() <= 1,
            g < group_count(prior@.len() as int),
            code < 1_024,
        ensures
            product == self.table_entry(prior@, r, g as int, code as int),
    {
        let width: usize = if prior.len() == 0 {
            5
        } else {
            2
        };
        let inputs: usize = if prior.len() == 0 {
            2
        } else {
            4
        };
        let ghost f = |b: int|
            code_entry(
                self.beta@[g * width + b],
                corner_weights(prior@.push(r)),
                bit_code(code as int, width as int, inputs as int, b),
            );
        let mut product = F128::one();
        let mut b: usize = 0;
        while b < width
            invariant
                self.well_formed(),
                prior@.len() <= 1,
                g < group_count(prior@.len() as int),
                code < 1_024,
                width == group_width(prior@.len() as int),
                inputs == input_count(prior@.len() as int),
                f == (|b: int|
                    code_entry(
                        self.beta@[g * width + b],
                        corner_weights(prior@.push(r)),
                        bit_code(code as int, width as int, inputs as int, b),
                    )),
                b <= width,
                product == fprod(f, b as int),
            decreases width - b,
        {
            let ghost h = |j: int| nat_bit(code as int, j * width + b);
            let mut bits: usize = 0;
            let mut weight: usize = 1;
            let mut j: usize = 0;
            proof {
                lemma2_to64();
                lemma_bits_value_range(h, 2);
                lemma_bits_value_range(h, 4);
            }
            while j < inputs
                invariant
                    code < 1_024,
                    b < width,
                    prior@.len() <= 1,
                    width == group_width(prior@.len() as int),
                    inputs == input_count(prior@.len() as int),
                    h == (|j: int| nat_bit(code as int, j * width + b)),
                    j <= inputs,
                    weight == pow2(j as nat),
                    weight <= 16,
                    bits == bits_value(h, j as int),
                    bits < weight,
                decreases inputs - j,
            {
                let at: usize = j * width + b;
                proof {
                    assert(at < 32) by {
                        assert(j * width + b < 25) by (nonlinear_arith)
                            requires
                                0 <= j < 4,
                                0 <= b < width,
                                width == 5 && j < 2 || width == 2,
                        ;
                    }
                    lemma_shift_bit(code as u32, at as u32);
                    lemma_pow2_unfold((j + 1) as nat);
                    lemma2_to64();
                    if j + 1 < 4 {
                        lemma_pow2_strictly_increases((j + 1) as nat, 4);
                    }
                }
                if ((code as u32) >> (at as u32)) & 1 == 1 {
                    bits = bits + weight;
                }
                weight = 2 * weight;
                j = j + 1;
            }
            proof {
                assert(g * width + b < 10) by {
                    if width == 5 {
                        assert(g * width == 5 * g);
                    } else {
                        assert(g * width == 2 * g);
                    }
                }
            }
            let value = self.counter_value(g * width + b, bits, prior, r);
            product = product * value;
            b = b + 1;
        }
        product
    }

    /// The gates, values and record weights of the tables after the point is
    /// bound, with `left + 1` record coordinates unbound.
    pub open spec fn prefix_stands(
        self,
        gates: Seq<F128>,
        values: Seq<F128>,
        prefix: F128,
        current: Seq<Seq<F128>>,
        left: int,
    ) -> bool {
        &&& current.len() == 13
        &&& 0 <= left < self.record_vars
        &&& forall|f: int|
            0 <= f < 13 ==> (#[trigger] current[f]).len() == 2 * (pow2(left as nat) * PLANE)
        &&& gates == current[0]
        &&& values == current[12]
        &&& self.weights_are(current[1], prefix)
        &&& forall|i: int|
            0 <= i < current[0].len() && i % (PLANE as int) >= SLOTS ==> #[trigger] current[0][i]
                == fzero()
    }

    /// The product of the groups' entries.
    fn lookup(&self, table: &Vec<Vec<F128>>, codes: &[usize; 5]) -> (product: F128)
        requires
            table@.len() <= 5,
            forall|g: int| 0 <= g < table@.len() ==> codes@[g] < (#[trigger] table@[g])@.len(),
        ensures
            product == fprod(|g: int| table@[g]@[codes@[g] as int], table@.len() as int),
    {
        let ghost f = |g: int| table@[g]@[codes@[g] as int];
        let mut product = F128::one();
        let mut g: usize = 0;
        while g < table.len()
            invariant
                table@.len() <= 5,
                forall|g: int| 0 <= g < table@.len() ==> codes@[g] < (#[trigger] table@[g])@.len(),
                f == (|g: int| table@[g]@[codes@[g] as int]),
                g <= table@.len(),
                product == fprod(f, g as int),
            decreases table@.len() - g,
        {
            assert(codes@[g as int] < table@[g as int]@.len());
            product = product * table[g][codes[g]];
            g = g + 1;
        }
        product
    }

    /// The tables of every node of the round.
    fn node_tables(&self, point: &[F128]) -> (all: Vec<Vec<Vec<F128>>>)
        requires
            self.well_formed(),
            point@.len() <= 1,
        ensures
            all@.len() == 14,
            forall|t: int|
                0 <= t < 14 ==> self.tables_at(point@, node(t), tables(#[trigger] all@[t]@)),
    {
        let mut all: Vec<Vec<Vec<F128>>> = Vec::new();
        let mut t: u64 = 0;
        while t < 14
            invariant
                self.well_formed(),
                point@.len() <= 1,
                t <= 14,
                all@.len() == t,
                forall|k: int|
                    0 <= k < t ==> self.tables_at(point@, node(k), tables(#[trigger] all@[k]@)),
            decreases 14 - t,
        {
            let ghost before = all@;
            let table = self.counter_tables(point, small(t));
            proof {
                let ts = tables(table@);
                assert forall|g: int, code: int|
                    #![trigger ts[g][code]]
                    0 <= g < ts.len() && 0 <= code < ts[g].len() implies ts[g][code]
                    == self.table_entry(point@, node(t as int), g, code) by {
                    assert(table@[g]@[code] == ts[g][code]);
                }
            }
            all.push(table);
            proof {
                assert forall|k: int| 0 <= k < t + 1 implies self.tables_at(
                    point@,
                    node(k),
                    tables(#[trigger] all@[k]@),
                ) by {
                    if k < t {
                        assert(all@[k] == before[k]);
                    }
                }
            }
            t = t + 1;
        }
        all
    }

    /// The tables of the groups at a point of the round.
    pub open spec fn tables_at(self, prior: Seq<F128>, r: F128, ts: Seq<Seq<F128>>) -> bool {
        &&& ts.len() == group_count(prior.len() as int)
        &&& forall|g: int|
            0 <= g < ts.len() ==> (#[trigger] ts[g]).len() == pow2(
                (group_width(prior.len() as int) * input_count(prior.len() as int)) as nat,
            )
        &&& forall|g: int, code: int|
            #![trigger ts[g][code]]
            0 <= g < ts.len() && 0 <= code < ts[g].len() ==> ts[g][code] == self.table_entry(
                prior,
                r,
                g,
                code,
            )
    }

    /// Add the terms of position `i` at the nodes.
    fn add_terms(
        &self,
        sums: &mut Vec<F128>,
        all: &Vec<Vec<Vec<F128>>>,
        point: &[F128],
        i: usize,
        gate: (F128, F128),
        value: (F128, F128),
    )
        requires
            self.well_formed(),
            point@.len() <= 1,
            old(sums)@.len() == 14,
            all@.len() == 14,
            forall|t: int|
                0 <= t < 14 ==> self.tables_at(point@, node(t), tables(#[trigger] all@[t]@)),
            i < (if point@.len() == 0 {
                self.size() / 2
            } else {
                self.size() / 4
            }),
            ({
                let current = fold_factors(self.tables(), point@);
                let half = (current[0].len() / 2) as int;
                &&& gate == (current[0][i as int], current[0][half + i])
                &&& value == (current[12][i as int], current[12][half + i])
            }),
        ensures
            final(sums)@.len() == 14,
            forall|t: int|
                0 <= t < 14 ==> #[trigger] final(sums)@[t] == fadd(
                    old(sums)@[t],
                    core_term(fold_factors(self.tables(), point@), i as int, node(t)),
                ),
    {
        let ghost current = fold_factors(self.tables(), point@);
        let ghost start = sums@;
        let round: usize = point.len();
        let codes = self.counter_codes(i, round);
        let ghost width = group_width(round as int);
        let ghost inputs = input_count(round as int);
        proof {
            assert forall|g: int| 0 <= g < group_count(round as int) implies #[trigger] codes@[g]
                < pow2((width * inputs) as nat) by {
                lemma_bits_value_range(
                    |m: int|
                        nat_bit(
                            self.rows@[self.input_row(i as int, m / width)].count as int,
                            g * width + m % width,
                        ),
                    width * inputs,
                );
            }
        }
        let mut t: usize = 0;
        while t < 14
            invariant
                self.well_formed(),
                point@.len() <= 1,
                round == point@.len(),
                width == group_width(round as int),
                inputs == input_count(round as int),
                current == fold_factors(self.tables(), point@),
                all@.len() == 14,
                forall|t: int|
                    0 <= t < 14 ==> self.tables_at(point@, node(t), tables(#[trigger] all@[t]@)),
                i < (if point@.len() == 0 {
                    self.size() / 2
                } else {
                    self.size() / 4
                }),
                gate == (current[0][i as int], current[0][current[0].len() / 2 + i]),
                value == (current[12][i as int], current[12][current[0].len() / 2 + i]),
                forall|g: int|
                    0 <= g < group_count(round as int) ==> #[trigger] codes@[g]
                        == self.group_code(i as int, g, width, inputs),
                forall|g: int|
                    0 <= g < group_count(round as int) ==> #[trigger] codes@[g] < pow2(
                        (width * inputs) as nat,
                    ),
                t <= 14,
                sums@.len() == 14,
                start.len() == 14,
                forall|k: int|
                    0 <= k < t ==> #[trigger] sums@[k] == fadd(
                        start[k],
                        core_term(current, i as int, node(k)),
                    ),
                forall|k: int| t <= k < 14 ==> #[trigger] sums@[k] == start[k],
            decreases 14 - t,
        {
            let x = small(t as u64);
            let ghost ts = tables(all@[t as int]@);
            assert(self.tables_at(point@, node(t as int), ts));
            assert forall|g: int| 0 <= g < all@[t as int]@.len() implies codes@[g] < (
            #[trigger] all@[t as int]@[g])@.len() by {
                assert(ts[g] == all@[t as int]@[g]@);
            }
            let counters = self.lookup(&all[t], &codes);
            let term = between(gate.0, gate.1, x) * counters * between(value.0, value.1, x);
            proof {
                let r = node(t as int);
                self.tabled_counters_are_the_factors(point@, i as int, r);
                let looked = |g: int| all@[t as int]@[g]@[codes@[g] as int];
                let entries = |g: int|
                    self.table_entry(point@, r, g, self.group_code(i as int, g, width, inputs));
                assert forall|g: int| 0 <= g < group_count(round as int) implies #[trigger] looked(
                    g,
                ) == entries(g) by {
                    assert(ts[g] == all@[t as int]@[g]@);
                    assert(ts[g][codes@[g] as int] == self.table_entry(
                        point@,
                        r,
                        g,
                        codes@[g] as int,
                    ));
                }
                lemma_fprod_congr(looked, entries, group_count(round as int));
                assert(term == core_term(current, i as int, r));
            }
            sums[t] = sums[t] + term;
            t = t + 1;
        }
    }

    /// Half of the tables' length after the point is bound.
    proof fn lemma_half(self, bound: int)
        requires
            self.well_formed(),
            0 <= bound <= 1,
        ensures
            pow2((self.record_vars - 1 - bound) as nat) * PLANE == (if bound == 0 {
                self.size() / 2
            } else {
                self.size() / 4
            }),
            self.size() == 4 * (self.size() / 4),
    {
        self.lemma_sizes(0);
        lemma_pow2_unfold(self.record_vars as nat);
        lemma_pow2_unfold((self.record_vars - 1) as nat);
    }

    /// One round message from the tables of the counter bits.
    fn tabled_round(
        &self,
        gates: &Vec<F128>,
        values: &Vec<F128>,
        prefix: F128,
        point: &[F128],
    ) -> (evals: Vec<F128>)
        requires
            self.well_formed(),
            point@.len() <= 1,
            self.prefix_stands(
                gates@,
                values@,
                prefix,
                fold_factors(self.tables(), point@),
                self.record_vars - 1 - point@.len(),
            ),
        ensures
            evals@ == round_evals(fold_factors(self.tables(), point@)),
    {
        let ghost cur = fold_factors(self.tables(), point@);
        let left: usize = self.record_vars - 1 - point.len();
        let total: usize = gates.len();
        let half: usize = total / 2;
        proof {
            self.lemma_half(point@.len() as int);
            assert(cur[0].len() == 2 * (pow2(left as nat) * PLANE));
            assert(cur[12].len() == 2 * (pow2(left as nat) * PLANE));
            lemma_pow2_strictly_increases(left as nat, self.record_vars as nat);
        }
        let records: usize = half / PLANE;
        assert(records == pow2(left as nat));
        let all = self.node_tables(point);
        let steps = weight_steps(prefix, self.delta_powers[left]);
        let mut evals = zeros(14);
        let mut record: usize = 0;
        while record < records
            invariant
                self.well_formed(),
                point@.len() <= 1,
                cur == fold_factors(self.tables(), point@),
                left == self.record_vars - 1 - point@.len(),
                self.prefix_stands(gates@, values@, prefix, cur, left as int),
                all@.len() == 14,
                forall|t: int|
                    0 <= t < 14 ==> self.tables_at(point@, node(t), tables(#[trigger] all@[t]@)),
                total == gates@.len(),
                total == values@.len(),
                total == 2 * half,
                half == records * PLANE,
                half == (if point@.len() == 0 {
                    self.size() / 2
                } else {
                    self.size() / 4
                }),
                records == pow2(left as nat),
                records <= self.delta@.len(),
                record <= records,
                evals@.len() == 14,
                steps@.len() == 14,
                forall|t: int|
                    0 <= t < 14 ==> #[trigger] evals@[t] == fsum(
                        |k: int|
                            fmul(
                                record_sum(cur, k, node(t)),
                                fmul(self.delta@[k], steps@[t]),
                            ),
                        record as int,
                    ),
            decreases records - record,
        {
            let mut sums = zeros(14);
            let mut slot: usize = 0;
            proof {
                assert(record * PLANE + PLANE <= half) by (nonlinear_arith)
                    requires
                        record < records,
                        half == records * PLANE,
                ;
                assert(cur[0].len() / 2 == half);
            }
            while slot < SLOTS
                invariant
                    self.well_formed(),
                    point@.len() <= 1,
                    cur == fold_factors(self.tables(), point@),
                    self.prefix_stands(gates@, values@, prefix, cur, left as int),
                    cur[0].len() / 2 == half,
                    all@.len() == 14,
                    forall|t: int|
                        0 <= t < 14 ==> self.tables_at(
                            point@,
                            node(t),
                            tables(#[trigger] all@[t]@),
                        ),
                    total == gates@.len(),
                    total == values@.len(),
                    total == 2 * half,
                    half == (if point@.len() == 0 {
                        self.size() / 2
                    } else {
                        self.size() / 4
                    }),
                    record * PLANE + PLANE <= half,
                    slot <= SLOTS,
                    sums@.len() == 14,
                    forall|t: int|
                        0 <= t < 14 ==> #[trigger] sums@[t] == fsum(
                            |s: int| core_term(cur, record * PLANE + s, node(t)),
                            slot as int,
                        ),
                decreases SLOTS - slot,
            {
                let i: usize = record * PLANE + slot;
                let ghost before = sums@;
                let gate = (gates[i], gates[half + i]);
                if gate.0 == F128::zero() && gate.1 == F128::zero() {
                    proof {
                        assert forall|t: int| 0 <= t < 14 implies #[trigger] sums@[t] == fsum(
                            |s: int| core_term(cur, record * PLANE + s, node(t)),
                            slot + 1,
                        ) by {
                            lemma_zero_gate(cur, i as int, node(t));
                            lemma_fadd_zero(before[t]);
                        }
                    }
                } else {
                    let value = (values[i], values[half + i]);
                    self.add_terms(&mut sums, &all, point, i, gate, value);
                    proof {
                        assert forall|t: int| 0 <= t < 14 implies #[trigger] sums@[t] == fsum(
                            |s: int| core_term(cur, record * PLANE + s, node(t)),
                            slot + 1,
                        ) by {
                            assert(before[t] == fsum(
                                |s: int| core_term(cur, record * PLANE + s, node(t)),
                                slot as int,
                            ));
                        }
                    }
                }
                slot = slot + 1;
            }
            let weight = self.delta[record];
            let ghost before = evals@;
            let mut t: usize = 0;
            while t < 14
                invariant
                    t <= 14,
                    sums@.len() == 14,
                    steps@.len() == 14,
                    evals@.len() == 14,
                    before.len() == 14,
                    forall|k: int|
                        0 <= k < t ==> #[trigger] evals@[k] == fadd(
                            before[k],
                            fmul(fmul(sums@[k], weight), steps@[k]),
                        ),
                    forall|k: int| t <= k < 14 ==> #[trigger] evals@[k] == before[k],
                decreases 14 - t,
            {
                evals[t] = evals[t] + sums[t] * weight * steps[t];
                t = t + 1;
            }
            proof {
                assert forall|t: int| 0 <= t < 14 implies #[trigger] evals@[t] == fsum(
                    |k: int|
                        fmul(record_sum(cur, k, node(t)), fmul(self.delta@[k], steps@[t])),
                    record + 1,
                ) by {
                    let s = record_sum(cur, record as int, node(t));
                    assert(sums@[t] == s);
                    lemma_fmul_assoc(s, self.delta@[record as int], steps@[t]);
                    assert(before[t] == fsum(
                        |k: int|
                            fmul(record_sum(cur, k, node(t)), fmul(self.delta@[k], steps@[t])),
                        record as int,
                    ));
                }
            }
            record = record + 1;
        }
        proof {
            assert forall|t: int| 0 <= t < 14 implies #[trigger] evals@[t] == round_value(
                cur,
                node(t),
            ) by {
                let r = node(t);
                let weight = |k: int| fmul(self.delta@[k], steps@[t]);
                assert forall|i: int| 0 <= i < records * PLANE implies #[trigger] pair_at(
                    cur,
                    1,
                    i,
                    r,
                ) == weight(i / PLANE as int) by {
                    assert(cur[1].len() == cur[0].len());
                    self.lemma_weight_pair(cur[1], prefix, left as int, i, r);
                }
                assert forall|i: int|
                    0 <= i < records * PLANE && i % (PLANE as int) >= SLOTS implies #[trigger] pair_at(
                    cur,
                    0,
                    i,
                    r,
                ) == fzero() by {
                    assert((half + i) % (PLANE as int) == i % (PLANE as int));
                    assert(cur[0][i] == fzero());
                    assert(cur[0][half + i] == fzero());
                    lemma_zero_gate(cur, i, r);
                }
                lemma_round_by_records(cur, records as int, r, weight);
                lemma_fsum_congr(
                    |k: int| fmul(record_sum(cur, k, r), fmul(self.delta@[k], steps@[t])),
                    |k: int| fmul(record_sum(cur, k, r), weight(k)),
                    records as int,
                );
            }
            assert(evals@ =~= round_evals(cur));
        }
        evals
    }

    /// The code of counter bit `b` in the four rows of position `i`.
    fn four_rows(&self, i: usize, b: usize) -> (code: usize)
        requires
            self.well_formed(),
            b < COUNTER_BITS,
            i < self.size() / 4,
        ensures
            code == self.pair_code(i as int, b as int, 4),
            code < 16,
    {
        let n: usize = self.rows.len();
        let c0: u32 = self.rows[i].count as u32;
        let c1: u32 = self.rows[i + n / 2].count as u32;
        let c2: u32 = self.rows[i + n / 4].count as u32;
        let c3: u32 = self.rows[i + n / 4 + n / 2].count as u32;
        let at: u32 = b as u32;
        proof {
            lemma2_to64();
            reveal_with_fuel(bits_value, 5);
            lemma_shift_bit(c0, at);
            lemma_shift_bit(c1, at);
            lemma_shift_bit(c2, at);
            lemma_shift_bit(c3, at);
        }
        let mut code: usize = 0;
        if (c0 >> at) & 1 == 1 {
            code = code + 1;
        }
        if (c1 >> at) & 1 == 1 {
            code = code + 2;
        }
        if (c2 >> at) & 1 == 1 {
            code = code + 4;
        }
        if (c3 >> at) & 1 == 1 {
            code = code + 8;
        }
        code
    }

    /// A counter table after two coordinates.
    fn counter_column(&self, b: usize, prior: &[F128], r: F128) -> (column: Vec<F128>)
        requires
            self.well_formed(),
            b < COUNTER_BITS,
            prior@.len() == 1,
        ensures
            column@.len() == self.size() / 4,
            forall|i: int|
                0 <= i < column@.len() ==> #[trigger] column@[i] == pair_at(
                    fold_factors(self.tables(), prior@),
                    2 + b,
                    i,
                    r,
                ),
    {
        let quarter: usize = self.rows.len() / 4;
        let mut lut: Vec<F128> = Vec::new();
        let mut code: usize = 0;
        while code < 16
            invariant
                self.well_formed(),
                b < COUNTER_BITS,
                prior@.len() == 1,
                code <= 16,
                lut@.len() == code,
                forall|k: int|
                    0 <= k < code ==> #[trigger] lut@[k] == code_entry(
                        self.beta@[b as int],
                        corner_weights(prior@.push(r)),
                        k,
                    ),
            decreases 16 - code,
        {
            lut.push(self.counter_value(b, code, prior, r));
            code = code + 1;
        }
        let mut column: Vec<F128> = Vec::new();
        let mut i: usize = 0;
        while i < quarter
            invariant
                self.well_formed(),
                b < COUNTER_BITS,
                prior@.len() == 1,
                quarter == self.size() / 4,
                lut@.len() == 16,
                forall|k: int|
                    0 <= k < 16 ==> #[trigger] lut@[k] == code_entry(
                        self.beta@[b as int],
                        corner_weights(prior@.push(r)),
                        k,
                    ),
                i <= quarter,
                column@.len() == i,
                forall|k: int|
                    0 <= k < i ==> #[trigger] column@[k] == pair_at(
                        fold_factors(self.tables(), prior@),
                        2 + b,
                        k,
                        r,
                    ),
            decreases quarter - i,
        {
            let at: usize = self.four_rows(i, b);
            proof {
                self.lemma_pair_code(prior@, i as int, b as int, r);
            }
            column.push(lut[at]);
            i = i + 1;
        }
        column
    }

    /// The full tables after two coordinates are bound.
    fn expand_prefix(
        &self,
        gates: Vec<F128>,
        values: Vec<F128>,
        prefix: F128,
        prior: &[F128],
        r: F128,
        before: Ghost<F128>,
    ) -> (factors: Vec<Vec<F128>>)
        requires
            self.well_formed(),
            prior@.len() == 1,
            ({
                let current = fold_factors(self.tables(), prior@);
                &&& self.prefix_stands(
                    current[0],
                    current[12],
                    before@,
                    current,
                    self.record_vars - 2,
                )
                &&& gates@ == fold_table(current[0], r)
                &&& values@ == fold_table(current[12], r)
            }),
            prefix == fmul(
                before@,
                lerp(fone(), self.delta_powers@[self.record_vars - 2], r),
            ),
        ensures
            tables(factors@) == fold_factors(self.tables(), prior@.push(r)),
    {
        let ghost ts = self.tables();
        let ghost current = fold_factors(ts, prior@);
        let ghost next = fold_factors(ts, prior@.push(r));
        let quarter: usize = self.rows.len() / 4;
        proof {
            self.lemma_half(1);
            assert(prior@.push(r) =~= prior@ + seq![r]);
            lemma_fold_factors_concat(ts, prior@, seq![r]);
            assert forall|f: int| 0 <= f < 13 implies #[trigger] next[f] == fold_table(
                current[f],
                r,
            ) && next[f].len() == quarter by {
                reveal_with_fuel(fold_all, 2);
                assert(seq![r].drop_first() =~= Seq::<F128>::empty());
                assert(current[f].len() == 2 * quarter);
            }
            assert(current[1].len() == 2 * quarter);
        }
        let mut factors: Vec<Vec<F128>> = Vec::new();
        factors.push(gates);
        let mut weights: Vec<F128> = Vec::new();
        let mut i: usize = 0;
        while i < quarter
            invariant
                self.well_formed(),
                quarter == pow2((self.record_vars - 2) as nat) * PLANE,
                current[1].len() == 2 * quarter,
                self.weights_are(current[1], before@),
                prefix == fmul(
                    before@,
                    lerp(fone(), self.delta_powers@[self.record_vars - 2], r),
                ),
                next[1] == fold_table(current[1], r),
                i <= quarter,
                weights@.len() == i,
                forall|k: int| 0 <= k < i ==> #[trigger] weights@[k] == next[1][k],
            decreases quarter - i,
        {
            proof {
                self.lemma_weight_pair(
                    current[1],
                    before@,
                    self.record_vars - 2,
                    i as int,
                    r,
                );
                lemma_fmul_comm(self.delta@[i as int / PLANE as int], prefix);
            }
            weights.push(prefix * self.delta[i / PLANE]);
            i = i + 1;
        }
        assert(weights@ =~= next[1]);
        factors.push(weights);
        let mut b: usize = 0;
        while b < COUNTER_BITS
            invariant
                self.well_formed(),
                prior@.len() == 1,
                ts == self.tables(),
                current == fold_factors(ts, prior@),
                quarter == self.size() / 4,
                forall|f: int|
                    0 <= f < 13 ==> #[trigger] next[f] == fold_table(current[f], r)
                        && next[f].len() == quarter,
                forall|f: int| 0 <= f < 13 ==> (#[trigger] current[f]).len() == 2 * quarter,
                b <= COUNTER_BITS,
                factors@.len() == 2 + b,
                forall|f: int| 0 <= f < 2 + b ==> (#[trigger] factors@[f])@ == next[f],
            decreases COUNTER_BITS - b,
        {
            let column = self.counter_column(b, prior, r);
            proof {
                assert(next[2 + b] == fold_table(current[2 + b], r));
                assert(current[2 + b].len() == 2 * quarter && current[0].len() == 2 * quarter);
                assert(column@ =~= next[2 + b]);
            }
            factors.push(column);
            b = b + 1;
        }
        factors.push(values);
        assert(tables(factors@) =~= next);
        factors
    }

    /// Prove the record scatter: the messages of the product sumcheck of the
    /// full tables, with the first two rounds by tables over the compact rows.
    pub fn prove(&self, challenges: &[F128]) -> (result: (ScatterProof, Vec<F128>))
        requires
            self.well_formed(),
            challenges@.len() == self.record_vars + SLOT_VARS,
        ensures
            result.0.claim == product_sum(self.tables()),
            tables(result.0.rounds@) == honest_rounds(self.tables(), challenges@),
            result.1@ == challenges@,
    {
        let ghost ts = self.tables();
        let ghost vars = (self.record_vars + SLOT_VARS) as nat;
        let total: usize = self.rows.len();
        let mut gates: Vec<F128> = Vec::new();
        let mut values: Vec<F128> = Vec::new();
        let mut i: usize = 0;
        while i < total
            invariant
                self.well_formed(),
                ts == self.tables(),
                total == self.rows@.len(),
                total == self.size(),
                i <= total,
                gates@.len() == i,
                values@.len() == i,
                forall|k: int| 0 <= k < i ==> #[trigger] gates@[k] == ts[0][k],
                forall|k: int| 0 <= k < i ==> #[trigger] values@[k] == ts[12][k],
            decreases total - i,
        {
            let row = self.rows[i];
            assert(self.rows@[i as int].value < 32_768);
            gates.push(bit_element(row.gate));
            values.push(self.gamma[row.value as usize]);
            i = i + 1;
        }
        let one = F128::one();
        let none = slice_subrange(challenges, 0, 0);
        proof {
            self.lemma_sizes(0);
            self.lemma_half(0);
            assert(none@ =~= Seq::<F128>::empty());
            assert(fold_factors(ts, none@) =~= ts);
            assert(gates@ =~= ts[0]);
            assert(values@ =~= ts[12]);
            assert(self.weights_are(ts[1], fone())) by {
                assert forall|i: int| 0 <= i < ts[1].len() implies #[trigger] ts[1][i] == fmul(
                    fone(),
                    self.delta@[i / PLANE as int],
                ) by {
                    lemma_fmul_one(self.delta@[i / PLANE as int]);
                }
            }
            assert forall|i: int|
                0 <= i < ts[0].len() && i % (PLANE as int) >= SLOTS implies #[trigger] ts[0][i]
                == fzero() by {
                assert(!self.rows@[i].gate);
            }
        }
        let first_evals = self.tabled_round(&gates, &values, one, none);
        let claim = first_evals[0] + first_evals[1];
        let r0 = challenges[0];
        let first = slice_subrange(challenges, 0, 1);
        proof {
            assert(shaped(ts, vars)) by {
                assert forall|f: int| 0 <= f < ts.len() implies (#[trigger] ts[f]).len() == pow2(
                    vars,
                ) by {}
            }
            lemma_round_sums(ts, vars);
            assert(node(0) == fzero() && node(1) == fone());
            assert(first@ =~= seq![r0]);
            self.lemma_bind(ts, fone(), self.record_vars - 1, r0);
        }
        fold_in_place(&mut gates, r0);
        fold_in_place(&mut values, r0);
        let p0 = one + r0 * (one + self.delta_powers[self.record_vars - 1]);
        proof {
            lemma_fmul_one(p0);
        }
        let ghost bound = fold_factors(ts, first@);
        let second_evals = self.tabled_round(&gates, &values, p0, first);
        let r1 = challenges[1];
        proof {
            self.lemma_half(1);
            assert(bound[0].len() % 2 == 0 && bound[12].len() % 2 == 0);
        }
        fold_in_place(&mut gates, r1);
        fold_in_place(&mut values, r1);
        let p1 = p0 * (one + r1 * (one + self.delta_powers[self.record_vars - 2]));
        let factors = self.expand_prefix(gates, values, p1, first, r1, Ghost(p0));
        let mut rounds: Vec<Vec<F128>> = Vec::new();
        rounds.push(first_evals);
        rounds.push(second_evals);
        let mut point: Vec<F128> = Vec::new();
        point.push(r0);
        point.push(r1);
        let length: usize = challenges.len();
        let rest = slice_subrange(challenges, 2, length);
        let ghost two = challenges@.take(2);
        let ghost folded = fold_factors(ts, two);
        proof {
            assert(first@.push(r1) =~= two);
            assert(rest@ =~= challenges@.skip(2));
            assert(point@ =~= two);
            assert(shaped(folded, rest@.len())) by {
                lemma_fold_factors_concat(ts, first@, seq![r1]);
                assert(first@ + seq![r1] =~= two);
                lemma_round_binds(ts, vars, r0);
                lemma_round_binds(bound, (vars - 1) as nat, r1);
            }
        }
        let ghost head = rounds@;
        prove_remaining(factors, rest, &mut rounds, &mut point);
        proof {
            assert(point@ =~= challenges@);
            let expected = honest_rounds(ts, challenges@);
            assert forall|j: int| 0 <= j < expected.len() implies tables(rounds@)[j]
                == #[trigger] expected[j] by {
                if j == 0 {
                    assert(challenges@.take(0) =~= none@);
                    assert(tables(rounds@)[0] == tables(head)[0]);
                } else if j == 1 {
                    assert(challenges@.take(1) =~= first@);
                    assert(tables(rounds@)[1] == tables(head)[1]);
                } else {
                    let tail = rest@.take(j - 2);
                    assert(two + tail =~= challenges@.take(j));
                    lemma_fold_factors_concat(ts, two, tail);
                    assert(tables(rounds@)[j] == honest_rounds(folded, rest@)[j - 2]);
                }
            }
            assert(tables(rounds@) =~= expected);
        }
        (ScatterProof { claim, rounds }, point)
    }
}

} // verus!
