//! Lookup tables of subset sums.
use vstd::arithmetic::power2::{
    lemma2_to64, lemma_pow2_adds, lemma_pow2_pos, lemma_pow2_unfold, pow2,
};
use vstd::prelude::*;

use crate::field::{fadd, fselect, lemma_fadd_assoc, lemma_fadd_zero, F128};
use crate::hash_to_point_slots::relation::nat_bit;
use crate::sums::{fsum, lemma_fsum_congr};

verus! {

/// The sum of the weights at the bits of `mask`.
pub open spec fn subset_sum(weights: Seq<F128>, mask: int) -> F128 {
    fsum(|j: int| fselect(nat_bit(mask, j), weights[j]), weights.len() as int)
}

/// Adding `2^j` to a number below it sets bit `j` and keeps the others.
pub proof fn lemma_bit_of_sum(m: int, j: nat, i: int)
    requires
        0 <= m < pow2(j),
        0 <= i <= j,
    ensures
        nat_bit(m + pow2(j), i) == (i == j || nat_bit(m, i)),
        i == j ==> !nat_bit(m, i),
{
    lemma_pow2_pos(j);
    let p = pow2(i as nat) as int;
    lemma_pow2_pos(i as nat);
    if i == j {
        vstd::arithmetic::div_mod::lemma_fundamental_div_mod_converse(m + p, p, 1, m);
        vstd::arithmetic::div_mod::lemma_fundamental_div_mod_converse(m, p, 0, m);
    } else {
        let k = pow2((j - i) as nat) as int;
        lemma_pow2_adds(i as nat, (j - i) as nat);
        lemma_pow2_unfold((j - i) as nat);
        let half = pow2((j - i - 1) as nat) as int;
        vstd::arithmetic::div_mod::lemma_hoist_over_denominator(m, k, p as nat);
        assert(p * k == k * p) by (nonlinear_arith);
        assert((m + pow2(j)) / p == m / p + k);
        assert(k == 2 * half);
    }
}

/// The table of `start` plus each subset sum of the weights.
pub fn subset_sums(start: F128, weights: &[F128]) -> (table: Vec<F128>)
    requires
        pow2(weights@.len()) <= usize::MAX,
    ensures
        table@.len() == pow2(weights@.len()),
        forall|mask: int|
            0 <= mask < table@.len() ==> #[trigger] table@[mask] == fadd(
                start,
                subset_sum(weights@, mask),
            ),
{
    let mut table: Vec<F128> = Vec::new();
    table.push(start);
    let mut bit: usize = 0;
    proof {
        lemma2_to64();
        lemma_fadd_zero(start);
        assert(weights@.take(0).len() == 0);
    }
    while bit < weights.len()
        invariant
            bit <= weights@.len(),
            pow2(weights@.len()) <= usize::MAX,
            table@.len() == pow2(bit as nat),
            forall|mask: int|
                0 <= mask < table@.len() ==> #[trigger] table@[mask] == fadd(
                    start,
                    subset_sum(weights@.take(bit as int), mask),
                ),
        decreases weights@.len() - bit,
    {
        let size: usize = table.len();
        let weight = weights[bit];
        let ghost before = table@;
        let ghost low = weights@.take(bit as int);
        let ghost more = weights@.take(bit + 1);
        proof {
            lemma_pow2_unfold((bit + 1) as nat);
            if bit + 1 < weights@.len() {
                vstd::arithmetic::power2::lemma_pow2_strictly_increases(
                    (bit + 1) as nat,
                    weights@.len(),
                );
            }
            assert(more =~= low.push(weight));
        }
        let mut m: usize = 0;
        while m < size
            invariant
                m <= size,
                size == pow2(bit as nat),
                size == before.len(),
                2 * size <= usize::MAX,
                low.len() == bit,
                more == low.push(weight),
                table@.len() == size + m,
                forall|mask: int|
                    0 <= mask < size ==> #[trigger] before[mask] == fadd(
                        start,
                        subset_sum(low, mask),
                    ),
                forall|mask: int| 0 <= mask < size ==> #[trigger] table@[mask] == before[mask],
                forall|mask: int|
                    size <= mask < size + m ==> #[trigger] table@[mask] == fadd(
                        start,
                        subset_sum(more, mask),
                    ),
            decreases size - m,
        {
            let value = table[m] + weight;
            proof {
                let mask = m + pow2(bit as nat);
                let f = |j: int| fselect(nat_bit(m as int, j), low[j]);
                let g = |j: int| fselect(nat_bit(mask, j), more[j]);
                assert forall|j: int| 0 <= j < bit implies #[trigger] f(j) == g(j) by {
                    lemma_bit_of_sum(m as int, bit as nat, j);
                }
                lemma_fsum_congr(f, g, bit as int);
                lemma_bit_of_sum(m as int, bit as nat, bit as int);
                assert(before[m as int] == fadd(start, subset_sum(low, m as int)));
                lemma_fadd_assoc(start, subset_sum(low, m as int), weight);
            }
            table.push(value);
            m = m + 1;
        }
        proof {
            assert forall|mask: int| 0 <= mask < table@.len() implies #[trigger] table@[mask]
                == fadd(start, subset_sum(more, mask)) by {
                if mask < size {
                    lemma_bit_of_sum(mask, bit as nat, bit as int);
                    assert(before[mask] == fadd(start, subset_sum(low, mask)));
                    let f = |j: int| fselect(nat_bit(mask, j), low[j]);
                    let g = |j: int| fselect(nat_bit(mask, j), more[j]);
                    lemma_fsum_congr(f, g, bit as int);
                    lemma_fadd_zero(subset_sum(low, mask));
                }
            }
        }
        bit = bit + 1;
    }
    assert(weights@.take(bit as int) =~= weights@);
    table
}

} // verus!
