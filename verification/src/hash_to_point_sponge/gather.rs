//! Evaluations of a packed witness by gathering the selected bits.
use vstd::arithmetic::power2::pow2;
use vstd::prelude::*;

use crate::claim_closure::split_boolean;
use crate::field::{
    fmul, fone, fzero, lemma_fadd_comm, lemma_fadd_zero, lemma_fmul_comm, lemma_fmul_one,
    lemma_fmul_zero, F128,
};
use crate::mle::{bit_table, bit_value, eq_weight, lemma_mle_is_weighted_sum, mle};
use crate::packed_bits::{bit, packed_bit};
use crate::packed_mle::{
    fixed_address, free_address, free_coordinates, free_point, high_tensor, leading_bits,
    lemma_exponent_fits, lemma_free_coordinates_below, lemma_high_sum, lemma_selected_sum,
    same_free,
};
use crate::sums::{fsum, lemma_fsum_congr};

verus! {

/// The extension of the witness bits at a point.
pub open spec fn bit_extension(z: Seq<F128>, point: Seq<F128>) -> F128 {
    mle(bit_table(leading_bits(z, pow2(point.len()))), point)
}

/// The witness covers the point's domain.
pub open spec fn covers_point(z: Seq<F128>, point: Seq<F128>) -> bool {
    pow2(point.len()) <= usize::MAX && 128 * z.len() >= pow2(point.len())
}

/// A selected bit's weight.
spec fn selected(z: Seq<F128>, point: Seq<F128>, i: int) -> F128 {
    let free = free_coordinates(point);
    fmul(
        eq_weight(free_point(free), i),
        bit_value(packed_bit(z, fixed_address(point) + free_address(free, i))),
    )
}

proof fn lemma_selected(z: Seq<F128>, point: Seq<F128>)
    requires
        covers_point(z, point),
    ensures
        bit_extension(z, point) == fsum(
            |i: int| selected(z, point, i),
            pow2(free_coordinates(point).len()) as int,
        ),
{
    lemma_exponent_fits(point.len());
    let table = bit_table(leading_bits(z, pow2(point.len())));
    lemma_mle_is_weighted_sum(table, point);
    let f = |h: int| bit_value(packed_bit(z, h));
    lemma_high_sum(point, f);
    let a = |h: int| fmul(table[h], eq_weight(point, h));
    let b = |h: int| fmul(eq_weight(point, h), f(h));
    assert forall|h: int| 0 <= h < pow2(point.len()) implies #[trigger] a(h) == b(h) by {
        lemma_fmul_comm(table[h], eq_weight(point, h));
    }
    lemma_fsum_congr(a, b, pow2(point.len()) as int);
    let free = free_coordinates(point);
    lemma_fsum_congr(
        |i: int| selected(z, point, i),
        |i: int|
            fmul(
                eq_weight(free_point(free), i),
                f(fixed_address(point) + free_address(free, i)),
            ),
        pow2(free.len()) as int,
    );
}

/// The gathered sum over precomputed addresses and weights.
fn gather(
    z: &[F128],
    fixed: usize,
    addresses: &Vec<usize>,
    weights: &Vec<F128>,
    point: &Vec<F128>,
) -> (sum: F128)
    requires
        covers_point(z@, point@),
        fixed == fixed_address(point@),
        addresses@.len() == pow2(free_coordinates(point@).len()),
        weights@.len() == addresses@.len(),
        forall|i: int|
            0 <= i < addresses@.len() ==> #[trigger] addresses@[i] == free_address(
                free_coordinates(point@),
                i,
            ),
        forall|i: int|
            0 <= i < weights@.len() ==> #[trigger] weights@[i] == eq_weight(
                free_point(free_coordinates(point@)),
                i,
            ),
    ensures
        sum == bit_extension(z@, point@),
{
    let ghost f = |i: int| selected(z@, point@, i);
    let mut sum = F128::zero();
    let mut i: usize = 0;
    proof {
        lemma_exponent_fits(point@.len());
    }
    while i < addresses.len()
        invariant
            covers_point(z@, point@),
            point@.len() < 64,
            fixed == fixed_address(point@),
            addresses@.len() == pow2(free_coordinates(point@).len()),
            weights@.len() == addresses@.len(),
            forall|i: int|
                0 <= i < addresses@.len() ==> #[trigger] addresses@[i] == free_address(
                    free_coordinates(point@),
                    i,
                ),
            forall|i: int|
                0 <= i < weights@.len() ==> #[trigger] weights@[i] == eq_weight(
                    free_point(free_coordinates(point@)),
                    i,
                ),
            f == (|i: int| selected(z@, point@, i)),
            i <= addresses@.len(),
            sum == fsum(f, i as int),
        decreases addresses@.len() - i,
    {
        proof {
            lemma_selected_sum(point@, i as int);
            lemma_fmul_one(weights@[i as int]);
            lemma_fmul_comm(weights@[i as int], fone());
            lemma_fmul_zero(weights@[i as int]);
            lemma_fmul_comm(weights@[i as int], fzero());
            lemma_fadd_zero(sum);
            lemma_fadd_comm(sum, fzero());
            assert(addresses@[i as int] == free_address(free_coordinates(point@), i as int));
        }
        if bit(z, fixed + addresses[i]) {
            sum = sum + weights[i];
        }
        i = i + 1;
    }
    proof {
        lemma_selected(z@, point@);
    }
    sum
}

/// The extension of the packed witness at a point.
pub fn gather_eval(z_packed: &[F128], point: &Vec<F128>) -> (value: F128)
    requires
        covers_point(z_packed@, point@),
    ensures
        value == bit_extension(z_packed@, point@),
{
    proof {
        lemma_exponent_fits(point@.len());
        lemma_free_coordinates_below(point@);
    }
    let (fixed, free) = split_boolean(point.as_slice());
    let (addresses, weights) = high_tensor(&free, point.len());
    gather(z_packed, fixed, &addresses, &weights, point)
}

/// The addresses and weights of one list of free coordinates.
struct Group {
    free: Vec<(usize, F128)>,
    addresses: Vec<usize>,
    weights: Vec<F128>,
}

impl Group {
    spec fn well_formed(self) -> bool {
        &&& self.addresses@.len() == pow2(self.free@.len())
        &&& self.weights@.len() == pow2(self.free@.len())
        &&& forall|i: int|
            0 <= i < self.addresses@.len() ==> #[trigger] self.addresses@[i] == free_address(
                self.free@,
                i,
            )
        &&& forall|i: int|
            0 <= i < self.weights@.len() ==> #[trigger] self.weights@[i] == eq_weight(
                free_point(self.free@),
                i,
            )
    }
}

/// The extension of the packed witness at many points; points with the same
/// free coordinates share their addresses and weights.
pub fn gather_eval_many(z_packed: &[F128], points: &[Vec<F128>]) -> (values: Vec<F128>)
    requires
        forall|k: int| 0 <= k < points@.len() ==> covers_point(z_packed@, (#[trigger] points@[k])@),
    ensures
        values@ == Seq::new(points@.len(), |k: int| bit_extension(z_packed@, points@[k]@)),
{
    let mut values: Vec<F128> = Vec::new();
    let mut groups: Vec<Group> = Vec::new();
    let mut k: usize = 0;
    while k < points.len()
        invariant
            forall|k: int|
                0 <= k < points@.len() ==> covers_point(z_packed@, (#[trigger] points@[k])@),
            forall|g: int| 0 <= g < groups@.len() ==> (#[trigger] groups@[g]).well_formed(),
            k <= points@.len(),
            values@.len() == k,
            forall|j: int|
                0 <= j < k ==> #[trigger] values@[j] == bit_extension(z_packed@, points@[j]@),
        decreases points@.len() - k,
    {
        let point = &points[k];
        assert(covers_point(z_packed@, points@[k as int]@));
        proof {
            lemma_exponent_fits(point@.len());
            lemma_free_coordinates_below(point@);
        }
        let (fixed, free) = split_boolean(point.as_slice());
        let mut g: usize = 0;
        while g < groups.len() && !same_free(&groups[g].free, &free)
            invariant
                g <= groups@.len(),
            decreases groups@.len() - g,
        {
            g = g + 1;
        }
        if g == groups.len() {
            let (addresses, weights) = high_tensor(&free, point.len());
            let ghost before = groups@;
            groups.push(Group { free, addresses, weights });
            proof {
                assert forall|i: int| 0 <= i < groups@.len() implies (
                #[trigger] groups@[i]).well_formed() by {
                    if i < before.len() {
                        assert(groups@[i] == before[i]);
                    }
                }
            }
        }
        assert(groups@[g as int].well_formed());
        let group = &groups[g];
        assert(group.free@ == free_coordinates(point@));
        let value = gather(z_packed, fixed, &group.addresses, &group.weights, point);
        values.push(value);
        k = k + 1;
    }
    assert(values@ =~= Seq::new(points@.len(), |k: int| bit_extension(z_packed@, points@[k]@)));
    values
}

} // verus!
