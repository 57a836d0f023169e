//! Claim closure: many evaluation claims on one bit table become one.
//!
//! With claims `(p_i, v_i)` on the bit table `z` and a combiner `mu` drawn
//! after the values, `sum_i mu^i v_i = sum_x W(x) z(x)` for the weights
//! `W(x) = sum_i mu^i eq(p_i, x)`. A two-factor sumcheck proves the right side;
//! its terminal is `W(r) z(r)`, of which the verifier computes `W(r)` itself,
//! and `z(r)` is the claim that is left.
use vstd::arithmetic::power2::{
    lemma2_to64, lemma_pow2_pos, lemma_pow2_strictly_increases, lemma_pow2_unfold, pow2,
};
use vstd::prelude::*;
use vstd::slice::slice_subrange;

use crate::field::{
    fadd, fmul, fone, fzero, lemma_fadd_assoc, lemma_fadd_comm, lemma_fadd_self, lemma_fadd_swap,
    lemma_fadd_zero, lemma_fmul_assoc, lemma_fmul_comm, lemma_fmul_distr, lemma_fmul_one,
    lemma_fmul_zero, F128,
};
use crate::hash_to_point_scatter::soundness::{
    accepted_sums_are_true, coincidence_free, lemma_combined_values_bind,
};
use crate::hash_to_point_scatter::{
    honest_proof_verifies, honest_rounds, interpolate, lemma_fold_factors_concat, prove_remaining,
    walk_rounds,
};
use crate::hash_to_point_slots::setup::power_of_two;
use crate::mle::{
    bit_table, bit_value, eq_weight, fold_all, fold_table, lemma_eq_weight_first, lemma_lerp,
    lemma_mle_combination, lemma_mle_is_weighted_sum, lemma_mle_scale, lerp, mle,
};
use crate::packed_bits::{bit, packed_bit};
use crate::packed_mle::{
    fixed_address, free_address, free_below, free_coordinates, free_point, high_tensor,
    leading_bits, lemma_exponent_fits, lemma_fixed_range, lemma_free_coordinates_below,
    lemma_high_sum, lemma_selected_sum, same_free,
};
use crate::polynomial::distinct;
use crate::sumcheck::{
    fold_factors, lagrange, lerp_term, node, product_sum, round_evals, shaped, tables, term,
};
use crate::sums::{
    fpow, fprod, fsum, lemma_fsum_congr, lemma_fsum_exchange, lemma_fsum_scale, lemma_fsum_single,
    lemma_fsum_split, lemma_fsum_zero,
};

verus! {

/// The closure messages: the round evaluations at the nodes 0, 1 and 2, and
/// the claimed evaluation of the bit table at the challenge point.
#[derive(Clone, Debug)]
pub struct ClosureProof {
    pub rounds: Vec<[F128; 3]>,
    pub z_value: F128,
}

/// The points of a list of claims.
pub open spec fn claim_points(points: Seq<Vec<F128>>) -> Seq<Seq<F128>> {
    Seq::new(points.len(), |i: int| points[i]@)
}

/// The messages of a list of rounds.
pub open spec fn round_list(rounds: Seq<[F128; 3]>) -> Seq<Seq<F128>> {
    Seq::new(rounds.len(), |k: int| rounds[k]@)
}

/// `W(x) = sum_i mu^i eq(p_i, x)`.
pub open spec fn weight_at(points: Seq<Seq<F128>>, mu: F128, x: int) -> F128 {
    fsum(|i: int| fmul(fpow(mu, i), eq_weight(points[i], x)), points.len() as int)
}

/// The weights over the domain.
pub open spec fn weight_table(points: Seq<Seq<F128>>, mu: F128, vars: nat) -> Seq<F128> {
    Seq::new(pow2(vars), |x: int| weight_at(points, mu, x))
}

/// The two factors of the closure sumcheck.
pub open spec fn closure_tables(
    words: Seq<F128>,
    points: Seq<Seq<F128>>,
    mu: F128,
    vars: nat,
) -> Seq<Seq<F128>> {
    seq![weight_table(points, mu, vars), bit_table(leading_bits(words, pow2(vars)))]
}

// ---------------------------------------------------------------------------
// The weight families.
// ---------------------------------------------------------------------------

/// The coordinates of a point that are neither zero nor one, with the address
/// bits that they bind, and the address that the ones select.
pub fn split_boolean(point: &[F128]) -> (split: (usize, Vec<(usize, F128)>))
    requires
        pow2(point@.len()) <= usize::MAX,
    ensures
        split.0 == fixed_address(point@),
        split.1@ == free_coordinates(point@),
{
    let vars: usize = point.len();
    let mut fixed: usize = 0;
    let mut reversed: Vec<(usize, F128)> = Vec::new();
    let mut done: usize = 0;
    proof {
        assert(point@.skip(vars as int) =~= Seq::<F128>::empty());
    }
    while done < vars
        invariant
            vars == point@.len(),
            pow2(vars as nat) <= usize::MAX,
            done <= vars,
            fixed == fixed_address(point@.skip(vars - done)),
            reversed@.len() == free_coordinates(point@.skip(vars - done)).len(),
            forall|i: int|
                0 <= i < reversed@.len() ==> #[trigger] reversed@[i] == free_coordinates(
                    point@.skip(vars - done),
                )[reversed@.len() - 1 - i],
        decreases vars - done,
    {
        let r = point[vars - 1 - done];
        let ghost rest = point@.skip(vars - done);
        let ghost part = point@.skip(vars - 1 - done);
        let ghost before = reversed@;
        proof {
            assert(part.drop_first() =~= rest);
            assert(part[0] == r);
            lemma_fixed_range(part);
            lemma_fixed_range(rest);
            lemma_pow2_strictly_increases(done as nat, vars as nat);
            if done + 1 < vars {
                lemma_pow2_strictly_increases((done + 1) as nat, vars as nat);
            }
            lemma_pow2_unfold((done + 1) as nat);
            assert(fone() != fzero());
        }
        if r == F128::one() {
            fixed = fixed + power_of_two(done);
        } else if r != F128::zero() {
            reversed.push((done, r));
        }
        proof {
            let now = free_coordinates(part);
            if r != fone() && r != fzero() {
                assert forall|i: int| 0 <= i < reversed@.len() implies #[trigger] reversed@[i]
                    == now[reversed@.len() - 1 - i] by {
                    if i < before.len() {
                        assert(reversed@[i] == before[i]);
                        assert(now[reversed@.len() - 1 - i] == free_coordinates(
                            rest,
                        )[before.len() - 1 - i]);
                    }
                }
            }
        }
        done = done + 1;
    }
    assert(point@.skip(0) =~= point@);
    let total: usize = reversed.len();
    let mut free: Vec<(usize, F128)> = Vec::new();
    let mut j: usize = 0;
    while j < total
        invariant
            total == reversed@.len(),
            total == free_coordinates(point@).len(),
            j <= total,
            free@.len() == j,
            forall|i: int|
                0 <= i < total ==> #[trigger] reversed@[i] == free_coordinates(
                    point@,
                )[total - 1 - i],
            forall|i: int| 0 <= i < j ==> #[trigger] free@[i] == free_coordinates(point@)[i],
        decreases total - j,
    {
        free.push(reversed[total - 1 - j]);
        j = j + 1;
    }
    assert(free@ =~= free_coordinates(point@));
    (fixed, free)
}

/// The corners of one free signature: relative addresses and weights.
pub struct Family {
    pub signature: Vec<(usize, F128)>,
    pub rel_addr: Vec<usize>,
    pub tensor: Vec<F128>,
}

impl Family {
    /// The corners are those of the signature.
    pub open spec fn well_formed(self, vars: int) -> bool {
        &&& free_below(self.signature@, vars)
        &&& self.rel_addr@.len() == pow2(self.signature@.len())
        &&& self.tensor@.len() == pow2(self.signature@.len())
        &&& forall|i: int|
            0 <= i < self.rel_addr@.len() ==> #[trigger] self.rel_addr@[i] == free_address(
                self.signature@,
                i,
            )
        &&& forall|i: int|
            0 <= i < self.tensor@.len() ==> #[trigger] self.tensor@[i] == eq_weight(
                free_point(self.signature@),
                i,
            )
    }
}

/// The decomposition of the weights: one tensor per distinct free signature,
/// and for each claim its Boolean offset, its family and its power of `mu`.
pub struct WeightFamilies {
    pub families: Vec<Family>,
    pub members: Vec<(usize, usize, F128)>,
}

impl WeightFamilies {
    /// The families and members decompose the first claims.
    pub open spec fn decomposes(
        self,
        points: Seq<Seq<F128>>,
        mu: F128,
        vars: int,
    ) -> bool {
        &&& self.members@.len() == points.len()
        &&& forall|f: int|
            0 <= f < self.families@.len() ==> (#[trigger] self.families@[f]).well_formed(vars)
        &&& forall|i: int|
            0 <= i < points.len() ==> ({
                let (fixed, family, coef) = #[trigger] self.members@[i];
                &&& fixed == fixed_address(points[i])
                &&& family < self.families@.len()
                &&& self.families@[family as int].signature@ == free_coordinates(points[i])
                &&& coef == fpow(mu, i)
            })
    }

    /// The index of the family of a signature, built on first use.
    fn find(&mut self, free: Vec<(usize, F128)>, vars: usize) -> (index: usize)
        requires
            pow2(vars as nat) <= usize::MAX,
            free_below(free@, vars as int),
            forall|f: int|
                0 <= f < old(self).families@.len() ==> (
                #[trigger] old(self).families@[f]).well_formed(vars as int),
        ensures
            final(self).members == old(self).members,
            old(self).families@.len() <= final(self).families@.len(),
            forall|f: int|
                0 <= f < old(self).families@.len() ==> #[trigger] final(self).families@[f]
                    == old(self).families@[f],
            forall|f: int|
                0 <= f < final(self).families@.len() ==> (
                #[trigger] final(self).families@[f]).well_formed(vars as int),
            index < final(self).families@.len(),
            final(self).families@[index as int].signature@ == free@,
    {
        let mut k: usize = 0;
        while k < self.families.len()
            invariant
                *self == *old(self),
                forall|f: int|
                    0 <= f < self.families@.len() ==> (#[trigger] self.families@[f]).well_formed(
                        vars as int,
                    ),
                k <= self.families@.len(),
            decreases self.families@.len() - k,
        {
            if same_free(&self.families[k].signature, &free) {
                return k;
            }
            k = k + 1;
        }
        let (rel_addr, tensor) = high_tensor(&free, vars);
        self.families.push(Family { signature: free, rel_addr, tensor });
        self.families.len() - 1
    }
}

/// Decompose the weights of the claims.
pub fn weight_families(points: &[Vec<F128>], mu: F128, vars: usize) -> (weights: WeightFamilies)
    requires
        pow2(vars as nat) <= usize::MAX,
        forall|i: int| 0 <= i < points@.len() ==> (#[trigger] points@[i])@.len() == vars,
    ensures
        weights.decomposes(claim_points(points@), mu, vars as int),
{
    let ghost ps = claim_points(points@);
    let mut weights = WeightFamilies { families: Vec::new(), members: Vec::new() };
    let mut power = F128::one();
    let mut i: usize = 0;
    while i < points.len()
        invariant
            pow2(vars as nat) <= usize::MAX,
            forall|i: int| 0 <= i < points@.len() ==> (#[trigger] points@[i])@.len() == vars,
            ps == claim_points(points@),
            i <= points@.len(),
            power == fpow(mu, i as int),
            weights.decomposes(ps.take(i as int), mu, vars as int),
        decreases points@.len() - i,
    {
        let ghost before = weights;
        assert(points@[i as int]@.len() == vars);
        let (fixed, free) = split_boolean(points[i].as_slice());
        proof {
            lemma_exponent_fits(vars as nat);
            lemma_free_coordinates_below(points@[i as int]@);
        }
        let family = weights.find(free, vars);
        weights.members.push((fixed, family, power));
        proof {
            let now = ps.take(i + 1);
            assert forall|k: int| 0 <= k < now.len() implies ({
                let (fixed, family, coef) = #[trigger] weights.members@[k];
                &&& fixed == fixed_address(now[k])
                &&& family < weights.families@.len()
                &&& weights.families@[family as int].signature@ == free_coordinates(now[k])
                &&& coef == fpow(mu, k)
            }) by {
                if k < i {
                    assert(weights.members@[k] == before.members@[k]);
                    assert(now[k] == ps.take(i as int)[k]);
                    let f = before.members@[k].1 as int;
                    assert(weights.families@[f] == before.families@[f]);
                }
            }
        }
        power = power * mu;
        i = i + 1;
    }
    assert(ps.take(i as int) =~= ps);
    weights
}

// ---------------------------------------------------------------------------
// The first round, entry by entry.
// ---------------------------------------------------------------------------

/// A sum over the domain under a claim's equality weights, corner by corner.
proof fn lemma_entries(point: Seq<F128>, f: spec_fn(int) -> F128)
    requires
        point.len() <= usize::MAX,
    ensures
        fsum(|x: int| fmul(eq_weight(point, x), f(x)), pow2(point.len()) as int) == fsum(
            |c: int|
                fmul(
                    eq_weight(free_point(free_coordinates(point)), c),
                    f(fixed_address(point) + free_address(free_coordinates(point), c)),
                ),
            pow2(free_coordinates(point).len()) as int,
        ),
{
    lemma_high_sum(point, f);
}

/// The factor that an entry carries into the folded table at `y`.
spec fn fold_factor(x: int, y: int, half: int, r: F128) -> F128 {
    if x == y {
        fadd(fone(), r)
    } else if x == half + y {
        r
    } else {
        fzero()
    }
}

/// The folded equality table, as a sum over the domain.
proof fn lemma_folded_entry(point: Seq<F128>, half: int, y: int, r: F128)
    requires
        point.len() > 0,
        pow2(point.len()) == 2 * half,
        0 <= y < half,
    ensures
        fsum(|x: int| fmul(eq_weight(point, x), fold_factor(x, y, half, r)), 2 * half) == lerp(
            eq_weight(point, y),
            eq_weight(point, half + y),
            r,
        ),
{
    let f = |x: int| fmul(eq_weight(point, x), fold_factor(x, y, half, r));
    lemma_fsum_split(f, half, half);
    assert forall|x: int| 0 <= x < half && x != y implies #[trigger] f(x) == fzero() by {
        lemma_fmul_zero(eq_weight(point, x));
    }
    lemma_fsum_single(f, half, y);
    let g = |i: int| f(half + i);
    assert forall|i: int| 0 <= i < half && i != y implies #[trigger] g(i) == fzero() by {
        lemma_fmul_zero(eq_weight(point, half + i));
    }
    lemma_fsum_single(g, half, y);
    lemma_fsum_congr(g, |i: int| f(half + i), half);
    let a = eq_weight(point, y);
    let b = eq_weight(point, half + y);
    lemma_lerp(a, b, r);
    lemma_fmul_comm(a, fadd(fone(), r));
    lemma_fmul_comm(b, r);
}

/// Interpolation is linear over combinations.
pub proof fn lemma_lerp_sum(
    coef: spec_fn(int) -> F128,
    a: spec_fn(int) -> F128,
    b: spec_fn(int) -> F128,
    n: int,
    r: F128,
)
    ensures
        lerp(
            fsum(|i: int| fmul(coef(i), a(i)), n),
            fsum(|i: int| fmul(coef(i), b(i)), n),
            r,
        ) == fsum(|i: int| fmul(coef(i), lerp(a(i), b(i), r)), n),
    decreases n,
{
    let fa = |i: int| fmul(coef(i), a(i));
    let fb = |i: int| fmul(coef(i), b(i));
    if n <= 0 {
        lemma_fadd_zero(fzero());
        lemma_fmul_zero(r);
    } else {
        lemma_lerp_sum(coef, a, b, n - 1, r);
        let (sa, sb) = (fsum(fa, n - 1), fsum(fb, n - 1));
        let (ta, tb) = (fa(n - 1), fb(n - 1));
        lemma_fadd_swap(sa, ta, sb, tb);
        lemma_fmul_distr(r, fadd(sa, sb), fadd(ta, tb));
        lemma_fadd_swap(sa, ta, fmul(r, fadd(sa, sb)), fmul(r, fadd(ta, tb)));
        let c = coef(n - 1);
        let (x, y) = (a(n - 1), b(n - 1));
        lemma_fmul_distr(c, x, y);
        lemma_fmul_assoc(r, c, fadd(x, y));
        lemma_fmul_comm(r, c);
        lemma_fmul_assoc(c, r, fadd(x, y));
        lemma_fmul_distr(c, x, fmul(r, fadd(x, y)));
    }
}

/// The contribution of the first claims to the folded weights at `y`.
spec fn folded_weight(points: Seq<Seq<F128>>, mu: F128, half: int, y: int, r: F128, n: int) -> F128 {
    fsum(
        |i: int|
            fmul(fpow(mu, i), lerp(eq_weight(points[i], y), eq_weight(points[i], half + y), r)),
        n,
    )
}

/// The weight table with its leading variable bound to `r`, scattered from the
/// entries.
fn fold_weights(
    weights: &WeightFamilies,
    vars: usize,
    r: F128,
    points: Ghost<Seq<Seq<F128>>>,
    mu: Ghost<F128>,
) -> (table: Vec<F128>)
    requires
        1 <= vars,
        pow2(vars as nat) <= usize::MAX,
        weights.decomposes(points@, mu@, vars as int),
        forall|i: int| 0 <= i < points@.len() ==> (#[trigger] points@[i]).len() == vars,
    ensures
        table@ == fold_table(weight_table(points@, mu@, vars as nat), r),
{
    proof {
        lemma_pow2_unfold(vars as nat);
        lemma_exponent_fits(vars as nat);
    }
    let half: usize = power_of_two(vars - 1);
    let low_factor = F128::one() + r;
    let mut table: Vec<F128> = Vec::new();
    let mut y: usize = 0;
    while y < half
        invariant
            y <= half,
            table@.len() == y,
            forall|k: int| 0 <= k < y ==> #[trigger] table@[k] == fzero(),
        decreases half - y,
    {
        table.push(F128::zero());
        y = y + 1;
    }
    let mut i: usize = 0;
    while i < weights.members.len()
        invariant
            1 <= vars < 64,
            2 * half == pow2(vars as nat),
            2 * half <= usize::MAX,
            low_factor == fadd(fone(), r),
            weights.decomposes(points@, mu@, vars as int),
            forall|i: int| 0 <= i < points@.len() ==> (#[trigger] points@[i]).len() == vars,
            i <= points@.len(),
            table@.len() == half,
            forall|y: int|
                0 <= y < half ==> #[trigger] table@[y] == folded_weight(
                    points@,
                    mu@,
                    half as int,
                    y,
                    r,
                    i as int,
                ),
        decreases weights.members@.len() - i,
    {
        let (fixed, family, coef) = weights.members[i];
        let ghost point = points@[i as int];
        let ghost free = free_coordinates(point);
        let ghost before = table@;
        let corners = &weights.families[family];
        assert(weights.members@[i as int].0 == fixed);
        assert(corners.well_formed(vars as int));
        proof {
            lemma_fmul_zero(coef);
            assert forall|y: int| 0 <= y < half implies #[trigger] table@[y] == fadd(
                before[y],
                fmul(coef, fzero()),
            ) by {
                lemma_fadd_zero(before[y]);
            }
        }
        let mut c: usize = 0;
        while c < corners.rel_addr.len()
            invariant
                1 <= vars < 64,
                2 * half == pow2(vars as nat),
                2 * half <= usize::MAX,
                low_factor == fadd(fone(), r),
                point.len() == vars,
                free == free_coordinates(point),
                corners.well_formed(vars as int),
                corners.signature@ == free,
                fixed == fixed_address(point),
                before.len() == half,
                table@.len() == half,
                c <= corners.rel_addr@.len(),
                forall|y: int|
                    0 <= y < half ==> #[trigger] table@[y] == fadd(
                        before[y],
                        fmul(
                            coef,
                            fsum(
                                |k: int|
                                    fmul(
                                        eq_weight(free_point(free), k),
                                        fold_factor(
                                            fixed_address(point) + free_address(free, k),
                                            y,
                                            half as int,
                                            r,
                                        ),
                                    ),
                                c as int,
                            ),
                        ),
                    ),
            decreases corners.rel_addr@.len() - c,
        {
            proof {
                lemma_selected_sum(point, c as int);
            }
            let address: usize = fixed + corners.rel_addr[c];
            let weight = coef * corners.tensor[c];
            let ghost now = table@;
            let (slot, factor): (usize, F128) = if address >= half {
                (address - half, r)
            } else {
                (address, low_factor)
            };
            let sum = table[slot] + factor * weight;
            table[slot] = sum;
            proof {
                let e = eq_weight(free_point(free), c as int);
                assert forall|y: int| 0 <= y < half implies #[trigger] table@[y] == fadd(
                    before[y],
                    fmul(
                        coef,
                        fsum(
                            |k: int|
                                fmul(
                                    eq_weight(free_point(free), k),
                                    fold_factor(
                                        fixed_address(point) + free_address(free, k),
                                        y,
                                        half as int,
                                        r,
                                    ),
                                ),
                            c + 1,
                        ),
                    ),
                ) by {
                    let g = |k: int|
                        fmul(
                            eq_weight(free_point(free), k),
                            fold_factor(
                                fixed_address(point) + free_address(free, k),
                                y,
                                half as int,
                                r,
                            ),
                        );
                    let s = fsum(g, c as int);
                    assert(now[y] == fadd(before[y], fmul(coef, s)));
                    lemma_fmul_distr(coef, s, g(c as int));
                    lemma_fadd_assoc(before[y], fmul(coef, s), fmul(coef, g(c as int)));
                    if y == slot {
                        assert(fold_factor(address as int, y, half as int, r) == factor);
                        lemma_fmul_comm(factor, weight);
                        lemma_fmul_assoc(coef, e, factor);
                    } else {
                        assert(fold_factor(address as int, y, half as int, r) == fzero());
                        lemma_fmul_zero(e);
                        lemma_fmul_zero(coef);
                        lemma_fadd_zero(now[y]);
                    }
                }
            }
            c = c + 1;
        }
        proof {
            assert forall|y: int| 0 <= y < half implies #[trigger] table@[y] == folded_weight(
                points@,
                mu@,
                half as int,
                y,
                r,
                i + 1,
            ) by {
                let f = |x: int| fold_factor(x, y, half as int, r);
                lemma_entries(point, f);
                lemma_folded_entry(point, half as int, y, r);
                lemma_fsum_congr(
                    |x: int| fmul(eq_weight(point, x), f(x)),
                    |x: int| fmul(eq_weight(point, x), fold_factor(x, y, half as int, r)),
                    2 * half,
                );
                lemma_fsum_congr(
                    |k: int|
                        fmul(
                            eq_weight(free_point(free), k),
                            fold_factor(
                                fixed_address(point) + free_address(free, k),
                                y,
                                half as int,
                                r,
                            ),
                        ),
                    |k: int|
                        fmul(
                            eq_weight(free_point(free), k),
                            f(fixed_address(point) + free_address(free, k)),
                        ),
                    pow2(free.len()) as int,
                );
                assert(before[y] == folded_weight(points@, mu@, half as int, y, r, i as int));
            }
        }
        i = i + 1;
    }
    proof {
        let w = weight_table(points@, mu@, vars as nat);
        let folded = fold_table(w, r);
        assert forall|y: int| 0 <= y < half implies table@[y] == folded[y] by {
            let coef = |i: int| fpow(mu@, i);
            let a = |i: int| eq_weight(points@[i], y);
            let b = |i: int| eq_weight(points@[i], half + y);
            let n = points@.len() as int;
            lemma_lerp_sum(coef, a, b, n, r);
            lemma_fsum_congr(
                |i: int| fmul(coef(i), a(i)),
                |i: int| fmul(fpow(mu@, i), eq_weight(points@[i], y)),
                n,
            );
            lemma_fsum_congr(
                |i: int| fmul(coef(i), b(i)),
                |i: int| fmul(fpow(mu@, i), eq_weight(points@[i], half + y)),
                n,
            );
            lemma_fsum_congr(
                |i: int| fmul(coef(i), lerp(a(i), b(i), r)),
                |i: int|
                    fmul(
                        fpow(mu@, i),
                        lerp(eq_weight(points@[i], y), eq_weight(points@[i], half + y), r),
                    ),
                n,
            );
            assert(table@[y] == folded_weight(points@, mu@, half as int, y, r, n));
        }
        assert(table@ =~= folded);
    }
    table
}

/// The sum of the weights at the set bits of one half of the domain, entry by
/// entry.
fn half_sum(
    words: &[F128],
    weights: &WeightFamilies,
    vars: usize,
    upper: bool,
    points: Ghost<Seq<Seq<F128>>>,
    mu: Ghost<F128>,
) -> (sum: F128)
    requires
        1 <= vars,
        pow2(vars as nat) <= usize::MAX,
        128 * words@.len() == pow2(vars as nat),
        weights.decomposes(points@, mu@, vars as int),
        forall|i: int| 0 <= i < points@.len() ==> (#[trigger] points@[i]).len() == vars,
    ensures
        sum == half_value(words@, points@, mu@, vars as int, upper),
{
    proof {
        lemma_pow2_unfold(vars as nat);
        lemma_exponent_fits(vars as nat);
    }
    let half: usize = power_of_two(vars - 1);
    let ghost pick = |x: int| bit_value(packed_bit(words@, x) && (x >= half) == upper);
    let ghost total = |i: int|
        fmul(fpow(mu@, i), picked_sum(words@, points@[i], half as int, upper));
    let mut sum = F128::zero();
    let mut i: usize = 0;
    while i < weights.members.len()
        invariant
            1 <= vars < 64,
            2 * half == pow2(vars as nat),
            2 * half <= usize::MAX,
            128 * words@.len() == 2 * half,
            weights.decomposes(points@, mu@, vars as int),
            forall|i: int| 0 <= i < points@.len() ==> (#[trigger] points@[i]).len() == vars,
            pick == (|x: int| bit_value(packed_bit(words@, x) && (x >= half) == upper)),
            total == (|i: int|
                fmul(fpow(mu@, i), picked_sum(words@, points@[i], half as int, upper))),
            i <= points@.len(),
            sum == fsum(total, i as int),
        decreases weights.members@.len() - i,
    {
        let (fixed, family, coef) = weights.members[i];
        let ghost point = points@[i as int];
        let ghost free = free_coordinates(point);
        let ghost before = sum;
        let corners = &weights.families[family];
        assert(weights.members@[i as int].0 == fixed);
        assert(corners.well_formed(vars as int));
        let ghost g = |k: int|
            fmul(
                eq_weight(free_point(free), k),
                pick(fixed_address(point) + free_address(free, k)),
            );
        proof {
            lemma_fmul_zero(coef);
            lemma_fadd_zero(before);
        }
        let mut c: usize = 0;
        while c < corners.rel_addr.len()
            invariant
                1 <= vars < 64,
                2 * half == pow2(vars as nat),
                2 * half <= usize::MAX,
                128 * words@.len() == 2 * half,
                point.len() == vars,
                free == free_coordinates(point),
                corners.well_formed(vars as int),
                corners.signature@ == free,
                fixed == fixed_address(point),
                pick == (|x: int| bit_value(packed_bit(words@, x) && (x >= half) == upper)),
                g == (|k: int|
                    fmul(
                        eq_weight(free_point(free), k),
                        pick(fixed_address(point) + free_address(free, k)),
                    )),
                c <= corners.rel_addr@.len(),
                sum == fadd(before, fmul(coef, fsum(g, c as int))),
            decreases corners.rel_addr@.len() - c,
        {
            proof {
                lemma_selected_sum(point, c as int);
            }
            let address: usize = fixed + corners.rel_addr[c];
            let ghost now = sum;
            let e = corners.tensor[c];
            let take = bit(words, address) && (address >= half) == upper;
            if take {
                sum = sum + coef * e;
            }
            proof {
                let s = fsum(g, c as int);
                lemma_fmul_distr(coef, s, g(c as int));
                lemma_fadd_assoc(before, fmul(coef, s), fmul(coef, g(c as int)));
                lemma_fmul_one(e);
                lemma_fmul_comm(e, fone());
                lemma_fmul_zero(e);
                lemma_fmul_zero(coef);
                lemma_fadd_zero(now);
            }
            c = c + 1;
        }
        proof {
            lemma_entries(point, pick);
            assert(total(i as int) == fmul(coef, fsum(g, pow2(free.len()) as int))) by {
                lemma_fsum_congr(
                    g,
                    |c: int|
                        fmul(
                            eq_weight(free_point(free_coordinates(point)), c),
                            pick(fixed_address(point) + free_address(free_coordinates(point), c)),
                        ),
                    pow2(free.len()) as int,
                );
                lemma_fsum_congr(
                    |x: int| fmul(eq_weight(point, x), pick(x)),
                    |x: int|
                        fmul(
                            eq_weight(point, x),
                            bit_value(packed_bit(words@, x) && (x >= half) == upper),
                        ),
                    2 * half,
                );
            }
        }
        i = i + 1;
    }
    proof {
        lemma_half_value(words@, points@, mu@, vars as int, upper, half as int);
    }
    sum
}

/// `sum_y W(y) z(y)` over one half of the domain.
pub open spec fn half_value(
    words: Seq<F128>,
    points: Seq<Seq<F128>>,
    mu: F128,
    vars: int,
    upper: bool,
) -> F128 {
    let half = pow2((vars - 1) as nat) as int;
    let start = if upper {
        half
    } else {
        0
    };
    fsum(
        |y: int| fmul(weight_at(points, mu, start + y), bit_value(packed_bit(words, start + y))),
        half,
    )
}

/// A claim's equality weights at the set bits of one half.
spec fn picked_sum(words: Seq<F128>, point: Seq<F128>, half: int, upper: bool) -> F128 {
    fsum(
        |x: int|
            fmul(eq_weight(point, x), bit_value(packed_bit(words, x) && (x >= half) == upper)),
        2 * half,
    )
}

proof fn lemma_half_value(
    words: Seq<F128>,
    points: Seq<Seq<F128>>,
    mu: F128,
    vars: int,
    upper: bool,
    half: int,
)
    requires
        1 <= vars,
        half == pow2((vars - 1) as nat),
    ensures
        half_value(words, points, mu, vars, upper) == fsum(
            |i: int| fmul(fpow(mu, i), picked_sum(words, points[i], half, upper)),
            points.len() as int,
        ),
{
    lemma_pow2_pos((vars - 1) as nat);
    let n = points.len() as int;
    let start = if upper {
        half
    } else {
        0
    };
    // Restrict each inner sum to the half.
    let inner = |i: int| picked_sum(words, points[i], half, upper);
    let part = |i: int|
        fsum(
            |y: int| fmul(eq_weight(points[i], start + y), bit_value(packed_bit(words, start + y))),
            half,
        );
    assert forall|i: int| 0 <= i < n implies #[trigger] inner(i) == part(i) by {
        let f = |x: int|
            fmul(
                eq_weight(points[i], x),
                bit_value(packed_bit(words, x) && (x >= half) == upper),
            );
        let g = |y: int|
            fmul(eq_weight(points[i], start + y), bit_value(packed_bit(words, start + y)));
        lemma_fsum_split(f, half, half);
        let high = |j: int| f(half + j);
        lemma_fsum_congr(high, |j: int| f(half + j), half);
        if upper {
            assert forall|x: int| 0 <= x < half implies #[trigger] f(x) == fzero() by {
                lemma_fmul_zero(eq_weight(points[i], x));
            }
            lemma_fsum_zero(f, half);
            lemma_fsum_congr(high, g, half);
            lemma_fadd_zero(fsum(g, half));
        } else {
            lemma_fsum_congr(f, g, half);
            assert forall|j: int| 0 <= j < half implies #[trigger] high(j) == fzero() by {
                lemma_fmul_zero(eq_weight(points[i], half + j));
            }
            lemma_fsum_zero(high, half);
            lemma_fadd_zero(fsum(g, half));
        }
    }
    // Exchange the sums.
    let pair = |y: int, i: int|
        fmul(
            fmul(fpow(mu, i), eq_weight(points[i], start + y)),
            bit_value(packed_bit(words, start + y)),
        );
    let rows = |y: int|
        fmul(weight_at(points, mu, start + y), bit_value(packed_bit(words, start + y)));
    let row_sums = |y: int| fsum(|i: int| pair(y, i), n);
    assert forall|y: int| 0 <= y < half implies #[trigger] rows(y) == row_sums(y) by {
        let b = bit_value(packed_bit(words, start + y));
        let f = |i: int| fmul(fpow(mu, i), eq_weight(points[i], start + y));
        lemma_fsum_scale(b, f, n);
        let g = |i: int| fmul(b, f(i));
        let h = |i: int| pair(y, i);
        assert forall|i: int| 0 <= i < n implies #[trigger] g(i) == h(i) by {
            lemma_fmul_comm(b, f(i));
        }
        lemma_fsum_congr(g, h, n);
        lemma_fmul_comm(b, fsum(f, n));
    }
    lemma_fsum_congr(rows, row_sums, half);
    lemma_fsum_congr(row_sums, |y: int| fsum(|i: int| pair(y, i), n), half);
    lemma_fsum_exchange(pair, half, n);
    let cols = |i: int| fsum(|y: int| pair(y, i), half);
    let scaled = |i: int| fmul(fpow(mu, i), inner(i));
    assert forall|i: int| 0 <= i < n implies #[trigger] scaled(i) == cols(i) by {
        let g = |y: int|
            fmul(eq_weight(points[i], start + y), bit_value(packed_bit(words, start + y)));
        lemma_fsum_scale(fpow(mu, i), g, half);
        let a = |y: int| fmul(fpow(mu, i), g(y));
        let b = |y: int| pair(y, i);
        assert forall|y: int| 0 <= y < half implies #[trigger] a(y) == b(y) by {
            lemma_fmul_assoc(
                fpow(mu, i),
                eq_weight(points[i], start + y),
                bit_value(packed_bit(words, start + y)),
            );
        }
        lemma_fsum_congr(a, b, half);
        assert(inner(i) == part(i));
    }
    lemma_fsum_congr(scaled, cols, n);
    lemma_fsum_congr(cols, |i: int| fsum(|y: int| pair(y, i), half), n);
    lemma_fsum_congr(
        scaled,
        |i: int| fmul(fpow(mu, i), picked_sum(words, points[i], half, upper)),
        n,
    );
}

/// The bit table with its leading variable bound to `r`.
fn fold_bit_table(words: &[F128], vars: usize, r: F128) -> (table: Vec<F128>)
    requires
        1 <= vars,
        pow2(vars as nat) <= usize::MAX,
        128 * words@.len() == pow2(vars as nat),
    ensures
        table@ == fold_table(bit_table(leading_bits(words@, pow2(vars as nat))), r),
{
    proof {
        lemma_pow2_unfold(vars as nat);
    }
    let half: usize = power_of_two(vars - 1);
    let low = F128::one() + r;
    let ghost bits = bit_table(leading_bits(words@, pow2(vars as nat)));
    let mut table: Vec<F128> = Vec::new();
    let mut y: usize = 0;
    while y < half
        invariant
            2 * half == pow2(vars as nat),
            2 * half <= usize::MAX,
            128 * words@.len() == 2 * half,
            low == fadd(fone(), r),
            bits == bit_table(leading_bits(words@, pow2(vars as nat))),
            y <= half,
            table@.len() == y,
            forall|k: int| 0 <= k < y ==> #[trigger] table@[k] == fold_table(bits, r)[k],
        decreases half - y,
    {
        let b0 = bit(words, y);
        let b1 = bit(words, half + y);
        let value = if b0 && b1 {
            F128::one()
        } else if b0 {
            low
        } else if b1 {
            r
        } else {
            F128::zero()
        };
        proof {
            lemma_fadd_self(fone());
            lemma_fadd_self(fzero());
            lemma_fadd_zero(fone());
            lemma_fadd_zero(fzero());
            lemma_fmul_one(r);
            lemma_fmul_zero(r);
            lemma_fadd_zero(r);
        }
        table.push(value);
        y = y + 1;
    }
    assert(table@ =~= fold_table(bits, r));
    table
}

/// The sum of the products of two tables.
fn dot(a: &Vec<F128>, b: &Vec<F128>) -> (sum: F128)
    requires
        a@.len() == b@.len(),
    ensures
        sum == fsum(|y: int| fmul(a@[y], b@[y]), a@.len() as int),
{
    let ghost f = |y: int| fmul(a@[y], b@[y]);
    let mut sum = F128::zero();
    let mut y: usize = 0;
    while y < a.len()
        invariant
            a@.len() == b@.len(),
            y <= a@.len(),
            f == (|y: int| fmul(a@[y], b@[y])),
            sum == fsum(f, y as int),
        decreases a@.len() - y,
    {
        sum = sum + a[y] * b[y];
        y = y + 1;
    }
    sum
}

/// The first round message, without the full weight table: the sums over the
/// halves entry by entry, and the sum at the third node from half-size tables.
fn first_evals(
    words: &[F128],
    weights: &WeightFamilies,
    vars: usize,
    points: Ghost<Seq<Seq<F128>>>,
    mu: Ghost<F128>,
) -> (evals: [F128; 3])
    requires
        1 <= vars,
        pow2(vars as nat) <= usize::MAX,
        128 * words@.len() == pow2(vars as nat),
        weights.decomposes(points@, mu@, vars as int),
        forall|i: int| 0 <= i < points@.len() ==> (#[trigger] points@[i]).len() == vars,
    ensures
        evals@ == round_evals(closure_tables(words@, points@, mu@, vars as nat)),
{
    let e0 = half_sum(words, weights, vars, false, points, mu);
    let e1 = half_sum(words, weights, vars, true, points, mu);
    let t_node = F128 { lo: 2, hi: 0 };
    let v_table = fold_weights(weights, vars, t_node, points, mu);
    let z_table = fold_bit_table(words, vars, t_node);
    let e2 = dot(&v_table, &z_table);
    let evals: [F128; 3] = [e0, e1, e2];
    proof {
        let ts = closure_tables(words@, points@, mu@, vars as nat);
        lemma_pow2_unfold(vars as nat);
        let half = pow2((vars - 1) as nat) as int;
        assert(ts[0].len() / 2 == half);
        assert(node(0) == fzero() && node(1) == fone() && node(2) == t_node);
        let f0 = |i: int| lerp_term(ts, i, node(0));
        let f1 = |i: int| lerp_term(ts, i, node(1));
        let f2 = |i: int| lerp_term(ts, i, node(2));
        let g0 = |y: int|
            fmul(weight_at(points@, mu@, 0 + y), bit_value(packed_bit(words@, 0 + y)));
        let g1 = |y: int|
            fmul(weight_at(points@, mu@, half + y), bit_value(packed_bit(words@, half + y)));
        let g2 = |y: int| fmul(v_table@[y], z_table@[y]);
        assert forall|i: int| 0 <= i < half implies #[trigger] f0(i) == g0(i) by {
            lemma_pair_term(ts, i, node(0));
            lemma_lerp_ends(ts[0][i], ts[0][half + i]);
            lemma_lerp_ends(ts[1][i], ts[1][half + i]);
        }
        assert forall|i: int| 0 <= i < half implies #[trigger] f1(i) == g1(i) by {
            lemma_pair_term(ts, i, node(1));
            lemma_lerp_ends(ts[0][i], ts[0][half + i]);
            lemma_lerp_ends(ts[1][i], ts[1][half + i]);
        }
        assert forall|i: int| 0 <= i < half implies #[trigger] f2(i) == g2(i) by {
            lemma_pair_term(ts, i, node(2));
        }
        lemma_fsum_congr(f0, g0, half);
        lemma_fsum_congr(f1, g1, half);
        lemma_fsum_congr(f2, g2, half);
        assert(evals@ =~= round_evals(ts));
    }
    evals
}

proof fn lemma_pair_term(ts: Seq<Seq<F128>>, i: int, r: F128)
    requires
        ts.len() == 2,
    ensures
        lerp_term(ts, i, r) == fmul(
            lerp(ts[0][i], ts[0][ts[0].len() / 2 + i], r),
            lerp(ts[1][i], ts[1][ts[0].len() / 2 + i], r),
        ),
{
    reveal_with_fuel(fprod, 3);
    lemma_fmul_one(lerp(ts[0][i], ts[0][ts[0].len() / 2 + i], r));
}

proof fn lemma_lerp_ends(a: F128, b: F128)
    ensures
        lerp(a, b, fzero()) == a,
        lerp(a, b, fone()) == b,
{
    lemma_fmul_zero(fadd(a, b));
    lemma_fadd_zero(a);
    lemma_fmul_one(fadd(a, b));
    lemma_fadd_assoc(a, a, b);
    lemma_fadd_self(a);
    lemma_fadd_zero(b);
}

/// Prove the closure of the claims at `points` on the packed bit table, under
/// the combiner and the round challenges. A transcript draws `mu` after all
/// values, and each challenge after its round's message. Returns the messages
/// and the point of the claim that is left.
pub fn prove_closure(
    z_packed: &[F128],
    vars: usize,
    points: &[Vec<F128>],
    mu: F128,
    challenges: &[F128],
) -> (result: (ClosureProof, Vec<F128>))
    requires
        pow2(vars as nat) <= usize::MAX,
        128 * z_packed@.len() == pow2(vars as nat),
        forall|i: int| 0 <= i < points@.len() ==> (#[trigger] points@[i])@.len() == vars,
        challenges@.len() == vars,
    ensures
        round_list(result.0.rounds@) == honest_rounds(
            closure_tables(z_packed@, claim_points(points@), mu, vars as nat),
            challenges@,
        ),
        result.0.z_value == mle(bit_table(leading_bits(z_packed@, pow2(vars as nat))), challenges@),
        result.1@ == challenges@,
{
    let ghost ps = claim_points(points@);
    let ghost ts = closure_tables(z_packed@, ps, mu, vars as nat);
    proof {
        lemma2_to64();
        assert(vars >= 1) by {
            if vars == 0 {
                assert(128 * z_packed@.len() == 1);
            }
        }
        assert forall|i: int| 0 <= i < ps.len() implies (#[trigger] ps[i]).len() == vars by {
            assert(points@[i]@.len() == vars);
        }
        lemma_pow2_unfold(vars as nat);
        lemma_pow2_pos((vars - 1) as nat);
    }
    let weights = weight_families(points, mu, vars);
    let mut rounds: Vec<[F128; 3]> = Vec::new();
    let evals = first_evals(z_packed, &weights, vars, Ghost(ps), Ghost(mu));
    rounds.push(evals);
    let r0 = challenges[0];
    let w = fold_weights(&weights, vars, r0, Ghost(ps), Ghost(mu));
    let z = fold_bit_table(z_packed, vars, r0);
    let ghost bound = fold_factors(ts, seq![r0]);
    let mut z_layer = crate::mle::copy_table(z.as_slice());
    let mut factors: Vec<Vec<F128>> = Vec::new();
    factors.push(w);
    factors.push(z);
    let rest = slice_subrange(challenges, 1, vars);
    proof {
        reveal_with_fuel(fold_all, 2);
        assert(seq![r0].drop_first() =~= Seq::<F128>::empty());
        assert(tables(factors@) =~= bound);
        assert(rest@ =~= challenges@.skip(1));
        assert(shaped(tables(factors@), rest@.len())) by {
            let fs = tables(factors@);
            assert forall|f: int| 0 <= f < fs.len() implies (#[trigger] fs[f]).len() == pow2(
                rest@.len(),
            ) by {
                assert(fs[f].len() == ts[f].len() / 2);
            }
        }
    }
    let mut tail: Vec<Vec<F128>> = Vec::new();
    let mut point: Vec<F128> = Vec::new();
    point.push(r0);
    prove_remaining(factors, rest, &mut tail, &mut point);
    let ghost later = honest_rounds(bound, rest@);
    assert(tables(tail@) =~= later);
    let mut k: usize = 0;
    while k < tail.len()
        invariant
            k <= tail@.len(),
            bound.len() == 2,
            later == honest_rounds(bound, rest@),
            tables(tail@) == later,
            rounds@.len() == 1 + k,
            rounds@[0]@ == round_evals(ts),
            forall|j: int| 1 <= j < 1 + k ==> (#[trigger] rounds@[j])@ == later[j - 1],
        decreases tail@.len() - k,
    {
        assert(tables(tail@)[k as int] == tail@[k as int]@);
        assert(later.len() == rest@.len());
        assert(later[k as int] == round_evals(fold_factors(bound, rest@.take(k as int))));
        assert(later[k as int].len() == 3);
        let message: [F128; 3] = [tail[k][0], tail[k][1], tail[k][2]];
        assert(message@ =~= later[k as int]);
        rounds.push(message);
        k = k + 1;
    }
    // Fold the bit table to the terminal.
    let z_value = crate::mle::eval_mle(z_layer.as_slice(), rest);
    proof {
        let expected = honest_rounds(ts, challenges@);
        assert(challenges@.take(0) =~= Seq::<F128>::empty());
        assert(fold_factors(ts, challenges@.take(0)) =~= ts);
        assert forall|j: int| 0 <= j < expected.len() implies round_list(rounds@)[j]
            == #[trigger] expected[j] by {
            if j > 0 {
                let part = rest@.take(j - 1);
                assert(seq![r0] + part =~= challenges@.take(j));
                lemma_fold_factors_concat(ts, seq![r0], part);
                assert(rounds@[j]@ == later[j - 1]);
            }
        }
        assert(round_list(rounds@) =~= expected);
        assert(point@ =~= challenges@);
        assert(challenges@.drop_first() =~= rest@);
    }
    (ClosureProof { rounds, z_value }, point)
}

// ---------------------------------------------------------------------------
// Verification.
// ---------------------------------------------------------------------------

/// `c r + (1 + c)(1 + r)`.
pub open spec fn eq_factor(c: F128, r: F128) -> F128 {
    fadd(fmul(c, r), fmul(fadd(fone(), c), fadd(fone(), r)))
}

/// The equality polynomial of two points, over their common coordinates.
pub open spec fn eq_points(p: Seq<F128>, q: Seq<F128>) -> F128 {
    fprod(|j: int| eq_factor(p[j], q[j]), if p.len() <= q.len() {
        p.len() as int
    } else {
        q.len() as int
    })
}

/// `sum_i mu^i values[i]`.
pub open spec fn combined(values: Seq<F128>, mu: F128) -> F128 {
    fsum(|i: int| fmul(fpow(mu, i), values[i]), values.len() as int)
}

/// The verifier's walk: the claim after the last round, or `None` where a
/// round does not sum to its claim.
pub open spec fn closure_walk(
    rounds: Seq<Seq<F128>>,
    claim: F128,
    challenges: Seq<F128>,
) -> Option<F128>
    decreases rounds.len(),
{
    if rounds.len() == 0 {
        Some(claim)
    } else if fadd(rounds[0][0], rounds[0][1]) != claim {
        None
    } else {
        closure_walk(
            rounds.drop_first(),
            lagrange(rounds[0], challenges[0]),
            challenges.drop_first(),
        )
    }
}

/// What the closure verifier returns: success, or the first check that fails.
pub open spec fn closure_outcome(
    rounds: Seq<Seq<F128>>,
    z_value: F128,
    vars: int,
    points: Seq<Seq<F128>>,
    values: Seq<F128>,
    mu: F128,
    challenges: Seq<F128>,
) -> Result<(), Seq<char>> {
    if rounds.len() != vars {
        Err("closure round count does not match the domain"@)
    } else {
        match closure_walk(rounds, combined(values, mu), challenges) {
            None => Err("a closure round does not sum to its claim"@),
            Some(claim) => {
                let weight = fsum(
                    |i: int| fmul(fpow(mu, i), eq_points(points[i], challenges)),
                    points.len() as int,
                );
                if claim != fmul(weight, z_value) {
                    Err("the closure terminal does not match the claims"@)
                } else {
                    Ok(())
                }
            },
        }
    }
}

/// The quadratic through the nodes 0, 1 and 2 at `r`.
pub fn quadratic_at(evals: &[F128; 3], r: F128) -> (value: F128)
    ensures
        value == lagrange(evals@, r),
{
    interpolate(evals.as_slice(), r)
}

/// The equality polynomial of two points.
fn eq_of(p: &Vec<F128>, q: &Vec<F128>) -> (eq: F128)
    ensures
        eq == eq_points(p@, q@),
{
    let n: usize = if p.len() <= q.len() {
        p.len()
    } else {
        q.len()
    };
    let ghost f = |j: int| eq_factor(p@[j], q@[j]);
    let mut eq = F128::one();
    let mut j: usize = 0;
    while j < n
        invariant
            n <= p@.len(),
            n <= q@.len(),
            j <= n,
            f == (|j: int| eq_factor(p@[j], q@[j])),
            eq == fprod(f, j as int),
        decreases n - j,
    {
        let c = p[j];
        let r = q[j];
        eq = eq * (c * r + (F128::one() + c) * (F128::one() + r));
        j = j + 1;
    }
    eq
}

/// Verify the closure; returns the claim that is left.
pub fn verify_closure(
    proof: &ClosureProof,
    vars: usize,
    points: &[Vec<F128>],
    values: &[F128],
    mu: F128,
    challenges: &[F128],
) -> (result: Result<(Vec<F128>, F128), &'static str>)
    requires
        challenges@.len() == vars,
    ensures
        match closure_outcome(
            round_list(proof.rounds@),
            proof.z_value,
            vars as int,
            claim_points(points@),
            values@,
            mu,
            challenges@,
        ) {
            Ok(()) => result matches Ok((point, value)) && point@ == challenges@ && value
                == proof.z_value,
            Err(message) => result matches Err(e) && e@ == message,
        },
{
    if proof.rounds.len() != vars {
        return Err("closure round count does not match the domain");
    }
    let ghost rounds = round_list(proof.rounds@);
    let ghost f = |i: int| fmul(fpow(mu, i), values@[i]);
    let mut expected = F128::zero();
    let mut power = F128::one();
    let mut i: usize = 0;
    while i < values.len()
        invariant
            i <= values@.len(),
            f == (|i: int| fmul(fpow(mu, i), values@[i])),
            expected == fsum(f, i as int),
            power == fpow(mu, i as int),
        decreases values@.len() - i,
    {
        expected = expected + power * values[i];
        power = power * mu;
        i = i + 1;
    }
    let ghost start = expected;
    let mut point: Vec<F128> = Vec::new();
    let mut k: usize = 0;
    proof {
        assert(rounds.skip(0) =~= rounds);
        assert(challenges@.skip(0) =~= challenges@);
    }
    while k < vars
        invariant
            rounds == round_list(proof.rounds@),
            rounds.len() == vars,
            challenges@.len() == vars,
            start == combined(values@, mu),
            k <= vars,
            point@ == challenges@.take(k as int),
            closure_walk(rounds, start, challenges@) == closure_walk(
                rounds.skip(k as int),
                expected,
                challenges@.skip(k as int),
            ),
        decreases vars - k,
    {
        let ghost rest = rounds.skip(k as int);
        let evals = &proof.rounds[k];
        assert(rest[0] == evals@);
        if evals[0] + evals[1] != expected {
            return Err("a closure round does not sum to its claim");
        }
        let r = challenges[k];
        expected = quadratic_at(evals, r);
        point.push(r);
        proof {
            assert(rest.drop_first() =~= rounds.skip(k + 1));
            assert(challenges@.skip(k as int).drop_first() =~= challenges@.skip(k + 1));
            assert(point@ =~= challenges@.take(k + 1));
        }
        k = k + 1;
    }
    assert(point@ =~= challenges@);
    // The terminal, with the verifier's own weight.
    let ghost g = |i: int| fmul(fpow(mu, i), eq_points(points@[i]@, challenges@));
    let mut w_at = F128::zero();
    power = F128::one();
    i = 0;
    while i < points.len()
        invariant
            i <= points@.len(),
            point@ == challenges@,
            g == (|i: int| fmul(fpow(mu, i), eq_points(points@[i]@, challenges@))),
            w_at == fsum(g, i as int),
            power == fpow(mu, i as int),
        decreases points@.len() - i,
    {
        w_at = w_at + power * eq_of(&points[i], &point);
        power = power * mu;
        i = i + 1;
    }
    proof {
        let ps = claim_points(points@);
        lemma_fsum_congr(
            g,
            |i: int| fmul(fpow(mu, i), eq_points(ps[i], challenges@)),
            ps.len() as int,
        );
    }
    if expected != w_at * proof.z_value {
        return Err("the closure terminal does not match the claims");
    }
    Ok((point, proof.z_value))
}

// ---------------------------------------------------------------------------
// Completeness.
// ---------------------------------------------------------------------------

/// The extension of an equality table is the equality polynomial.
pub proof fn lemma_eq_extension(p: Seq<F128>, q: Seq<F128>)
    requires
        p.len() == q.len(),
    ensures
        mle(Seq::new(pow2(p.len()), |x: int| eq_weight(p, x)), q) == eq_points(p, q),
    decreases p.len(),
{
    lemma2_to64();
    let table = Seq::new(pow2(p.len()), |x: int| eq_weight(p, x));
    let f = |j: int| eq_factor(p[j], q[j]);
    if p.len() == 0 {
    } else {
        lemma_pow2_unfold(p.len());
        let half = pow2((p.len() - 1) as nat);
        let ps = p.drop_first();
        let qs = q.drop_first();
        lemma_eq_extension(ps, qs);
        let inner = Seq::new(half, |x: int| eq_weight(ps, x));
        let k = eq_factor(p[0], q[0]);
        let scaled = Seq::new(inner.len(), |x: int| fmul(k, inner[x]));
        let folded = fold_table(table, q[0]);
        assert forall|x: int| 0 <= x < half implies #[trigger] folded[x] == scaled[x] by {
            lemma_eq_weight_first(p, false, x);
            lemma_eq_weight_first(p, true, x);
            let e = eq_weight(ps, x);
            let c = p[0];
            let r = q[0];
            let nc = fadd(fone(), c);
            let nr = fadd(fone(), r);
            lemma_lerp(fmul(nc, e), fmul(c, e), r);
            lemma_fmul_assoc(nr, nc, e);
            lemma_fmul_comm(nr, nc);
            lemma_fmul_assoc(r, c, e);
            lemma_fmul_comm(r, c);
            lemma_fmul_comm(k, e);
            lemma_fmul_distr(e, fmul(c, r), fmul(nc, nr));
            lemma_fmul_comm(e, fmul(c, r));
            lemma_fmul_comm(e, fmul(nc, nr));
            lemma_fadd_comm(fmul(fmul(nc, nr), e), fmul(fmul(c, r), e));
        }
        assert(folded =~= scaled);
        lemma_mle_scale(k, inner, qs);
        assert(mle(table, q) == mle(folded, qs));
        let g = |j: int| eq_factor(ps[j], qs[j]);
        lemma_fprod_front(f, g, ps.len() as int);
    }
}

pub proof fn lemma_fprod_front(f: spec_fn(int) -> F128, g: spec_fn(int) -> F128, n: int)
    requires
        0 <= n,
        forall|j: int| 0 <= j < n ==> #[trigger] g(j) == f(j + 1),
    ensures
        fprod(f, n + 1) == fmul(f(0), fprod(g, n)),
    decreases n,
{
    if n == 0 {
        reveal_with_fuel(fprod, 2);
        lemma_fmul_one(f(0));
        lemma_fmul_comm(fone(), f(0));
    } else {
        lemma_fprod_front(f, g, n - 1);
        assert(g(n - 1) == f(n));
        lemma_fmul_assoc(f(0), fprod(g, n - 1), g(n - 1));
    }
}

/// The combined true values are the sumcheck's claim.
proof fn lemma_closure_claim(bits: Seq<F128>, points: Seq<Seq<F128>>, mu: F128, vars: nat)
    requires
        bits.len() == pow2(vars),
        forall|i: int| 0 <= i < points.len() ==> (#[trigger] points[i]).len() == vars,
    ensures
        product_sum(seq![weight_table(points, mu, vars), bits]) == combined(
            Seq::new(points.len(), |i: int| mle(bits, points[i])),
            mu,
        ),
{
    let ts = seq![weight_table(points, mu, vars), bits];
    let n = pow2(vars) as int;
    let m = points.len() as int;
    let pair = |x: int, i: int| fmul(fmul(fpow(mu, i), eq_weight(points[i], x)), bits[x]);
    let rows = |x: int| term(ts, x);
    let row_sums = |x: int| fsum(|i: int| pair(x, i), m);
    assert forall|x: int| 0 <= x < n implies #[trigger] rows(x) == row_sums(x) by {
        reveal_with_fuel(fprod, 3);
        lemma_fmul_one(ts[0][x]);
        let f = |i: int| fmul(fpow(mu, i), eq_weight(points[i], x));
        lemma_fsum_scale(bits[x], f, m);
        let g = |i: int| fmul(bits[x], f(i));
        let h = |i: int| pair(x, i);
        assert forall|i: int| 0 <= i < m implies #[trigger] g(i) == h(i) by {
            lemma_fmul_comm(bits[x], f(i));
        }
        lemma_fsum_congr(g, h, m);
        lemma_fmul_comm(bits[x], fsum(f, m));
    }
    lemma_fsum_congr(rows, row_sums, n);
    lemma_fsum_congr(row_sums, |x: int| fsum(|i: int| pair(x, i), m), n);
    lemma_fsum_exchange(pair, n, m);
    let cols = |i: int| fsum(|x: int| pair(x, i), n);
    let values = Seq::new(points.len(), |i: int| mle(bits, points[i]));
    let terms = |i: int| fmul(fpow(mu, i), values[i]);
    assert forall|i: int| 0 <= i < m implies #[trigger] terms(i) == cols(i) by {
        assert(points[i].len() == vars);
        lemma_mle_is_weighted_sum(bits, points[i]);
        let w = |x: int| fmul(bits[x], eq_weight(points[i], x));
        lemma_fsum_scale(fpow(mu, i), w, n);
        let a = |x: int| fmul(fpow(mu, i), w(x));
        let b = |x: int| pair(x, i);
        assert forall|x: int| 0 <= x < n implies #[trigger] a(x) == b(x) by {
            lemma_fmul_comm(bits[x], eq_weight(points[i], x));
            lemma_fmul_assoc(fpow(mu, i), eq_weight(points[i], x), bits[x]);
        }
        lemma_fsum_congr(a, b, n);
    }
    lemma_fsum_congr(terms, cols, m);
    lemma_fsum_congr(cols, |i: int| fsum(|x: int| pair(x, i), n), m);
}

/// The closure walk of degree-two messages is the sumcheck's walk.
proof fn lemma_closure_walk(rounds: Seq<Seq<F128>>, claim: F128, challenges: Seq<F128>)
    requires
        forall|k: int| 0 <= k < rounds.len() ==> (#[trigger] rounds[k]).len() == 3,
    ensures
        match walk_rounds(rounds, 2, claim, challenges) {
            Ok(value) => closure_walk(rounds, claim, challenges) == Some(value),
            Err(_) => closure_walk(rounds, claim, challenges) is None,
        },
    decreases rounds.len(),
{
    if rounds.len() > 0 {
        let rest = rounds.drop_first();
        assert forall|k: int| 0 <= k < rest.len() implies (#[trigger] rest[k]).len() == 3 by {
            assert(rest[k] == rounds[k + 1]);
        }
        lemma_closure_walk(rest, lagrange(rounds[0], challenges[0]), challenges.drop_first());
    }
}

/// The weights' extension at the challenge point is what the verifier computes.
proof fn lemma_terminal_weight(points: Seq<Seq<F128>>, mu: F128, challenges: Seq<F128>)
    requires
        forall|i: int|
            0 <= i < points.len() ==> (#[trigger] points[i]).len() == challenges.len(),
    ensures
        mle(weight_table(points, mu, challenges.len()), challenges) == fsum(
            |i: int| fmul(fpow(mu, i), eq_points(points[i], challenges)),
            points.len() as int,
        ),
{
    let vars = challenges.len();
    let w = weight_table(points, mu, vars);
    let k = |i: int| fpow(mu, i);
    let t = |i: int| Seq::new(pow2(vars), |x: int| eq_weight(points[i], x));
    let m = points.len() as int;
    lemma_mle_combination(k, t, m, challenges);
    let whole = Seq::new(pow2(vars), |x: int| fsum(|i: int| fmul(k(i), t(i)[x]), m));
    assert forall|x: int| 0 <= x < pow2(vars) implies #[trigger] w[x] == whole[x] by {
        lemma_fsum_congr(
            |i: int| fmul(fpow(mu, i), eq_weight(points[i], x)),
            |i: int| fmul(k(i), t(i)[x]),
            m,
        );
    }
    assert(w =~= whole);
    let opened = |i: int| fmul(k(i), mle(t(i), challenges));
    let expected = |i: int| fmul(fpow(mu, i), eq_points(points[i], challenges));
    assert forall|i: int| 0 <= i < m implies #[trigger] opened(i) == expected(i) by {
        lemma_eq_extension(points[i], challenges);
        assert(points[i].len() == vars);
    }
    lemma_fsum_congr(opened, expected, m);
}

/// Completeness: where the values are the bit table's true evaluations, the
/// verifier accepts the honest messages, and the claim that is left is the
/// true evaluation at the challenge point.
pub proof fn honest_closure_verifies(
    bits: Seq<F128>,
    points: Seq<Seq<F128>>,
    mu: F128,
    challenges: Seq<F128>,
)
    requires
        bits.len() == pow2(challenges.len()),
        forall|i: int|
            0 <= i < points.len() ==> (#[trigger] points[i]).len() == challenges.len(),
    ensures
        closure_outcome(
            honest_rounds(seq![weight_table(points, mu, challenges.len()), bits], challenges),
            mle(bits, challenges),
            challenges.len() as int,
            points,
            Seq::new(points.len(), |i: int| mle(bits, points[i])),
            mu,
            challenges,
        ) == Ok::<(), Seq<char>>(()),
{
    let vars = challenges.len();
    let w = weight_table(points, mu, vars);
    let ts = seq![w, bits];
    assert(shaped(ts, vars));
    honest_proof_verifies(ts, challenges);
    lemma_closure_claim(bits, points, mu, vars);
    let rounds = honest_rounds(ts, challenges);
    assert forall|k: int| 0 <= k < rounds.len() implies (#[trigger] rounds[k]).len() == 3 by {}
    lemma_closure_walk(rounds, product_sum(ts), challenges);
    lemma_terminal_weight(points, mu, challenges);
    reveal_with_fuel(fprod, 3);
    lemma_fmul_one(mle(w, challenges));
}

/// The evaluations of a table at the claims' points.
pub open spec fn true_values(bits: Seq<F128>, points: Seq<Seq<F128>>) -> Seq<F128> {
    Seq::new(points.len(), |i: int| mle(bits, points[i]))
}

/// Soundness: where the closure is accepted, the claim that is left is true of
/// the table and no message coincides with the honest one, the values combine
/// as the true evaluations do.
pub proof fn accepted_closures_are_true(
    bits: Seq<F128>,
    rounds: Seq<[F128; 3]>,
    points: Seq<Seq<F128>>,
    values: Seq<F128>,
    mu: F128,
    challenges: Seq<F128>,
)
    requires
        bits.len() == pow2(challenges.len()),
        forall|i: int|
            0 <= i < points.len() ==> (#[trigger] points[i]).len() == challenges.len(),
        closure_outcome(
            round_list(rounds),
            mle(bits, challenges),
            challenges.len() as int,
            points,
            values,
            mu,
            challenges,
        ) == Ok::<(), Seq<char>>(()),
        coincidence_free(
            round_list(rounds),
            honest_rounds(seq![weight_table(points, mu, challenges.len()), bits], challenges),
            challenges,
        ),
    ensures
        combined(values, mu) == combined(true_values(bits, points), mu),
{
    let vars = challenges.len();
    let w = weight_table(points, mu, vars);
    let ts = seq![w, bits];
    let messages = round_list(rounds);
    assert(shaped(ts, vars));
    assert forall|k: int| 0 <= k < messages.len() implies (#[trigger] messages[k]).len() == 3 by {}
    lemma_closure_walk(messages, combined(values, mu), challenges);
    lemma_terminal_weight(points, mu, challenges);
    reveal_with_fuel(fprod, 3);
    lemma_fmul_one(mle(w, challenges));
    accepted_sums_are_true(ts, combined(values, mu), messages, challenges);
    lemma_closure_claim(bits, points, mu, vars);
}

/// Values that combine as the true evaluations do at as many distinct
/// combiners as there are claims are the true evaluations.
pub proof fn combiners_bind_the_claims(
    bits: Seq<F128>,
    points: Seq<Seq<F128>>,
    values: Seq<F128>,
    mus: Seq<F128>,
)
    requires
        values.len() == points.len() == mus.len(),
        distinct(mus),
        forall|i: int|
            0 <= i < mus.len() ==> combined(values, #[trigger] mus[i]) == combined(
                true_values(bits, points),
                mus[i],
            ),
    ensures
        values == true_values(bits, points),
{
    lemma_combined_values_bind(values, true_values(bits, points), mus);
}

} // verus!
