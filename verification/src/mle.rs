//! Multilinear extensions of tables, most significant variable first.
use vstd::arithmetic::power2::{lemma_pow2_unfold, pow2};
use vstd::prelude::*;

use crate::field::{
    fadd, fmul, fone, fzero, lemma_fadd_assoc, lemma_fadd_self, lemma_fadd_zero, lemma_fmul_assoc,
    lemma_fmul_comm, lemma_fmul_distr, lemma_fmul_one, F128,
};
use crate::sums::{fsum, lemma_fsum_add, lemma_fsum_congr, lemma_fsum_scale, lemma_fsum_split};

verus! {

/// The affine function with value `low` at zero and `high` at one, at `r`.
pub open spec fn lerp(low: F128, high: F128, r: F128) -> F128 {
    fadd(low, fmul(r, fadd(low, high)))
}

/// The table with its most significant variable bound to `r`.
pub open spec fn fold_table(table: Seq<F128>, r: F128) -> Seq<F128> {
    Seq::new(
        table.len() / 2,
        |i: int| lerp(table[i], table[table.len() / 2 + i], r),
    )
}

/// The table with its leading variables bound to the point's coordinates.
pub open spec fn fold_all(table: Seq<F128>, point: Seq<F128>) -> Seq<F128>
    decreases point.len(),
{
    if point.len() == 0 {
        table
    } else {
        fold_all(fold_table(table, point[0]), point.drop_first())
    }
}

/// The multilinear extension of the table at the point.
pub open spec fn mle(table: Seq<F128>, point: Seq<F128>) -> F128 {
    fold_all(table, point)[0]
}

/// The weight of a bit at a coordinate: `r` for one, `1 + r` for zero.
pub open spec fn bit_weight(bit: bool, r: F128) -> F128 {
    if bit {
        r
    } else {
        fadd(fone(), r)
    }
}

/// The equality polynomial of the point at the corner with index `i`: the
/// product of the coordinates' bit weights, last coordinate least significant.
pub open spec fn eq_weight(point: Seq<F128>, i: int) -> F128
    decreases point.len(),
{
    if point.len() == 0 {
        fone()
    } else {
        fmul(eq_weight(point.drop_last(), i / 2), bit_weight(i % 2 == 1, point.last()))
    }
}

/// `(1 + r) low + r high` is the affine interpolation.
pub proof fn lemma_lerp(low: F128, high: F128, r: F128)
    ensures
        lerp(low, high, r) == fadd(fmul(fadd(fone(), r), low), fmul(r, high)),
{
    lemma_fmul_distr(r, low, high);
    lemma_fmul_distr(low, fone(), r);
    lemma_fmul_one(low);
    lemma_fadd_assoc(low, fmul(r, low), fmul(r, high));
}

/// Binding the first coordinate of the equality polynomial.
pub proof fn lemma_eq_weight_first(point: Seq<F128>, bit: bool, i: int)
    requires
        point.len() > 0,
        0 <= i < pow2((point.len() - 1) as nat),
    ensures
        eq_weight(point, if bit {
            i + pow2((point.len() - 1) as nat)
        } else {
            i
        }) == fmul(bit_weight(bit, point[0]), eq_weight(point.drop_first(), i)),
    decreases point.len(),
{
    let n = (point.len() - 1) as nat;
    let j = if bit {
        i + pow2(n)
    } else {
        i
    };
    let w = bit_weight(bit, point[0]);
    if n == 0 {
        assert(pow2(0) == 1) by {
            vstd::arithmetic::power2::lemma2_to64();
        }
        assert(point.drop_last() =~= Seq::<F128>::empty());
        assert(point.drop_first() =~= Seq::<F128>::empty());
        assert(point.last() == point[0]);
        reveal_with_fuel(eq_weight, 2);
        lemma_fmul_one(w);
        lemma_fmul_comm(fone(), w);
    } else {
        lemma_pow2_unfold(n);
        let m = pow2((n - 1) as nat);
        lemma_eq_weight_first(point.drop_last(), bit, i / 2);
        assert(j / 2 == if bit {
            i / 2 + m
        } else {
            i / 2
        });
        assert(j % 2 == i % 2);
        let rest = point.drop_first();
        assert(point.drop_last().drop_first() =~= rest.drop_last());
        assert(point.drop_last()[0] == point[0]);
        assert(rest.last() == point.last());
        lemma_fmul_assoc(w, eq_weight(rest.drop_last(), i / 2), bit_weight(i % 2 == 1, point.last()));
    }
}

/// The multilinear extension is the sum of the entries under their equality
/// weights.
pub proof fn lemma_mle_is_weighted_sum(table: Seq<F128>, point: Seq<F128>)
    requires
        table.len() == pow2(point.len()),
    ensures
        mle(table, point) == fsum(
            |i: int| fmul(table[i], eq_weight(point, i)),
            table.len() as int,
        ),
    decreases point.len(),
{
    vstd::arithmetic::power2::lemma2_to64();
    let f = |i: int| fmul(table[i], eq_weight(point, i));
    if point.len() == 0 {
        reveal_with_fuel(fsum, 2);
        lemma_fmul_one(table[0]);
        lemma_fadd_zero(table[0]);
    } else {
        lemma_pow2_unfold(point.len());
        let half = pow2((point.len() - 1) as nat) as int;
        let r = point[0];
        let rest = point.drop_first();
        let folded = fold_table(table, r);
        lemma_mle_is_weighted_sum(folded, rest);
        assert(mle(table, point) == mle(folded, rest));
        let g = |i: int| fmul(folded[i], eq_weight(rest, i));
        let low = |i: int| fmul(table[i], eq_weight(point, i));
        let high = |i: int| f(half + i);
        assert forall|i: int| 0 <= i < half implies #[trigger] g(i) == fadd(low(i), high(i)) by {
            lemma_lerp(table[i], table[half + i], r);
            lemma_eq_weight_first(point, false, i);
            lemma_eq_weight_first(point, true, i);
            let w = eq_weight(rest, i);
            let a = fadd(fone(), r);
            lemma_fmul_distr(w, fmul(a, table[i]), fmul(r, table[half + i]));
            lemma_fmul_comm(a, table[i]);
            lemma_fmul_assoc(table[i], a, w);
            lemma_fmul_comm(r, table[half + i]);
            lemma_fmul_assoc(table[half + i], r, w);
        }
        lemma_fsum_congr(g, |i: int| fadd(low(i), high(i)), half);
        lemma_fsum_add(low, high, half);
        lemma_fsum_split(f, half, half);
        lemma_fsum_congr(f, low, half);
        lemma_fsum_congr(high, |i: int| f(half + i), half);
    }
}

/// The equality weights of a point sum to one.
pub proof fn lemma_eq_weights_sum(point: Seq<F128>)
    ensures
        fsum(|i: int| eq_weight(point, i), pow2(point.len()) as int) == fone(),
    decreases point.len(),
{
    vstd::arithmetic::power2::lemma2_to64();
    let f = |i: int| eq_weight(point, i);
    if point.len() == 0 {
        reveal_with_fuel(fsum, 2);
        lemma_fadd_zero(fone());
    } else {
        lemma_pow2_unfold(point.len());
        let half = pow2((point.len() - 1) as nat) as int;
        let r = point[0];
        let rest = point.drop_first();
        lemma_eq_weights_sum(rest);
        let g = |i: int| eq_weight(rest, i);
        let low = |i: int| fmul(fadd(fone(), r), g(i));
        let high = |i: int| f(half + i);
        assert forall|i: int| 0 <= i < half implies #[trigger] f(i) == low(i) by {
            lemma_eq_weight_first(point, false, i);
        }
        let scaled = |i: int| fmul(r, g(i));
        assert forall|i: int| 0 <= i < half implies #[trigger] high(i) == scaled(i) by {
            lemma_eq_weight_first(point, true, i);
        }
        lemma_fsum_split(f, half, half);
        lemma_fsum_congr(f, low, half);
        lemma_fsum_congr(high, scaled, half);
        lemma_fsum_congr(high, |i: int| f(half + i), half);
        lemma_fsum_scale(fadd(fone(), r), g, half);
        lemma_fsum_scale(r, g, half);
        lemma_fmul_one(fadd(fone(), r));
        lemma_fmul_one(r);
        lemma_fadd_assoc(fone(), r, r);
        lemma_fadd_self(r);
        lemma_fadd_zero(fone());
    }
}

/// The multilinear extension of a constant table is the constant.
pub proof fn lemma_mle_constant(c: F128, point: Seq<F128>)
    ensures
        mle(Seq::new(pow2(point.len()), |i: int| c), point) == c,
{
    let table = Seq::new(pow2(point.len()), |i: int| c);
    lemma_mle_is_weighted_sum(table, point);
    lemma_eq_weights_sum(point);
    let w = |i: int| eq_weight(point, i);
    lemma_fsum_scale(c, w, table.len() as int);
    lemma_fsum_congr(
        |i: int| fmul(table[i], eq_weight(point, i)),
        |i: int| fmul(c, w(i)),
        table.len() as int,
    );
    lemma_fmul_one(c);
}

/// The multilinear extension is additive.
pub proof fn lemma_mle_add(a: Seq<F128>, b: Seq<F128>, point: Seq<F128>)
    requires
        a.len() == pow2(point.len()),
        b.len() == a.len(),
    ensures
        mle(Seq::new(a.len(), |i: int| fadd(a[i], b[i])), point) == fadd(
            mle(a, point),
            mle(b, point),
        ),
{
    let t = Seq::new(a.len(), |i: int| fadd(a[i], b[i]));
    lemma_mle_is_weighted_sum(t, point);
    lemma_mle_is_weighted_sum(a, point);
    lemma_mle_is_weighted_sum(b, point);
    let f = |i: int| fmul(a[i], eq_weight(point, i));
    let g = |i: int| fmul(b[i], eq_weight(point, i));
    let h = |i: int| fmul(t[i], eq_weight(point, i));
    lemma_fsum_add(f, g, a.len() as int);
    assert forall|i: int| 0 <= i < a.len() implies #[trigger] h(i) == fadd(f(i), g(i)) by {
        lemma_fmul_distr(eq_weight(point, i), a[i], b[i]);
        lemma_fmul_comm(eq_weight(point, i), a[i]);
        lemma_fmul_comm(eq_weight(point, i), b[i]);
        lemma_fmul_comm(eq_weight(point, i), t[i]);
    }
    lemma_fsum_congr(h, |i: int| fadd(f(i), g(i)), a.len() as int);
}

/// The multilinear extension is homogeneous.
pub proof fn lemma_mle_scale(c: F128, a: Seq<F128>, point: Seq<F128>)
    requires
        a.len() == pow2(point.len()),
    ensures
        mle(Seq::new(a.len(), |i: int| fmul(c, a[i])), point) == fmul(c, mle(a, point)),
{
    let t = Seq::new(a.len(), |i: int| fmul(c, a[i]));
    lemma_mle_is_weighted_sum(t, point);
    lemma_mle_is_weighted_sum(a, point);
    let f = |i: int| fmul(a[i], eq_weight(point, i));
    let h = |i: int| fmul(t[i], eq_weight(point, i));
    lemma_fsum_scale(c, f, a.len() as int);
    assert forall|i: int| 0 <= i < a.len() implies #[trigger] h(i) == fmul(c, f(i)) by {
        lemma_fmul_assoc(c, a[i], eq_weight(point, i));
    }
    lemma_fsum_congr(h, |i: int| fmul(c, f(i)), a.len() as int);
}

/// The multilinear extension of a linear combination of tables.
pub proof fn lemma_mle_combination(
    coefficient: spec_fn(int) -> F128,
    table: spec_fn(int) -> Seq<F128>,
    n: int,
    point: Seq<F128>,
)
    requires
        forall|c: int| 0 <= c < n ==> (#[trigger] table(c)).len() == pow2(point.len()),
    ensures
        mle(
            Seq::new(
                pow2(point.len()),
                |i: int| fsum(|c: int| fmul(coefficient(c), table(c)[i]), n),
            ),
            point,
        ) == fsum(|c: int| fmul(coefficient(c), mle(table(c), point)), n),
    decreases n,
{
    let len = pow2(point.len());
    let whole = Seq::new(len, |i: int| fsum(|c: int| fmul(coefficient(c), table(c)[i]), n));
    if n <= 0 {
        lemma_mle_constant(fzero(), point);
        assert(whole =~= Seq::new(len, |i: int| fzero()));
    } else {
        lemma_mle_combination(coefficient, table, n - 1, point);
        let first = Seq::new(
            len,
            |i: int| fsum(|c: int| fmul(coefficient(c), table(c)[i]), n - 1),
        );
        let last = Seq::new(len, |i: int| fmul(coefficient(n - 1), table(n - 1)[i]));
        lemma_mle_add(first, last, point);
        assert(table(n - 1).len() == len);
        lemma_mle_scale(coefficient(n - 1), table(n - 1), point);
        assert(Seq::new(table(n - 1).len(), |i: int| fmul(coefficient(n - 1), table(n - 1)[i]))
            =~= last);
        assert(whole =~= Seq::new(first.len(), |i: int| fadd(first[i], last[i])));
    }
}

/// Folding by a concatenated point folds in two steps.
pub proof fn lemma_fold_all_concat(table: Seq<F128>, p: Seq<F128>, q: Seq<F128>)
    ensures
        fold_all(table, p + q) == fold_all(fold_all(table, p), q),
    decreases p.len(),
{
    if p.len() == 0 {
        assert(p + q =~= q);
    } else {
        assert((p + q).drop_first() =~= p.drop_first() + q);
        lemma_fold_all_concat(fold_table(table, p[0]), p.drop_first(), q);
    }
}

/// Binding `k` variables of a table of `2^n` entries leaves `2^(n - k)`.
pub proof fn lemma_fold_all_len(table: Seq<F128>, point: Seq<F128>, n: nat)
    requires
        table.len() == pow2(n),
        point.len() <= n,
    ensures
        fold_all(table, point).len() == pow2((n - point.len()) as nat),
    decreases point.len(),
{
    if point.len() > 0 {
        lemma_pow2_unfold(n);
        lemma_fold_all_len(fold_table(table, point[0]), point.drop_first(), (n - 1) as nat);
    }
}

/// Bind the most significant variable of a table in place.
pub fn fold_in_place(layer: &mut Vec<F128>, r: F128)
    requires
        old(layer).len() % 2 == 0,
    ensures
        final(layer)@ == fold_table(old(layer)@, r),
{
    let half: usize = layer.len() / 2;
    let ghost table = layer@;
    let mut i: usize = 0;
    while i < half
        invariant
            half == table.len() / 2,
            table.len() % 2 == 0,
            layer.len() == table.len(),
            i <= half,
            forall|k: int| 0 <= k < i ==> #[trigger] layer@[k] == fold_table(table, r)[k],
            forall|k: int| i <= k < table.len() ==> #[trigger] layer@[k] == table[k],
        decreases half - i,
    {
        let low = layer[i];
        let high = layer[half + i];
        layer.set(i, low + r * (low + high));
        i = i + 1;
    }
    layer.truncate(half);
    assert(layer@ =~= fold_table(table, r));
}

/// An owned copy of a table.
pub fn copy_table(table: &[F128]) -> (copy: Vec<F128>)
    ensures
        copy@ == table@,
{
    let mut copy: Vec<F128> = Vec::with_capacity(table.len());
    let mut i: usize = 0;
    while i < table.len()
        invariant
            i <= table@.len(),
            copy@ == table@.subrange(0, i as int),
        decreases table@.len() - i,
    {
        copy.push(table[i]);
        i = i + 1;
    }
    assert(copy@ =~= table@);
    copy
}

/// Multilinear evaluation, most significant variable first.
pub fn eval_mle(table: &[F128], point: &[F128]) -> (value: F128)
    requires
        table@.len() == pow2(point@.len()),
    ensures
        value == mle(table@, point@),
{
    let mut layer = copy_table(table);
    let mut j: usize = 0;
    assert(point@.subrange(0, point@.len() as int) =~= point@);
    assert(layer@ =~= table@);
    while j < point.len()
        invariant
            j <= point@.len(),
            layer@.len() == pow2((point@.len() - j) as nat),
            fold_all(table@, point@) == fold_all(
                layer@,
                point@.subrange(j as int, point@.len() as int),
            ),
        decreases point@.len() - j,
    {
        proof {
            lemma_pow2_unfold((point@.len() - j) as nat);
            let rest = point@.subrange(j as int, point@.len() as int);
            assert(rest.drop_first() =~= point@.subrange(j + 1, point@.len() as int));
        }
        fold_in_place(&mut layer, point[j]);
        j = j + 1;
    }
    proof {
        vstd::arithmetic::power2::lemma2_to64();
        assert(point@.subrange(j as int, point@.len() as int) =~= Seq::<F128>::empty());
    }
    layer[0]
}

/// The equality weights of every corner, most significant variable first.
pub fn eq_table(point: &[F128]) -> (weights: Vec<F128>)
    requires
        pow2(point@.len()) <= usize::MAX,
    ensures
        weights@ == Seq::new(pow2(point@.len()), |i: int| eq_weight(point@, i)),
{
    let mut weights: Vec<F128> = Vec::new();
    weights.push(F128::one());
    proof {
        vstd::arithmetic::power2::lemma2_to64();
    }
    let mut j: usize = 0;
    while j < point.len()
        invariant
            j <= point@.len(),
            pow2(point@.len()) <= usize::MAX,
            weights@.len() == pow2(j as nat),
            forall|i: int|
                0 <= i < weights@.len() ==> #[trigger] weights@[i] == eq_weight(
                    point@.subrange(0, j as int),
                    i,
                ),
        decreases point@.len() - j,
    {
        let r = point[j];
        let mut next: Vec<F128> = Vec::new();
        let mut i: usize = 0;
        let ghost bound = point@.subrange(0, j + 1);
        proof {
            lemma_pow2_unfold((j + 1) as nat);
            assert(bound.drop_last() =~= point@.subrange(0, j as int));
            if j + 1 < point@.len() {
                vstd::arithmetic::power2::lemma_pow2_strictly_increases(
                    (j + 1) as nat,
                    point@.len(),
                );
            }
        }
        while i < weights.len()
            invariant
                i <= weights@.len(),
                next@.len() == 2 * i,
                bound.len() > 0,
                bound.last() == r,
                forall|k: int|
                    0 <= k < weights@.len() ==> #[trigger] weights@[k] == eq_weight(
                        bound.drop_last(),
                        k,
                    ),
                forall|k: int| 0 <= k < next@.len() ==> #[trigger] next@[k] == eq_weight(bound, k),
            decreases weights@.len() - i,
        {
            let w = weights[i];
            next.push(w * (F128::one() + r));
            next.push(w * r);
            assert((2 * i) / 2 == i as int && (2 * i + 1) / 2 == i as int);
            i = i + 1;
        }
        weights = next;
        j = j + 1;
    }
    proof {
        assert(point@.subrange(0, j as int) =~= point@);
        assert(weights@ =~= Seq::new(pow2(point@.len()), |i: int| eq_weight(point@, i)));
    }
    weights
}

/// The field element of a bit.
pub open spec fn bit_value(bit: bool) -> F128 {
    if bit {
        fone()
    } else {
        fzero()
    }
}

/// The table of field elements of a bit table.
pub open spec fn bit_table(bits: Seq<bool>) -> Seq<F128> {
    Seq::new(bits.len(), |i: int| bit_value(bits[i]))
}

/// The field element of a bit.
pub fn bit_element(bit: bool) -> (value: F128)
    ensures
        value == bit_value(bit),
{
    if bit {
        F128::one()
    } else {
        F128::zero()
    }
}

/// Multilinear evaluation of a bit table, most significant variable first.
pub fn bit_mle(bits: &[bool], point_msb: &[F128]) -> (value: F128)
    requires
        bits@.len() == pow2(point_msb@.len()),
    ensures
        value == mle(bit_table(bits@), point_msb@),
{
    let mut layer: Vec<F128> = Vec::new();
    let mut i: usize = 0;
    while i < bits.len()
        invariant
            i <= bits@.len(),
            layer@.len() == i,
            forall|k: int| 0 <= k < i ==> #[trigger] layer@[k] == bit_value(bits@[k]),
        decreases bits@.len() - i,
    {
        layer.push(bit_element(bits[i]));
        i = i + 1;
    }
    assert(layer@ =~= bit_table(bits@));
    eval_mle(layer.as_slice(), point_msb)
}

} // verus!
