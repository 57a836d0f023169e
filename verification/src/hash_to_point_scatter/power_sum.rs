//! Power sums of tables as multilinear evaluations at derived points.
//!
//! In characteristic two `base^j` is the product, over the bits `b` of `j`, of
//! `base^(2^b)`. So `sum_j t[j] base^j` is a public scale times the
//! multilinear extension of `t` at a point that depends on `base` alone.
use vstd::arithmetic::power2::{
    lemma2_to64, lemma_pow2_adds, lemma_pow2_pos, lemma_pow2_unfold, pow2,
};
use vstd::prelude::*;

use crate::field::{
    fadd, fmul, fone, fzero, lemma_fadd_assoc, lemma_fadd_cancel, lemma_fadd_self, lemma_fadd_zero,
    lemma_fmul_assoc, lemma_fmul_comm, lemma_fmul_distr, lemma_fmul_one, F128,
};
use crate::frobenius::{finv, frob, lemma_finv};
use crate::hash_to_point_slots::relation::nat_bit;
use crate::mle::{bit_weight, eq_weight, eval_mle, lemma_mle_is_weighted_sum, mle};
use crate::sums::{
    fpow, fprod, fsum, lemma_fmul_swap, lemma_fprod_congr, lemma_fsum_congr, lemma_fsum_scale,
    lemma_fsum_split,
};

verus! {

/// No power `base^(2^b)` with `b < bits` is one.
pub open spec fn power_sum_defined(base: F128, bits: int) -> bool {
    forall|b: int| 0 <= b < bits ==> #[trigger] frob(base, b) != fone()
}

/// The coordinate of bit `b`: `p / (1 + p)` for `p = base^(2^b)`.
pub open spec fn power_coordinate(base: F128, b: int) -> F128 {
    fmul(frob(base, b), finv(fadd(fone(), frob(base, b))))
}

/// The derived point, most significant bit first.
pub open spec fn derived_point(base: F128, bits: nat) -> Seq<F128> {
    Seq::new(bits, |k: int| power_coordinate(base, bits - 1 - k))
}

/// The public scale: the product of `1 + base^(2^b)`.
pub open spec fn derived_scale(base: F128, bits: int) -> F128 {
    fprod(|b: int| fadd(fone(), frob(base, b)), bits)
}

/// `base^(2^b)` for `b < bits`, by repeated squaring.
pub fn frobenius_powers(base: F128, bits: usize) -> (powers: Vec<F128>)
    ensures
        powers@ == Seq::new(bits as nat, |b: int| frob(base, b)),
{
    let mut powers: Vec<F128> = Vec::new();
    let mut current = base;
    let mut b: usize = 0;
    while b < bits
        invariant
            b <= bits,
            powers@.len() == b,
            current == frob(base, b as int),
            forall|i: int| 0 <= i < b ==> #[trigger] powers@[i] == frob(base, i),
        decreases bits - b,
    {
        powers.push(current);
        current = current * current;
        b = b + 1;
    }
    assert(powers@ =~= Seq::new(bits as nat, |b: int| frob(base, b)));
    powers
}

/// The derived point and scale of a power sum; `None` where some
/// `base^(2^b)` is one.
pub fn power_sum_point(base: F128, bits: usize) -> (result: Option<(Vec<F128>, F128)>)
    ensures
        match result {
            Some((point, scale)) => power_sum_defined(base, bits as int) && point@ == derived_point(
                base,
                bits as nat,
            ) && scale == derived_scale(base, bits as int),
            None => !power_sum_defined(base, bits as int),
        },
{
    let powers = frobenius_powers(base, bits);
    let mut coordinates: Vec<F128> = Vec::new();
    let mut scale = F128::one();
    let ghost f = |b: int| fadd(fone(), frob(base, b));
    let mut b: usize = 0;
    while b < bits
        invariant
            b <= bits,
            powers@ == Seq::new(bits as nat, |b: int| frob(base, b)),
            coordinates@.len() == b,
            f == (|b: int| fadd(fone(), frob(base, b))),
            scale == fprod(f, b as int),
            forall|i: int| 0 <= i < b ==> #[trigger] frob(base, i) != fone(),
            forall|i: int| 0 <= i < b ==> #[trigger] coordinates@[i] == power_coordinate(base, i),
        decreases bits - b,
    {
        let p = powers[b];
        let denominator = F128::one() + p;
        if denominator == F128::zero() {
            proof {
                lemma_fadd_cancel(fone(), p);
                lemma_fadd_zero(fone());
                assert(frob(base, b as int) == fone());
            }
            return None;
        }
        proof {
            lemma_fadd_self(fone());
            assert(p != fone());
        }
        scale = scale * denominator;
        coordinates.push(p * denominator.inv());
        b = b + 1;
    }
    // Bit `b` weighs `base^(2^b)`; the point takes the top bit first.
    let mut point: Vec<F128> = Vec::new();
    let mut k: usize = 0;
    while k < bits
        invariant
            k <= bits,
            coordinates@.len() == bits,
            point@.len() == k,
            forall|i: int| 0 <= i < bits ==> #[trigger] coordinates@[i] == power_coordinate(base, i),
            forall|i: int|
                0 <= i < k ==> #[trigger] point@[i] == power_coordinate(base, bits - 1 - i),
        decreases bits - k,
    {
        point.push(coordinates[bits - 1 - k]);
        k = k + 1;
    }
    assert(point@ =~= derived_point(base, bits as nat));
    Some((point, scale))
}

proof fn lemma_frob_shift(base: F128, b: int)
    requires
        0 <= b,
    ensures
        frob(fmul(base, base), b) == frob(base, b + 1),
    decreases b,
{
    if b == 0 {
        reveal_with_fuel(frob, 2);
    } else {
        lemma_frob_shift(base, b - 1);
    }
}

proof fn lemma_fprod_first(f: spec_fn(int) -> F128, n: int)
    requires
        0 < n,
    ensures
        fprod(f, n) == fmul(f(0), fprod(|i: int| f(i + 1), n - 1)),
    decreases n,
{
    let g = |i: int| f(i + 1);
    if n == 1 {
        reveal_with_fuel(fprod, 2);
        lemma_fmul_one(f(0));
        lemma_fmul_comm(fone(), f(0));
    } else {
        lemma_fprod_first(f, n - 1);
        lemma_fmul_assoc(f(0), fprod(g, n - 2), f(n - 1));
        assert(g(n - 2) == f(n - 1));
    }
}

/// `base^j` in terms of the square of the base.
proof fn lemma_fpow_halves(base: F128, j: int)
    requires
        0 <= j,
    ensures
        fpow(base, j) == fmul(fpow(fmul(base, base), j / 2), if j % 2 == 1 {
            base
        } else {
            fone()
        }),
    decreases j,
{
    if j == 0 {
        lemma_fmul_one(fone());
    } else if j == 1 {
        reveal_with_fuel(fpow, 2);
    } else {
        lemma_fpow_halves(base, j - 2);
        reveal_with_fuel(fpow, 3);
        let q = fmul(base, base);
        let low = if j % 2 == 1 {
            base
        } else {
            fone()
        };
        let head = fpow(q, j / 2 - 1);
        assert((j - 2) / 2 == j / 2 - 1 && (j - 2) % 2 == j % 2);
        lemma_fmul_assoc(fpow(base, j - 2), base, base);
        lemma_fmul_assoc(head, low, q);
        lemma_fmul_comm(low, q);
        lemma_fmul_assoc(head, q, low);
    }
}

/// `base^j` is the product of `base^(2^b)` over the bits `b` of `j`.
pub proof fn lemma_fpow_bits(base: F128, j: int, bits: nat)
    requires
        0 <= j < pow2(bits),
    ensures
        fpow(base, j) == fprod(
            |b: int| if nat_bit(j, b) {
                frob(base, b)
            } else {
                fone()
            },
            bits as int,
        ),
    decreases bits,
{
    lemma2_to64();
    if bits > 0 {
        lemma_pow2_unfold(bits);
        let q = fmul(base, base);
        lemma_fpow_bits(q, j / 2, (bits - 1) as nat);
        lemma_fpow_halves(base, j);
        let f = |b: int| if nat_bit(j, b) {
            frob(base, b)
        } else {
            fone()
        };
        let g = |b: int| if nat_bit(j / 2, b) {
            frob(q, b)
        } else {
            fone()
        };
        lemma_fprod_first(f, bits as int);
        let shifted = |i: int| f(i + 1);
        assert forall|b: int| 0 <= b < bits - 1 implies #[trigger] shifted(b) == g(b) by {
            lemma_frob_shift(base, b);
            lemma_pow2_unfold((b + 1) as nat);
            lemma_pow2_pos(b as nat);
            vstd::arithmetic::div_mod::lemma_div_denominator(j, 2, pow2(b as nat) as int);
        }
        lemma_fprod_congr(shifted, g, bits - 1);
        lemma_fmul_comm(f(0), fprod(g, bits - 1));
        assert(j / 1 == j);
    }
}

/// The scale times the derived point's equality weight is the power.
pub proof fn lemma_scaled_weight(base: F128, bits: nat, j: int)
    requires
        power_sum_defined(base, bits as int),
        0 <= j < pow2(bits),
    ensures
        fmul(derived_scale(base, bits as int), eq_weight(derived_point(base, bits), j)) == fpow(
            base,
            j,
        ),
    decreases bits,
{
    lemma2_to64();
    let point = derived_point(base, bits);
    if bits == 0 {
        lemma_fmul_one(fone());
    } else {
        lemma_pow2_unfold(bits);
        let q = fmul(base, base);
        let rest = derived_point(q, (bits - 1) as nat);
        assert forall|b: int| 0 <= b < bits - 1 implies #[trigger] frob(q, b) != fone() by {
            lemma_frob_shift(base, b);
            assert(frob(base, b + 1) != fone());
        }
        lemma_scaled_weight(q, (bits - 1) as nat, j / 2);
        assert(point.drop_last() =~= rest) by {
            assert forall|k: int| 0 <= k < bits - 1 implies point[k] == rest[k] by {
                lemma_frob_shift(base, bits - 2 - k);
            }
        }
        let f = |b: int| fadd(fone(), frob(base, b));
        lemma_fprod_first(f, bits as int);
        let shifted = |i: int| f(i + 1);
        let squared = |i: int| fadd(fone(), frob(q, i));
        assert forall|b: int| 0 <= b < bits - 1 implies #[trigger] shifted(b) == squared(b) by {
            lemma_frob_shift(base, b);
        }
        lemma_fprod_congr(shifted, squared, bits - 1);
        assert(derived_scale(base, bits as int) == fmul(f(0), derived_scale(q, bits - 1)));
        // The last coordinate belongs to bit zero.
        assert(frob(base, 0) == base);
        assert(base != fone());
        let d = fadd(fone(), base);
        assert(d != fzero()) by {
            lemma_fadd_cancel(fone(), base);
            lemma_fadd_zero(fone());
            if d == fzero() {
                assert(base == fone());
            }
        }
        lemma_finv(d, fone());
        let c = fmul(base, finv(d));
        assert(point.last() == c);
        let bit = j % 2 == 1;
        let low = if bit {
            base
        } else {
            fone()
        };
        assert(fmul(d, bit_weight(bit, c)) == low) by {
            lemma_fmul_assoc(base, finv(d), d);
            lemma_fmul_comm(c, d);
            lemma_fmul_one(base);
            if !bit {
                lemma_fmul_distr(d, fone(), c);
                lemma_fmul_one(d);
                lemma_fadd_assoc(fone(), base, base);
                lemma_fadd_self(base);
                lemma_fadd_zero(fone());
            }
        }
        lemma_fmul_swap(f(0), derived_scale(q, bits - 1), bit_weight(bit, c), eq_weight(rest, j / 2));
        lemma_fmul_comm(eq_weight(rest, j / 2), bit_weight(bit, c));
        lemma_fpow_halves(base, j);
        lemma_fmul_comm(low, fpow(q, j / 2));
    }
}

/// The power-sum identity: the sum of the entries under the powers of the
/// base is the scale times the multilinear extension at the derived point.
pub proof fn power_sum_identity(table: Seq<F128>, base: F128, bits: nat)
    requires
        table.len() == pow2(bits),
        power_sum_defined(base, bits as int),
    ensures
        fsum(|j: int| fmul(table[j], fpow(base, j)), table.len() as int) == fmul(
            derived_scale(base, bits as int),
            mle(table, derived_point(base, bits)),
        ),
{
    let point = derived_point(base, bits);
    let scale = derived_scale(base, bits as int);
    lemma_mle_is_weighted_sum(table, point);
    let w = |i: int| fmul(table[i], eq_weight(point, i));
    lemma_fsum_scale(scale, w, table.len() as int);
    let f = |j: int| fmul(table[j], fpow(base, j));
    assert forall|j: int| 0 <= j < table.len() implies #[trigger] f(j) == (|i: int|
        fmul(scale, w(i)))(j) by {
        lemma_scaled_weight(base, bits, j);
        lemma_fmul_comm(scale, table[j]);
        lemma_fmul_assoc(table[j], scale, eq_weight(point, j));
        lemma_fmul_assoc(scale, table[j], eq_weight(point, j));
    }
    lemma_fsum_congr(f, |i: int| fmul(scale, w(i)), table.len() as int);
}

/// The equality weight of a concatenated point splits.
pub proof fn lemma_eq_weight_concat(p: Seq<F128>, q: Seq<F128>, i: int)
    requires
        0 <= i,
    ensures
        eq_weight(p + q, i) == fmul(
            eq_weight(p, i / pow2(q.len()) as int),
            eq_weight(q, i % pow2(q.len()) as int),
        ),
    decreases q.len(),
{
    lemma2_to64();
    if q.len() == 0 {
        assert(p + q =~= p);
        lemma_fmul_one(eq_weight(p, i));
        assert(i / 1 == i && i % 1 == 0);
    } else {
        let n = pow2((q.len() - 1) as nat) as int;
        lemma_pow2_pos((q.len() - 1) as nat);
        lemma_pow2_unfold(q.len());
        assert((p + q).drop_last() =~= p + q.drop_last());
        assert((p + q).last() == q.last());
        lemma_eq_weight_concat(p, q.drop_last(), i / 2);
        lemma_split_shift(i, n);
        lemma_fmul_assoc(
            eq_weight(p, i / 2 / n),
            eq_weight(q.drop_last(), (i / 2) % n),
            bit_weight(i % 2 == 1, q.last()),
        );
    }
}

/// Halving and then dividing by `n` is dividing by `2 n`.
proof fn lemma_split_shift(i: int, n: int)
    requires
        0 <= i,
        0 < n,
    ensures
        i / 2 / n == i / (2 * n),
        (i % (2 * n)) / 2 == (i / 2) % n,
        (i % (2 * n)) % 2 == i % 2,
{
    vstd::arithmetic::div_mod::lemma_div_denominator(i, 2, n);
    let h = i / 2;
    let r = i % 2;
    vstd::arithmetic::div_mod::lemma_fundamental_div_mod(h, n);
    let k = h / n;
    let s = h % n;
    assert(i == (2 * n) * k + (2 * s + r)) by (nonlinear_arith)
        requires
            i == 2 * h + r,
            h == n * k + s,
    ;
    vstd::arithmetic::div_mod::lemma_mod_bound(h, n);
    vstd::arithmetic::div_mod::lemma_fundamental_div_mod_converse(i, 2 * n, k, 2 * s + r);
}

/// A sum over `n` blocks of `m` entries is the sum of the blocks' sums.
pub proof fn lemma_fsum_blocks(f: spec_fn(int) -> F128, n: int, m: int)
    requires
        0 <= n,
        0 < m,
    ensures
        fsum(f, n * m) == fsum(|j: int| fsum(|c: int| f(j * m + c), m), n),
    decreases n,
{
    let blocks = |j: int| fsum(|c: int| f(j * m + c), m);
    if n == 0 {
    } else {
        lemma_fsum_blocks(f, n - 1, m);
        assert(n * m == (n - 1) * m + m) by (nonlinear_arith);
        assert(0 <= (n - 1) * m) by (nonlinear_arith)
            requires
                1 <= n,
                0 < m,
        ;
        lemma_fsum_split(f, (n - 1) * m, m);
        lemma_fsum_congr(|i: int| f((n - 1) * m + i), |c: int| f((n - 1) * m + c), m);
    }
}

/// `sum_{j, c} table[j * 2^cols + c] a^j b^c`.
pub open spec fn double_power_sum(
    table: Seq<F128>,
    a: F128,
    b: F128,
    rows: nat,
    cols: nat,
) -> F128 {
    fsum(
        |j: int|
            fsum(
                |c: int| fmul(table[j * pow2(cols) + c], fmul(fpow(a, j), fpow(b, c))),
                pow2(cols) as int,
            ),
        pow2(rows) as int,
    )
}

/// The power-sum identity over rows and columns.
pub proof fn double_power_sum_identity(
    table: Seq<F128>,
    a: F128,
    b: F128,
    rows: nat,
    cols: nat,
)
    requires
        table.len() == pow2(rows + cols),
        power_sum_defined(a, rows as int),
        power_sum_defined(b, cols as int),
    ensures
        double_power_sum(table, a, b, rows, cols) == fmul(
            fmul(derived_scale(a, rows as int), derived_scale(b, cols as int)),
            mle(table, derived_point(a, rows) + derived_point(b, cols)),
        ),
{
    let p = derived_point(a, rows);
    let q = derived_point(b, cols);
    let n = pow2(rows) as int;
    let m = pow2(cols) as int;
    let sa = derived_scale(a, rows as int);
    let sb = derived_scale(b, cols as int);
    let scale = fmul(sa, sb);
    lemma_pow2_adds(rows, cols);
    lemma_pow2_pos(rows);
    lemma_pow2_pos(cols);
    lemma_mle_is_weighted_sum(table, p + q);
    let w = |i: int| fmul(table[i], eq_weight(p + q, i));
    lemma_fsum_scale(scale, w, n * m);
    let f = |i: int| fmul(table[i], fmul(fpow(a, i / m), fpow(b, i % m)));
    assert forall|i: int| 0 <= i < n * m implies #[trigger] f(i) == (|i: int|
        fmul(scale, w(i)))(i) by {
        lemma_index_range(i, n, m);
        lemma_scaled_weight(a, rows, i / m);
        lemma_scaled_weight(b, cols, i % m);
        lemma_eq_weight_concat(p, q, i);
        let u = eq_weight(p, i / m);
        let v = eq_weight(q, i % m);
        lemma_fmul_swap(sa, u, sb, v);
        lemma_fmul_comm(scale, table[i]);
        lemma_fmul_assoc(table[i], scale, fmul(u, v));
        lemma_fmul_assoc(scale, table[i], fmul(u, v));
    }
    lemma_fsum_congr(f, |i: int| fmul(scale, w(i)), n * m);
    lemma_fsum_blocks(f, n, m);
    let left = |j: int|
        fsum(|c: int| fmul(table[j * pow2(cols) + c], fmul(fpow(a, j), fpow(b, c))), m);
    let right = |j: int| fsum(|c: int| f(j * m + c), m);
    assert forall|j: int| 0 <= j < n implies #[trigger] left(j) == right(j) by {
        let g = |c: int| fmul(table[j * pow2(cols) + c], fmul(fpow(a, j), fpow(b, c)));
        let h = |c: int| f(j * m + c);
        assert forall|c: int| 0 <= c < m implies #[trigger] g(c) == h(c) by {
            vstd::arithmetic::div_mod::lemma_fundamental_div_mod_converse(j * m + c, m, j, c);
        }
        lemma_fsum_congr(g, h, m);
    }
    lemma_fsum_congr(left, right, n);
}

proof fn lemma_index_range(i: int, n: int, m: int)
    requires
        0 <= i < n * m,
        0 < m,
    ensures
        0 <= i / m < n,
        0 <= i % m < m,
{
    vstd::arithmetic::div_mod::lemma_fundamental_div_mod(i, m);
    vstd::arithmetic::div_mod::lemma_mod_bound(i, m);
    vstd::arithmetic::div_mod::lemma_div_pos_is_pos(i, m);
    let k = i / m;
    if k >= n {
        assert(k * m >= n * m) by (nonlinear_arith)
            requires
                k >= n,
                0 < m,
        ;
        assert(m * k == k * m) by (nonlinear_arith);
    }
}

/// log2 of the output indices of a record.
pub const INDEX_VARS: usize = 9;

/// log2 of the padded coordinates of an output.
pub const COORD_VARS: usize = 4;

/// The coordinates in use: fourteen residue bits and the centering flag.
pub const LIVE_COORDS: usize = 15;

/// The dense side of the scatter identity, `sum_{j,c} Z[j,c] beta^j gamma^c`,
/// evaluated as one multilinear opening at the derived point. `None` where
/// the derived point is undefined.
pub fn dense_power_sum(dense: &[F128], beta: F128, gamma: F128) -> (result: Option<F128>)
    requires
        dense@.len() == 8_192,
    ensures
        match result {
            Some(sum) => power_sum_defined(beta, INDEX_VARS as int) && power_sum_defined(
                gamma,
                COORD_VARS as int,
            ) && sum == double_power_sum(dense@, beta, gamma, INDEX_VARS as nat, COORD_VARS as nat),
            None => !power_sum_defined(beta, INDEX_VARS as int) || !power_sum_defined(
                gamma,
                COORD_VARS as int,
            ),
        },
{
    let (index_point, index_scale) = match power_sum_point(beta, INDEX_VARS) {
        Some(derived) => derived,
        None => {
            return None;
        },
    };
    let (coord_point, coord_scale) = match power_sum_point(gamma, COORD_VARS) {
        Some(derived) => derived,
        None => {
            return None;
        },
    };
    let ghost p = index_point@;
    let ghost q = coord_point@;
    let mut point = index_point;
    let mut tail = coord_point;
    point.append(&mut tail);
    proof {
        lemma2_to64();
        assert(point@ =~= p + q);
        double_power_sum_identity(dense@, beta, gamma, INDEX_VARS as nat, COORD_VARS as nat);
    }
    Some(index_scale * coord_scale * eval_mle(dense, point.as_slice()))
}

} // verus!
