//! The product sumcheck: a claimed sum over the hypercube of a product of
//! multilinear tables, reduced to one value of each table.
use vstd::arithmetic::power2::{lemma_pow2_unfold, pow2};
use vstd::prelude::*;

use crate::field::{
    fadd, fmul, fone, fzero, lemma_fadd_cancel, lemma_fadd_comm, lemma_fadd_self, lemma_fadd_zero,
    lemma_fmul_assoc, lemma_fmul_comm, lemma_fmul_one, lemma_fmul_zero, F128,
};
use crate::frobenius::{finv, lemma_finv, lemma_no_zero_divisors};
use crate::mle::{fold_all, fold_table, lerp, mle};
use crate::polynomial::{
    is_poly, lemma_poly_add, lemma_poly_affine, lemma_poly_constant, lemma_poly_scale,
    lemma_poly_unique, lemma_poly_zero,
};
use crate::sums::{
    fprod, fsum, lemma_fprod_congr, lemma_fprod_zero, lemma_fsum_congr, lemma_fsum_single,
    lemma_fsum_split,
};

verus! {

/// The messages of a product sumcheck.
#[derive(Clone, Debug, PartialEq, Eq)]
pub struct ScatterProof {
    pub claim: F128,
    pub rounds: Vec<Vec<F128>>,
}

/// The evaluation node `t`: the field element whose low word is `t`.
pub open spec fn node(t: int) -> F128 {
    F128 { lo: t as u64, hi: 0 }
}

/// The contents of a list of tables.
pub open spec fn tables(factors: Seq<Vec<F128>>) -> Seq<Seq<F128>> {
    Seq::new(factors.len(), |f: int| factors[f]@)
}

/// Every table has `2^vars` entries, and there is at least one table.
pub open spec fn shaped(factors: Seq<Seq<F128>>, vars: nat) -> bool {
    &&& factors.len() > 0
    &&& forall|f: int| 0 <= f < factors.len() ==> (#[trigger] factors[f]).len() == pow2(vars)
}

/// The product of the tables' entries at index `s`.
pub open spec fn term(factors: Seq<Seq<F128>>, s: int) -> F128 {
    fprod(|f: int| factors[f][s], factors.len() as int)
}

/// The sum over the domain of the product of the tables.
pub open spec fn product_sum(factors: Seq<Seq<F128>>) -> F128 {
    fsum(|s: int| term(factors, s), factors[0].len() as int)
}

/// The product of the tables at position `i` with the leading variable at `r`.
pub open spec fn lerp_term(factors: Seq<Seq<F128>>, i: int, r: F128) -> F128 {
    fprod(
        |f: int| lerp(factors[f][i], factors[f][factors[0].len() / 2 + i], r),
        factors.len() as int,
    )
}

/// The round polynomial: the product sum with the leading variable at `r`.
pub open spec fn round_value(factors: Seq<Seq<F128>>, r: F128) -> F128 {
    fsum(|i: int| lerp_term(factors, i, r), (factors[0].len() / 2) as int)
}

/// The round message: the round polynomial at the nodes `0..=degree`.
pub open spec fn round_evals(factors: Seq<Seq<F128>>) -> Seq<F128> {
    Seq::new(factors.len() + 1, |t: int| round_value(factors, node(t)))
}

/// All tables with their leading variables bound to the point.
pub open spec fn fold_factors(factors: Seq<Seq<F128>>, point: Seq<F128>) -> Seq<Seq<F128>> {
    Seq::new(factors.len(), |f: int| fold_all(factors[f], point))
}

/// The product of the tables' multilinear extensions at a full point.
pub open spec fn terminal_value(factors: Seq<Seq<F128>>, point: Seq<F128>) -> F128 {
    fprod(|f: int| mle(factors[f], point), factors.len() as int)
}

// ---------------------------------------------------------------------------
// Interpolation.
// ---------------------------------------------------------------------------

/// The product of `r + node(u)` over the nodes `u < n` other than `t`.
pub open spec fn node_product(r: F128, t: int, n: int) -> F128 {
    fprod(
        |u: int|
            if u == t {
                fone()
            } else {
                fadd(r, node(u))
            },
        n,
    )
}

/// Lagrange interpolation through `(node(t), evals[t])`, at `r`.
pub open spec fn lagrange(evals: Seq<F128>, r: F128) -> F128 {
    let n = evals.len() as int;
    fsum(
        |t: int|
            fmul(
                fmul(evals[t], node_product(r, t, n)),
                finv(node_product(node(t), t, n)),
            ),
        n,
    )
}

proof fn lemma_node_product_nonzero(t: int, n: int, k: int)
    requires
        0 <= t < n <= u64::MAX,
        0 <= k <= n,
    ensures
        node_product(node(t), t, k) != fzero(),
    decreases k,
{
    if k > 0 {
        lemma_node_product_nonzero(t, n, k - 1);
        let u = k - 1;
        let factor = if u == t {
            fone()
        } else {
            fadd(node(t), node(u))
        };
        if factor == fzero() {
            lemma_fadd_cancel(node(u), node(t));
            lemma_fadd_zero(node(u));
            assert(false);
        }
        if fmul(node_product(node(t), t, k - 1), factor) == fzero() {
            lemma_no_zero_divisors(node_product(node(t), t, k - 1), factor);
        }
    }
}

/// The interpolation's basis polynomials have degree below the node count.
proof fn lemma_node_product_poly(t: int, k: int)
    requires
        0 <= t,
        0 <= k,
    ensures
        is_poly(|r: F128| node_product(r, t, k), if t < k {
            k as nat
        } else {
            (k + 1) as nat
        }),
    decreases k,
{
    let f = |r: F128| node_product(r, t, k);
    if k == 0 {
        let one = |r: F128| fone();
        lemma_poly_constant(fone());
        assert(f =~= one);
    } else {
        let g = |r: F128| node_product(r, t, k - 1);
        lemma_node_product_poly(t, k - 1);
        if t == k - 1 {
            assert forall|r: F128| #[trigger] f(r) == fmul(fone(), g(r)) by {
                lemma_fmul_comm(fone(), g(r));
            }
            lemma_poly_scale(g, fone(), f, k as nat);
        } else {
            let m: nat = if t < k - 1 {
                (k - 1) as nat
            } else {
                k as nat
            };
            assert forall|r: F128| #[trigger] f(r) == fmul(g(r), fadd(node(k - 1), fmul(r, fone()))) by {
                lemma_fmul_one(r);
                lemma_fadd_comm(r, node(k - 1));
            }
            lemma_poly_affine(g, node(k - 1), fone(), f, m);
        }
    }
}

pub proof fn lemma_lagrange_poly(evals: Seq<F128>, k: int)
    requires
        0 <= k <= evals.len(),
    ensures
        is_poly(
            |r: F128|
                fsum(
                    |t: int|
                        fmul(
                            fmul(evals[t], node_product(r, t, evals.len() as int)),
                            finv(node_product(node(t), t, evals.len() as int)),
                        ),
                    k,
                ),
            evals.len(),
        ),
    decreases k,
{
    let n = evals.len() as int;
    let f = |r: F128|
        fsum(
            |t: int|
                fmul(fmul(evals[t], node_product(r, t, n)), finv(node_product(node(t), t, n))),
            k,
        );
    if k == 0 {
        lemma_poly_zero(evals.len());
        assert(f =~= |r: F128| fzero());
    } else {
        let t = k - 1;
        lemma_lagrange_poly(evals, k - 1);
        let g = |r: F128|
            fsum(
                |t: int|
                    fmul(fmul(evals[t], node_product(r, t, n)), finv(node_product(node(t), t, n))),
                k - 1,
            );
        let basis = |r: F128| node_product(r, t, n);
        lemma_node_product_poly(t, n);
        let d = finv(node_product(node(t), t, n));
        let scaled = |r: F128| fmul(fmul(evals[t], d), basis(r));
        lemma_poly_scale(basis, fmul(evals[t], d), scaled, evals.len());
        assert forall|r: F128| #[trigger] f(r) == fadd(g(r), scaled(r)) by {
            let b = basis(r);
            lemma_fmul_assoc(evals[t], b, d);
            lemma_fmul_comm(b, d);
            lemma_fmul_assoc(evals[t], d, b);
        }
        lemma_poly_add(g, scaled, f, evals.len());
    }
}

/// Interpolation passes through its points.
pub proof fn lemma_lagrange_at_node(evals: Seq<F128>, s: int)
    requires
        0 <= s < evals.len() <= u64::MAX,
    ensures
        lagrange(evals, node(s)) == evals[s],
{
    let n = evals.len() as int;
    let r = node(s);
    let f = |t: int|
        fmul(fmul(evals[t], node_product(r, t, n)), finv(node_product(node(t), t, n)));
    assert forall|t: int| 0 <= t < n && t != s implies #[trigger] f(t) == fzero() by {
        let g = |u: int|
            if u == t {
                fone()
            } else {
                fadd(r, node(u))
            };
        lemma_fadd_self(r);
        lemma_fprod_zero(g, n, s);
        lemma_fmul_zero(evals[t]);
        lemma_fmul_zero(finv(node_product(node(t), t, n)));
    }
    lemma_fsum_single(f, n, s);
    let p = node_product(r, s, n);
    lemma_node_product_nonzero(s, n, n);
    lemma_finv(p, p);
    lemma_fmul_assoc(evals[s], p, finv(p));
    lemma_fmul_one(evals[s]);
}

/// Interpolation through the values of a polynomial with at most as many
/// coefficients as nodes is that polynomial.
pub proof fn lemma_lagrange_exact(p: spec_fn(F128) -> F128, evals: Seq<F128>, r: F128)
    requires
        evals.len() <= u64::MAX,
        is_poly(p, evals.len()),
        forall|t: int| 0 <= t < evals.len() ==> #[trigger] evals[t] == p(node(t)),
    ensures
        lagrange(evals, r) == p(r),
{
    let n = evals.len() as int;
    let f = |r: F128|
        fsum(
            |t: int|
                fmul(fmul(evals[t], node_product(r, t, n)), finv(node_product(node(t), t, n))),
            n,
        );
    lemma_lagrange_poly(evals, n);
    let points = Seq::new(evals.len(), |t: int| node(t));
    assert forall|i: int| 0 <= i < points.len() implies f(#[trigger] points[i]) == p(points[i]) by {
        lemma_lagrange_at_node(evals, i);
        assert(evals[i] == p(node(i)));
    }
    lemma_poly_unique(f, p, points, r);
}

// ---------------------------------------------------------------------------
// What a round keeps.
// ---------------------------------------------------------------------------

/// The round polynomial's value at the challenge is the product sum of the
/// bound tables.
pub proof fn lemma_round_binds(factors: Seq<Seq<F128>>, vars: nat, r: F128)
    requires
        shaped(factors, vars),
        vars > 0,
    ensures
        product_sum(fold_factors(factors, seq![r])) == round_value(factors, r),
        shaped(fold_factors(factors, seq![r]), (vars - 1) as nat),
{
    let folded = fold_factors(factors, seq![r]);
    lemma_pow2_unfold(vars);
    reveal_with_fuel(fold_all, 2);
    assert(seq![r].drop_first() =~= Seq::<F128>::empty());
    assert forall|f: int| 0 <= f < factors.len() implies #[trigger] folded[f] == fold_table(
        factors[f],
        r,
    ) by {}
    let half = (factors[0].len() / 2) as int;
    assert forall|s: int| 0 <= s < half implies #[trigger] term(folded, s) == lerp_term(
        factors,
        s,
        r,
    ) by {
        lemma_fprod_congr(
            |f: int| folded[f][s],
            |f: int| lerp(factors[f][s], factors[f][factors[0].len() / 2 + s], r),
            factors.len() as int,
        );
    }
    lemma_fsum_congr(|s: int| term(folded, s), |i: int| lerp_term(factors, i, r), half);
}

/// A round message's values at zero and one sum to the claim.
pub proof fn lemma_round_sums(factors: Seq<Seq<F128>>, vars: nat)
    requires
        shaped(factors, vars),
        vars > 0,
    ensures
        fadd(round_value(factors, fzero()), round_value(factors, fone())) == product_sum(factors),
{
    lemma_pow2_unfold(vars);
    let half = (factors[0].len() / 2) as int;
    let n = factors.len() as int;
    let f = |s: int| term(factors, s);
    assert forall|i: int|
        #![trigger lerp_term(factors, i, fzero())]
        #![trigger lerp_term(factors, i, fone())]
        0 <= i < half implies lerp_term(factors, i, fzero()) == f(i) && lerp_term(
        factors,
        i,
        fone(),
    ) == f(half + i) by {
        assert forall|g: int| 0 <= g < n implies lerp(
            #[trigger] factors[g][i],
            factors[g][half + i],
            fzero(),
        ) == factors[g][i] && lerp(factors[g][i], factors[g][half + i], fone())
            == factors[g][half + i] by {
            let (a, b) = (factors[g][i], factors[g][half + i]);
            lemma_fmul_zero(fadd(a, b));
            lemma_fadd_zero(a);
            lemma_fmul_one(fadd(a, b));
            lemma_fadd_cancel(a, b);
        }
        lemma_fprod_congr(
            |g: int| lerp(factors[g][i], factors[g][factors[0].len() / 2 + i], fzero()),
            |g: int| factors[g][i],
            n,
        );
        lemma_fprod_congr(
            |g: int| lerp(factors[g][i], factors[g][factors[0].len() / 2 + i], fone()),
            |g: int| factors[g][half + i],
            n,
        );
    }
    lemma_fsum_split(f, half, half);
    lemma_fsum_congr(|i: int| lerp_term(factors, i, fzero()), f, half);
    lemma_fsum_congr(|i: int| lerp_term(factors, i, fone()), |i: int| f(half + i), half);
}

proof fn lemma_lerp_term_poly(factors: Seq<Seq<F128>>, i: int, k: int)
    requires
        0 <= k <= factors.len(),
    ensures
        is_poly(
            |r: F128|
                fprod(|f: int| lerp(factors[f][i], factors[f][factors[0].len() / 2 + i], r), k),
            (k + 1) as nat,
        ),
    decreases k,
{
    let p = |r: F128|
        fprod(|f: int| lerp(factors[f][i], factors[f][factors[0].len() / 2 + i], r), k);
    if k == 0 {
        lemma_poly_constant(fone());
        assert(p =~= |r: F128| fone());
    } else {
        lemma_lerp_term_poly(factors, i, k - 1);
        let q = |r: F128|
            fprod(|f: int| lerp(factors[f][i], factors[f][factors[0].len() / 2 + i], r), k - 1);
        let low = factors[k - 1][i];
        let high = factors[k - 1][factors[0].len() / 2 + i];
        lemma_poly_affine(q, low, fadd(low, high), p, k as nat);
    }
}

pub proof fn lemma_round_value_poly(factors: Seq<Seq<F128>>, k: int)
    requires
        0 <= k,
    ensures
        is_poly(|r: F128| fsum(|i: int| lerp_term(factors, i, r), k), factors.len() + 1),
    decreases k,
{
    let p = |r: F128| fsum(|i: int| lerp_term(factors, i, r), k);
    if k == 0 {
        lemma_poly_zero(factors.len() + 1);
        assert(p =~= |r: F128| fzero());
    } else {
        lemma_round_value_poly(factors, k - 1);
        let q = |r: F128| fsum(|i: int| lerp_term(factors, i, r), k - 1);
        let t = |r: F128| lerp_term(factors, k - 1, r);
        lemma_lerp_term_poly(factors, k - 1, factors.len() as int);
        assert(t =~= |r: F128|
            fprod(
                |f: int| lerp(factors[f][k - 1], factors[f][factors[0].len() / 2 + (k - 1)], r),
                factors.len() as int,
            ));
        lemma_poly_add(q, t, p, factors.len() + 1);
    }
}

/// Interpolating a round message at the challenge gives the product sum of
/// the bound tables.
pub proof fn lemma_round_interpolates(factors: Seq<Seq<F128>>, r: F128)
    requires
        factors.len() < u64::MAX,
    ensures
        lagrange(round_evals(factors), r) == round_value(factors, r),
{
    let half = (factors[0].len() / 2) as int;
    let p = |r: F128| fsum(|i: int| lerp_term(factors, i, r), half);
    lemma_round_value_poly(factors, half);
    lemma_lagrange_exact(p, round_evals(factors), r);
}

} // verus!
