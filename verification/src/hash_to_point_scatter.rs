//! The scatter argument: a product sumcheck over the padded slot domain, and
//! the power-sum identity that ties it to the dense output table.
use vstd::arithmetic::power2::{lemma_pow2_unfold, pow2};
use vstd::prelude::*;

use crate::field::{
    fadd, fmul, fone, fzero, lemma_fadd_zero, lemma_fmul_assoc, lemma_fmul_comm, lemma_fmul_one,
    lemma_fmul_zero, F128,
};
use crate::frobenius::finv;
use crate::mle::{fold_all, fold_in_place, fold_table, lemma_fold_all_concat, lerp, mle};
use crate::sumcheck::{
    fold_factors, lagrange, lemma_round_binds, lemma_round_interpolates, lemma_round_sums,
    lerp_term, node, node_product, product_sum, round_evals, shaped, tables, term, terminal_value,
    ScatterProof,
};
use crate::sums::{fpow, fprod, fsum, lemma_fprod_congr, lemma_fprod_zero};

pub mod completeness;
pub mod discharge;
pub mod polynomial_product;
pub mod power_sum;
pub mod slot_tables;
pub mod soundness;

verus! {

/// The field element whose low word is `v`.
pub fn small(v: u64) -> (r: F128)
    ensures
        r == node(v as int),
{
    F128 { lo: v, hi: 0 }
}

/// There is at least one table, and all have the same even length.
pub open spec fn pairable(factors: Seq<Seq<F128>>) -> bool {
    &&& factors.len() > 0
    &&& factors[0].len() % 2 == 0
    &&& forall|f: int| 0 <= f < factors.len() ==> (#[trigger] factors[f]).len() == factors[0].len()
}

/// Lagrange interpolation at `r` through `(node(t), evals[t])`.
pub fn interpolate(evals: &[F128], r: F128) -> (value: F128)
    ensures
        value == lagrange(evals@, r),
{
    let n: usize = evals.len();
    let ghost f = |t: int|
        fmul(
            fmul(evals@[t], node_product(r, t, n as int)),
            finv(node_product(node(t), t, n as int)),
        );
    let mut result = F128::zero();
    let mut t: usize = 0;
    while t < n
        invariant
            n == evals@.len(),
            t <= n,
            f == (|t: int|
                fmul(
                    fmul(evals@[t], node_product(r, t, n as int)),
                    finv(node_product(node(t), t, n as int)),
                )),
            result == fsum(f, t as int),
        decreases n - t,
    {
        let point = small(t as u64);
        let mut numerator = F128::one();
        let mut denominator = F128::one();
        let mut u: usize = 0;
        while u < n
            invariant
                u <= n,
                point == node(t as int),
                numerator == node_product(r, t as int, u as int),
                denominator == node_product(point, t as int, u as int),
            decreases n - u,
        {
            if u != t {
                numerator = numerator * (r + small(u as u64));
                denominator = denominator * (point + small(u as u64));
            } else {
                proof {
                    lemma_fmul_one(numerator);
                    lemma_fmul_one(denominator);
                }
            }
            u = u + 1;
        }
        result = result + evals[t] * numerator * denominator.inv();
        t = t + 1;
    }
    result
}

/// The sum over the domain of the product of the tables.
pub fn claim_of(factors: &Vec<Vec<F128>>) -> (claim: F128)
    requires
        factors@.len() > 0,
        forall|f: int| 0 <= f < factors@.len() ==> (#[trigger] factors@[f])@.len() == factors@[0]@.len(),
    ensures
        claim == product_sum(tables(factors@)),
{
    let ghost ts = tables(factors@);
    let n: usize = factors[0].len();
    let mut claim = F128::zero();
    let mut s: usize = 0;
    while s < n
        invariant
            ts == tables(factors@),
            n == ts[0].len(),
            factors@.len() > 0,
            forall|f: int| 0 <= f < factors@.len() ==> (#[trigger] factors@[f])@.len() == n,
            s <= n,
            claim == fsum(|s: int| term(ts, s), s as int),
        decreases n - s,
    {
        let mut product = F128::one();
        let mut f: usize = 0;
        while f < factors.len()
            invariant
                ts == tables(factors@),
                f <= factors@.len(),
                s < n,
                forall|f: int| 0 <= f < factors@.len() ==> (#[trigger] factors@[f])@.len() == n,
                product == fprod(|f: int| ts[f][s as int], f as int),
            decreases factors@.len() - f,
        {
            product = product * factors[f][s];
            f = f + 1;
        }
        claim = claim + product;
        s = s + 1;
    }
    claim
}

/// The powers `0..=top` of a base.
fn power_row(base: F128, top: usize) -> (row: Vec<F128>)
    requires
        top < usize::MAX,
    ensures
        row@ == Seq::new((top + 1) as nat, |k: int| fpow(base, k)),
{
    let mut row: Vec<F128> = Vec::new();
    let mut power = F128::one();
    let mut k: usize = 0;
    while k <= top
        invariant
            k <= top + 1,
            top < usize::MAX,
            power == fpow(base, k as int),
            row@ == Seq::new(k as nat, |k: int| fpow(base, k)),
        decreases top + 1 - k,
    {
        row.push(power);
        power = power * base;
        k = k + 1;
        assert(row@ =~= Seq::new(k as nat, |k: int| fpow(base, k)));
    }
    row
}

/// The product of `low + r diff` over the listed pairs.
spec fn pair_product(pairs: Seq<(F128, F128)>, r: F128) -> F128 {
    fprod(|d: int| fadd(pairs[d].0, fmul(r, pairs[d].1)), pairs.len() as int)
}

/// `r^n_p (1 + r)^n_1p` times the product over the dense pairs.
spec fn class_product(n_p: int, n_1p: int, dense: Seq<(F128, F128)>, r: F128) -> F128 {
    fmul(fmul(fpow(r, n_p), fpow(fadd(fone(), r), n_1p)), pair_product(dense, r))
}

proof fn lemma_pair_product_push(pairs: Seq<(F128, F128)>, pair: (F128, F128), r: F128)
    ensures
        pair_product(pairs.push(pair), r) == fmul(
            pair_product(pairs, r),
            fadd(pair.0, fmul(r, pair.1)),
        ),
{
    let more = pairs.push(pair);
    lemma_fprod_congr(
        |d: int| fadd(more[d].0, fmul(r, more[d].1)),
        |d: int| fadd(pairs[d].0, fmul(r, pairs[d].1)),
        pairs.len() as int,
    );
}

/// One more factor of each class.
proof fn lemma_class_product_step(n_p: int, n_1p: int, dense: Seq<(F128, F128)>, pair: (F128, F128), r: F128)
    requires
        0 <= n_p,
        0 <= n_1p,
    ensures
        fmul(class_product(n_p, n_1p, dense, r), r) == class_product(n_p + 1, n_1p, dense, r),
        fmul(class_product(n_p, n_1p, dense, r), fadd(fone(), r)) == class_product(
            n_p,
            n_1p + 1,
            dense,
            r,
        ),
        fmul(class_product(n_p, n_1p, dense, r), fadd(pair.0, fmul(r, pair.1))) == class_product(
            n_p,
            n_1p,
            dense.push(pair),
            r,
        ),
{
    let a = fpow(r, n_p);
    let q = fadd(fone(), r);
    let b = fpow(q, n_1p);
    let c = pair_product(dense, r);
    let v = fadd(pair.0, fmul(r, pair.1));
    lemma_pair_product_push(dense, pair, r);
    lemma_fmul_assoc(fmul(a, b), c, v);
    lemma_fmul_assoc(fmul(a, b), c, r);
    lemma_fmul_comm(c, r);
    lemma_fmul_assoc(fmul(a, b), r, c);
    lemma_fmul_assoc(a, b, r);
    lemma_fmul_comm(b, r);
    lemma_fmul_assoc(a, r, b);
    lemma_fmul_assoc(fmul(a, b), c, q);
    lemma_fmul_comm(c, q);
    lemma_fmul_assoc(fmul(a, b), q, c);
    lemma_fmul_assoc(a, b, q);
}

/// Sort the factor pairs at position `i` by shape: pairs of bits collapse to
/// the constant one, `r` or `1 + r`, and a zero pair ends the whole term.
/// The remaining pairs are listed as `(low, low + high)`.
fn classify(factors: &Vec<Vec<F128>>, i: usize, half: usize) -> (classes: Option<
    (usize, usize, Vec<(F128, F128)>),
>)
    requires
        pairable(tables(factors@)),
        half == tables(factors@)[0].len() / 2,
        i < half,
    ensures
        match classes {
            None => forall|r: F128|
                #[trigger] lerp_term(tables(factors@), i as int, r) == fzero(),
            Some((n_p, n_1p, dense)) => {
                &&& n_p + n_1p + dense@.len() <= factors@.len()
                &&& forall|r: F128|
                    #[trigger] lerp_term(tables(factors@), i as int, r) == class_product(
                        n_p as int,
                        n_1p as int,
                        dense@,
                        r,
                    )
            },
        },
{
    let ghost ts = tables(factors@);
    let ghost at = |f: int, r: F128| lerp(ts[f][i as int], ts[f][half + i], r);
    let mut n_p: usize = 0;
    let mut n_1p: usize = 0;
    let mut dense: Vec<(F128, F128)> = Vec::new();
    let mut k: usize = 0;
    proof {
        assert forall|r: F128| fprod(|f: int| at(f, r), 0) == #[trigger] class_product(
            0,
            0,
            dense@,
            r,
        ) by {
            lemma_fmul_one(fone());
        }
    }
    while k < factors.len()
        invariant
            ts == tables(factors@),
            pairable(ts),
            half == ts[0].len() / 2,
            i < half,
            at == (|f: int, r: F128| lerp(ts[f][i as int], ts[f][half + i], r)),
            k <= factors@.len(),
            n_p + n_1p + dense@.len() <= k,
            forall|r: F128|
                fprod(|f: int| at(f, r), k as int) == #[trigger] class_product(
                    n_p as int,
                    n_1p as int,
                    dense@,
                    r,
                ),
        decreases factors@.len() - k,
    {
        assert(ts[k as int].len() == ts[0].len());
        let low = factors[k][i];
        let width: usize = factors[k].len();
        assert(half + i < width);
        let diff = low + factors[k][half + i];
        let ghost (n_p0, n_1p0, dense0) = (n_p, n_1p, dense@);
        let low_zero = low == F128::zero();
        let low_one = low == F128::one();
        let diff_zero = diff == F128::zero();
        let diff_one = diff == F128::one();
        if (low_zero || low_one) && (diff_zero || diff_one) {
            if low_zero && diff_zero {
                proof {
                    assert forall|r: F128| #[trigger] lerp_term(ts, i as int, r) == fzero() by {
                        let g = |f: int| lerp(ts[f][i as int], ts[f][ts[0].len() / 2 + i], r);
                        lemma_fmul_zero(r);
                        lemma_fadd_zero(fzero());
                        assert(g(k as int) == fzero());
                        lemma_fprod_zero(g, ts.len() as int, k as int);
                    }
                }
                return None;
            }
            if low_zero {
                n_p = n_p + 1;
            } else if diff_one {
                n_1p = n_1p + 1;
            }
        } else {
            dense.push((low, diff));
        }
        proof {
            assert forall|r: F128| fprod(|f: int| at(f, r), k + 1) == #[trigger] class_product(
                n_p as int,
                n_1p as int,
                dense@,
                r,
            ) by {
                let c = class_product(n_p0 as int, n_1p0 as int, dense0, r);
                assert(fprod(|f: int| at(f, r), k as int) == c);
                lemma_class_product_step(n_p0 as int, n_1p0 as int, dense0, (low, diff), r);
                lemma_fmul_one(r);
                lemma_fmul_one(c);
                lemma_fmul_zero(r);
                lemma_fadd_zero(r);
                lemma_fadd_zero(fone());
                assert(at(k as int, r) == fadd(low, fmul(r, diff)));
            }
        }
        k = k + 1;
    }
    proof {
        assert forall|r: F128| #[trigger] lerp_term(ts, i as int, r) == class_product(
            n_p as int,
            n_1p as int,
            dense@,
            r,
        ) by {
            lemma_fprod_congr(
                |f: int| at(f, r),
                |f: int| lerp(ts[f][i as int], ts[f][ts[0].len() / 2 + i], r),
                ts.len() as int,
            );
        }
    }
    Some((n_p, n_1p, dense))
}

/// The first round message. Before any folding the tables hold mostly bits,
/// so each term is assembled from powers of the node and of one plus the
/// node, and only the remaining pairs are extended one by one.
pub fn first_round(factors: &Vec<Vec<F128>>) -> (evals: Vec<F128>)
    requires
        pairable(tables(factors@)),
        factors@.len() < 32,
    ensures
        evals@ == round_evals(tables(factors@)),
{
    let ghost ts = tables(factors@);
    let degree: usize = factors.len();
    let half: usize = factors[0].len() / 2;
    let mut pow_p: Vec<Vec<F128>> = Vec::new();
    let mut pow_1p: Vec<Vec<F128>> = Vec::new();
    let mut acc: Vec<F128> = Vec::new();
    let mut t: usize = 0;
    while t <= degree
        invariant
            degree < 32,
            t <= degree + 1,
            pow_p@.len() == t,
            pow_1p@.len() == t,
            acc@.len() == t,
            forall|u: int|
                0 <= u < t ==> (#[trigger] pow_p@[u])@ == Seq::new(
                    (degree + 1) as nat,
                    |k: int| fpow(node(u), k),
                ),
            forall|u: int|
                0 <= u < t ==> (#[trigger] pow_1p@[u])@ == Seq::new(
                    (degree + 1) as nat,
                    |k: int| fpow(fadd(fone(), node(u)), k),
                ),
            forall|u: int| 0 <= u < t ==> #[trigger] acc@[u] == fzero(),
        decreases degree + 1 - t,
    {
        let base = small(t as u64);
        pow_p.push(power_row(base, degree));
        pow_1p.push(power_row(F128::one() + base, degree));
        acc.push(F128::zero());
        t = t + 1;
    }
    let mut i: usize = 0;
    while i < half
        invariant
            ts == tables(factors@),
            pairable(ts),
            degree == factors@.len(),
            degree < 32,
            half == ts[0].len() / 2,
            i <= half,
            pow_p@.len() == degree + 1,
            pow_1p@.len() == degree + 1,
            acc@.len() == degree + 1,
            forall|u: int|
                0 <= u <= degree ==> (#[trigger] pow_p@[u])@ == Seq::new(
                    (degree + 1) as nat,
                    |k: int| fpow(node(u), k),
                ),
            forall|u: int|
                0 <= u <= degree ==> (#[trigger] pow_1p@[u])@ == Seq::new(
                    (degree + 1) as nat,
                    |k: int| fpow(fadd(fone(), node(u)), k),
                ),
            forall|u: int|
                0 <= u <= degree ==> #[trigger] acc@[u] == fsum(
                    |i: int| lerp_term(ts, i, node(u)),
                    i as int,
                ),
        decreases half - i,
    {
        let classes = classify(factors, i, half);
        match classes {
            None => {
                proof {
                    assert forall|u: int| 0 <= u <= degree implies #[trigger] acc@[u] == fsum(
                        |i: int| lerp_term(ts, i, node(u)),
                        i + 1,
                    ) by {
                        assert(lerp_term(ts, i as int, node(u)) == fzero());
                        lemma_fadd_zero(acc@[u]);
                    }
                }
            },
            Some((n_p, n_1p, dense)) => {
                let mut t: usize = 0;
                while t <= degree
                    invariant
                        ts == tables(factors@),
                        degree == factors@.len(),
                        degree < 32,
                        t <= degree + 1,
                        n_p + n_1p + dense@.len() <= degree,
                        pow_p@.len() == degree + 1,
                        pow_1p@.len() == degree + 1,
                        acc@.len() == degree + 1,
                        forall|r: F128|
                            #[trigger] lerp_term(ts, i as int, r) == class_product(
                                n_p as int,
                                n_1p as int,
                                dense@,
                                r,
                            ),
                        forall|u: int|
                            0 <= u <= degree ==> (#[trigger] pow_p@[u])@ == Seq::new(
                                (degree + 1) as nat,
                                |k: int| fpow(node(u), k),
                            ),
                        forall|u: int|
                            0 <= u <= degree ==> (#[trigger] pow_1p@[u])@ == Seq::new(
                                (degree + 1) as nat,
                                |k: int| fpow(fadd(fone(), node(u)), k),
                            ),
                        forall|u: int|
                            0 <= u <= degree ==> #[trigger] acc@[u] == fsum(
                                |i: int| lerp_term(ts, i, node(u)),
                                if u < t {
                                    i + 1
                                } else {
                                    i as int
                                },
                            ),
                    decreases degree + 1 - t,
                {
                    let point = small(t as u64);
                    let scale = pow_p[t][n_p] * pow_1p[t][n_1p];
                    let mut product = scale;
                    let mut d: usize = 0;
                    proof {
                        lemma_fmul_one(scale);
                    }
                    while d < dense.len()
                        invariant
                            d <= dense@.len(),
                            point == node(t as int),
                            product == fmul(
                                scale,
                                fprod(|d: int| fadd(dense@[d].0, fmul(point, dense@[d].1)), d as int),
                            ),
                        decreases dense@.len() - d,
                    {
                        let pair = dense[d];
                        proof {
                            lemma_fmul_assoc(
                                scale,
                                fprod(
                                    |d: int| fadd(dense@[d].0, fmul(point, dense@[d].1)),
                                    d as int,
                                ),
                                fadd(pair.0, fmul(point, pair.1)),
                            );
                        }
                        product = product * (pair.0 + point * pair.1);
                        d = d + 1;
                    }
                    let before = acc[t];
                    acc.set(t, before + product);
                    proof {
                        assert(product == lerp_term(ts, i as int, point));
                    }
                    t = t + 1;
                }
            },
        }
        i = i + 1;
    }
    assert(evals_match(acc@, ts));
    acc
}

/// The message as a sequence equality.
spec fn evals_match(evals: Seq<F128>, factors: Seq<Seq<F128>>) -> bool {
    evals =~= round_evals(factors)
}

/// A round message after the first: every pair is extended to every node.
pub fn next_round(factors: &Vec<Vec<F128>>) -> (evals: Vec<F128>)
    requires
        pairable(tables(factors@)),
        factors@.len() < 32,
    ensures
        evals@ == round_evals(tables(factors@)),
{
    let ghost ts = tables(factors@);
    let degree: usize = factors.len();
    let half: usize = factors[0].len() / 2;
    let mut acc: Vec<F128> = Vec::new();
    let mut t: usize = 0;
    while t <= degree
        invariant
            degree < 32,
            t <= degree + 1,
            acc@.len() == t,
            forall|u: int| 0 <= u < t ==> #[trigger] acc@[u] == fzero(),
        decreases degree + 1 - t,
    {
        acc.push(F128::zero());
        t = t + 1;
    }
    let mut i: usize = 0;
    while i < half
        invariant
            ts == tables(factors@),
            pairable(ts),
            degree == factors@.len(),
            degree < 32,
            half == ts[0].len() / 2,
            i <= half,
            acc@.len() == degree + 1,
            forall|u: int|
                0 <= u <= degree ==> #[trigger] acc@[u] == fsum(
                    |i: int| lerp_term(ts, i, node(u)),
                    i as int,
                ),
        decreases half - i,
    {
        let mut t: usize = 0;
        while t <= degree
            invariant
                ts == tables(factors@),
                pairable(ts),
                degree == factors@.len(),
                degree < 32,
                half == ts[0].len() / 2,
                i < half,
                t <= degree + 1,
                acc@.len() == degree + 1,
                forall|u: int|
                    0 <= u <= degree ==> #[trigger] acc@[u] == fsum(
                        |i: int| lerp_term(ts, i, node(u)),
                        if u < t {
                            i + 1
                        } else {
                            i as int
                        },
                    ),
            decreases degree + 1 - t,
        {
            let point = small(t as u64);
            let mut product = F128::one();
            let mut f: usize = 0;
            while f < factors.len()
                invariant
                    ts == tables(factors@),
                    pairable(ts),
                    half == ts[0].len() / 2,
                    i < half,
                    f <= factors@.len(),
                    product == fprod(
                        |f: int| lerp(ts[f][i as int], ts[f][ts[0].len() / 2 + i], point),
                        f as int,
                    ),
                decreases factors@.len() - f,
            {
                assert(ts[f as int].len() == ts[0].len());
                let low = factors[f][i];
                let width: usize = factors[f].len();
                assert(half + i < width);
                let diff = low + factors[f][half + i];
                product = product * (low + point * diff);
                f = f + 1;
            }
            let before = acc[t];
            acc.set(t, before + product);
            t = t + 1;
        }
        i = i + 1;
    }
    assert(evals_match(acc@, ts));
    acc
}

/// Bind the leading variable of every table to the challenge.
pub fn bind_factors(factors: &mut Vec<Vec<F128>>, challenge: F128)
    requires
        pairable(tables(old(factors)@)),
    ensures
        tables(final(factors)@) == fold_factors(tables(old(factors)@), seq![challenge]),
{
    let ghost ts = tables(factors@);
    let mut f: usize = 0;
    while f < factors.len()
        invariant
            pairable(ts),
            factors@.len() == ts.len(),
            f <= factors@.len(),
            forall|g: int|
                0 <= g < f ==> (#[trigger] factors@[g])@ == fold_table(ts[g], challenge),
            forall|g: int| f <= g < factors@.len() ==> (#[trigger] factors@[g])@ == ts[g],
        decreases factors@.len() - f,
    {
        assert(ts[f as int].len() == ts[0].len());
        fold_in_place(&mut factors[f], challenge);
        f = f + 1;
    }
    proof {
        reveal_with_fuel(fold_all, 2);
        assert(seq![challenge].drop_first() =~= Seq::<F128>::empty());
        assert(tables(factors@) =~= fold_factors(ts, seq![challenge]));
    }
}


/// The messages of the sumcheck of the tables under the given challenges.
pub open spec fn honest_rounds(factors: Seq<Seq<F128>>, challenges: Seq<F128>) -> Seq<Seq<F128>> {
    Seq::new(
        challenges.len(),
        |k: int| round_evals(fold_factors(factors, challenges.take(k))),
    )
}

/// A message depends only on the challenges before it, so each challenge can be
/// drawn after its own round's message.
pub proof fn messages_precede_their_challenges(
    factors: Seq<Seq<F128>>,
    drawn: Seq<F128>,
    other: Seq<F128>,
    k: int,
)
    requires
        0 <= k < drawn.len(),
        k < other.len(),
        drawn.take(k) == other.take(k),
    ensures
        honest_rounds(factors, drawn)[k] == honest_rounds(factors, other)[k],
{
}

/// Prove `claim = sum_s prod_f factors[f][s]` for any number of multilinear
/// tables over a power-of-two domain; round `k` is bound to `challenges[k]`.
/// A transcript that draws each challenge after the round's message calls
/// `claim_of`, `first_round`, `next_round` and `bind_factors` in this order.
pub fn prove(factors: Vec<Vec<F128>>, challenges: &[F128]) -> (result: (ScatterProof, Vec<F128>))
    requires
        shaped(tables(factors@), challenges@.len()),
        factors@.len() < 32,
    ensures
        result.0.claim == product_sum(tables(factors@)),
        tables(result.0.rounds@) == honest_rounds(tables(factors@), challenges@),
        result.1@ == challenges@,
{
    let ghost ts = tables(factors@);
    let mut factors = factors;
    proof {
        assert forall|f: int| 0 <= f < factors@.len() implies (#[trigger] factors@[f])@.len()
            == pow2(challenges@.len()) by {
            assert(ts[f].len() == pow2(challenges@.len()));
        }
        assert(ts =~= fold_factors(ts, challenges@.take(0)));
    }
    let claim = claim_of(&factors);
    let mut rounds: Vec<Vec<F128>> = Vec::new();
    let mut point: Vec<F128> = Vec::new();
    let mut k: usize = 0;
    while k < challenges.len()
        invariant
            k <= challenges@.len(),
            factors@.len() == ts.len(),
            factors@.len() < 32,
            tables(factors@) == fold_factors(ts, challenges@.take(k as int)),
            shaped(tables(factors@), (challenges@.len() - k) as nat),
            rounds@.len() == k,
            forall|j: int|
                0 <= j < k ==> (#[trigger] rounds@[j])@ == round_evals(
                    fold_factors(ts, challenges@.take(j)),
                ),
            point@ == challenges@.take(k as int),
        decreases challenges@.len() - k,
    {
        let ghost current = tables(factors@);
        proof {
            lemma_pow2_unfold((challenges@.len() - k) as nat);
            assert forall|f: int| 0 <= f < current.len() implies (#[trigger] current[f]).len()
                == current[0].len() by {}
        }
        let evals = if k == 0 {
            first_round(&factors)
        } else {
            next_round(&factors)
        };
        let challenge = challenges[k];
        bind_factors(&mut factors, challenge);
        proof {
            lemma_round_binds(current, (challenges@.len() - k) as nat, challenge);
            let before = challenges@.take(k as int);
            let after = challenges@.take(k + 1);
            assert(after =~= before + seq![challenge]);
            assert forall|f: int| 0 <= f < ts.len() implies #[trigger] fold_factors(
                current,
                seq![challenge],
            )[f] == fold_all(ts[f], after) by {
                lemma_fold_all_concat(ts[f], before, seq![challenge]);
            }
            assert(fold_factors(current, seq![challenge]) =~= fold_factors(ts, after));
        }
        rounds.push(evals);
        point.push(challenge);
        k = k + 1;
        assert(point@ =~= challenges@.take(k as int));
    }
    assert(tables(rounds@) =~= honest_rounds(ts, challenges@));
    assert(point@ =~= challenges@);
    (ScatterProof { claim, rounds }, point)
}

/// Binding a concatenated point binds in two steps.
pub proof fn lemma_fold_factors_concat(factors: Seq<Seq<F128>>, p: Seq<F128>, q: Seq<F128>)
    ensures
        fold_factors(fold_factors(factors, p), q) == fold_factors(factors, p + q),
{
    assert forall|f: int| 0 <= f < factors.len() implies #[trigger] fold_factors(
        fold_factors(factors, p),
        q,
    )[f] == fold_all(factors[f], p + q) by {
        lemma_fold_all_concat(factors[f], p, q);
    }
    assert(fold_factors(fold_factors(factors, p), q) =~= fold_factors(factors, p + q));
}

/// Continue a sumcheck over tables that are already bound to a prefix: append
/// the messages and challenges of the remaining rounds.
pub fn prove_remaining(
    factors: Vec<Vec<F128>>,
    challenges: &[F128],
    rounds: &mut Vec<Vec<F128>>,
    point: &mut Vec<F128>,
)
    requires
        shaped(tables(factors@), challenges@.len()),
        factors@.len() < 32,
    ensures
        tables(final(rounds)@) == tables(old(rounds)@) + honest_rounds(
            tables(factors@),
            challenges@,
        ),
        final(point)@ == old(point)@ + challenges@,
{
    let ghost ts = tables(factors@);
    let ghost rounds0 = rounds@;
    let ghost point0 = point@;
    let mut factors = factors;
    proof {
        assert(ts =~= fold_factors(ts, challenges@.take(0)));
        assert(point0 + challenges@.take(0) =~= point0);
    }
    let mut k: usize = 0;
    while k < challenges.len()
        invariant
            k <= challenges@.len(),
            factors@.len() == ts.len(),
            factors@.len() < 32,
            tables(factors@) == fold_factors(ts, challenges@.take(k as int)),
            shaped(tables(factors@), (challenges@.len() - k) as nat),
            rounds@.len() == rounds0.len() + k,
            forall|j: int| 0 <= j < rounds0.len() ==> #[trigger] rounds@[j] == rounds0[j],
            forall|j: int|
                rounds0.len() <= j < rounds0.len() + k ==> (#[trigger] rounds@[j])@ == round_evals(
                    fold_factors(ts, challenges@.take(j - rounds0.len())),
                ),
            point@ == point0 + challenges@.take(k as int),
        decreases challenges@.len() - k,
    {
        let ghost current = tables(factors@);
        proof {
            lemma_pow2_unfold((challenges@.len() - k) as nat);
            assert forall|f: int| 0 <= f < current.len() implies (#[trigger] current[f]).len()
                == current[0].len() by {}
        }
        let evals = if factors.len() == 13 {
            polynomial_product::round(&factors)
        } else {
            next_round(&factors)
        };
        let challenge = challenges[k];
        bind_factors(&mut factors, challenge);
        proof {
            lemma_round_binds(current, (challenges@.len() - k) as nat, challenge);
            let before = challenges@.take(k as int);
            assert(challenges@.take(k + 1) =~= before + seq![challenge]);
            lemma_fold_factors_concat(ts, before, seq![challenge]);
        }
        rounds.push(evals);
        point.push(challenge);
        k = k + 1;
        assert(point@ =~= point0 + challenges@.take(k as int));
    }
    proof {
        assert(challenges@.take(k as int) =~= challenges@);
        let expected = tables(rounds0) + honest_rounds(ts, challenges@);
        assert forall|j: int| 0 <= j < rounds@.len() implies tables(rounds@)[j] == expected[j] by {
            if j < rounds0.len() {
                assert(rounds@[j] == rounds0[j]);
            }
        }
        assert(tables(rounds@) =~= expected);
    }
}

/// The verifier's walk over the round messages: the running claim that is
/// left after the last round, or the first check that fails.
pub open spec fn walk_rounds(
    rounds: Seq<Seq<F128>>,
    degree: int,
    running: F128,
    challenges: Seq<F128>,
) -> Result<F128, Seq<char>>
    decreases rounds.len(),
{
    if rounds.len() == 0 {
        Ok(running)
    } else if rounds[0].len() != degree + 1 {
        Err("scatter round has the wrong degree"@)
    } else if fadd(rounds[0][0], rounds[0][1]) != running {
        Err("scatter round does not sum to the running claim"@)
    } else {
        walk_rounds(
            rounds.drop_first(),
            degree,
            lagrange(rounds[0], challenges[0]),
            challenges.drop_first(),
        )
    }
}

/// What the verifier of a `degree`-factor, `vars`-variable product sumcheck
/// returns: the terminal value, or the first check that fails.
pub open spec fn verify_outcome(
    claim: F128,
    rounds: Seq<Seq<F128>>,
    vars: int,
    degree: int,
    challenges: Seq<F128>,
) -> Result<F128, Seq<char>> {
    if rounds.len() != vars {
        Err("scatter sumcheck has the wrong round count"@)
    } else {
        walk_rounds(rounds, degree, claim, challenges)
    }
}

/// Check one round message against the running claim.
pub fn check_round(evals: &[F128], degree: usize, running: F128) -> (result: Result<(), &'static str>)
    requires
        1 <= degree < usize::MAX,
    ensures
        match result {
            Ok(()) => evals@.len() == degree + 1 && fadd(evals@[0], evals@[1]) == running,
            Err(e) => {
                ||| evals@.len() != degree + 1 && e@ == "scatter round has the wrong degree"@
                ||| evals@.len() == degree + 1 && fadd(evals@[0], evals@[1]) != running && e@
                    == "scatter round does not sum to the running claim"@
            },
        },
{
    if evals.len() != degree + 1 {
        return Err("scatter round has the wrong degree");
    }
    if evals[0] + evals[1] != running {
        return Err("scatter round does not sum to the running claim");
    }
    Ok(())
}

/// Verify the round messages of a `degree`-factor, `vars`-variable product
/// sumcheck under the given challenges; the caller checks the returned
/// terminal against its own factor evaluations at the returned point.
pub fn verify(
    proof: &ScatterProof,
    vars: usize,
    degree: usize,
    challenges: &[F128],
) -> (result: Result<(Vec<F128>, F128), &'static str>)
    requires
        1 <= degree < usize::MAX,
        challenges@.len() == vars,
    ensures
        match verify_outcome(
            proof.claim,
            tables(proof.rounds@),
            vars as int,
            degree as int,
            challenges@,
        ) {
            Ok(terminal) => result matches Ok((point, value)) && point@ == challenges@ && value
                == terminal,
            Err(message) => result matches Err(e) && e@ == message,
        },
{
    if proof.rounds.len() != vars {
        return Err("scatter sumcheck has the wrong round count");
    }
    let ghost rounds = tables(proof.rounds@);
    let mut running = proof.claim;
    let mut point: Vec<F128> = Vec::new();
    let mut k: usize = 0;
    proof {
        assert(rounds.skip(0) =~= rounds);
        assert(challenges@.skip(0) =~= challenges@);
    }
    while k < vars
        invariant
            1 <= degree < usize::MAX,
            rounds == tables(proof.rounds@),
            rounds.len() == vars,
            challenges@.len() == vars,
            k <= vars,
            point@ == challenges@.take(k as int),
            walk_rounds(rounds, degree as int, proof.claim, challenges@) == walk_rounds(
                rounds.skip(k as int),
                degree as int,
                running,
                challenges@.skip(k as int),
            ),
        decreases vars - k,
    {
        let ghost rest = rounds.skip(k as int);
        let evals = &proof.rounds[k];
        assert(rest[0] == evals@);
        match check_round(evals.as_slice(), degree, running) {
            Err(e) => {
                return Err(e);
            },
            Ok(()) => {},
        }
        let challenge = challenges[k];
        running = interpolate(evals.as_slice(), challenge);
        point.push(challenge);
        proof {
            assert(rest.drop_first() =~= rounds.skip(k + 1));
            assert(challenges@.skip(k as int).drop_first() =~= challenges@.skip(k + 1));
            assert(point@ =~= challenges@.take(k + 1));
        }
        k = k + 1;
    }
    assert(point@ =~= challenges@);
    Ok((point, running))
}

proof fn lemma_walk_honest(factors: Seq<Seq<F128>>, challenges: Seq<F128>)
    requires
        shaped(factors, challenges.len()),
        factors.len() < u64::MAX,
    ensures
        walk_rounds(
            honest_rounds(factors, challenges),
            factors.len() as int,
            product_sum(factors),
            challenges,
        ) == Ok::<F128, Seq<char>>(terminal_value(factors, challenges)),
    decreases challenges.len(),
{
    let rounds = honest_rounds(factors, challenges);
    if challenges.len() == 0 {
        vstd::arithmetic::power2::lemma2_to64();
        reveal_with_fuel(fsum, 2);
        lemma_fadd_zero(term(factors, 0));
        assert(challenges =~= Seq::<F128>::empty());
        lemma_fprod_congr(
            |f: int| factors[f][0],
            |f: int| mle(factors[f], challenges),
            factors.len() as int,
        );
    } else {
        let vars = challenges.len();
        let r = challenges[0];
        let rest = challenges.drop_first();
        let bound = fold_factors(factors, seq![r]);
        assert(fold_factors(factors, challenges.take(0)) =~= factors);
        assert(rounds[0] == round_evals(factors));
        assert(node(0) == fzero() && node(1) == fone());
        lemma_round_sums(factors, vars);
        lemma_round_interpolates(factors, r);
        lemma_round_binds(factors, vars, r);
        lemma_walk_honest(bound, rest);
        assert(seq![r].drop_first() =~= Seq::<F128>::empty());
        reveal_with_fuel(fold_all, 2);
        assert forall|k: int| 0 <= k < rest.len() implies #[trigger] rounds.drop_first()[k]
            == honest_rounds(bound, rest)[k] by {
            let long = challenges.take(k + 1);
            assert(long.drop_first() =~= rest.take(k));
            assert(fold_factors(factors, long) =~= fold_factors(bound, rest.take(k)));
        }
        assert(rounds.drop_first() =~= honest_rounds(bound, rest));
        lemma_fprod_congr(
            |f: int| mle(bound[f], rest),
            |f: int| mle(factors[f], challenges),
            factors.len() as int,
        );
    }
}

/// Completeness: the verifier accepts an honest proof under the challenges it
/// was made with, and the terminal it is left with is the product of the
/// tables' multilinear extensions at the challenge point.
pub proof fn honest_proof_verifies(factors: Seq<Seq<F128>>, challenges: Seq<F128>)
    requires
        shaped(factors, challenges.len()),
        factors.len() < u64::MAX,
    ensures
        verify_outcome(
            product_sum(factors),
            honest_rounds(factors, challenges),
            challenges.len() as int,
            factors.len() as int,
            challenges,
        ) == Ok::<F128, Seq<char>>(terminal_value(factors, challenges)),
{
    lemma_walk_honest(factors, challenges);
}

} // verus!
