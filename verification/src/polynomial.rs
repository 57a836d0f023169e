//! Polynomial functions over the field: root counting and interpolation.
use vstd::prelude::*;

use crate::field::{
    fadd, fmul, fone, fzero, lemma_fadd_assoc, lemma_fadd_cancel, lemma_fadd_comm, lemma_fadd_self,
    lemma_fadd_swap, lemma_fadd_zero, lemma_fmul_assoc, lemma_fmul_comm, lemma_fmul_distr,
    lemma_fmul_one, lemma_fmul_zero, F128,
};
use crate::frobenius::lemma_no_zero_divisors;
use crate::sums::{fpow, fsum, lemma_fsum_add, lemma_fsum_congr};

verus! {

/// `c[0] + c[1] r + c[2] r^2 + ...`, by Horner's rule.
pub open spec fn horner(c: Seq<F128>, r: F128) -> F128
    decreases c.len(),
{
    if c.len() == 0 {
        fzero()
    } else {
        fadd(c[0], fmul(r, horner(c.drop_first(), r)))
    }
}

/// `f` is a polynomial function with at most `n` coefficients.
pub open spec fn is_poly(f: spec_fn(F128) -> F128, n: nat) -> bool {
    exists|c: Seq<F128>| #[trigger] c.len() == n && forall|r: F128| f(r) == #[trigger] horner(c, r)
}

/// Coefficientwise sum.
spec fn coeff_add(c: Seq<F128>, d: Seq<F128>) -> Seq<F128> {
    Seq::new(c.len(), |i: int| fadd(c[i], d[i]))
}

spec fn coeff_scale(k: F128, c: Seq<F128>) -> Seq<F128> {
    Seq::new(c.len(), |i: int| fmul(k, c[i]))
}

proof fn lemma_horner_add(c: Seq<F128>, d: Seq<F128>, r: F128)
    requires
        c.len() == d.len(),
    ensures
        horner(coeff_add(c, d), r) == fadd(horner(c, r), horner(d, r)),
    decreases c.len(),
{
    if c.len() == 0 {
        lemma_fadd_zero(fzero());
    } else {
        let (cs, ds) = (c.drop_first(), d.drop_first());
        assert(coeff_add(c, d).drop_first() =~= coeff_add(cs, ds));
        lemma_horner_add(cs, ds, r);
        lemma_fmul_distr(r, horner(cs, r), horner(ds, r));
        lemma_fadd_swap(c[0], d[0], fmul(r, horner(cs, r)), fmul(r, horner(ds, r)));
    }
}

proof fn lemma_horner_scale(k: F128, c: Seq<F128>, r: F128)
    ensures
        horner(coeff_scale(k, c), r) == fmul(k, horner(c, r)),
    decreases c.len(),
{
    if c.len() == 0 {
        lemma_fmul_zero(k);
    } else {
        let cs = c.drop_first();
        assert(coeff_scale(k, c).drop_first() =~= coeff_scale(k, cs));
        lemma_horner_scale(k, cs, r);
        lemma_fmul_distr(k, c[0], fmul(r, horner(cs, r)));
        lemma_fmul_assoc(r, k, horner(cs, r));
        lemma_fmul_comm(r, k);
        lemma_fmul_assoc(k, r, horner(cs, r));
    }
}

/// A zero coefficient on top changes nothing.
pub proof fn lemma_horner_pad(c: Seq<F128>, r: F128)
    ensures
        horner(c.push(fzero()), r) == horner(c, r),
    decreases c.len(),
{
    let p = c.push(fzero());
    reveal_with_fuel(horner, 2);
    if c.len() == 0 {
        assert(p.drop_first() =~= Seq::<F128>::empty());
        lemma_fmul_zero(r);
        lemma_fadd_zero(fzero());
    } else {
        assert(p.drop_first() =~= c.drop_first().push(fzero()));
        lemma_horner_pad(c.drop_first(), r);
    }
}

/// A coefficient on top adds its term.
pub proof fn lemma_horner_push(c: Seq<F128>, x: F128, r: F128)
    ensures
        horner(c.push(x), r) == fadd(horner(c, r), fmul(fpow(r, c.len() as int), x)),
    decreases c.len(),
{
    let p = c.push(x);
    reveal_with_fuel(horner, 2);
    if c.len() == 0 {
        assert(p.drop_first() =~= Seq::<F128>::empty());
        lemma_fmul_zero(r);
        lemma_fadd_zero(x);
        lemma_fmul_one(x);
    } else {
        let rest = c.drop_first();
        assert(p.drop_first() =~= rest.push(x));
        lemma_horner_push(rest, x, r);
        let q = fpow(r, rest.len() as int);
        lemma_fmul_distr(r, horner(rest, r), fmul(q, x));
        lemma_fmul_assoc(r, q, x);
        lemma_fmul_comm(r, q);
        lemma_fadd_assoc(c[0], fmul(r, horner(rest, r)), fmul(fmul(q, r), x));
    }
}

/// Adding to a coefficient adds its term.
pub proof fn lemma_horner_bump(c: Seq<F128>, k: int, x: F128, r: F128)
    requires
        0 <= k < c.len(),
    ensures
        horner(c.update(k, fadd(c[k], x)), r) == fadd(horner(c, r), fmul(fpow(r, k), x)),
    decreases c.len(),
{
    let d = c.update(k, fadd(c[k], x));
    let rest = c.drop_first();
    let tail = fmul(r, horner(rest, r));
    if k == 0 {
        assert(d.drop_first() =~= rest);
        lemma_fmul_one(x);
        lemma_fadd_assoc(c[0], x, tail);
        lemma_fadd_comm(x, tail);
        lemma_fadd_assoc(c[0], tail, x);
    } else {
        assert(d.drop_first() =~= rest.update(k - 1, fadd(rest[k - 1], x)));
        lemma_horner_bump(rest, k - 1, x, r);
        let q = fpow(r, k - 1);
        lemma_fmul_distr(r, horner(rest, r), fmul(q, x));
        lemma_fmul_assoc(r, q, x);
        lemma_fmul_comm(r, q);
        lemma_fadd_assoc(c[0], tail, fmul(fmul(q, r), x));
    }
}

/// A polynomial splits at coefficient `k`.
pub proof fn lemma_horner_split(c: Seq<F128>, k: int, r: F128)
    requires
        0 <= k <= c.len(),
    ensures
        horner(c, r) == fadd(horner(c.take(k), r), fmul(fpow(r, k), horner(c.skip(k), r))),
    decreases k,
{
    let upper = horner(c.skip(k), r);
    if k == 0 {
        assert(c.take(0) =~= Seq::<F128>::empty());
        assert(c.skip(0) =~= c);
        lemma_fmul_one(upper);
        lemma_fadd_zero(upper);
    } else {
        let rest = c.drop_first();
        lemma_horner_split(rest, k - 1, r);
        assert(c.take(k).drop_first() =~= rest.take(k - 1));
        assert(rest.skip(k - 1) =~= c.skip(k));
        let low = horner(rest.take(k - 1), r);
        let q = fpow(r, k - 1);
        lemma_fmul_distr(r, low, fmul(q, upper));
        lemma_fmul_assoc(r, q, upper);
        lemma_fmul_comm(r, q);
        lemma_fadd_assoc(c[0], fmul(r, low), fmul(fmul(q, r), upper));
    }
}

/// The zero coefficients make the zero polynomial.
pub proof fn lemma_horner_zero(c: Seq<F128>, r: F128)
    requires
        forall|i: int| 0 <= i < c.len() ==> #[trigger] c[i] == fzero(),
    ensures
        horner(c, r) == fzero(),
    decreases c.len(),
{
    if c.len() > 0 {
        lemma_horner_zero(c.drop_first(), r);
        lemma_fmul_zero(r);
        lemma_fadd_zero(fzero());
    }
}

/// The value of a polynomial with the given coefficients, by Horner's rule.
pub fn eval_poly(coefficients: &[F128], r: F128) -> (value: F128)
    ensures
        value == horner(coefficients@, r),
{
    let mut value = F128::zero();
    let mut k: usize = coefficients.len();
    assert(coefficients@.skip(k as int) =~= Seq::<F128>::empty());
    while k > 0
        invariant
            k <= coefficients@.len(),
            value == horner(coefficients@.skip(k as int), r),
        decreases k,
    {
        k = k - 1;
        proof {
            let part = coefficients@.skip(k as int);
            assert(part.drop_first() =~= coefficients@.skip(k + 1));
            lemma_fmul_comm(value, r);
            lemma_fadd_comm(fmul(r, value), part[0]);
        }
        value = value * r + coefficients[k];
    }
    assert(coefficients@.skip(0) =~= coefficients@);
    value
}

pub proof fn lemma_poly_zero(n: nat)
    ensures
        is_poly(|r: F128| fzero(), n),
    decreases n,
{
    let f = |r: F128| fzero();
    if n == 0 {
        let c = Seq::<F128>::empty();
        assert(c.len() == 0 && forall|r: F128| f(r) == #[trigger] horner(c, r));
    } else {
        lemma_poly_zero((n - 1) as nat);
        lemma_poly_pad(f, (n - 1) as nat);
    }
}

/// A bound on the number of coefficients may be raised.
pub proof fn lemma_poly_pad(f: spec_fn(F128) -> F128, n: nat)
    requires
        is_poly(f, n),
    ensures
        is_poly(f, n + 1),
{
    let c = choose|c: Seq<F128>| #[trigger] c.len() == n && forall|r: F128| f(r) == #[trigger] horner(c, r);
    let p = c.push(fzero());
    assert forall|r: F128| f(r) == #[trigger] horner(p, r) by {
        lemma_horner_pad(c, r);
        assert(f(r) == horner(c, r));
    }
    assert(p.len() == n + 1);
}

pub proof fn lemma_poly_add(
    f: spec_fn(F128) -> F128,
    g: spec_fn(F128) -> F128,
    h: spec_fn(F128) -> F128,
    n: nat,
)
    requires
        is_poly(f, n),
        is_poly(g, n),
        forall|r: F128| #[trigger] h(r) == fadd(f(r), g(r)),
    ensures
        is_poly(h, n),
{
    let c = choose|c: Seq<F128>| #[trigger] c.len() == n && forall|r: F128| f(r) == #[trigger] horner(c, r);
    let d = choose|c: Seq<F128>| #[trigger] c.len() == n && forall|r: F128| g(r) == #[trigger] horner(c, r);
    let e = coeff_add(c, d);
    assert forall|r: F128| h(r) == #[trigger] horner(e, r) by {
        lemma_horner_add(c, d, r);
        assert(f(r) == horner(c, r) && g(r) == horner(d, r));
    }
    assert(e.len() == n);
}

/// The product of a polynomial with `a + b r` has one more coefficient.
pub proof fn lemma_poly_affine(f: spec_fn(F128) -> F128, a: F128, b: F128, h: spec_fn(F128) -> F128, n: nat)
    requires
        is_poly(f, n),
        forall|r: F128| #[trigger] h(r) == fmul(f(r), fadd(a, fmul(r, b))),
    ensures
        is_poly(h, n + 1),
{
    let c = choose|c: Seq<F128>| #[trigger] c.len() == n && forall|r: F128| f(r) == #[trigger] horner(c, r);
    let low = coeff_scale(a, c).push(fzero());
    let high = seq![fzero()] + coeff_scale(b, c);
    let e = coeff_add(low, high);
    assert forall|r: F128| h(r) == #[trigger] horner(e, r) by {
        lemma_horner_add(low, high, r);
        lemma_horner_pad(coeff_scale(a, c), r);
        lemma_horner_scale(a, c, r);
        lemma_horner_scale(b, c, r);
        assert(high.drop_first() =~= coeff_scale(b, c));
        let v = horner(c, r);
        assert(f(r) == v);
        lemma_fadd_zero(fmul(r, fmul(b, v)));
        lemma_fmul_distr(v, a, fmul(r, b));
        lemma_fmul_comm(v, a);
        lemma_fmul_comm(v, fmul(r, b));
        lemma_fmul_assoc(r, b, v);
    }
    assert(e.len() == n + 1);
}

pub proof fn lemma_poly_scale(f: spec_fn(F128) -> F128, k: F128, h: spec_fn(F128) -> F128, n: nat)
    requires
        is_poly(f, n),
        forall|r: F128| #[trigger] h(r) == fmul(k, f(r)),
    ensures
        is_poly(h, n),
{
    let c = choose|c: Seq<F128>| #[trigger] c.len() == n && forall|r: F128| f(r) == #[trigger] horner(c, r);
    let e = coeff_scale(k, c);
    assert forall|r: F128| h(r) == #[trigger] horner(e, r) by {
        lemma_horner_scale(k, c, r);
        assert(f(r) == horner(c, r));
    }
    assert(e.len() == n);
}

pub proof fn lemma_poly_constant(k: F128)
    ensures
        is_poly(|r: F128| k, 1),
{
    let f = |r: F128| k;
    let c = seq![k];
    assert forall|r: F128| f(r) == #[trigger] horner(c, r) by {
        reveal_with_fuel(horner, 2);
        assert(c.drop_first() =~= Seq::<F128>::empty());
        lemma_fmul_zero(r);
        lemma_fadd_zero(k);
    }
    assert(c.len() == 1);
}

/// The quotient of `c` by `r + a`.
spec fn quotient(c: Seq<F128>, a: F128) -> Seq<F128>
    decreases c.len(),
{
    if c.len() <= 1 {
        Seq::empty()
    } else {
        seq![horner(c.drop_first(), a)] + quotient(c.drop_first(), a)
    }
}

/// Division by `r + a` leaves the value at `a`.
proof fn lemma_quotient(c: Seq<F128>, a: F128, r: F128)
    requires
        c.len() > 0,
    ensures
        quotient(c, a).len() == c.len() - 1,
        horner(c, r) == fadd(horner(c, a), fmul(fadd(r, a), horner(quotient(c, a), r))),
    decreases c.len(),
{
    let cs = c.drop_first();
    let d = fadd(r, a);
    if c.len() == 1 {
        assert(cs =~= Seq::<F128>::empty());
        assert(horner(cs, r) == fzero() && horner(cs, a) == fzero());
        assert(horner(quotient(c, a), r) == fzero());
        lemma_fmul_zero(r);
        lemma_fmul_zero(a);
        lemma_fmul_zero(d);
        lemma_fadd_zero(horner(c, a));
    } else {
        lemma_quotient(cs, a, r);
        let va = horner(cs, a);
        let w = horner(quotient(cs, a), r);
        assert(quotient(c, a).drop_first() =~= quotient(cs, a));
        // r (va + d w) = a va + d va + d (r w)
        lemma_fmul_distr(r, va, fmul(d, w));
        lemma_fmul_assoc(r, d, w);
        lemma_fmul_comm(r, d);
        lemma_fmul_assoc(d, r, w);
        lemma_fmul_distr(va, r, a);
        lemma_fadd_comm(fmul(r, va), fmul(a, va));
        lemma_fadd_cancel(fmul(a, va), fmul(r, va));
        assert(fmul(r, va) == fadd(fmul(a, va), fmul(d, va)));
        lemma_fmul_distr(d, va, fmul(r, w));
        lemma_fadd_assoc(fmul(a, va), fmul(d, va), fmul(d, fmul(r, w)));
        lemma_fadd_assoc(c[0], fmul(a, va), fadd(fmul(d, va), fmul(d, fmul(r, w))));
    }
}

/// A polynomial with more distinct roots than its degree is zero everywhere.
proof fn lemma_roots(c: Seq<F128>, roots: Seq<F128>, r: F128)
    requires
        c.len() <= roots.len(),
        forall|i: int, j: int| 0 <= i < j < roots.len() ==> roots[i] != roots[j],
        forall|i: int| 0 <= i < roots.len() ==> horner(c, #[trigger] roots[i]) == fzero(),
    ensures
        horner(c, r) == fzero(),
    decreases c.len(),
{
    if c.len() > 0 {
        let a = roots.last();
        let rest = roots.drop_last();
        let q = quotient(c, a);
        lemma_quotient(c, a, r);
        assert(horner(c, a) == fzero());
        assert forall|i: int| 0 <= i < rest.len() implies horner(q, #[trigger] rest[i]) == fzero() by {
            let b = roots[i];
            assert(b != a);
            lemma_quotient(c, a, b);
            lemma_fadd_zero(fmul(fadd(b, a), horner(q, b)));
            lemma_no_zero_divisors(fadd(b, a), horner(q, b));
            if fadd(b, a) == fzero() {
                lemma_fadd_cancel(a, b);
                lemma_fadd_zero(a);
                assert(false);
            }
        }
        lemma_roots(q, rest, r);
        lemma_fmul_zero(fadd(r, a));
        lemma_fadd_zero(fzero());
    }
}

/// Two polynomials with at most `n` coefficients that agree at `n` distinct
/// points agree everywhere.
pub proof fn lemma_poly_unique(f: spec_fn(F128) -> F128, g: spec_fn(F128) -> F128, points: Seq<F128>, r: F128)
    requires
        is_poly(f, points.len()),
        is_poly(g, points.len()),
        forall|i: int, j: int| 0 <= i < j < points.len() ==> points[i] != points[j],
        forall|i: int| 0 <= i < points.len() ==> f(#[trigger] points[i]) == g(points[i]),
    ensures
        f(r) == g(r),
{
    let n = points.len();
    let h = |v: F128| fadd(f(v), g(v));
    lemma_poly_add(f, g, h, n);
    let c = choose|c: Seq<F128>| #[trigger] c.len() == n && forall|r: F128| h(r) == #[trigger] horner(c, r);
    assert forall|i: int| 0 <= i < n implies horner(c, #[trigger] points[i]) == fzero() by {
        assert(h(points[i]) == horner(c, points[i]));
        lemma_fadd_self(f(points[i]));
    }
    lemma_roots(c, points, r);
    assert(h(r) == horner(c, r));
    lemma_fadd_cancel(g(r), f(r));
    lemma_fadd_zero(g(r));
}

/// No two are equal.
pub open spec fn distinct(points: Seq<F128>) -> bool {
    forall|i: int, j: int| 0 <= i < j < points.len() ==> points[i] != points[j]
}

/// A polynomial with as many distinct roots as coefficients has no coefficient
/// but zero.
proof fn lemma_zero_coefficients(c: Seq<F128>, roots: Seq<F128>)
    requires
        c.len() <= roots.len(),
        distinct(roots),
        forall|i: int| 0 <= i < roots.len() ==> horner(c, #[trigger] roots[i]) == fzero(),
    ensures
        forall|k: int| 0 <= k < c.len() ==> #[trigger] c[k] == fzero(),
    decreases c.len(),
{
    if c.len() > 0 {
        let cs = c.drop_first();
        lemma_roots(c, roots, fzero());
        lemma_fmul_zero(horner(cs, fzero()));
        lemma_fmul_comm(fzero(), horner(cs, fzero()));
        lemma_fadd_zero(c[0]);
        assert(c[0] == fzero());
        let at = if roots.contains(fzero()) {
            roots.index_of(fzero())
        } else {
            0
        };
        let rest = roots.remove(at);
        assert(rest.len() == roots.len() - 1);
        assert forall|i: int| 0 <= i < rest.len() implies rest[i] == (if i < at {
            roots[i]
        } else {
            roots[i + 1]
        }) by {}
        assert forall|i: int| 0 <= i < rest.len() implies horner(cs, #[trigger] rest[i])
            == fzero() by {
            let b = rest[i];
            let j = if i < at {
                i
            } else {
                i + 1
            };
            assert(roots[j] == b);
            if b == fzero() {
                assert(roots.contains(fzero()));
                assert(roots[at] == roots[j]);
                assert(false);
            }
            assert(horner(c, roots[j]) == fzero());
            lemma_fadd_zero(fmul(b, horner(cs, b)));
            lemma_fadd_comm(fzero(), fmul(b, horner(cs, b)));
            lemma_no_zero_divisors(b, horner(cs, b));
        }
        lemma_zero_coefficients(cs, rest);
        assert forall|k: int| 0 <= k < c.len() implies #[trigger] c[k] == fzero() by {
            if k > 0 {
                assert(cs[k - 1] == c[k]);
            }
        }
    }
}

/// The value of a polynomial as a sum of powers.
proof fn lemma_horner_sum(c: Seq<F128>, n: int, r: F128)
    requires
        0 <= n <= c.len(),
    ensures
        horner(c.take(n), r) == fsum(|j: int| fmul(fpow(r, j), c[j]), n),
    decreases n,
{
    if n > 0 {
        lemma_horner_sum(c, n - 1, r);
        assert(c.take(n) =~= c.take(n - 1).push(c[n - 1]));
        lemma_horner_push(c.take(n - 1), c[n - 1], r);
    } else {
        assert(c.take(0) =~= Seq::<F128>::empty());
    }
}

/// Power sums of `n` terms that agree at `n` distinct points agree term by
/// term.
pub proof fn lemma_power_sums_bind(
    f: spec_fn(int) -> F128,
    g: spec_fn(int) -> F128,
    n: int,
    points: Seq<F128>,
    k: int,
)
    requires
        0 <= k < n <= points.len(),
        distinct(points),
        forall|i: int|
            0 <= i < points.len() ==> fsum(
                |j: int| fmul(fpow(#[trigger] points[i], j), f(j)),
                n,
            ) == fsum(|j: int| fmul(fpow(points[i], j), g(j)), n),
    ensures
        f(k) == g(k),
{
    let c = Seq::new(n as nat, |j: int| fadd(f(j), g(j)));
    assert forall|i: int| 0 <= i < points.len() implies horner(c, #[trigger] points[i])
        == fzero() by {
        let r = points[i];
        lemma_horner_sum(c, n, r);
        assert(c.take(n) =~= c);
        let x = |j: int| fmul(fpow(r, j), f(j));
        let y = |j: int| fmul(fpow(r, j), g(j));
        let both = |j: int| fmul(fpow(r, j), c[j]);
        let sum = |j: int| fadd(x(j), y(j));
        assert forall|j: int| 0 <= j < n implies #[trigger] both(j) == sum(j) by {
            lemma_fmul_distr(fpow(r, j), f(j), g(j));
        }
        lemma_fsum_congr(both, sum, n);
        lemma_fsum_add(x, y, n);
        lemma_fsum_congr(sum, |j: int| fadd(x(j), y(j)), n);
        lemma_fsum_congr(x, |j: int| fmul(fpow(points[i], j), f(j)), n);
        lemma_fsum_congr(y, |j: int| fmul(fpow(points[i], j), g(j)), n);
        lemma_fadd_self(fsum(x, n));
    }
    lemma_zero_coefficients(c, points);
    assert(c[k] == fzero());
    lemma_fadd_cancel(f(k), g(k));
    lemma_fadd_zero(f(k));
}

/// Lines that agree at two places have the same ends.
pub proof fn lemma_lines_bind(l: F128, h: F128, a: F128, b: F128, c: F128, d: F128)
    requires
        l != h,
        fadd(fmul(fadd(fone(), l), a), fmul(l, b)) == fadd(fmul(fadd(fone(), l), c), fmul(l, d)),
        fadd(fmul(fadd(fone(), h), a), fmul(h, b)) == fadd(fmul(fadd(fone(), h), c), fmul(h, d)),
    ensures
        a == c,
        b == d,
{
    let points = seq![l, h];
    let f = |j: int| if j == 0 {
        a
    } else {
        fadd(a, b)
    };
    let g = |j: int| if j == 0 {
        c
    } else {
        fadd(c, d)
    };
    assert forall|i: int| 0 <= i < points.len() implies fsum(
        |j: int| fmul(fpow(#[trigger] points[i], j), f(j)),
        2,
    ) == fsum(|j: int| fmul(fpow(points[i], j), g(j)), 2) by {
        lemma_line_sum(points[i], a, b);
        lemma_line_sum(points[i], c, d);
        lemma_fsum_congr(
            |j: int| fmul(fpow(points[i], j), if j == 0 {
                    a
                } else {
                    fadd(a, b)
                }),
            |j: int| fmul(fpow(points[i], j), f(j)),
            2,
        );
        lemma_fsum_congr(
            |j: int| fmul(fpow(points[i], j), if j == 0 {
                    c
                } else {
                    fadd(c, d)
                }),
            |j: int| fmul(fpow(points[i], j), g(j)),
            2,
        );
    }
    lemma_power_sums_bind(f, g, 2, points, 0);
    lemma_power_sums_bind(f, g, 2, points, 1);
    lemma_fadd_cancel(a, b);
    lemma_fadd_cancel(c, d);
}

proof fn lemma_line_sum(r: F128, a: F128, b: F128)
    ensures
        fadd(fmul(fadd(fone(), r), a), fmul(r, b)) == fsum(
            |j: int| fmul(fpow(r, j), if j == 0 {
                    a
                } else {
                    fadd(a, b)
                }),
            2,
        ),
{
    reveal_with_fuel(fsum, 3);
    reveal_with_fuel(fpow, 3);
    lemma_fmul_one(a);
    lemma_fmul_one(r);
    lemma_fadd_zero(a);
    lemma_fmul_distr(a, fone(), r);
    lemma_fmul_distr(r, a, b);
    lemma_fmul_comm(r, a);
    lemma_fadd_assoc(a, fmul(r, a), fmul(r, b));
}

} // verus!
