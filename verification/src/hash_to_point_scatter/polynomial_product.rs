//! Coefficient products of affine factors, for the thirteen-factor scatter.
//!
//! A polynomial is the list of its coefficients in ascending order. The small
//! products are Karatsuba products, which are exact in characteristic two.
use vstd::prelude::*;
use vstd::slice::slice_subrange;

use crate::field::{
    fadd, fmul, fone, fzero, lemma_fadd_assoc, lemma_fadd_comm, lemma_fadd_self, lemma_fadd_swap,
    lemma_fadd_zero, lemma_fmul_assoc, lemma_fmul_comm, lemma_fmul_distr, lemma_fmul_one,
    lemma_fmul_zero, F128,
};
use crate::mle::lerp;
use crate::polynomial::{
    eval_poly, horner, lemma_horner_bump, lemma_horner_pad, lemma_horner_push, lemma_horner_split,
    lemma_horner_zero,
};
use crate::hash_to_point_scatter::{pairable, small};
use crate::sumcheck::{lerp_term, node, round_evals, round_value, tables};
use crate::sums::{
    fpow, fprod, fsum, lemma_fmul_swap, lemma_fpow_add, lemma_fprod_congr, lemma_fprod_split,
    lemma_fprod_zero,
};

verus! {

/// `out` is the product of the polynomials `a` and `b`.
pub open spec fn is_product(out: Seq<F128>, a: Seq<F128>, b: Seq<F128>) -> bool {
    forall|r: F128| #[trigger] horner(out, r) == fmul(horner(a, r), horner(b, r))
}

/// `out` is the product of `n` affine factors from `at`.
pub open spec fn is_range_product(
    out: Seq<F128>,
    factors: Seq<[F128; 2]>,
    at: int,
    n: int,
) -> bool {
    forall|r: F128| #[trigger]
        horner(out, r) == fprod(|k: int| horner(factors[at + k]@, r), n)
}

// ---------------------------------------------------------------------------
// Algebra.
// ---------------------------------------------------------------------------

/// `(a + b)(c + d) = (a c + a d) + (b c + b d)`.
pub proof fn lemma_four(a: F128, b: F128, c: F128, d: F128)
    ensures
        fmul(fadd(a, b), fadd(c, d)) == fadd(
            fadd(fmul(a, c), fmul(a, d)),
            fadd(fmul(b, c), fmul(b, d)),
        ),
{
    let s = fadd(c, d);
    lemma_fmul_comm(fadd(a, b), s);
    lemma_fmul_distr(s, a, b);
    lemma_fmul_comm(s, a);
    lemma_fmul_comm(s, b);
    lemma_fmul_distr(a, c, d);
    lemma_fmul_distr(b, c, d);
}

/// `(a + b)(c + d) + a c + b d = a d + b c`.
proof fn lemma_cross(a: F128, b: F128, c: F128, d: F128)
    ensures
        fadd(fadd(fmul(fadd(a, b), fadd(c, d)), fmul(a, c)), fmul(b, d)) == fadd(
            fmul(a, d),
            fmul(b, c),
        ),
        fadd(fadd(fmul(a, c), fmul(b, d)), fmul(fadd(a, b), fadd(c, d))) == fadd(
            fmul(a, d),
            fmul(b, c),
        ),
{
    let (ac, ad, bc, bd) = (fmul(a, c), fmul(a, d), fmul(b, c), fmul(b, d));
    lemma_four(a, b, c, d);
    let all = fadd(fadd(ac, ad), fadd(bc, bd));
    lemma_fadd_swap(ac, ad, bd, bc);
    lemma_fadd_comm(bc, bd);
    let e = fadd(ac, bd);
    let f = fadd(ad, bc);
    assert(all == fadd(e, f));
    lemma_fadd_assoc(all, ac, bd);
    lemma_fadd_comm(all, e);
    lemma_fadd_assoc(e, e, f);
    lemma_fadd_self(e);
    lemma_fadd_zero(f);
    lemma_fadd_comm(fzero(), f);
}

/// `a0 b0 + x (a0 b1 + a1 b0) + x^2 a1 b1 = (a0 + x a1)(b0 + x b1)`.
pub proof fn lemma_expand(a0: F128, a1: F128, b0: F128, b1: F128, x: F128)
    ensures
        fadd(
            fadd(fmul(a0, b0), fmul(x, fadd(fmul(a0, b1), fmul(a1, b0)))),
            fmul(x, fmul(x, fmul(a1, b1))),
        ) == fmul(fadd(a0, fmul(x, a1)), fadd(b0, fmul(x, b1))),
{
    lemma_four(a0, fmul(x, a1), b0, fmul(x, b1));
    // a0 (x b1) = x (a0 b1)
    lemma_fmul_assoc(a0, x, b1);
    lemma_fmul_comm(a0, x);
    lemma_fmul_assoc(x, a0, b1);
    // (x a1) b0 = x (a1 b0)
    lemma_fmul_assoc(x, a1, b0);
    // (x a1)(x b1) = x (x (a1 b1))
    lemma_fmul_swap(x, a1, x, b1);
    lemma_fmul_assoc(x, x, fmul(a1, b1));
    lemma_fmul_distr(x, fmul(a0, b1), fmul(a1, b0));
    let p = fmul(a0, b0);
    let u = fmul(x, fmul(a0, b1));
    let v = fmul(x, fmul(a1, b0));
    let w = fmul(x, fmul(x, fmul(a1, b1)));
    lemma_fadd_assoc(fadd(p, u), v, w);
    lemma_fadd_assoc(p, u, v);
}

/// The Karatsuba step over any halves.
proof fn lemma_karatsuba(a0: F128, a1: F128, b0: F128, b1: F128, x: F128)
    ensures
        ({
            let low = fmul(a0, b0);
            let high = fmul(a1, b1);
            let cross = fmul(fadd(a0, a1), fadd(b0, b1));
            fadd(
                fadd(low, fmul(x, fadd(fadd(low, high), cross))),
                fmul(x, fmul(x, high)),
            )
        }) == fmul(fadd(a0, fmul(x, a1)), fadd(b0, fmul(x, b1))),
{
    lemma_cross(a0, a1, b0, b1);
    lemma_expand(a0, a1, b0, b1, x);
}

pub proof fn lemma_pair(p: [F128; 2], r: F128)
    ensures
        horner(p@, r) == fadd(p@[0], fmul(r, p@[1])),
{
    lemma_two_terms(p@, r);
}

pub proof fn lemma_one_term(c: Seq<F128>, r: F128)
    requires
        c.len() == 1,
    ensures
        horner(c, r) == c[0],
{
    reveal_with_fuel(horner, 2);
    lemma_fmul_zero(r);
    lemma_fadd_zero(c[0]);
}

pub proof fn lemma_two_terms(c: Seq<F128>, r: F128)
    requires
        c.len() == 2,
    ensures
        horner(c, r) == fadd(c[0], fmul(r, c[1])),
{
    lemma_one_term(c.drop_first(), r);
}

proof fn lemma_three_terms(c: Seq<F128>, r: F128)
    requires
        c.len() == 3,
    ensures
        horner(c, r) == fadd(fadd(c[0], fmul(r, c[1])), fmul(r, fmul(r, c[2]))),
{
    let rest = c.drop_first();
    lemma_two_terms(rest, r);
    lemma_fmul_distr(r, c[1], fmul(r, c[2]));
    lemma_fadd_assoc(c[0], fmul(r, c[1]), fmul(r, fmul(r, c[2])));
}

// ---------------------------------------------------------------------------
// Products of small polynomials.
// ---------------------------------------------------------------------------

/// Product of two affine polynomials.
pub fn mul22(a: &[F128], b: &[F128]) -> (out: Vec<F128>)
    requires
        a@.len() == 2,
        b@.len() == 2,
    ensures
        out@.len() == 3,
        is_product(out@, a@, b@),
{
    let p = a[0] * b[0];
    let q = a[1] * b[1];
    let mut out: Vec<F128> = Vec::new();
    out.push(p);
    out.push((a[0] + a[1]) * (b[0] + b[1]) + p + q);
    out.push(q);
    proof {
        assert forall|r: F128| #[trigger] horner(out@, r) == fmul(horner(a@, r), horner(b@, r)) by {
            lemma_three_terms(out@, r);
            lemma_two_terms(a@, r);
            lemma_two_terms(b@, r);
            lemma_cross(a@[0], a@[1], b@[0], b@[1]);
            lemma_expand(a@[0], a@[1], b@[0], b@[1], r);
        }
    }
    out
}

/// Product of a quadratic and an affine polynomial.
pub fn mul32(a: &[F128], b: &[F128]) -> (out: Vec<F128>)
    requires
        a@.len() == 3,
        b@.len() == 2,
    ensures
        out@.len() == 4,
        is_product(out@, a@, b@),
{
    let p = a[0] * b[0];
    let q0 = a[1] * b[1];
    let q1 = a[2] * b[1];
    let s = b[0] + b[1];
    let z0 = (a[0] + a[1]) * s;
    let z1 = a[2] * s;
    let mut out: Vec<F128> = Vec::new();
    out.push(p);
    out.push(z0 + p + q0);
    out.push(z1 + q1 + q0);
    out.push(q1);
    proof {
        let (a0, a1, a2) = (a@[0], a@[1], a@[2]);
        let (b0, b1) = (b@[0], b@[1]);
        lemma_cross(a0, a1, b0, b1);
        // z1 + q1 = a2 b0
        lemma_fmul_distr(a2, b0, b1);
        lemma_fadd_assoc(fmul(a2, b0), q1, q1);
        lemma_fadd_self(q1);
        lemma_fadd_zero(fmul(a2, b0));
        assert(fadd(z1, q1) == fmul(a2, b0));
        lemma_fadd_comm(fmul(a2, b0), q0);
        assert forall|r: F128| #[trigger] horner(out@, r) == fmul(horner(a@, r), horner(b@, r)) by {
            let low = out@.take(2).push(q0);
            let tail = seq![fmul(a2, b0), q1];
            lemma_three_terms(low, r);
            lemma_expand(a0, a1, b0, b1, r);
            lemma_two_terms(b@, r);
            let a_low = fadd(a0, fmul(r, a1));
            assert(horner(low, r) == fmul(a_low, horner(b@, r)));
            // horner(out) = horner(low) + r^2 horner(tail)
            assert(out@.skip(3) =~= tail.skip(1));
            lemma_tail_at_two(out@, low, tail, r);
            lemma_two_terms(tail, r);
            // tail = a2 * b
            lemma_fmul_distr(a2, b0, fmul(r, b1));
            lemma_fmul_assoc(a2, r, b1);
            lemma_fmul_comm(a2, r);
            lemma_fmul_assoc(r, a2, b1);
            assert(horner(tail, r) == fmul(a2, horner(b@, r)));
            lemma_three_terms(a@, r);
            let rra2 = fmul(r, fmul(r, a2));
            lemma_fmul_assoc(r, a2, horner(b@, r));
            lemma_fmul_assoc(r, fmul(r, a2), horner(b@, r));
            lemma_fmul_comm(fadd(a_low, rra2), horner(b@, r));
            lemma_fmul_distr(horner(b@, r), a_low, rra2);
            lemma_fmul_comm(horner(b@, r), a_low);
            lemma_fmul_comm(horner(b@, r), rra2);
        }
    }
    out
}

/// `c = low + r^2 tail`, where the two overlap in the coefficient of `r^2`.
proof fn lemma_tail_at_two(c: Seq<F128>, low: Seq<F128>, tail: Seq<F128>, r: F128)
    requires
        low.len() == 3,
        tail.len() >= 1,
        c.len() == 2 + tail.len(),
        c[0] == low[0],
        c[1] == low[1],
        c[2] == fadd(low[2], tail[0]),
        c.skip(3) == tail.skip(1),
    ensures
        horner(c, r) == fadd(horner(low, r), fmul(r, fmul(r, horner(tail, r)))),
{
    lemma_horner_split(c, 2, r);
    lemma_horner_split(low, 2, r);
    assert(c.take(2) =~= low.take(2));
    let upper = c.skip(2);
    assert(upper =~= tail.update(0, fadd(tail[0], low[2]))) by {
        lemma_fadd_comm(tail[0], low[2]);
        assert forall|i: int| 1 <= i < tail.len() implies upper[i] == tail[i] by {
            assert(c.skip(3)[i - 1] == c[i + 2]);
            assert(tail.skip(1)[i - 1] == tail[i]);
        }
    }
    lemma_horner_bump(tail, 0, low[2], r);
    lemma_fmul_one(low[2]);
    lemma_one_term(low.skip(2), r);
    let x = fpow(r, 2);
    reveal_with_fuel(fpow, 3);
    lemma_fmul_one(r);
    assert(x == fmul(r, r));
    lemma_fmul_distr(x, horner(tail, r), low[2]);
    lemma_fmul_assoc(r, r, horner(tail, r));
    let head = horner(c.take(2), r);
    let t = fmul(x, horner(tail, r));
    let l = fmul(x, low[2]);
    lemma_fadd_comm(t, l);
    lemma_fadd_assoc(head, l, t);
}

/// Product of two quadratic polynomials.
pub fn mul33(a: &[F128], b: &[F128]) -> (out: Vec<F128>)
    requires
        a@.len() == 3,
        b@.len() == 3,
    ensures
        out@.len() == 5,
        is_product(out@, a@, b@),
{
    let p0 = a[0] * b[0];
    let p1 = a[1] * b[1];
    let p2 = a[2] * b[2];
    let mut out: Vec<F128> = Vec::new();
    out.push(p0);
    out.push((a[0] + a[1]) * (b[0] + b[1]) + p0 + p1);
    out.push((a[0] + a[2]) * (b[0] + b[2]) + p0 + p1 + p2);
    out.push((a[1] + a[2]) * (b[1] + b[2]) + p1 + p2);
    out.push(p2);
    proof {
        let (a0, a1, a2) = (a@[0], a@[1], a@[2]);
        let (b0, b1, b2) = (b@[0], b@[1], b@[2]);
        lemma_cross(a0, a1, b0, b1);
        lemma_cross(a0, a2, b0, b2);
        lemma_cross(a1, a2, b1, b2);
        let k02 = fadd(fmul(a0, b2), fmul(a2, b0));
        let k12 = fadd(fmul(a1, b2), fmul(a2, b1));
        assert(out@[2] == fadd(p1, k02)) by {
            let m = fmul(fadd(a0, a2), fadd(b0, b2));
            lemma_fadd_assoc(fadd(m, p0), p1, p2);
            lemma_fadd_comm(p1, p2);
            lemma_fadd_assoc(fadd(m, p0), p2, p1);
            lemma_fadd_comm(k02, p1);
        }
        assert forall|r: F128| #[trigger] horner(out@, r) == fmul(horner(a@, r), horner(b@, r)) by {
            let low = out@.take(2).push(p1);
            let tail = seq![k02, k12, p2];
            let al = fadd(a0, fmul(r, a1));
            let bl = fadd(b0, fmul(r, b1));
            let x = fmul(r, r);
            lemma_three_terms(low, r);
            lemma_expand(a0, a1, b0, b1, r);
            assert(horner(low, r) == fmul(al, bl));
            assert(out@.skip(3) =~= tail.skip(1));
            lemma_tail_at_two(out@, low, tail, r);
            lemma_three_terms(tail, r);
            // tail = (al b2 + a2 bl) + r^2 a2 b2
            assert(fadd(fmul(al, b2), fmul(a2, bl)) == fadd(k02, fmul(r, k12))) by {
                lemma_fmul_comm(al, b2);
                lemma_fmul_distr(b2, a0, fmul(r, a1));
                lemma_fmul_comm(b2, a0);
                lemma_fmul_comm(b2, fmul(r, a1));
                lemma_fmul_assoc(r, a1, b2);
                lemma_fmul_distr(a2, b0, fmul(r, b1));
                lemma_fmul_assoc(a2, r, b1);
                lemma_fmul_comm(a2, r);
                lemma_fmul_assoc(r, a2, b1);
                lemma_fmul_distr(r, fmul(a1, b2), fmul(a2, b1));
                lemma_fadd_swap(
                    fmul(a0, b2),
                    fmul(r, fmul(a1, b2)),
                    fmul(a2, b0),
                    fmul(r, fmul(a2, b1)),
                );
            }
            lemma_three_terms(a@, r);
            lemma_three_terms(b@, r);
            lemma_fmul_assoc(r, r, a2);
            lemma_fmul_assoc(r, r, b2);
            lemma_expand(al, a2, bl, b2, x);
            let y = fadd(fmul(al, b2), fmul(a2, bl));
            let w = fmul(a2, b2);
            lemma_fmul_assoc(r, r, w);
            lemma_fmul_distr(r, y, fmul(x, w));
            lemma_fmul_distr(r, fmul(r, y), fmul(r, fmul(x, w)));
            lemma_fmul_assoc(r, r, y);
            lemma_fmul_assoc(r, r, fmul(x, w));
            lemma_fadd_assoc(fmul(al, bl), fmul(x, y), fmul(x, fmul(x, w)));
        }
    }
    out
}

/// Add `v` times the `at`-th power of the variable.
pub fn add_at(out: &mut Vec<F128>, v: &[F128], at: usize)
    requires
        at + v@.len() <= old(out)@.len(),
    ensures
        final(out)@.len() == old(out)@.len(),
        forall|r: F128| #[trigger]
            horner(final(out)@, r) == fadd(
                horner(old(out)@, r),
                fmul(fpow(r, at as int), horner(v@, r)),
            ),
{
    let ghost before = out@;
    let total: usize = out.len();
    let mut i: usize = 0;
    proof {
        assert forall|r: F128| #[trigger] horner(out@, r) == fadd(
            horner(before, r),
            fmul(fpow(r, at as int), horner(v@.take(0), r)),
        ) by {
            assert(v@.take(0) =~= Seq::<F128>::empty());
            lemma_fmul_zero(fpow(r, at as int));
            lemma_fadd_zero(horner(before, r));
        }
    }
    while i < v.len()
        invariant
            total == out@.len(),
            at + v@.len() <= total,
            i <= v@.len(),
            total == before.len(),
            forall|r: F128| #[trigger]
                horner(out@, r) == fadd(
                    horner(before, r),
                    fmul(fpow(r, at as int), horner(v@.take(i as int), r)),
                ),
        decreases v@.len() - i,
    {
        let x = v[i];
        let ghost now = out@;
        let sum = out[at + i] + x;
        out[at + i] = sum;
        proof {
            assert(out@ =~= now.update(at + i, fadd(now[at + i], x)));
            assert(v@.take(i + 1) =~= v@.take(i as int).push(x));
            assert forall|r: F128| #[trigger] horner(out@, r) == fadd(
                horner(before, r),
                fmul(fpow(r, at as int), horner(v@.take(i + 1), r)),
            ) by {
                lemma_horner_bump(now, at + i, x, r);
                lemma_horner_push(v@.take(i as int), x, r);
                lemma_fpow_add(r, at as int, i as int);
                let p = fpow(r, at as int);
                let q = fpow(r, i as int);
                let h = horner(v@.take(i as int), r);
                assert(horner(now, r) == fadd(horner(before, r), fmul(p, h)));
                lemma_fmul_assoc(p, q, x);
                lemma_fmul_distr(p, h, fmul(q, x));
                lemma_fadd_assoc(horner(before, r), fmul(p, h), fmul(p, fmul(q, x)));
            }
        }
        i = i + 1;
    }
    assert(v@.take(i as int) =~= v@);
}

/// `n` zero coefficients.
pub fn zeros(n: usize) -> (out: Vec<F128>)
    ensures
        out@.len() == n,
        forall|i: int| 0 <= i < n ==> #[trigger] out@[i] == fzero(),
        forall|r: F128| #[trigger] horner(out@, r) == fzero(),
{
    let mut out: Vec<F128> = Vec::new();
    let mut i: usize = 0;
    while i < n
        invariant
            i <= n,
            out@.len() == i,
            forall|k: int| 0 <= k < i ==> #[trigger] out@[k] == fzero(),
        decreases n - i,
    {
        out.push(F128::zero());
        i = i + 1;
    }
    proof {
        assert forall|r: F128| #[trigger] horner(out@, r) == fzero() by {
            lemma_horner_zero(out@, r);
        }
    }
    out
}

/// Assemble a Karatsuba product from the products of the low halves, the high
/// halves, and the sums.
pub fn combine(lo: &[F128], hi: &[F128], cross: &[F128], k: usize) -> (out: Vec<F128>)
    requires
        lo@.len() + k <= hi@.len() + 2 * k,
        cross@.len() + k <= hi@.len() + 2 * k,
        hi@.len() + 2 * k <= usize::MAX,
    ensures
        out@.len() == hi@.len() + 2 * k,
        forall|r: F128| #[trigger]
            horner(out@, r) == ({
                let x = fpow(r, k as int);
                fadd(
                    fadd(
                        horner(lo@, r),
                        fmul(
                            x,
                            fadd(fadd(horner(lo@, r), horner(hi@, r)), horner(cross@, r)),
                        ),
                    ),
                    fmul(x, fmul(x, horner(hi@, r))),
                )
            }),
{
    let mut out = zeros(hi.len() + 2 * k);
    add_at(&mut out, lo, 0);
    let ghost s1 = out@;
    add_at(&mut out, lo, k);
    let ghost s2 = out@;
    add_at(&mut out, hi, 2 * k);
    let ghost s3 = out@;
    add_at(&mut out, hi, k);
    let ghost s4 = out@;
    add_at(&mut out, cross, k);
    proof {
        assert forall|r: F128| #[trigger] horner(out@, r) == ({
            let x = fpow(r, k as int);
            fadd(
                fadd(
                    horner(lo@, r),
                    fmul(x, fadd(fadd(horner(lo@, r), horner(hi@, r)), horner(cross@, r))),
                ),
                fmul(x, fmul(x, horner(hi@, r))),
            )
        }) by {
            let x = fpow(r, k as int);
            let l = horner(lo@, r);
            let h = horner(hi@, r);
            let c = horner(cross@, r);
            lemma_fmul_one(l);
            lemma_fadd_zero(l);
            assert(horner(s1, r) == l);
            lemma_fpow_add(r, k as int, k as int);
            lemma_fmul_assoc(x, x, h);
            let xl = fmul(x, l);
            let xh = fmul(x, h);
            let xc = fmul(x, c);
            let xxh = fmul(x, xh);
            assert(horner(s2, r) == fadd(l, xl));
            assert(horner(s3, r) == fadd(fadd(l, xl), xxh));
            assert(horner(s4, r) == fadd(fadd(fadd(l, xl), xxh), xh));
            lemma_fmul_distr(x, fadd(l, h), c);
            lemma_fmul_distr(x, l, h);
            // ((l + xl) + xxh) + xh) + xc = (l + ((xl + xh) + xc)) + xxh
            lemma_fadd_assoc(fadd(l, xl), xxh, xh);
            lemma_fadd_comm(xxh, xh);
            lemma_fadd_assoc(fadd(l, xl), xh, xxh);
            lemma_fadd_assoc(fadd(fadd(l, xl), xh), xxh, xc);
            lemma_fadd_comm(xxh, xc);
            lemma_fadd_assoc(fadd(fadd(l, xl), xh), xc, xxh);
            lemma_fadd_assoc(l, xl, xh);
            lemma_fadd_assoc(l, fadd(xl, xh), xc);
        }
    }
    out
}

/// The sum of the first `k` coefficients and the rest, as polynomials.
fn folded(a: &[F128], k: usize) -> (out: Vec<F128>)
    requires
        k <= a@.len(),
    ensures
        out@.len() == if k >= a@.len() - k {
            k as int
        } else {
            a@.len() - k
        },
        forall|r: F128| #[trigger]
            horner(out@, r) == fadd(horner(a@.take(k as int), r), horner(a@.skip(k as int), r)),
{
    let n: usize = a.len();
    let size: usize = if k >= n - k {
        k
    } else {
        n - k
    };
    let mut out = zeros(size);
    let low = slice_subrange(a, 0, k);
    let high = slice_subrange(a, k, n);
    assert(low@ =~= a@.take(k as int));
    assert(high@ =~= a@.skip(k as int));
    add_at(&mut out, low, 0);
    add_at(&mut out, high, 0);
    proof {
        assert forall|r: F128| #[trigger] horner(out@, r) == fadd(
            horner(a@.take(k as int), r),
            horner(a@.skip(k as int), r),
        ) by {
            lemma_fmul_one(horner(low@, r));
            lemma_fmul_one(horner(high@, r));
            lemma_fadd_zero(horner(low@, r));
        }
    }
    out
}

/// A combined product is the product of the operands.
proof fn lemma_combined(
    out: Seq<F128>,
    a: Seq<F128>,
    b: Seq<F128>,
    k: int,
    lo: Seq<F128>,
    hi: Seq<F128>,
    cross: Seq<F128>,
    sa: Seq<F128>,
    sb: Seq<F128>,
)
    requires
        0 <= k <= a.len(),
        k <= b.len(),
        is_product(lo, a.take(k), b.take(k)),
        is_product(hi, a.skip(k), b.skip(k)),
        is_product(cross, sa, sb),
        forall|r: F128| #[trigger]
            horner(sa, r) == fadd(horner(a.take(k), r), horner(a.skip(k), r)),
        forall|r: F128| #[trigger]
            horner(sb, r) == fadd(horner(b.take(k), r), horner(b.skip(k), r)),
        forall|r: F128| #[trigger]
            horner(out, r) == ({
                let x = fpow(r, k);
                fadd(
                    fadd(
                        horner(lo, r),
                        fmul(x, fadd(fadd(horner(lo, r), horner(hi, r)), horner(cross, r))),
                    ),
                    fmul(x, fmul(x, horner(hi, r))),
                )
            }),
    ensures
        is_product(out, a, b),
{
    assert forall|r: F128| #[trigger] horner(out, r) == fmul(horner(a, r), horner(b, r)) by {
        lemma_horner_split(a, k, r);
        lemma_horner_split(b, k, r);
        lemma_karatsuba(
            horner(a.take(k), r),
            horner(a.skip(k), r),
            horner(b.take(k), r),
            horner(b.skip(k), r),
            fpow(r, k),
        );
        assert(horner(lo, r) == fmul(horner(a.take(k), r), horner(b.take(k), r)));
        assert(horner(hi, r) == fmul(horner(a.skip(k), r), horner(b.skip(k), r)));
        assert(horner(cross, r) == fmul(horner(sa, r), horner(sb, r)));
    }
}

/// Product of two cubic polynomials.
pub fn mul44(a: &[F128], b: &[F128]) -> (out: Vec<F128>)
    requires
        a@.len() == 4,
        b@.len() == 4,
    ensures
        out@.len() == 7,
        is_product(out@, a@, b@),
{
    let lo = mul22(slice_subrange(a, 0, 2), slice_subrange(b, 0, 2));
    let hi = mul22(slice_subrange(a, 2, 4), slice_subrange(b, 2, 4));
    let sa = folded(a, 2);
    let sb = folded(b, 2);
    let cross = mul22(sa.as_slice(), sb.as_slice());
    let out = combine(lo.as_slice(), hi.as_slice(), cross.as_slice(), 2);
    proof {
        assert(a@.subrange(0, 2) =~= a@.take(2) && b@.subrange(0, 2) =~= b@.take(2));
        assert(a@.subrange(2, 4) =~= a@.skip(2) && b@.subrange(2, 4) =~= b@.skip(2));
        lemma_combined(out@, a@, b@, 2, lo@, hi@, cross@, sa@, sb@);
    }
    out
}

/// Product of a quartic and a cubic polynomial.
pub fn mul54(a: &[F128], b: &[F128]) -> (out: Vec<F128>)
    requires
        a@.len() == 5,
        b@.len() == 4,
    ensures
        out@.len() == 8,
        is_product(out@, a@, b@),
{
    let lo = mul22(slice_subrange(a, 0, 2), slice_subrange(b, 0, 2));
    let hi = mul32(slice_subrange(a, 2, 5), slice_subrange(b, 2, 4));
    let sa = folded(a, 2);
    let sb = folded(b, 2);
    let cross = mul32(sa.as_slice(), sb.as_slice());
    let out = combine(lo.as_slice(), hi.as_slice(), cross.as_slice(), 2);
    proof {
        assert(a@.subrange(0, 2) =~= a@.take(2) && b@.subrange(0, 2) =~= b@.take(2));
        assert(a@.subrange(2, 5) =~= a@.skip(2) && b@.subrange(2, 4) =~= b@.skip(2));
        lemma_combined(out@, a@, b@, 2, lo@, hi@, cross@, sa@, sb@);
    }
    out
}

/// Product of two quartic polynomials.
pub fn mul55(a: &[F128], b: &[F128]) -> (out: Vec<F128>)
    requires
        a@.len() == 5,
        b@.len() == 5,
    ensures
        out@.len() == 9,
        is_product(out@, a@, b@),
{
    let lo = mul22(slice_subrange(a, 0, 2), slice_subrange(b, 0, 2));
    let hi = mul33(slice_subrange(a, 2, 5), slice_subrange(b, 2, 5));
    let sa = folded(a, 2);
    let sb = folded(b, 2);
    let cross = mul33(sa.as_slice(), sb.as_slice());
    let out = combine(lo.as_slice(), hi.as_slice(), cross.as_slice(), 2);
    proof {
        assert(a@.subrange(0, 2) =~= a@.take(2) && b@.subrange(0, 2) =~= b@.take(2));
        assert(a@.subrange(2, 5) =~= a@.skip(2) && b@.subrange(2, 5) =~= b@.skip(2));
        lemma_combined(out@, a@, b@, 2, lo@, hi@, cross@, sa@, sb@);
    }
    out
}

/// The coefficients times a scalar.
pub fn scaled(a: &[F128], c: F128) -> (out: Vec<F128>)
    ensures
        out@.len() == a@.len(),
        forall|r: F128| #[trigger] horner(out@, r) == fmul(horner(a@, r), c),
{
    let mut out: Vec<F128> = Vec::new();
    let mut i: usize = 0;
    proof {
        assert forall|r: F128| #[trigger] horner(out@, r) == fmul(horner(a@.take(0), r), c) by {
            assert(a@.take(0) =~= Seq::<F128>::empty());
            assert(out@ =~= Seq::<F128>::empty());
            lemma_fmul_zero(c);
        }
    }
    while i < a.len()
        invariant
            i <= a@.len(),
            out@.len() == i,
            forall|r: F128| #[trigger]
                horner(out@, r) == fmul(horner(a@.take(i as int), r), c),
        decreases a@.len() - i,
    {
        let ghost now = out@;
        let x = a[i] * c;
        out.push(x);
        proof {
            assert(a@.take(i + 1) =~= a@.take(i as int).push(a@[i as int]));
            assert forall|r: F128| #[trigger] horner(out@, r) == fmul(
                horner(a@.take(i + 1), r),
                c,
            ) by {
                let h = horner(a@.take(i as int), r);
                let q = fpow(r, i as int);
                let y = a@[i as int];
                assert(horner(now, r) == fmul(h, c));
                lemma_horner_push(now, x, r);
                lemma_horner_push(a@.take(i as int), y, r);
                lemma_fmul_assoc(q, y, c);
                lemma_fmul_comm(fadd(h, fmul(q, y)), c);
                lemma_fmul_distr(c, h, fmul(q, y));
                lemma_fmul_comm(c, h);
                lemma_fmul_comm(c, fmul(q, y));
            }
        }
        i = i + 1;
    }
    assert(a@.take(i as int) =~= a@);
    out
}

/// Product of a polynomial of degree eight and a quartic one.
pub fn mul95(a: &[F128], b: &[F128]) -> (out: Vec<F128>)
    requires
        a@.len() == 9,
        b@.len() == 5,
    ensures
        out@.len() == 13,
        is_product(out@, a@, b@),
{
    let lo = mul44(slice_subrange(a, 0, 4), slice_subrange(b, 0, 4));
    let hi = scaled(slice_subrange(a, 4, 9), b[4]);
    let sa = folded(a, 4);
    let sb = folded(b, 4);
    let cross = mul54(sa.as_slice(), sb.as_slice());
    let out = combine(lo.as_slice(), hi.as_slice(), cross.as_slice(), 4);
    proof {
        assert(a@.subrange(0, 4) =~= a@.take(4) && b@.subrange(0, 4) =~= b@.take(4));
        assert(a@.subrange(4, 9) =~= a@.skip(4));
        assert forall|r: F128| #[trigger] horner(hi@, r) == fmul(
            horner(a@.skip(4), r),
            horner(b@.skip(4), r),
        ) by {
            lemma_one_term(b@.skip(4), r);
        }
        lemma_combined(out@, a@, b@, 4, lo@, hi@, cross@, sa@, sb@);
    }
    out
}

/// Add the schoolbook product of `a` and `b`.
pub fn naive_into(a: &[F128], b: &[F128], out: &mut Vec<F128>)
    requires
        a@.len() + b@.len() <= old(out)@.len() + 1,
        b@.len() > 0,
    ensures
        final(out)@.len() == old(out)@.len(),
        forall|r: F128| #[trigger]
            horner(final(out)@, r) == fadd(
                horner(old(out)@, r),
                fmul(horner(a@, r), horner(b@, r)),
            ),
{
    let ghost before = out@;
    let mut i: usize = 0;
    proof {
        assert forall|r: F128| #[trigger] horner(out@, r) == fadd(
            horner(before, r),
            fmul(horner(a@.take(0), r), horner(b@, r)),
        ) by {
            assert(a@.take(0) =~= Seq::<F128>::empty());
            lemma_fmul_zero(horner(b@, r));
            lemma_fadd_zero(horner(before, r));
        }
    }
    while i < a.len()
        invariant
            i <= a@.len(),
            out@.len() == before.len(),
            a@.len() + b@.len() <= before.len() + 1,
            b@.len() > 0,
            forall|r: F128| #[trigger]
                horner(out@, r) == fadd(
                    horner(before, r),
                    fmul(horner(a@.take(i as int), r), horner(b@, r)),
                ),
        decreases a@.len() - i,
    {
        let ghost now = out@;
        let x = a[i];
        let row = scaled(b, x);
        add_at(out, row.as_slice(), i);
        proof {
            assert(a@.take(i + 1) =~= a@.take(i as int).push(x));
            assert forall|r: F128| #[trigger] horner(out@, r) == fadd(
                horner(before, r),
                fmul(horner(a@.take(i + 1), r), horner(b@, r)),
            ) by {
                let h = horner(a@.take(i as int), r);
                let q = fpow(r, i as int);
                let g = horner(b@, r);
                lemma_horner_push(a@.take(i as int), x, r);
                assert(horner(now, r) == fadd(horner(before, r), fmul(h, g)));
                assert(horner(row@, r) == fmul(g, x));
                lemma_fmul_comm(g, x);
                lemma_fmul_assoc(q, x, g);
                lemma_fmul_comm(fadd(h, fmul(q, x)), g);
                lemma_fmul_distr(g, h, fmul(q, x));
                lemma_fmul_comm(g, h);
                lemma_fmul_comm(g, fmul(q, x));
                lemma_fadd_assoc(horner(before, r), fmul(h, g), fmul(fmul(q, x), g));
            }
        }
        i = i + 1;
    }
    assert(a@.take(i as int) =~= a@);
}

/// The schoolbook product.
pub fn naive(a: &[F128], b: &[F128]) -> (out: Vec<F128>)
    requires
        0 < a@.len() <= 16,
        0 < b@.len() <= 16,
    ensures
        out@.len() == a@.len() + b@.len() - 1,
        is_product(out@, a@, b@),
{
    let mut out = zeros(a.len() + b.len() - 1);
    naive_into(a, b, &mut out);
    proof {
        assert forall|r: F128| #[trigger] horner(out@, r) == fmul(horner(a@, r), horner(b@, r)) by {
            lemma_fadd_zero(fmul(horner(a@, r), horner(b@, r)));
        }
    }
    out
}

// ---------------------------------------------------------------------------
// Products of affine factors.
// ---------------------------------------------------------------------------

/// A product of adjacent range products.
proof fn lemma_join(
    out: Seq<F128>,
    a: Seq<F128>,
    b: Seq<F128>,
    factors: Seq<[F128; 2]>,
    at: int,
    n: int,
    m: int,
)
    requires
        0 <= n,
        0 <= m,
        is_product(out, a, b),
        is_range_product(a, factors, at, n),
        is_range_product(b, factors, at + n, m),
    ensures
        is_range_product(out, factors, at, n + m),
{
    assert forall|r: F128| #[trigger] horner(out, r) == fprod(
        |k: int| horner(factors[at + k]@, r),
        n + m,
    ) by {
        let f = |k: int| horner(factors[at + k]@, r);
        assert(horner(out, r) == fmul(horner(a, r), horner(b, r)));
        assert(horner(a, r) == fprod(f, n));
        let g = |k: int| horner(factors[at + n + k]@, r);
        assert(horner(b, r) == fprod(g, m));
        lemma_fprod_split(f, n, m);
        lemma_fprod_congr(g, |i: int| f(n + i), m);
    }
}

/// One factor is a range product.
proof fn lemma_single(factors: Seq<[F128; 2]>, at: int)
    ensures
        is_range_product(factors[at]@, factors, at, 1),
{
    assert forall|r: F128| #[trigger] horner(factors[at]@, r) == fprod(
        |k: int| horner(factors[at + k]@, r),
        1,
    ) by {
        reveal_with_fuel(fprod, 2);
        lemma_fmul_one(horner(factors[at]@, r));
        lemma_fmul_comm(fone(), horner(factors[at]@, r));
    }
}

/// Product of two factors from `at`.
fn two(a: &Vec<[F128; 2]>, at: usize) -> (out: Vec<F128>)
    requires
        at + 2 <= a@.len(),
    ensures
        out@.len() == 3,
        is_range_product(out@, a@, at as int, 2),
{
    let total: usize = a.len();
    let out = mul22(a[at].as_slice(), a[at + 1].as_slice());
    proof {
        lemma_single(a@, at as int);
        lemma_single(a@, at + 1);
        lemma_join(out@, a@[at as int]@, a@[at + 1]@, a@, at as int, 1, 1);
    }
    out
}

/// Product of three factors from `at`.
fn three(a: &Vec<[F128; 2]>, at: usize) -> (out: Vec<F128>)
    requires
        at + 3 <= a@.len(),
    ensures
        out@.len() == 4,
        is_range_product(out@, a@, at as int, 3),
{
    let total: usize = a.len();
    let low = two(a, at);
    let out = mul32(low.as_slice(), a[at + 2].as_slice());
    proof {
        lemma_single(a@, at + 2);
        lemma_join(out@, low@, a@[at + 2]@, a@, at as int, 2, 1);
    }
    out
}

/// Product of four factors from `at`.
pub fn four(a: &Vec<[F128; 2]>, at: usize) -> (out: Vec<F128>)
    requires
        at + 4 <= a@.len(),
    ensures
        out@.len() == 5,
        is_range_product(out@, a@, at as int, 4),
{
    let total: usize = a.len();
    let low = two(a, at);
    let high = two(a, at + 2);
    let out = mul33(low.as_slice(), high.as_slice());
    proof {
        lemma_join(out@, low@, high@, a@, at as int, 2, 2);
    }
    out
}

/// Product of eight factors from `at`.
pub fn eight(a: &Vec<[F128; 2]>, at: usize) -> (out: Vec<F128>)
    requires
        at + 8 <= a@.len(),
    ensures
        out@.len() == 9,
        is_range_product(out@, a@, at as int, 8),
{
    let total: usize = a.len();
    let low = four(a, at);
    let high = four(a, at + 4);
    let out = mul55(low.as_slice(), high.as_slice());
    proof {
        lemma_join(out@, low@, high@, a@, at as int, 4, 4);
    }
    out
}

/// Coefficients of thirteen affine factors, in ascending order.
pub fn product13_full(a: &Vec<[F128; 2]>) -> (out: Vec<F128>)
    requires
        a@.len() == 13,
    ensures
        out@.len() == 14,
        is_range_product(out@, a@, 0, 13),
{
    let low = eight(a, 0);
    let high = four(a, 8);
    let p = mul95(low.as_slice(), high.as_slice());
    let out = naive(p.as_slice(), a[12].as_slice());
    proof {
        lemma_join(p@, low@, high@, a@, 0, 8, 4);
        lemma_single(a@, 12);
        lemma_join(out@, p@, a@[12]@, a@, 0, 12, 1);
    }
    out
}

/// The coefficients padded with zeros to fourteen.
fn padded(a: Vec<F128>) -> (out: Vec<F128>)
    requires
        a@.len() <= 14,
    ensures
        out@.len() == 14,
        forall|r: F128| #[trigger] horner(out@, r) == horner(a@, r),
{
    let ghost start = a@;
    let mut out = a;
    while out.len() < 14
        invariant
            out@.len() <= 14,
            forall|r: F128| #[trigger] horner(out@, r) == horner(start, r),
        decreases 14 - out@.len(),
    {
        let ghost now = out@;
        out.push(F128::zero());
        proof {
            assert forall|r: F128| #[trigger] horner(out@, r) == horner(start, r) by {
                lemma_horner_pad(now, r);
                assert(horner(now, r) == horner(start, r));
            }
        }
    }
    out
}

/// Product of at most twelve factors, choosing the multiplication tree by
/// their number.
fn product_of(a: &Vec<[F128; 2]>) -> (out: Vec<F128>)
    requires
        a@.len() <= 12,
    ensures
        out@.len() == a@.len() + 1,
        is_range_product(out@, a@, 0, a@.len() as int),
{
    let count: usize = a.len();
    if count == 0 {
        let mut out: Vec<F128> = Vec::new();
        out.push(F128::one());
        proof {
            assert forall|r: F128| #[trigger] horner(out@, r) == fprod(
                |k: int| horner(a@[0 + k]@, r),
                0,
            ) by {
                lemma_one_term(out@, r);
            }
        }
        out
    } else if count == 1 {
        let mut out: Vec<F128> = Vec::new();
        out.push(a[0][0]);
        out.push(a[0][1]);
        proof {
            assert(out@ =~= a@[0]@);
            lemma_single(a@, 0);
        }
        out
    } else if count == 2 {
        two(a, 0)
    } else if count == 3 {
        three(a, 0)
    } else if count == 4 {
        four(a, 0)
    } else if count == 5 {
        let low = four(a, 0);
        let out = naive(low.as_slice(), a[4].as_slice());
        proof {
            lemma_single(a@, 4);
            lemma_join(out@, low@, a@[4]@, a@, 0, 4, 1);
        }
        out
    } else if count == 6 {
        let low = four(a, 0);
        let high = two(a, 4);
        let out = naive(low.as_slice(), high.as_slice());
        proof {
            lemma_join(out@, low@, high@, a@, 0, 4, 2);
        }
        out
    } else if count == 7 {
        let low = four(a, 0);
        let high = three(a, 4);
        let out = mul54(low.as_slice(), high.as_slice());
        proof {
            lemma_join(out@, low@, high@, a@, 0, 4, 3);
        }
        out
    } else if count == 8 {
        eight(a, 0)
    } else if count == 9 {
        let low = eight(a, 0);
        let out = naive(low.as_slice(), a[8].as_slice());
        proof {
            lemma_single(a@, 8);
            lemma_join(out@, low@, a@[8]@, a@, 0, 8, 1);
        }
        out
    } else if count == 10 {
        let low = eight(a, 0);
        let high = two(a, 8);
        let out = naive(low.as_slice(), high.as_slice());
        proof {
            lemma_join(out@, low@, high@, a@, 0, 8, 2);
        }
        out
    } else if count == 11 {
        let low = eight(a, 0);
        let high = three(a, 8);
        let out = naive(low.as_slice(), high.as_slice());
        proof {
            lemma_join(out@, low@, high@, a@, 0, 8, 3);
        }
        out
    } else {
        let low = eight(a, 0);
        let high = four(a, 8);
        let out = mul95(low.as_slice(), high.as_slice());
        proof {
            lemma_join(out@, low@, high@, a@, 0, 8, 4);
        }
        out
    }
}

/// Coefficients of thirteen affine factors. Constant factors are stripped
/// before a smaller product is chosen; coefficients above the actual degree
/// are zero.
pub fn product13(a: &Vec<[F128; 2]>) -> (out: Vec<F128>)
    requires
        a@.len() == 13,
    ensures
        out@.len() == 14,
        is_range_product(out@, a@, 0, 13),
{
    let mut variable: Vec<[F128; 2]> = Vec::new();
    let mut constant = F128::one();
    let mut k: usize = 0;
    proof {
        assert forall|r: F128|
            fprod(|k: int| horner(a@[0 + k]@, r), 0) == fmul(
                constant,
                #[trigger] range_value(variable@, r),
            ) by {
            lemma_fmul_one(fone());
        }
    }
    while k < 13
        invariant
            a@.len() == 13,
            k <= 13,
            variable@.len() <= k,
            forall|r: F128|
                fprod(|k: int| horner(a@[0 + k]@, r), k as int) == fmul(
                    constant,
                    #[trigger] range_value(variable@, r),
                ),
        decreases 13 - k,
    {
        let factor = a[k];
        if factor[1] == F128::zero() {
            if factor[0] == F128::zero() {
                let out = zeros(14);
                proof {
                    assert forall|r: F128| #[trigger] horner(out@, r) == fprod(
                        |k: int| horner(a@[0 + k]@, r),
                        13,
                    ) by {
                        let f = |k: int| horner(a@[0 + k]@, r);
                        lemma_pair(factor, r);
                        lemma_fmul_zero(r);
                        lemma_fadd_zero(fzero());
                        assert(f(k as int) == fzero());
                        lemma_fprod_zero(f, 13, k as int);
                    }
                }
                return out;
            }
            let ghost before = constant;
            constant = constant * factor[0];
            proof {
                assert forall|r: F128|
                    fprod(|k: int| horner(a@[0 + k]@, r), k + 1) == fmul(
                        constant,
                        #[trigger] range_value(variable@, r),
                    ) by {
                    let v = range_value(variable@, r);
                    assert(fprod(|k: int| horner(a@[0 + k]@, r), k as int) == fmul(before, v));
                    lemma_pair(factor, r);
                    lemma_fmul_zero(r);
                    lemma_fadd_zero(factor@[0]);
                    lemma_fmul_assoc(before, v, factor@[0]);
                    lemma_fmul_comm(v, factor@[0]);
                    lemma_fmul_assoc(before, factor@[0], v);
                }
            }
        } else {
            let ghost now = variable@;
            variable.push(factor);
            proof {
                assert forall|r: F128|
                    fprod(|k: int| horner(a@[0 + k]@, r), k + 1) == fmul(
                        constant,
                        #[trigger] range_value(variable@, r),
                    ) by {
                    let v = range_value(now, r);
                    assert(fprod(|k: int| horner(a@[0 + k]@, r), k as int) == fmul(constant, v));
                    lemma_fprod_congr(
                        |k: int| horner(now[0 + k]@, r),
                        |k: int| horner(variable@[0 + k]@, r),
                        now.len() as int,
                    );
                    lemma_fmul_assoc(constant, v, horner(factor@, r));
                }
            }
        }
        k = k + 1;
    }
    if variable.len() == 13 {
        return product13_full(a);
    }
    let product = product_of(&variable);
    let whole = scaled(product.as_slice(), constant);
    let out = padded(whole);
    proof {
        assert forall|r: F128| #[trigger] horner(out@, r) == fprod(
            |k: int| horner(a@[0 + k]@, r),
            13,
        ) by {
            let v = range_value(variable@, r);
            assert(fprod(|k: int| horner(a@[0 + k]@, r), 13) == fmul(constant, v));
            assert(horner(product@, r) == v);
            lemma_fmul_comm(v, constant);
            assert(horner(whole@, r) == fmul(horner(product@, r), constant));
        }
    }
    out
}

/// The product of all listed factors.
spec fn range_value(factors: Seq<[F128; 2]>, r: F128) -> F128 {
    fprod(|k: int| horner(factors[0 + k]@, r), factors.len() as int)
}

/// The affine factors of all tables at position `i`; `None` where a factor
/// vanishes.
fn affine_row(factors: &Vec<Vec<F128>>, i: usize, half: usize) -> (row: Option<Vec<[F128; 2]>>)
    requires
        factors@.len() == 13,
        forall|f: int| 0 <= f < 13 ==> (#[trigger] factors@[f])@.len() == 2 * half,
        i < half,
    ensures
        match row {
            Some(affine) => affine@.len() == 13 && forall|r: F128|
                #![trigger lerp_term(tables(factors@), i as int, r)]
                lerp_term(tables(factors@), i as int, r) == fprod(
                    |k: int| horner(affine@[0 + k]@, r),
                    13,
                ),
            None => forall|r: F128|
                #![trigger lerp_term(tables(factors@), i as int, r)]
                lerp_term(tables(factors@), i as int, r) == fzero(),
        },
{
    let ghost ts = tables(factors@);
    let mut affine: Vec<[F128; 2]> = Vec::new();
    let mut f: usize = 0;
    while f < 13
        invariant
            factors@.len() == 13,
            ts == tables(factors@),
            forall|f: int| 0 <= f < 13 ==> (#[trigger] factors@[f])@.len() == 2 * half,
            i < half,
            f <= 13,
            affine@.len() == f,
            forall|k: int|
                0 <= k < f ==> (#[trigger] affine@[k])@[0] == ts[k][i as int] && affine@[k]@[1]
                    == fadd(ts[k][i as int], ts[k][half + i]),
        decreases 13 - f,
    {
        assert(factors@[f as int]@.len() == 2 * half);
        let total: usize = factors[f].len();
        let lo = factors[f][i];
        let hi = factors[f][total / 2 + i];
        if lo == F128::zero() && hi == F128::zero() {
            proof {
                assert forall|r: F128|
                    #![trigger lerp_term(ts, i as int, r)]
                    lerp_term(ts, i as int, r) == fzero() by {
                    assert(factors@[0]@.len() == 2 * half);
                    let g = |k: int| lerp(ts[k][i as int], ts[k][ts[0].len() / 2 + i], r);
                    assert(ts[0].len() / 2 == half);
                    lemma_fadd_zero(fzero());
                    lemma_fmul_zero(r);
                    assert(g(f as int) == fzero());
                    lemma_fprod_zero(g, 13, f as int);
                }
            }
            return None;
        }
        affine.push([lo, lo + hi]);
        f = f + 1;
    }
    proof {
        assert forall|r: F128|
            #![trigger lerp_term(ts, i as int, r)]
            lerp_term(ts, i as int, r) == fprod(|k: int| horner(affine@[0 + k]@, r), 13) by {
            assert(factors@[0]@.len() == 2 * half);
            let g = |k: int| lerp(ts[k][i as int], ts[k][ts[0].len() / 2 + i], r);
            let h = |k: int| horner(affine@[0 + k]@, r);
            assert(ts[0].len() / 2 == half);
            assert forall|k: int| 0 <= k < 13 implies #[trigger] g(k) == h(k) by {
                lemma_pair(affine@[k], r);
                assert(affine@[k]@[0] == ts[k][i as int]);
            }
            lemma_fprod_congr(g, h, 13);
        }
    }
    Some(affine)
}

/// The round message of thirteen tables, by accumulating coefficients: the
/// round polynomial at the nodes `0..=13`.
pub fn round(factors: &Vec<Vec<F128>>) -> (evals: Vec<F128>)
    requires
        factors@.len() == 13,
        pairable(tables(factors@)),
    ensures
        evals@ == round_evals(tables(factors@)),
{
    let ghost ts = tables(factors@);
    let half: usize = factors[0].len() / 2;
    proof {
        assert forall|f: int| 0 <= f < 13 implies (#[trigger] factors@[f])@.len() == 2 * half by {
            assert(ts[f].len() == ts[0].len());
        }
    }
    let mut coeffs = zeros(14);
    let mut i: usize = 0;
    while i < half
        invariant
            factors@.len() == 13,
            ts == tables(factors@),
            forall|f: int| 0 <= f < 13 ==> (#[trigger] factors@[f])@.len() == 2 * half,
            i <= half,
            coeffs@.len() == 14,
            forall|r: F128| #[trigger]
                horner(coeffs@, r) == fsum(|j: int| lerp_term(ts, j, r), i as int),
        decreases half - i,
    {
        let ghost before = coeffs@;
        match affine_row(factors, i, half) {
            Some(affine) => {
                let product = product13_full(&affine);
                add_at(&mut coeffs, product.as_slice(), 0);
                proof {
                    assert forall|r: F128| #[trigger] horner(coeffs@, r) == fsum(
                        |j: int| lerp_term(ts, j, r),
                        i + 1,
                    ) by {
                        assert(horner(before, r) == fsum(|j: int| lerp_term(ts, j, r), i as int));
                        assert(lerp_term(ts, i as int, r) == horner(product@, r));
                        lemma_fmul_one(horner(product@, r));
                    }
                }
            },
            None => {
                proof {
                    assert forall|r: F128| #[trigger] horner(coeffs@, r) == fsum(
                        |j: int| lerp_term(ts, j, r),
                        i + 1,
                    ) by {
                        assert(lerp_term(ts, i as int, r) == fzero());
                        lemma_fadd_zero(horner(before, r));
                    }
                }
            },
        }
        i = i + 1;
    }
    let mut evals: Vec<F128> = Vec::new();
    let mut t: u64 = 0;
    while t < 14
        invariant
            t <= 14,
            ts.len() == 13,
            half == ts[0].len() / 2,
            forall|r: F128| #[trigger]
                horner(coeffs@, r) == fsum(|j: int| lerp_term(ts, j, r), half as int),
            evals@.len() == t,
            forall|k: int| 0 <= k < t ==> #[trigger] evals@[k] == round_value(ts, node(k)),
        decreases 14 - t,
    {
        evals.push(eval_poly(coeffs.as_slice(), small(t)));
        t = t + 1;
    }
    assert(evals@ =~= round_evals(ts));
    evals
}

} // verus!
