//! Finite sums and products of field elements.
use vstd::prelude::*;

use crate::field::{
    fadd, fmul, fone, fzero, lemma_fadd_assoc, lemma_fadd_swap, lemma_fadd_zero, lemma_fmul_assoc,
    lemma_fmul_comm, lemma_fmul_distr, lemma_fmul_one, lemma_fmul_zero, F128,
};

verus! {

/// `f(0) + ... + f(n - 1)`.
pub open spec fn fsum(f: spec_fn(int) -> F128, n: int) -> F128
    decreases n,
{
    if n <= 0 {
        fzero()
    } else {
        fadd(fsum(f, n - 1), f(n - 1))
    }
}

/// `f(0) * ... * f(n - 1)`.
pub open spec fn fprod(f: spec_fn(int) -> F128, n: int) -> F128
    decreases n,
{
    if n <= 0 {
        fone()
    } else {
        fmul(fprod(f, n - 1), f(n - 1))
    }
}

/// `base^n`.
pub open spec fn fpow(base: F128, n: int) -> F128
    decreases n,
{
    if n <= 0 {
        fone()
    } else {
        fmul(fpow(base, n - 1), base)
    }
}

pub proof fn lemma_fsum_congr(f: spec_fn(int) -> F128, g: spec_fn(int) -> F128, n: int)
    requires
        forall|i: int| 0 <= i < n ==> #[trigger] f(i) == g(i),
    ensures
        fsum(f, n) == fsum(g, n),
    decreases n,
{
    if n > 0 {
        lemma_fsum_congr(f, g, n - 1);
    }
}

pub proof fn lemma_fprod_congr(f: spec_fn(int) -> F128, g: spec_fn(int) -> F128, n: int)
    requires
        forall|i: int| 0 <= i < n ==> #[trigger] f(i) == g(i),
    ensures
        fprod(f, n) == fprod(g, n),
    decreases n,
{
    if n > 0 {
        lemma_fprod_congr(f, g, n - 1);
    }
}

pub proof fn lemma_fsum_zero(f: spec_fn(int) -> F128, n: int)
    requires
        forall|i: int| 0 <= i < n ==> #[trigger] f(i) == fzero(),
    ensures
        fsum(f, n) == fzero(),
    decreases n,
{
    if n > 0 {
        lemma_fsum_zero(f, n - 1);
        lemma_fadd_zero(fzero());
    }
}

/// A sum with one nonzero term is that term.
pub proof fn lemma_fsum_single(f: spec_fn(int) -> F128, n: int, k: int)
    requires
        0 <= k < n,
        forall|i: int| 0 <= i < n && i != k ==> #[trigger] f(i) == fzero(),
    ensures
        fsum(f, n) == f(k),
    decreases n,
{
    if k == n - 1 {
        lemma_fsum_zero(f, n - 1);
        lemma_fadd_zero(f(k));
    } else {
        lemma_fsum_single(f, n - 1, k);
        lemma_fadd_zero(f(k));
    }
}

pub proof fn lemma_fsum_add(f: spec_fn(int) -> F128, g: spec_fn(int) -> F128, n: int)
    ensures
        fsum(|i: int| fadd(f(i), g(i)), n) == fadd(fsum(f, n), fsum(g, n)),
    decreases n,
{
    if n > 0 {
        lemma_fsum_add(f, g, n - 1);
        lemma_fadd_swap(fsum(f, n - 1), fsum(g, n - 1), f(n - 1), g(n - 1));
    } else {
        lemma_fadd_zero(fzero());
    }
}

pub proof fn lemma_fsum_scale(c: F128, f: spec_fn(int) -> F128, n: int)
    ensures
        fsum(|i: int| fmul(c, f(i)), n) == fmul(c, fsum(f, n)),
    decreases n,
{
    if n > 0 {
        lemma_fsum_scale(c, f, n - 1);
        lemma_fmul_distr(c, fsum(f, n - 1), f(n - 1));
    } else {
        lemma_fmul_zero(c);
    }
}

pub proof fn lemma_fsum_split(f: spec_fn(int) -> F128, n: int, m: int)
    requires
        0 <= n,
        0 <= m,
    ensures
        fsum(f, n + m) == fadd(fsum(f, n), fsum(|i: int| f(n + i), m)),
    decreases m,
{
    if m > 0 {
        lemma_fsum_split(f, n, m - 1);
        lemma_fadd_assoc(fsum(f, n), fsum(|i: int| f(n + i), m - 1), f(n + m - 1));
    } else {
        lemma_fadd_zero(fsum(f, n));
    }
}

/// Summation order of a double sum does not matter.
pub proof fn lemma_fsum_exchange(f: spec_fn(int, int) -> F128, n: int, m: int)
    ensures
        fsum(|i: int| fsum(|j: int| f(i, j), m), n) == fsum(|j: int| fsum(|i: int| f(i, j), n), m),
    decreases n,
{
    if n <= 0 {
        lemma_fsum_zero(|j: int| fsum(|i: int| f(i, j), n), m);
    } else {
        lemma_fsum_exchange(f, n - 1, m);
        let a = |j: int| fsum(|i: int| f(i, j), n - 1);
        let b = |j: int| f(n - 1, j);
        lemma_fsum_add(a, b, m);
        lemma_fsum_congr(
            |j: int| fadd(a(j), b(j)),
            |j: int| fsum(|i: int| f(i, j), n),
            m,
        );
        lemma_fsum_congr(
            |i: int| fsum(|j: int| f(i, j), m),
            |i: int| fsum(|j: int| f(i, j), m),
            n - 1,
        );
    }
}

pub proof fn lemma_fprod_mul(f: spec_fn(int) -> F128, g: spec_fn(int) -> F128, n: int)
    ensures
        fprod(|i: int| fmul(f(i), g(i)), n) == fmul(fprod(f, n), fprod(g, n)),
    decreases n,
{
    if n > 0 {
        lemma_fprod_mul(f, g, n - 1);
        lemma_fmul_swap(fprod(f, n - 1), fprod(g, n - 1), f(n - 1), g(n - 1));
    } else {
        lemma_fmul_one(fone());
    }
}

pub proof fn lemma_fprod_split(f: spec_fn(int) -> F128, n: int, m: int)
    requires
        0 <= n,
        0 <= m,
    ensures
        fprod(f, n + m) == fmul(fprod(f, n), fprod(|i: int| f(n + i), m)),
    decreases m,
{
    if m > 0 {
        lemma_fprod_split(f, n, m - 1);
        lemma_fmul_assoc(fprod(f, n), fprod(|i: int| f(n + i), m - 1), f(n + m - 1));
    } else {
        lemma_fmul_one(fprod(f, n));
    }
}

/// `(a b) (c d) = (a c) (b d)`.
pub proof fn lemma_fmul_swap(a: F128, b: F128, c: F128, d: F128)
    ensures
        fmul(fmul(a, b), fmul(c, d)) == fmul(fmul(a, c), fmul(b, d)),
{
    lemma_fmul_assoc(a, b, fmul(c, d));
    lemma_fmul_assoc(b, c, d);
    lemma_fmul_comm(b, c);
    lemma_fmul_assoc(c, b, d);
    lemma_fmul_assoc(a, c, fmul(b, d));
}

/// A product with a zero factor is zero.
pub proof fn lemma_fprod_zero(f: spec_fn(int) -> F128, n: int, k: int)
    requires
        0 <= k < n,
        f(k) == fzero(),
    ensures
        fprod(f, n) == fzero(),
    decreases n,
{
    if k == n - 1 {
        lemma_fmul_zero(fprod(f, n - 1));
    } else {
        lemma_fprod_zero(f, n - 1, k);
        lemma_fmul_zero(f(n - 1));
    }
}

pub proof fn lemma_fpow_add(base: F128, n: int, m: int)
    requires
        0 <= n,
        0 <= m,
    ensures
        fpow(base, n + m) == fmul(fpow(base, n), fpow(base, m)),
    decreases m,
{
    if m == 0 {
        lemma_fmul_one(fpow(base, n));
    } else {
        lemma_fpow_add(base, n, m - 1);
        lemma_fmul_assoc(fpow(base, n), fpow(base, m - 1), base);
    }
}

pub proof fn lemma_fpow_mul(base: F128, n: int, m: int)
    requires
        0 <= n,
        0 <= m,
    ensures
        fpow(fpow(base, n), m) == fpow(base, n * m),
    decreases m,
{
    if m > 0 {
        lemma_fpow_mul(base, n, m - 1);
        assert(n * m == n * (m - 1) + n) by (nonlinear_arith);
        assert(0 <= n * (m - 1)) by (nonlinear_arith)
            requires
                0 <= n,
                0 < m,
        ;
        lemma_fpow_add(base, n * (m - 1), n);
    } else {
        assert(n * m == 0) by (nonlinear_arith)
            requires
                m == 0,
        ;
    }
}

} // verus!
