//! The field with 2^128 elements, `GF(2)[x] / (x^128 + x^7 + x^2 + x + 1)`,
//! in the polynomial basis.
use vstd::prelude::*;

verus! {

/// A field element: bit `i` of `lo` is the coefficient of `x^i`, bit `i` of
/// `hi` that of `x^(64 + i)`.
#[derive(Clone, Copy, Debug, PartialEq, Eq, Structural)]
pub struct F128 {
    pub lo: u64,
    pub hi: u64,
}

/// The element zero.
pub open spec fn fzero() -> F128 {
    F128 { lo: 0, hi: 0 }
}

/// The element one.
pub open spec fn fone() -> F128 {
    F128 { lo: 1, hi: 0 }
}

/// Addition is coefficientwise, in characteristic two.
pub open spec fn fadd(a: F128, b: F128) -> F128 {
    F128 { lo: a.lo ^ b.lo, hi: a.hi ^ b.hi }
}

/// The product with `x`, reduced by `x^128 = x^7 + x^2 + x + 1`.
pub open spec fn xtime(a: F128) -> F128 {
    F128 {
        lo: (a.lo << 1) ^ ((a.hi >> 63) * 0x87) as u64,
        hi: (a.hi << 1) | (a.lo >> 63),
    }
}

/// Coefficient `i` of the element.
pub open spec fn coefficient(a: F128, i: int) -> bool {
    if i < 64 {
        (a.lo >> (i as u64)) & 1 == 1
    } else {
        (a.hi >> ((i - 64) as u64)) & 1 == 1
    }
}

/// `a` if the selector holds, zero otherwise.
pub open spec fn fselect(selected: bool, a: F128) -> F128 {
    if selected {
        a
    } else {
        fzero()
    }
}

/// The sum of `coefficient(b, j) * x^(j - i) * a` over `i <= j < 128`.
pub open spec fn fmul_from(a: F128, b: F128, i: int) -> F128
    decreases 128 - i,
{
    if i >= 128 {
        fzero()
    } else {
        fadd(fselect(coefficient(b, i), a), fmul_from(xtime(a), b, i + 1))
    }
}

/// The field product: the sum of `x^j * a` over the coefficients `j` of `b`.
#[verifier::opaque]
pub open spec fn fmul(a: F128, b: F128) -> F128 {
    fmul_from(a, b, 0)
}

// ---------------------------------------------------------------------------
// Addition is an abelian group in which every element is its own inverse.
// ---------------------------------------------------------------------------

proof fn lemma_word_xor(a: u64, b: u64, c: u64)
    by (bit_vector)
    ensures
        a ^ b == b ^ a,
        (a ^ b) ^ c == a ^ (b ^ c),
        a ^ a == 0,
        a ^ 0 == a,
        0 ^ a == a,
        a | 0 == a,
{
}

pub broadcast proof fn lemma_fadd_comm(a: F128, b: F128)
    ensures
        #[trigger] fadd(a, b) == fadd(b, a),
{
    lemma_word_xor(a.lo, b.lo, 0);
    lemma_word_xor(a.hi, b.hi, 0);
}

pub proof fn lemma_fadd_assoc(a: F128, b: F128, c: F128)
    ensures
        fadd(fadd(a, b), c) == fadd(a, fadd(b, c)),
{
    lemma_word_xor(a.lo, b.lo, c.lo);
    lemma_word_xor(a.hi, b.hi, c.hi);
}

pub broadcast proof fn lemma_fadd_self(a: F128)
    ensures
        #[trigger] fadd(a, a) == fzero(),
{
    lemma_word_xor(a.lo, 0, 0);
    lemma_word_xor(a.hi, 0, 0);
}

pub broadcast proof fn lemma_fadd_zero(a: F128)
    ensures
        #[trigger] fadd(a, fzero()) == a,
        #[trigger] fadd(fzero(), a) == a,
{
    lemma_word_xor(a.lo, 0, 0);
    lemma_word_xor(a.hi, 0, 0);
}

/// `(a + b) + (c + d) = (a + c) + (b + d)`.
pub proof fn lemma_fadd_swap(a: F128, b: F128, c: F128, d: F128)
    ensures
        fadd(fadd(a, b), fadd(c, d)) == fadd(fadd(a, c), fadd(b, d)),
{
    lemma_fadd_assoc(a, b, fadd(c, d));
    lemma_fadd_assoc(b, c, d);
    lemma_fadd_comm(b, c);
    lemma_fadd_assoc(c, b, d);
    lemma_fadd_assoc(a, c, fadd(b, d));
}

/// Equal sums cancel: `a + b = a + c` forces `b = c`.
pub proof fn lemma_fadd_cancel(a: F128, b: F128)
    ensures
        fadd(a, fadd(a, b)) == b,
        fadd(fadd(b, a), a) == b,
{
    lemma_fadd_assoc(a, a, b);
    lemma_fadd_self(a);
    lemma_fadd_zero(b);
    lemma_fadd_assoc(b, a, a);
}

// ---------------------------------------------------------------------------
// Multiplication.
// ---------------------------------------------------------------------------

proof fn lemma_xtime_words(p: u64, q: u64, r: u64, s: u64)
    by (bit_vector)
    ensures
        ((p ^ q) << 1) ^ (((r ^ s) >> 63) * 0x87) as u64 == ((p << 1) ^ ((r >> 63) * 0x87) as u64) ^ ((q
            << 1) ^ ((s >> 63) * 0x87) as u64),
        ((r ^ s) << 1) | ((p ^ q) >> 63) == ((r << 1) | (p >> 63)) ^ ((s << 1) | (q >> 63)),
        r >> 63 <= 1,
{
}

proof fn lemma_xtime_linear(a: F128, b: F128)
    ensures
        xtime(fadd(a, b)) == fadd(xtime(a), xtime(b)),
{
    lemma_xtime_words(a.lo, b.lo, a.hi, b.hi);
}

proof fn lemma_xtime_zero()
    ensures
        xtime(fzero()) == fzero(),
{
    lemma_fadd_self(fzero());
    lemma_xtime_linear(fzero(), fzero());
    lemma_fadd_self(xtime(fzero()));
}

proof fn lemma_fmul_from_linear(a: F128, c: F128, b: F128, i: int)
    ensures
        fmul_from(fadd(a, c), b, i) == fadd(fmul_from(a, b, i), fmul_from(c, b, i)),
    decreases 128 - i,
{
    if i >= 128 {
        lemma_fadd_self(fzero());
    } else {
        lemma_xtime_linear(a, c);
        lemma_fmul_from_linear(xtime(a), xtime(c), b, i + 1);
        let s = coefficient(b, i);
        lemma_fadd_zero(fzero());
        lemma_fadd_swap(
            fselect(s, a),
            fselect(s, c),
            fmul_from(xtime(a), b, i + 1),
            fmul_from(xtime(c), b, i + 1),
        );
    }
}

proof fn lemma_fmul_from_zero(b: F128, i: int)
    ensures
        fmul_from(fzero(), b, i) == fzero(),
    decreases 128 - i,
{
    if i < 128 {
        lemma_xtime_zero();
        lemma_fmul_from_zero(b, i + 1);
        lemma_fadd_self(fzero());
    }
}

proof fn lemma_fmul_from_xtime(a: F128, b: F128, i: int)
    ensures
        fmul_from(xtime(a), b, i) == xtime(fmul_from(a, b, i)),
    decreases 128 - i,
{
    lemma_xtime_zero();
    if i < 128 {
        lemma_fmul_from_xtime(xtime(a), b, i + 1);
        lemma_xtime_linear(fselect(coefficient(b, i), a), fmul_from(xtime(a), b, i + 1));
    }
}

/// Multiplications by two elements commute as maps.
proof fn lemma_fmul_maps_commute(v: F128, a: F128, b: F128, i: int)
    ensures
        fmul_from(fmul_from(v, a, i), b, 0) == fmul_from(fmul_from(v, b, 0), a, i),
    decreases 128 - i,
{
    lemma_fmul_from_zero(b, 0);
    if i < 128 {
        let s = coefficient(a, i);
        lemma_fmul_from_linear(fselect(s, v), fmul_from(xtime(v), a, i + 1), b, 0);
        lemma_fmul_maps_commute(xtime(v), a, b, i + 1);
        lemma_fmul_from_xtime(v, b, 0);
    }
}

/// The monomial `x^i`.
pub open spec fn monomial(i: int) -> F128 {
    if i < 64 {
        F128 { lo: 1u64 << (i as u64), hi: 0 }
    } else {
        F128 { lo: 0, hi: 1u64 << ((i - 64) as u64) }
    }
}

/// The coefficients of `a` from degree `i` upwards.
spec fn high_part(a: F128, i: int) -> F128 {
    if i < 64 {
        F128 { lo: (a.lo >> (i as u64)) << (i as u64), hi: a.hi }
    } else if i < 128 {
        F128 { lo: 0, hi: (a.hi >> ((i - 64) as u64)) << ((i - 64) as u64) }
    } else {
        fzero()
    }
}

/// Facts on shifts by `s` places.
proof fn lemma_word_shift(w: u64, s: u64)
    by (bit_vector)
    requires
        s < 64,
    ensures
        s < 63 ==> (w >> s) << s == (if (w >> s) & 1 == 1 {
            1u64 << s
        } else {
            0
        }) ^ ((w >> ((s + 1) as u64)) << ((s + 1) as u64)),
        s == 63 ==> (w >> s) << s == (if (w >> s) & 1 == 1 {
            1u64 << s
        } else {
            0
        }),
        (w >> s) >> 1 == w >> ((s + 1) as u64),
        w >> 0 == w,
        (w >> 0) << 0 == w,
        s < 63 ==> (1u64 << s) << 1 == 1u64 << ((s + 1) as u64),
        s < 63 ==> (1u64 << s) >> 63 == 0,
        s == 63 ==> (1u64 << s) << 1 == 0,
        s == 63 ==> (1u64 << s) >> 63 == 1,
        0u64 << 1 == 0,
        0u64 >> 63 == 0,
        0u64 ^ 0x87 == 0x87,
        0u64 | 1 == 1,
        1u64 << 0 == 1,
{
}

proof fn lemma_high_part_step(a: F128, i: int)
    requires
        0 <= i < 128,
    ensures
        high_part(a, i) == fadd(fselect(coefficient(a, i), monomial(i)), high_part(a, i + 1)),
        xtime(monomial(i)) == if i == 127 {
            F128 { lo: 0x87, hi: 0 }
        } else {
            monomial(i + 1)
        },
{
    if i < 64 {
        lemma_word_shift(a.lo, i as u64);
        lemma_word_xor((1u64 << (i as u64)) << 1, 0, 0);
        lemma_word_shift(a.hi, 0);
    } else {
        lemma_word_shift(a.hi, (i - 64) as u64);
        lemma_word_xor((1u64 << ((i - 64) as u64)) << 1, 0, 0);
    }
    lemma_word_xor(a.hi, 0, 0);
    lemma_word_xor(0, 0, 0);
    lemma_fadd_zero(high_part(a, i));
}

proof fn lemma_one_mul_from(a: F128, i: int)
    requires
        0 <= i <= 128,
    ensures
        i < 128 ==> fmul_from(monomial(i), a, i) == high_part(a, i),
    decreases 128 - i,
{
    if i < 128 {
        reveal_with_fuel(fmul_from, 2);
        lemma_high_part_step(a, i);
        lemma_one_mul_from(a, i + 1);
    }
}

pub proof fn lemma_fmul_one(a: F128)
    ensures
        fmul(fone(), a) == a,
        fmul(a, fone()) == a,
{
    reveal(fmul);
    lemma_one_mul_from(a, 0);
    lemma_word_shift(a.lo, 0);
    lemma_fmul_comm(a, fone());
}

pub proof fn lemma_fmul_comm(a: F128, b: F128)
    ensures
        fmul(a, b) == fmul(b, a),
{
    reveal(fmul);
    lemma_fmul_maps_commute(fone(), a, b, 0);
    lemma_one_mul_from(a, 0);
    lemma_one_mul_from(b, 0);
    lemma_word_shift(a.lo, 0);
    lemma_word_shift(b.lo, 0);
}

pub proof fn lemma_fmul_assoc(a: F128, b: F128, c: F128)
    ensures
        fmul(fmul(a, b), c) == fmul(a, fmul(b, c)),
{
    lemma_fmul_comm(a, b);
    assert(fmul(fmul(b, a), c) == fmul(fmul(b, c), a)) by {
        reveal(fmul);
        lemma_fmul_maps_commute(b, a, c, 0);
    }
    lemma_fmul_comm(fmul(b, c), a);
}

/// Multiplication distributes over addition on both sides.
pub proof fn lemma_fmul_distr(a: F128, b: F128, c: F128)
    ensures
        fmul(a, fadd(b, c)) == fadd(fmul(a, b), fmul(a, c)),
        fmul(fadd(b, c), a) == fadd(fmul(b, a), fmul(c, a)),
{
    assert(fmul(fadd(b, c), a) == fadd(fmul(b, a), fmul(c, a))) by {
        reveal(fmul);
        lemma_fmul_from_linear(b, c, a, 0);
    }
    lemma_fmul_comm(a, fadd(b, c));
    lemma_fmul_comm(a, b);
    lemma_fmul_comm(a, c);
}

pub proof fn lemma_fmul_zero(a: F128)
    ensures
        fmul(fzero(), a) == fzero(),
        fmul(a, fzero()) == fzero(),
{
    assert(fmul(fzero(), a) == fzero()) by {
        reveal(fmul);
        lemma_fmul_from_zero(a, 0);
    }
    lemma_fmul_comm(a, fzero());
}

/// `xtime` is the product with `x`.
pub proof fn lemma_fmul_x(a: F128)
    ensures
        fmul(a, F128 { lo: 2, hi: 0 }) == xtime(a),
{
    lemma_high_part_step(fone(), 0);
    lemma_word_shift(1, 0);
    lemma_word_shift(1, 1);
    assert(xtime(fone()) == monomial(1));
    assert(1u64 << 1 == 2) by (bit_vector);
    lemma_fmul_comm(a, xtime(fone()));
    lemma_fmul_one(a);
    reveal(fmul);
    lemma_fmul_from_xtime(fone(), a, 0);
}

/// The map preserves sums.
pub open spec fn linear_map(f: spec_fn(F128) -> F128) -> bool {
    forall|u: F128, v: F128| f(fadd(u, v)) == #[trigger] fadd(f(u), f(v))
}

proof fn lemma_linear_zero(f: spec_fn(F128) -> F128)
    requires
        linear_map(f),
    ensures
        f(fzero()) == fzero(),
{
    lemma_fadd_self(fzero());
    lemma_fadd_self(f(fzero()));
    assert(f(fadd(fzero(), fzero())) == fadd(f(fzero()), f(fzero())));
}

proof fn lemma_linear_agree(
    f: spec_fn(F128) -> F128,
    g: spec_fn(F128) -> F128,
    a: F128,
    i: int,
)
    requires
        linear_map(f),
        linear_map(g),
        0 <= i <= 128,
        forall|j: int| 0 <= j < 128 ==> f(#[trigger] monomial(j)) == g(monomial(j)),
    ensures
        f(high_part(a, i)) == g(high_part(a, i)),
    decreases 128 - i,
{
    lemma_linear_zero(f);
    lemma_linear_zero(g);
    if i < 128 {
        lemma_linear_agree(f, g, a, i + 1);
        lemma_high_part_step(a, i);
        let s = fselect(coefficient(a, i), monomial(i));
        let h = high_part(a, i + 1);
        assert(f(fadd(s, h)) == fadd(f(s), f(h)));
        assert(g(fadd(s, h)) == fadd(g(s), g(h)));
    }
}

proof fn lemma_monomials_agree(f: spec_fn(F128) -> F128, g: spec_fn(F128) -> F128, i: int)
    requires
        f(monomial(0)) == g(monomial(0)),
        forall|j: int|
            0 <= j < 127 && f(monomial(j)) == g(monomial(j)) ==> #[trigger] f(xtime(monomial(j)))
                == g(xtime(monomial(j))),
        0 <= i < 128,
    ensures
        f(monomial(i)) == g(monomial(i)),
    decreases i,
{
    if i > 0 {
        lemma_monomials_agree(f, g, i - 1);
        lemma_high_part_step(fzero(), i - 1);
        assert(f(xtime(monomial(i - 1))) == g(xtime(monomial(i - 1))));
    }
}

/// Two linear maps that agree on one, and agree on `x m` wherever they agree
/// on a monomial `m`, are equal.
pub proof fn lemma_induct_on_monomials(
    f: spec_fn(F128) -> F128,
    g: spec_fn(F128) -> F128,
    a: F128,
)
    requires
        linear_map(f),
        linear_map(g),
        f(fone()) == g(fone()),
        forall|j: int|
            0 <= j < 127 && f(monomial(j)) == g(monomial(j)) ==> #[trigger] f(xtime(monomial(j)))
                == g(xtime(monomial(j))),
    ensures
        f(a) == g(a),
{
    lemma_word_shift(a.lo, 0);
    assert forall|j: int| 0 <= j < 128 implies f(#[trigger] monomial(j)) == g(monomial(j)) by {
        lemma_monomials_agree(f, g, j);
    }
    lemma_linear_agree(f, g, a, 0);
}

impl F128 {
    /// The additive identity.
    pub fn zero() -> (r: F128)
        ensures
            r == fzero(),
    {
        F128 { lo: 0, hi: 0 }
    }

    /// The multiplicative identity.
    pub fn one() -> (r: F128)
        ensures
            r == fone(),
    {
        F128 { lo: 1, hi: 0 }
    }
}

impl vstd::std_specs::ops::AddSpecImpl for F128 {
    open spec fn obeys_add_spec() -> bool {
        true
    }

    open spec fn add_req(self, rhs: F128) -> bool {
        true
    }

    open spec fn add_spec(self, rhs: F128) -> F128 {
        fadd(self, rhs)
    }
}

impl core::ops::Add for F128 {
    type Output = F128;

    fn add(self, rhs: F128) -> (sum: F128) {
        F128 { lo: self.lo ^ rhs.lo, hi: self.hi ^ rhs.hi }
    }
}

impl vstd::std_specs::ops::MulSpecImpl for F128 {
    open spec fn obeys_mul_spec() -> bool {
        true
    }

    open spec fn mul_req(self, rhs: F128) -> bool {
        true
    }

    open spec fn mul_spec(self, rhs: F128) -> F128 {
        fmul(self, rhs)
    }
}

impl core::ops::Mul for F128 {
    type Output = F128;

    fn mul(self, rhs: F128) -> (product: F128) {
        let mut acc = F128 { lo: 0, hi: 0 };
        let mut cur = self;
        let mut rest_lo: u64 = rhs.lo;
        let mut rest_hi: u64 = rhs.hi;
        let mut i: u64 = 0;
        proof {
            reveal(fmul);
            lemma_word_shift(rhs.lo, 0);
            lemma_fadd_zero(fmul_from(self, rhs, 0));
        }
        while i < 128
            invariant
                i <= 128,
                i <= 64 ==> rest_lo == rhs.lo >> i && rest_hi == rhs.hi,
                64 < i <= 128 ==> rest_lo == rhs.hi >> ((i - 64) as u64),
                fadd(acc, fmul_from(cur, rhs, i as int)) == fmul_from(self, rhs, 0),
            decreases 128 - i,
        {
            if i == 64 {
                rest_lo = rest_hi;
            }
            proof {
                let s: u64 = if i < 64 {
                    i
                } else {
                    (i - 64) as u64
                };
                let w = if i < 64 {
                    rhs.lo
                } else {
                    rhs.hi
                };
                lemma_word_shift(w, s);
                lemma_fadd_assoc(
                    acc,
                    fselect(coefficient(rhs, i as int), cur),
                    fmul_from(xtime(cur), rhs, i + 1),
                );
                lemma_fadd_zero(acc);
                lemma_xtime_words(0, 0, cur.hi, 0);
            }
            if rest_lo & 1 == 1 {
                acc = F128 { lo: acc.lo ^ cur.lo, hi: acc.hi ^ cur.hi };
            }
            rest_lo = rest_lo >> 1;
            cur = F128 {
                lo: (cur.lo << 1) ^ ((cur.hi >> 63) * 0x87),
                hi: (cur.hi << 1) | (cur.lo >> 63),
            };
            i = i + 1;
        }
        proof {
            lemma_fadd_zero(acc);
            reveal(fmul);
        }
        acc
    }
}

} // verus!
