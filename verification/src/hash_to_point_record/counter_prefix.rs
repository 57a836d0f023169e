//! The first round of the record scatter from products of counter pairs.
//!
//! A pair of equal counter bits contributes a constant. A pair of different
//! bits has two orientations. So, constants aside, a pair of ten-bit counters
//! has one of `3^10` products, which are tabulated.
use vstd::arithmetic::power2::{lemma2_to64, lemma_pow2_unfold, pow2};
use vstd::prelude::*;

use crate::field::{
    fadd, fmul, fone, lemma_fadd_comm, lemma_fadd_self, lemma_fadd_zero, lemma_fmul_one,
    lemma_fmul_zero, F128,
};
use crate::hash_to_point_scatter::polynomial_product::{lemma_two_terms, naive};
use crate::hash_to_point_slots::relation::{lemma_shift_bit, nat_bit};
use crate::lookup::lemma_bit_of_sum;
use crate::mle::lerp;
use crate::polynomial::horner;
use crate::sums::{fprod, lemma_fmul_swap};

verus! {

/// `3^n`.
pub open spec fn pow3(n: int) -> int
    decreases n,
{
    if n <= 0 {
        1
    } else {
        3 * pow3(n - 1)
    }
}

/// The affine factor of a ternary digit: constant one, one to `beta`, or
/// `beta` to one.
pub open spec fn trit_factor(trit: int, beta: F128, r: F128) -> F128 {
    if trit == 0 {
        fone()
    } else if trit == 1 {
        lerp(fone(), beta, r)
    } else {
        lerp(beta, fone(), r)
    }
}

/// The product of the factors of the low `n` ternary digits.
pub open spec fn trit_product(code: int, beta: Seq<F128>, n: int, r: F128) -> F128
    decreases n,
{
    if n <= 0 {
        fone()
    } else {
        fmul(
            trit_product(code % pow3(n - 1), beta, n - 1, r),
            trit_factor(code / pow3(n - 1), beta[n - 1], r),
        )
    }
}

/// The number whose ternary digits are the bits of `m`.
pub open spec fn ternary_of(m: int, n: int) -> int
    decreases n,
{
    if n <= 0 {
        0
    } else {
        ternary_of(m, n - 1) + if nat_bit(m, n - 1) {
            pow3(n - 1)
        } else {
            0
        }
    }
}

/// The product of `beta[j]` over the bits `j < n` of `m`.
pub open spec fn bit_product(m: int, beta: Seq<F128>, n: int) -> F128 {
    fprod(
        |j: int| if nat_bit(m, j) {
            beta[j]
        } else {
            fone()
        },
        n,
    )
}

/// The value of a counter bit's factor.
pub open spec fn counter_entry(set: bool, beta: F128) -> F128 {
    if set {
        beta
    } else {
        fone()
    }
}

/// The product over the ten bits of the affine factors between two counters.
pub open spec fn pair_product(a: int, b: int, beta: Seq<F128>, r: F128) -> F128 {
    fprod(
        |j: int| lerp(counter_entry(nat_bit(a, j), beta[j]), counter_entry(nat_bit(b, j), beta[j]), r),
        10,
    )
}

/// The tabulated products and the maps from counters to them.
pub struct CounterPolynomials {
    pub coefficients: Vec<Vec<F128>>,
    pub ternary: Vec<usize>,
    pub common: Vec<F128>,
}

proof fn lemma_pow3_pos(n: int)
    ensures
        pow3(n) >= 1,
    decreases n,
{
    if n > 0 {
        lemma_pow3_pos(n - 1);
    }
}

proof fn lemma_pow3_ten()
    ensures
        pow3(10) == 59_049,
{
    reveal_with_fuel(pow3, 11);
}

proof fn lemma_pow3_bound(n: int)
    requires
        0 <= n <= 10,
    ensures
        1 <= pow3(n) <= 59_049,
    decreases 10 - n,
{
    lemma_pow3_pos(n);
    if n == 10 {
        lemma_pow3_ten();
    } else {
        lemma_pow3_bound(n + 1);
        assert(pow3(n + 1) == 3 * pow3(n));
    }
}

proof fn lemma_digit(code: int, width: int, digit: int)
    requires
        0 <= code < width,
        0 <= digit,
    ensures
        (digit * width + code) / width == digit,
        (digit * width + code) % width == code,
{
    vstd::arithmetic::div_mod::lemma_fundamental_div_mod_converse(
        digit * width + code,
        width,
        digit,
        code,
    );
}

/// A leading zero digit changes nothing.
proof fn lemma_trit_zero(code: int, beta: Seq<F128>, n: int, r: F128)
    requires
        0 <= n,
        0 <= code < pow3(n),
    ensures
        trit_product(code, beta, n + 1, r) == trit_product(code, beta, n, r),
{
    lemma_digit(code, pow3(n), 0);
    assert(0 * pow3(n) + code == code) by (nonlinear_arith);
    lemma_fmul_one(trit_product(code, beta, n, r));
}

proof fn lemma_affine_up(beta: F128, r: F128)
    ensures
        lerp(fone(), beta, r) == fadd(fone(), fmul(r, fadd(fone(), beta))),
        lerp(beta, fone(), r) == fadd(beta, fmul(r, fadd(fone(), beta))),
{
    lemma_fadd_comm(beta, fone());
}

impl CounterPolynomials {
    /// The coefficients of code `c` are those of its product, the ternary map
    /// spreads bits to digits, and the common map holds the constants.
    pub open spec fn for_powers(self, beta: Seq<F128>) -> bool {
        &&& self.coefficients@.len() == 59_049
        &&& self.ternary@.len() == 1_024
        &&& self.common@.len() == 1_024
        &&& forall|c: int|
            0 <= c < 59_049 ==> 1 <= (#[trigger] self.coefficients@[c])@.len() <= 11
        &&& forall|c: int, r: F128|
            #![trigger horner(self.coefficients@[c]@, r)]
            0 <= c < 59_049 ==> horner(self.coefficients@[c]@, r) == trit_product(c, beta, 10, r)
        &&& forall|m: int| 0 <= m < 1_024 ==> #[trigger] self.ternary@[m] == ternary_of(m, 10)
        &&& forall|m: int|
            0 <= m < 1_024 ==> #[trigger] self.common@[m] == bit_product(m, beta, 10)
    }

    /// Tabulate the products of the ten counter powers.
    pub fn new(beta: &Vec<F128>) -> (lookup: CounterPolynomials)
        requires
            beta@.len() == 10,
        ensures
            lookup.for_powers(beta@),
    {
        let coefficients = products(beta);
        let (ternary, common) = bit_maps(beta);
        CounterPolynomials { coefficients, ternary, common }
    }

    /// The code of a pair of counters: digit zero where the bits agree, one
    /// where the bit is set in `b` alone, two where it is set in `a` alone.
    pub fn code(&self, a: u16, b: u16) -> (code: usize)
        requires
            self.ternary@.len() == 1_024,
            forall|m: int| 0 <= m < 1_024 ==> #[trigger] self.ternary@[m] == ternary_of(m, 10),
            a < 1_024,
            b < 1_024,
        ensures
            code == ternary_of((a ^ b) as int, 10) + ternary_of((a & !b) as int, 10),
            code < 59_049,
    {
        proof {
            lemma_masks(a, b);
            lemma_code_range((a ^ b) as int, (a & !b) as int, a, b, 10);
            lemma_pow3_ten();
        }
        self.ternary[(a ^ b) as usize] + self.ternary[(a & !b) as usize]
    }
}

/// The masks stay below `2^10`.
proof fn lemma_masks(a: u16, b: u16)
    by (bit_vector)
    requires
        a < 1_024,
        b < 1_024,
    ensures
        (a ^ b) < 1_024,
        (a & !b) < 1_024,
        (a & b) < 1_024,
{
}

/// The masks bit by bit.
proof fn lemma_mask_bit_words(a: u16, b: u16, j: u16)
    by (bit_vector)
    requires
        j < 16,
    ensures
        (((a ^ b) >> j) & 1 == 1) == (((a >> j) & 1 == 1) != ((b >> j) & 1 == 1)),
        (((a & !b) >> j) & 1 == 1) == (((a >> j) & 1 == 1) && !((b >> j) & 1 == 1)),
        (((a & b) >> j) & 1 == 1) == (((a >> j) & 1 == 1) && ((b >> j) & 1 == 1)),
{
}

proof fn lemma_shift_bit16(c: u16, j: u16)
    requires
        j < 16,
    ensures
        ((c >> j) & 1 == 1) == nat_bit(c as int, j as int),
{
    lemma_shift_bit(c as u32, j as u32);
    assert((c as u32) >> (j as u32) == (c >> j) as u32);
    assert(((c >> j) as u32) & 1u32 == ((c >> j) & 1u16) as u32);
}

/// The masks bit by bit.
pub proof fn lemma_mask_bits(a: u16, b: u16, j: int)
    requires
        0 <= j < 10,
    ensures
        nat_bit((a ^ b) as int, j) == (nat_bit(a as int, j) != nat_bit(b as int, j)),
        nat_bit((a & !b) as int, j) == (nat_bit(a as int, j) && !nat_bit(b as int, j)),
        nat_bit((a & b) as int, j) == (nat_bit(a as int, j) && nat_bit(b as int, j)),
{
    lemma_mask_bit_words(a, b, j as u16);
    lemma_shift_bit16(a, j as u16);
    lemma_shift_bit16(b, j as u16);
    lemma_shift_bit16(a ^ b, j as u16);
    lemma_shift_bit16(a & !b, j as u16);
    lemma_shift_bit16(a & b, j as u16);
}

/// The code has ternary digits.
proof fn lemma_code_range(x: int, d: int, a: u16, b: u16, n: int)
    requires
        0 <= n <= 10,
        x == (a ^ b),
        d == (a & !b),
    ensures
        0 <= ternary_of(x, n) + ternary_of(d, n) < pow3(n),
        0 <= ternary_of(x, n),
        0 <= ternary_of(d, n),
    decreases n,
{
    if n > 0 {
        lemma_code_range(x, d, a, b, n - 1);
        lemma_pow3_pos(n - 1);
    }
}

/// The coded product times the common constant is the product over the pair.
pub proof fn lemma_pair_product(a: u16, b: u16, beta: Seq<F128>, r: F128)
    requires
        a < 1_024,
        b < 1_024,
    ensures
        pair_product(a as int, b as int, beta, r) == fmul(
            trit_product(
                ternary_of((a ^ b) as int, 10) + ternary_of((a & !b) as int, 10),
                beta,
                10,
                r,
            ),
            bit_product((a & b) as int, beta, 10),
        ),
{
    lemma_pair_product_upto(a, b, beta, r, 10);
}

proof fn lemma_pair_product_upto(a: u16, b: u16, beta: Seq<F128>, r: F128, n: int)
    requires
        a < 1_024,
        b < 1_024,
        0 <= n <= 10,
    ensures
        fprod(
            |j: int|
                lerp(
                    counter_entry(nat_bit(a as int, j), beta[j]),
                    counter_entry(nat_bit(b as int, j), beta[j]),
                    r,
                ),
            n,
        ) == fmul(
            trit_product(
                ternary_of((a ^ b) as int, n) + ternary_of((a & !b) as int, n),
                beta,
                n,
                r,
            ),
            bit_product((a & b) as int, beta, n),
        ),
    decreases n,
{
    let x = (a ^ b) as int;
    let d = (a & !b) as int;
    let m = (a & b) as int;
    if n == 0 {
        lemma_fmul_one(fone());
    } else {
        let j = n - 1;
        lemma_pair_product_upto(a, b, beta, r, j);
        lemma_code_range(x, d, a, b, j);
        lemma_mask_bits(a, b, j);
        let low = ternary_of(x, j) + ternary_of(d, j);
        let digit = (if nat_bit(x, j) {
            1int
        } else {
            0
        }) + (if nat_bit(d, j) {
            1int
        } else {
            0
        });
        let code = ternary_of(x, n) + ternary_of(d, n);
        assert(code == digit * pow3(j) + low) by (nonlinear_arith)
            requires
                code == ternary_of(x, n) + ternary_of(d, n),
                low == ternary_of(x, j) + ternary_of(d, j),
                ternary_of(x, n) == ternary_of(x, j) + (if nat_bit(x, j) {
                    pow3(j)
                } else {
                    0
                }),
                ternary_of(d, n) == ternary_of(d, j) + (if nat_bit(d, j) {
                    pow3(j)
                } else {
                    0
                }),
                digit == (if nat_bit(x, j) {
                    1int
                } else {
                    0
                }) + (if nat_bit(d, j) {
                    1int
                } else {
                    0
                }),
        ;
        lemma_digit(low, pow3(j), digit);
        let ea = counter_entry(nat_bit(a as int, j), beta[j]);
        let eb = counter_entry(nat_bit(b as int, j), beta[j]);
        let c = if nat_bit(m, j) {
            beta[j]
        } else {
            fone()
        };
        assert(lerp(ea, eb, r) == fmul(trit_factor(digit, beta[j], r), c)) by {
            lemma_fmul_one(c);
            lemma_fmul_one(trit_factor(digit, beta[j], r));
            lemma_fadd_self(ea);
            lemma_fmul_zero(r);
            lemma_fadd_zero(ea);
        }
        lemma_fmul_swap(
            trit_product(low, beta, j, r),
            bit_product(m, beta, j),
            trit_factor(digit, beta[j], r),
            c,
        );
    }
}

/// The polynomial times `head + slope r`.
fn times_affine(p: &Vec<F128>, head: F128, slope: F128) -> (out: Vec<F128>)
    requires
        1 <= p@.len() <= 12,
    ensures
        out@.len() == p@.len() + 1,
        forall|r: F128| #[trigger]
            horner(out@, r) == fmul(horner(p@, r), fadd(head, fmul(r, slope))),
{
    let pair: [F128; 2] = [head, slope];
    let out = naive(p.as_slice(), pair.as_slice());
    proof {
        assert forall|r: F128| #[trigger] horner(out@, r) == fmul(
            horner(p@, r),
            fadd(head, fmul(r, slope)),
        ) by {
            lemma_two_terms(pair@, r);
        }
    }
    out
}

/// The products of all codes.
fn products(beta: &Vec<F128>) -> (coefficients: Vec<Vec<F128>>)
    requires
        beta@.len() == 10,
    ensures
        coefficients@.len() == 59_049,
        forall|c: int| 0 <= c < 59_049 ==> 1 <= (#[trigger] coefficients@[c])@.len() <= 11,
        forall|c: int, r: F128|
            #![trigger horner(coefficients@[c]@, r)]
            0 <= c < 59_049 ==> horner(coefficients@[c]@, r) == trit_product(c, beta@, 10, r),
{
    let mut coefficients: Vec<Vec<F128>> = Vec::new();
    let mut unit: Vec<F128> = Vec::new();
    unit.push(F128::one());
    proof {
        assert forall|r: F128| #[trigger] horner(unit@, r) == fone() by {
            reveal_with_fuel(horner, 2);
            lemma_fmul_zero(r);
            lemma_fadd_zero(fone());
        }
    }
    coefficients.push(unit);
    let mut width: usize = 1;
    let mut b: usize = 0;
    while b < 10
        invariant
            beta@.len() == 10,
            b <= 10,
            width == pow3(b as int),
            coefficients@.len() == width,
            forall|c: int|
                0 <= c < width ==> 1 <= (#[trigger] coefficients@[c])@.len() <= 1 + b,
            forall|c: int, r: F128|
                #![trigger horner(coefficients@[c]@, r)]
                0 <= c < width ==> horner(coefficients@[c]@, r) == trit_product(
                    c,
                    beta@,
                    b as int,
                    r,
                ),
        decreases 10 - b,
    {
        let power = beta[b];
        let slope = F128::one() + power;
        proof {
            lemma_pow3_bound(b as int);
            lemma_pow3_bound(b + 1);
            assert forall|c: int, r: F128|
                #![trigger horner(coefficients@[c]@, r)]
                0 <= c < width implies horner(coefficients@[c]@, r) == trit_product(
                c,
                beta@,
                b + 1,
                r,
            ) by {
                lemma_trit_zero(c, beta@, b as int, r);
            }
        }
        let mut digit: usize = 1;
        while digit < 3
            invariant
                beta@.len() == 10,
                b < 10,
                1 <= digit <= 3,
                width == pow3(b as int),
                pow3(b + 1) == 3 * width,
                3 * width <= 59_049,
                power == beta@[b as int],
                slope == fadd(fone(), power),
                coefficients@.len() == digit * width,
                forall|c: int|
                    0 <= c < digit * width ==> 1 <= (#[trigger] coefficients@[c])@.len() <= 2 + b,
                forall|c: int|
                    0 <= c < width ==> 1 <= (#[trigger] coefficients@[c])@.len() <= 1 + b,
                forall|c: int, r: F128|
                    #![trigger horner(coefficients@[c]@, r)]
                    0 <= c < digit * width ==> horner(coefficients@[c]@, r) == trit_product(
                        c,
                        beta@,
                        b + 1,
                        r,
                    ),
            decreases 3 - digit,
        {
            let head = if digit == 1 {
                F128::one()
            } else {
                power
            };
            let mut i: usize = 0;
            while i < width
                invariant
                    beta@.len() == 10,
                    b < 10,
                    1 <= digit < 3,
                    i <= width,
                    width == pow3(b as int),
                    pow3(b + 1) == 3 * width,
                    3 * width <= 59_049,
                    power == beta@[b as int],
                    slope == fadd(fone(), power),
                    head == (if digit == 1 {
                        fone()
                    } else {
                        power
                    }),
                    coefficients@.len() == digit * width + i,
                    forall|c: int|
                        0 <= c < digit * width + i ==> 1 <= (#[trigger] coefficients@[c])@.len()
                            <= 2 + b,
                    forall|c: int|
                        0 <= c < width ==> 1 <= (#[trigger] coefficients@[c])@.len() <= 1 + b,
                    forall|c: int, r: F128|
                        #![trigger horner(coefficients@[c]@, r)]
                        0 <= c < digit * width + i ==> horner(coefficients@[c]@, r)
                            == trit_product(c, beta@, b + 1, r),
                decreases width - i,
            {
                assert(width <= digit * width) by (nonlinear_arith)
                    requires
                        1 <= digit,
                        0 <= width,
                ;
                let p = times_affine(&coefficients[i], head, slope);
                let ghost before = coefficients@;
                proof {
                    let c = digit * width + i;
                    assert forall|r: F128| #[trigger] horner(p@, r) == trit_product(
                        c,
                        beta@,
                        b + 1,
                        r,
                    ) by {
                        lemma_digit(i as int, width as int, digit as int);
                        lemma_affine_up(power, r);
                        assert(horner(before[i as int]@, r) == trit_product(
                            i as int,
                            beta@,
                            b + 1,
                            r,
                        ));
                        lemma_trit_zero(i as int, beta@, b as int, r);
                    }
                }
                coefficients.push(p);
                proof {
                    assert forall|c: int, r: F128|
                        #![trigger horner(coefficients@[c]@, r)]
                        0 <= c < digit * width + i + 1 implies horner(coefficients@[c]@, r)
                        == trit_product(c, beta@, b + 1, r) by {
                        if c < digit * width + i {
                            assert(coefficients@[c] == before[c]);
                            assert(horner(before[c]@, r) == trit_product(c, beta@, b + 1, r));
                        }
                    }
                }
                i = i + 1;
            }
            assert((digit + 1) * width == digit * width + width) by (nonlinear_arith);
            digit = digit + 1;
        }
        assert(digit * width == 3 * width);
        width = 3 * width;
        b = b + 1;
    }
    proof {
        lemma_pow3_ten();
    }
    coefficients
}

proof fn lemma_ternary_bound(m: int, n: int)
    requires
        0 <= n,
    ensures
        0 <= ternary_of(m, n) < pow3(n),
    decreases n,
{
    lemma_pow3_pos(n);
    if n > 0 {
        lemma_ternary_bound(m, n - 1);
    }
}

/// Bits in common give the same digits and the same constants.
proof fn lemma_maps_congr(m: int, k: int, beta: Seq<F128>, n: int)
    requires
        0 <= n,
        forall|j: int| 0 <= j < n ==> #[trigger] nat_bit(m, j) == nat_bit(k, j),
    ensures
        ternary_of(m, n) == ternary_of(k, n),
        bit_product(m, beta, n) == bit_product(k, beta, n),
    decreases n,
{
    if n > 0 {
        lemma_maps_congr(m, k, beta, n - 1);
        assert(nat_bit(m, n - 1) == nat_bit(k, n - 1));
    }
}

/// The ternary map and the constants of every ten-bit mask.
fn bit_maps(beta: &Vec<F128>) -> (maps: (Vec<usize>, Vec<F128>))
    requires
        beta@.len() == 10,
    ensures
        maps.0@.len() == 1_024,
        maps.1@.len() == 1_024,
        forall|m: int| 0 <= m < 1_024 ==> #[trigger] maps.0@[m] == ternary_of(m, 10),
        forall|m: int| 0 <= m < 1_024 ==> #[trigger] maps.1@[m] == bit_product(m, beta@, 10),
{
    let mut ternary: Vec<usize> = Vec::new();
    let mut common: Vec<F128> = Vec::new();
    ternary.push(0);
    common.push(F128::one());
    let mut width: usize = 1;
    let mut b: usize = 0;
    proof {
        lemma2_to64();
    }
    while b < 10
        invariant
            beta@.len() == 10,
            b <= 10,
            width == pow3(b as int),
            ternary@.len() == pow2(b as nat),
            common@.len() == pow2(b as nat),
            forall|m: int|
                0 <= m < ternary@.len() ==> #[trigger] ternary@[m] == ternary_of(m, b as int),
            forall|m: int|
                0 <= m < common@.len() ==> #[trigger] common@[m] == bit_product(
                    m,
                    beta@,
                    b as int,
                ),
        decreases 10 - b,
    {
        let size: usize = ternary.len();
        let ghost old_ternary = ternary@;
        let ghost old_common = common@;
        proof {
            lemma2_to64();
            lemma_pow2_unfold((b + 1) as nat);
            lemma_pow3_bound(b as int);
            lemma_pow3_bound(b + 1);
        }
        let mut i: usize = 0;
        while i < size
            invariant
                beta@.len() == 10,
                b < 10,
                i <= size,
                size == pow2(b as nat),
                size <= 1_024,
                width == pow3(b as int),
                1 <= width <= 59_049,
                old_ternary.len() == size,
                old_common.len() == size,
                ternary@.len() == size + i,
                common@.len() == size + i,
                forall|m: int|
                    0 <= m < size ==> #[trigger] old_ternary[m] == ternary_of(m, b as int),
                forall|m: int|
                    0 <= m < size ==> #[trigger] old_common[m] == bit_product(
                        m,
                        beta@,
                        b as int,
                    ),
                forall|m: int| 0 <= m < size ==> #[trigger] ternary@[m] == old_ternary[m],
                forall|m: int| 0 <= m < size ==> #[trigger] common@[m] == old_common[m],
                forall|m: int|
                    size <= m < size + i ==> #[trigger] ternary@[m] == ternary_of(m, b + 1),
                forall|m: int|
                    size <= m < size + i ==> #[trigger] common@[m] == bit_product(
                        m,
                        beta@,
                        b + 1,
                    ),
            decreases size - i,
        {
            proof {
                let m = i + pow2(b as nat);
                assert forall|j: int| 0 <= j < b implies #[trigger] nat_bit(m, j) == nat_bit(
                    i as int,
                    j,
                ) by {
                    lemma_bit_of_sum(i as int, b as nat, j);
                }
                lemma_maps_congr(m, i as int, beta@, b as int);
                lemma_bit_of_sum(i as int, b as nat, b as int);
                lemma_ternary_bound(i as int, b as int);
                assert(ternary@[i as int] == ternary_of(i as int, b as int));
                assert(common@[i as int] == bit_product(i as int, beta@, b as int));
            }
            ternary.push(ternary[i] + width);
            common.push(common[i] * beta[b]);
            i = i + 1;
        }
        proof {
            assert forall|m: int| 0 <= m < ternary@.len() implies #[trigger] ternary@[m]
                == ternary_of(m, b + 1) by {
                if m < size {
                    lemma_bit_of_sum(m, b as nat, b as int);
                    assert(old_ternary[m] == ternary_of(m, b as int));
                }
            }
            assert forall|m: int| 0 <= m < common@.len() implies #[trigger] common@[m]
                == bit_product(m, beta@, b + 1) by {
                if m < size {
                    lemma_bit_of_sum(m, b as nat, b as int);
                    assert(old_common[m] == bit_product(m, beta@, b as int));
                    lemma_fmul_one(old_common[m]);
                }
            }
        }
        width = 3 * width;
        b = b + 1;
    }
    (ternary, common)
}

} // verus!
