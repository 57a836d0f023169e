//! The first rounds of a borrow layer from packed bits.
//!
//! With few coordinates bound, the folded inputs are short combinations of bit
//! tables, so the round polynomial's coefficients are weighted evaluations of
//! bitwise expressions.
use vstd::arithmetic::power2::{
    lemma2_to64, lemma_pow2_adds, lemma_pow2_pos, lemma_pow2_strictly_increases, lemma_pow2_unfold,
    pow2,
};
use vstd::prelude::*;
use vstd::slice::slice_subrange;

use crate::carry_gate::{eq_at, eq_list, gate, layer_evals, layer_value, lemma_eq_factor};
use crate::claim_closure::{eq_factor, eq_points};
use crate::field::{
    coefficient, fadd, fmul, fone, fselect, fzero, lemma_fadd_assoc, lemma_fadd_comm,
    lemma_fadd_self, lemma_fadd_swap, lemma_fadd_zero, lemma_fmul_assoc, lemma_fmul_comm,
    lemma_fmul_distr, lemma_fmul_one, lemma_fmul_zero, F128,
};
use crate::hash_to_point_scatter::power_sum::lemma_fsum_blocks;
use crate::hash_to_point_scatter::small;
use crate::hash_to_point_slots::relation::nat_bit;
use crate::lookup::{lemma_bit_of_sum, subset_sum, subset_sums};
use crate::mle::{
    bit_table, bit_value, copy_table, eq_table, eq_weight, fold_all, fold_table,
    lemma_eq_weight_first, lemma_fold_all_len, lemma_lerp, lemma_mle_add, lemma_mle_combination,
    lemma_mle_constant, lemma_mle_is_weighted_sum, lemma_mle_scale, lerp, mle,
};
use crate::packed_bits::packed_bit;
use crate::packed_mle::{evaluate_packed_tables, leading_bits, pack_bits};
use crate::sumcheck::node;
use crate::sums::{
    fprod, fsum, lemma_fsum_add, lemma_fsum_congr, lemma_fsum_scale, lemma_fsum_split,
};

verus! {

// ---------------------------------------------------------------------------
// Folded tables as combinations.
// ---------------------------------------------------------------------------

/// A folded table is the combination of the table's parts under the prefix's
/// equality weights.
pub proof fn lemma_fold_parts(table: Seq<F128>, p: Seq<F128>, size: nat, i: int)
    requires
        table.len() == pow2(p.len()) * size,
        0 <= i < size,
    ensures
        fold_all(table, p).len() == size,
        fold_all(table, p)[i] == fsum(
            |a: int| fmul(eq_weight(p, a), table[a * size + i]),
            pow2(p.len()) as int,
        ),
    decreases p.len(),
{
    lemma2_to64();
    let f = |a: int| fmul(eq_weight(p, a), table[a * size + i]);
    if p.len() == 0 {
        reveal_with_fuel(fsum, 2);
        assert(1 * size == size) by (nonlinear_arith);
        assert(f(0) == fmul(fone(), table[i])) by {
            assert(0 * size + i == i);
        }
        lemma_fmul_one(table[i]);
        lemma_fadd_zero(table[i]);
    } else {
        let half = pow2((p.len() - 1) as nat) as int;
        lemma_pow2_unfold(p.len());
        lemma_pow2_pos((p.len() - 1) as nat);
        let r = p[0];
        let rest = p.drop_first();
        let folded = fold_table(table, r);
        let m = half * size;
        assert(table.len() == 2 * m) by (nonlinear_arith)
            requires
                table.len() == (2 * half) * size,
                m == half * size,
        ;
        assert(folded.len() == m);
        lemma_fold_parts(folded, rest, size, i);
        let g = |a: int| fmul(eq_weight(rest, a), folded[a * size + i]);
        let low = |a: int| f(a);
        let high = |a: int| f(half + a);
        let both = |a: int| fadd(low(a), high(a));
        assert forall|a: int| 0 <= a < half implies #[trigger] g(a) == both(a) by {
            let k = a * size + i;
            assert(0 <= k < m) by (nonlinear_arith)
                requires
                    0 <= a < half,
                    0 <= i < size,
                    k == a * size + i,
                    m == half * size,
            ;
            assert((half + a) * size + i == m + k) by (nonlinear_arith)
                requires
                    k == a * size + i,
                    m == half * size,
            ;
            lemma_eq_weight_first(p, false, a);
            lemma_eq_weight_first(p, true, a);
            let w = eq_weight(rest, a);
            lemma_lerp(table[k], table[m + k], r);
            let nr = fadd(fone(), r);
            lemma_fmul_distr(w, fmul(nr, table[k]), fmul(r, table[m + k]));
            lemma_fmul_assoc(w, nr, table[k]);
            lemma_fmul_comm(w, nr);
            lemma_fmul_assoc(w, r, table[m + k]);
            lemma_fmul_comm(w, r);
        }
        lemma_fsum_congr(g, both, half);
        lemma_fsum_add(low, high, half);
        lemma_fsum_congr(both, |a: int| fadd(low(a), high(a)), half);
        lemma_fsum_split(f, half, half);
        lemma_fsum_congr(f, low, half);
        lemma_fsum_congr(high, |a: int| f(half + a), half);
    }
}

/// The equality table folds to a scaled equality table.
pub proof fn lemma_fold_eq(rho: Seq<F128>, p: Seq<F128>)
    requires
        p.len() <= rho.len(),
    ensures
        fold_all(eq_list(rho), p) == Seq::new(
            pow2((rho.len() - p.len()) as nat),
            |j: int|
                fmul(
                    eq_points(rho.take(p.len() as int), p),
                    eq_weight(rho.skip(p.len() as int), j),
                ),
        ),
{
    lemma_fold_scaled(rho, p, fone());
    let scaled = Seq::new(pow2(rho.len()), |j: int| fmul(fone(), eq_weight(rho, j)));
    assert(scaled =~= eq_list(rho)) by {
        assert forall|j: int| 0 <= j < scaled.len() implies scaled[j] == eq_list(rho)[j] by {
            lemma_fmul_one(eq_weight(rho, j));
        }
    }
    lemma_fmul_one(eq_points(rho.take(p.len() as int), p));
}

proof fn lemma_fold_scaled(rho: Seq<F128>, p: Seq<F128>, c: F128)
    requires
        p.len() <= rho.len(),
    ensures
        fold_all(Seq::new(pow2(rho.len()), |j: int| fmul(c, eq_weight(rho, j))), p) == Seq::new(
            pow2((rho.len() - p.len()) as nat),
            |j: int|
                fmul(
                    fmul(c, eq_points(rho.take(p.len() as int), p)),
                    eq_weight(rho.skip(p.len() as int), j),
                ),
        ),
    decreases p.len(),
{
    let table = Seq::new(pow2(rho.len()), |j: int| fmul(c, eq_weight(rho, j)));
    if p.len() == 0 {
        assert(rho.skip(0) =~= rho);
        lemma_fmul_one(c);
        assert(fold_all(table, p) =~= Seq::new(
            pow2((rho.len() - p.len()) as nat),
            |j: int|
                fmul(
                    fmul(c, eq_points(rho.take(p.len() as int), p)),
                    eq_weight(rho.skip(p.len() as int), j),
                ),
        ));
    } else {
        let r = p[0];
        let rs = rho.drop_first();
        let ps = p.drop_first();
        let k = eq_factor(rho[0], r);
        let half = pow2((rho.len() - 1) as nat);
        lemma_pow2_unfold(rho.len());
        let folded = fold_table(table, r);
        let next = Seq::new(half, |j: int| fmul(fmul(c, k), eq_weight(rs, j)));
        assert forall|j: int| 0 <= j < half implies #[trigger] folded[j] == next[j] by {
            lemma_eq_weight_first(rho, false, j);
            lemma_eq_weight_first(rho, true, j);
            let e = eq_weight(rs, j);
            let x = rho[0];
            let nx = fadd(fone(), x);
            let nr = fadd(fone(), r);
            lemma_lerp(fmul(c, fmul(nx, e)), fmul(c, fmul(x, e)), r);
            // (1 + r) (c (nx e)) = c ((nx nr) e)
            lemma_fmul_assoc(nr, c, fmul(nx, e));
            lemma_fmul_comm(nr, c);
            lemma_fmul_assoc(c, nr, fmul(nx, e));
            lemma_fmul_assoc(nr, nx, e);
            lemma_fmul_comm(nr, nx);
            lemma_fmul_assoc(r, c, fmul(x, e));
            lemma_fmul_comm(r, c);
            lemma_fmul_assoc(c, r, fmul(x, e));
            lemma_fmul_assoc(r, x, e);
            lemma_fmul_comm(r, x);
            lemma_fmul_distr(c, fmul(fmul(nx, nr), e), fmul(fmul(x, r), e));
            lemma_fadd_comm(fmul(fmul(nx, nr), e), fmul(fmul(x, r), e));
            lemma_fmul_comm(k, e);
            lemma_fmul_distr(e, fmul(x, r), fmul(nx, nr));
            lemma_fmul_comm(e, fmul(x, r));
            lemma_fmul_comm(e, fmul(nx, nr));
            lemma_fmul_assoc(c, k, e);
        }
        assert(folded =~= next);
        lemma_fold_scaled(rs, ps, fmul(c, k));
        let f = |j: int| eq_factor(rho.take(p.len() as int)[j], p[j]);
        let g = |j: int| eq_factor(rs.take(ps.len() as int)[j], ps[j]);
        assert forall|j: int| 0 <= j < ps.len() implies #[trigger] g(j) == f(j + 1) by {}
        crate::claim_closure::lemma_fprod_front(f, g, ps.len() as int);
        lemma_fmul_assoc(c, k, fprod(g, ps.len() as int));
        assert(rs.skip(ps.len() as int) =~= rho.skip(p.len() as int));
        assert(fold_all(table, p) =~= Seq::new(
            pow2((rho.len() - p.len()) as nat),
            |j: int|
                fmul(
                    fmul(c, eq_points(rho.take(p.len() as int), p)),
                    eq_weight(rho.skip(p.len() as int), j),
                ),
        ));
    }
}

/// The folded sizes.
pub proof fn lemma_fold_sizes(rho: Seq<F128>, x: Seq<bool>, d: Seq<bool>, p: Seq<F128>)
    requires
        p.len() <= rho.len(),
        x.len() == pow2(rho.len()),
        d.len() == x.len(),
    ensures
        fold_all(eq_list(rho), p).len() == pow2((rho.len() - p.len()) as nat),
        fold_all(bit_table(x), p).len() == pow2((rho.len() - p.len()) as nat),
        fold_all(bit_table(d), p).len() == pow2((rho.len() - p.len()) as nat),
{
    lemma_fold_all_len(eq_list(rho), p, rho.len());
    lemma_fold_all_len(bit_table(x), p, rho.len());
    lemma_fold_all_len(bit_table(d), p, rho.len());
}

/// The bits of a table folded at a short prefix, through a table of the
/// subset sums of the prefix's weights.
pub fn fold_bits_prefix(bits: &[bool], point: &[F128], vars: Ghost<nat>) -> (table: Vec<F128>)
    requires
        bits@.len() == pow2(vars@),
        point@.len() <= vars@,
        point@.len() <= 3,
    ensures
        table@ == fold_all(bit_table(bits@), point@),
{
    let total: usize = bits.len();
    proof {
        lemma2_to64();
        lemma_pow2_adds(point@.len(), (vars@ - point@.len()) as nat);
        lemma_pow2_pos((vars@ - point@.len()) as nat);
        lemma_fold_all_len(bit_table(bits@), point@, vars@);
    }
    let weights = eq_table(point);
    let corners: usize = weights.len();
    let lut = subset_sums(F128::zero(), weights.as_slice());
    let length: usize = total / corners;
    let ghost size = pow2((vars@ - point@.len()) as nat);
    proof {
        assert(total == corners * size);
        vstd::arithmetic::div_mod::lemma_fundamental_div_mod_converse(
            total as int,
            corners as int,
            size as int,
            0,
        );
    }
    let mut table: Vec<F128> = Vec::new();
    let mut y: usize = 0;
    while y < length
        invariant
            total == bits@.len(),
            total == corners * size,
            length == size,
            corners == pow2(point@.len()),
            corners <= 8,
            weights@ == Seq::new(pow2(point@.len()), |i: int| eq_weight(point@, i)),
            lut@.len() == pow2(corners as nat),
            forall|mask: int|
                0 <= mask < lut@.len() ==> #[trigger] lut@[mask] == fadd(
                    fzero(),
                    subset_sum(weights@, mask),
                ),
            y <= length,
            table@.len() == y,
            forall|k: int|
                0 <= k < y ==> #[trigger] table@[k] == fold_all(bit_table(bits@), point@)[k],
        decreases length - y,
    {
        let mut code: usize = 0;
        let mut power: usize = 1;
        let mut a: usize = 0;
        proof {
            lemma2_to64();
        }
        while a < corners
            invariant
                total == bits@.len(),
                total == corners * length,
                y < length,
                corners <= 8,
                a <= corners,
                power == pow2(a as nat),
                code < power,
                forall|j: int|
                    0 <= j < a ==> #[trigger] nat_bit(code as int, j) == bits@[j * length + y],
            decreases corners - a,
        {
            let ghost before = code;
            proof {
                lemma2_to64();
                lemma_pow2_unfold((a + 1) as nat);
                assert(a * length + y < corners * length) by (nonlinear_arith)
                    requires
                        a < corners,
                        y < length,
                ;
                assert(a * length <= total) by (nonlinear_arith)
                    requires
                        a < corners,
                        total == corners * length,
                ;
                assert(power <= 128);
            }
            if bits[a * length + y] {
                code = code + power;
            }
            proof {
                assert forall|j: int| 0 <= j < a + 1 implies #[trigger] nat_bit(code as int, j)
                    == bits@[j * length + y] by {
                    lemma_bit_of_sum(before as int, a as nat, j);
                    if j < a {
                        assert(nat_bit(before as int, j) == bits@[j * length + y]);
                    }
                }
            }
            power = 2 * power;
            a = a + 1;
        }
        let value = lut[code];
        proof {
            let t = bit_table(bits@);
            lemma_fold_parts(t, point@, size, y as int);
            let f = |j: int| fselect(nat_bit(code as int, j), weights@[j]);
            let g = |j: int| fmul(eq_weight(point@, j), t[j * size + y]);
            assert forall|j: int| 0 <= j < corners implies #[trigger] f(j) == g(j) by {
                assert(j * length + y < corners * length) by (nonlinear_arith)
                    requires
                        j < corners,
                        y < length,
                ;
                assert(0 <= j * length) by (nonlinear_arith)
                    requires
                        0 <= j,
                ;
                assert(nat_bit(code as int, j) == bits@[j * length + y]);
                lemma_fmul_one(eq_weight(point@, j));
                lemma_fmul_comm(eq_weight(point@, j), fone());
                lemma_fmul_zero(eq_weight(point@, j));
            }
            lemma_fsum_congr(f, g, corners as int);
            lemma_fadd_zero(subset_sum(weights@, code as int));
        }
        table.push(value);
        y = y + 1;
    }
    assert(table@ =~= fold_all(bit_table(bits@), point@));
    table
}

/// The equality table and the inputs of a layer, folded at the prefix.
pub fn fold_inputs(x: &[bool], d: &[bool], rho: &[F128], point: &[F128]) -> (tables: (
    Vec<F128>,
    Vec<F128>,
    Vec<F128>,
))
    requires
        x@.len() == pow2(rho@.len()),
        d@.len() == x@.len(),
        point@.len() <= rho@.len(),
        point@.len() <= 3,
    ensures
        tables.0@ == fold_all(eq_list(rho@), point@),
        tables.1@ == fold_all(bit_table(x@), point@),
        tables.2@ == fold_all(bit_table(d@), point@),
{
    let k: usize = point.len();
    let n: usize = rho.len();
    let total: usize = x.len();
    let head = slice_subrange(rho, 0, k);
    let tail = slice_subrange(rho, k, n);
    let prefix = eq_at(head, point);
    proof {
        assert(head@ =~= rho@.take(k as int));
        assert(tail@ =~= rho@.skip(k as int));
        if k > 0 {
            lemma_pow2_strictly_increases((n - k) as nat, n as nat);
        }
        lemma_fold_eq(rho@, point@);
    }
    let weights = eq_table(tail);
    let mut e: Vec<F128> = Vec::new();
    let mut j: usize = 0;
    while j < weights.len()
        invariant
            j <= weights@.len(),
            e@.len() == j,
            forall|i: int| 0 <= i < j ==> #[trigger] e@[i] == fmul(prefix, weights@[i]),
        decreases weights@.len() - j,
    {
        e.push(prefix * weights[j]);
        j = j + 1;
    }
    assert(e@ =~= fold_all(eq_list(rho@), point@));
    let xs = fold_bits_prefix(x, point, Ghost(rho@.len()));
    let ds = fold_bits_prefix(d, point, Ghost(rho@.len()));
    (e, xs, ds)
}

// ---------------------------------------------------------------------------
// Bitwise tables.
// ---------------------------------------------------------------------------

pub proof fn lemma_limb_bits(a: u64, b: u64, t: u64)
    by (bit_vector)
    requires
        t < 64,
    ensures
        (((a & b) >> t) & 1 == 1) == (((a >> t) & 1 == 1) && ((b >> t) & 1 == 1)),
        (((a ^ b) >> t) & 1 == 1) == (((a >> t) & 1 == 1) != ((b >> t) & 1 == 1)),
{
}

spec fn word_and(a: F128, b: F128) -> F128 {
    F128 { lo: a.lo & b.lo, hi: a.hi & b.hi }
}

proof fn lemma_word_bits(a: F128, b: F128, t: int)
    requires
        0 <= t < 128,
    ensures
        coefficient(word_and(a, b), t) == (coefficient(a, t) && coefficient(b, t)),
        coefficient(fadd(a, b), t) == (coefficient(a, t) != coefficient(b, t)),
{
    if t < 64 {
        lemma_limb_bits(a.lo, b.lo, t as u64);
    } else {
        lemma_limb_bits(a.hi, b.hi, (t - 64) as u64);
    }
}

/// The words' bitwise conjunction.
fn and_words(a: &Vec<F128>, b: &Vec<F128>) -> (out: Vec<F128>)
    requires
        a@.len() == b@.len(),
    ensures
        out@.len() == a@.len(),
        forall|p: int|
            0 <= p < 128 * a@.len() ==> #[trigger] packed_bit(out@, p) == (packed_bit(a@, p)
                && packed_bit(b@, p)),
{
    let mut out: Vec<F128> = Vec::new();
    let mut i: usize = 0;
    while i < a.len()
        invariant
            a@.len() == b@.len(),
            i <= a@.len(),
            out@.len() == i,
            forall|k: int| 0 <= k < i ==> #[trigger] out@[k] == word_and(a@[k], b@[k]),
        decreases a@.len() - i,
    {
        out.push(F128 { lo: a[i].lo & b[i].lo, hi: a[i].hi & b[i].hi });
        i = i + 1;
    }
    proof {
        assert forall|p: int| 0 <= p < 128 * a@.len() implies #[trigger] packed_bit(out@, p) == (
        packed_bit(a@, p) && packed_bit(b@, p)) by {
            assert(out@[p / 128] == word_and(a@[p / 128], b@[p / 128]));
            lemma_word_bits(a@[p / 128], b@[p / 128], p % 128);
        }
    }
    out
}

/// The words' bitwise difference.
fn xor_words(a: &Vec<F128>, b: &Vec<F128>) -> (out: Vec<F128>)
    requires
        a@.len() == b@.len(),
    ensures
        out@.len() == a@.len(),
        forall|p: int|
            0 <= p < 128 * a@.len() ==> #[trigger] packed_bit(out@, p) == (packed_bit(a@, p)
                != packed_bit(b@, p)),
{
    let mut out: Vec<F128> = Vec::new();
    let mut i: usize = 0;
    while i < a.len()
        invariant
            a@.len() == b@.len(),
            i <= a@.len(),
            out@.len() == i,
            forall|k: int| 0 <= k < i ==> #[trigger] out@[k] == fadd(a@[k], b@[k]),
        decreases a@.len() - i,
    {
        out.push(a[i] + b[i]);
        i = i + 1;
    }
    proof {
        assert forall|p: int| 0 <= p < 128 * a@.len() implies #[trigger] packed_bit(out@, p) == (
        packed_bit(a@, p) != packed_bit(b@, p)) by {
            assert(out@[p / 128] == fadd(a@[p / 128], b@[p / 128]));
            lemma_word_bits(a@[p / 128], b@[p / 128], p % 128);
        }
    }
    out
}

/// The parts of an input at a prefix corner: the lower half, and its
/// difference from the upper half.
struct Parts {
    low: Vec<Vec<F128>>,
    diff: Vec<Vec<F128>>,
}

/// Bit `j` of the lower half of part `a`.
spec fn low_bit(bits: Seq<bool>, half: int, a: int, j: int) -> bool {
    bits[a * (2 * half) + j]
}

/// Bit `j` of the difference of the halves of part `a`.
spec fn diff_bit(bits: Seq<bool>, half: int, a: int, j: int) -> bool {
    bits[a * (2 * half) + j] != bits[a * (2 * half) + (half + j)]
}

impl Parts {
    spec fn of(self, bits: Seq<bool>, half: int, corners: int) -> bool {
        &&& self.low@.len() == corners
        &&& self.diff@.len() == corners
        &&& forall|a: int|
            0 <= a < corners ==> 128 * (#[trigger] self.low@[a])@.len() >= half
                && self.low@[a]@.len() == word_count(half)
        &&& forall|a: int|
            0 <= a < corners ==> (#[trigger] self.diff@[a])@.len() == word_count(half)
        &&& forall|a: int, j: int|
            #![trigger packed_bit(self.low@[a]@, j)]
            0 <= a < corners && 0 <= j < half ==> packed_bit(self.low@[a]@, j) == low_bit(
                bits,
                half,
                a,
                j,
            )
        &&& forall|a: int, j: int|
            #![trigger packed_bit(self.diff@[a]@, j)]
            0 <= a < corners && 0 <= j < half ==> packed_bit(self.diff@[a]@, j) == diff_bit(
                bits,
                half,
                a,
                j,
            )
    }
}

/// The words that hold `n` bits.
pub open spec fn word_count(n: int) -> int {
    (n + 127) / 128
}

fn split_parts(bits: &[bool], half: usize, corners: usize) -> (parts: Parts)
    requires
        bits@.len() == corners * (2 * half),
    ensures
        parts.of(bits@, half as int, corners as int),
{
    let total: usize = bits.len();
    let mut parts = Parts { low: Vec::new(), diff: Vec::new() };
    let mut a: usize = 0;
    while a < corners
        invariant
            total == bits@.len(),
            total == corners * (2 * half),
            a <= corners,
            parts.of(bits@, half as int, a as int),
        decreases corners - a,
    {
        proof {
            assert(a * (2 * half) + 2 * half <= total) by (nonlinear_arith)
                requires
                    a < corners,
                    total == corners * (2 * half),
            ;
            assert(0 <= a * (2 * half)) by (nonlinear_arith);
        }
        let start: usize = a * (2 * half);
        let lower = slice_subrange(bits, start, start + half);
        let upper = slice_subrange(bits, start + half, start + 2 * half);
        let low = pack_bits(lower);
        let high = pack_bits(upper);
        let diff = xor_words(&low, &high);
        let ghost before = parts;
        proof {
            assert forall|j: int| 0 <= j < half implies #[trigger] packed_bit(low@, j) == low_bit(
                bits@,
                half as int,
                a as int,
                j,
            ) by {
                assert(leading_bits(low@, lower@.len())[j] == lower@[j]);
            }
            assert forall|j: int| 0 <= j < half implies #[trigger] packed_bit(diff@, j)
                == diff_bit(bits@, half as int, a as int, j) by {
                assert(leading_bits(high@, upper@.len())[j] == upper@[j]);
                assert(packed_bit(low@, j) == low_bit(bits@, half as int, a as int, j));
                assert(packed_bit(high@, j) == upper@[j]);
            }
        }
        parts.low.push(low);
        parts.diff.push(diff);
        proof {
            assert forall|c: int, j: int|
                #![trigger packed_bit(parts.low@[c]@, j)]
                0 <= c < a + 1 && 0 <= j < half implies packed_bit(parts.low@[c]@, j) == low_bit(
                bits@,
                half as int,
                c,
                j,
            ) by {
                if c < a {
                    assert(parts.low@[c] == before.low@[c]);
                    assert(packed_bit(before.low@[c]@, j) == low_bit(bits@, half as int, c, j));
                }
            }
            assert forall|c: int, j: int|
                #![trigger packed_bit(parts.diff@[c]@, j)]
                0 <= c < a + 1 && 0 <= j < half implies packed_bit(parts.diff@[c]@, j)
                == diff_bit(bits@, half as int, c, j) by {
                if c < a {
                    assert(parts.diff@[c] == before.diff@[c]);
                    assert(packed_bit(before.diff@[c]@, j) == diff_bit(bits@, half as int, c, j));
                }
            }
        }
        a = a + 1;
    }
    parts
}

/// The weighted evaluations of a list of packed tables.
fn weighted_evaluations(tables: &Vec<Vec<F128>>, weights: &Vec<F128>, point: &Vec<F128>) -> (sum:
    F128)
    requires
        tables@.len() == weights@.len(),
        pow2(point@.len()) <= usize::MAX,
        forall|k: int|
            0 <= k < tables@.len() ==> 128 * (#[trigger] tables@[k])@.len() >= pow2(point@.len()),
    ensures
        sum == fsum(
            |k: int|
                fmul(
                    weights@[k],
                    mle(bit_table(leading_bits(tables@[k]@, pow2(point@.len()))), point@),
                ),
            tables@.len() as int,
        ),
{
    let values = evaluate_packed_tables(tables.as_slice(), point);
    let ghost f = |k: int|
        fmul(
            weights@[k],
            mle(bit_table(leading_bits(tables@[k]@, pow2(point@.len()))), point@),
        );
    let mut sum = F128::zero();
    let mut k: usize = 0;
    while k < tables.len()
        invariant
            tables@.len() == weights@.len(),
            values@ == Seq::new(
                tables@.len(),
                |k: int| mle(bit_table(leading_bits(tables@[k]@, pow2(point@.len()))), point@),
            ),
            f == (|k: int|
                fmul(
                    weights@[k],
                    mle(bit_table(leading_bits(tables@[k]@, pow2(point@.len()))), point@),
                )),
            k <= tables@.len(),
            sum == fsum(f, k as int),
        decreases tables@.len() - k,
    {
        sum = sum + weights[k] * values[k];
        k = k + 1;
    }
    sum
}

// ---------------------------------------------------------------------------
// The coefficients of a round.
// ---------------------------------------------------------------------------

/// The bit table of a predicate.
spec fn table_of(f: spec_fn(int) -> bool, n: nat) -> Seq<F128> {
    Seq::new(n, |j: int| bit_value(f(j)))
}

/// `sum_a w_a * extension of part a`.
spec fn linear_sum(
    part: spec_fn(int, int) -> bool,
    weights: Seq<F128>,
    half: nat,
    point: Seq<F128>,
) -> F128 {
    fsum(
        |a: int| fmul(weights[a], mle(table_of(|j: int| part(a, j), half), point)),
        weights.len() as int,
    )
}

/// `sum_{a, b} w_a w_b * extension of the table at (a, b)`.
spec fn pair_sum(
    part: spec_fn(int, int, int) -> bool,
    weights: Seq<F128>,
    half: nat,
    point: Seq<F128>,
) -> F128 {
    let m = weights.len() as int;
    fsum(
        |i: int|
            fmul(
                fmul(weights[i / m], weights[i % m]),
                mle(table_of(|j: int| part(i / m, i % m, j), half), point),
            ),
        m * m,
    )
}

/// `(sum f)(sum g)` as one sum.
proof fn lemma_product_of_sums(f: spec_fn(int) -> F128, g: spec_fn(int) -> F128, m: int)
    requires
        0 < m,
    ensures
        fmul(fsum(f, m), fsum(g, m)) == fsum(|i: int| fmul(f(i / m), g(i % m)), m * m),
{
    let h = |i: int| fmul(f(i / m), g(i % m));
    lemma_fsum_blocks(h, m, m);
    let blocks = |a: int| fsum(|c: int| h(a * m + c), m);
    let rows = |a: int| fmul(fsum(g, m), f(a));
    assert forall|a: int| 0 <= a < m implies #[trigger] blocks(a) == rows(a) by {
        let x = |c: int| h(a * m + c);
        let y = |c: int| fmul(f(a), g(c));
        assert forall|c: int| 0 <= c < m implies #[trigger] x(c) == y(c) by {
            vstd::arithmetic::div_mod::lemma_fundamental_div_mod_converse(a * m + c, m, a, c);
        }
        lemma_fsum_congr(x, y, m);
        lemma_fsum_scale(f(a), g, m);
        lemma_fmul_comm(f(a), fsum(g, m));
    }
    lemma_fsum_congr(blocks, rows, m);
    lemma_fsum_scale(fsum(g, m), f, m);
    lemma_fmul_comm(fsum(g, m), fsum(f, m));
}

/// An input with its leading unbound variable at `t`, as a combination.
spec fn affine_part(bits: Seq<bool>, half: int, a: int, j: int, t: F128) -> F128 {
    fadd(
        bit_value(low_bit(bits, half, a, j)),
        fmul(t, bit_value(diff_bit(bits, half, a, j))),
    )
}

proof fn lemma_bit_sum(a: bool, b: bool)
    ensures
        bit_value(a != b) == fadd(bit_value(a), bit_value(b)),
{
    lemma_fadd_zero(fone());
    lemma_fadd_zero(fzero());
    lemma_fadd_self(fone());
}

proof fn lemma_bit_product(a: bool, b: bool)
    ensures
        bit_value(a && b) == fmul(bit_value(a), bit_value(b)),
{
    lemma_fmul_one(bit_value(b));
    lemma_fmul_zero(bit_value(b));
}

/// The affine values of a folded input.
proof fn lemma_input_pair(bits: Seq<bool>, p: Seq<F128>, half: nat, j: int, t: F128)
    requires
        bits.len() == pow2(p.len()) * (2 * half),
        0 <= j < half,
    ensures
        fold_all(bit_table(bits), p).len() == 2 * half,
        lerp(
            fold_all(bit_table(bits), p)[j],
            fold_all(bit_table(bits), p)[half + j],
            t,
        ) == fsum(
            |a: int| fmul(eq_weight(p, a), affine_part(bits, half as int, a, j, t)),
            pow2(p.len()) as int,
        ),
{
    let table = bit_table(bits);
    let size = 2 * half;
    let m = pow2(p.len()) as int;
    lemma_fold_parts(table, p, size, j);
    lemma_fold_parts(table, p, size, half + j);
    let coef = |a: int| eq_weight(p, a);
    let x = |a: int| table[a * size + j];
    let y = |a: int| table[a * size + (half + j)];
    crate::claim_closure::lemma_lerp_sum(coef, x, y, m, t);
    lemma_fsum_congr(
        |a: int| fmul(coef(a), x(a)),
        |a: int| fmul(eq_weight(p, a), table[a * size + j]),
        m,
    );
    lemma_fsum_congr(
        |a: int| fmul(coef(a), y(a)),
        |a: int| fmul(eq_weight(p, a), table[a * size + (half + j)]),
        m,
    );
    let f = |a: int| fmul(coef(a), lerp(x(a), y(a), t));
    let g = |a: int| fmul(eq_weight(p, a), affine_part(bits, half as int, a, j, t));
    assert forall|a: int| 0 <= a < m implies #[trigger] f(a) == g(a) by {
        assert(0 <= a * size && a * size + size <= m * size) by (nonlinear_arith)
            requires
                0 <= a < m,
                0 <= size,
        ;
        lemma_bit_sum(bits[a * size + j], bits[a * size + (half + j)]);
    }
    lemma_fsum_congr(f, g, m);
}

/// The table of a folded input at `t`.
spec fn input_at(bits: Seq<bool>, p: Seq<F128>, half: nat, t: F128) -> Seq<F128> {
    Seq::new(
        half,
        |j: int|
            lerp(
                fold_all(bit_table(bits), p)[j],
                fold_all(bit_table(bits), p)[half + j],
                t,
            ),
    )
}

/// The extension of a folded input at `t`: two coefficients.
proof fn lemma_input_extension(
    bits: Seq<bool>,
    p: Seq<F128>,
    half: nat,
    point: Seq<F128>,
    t: F128,
)
    requires
        bits.len() == pow2(p.len()) * (2 * half),
        half == pow2(point.len()),
    ensures
        mle(input_at(bits, p, half, t), point) == fadd(
            linear_sum(
                |a: int, j: int| low_bit(bits, half as int, a, j),
                Seq::new(pow2(p.len()), |a: int| eq_weight(p, a)),
                half,
                point,
            ),
            fmul(
                t,
                linear_sum(
                    |a: int, j: int| diff_bit(bits, half as int, a, j),
                    Seq::new(pow2(p.len()), |a: int| eq_weight(p, a)),
                    half,
                    point,
                ),
            ),
        ),
{
    let m = pow2(p.len()) as int;
    let weights = Seq::new(pow2(p.len()), |a: int| eq_weight(p, a));
    let coef = |a: int| eq_weight(p, a);
    let parts = |a: int|
        Seq::new(half, |j: int| affine_part(bits, half as int, a, j, t));
    let whole = Seq::new(half, |j: int| fsum(|a: int| fmul(coef(a), parts(a)[j]), m));
    let table = input_at(bits, p, half, t);
    assert forall|j: int| 0 <= j < half implies #[trigger] table[j] == whole[j] by {
        lemma_input_pair(bits, p, half, j, t);
        lemma_fsum_congr(
            |a: int| fmul(eq_weight(p, a), affine_part(bits, half as int, a, j, t)),
            |a: int| fmul(coef(a), parts(a)[j]),
            m,
        );
    }
    assert(table =~= whole);
    lemma_mle_combination(coef, parts, m, point);
    assert(whole =~= Seq::new(
        pow2(point.len()),
        |j: int| fsum(|a: int| fmul(coef(a), parts(a)[j]), m),
    ));
    let lows = |a: int|
        fmul(weights[a], mle(table_of(|j: int| low_bit(bits, half as int, a, j), half), point));
    let diffs = |a: int|
        fmul(weights[a], mle(table_of(|j: int| diff_bit(bits, half as int, a, j), half), point));
    let f = |a: int| fmul(coef(a), mle(parts(a), point));
    let g = |a: int| fadd(lows(a), fmul(t, diffs(a)));
    assert forall|a: int| 0 <= a < m implies #[trigger] f(a) == g(a) by {
        lemma_part_extension(bits, half, a, point, t);
        let x = mle(table_of(|j: int| low_bit(bits, half as int, a, j), half), point);
        let y = mle(table_of(|j: int| diff_bit(bits, half as int, a, j), half), point);
        let w = coef(a);
        lemma_fmul_distr(w, x, fmul(t, y));
        lemma_fmul_assoc(w, t, y);
        lemma_fmul_comm(w, t);
        lemma_fmul_assoc(t, w, y);
    }
    lemma_fsum_congr(f, g, m);
    let scaled = |a: int| fmul(t, diffs(a));
    lemma_fsum_add(lows, scaled, m);
    lemma_fsum_congr(g, |a: int| fadd(lows(a), scaled(a)), m);
    lemma_fsum_scale(t, diffs, m);
    let part = |a: int, j: int| low_bit(bits, half as int, a, j);
    assert forall|a: int| 0 <= a < m implies #[trigger] lows(a) == fmul(
        weights[a],
        mle(table_of(|j: int| part(a, j), half), point),
    ) by {
        assert(table_of(|j: int| part(a, j), half) =~= table_of(
            |j: int| low_bit(bits, half as int, a, j),
            half,
        ));
    }
    lemma_linear_sum_is(part, weights, half, point, lows);
    let part = |a: int, j: int| diff_bit(bits, half as int, a, j);
    assert forall|a: int| 0 <= a < m implies #[trigger] diffs(a) == fmul(
        weights[a],
        mle(table_of(|j: int| part(a, j), half), point),
    ) by {
        assert(table_of(|j: int| part(a, j), half) =~= table_of(
            |j: int| diff_bit(bits, half as int, a, j),
            half,
        ));
    }
    lemma_linear_sum_is(part, weights, half, point, diffs);
}

proof fn lemma_linear_sum_is(
    part: spec_fn(int, int) -> bool,
    weights: Seq<F128>,
    half: nat,
    point: Seq<F128>,
    f: spec_fn(int) -> F128,
)
    requires
        forall|a: int|
            0 <= a < weights.len() ==> #[trigger] f(a) == fmul(
                weights[a],
                mle(table_of(|j: int| part(a, j), half), point),
            ),
    ensures
        linear_sum(part, weights, half, point) == fsum(f, weights.len() as int),
{
    lemma_fsum_congr(
        f,
        |a: int| fmul(weights[a], mle(table_of(|j: int| part(a, j), half), point)),
        weights.len() as int,
    );
}

proof fn lemma_part_extension(bits: Seq<bool>, half: nat, a: int, point: Seq<F128>, t: F128)
    requires
        half == pow2(point.len()),
    ensures
        mle(Seq::new(half, |j: int| affine_part(bits, half as int, a, j, t)), point) == fadd(
            mle(table_of(|j: int| low_bit(bits, half as int, a, j), half), point),
            fmul(t, mle(table_of(|j: int| diff_bit(bits, half as int, a, j), half), point)),
        ),
{
    let x = table_of(|j: int| low_bit(bits, half as int, a, j), half);
    let y = table_of(|j: int| diff_bit(bits, half as int, a, j), half);
    let z = Seq::new(y.len(), |j: int| fmul(t, y[j]));
    lemma_mle_scale(t, y, point);
    lemma_mle_add(x, z, point);
    assert(Seq::new(half, |j: int| affine_part(bits, half as int, a, j, t)) =~= Seq::new(
        x.len(),
        |j: int| fadd(x[j], z[j]),
    ));
}

/// The three coefficient tables of the product of two inputs.
spec fn product_bit(
    x: Seq<bool>,
    d: Seq<bool>,
    half: int,
    degree: int,
    a: int,
    b: int,
    j: int,
) -> bool {
    let (x0, dx) = (low_bit(x, half, a, j), diff_bit(x, half, a, j));
    let (d0, dd) = (low_bit(d, half, b, j), diff_bit(d, half, b, j));
    if degree == 0 {
        x0 && d0
    } else if degree == 1 {
        (x0 && dd) != (dx && d0)
    } else {
        dx && dd
    }
}

spec fn product_sum_of(
    x: Seq<bool>,
    d: Seq<bool>,
    half: nat,
    degree: int,
    weights: Seq<F128>,
    point: Seq<F128>,
) -> F128 {
    pair_sum(
        |a: int, b: int, j: int| product_bit(x, d, half as int, degree, a, b, j),
        weights,
        half,
        point,
    )
}

proof fn lemma_product_extension(
    x: Seq<bool>,
    d: Seq<bool>,
    half: nat,
    a: int,
    b: int,
    point: Seq<F128>,
    t: F128,
)
    requires
        half == pow2(point.len()),
    ensures
        mle(
            Seq::new(
                half,
                |j: int|
                    fmul(
                        affine_part(x, half as int, a, j, t),
                        affine_part(d, half as int, b, j, t),
                    ),
            ),
            point,
        ) == fadd(
            fadd(
                mle(table_of(|j: int| product_bit(x, d, half as int, 0, a, b, j), half), point),
                fmul(
                    t,
                    mle(
                        table_of(|j: int| product_bit(x, d, half as int, 1, a, b, j), half),
                        point,
                    ),
                ),
            ),
            fmul(
                fmul(t, t),
                mle(table_of(|j: int| product_bit(x, d, half as int, 2, a, b, j), half), point),
            ),
        ),
{
    let h = half as int;
    let q0 = table_of(|j: int| product_bit(x, d, h, 0, a, b, j), half);
    let q1 = table_of(|j: int| product_bit(x, d, h, 1, a, b, j), half);
    let q2 = table_of(|j: int| product_bit(x, d, h, 2, a, b, j), half);
    let tt = fmul(t, t);
    let s1 = Seq::new(q1.len(), |j: int| fmul(t, q1[j]));
    let s2 = Seq::new(q2.len(), |j: int| fmul(tt, q2[j]));
    let s01 = Seq::new(q0.len(), |j: int| fadd(q0[j], s1[j]));
    lemma_mle_scale(t, q1, point);
    lemma_mle_scale(tt, q2, point);
    lemma_mle_add(q0, s1, point);
    lemma_mle_add(s01, s2, point);
    let whole = Seq::new(
        half,
        |j: int| fmul(affine_part(x, h, a, j, t), affine_part(d, h, b, j, t)),
    );
    let sum = Seq::new(s01.len(), |j: int| fadd(s01[j], s2[j]));
    assert forall|j: int| 0 <= j < half implies #[trigger] whole[j] == sum[j] by {
        let (x0, dx) = (low_bit(x, h, a, j), diff_bit(x, h, a, j));
        let (d0, dd) = (low_bit(d, h, b, j), diff_bit(d, h, b, j));
        lemma_bit_product(x0, d0);
        lemma_bit_product(x0, dd);
        lemma_bit_product(dx, d0);
        lemma_bit_product(dx, dd);
        lemma_bit_sum(x0 && dd, dx && d0);
        lemma_quadratic(bit_value(x0), bit_value(dx), bit_value(d0), bit_value(dd), t);
    }
    assert(whole =~= sum);
}

/// `(a + t b)(c + t d) = a c + t (a d + b c) + t^2 b d`.
proof fn lemma_quadratic(a: F128, b: F128, c: F128, d: F128, t: F128)
    ensures
        fmul(fadd(a, fmul(t, b)), fadd(c, fmul(t, d))) == fadd(
            fadd(fmul(a, c), fmul(t, fadd(fmul(a, d), fmul(b, c)))),
            fmul(fmul(t, t), fmul(b, d)),
        ),
{
    crate::hash_to_point_scatter::polynomial_product::lemma_expand(a, b, c, d, t);
    lemma_fmul_assoc(t, t, fmul(b, d));
}

/// The extension of the product of two folded inputs at `t`: three
/// coefficients.
proof fn lemma_product_inputs(
    x: Seq<bool>,
    d: Seq<bool>,
    p: Seq<F128>,
    half: nat,
    point: Seq<F128>,
    t: F128,
)
    requires
        x.len() == pow2(p.len()) * (2 * half),
        d.len() == x.len(),
        half == pow2(point.len()),
    ensures
        mle(
            Seq::new(
                half,
                |j: int| fmul(input_at(x, p, half, t)[j], input_at(d, p, half, t)[j]),
            ),
            point,
        ) == ({
            let weights = Seq::new(pow2(p.len()), |a: int| eq_weight(p, a));
            fadd(
                fadd(
                    product_sum_of(x, d, half, 0, weights, point),
                    fmul(t, product_sum_of(x, d, half, 1, weights, point)),
                ),
                fmul(fmul(t, t), product_sum_of(x, d, half, 2, weights, point)),
            )
        }),
{
    let h = half as int;
    let m = pow2(p.len()) as int;
    lemma_pow2_pos(p.len());
    let weights = Seq::new(pow2(p.len()), |a: int| eq_weight(p, a));
    let coef = |i: int| fmul(weights[i / m], weights[i % m]);
    let parts = |i: int|
        Seq::new(
            half,
            |j: int|
                fmul(affine_part(x, h, i / m, j, t), affine_part(d, h, i % m, j, t)),
        );
    let table = Seq::new(
        half,
        |j: int| fmul(input_at(x, p, half, t)[j], input_at(d, p, half, t)[j]),
    );
    let whole = Seq::new(
        pow2(point.len()),
        |j: int| fsum(|i: int| fmul(coef(i), parts(i)[j]), m * m),
    );
    assert forall|j: int| 0 <= j < half implies #[trigger] table[j] == whole[j] by {
        lemma_input_pair(x, p, half, j, t);
        lemma_input_pair(d, p, half, j, t);
        let f = |a: int| fmul(eq_weight(p, a), affine_part(x, h, a, j, t));
        let g = |b: int| fmul(eq_weight(p, b), affine_part(d, h, b, j, t));
        lemma_product_of_sums(f, g, m);
        let u = |i: int| fmul(f(i / m), g(i % m));
        let v = |i: int| fmul(coef(i), parts(i)[j]);
        assert forall|i: int| 0 <= i < m * m implies #[trigger] u(i) == v(i) by {
            lemma_pair_index(i, m);
            crate::sums::lemma_fmul_swap(
                eq_weight(p, i / m),
                affine_part(x, h, i / m, j, t),
                eq_weight(p, i % m),
                affine_part(d, h, i % m, j, t),
            );
        }
        lemma_fsum_congr(u, v, m * m);
        lemma_fsum_congr(|i: int| fmul(f(i / m), g(i % m)), u, m * m);
    }
    assert(table =~= whole);
    lemma_mle_combination(coef, parts, m * m, point);
    let t0 = |i: int|
        fmul(
            coef(i),
            mle(table_of(|j: int| product_bit(x, d, h, 0, i / m, i % m, j), half), point),
        );
    let t1 = |i: int|
        fmul(
            coef(i),
            mle(table_of(|j: int| product_bit(x, d, h, 1, i / m, i % m, j), half), point),
        );
    let t2 = |i: int|
        fmul(
            coef(i),
            mle(table_of(|j: int| product_bit(x, d, h, 2, i / m, i % m, j), half), point),
        );
    let tt = fmul(t, t);
    let s1 = |i: int| fmul(t, t1(i));
    let s2 = |i: int| fmul(tt, t2(i));
    let s01 = |i: int| fadd(t0(i), s1(i));
    let all = |i: int| fadd(s01(i), s2(i));
    let f = |i: int| fmul(coef(i), mle(parts(i), point));
    assert forall|i: int| 0 <= i < m * m implies #[trigger] f(i) == all(i) by {
        lemma_product_extension(x, d, half, i / m, i % m, point, t);
        let c = coef(i);
        let a0 = mle(table_of(|j: int| product_bit(x, d, h, 0, i / m, i % m, j), half), point);
        let a1 = mle(table_of(|j: int| product_bit(x, d, h, 1, i / m, i % m, j), half), point);
        let a2 = mle(table_of(|j: int| product_bit(x, d, h, 2, i / m, i % m, j), half), point);
        lemma_fmul_distr(c, fadd(a0, fmul(t, a1)), fmul(tt, a2));
        lemma_fmul_distr(c, a0, fmul(t, a1));
        lemma_fmul_assoc(c, t, a1);
        lemma_fmul_comm(c, t);
        lemma_fmul_assoc(t, c, a1);
        lemma_fmul_assoc(c, tt, a2);
        lemma_fmul_comm(c, tt);
        lemma_fmul_assoc(tt, c, a2);
    }
    lemma_fsum_congr(f, all, m * m);
    lemma_fsum_add(s01, s2, m * m);
    lemma_fsum_congr(all, |i: int| fadd(s01(i), s2(i)), m * m);
    lemma_fsum_add(t0, s1, m * m);
    lemma_fsum_congr(s01, |i: int| fadd(t0(i), s1(i)), m * m);
    lemma_fsum_scale(t, t1, m * m);
    lemma_fsum_scale(tt, t2, m * m);
    let part0 = |a: int, b: int, j: int| product_bit(x, d, h, 0, a, b, j);
    assert forall|i: int|
        0 <= i < weights.len() * weights.len() implies #[trigger] t0(i) == fmul(
        fmul(weights[i / weights.len() as int], weights[i % weights.len() as int]),
        mle(
            table_of(
                |j: int| part0(i / weights.len() as int, i % weights.len() as int, j),
                half,
            ),
            point,
        ),
    ) by {
        assert(table_of(
            |j: int| part0(i / weights.len() as int, i % weights.len() as int, j),
            half,
        ) =~= table_of(|j: int| product_bit(x, d, h, 0, i / m, i % m, j), half));
    }
    lemma_pair_sum_is(part0, weights, half, point, t0);
    let part1 = |a: int, b: int, j: int| product_bit(x, d, h, 1, a, b, j);
    assert forall|i: int|
        0 <= i < weights.len() * weights.len() implies #[trigger] t1(i) == fmul(
        fmul(weights[i / weights.len() as int], weights[i % weights.len() as int]),
        mle(
            table_of(
                |j: int| part1(i / weights.len() as int, i % weights.len() as int, j),
                half,
            ),
            point,
        ),
    ) by {
        assert(table_of(
            |j: int| part1(i / weights.len() as int, i % weights.len() as int, j),
            half,
        ) =~= table_of(|j: int| product_bit(x, d, h, 1, i / m, i % m, j), half));
    }
    lemma_pair_sum_is(part1, weights, half, point, t1);
    let part2 = |a: int, b: int, j: int| product_bit(x, d, h, 2, a, b, j);
    assert forall|i: int|
        0 <= i < weights.len() * weights.len() implies #[trigger] t2(i) == fmul(
        fmul(weights[i / weights.len() as int], weights[i % weights.len() as int]),
        mle(
            table_of(
                |j: int| part2(i / weights.len() as int, i % weights.len() as int, j),
                half,
            ),
            point,
        ),
    ) by {
        assert(table_of(
            |j: int| part2(i / weights.len() as int, i % weights.len() as int, j),
            half,
        ) =~= table_of(|j: int| product_bit(x, d, h, 2, i / m, i % m, j), half));
    }
    lemma_pair_sum_is(part2, weights, half, point, t2);
}

proof fn lemma_pair_index(i: int, m: int)
    requires
        0 <= i < m * m,
        0 < m,
    ensures
        0 <= i / m < m,
        0 <= i % m < m,
{
    vstd::arithmetic::div_mod::lemma_fundamental_div_mod(i, m);
    vstd::arithmetic::div_mod::lemma_mod_bound(i, m);
    vstd::arithmetic::div_mod::lemma_div_pos_is_pos(i, m);
    let k = i / m;
    if k >= m {
        assert(m * k >= m * m) by (nonlinear_arith)
            requires
                k >= m,
                0 < m,
        ;
    }
}

proof fn lemma_pair_sum_is(
    part: spec_fn(int, int, int) -> bool,
    weights: Seq<F128>,
    half: nat,
    point: Seq<F128>,
    f: spec_fn(int) -> F128,
)
    requires
        weights.len() > 0,
        forall|i: int|
            0 <= i < weights.len() * weights.len() ==> #[trigger] f(i) == fmul(
                fmul(weights[i / weights.len() as int], weights[i % weights.len() as int]),
                mle(
                    table_of(
                        |j: int|
                            part(i / weights.len() as int, i % weights.len() as int, j),
                        half,
                    ),
                    point,
                ),
            ),
    ensures
        pair_sum(part, weights, half, point) == fsum(f, (weights.len() * weights.len()) as int),
{
    let m = weights.len() as int;
    lemma_fsum_congr(
        f,
        |i: int|
            fmul(
                fmul(weights[i / m], weights[i % m]),
                mle(table_of(|j: int| part(i / m, i % m, j), half), point),
            ),
        m * m,
    );
}

/// The coefficients of the borrow gate at a round.
spec fn round_coefficient(
    x: Seq<bool>,
    d: Seq<bool>,
    mi: bool,
    half: nat,
    weights: Seq<F128>,
    point: Seq<F128>,
    degree: int,
) -> F128 {
    let bits = if mi {
        x
    } else {
        d
    };
    let linear = if degree == 0 {
        linear_sum(|a: int, j: int| low_bit(bits, half as int, a, j), weights, half, point)
    } else if degree == 1 {
        linear_sum(|a: int, j: int| diff_bit(bits, half as int, a, j), weights, half, point)
    } else {
        fzero()
    };
    let constant = if mi && degree == 0 {
        fone()
    } else {
        fzero()
    };
    fadd(fadd(constant, linear), product_sum_of(x, d, half, degree, weights, point))
}

/// The borrow gate's extension at `t` from its three coefficients.
proof fn lemma_gate_extension(
    x: Seq<bool>,
    d: Seq<bool>,
    mi: bool,
    p: Seq<F128>,
    half: nat,
    point: Seq<F128>,
    t: F128,
)
    requires
        x.len() == pow2(p.len()) * (2 * half),
        d.len() == x.len(),
        half == pow2(point.len()),
    ensures
        mle(
            Seq::new(
                half,
                |j: int| gate(input_at(x, p, half, t)[j], input_at(d, p, half, t)[j], mi),
            ),
            point,
        ) == ({
            let weights = Seq::new(pow2(p.len()), |a: int| eq_weight(p, a));
            let q0 = round_coefficient(x, d, mi, half, weights, point, 0);
            let q1 = round_coefficient(x, d, mi, half, weights, point, 1);
            let q2 = round_coefficient(x, d, mi, half, weights, point, 2);
            fadd(fadd(q0, fmul(t, q1)), fmul(fmul(t, t), q2))
        }),
{
    let weights = Seq::new(pow2(p.len()), |a: int| eq_weight(p, a));
    let xt = input_at(x, p, half, t);
    let dt = input_at(d, p, half, t);
    let product = Seq::new(half, |j: int| fmul(xt[j], dt[j]));
    let bits = if mi {
        x
    } else {
        d
    };
    let lt = input_at(bits, p, half, t);
    let table = Seq::new(half, |j: int| gate(xt[j], dt[j], mi));
    lemma_product_inputs(x, d, p, half, point, t);
    lemma_input_extension(bits, p, half, point, t);
    let l0 = linear_sum(|a: int, j: int| low_bit(bits, half as int, a, j), weights, half, point);
    let l1 = linear_sum(|a: int, j: int| diff_bit(bits, half as int, a, j), weights, half, point);
    let p0 = product_sum_of(x, d, half, 0, weights, point);
    let p1 = product_sum_of(x, d, half, 1, weights, point);
    let p2 = product_sum_of(x, d, half, 2, weights, point);
    let constant = if mi {
        fone()
    } else {
        fzero()
    };
    let k = Seq::new(pow2(point.len()), |j: int| constant);
    lemma_mle_constant(constant, point);
    let kl = Seq::new(k.len(), |j: int| fadd(k[j], lt[j]));
    lemma_mle_add(k, lt, point);
    lemma_mle_add(kl, product, point);
    let whole = Seq::new(kl.len(), |j: int| fadd(kl[j], product[j]));
    assert forall|j: int| 0 <= j < half implies #[trigger] table[j] == whole[j] by {
        if !mi {
            lemma_fmul_distr(dt[j], fone(), xt[j]);
            lemma_fmul_one(dt[j]);
            lemma_fmul_comm(dt[j], fone());
            lemma_fmul_comm(dt[j], xt[j]);
            lemma_fadd_zero(dt[j]);
        }
    }
    assert(table =~= whole);
    // (c + (l0 + t l1)) + ((p0 + t p1) + tt p2)
    let tt = fmul(t, t);
    let tl1 = fmul(t, l1);
    let tp1 = fmul(t, p1);
    let up = fmul(tt, p2);
    lemma_fadd_assoc(constant, l0, tl1);
    let q0 = fadd(fadd(constant, l0), p0);
    lemma_fadd_assoc(fadd(fadd(constant, l0), tl1), fadd(p0, tp1), up);
    lemma_fadd_swap(fadd(constant, l0), tl1, p0, tp1);
    lemma_fmul_distr(t, l1, p1);
    lemma_fadd_zero(l1);
    lemma_fadd_zero(fzero());
    lemma_fadd_zero(p2);
}

/// A packed round message is the dense one.
proof fn lemma_packed_value(
    x: Seq<bool>,
    d: Seq<bool>,
    mi: bool,
    rho: Seq<F128>,
    p: Seq<F128>,
    t: F128,
)
    requires
        p.len() < rho.len(),
        x.len() == pow2(rho.len()),
        d.len() == x.len(),
    ensures
        layer_value(
            fold_all(eq_list(rho), p),
            fold_all(bit_table(x), p),
            fold_all(bit_table(d), p),
            mi,
            t,
        ) == ({
            let k = p.len() as int;
            let point = rho.skip(k + 1);
            let half = pow2(point.len());
            let weights = Seq::new(pow2(p.len()), |a: int| eq_weight(p, a));
            let q0 = round_coefficient(x, d, mi, half, weights, point, 0);
            let q1 = round_coefficient(x, d, mi, half, weights, point, 1);
            let q2 = round_coefficient(x, d, mi, half, weights, point, 2);
            fmul(
                fmul(eq_points(rho.take(k), p), fadd(fadd(fone(), rho[k]), t)),
                fadd(fadd(q0, fmul(t, q1)), fmul(fmul(t, t), q2)),
            )
        }),
{
    let k = p.len() as int;
    let point = rho.skip(k + 1);
    let half = pow2(point.len());
    let e = fold_all(eq_list(rho), p);
    let fx = fold_all(bit_table(x), p);
    let fd = fold_all(bit_table(d), p);
    lemma_fold_eq(rho, p);
    lemma_fold_sizes(rho, x, d, p);
    lemma_pow2_unfold((rho.len() - k) as nat);
    lemma_pow2_adds(p.len(), (rho.len() - k) as nat);
    assert(x.len() == pow2(p.len()) * (2 * half));
    let c = fmul(eq_points(rho.take(k), p), fadd(fadd(fone(), rho[k]), t));
    let table = Seq::new(
        half,
        |j: int| gate(input_at(x, p, half, t)[j], input_at(d, p, half, t)[j], mi),
    );
    lemma_gate_extension(x, d, mi, p, half, point, t);
    lemma_mle_is_weighted_sum(table, point);
    let w = |j: int| fmul(table[j], eq_weight(point, j));
    lemma_fsum_scale(c, w, half as int);
    let f = |j: int|
        fmul(
            lerp(e[j], e[half + j], t),
            gate(lerp(fx[j], fx[half + j], t), lerp(fd[j], fd[half + j], t), mi),
        );
    let g = |j: int| fmul(c, w(j));
    let tail = rho.skip(k);
    assert(tail.drop_first() =~= point);
    assert forall|j: int| 0 <= j < half implies #[trigger] f(j) == g(j) by {
        lemma_eq_weight_first(tail, false, j);
        lemma_eq_weight_first(tail, true, j);
        let q = eq_points(rho.take(k), p);
        let v = eq_weight(point, j);
        let r = rho[k];
        let nr = fadd(fone(), r);
        // lerp(q (nr v), q (r v), t) = (q (1 + r + t)) v
        lemma_lerp(fmul(q, fmul(nr, v)), fmul(q, fmul(r, v)), t);
        lemma_eq_factor(r, t);
        let nt = fadd(fone(), t);
        lemma_fmul_assoc(nt, q, fmul(nr, v));
        lemma_fmul_comm(nt, q);
        lemma_fmul_assoc(q, nt, fmul(nr, v));
        lemma_fmul_assoc(nt, nr, v);
        lemma_fmul_comm(nt, nr);
        lemma_fmul_assoc(t, q, fmul(r, v));
        lemma_fmul_comm(t, q);
        lemma_fmul_assoc(q, t, fmul(r, v));
        lemma_fmul_assoc(t, r, v);
        lemma_fmul_comm(t, r);
        lemma_fmul_distr(q, fmul(fmul(nr, nt), v), fmul(fmul(r, t), v));
        lemma_fadd_comm(fmul(fmul(nr, nt), v), fmul(fmul(r, t), v));
        let s = fadd(fadd(fone(), r), t);
        assert(s == fadd(fmul(r, t), fmul(nr, nt)));
        lemma_fmul_comm(s, v);
        lemma_fmul_distr(v, fmul(r, t), fmul(nr, nt));
        lemma_fmul_comm(v, fmul(r, t));
        lemma_fmul_comm(v, fmul(nr, nt));
        lemma_fmul_assoc(q, s, v);
        assert(lerp(e[j], e[half + j], t) == fmul(c, v));
        lemma_fmul_assoc(c, v, table[j]);
        lemma_fmul_comm(v, table[j]);
    }
    lemma_fsum_congr(f, g, half as int);
    assert(e.len() / 2 == half);
}

/// The linear tables of a coefficient, evaluated.
fn linear_value(
    tables: &Vec<Vec<F128>>,
    weights: &Vec<F128>,
    point: &Vec<F128>,
    part: Ghost<spec_fn(int, int) -> bool>,
) -> (sum: F128)
    requires
        tables@.len() == weights@.len(),
        pow2(point@.len()) <= usize::MAX,
        forall|a: int|
            0 <= a < tables@.len() ==> 128 * (#[trigger] tables@[a])@.len() >= pow2(point@.len()),
        forall|a: int, j: int|
            #![trigger packed_bit(tables@[a]@, j)]
            0 <= a < tables@.len() && 0 <= j < pow2(point@.len()) ==> packed_bit(
                tables@[a]@,
                j,
            ) == (part@)(a, j),
    ensures
        sum == linear_sum(part@, weights@, pow2(point@.len()), point@),
{
    let sum = weighted_evaluations(tables, weights, point);
    proof {
        let half = pow2(point@.len());
        let f = |k: int|
            fmul(
                weights@[k],
                mle(bit_table(leading_bits(tables@[k]@, pow2(point@.len()))), point@),
            );
        assert forall|a: int| 0 <= a < weights@.len() implies #[trigger] f(a) == fmul(
            weights@[a],
            mle(table_of(|j: int| (part@)(a, j), half), point@),
        ) by {
            assert(bit_table(leading_bits(tables@[a]@, half)) =~= table_of(
                |j: int| (part@)(a, j),
                half,
            ));
        }
        lemma_linear_sum_is(part@, weights@, half, point@, f);
    }
    sum
}

/// The product tables of one degree, evaluated.
fn product_value(
    x: &Parts,
    d: &Parts,
    degree: usize,
    weights: &Vec<F128>,
    point: &Vec<F128>,
    bits: Ghost<(Seq<bool>, Seq<bool>)>,
) -> (sum: F128)
    requires
        weights@.len() >= 1,
        weights@.len() <= 4,
        pow2(point@.len()) <= usize::MAX,
        x.of(bits@.0, pow2(point@.len()) as int, weights@.len() as int),
        d.of(bits@.1, pow2(point@.len()) as int, weights@.len() as int),
        degree <= 2,
    ensures
        sum == product_sum_of(
            bits@.0,
            bits@.1,
            pow2(point@.len()),
            degree as int,
            weights@,
            point@,
        ),
{
    let ghost half = pow2(point@.len());
    let ghost part = |a: int, b: int, j: int|
        product_bit(bits@.0, bits@.1, half as int, degree as int, a, b, j);
    let m: usize = weights.len();
    let mut tables: Vec<Vec<F128>> = Vec::new();
    let mut pairs: Vec<F128> = Vec::new();
    let mut a: usize = 0;
    while a < m
        invariant
            m == weights@.len(),
            1 <= m <= 4,
            half == pow2(point@.len()),
            x.of(bits@.0, half as int, m as int),
            d.of(bits@.1, half as int, m as int),
            degree <= 2,
            part == (|a: int, b: int, j: int|
                product_bit(bits@.0, bits@.1, half as int, degree as int, a, b, j)),
            a <= m,
            tables@.len() == a * m,
            pairs@.len() == a * m,
            forall|i: int|
                0 <= i < a * m ==> 128 * (#[trigger] tables@[i])@.len() >= half,
            forall|i: int|
                0 <= i < a * m ==> #[trigger] pairs@[i] == fmul(
                    weights@[i / m as int],
                    weights@[i % m as int],
                ),
            forall|i: int, j: int|
                #![trigger packed_bit(tables@[i]@, j)]
                0 <= i < a * m && 0 <= j < half ==> packed_bit(tables@[i]@, j) == part(
                    i / m as int,
                    i % m as int,
                    j,
                ),
        decreases m - a,
    {
        let mut b: usize = 0;
        while b < m
            invariant
                m == weights@.len(),
                1 <= m <= 4,
                half == pow2(point@.len()),
                x.of(bits@.0, half as int, m as int),
                d.of(bits@.1, half as int, m as int),
                degree <= 2,
                part == (|a: int, b: int, j: int|
                    product_bit(bits@.0, bits@.1, half as int, degree as int, a, b, j)),
                a < m,
                b <= m,
                tables@.len() == a * m + b,
                pairs@.len() == a * m + b,
                forall|i: int|
                    0 <= i < a * m + b ==> 128 * (#[trigger] tables@[i])@.len() >= half,
                forall|i: int|
                    0 <= i < a * m + b ==> #[trigger] pairs@[i] == fmul(
                        weights@[i / m as int],
                        weights@[i % m as int],
                    ),
                forall|i: int, j: int|
                    #![trigger packed_bit(tables@[i]@, j)]
                    0 <= i < a * m + b && 0 <= j < half ==> packed_bit(tables@[i]@, j) == part(
                        i / m as int,
                        i % m as int,
                        j,
                    ),
            decreases m - b,
        {
            let ghost before = tables@;
            proof {
                vstd::arithmetic::div_mod::lemma_fundamental_div_mod_converse(
                    a * m + b,
                    m as int,
                    a as int,
                    b as int,
                );
                assert(x.low@[a as int]@.len() == word_count(half as int));
                assert(x.diff@[a as int]@.len() == word_count(half as int));
                assert(d.low@[b as int]@.len() == word_count(half as int));
                assert(d.diff@[b as int]@.len() == word_count(half as int));
            }
            let table = if degree == 0 {
                and_words(&x.low[a], &d.low[b])
            } else if degree == 1 {
                let first = and_words(&x.low[a], &d.diff[b]);
                let second = and_words(&x.diff[a], &d.low[b]);
                let both = xor_words(&first, &second);
                proof {
                    assert forall|j: int| 0 <= j < half implies #[trigger] packed_bit(both@, j)
                        == part(a as int, b as int, j) by {
                        assert(packed_bit(first@, j) == (packed_bit(x.low@[a as int]@, j)
                            && packed_bit(d.diff@[b as int]@, j)));
                        assert(packed_bit(second@, j) == (packed_bit(x.diff@[a as int]@, j)
                            && packed_bit(d.low@[b as int]@, j)));
                    }
                }
                both
            } else {
                and_words(&x.diff[a], &d.diff[b])
            };
            proof {
                assert forall|j: int| 0 <= j < half implies #[trigger] packed_bit(table@, j)
                    == part(a as int, b as int, j) by {
                    if degree == 0 {
                        assert(packed_bit(table@, j) == (packed_bit(x.low@[a as int]@, j)
                            && packed_bit(d.low@[b as int]@, j)));
                    } else if degree == 2 {
                        assert(packed_bit(table@, j) == (packed_bit(x.diff@[a as int]@, j)
                            && packed_bit(d.diff@[b as int]@, j)));
                    }
                }
            }
            tables.push(table);
            pairs.push(weights[a] * weights[b]);
            proof {
                assert forall|i: int, j: int|
                    #![trigger packed_bit(tables@[i]@, j)]
                    0 <= i < a * m + b + 1 && 0 <= j < half implies packed_bit(tables@[i]@, j)
                    == part(i / m as int, i % m as int, j) by {
                    if i < a * m + b {
                        assert(tables@[i] == before[i]);
                        assert(packed_bit(before[i]@, j) == part(i / m as int, i % m as int, j));
                    } else {
                        assert(packed_bit(table@, j) == part(a as int, b as int, j));
                    }
                }
            }
            b = b + 1;
        }
        assert((a + 1) * m == a * m + m) by (nonlinear_arith);
        a = a + 1;
    }
    let sum = weighted_evaluations(&tables, &pairs, point);
    proof {
        let f = |k: int|
            fmul(
                pairs@[k],
                mle(bit_table(leading_bits(tables@[k]@, pow2(point@.len()))), point@),
            );
        assert forall|i: int|
            0 <= i < weights@.len() * weights@.len() implies #[trigger] f(i) == fmul(
            fmul(weights@[i / weights@.len() as int], weights@[i % weights@.len() as int]),
            mle(
                table_of(
                    |j: int| part(i / weights@.len() as int, i % weights@.len() as int, j),
                    half,
                ),
                point@,
            ),
        ) by {
            assert(bit_table(leading_bits(tables@[i]@, half)) =~= table_of(
                |j: int| part(i / weights@.len() as int, i % weights@.len() as int, j),
                half,
            ));
        }
        lemma_pair_sum_is(part, weights@, half, point@, f);
    }
    sum
}

/// One round message of a layer from packed bits, after the prefix.
pub fn packed_round(x: &[bool], d: &[bool], mi: bool, rho: &[F128], prefix: &[F128]) -> (evals: [F128;
    4])
    requires
        prefix@.len() < rho@.len(),
        prefix@.len() <= 2,
        x@.len() == pow2(rho@.len()),
        d@.len() == x@.len(),
    ensures
        evals@ == layer_evals(
            fold_all(eq_list(rho@), prefix@),
            fold_all(bit_table(x@), prefix@),
            fold_all(bit_table(d@), prefix@),
            mi,
        ),
{
    let k: usize = prefix.len();
    let n: usize = rho.len();
    let total: usize = x.len();
    proof {
        lemma2_to64();
        lemma_pow2_adds(prefix@.len(), (n - k) as nat);
        lemma_pow2_unfold((n - k) as nat);
        lemma_pow2_strictly_increases((n - k - 1) as nat, n as nat);
        lemma_pow2_pos((n - k - 1) as nat);
    }
    let weights = eq_table(prefix);
    let corners: usize = weights.len();
    let point = copy_table(slice_subrange(rho, k + 1, n));
    let half: usize = crate::hash_to_point_slots::setup::power_of_two(n - k - 1);
    assert(point@ =~= rho@.skip(k + 1));
    let xs = split_parts(x, half, corners);
    let ds = split_parts(d, half, corners);
    let ghost bits = if mi {
        x@
    } else {
        d@
    };
    let linear = if mi {
        &xs
    } else {
        &ds
    };
    proof {
        assert forall|a: int| 0 <= a < corners implies 128 * (#[trigger] linear.diff@[a])@.len()
            >= half by {
            assert(linear.low@[a]@.len() == word_count(half as int));
        }
    }
    let l0 = linear_value(
        &linear.low,
        &weights,
        &point,
        Ghost(|a: int, j: int| low_bit(bits, half as int, a, j)),
    );
    let l1 = linear_value(
        &linear.diff,
        &weights,
        &point,
        Ghost(|a: int, j: int| diff_bit(bits, half as int, a, j)),
    );
    let p0 = product_value(&xs, &ds, 0, &weights, &point, Ghost((x@, d@)));
    let p1 = product_value(&xs, &ds, 1, &weights, &point, Ghost((x@, d@)));
    let p2 = product_value(&xs, &ds, 2, &weights, &point, Ghost((x@, d@)));
    let constant = if mi {
        F128::one()
    } else {
        F128::zero()
    };
    let q0 = constant + l0 + p0;
    let q1 = l1 + p1;
    let q2 = p2;
    proof {
        lemma_fadd_zero(l1);
        lemma_fadd_zero(fzero());
        lemma_fadd_zero(p2);
        let w = Seq::new(pow2(prefix@.len()), |a: int| eq_weight(prefix@, a));
        assert(weights@ =~= w);
        assert(q0 == round_coefficient(x@, d@, mi, half as nat, w, point@, 0));
        assert(q1 == round_coefficient(x@, d@, mi, half as nat, w, point@, 1));
        assert(q2 == round_coefficient(x@, d@, mi, half as nat, w, point@, 2));
    }
    let head = slice_subrange(rho, 0, k);
    let eq_prefix = eq_at(head, prefix);
    assert(head@ =~= rho@.take(k as int));
    let r = rho[k];
    let e0 = eq_prefix * (F128::one() + r + small(0)) * (q0 + small(0) * q1 + small(0) * small(0)
        * q2);
    let e1 = eq_prefix * (F128::one() + r + small(1)) * (q0 + small(1) * q1 + small(1) * small(1)
        * q2);
    let e2 = eq_prefix * (F128::one() + r + small(2)) * (q0 + small(2) * q1 + small(2) * small(2)
        * q2);
    let e3 = eq_prefix * (F128::one() + r + small(3)) * (q0 + small(3) * q1 + small(3) * small(3)
        * q2);
    let evals: [F128; 4] = [e0, e1, e2, e3];
    proof {
        lemma_packed_value(x@, d@, mi, rho@, prefix@, node(0));
        lemma_packed_value(x@, d@, mi, rho@, prefix@, node(1));
        lemma_packed_value(x@, d@, mi, rho@, prefix@, node(2));
        lemma_packed_value(x@, d@, mi, rho@, prefix@, node(3));
        assert(evals@ =~= layer_evals(
            fold_all(eq_list(rho@), prefix@),
            fold_all(bit_table(x@), prefix@),
            fold_all(bit_table(d@), prefix@),
            mi,
        ));
    }
    evals
}

} // verus!
