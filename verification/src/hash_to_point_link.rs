//! The word linkage: the candidate words of the slot blocks are the squeeze
//! stream of the sponge.
//!
//! For record `rec`, squeeze block `q` (nine of them), word `w` (68 per block)
//! and bit `b`, word bit `b` of slot `68 q + w`, which stands in plane `1 + b`,
//! is the state bit `16 w + (b xor 8)` of the output of permutation `1 + q`.
//! Under powers of four challenges both sides collapse to weighted sums of
//! openings; the ranges that are not aligned powers of two, the word planes
//! among them, are cut into aligned pieces.
use vstd::arithmetic::power2::{
    lemma2_to64, lemma_pow2_adds, lemma_pow2_pos, lemma_pow2_strictly_increases, lemma_pow2_unfold,
    pow2,
};
use vstd::prelude::*;

use crate::field::{
    fadd, fmul, fone, fzero, lemma_fadd_cancel, lemma_fadd_self, lemma_fadd_zero, lemma_fmul_assoc,
    lemma_fmul_comm, lemma_fmul_distr, lemma_fmul_one, F128,
};
use crate::frobenius::{finv, frob, lemma_finv, lemma_no_zero_divisors, lemma_square_sum};
use crate::hash_to_point_scatter::power_sum::{
    derived_point, derived_scale, power_sum_defined, power_sum_point,
};
use crate::hash_to_point_slots::relation::nat_bit;
use crate::hash_to_point_slots::setup::power_of_two;
use crate::hash_to_point_slots::X;
use crate::hash_to_point_hybrid::point_views;
use crate::hash_to_point_sponge::chaining::bit_point;
use crate::hash_to_point_sponge::gather::{bit_extension, covers_point, gather_eval_many};
use crate::mle::{bit_element, bit_value, copy_table};
use crate::prover::append;
use crate::sums::{fpow, fsum, lemma_fpow_add, lemma_fpow_mul};

pub mod composed;
pub mod consistency;
pub mod linkage;
pub mod single_root;

verus! {

/// Squeeze blocks of a record.
pub const SQUEEZES: usize = 9;

/// Words of a squeeze block.
pub const BLOCK_WORDS: usize = 68;

// ---------------------------------------------------------------------------
// Aligned pieces.
// ---------------------------------------------------------------------------

/// An aligned run of `2^k` from `base` that ends by `end`.
pub open spec fn piece_fits(base: int, k: nat, end: int) -> bool {
    base % (pow2(k) as int) == 0 && base + pow2(k) <= end
}

/// The largest aligned run from `base` that ends by `end`.
pub open spec fn piece_log(base: int, end: int) -> nat {
    choose|k: nat| #[trigger] piece_fits(base, k, end) && !piece_fits(base, k + 1, end)
}

/// The greedy decomposition of `[start, end)` into aligned runs.
pub open spec fn pieces_of(start: int, end: int) -> Seq<(int, nat)>
    decreases end - start,
{
    let k = piece_log(start, end);
    if start >= end || pow2(k) > end - start {
        seq![]
    } else {
        proof {
            lemma_pow2_pos(k);
        }
        seq![(start, k)] + pieces_of(start + pow2(k), end)
    }
}

/// A run that fits has all shorter ones.
proof fn lemma_shorter_fits(base: int, k: nat, j: nat, end: int)
    requires
        piece_fits(base, k, end),
        j <= k,
    ensures
        piece_fits(base, j, end),
{
    lemma_pow2_adds((k - j) as nat, j);
    lemma_pow2_pos(j);
    lemma_pow2_pos(k);
    let (p, q) = (pow2(j) as int, pow2((k - j) as nat) as int);
    lemma_pow2_pos((k - j) as nat);
    vstd::arithmetic::div_mod::lemma_fundamental_div_mod(base, pow2(k) as int);
    let c = base / pow2(k) as int;
    assert(base == (c * q) * p + 0) by (nonlinear_arith)
        requires
            base == pow2(k) * c + 0,
            pow2(k) == q * p,
    ;
    vstd::arithmetic::div_mod::lemma_fundamental_div_mod_converse(base, p, c * q, 0);
    assert(p <= pow2(k)) by (nonlinear_arith)
        requires
            pow2(k) == q * p,
            1 <= q,
            0 < p,
    ;
}

/// The largest run is unique.
proof fn lemma_piece_log(base: int, end: int, k: nat)
    requires
        piece_fits(base, k, end),
        !piece_fits(base, k + 1, end),
    ensures
        piece_log(base, end) == k,
{
    let j = piece_log(base, end);
    if j < k {
        lemma_shorter_fits(base, k, j + 1, end);
    } else if k < j {
        lemma_shorter_fits(base, j, k + 1, end);
    }
}

/// Cut `[start, end)` greedily into runs `(base, k)` with `base` a multiple of
/// `2^k` and `base + 2^k` at most `end`.
pub fn aligned_pieces(start: usize, end: usize) -> (pieces: Vec<(usize, usize)>)
    ensures
        pieces@.len() == pieces_of(start as int, end as int).len(),
        forall|i: int|
            0 <= i < pieces@.len() ==> (#[trigger] pieces@[i]).0 == pieces_of(
                start as int,
                end as int,
            )[i].0 && pieces@[i].1 == pieces_of(start as int, end as int)[i].1,
        forall|i: int|
            0 <= i < pieces@.len() ==> {
                let (base, k) = #[trigger] pieces@[i];
                &&& base as int % pow2(k as nat) as int == 0
                &&& base + pow2(k as nat) <= end
                &&& base as int % pow2((k + 1) as nat) as int != 0 || base + pow2((k + 1) as nat)
                    > end
            },
{
    let mut pieces: Vec<(usize, usize)> = Vec::new();
    let ghost all = pieces_of(start as int, end as int);
    let mut base: usize = start;
    assert(all.skip(0) =~= all);
    while base < end
        invariant
            all == pieces_of(start as int, end as int),
            pieces@.len() <= all.len(),
            all.skip(pieces@.len() as int) == pieces_of(base as int, end as int),
            base <= end || pieces@.len() == 0,
            forall|i: int|
                0 <= i < pieces@.len() ==> (#[trigger] pieces@[i]).0 == all[i].0 && pieces@[i].1
                    == all[i].1,
        decreases end - base,
    {
        let left: usize = end - base;
        let mut k: usize = 0;
        let mut size: usize = 1;
        proof {
            lemma2_to64();
        }
        while size <= left / 2 && base % (2 * size) == 0
            invariant
                base < end,
                left == end - base,
                1 <= size <= left,
                size == pow2(k as nat),
                piece_fits(base as int, k as nat, end as int),
                k < 64,
            decreases left - size,
        {
            proof {
                lemma_pow2_unfold((k + 1) as nat);
                lemma2_to64();
                if k == 63 {
                    assert(pow2(64) == 0x1_0000_0000_0000_0000);
                }
            }
            size = 2 * size;
            k = k + 1;
        }
        proof {
            lemma_pow2_unfold((k + 1) as nat);
            lemma_piece_log(base as int, end as int, k as nat);
            let rest = all.skip(pieces@.len() as int);
            assert(rest[0] == (base as int, k as nat));
            assert(rest.len() > 0);
            assert(rest.skip(1) =~= pieces_of(base + pow2(k as nat), end as int));
            assert(all.skip(pieces@.len() as int + 1) =~= rest.skip(1));
            assert(all[pieces@.len() as int] == rest[0]);
        }
        let ghost before = pieces@;
        pieces.push((base, k));
        proof {
            assert forall|i: int| 0 <= i < pieces@.len() implies (#[trigger] pieces@[i]).0
                == all[i].0 && pieces@[i].1 == all[i].1 by {
                if i < before.len() {
                    assert(pieces@[i] == before[i]);
                }
            }
        }
        base = base + size;
    }
    assert(all.skip(pieces@.len() as int).len() == 0);
    proof {
        assert forall|i: int| 0 <= i < pieces@.len() implies ({
            let (base, k) = #[trigger] pieces@[i];
            &&& base as int % pow2(k as nat) as int == 0
            &&& base + pow2(k as nat) <= end
            &&& base as int % pow2((k + 1) as nat) as int != 0 || base + pow2((k + 1) as nat) > end
        }) by {
            if start <= end {
                pieces_are_the_longest(start as int, end as int, i);
            }
        }
    }
    pieces
}

/// Each piece is the longest that can stand where it does: one twice as long
/// would not be aligned, or would not end in time.
pub proof fn pieces_are_the_longest(start: int, end: int, i: int)
    requires
        0 <= start <= end,
        0 <= i < pieces_of(start, end).len(),
    ensures
        ({
            let (base, k) = pieces_of(start, end)[i];
            &&& base % pow2(k) as int == 0
            &&& base + pow2(k) <= end
            &&& base % pow2(k + 1) as int != 0 || base + pow2(k + 1) > end
        }),
    decreases end - start,
{
    if start < end {
        let k = piece_log(start, end);
        lemma_piece_exists(start, end);
        lemma_pow2_pos(k);
        let rest = pieces_of(start + pow2(k), end);
        if i > 0 {
            assert(pieces_of(start, end)[i] == rest[i - 1]);
            pieces_are_the_longest(start + pow2(k), end, i - 1);
        }
    }
}

/// A run exists wherever there is room.
pub proof fn lemma_piece_exists(base: int, end: int)
    requires
        0 <= base < end,
    ensures
        piece_fits(base, piece_log(base, end), end),
        !piece_fits(base, piece_log(base, end) + 1, end),
{
    lemma2_to64();
    lemma_climb(base, end, 0);
}

/// Climb from a run that fits to the largest one.
proof fn lemma_climb(base: int, end: int, k: nat)
    requires
        piece_fits(base, k, end),
    ensures
        piece_fits(base, piece_log(base, end), end),
        !piece_fits(base, piece_log(base, end) + 1, end),
    decreases end - base - pow2(k),
{
    if piece_fits(base, k + 1, end) {
        lemma_pow2_strictly_increases(k, k + 1);
        lemma_climb(base, end, k + 1);
    } else {
        lemma_piece_log(base, end, k);
    }
}

/// The pieces tile their range: each is aligned, each starts where the one
/// before it ends, and the last ends where the range does.
pub proof fn pieces_tile(start: int, end: int)
    requires
        0 <= start <= end,
    ensures
        ({
            let pieces = pieces_of(start, end);
            &&& forall|i: int|
                0 <= i < pieces.len() ==> piece_fits((#[trigger] pieces[i]).0, pieces[i].1, end)
            &&& start < end ==> pieces.len() > 0 && pieces[0].0 == start
            &&& forall|i: int|
                0 <= i && i + 1 < pieces.len() ==> (#[trigger] pieces[i]).0 + pow2(pieces[i].1)
                    == pieces[i + 1].0
            &&& start < end ==> pieces.last().0 + pow2(pieces.last().1) == end
        }),
    decreases end - start,
{
    if start < end {
        let k = piece_log(start, end);
        lemma_piece_exists(start, end);
        lemma_pow2_pos(k);
        let next = start + pow2(k);
        pieces_tile(next, end);
        let pieces = pieces_of(start, end);
        let rest = pieces_of(next, end);
        assert(pieces.skip(1) =~= rest);
        assert forall|i: int| 0 <= i < pieces.len() implies piece_fits(
            (#[trigger] pieces[i]).0,
            pieces[i].1,
            end,
        ) by {
            if i > 0 {
                assert(pieces[i] == rest[i - 1]);
            }
        }
        assert forall|i: int| 0 <= i && i + 1 < pieces.len() implies (#[trigger] pieces[i]).0 + pow2(
            pieces[i].1,
        ) == pieces[i + 1].0 by {
            assert(pieces[i + 1] == rest[i]);
            if i > 0 {
                assert(pieces[i] == rest[i - 1]);
            } else if next < end {
                assert(rest[0].0 == next);
            }
        }
        if next < end {
            assert(pieces.last() == rest.last());
        } else {
            assert(rest.len() == 0);
            assert(pieces.last() == (start, k));
        }
    }
}

// ---------------------------------------------------------------------------
// Powers and weighted coordinates.
// ---------------------------------------------------------------------------

/// `base^exponent` by squaring.
pub fn pow(base: F128, exponent: usize) -> (power: F128)
    ensures
        power == fpow(base, exponent as int),
{
    let mut acc = F128::one();
    let mut cur = base;
    let mut e: usize = exponent;
    proof {
        lemma_fmul_one(fpow(base, exponent as int));
    }
    while e != 0
        invariant
            fmul(acc, fpow(cur, e as int)) == fpow(base, exponent as int),
        decreases e,
    {
        let ghost (acc0, cur0) = (acc, cur);
        let ghost half = e as int / 2;
        if e % 2 == 1 {
            acc = acc * cur;
        }
        cur = cur * cur;
        proof {
            lemma_fmul_one(cur0);
            reveal_with_fuel(fpow, 3);
            assert(fpow(cur0, 2) == fmul(cur0, cur0)) by {
                lemma_fpow_add(cur0, 1, 1);
                assert(fpow(cur0, 1) == cur0);
            }
            lemma_fpow_mul(cur0, 2, half);
            assert(fpow(cur, half) == fpow(cur0, 2 * half));
            if e % 2 == 1 {
                assert(e == 1 + 2 * half);
                lemma_fpow_add(cur0, 1, 2 * half);
                assert(fpow(cur0, 1) == cur0);
                crate::field::lemma_fmul_assoc(acc0, cur0, fpow(cur0, 2 * half));
            } else {
                assert(e == 2 * half);
            }
        }
        e = e / 2;
    }
    proof {
        lemma_fmul_one(acc);
    }
    acc
}

/// The coordinate that weighs an address bit by `w0` and `w1`, and the factor
/// that it takes out; none where the weights cancel.
pub fn weighted_coord(w0: F128, w1: F128) -> (coord: Option<(F128, F128)>)
    ensures
        match coord {
            Some((r, factor)) => fadd(w0, w1) != fzero() && factor == fadd(w0, w1) && r == fmul(
                w1,
                finv(fadd(w0, w1)),
            ),
            None => fadd(w0, w1) == fzero(),
        },
        coord matches Some((r, factor)) ==> fmul(factor, r) == w1 && fmul(factor, fadd(fone(), r))
            == w0,
{
    let sum = w0 + w1;
    if sum == F128::zero() {
        return None;
    }
    proof {
        let r = fmul(w1, finv(sum));
        lemma_finv(sum, fone());
        lemma_fmul_comm(w1, finv(sum));
        lemma_fmul_assoc(sum, finv(sum), w1);
        lemma_fmul_one(w1);
        lemma_fmul_distr(sum, fone(), r);
        lemma_fmul_one(sum);
        lemma_fadd_cancel(w1, w0);
    }
    Some((w1 * sum.inv(), sum))
}

/// The powers of one are one.
pub proof fn lemma_frob_one(b: int)
    ensures
        frob(fone(), b) == fone(),
    decreases b,
{
    if b > 0 {
        lemma_frob_one(b - 1);
        lemma_fmul_one(fone());
    }
}

/// Only one has a power `2^b` that is one.
pub proof fn lemma_frob_is_one(a: F128, b: int)
    requires
        frob(a, b) == fone(),
    ensures
        a == fone(),
    decreases b,
{
    if b > 0 {
        let r = frob(a, b - 1);
        lemma_square_sum(r, fone());
        lemma_fmul_one(fone());
        lemma_fadd_self(fone());
        lemma_no_zero_divisors(fadd(r, fone()), fadd(r, fone()));
        lemma_fadd_cancel(fone(), r);
        lemma_fadd_zero(fone());
        assert(r == fone());
        lemma_frob_is_one(a, b - 1);
    }
}

/// A power sum over some bits is defined unless the base is one.
pub proof fn lemma_power_sum_defined(base: F128, bits: int)
    requires
        0 <= bits,
    ensures
        power_sum_defined(base, bits) <==> (bits == 0 || base != fone()),
{
    if base != fone() {
        assert forall|b: int| 0 <= b < bits implies #[trigger] frob(base, b) != fone() by {
            if frob(base, b) == fone() {
                lemma_frob_is_one(base, b);
            }
        }
    } else if bits > 0 {
        assert(frob(base, 0) == fone());
    }
}

/// Append the bits `low..high` of a number, most significant first.
pub fn push_bits(point: &mut Vec<F128>, value: usize, high: usize, low: usize)
    requires
        low <= high <= 32,
    ensures
        final(point)@ == old(point)@ + bit_point(
            value as int / pow2(low as nat) as int,
            (high - low) as nat,
        ),
{
    let ghost start = point@;
    let ghost bits = bit_point(value as int / pow2(low as nat) as int, (high - low) as nat);
    let mut i: usize = high;
    assert(point@ =~= start + bits.take(0));
    while i > low
        invariant
            low <= i <= high,
            high <= 32,
            bits == bit_point(value as int / pow2(low as nat) as int, (high - low) as nat),
            point@ == start + bits.take(high - i),
        decreases i,
    {
        i = i - 1;
        proof {
            lemma2_to64();
            lemma_pow2_adds(low as nat, (i - low) as nat);
            lemma_pow2_pos(low as nat);
            lemma_pow2_pos((i - low) as nat);
            vstd::arithmetic::div_mod::lemma_div_denominator(
                value as int,
                pow2(low as nat) as int,
                pow2((i - low) as nat) as int,
            );
            lemma_pow2_strictly_increases(i as nat, 32);
            lemma_pow2_pos(i as nat);
        }
        let set = (value / power_of_two(i)) % 2 == 1;
        assert(set == nat_bit(value as int, i as int));
        assert(bits[high - 1 - i] == bit_value(
            nat_bit(value as int / pow2(low as nat) as int, i - low),
        ));
        point.push(bit_element(set));
        assert(point@ =~= start + bits.take(high - i));
    }
    assert(bits.take(high - low) =~= bits);
}

/// The record coordinates under powers of `delta`, most significant first, and
/// their scale.
pub fn record_coords(record_vars: usize, delta: F128) -> (coords: Option<(Vec<F128>, F128)>)
    ensures
        match coords {
            Some((point, scale)) => {
                &&& record_vars == 0 || delta != fone()
                &&& point@ == derived_point(delta, record_vars as nat)
                &&& scale == derived_scale(delta, record_vars as int)
            },
            None => record_vars > 0 && delta == fone(),
        },
{
    proof {
        lemma_power_sum_defined(delta, record_vars as int);
    }
    power_sum_point(delta, record_vars)
}

// ---------------------------------------------------------------------------
// The claims.
// ---------------------------------------------------------------------------

/// A weighted claim: an opening point, and the coefficient of its value.
#[derive(Clone, Debug)]
pub struct LinkClaim {
    pub point: Vec<F128>,
    pub coefficient: F128,
}

/// The claims' points and coefficients.
pub open spec fn claim_views(claims: Seq<LinkClaim>) -> Seq<(Seq<F128>, F128)> {
    Seq::new(claims.len(), |i: int| (claims[i].point@, claims[i].coefficient))
}

/// The aligned pieces of the sixteen word planes.
pub open spec fn word_planes() -> Seq<(int, nat)> {
    pieces_of(X as int, X + 16)
}

/// The slot-side claim of the slots `(base, k)` of squeeze block `q` in the
/// word planes `(plane, h)`: the records, the planes, and the slots.
pub open spec fn slot_claim(
    record_vars: nat,
    delta: F128,
    nu: F128,
    mu: F128,
    gamma: F128,
    q: int,
    base: int,
    k: nat,
    plane: int,
    h: nat,
) -> (Seq<F128>, F128) {
    (
        derived_point(delta, record_vars) + (bit_point(plane / pow2(h) as int, (7 - h) as nat) + (
        derived_point(gamma, h) + (bit_point(base / pow2(k) as int, (10 - k) as nat)
            + derived_point(mu, k)))),
        fmul(
            fmul(fmul(fpow(nu, q), fpow(mu, base - 68 * q)), fpow(gamma, plane - X)),
            fmul(
                fmul(derived_scale(delta, record_vars as int), derived_scale(gamma, h as int)),
                derived_scale(mu, k as int),
            ),
        ),
    )
}

/// The claims of the slots `(base, k)` in the first `n` pieces of the word
/// planes.
pub open spec fn slot_piece_claims(
    record_vars: nat,
    delta: F128,
    nu: F128,
    mu: F128,
    gamma: F128,
    q: int,
    base: int,
    k: nat,
    n: int,
) -> Seq<(Seq<F128>, F128)> {
    Seq::new(
        n as nat,
        |j: int|
            slot_claim(
                record_vars,
                delta,
                nu,
                mu,
                gamma,
                q,
                base,
                k,
                word_planes()[j].0,
                word_planes()[j].1,
            ),
    )
}

/// The claims of the first `n` pieces of squeeze block `q`.
pub open spec fn slot_block_claims(
    record_vars: nat,
    delta: F128,
    nu: F128,
    mu: F128,
    gamma: F128,
    q: int,
    n: int,
) -> Seq<(Seq<F128>, F128)>
    decreases n,
{
    if n <= 0 {
        seq![]
    } else {
        let (base, k) = pieces_of(68 * q, 68 * q + 68)[n - 1];
        slot_block_claims(record_vars, delta, nu, mu, gamma, q, n - 1) + slot_piece_claims(
            record_vars,
            delta,
            nu,
            mu,
            gamma,
            q,
            base,
            k,
            word_planes().len() as int,
        )
    }
}

/// The slot-side claims of the first `n` squeeze blocks.
pub open spec fn slot_claims(
    record_vars: nat,
    delta: F128,
    nu: F128,
    mu: F128,
    gamma: F128,
    n: int,
) -> Seq<(Seq<F128>, F128)>
    decreases n,
{
    if n <= 0 {
        seq![]
    } else {
        slot_claims(record_vars, delta, nu, mu, gamma, n - 1) + slot_block_claims(
            record_vars,
            delta,
            nu,
            mu,
            gamma,
            n - 1,
            pieces_of(68 * (n - 1), 68 * (n - 1) + 68).len() as int,
        )
    }
}

/// A piece of the word planes has at most eight planes.
pub proof fn lemma_plane_piece(j: int)
    requires
        0 <= j < word_planes().len(),
    ensures
        ({
            let (plane, h) = word_planes()[j];
            &&& X <= plane
            &&& plane + pow2(h) <= X + 16
            &&& h <= 3
            &&& plane % (pow2(h) as int) == 0
        }),
{
    lemma2_to64();
    pieces_tile(X as int, X + 16);
    lemma_pieces_from(X as int, X + 16, j);
    let (plane, h) = word_planes()[j];
    assert(piece_fits(plane, h, X + 16));
    if h > 3 {
        if h > 4 {
            lemma_pow2_strictly_increases(4, h);
        }
        assert(plane < pow2(h));
        vstd::arithmetic::div_mod::lemma_small_mod(plane as nat, pow2(h));
    }
}

/// A piece of a squeeze block has at most 64 words.
pub proof fn lemma_block_piece(q: int, i: int)
    requires
        0 <= q < 9,
        0 <= i < pieces_of(68 * q, 68 * q + 68).len(),
    ensures
        ({
            let (base, k) = pieces_of(68 * q, 68 * q + 68)[i];
            &&& 68 * q <= base
            &&& base + pow2(k) <= 68 * q + 68
            &&& k <= 6
            &&& base % (pow2(k) as int) == 0
        }),
{
    lemma2_to64();
    let pieces = pieces_of(68 * q, 68 * q + 68);
    pieces_tile(68 * q, 68 * q + 68);
    lemma_pieces_from(68 * q, 68 * q + 68, i);
    let (base, k) = pieces[i];
    assert(piece_fits(base, k, 68 * q + 68));
    if k > 6 {
        if k > 7 {
            lemma_pow2_strictly_increases(7, k);
        }
    }
}

/// Every piece starts in its range.
pub proof fn lemma_pieces_from(start: int, end: int, i: int)
    requires
        0 <= start <= end,
        0 <= i < pieces_of(start, end).len(),
    ensures
        start <= pieces_of(start, end)[i].0,
    decreases i,
{
    pieces_tile(start, end);
    if i > 0 {
        lemma_pieces_from(start, end, i - 1);
        assert(pieces_of(start, end)[i - 1].0 + pow2(pieces_of(start, end)[i - 1].1) == pieces_of(
            start,
            end,
        )[i].0);
    }
}

/// Every squeeze block starts with a piece of more than one word.
proof fn lemma_first_piece(q: int)
    requires
        0 <= q < 9,
    ensures
        pieces_of(68 * q, 68 * q + 68).len() > 0,
        pieces_of(68 * q, 68 * q + 68)[0].1 >= 2,
{
    lemma2_to64();
    let (start, end) = (68 * q, 68 * q + 68);
    lemma_piece_exists(start, end);
    pieces_tile(start, end);
    let k = piece_log(start, end);
    assert(piece_fits(start, 2, end)) by {
        assert(start % 4 == 0);
    }
    if k < 2 {
        lemma_shorter_fits(start, 2, k + 1, end);
    }
}

/// Append the claims of the slots `(base, k)` of squeeze block `q`.
fn push_piece_claims(
    claims: &mut Vec<LinkClaim>,
    record_vars: Ghost<nat>,
    delta: Ghost<F128>,
    record: (&Vec<F128>, F128),
    nu: F128,
    mu: F128,
    gamma: F128,
    q: usize,
    base: usize,
    k: usize,
)
    requires
        record.0@ == derived_point(delta@, record_vars@),
        record.1 == derived_scale(delta@, record_vars@ as int),
        mu != fone(),
        gamma != fone(),
        q < 9,
        68 * q <= base < 1024,
        k <= 6,
    ensures
        claim_views(final(claims)@) == claim_views(old(claims)@) + slot_piece_claims(
            record_vars@,
            delta@,
            nu,
            mu,
            gamma,
            q as int,
            base as int,
            k as nat,
            word_planes().len() as int,
        ),
{
    let planes = aligned_pieces(X, X + 16);
    let ghost all = word_planes();
    let ghost before = claim_views(claims@);
    proof {
        lemma_power_sum_defined(mu, k as int);
    }
    let (slot_coords, slot_scale) = match power_sum_point(mu, k) {
        Some(c) => c,
        None => {
            return;
        },
    };
    let mut j: usize = 0;
    assert(claim_views(claims@) =~= before + slot_piece_claims(
        record_vars@,
        delta@,
        nu,
        mu,
        gamma,
        q as int,
        base as int,
        k as nat,
        0,
    ));
    while j < planes.len()
        invariant
            record.0@ == derived_point(delta@, record_vars@),
            record.1 == derived_scale(delta@, record_vars@ as int),
            gamma != fone(),
            q < 9,
            68 * q <= base < 1024,
            k <= 6,
            slot_coords@ == derived_point(mu, k as nat),
            slot_scale == derived_scale(mu, k as int),
            all == word_planes(),
            planes@.len() == all.len(),
            forall|i: int|
                0 <= i < planes@.len() ==> (#[trigger] planes@[i]).0 == all[i].0 && planes@[i].1
                    == all[i].1,
            j <= planes@.len(),
            claim_views(claims@) == before + slot_piece_claims(
                record_vars@,
                delta@,
                nu,
                mu,
                gamma,
                q as int,
                base as int,
                k as nat,
                j as int,
            ),
        decreases planes@.len() - j,
    {
        let (plane, h) = planes[j];
        proof {
            lemma_plane_piece(j as int);
            lemma_power_sum_defined(gamma, h as int);
        }
        let (plane_coords, plane_scale) = match power_sum_point(gamma, h) {
            Some(c) => c,
            None => {
                return;
            },
        };
        let mut point = copy_table(record.0.as_slice());
        push_bits(&mut point, plane, 7, h);
        append(&mut point, plane_coords.as_slice());
        push_bits(&mut point, base, 10, k);
        append(&mut point, slot_coords.as_slice());
        let coefficient = pow(nu, q) * pow(mu, base - 68 * q) * pow(gamma, plane - X) * (record.1
            * plane_scale * slot_scale);
        let ghost was = claim_views(claims@);
        proof {
            let view = slot_claim(
                record_vars@,
                delta@,
                nu,
                mu,
                gamma,
                q as int,
                base as int,
                k as nat,
                plane as int,
                h as nat,
            );
            assert(point@ =~= view.0);
            assert(coefficient == view.1);
        }
        claims.push(LinkClaim { point, coefficient });
        j = j + 1;
        assert(claim_views(claims@) =~= was.push((point@, coefficient)));
        assert(claim_views(claims@) =~= before + slot_piece_claims(
            record_vars@,
            delta@,
            nu,
            mu,
            gamma,
            q as int,
            base as int,
            k as nat,
            j as int,
        ));
    }
}

/// The slot-side claims: for each squeeze block, one opening per aligned piece
/// of its slots and aligned piece of the sixteen word planes. There are none
/// where a challenge is one.
pub fn slot_link_claims(record_vars: usize, delta: F128, nu: F128, mu: F128, gamma: F128) -> (claims:
    Option<Vec<LinkClaim>>)
    ensures
        match claims {
            Some(list) => {
                &&& record_vars == 0 || delta != fone()
                &&& mu != fone() && gamma != fone()
                &&& claim_views(list@) == slot_claims(
                    record_vars as nat,
                    delta,
                    nu,
                    mu,
                    gamma,
                    9,
                )
            },
            None => (record_vars > 0 && delta == fone()) || mu == fone() || gamma == fone(),
        },
{
    let (rec_coords, rec_scale) = match record_coords(record_vars, delta) {
        Some(c) => c,
        None => {
            return None;
        },
    };
    if mu == F128::one() || gamma == F128::one() {
        return None;
    }
    let mut claims: Vec<LinkClaim> = Vec::new();
    let mut q: usize = 0;
    assert(claim_views(claims@) =~= slot_claims(record_vars as nat, delta, nu, mu, gamma, 0));
    while q < 9
        invariant
            q <= 9,
            record_vars == 0 || delta != fone(),
            gamma != fone(),
            mu != fone(),
            rec_coords@ == derived_point(delta, record_vars as nat),
            rec_scale == derived_scale(delta, record_vars as int),
            claim_views(claims@) == slot_claims(
                record_vars as nat,
                delta,
                nu,
                mu,
                gamma,
                q as int,
            ),
        decreases 9 - q,
    {
        let pieces = aligned_pieces(68 * q, 68 * q + 68);
        let ghost all = pieces_of(68 * q, 68 * q + 68);
        let ghost before = claim_views(claims@);
        let mut i: usize = 0;
        assert(claim_views(claims@) =~= before + slot_block_claims(
            record_vars as nat,
            delta,
            nu,
            mu,
            gamma,
            q as int,
            0,
        ));
        while i < pieces.len()
            invariant
                q < 9,
                all == pieces_of(68 * q, 68 * q + 68),
                pieces@.len() == all.len(),
                forall|j: int|
                    0 <= j < pieces@.len() ==> (#[trigger] pieces@[j]).0 == all[j].0 && pieces@[j].1
                        == all[j].1,
                i <= pieces@.len(),
                gamma != fone(),
                mu != fone(),
                rec_coords@ == derived_point(delta, record_vars as nat),
                rec_scale == derived_scale(delta, record_vars as int),
                claim_views(claims@) == before + slot_block_claims(
                    record_vars as nat,
                    delta,
                    nu,
                    mu,
                    gamma,
                    q as int,
                    i as int,
                ),
            decreases pieces@.len() - i,
        {
            let (base, k) = pieces[i];
            proof {
                lemma_block_piece(q as int, i as int);
                lemma_pow2_pos(k as nat);
            }
            let ghost was = claim_views(claims@);
            push_piece_claims(
                &mut claims,
                Ghost(record_vars as nat),
                Ghost(delta),
                (&rec_coords, rec_scale),
                nu,
                mu,
                gamma,
                q,
                base,
                k,
            );
            i = i + 1;
            assert(claim_views(claims@) =~= before + slot_block_claims(
                record_vars as nat,
                delta,
                nu,
                mu,
                gamma,
                q as int,
                i as int,
            ));
        }
        q = q + 1;
        assert(claim_views(claims@) =~= slot_claims(
            record_vars as nat,
            delta,
            nu,
            mu,
            gamma,
            q as int,
        ));
    }
    Some(claims)
}

/// The weight of position bits `p`: the byte swap complements bit three.
pub open spec fn position_coords(gamma: F128) -> Seq<F128> {
    seq![fmul(fone(), finv(fadd(fpow(gamma, 8), fone())))] + derived_point(gamma, 3)
}

/// The scale of the position coordinates.
pub open spec fn position_scale(gamma: F128) -> F128 {
    fmul(fadd(fpow(gamma, 8), fone()), derived_scale(gamma, 3))
}

/// The runs of the source permutations `1..=9`, as blocks of a fixed third of
/// the sponge block: the third, the first block, and the free block bits.
pub open spec fn source_piece(p: int) -> (int, int, nat) {
    if p == 0 {
        (0, 1, 0)
    } else if p == 1 {
        (0, 2, 1)
    } else if p == 2 {
        (1, 0, 2)
    } else {
        (2, 0, 1)
    }
}

/// The sponge-side claim of source run `p` and the words `(base, k)`.
pub open spec fn keccak_claim(
    record_vars: nat,
    delta: F128,
    nu: F128,
    mu: F128,
    gamma: F128,
    p: int,
    base: int,
    k: nat,
) -> (Seq<F128>, F128) {
    let (third, block, free) = source_piece(p);
    (
        derived_point(delta, record_vars) + (bit_point(
            block / pow2(free) as int,
            (2 - free) as nat,
        ) + (derived_point(nu, free) + (bit_point(2 * third + 1, 6) + (bit_point(
            base / pow2(k) as int,
            (7 - k) as nat,
        ) + (derived_point(mu, k) + position_coords(gamma)))))),
        fmul(
            fmul(fpow(nu, 4 * third + block - 1), fpow(mu, base)),
            fmul(
                fmul(
                    fmul(derived_scale(delta, record_vars as int), position_scale(gamma)),
                    derived_scale(nu, free as int),
                ),
                derived_scale(mu, k as int),
            ),
        ),
    )
}

/// The claims of the first `n` word pieces of source run `p`.
pub open spec fn keccak_run_claims(
    record_vars: nat,
    delta: F128,
    nu: F128,
    mu: F128,
    gamma: F128,
    p: int,
    n: int,
) -> Seq<(Seq<F128>, F128)> {
    let pieces = pieces_of(0, 68);
    Seq::new(
        n as nat,
        |i: int| keccak_claim(record_vars, delta, nu, mu, gamma, p, pieces[i].0, pieces[i].1),
    )
}

/// The sponge-side claims of the first `n` source runs.
pub open spec fn keccak_claims(
    record_vars: nat,
    delta: F128,
    nu: F128,
    mu: F128,
    gamma: F128,
    n: int,
) -> Seq<(Seq<F128>, F128)>
    decreases n,
{
    if n <= 0 {
        seq![]
    } else {
        keccak_claims(record_vars, delta, nu, mu, gamma, n - 1) + keccak_run_claims(
            record_vars,
            delta,
            nu,
            mu,
            gamma,
            n - 1,
            pieces_of(0, 68).len() as int,
        )
    }
}

/// The eighth power of a base is one only where the base is.
pub proof fn lemma_eighth_power(gamma: F128)
    ensures
        fpow(gamma, 8) == frob(gamma, 3),
        fadd(fpow(gamma, 8), fone()) == fzero() <==> gamma == fone(),
{
    reveal_with_fuel(frob, 4);
    lemma_fpow_add(gamma, 1, 1);
    lemma_fpow_add(gamma, 2, 2);
    lemma_fpow_add(gamma, 4, 4);
    reveal_with_fuel(fpow, 2);
    lemma_fmul_one(gamma);
    assert(fpow(gamma, 1) == gamma);
    if gamma == fone() {
        lemma_frob_one(3);
        lemma_fadd_self(fone());
    } else {
        if fadd(fpow(gamma, 8), fone()) == fzero() {
            lemma_fadd_cancel(fone(), fpow(gamma, 8));
            lemma_fadd_zero(fone());
            lemma_frob_is_one(gamma, 3);
        }
    }
}

/// The sponge-side claims: the source permutations as four runs, the words in
/// aligned pieces, and the position bits under the byte-swapped weights.
/// There are none where a challenge is one.
pub fn keccak_link_claims(record_vars: usize, delta: F128, nu: F128, mu: F128, gamma: F128) -> (
    claims: Option<Vec<LinkClaim>>)
    ensures
        match claims {
            Some(list) => {
                &&& record_vars == 0 || delta != fone()
                &&& nu != fone() && mu != fone() && gamma != fone()
                &&& claim_views(list@) == keccak_claims(
                    record_vars as nat,
                    delta,
                    nu,
                    mu,
                    gamma,
                    4,
                )
            },
            None => (record_vars > 0 && delta == fone()) || nu == fone() || mu == fone() || gamma
                == fone(),
        },
{
    let (rec_coords, rec_scale) = match record_coords(record_vars, delta) {
        Some(c) => c,
        None => {
            return None;
        },
    };
    proof {
        lemma_power_sum_defined(gamma, 3);
        lemma_eighth_power(gamma);
    }
    let (swap_coord, swap_scale) = match weighted_coord(pow(gamma, 8), F128::one()) {
        Some(c) => c,
        None => {
            return None;
        },
    };
    let (low_coords, low_scale) = match power_sum_point(gamma, 3) {
        Some(c) => c,
        None => {
            return None;
        },
    };
    let mut pos_coords: Vec<F128> = Vec::new();
    pos_coords.push(swap_coord);
    append(&mut pos_coords, low_coords.as_slice());
    assert(pos_coords@ =~= position_coords(gamma));
    let pos_scale = swap_scale * low_scale;
    let pieces = aligned_pieces(0, 68);
    let ghost all = pieces_of(0, 68);
    let mut claims: Vec<LinkClaim> = Vec::new();
    let mut p: usize = 0;
    assert(claim_views(claims@) =~= keccak_claims(record_vars as nat, delta, nu, mu, gamma, 0));
    while p < 4
        invariant
            p <= 4,
            record_vars == 0 || delta != fone(),
            gamma != fone(),
            p > 0 ==> mu != fone(),
            p > 1 ==> nu != fone(),
            rec_coords@ == derived_point(delta, record_vars as nat),
            rec_scale == derived_scale(delta, record_vars as int),
            pos_coords@ == position_coords(gamma),
            pos_scale == position_scale(gamma),
            all == pieces_of(0, 68),
            pieces@.len() == all.len(),
            forall|j: int|
                0 <= j < pieces@.len() ==> (#[trigger] pieces@[j]).0 == all[j].0 && pieces@[j].1
                    == all[j].1,
            claim_views(claims@) == keccak_claims(
                record_vars as nat,
                delta,
                nu,
                mu,
                gamma,
                p as int,
            ),
        decreases 4 - p,
    {
        let (third, block, free): (usize, usize, usize) = if p == 0 {
            (0, 1, 0)
        } else if p == 1 {
            (0, 2, 1)
        } else if p == 2 {
            (1, 0, 2)
        } else {
            (2, 0, 1)
        };
        let ghost before = claim_views(claims@);
        let mut i: usize = 0;
        assert(claim_views(claims@) =~= before + keccak_run_claims(
            record_vars as nat,
            delta,
            nu,
            mu,
            gamma,
            p as int,
            0,
        ));
        while i < pieces.len()
            invariant
                p < 4,
                source_piece(p as int) == (third as int, block as int, free as nat),
                free <= 2,
                third <= 2,
                block <= 2,
                4 * third + block >= 1,
                all == pieces_of(0, 68),
                pieces@.len() == all.len(),
                forall|j: int|
                    0 <= j < pieces@.len() ==> (#[trigger] pieces@[j]).0 == all[j].0 && pieces@[j].1
                        == all[j].1,
                i <= pieces@.len(),
                p > 0 || i > 0 ==> mu != fone(),
                p > 1 || (p > 0 && i > 0) ==> nu != fone(),
                record_vars == 0 || delta != fone(),
                gamma != fone(),
                rec_coords@ == derived_point(delta, record_vars as nat),
                rec_scale == derived_scale(delta, record_vars as int),
                pos_coords@ == position_coords(gamma),
                pos_scale == position_scale(gamma),
                claim_views(claims@) == before + keccak_run_claims(
                    record_vars as nat,
                    delta,
                    nu,
                    mu,
                    gamma,
                    p as int,
                    i as int,
                ),
            decreases pieces@.len() - i,
        {
            let (base, k) = pieces[i];
            proof {
                lemma_block_piece(0, i as int);
                lemma_first_piece(0);
                lemma_power_sum_defined(mu, k as int);
                lemma_power_sum_defined(nu, free as int);
            }
            let (block_coords, block_scale) = match power_sum_point(nu, free) {
                Some(c) => c,
                None => {
                    return None;
                },
            };
            let (word_coords, word_scale) = match power_sum_point(mu, k) {
                Some(c) => c,
                None => {
                    return None;
                },
            };
            let mut point = copy_table(rec_coords.as_slice());
            push_bits(&mut point, block, 2, free);
            append(&mut point, block_coords.as_slice());
            push_bits(&mut point, 2 * third + 1, 6, 0);
            push_bits(&mut point, base, 7, k);
            append(&mut point, word_coords.as_slice());
            append(&mut point, pos_coords.as_slice());
            let coefficient = pow(nu, 4 * third + block - 1) * pow(mu, base) * (rec_scale * pos_scale
                * block_scale * word_scale);
            let ghost was = claim_views(claims@);
            proof {
                lemma2_to64();
                let view = keccak_claim(
                    record_vars as nat,
                    delta,
                    nu,
                    mu,
                    gamma,
                    p as int,
                    base as int,
                    k as nat,
                );
                assert((2 * third + 1) / 1 == 2 * third + 1);
                assert(point@ =~= view.0);
                assert(coefficient == view.1);
            }
            claims.push(LinkClaim { point, coefficient });
            i = i + 1;
            assert(claim_views(claims@) =~= was.push((point@, coefficient)));
            assert(claim_views(claims@) =~= before + keccak_run_claims(
                record_vars as nat,
                delta,
                nu,
                mu,
                gamma,
                p as int,
                i as int,
            ));
        }
        proof {
            lemma_first_piece(0);
        }
        p = p + 1;
        assert(claim_views(claims@) =~= keccak_claims(
            record_vars as nat,
            delta,
            nu,
            mu,
            gamma,
            p as int,
        ));
    }
    Some(claims)
}

/// The weighted sum of the claims' values.
pub open spec fn claims_sum(claims: Seq<(Seq<F128>, F128)>, values: Seq<F128>) -> F128 {
    fsum(|i: int| fmul(claims[i].1, values[i]), claims.len() as int)
}

/// The weighted sum of the claims' values.
pub fn weighted_sum(claims: &[LinkClaim], values: &[F128]) -> (sum: F128)
    requires
        claims@.len() == values@.len(),
    ensures
        sum == claims_sum(claim_views(claims@), values@),
{
    let mut sum = F128::zero();
    let ghost views = claim_views(claims@);
    let ghost term = |i: int| fmul(views[i].1, values@[i]);
    let mut i: usize = 0;
    while i < claims.len()
        invariant
            claims@.len() == values@.len(),
            views == claim_views(claims@),
            term == (|i: int| fmul(views[i].1, values@[i])),
            i <= claims@.len(),
            sum == fsum(term, i as int),
        decreases claims@.len() - i,
    {
        sum = sum + claims[i].coefficient * values[i];
        i = i + 1;
    }
    sum
}

// ---------------------------------------------------------------------------
// Proving and verifying.
// ---------------------------------------------------------------------------

/// The claimed values of both sides.
#[derive(Clone, Debug)]
pub struct LinkProof {
    pub slot_values: Vec<F128>,
    pub keccak_values: Vec<F128>,
}

/// The claims' points.
pub open spec fn claim_points(claims: Seq<(Seq<F128>, F128)>) -> Seq<Seq<F128>> {
    Seq::new(claims.len(), |i: int| claims[i].0)
}

/// The claims' points.
fn points_of(claims: &[LinkClaim]) -> (points: Vec<Vec<F128>>)
    ensures
        point_views(points@) == claim_points(claim_views(claims@)),
{
    let mut points: Vec<Vec<F128>> = Vec::with_capacity(claims.len());
    let ghost target = claim_points(claim_views(claims@));
    let mut i: usize = 0;
    assert(point_views(points@) =~= target.take(0));
    while i < claims.len()
        invariant
            target == claim_points(claim_views(claims@)),
            i <= claims@.len(),
            point_views(points@) == target.take(i as int),
        decreases claims@.len() - i,
    {
        let ghost before = points@;
        points.push(copy_table(claims[i].point.as_slice()));
        assert(point_views(points@) =~= point_views(before).push(target[i as int]));
        i = i + 1;
        assert(point_views(points@) =~= target.take(i as int));
    }
    assert(target.take(i as int) =~= target);
    points
}

/// No linkage challenge is one, where it is used.
pub open spec fn challenges_regular(
    record_vars: int,
    delta: F128,
    nu: F128,
    mu: F128,
    gamma: F128,
) -> bool {
    &&& record_vars == 0 || delta != fone()
    &&& nu != fone()
    &&& mu != fone()
    &&& gamma != fone()
}

/// The openings of both sides' claims on the packed witnesses, and the claims'
/// points.
pub fn prove_link_claims(
    slot_record_vars: usize,
    keccak_record_vars: usize,
    slot_z_packed: &[F128],
    keccak_z_packed: &[F128],
    delta: F128,
    nu: F128,
    mu: F128,
    gamma: F128,
) -> (proved: (LinkProof, Vec<Vec<F128>>, Vec<Vec<F128>>))
    requires
        challenges_regular(slot_record_vars as int, delta, nu, mu, gamma),
        challenges_regular(keccak_record_vars as int, delta, nu, mu, gamma),
        pow2((slot_record_vars + 17) as nat) <= usize::MAX,
        pow2((keccak_record_vars + 19) as nat) <= usize::MAX,
        128 * slot_z_packed@.len() >= pow2((slot_record_vars + 17) as nat),
        128 * keccak_z_packed@.len() >= pow2((keccak_record_vars + 19) as nat),
    ensures
        ({
            let slots = slot_claims(slot_record_vars as nat, delta, nu, mu, gamma, 9);
            let states = keccak_claims(keccak_record_vars as nat, delta, nu, mu, gamma, 4);
            &&& point_views(proved.1@) == claim_points(slots)
            &&& point_views(proved.2@) == claim_points(states)
            &&& proved.0.slot_values@ == Seq::new(
                slots.len(),
                |i: int| bit_extension(slot_z_packed@, slots[i].0),
            )
            &&& proved.0.keccak_values@ == Seq::new(
                states.len(),
                |i: int| bit_extension(keccak_z_packed@, states[i].0),
            )
        }),
{
    let ghost slots = slot_claims(slot_record_vars as nat, delta, nu, mu, gamma, 9);
    let ghost states = keccak_claims(keccak_record_vars as nat, delta, nu, mu, gamma, 4);
    let slot_list = match slot_link_claims(slot_record_vars, delta, nu, mu, gamma) {
        Some(list) => list,
        None => {
            assert(false);
            Vec::new()
        },
    };
    let keccak_list = match keccak_link_claims(keccak_record_vars, delta, nu, mu, gamma) {
        Some(list) => list,
        None => {
            assert(false);
            Vec::new()
        },
    };
    let slot_points = points_of(slot_list.as_slice());
    let keccak_points = points_of(keccak_list.as_slice());
    proof {
        assert(point_views(slot_points@).len() == slot_points@.len());
        assert(point_views(keccak_points@).len() == keccak_points@.len());
        lemma_slot_lengths(slot_record_vars as nat, delta, nu, mu, gamma, 9);
        lemma_keccak_lengths(keccak_record_vars as nat, delta, nu, mu, gamma, 4);
        assert forall|k: int| 0 <= k < slot_points@.len() implies covers_point(
            slot_z_packed@,
            (#[trigger] slot_points@[k])@,
        ) by {
            assert(point_views(slot_points@)[k] == slots[k].0);
        }
        assert forall|k: int| 0 <= k < keccak_points@.len() implies covers_point(
            keccak_z_packed@,
            (#[trigger] keccak_points@[k])@,
        ) by {
            assert(point_views(keccak_points@)[k] == states[k].0);
        }
    }
    let slot_values = gather_eval_many(slot_z_packed, slot_points.as_slice());
    let keccak_values = gather_eval_many(keccak_z_packed, keccak_points.as_slice());
    proof {
        assert forall|i: int| 0 <= i < slots.len() implies #[trigger] slot_values@[i]
            == bit_extension(slot_z_packed@, slots[i].0) by {
            assert(point_views(slot_points@)[i] == slots[i].0);
        }
        assert(slot_values@ =~= Seq::new(
            slots.len(),
            |i: int| bit_extension(slot_z_packed@, slots[i].0),
        ));
        assert forall|i: int| 0 <= i < states.len() implies #[trigger] keccak_values@[i]
            == bit_extension(keccak_z_packed@, states[i].0) by {
            assert(point_views(keccak_points@)[i] == states[i].0);
        }
        assert(keccak_values@ =~= Seq::new(
            states.len(),
            |i: int| bit_extension(keccak_z_packed@, states[i].0),
        ));
    }
    (LinkProof { slot_values, keccak_values }, slot_points, keccak_points)
}

/// The slot claims' points cover the slot domain.
pub proof fn lemma_slot_lengths(
    record_vars: nat,
    delta: F128,
    nu: F128,
    mu: F128,
    gamma: F128,
    n: int,
)
    requires
        0 <= n <= 9,
    ensures
        forall|i: int|
            0 <= i < slot_claims(record_vars, delta, nu, mu, gamma, n).len() ==> (
            #[trigger] slot_claims(record_vars, delta, nu, mu, gamma, n)[i]).0.len() == record_vars
                + 17,
    decreases n,
{
    if n > 0 {
        lemma_slot_lengths(record_vars, delta, nu, mu, gamma, n - 1);
        let before = slot_claims(record_vars, delta, nu, mu, gamma, n - 1);
        let all = slot_claims(record_vars, delta, nu, mu, gamma, n);
        assert forall|i: int| 0 <= i < all.len() implies (#[trigger] all[i]).0.len() == record_vars
            + 17 by {
            if i < before.len() {
                assert(all[i] == before[i]);
            } else {
                lemma_slot_block_lengths(
                    record_vars,
                    delta,
                    nu,
                    mu,
                    gamma,
                    n - 1,
                    pieces_of(68 * (n - 1), 68 * (n - 1) + 68).len() as int,
                    i - before.len(),
                );
            }
        }
    }
}

/// The points of a squeeze block's claims cover the slot domain.
proof fn lemma_slot_block_lengths(
    record_vars: nat,
    delta: F128,
    nu: F128,
    mu: F128,
    gamma: F128,
    q: int,
    n: int,
    i: int,
)
    requires
        0 <= q < 9,
        0 <= n <= pieces_of(68 * q, 68 * q + 68).len(),
        0 <= i < slot_block_claims(record_vars, delta, nu, mu, gamma, q, n).len(),
    ensures
        slot_block_claims(record_vars, delta, nu, mu, gamma, q, n)[i].0.len() == record_vars + 17,
    decreases n,
{
    let before = slot_block_claims(record_vars, delta, nu, mu, gamma, q, n - 1);
    if i < before.len() {
        lemma_slot_block_lengths(record_vars, delta, nu, mu, gamma, q, n - 1, i);
    } else {
        lemma_block_piece(q, n - 1);
        lemma_plane_piece(i - before.len());
    }
}

/// The sponge claims' points cover the sponge domain.
pub proof fn lemma_keccak_lengths(
    record_vars: nat,
    delta: F128,
    nu: F128,
    mu: F128,
    gamma: F128,
    n: int,
)
    requires
        0 <= n <= 4,
    ensures
        forall|i: int|
            0 <= i < keccak_claims(record_vars, delta, nu, mu, gamma, n).len() ==> (
            #[trigger] keccak_claims(record_vars, delta, nu, mu, gamma, n)[i]).0.len()
                == record_vars + 19,
    decreases n,
{
    if n > 0 {
        lemma_keccak_lengths(record_vars, delta, nu, mu, gamma, n - 1);
        let before = keccak_claims(record_vars, delta, nu, mu, gamma, n - 1);
        let all = keccak_claims(record_vars, delta, nu, mu, gamma, n);
        assert forall|i: int| 0 <= i < all.len() implies (#[trigger] all[i]).0.len() == record_vars
            + 19 by {
            if i < before.len() {
                assert(all[i] == before[i]);
            } else {
                lemma_block_piece(0, i - before.len());
            }
        }
    }
}

/// Check that the two weighted sums agree, and list both sides' points.
pub fn verify_link_claims(
    slot_record_vars: usize,
    keccak_record_vars: usize,
    proof: &LinkProof,
    delta: F128,
    nu: F128,
    mu: F128,
    gamma: F128,
) -> (result: Result<(Vec<Vec<F128>>, Vec<Vec<F128>>), &'static str>)
    ensures
        ({
            let slots = slot_claims(slot_record_vars as nat, delta, nu, mu, gamma, 9);
            let states = keccak_claims(keccak_record_vars as nat, delta, nu, mu, gamma, 4);
            let regular = challenges_regular(slot_record_vars as int, delta, nu, mu, gamma)
                && challenges_regular(keccak_record_vars as int, delta, nu, mu, gamma);
            let counted = proof.slot_values@.len() == slots.len() && proof.keccak_values@.len()
                == states.len();
            let linked = claims_sum(slots, proof.slot_values@) == claims_sum(
                states,
                proof.keccak_values@,
            );
            match result {
                Ok((slot_points, keccak_points)) => {
                    &&& regular && counted && linked
                    &&& point_views(slot_points@) == claim_points(slots)
                    &&& point_views(keccak_points@) == claim_points(states)
                },
                Err(e) => if !regular {
                    e@ == "degenerate"@
                } else if !counted {
                    e@ == "wrong linkage claim count"@
                } else {
                    !linked && e@ == "the word linkage does not hold"@
                },
            }
        }),
{
    let slot_list = match slot_link_claims(slot_record_vars, delta, nu, mu, gamma) {
        Some(list) => list,
        None => {
            return Err("degenerate");
        },
    };
    let keccak_list = match keccak_link_claims(keccak_record_vars, delta, nu, mu, gamma) {
        Some(list) => list,
        None => {
            return Err("degenerate");
        },
    };
    assert(claim_views(slot_list@).len() == slot_list@.len());
    assert(claim_views(keccak_list@).len() == keccak_list@.len());
    if proof.slot_values.len() != slot_list.len() || proof.keccak_values.len()
        != keccak_list.len() {
        return Err("wrong linkage claim count");
    }
    let left = weighted_sum(slot_list.as_slice(), proof.slot_values.as_slice());
    let right = weighted_sum(keccak_list.as_slice(), proof.keccak_values.as_slice());
    if left != right {
        return Err("the word linkage does not hold");
    }
    Ok((points_of(slot_list.as_slice()), points_of(keccak_list.as_slice())))
}

} // verus!
