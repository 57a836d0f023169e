//! The weighted sums that the linkage claims open.
use vstd::arithmetic::power2::{lemma2_to64, lemma_pow2_adds, lemma_pow2_pos, pow2};
use vstd::prelude::*;

use crate::carry_gate::packed_round::lemma_fold_parts;
use crate::field::{
    fadd, fmul, fone, fzero, lemma_fadd_assoc, lemma_fadd_zero, lemma_fmul_assoc, lemma_fmul_comm,
    lemma_fmul_one, F128,
};
use crate::frobenius::{finv, lemma_finv};
use crate::hash_to_point_hybrid::layout::swapped;
use crate::hash_to_point_hybrid::rows::lemma_word_bit;
use crate::hash_to_point_link::{
    challenges_regular, claims_sum, keccak_claim, keccak_claims, keccak_run_claims,
    lemma_block_piece, lemma_eighth_power, lemma_keccak_lengths, lemma_piece_exists,
    lemma_plane_piece, lemma_power_sum_defined, lemma_slot_lengths, piece_log, pieces_of,
    position_coords, position_scale, slot_block_claims, slot_claim, slot_claims, slot_piece_claims,
    source_piece, word_planes,
};
use crate::hash_to_point_scatter::power_sum::{
    derived_point, derived_scale, lemma_scaled_weight, power_sum_defined,
};
use crate::hash_to_point_slots::relation::{
    block_holds, lemma_bits_of_number, lemma_bits_value_congr, lemma_bits_value_range, nat_bit,
    value, wire_at, word_value,
};
use crate::hash_to_point_slots::setup::block_words;
use crate::hash_to_point_slots::witness::{carries_words, is_block_witness};
use crate::hash_to_point_slots::{K, SLOTS, X};
use crate::hash_to_point_sponge::chaining::{
    bit_point, holds_traces, lemma_fold_bits, slot_address, slot_bits, slot_window,
};
use crate::hash_to_point_sponge::gather::bit_extension;
use crate::hash_to_point_sponge::soundness::runs_the_sponge;
use crate::hash_to_point_sponge::{
    lemma_value_bits, logical, squeeze_state, state_word, trace_squeezes, trace_state, SpongeRecord,
};
use crate::keccak::permutation;
use crate::mle::{
    bit_table, bit_value, eq_weight, fold_all, lemma_fold_all_concat, lemma_mle_scale, mle,
};
use crate::packed_bits::unpacked;
use crate::packed_mle::leading_bits;
use crate::polynomial::{distinct, lemma_power_sums_bind};
use crate::r1cs::block_of;
use crate::sums::{
    fpow, fsum, lemma_fpow_add, lemma_fsum_congr, lemma_fsum_exchange, lemma_fsum_scale,
    lemma_fsum_split,
};

verus! {

/// A table of `2^n` entries.
pub open spec fn table_of(f: spec_fn(int) -> F128, n: nat) -> Seq<F128> {
    Seq::new(pow2(n), f)
}

/// A power segment takes the powers' sum over its variables.
proof fn lemma_power_segment(f: spec_fn(int) -> F128, base: F128, k: nat, rest: Seq<F128>)
    requires
        power_sum_defined(base, k as int),
    ensures
        fmul(
            derived_scale(base, k as int),
            mle(table_of(f, k + rest.len()), derived_point(base, k) + rest),
        ) == mle(
            table_of(
                |i: int|
                    fsum(
                        |j: int| fmul(fpow(base, j), f(j * pow2(rest.len()) + i)),
                        pow2(k) as int,
                    ),
                rest.len(),
            ),
            rest,
        ),
{
    let m = pow2(rest.len());
    let n = pow2(k) as int;
    lemma_pow2_adds(k, rest.len());
    lemma_pow2_pos(rest.len());
    let point = derived_point(base, k);
    let table = table_of(f, k + rest.len());
    let scale = derived_scale(base, k as int);
    lemma_fold_all_concat(table, point, rest);
    let folded = fold_all(table, point);
    lemma_fold_parts(table, point, m, 0);
    lemma_mle_scale(scale, folded, rest);
    let scaled = Seq::new(folded.len(), |i: int| fmul(scale, folded[i]));
    let g = |i: int| fsum(|j: int| fmul(fpow(base, j), f(j * m + i)), n);
    let target = table_of(g, rest.len());
    assert forall|i: int| 0 <= i < m implies #[trigger] scaled[i] == target[i] by {
        lemma_fold_parts(table, point, m, i);
        let a = |j: int| fmul(eq_weight(point, j), table[j * m + i]);
        let b = |j: int| fmul(fpow(base, j), f(j * m + i));
        lemma_fsum_scale(scale, a, n);
        let c = |j: int| fmul(scale, a(j));
        assert forall|j: int| 0 <= j < n implies #[trigger] c(j) == b(j) by {
            lemma_scaled_weight(base, k, j);
            lemma_fmul_assoc(scale, eq_weight(point, j), table[j * m + i]);
            assert(0 <= j * m + i < n * m) by (nonlinear_arith)
                requires
                    0 <= j < n,
                    0 <= i < m,
            ;
            assert(table[j * m + i] == f(j * m + i));
        }
        lemma_fsum_congr(c, b, n);
    }
    assert(scaled =~= target);
}

/// A bit segment selects a part.
pub proof fn lemma_bit_segment(f: spec_fn(int) -> F128, v: int, n: nat, rest: Seq<F128>)
    requires
        0 <= v < pow2(n),
    ensures
        mle(table_of(f, n + rest.len()), bit_point(v, n) + rest) == mle(
            table_of(|i: int| f(v * pow2(rest.len()) + i), rest.len()),
            rest,
        ),
{
    let m = pow2(rest.len());
    lemma_pow2_adds(n, rest.len());
    lemma_pow2_pos(rest.len());
    let table = table_of(f, n + rest.len());
    lemma_fold_all_concat(table, bit_point(v, n), rest);
    lemma_fold_bits(table, v, n, m);
    assert(0 <= v * m && v * m + m <= pow2(n) * m) by (nonlinear_arith)
        requires
            0 <= v < pow2(n),
            0 <= m,
    ;
    assert(table.subrange(v * m, v * m + m) =~= table_of(
        |i: int| f(v * pow2(rest.len()) + i),
        rest.len(),
    ));
}

/// A power segment at the end of a point.
pub proof fn lemma_last_segment(f: spec_fn(int) -> F128, base: F128, k: nat)
    requires
        power_sum_defined(base, k as int),
    ensures
        fmul(derived_scale(base, k as int), mle(table_of(f, k), derived_point(base, k))) == fsum(
            |j: int| fmul(fpow(base, j), f(j)),
            pow2(k) as int,
        ),
{
    lemma2_to64();
    let rest: Seq<F128> = seq![];
    lemma_power_segment(f, base, k, rest);
    assert(derived_point(base, k) + rest =~= derived_point(base, k));
    let g = |i: int| fsum(|j: int| fmul(fpow(base, j), f(j * pow2(0) + i)), pow2(k) as int);
    let h = |j: int| fmul(fpow(base, j), f(j * pow2(0) + 0));
    let t = |j: int| fmul(fpow(base, j), f(j));
    assert forall|j: int| 0 <= j < pow2(k) implies #[trigger] h(j) == t(j) by {
        assert(j * pow2(0) + 0 == j) by (nonlinear_arith)
            requires
                pow2(0) == 1,
        ;
    }
    lemma_fsum_congr(h, t, pow2(k) as int);
    assert(table_of(g, 0)[0] == g(0));
}

/// Weighted sums exchange.
proof fn lemma_weighted_exchange(
    c: spec_fn(int) -> F128,
    d: spec_fn(int) -> F128,
    g: spec_fn(int, int) -> F128,
    m: int,
    n: int,
)
    ensures
        fsum(|p: int| fmul(c(p), fsum(|x: int| fmul(d(x), g(p, x)), n)), m) == fsum(
            |x: int| fmul(d(x), fsum(|p: int| fmul(c(p), g(p, x)), m)),
            n,
        ),
{
    let both = |p: int, x: int| fmul(c(p), fmul(d(x), g(p, x)));
    let left = |p: int| fmul(c(p), fsum(|x: int| fmul(d(x), g(p, x)), n));
    let rows = |p: int| fsum(|x: int| both(p, x), n);
    assert forall|p: int| 0 <= p < m implies #[trigger] left(p) == rows(p) by {
        let inner = |x: int| fmul(d(x), g(p, x));
        lemma_fsum_scale(c(p), inner, n);
        lemma_fsum_congr(|x: int| fmul(c(p), inner(x)), |x: int| both(p, x), n);
    }
    lemma_fsum_congr(left, rows, m);
    lemma_fsum_exchange(both, m, n);
    let columns = |x: int| fsum(|p: int| both(p, x), m);
    let right = |x: int| fmul(d(x), fsum(|p: int| fmul(c(p), g(p, x)), m));
    assert forall|x: int| 0 <= x < n implies #[trigger] columns(x) == right(x) by {
        let inner = |p: int| fmul(c(p), g(p, x));
        lemma_fsum_scale(d(x), inner, m);
        let a = |p: int| both(p, x);
        let b = |p: int| fmul(d(x), inner(p));
        assert forall|p: int| 0 <= p < m implies #[trigger] a(p) == b(p) by {
            lemma_fmul_assoc(c(p), d(x), g(p, x));
            lemma_fmul_comm(c(p), d(x));
            lemma_fmul_assoc(d(x), c(p), g(p, x));
        }
        lemma_fsum_congr(a, b, m);
    }
    lemma_fsum_congr(columns, right, n);
    lemma_fsum_congr(
        |i: int| fsum(|j: int| both(i, j), n),
        rows,
        m,
    );
    lemma_fsum_congr(
        |j: int| fsum(|i: int| both(i, j), m),
        columns,
        n,
    );
}

/// The weighted sum over a piece.
pub open spec fn piece_sum(h: spec_fn(int) -> F128, mu: F128, base: int, k: nat) -> F128 {
    fsum(|x: int| fmul(fpow(mu, x), h(base + x)), pow2(k) as int)
}

/// The pieces of a range, each under the power of its distance from `origin`,
/// sum to the range.
proof fn lemma_tiled_sum(h: spec_fn(int) -> F128, mu: F128, origin: int, start: int, end: int)
    requires
        0 <= origin <= start <= end,
    ensures
        fsum(
            |i: int|
                fmul(
                    fpow(mu, pieces_of(start, end)[i].0 - origin),
                    piece_sum(h, mu, pieces_of(start, end)[i].0, pieces_of(start, end)[i].1),
                ),
            pieces_of(start, end).len() as int,
        ) == fsum(
            |w: int| fmul(fpow(mu, start - origin + w), h(start + w)),
            end - start,
        ),
    decreases end - start,
{
    let pieces = pieces_of(start, end);
    let term = |i: int|
        fmul(fpow(mu, pieces[i].0 - origin), piece_sum(h, mu, pieces[i].0, pieces[i].1));
    let flat = |w: int| fmul(fpow(mu, start - origin + w), h(start + w));
    if start < end {
        let k = piece_log(start, end);
        lemma_piece_exists(start, end);
        lemma_pow2_pos(k);
        let size = pow2(k) as int;
        let next = start + size;
        lemma_tiled_sum(h, mu, origin, next, end);
        let rest = pieces_of(next, end);
        assert(pieces =~= seq![(start, k)] + rest);
        let n = rest.len() as int;
        lemma_fsum_split(term, 1, n);
        let shifted = |i: int| term(1 + i);
        let later = |i: int|
            fmul(fpow(mu, rest[i].0 - origin), piece_sum(h, mu, rest[i].0, rest[i].1));
        assert forall|i: int| 0 <= i < n implies #[trigger] shifted(i) == later(i) by {
            assert(pieces[1 + i] == rest[i]);
        }
        lemma_fsum_congr(shifted, later, n);
        lemma_fsum_congr(|i: int| term(1 + i), shifted, n);
        assert(fsum(term, 1) == fadd(fsum(term, 0), term(0)));
        lemma_fadd_zero(term(0));
        // The first piece.
        let inner = |x: int| fmul(fpow(mu, x), h(start + x));
        let power = fpow(mu, start - origin);
        lemma_fsum_scale(power, inner, size);
        let scaled = |x: int| fmul(power, inner(x));
        assert forall|x: int| 0 <= x < size implies #[trigger] scaled(x) == flat(x) by {
            lemma_fmul_assoc(power, fpow(mu, x), h(start + x));
            lemma_fpow_add(mu, start - origin, x);
        }
        lemma_fsum_congr(scaled, flat, size);
        assert(term(0) == fmul(power, fsum(inner, size)));
        // The rest.
        lemma_fsum_split(flat, size, end - next);
        let tail = |w: int| fmul(fpow(mu, next - origin + w), h(next + w));
        let moved = |w: int| flat(size + w);
        assert forall|w: int| 0 <= w < end - next implies #[trigger] moved(w) == tail(w) by {
            assert(start - origin + (size + w) == next - origin + w);
            assert(start + (size + w) == next + w);
        }
        lemma_fsum_congr(moved, tail, end - next);
        lemma_fsum_congr(|i: int| flat(size + i), moved, end - next);
        lemma_fsum_congr(
            later,
            |i: int|
                fmul(
                    fpow(mu, pieces_of(next, end)[i].0 - origin),
                    piece_sum(h, mu, pieces_of(next, end)[i].0, pieces_of(next, end)[i].1),
                ),
            n,
        );
    } else {
        assert(pieces.len() == 0);
    }
}

/// The records' cells at an address, under powers of `delta`.
pub open spec fn record_sum(
    table: Seq<F128>,
    records: nat,
    delta: F128,
    stride: int,
    address: int,
) -> F128 {
    fsum(|rec: int| fmul(fpow(delta, rec), table[rec * stride + address]), pow2(records) as int)
}

/// The wires of the planes `(plane, h)` at slot `s`, under powers of `gamma`.
pub open spec fn plane_row(
    table: Seq<F128>,
    records: nat,
    delta: F128,
    gamma: F128,
    plane: int,
    h: nat,
    s: int,
) -> F128 {
    piece_sum(
        |p: int| record_sum(table, records, delta, 131072, wire_at(p, s)),
        gamma,
        plane,
        h,
    )
}

/// The word bits at slot `s`, under powers of `gamma`.
pub open spec fn slot_row(
    table: Seq<F128>,
    records: nat,
    delta: F128,
    gamma: F128,
    s: int,
) -> F128 {
    fsum(
        |b: int|
            fmul(
                fpow(gamma, b),
                record_sum(table, records, delta, 131072, wire_at(X + b, s)),
            ),
        16,
    )
}

/// The state bits of word `w` of the output of permutation `e`, under powers of
/// `gamma`.
pub open spec fn state_row(
    table: Seq<F128>,
    records: nat,
    delta: F128,
    gamma: F128,
    e: int,
    w: int,
) -> F128 {
    fsum(
        |b: int|
            fmul(
                fpow(gamma, b),
                record_sum(table, records, delta, 524288, state_cell(e, w, swapped(b))),
            ),
        16,
    )
}

/// Bit `p` of word `w` of the output of permutation `e`, in a record's sponge
/// blocks.
pub open spec fn state_cell(e: int, w: int, p: int) -> int {
    (e % 4) * 131072 + (2 * (e / 4) + 1) * 2048 + 16 * w + p
}

/// The linkage sum of a cell for each squeeze block and word.
pub open spec fn linked_sum(nu: F128, mu: F128, cell: spec_fn(int, int) -> F128) -> F128 {
    fsum(
        |q: int| fmul(fpow(nu, q), fsum(|w: int| fmul(fpow(mu, w), cell(q, w)), 68)),
        9,
    )
}

/// The slot claims' scalars commute with their segments.
proof fn lemma_three_scales(s1: F128, s2: F128, s3: F128, v: F128)
    ensures
        fmul(fmul(fmul(s1, s2), s3), v) == fmul(s3, fmul(s2, fmul(s1, v))),
{
    lemma_fmul_comm(fmul(s1, s2), s3);
    lemma_fmul_assoc(s3, fmul(s1, s2), v);
    lemma_fmul_comm(s1, s2);
    lemma_fmul_assoc(s2, s1, v);
}

/// A slot-side claim's term.
proof fn lemma_slot_term(
    table: Seq<F128>,
    records: nat,
    delta: F128,
    nu: F128,
    mu: F128,
    gamma: F128,
    q: int,
    base: int,
    k: nat,
    plane: int,
    h: nat,
)
    requires
        table.len() == pow2(records) * 131072,
        power_sum_defined(delta, records as int),
        mu != fone(),
        gamma != fone(),
        0 <= base,
        k <= 6,
        base % (pow2(k) as int) == 0,
        base + pow2(k) <= 1024,
        0 <= plane,
        h <= 3,
        plane % (pow2(h) as int) == 0,
        plane + pow2(h) <= 128,
    ensures
        ({
            let claim = slot_claim(records, delta, nu, mu, gamma, q, base, k, plane, h);
            fmul(claim.1, mle(table, claim.0)) == fmul(
                fmul(fmul(fpow(nu, q), fpow(mu, base - 68 * q)), fpow(gamma, plane - X)),
                piece_sum(
                    |s: int| plane_row(table, records, delta, gamma, plane, h, s),
                    mu,
                    base,
                    k,
                ),
            )
        }),
{
    lemma2_to64();
    lemma_power_sum_defined(mu, k as int);
    lemma_power_sum_defined(gamma, h as int);
    let claim = slot_claim(records, delta, nu, mu, gamma, q, base, k, plane, h);
    let m = derived_point(mu, k);
    let v = base / pow2(k) as int;
    let u = plane / pow2(h) as int;
    let r3 = bit_point(v, (10 - k) as nat) + m;
    let r2 = derived_point(gamma, h) + r3;
    let r1 = bit_point(u, (7 - h) as nat) + r2;
    let (s1, s2, s3) = (
        derived_scale(delta, records as int),
        derived_scale(gamma, h as int),
        derived_scale(mu, k as int),
    );
    assert(r3.len() == 10 && r2.len() == h + 10 && r1.len() == 17);
    let f0 = |i: int| table[i];
    lemma_pow2_adds(records, 17);
    assert(table =~= table_of(f0, records + 17));
    lemma_power_segment(f0, delta, records, r1);
    let f1 = |i: int|
        fsum(
            |j: int| fmul(fpow(delta, j), f0(j * pow2(r1.len()) + i)),
            pow2(records) as int,
        );
    lemma_aligned_start(plane, h, 7);
    lemma_bit_segment(f1, u, (7 - h) as nat, r2);
    let f2 = |i: int| f1(u * pow2(r2.len()) + i);
    lemma_power_segment(f2, gamma, h, r3);
    let f3 = |i: int|
        fsum(|j: int| fmul(fpow(gamma, j), f2(j * pow2(r3.len()) + i)), pow2(h) as int);
    lemma_aligned_start(base, k, 10);
    lemma_bit_segment(f3, v, (10 - k) as nat, m);
    let f4 = |i: int| f3(v * pow2(m.len()) + i);
    lemma_last_segment(f4, mu, k);
    lemma_pow2_adds(h, 10);
    let row = |s: int| plane_row(table, records, delta, gamma, plane, h, s);
    assert forall|s: int| 0 <= s < 1024 implies #[trigger] f3(s) == row(s) by {
        let cell = |p: int| record_sum(table, records, delta, 131072, wire_at(p, s));
        let a = |j: int| fmul(fpow(gamma, j), f2(j * pow2(r3.len()) + s));
        let b = |x: int| fmul(fpow(gamma, x), cell(plane + x));
        assert forall|j: int| 0 <= j < pow2(h) implies #[trigger] a(j) == b(j) by {
            let at = wire_at(plane + j, s);
            assert(u * pow2(r2.len()) + (j * pow2(r3.len()) + s) == at) by (nonlinear_arith)
                requires
                    pow2(r2.len()) == pow2(h) * 1024,
                    pow2(r3.len()) == 1024,
                    u * pow2(h) == plane,
                    at == (plane + j) * 1024 + s,
            ;
            let c = |j: int| fmul(fpow(delta, j), f0(j * pow2(r1.len()) + at));
            let d = |rec: int| fmul(fpow(delta, rec), table[rec * 131072 + at]);
            assert forall|r: int| 0 <= r < pow2(records) implies #[trigger] c(r) == d(r) by {
                assert(r * pow2(r1.len()) == r * 131072) by (nonlinear_arith)
                    requires
                        pow2(r1.len()) == 131072,
                ;
            }
            lemma_fsum_congr(c, d, pow2(records) as int);
        }
        lemma_fsum_congr(a, b, pow2(h) as int);
    }
    let x = |x: int| fmul(fpow(mu, x), f4(x));
    let y = |x: int| fmul(fpow(mu, x), row(base + x));
    assert forall|i: int| 0 <= i < pow2(k) implies #[trigger] x(i) == y(i) by {
        assert(v * pow2(m.len()) + i == base + i);
        assert(f3(base + i) == row(base + i));
    }
    lemma_fsum_congr(x, y, pow2(k) as int);
    let value = mle(table, claim.0);
    lemma_three_scales(s1, s2, s3, value);
    assert(claim.0 =~= derived_point(delta, records) + r1);
    let head = fmul(fmul(fpow(nu, q), fpow(mu, base - 68 * q)), fpow(gamma, plane - X));
    lemma_fmul_assoc(head, fmul(fmul(s1, s2), s3), value);
    assert(piece_sum(
        |s: int| plane_row(table, records, delta, gamma, plane, h, s),
        mu,
        base,
        k,
    ) == piece_sum(row, mu, base, k));
    lemma_fsum_congr(y, |x: int| fmul(fpow(mu, x), row(base + x)), pow2(k) as int);
}

/// An aligned run of `2^k` within `2^n` starts at a multiple of its size.
proof fn lemma_aligned_start(base: int, k: nat, n: nat)
    requires
        0 <= base,
        k <= n,
        base % (pow2(k) as int) == 0,
        base + pow2(k) <= pow2(n),
    ensures
        (base / pow2(k) as int) * pow2(k) == base,
        0 <= base / (pow2(k) as int) < pow2((n - k) as nat),
{
    let v = base / pow2(k) as int;
    lemma_pow2_adds((n - k) as nat, k);
    lemma_pow2_pos(k);
    vstd::arithmetic::div_mod::lemma_fundamental_div_mod(base, pow2(k) as int);
    assert(v * pow2(k) == base) by (nonlinear_arith)
        requires
            base == pow2(k) * v + 0,
    ;
    assert(0 <= v < pow2((n - k) as nat)) by (nonlinear_arith)
        requires
            v * pow2(k) == base,
            0 <= base,
            base + pow2(k) <= pow2(n),
            pow2((n - k) as nat) * pow2(k) == pow2(n),
            0 < pow2(k),
    ;
}

/// The plane pieces at a slot sum to the word's bits.
proof fn lemma_planes_tile(
    table: Seq<F128>,
    records: nat,
    delta: F128,
    gamma: F128,
    s: int,
)
    ensures
        fsum(
            |j: int|
                fmul(
                    fpow(gamma, word_planes()[j].0 - X),
                    plane_row(
                        table,
                        records,
                        delta,
                        gamma,
                        word_planes()[j].0,
                        word_planes()[j].1,
                        s,
                    ),
                ),
            word_planes().len() as int,
        ) == slot_row(table, records, delta, gamma, s),
{
    let planes = word_planes();
    let cell = |p: int| record_sum(table, records, delta, 131072, wire_at(p, s));
    lemma_tiled_sum(cell, gamma, X as int, X as int, X + 16);
    lemma_fsum_congr(
        |j: int|
            fmul(
                fpow(gamma, planes[j].0 - X),
                plane_row(table, records, delta, gamma, planes[j].0, planes[j].1, s),
            ),
        |i: int|
            fmul(
                fpow(gamma, pieces_of(X as int, X + 16)[i].0 - X),
                piece_sum(
                    cell,
                    gamma,
                    pieces_of(X as int, X + 16)[i].0,
                    pieces_of(X as int, X + 16)[i].1,
                ),
            ),
        planes.len() as int,
    );
    lemma_fsum_congr(
        |w: int| fmul(fpow(gamma, X as int - X as int + w), cell(X as int + w)),
        |b: int|
            fmul(
                fpow(gamma, b),
                record_sum(table, records, delta, 131072, wire_at(X + b, s)),
            ),
        16,
    );
}

/// The values of the claims' openings.
pub open spec fn opened(table: Seq<F128>, claims: Seq<(Seq<F128>, F128)>) -> Seq<F128> {
    Seq::new(claims.len(), |i: int| mle(table, claims[i].0))
}

/// A sum of claims splits with the list.
proof fn lemma_claims_split(
    table: Seq<F128>,
    a: Seq<(Seq<F128>, F128)>,
    b: Seq<(Seq<F128>, F128)>,
)
    ensures
        claims_sum(a + b, opened(table, a + b)) == fadd(
            claims_sum(a, opened(table, a)),
            claims_sum(b, opened(table, b)),
        ),
{
    let all = a + b;
    let f = |i: int| fmul(all[i].1, opened(table, all)[i]);
    let fa = |i: int| fmul(a[i].1, opened(table, a)[i]);
    let fb = |i: int| fmul(b[i].1, opened(table, b)[i]);
    lemma_fsum_split(f, a.len() as int, b.len() as int);
    assert forall|i: int| 0 <= i < a.len() implies #[trigger] f(i) == fa(i) by {
        assert(all[i] == a[i]);
    }
    lemma_fsum_congr(f, fa, a.len() as int);
    let shifted = |i: int| f(a.len() + i);
    assert forall|i: int| 0 <= i < b.len() implies #[trigger] shifted(i) == fb(i) by {
        assert(all[a.len() + i] == b[i]);
    }
    lemma_fsum_congr(shifted, fb, b.len() as int);
    lemma_fsum_congr(|i: int| f(a.len() + i), shifted, b.len() as int);
}

/// The claims of one piece of a squeeze block.
proof fn lemma_slot_piece(
    table: Seq<F128>,
    records: nat,
    delta: F128,
    nu: F128,
    mu: F128,
    gamma: F128,
    q: int,
    base: int,
    k: nat,
)
    requires
        table.len() == pow2(records) * 131072,
        power_sum_defined(delta, records as int),
        mu != fone(),
        gamma != fone(),
        0 <= base,
        k <= 6,
        base % (pow2(k) as int) == 0,
        base + pow2(k) <= 1024,
    ensures
        ({
            let claims = slot_piece_claims(
                records,
                delta,
                nu,
                mu,
                gamma,
                q,
                base,
                k,
                word_planes().len() as int,
            );
            claims_sum(claims, opened(table, claims)) == fmul(
                fmul(fpow(nu, q), fpow(mu, base - 68 * q)),
                piece_sum(|s: int| slot_row(table, records, delta, gamma, s), mu, base, k),
            )
        }),
{
    let planes = word_planes();
    let n = planes.len() as int;
    let size = pow2(k) as int;
    let claims = slot_piece_claims(records, delta, nu, mu, gamma, q, base, k, n);
    let head = fmul(fpow(nu, q), fpow(mu, base - 68 * q));
    let c = |j: int| fpow(gamma, planes[j].0 - X);
    let d = |x: int| fpow(mu, x);
    let g = |j: int, x: int|
        plane_row(table, records, delta, gamma, planes[j].0, planes[j].1, base + x);
    let term = |j: int| fmul(claims[j].1, opened(table, claims)[j]);
    let inner = |j: int| fmul(c(j), fsum(|x: int| fmul(d(x), g(j, x)), size));
    let scaled = |j: int| fmul(head, inner(j));
    assert forall|j: int| 0 <= j < n implies #[trigger] term(j) == scaled(j) by {
        lemma_plane_piece(j);
        let (plane, h) = planes[j];
        lemma_slot_term(table, records, delta, nu, mu, gamma, q, base, k, plane, h);
        let row = |s: int| plane_row(table, records, delta, gamma, plane, h, s);
        lemma_fsum_congr(
            |x: int| fmul(fpow(mu, x), row(base + x)),
            |x: int| fmul(d(x), g(j, x)),
            size,
        );
        lemma_fmul_assoc(head, c(j), piece_sum(row, mu, base, k));
    }
    lemma_fsum_congr(term, scaled, n);
    lemma_fsum_scale(head, inner, n);
    lemma_fsum_congr(scaled, |j: int| fmul(head, inner(j)), n);
    lemma_fsum_congr(
        inner,
        |p: int| fmul(c(p), fsum(|x: int| fmul(d(x), g(p, x)), size)),
        n,
    );
    lemma_weighted_exchange(c, d, g, n, size);
    let row = |s: int| slot_row(table, records, delta, gamma, s);
    let rows = |x: int| fmul(d(x), fsum(|p: int| fmul(c(p), g(p, x)), n));
    let target = |x: int| fmul(fpow(mu, x), row(base + x));
    assert forall|x: int| 0 <= x < size implies #[trigger] rows(x) == target(x) by {
        lemma_planes_tile(table, records, delta, gamma, base + x);
        lemma_fsum_congr(
            |p: int| fmul(c(p), g(p, x)),
            |j: int|
                fmul(
                    fpow(gamma, word_planes()[j].0 - X),
                    plane_row(
                        table,
                        records,
                        delta,
                        gamma,
                        word_planes()[j].0,
                        word_planes()[j].1,
                        base + x,
                    ),
                ),
            n,
        );
    }
    lemma_fsum_congr(rows, target, size);
    assert(piece_sum(|s: int| slot_row(table, records, delta, gamma, s), mu, base, k)
        == piece_sum(row, mu, base, k));
}

/// The claims of the first pieces of a squeeze block.
proof fn lemma_slot_pieces(
    table: Seq<F128>,
    records: nat,
    delta: F128,
    nu: F128,
    mu: F128,
    gamma: F128,
    q: int,
    n: int,
)
    requires
        table.len() == pow2(records) * 131072,
        power_sum_defined(delta, records as int),
        mu != fone(),
        gamma != fone(),
        0 <= q < 9,
        0 <= n <= pieces_of(68 * q, 68 * q + 68).len(),
    ensures
        ({
            let pieces = pieces_of(68 * q, 68 * q + 68);
            let claims = slot_block_claims(records, delta, nu, mu, gamma, q, n);
            claims_sum(claims, opened(table, claims)) == fsum(
                |i: int|
                    fmul(
                        fmul(fpow(nu, q), fpow(mu, pieces[i].0 - 68 * q)),
                        piece_sum(
                            |s: int| slot_row(table, records, delta, gamma, s),
                            mu,
                            pieces[i].0,
                            pieces[i].1,
                        ),
                    ),
                n,
            )
        }),
    decreases n,
{
    if n > 0 {
        let (base, k) = pieces_of(68 * q, 68 * q + 68)[n - 1];
        lemma_slot_pieces(table, records, delta, nu, mu, gamma, q, n - 1);
        lemma_block_piece(q, n - 1);
        lemma_slot_piece(table, records, delta, nu, mu, gamma, q, base, k);
        lemma_claims_split(
            table,
            slot_block_claims(records, delta, nu, mu, gamma, q, n - 1),
            slot_piece_claims(
                records,
                delta,
                nu,
                mu,
                gamma,
                q,
                base,
                k,
                word_planes().len() as int,
            ),
        );
    }
}

/// The claims of one squeeze block.
proof fn lemma_slot_block(
    table: Seq<F128>,
    records: nat,
    delta: F128,
    nu: F128,
    mu: F128,
    gamma: F128,
    q: int,
)
    requires
        table.len() == pow2(records) * 131072,
        power_sum_defined(delta, records as int),
        mu != fone(),
        gamma != fone(),
        0 <= q < 9,
    ensures
        ({
            let claims = slot_block_claims(
                records,
                delta,
                nu,
                mu,
                gamma,
                q,
                pieces_of(68 * q, 68 * q + 68).len() as int,
            );
            claims_sum(claims, opened(table, claims)) == fmul(
                fpow(nu, q),
                fsum(
                    |w: int|
                        fmul(
                            fpow(mu, w),
                            slot_row(table, records, delta, gamma, 68 * q + w),
                        ),
                    68,
                ),
            )
        }),
{
    let (start, end) = (68 * q, 68 * q + 68);
    let pieces = pieces_of(start, end);
    let n = pieces.len() as int;
    let claims = slot_block_claims(records, delta, nu, mu, gamma, q, n);
    let row = |s: int| slot_row(table, records, delta, gamma, s);
    lemma_slot_pieces(table, records, delta, nu, mu, gamma, q, n);
    let term = |i: int|
        fmul(
            fmul(fpow(nu, q), fpow(mu, pieces[i].0 - 68 * q)),
            piece_sum(
                |s: int| slot_row(table, records, delta, gamma, s),
                mu,
                pieces[i].0,
                pieces[i].1,
            ),
        );
    let tiled = |i: int|
        fmul(fpow(mu, pieces[i].0 - start), piece_sum(row, mu, pieces[i].0, pieces[i].1));
    let scaled = |i: int| fmul(fpow(nu, q), tiled(i));
    assert forall|i: int| 0 <= i < n implies #[trigger] term(i) == scaled(i) by {
        let (base, k) = pieces[i];
        lemma_fmul_assoc(fpow(nu, q), fpow(mu, base - start), piece_sum(row, mu, base, k));
        assert(piece_sum(|s: int| slot_row(table, records, delta, gamma, s), mu, base, k)
            == piece_sum(row, mu, base, k));
    }
    lemma_fsum_congr(term, scaled, n);
    lemma_fsum_scale(fpow(nu, q), tiled, n);
    lemma_fsum_congr(scaled, |i: int| fmul(fpow(nu, q), tiled(i)), n);
    lemma_tiled_sum(row, mu, start, start, end);
    lemma_fsum_congr(
        tiled,
        |i: int|
            fmul(
                fpow(mu, pieces_of(start, end)[i].0 - start),
                piece_sum(row, mu, pieces_of(start, end)[i].0, pieces_of(start, end)[i].1),
            ),
        n,
    );
    let flat = |w: int| fmul(fpow(mu, start - start + w), row(start + w));
    let target = |w: int|
        fmul(fpow(mu, w), slot_row(table, records, delta, gamma, 68 * q + w));
    assert forall|w: int| 0 <= w < 68 implies #[trigger] flat(w) == target(w) by {}
    lemma_fsum_congr(flat, target, 68);
    lemma_fsum_congr(
        |w: int| fmul(fpow(mu, start - start + w), row(start + w)),
        flat,
        end - start,
    );
}

/// The claims of the first squeeze blocks.
proof fn lemma_slot_blocks(
    table: Seq<F128>,
    records: nat,
    delta: F128,
    nu: F128,
    mu: F128,
    gamma: F128,
    n: int,
)
    requires
        table.len() == pow2(records) * 131072,
        power_sum_defined(delta, records as int),
        mu != fone(),
        gamma != fone(),
        0 <= n <= 9,
    ensures
        ({
            let claims = slot_claims(records, delta, nu, mu, gamma, n);
            claims_sum(claims, opened(table, claims)) == fsum(
                |q: int|
                    fmul(
                        fpow(nu, q),
                        fsum(
                            |w: int|
                                fmul(
                                    fpow(mu, w),
                                    slot_row(table, records, delta, gamma, 68 * q + w),
                                ),
                            68,
                        ),
                    ),
                n,
            )
        }),
    decreases n,
{
    if n > 0 {
        lemma_slot_blocks(table, records, delta, nu, mu, gamma, n - 1);
        lemma_slot_block(table, records, delta, nu, mu, gamma, n - 1);
        lemma_claims_split(
            table,
            slot_claims(records, delta, nu, mu, gamma, n - 1),
            slot_block_claims(
                records,
                delta,
                nu,
                mu,
                gamma,
                n - 1,
                pieces_of(68 * (n - 1), 68 * (n - 1) + 68).len() as int,
            ),
        );
    }
}

/// The slot-side claims open the linkage sum of the word planes:
/// `sum delta^rec nu^q mu^w gamma^b` times word bit `b` of slot `68 q + w`.
pub proof fn slot_claims_open_the_words(
    table: Seq<F128>,
    records: nat,
    delta: F128,
    nu: F128,
    mu: F128,
    gamma: F128,
)
    requires
        table.len() == pow2(records) * 131072,
        records == 0 || delta != fone(),
        mu != fone(),
        gamma != fone(),
    ensures
        ({
            let claims = slot_claims(records, delta, nu, mu, gamma, 9);
            claims_sum(claims, opened(table, claims)) == linked_sum(
                nu,
                mu,
                |q: int, w: int| slot_row(table, records, delta, gamma, 68 * q + w),
            )
        }),
{
    lemma_power_sum_defined(delta, records as int);
    lemma_slot_blocks(table, records, delta, nu, mu, gamma, 9);
    let cell = |q: int, w: int| slot_row(table, records, delta, gamma, 68 * q + w);
    let a = |q: int|
        fmul(
            fpow(nu, q),
            fsum(
                |w: int|
                    fmul(fpow(mu, w), slot_row(table, records, delta, gamma, 68 * q + w)),
                68,
            ),
        );
    let b = |q: int| fmul(fpow(nu, q), fsum(|w: int| fmul(fpow(mu, w), cell(q, w)), 68));
    assert forall|q: int| 0 <= q < 9 implies #[trigger] a(q) == b(q) by {
        lemma_fsum_congr(
            |w: int| fmul(fpow(mu, w), slot_row(table, records, delta, gamma, 68 * q + w)),
            |w: int| fmul(fpow(mu, w), cell(q, w)),
            68,
        );
    }
    lemma_fsum_congr(a, b, 9);
}

// ---------------------------------------------------------------------------
// The sponge side.
// ---------------------------------------------------------------------------

/// The first position coordinate weighs its bit by `gamma^8` and one.
proof fn lemma_swap_coordinate(gamma: F128)
    requires
        gamma != fone(),
    ensures
        ({
            let s = fadd(fpow(gamma, 8), fone());
            let c = fmul(fone(), finv(s));
            &&& fmul(s, fadd(fone(), c)) == fpow(gamma, 8)
            &&& fmul(s, c) == fone()
        }),
{
    lemma_eighth_power(gamma);
    let g = fpow(gamma, 8);
    let s = fadd(g, fone());
    let c = fmul(fone(), finv(s));
    lemma_finv(s, c);
    lemma_fmul_one(finv(s));
    crate::field::lemma_fmul_distr(s, fone(), c);
    lemma_fmul_one(s);
    lemma_fadd_assoc(g, fone(), fone());
    crate::field::lemma_fadd_self(fone());
    lemma_fadd_zero(g);
}

/// The position segment takes the byte-swapped powers' sum.
proof fn lemma_position_segment(f: spec_fn(int) -> F128, gamma: F128)
    requires
        gamma != fone(),
    ensures
        fmul(position_scale(gamma), mle(table_of(f, 4), position_coords(gamma))) == fsum(
            |p: int| fmul(fpow(gamma, swapped(p)), f(p)),
            16,
        ),
{
    lemma2_to64();
    lemma_power_sum_defined(gamma, 3);
    lemma_swap_coordinate(gamma);
    let g8 = fpow(gamma, 8);
    let s0 = fadd(g8, fone());
    let c0 = fmul(fone(), finv(s0));
    let low = derived_point(gamma, 3);
    let table = table_of(f, 4);
    let first = seq![c0];
    assert(position_coords(gamma) =~= first + low);
    lemma_fold_all_concat(table, first, low);
    lemma_fold_parts(table, first, 8, 0);
    let folded = fold_all(table, first);
    lemma_mle_scale(s0, folded, low);
    let scaled = Seq::new(folded.len(), |i: int| fmul(s0, folded[i]));
    let h = |i: int| fadd(fmul(g8, f(i)), f(8 + i));
    assert forall|i: int| 0 <= i < 8 implies #[trigger] scaled[i] == h(i) by {
        lemma_fold_parts(table, first, 8, i);
        let t = |a: int| fmul(eq_weight(first, a), table[a * 8 + i]);
        reveal_with_fuel(fsum, 3);
        reveal_with_fuel(eq_weight, 2);
        assert(0int / 2 == 0 && 0int % 2 == 0 && 1int % 2 == 1 && 1int / 2 == 0);
        assert(first.drop_last() =~= Seq::<F128>::empty());
        assert(eq_weight(first, 0) == fmul(fone(), fadd(fone(), c0)));
        assert(eq_weight(first, 1) == fmul(fone(), c0));
        lemma_fmul_one(fadd(fone(), c0));
        lemma_fmul_one(c0);
        assert(t(0) == fmul(fadd(fone(), c0), f(i)));
        assert(t(1) == fmul(c0, f(8 + i)));
        assert(pow2(first.len()) == 2);
        assert(fsum(t, 2) == fadd(fadd(fzero(), t(0)), t(1)));
        lemma_fadd_zero(t(0));
        crate::field::lemma_fmul_distr(s0, t(0), t(1));
        lemma_fmul_assoc(s0, fadd(fone(), c0), f(i));
        lemma_fmul_assoc(s0, c0, f(8 + i));
        lemma_fmul_one(f(8 + i));
    }
    assert(scaled =~= table_of(h, 3));
    lemma_last_segment(h, gamma, 3);
    let j = |j: int| fmul(fpow(gamma, j), h(j));
    let a = |j: int| fmul(fpow(gamma, 8 + j), f(j));
    let b = |j: int| fmul(fpow(gamma, j), f(8 + j));
    assert forall|i: int| 0 <= i < 8 implies #[trigger] j(i) == (|i: int| fadd(a(i), b(i)))(
        i,
    ) by {
        crate::field::lemma_fmul_distr(fpow(gamma, i), fmul(g8, f(i)), f(8 + i));
        lemma_fmul_assoc(fpow(gamma, i), g8, f(i));
        lemma_fmul_comm(fpow(gamma, i), g8);
        lemma_fpow_add(gamma, 8, i);
    }
    lemma_fsum_congr(j, |i: int| fadd(a(i), b(i)), 8);
    crate::sums::lemma_fsum_add(a, b, 8);
    let all = |p: int| fmul(fpow(gamma, swapped(p)), f(p));
    lemma_fsum_split(all, 8, 8);
    assert forall|i: int| 0 <= i < 8 implies #[trigger] all(i) == a(i) by {}
    lemma_fsum_congr(all, a, 8);
    let upper = |i: int| all(8 + i);
    assert forall|i: int| 0 <= i < 8 implies #[trigger] upper(i) == b(i) by {}
    lemma_fsum_congr(upper, b, 8);
    lemma_fsum_congr(|i: int| all(8 + i), upper, 8);
    let value = mle(table, position_coords(gamma));
    let s1 = derived_scale(gamma, 3);
    lemma_fmul_comm(s0, s1);
    lemma_fmul_assoc(s1, s0, value);
}

/// The byte-swapped sum is the sum over the bits themselves.
proof fn lemma_swapped_sum(f: spec_fn(int) -> F128, gamma: F128)
    ensures
        fsum(|p: int| fmul(fpow(gamma, swapped(p)), f(p)), 16) == fsum(
            |b: int| fmul(fpow(gamma, b), f(swapped(b))),
            16,
        ),
{
    let u = |p: int| fmul(fpow(gamma, swapped(p)), f(p));
    let v = |b: int| fmul(fpow(gamma, b), f(swapped(b)));
    lemma_fsum_split(u, 8, 8);
    lemma_fsum_split(v, 8, 8);
    let u2 = |i: int| u(8 + i);
    let v2 = |i: int| v(8 + i);
    assert forall|i: int| 0 <= i < 8 implies #[trigger] u(i) == v2(i) by {}
    assert forall|i: int| 0 <= i < 8 implies #[trigger] u2(i) == v(i) by {}
    lemma_fsum_congr(u, v2, 8);
    lemma_fsum_congr(u2, v, 8);
    lemma_fsum_congr(|i: int| u(8 + i), u2, 8);
    lemma_fsum_congr(|i: int| v(8 + i), v2, 8);
    crate::field::lemma_fadd_comm(fsum(u, 8), fsum(u2, 8));
}

proof fn lemma_four_scales(s1: F128, sp: F128, s2: F128, s3: F128, v: F128)
    ensures
        fmul(fmul(fmul(fmul(s1, sp), s2), s3), v) == fmul(
            sp,
            fmul(s3, fmul(s2, fmul(s1, v))),
        ),
{
    lemma_fmul_comm(s1, sp);
    lemma_fmul_assoc(sp, s1, s2);
    lemma_fmul_assoc(sp, fmul(s1, s2), s3);
    lemma_fmul_assoc(sp, fmul(fmul(s1, s2), s3), v);
    lemma_three_scales(s1, s2, s3, v);
}

/// The run's sum at word `w`: its permutations under powers of `nu`.
pub open spec fn run_row(
    table: Seq<F128>,
    records: nat,
    delta: F128,
    nu: F128,
    gamma: F128,
    p: int,
    w: int,
) -> F128 {
    let (third, block, free) = source_piece(p);
    fsum(
        |t: int|
            fmul(
                fpow(nu, t),
                state_row(table, records, delta, gamma, 4 * third + block + t, w),
            ),
        pow2(free) as int,
    )
}

/// The address of a run's cell.
proof fn lemma_run_address(p: int, t: int, w: int, b: int)
    requires
        0 <= p < 4,
        0 <= t < pow2(source_piece(p).2),
    ensures
        ({
            let (third, block, free) = source_piece(p);
            (block + t) * 131072 + (2 * third + 1) * 2048 + 16 * w + b == state_cell(
                4 * third + block + t,
                w,
                b,
            )
        }),
{
    lemma2_to64();
    let (third, block, free) = source_piece(p);
    let e = 4 * third + block + t;
    assert(0 <= block + t < 4);
    assert(e % 4 == block + t && e / 4 == third);
}

/// A sponge-side claim's term.
#[verifier::rlimit(40)]
proof fn lemma_keccak_term(
    table: Seq<F128>,
    records: nat,
    delta: F128,
    nu: F128,
    mu: F128,
    gamma: F128,
    p: int,
    base: int,
    k: nat,
)
    requires
        table.len() == pow2(records) * 524288,
        power_sum_defined(delta, records as int),
        nu != fone(),
        mu != fone(),
        gamma != fone(),
        0 <= p < 4,
        0 <= base,
        k <= 6,
        base % (pow2(k) as int) == 0,
        base + pow2(k) <= 128,
    ensures
        ({
            let claim = keccak_claim(records, delta, nu, mu, gamma, p, base, k);
            let (third, block, free) = source_piece(p);
            fmul(claim.1, mle(table, claim.0)) == fmul(
                fmul(fpow(nu, 4 * third + block - 1), fpow(mu, base)),
                piece_sum(|w: int| run_row(table, records, delta, nu, gamma, p, w), mu, base, k),
            )
        }),
{
    lemma2_to64();
    let (third, block, free) = source_piece(p);
    lemma_power_sum_defined(mu, k as int);
    lemma_power_sum_defined(nu, free as int);
    let claim = keccak_claim(records, delta, nu, mu, gamma, p, base, k);
    let pos = position_coords(gamma);
    let v = base / pow2(k) as int;
    let u = block / pow2(free) as int;
    let r6 = derived_point(mu, k) + pos;
    let r5 = bit_point(v, (7 - k) as nat) + r6;
    let r4 = bit_point(2 * third + 1, 6) + r5;
    let r3 = derived_point(nu, free) + r4;
    let r2 = bit_point(u, (2 - free) as nat) + r3;
    assert(pos.len() == 4 && r6.len() == k + 4 && r5.len() == 11 && r4.len() == 17 && r3.len()
        == free + 17 && r2.len() == 19);
    let (s1, sp, s2, s3) = (
        derived_scale(delta, records as int),
        position_scale(gamma),
        derived_scale(nu, free as int),
        derived_scale(mu, k as int),
    );
    let f0 = |i: int| table[i];
    lemma_pow2_adds(records, 19);
    assert(table =~= table_of(f0, records + 19));
    lemma_power_segment(f0, delta, records, r2);
    let f1 = |i: int|
        fsum(
            |j: int| fmul(fpow(delta, j), f0(j * pow2(r2.len()) + i)),
            pow2(records) as int,
        );
    assert(0 <= u < pow2((2 - free) as nat) && u * pow2(free) == block) by {
        if p == 1 {
            assert(2int / 2 == 1);
            assert(1int * 2 == 2) by (nonlinear_arith);
        } else if p == 0 {
            assert(1int / 1 == 1);
            assert(1int * 1 == 1) by (nonlinear_arith);
        } else if p == 2 {
            assert(0int / 4 == 0);
            assert(0int * 4 == 0) by (nonlinear_arith);
        } else {
            assert(0int / 2 == 0);
            assert(0int * 2 == 0) by (nonlinear_arith);
        }
    }
    lemma_bit_segment(f1, u, (2 - free) as nat, r3);
    let f2 = |i: int| f1(u * pow2(r3.len()) + i);
    lemma_power_segment(f2, nu, free, r4);
    let f3 = |i: int|
        fsum(|j: int| fmul(fpow(nu, j), f2(j * pow2(r4.len()) + i)), pow2(free) as int);
    lemma_bit_segment(f3, 2 * third + 1, 6, r5);
    let f4 = |i: int| f3((2 * third + 1) * pow2(r5.len()) + i);
    lemma_pow2_adds((7 - k) as nat, k);
    lemma_pow2_pos(k);
    vstd::arithmetic::div_mod::lemma_fundamental_div_mod(base, pow2(k) as int);
    assert(v * pow2(k) == base) by (nonlinear_arith)
        requires
            base == pow2(k) * v + 0,
    ;
    assert(0 <= v < pow2((7 - k) as nat)) by (nonlinear_arith)
        requires
            v * pow2(k) == base,
            0 <= base,
            base + pow2(k) <= 128,
            pow2((7 - k) as nat) * pow2(k) == 128,
            0 < pow2(k),
    ;
    lemma_bit_segment(f4, v, (7 - k) as nat, r6);
    let f5 = |i: int| f4(v * pow2(r6.len()) + i);
    lemma_power_segment(f5, mu, k, pos);
    let f6 = |i: int|
        fsum(|j: int| fmul(fpow(mu, j), f5(j * pow2(pos.len()) + i)), pow2(k) as int);
    lemma_position_segment(f6, gamma);
    let value = mle(table, claim.0);
    assert(claim.0 =~= derived_point(delta, records) + r2);
    lemma_four_scales(s1, sp, s2, s3, value);
    let head = fmul(fpow(nu, 4 * third + block - 1), fpow(mu, base));
    lemma_fmul_assoc(head, fmul(fmul(fmul(s1, sp), s2), s3), value);
    // The nested sums, address by address.
    let cell = |t: int, w: int, b: int|
        record_sum(table, records, delta, 524288, state_cell(4 * third + block + t, w, b));
    lemma_pow2_adds(k, 4);
    lemma_pow2_adds(free, 17);
    let size = pow2(k) as int;
    let frees = pow2(free) as int;
    let word_row = |b: int, w: int| fsum(|t: int| fmul(fpow(nu, t), cell(t, w, b)), frees);
    assert forall|b: int, x: int| 0 <= b < 16 && 0 <= x < size implies #[trigger] f5(
        x * pow2(pos.len()) + b,
    ) == word_row(b, base + x) by {
        let at = x * 16 + b;
        let i4 = v * pow2(r6.len()) + at;
        assert(i4 == (base + x) * 16 + b) by (nonlinear_arith)
            requires
                i4 == v * pow2(r6.len()) + at,
                at == x * 16 + b,
                pow2(r6.len()) == pow2(k) * 16,
                v * pow2(k) == base,
        ;
        let i3 = (2 * third + 1) * pow2(r5.len()) + i4;
        assert(i3 == (2 * third + 1) * 2048 + i4) by (nonlinear_arith)
            requires
                i3 == (2 * third + 1) * pow2(r5.len()) + i4,
                pow2(r5.len()) == 2048,
        ;
        let a = |j: int| fmul(fpow(nu, j), f2(j * pow2(r4.len()) + i3));
        let c = |t: int| fmul(fpow(nu, t), cell(t, base + x, b));
        assert forall|t: int| 0 <= t < frees implies #[trigger] a(t) == c(t) by {
            let i2 = t * pow2(r4.len()) + i3;
            let i1 = u * pow2(r3.len()) + i2;
            assert(i1 == (block + t) * 131072 + i3) by (nonlinear_arith)
                requires
                    i1 == u * pow2(r3.len()) + i2,
                    i2 == t * pow2(r4.len()) + i3,
                    pow2(r4.len()) == 131072,
                    pow2(r3.len()) == pow2(free) * 131072,
                    u * pow2(free) == block,
            ;
            lemma_run_address(p, t, base + x, b);
            let y = |j: int| fmul(fpow(delta, j), f0(j * pow2(r2.len()) + i1));
            let z = |rec: int| fmul(fpow(delta, rec), table[rec * 524288 + i1]);
            assert forall|r: int| 0 <= r < pow2(records) implies #[trigger] y(r) == z(r) by {
                assert(r * pow2(r2.len()) == r * 524288) by (nonlinear_arith)
                    requires
                        pow2(r2.len()) == 524288,
                ;
            }
            lemma_fsum_congr(y, z, pow2(records) as int);
        }
        lemma_fsum_congr(a, c, frees);
    }
    assert forall|b: int| 0 <= b < 16 implies #[trigger] f6(b) == fsum(
        |x: int| fmul(fpow(mu, x), word_row(b, base + x)),
        size,
    ) by {
        let a = |j: int| fmul(fpow(mu, j), f5(j * pow2(pos.len()) + b));
        let c = |x: int| fmul(fpow(mu, x), word_row(b, base + x));
        assert forall|x: int| 0 <= x < size implies #[trigger] a(x) == c(x) by {
            assert(f5(x * pow2(pos.len()) + b) == word_row(b, base + x));
        }
        lemma_fsum_congr(a, c, size);
    }
    assert forall|b: int, w: int| #[trigger] word_row(b, w) == fsum(
        |t: int|
            fmul(
                fpow(nu, t),
                record_sum(
                    table,
                    records,
                    delta,
                    524288,
                    state_cell(4 * source_piece(p).0 + source_piece(p).1 + t, w, b),
                ),
            ),
        pow2(source_piece(p).2) as int,
    ) by {
        lemma_fsum_congr(
            |t: int| fmul(fpow(nu, t), cell(t, w, b)),
            |t: int|
                fmul(
                    fpow(nu, t),
                    record_sum(
                        table,
                        records,
                        delta,
                        524288,
                        state_cell(4 * source_piece(p).0 + source_piece(p).1 + t, w, b),
                    ),
                ),
            frees,
        );
    }
    lemma_keccak_exchange(table, records, delta, nu, mu, gamma, p, base, size, f6, word_row);
}

/// The sums over the position bits, the words and the permutations exchange.
proof fn lemma_keccak_exchange(
    table: Seq<F128>,
    records: nat,
    delta: F128,
    nu: F128,
    mu: F128,
    gamma: F128,
    p: int,
    base: int,
    size: int,
    f6: spec_fn(int) -> F128,
    word_row: spec_fn(int, int) -> F128,
)
    requires
        0 <= p < 4,
        exists|k: nat| #[trigger] pow2(k) == size,
        forall|b: int|
            0 <= b < 16 ==> #[trigger] f6(b) == fsum(
                |x: int| fmul(fpow(mu, x), word_row(b, base + x)),
                size,
            ),
        forall|b: int, w: int| #[trigger]
            word_row(b, w) == fsum(
                |t: int|
                    fmul(
                        fpow(nu, t),
                        record_sum(
                            table,
                            records,
                            delta,
                            524288,
                            state_cell(4 * source_piece(p).0 + source_piece(p).1 + t, w, b),
                        ),
                    ),
                pow2(source_piece(p).2) as int,
            ),
    ensures
        fsum(|b: int| fmul(fpow(gamma, swapped(b)), f6(b)), 16) == fsum(
            |x: int|
                fmul(
                    fpow(mu, x),
                    (|w: int| run_row(table, records, delta, nu, gamma, p, w))(base + x),
                ),
            size,
        ),
{
    let (third, block, free) = source_piece(p);
    let frees = pow2(free) as int;
    let c = |b: int| fpow(gamma, swapped(b));
    let d = |x: int| fpow(mu, x);
    let g = |b: int, x: int| word_row(b, base + x);
    let outer = |b: int| fmul(fpow(gamma, swapped(b)), f6(b));
    let opened = |b: int| fmul(c(b), fsum(|x: int| fmul(d(x), g(b, x)), size));
    assert forall|b: int| 0 <= b < 16 implies #[trigger] outer(b) == opened(b) by {
        lemma_fsum_congr(
            |x: int| fmul(fpow(mu, x), word_row(b, base + x)),
            |x: int| fmul(d(x), g(b, x)),
            size,
        );
    }
    lemma_fsum_congr(outer, opened, 16);
    lemma_weighted_exchange(c, d, g, 16, size);
    let swapped_rows = |x: int| fmul(d(x), fsum(|b: int| fmul(c(b), g(b, x)), 16));
    let target = |x: int|
        fmul(
            fpow(mu, x),
            (|w: int| run_row(table, records, delta, nu, gamma, p, w))(base + x),
        );
    assert forall|x: int| 0 <= x < size implies #[trigger] swapped_rows(x) == target(x) by {
        let w = base + x;
        let e = |t: int| fpow(nu, t);
        let h = |b: int, t: int|
            record_sum(table, records, delta, 524288, state_cell(4 * third + block + t, w, b));
        let one = |b: int| fmul(c(b), g(b, x));
        let two = |b: int| fmul(c(b), fsum(|t: int| fmul(e(t), h(b, t)), frees));
        assert forall|b: int| 0 <= b < 16 implies #[trigger] one(b) == two(b) by {
            lemma_fsum_congr(
                |t: int|
                    fmul(
                        fpow(nu, t),
                        record_sum(
                            table,
                            records,
                            delta,
                            524288,
                            state_cell(4 * source_piece(p).0 + source_piece(p).1 + t, w, b),
                        ),
                    ),
                |t: int| fmul(e(t), h(b, t)),
                frees,
            );
            assert(g(b, x) == word_row(b, w));
        }
        lemma_fsum_congr(one, two, 16);
        lemma_fsum_congr(|b: int| fmul(c(b), g(b, x)), one, 16);
        lemma_weighted_exchange(c, e, h, 16, frees);
        let left = |t: int| fmul(e(t), fsum(|b: int| fmul(c(b), h(b, t)), 16));
        let right = |t: int|
            fmul(
                fpow(nu, t),
                state_row(table, records, delta, gamma, 4 * third + block + t, w),
            );
        assert forall|t: int| 0 <= t < frees implies #[trigger] left(t) == right(t) by {
            let f = |b: int| h(b, t);
            lemma_swapped_sum(f, gamma);
            lemma_fsum_congr(
                |b: int| fmul(c(b), h(b, t)),
                |p: int| fmul(fpow(gamma, swapped(p)), f(p)),
                16,
            );
            lemma_fsum_congr(
                |b: int| fmul(fpow(gamma, b), f(swapped(b))),
                |b: int|
                    fmul(
                        fpow(gamma, b),
                        record_sum(
                            table,
                            records,
                            delta,
                            524288,
                            state_cell(4 * third + block + t, w, swapped(b)),
                        ),
                    ),
                16,
            );
        }
        lemma_fsum_congr(left, right, frees);
    }
    lemma_fsum_congr(swapped_rows, target, size);
}

/// The claims of one source run.
proof fn lemma_keccak_run(
    table: Seq<F128>,
    records: nat,
    delta: F128,
    nu: F128,
    mu: F128,
    gamma: F128,
    p: int,
)
    requires
        table.len() == pow2(records) * 524288,
        power_sum_defined(delta, records as int),
        nu != fone(),
        mu != fone(),
        gamma != fone(),
        0 <= p < 4,
    ensures
        ({
            let claims = keccak_run_claims(
                records,
                delta,
                nu,
                mu,
                gamma,
                p,
                pieces_of(0, 68).len() as int,
            );
            let (third, block, free) = source_piece(p);
            claims_sum(claims, opened(table, claims)) == fmul(
                fpow(nu, 4 * third + block - 1),
                fsum(
                    |w: int|
                        fmul(fpow(mu, w), run_row(table, records, delta, nu, gamma, p, w)),
                    68,
                ),
            )
        }),
{
    lemma2_to64();
    let (third, block, free) = source_piece(p);
    let pieces = pieces_of(0, 68);
    let n = pieces.len() as int;
    let claims = keccak_run_claims(records, delta, nu, mu, gamma, p, n);
    let row = |w: int| run_row(table, records, delta, nu, gamma, p, w);
    let power = fpow(nu, 4 * third + block - 1);
    let term = |i: int| fmul(claims[i].1, opened(table, claims)[i]);
    let tiled = |i: int|
        fmul(fpow(mu, pieces[i].0 - 0), piece_sum(row, mu, pieces[i].0, pieces[i].1));
    let scaled = |i: int| fmul(power, tiled(i));
    assert forall|i: int| 0 <= i < n implies #[trigger] term(i) == scaled(i) by {
        lemma_block_piece(0, i);
        let (base, k) = pieces[i];
        lemma_keccak_term(table, records, delta, nu, mu, gamma, p, base, k);
        lemma_fmul_assoc(power, fpow(mu, base), piece_sum(row, mu, base, k));
        assert(piece_sum(
            |w: int| run_row(table, records, delta, nu, gamma, p, w),
            mu,
            base,
            k,
        ) == piece_sum(row, mu, base, k));
    }
    lemma_fsum_congr(term, scaled, n);
    lemma_fsum_scale(power, tiled, n);
    lemma_fsum_congr(scaled, |i: int| fmul(power, tiled(i)), n);
    lemma_tiled_sum(row, mu, 0, 0, 68);
    lemma_fsum_congr(
        tiled,
        |i: int|
            fmul(
                fpow(mu, pieces_of(0, 68)[i].0 - 0),
                piece_sum(row, mu, pieces_of(0, 68)[i].0, pieces_of(0, 68)[i].1),
            ),
        n,
    );
    let flat = |w: int| fmul(fpow(mu, 0 - 0 + w), row(0 + w));
    let target = |w: int| fmul(fpow(mu, w), run_row(table, records, delta, nu, gamma, p, w));
    assert forall|w: int| 0 <= w < 68 implies #[trigger] flat(w) == target(w) by {}
    lemma_fsum_congr(flat, target, 68);
    lemma_fsum_congr(|w: int| fmul(fpow(mu, 0 - 0 + w), row(0 + w)), flat, 68);
}

/// The block sum of permutation `e`.
pub open spec fn permutation_sum(
    table: Seq<F128>,
    records: nat,
    delta: F128,
    mu: F128,
    gamma: F128,
    e: int,
) -> F128 {
    fsum(|w: int| fmul(fpow(mu, w), state_row(table, records, delta, gamma, e, w)), 68)
}

/// A run's sum is the sum over its permutations.
proof fn lemma_run_permutations(
    table: Seq<F128>,
    records: nat,
    delta: F128,
    nu: F128,
    mu: F128,
    gamma: F128,
    p: int,
)
    requires
        0 <= p < 4,
    ensures
        ({
            let (third, block, free) = source_piece(p);
            fmul(
                fpow(nu, 4 * third + block - 1),
                fsum(
                    |w: int|
                        fmul(fpow(mu, w), run_row(table, records, delta, nu, gamma, p, w)),
                    68,
                ),
            ) == fsum(
                |t: int|
                    fmul(
                        fpow(nu, 4 * third + block - 1 + t),
                        permutation_sum(
                            table,
                            records,
                            delta,
                            mu,
                            gamma,
                            4 * third + block + t,
                        ),
                    ),
                pow2(free) as int,
            )
        }),
{
    let (third, block, free) = source_piece(p);
    let frees = pow2(free) as int;
    let first = 4 * third + block;
    let power = fpow(nu, first - 1);
    let c = |w: int| fpow(mu, w);
    let d = |t: int| fpow(nu, t);
    let g = |w: int, t: int| state_row(table, records, delta, gamma, first + t, w);
    let rows = |w: int| fmul(fpow(mu, w), run_row(table, records, delta, nu, gamma, p, w));
    let opened = |w: int| fmul(c(w), fsum(|t: int| fmul(d(t), g(w, t)), frees));
    assert forall|w: int| 0 <= w < 68 implies #[trigger] rows(w) == opened(w) by {
        lemma_fsum_congr(
            |t: int|
                fmul(
                    fpow(nu, t),
                    state_row(table, records, delta, gamma, 4 * third + block + t, w),
                ),
            |t: int| fmul(d(t), g(w, t)),
            frees,
        );
    }
    lemma_fsum_congr(rows, opened, 68);
    lemma_weighted_exchange(c, d, g, 68, frees);
    let columns = |t: int| fmul(d(t), fsum(|w: int| fmul(c(w), g(w, t)), 68));
    lemma_fsum_scale(power, columns, frees);
    let scaled = |t: int| fmul(power, columns(t));
    let target = |t: int|
        fmul(
            fpow(nu, 4 * third + block - 1 + t),
            permutation_sum(table, records, delta, mu, gamma, 4 * third + block + t),
        );
    assert forall|t: int| 0 <= t < frees implies #[trigger] scaled(t) == target(t) by {
        let sum = fsum(|w: int| fmul(c(w), g(w, t)), 68);
        lemma_fmul_assoc(power, d(t), sum);
        lemma_fpow_add(nu, first - 1, t);
        lemma_fsum_congr(
            |w: int| fmul(c(w), g(w, t)),
            |w: int| fmul(fpow(mu, w), state_row(table, records, delta, gamma, first + t, w)),
            68,
        );
    }
    lemma_fsum_congr(scaled, target, frees);
    lemma_fsum_congr(|t: int| fmul(power, columns(t)), scaled, frees);
    lemma_fsum_congr(
        |w: int| fmul(fpow(mu, w), run_row(table, records, delta, nu, gamma, p, w)),
        rows,
        68,
    );
}

/// The claims of the first runs: the permutations that they cover.
proof fn lemma_keccak_runs(
    table: Seq<F128>,
    records: nat,
    delta: F128,
    nu: F128,
    mu: F128,
    gamma: F128,
    n: int,
    covered: int,
)
    requires
        table.len() == pow2(records) * 524288,
        power_sum_defined(delta, records as int),
        nu != fone(),
        mu != fone(),
        gamma != fone(),
        0 <= n <= 4,
        covered == (if n == 0 {
            0
        } else if n == 1 {
            1
        } else if n == 2 {
            3
        } else if n == 3 {
            7
        } else {
            9int
        }),
    ensures
        ({
            let claims = keccak_claims(records, delta, nu, mu, gamma, n);
            claims_sum(claims, opened(table, claims)) == fsum(
                |q: int|
                    fmul(
                        fpow(nu, q),
                        permutation_sum(table, records, delta, mu, gamma, q + 1),
                    ),
                covered,
            )
        }),
    decreases n,
{
    lemma2_to64();
    if n > 0 {
        let before: int = if n == 1 {
            0
        } else if n == 2 {
            1
        } else if n == 3 {
            3
        } else {
            7
        };
        lemma_keccak_runs(table, records, delta, nu, mu, gamma, n - 1, before);
        lemma_keccak_run(table, records, delta, nu, mu, gamma, n - 1);
        lemma_run_permutations(table, records, delta, nu, mu, gamma, n - 1);
        lemma_claims_split(
            table,
            keccak_claims(records, delta, nu, mu, gamma, n - 1),
            keccak_run_claims(
                records,
                delta,
                nu,
                mu,
                gamma,
                n - 1,
                pieces_of(0, 68).len() as int,
            ),
        );
        let (third, block, free) = source_piece(n - 1);
        let frees = pow2(free) as int;
        assert(4 * third + block - 1 == before && before + frees == covered);
        let all = |q: int|
            fmul(fpow(nu, q), permutation_sum(table, records, delta, mu, gamma, q + 1));
        lemma_fsum_split(all, before, frees);
        let shifted = |t: int| all(before + t);
        let run = |t: int|
            fmul(
                fpow(nu, 4 * third + block - 1 + t),
                permutation_sum(table, records, delta, mu, gamma, 4 * third + block + t),
            );
        assert forall|t: int| 0 <= t < frees implies #[trigger] shifted(t) == run(t) by {}
        lemma_fsum_congr(shifted, run, frees);
        lemma_fsum_congr(|i: int| all(before + i), shifted, frees);
    }
}

/// The sponge-side claims open the linkage sum of the output states:
/// `sum delta^rec nu^q mu^w gamma^b` times bit `16 w + (b xor 8)` of the output
/// of permutation `1 + q`.
pub proof fn keccak_claims_open_the_states(
    table: Seq<F128>,
    records: nat,
    delta: F128,
    nu: F128,
    mu: F128,
    gamma: F128,
)
    requires
        table.len() == pow2(records) * 524288,
        records == 0 || delta != fone(),
        nu != fone(),
        mu != fone(),
        gamma != fone(),
    ensures
        ({
            let claims = keccak_claims(records, delta, nu, mu, gamma, 4);
            claims_sum(claims, opened(table, claims)) == linked_sum(
                nu,
                mu,
                |q: int, w: int| state_row(table, records, delta, gamma, q + 1, w),
            )
        }),
{
    lemma_power_sum_defined(delta, records as int);
    lemma_keccak_runs(table, records, delta, nu, mu, gamma, 4, 9);
    let cell = |q: int, w: int| state_row(table, records, delta, gamma, q + 1, w);
    let a = |q: int|
        fmul(fpow(nu, q), permutation_sum(table, records, delta, mu, gamma, q + 1));
    let b = |q: int| fmul(fpow(nu, q), fsum(|w: int| fmul(fpow(mu, w), cell(q, w)), 68));
    assert forall|q: int| 0 <= q < 9 implies #[trigger] a(q) == b(q) by {
        lemma_fsum_congr(
            |w: int| fmul(fpow(mu, w), state_row(table, records, delta, gamma, q + 1, w)),
            |w: int| fmul(fpow(mu, w), cell(q, w)),
            68,
        );
    }
    lemma_fsum_congr(a, b, 9);
}

/// The word planes hold the squeeze stream of the states: word bit `b` of slot
/// `68 q + w` is bit `16 w + (b xor 8)` of the output of permutation `1 + q`.
pub open spec fn words_are_the_stream(
    slots: Seq<bool>,
    sponge: Seq<bool>,
    records: int,
) -> bool {
    forall|rec: int, q: int, w: int, b: int|
        0 <= rec < records && 0 <= q < 9 && 0 <= w < 68 && 0 <= b < 16 ==> slots[rec * 131072
            + wire_at(X + b, 68 * q + w)] == #[trigger] sponge[rec * 524288 + state_cell(
            q + 1,
            w,
            swapped(b),
        )]
}

/// Where the words are the stream, the two weighted sums of openings agree,
/// whatever the challenges.
pub proof fn honest_linkage_holds(
    slots: Seq<bool>,
    sponge: Seq<bool>,
    records: nat,
    delta: F128,
    nu: F128,
    mu: F128,
    gamma: F128,
)
    requires
        slots.len() == pow2(records) * 131072,
        sponge.len() == pow2(records) * 524288,
        words_are_the_stream(slots, sponge, pow2(records) as int),
        records == 0 || delta != fone(),
        nu != fone(),
        mu != fone(),
        gamma != fone(),
    ensures
        ({
            let left = slot_claims(records, delta, nu, mu, gamma, 9);
            let right = keccak_claims(records, delta, nu, mu, gamma, 4);
            claims_sum(left, opened(bit_table(slots), left)) == claims_sum(
                right,
                opened(bit_table(sponge), right),
            )
        }),
{
    let (s, k) = (bit_table(slots), bit_table(sponge));
    let total = pow2(records) as int;
    slot_claims_open_the_words(s, records, delta, nu, mu, gamma);
    keccak_claims_open_the_states(k, records, delta, nu, mu, gamma);
    let left = |q: int, w: int| slot_row(s, records, delta, gamma, 68 * q + w);
    let right = |q: int, w: int| state_row(k, records, delta, gamma, q + 1, w);
    let a = |q: int| fmul(fpow(nu, q), fsum(|w: int| fmul(fpow(mu, w), left(q, w)), 68));
    let b = |q: int| fmul(fpow(nu, q), fsum(|w: int| fmul(fpow(mu, w), right(q, w)), 68));
    assert forall|q: int| 0 <= q < 9 implies #[trigger] a(q) == b(q) by {
        let x = |w: int| fmul(fpow(mu, w), left(q, w));
        let y = |w: int| fmul(fpow(mu, w), right(q, w));
        assert forall|w: int| 0 <= w < 68 implies #[trigger] x(w) == y(w) by {
            lemma_linked_cell(slots, sponge, records, delta, gamma, q, w);
        }
        lemma_fsum_congr(x, y, 68);
    }
    lemma_fsum_congr(a, b, 9);
    lemma_fsum_congr(
        a,
        |q: int| fmul(fpow(nu, q), fsum(|w: int| fmul(fpow(mu, w), left(q, w)), 68)),
        9,
    );
}

/// One word's rows agree on both sides.
proof fn lemma_linked_cell(
    slots: Seq<bool>,
    sponge: Seq<bool>,
    records: nat,
    delta: F128,
    gamma: F128,
    q: int,
    w: int,
)
    requires
        slots.len() == pow2(records) * 131072,
        sponge.len() == pow2(records) * 524288,
        words_are_the_stream(slots, sponge, pow2(records) as int),
        0 <= q < 9,
        0 <= w < 68,
    ensures
        slot_row(bit_table(slots), records, delta, gamma, 68 * q + w) == state_row(
            bit_table(sponge),
            records,
            delta,
            gamma,
            q + 1,
            w,
        ),
{
    let (s, k) = (bit_table(slots), bit_table(sponge));
    let total = pow2(records) as int;
    let x = |b: int|
        fmul(
            fpow(gamma, b),
            record_sum(s, records, delta, 131072, wire_at(X + b, 68 * q + w)),
        );
    let y = |b: int|
        fmul(
            fpow(gamma, b),
            record_sum(k, records, delta, 524288, state_cell(q + 1, w, swapped(b))),
        );
    assert forall|b: int| 0 <= b < 16 implies #[trigger] x(b) == y(b) by {
        let at = wire_at(X + b, 68 * q + w);
        let cell = state_cell(q + 1, w, swapped(b));
        let u = |rec: int| fmul(fpow(delta, rec), s[rec * 131072 + at]);
        let v = |rec: int| fmul(fpow(delta, rec), k[rec * 524288 + cell]);
        assert forall|rec: int| 0 <= rec < total implies #[trigger] u(rec) == v(rec) by {
            assert(sponge[rec * 524288 + state_cell(q + 1, w, swapped(b))] == slots[rec * 131072
                + wire_at(X + b, 68 * q + w)]);
            assert(0 <= at < 131072);
            assert(0 <= cell < 524288);
            assert(0 <= rec * 131072 + at < slots.len());
            assert(0 <= rec * 524288 + cell < sponge.len());
        }
        lemma_fsum_congr(u, v, total);
    }
    lemma_fsum_congr(x, y, 16);
}

/// The openings of packed witnesses whose words are the stream pass the
/// linkage check, whatever the challenges.
pub proof fn honest_link_verifies(
    slots: Seq<F128>,
    sponge: Seq<F128>,
    slot_values: Seq<F128>,
    keccak_values: Seq<F128>,
    records: nat,
    delta: F128,
    nu: F128,
    mu: F128,
    gamma: F128,
)
    requires
        128 * slots.len() == pow2(records) * 131072,
        128 * sponge.len() == pow2(records) * 524288,
        words_are_the_stream(unpacked(slots), unpacked(sponge), pow2(records) as int),
        challenges_regular(records as int, delta, nu, mu, gamma),
        slot_values == Seq::new(
            slot_claims(records, delta, nu, mu, gamma, 9).len(),
            |i: int| bit_extension(slots, slot_claims(records, delta, nu, mu, gamma, 9)[i].0),
        ),
        keccak_values == Seq::new(
            keccak_claims(records, delta, nu, mu, gamma, 4).len(),
            |i: int| bit_extension(sponge, keccak_claims(records, delta, nu, mu, gamma, 4)[i].0),
        ),
    ensures
        claims_sum(slot_claims(records, delta, nu, mu, gamma, 9), slot_values) == claims_sum(
            keccak_claims(records, delta, nu, mu, gamma, 4),
            keccak_values,
        ),
{
    lemma2_to64();
    lemma_pow2_adds(records, 17);
    lemma_pow2_adds(records, 19);
    lemma_slot_lengths(records, delta, nu, mu, gamma, 9);
    lemma_keccak_lengths(records, delta, nu, mu, gamma, 4);
    let left = slot_claims(records, delta, nu, mu, gamma, 9);
    let right = keccak_claims(records, delta, nu, mu, gamma, 4);
    honest_linkage_holds(unpacked(slots), unpacked(sponge), records, delta, nu, mu, gamma);
    assert forall|i: int| 0 <= i < left.len() implies #[trigger] slot_values[i] == opened(
        bit_table(unpacked(slots)),
        left,
    )[i] by {
        assert(left[i].0.len() == records + 17);
        assert(leading_bits(slots, pow2(records + 17)) =~= unpacked(slots));
    }
    assert(slot_values =~= opened(bit_table(unpacked(slots)), left));
    assert forall|i: int| 0 <= i < right.len() implies #[trigger] keccak_values[i] == opened(
        bit_table(unpacked(sponge)),
        right,
    )[i] by {
        assert(right[i].0.len() == records + 19);
        assert(leading_bits(sponge, pow2(records + 19)) =~= unpacked(sponge));
    }
    assert(keccak_values =~= opened(bit_table(unpacked(sponge)), right));
}

// ---------------------------------------------------------------------------
// Binding.
// ---------------------------------------------------------------------------

/// The two weighted sums of openings agree at the given challenges.
pub open spec fn sums_agree(
    slots: Seq<bool>,
    sponge: Seq<bool>,
    records: nat,
    delta: F128,
    nu: F128,
    mu: F128,
    gamma: F128,
) -> bool {
    let left = slot_claims(records, delta, nu, mu, gamma, 9);
    let right = keccak_claims(records, delta, nu, mu, gamma, 4);
    claims_sum(left, opened(bit_table(slots), left)) == claims_sum(
        right,
        opened(bit_table(sponge), right),
    )
}

/// Challenges that decide: distinct values of each, more than the degree of the
/// sums in it, none of them one.
pub open spec fn challenges_decide(
    records: nat,
    deltas: Seq<F128>,
    nus: Seq<F128>,
    mus: Seq<F128>,
    gammas: Seq<F128>,
) -> bool {
    &&& distinct(deltas) && distinct(nus) && distinct(mus) && distinct(gammas)
    &&& deltas.len() >= pow2(records)
    &&& nus.len() >= 9
    &&& mus.len() >= 68
    &&& gammas.len() >= 16
    &&& forall|i: int| 0 <= i < deltas.len() ==> records == 0 || #[trigger] deltas[i] != fone()
    &&& forall|i: int| 0 <= i < nus.len() ==> #[trigger] nus[i] != fone()
    &&& forall|i: int| 0 <= i < mus.len() ==> #[trigger] mus[i] != fone()
    &&& forall|i: int| 0 <= i < gammas.len() ==> #[trigger] gammas[i] != fone()
}

/// Where the sums agree for every squeeze and word challenge, so do the rows of
/// every word.
proof fn lemma_rows_bound(
    slots: Seq<bool>,
    sponge: Seq<bool>,
    records: nat,
    delta: F128,
    nus: Seq<F128>,
    mus: Seq<F128>,
    gamma: F128,
    q: int,
    w: int,
)
    requires
        slots.len() == pow2(records) * 131072,
        sponge.len() == pow2(records) * 524288,
        distinct(nus) && distinct(mus),
        nus.len() >= 9,
        mus.len() >= 68,
        records == 0 || delta != fone(),
        gamma != fone(),
        forall|i: int| 0 <= i < nus.len() ==> #[trigger] nus[i] != fone(),
        forall|i: int| 0 <= i < mus.len() ==> #[trigger] mus[i] != fone(),
        forall|j: int, k: int|
            0 <= j < nus.len() && 0 <= k < mus.len() ==> sums_agree(
                slots,
                sponge,
                records,
                delta,
                #[trigger] nus[j],
                #[trigger] mus[k],
                gamma,
            ),
        0 <= q < 9,
        0 <= w < 68,
    ensures
        slot_row(bit_table(slots), records, delta, gamma, 68 * q + w) == state_row(
            bit_table(sponge),
            records,
            delta,
            gamma,
            q + 1,
            w,
        ),
{
    let (s, t) = (bit_table(slots), bit_table(sponge));
    let left = |q: int, w: int| slot_row(s, records, delta, gamma, 68 * q + w);
    let right = |q: int, w: int| state_row(t, records, delta, gamma, q + 1, w);
    let x = |w: int| left(q, w);
    let y = |w: int| right(q, w);
    assert forall|k: int| 0 <= k < mus.len() implies fsum(
        |w: int| fmul(fpow(#[trigger] mus[k], w), x(w)),
        68,
    ) == fsum(|w: int| fmul(fpow(mus[k], w), y(w)), 68) by {
        let mu = mus[k];
        let f = |q: int| fsum(|w: int| fmul(fpow(mu, w), left(q, w)), 68);
        let g = |q: int| fsum(|w: int| fmul(fpow(mu, w), right(q, w)), 68);
        assert forall|j: int| 0 <= j < nus.len() implies fsum(
            |q: int| fmul(fpow(#[trigger] nus[j], q), f(q)),
            9,
        ) == fsum(|q: int| fmul(fpow(nus[j], q), g(q)), 9) by {
            let nu = nus[j];
            assert(sums_agree(slots, sponge, records, delta, nus[j], mus[k], gamma));
            slot_claims_open_the_words(s, records, delta, nu, mu, gamma);
            keccak_claims_open_the_states(t, records, delta, nu, mu, gamma);
            lemma_fsum_congr(
                |q: int| fmul(fpow(nu, q), fsum(|w: int| fmul(fpow(mu, w), left(q, w)), 68)),
                |q: int| fmul(fpow(nus[j], q), f(q)),
                9,
            );
            lemma_fsum_congr(
                |q: int| fmul(fpow(nu, q), fsum(|w: int| fmul(fpow(mu, w), right(q, w)), 68)),
                |q: int| fmul(fpow(nus[j], q), g(q)),
                9,
            );
        }
        lemma_power_sums_bind(f, g, 9, nus, q);
        lemma_fsum_congr(
            |w: int| fmul(fpow(mu, w), left(q, w)),
            |w: int| fmul(fpow(mus[k], w), x(w)),
            68,
        );
        lemma_fsum_congr(
            |w: int| fmul(fpow(mu, w), right(q, w)),
            |w: int| fmul(fpow(mus[k], w), y(w)),
            68,
        );
    }
    lemma_power_sums_bind(x, y, 68, mus, w);
}

/// The linkage binds every cell: where the two weighted sums agree at more
/// challenges of each kind than their degrees, the committed words are the
/// stream. A word that is not refutes all but as few.
pub proof fn linkage_binds_the_words(
    slots: Seq<bool>,
    sponge: Seq<bool>,
    records: nat,
    deltas: Seq<F128>,
    nus: Seq<F128>,
    mus: Seq<F128>,
    gammas: Seq<F128>,
)
    requires
        slots.len() == pow2(records) * 131072,
        sponge.len() == pow2(records) * 524288,
        challenges_decide(records, deltas, nus, mus, gammas),
        forall|i: int, j: int, k: int, l: int|
            0 <= i < deltas.len() && 0 <= j < nus.len() && 0 <= k < mus.len() && 0 <= l
                < gammas.len() ==> sums_agree(
                slots,
                sponge,
                records,
                #[trigger] deltas[i],
                #[trigger] nus[j],
                #[trigger] mus[k],
                #[trigger] gammas[l],
            ),
    ensures
        words_are_the_stream(slots, sponge, pow2(records) as int),
{
    let (s, t) = (bit_table(slots), bit_table(sponge));
    let total = pow2(records) as int;
    lemma_pow2_pos(records);
    assert forall|rec: int, q: int, w: int, b: int|
        0 <= rec < total && 0 <= q < 9 && 0 <= w < 68 && 0 <= b < 16 implies slots[rec * 131072
        + wire_at(X + b, 68 * q + w)] == #[trigger] sponge[rec * 524288 + state_cell(
        q + 1,
        w,
        swapped(b),
    )] by {
        let at = wire_at(X + b, 68 * q + w);
        let cell = state_cell(q + 1, w, swapped(b));
        let u = |rec: int| s[rec * 131072 + at];
        let v = |rec: int| t[rec * 524288 + cell];
        assert forall|i: int| 0 <= i < deltas.len() implies fsum(
            |rec: int| fmul(fpow(#[trigger] deltas[i], rec), u(rec)),
            total,
        ) == fsum(|rec: int| fmul(fpow(deltas[i], rec), v(rec)), total) by {
            let delta = deltas[i];
            let x = |b: int| record_sum(s, records, delta, 131072, wire_at(X + b, 68 * q + w));
            let y = |b: int|
                record_sum(t, records, delta, 524288, state_cell(q + 1, w, swapped(b)));
            assert forall|l: int| 0 <= l < gammas.len() implies fsum(
                |b: int| fmul(fpow(#[trigger] gammas[l], b), x(b)),
                16,
            ) == fsum(|b: int| fmul(fpow(gammas[l], b), y(b)), 16) by {
                let gamma = gammas[l];
                assert forall|j: int, k: int|
                    0 <= j < nus.len() && 0 <= k < mus.len() implies sums_agree(
                    slots,
                    sponge,
                    records,
                    delta,
                    #[trigger] nus[j],
                    #[trigger] mus[k],
                    gamma,
                ) by {
                    assert(sums_agree(
                        slots,
                        sponge,
                        records,
                        deltas[i],
                        nus[j],
                        mus[k],
                        gammas[l],
                    ));
                }
                lemma_rows_bound(slots, sponge, records, delta, nus, mus, gamma, q, w);
                lemma_fsum_congr(
                    |b: int|
                        fmul(
                            fpow(gamma, b),
                            record_sum(
                                s,
                                records,
                                delta,
                                131072,
                                wire_at(X + b, 68 * q + w),
                            ),
                        ),
                    |b: int| fmul(fpow(gammas[l], b), x(b)),
                    16,
                );
                lemma_fsum_congr(
                    |b: int|
                        fmul(
                            fpow(gamma, b),
                            record_sum(
                                t,
                                records,
                                delta,
                                524288,
                                state_cell(q + 1, w, swapped(b)),
                            ),
                        ),
                    |b: int| fmul(fpow(gammas[l], b), y(b)),
                    16,
                );
            }
            lemma_power_sums_bind(x, y, 16, gammas, b);
            lemma_fsum_congr(
                |rec: int| fmul(fpow(delta, rec), s[rec * 131072 + at]),
                |rec: int| fmul(fpow(deltas[i], rec), u(rec)),
                total,
            );
            lemma_fsum_congr(
                |rec: int| fmul(fpow(delta, rec), t[rec * 524288 + cell]),
                |rec: int| fmul(fpow(deltas[i], rec), v(rec)),
                total,
            );
        }
        lemma_power_sums_bind(u, v, total, deltas, rec);
        assert(0 <= at < 131072);
        assert(0 <= cell < 524288);
        assert(0 <= rec * 131072 + at < slots.len());
        assert(0 <= rec * 524288 + cell < sponge.len());
        assert(fone() != fzero());
    }
}

/// The linked words are the stream of SHAKE256: where the words are the stream
/// of states that run the sponge on a frame, each is the squeezed word.
pub proof fn linked_words_are_squeezed(
    slots: Seq<bool>,
    sponge: Seq<bool>,
    records: int,
    rec: int,
    frame: Seq<u8>,
    q: int,
    w: int,
    b: int,
)
    requires
        words_are_the_stream(slots, sponge, records),
        0 <= rec < records,
        runs_the_sponge(sponge, rec, frame),
        136 <= frame.len() < 272,
        0 <= q < 9,
        0 <= w < 68,
        0 <= b < 16,
    ensures
        slots[rec * 131072 + wire_at(X + b, 68 * q + w)] == nat_bit(
            state_word(squeeze_state(frame, q), w),
            b,
        ),
{
    let p = 16 * w + swapped(b);
    let window = slot_window(sponge, rec, q + 1, true);
    trace_squeezes(frame, q);
    lemma_word_bit(squeeze_state(frame, q), w, b);
    assert(rec * 524288 + state_cell(q + 1, w, swapped(b)) == slot_address(rec, q + 1, true, p));
    assert(slot_window(sponge, rec, q + 1, false) == slot_bits(trace_state(frame, q + 1)));
    assert(window[p] == sponge[rec * 524288 + state_cell(q + 1, w, swapped(b))]);
}

/// The stream of a frame: the words that its nine squeeze blocks spell.
pub open spec fn stream_words(frame: Seq<u8>) -> Seq<u16> {
    Seq::new(SLOTS as nat, |s: int| state_word(squeeze_state(frame, s / 68), s % 68) as u16)
}

/// A state's word has sixteen bits.
proof fn lemma_word_range(state: Seq<bool>, w: int)
    ensures
        0 <= state_word(state, w) < 65536,
{
    lemma2_to64();
    lemma_bits_value_range(|t: int| state[logical(8 * (2 * w) + t)], 8);
    lemma_bits_value_range(|t: int| state[logical(8 * (2 * w + 1) + t)], 8);
}

/// A word bit of a block in the witness.
proof fn lemma_block_word(slots: Seq<bool>, rec: int, s: int, b: int)
    requires
        0 <= rec,
        (rec + 1) * 131072 <= slots.len(),
        0 <= s < 1024,
        0 <= b < 16,
    ensures
        value(block_of(slots, K as int, rec), X + b, s) == slots[rec * 131072 + wire_at(X + b, s)],
{
    assert(0 <= wire_at(X + b, s) < 131072);
    assert(rec * 131072 + 131072 == (rec + 1) * 131072);
}

/// Real witnesses are linked: the witness that the slot blocks generate for the
/// words of records' squeeze blocks, and a sponge witness that holds the
/// records' traces, agree on every word.
pub proof fn generated_words_are_the_stream(
    slots: Seq<bool>,
    blocks: Seq<[u16; SLOTS]>,
    sponge: Seq<bool>,
    records: Seq<SpongeRecord>,
)
    requires
        slots.len() >= records.len() * 131072,
        blocks.len() == records.len(),
        forall|rec: int|
            0 <= rec < records.len() ==> is_block_witness(
                #[trigger] block_of(slots, K as int, rec),
                block_words(blocks, rec),
            ),
        forall|rec: int|
            0 <= rec < records.len() ==> (#[trigger] records[rec]).fits(),
        forall|rec: int, q: int, w: int|
            #![trigger blocks[rec]@[68 * q + w]]
            0 <= rec < records.len() && 0 <= q < 9 && 0 <= w < 68 ==> blocks[rec]@[68 * q + w]
                == state_word(squeeze_state(records[rec].frame(), q), w),
        holds_traces(sponge, records),
    ensures
        words_are_the_stream(slots, sponge, records.len() as int),
{
    assert forall|rec: int, q: int, w: int, b: int|
        0 <= rec < records.len() && 0 <= q < 9 && 0 <= w < 68 && 0 <= b < 16 implies slots[rec
        * 131072 + wire_at(X + b, 68 * q + w)] == #[trigger] sponge[rec * 524288 + state_cell(
        q + 1,
        w,
        swapped(b),
    )] by {
        let s = 68 * q + w;
        let frame = records[rec].frame();
        let block = block_of(slots, K as int, rec);
        let p = 16 * w + swapped(b);
        assert(records[rec].fits());
        assert(frame.len() == 106 + records[rec].message@.len());
        assert((rec + 1) * 131072 <= slots.len()) by (nonlinear_arith)
            requires
                rec + 1 <= records.len(),
                slots.len() >= records.len() * 131072,
        ;
        lemma_block_word(slots, rec, s, b);
        assert(is_block_witness(block, block_words(blocks, rec)));
        assert(word_value(block, s) == blocks[rec]@[s]);
        lemma_value_bits(|i: int| value(block, X + i, s), 16, b);
        trace_squeezes(frame, q);
        lemma_word_bit(squeeze_state(frame, q), w, b);
        assert(rec * 524288 + state_cell(q + 1, w, swapped(b)) == slot_address(
            rec,
            q + 1,
            true,
            p,
        ));
        assert(sponge[slot_address(rec, q + 1, true, p)] == slot_bits(
            permutation(trace_state(frame, q + 1)),
        )[p]);
    }
}

/// A linked block carries the stream: where the words are the stream of states
/// that run the sponge on a frame and the block's rows hold, the block's words
/// are the frame's squeezed words.
pub proof fn linked_blocks_carry_the_stream(
    slots: Seq<bool>,
    sponge: Seq<bool>,
    records: int,
    rec: int,
    frame: Seq<u8>,
)
    requires
        slots.len() >= records * 131072,
        words_are_the_stream(slots, sponge, records),
        0 <= rec < records,
        runs_the_sponge(sponge, rec, frame),
        136 <= frame.len() < 272,
        block_holds(block_of(slots, K as int, rec)),
    ensures
        carries_words(block_of(slots, K as int, rec), stream_words(frame)),
{
    let block = block_of(slots, K as int, rec);
    let words = stream_words(frame);
    assert((rec + 1) * 131072 <= slots.len()) by (nonlinear_arith)
        requires
            rec + 1 <= records,
            slots.len() >= records * 131072,
    ;
    assert forall|s: int| 0 <= s < SLOTS implies #[trigger] word_value(block, s) == words[s] by {
        lemma_linked_word(slots, sponge, records, rec, frame, s);
    }
}

#[verifier::spinoff_prover]
proof fn lemma_linked_bit(
    slots: Seq<bool>,
    sponge: Seq<bool>,
    records: int,
    rec: int,
    frame: Seq<u8>,
    s: int,
    b: int,
)
    requires
        (rec + 1) * 131072 <= slots.len(),
        words_are_the_stream(slots, sponge, records),
        0 <= rec < records,
        runs_the_sponge(sponge, rec, frame),
        136 <= frame.len() < 272,
        0 <= s < SLOTS,
        0 <= b < 16,
    ensures
        value(block_of(slots, K as int, rec), X + b, s) == nat_bit(
            state_word(squeeze_state(frame, s / 68), s % 68),
            b,
        ),
{
    assert(s == 68 * (s / 68) + s % 68 && 0 <= s / 68 < 9);
    lemma_block_word(slots, rec, s, b);
    linked_words_are_squeezed(slots, sponge, records, rec, frame, s / 68, s % 68, b);
}

#[verifier::spinoff_prover]
#[verifier::rlimit(60)]
proof fn lemma_linked_word(
    slots: Seq<bool>,
    sponge: Seq<bool>,
    records: int,
    rec: int,
    frame: Seq<u8>,
    s: int,
)
    requires
        (rec + 1) * 131072 <= slots.len(),
        words_are_the_stream(slots, sponge, records),
        0 <= rec < records,
        runs_the_sponge(sponge, rec, frame),
        136 <= frame.len() < 272,
        0 <= s < SLOTS,
    ensures
        word_value(block_of(slots, K as int, rec), s) == stream_words(frame)[s],
{
    let block = block_of(slots, K as int, rec);
    let (q, w) = (s / 68, s % 68);
    let v = state_word(squeeze_state(frame, q), w);
    let f = |i: int| value(block, X + i, s);
    let g = |i: int| nat_bit(v, i);
    assert(s == 68 * q + w && 0 <= q < 9);
    assert forall|b: int| 0 <= b < 16 implies #[trigger] f(b) == g(b) by {
        lemma_linked_bit(slots, sponge, records, rec, frame, s, b);
    }
    lemma_bits_value_congr(f, g, 16);
    lemma_word_range(squeeze_state(frame, q), w);
    lemma2_to64();
    lemma_bits_of_number(v, 16);
    assert(v % 65536 == v);
}

/// Bit `b` of slot `s` of every block, under powers of `delta`.
pub open spec fn word_bits_sum(
    blocks: Seq<[u16; SLOTS]>,
    records: nat,
    delta: F128,
    s: int,
    b: int,
) -> F128 {
    fsum(
        |rec: int|
            fmul(
                fpow(delta, rec),
                bit_value(nat_bit(block_words(blocks, rec)[s] as int, b)),
            ),
        pow2(records) as int,
    )
}

/// On the witness that the slot blocks generate, the slot-side claims open the
/// linkage sum of the words themselves: `sum delta^rec nu^q mu^w gamma^b` times
/// bit `b` of word `68 q + w`.
pub proof fn generated_claims_sum_the_words(
    slots: Seq<bool>,
    blocks: Seq<[u16; SLOTS]>,
    records: nat,
    delta: F128,
    nu: F128,
    mu: F128,
    gamma: F128,
)
    requires
        slots.len() == pow2(records) * 131072,
        forall|rec: int|
            0 <= rec < pow2(records) ==> is_block_witness(
                #[trigger] block_of(slots, K as int, rec),
                block_words(blocks, rec),
            ),
        records == 0 || delta != fone(),
        mu != fone(),
        gamma != fone(),
    ensures
        ({
            let claims = slot_claims(records, delta, nu, mu, gamma, 9);
            claims_sum(claims, opened(bit_table(slots), claims)) == linked_sum(
                nu,
                mu,
                |q: int, w: int|
                    fsum(
                        |b: int|
                            fmul(
                                fpow(gamma, b),
                                word_bits_sum(blocks, records, delta, 68 * q + w, b),
                            ),
                        16,
                    ),
            )
        }),
{
    let table = bit_table(slots);
    slot_claims_open_the_words(table, records, delta, nu, mu, gamma);
    let left = |q: int, w: int| slot_row(table, records, delta, gamma, 68 * q + w);
    let right = |q: int, w: int|
        fsum(
            |b: int|
                fmul(fpow(gamma, b), word_bits_sum(blocks, records, delta, 68 * q + w, b)),
            16,
        );
    let a = |q: int| fmul(fpow(nu, q), fsum(|w: int| fmul(fpow(mu, w), left(q, w)), 68));
    let b = |q: int| fmul(fpow(nu, q), fsum(|w: int| fmul(fpow(mu, w), right(q, w)), 68));
    assert forall|q: int| 0 <= q < 9 implies #[trigger] a(q) == b(q) by {
        let x = |w: int| fmul(fpow(mu, w), left(q, w));
        let y = |w: int| fmul(fpow(mu, w), right(q, w));
        assert forall|w: int| 0 <= w < 68 implies #[trigger] x(w) == y(w) by {
            let s = 68 * q + w;
            let f = |b: int|
                fmul(fpow(gamma, b), record_sum(table, records, delta, 131072, wire_at(X + b, s)));
            let g = |b: int| fmul(fpow(gamma, b), word_bits_sum(blocks, records, delta, s, b));
            assert forall|b: int| 0 <= b < 16 implies #[trigger] f(b) == g(b) by {
                lemma_generated_cell(slots, blocks, records, delta, s, b);
            }
            lemma_fsum_congr(f, g, 16);
        }
        lemma_fsum_congr(x, y, 68);
    }
    lemma_fsum_congr(a, b, 9);
    lemma_fsum_congr(
        a,
        |q: int| fmul(fpow(nu, q), fsum(|w: int| fmul(fpow(mu, w), left(q, w)), 68)),
        9,
    );
}

proof fn lemma_generated_cell(
    slots: Seq<bool>,
    blocks: Seq<[u16; SLOTS]>,
    records: nat,
    delta: F128,
    s: int,
    b: int,
)
    requires
        slots.len() == pow2(records) * 131072,
        forall|rec: int|
            0 <= rec < pow2(records) ==> is_block_witness(
                #[trigger] block_of(slots, K as int, rec),
                block_words(blocks, rec),
            ),
        0 <= s < SLOTS,
        0 <= b < 16,
    ensures
        record_sum(bit_table(slots), records, delta, 131072, wire_at(X + b, s)) == word_bits_sum(
            blocks,
            records,
            delta,
            s,
            b,
        ),
{
    let table = bit_table(slots);
    let at = wire_at(X + b, s);
    let f = |rec: int| fmul(fpow(delta, rec), table[rec * 131072 + at]);
    let g = |rec: int|
        fmul(fpow(delta, rec), bit_value(nat_bit(block_words(blocks, rec)[s] as int, b)));
    assert forall|rec: int| 0 <= rec < pow2(records) implies #[trigger] f(rec) == g(rec) by {
        let block = block_of(slots, K as int, rec);
        assert((rec + 1) * 131072 <= slots.len()) by (nonlinear_arith)
            requires
                rec + 1 <= pow2(records),
                slots.len() == pow2(records) * 131072,
        ;
        assert(is_block_witness(block, block_words(blocks, rec)));
        assert(word_value(block, s) == block_words(blocks, rec)[s]);
        lemma_value_bits(|i: int| value(block, X + i, s), 16, b);
        lemma_block_word(slots, rec, s, b);
        assert(0 <= at < 131072);
        assert(rec * 131072 + 131072 == (rec + 1) * 131072);
    }
    lemma_fsum_congr(f, g, pow2(records) as int);
}

} // verus!
