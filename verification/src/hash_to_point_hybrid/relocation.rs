//! Openings of the old domains from openings of the compact one.
use vstd::arithmetic::power2::{lemma2_to64, lemma_pow2_adds, lemma_pow2_pos, pow2};
use vstd::prelude::*;

use crate::carry_gate::packed_round::lemma_fold_parts;
use crate::field::{
    fmul, fone, fzero, lemma_fadd_zero, lemma_fmul_assoc, lemma_fmul_one, lemma_fmul_zero, F128,
};
use crate::hash_to_point_hybrid::layout::{
    cube_fragments, lemma_record_cube, lemma_sponge_cube, record_cube_of, record_cubes,
    record_place, sponge_cube_of, sponge_cubes, sponge_place, Cube, STATES,
};
use crate::hash_to_point_sponge::chaining::{bit_point, lemma_fold_bits, lemma_opening, lemma_piece};
use crate::mle::{
    bit_table, bit_value, eq_weight, fold_all, lemma_fold_all_concat, lemma_mle_combination, mle,
};
use crate::sums::{fsum, lemma_fsum_congr, lemma_fsum_single, lemma_fsum_zero};

verus! {

/// The cells of a table along a cube.
pub open spec fn along(c: Cube, table: Seq<F128>) -> Seq<F128> {
    Seq::new(pow2((c.low + c.mid) as nat), |x: int| table[c.old_address(x)])
}

/// The address lies on the cube: its fixed bits are the cube's.
pub open spec fn on_cube(c: Cube, o: int) -> bool {
    &&& o / pow2((c.high + c.mid) as nat) as int == c.top
    &&& (o / pow2(c.low as nat) as int) % pow2((c.high - c.low) as nat) as int == c.gap
}

/// The numbers of a cube: sizes of its parts, and how they multiply.
proof fn lemma_sizes(c: Cube, vars: int)
    requires
        c.fits(vars),
    ensures
        pow2(c.high as nat) == pow2((c.high - c.low) as nat) * pow2(c.low as nat),
        pow2((c.high + c.mid) as nat) == pow2(c.mid as nat) * pow2(c.high as nat),
        pow2((c.low + c.mid) as nat) == pow2(c.mid as nat) * pow2(c.low as nat),
        pow2(vars as nat) == pow2((vars - c.high - c.mid) as nat) * pow2((c.high + c.mid) as nat),
        pow2(c.low as nat) > 0,
        pow2(c.mid as nat) > 0,
        pow2(c.high as nat) > 0,
        pow2((c.high - c.low) as nat) > 0,
{
    lemma_pow2_adds((c.high - c.low) as nat, c.low as nat);
    lemma_pow2_adds(c.mid as nat, c.high as nat);
    lemma_pow2_adds(c.mid as nat, c.low as nat);
    lemma_pow2_adds((vars - c.high - c.mid) as nat, (c.high + c.mid) as nat);
    lemma_pow2_pos(c.low as nat);
    lemma_pow2_pos(c.mid as nat);
    lemma_pow2_pos(c.high as nat);
    lemma_pow2_pos((c.high - c.low) as nat);
}

/// The old address of cell `a B + b`.
proof fn lemma_address(c: Cube, a: int, b: int)
    requires
        0 <= a < pow2(c.mid as nat),
        0 <= b < pow2(c.low as nat),
    ensures
        c.old_address(a * pow2(c.low as nat) + b) == (c.top * pow2(c.mid as nat) + a) * pow2(
            c.high as nat,
        ) + c.gap * pow2(c.low as nat) + b,
{
    vstd::arithmetic::div_mod::lemma_fundamental_div_mod_converse(
        a * pow2(c.low as nat) + b,
        pow2(c.low as nat) as int,
        a,
        b,
    );
}

/// A table supported on a cube extends to the extension of its cells along
/// the cube, under the weight of the cube's fixed bits.
proof fn lemma_cube_extension(c: Cube, vars: int, table: Seq<F128>, p: Seq<F128>)
    requires
        c.fits(vars),
        p.len() == vars,
        table.len() == pow2(vars as nat),
        forall|o: int| 0 <= o < table.len() && !on_cube(c, o) ==> #[trigger] table[o] == fzero(),
    ensures
        mle(table, p) == fmul(
            c.weight(vars, p),
            mle(along(c, table), c.mid_part(p) + c.low_part(p)),
        ),
{
    lemma_sizes(c, vars);
    let top_bits = (vars - c.high - c.mid) as nat;
    let (t, m, g, l) = (c.top_part(vars, p), c.mid_part(p), c.gap_part(p), c.low_part(p));
    let size = pow2((c.high + c.mid) as nat) as int;
    let high = pow2(c.high as nat) as int;
    let low = pow2(c.low as nat) as int;
    let gaps = pow2((c.high - c.low) as nat) as int;
    let mids = pow2(c.mid as nat) as int;
    let top = c.top as int;
    let gap = c.gap as int;
    assert(p.take(top_bits as int) =~= t);
    let rest = p.skip(top_bits as int);
    assert(rest =~= m + (g + l));
    // The fixed bits above select one part of the table.
    assert forall|o: int|
        0 <= o < table.len() && !(top * size <= o < top * size + size) implies #[trigger] table[o]
        == fzero() by {
        if o / size == top {
            vstd::arithmetic::div_mod::lemma_fundamental_div_mod(o, size);
            vstd::arithmetic::div_mod::lemma_mod_pos_bound(o, size);
            assert(size * (o / size) == top * size) by (nonlinear_arith)
                requires
                    o / size == top,
            ;
        }
        assert(!on_cube(c, o));
    }
    lemma_piece(table, p, top_bits, top);
    let sub = table.subrange(top * size, top * size + size);
    assert(0 <= top * size && top * size + size <= table.len()) by (nonlinear_arith)
        requires
            0 <= top < pow2(top_bits),
            table.len() == pow2(top_bits) * size,
            0 <= size,
    ;
    assert(mle(table, p) == fmul(eq_weight(t, top), mle(sub, rest)));
    // Fold the free bits above the gap.
    lemma_fold_all_concat(sub, m, g + l);
    let folded = fold_all(sub, m);
    assert(m.len() == c.mid);
    lemma_fold_parts(sub, m, high as nat, 0);
    assert forall|j: int|
        0 <= j < high && !(gap * low <= j < gap * low + low) implies #[trigger] folded[j]
        == fzero() by {
        lemma_fold_parts(sub, m, high as nat, j);
        let f = |a: int| fmul(eq_weight(m, a), sub[a * high + j]);
        assert forall|a: int| 0 <= a < mids implies #[trigger] f(a) == fzero() by {
            let o = top * size + (a * high + j);
            lemma_inside(a, mids, high, j, size);
            lemma_off_gap(top, size, a, high, j, low, gaps, gap, mids);
            assert(!on_cube(c, o));
            assert(sub[a * high + j] == table[o]);
            lemma_fmul_zero(eq_weight(m, a));
        }
        lemma_fsum_zero(f, mids);
    }
    lemma_piece(folded, g + l, (c.high - c.low) as nat, gap);
    assert((g + l).take((c.high - c.low) as int) =~= g);
    assert((g + l).skip((c.high - c.low) as int) =~= l);
    let part = folded.subrange(gap * low, gap * low + low);
    assert(0 <= gap * low && gap * low + low <= high) by (nonlinear_arith)
        requires
            0 <= gap < gaps,
            high == gaps * low,
            0 <= low,
    ;
    assert(mle(folded, g + l) == fmul(eq_weight(g, gap), mle(part, l)));
    // The same folding of the cells along the cube.
    let cells = along(c, table);
    lemma_fold_all_concat(cells, m, l);
    lemma_fold_parts(cells, m, low as nat, 0);
    let gathered = fold_all(cells, m);
    assert forall|b: int| 0 <= b < low implies #[trigger] part[b] == gathered[b] by {
        let j = gap * low + b;
        lemma_fold_parts(sub, m, high as nat, j);
        lemma_fold_parts(cells, m, low as nat, b);
        let f = |a: int| fmul(eq_weight(m, a), sub[a * high + j]);
        let h = |a: int| fmul(eq_weight(m, a), cells[a * low + b]);
        assert forall|a: int| 0 <= a < mids implies #[trigger] f(a) == h(a) by {
            lemma_inside(a, mids, high, j, size);
            lemma_inside(a, mids, low, b, pow2((c.low + c.mid) as nat) as int);
            lemma_address(c, a, b);
            let o = top * size + (a * high + j);
            assert((top * mids + a) * high + gap * low + b == o) by (nonlinear_arith)
                requires
                    o == top * size + (a * high + j),
                    j == gap * low + b,
                    size == mids * high,
            ;
            assert(sub[a * high + j] == table[o]);
            assert(cells[a * low + b] == table[c.old_address(a * low + b)]);
        }
        lemma_fsum_congr(f, h, mids);
    }
    assert(part =~= gathered);
    lemma_fmul_assoc(eq_weight(t, top), eq_weight(g, gap), mle(part, l));
}

/// Position `a n + j` of `m` parts of size `n`.
proof fn lemma_inside(a: int, m: int, n: int, j: int, total: int)
    by (nonlinear_arith)
    requires
        0 <= a < m,
        0 <= j < n,
        total == m * n,
    ensures
        0 <= a * n + j < total,
{
}

/// An address whose gap bits differ from the cube's.
proof fn lemma_off_gap(
    top: int,
    size: int,
    a: int,
    high: int,
    j: int,
    low: int,
    gaps: int,
    gap: int,
    mids: int,
)
    requires
        0 <= j < high,
        high == gaps * low,
        size == mids * high,
        0 < low,
        0 < gaps,
        0 <= gap < gaps,
        0 <= a,
        0 <= top,
        !(gap * low <= j < gap * low + low),
    ensures
        ((top * size + (a * high + j)) / low) % gaps != gap,
{
    let o = top * size + (a * high + j);
    let q = j / low;
    let w = (top * mids + a) * gaps;
    vstd::arithmetic::div_mod::lemma_fundamental_div_mod(j, low);
    vstd::arithmetic::div_mod::lemma_mod_pos_bound(j, low);
    let e = top * mids + a;
    assert(top * size + a * high == e * high) by (nonlinear_arith)
        requires
            e == top * mids + a,
            size == mids * high,
    ;
    assert(e * high == w * low) by (nonlinear_arith)
        requires
            w == e * gaps,
            high == gaps * low,
    ;
    assert((w + q) * low == w * low + low * q) by (nonlinear_arith);
    vstd::arithmetic::div_mod::lemma_fundamental_div_mod_converse(o, low, w + q, j % low);
    assert(0 <= q < gaps) by (nonlinear_arith)
        requires
            j == low * q + j % low,
            0 <= j < gaps * low,
            0 <= j % low < low,
            0 < low,
    ;
    assert((w + q) == (top * mids + a) * gaps + q);
    vstd::arithmetic::div_mod::lemma_fundamental_div_mod_converse(w + q, gaps, top * mids + a, q);
    if q == gap {
        assert(gap * low <= j < gap * low + low) by (nonlinear_arith)
            requires
                j == low * q + j % low,
                q == gap,
                0 <= j % low < low,
        ;
    }
}

/// The bits of an old domain that some cube owns.
pub open spec fn owned_bits(owner: spec_fn(int) -> int, n: int, size: int, old: Seq<bool>) -> Seq<
    bool,
> {
    Seq::new(old.len(), |i: int| 0 <= owner(i % size) < n && old[i])
}

/// The cubes carry the old bits that they own: cell `x` of a cube holds the
/// old bit where the cube owns its address, and zero where it does not.
pub open spec fn carries(
    cubes: spec_fn(int) -> Cube,
    n: int,
    owner: spec_fn(int) -> int,
    size: int,
    records: int,
    old: Seq<bool>,
    new: Seq<bool>,
) -> bool {
    forall|k: int, x: int, rec: int|
        0 <= k < n && 0 <= x < pow2((cubes(k).low + cubes(k).mid) as nat) && 0 <= rec < records ==>
            #[trigger] new[rec * 524288 + (cubes(k).target + x)] == (owner(cubes(k).old_address(x))
            == k && old[rec * size + cubes(k).old_address(x)])
}

/// The value that a list of fragments reconstructs.
pub open spec fn fragments_value(fragments: Seq<(Seq<F128>, F128)>, table: Seq<F128>) -> F128 {
    fsum(|i: int| fmul(fragments[i].1, mle(table, fragments[i].0)), fragments.len() as int)
}

/// The old address of a cube's cell lies in the old domain, on the cube.
proof fn lemma_old_address(c: Cube, vars: int, x: int)
    requires
        c.fits(vars),
        0 <= x < pow2((c.low + c.mid) as nat),
    ensures
        0 <= c.old_address(x) < pow2(vars as nat),
{
    lemma_sizes(c, vars);
    let low = pow2(c.low as nat) as int;
    let mids = pow2(c.mid as nat) as int;
    let high = pow2(c.high as nat) as int;
    let size = pow2((c.high + c.mid) as nat) as int;
    let (a, b) = (x / low, x % low);
    vstd::arithmetic::div_mod::lemma_fundamental_div_mod(x, low);
    vstd::arithmetic::div_mod::lemma_mod_pos_bound(x, low);
    assert(0 <= a < mids) by (nonlinear_arith)
        requires
            x == low * a + b,
            0 <= b < low,
            0 <= x < mids * low,
    ;
    let gaps = pow2((c.high - c.low) as nat) as int;
    let j = c.gap * low + b;
    assert(0 <= j < high) by (nonlinear_arith)
        requires
            j == c.gap * low + b,
            0 <= b < low,
            c.gap < gaps,
            high == gaps * low,
    ;
    let tops = pow2((vars - c.high - c.mid) as nat) as int;
    let o = c.old_address(x);
    assert(o == (c.top * mids + a) * high + j);
    assert(0 <= c.top * mids + a < tops * mids) by (nonlinear_arith)
        requires
            0 <= a < mids,
            c.top < tops,
    ;
    lemma_inside(c.top * mids + a, tops * mids, high, j, (tops * mids) * high);
    assert((tops * mids) * high == tops * (mids * high)) by (nonlinear_arith);
}

/// One cube's opening of the compact witness: the old bits that the cube owns,
/// extended along the cube.
proof fn lemma_cube_opening(
    c: Cube,
    k: int,
    owner: spec_fn(int) -> int,
    vars: int,
    records: nat,
    old: Seq<bool>,
    new: Seq<bool>,
    point: Seq<F128>,
    u: Seq<F128>,
)
    requires
        c.fits(vars),
        point.len() == records + vars,
        old.len() == pow2(records) * pow2(vars as nat),
        new.len() == pow2(records) * 524288,
        forall|x: int, rec: int|
            0 <= x < pow2((c.low + c.mid) as nat) && 0 <= rec < pow2(records) ==> #[trigger] new[rec
                * 524288 + (c.target + x)] == (owner(c.old_address(x)) == k && old[rec * pow2(
                vars as nat,
            ) + c.old_address(x)]),
        u.len() == pow2(vars as nat),
        forall|o: int|
            0 <= o < u.len() ==> #[trigger] u[o] == (if owner(o) == k {
                fsum(
                    |rec: int|
                        fmul(
                            eq_weight(point.take(records as int), rec),
                            bit_value(old[rec * pow2(vars as nat) + o]),
                        ),
                    pow2(records) as int,
                )
            } else {
                fzero()
            }),
    ensures
        mle(bit_table(new), c.point(vars, point)) == mle(
            along(c, u),
            c.mid_part(point) + c.low_part(point),
        ),
{
    lemma2_to64();
    let d = (c.low + c.mid) as nat;
    let size = pow2(d);
    let coords = point.take(records as int);
    let fixed = bit_point(c.target as int / size as int, (19 - d) as nat);
    let tail = c.mid_part(point) + c.low_part(point);
    let table = bit_table(new);
    let all = c.point(vars, point);
    assert(point.take(point.len() - vars) == coords);
    assert(all =~= coords + (fixed + tail));
    lemma_fold_all_concat(table, coords, fixed + tail);
    let folded = fold_all(table, coords);
    lemma_fold_parts(table, coords, 524288, 0);
    lemma_fold_all_concat(folded, fixed, tail);
    lemma_pow2_adds((19 - d) as nat, d);
    lemma_pow2_pos(d);
    let v = c.target as int / size as int;
    vstd::arithmetic::div_mod::lemma_fundamental_div_mod(c.target as int, size as int);
    assert(v * size == c.target) by (nonlinear_arith)
        requires
            c.target == size * v + 0,
    ;
    assert(0 <= v < pow2((19 - d) as nat)) by (nonlinear_arith)
        requires
            v * size == c.target,
            0 <= c.target,
            c.target + size <= 524288,
            pow2((19 - d) as nat) * size == 524288,
            0 < size,
    ;
    lemma_fold_bits(folded, v, (19 - d) as nat, size);
    let part = folded.subrange(c.target as int, c.target + size);
    let cells = along(c, u);
    assert forall|x: int| 0 <= x < size implies #[trigger] part[x] == cells[x] by {
        let at = c.target + x;
        lemma_fold_parts(table, coords, 524288, at);
        lemma_old_address(c, vars, x);
        let o = c.old_address(x);
        let f = |rec: int| fmul(eq_weight(coords, rec), table[rec * 524288 + at]);
        let g = |rec: int|
            fmul(eq_weight(coords, rec), bit_value(old[rec * pow2(vars as nat) + o]));
        let total = pow2(records) as int;
        if owner(o) == k {
            assert forall|rec: int| 0 <= rec < total implies #[trigger] f(rec) == g(rec) by {
                lemma_inside(rec, total, 524288, at, total * 524288);
                assert(new[rec * 524288 + (c.target + x)] == (owner(o) == k && old[rec * pow2(
                    vars as nat,
                ) + o]));
            }
            lemma_fsum_congr(f, g, total);
            assert(u[o] == fsum(g, total));
        } else {
            assert forall|rec: int| 0 <= rec < total implies #[trigger] f(rec) == fzero() by {
                lemma_inside(rec, total, 524288, at, total * 524288);
                assert(!new[rec * 524288 + (c.target + x)]);
                lemma_fmul_zero(eq_weight(coords, rec));
            }
            lemma_fsum_zero(f, total);
            assert(u[o] == fzero());
        }
    }
    assert(part =~= cells);
}

/// The openings along the cubes, under their weights, make up the opening of
/// the old bits that the cubes own.
proof fn lemma_reconstruct(
    cubes: spec_fn(int) -> Cube,
    n: int,
    owner: spec_fn(int) -> int,
    vars: int,
    records: nat,
    old: Seq<bool>,
    new: Seq<bool>,
    point: Seq<F128>,
)
    requires
        0 <= n,
        0 <= vars,
        forall|k: int| 0 <= k < n ==> (#[trigger] cubes(k)).fits(vars),
        forall|o: int|
            0 <= o < pow2(vars as nat) && 0 <= #[trigger] owner(o) < n ==> on_cube(
                cubes(owner(o)),
                o,
            ),
        point.len() == records + vars,
        old.len() == pow2(records) * pow2(vars as nat),
        new.len() == pow2(records) * 524288,
        carries(cubes, n, owner, pow2(vars as nat) as int, pow2(records) as int, old, new),
    ensures
        fsum(
            |k: int|
                fmul(
                    cubes(k).weight(vars, point),
                    mle(bit_table(new), cubes(k).point(vars, point)),
                ),
            n,
        ) == mle(bit_table(owned_bits(owner, n, pow2(vars as nat) as int, old)), point),
{
    let size = pow2(vars as nat) as int;
    let total = pow2(records) as int;
    lemma_pow2_pos(vars as nat);
    let coords = point.take(records as int);
    let p = point.skip(records as int);
    assert(point =~= coords + p);
    let kept = owned_bits(owner, n, size, old);
    let table = bit_table(kept);
    lemma_fold_all_concat(table, coords, p);
    let u = fold_all(table, coords);
    lemma_fold_parts(table, coords, size as nat, 0);
    let bits = |o: int|
        fsum(
            |rec: int| fmul(eq_weight(coords, rec), bit_value(old[rec * size + o])),
            total,
        );
    // The part of the folded table that each cube owns.
    let parts = |k: int|
        Seq::new(
            pow2(p.len()),
            |o: int|
                if owner(o) == k {
                    bits(o)
                } else {
                    fzero()
                },
        );
    let ones = |k: int| fone();
    lemma_mle_combination(ones, parts, n, p);
    let sum = Seq::new(
        pow2(p.len()),
        |o: int| fsum(|k: int| fmul(ones(k), parts(k)[o]), n),
    );
    assert forall|o: int| 0 <= o < size implies #[trigger] u[o] == sum[o] by {
        lemma_fold_parts(table, coords, size as nat, o);
        let f = |rec: int| fmul(eq_weight(coords, rec), table[rec * size + o]);
        let g = |rec: int| fmul(eq_weight(coords, rec), bit_value(old[rec * size + o]));
        let h = |k: int| fmul(ones(k), parts(k)[o]);
        assert forall|rec: int| 0 <= rec < total implies #[trigger] kept[rec * size + o] == (0
            <= owner(o) < n && old[rec * size + o]) by {
            lemma_inside(rec, total, size, o, total * size);
            vstd::arithmetic::div_mod::lemma_fundamental_div_mod_converse(
                rec * size + o,
                size,
                rec,
                o,
            );
        }
        if 0 <= owner(o) < n {
            assert forall|rec: int| 0 <= rec < total implies #[trigger] f(rec) == g(rec) by {
                lemma_inside(rec, total, size, o, total * size);
                assert(kept[rec * size + o] == old[rec * size + o]);
            }
            lemma_fsum_congr(f, g, total);
            assert forall|k: int| 0 <= k < n && k != owner(o) implies #[trigger] h(k)
                == fzero() by {
                lemma_fmul_zero(fone());
            }
            lemma_fsum_single(h, n, owner(o));
            lemma_fmul_one(parts(owner(o))[o]);
        } else {
            assert forall|rec: int| 0 <= rec < total implies #[trigger] f(rec) == fzero() by {
                lemma_inside(rec, total, size, o, total * size);
                assert(!kept[rec * size + o]);
                lemma_fmul_zero(eq_weight(coords, rec));
            }
            lemma_fsum_zero(f, total);
            assert forall|k: int| 0 <= k < n implies #[trigger] h(k) == fzero() by {
                lemma_fmul_zero(fone());
            }
            lemma_fsum_zero(h, n);
        }
    }
    assert(u =~= sum);
    // Each part extends along its cube.
    let a = |k: int| fmul(ones(k), mle(parts(k), p));
    let b = |k: int|
        fmul(cubes(k).weight(vars, point), mle(bit_table(new), cubes(k).point(vars, point)));
    assert forall|k: int| 0 <= k < n implies #[trigger] a(k) == b(k) by {
        let c = cubes(k);
        let part = parts(k);
        lemma_fmul_one(mle(part, p));
        assert forall|o: int| 0 <= o < part.len() && !on_cube(c, o) implies #[trigger] part[o]
            == fzero() by {
            assert(owner(o) != k);
        }
        lemma_cube_extension(c, vars, part, p);
        assert forall|x: int, rec: int|
            0 <= x < pow2((c.low + c.mid) as nat) && 0 <= rec < total implies #[trigger] new[rec
            * 524288 + (c.target + x)] == (owner(c.old_address(x)) == k && old[rec * pow2(
            vars as nat,
        ) + c.old_address(x)]) by {
            assert(new[rec * 524288 + (cubes(k).target + x)] == (owner(cubes(k).old_address(x))
                == k && old[rec * size + cubes(k).old_address(x)]));
        }
        lemma_cube_opening(c, k, owner, vars, records, old, new, point, part);
        assert(c.top_part(vars, p) =~= c.top_part(vars, point));
        assert(c.mid_part(p) =~= c.mid_part(point));
        assert(c.gap_part(p) =~= c.gap_part(point));
        assert(c.low_part(p) =~= c.low_part(point));
    }
    lemma_fsum_congr(a, b, n);
}

/// Leaving out the fragments of weight zero does not change the value.
proof fn lemma_fragments_value(
    cubes: spec_fn(int) -> Cube,
    n: int,
    vars: int,
    point: Seq<F128>,
    table: Seq<F128>,
)
    requires
        0 <= n,
    ensures
        fragments_value(cube_fragments(cubes, n, vars, point), table) == fsum(
            |k: int|
                fmul(cubes(k).weight(vars, point), mle(table, cubes(k).point(vars, point))),
            n,
        ),
    decreases n,
{
    let all = cube_fragments(cubes, n, vars, point);
    let term = |k: int|
        fmul(cubes(k).weight(vars, point), mle(table, cubes(k).point(vars, point)));
    if n > 0 {
        lemma_fragments_value(cubes, n - 1, vars, point, table);
        let before = cube_fragments(cubes, n - 1, vars, point);
        let c = cubes(n - 1);
        let value = mle(table, c.point(vars, point));
        if c.weight(vars, point) == fzero() {
            lemma_fmul_zero(value);
            lemma_fadd_zero(fragments_value(before, table));
        } else {
            let f = |i: int| fmul(all[i].1, mle(table, all[i].0));
            let g = |i: int| fmul(before[i].1, mle(table, before[i].0));
            assert forall|i: int| 0 <= i < before.len() implies #[trigger] f(i) == g(i) by {
                assert(all[i] == before[i]);
            }
            lemma_fsum_congr(f, g, before.len() as int);
            assert(all[before.len() as int] == (c.point(vars, point), c.weight(vars, point)));
        }
    }
}

// ---------------------------------------------------------------------------
// The slot wires.
// ---------------------------------------------------------------------------

/// The compact cells hold the slot wires of every record, an omitted wire is
/// zero, and so is the first compact cell.
pub open spec fn holds_record(compact: Seq<bool>, record: Seq<bool>, records: int) -> bool {
    &&& forall|rec: int, o: int|
        0 <= rec < records && 0 <= o < 131072 ==> match record_place(o) {
            Some(p) => compact[rec * 524288 + p] == #[trigger] record[rec * 131072 + o],
            None => !record[rec * 131072 + o],
        }
    &&& forall|rec: int| 0 <= rec < records ==> !(#[trigger] compact[rec * 524288])
}

/// The cube that carries a slot wire.
pub open spec fn record_owner(o: int) -> int {
    let plane = o / 1024;
    let slot = o % 1024;
    if o == 0 {
        10
    } else if plane < 112 && slot < 640 {
        3 * (slot / 256) + (if plane < 64 {
            0int
        } else if plane < 96 {
            1
        } else {
            2
        })
    } else if 112 <= plane < 120 {
        9
    } else {
        -1
    }
}

/// Numbers of the slot cubes.
proof fn lemma_record_numbers(k: int)
    requires
        0 <= k < 11,
    ensures
        ({
            let c = record_cube_of(k);
            &&& pow2(c.low as nat) == (if k < 6 {
                256
            } else if k < 9 {
                128
            } else if k == 9 {
                8192
            } else {
                1int
            })
            &&& pow2(c.high as nat) == (if k < 9 {
                1024
            } else if k == 9 {
                8192
            } else {
                1int
            })
            &&& pow2(c.mid as nat) == (if k >= 9 {
                1
            } else if k % 3 == 0 {
                64
            } else if k % 3 == 1 {
                32
            } else {
                16int
            })
            &&& pow2((c.high - c.low) as nat) == (if k < 6 {
                4
            } else if k < 9 {
                8
            } else {
                1int
            })
            &&& pow2((c.high + c.mid) as nat) == pow2(c.mid as nat) * pow2(c.high as nat)
            &&& pow2((c.low + c.mid) as nat) == (if k >= 10 {
                1
            } else if k == 9 {
                8192
            } else if k % 3 == 0 {
                if k < 6 {
                    16384
                } else {
                    8192int
                }
            } else if k % 3 == 1 {
                if k < 6 {
                    8192
                } else {
                    4096int
                }
            } else {
                if k < 6 {
                    4096
                } else {
                    2048int
                }
            })
        }),
{
    lemma2_to64();
    let c = record_cube_of(k);
    lemma_pow2_adds(c.mid as nat, c.high as nat);
}

/// The old address of a cell of a cube with `256` low and `1024` high cells.
proof fn lemma_address_wide(c: Cube, x: int, top: int, mids: int, first: int)
    requires
        c.top == top,
        pow2(c.mid as nat) == mids,
        pow2(c.high as nat) == 1024,
        pow2(c.low as nat) == 256,
        top * mids == first,
    ensures
        c.old_address(x) == (first + x / 256) * 1024 + c.gap * 256 + x % 256,
{
    let (h, l) = (pow2(c.high as nat) as int, pow2(c.low as nat) as int);
    assert((first + x / 256) * h == (first + x / 256) * 1024) by (nonlinear_arith)
        requires
            h == 1024,
    ;
    assert(c.gap * l == c.gap * 256) by (nonlinear_arith)
        requires
            l == 256,
    ;
}

/// The old address of a cell of a cube with `128` low and `1024` high cells.
proof fn lemma_address_narrow(c: Cube, x: int, top: int, mids: int, first: int)
    requires
        c.top == top,
        pow2(c.mid as nat) == mids,
        pow2(c.high as nat) == 1024,
        pow2(c.low as nat) == 128,
        top * mids == first,
    ensures
        c.old_address(x) == (first + x / 128) * 1024 + c.gap * 128 + x % 128,
{
    let (h, l) = (pow2(c.high as nat) as int, pow2(c.low as nat) as int);
    assert((first + x / 128) * h == (first + x / 128) * 1024) by (nonlinear_arith)
        requires
            h == 1024,
    ;
    assert(c.gap * l == c.gap * 128) by (nonlinear_arith)
        requires
            l == 128,
    ;
}

/// The old address of a cell of a cube with `2048` low and `2048` high cells.
proof fn lemma_address_state(c: Cube, x: int, top: int, mids: int, first: int)
    requires
        c.top == top,
        pow2(c.mid as nat) == mids,
        pow2(c.high as nat) == 2048,
        pow2(c.low as nat) == 2048,
        top * mids == first,
    ensures
        c.old_address(x) == (first + x / 2048) * 2048 + c.gap * 2048 + x % 2048,
{
    let (h, l) = (pow2(c.high as nat) as int, pow2(c.low as nat) as int);
    assert((first + x / 2048) * h == (first + x / 2048) * 2048) by (nonlinear_arith)
        requires
            h == 2048,
    ;
    assert(c.gap * l == c.gap * 2048) by (nonlinear_arith)
        requires
            l == 2048,
    ;
}

/// The old address of a cell of a cube with `8192` low and `8192` high cells.
proof fn lemma_address_target(c: Cube, x: int, top: int, mids: int, first: int)
    requires
        c.top == top,
        pow2(c.mid as nat) == mids,
        pow2(c.high as nat) == 8192,
        pow2(c.low as nat) == 8192,
        top * mids == first,
    ensures
        c.old_address(x) == (first + x / 8192) * 8192 + c.gap * 8192 + x % 8192,
{
    let (h, l) = (pow2(c.high as nat) as int, pow2(c.low as nat) as int);
    assert((first + x / 8192) * h == (first + x / 8192) * 8192) by (nonlinear_arith)
        requires
            h == 8192,
    ;
    assert(c.gap * l == c.gap * 8192) by (nonlinear_arith)
        requires
            l == 8192,
    ;
}

/// The old address of a cell of a cube with `1` low and `1` high cells.
proof fn lemma_address_constant(c: Cube, x: int, top: int, mids: int, first: int)
    requires
        c.top == top,
        pow2(c.mid as nat) == mids,
        pow2(c.high as nat) == 1,
        pow2(c.low as nat) == 1,
        top * mids == first,
    ensures
        c.old_address(x) == (first + x / 1) * 1 + c.gap * 1 + x % 1,
{
    let (h, l) = (pow2(c.high as nat) as int, pow2(c.low as nat) as int);
    assert((first + x / 1) * h == (first + x / 1) * 1) by (nonlinear_arith)
        requires
            h == 1,
    ;
    assert(c.gap * l == c.gap * 1) by (nonlinear_arith)
        requires
            l == 1,
    ;
}

/// A slot wire lies on the cube that carries it.
proof fn lemma_record_owner(o: int)
    requires
        0 <= o < 131072,
        0 <= record_owner(o) < 11,
    ensures
        on_cube(record_cube_of(record_owner(o)), o),
{
    let k = record_owner(o);
    let c = record_cube_of(k);
    lemma_record_numbers(k);
    let plane = o / 1024;
    let slot = o % 1024;
    assert(o == 1024 * plane + slot);
    if o == 0 {
    } else if plane < 112 {
        let segment = slot / 256;
        assert(0 <= segment <= 2);
        if plane < 64 {
            assert(k == 3 * segment);
            assert(o / 65536 == 0);
        } else if plane < 96 {
            assert(k == 3 * segment + 1);
            assert(o / 32768 == 2);
        } else {
            assert(k == 3 * segment + 2);
            assert(o / 16384 == 6);
        }
        if segment < 2 {
            assert(o / 256 == 4 * plane + segment);
            assert((o / 256) % 4 == segment);
        } else {
            assert(512 <= slot < 640);
            assert(o / 128 == 8 * plane + 4);
            assert((o / 128) % 8 == 4);
        }
    } else {
        assert(o / 8192 == 14);
        assert((o / 8192) % 1 == 0);
    }
}

/// The plane, the segment and the offset of an address.
proof fn lemma_plane_parts(o: int, plane: int, segment: int, b: int)
    requires
        o == plane * 1024 + segment * 256 + b,
        0 <= segment < 4,
        0 <= b < 256,
    ensures
        o / 1024 == plane,
        o % 1024 == segment * 256 + b,
        (o % 1024) / 256 == segment,
        (o % 1024) % 256 == b,
{
}

/// Cell `x` of a slot cube: the place of its old address, but for the cell
/// that the constant leaves vacant.
proof fn lemma_record_cell(k: int, x: int)
    requires
        0 <= k < 11,
        0 <= x < pow2((record_cube_of(k).low + record_cube_of(k).mid) as nat),
    ensures
        ({
            let o = record_cube_of(k).old_address(x);
            &&& 0 <= o < 131072
            &&& (k != 0 || x != 0) ==> record_owner(o) == k && record_place(o) == Some(
                record_cube_of(k).target + x,
            )
            &&& (k == 0 && x == 0) ==> o == 0
        }),
{
    let c = record_cube_of(k);
    lemma_record_numbers(k);
    let o = c.old_address(x);
    if k < 9 {
        let segment = k / 3;
        assert(0 <= segment <= 2 && k == 3 * segment + k % 3);
        let first: int = if k % 3 == 0 {
            0
        } else if k % 3 == 1 {
            64
        } else {
            96
        };
        let (a, b): (int, int) = if segment < 2 {
            (x / 256, x % 256)
        } else {
            (x / 128, x % 128)
        };
        if segment < 2 {
            if k % 3 == 0 {
                assert(0int * 64 == 0) by (nonlinear_arith);
                lemma_address_wide(c, x, 0, 64, 0);
            } else if k % 3 == 1 {
                assert(2int * 32 == 64) by (nonlinear_arith);
                lemma_address_wide(c, x, 2, 32, 64);
            } else {
                assert(6int * 16 == 96) by (nonlinear_arith);
                lemma_address_wide(c, x, 6, 16, 96);
            }
            assert(x == 256 * a + b);
            assert(o == (first + a) * 1024 + segment * 256 + b);
            lemma_plane_parts(o, first + a, segment, b);
        } else {
            if k % 3 == 0 {
                assert(0int * 64 == 0) by (nonlinear_arith);
                lemma_address_narrow(c, x, 0, 64, 0);
            } else if k % 3 == 1 {
                assert(2int * 32 == 64) by (nonlinear_arith);
                lemma_address_narrow(c, x, 2, 32, 64);
            } else {
                assert(6int * 16 == 96) by (nonlinear_arith);
                lemma_address_narrow(c, x, 6, 16, 96);
            }
            assert(x == 128 * a + b);
            assert(c.gap == 4);
            assert(c.gap * 128 == 512);
            assert(o == (first + a) * 1024 + 512 + b);
            vstd::arithmetic::div_mod::lemma_fundamental_div_mod_converse(
                o,
                1024,
                first + a,
                512 + b,
            );
            assert((o % 1024) / 256 == 2);
        }
    } else if k == 9 {
        assert(14int * 1 == 14) by (nonlinear_arith);
        lemma_address_target(c, x, 14, 1, 14);
        assert(x / 8192 == 0 && x % 8192 == x);
        assert(c.gap == 0 && c.gap * 8192 == 0);
        assert(o == 14 * 8192 + x);
        assert(o / 1024 == 112 + x / 1024 && o % 1024 == x % 1024);
    } else {
        assert(0int * 1 == 0) by (nonlinear_arith);
        lemma_address_constant(c, x, 0, 1, 0);
        assert(x == 0);
        assert(o == 0);
    }
}

/// The slot fragments at a point make up the opening of the slot wires at that
/// point exactly, whatever the retained wires hold.
pub proof fn record_fragments_reconstruct(
    records: nat,
    record: Seq<bool>,
    compact: Seq<bool>,
    point: Seq<F128>,
)
    requires
        point.len() == records + 17,
        record.len() == pow2(records) * 131072,
        compact.len() == pow2(records) * 524288,
        holds_record(compact, record, pow2(records) as int),
    ensures
        fragments_value(cube_fragments(record_cubes(), 11, 17, point), bit_table(compact)) == mle(
            bit_table(record),
            point,
        ),
{
    lemma2_to64();
    let cubes = record_cubes();
    let owner = |o: int| record_owner(o);
    let total = pow2(records) as int;
    assert forall|k: int| 0 <= k < 11 implies (#[trigger] cubes(k)).fits(17) by {
        lemma_record_cube(k);
    }
    assert forall|o: int| 0 <= o < pow2(17) && 0 <= #[trigger] owner(o) < 11 implies on_cube(
        cubes(owner(o)),
        o,
    ) by {
        lemma_record_owner(o);
    }
    assert(carries(cubes, 11, owner, pow2(17) as int, total, record, compact)) by {
        assert forall|k: int, x: int, rec: int|
            0 <= k < 11 && 0 <= x < pow2((cubes(k).low + cubes(k).mid) as nat) && 0 <= rec
                < total implies #[trigger] compact[rec * 524288 + (cubes(k).target + x)] == (owner(
            cubes(k).old_address(x),
        ) == k && record[rec * pow2(17) + cubes(k).old_address(x)]) by {
            lemma_record_cell(k, x);
            let o = cubes(k).old_address(x);
            assert(record[rec * 131072 + o] || !record[rec * 131072 + o]);
            if k == 0 && x == 0 {
                assert(!compact[rec * 524288]);
            }
        }
    }
    lemma_reconstruct(cubes, 11, owner, 17, records, record, compact, point);
    let kept = owned_bits(owner, 11, pow2(17) as int, record);
    assert forall|i: int| 0 <= i < record.len() implies #[trigger] kept[i] == record[i] by {
        let (rec, o) = (i / 131072, i % 131072);
        assert(i == rec * 131072 + o);
        assert(0 <= rec < total);
        if !(0 <= record_owner(o) < 11) {
            assert(record_place(o) is None);
            assert(!record[rec * 131072 + o]);
        }
    }
    assert(kept =~= record);
    lemma_fragments_value(cubes, 11, 17, point, bit_table(compact));
}

// ---------------------------------------------------------------------------
// The sponge states.
// ---------------------------------------------------------------------------

/// The state that a cell of a record's sponge blocks belongs to.
pub open spec fn sponge_owner(o: int) -> int {
    let block = o / 131072;
    let slot = (o % 131072) / 2048;
    let permutation = 4 * (slot / 2) + block;
    if slot < 6 && permutation < 10 {
        2 * permutation + slot % 2
    } else {
        -1
    }
}

/// The cells of the live states, padding included.
pub open spec fn state_bits(sponge: Seq<bool>) -> Seq<bool> {
    owned_bits(|o: int| sponge_owner(o), 20, 524288, sponge)
}

/// The compact cells hold the live states of every record, and the padding of
/// the states is zero in both.
pub open spec fn holds_states(compact: Seq<bool>, sponge: Seq<bool>, records: int) -> bool {
    &&& forall|rec: int, block: int, old: int|
        0 <= rec < records && 0 <= block < 4 && 0 <= old < 12288 && (#[trigger] sponge_place(
            block,
            old,
        )) is Some ==> compact[rec * 524288 + sponge_place(block, old).unwrap()]
            == #[trigger] sponge[rec * 524288 + (block * 131072 + old)]
    &&& forall|rec: int, state: int, bit: int|
        0 <= rec < records && 0 <= state < 20 && 1600 <= bit < 2048 ==> !(
        #[trigger] compact[rec * 524288 + (STATES + state * 2048 + bit)])
    &&& forall|rec: int, block: int, slot: int, bit: int|
        0 <= rec < records && 0 <= block < 4 && 0 <= slot < 6 && 1600 <= bit < 2048 ==> !(
        #[trigger] sponge[rec * 524288 + (block * 131072 + (slot * 2048 + bit))])
}

/// Numbers of the state cubes.
proof fn lemma_sponge_cell(k: int, x: int)
    requires
        0 <= k < 20,
        0 <= x < 2048,
    ensures
        ({
            let c = sponge_cube_of(k);
            let permutation = k / 2;
            let block = permutation % 4;
            let slot = 2 * (permutation / 4) + k % 2;
            let o = c.old_address(x);
            &&& o == block * 131072 + (slot * 2048 + x)
            &&& 0 <= block < 4
            &&& 0 <= slot < 6
            &&& sponge_owner(o) == k
            &&& c.target + x == STATES + k * 2048 + x
            &&& x < 1600 ==> sponge_place(block, slot * 2048 + x) == Some(c.target + x)
        }),
{
    lemma2_to64();
    let c = sponge_cube_of(k);
    let permutation = k / 2;
    let block = permutation % 4;
    let slot = 2 * (permutation / 4) + k % 2;
    assert(x / 2048 == 0 && x % 2048 == x);
    assert(c.top == block * 64 + slot);
    let o = c.old_address(x);
    assert((block * 64 + slot) * 1 == block * 64 + slot) by (nonlinear_arith);
    lemma_address_state(c, x, block * 64 + slot, 1, block * 64 + slot);
    assert(o == (block * 64 + slot) * 2048 + x);
    assert(o / 131072 == block && o % 131072 == slot * 2048 + x);
    assert((slot * 2048 + x) / 2048 == slot && (slot * 2048 + x) % 2048 == x);
    assert(slot / 2 == permutation / 4 && slot % 2 == k % 2);
    assert(4 * (slot / 2) + block == permutation);
    assert(2 * permutation + k % 2 == k);
}

/// A state cell lies on its state's cube.
proof fn lemma_sponge_owner(o: int)
    requires
        0 <= o < 524288,
        0 <= sponge_owner(o) < 20,
    ensures
        on_cube(sponge_cube_of(sponge_owner(o)), o),
{
    lemma2_to64();
    let k = sponge_owner(o);
    let c = sponge_cube_of(k);
    let block = o / 131072;
    let slot = (o % 131072) / 2048;
    let permutation = 4 * (slot / 2) + block;
    assert(k / 2 == permutation && k % 2 == slot % 2);
    assert(permutation % 4 == block && permutation / 4 == slot / 2);
    assert(c.top == block * 64 + slot);
    assert(o / 2048 == block * 64 + slot);
    assert((o / 2048) % 1 == 0);
}

proof fn lemma_states(records: nat, sponge: Seq<bool>, compact: Seq<bool>, point: Seq<F128>)
    requires
        point.len() == records + 19,
        sponge.len() == pow2(records) * 524288,
        compact.len() == pow2(records) * 524288,
        holds_states(compact, sponge, pow2(records) as int),
    ensures
        fragments_value(cube_fragments(sponge_cubes(), 20, 19, point), bit_table(compact)) == mle(
            bit_table(state_bits(sponge)),
            point,
        ),
{
    lemma2_to64();
    let cubes = sponge_cubes();
    let owner = |o: int| sponge_owner(o);
    let total = pow2(records) as int;
    assert forall|k: int| 0 <= k < 20 implies (#[trigger] cubes(k)).fits(19) by {
        lemma_sponge_cube(k);
    }
    assert forall|o: int| 0 <= o < pow2(19) && 0 <= #[trigger] owner(o) < 20 implies on_cube(
        cubes(owner(o)),
        o,
    ) by {
        lemma_sponge_owner(o);
    }
    assert(carries(cubes, 20, owner, pow2(19) as int, total, sponge, compact)) by {
        assert forall|k: int, x: int, rec: int|
            0 <= k < 20 && 0 <= x < pow2((cubes(k).low + cubes(k).mid) as nat) && 0 <= rec
                < total implies #[trigger] compact[rec * 524288 + (cubes(k).target + x)] == (owner(
            cubes(k).old_address(x),
        ) == k && sponge[rec * pow2(19) + cubes(k).old_address(x)]) by {
            lemma_sponge_cell(k, x);
            let permutation = k / 2;
            let block = permutation % 4;
            let slot = 2 * (permutation / 4) + k % 2;
            if x < 1600 {
                assert(sponge_place(block, slot * 2048 + x) is Some);
                assert(compact[rec * 524288 + sponge_place(block, slot * 2048 + x).unwrap()]
                    == sponge[rec * 524288 + (block * 131072 + (slot * 2048 + x))]);
            } else {
                assert(!compact[rec * 524288 + (STATES + k * 2048 + x)]);
                assert(!sponge[rec * 524288 + (block * 131072 + (slot * 2048 + x))]);
            }
        }
    }
    lemma_reconstruct(cubes, 20, owner, 19, records, sponge, compact, point);
    lemma_fragments_value(cubes, 20, 19, point, bit_table(compact));
    assert(state_bits(sponge) =~= owned_bits(owner, 20, pow2(19) as int, sponge));
}

/// The sponge fragments at a point make up the opening of the live states'
/// cells at that point.
pub proof fn sponge_fragments_reconstruct_states(
    records: nat,
    sponge: Seq<bool>,
    compact: Seq<bool>,
    point: Seq<F128>,
)
    requires
        point.len() == records + 19,
        sponge.len() == pow2(records) * 524288,
        compact.len() == pow2(records) * 524288,
        holds_states(compact, sponge, pow2(records) as int),
    ensures
        fragments_value(cube_fragments(sponge_cubes(), 20, 19, point), bit_table(compact)) == mle(
            bit_table(state_bits(sponge)),
            point,
        ),
{
    lemma_states(records, sponge, compact, point);
}

/// At a point whose slot coordinates select a live state, the sponge fragments
/// make up the opening of the whole sponge.
pub proof fn sponge_fragments_reconstruct(
    records: nat,
    sponge: Seq<bool>,
    compact: Seq<bool>,
    coords: Seq<F128>,
    state: int,
    tail: Seq<F128>,
)
    requires
        coords.len() == records,
        tail.len() == 11,
        0 <= state < 20,
        sponge.len() == pow2(records) * 524288,
        compact.len() == pow2(records) * 524288,
        holds_states(compact, sponge, pow2(records) as int),
    ensures
        ({
            let point = coords + bit_point(sponge_cube_of(state).top as int, 8) + tail;
            fragments_value(cube_fragments(sponge_cubes(), 20, 19, point), bit_table(compact))
                == mle(bit_table(sponge), point)
        }),
{
    lemma2_to64();
    let v = sponge_cube_of(state).top as int;
    let point = coords + bit_point(v, 8) + tail;
    lemma_states(records, sponge, compact, point);
    let kept = state_bits(sponge);
    let total = pow2(records) as int;
    lemma_sponge_cube(state);
    lemma_opening(sponge, records, coords, v, 8, tail);
    lemma_opening(kept, records, coords, v, 8, tail);
    let f = |rec: int|
        fmul(
            eq_weight(coords, rec),
            mle(
                bit_table(
                    sponge.subrange(
                        rec * 524288 + v * pow2(tail.len()),
                        rec * 524288 + v * pow2(tail.len()) + pow2(tail.len()),
                    ),
                ),
                tail,
            ),
        );
    let g = |rec: int|
        fmul(
            eq_weight(coords, rec),
            mle(
                bit_table(
                    kept.subrange(
                        rec * 524288 + v * pow2(tail.len()),
                        rec * 524288 + v * pow2(tail.len()) + pow2(tail.len()),
                    ),
                ),
                tail,
            ),
        );
    assert forall|rec: int| 0 <= rec < total implies #[trigger] f(rec) == g(rec) by {
        let at = rec * 524288 + v * 2048;
        let a = sponge.subrange(at, at + 2048);
        let b = kept.subrange(at, at + 2048);
        lemma_sponge_cell(state, 0);
        assert(0 <= v < 256);
        assert(at + 2048 <= sponge.len());
        assert forall|x: int| 0 <= x < 2048 implies a[x] == b[x] by {
            lemma_sponge_cell(state, x);
            let i = at + x;
            assert(sponge_cube_of(state).old_address(x) == v * 2048 + x) by {
                assert(x / 2048 == 0 && x % 2048 == x);
            }
            assert(i % 524288 == v * 2048 + x);
        }
        assert(a =~= b);
    }
    lemma_fsum_congr(f, g, total);
}

} // verus!
