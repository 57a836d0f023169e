//! What passing chain checks prove of a committed witness.
//!
//! Where the checks pass at enough challenges, the slots of every record are
//! chained as the sponge chains its states. If the permutations hold too, they
//! are the states of the sponge on the public frame under some salt.
use vstd::arithmetic::power2::{lemma2_to64, lemma_pow2_unfold, pow2};
use vstd::prelude::*;

use crate::field::{
    fadd, fmul, fone, fzero, lemma_fadd_comm, lemma_fadd_self, lemma_fadd_zero, lemma_fmul_assoc,
    lemma_fmul_comm, lemma_fmul_distr, F128,
};
use crate::hash_to_point_scatter::power_sum::{derived_point, derived_scale, power_sum_defined};
use crate::hash_to_point_slots::relation::{bits_value, lemma_bits_value_range};
use crate::hash_to_point_sponge::chaining::{
    block_bits, chain_outcome, lemma_power_form, lemma_record_start, lemma_salt_opening,
    lemma_slot_opening, past_salt, public_frame, salt_factors, slot_bits, slot_window,
    sponge_point_at,
};
use crate::hash_to_point_sponge::{
    byte_bit, frame_block, lemma_positions, lemma_value_bits, logical, padded_frame, physical,
    trace_state, SpongePublic,
};
use crate::keccak::permutation;
use crate::mle::{bit_table, bit_value, eq_weight, fold_table, lemma_lerp, lemma_mle_add, mle};
use crate::polynomial::{distinct, lemma_lines_bind, lemma_power_sums_bind};
use crate::sums::{fpow, fsum, lemma_fsum_add, lemma_fsum_congr, lemma_fsum_scale};

verus! {

/// One of two elements on each axis.
pub open spec fn on_box(r: Seq<F128>, lows: Seq<F128>, highs: Seq<F128>) -> bool {
    &&& r.len() == lows.len()
    &&& forall|a: int| 0 <= a < r.len() ==> #[trigger] r[a] == lows[a] || r[a] == highs[a]
}

/// The two elements of every axis differ.
pub open spec fn is_box(lows: Seq<F128>, highs: Seq<F128>) -> bool {
    &&& lows.len() == highs.len()
    &&& forall|a: int| 0 <= a < lows.len() ==> lows[a] != highs[a]
}

/// Tables whose extensions agree on a box are equal.
pub proof fn lemma_extensions_bind(
    s: Seq<F128>,
    t: Seq<F128>,
    lows: Seq<F128>,
    highs: Seq<F128>,
)
    requires
        is_box(lows, highs),
        s.len() == t.len() == pow2(lows.len()),
        forall|r: Seq<F128>| #[trigger] on_box(r, lows, highs) ==> mle(s, r) == mle(t, r),
    ensures
        s == t,
    decreases lows.len(),
{
    lemma2_to64();
    if lows.len() == 0 {
        let r = Seq::<F128>::empty();
        assert(on_box(r, lows, highs));
        assert(s =~= t);
    } else {
        lemma_pow2_unfold(lows.len());
        let half = pow2((lows.len() - 1) as nat) as int;
        let (ls, hs) = (lows.drop_first(), highs.drop_first());
        assert(is_box(ls, hs)) by {
            assert forall|a: int| 0 <= a < ls.len() implies ls[a] != hs[a] by {
                assert(lows[a + 1] != highs[a + 1]);
            }
        }
        assert forall|c: F128| c == lows[0] || c == highs[0] implies #[trigger] fold_table(s, c)
            == fold_table(t, c) by {
            assert forall|r: Seq<F128>| #[trigger] on_box(r, ls, hs) implies mle(
                fold_table(s, c),
                r,
            ) == mle(fold_table(t, c), r) by {
                let whole = seq![c] + r;
                assert forall|a: int| 0 <= a < whole.len() implies #[trigger] whole[a] == lows[a]
                    || whole[a] == highs[a] by {
                    if a > 0 {
                        assert(r[a - 1] == ls[a - 1] || r[a - 1] == hs[a - 1]);
                    }
                }
                assert(on_box(whole, lows, highs));
                assert(whole.drop_first() =~= r);
            }
            lemma_extensions_bind(fold_table(s, c), fold_table(t, c), ls, hs);
        }
        assert forall|i: int| 0 <= i < half implies #[trigger] s[i] == t[i] && s[half + i]
            == t[half + i] by {
            let (l, h) = (lows[0], highs[0]);
            assert(fold_table(s, l)[i] == fold_table(t, l)[i]);
            assert(fold_table(s, h)[i] == fold_table(t, h)[i]);
            lemma_lerp(s[i], s[half + i], l);
            lemma_lerp(s[i], s[half + i], h);
            lemma_lerp(t[i], t[half + i], l);
            lemma_lerp(t[i], t[half + i], h);
            lemma_lines_bind(l, h, s[i], s[half + i], t[i], t[half + i]);
        }
        assert forall|i: int| 0 <= i < s.len() implies s[i] == t[i] by {
            if i >= half {
                assert(s[i - half] == t[i - half]);
            }
        }
        assert(s =~= t);
    }
}

/// The openings of a witness at the lane's points.
pub open spec fn sponge_openings(
    z: Seq<bool>,
    record_vars: nat,
    delta: F128,
    r: Seq<F128>,
) -> Seq<F128> {
    Seq::new(22, |k: int| mle(bit_table(z), sponge_point_at(record_vars, delta, r, k)))
}

/// The slots of a record are chained: each input state is the output state
/// before it, with the second block added on the absorption edge, and the first
/// input state holds the public part of the first block.
pub open spec fn edges_hold(z: Seq<bool>, public: SpongePublic, rec: int) -> bool {
    &&& forall|e: int|
        2 <= e < 10 ==> #[trigger] slot_window(z, rec, e, false) == slot_window(
            z,
            rec,
            e - 1,
            true,
        )
    &&& forall|p: int|
        0 <= p < 2048 ==> #[trigger] slot_window(z, rec, 1, false)[p] == (slot_window(
            z,
            rec,
            0,
            true,
        )[p] != block_bits(frame_block(public_frame(public), 1), 0)[p])
    &&& forall|p: int|
        320 <= p < 2048 ==> #[trigger] slot_window(z, rec, 0, false)[p] == block_bits(
            frame_block(public_frame(public), 0),
            320,
        )[p]
}

/// The chain checks pass on the witness's own openings.
pub open spec fn chain_passes(
    z: Seq<bool>,
    publics: Seq<SpongePublic>,
    record_vars: nat,
    delta: F128,
    r: Seq<F128>,
) -> bool {
    chain_outcome(sponge_openings(z, record_vars, delta, r), publics, record_vars, delta, r)
        == Ok::<(), Seq<char>>(())
}

/// A scaled opening of whole slots is a power sum of the slots' extensions.
proof fn lemma_slot_power(
    z: Seq<bool>,
    record_vars: nat,
    delta: F128,
    r: Seq<F128>,
    e: int,
    out: bool,
)
    requires
        r.len() == 11,
        z.len() == pow2(record_vars) * 524288,
        power_sum_defined(delta, record_vars as int),
        0 <= e < 10,
    ensures
        fmul(
            derived_scale(delta, record_vars as int),
            sponge_openings(z, record_vars, delta, r)[if out {
                e + 10
            } else {
                e
            }],
        ) == fsum(
            |rec: int| fmul(fpow(delta, rec), mle(bit_table(slot_window(z, rec, e, out)), r)),
            pow2(record_vars) as int,
        ),
{
    let k = if out {
        e + 10
    } else {
        e
    };
    let records = pow2(record_vars) as int;
    let part = |rec: int| mle(bit_table(slot_window(z, rec, e, out)), r);
    let value = sponge_openings(z, record_vars, delta, r)[k];
    lemma_slot_opening(z, record_vars, delta, r, k, e, out);
    lemma_fsum_congr(
        |rec: int|
            fmul(
                eq_weight(derived_point(delta, record_vars), rec),
                mle(bit_table(slot_window(z, rec, e, out)), r),
            ),
        |rec: int| fmul(eq_weight(derived_point(delta, record_vars), rec), part(rec)),
        records,
    );
    lemma_power_form(record_vars, delta, part, value);
    lemma_fsum_congr(
        |rec: int| fmul(fpow(delta, rec), part(rec)),
        |rec: int| fmul(fpow(delta, rec), mle(bit_table(slot_window(z, rec, e, out)), r)),
        records,
    );
}

/// What the interior edges say at one point.
proof fn lemma_interior_at(
    z: Seq<bool>,
    publics: Seq<SpongePublic>,
    record_vars: nat,
    deltas: Seq<F128>,
    r: Seq<F128>,
    rec: int,
    e: int,
)
    requires
        r.len() == 11,
        z.len() == pow2(record_vars) * 524288,
        deltas.len() == pow2(record_vars),
        distinct(deltas),
        forall|i: int|
            0 <= i < deltas.len() ==> chain_passes(z, publics, record_vars, #[trigger] deltas[i], r),
        0 <= rec < pow2(record_vars),
        2 <= e < 10,
    ensures
        mle(bit_table(slot_window(z, rec, e, false)), r) == mle(
            bit_table(slot_window(z, rec, e - 1, true)),
            r,
        ),
{
    let n = pow2(record_vars) as int;
    let f = |rec: int| mle(bit_table(slot_window(z, rec, e, false)), r);
    let g = |rec: int| mle(bit_table(slot_window(z, rec, e - 1, true)), r);
    assert forall|i: int| 0 <= i < deltas.len() implies fsum(
        |rec: int| fmul(fpow(#[trigger] deltas[i], rec), f(rec)),
        n,
    ) == fsum(|rec: int| fmul(fpow(deltas[i], rec), g(rec)), n) by {
        let delta = deltas[i];
        assert(chain_passes(z, publics, record_vars, deltas[i], r));
        let values = sponge_openings(z, record_vars, delta, r);
        assert(values[e] == values[9 + e]);
        lemma_slot_power(z, record_vars, delta, r, e, false);
        lemma_slot_power(z, record_vars, delta, r, e - 1, true);
        lemma_fsum_congr(
            |rec: int| fmul(fpow(delta, rec), mle(bit_table(slot_window(z, rec, e, false)), r)),
            |rec: int| fmul(fpow(deltas[i], rec), f(rec)),
            n,
        );
        lemma_fsum_congr(
            |rec: int| fmul(fpow(delta, rec), mle(bit_table(slot_window(z, rec, e - 1, true)), r)),
            |rec: int| fmul(fpow(deltas[i], rec), g(rec)),
            n,
        );
    }
    lemma_power_sums_bind(f, g, n, deltas, rec);
}

/// What the absorption edge says at one point.
proof fn lemma_absorption_at(
    z: Seq<bool>,
    publics: Seq<SpongePublic>,
    record_vars: nat,
    deltas: Seq<F128>,
    r: Seq<F128>,
    rec: int,
)
    requires
        r.len() == 11,
        z.len() == pow2(record_vars) * 524288,
        publics.len() == pow2(record_vars),
        deltas.len() == pow2(record_vars),
        distinct(deltas),
        forall|i: int|
            0 <= i < deltas.len() ==> chain_passes(z, publics, record_vars, #[trigger] deltas[i], r),
        0 <= rec < pow2(record_vars),
    ensures
        mle(bit_table(slot_window(z, rec, 1, false)), r) == fadd(
            mle(bit_table(slot_window(z, rec, 0, true)), r),
            mle(bit_table(block_bits(frame_block(public_frame(publics[rec]), 1), 0)), r),
        ),
{
    let n = pow2(record_vars) as int;
    let block = |rec: int|
        mle(bit_table(block_bits(frame_block(public_frame(publics[rec]), 1), 0)), r);
    let f = |rec: int| mle(bit_table(slot_window(z, rec, 1, false)), r);
    let h = |rec: int| mle(bit_table(slot_window(z, rec, 0, true)), r);
    let g = |rec: int| fadd(h(rec), block(rec));
    assert forall|i: int| 0 <= i < deltas.len() implies fsum(
        |rec: int| fmul(fpow(#[trigger] deltas[i], rec), f(rec)),
        n,
    ) == fsum(|rec: int| fmul(fpow(deltas[i], rec), g(rec)), n) by {
        let delta = deltas[i];
        assert(chain_passes(z, publics, record_vars, deltas[i], r));
        lemma_slot_power(z, record_vars, delta, r, 1, false);
        lemma_slot_power(z, record_vars, delta, r, 0, true);
        let x = |rec: int| fmul(fpow(delta, rec), h(rec));
        let y = |rec: int| fmul(fpow(delta, rec), block(rec));
        let sum = |rec: int| fadd(x(rec), y(rec));
        assert forall|rec: int| 0 <= rec < n implies #[trigger] sum(rec) == fmul(
            fpow(deltas[i], rec),
            g(rec),
        ) by {
            lemma_fmul_distr(fpow(delta, rec), h(rec), block(rec));
        }
        lemma_fsum_congr(sum, |rec: int| fmul(fpow(deltas[i], rec), g(rec)), n);
        lemma_fsum_add(x, y, n);
        lemma_fsum_congr(sum, |rec: int| fadd(x(rec), y(rec)), n);
        lemma_fsum_congr(
            |rec: int| fmul(fpow(delta, rec), mle(bit_table(slot_window(z, rec, 0, true)), r)),
            x,
            n,
        );
        lemma_fsum_congr(
            |rec: int|
                if rec < publics.len() {
                    fmul(
                        fpow(delta, rec),
                        mle(
                            bit_table(block_bits(frame_block(public_frame(publics[rec]), 1), 0)),
                            r,
                        ),
                    )
                } else {
                    fzero()
                },
            y,
            n,
        );
        lemma_fsum_congr(
            |rec: int| fmul(fpow(delta, rec), mle(bit_table(slot_window(z, rec, 1, false)), r)),
            |rec: int| fmul(fpow(deltas[i], rec), f(rec)),
            n,
        );
    }
    lemma_power_sums_bind(f, g, n, deltas, rec);
}

/// A scaled opening of a salt piece is a power sum of the pieces' extensions.
proof fn lemma_salt_power(
    z: Seq<bool>,
    record_vars: nat,
    delta: F128,
    r: Seq<F128>,
    k: int,
    from: int,
    to: int,
    n: nat,
)
    requires
        r.len() == 11,
        z.len() == pow2(record_vars) * 524288,
        power_sum_defined(delta, record_vars as int),
        (k == 20 && from == 0 && to == 256 && n == 3) || (k == 21 && from == 256 && to == 320
            && n == 5),
    ensures
        fmul(
            derived_scale(delta, record_vars as int),
            sponge_openings(z, record_vars, delta, r)[k],
        ) == fsum(
            |rec: int|
                fmul(
                    fpow(delta, rec),
                    mle(
                        bit_table(slot_window(z, rec, 0, false).subrange(from, to)),
                        r.skip(n as int),
                    ),
                ),
            pow2(record_vars) as int,
        ),
{
    lemma2_to64();
    let v: int = if k == 20 {
        0
    } else {
        4
    };
    let records = pow2(record_vars) as int;
    let part = |rec: int|
        mle(bit_table(slot_window(z, rec, 0, false).subrange(from, to)), r.skip(n as int));
    let value = sponge_openings(z, record_vars, delta, r)[k];
    lemma_salt_opening(z, record_vars, delta, r, k, v, n);
    assert(v * pow2((11 - n) as nat) == from && from + pow2((11 - n) as nat) == to) by {
        assert(pow2(8) == 256 && pow2(6) == 64);
        assert(0int * pow2(8) == 0 && 4int * pow2(6) == 256);
    }
    lemma_fsum_congr(
        |rec: int|
            fmul(
                eq_weight(derived_point(delta, record_vars), rec),
                mle(
                    bit_table(
                        slot_window(z, rec, 0, false).subrange(
                            v * pow2((11 - n) as nat),
                            v * pow2((11 - n) as nat) + pow2((11 - n) as nat),
                        ),
                    ),
                    r.skip(n as int),
                ),
            ),
        |rec: int| fmul(eq_weight(derived_point(delta, record_vars), rec), part(rec)),
        records,
    );
    lemma_power_form(record_vars, delta, part, value);
    lemma_fsum_congr(
        |rec: int| fmul(fpow(delta, rec), part(rec)),
        |rec: int|
            fmul(
                fpow(delta, rec),
                mle(
                    bit_table(slot_window(z, rec, 0, false).subrange(from, to)),
                    r.skip(n as int),
                ),
            ),
        records,
    );
}

/// The scaled record starts as a power sum of the slots past the salt.
proof fn lemma_starts_power(z: Seq<bool>, record_vars: nat, delta: F128, r: Seq<F128>)
    requires
        r.len() == 11,
        z.len() == pow2(record_vars) * 524288,
        power_sum_defined(delta, record_vars as int),
    ensures
        ({
            let values = sponge_openings(z, record_vars, delta, r);
            fmul(
                derived_scale(delta, record_vars as int),
                fadd(
                    fadd(values[0], fmul(salt_factors(r).0, values[20])),
                    fmul(salt_factors(r).1, values[21]),
                ),
            )
        }) == fsum(
            |rec: int|
                fmul(
                    fpow(delta, rec),
                    mle(bit_table(past_salt(slot_window(z, rec, 0, false))), r),
                ),
            pow2(record_vars) as int,
        ),
{
    let n = pow2(record_vars) as int;
    let scale = derived_scale(delta, record_vars as int);
    let values = sponge_openings(z, record_vars, delta, r);
    let (c1, c2) = salt_factors(r);
    let slot = |rec: int| mle(bit_table(slot_window(z, rec, 0, false)), r);
    let first = |rec: int|
        mle(bit_table(slot_window(z, rec, 0, false).subrange(0, 256)), r.skip(3));
    let second = |rec: int|
        mle(bit_table(slot_window(z, rec, 0, false).subrange(256, 320)), r.skip(5));
    let f0 = |rec: int| fmul(fpow(delta, rec), slot(rec));
    let f1 = |rec: int| fmul(fpow(delta, rec), first(rec));
    let f2 = |rec: int| fmul(fpow(delta, rec), second(rec));
    lemma_slot_power(z, record_vars, delta, r, 0, false);
    lemma_salt_power(z, record_vars, delta, r, 20, 0, 256, 3);
    lemma_salt_power(z, record_vars, delta, r, 21, 256, 320, 5);
    lemma_fsum_congr(
        |rec: int| fmul(fpow(delta, rec), mle(bit_table(slot_window(z, rec, 0, false)), r)),
        f0,
        n,
    );
    lemma_fsum_congr(
        |rec: int|
            fmul(
                fpow(delta, rec),
                mle(bit_table(slot_window(z, rec, 0, false).subrange(0, 256)), r.skip(3 as int)),
            ),
        f1,
        n,
    );
    lemma_fsum_congr(
        |rec: int|
            fmul(
                fpow(delta, rec),
                mle(bit_table(slot_window(z, rec, 0, false).subrange(256, 320)), r.skip(5 as int)),
            ),
        f2,
        n,
    );
    // The scale moves inside.
    let (v0, v1, v2) = (values[0], values[20], values[21]);
    lemma_fmul_distr(scale, fadd(v0, fmul(c1, v1)), fmul(c2, v2));
    lemma_fmul_distr(scale, v0, fmul(c1, v1));
    lemma_fmul_assoc(scale, c1, v1);
    lemma_fmul_comm(scale, c1);
    lemma_fmul_assoc(c1, scale, v1);
    lemma_fmul_assoc(scale, c2, v2);
    lemma_fmul_comm(scale, c2);
    lemma_fmul_assoc(c2, scale, v2);
    // The three sums join.
    lemma_fsum_scale(c1, f1, n);
    lemma_fsum_scale(c2, f2, n);
    let g1 = |rec: int| fmul(c1, f1(rec));
    let g2 = |rec: int| fmul(c2, f2(rec));
    let f01 = |rec: int| fadd(f0(rec), g1(rec));
    let all = |rec: int| fadd(f01(rec), g2(rec));
    lemma_fsum_congr(g1, |rec: int| fmul(c1, f1(rec)), n);
    lemma_fsum_congr(g2, |rec: int| fmul(c2, f2(rec)), n);
    lemma_fsum_add(f0, g1, n);
    lemma_fsum_congr(f01, |rec: int| fadd(f0(rec), g1(rec)), n);
    lemma_fsum_add(f01, g2, n);
    lemma_fsum_congr(all, |rec: int| fadd(f01(rec), g2(rec)), n);
    let whole = |rec: int|
        fmul(fpow(delta, rec), mle(bit_table(past_salt(slot_window(z, rec, 0, false))), r));
    assert forall|rec: int| 0 <= rec < n implies #[trigger] all(rec) == whole(rec) by {
        let (w, a, b, c) = (fpow(delta, rec), slot(rec), first(rec), second(rec));
        lemma_record_start(slot_window(z, rec, 0, false), r);
        lemma_fmul_distr(w, fadd(a, fmul(c1, b)), fmul(c2, c));
        lemma_fmul_distr(w, a, fmul(c1, b));
        lemma_fmul_assoc(w, c1, b);
        lemma_fmul_comm(w, c1);
        lemma_fmul_assoc(c1, w, b);
        lemma_fmul_assoc(w, c2, c);
        lemma_fmul_comm(w, c2);
        lemma_fmul_assoc(c2, w, c);
    }
    lemma_fsum_congr(all, whole, n);
}

/// What the record starts say at one point.
proof fn lemma_starts_at(
    z: Seq<bool>,
    publics: Seq<SpongePublic>,
    record_vars: nat,
    deltas: Seq<F128>,
    r: Seq<F128>,
    rec: int,
)
    requires
        r.len() == 11,
        z.len() == pow2(record_vars) * 524288,
        publics.len() == pow2(record_vars),
        deltas.len() == pow2(record_vars),
        distinct(deltas),
        forall|i: int|
            0 <= i < deltas.len() ==> chain_passes(z, publics, record_vars, #[trigger] deltas[i], r),
        0 <= rec < pow2(record_vars),
    ensures
        mle(bit_table(past_salt(slot_window(z, rec, 0, false))), r) == mle(
            bit_table(block_bits(frame_block(public_frame(publics[rec]), 0), 320)),
            r,
        ),
{
    let n = pow2(record_vars) as int;
    let f = |rec: int| mle(bit_table(past_salt(slot_window(z, rec, 0, false))), r);
    let g = |rec: int|
        mle(bit_table(block_bits(frame_block(public_frame(publics[rec]), 0), 320)), r);
    assert forall|i: int| 0 <= i < deltas.len() implies fsum(
        |rec: int| fmul(fpow(#[trigger] deltas[i], rec), f(rec)),
        n,
    ) == fsum(|rec: int| fmul(fpow(deltas[i], rec), g(rec)), n) by {
        let delta = deltas[i];
        assert(chain_passes(z, publics, record_vars, deltas[i], r));
        lemma_starts_power(z, record_vars, delta, r);
        lemma_fsum_congr(
            |rec: int|
                fmul(
                    fpow(delta, rec),
                    mle(bit_table(past_salt(slot_window(z, rec, 0, false))), r),
                ),
            |rec: int| fmul(fpow(deltas[i], rec), f(rec)),
            n,
        );
        lemma_fsum_congr(
            |rec: int|
                if rec < publics.len() {
                    fmul(
                        fpow(delta, rec),
                        mle(
                            bit_table(block_bits(frame_block(public_frame(publics[rec]), 0), 320)),
                            r,
                        ),
                    )
                } else {
                    fzero()
                },
            |rec: int| fmul(fpow(deltas[i], rec), g(rec)),
            n,
        );
    }
    lemma_power_sums_bind(f, g, n, deltas, rec);
}

proof fn lemma_bit_tables_bind(a: Seq<bool>, b: Seq<bool>)
    requires
        bit_table(a) == bit_table(b),
    ensures
        a == b,
{
    assert(bit_table(a).len() == a.len() && bit_table(b).len() == b.len());
    assert forall|p: int| 0 <= p < a.len() implies a[p] == b[p] by {
        assert(bit_table(a)[p] == bit_value(a[p]));
        assert(bit_table(b)[p] == bit_value(b[p]));
        assert(fone() != fzero());
    }
    assert(a =~= b);
}

/// The chain checks bind the states: where a witness's openings pass them at as
/// many record challenges as there are records and at every point of a box, its
/// slots are chained. Slots that are not refute all but as few.
pub proof fn passing_chains_bind_the_states(
    z: Seq<bool>,
    publics: Seq<SpongePublic>,
    record_vars: nat,
    deltas: Seq<F128>,
    lows: Seq<F128>,
    highs: Seq<F128>,
)
    requires
        z.len() == pow2(record_vars) * 524288,
        publics.len() == pow2(record_vars),
        deltas.len() == pow2(record_vars),
        distinct(deltas),
        lows.len() == 11,
        is_box(lows, highs),
        forall|i: int, r: Seq<F128>|
            0 <= i < deltas.len() && #[trigger] on_box(r, lows, highs) ==> chain_passes(
                z,
                publics,
                record_vars,
                #[trigger] deltas[i],
                r,
            ),
    ensures
        forall|rec: int|
            0 <= rec < pow2(record_vars) ==> edges_hold(z, #[trigger] publics[rec], rec),
{
    lemma2_to64();
    assert forall|rec: int| 0 <= rec < pow2(record_vars) implies edges_hold(
        z,
        #[trigger] publics[rec],
        rec,
    ) by {
        assert forall|e: int| 2 <= e < 10 implies #[trigger] slot_window(z, rec, e, false)
            == slot_window(z, rec, e - 1, true) by {
            let (a, b) = (slot_window(z, rec, e, false), slot_window(z, rec, e - 1, true));
            assert forall|r: Seq<F128>| #[trigger] on_box(r, lows, highs) implies mle(
                bit_table(a),
                r,
            ) == mle(bit_table(b), r) by {
                lemma_interior_at(z, publics, record_vars, deltas, r, rec, e);
            }
            lemma_extensions_bind(bit_table(a), bit_table(b), lows, highs);
            lemma_bit_tables_bind(a, b);
        }
        // The absorption edge.
        let (input, output) = (slot_window(z, rec, 1, false), slot_window(z, rec, 0, true));
        let block = block_bits(frame_block(public_frame(publics[rec]), 1), 0);
        let sum = Seq::new(2048, |p: int| output[p] != block[p]);
        let (ti, to, tb) = (bit_table(input), bit_table(output), bit_table(block));
        let added = Seq::new(to.len(), |p: int| fadd(to[p], tb[p]));
        lemma_fadd_zero(fone());
        lemma_fadd_zero(fzero());
        lemma_fadd_comm(fone(), fzero());
        lemma_fadd_self(fone());
        assert(added =~= bit_table(sum));
        assert forall|r: Seq<F128>| #[trigger] on_box(r, lows, highs) implies mle(ti, r) == mle(
            bit_table(sum),
            r,
        ) by {
            lemma_absorption_at(z, publics, record_vars, deltas, r, rec);
            lemma_mle_add(to, tb, r);
        }
        lemma_extensions_bind(ti, bit_table(sum), lows, highs);
        lemma_bit_tables_bind(input, sum);
        // The record starts.
        let start = past_salt(slot_window(z, rec, 0, false));
        let public = block_bits(frame_block(public_frame(publics[rec]), 0), 320);
        assert forall|r: Seq<F128>| #[trigger] on_box(r, lows, highs) implies mle(
            bit_table(start),
            r,
        ) == mle(bit_table(public), r) by {
            lemma_starts_at(z, publics, record_vars, deltas, r, rec);
        }
        lemma_extensions_bind(bit_table(start), bit_table(public), lows, highs);
        lemma_bit_tables_bind(start, public);
        assert forall|p: int| 320 <= p < 2048 implies #[trigger] slot_window(
            z,
            rec,
            0,
            false,
        )[p] == public[p] by {
            assert(start[p] == public[p]);
        }
    }
}

/// The frame of a public part under a salt.
pub open spec fn salted_frame(salt: Seq<u8>, public: SpongePublic) -> Seq<u8> {
    salt + public.hpk@ + seq![0u8, 0u8] + public.message@
}

/// Every permutation of a record holds: its two slots are a state and the
/// state's image.
pub open spec fn permutations_hold(z: Seq<bool>, rec: int) -> bool {
    forall|e: int|
        0 <= e < 10 ==> exists|s: Seq<bool>|
            s.len() == 1600 && #[trigger] slot_window(z, rec, e, false) == #[trigger] slot_bits(s)
                && slot_window(z, rec, e, true) == slot_bits(permutation(s))
}

/// The slots of a record are the sponge's states on a frame.
pub open spec fn runs_the_sponge(z: Seq<bool>, rec: int, frame: Seq<u8>) -> bool {
    forall|e: int|
        0 <= e < 10 ==> #[trigger] slot_window(z, rec, e, false) == slot_bits(
            trace_state(frame, e),
        ) && slot_window(z, rec, e, true) == slot_bits(permutation(trace_state(frame, e)))
}

/// A state is what its slot holds.
proof fn lemma_slot_state(s: Seq<bool>, t: Seq<bool>)
    requires
        s.len() == 1600,
        t.len() == 1600,
        slot_bits(s) == slot_bits(t),
    ensures
        s == t,
{
    assert forall|j: int| 0 <= j < 1600 implies s[j] == t[j] by {
        lemma_positions(j);
        let p = physical(j);
        assert(slot_bits(s)[p] == s[logical(p)]);
        assert(slot_bits(t)[p] == t[logical(p)]);
    }
    assert(s =~= t);
}

/// The salt that a record start holds.
spec fn held_salt(start: Seq<bool>) -> Seq<u8> {
    Seq::new(40, |i: int| bits_value(|t: int| start[8 * i + t], 8) as u8)
}

proof fn lemma_held_salt(start: Seq<bool>, p: int)
    requires
        0 <= p < 320,
    ensures
        byte_bit(held_salt(start)[p / 8], p % 8) == start[p],
{
    lemma2_to64();
    let i = p / 8;
    let f = |t: int| start[8 * i + t];
    lemma_bits_value_range(f, 8);
    lemma_value_bits(f, 8, p % 8);
    assert(8 * i + p % 8 == p);
    assert(held_salt(start)[i] as int == bits_value(f, 8));
}

/// The blocks of the salted frame are the public frame's past the salt.
proof fn lemma_salted_blocks(salt: Seq<u8>, public: SpongePublic, i: int)
    requires
        salt.len() == 40,
        31 <= public.message@.len() <= 165,
        0 <= i < 272,
    ensures
        padded_frame(salted_frame(salt, public)).len() == 272,
        padded_frame(public_frame(public)).len() == 272,
        i < 40 ==> padded_frame(salted_frame(salt, public))[i] == salt[i],
        i >= 40 ==> padded_frame(salted_frame(salt, public))[i] == padded_frame(
            public_frame(public),
        )[i],
{
    let f = salted_frame(salt, public);
    let g = public_frame(public);
    assert(f.len() == g.len() == 106 + public.message@.len());
    assert(f.len() as int / 136 == 1);
    if i < f.len() {
        if i < 40 {
            assert(f[i] == salt[i]);
        } else {
            assert(f[i] == g[i]);
        }
    }
}

/// Soundness of the sponge: where the slots of a record are chained and its
/// permutations hold, they are the states of the sponge on the record's public
/// frame under some salt, so that the squeezed states are SHAKE256's.
pub proof fn chained_slots_run_the_sponge(z: Seq<bool>, public: SpongePublic, rec: int)
    requires
        31 <= public.message@.len() <= 165,
        edges_hold(z, public, rec),
        permutations_hold(z, rec),
    ensures
        exists|salt: Seq<u8>|
            salt.len() == 40 && runs_the_sponge(z, rec, #[trigger] salted_frame(salt, public)),
{
    let start = slot_window(z, rec, 0, false);
    let salt = held_salt(start);
    let frame = salted_frame(salt, public);
    lemma_salted_blocks(salt, public, 0);
    assert forall|e: int| 0 <= e < 10 implies #[trigger] slot_window(z, rec, e, false)
        == slot_bits(trace_state(frame, e)) && slot_window(z, rec, e, true) == slot_bits(
        permutation(trace_state(frame, e)),
    ) by {
        lemma_state_is_traced(z, public, rec, e);
    }
    assert(runs_the_sponge(z, rec, salted_frame(salt, public)));
}

/// Each slot holds the trace's state under the salt that the start holds.
proof fn lemma_state_is_traced(z: Seq<bool>, public: SpongePublic, rec: int, e: int)
    requires
        31 <= public.message@.len() <= 165,
        edges_hold(z, public, rec),
        permutations_hold(z, rec),
        0 <= e < 10,
    ensures
        ({
            let salt = held_salt(slot_window(z, rec, 0, false));
            let state = trace_state(salted_frame(salt, public), e);
            slot_window(z, rec, e, false) == slot_bits(state) && slot_window(z, rec, e, true)
                == slot_bits(permutation(state))
        }),
    decreases e,
{
    let start = slot_window(z, rec, 0, false);
    let salt = held_salt(start);
    let frame = salted_frame(salt, public);
    let state = trace_state(frame, e);
    let window = slot_window(z, rec, e, false);
    let s = choose|s: Seq<bool>|
        s.len() == 1600 && slot_window(z, rec, e, false) == #[trigger] slot_bits(s)
            && slot_window(z, rec, e, true) == slot_bits(permutation(s));
    assert(s.len() == 1600 && window == slot_bits(s) && slot_window(z, rec, e, true) == slot_bits(
        permutation(s),
    ));
    if e == 0 {
        let block = frame_block(frame, 0);
        let other = frame_block(public_frame(public), 0);
        lemma_salted_blocks(salt, public, 0);
        assert forall|p: int| 0 <= p < 2048 implies window[p] == slot_bits(state)[p] by {
            if p < 1600 {
                lemma_positions(p);
            }
            if p < 1088 {
                lemma_salted_blocks(salt, public, p / 8);
                assert(block[p / 8] == padded_frame(frame)[p / 8]);
                if p < 320 {
                    lemma_held_salt(start, p);
                } else {
                    assert(other[p / 8] == padded_frame(public_frame(public))[p / 8]);
                    assert(window[p] == block_bits(other, 320)[p]);
                }
            } else {
                assert(window[p] == block_bits(other, 320)[p]);
            }
        }
        assert(window =~= slot_bits(state));
    } else if e == 1 {
        lemma_state_is_traced(z, public, rec, 0);
        let before = permutation(trace_state(frame, 0));
        let block = frame_block(frame, 1);
        let other = frame_block(public_frame(public), 1);
        lemma_salted_blocks(salt, public, 0);
        assert(block =~= other) by {
            assert forall|i: int| 0 <= i < 136 implies block[i] == other[i] by {
                lemma_salted_blocks(salt, public, 136 + i);
            }
        }
        assert forall|p: int| 0 <= p < 2048 implies window[p] == slot_bits(state)[p] by {
            if p < 1600 {
                lemma_positions(p);
            }
            assert(window[p] == (slot_window(z, rec, 0, true)[p] != block_bits(other, 0)[p]));
            assert(slot_window(z, rec, 0, true)[p] == slot_bits(before)[p]);
        }
        assert(window =~= slot_bits(state));
    } else {
        lemma_state_is_traced(z, public, rec, e - 1);
    }
    lemma_slot_state(s, state);
}

} // verus!
