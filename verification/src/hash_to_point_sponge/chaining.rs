//! The sponge chain as openings of the committed states.
//!
//! A record strides four blocks of 64 slots of 2,048 bits. Permutation `e` of
//! a record has its input state in slot `2 (e / 4)` of block `e % 4` and its
//! output state in the next slot. Every opening binds the records to powers of
//! a challenge and the slot's bits to a random point, so a chain edge is an
//! equality of two openings, up to public terms where a block is absorbed.
use vstd::arithmetic::power2::{
    lemma2_to64, lemma_pow2_adds, lemma_pow2_pos, lemma_pow2_unfold, pow2,
};
use vstd::prelude::*;

use crate::carry_gate::packed_round::lemma_fold_parts;
use crate::field::{
    fadd, fmul, fone, fzero, lemma_fadd_assoc, lemma_fadd_comm, lemma_fadd_self, lemma_fadd_zero,
    lemma_fmul_assoc, lemma_fmul_comm, lemma_fmul_distr, lemma_fmul_one, lemma_fmul_zero, F128,
};
use crate::hash_to_point_scatter::power_sum::{
    derived_point, derived_scale, lemma_scaled_weight, power_sum_defined, power_sum_point,
};
use crate::hash_to_point_slots::relation::nat_bit;
use crate::hash_to_point_sponge::{
    absorb, byte_bit, frame_block, framed_blocks, logical, padded_frame, trace_state, SpongePublic,
    SpongeRecord, LIVE_PERMS, RATE_BYTES, SALT_BITS,
};
use crate::keccak::permutation;
use crate::mle::{
    bit_table, bit_value, eq_table, eq_weight, fold_all, fold_table, lemma_fold_all_concat,
    lemma_mle_add, lemma_mle_combination, lemma_mle_is_weighted_sum, mle,
};
use crate::sums::{fpow, fsum, lemma_fsum_add, lemma_fsum_congr, lemma_fsum_scale};

verus! {

// ---------------------------------------------------------------------------
// The opening points.
// ---------------------------------------------------------------------------

/// The bits of a number as coordinates, most significant first.
pub open spec fn bit_point(v: int, n: nat) -> Seq<F128> {
    Seq::new(n, |i: int| bit_value(nat_bit(v, n - 1 - i)))
}

/// The slot of a permutation's input or output state.
pub open spec fn state_slot(e: int, out: bool) -> int {
    2 * (e / 4) + (if out {
        1int
    } else {
        0
    })
}

/// An opening point of the lane.
pub open spec fn sponge_point(
    record_vars: nat,
    delta: F128,
    e: int,
    out: bool,
    tail: Seq<F128>,
) -> Seq<F128> {
    derived_point(delta, record_vars) + bit_point(e % 4, 2) + bit_point(state_slot(e, out), 6)
        + tail
}

/// The opening points in claim order: the ten input states, the ten output
/// states, and the two aligned salt pieces of the record starts.
pub open spec fn sponge_point_at(record_vars: nat, delta: F128, r: Seq<F128>, k: int) -> Seq<F128> {
    if k < 10 {
        sponge_point(record_vars, delta, k, false, r)
    } else if k < 20 {
        sponge_point(record_vars, delta, k - 10, true, r)
    } else if k == 20 {
        sponge_point(record_vars, delta, 0, false, bit_point(0, 3) + r.skip(3))
    } else {
        sponge_point(record_vars, delta, 0, false, bit_point(4, 5) + r.skip(5))
    }
}

/// Push the bits of a number, most significant first.
fn push_bits(point: &mut Vec<F128>, v: usize, n: usize)
    requires
        n <= 8,
        v < 256,
    ensures
        final(point)@ == old(point)@ + bit_point(v as int, n as nat),
{
    let ghost start = point@;
    let mut i: usize = 0;
    while i < n
        invariant
            n <= 8,
            v < 256,
            i <= n,
            point@ == start + bit_point(v as int, n as nat).take(i as int),
        decreases n - i,
    {
        let ghost before = point@;
        proof {
            crate::hash_to_point_slots::relation::lemma_shift_bit(v as u32, (n - 1 - i) as u32);
        }
        if ((v as u32) >> ((n - 1 - i) as u32)) & 1 == 1 {
            point.push(F128::one());
        } else {
            point.push(F128::zero());
        }
        i = i + 1;
        assert(point@ =~= start + bit_point(v as int, n as nat).take(i as int));
    }
    assert(point@ =~= start + bit_point(v as int, n as nat));
}

fn push_all(point: &mut Vec<F128>, tail: &[F128], from: usize)
    requires
        from <= tail@.len(),
    ensures
        final(point)@ == old(point)@ + tail@.skip(from as int),
{
    let ghost start = point@;
    let mut i: usize = from;
    while i < tail.len()
        invariant
            from <= i <= tail@.len(),
            point@ == start + tail@.subrange(from as int, i as int),
        decreases tail@.len() - i,
    {
        point.push(tail[i]);
        i = i + 1;
        assert(point@ =~= start + tail@.subrange(from as int, i as int));
    }
    assert(point@ =~= start + tail@.skip(from as int));
}

/// The lane's opening points; `None` where the records' powers degenerate.
pub fn sponge_points(record_vars: usize, delta: F128, r: &[F128]) -> (points: Option<
    Vec<Vec<F128>>,
>)
    requires
        r@.len() == 11,
    ensures
        match points {
            Some(points) => power_sum_defined(delta, record_vars as int) && points@.len() == 22
                && forall|k: int|
                0 <= k < 22 ==> (#[trigger] points@[k])@ == sponge_point_at(
                    record_vars as nat,
                    delta,
                    r@,
                    k,
                ),
            None => !power_sum_defined(delta, record_vars as int),
        },
{
    let coords = match power_sum_point(delta, record_vars) {
        Some((coords, _)) => coords,
        None => {
            return None;
        },
    };
    let mut points: Vec<Vec<F128>> = Vec::new();
    let mut k: usize = 0;
    while k < 22
        invariant
            r@.len() == 11,
            coords@ == derived_point(delta, record_vars as nat),
            k <= 22,
            points@.len() == k,
            forall|j: int|
                0 <= j < k ==> (#[trigger] points@[j])@ == sponge_point_at(
                    record_vars as nat,
                    delta,
                    r@,
                    j,
                ),
        decreases 22 - k,
    {
        let e: usize = if k < 10 {
            k
        } else if k < 20 {
            k - 10
        } else {
            0
        };
        let out: usize = if 10 <= k && k < 20 {
            1
        } else {
            0
        };
        let ghost before = points@;
        let mut point = crate::mle::copy_table(coords.as_slice());
        push_bits(&mut point, e % 4, 2);
        push_bits(&mut point, 2 * (e / 4) + out, 6);
        if k < 20 {
            push_all(&mut point, r, 0);
            assert(r@.skip(0) =~= r@);
        } else if k == 20 {
            let ghost head = point@;
            push_bits(&mut point, 0, 3);
            push_all(&mut point, r, 3);
            assert(point@ =~= head + (bit_point(0, 3) + r@.skip(3)));
        } else {
            let ghost head = point@;
            push_bits(&mut point, 4, 5);
            push_all(&mut point, r, 5);
            assert(point@ =~= head + (bit_point(4, 5) + r@.skip(5)));
        }
        assert(point@ =~= sponge_point_at(record_vars as nat, delta, r@, k as int));
        points.push(point);
        proof {
            assert forall|j: int| 0 <= j < k + 1 implies (#[trigger] points@[j])@
                == sponge_point_at(record_vars as nat, delta, r@, j) by {
                if j < k {
                    assert(points@[j] == before[j]);
                }
            }
        }
        k = k + 1;
    }
    Some(points)
}

// ---------------------------------------------------------------------------
// The public terms.
// ---------------------------------------------------------------------------

/// The frame with the salt zeroed.
pub open spec fn public_frame(public: SpongePublic) -> Seq<u8> {
    Seq::new(40, |i: int| 0u8) + public.hpk@ + seq![0u8, 0u8] + public.message@
}

/// The bits of a block from `from` on, on the slot's cube.
pub open spec fn block_bits(block: Seq<u8>, from: int) -> Seq<bool> {
    Seq::new(2048, |p: int| from <= p < 1088 && byte_bit(block[p / 8], p % 8))
}

/// A public term: the records' powers of the challenge times the extension of
/// a block's bits.
pub open spec fn public_term(
    publics: Seq<SpongePublic>,
    records: int,
    delta: F128,
    r: Seq<F128>,
    block: int,
    from: int,
) -> F128 {
    fsum(
        |rec: int|
            if rec < publics.len() {
                fmul(
                    fpow(delta, rec),
                    mle(
                        bit_table(block_bits(frame_block(public_frame(publics[rec]), block), from)),
                        r,
                    ),
                )
            } else {
                fzero()
            },
        records,
    )
}

/// The messages fit the bucket.
pub open spec fn publics_fit(publics: Seq<SpongePublic>) -> bool {
    forall|k: int|
        0 <= k < publics.len() ==> 31 <= (#[trigger] publics[k]).message@.len() <= 165
}

fn copy_bytes(bytes: &Vec<u8>) -> (copy: Vec<u8>)
    ensures
        copy@ == bytes@,
{
    let mut copy: Vec<u8> = Vec::new();
    let mut i: usize = 0;
    while i < bytes.len()
        invariant
            i <= bytes@.len(),
            copy@ == bytes@.take(i as int),
        decreases bytes@.len() - i,
    {
        copy.push(bytes[i]);
        i = i + 1;
        assert(copy@ =~= bytes@.take(i as int));
    }
    assert(copy@ =~= bytes@);
    copy
}

/// The extension of a block's bits from `from` on.
fn block_extension(block: &[u8; 136], from: usize, weights: &Vec<F128>, r: Ghost<Seq<F128>>) -> (sum:
    F128)
    requires
        r@.len() == 11,
        weights@ == Seq::new(2048, |i: int| eq_weight(r@, i)),
    ensures
        sum == mle(bit_table(block_bits(block@, from as int)), r@),
{
    let ghost table = bit_table(block_bits(block@, from as int));
    let ghost f = |p: int| fmul(table[p], eq_weight(r@, p));
    let mut sum = F128::zero();
    let mut p: usize = 0;
    while p < 2048
        invariant
            weights@ == Seq::new(2048, |i: int| eq_weight(r@, i)),
            table == bit_table(block_bits(block@, from as int)),
            f == (|p: int| fmul(table[p], eq_weight(r@, p))),
            p <= 2048,
            sum == fsum(f, p as int),
        decreases 2048 - p,
    {
        proof {
            lemma_fmul_one(weights@[p as int]);
            lemma_fmul_zero(weights@[p as int]);
            lemma_fmul_comm(fzero(), weights@[p as int]);
            lemma_fadd_zero(sum);
            lemma_fadd_comm(sum, fzero());
        }
        if from <= p && p < 8 * RATE_BYTES && crate::hash_to_point_sponge::bit_of(
            block[p / 8],
            p % 8,
        ) {
            sum = sum + weights[p];
        }
        p = p + 1;
    }
    proof {
        lemma2_to64();
        lemma_mle_is_weighted_sum(table, r@);
    }
    sum
}

/// The verifier's public terms: the second absorption blocks, and the record
/// starts past the salt.
pub fn public_terms(publics: &[SpongePublic], record_vars: usize, delta: F128, r: &[F128]) -> (terms: (
    F128,
    F128,
))
    requires
        publics_fit(publics@),
        pow2(record_vars as nat) <= usize::MAX,
        r@.len() == 11,
    ensures
        terms.0 == public_term(publics@, pow2(record_vars as nat) as int, delta, r@, 1, 0),
        terms.1 == public_term(publics@, pow2(record_vars as nat) as int, delta, r@, 0, 320),
{
    proof {
        lemma2_to64();
        crate::packed_mle::lemma_exponent_fits(record_vars as nat);
    }
    let weights = eq_table(r);
    assert(weights@ =~= Seq::new(2048, |i: int| eq_weight(r@, i)));
    let records: usize = crate::hash_to_point_slots::setup::power_of_two(record_vars);
    let ghost f = |rec: int|
        if rec < publics@.len() {
            fmul(
                fpow(delta, rec),
                mle(bit_table(block_bits(frame_block(public_frame(publics@[rec]), 1), 0)), r@),
            )
        } else {
            fzero()
        };
    let ghost g = |rec: int|
        if rec < publics@.len() {
            fmul(
                fpow(delta, rec),
                mle(bit_table(block_bits(frame_block(public_frame(publics@[rec]), 0), 320)), r@),
            )
        } else {
            fzero()
        };
    let mut xor_term = F128::zero();
    let mut frame_term = F128::zero();
    let mut power = F128::one();
    let mut rec: usize = 0;
    while rec < records
        invariant
            publics_fit(publics@),
            r@.len() == 11,
            weights@ == Seq::new(2048, |i: int| eq_weight(r@, i)),
            f == (|rec: int|
                if rec < publics@.len() {
                    fmul(
                        fpow(delta, rec),
                        mle(
                            bit_table(block_bits(frame_block(public_frame(publics@[rec]), 1), 0)),
                            r@,
                        ),
                    )
                } else {
                    fzero()
                }),
            g == (|rec: int|
                if rec < publics@.len() {
                    fmul(
                        fpow(delta, rec),
                        mle(
                            bit_table(block_bits(frame_block(public_frame(publics@[rec]), 0), 320)),
                            r@,
                        ),
                    )
                } else {
                    fzero()
                }),
            rec <= records,
            power == fpow(delta, rec as int),
            xor_term == fsum(f, rec as int),
            frame_term == fsum(g, rec as int),
        decreases records - rec,
    {
        proof {
            lemma_fadd_zero(xor_term);
            lemma_fadd_comm(xor_term, fzero());
            lemma_fadd_zero(frame_term);
            lemma_fadd_comm(frame_term, fzero());
        }
        if rec < publics.len() {
            let stand_in = SpongeRecord {
                salt: [0; 40],
                hpk: publics[rec].hpk,
                message: copy_bytes(&publics[rec].message),
            };
            proof {
                assert(31 <= publics@[rec as int].message@.len() <= 165);
                assert(stand_in.frame() =~= public_frame(publics@[rec as int]));
            }
            let (block1, block2) = framed_blocks(&stand_in);
            let xor_sum = block_extension(&block2, 0, &weights, Ghost(r@));
            let frame_sum = block_extension(&block1, SALT_BITS, &weights, Ghost(r@));
            xor_term = xor_term + power * xor_sum;
            frame_term = frame_term + power * frame_sum;
        }
        power = power * delta;
        rec = rec + 1;
    }
    (xor_term, frame_term)
}

/// The scale that relates the openings to raw power sums; `None` where it
/// vanishes.
pub fn record_scale(record_vars: usize, delta: F128) -> (scale: Option<F128>)
    ensures
        match scale {
            Some(scale) => power_sum_defined(delta, record_vars as int) && scale == derived_scale(
                delta,
                record_vars as int,
            ),
            None => !power_sum_defined(delta, record_vars as int),
        },
{
    match power_sum_point(delta, record_vars) {
        Some((_, scale)) => Some(scale),
        None => None,
    }
}

/// The factors of the two salt pieces.
pub open spec fn salt_factors(r: Seq<F128>) -> (F128, F128) {
    let n = |i: int| fadd(fone(), r[i]);
    (
        fmul(fmul(n(0), n(1)), n(2)),
        fmul(fmul(fmul(fmul(n(0), n(1)), r[2]), n(3)), n(4)),
    )
}

/// The factors by which the salt pieces' openings enter the slot's.
pub fn salt_scales(r: &[F128]) -> (scales: (F128, F128))
    requires
        r@.len() >= 5,
    ensures
        scales == salt_factors(r@),
{
    let one = F128::one();
    let s256 = (one + r[0]) * (one + r[1]) * (one + r[2]);
    let s64 = (one + r[0]) * (one + r[1]) * r[2] * (one + r[3]) * (one + r[4]);
    (s256, s64)
}

// ---------------------------------------------------------------------------
// The checks.
// ---------------------------------------------------------------------------

/// What the chain checks give on the claimed openings.
pub open spec fn chain_outcome(
    values: Seq<F128>,
    publics: Seq<SpongePublic>,
    record_vars: nat,
    delta: F128,
    r: Seq<F128>,
) -> Result<(), Seq<char>> {
    let scale = derived_scale(delta, record_vars as int);
    let records = pow2(record_vars) as int;
    let factors = salt_factors(r);
    if values.len() != 22 {
        Err("wrong opening value count"@)
    } else if !power_sum_defined(delta, record_vars as int) {
        Err("degenerate delta"@)
    } else if exists|e: int| 2 <= e < 10 && #[trigger] values[e] != values[9 + e] {
        Err("a sponge chain edge does not hold"@)
    } else if fmul(scale, values[1]) != fadd(
        fmul(scale, values[10]),
        public_term(publics, records, delta, r, 1, 0),
    ) {
        Err("the absorption edge does not hold"@)
    } else if fmul(
        scale,
        fadd(
            fadd(values[0], fmul(factors.0, values[20])),
            fmul(factors.1, values[21]),
        ),
    ) != public_term(publics, records, delta, r, 0, 320) {
        Err("a record-start state does not pin to its public frame"@)
    } else {
        Ok(())
    }
}

/// Check the chain on the claimed openings: the interior edges, the absorption
/// edge and the record starts.
pub fn check_chain(
    values: &[F128],
    publics: &[SpongePublic],
    record_vars: usize,
    delta: F128,
    r: &[F128],
) -> (result: Result<(), &'static str>)
    requires
        publics_fit(publics@),
        pow2(record_vars as nat) <= usize::MAX,
        r@.len() == 11,
    ensures
        match chain_outcome(values@, publics@, record_vars as nat, delta, r@) {
            Ok(()) => result is Ok,
            Err(message) => result matches Err(e) && e@ == message,
        },
{
    if values.len() != 22 {
        return Err("wrong opening value count");
    }
    let scale = match record_scale(record_vars, delta) {
        Some(scale) => scale,
        None => {
            return Err("degenerate delta");
        },
    };
    let (xor_term, frame_term) = public_terms(publics, record_vars, delta, r);
    let mut e: usize = 2;
    while e < LIVE_PERMS
        invariant
            values@.len() == 22,
            power_sum_defined(delta, record_vars as int),
            2 <= e <= LIVE_PERMS,
            forall|k: int| 2 <= k < e ==> #[trigger] values@[k] == values@[9 + k],
        decreases LIVE_PERMS - e,
    {
        if values[e] != values[10 + e - 1] {
            assert(values@[e as int] != values@[9 + e]);
            return Err("a sponge chain edge does not hold");
        }
        e = e + 1;
    }
    if scale * values[1] != scale * values[10] + xor_term {
        return Err("the absorption edge does not hold");
    }
    let (s256, s64) = salt_scales(r);
    if scale * (values[0] + s256 * values[20] + s64 * values[21]) != frame_term {
        return Err("a record-start state does not pin to its public frame");
    }
    Ok(())
}

// ---------------------------------------------------------------------------
// Completeness.
// ---------------------------------------------------------------------------

/// The address of a slot bit.
pub open spec fn slot_address(rec: int, e: int, out: bool, p: int) -> int {
    524288 * rec + 2048 * (64 * (e % 4) + state_slot(e, out)) + p
}

/// A state's slot on the cube, in physical order.
pub open spec fn slot_bits(s: Seq<bool>) -> Seq<bool> {
    Seq::new(2048, |p: int| p < 1600 && s[logical(p)])
}

/// The bits of a slot in a witness.
pub open spec fn slot_window(z: Seq<bool>, rec: int, e: int, out: bool) -> Seq<bool> {
    Seq::new(2048, |p: int| z[slot_address(rec, e, out, p)])
}

/// The witness holds every record's trace.
pub open spec fn holds_traces(z: Seq<bool>, records: Seq<SpongeRecord>) -> bool {
    forall|rec: int, e: int, out: bool, p: int|
        #![trigger z[slot_address(rec, e, out, p)]]
        0 <= rec < records.len() && 0 <= e < 10 && 0 <= p < 2048 ==> z[slot_address(
            rec,
            e,
            out,
            p,
        )] == slot_bits(
            if out {
                permutation(trace_state(records[rec].frame(), e))
            } else {
                trace_state(records[rec].frame(), e)
            },
        )[p]
}

/// The top bit of a number, and the bits below it.
proof fn lemma_top_bit(v: int, n: nat)
    requires
        0 < n,
        0 <= v < pow2(n),
    ensures
        pow2(n) == 2 * pow2((n - 1) as nat),
        nat_bit(v, n - 1) == (v >= pow2((n - 1) as nat)),
        forall|i: int|
            0 <= i < n - 1 ==> #[trigger] nat_bit(v, i) == nat_bit(
                if v >= pow2((n - 1) as nat) {
                    v - pow2((n - 1) as nat)
                } else {
                    v
                },
                i,
            ),
{
    let half = pow2((n - 1) as nat) as int;
    lemma_pow2_unfold(n);
    lemma_pow2_pos((n - 1) as nat);
    if v < half {
        vstd::arithmetic::div_mod::lemma_fundamental_div_mod_converse(v, half, 0, v);
    } else {
        vstd::arithmetic::div_mod::lemma_fundamental_div_mod_converse(v, half, 1, v - half);
        assert forall|i: int| 0 <= i < n - 1 implies #[trigger] nat_bit(v, i) == nat_bit(
            v - half,
            i,
        ) by {
            crate::lookup::lemma_bit_of_sum(v - half, (n - 1) as nat, i);
        }
    }
}

/// The parts of a table and of its half.
proof fn lemma_part_bounds(v: int, w: int, half: int, size: int, b: bool)
    requires
        0 <= w < half,
        0 <= size,
        v == w + (if b {
            half
        } else {
            0
        }),
    ensures
        (2 * half) * size == 2 * (half * size),
        v * size == w * size + (if b {
            half * size
        } else {
            0
        }),
        0 <= w * size,
        w * size + size <= half * size,
{
    assert((2 * half) * size == 2 * (half * size)) by (nonlinear_arith);
    assert((w + half) * size == w * size + half * size) by (nonlinear_arith);
    assert(0 <= w * size && w * size + size <= half * size) by (nonlinear_arith)
        requires
            0 <= w < half,
            0 <= size,
    ;
}

/// No prefix selects the whole.
proof fn lemma_fold_no_bits(table: Seq<F128>, v: int, size: nat)
    requires
        table.len() == pow2(0) * size,
        0 <= v < pow2(0),
    ensures
        fold_all(table, bit_point(v, 0)) == table.subrange(v * size, v * size + size),
{
    assert(pow2(0) == 1) by {
        vstd::arithmetic::power2::lemma2_to64();
    }
    assert(1 * size == size) by (nonlinear_arith);
    assert(0 * size == 0) by (nonlinear_arith);
    assert(table.subrange(0, size as int) =~= table);
}

/// A Boolean prefix selects a part.
#[verifier::spinoff_prover]
#[verifier::rlimit(30)]
pub proof fn lemma_fold_bits(table: Seq<F128>, v: int, n: nat, size: nat)
    requires
        table.len() == pow2(n) * size,
        0 <= v < pow2(n),
    ensures
        fold_all(table, bit_point(v, n)) == table.subrange(v * size, v * size + size),
    decreases n,
{
    if n == 0 {
        lemma_fold_no_bits(table, v, size);
    } else {
        let half = pow2((n - 1) as nat) as int;
        lemma_top_bit(v, n);
        let b = nat_bit(v, n - 1);
        let w = if b {
            v - half
        } else {
            v
        };
        lemma_part_bounds(v, w, half, size as int, b);
        let m = half * size;
        let folded = fold_table(table, bit_value(b));
        let point = bit_point(v, n);
        let rest = bit_point(w, (n - 1) as nat);
        assert(point[0] == bit_value(b));
        assert(point.drop_first() =~= rest);
        lemma_fold_half(table, b, m);
        lemma_fold_bits(folded, w, (n - 1) as nat, size);
        assert(folded.subrange(w * size, w * size + size) =~= table.subrange(
            v * size,
            v * size + size,
        ));
    }
}

/// Binding the first variable to a bit selects a half.
proof fn lemma_fold_half(table: Seq<F128>, b: bool, m: int)
    requires
        table.len() == 2 * m,
    ensures
        fold_table(table, bit_value(b)) == table.subrange(
            if b {
                m
            } else {
                0
            },
            if b {
                2 * m
            } else {
                m
            },
        ),
{
    let folded = fold_table(table, bit_value(b));
    let half = table.subrange(
        if b {
            m
        } else {
            0
        },
        if b {
            2 * m
        } else {
            m
        },
    );
    assert forall|i: int| 0 <= i < m implies #[trigger] folded[i] == half[i] by {
        let (x, y) = (table[i], table[m + i]);
        lemma_fmul_zero(fadd(x, y));
        lemma_fadd_zero(x);
        lemma_fmul_one(fadd(x, y));
        lemma_fadd_assoc(x, x, y);
        lemma_fadd_self(x);
        lemma_fadd_zero(y);
    }
    assert(folded =~= half);
}

/// An opening's value: the records' combination of their slots' extensions.
pub proof fn lemma_opening(
    z: Seq<bool>,
    record_vars: nat,
    coords: Seq<F128>,
    v: int,
    n: nat,
    tail: Seq<F128>,
)
    requires
        coords.len() == record_vars,
        n + tail.len() == 19,
        z.len() == pow2(record_vars) * 524288,
        0 <= v < pow2(n),
    ensures
        mle(bit_table(z), coords + bit_point(v, n) + tail) == fsum(
            |rec: int|
                fmul(
                    eq_weight(coords, rec),
                    mle(
                        bit_table(
                            z.subrange(
                                rec * 524288 + v * pow2(tail.len()),
                                rec * 524288 + v * pow2(tail.len()) + pow2(tail.len()),
                            ),
                        ),
                        tail,
                    ),
                ),
            pow2(record_vars) as int,
        ),
{
    lemma2_to64();
    let table = bit_table(z);
    let size = pow2(tail.len());
    let records = pow2(record_vars) as int;
    lemma_pow2_adds(n, tail.len());
    lemma_pow2_pos(tail.len());
    let point = coords + bit_point(v, n) + tail;
    assert(point =~= coords + (bit_point(v, n) + tail));
    lemma_fold_all_concat(table, coords, bit_point(v, n) + tail);
    let u = fold_all(table, coords);
    lemma_fold_parts(table, coords, 524288, 0);
    lemma_fold_all_concat(u, bit_point(v, n), tail);
    lemma_fold_bits(u, v, n, size);
    let at = v * size;
    assert(0 <= at && at + size <= 524288) by (nonlinear_arith)
        requires
            at == v * size,
            0 <= v < pow2(n),
            pow2(n) * size == 524288,
            0 <= size,
    ;
    let slot = u.subrange(at, at + size);
    let coef = |rec: int| eq_weight(coords, rec);
    let parts = |rec: int|
        bit_table(z.subrange(rec * 524288 + at, rec * 524288 + at + size));
    lemma_mle_combination(coef, parts, records, tail);
    let combined = Seq::new(
        pow2(tail.len()),
        |j: int| fsum(|rec: int| fmul(coef(rec), parts(rec)[j]), records),
    );
    assert forall|j: int| 0 <= j < size implies #[trigger] slot[j] == combined[j] by {
        lemma_fold_parts(table, coords, 524288, at + j);
        let f = |rec: int| fmul(eq_weight(coords, rec), table[rec * 524288 + (at + j)]);
        let g = |rec: int| fmul(coef(rec), parts(rec)[j]);
        assert forall|rec: int| 0 <= rec < records implies #[trigger] f(rec) == g(rec) by {
            assert(parts(rec)[j] == table[rec * 524288 + at + j]);
        }
        lemma_fsum_congr(f, g, records);
        lemma_fsum_congr(f, |a: int| fmul(eq_weight(coords, a), table[a * 524288 + (at + j)]), records);
        lemma_fsum_congr(g, |rec: int| fmul(coef(rec), parts(rec)[j]), records);
    }
    assert(slot =~= combined);
    let f = |rec: int| fmul(coef(rec), mle(parts(rec), tail));
    let g = |rec: int|
        fmul(
            eq_weight(coords, rec),
            mle(
                bit_table(
                    z.subrange(
                        rec * 524288 + v * pow2(tail.len()),
                        rec * 524288 + v * pow2(tail.len()) + pow2(tail.len()),
                    ),
                ),
                tail,
            ),
        );
    lemma_fsum_congr(f, g, records);
}

/// Two bit prefixes in a row.
pub proof fn lemma_bit_points(a: int, k: nat, b: int, l: nat)
    requires
        0 <= a < pow2(k),
        0 <= b < pow2(l),
    ensures
        bit_point(a, k) + bit_point(b, l) == bit_point(a * pow2(l) + b, k + l),
        0 <= a * pow2(l) + b < pow2(k + l),
{
    let p = pow2(l) as int;
    let v = a * p + b;
    lemma_pow2_pos(l);
    lemma_pow2_adds(k, l);
    assert(0 <= v < pow2(k) * p) by (nonlinear_arith)
        requires
            v == a * p + b,
            0 <= a < pow2(k),
            0 <= b < p,
    ;
    let both = bit_point(a, k) + bit_point(b, l);
    let whole = bit_point(v, k + l);
    assert forall|i: int| 0 <= i < k + l implies both[i] == whole[i] by {
        let j = k + l - 1 - i;
        let q = pow2(j as nat) as int;
        lemma_pow2_pos(j as nat);
        if j >= l {
            let m = (j - l) as nat;
            let t = pow2(m) as int;
            lemma_pow2_adds(l, m);
            lemma_pow2_pos(m);
            vstd::arithmetic::div_mod::lemma_fundamental_div_mod_converse(v, p, a, b);
            vstd::arithmetic::div_mod::lemma_div_denominator(v, p, t);
        } else {
            lemma_add_multiple(a, b, l, j);
        }
    }
    assert(both =~= whole);
}

/// Multiples of `2^l` do not touch the bits below `l`.
pub proof fn lemma_add_multiple(a: int, b: int, l: nat, j: int)
    requires
        0 <= a,
        0 <= b,
        0 <= j < l,
    ensures
        nat_bit(a * pow2(l) + b, j) == nat_bit(b, j),
{
    let q = pow2(j as nat) as int;
    let m = pow2((l - j) as nat) as int;
    let h = pow2((l - j - 1) as nat) as int;
    lemma_pow2_pos(j as nat);
    lemma_pow2_adds(j as nat, (l - j) as nat);
    lemma_pow2_unfold((l - j) as nat);
    assert(a * pow2(l) == (a * m) * q) by (nonlinear_arith)
        requires
            pow2(l) == q * m,
    ;
    vstd::arithmetic::div_mod::lemma_hoist_over_denominator(b, a * m, q as nat);
    assert(q * (a * m) == (a * m) * q) by (nonlinear_arith);
    assert(a * m == 2 * (a * h)) by (nonlinear_arith)
        requires
            m == 2 * h,
    ;
    assert((a * pow2(l) + b) / q == b / q + a * m);
    assert((b / q + 2 * (a * h)) % 2 == (b / q) % 2) by {
        vstd::arithmetic::div_mod::lemma_mod_multiples_vanish(a * h, b / q, 2);
        assert(2 * (a * h) + b / q == b / q + 2 * (a * h));
    }
}

/// A table supported on one part of a split extends to that part's extension
/// under the part's weight.
pub proof fn lemma_piece(table: Seq<F128>, r: Seq<F128>, n: nat, v: int)
    requires
        n <= r.len(),
        table.len() == pow2(r.len()),
        0 <= v < pow2(n),
        forall|p: int|
            0 <= p < table.len() && !(v * pow2((r.len() - n) as nat) <= p < v * pow2(
                (r.len() - n) as nat,
            ) + pow2((r.len() - n) as nat)) ==> #[trigger] table[p] == fzero(),
    ensures
        mle(table, r) == fmul(
            eq_weight(r.take(n as int), v),
            mle(
                table.subrange(
                    v * pow2((r.len() - n) as nat),
                    v * pow2((r.len() - n) as nat) + pow2((r.len() - n) as nat),
                ),
                r.skip(n as int),
            ),
        ),
{
    let size = pow2((r.len() - n) as nat);
    let head = r.take(n as int);
    let tail = r.skip(n as int);
    lemma_pow2_adds(n, (r.len() - n) as nat);
    lemma_pow2_pos((r.len() - n) as nat);
    assert(head + tail =~= r);
    lemma_fold_all_concat(table, head, tail);
    let u = fold_all(table, head);
    lemma_fold_parts(table, head, size, 0);
    let w = eq_weight(head, v);
    let at = v * size;
    assert(0 <= at && at + size <= table.len()) by (nonlinear_arith)
        requires
            at == v * size,
            0 <= v < pow2(n),
            table.len() == pow2(n) * size,
            0 <= size,
    ;
    let part = table.subrange(at, at + size);
    let scaled = Seq::new(part.len(), |i: int| fmul(w, part[i]));
    assert forall|i: int| 0 <= i < size implies #[trigger] u[i] == scaled[i] by {
        lemma_fold_parts(table, head, size, i);
        let f = |a: int| fmul(eq_weight(head, a), table[a * size + i]);
        assert forall|a: int| 0 <= a < pow2(n) && a != v implies #[trigger] f(a) == fzero() by {
            let p = a * size + i;
            assert(0 <= p < pow2(n) * size && !(at <= p < at + size)) by (nonlinear_arith)
                requires
                    p == a * size + i,
                    at == v * size,
                    0 <= i < size,
                    0 <= a < pow2(n),
                    a != v,
            ;
            assert(table[p] == fzero());
            lemma_fmul_zero(eq_weight(head, a));
            lemma_fmul_comm(eq_weight(head, a), fzero());
        }
        crate::sums::lemma_fsum_single(f, pow2(n) as int, v);
    }
    assert(u =~= scaled);
    crate::mle::lemma_mle_scale(w, part, tail);
}

/// The weights of the two salt pieces.
proof fn lemma_salt_weights(r: Seq<F128>)
    requires
        r.len() == 11,
    ensures
        eq_weight(r.take(3), 0) == salt_factors(r).0,
        eq_weight(r.take(5), 4) == salt_factors(r).1,
{
    reveal_with_fuel(eq_weight, 6);
    let n0 = fadd(fone(), r[0]);
    lemma_fmul_one(n0);
    let t3 = r.take(3);
    assert(t3.drop_last().drop_last().drop_last() =~= Seq::<F128>::empty());
    assert(t3.drop_last().drop_last() =~= r.take(1));
    assert(t3.drop_last() =~= r.take(2));
    let t5 = r.take(5);
    assert(t5.drop_last() =~= r.take(4));
    assert(r.take(4).drop_last() =~= r.take(3));
    assert(r.take(3).drop_last() =~= r.take(2));
    assert(r.take(2).drop_last() =~= r.take(1));
    assert(r.take(1).drop_last() =~= Seq::<F128>::empty());
    assert(eq_weight(r.take(1), 0) == n0);
    assert(eq_weight(r.take(2), 0) == fmul(n0, fadd(fone(), r[1])));
    assert(eq_weight(r.take(3), 1) == fmul(eq_weight(r.take(2), 0), r[2]));
    assert(eq_weight(r.take(4), 2) == fmul(eq_weight(r.take(3), 1), fadd(fone(), r[3])));
    assert(eq_weight(r.take(5), 4) == fmul(eq_weight(r.take(4), 2), fadd(fone(), r[4])));
}

/// The record's and its public part's padded frames agree past the salt.
proof fn lemma_public_blocks(record: SpongeRecord, public: SpongePublic, i: int)
    requires
        record.fits(),
        record.hpk@ == public.hpk@,
        record.message@ == public.message@,
        40 <= i < 272,
    ensures
        padded_frame(record.frame())[i] == padded_frame(public_frame(public))[i],
        padded_frame(record.frame()).len() == 272,
        padded_frame(public_frame(public)).len() == 272,
{
    let f = record.frame();
    let g = public_frame(public);
    assert(f.len() == g.len());
    assert(f.len() as int / 136 == 1);
    if i < f.len() {
        assert(f[i] == g[i]);
    }
}

/// A slot without the salt bits.
pub open spec fn past_salt(all: Seq<bool>) -> Seq<bool> {
    Seq::new(2048, |p: int| 320 <= p && all[p])
}

/// One record's start: the slot plus its scaled salt pieces is the slot past
/// the salt.
pub proof fn lemma_record_start(all: Seq<bool>, r: Seq<F128>)
    requires
        all.len() == 2048,
        r.len() == 11,
    ensures
        ({
            let factors = salt_factors(r);
            fadd(
                fadd(
                    mle(bit_table(all), r),
                    fmul(factors.0, mle(bit_table(all.subrange(0, 256)), r.skip(3))),
                ),
                fmul(factors.1, mle(bit_table(all.subrange(256, 320)), r.skip(5))),
            ) == mle(bit_table(past_salt(all)), r)
        }),
{
    lemma2_to64();
    lemma_salt_weights(r);
    let rest = past_salt(all);
    let first = Seq::new(2048, |p: int| p < 256 && all[p]);
    let second = Seq::new(2048, |p: int| 256 <= p < 320 && all[p]);
    let (ta, tr, t1, t2) = (bit_table(all), bit_table(rest), bit_table(first), bit_table(second));
    let t12 = Seq::new(t1.len(), |p: int| fadd(t1[p], t2[p]));
    let sum = Seq::new(t12.len(), |p: int| fadd(t12[p], tr[p]));
    lemma_fadd_zero(fone());
    lemma_fadd_zero(fzero());
    lemma_fadd_comm(fone(), fzero());
    assert(ta =~= sum);
    lemma_mle_add(t1, t2, r);
    lemma_mle_add(t12, tr, r);
    assert forall|p: int| 0 <= p < t1.len() && !(0 * 256 <= p < 0 * 256 + 256) implies
        #[trigger] t1[p] == fzero() by {}
    assert forall|p: int| 0 <= p < t2.len() && !(4 * 64 <= p < 4 * 64 + 64) implies
        #[trigger] t2[p] == fzero() by {}
    lemma_piece(t1, r, 3, 0);
    lemma_piece(t2, r, 5, 4);
    assert(t1.subrange(0, 256) =~= bit_table(all.subrange(0, 256)));
    assert(t2.subrange(256, 320) =~= bit_table(all.subrange(256, 320)));
    let (m1, m2, mr) = (mle(t1, r), mle(t2, r), mle(tr, r));
    // ((m1 + m2) + mr) + m1 + m2 = mr
    lemma_fadd_comm(fadd(m1, m2), mr);
    lemma_fadd_assoc(fadd(mr, fadd(m1, m2)), m1, m2);
    lemma_fadd_assoc(mr, fadd(m1, m2), fadd(m1, m2));
    lemma_fadd_self(fadd(m1, m2));
    lemma_fadd_zero(mr);
    lemma_fadd_comm(mr, fzero());
}

/// The honest witness and everything the openings are taken at.
pub struct Honest {
    pub z: Seq<bool>,
    pub records: Seq<SpongeRecord>,
    pub publics: Seq<SpongePublic>,
    pub record_vars: nat,
    pub delta: F128,
    pub r: Seq<F128>,
}

impl Honest {
    pub open spec fn well_formed(self) -> bool {
        &&& self.r.len() == 11
        &&& power_sum_defined(self.delta, self.record_vars as int)
        &&& self.records.len() == pow2(self.record_vars)
        &&& self.publics.len() == self.records.len()
        &&& self.z.len() == pow2(self.record_vars) * 524288
        &&& holds_traces(self.z, self.records)
        &&& forall|k: int|
            0 <= k < self.records.len() ==> (#[trigger] self.records[k]).fits()
                && self.records[k].hpk@ == self.publics[k].hpk@ && self.records[k].message@
                == self.publics[k].message@
    }

    /// The opening of claim `k`.
    pub open spec fn opening(self, k: int) -> F128 {
        mle(
            bit_table(self.z),
            sponge_point_at(self.record_vars, self.delta, self.r, k),
        )
    }

    spec fn state(self, rec: int, e: int, out: bool) -> Seq<bool> {
        if out {
            permutation(trace_state(self.records[rec].frame(), e))
        } else {
            trace_state(self.records[rec].frame(), e)
        }
    }
}

/// Scaling a combination under the derived point turns weights into powers.
pub proof fn lemma_power_form(
    record_vars: nat,
    delta: F128,
    part: spec_fn(int) -> F128,
    value: F128,
)
    requires
        power_sum_defined(delta, record_vars as int),
        value == fsum(
            |rec: int| fmul(eq_weight(derived_point(delta, record_vars), rec), part(rec)),
            pow2(record_vars) as int,
        ),
    ensures
        fmul(derived_scale(delta, record_vars as int), value) == fsum(
            |rec: int| fmul(fpow(delta, rec), part(rec)),
            pow2(record_vars) as int,
        ),
{
    let scale = derived_scale(delta, record_vars as int);
    let coords = derived_point(delta, record_vars);
    let records = pow2(record_vars) as int;
    let f = |rec: int| fmul(eq_weight(coords, rec), part(rec));
    lemma_fsum_congr(
        f,
        |rec: int| fmul(eq_weight(derived_point(delta, record_vars), rec), part(rec)),
        records,
    );
    lemma_fsum_scale(scale, f, records);
    let g = |rec: int| fmul(fpow(delta, rec), part(rec));
    let sf = |rec: int| fmul(scale, f(rec));
    assert forall|rec: int| 0 <= rec < records implies #[trigger] sf(rec) == g(rec) by {
        lemma_scaled_weight(delta, record_vars, rec);
        lemma_fmul_assoc(scale, eq_weight(coords, rec), part(rec));
    }
    lemma_fsum_congr(sf, g, records);
    lemma_fsum_congr(sf, |rec: int| fmul(scale, f(rec)), records);
}

/// An opening over a whole slot.
pub proof fn lemma_slot_opening(
    z: Seq<bool>,
    record_vars: nat,
    delta: F128,
    r: Seq<F128>,
    k: int,
    e: int,
    out: bool,
)
    requires
        r.len() == 11,
        z.len() == pow2(record_vars) * 524288,
        0 <= e < 10,
        k == (if out {
            e + 10
        } else {
            e
        }),
    ensures
        mle(bit_table(z), sponge_point_at(record_vars, delta, r, k)) == fsum(
            |rec: int|
                fmul(
                    eq_weight(derived_point(delta, record_vars), rec),
                    mle(bit_table(slot_window(z, rec, e, out)), r),
                ),
            pow2(record_vars) as int,
        ),
{
    lemma2_to64();
    let coords = derived_point(delta, record_vars);
    let slot = state_slot(e, out);
    let v = 64 * (e % 4) + slot;
    lemma_bit_points(e % 4, 2, slot, 6);
    assert((e % 4) * 64 + slot == v);
    let point = sponge_point_at(record_vars, delta, r, k);
    assert(point =~= coords + bit_point(v, 8) + r);
    lemma_opening(z, record_vars, coords, v, 8, r);
    let records = pow2(record_vars) as int;
    let f = |rec: int|
        fmul(
            eq_weight(coords, rec),
            mle(
                bit_table(
                    z.subrange(
                        rec * 524288 + v * pow2(r.len()),
                        rec * 524288 + v * pow2(r.len()) + pow2(r.len()),
                    ),
                ),
                r,
            ),
        );
    let g = |rec: int|
        fmul(eq_weight(coords, rec), mle(bit_table(slot_window(z, rec, e, out)), r));
    assert forall|rec: int| 0 <= rec < records implies #[trigger] f(rec) == g(rec) by {
        lemma_slot_window(z, record_vars, rec, e, out, 0, 2048);
        assert(slot_window(z, rec, e, out).subrange(0, 2048) =~= slot_window(z, rec, e, out));
    }
    lemma_fsum_congr(f, g, records);
}

/// A part of a slot in the witness.
proof fn lemma_slot_window(
    z: Seq<bool>,
    record_vars: nat,
    rec: int,
    e: int,
    out: bool,
    from: int,
    to: int,
)
    requires
        z.len() == pow2(record_vars) * 524288,
        0 <= rec < pow2(record_vars),
        0 <= e < 10,
        0 <= from <= to <= 2048,
    ensures
        z.subrange(
            rec * 524288 + (64 * (e % 4) + state_slot(e, out)) * 2048 + from,
            rec * 524288 + (64 * (e % 4) + state_slot(e, out)) * 2048 + to,
        ) == slot_window(z, rec, e, out).subrange(from, to),
{
    let at = rec * 524288 + (64 * (e % 4) + state_slot(e, out)) * 2048;
    assert(0 <= at && at + 2048 <= z.len());
    assert(z.subrange(at + from, at + to) =~= slot_window(z, rec, e, out).subrange(from, to));
}

/// An opening over a salt piece of the record starts.
pub proof fn lemma_salt_opening(
    z: Seq<bool>,
    record_vars: nat,
    delta: F128,
    r: Seq<F128>,
    k: int,
    v: int,
    n: nat,
)
    requires
        r.len() == 11,
        z.len() == pow2(record_vars) * 524288,
        (k == 20 && v == 0 && n == 3) || (k == 21 && v == 4 && n == 5),
    ensures
        mle(bit_table(z), sponge_point_at(record_vars, delta, r, k)) == fsum(
            |rec: int|
                fmul(
                    eq_weight(derived_point(delta, record_vars), rec),
                    mle(
                        bit_table(
                            slot_window(z, rec, 0, false).subrange(
                                v * pow2((11 - n) as nat),
                                v * pow2((11 - n) as nat) + pow2((11 - n) as nat),
                            ),
                        ),
                        r.skip(n as int),
                    ),
                ),
            pow2(record_vars) as int,
        ),
{
    lemma2_to64();
    let coords = derived_point(delta, record_vars);
    let tail = r.skip(n as int);
    let size = pow2((11 - n) as nat) as int;
    lemma_bit_points(0, 2, 0, 6);
    lemma_bit_points(0, 8, v, n);
    assert(0 * pow2(6) + 0 == 0 && 0 * pow2(n) + v == v);
    let point = sponge_point_at(record_vars, delta, r, k);
    assert(bit_point(0, 2) + bit_point(0, 6) =~= bit_point(0, 8));
    assert(point =~= coords + (bit_point(0, 2) + bit_point(0, 6)) + bit_point(v, n) + tail);
    assert(point =~= coords + bit_point(v, 8 + n) + tail) by {
        assert(bit_point(0, 8) + bit_point(v, n) == bit_point(v, 8 + n));
        assert(coords + bit_point(0, 8) + bit_point(v, n) =~= coords + (bit_point(0, 8)
            + bit_point(v, n)));
    }
    lemma_opening(z, record_vars, coords, v, 8 + n, tail);
    let records = pow2(record_vars) as int;
    let f = |rec: int|
        fmul(
            eq_weight(coords, rec),
            mle(
                bit_table(
                    z.subrange(
                        rec * 524288 + v * pow2(tail.len()),
                        rec * 524288 + v * pow2(tail.len()) + pow2(tail.len()),
                    ),
                ),
                tail,
            ),
        );
    let g = |rec: int|
        fmul(
            eq_weight(coords, rec),
            mle(
                bit_table(slot_window(z, rec, 0, false).subrange(v * size, v * size + size)),
                tail,
            ),
        );
    assert forall|rec: int| 0 <= rec < records implies #[trigger] f(rec) == g(rec) by {
        lemma_slot_window(z, record_vars, rec, 0, false, v * size, v * size + size);
    }
    lemma_fsum_congr(f, g, records);
    lemma_fsum_congr(
        g,
        |rec: int|
            fmul(
                eq_weight(derived_point(delta, record_vars), rec),
                mle(
                    bit_table(
                        slot_window(z, rec, 0, false).subrange(
                            v * pow2((11 - n) as nat),
                            v * pow2((11 - n) as nat) + pow2((11 - n) as nat),
                        ),
                    ),
                    r.skip(n as int),
                ),
            ),
        records,
    );
}

/// The honest witness holds the trace's states.
proof fn lemma_honest_slot(h: Honest, rec: int, e: int, out: bool)
    requires
        h.well_formed(),
        0 <= rec < h.records.len(),
        0 <= e < 10,
    ensures
        slot_window(h.z, rec, e, out) == slot_bits(h.state(rec, e, out)),
{
    assert(slot_window(h.z, rec, e, out) =~= slot_bits(h.state(rec, e, out)));
}

/// Absorbing a block adds its bits to the slot.
proof fn lemma_absorb_slot(s: Seq<bool>, block: Seq<u8>, r: Seq<F128>)
    requires
        s.len() == 1600,
        r.len() == 11,
    ensures
        mle(bit_table(slot_bits(absorb(s, block))), r) == fadd(
            mle(bit_table(slot_bits(s)), r),
            mle(bit_table(block_bits(block, 0)), r),
        ),
{
    lemma2_to64();
    let a = bit_table(slot_bits(s));
    let b = bit_table(block_bits(block, 0));
    let c = bit_table(slot_bits(absorb(s, block)));
    let sum = Seq::new(a.len(), |p: int| fadd(a[p], b[p]));
    lemma_fadd_zero(fone());
    lemma_fadd_zero(fzero());
    lemma_fadd_comm(fone(), fzero());
    lemma_fadd_self(fone());
    assert forall|p: int| 0 <= p < 2048 implies c[p] == sum[p] by {
        if p < 1600 {
            crate::hash_to_point_sponge::lemma_positions(p);
        }
    }
    assert(c =~= sum);
    lemma_mle_add(a, b, r);
}

/// Completeness: the openings of a witness that holds the records' traces pass
/// the chain checks against the records' public parts.
pub proof fn honest_openings_pass(h: Honest, values: Seq<F128>)
    requires
        h.well_formed(),
        values.len() == 22,
        forall|k: int| 0 <= k < 22 ==> #[trigger] values[k] == h.opening(k),
    ensures
        chain_outcome(values, h.publics, h.record_vars, h.delta, h.r) == Ok::<(), Seq<char>>(()),
{
    lemma2_to64();
    let records = pow2(h.record_vars) as int;
    let scale = derived_scale(h.delta, h.record_vars as int);
    let coords = derived_point(h.delta, h.record_vars);
    // Interior edges.
    assert forall|e: int| 2 <= e < 10 implies #[trigger] values[e] == values[9 + e] by {
        lemma_slot_opening(h.z, h.record_vars, h.delta, h.r, e, e, false);
        lemma_slot_opening(h.z, h.record_vars, h.delta, h.r, 9 + e, e - 1, true);
        let f = |rec: int|
            fmul(
                eq_weight(coords, rec),
                mle(bit_table(slot_window(h.z, rec, e, false)), h.r),
            );
        let g = |rec: int|
            fmul(
                eq_weight(coords, rec),
                mle(bit_table(slot_window(h.z, rec, e - 1, true)), h.r),
            );
        assert forall|rec: int| 0 <= rec < records implies #[trigger] f(rec) == g(rec) by {
            lemma_honest_slot(h, rec, e, false);
            lemma_honest_slot(h, rec, e - 1, true);
            assert(h.state(rec, e, false) == h.state(rec, e - 1, true));
        }
        lemma_fsum_congr(f, g, records);
        assert(values[9 + e] == h.opening(9 + e));
    }
    // The absorption edge.
    let in1 = |rec: int| mle(bit_table(slot_window(h.z, rec, 1, false)), h.r);
    let out0 = |rec: int| mle(bit_table(slot_window(h.z, rec, 0, true)), h.r);
    lemma_slot_opening(h.z, h.record_vars, h.delta, h.r, 1, 1, false);
    lemma_slot_opening(h.z, h.record_vars, h.delta, h.r, 10, 0, true);
    lemma_fsum_congr(
        |rec: int|
            fmul(
                eq_weight(coords, rec),
                mle(bit_table(slot_window(h.z, rec, 1, false)), h.r),
            ),
        |rec: int| fmul(eq_weight(derived_point(h.delta, h.record_vars), rec), in1(rec)),
        records,
    );
    lemma_fsum_congr(
        |rec: int|
            fmul(
                eq_weight(coords, rec),
                mle(bit_table(slot_window(h.z, rec, 0, true)), h.r),
            ),
        |rec: int| fmul(eq_weight(derived_point(h.delta, h.record_vars), rec), out0(rec)),
        records,
    );
    lemma_power_form(h.record_vars, h.delta, in1, values[1]);
    lemma_power_form(h.record_vars, h.delta, out0, values[10]);
    let xor_part = |rec: int|
        if rec < h.publics.len() {
            fmul(
                fpow(h.delta, rec),
                mle(bit_table(block_bits(frame_block(public_frame(h.publics[rec]), 1), 0)), h.r),
            )
        } else {
            fzero()
        };
    let pi = |rec: int| fmul(fpow(h.delta, rec), in1(rec));
    let po = |rec: int| fmul(fpow(h.delta, rec), out0(rec));
    let sum = |rec: int| fadd(po(rec), xor_part(rec));
    assert forall|rec: int| 0 <= rec < records implies #[trigger] pi(rec) == sum(rec) by {
        let record = h.records[rec];
        assert(record.fits());
        let frame = record.frame();
        reveal_with_fuel(trace_state, 2);
        lemma_honest_slot(h, rec, 1, false);
        lemma_honest_slot(h, rec, 0, true);
        lemma_absorb_slot(h.state(rec, 0, true), frame_block(frame, 1), h.r);
        assert(frame_block(frame, 1) =~= frame_block(public_frame(h.publics[rec]), 1)) by {
            lemma_public_blocks(record, h.publics[rec], 40);
            assert forall|i: int| 0 <= i < 136 implies frame_block(frame, 1)[i] == frame_block(
                public_frame(h.publics[rec]),
                1,
            )[i] by {
                lemma_public_blocks(record, h.publics[rec], 136 + i);
            }
        }
        lemma_fmul_distr(
            fpow(h.delta, rec),
            out0(rec),
            mle(bit_table(block_bits(frame_block(frame, 1), 0)), h.r),
        );
    }
    lemma_fsum_congr(pi, sum, records);
    lemma_fsum_add(po, xor_part, records);
    lemma_fsum_congr(sum, |rec: int| fadd(po(rec), xor_part(rec)), records);
    lemma_fsum_congr(pi, |rec: int| fmul(fpow(h.delta, rec), in1(rec)), records);
    lemma_fsum_congr(po, |rec: int| fmul(fpow(h.delta, rec), out0(rec)), records);
    // The record starts.
    lemma_honest_starts(h, values);
}

proof fn lemma_honest_starts(h: Honest, values: Seq<F128>)
    requires
        h.well_formed(),
        values.len() == 22,
        forall|k: int| 0 <= k < 22 ==> #[trigger] values[k] == h.opening(k),
    ensures
        fmul(
            derived_scale(h.delta, h.record_vars as int),
            fadd(
                fadd(values[0], fmul(salt_factors(h.r).0, values[20])),
                fmul(salt_factors(h.r).1, values[21]),
            ),
        ) == public_term(h.publics, pow2(h.record_vars) as int, h.delta, h.r, 0, 320),
{
    lemma2_to64();
    let records = pow2(h.record_vars) as int;
    let coords = derived_point(h.delta, h.record_vars);
    let (c1, c2) = salt_factors(h.r);
    let slot = |rec: int| mle(bit_table(slot_window(h.z, rec, 0, false)), h.r);
    let first = |rec: int|
        mle(bit_table(slot_window(h.z, rec, 0, false).subrange(0, 256)), h.r.skip(3));
    let second = |rec: int|
        mle(bit_table(slot_window(h.z, rec, 0, false).subrange(256, 320)), h.r.skip(5));
    lemma_slot_opening(h.z, h.record_vars, h.delta, h.r, 0, 0, false);
    lemma_salt_opening(h.z, h.record_vars, h.delta, h.r, 20, 0, 3);
    lemma_salt_opening(h.z, h.record_vars, h.delta, h.r, 21, 4, 5);
    assert(pow2((11 - 3) as nat) == 256 && pow2((11 - 5) as nat) == 64);
    let w = |rec: int| eq_weight(coords, rec);
    let f0 = |rec: int| fmul(w(rec), slot(rec));
    let f1 = |rec: int| fmul(w(rec), first(rec));
    let f2 = |rec: int| fmul(w(rec), second(rec));
    lemma_fsum_congr(
        f0,
        |rec: int|
            fmul(
                eq_weight(derived_point(h.delta, h.record_vars), rec),
                mle(bit_table(slot_window(h.z, rec, 0, false)), h.r),
            ),
        records,
    );
    lemma_fsum_congr(
        f1,
        |rec: int|
            fmul(
                eq_weight(derived_point(h.delta, h.record_vars), rec),
                mle(
                    bit_table(
                        slot_window(h.z, rec, 0, false).subrange(
                            0int * pow2((11 - 3) as nat),
                            0int * pow2((11 - 3) as nat) + pow2((11 - 3) as nat),
                        ),
                    ),
                    h.r.skip(3),
                ),
            ),
        records,
    );
    lemma_fsum_congr(
        f2,
        |rec: int|
            fmul(
                eq_weight(derived_point(h.delta, h.record_vars), rec),
                mle(
                    bit_table(
                        slot_window(h.z, rec, 0, false).subrange(
                            4int * pow2((11 - 5) as nat),
                            4int * pow2((11 - 5) as nat) + pow2((11 - 5) as nat),
                        ),
                    ),
                    h.r.skip(5),
                ),
            ),
        records,
    );
    assert(values[0] == fsum(f0, records));
    assert(values[20] == fsum(f1, records));
    assert(values[21] == fsum(f2, records));
    lemma_fsum_scale(c1, f1, records);
    lemma_fsum_scale(c2, f2, records);
    let g1 = |rec: int| fmul(c1, f1(rec));
    let g2 = |rec: int| fmul(c2, f2(rec));
    let f01 = |rec: int| fadd(f0(rec), g1(rec));
    lemma_fsum_add(f0, g1, records);
    lemma_fsum_add(f01, g2, records);
    lemma_fsum_congr(f01, |rec: int| fadd(f0(rec), g1(rec)), records);
    lemma_fsum_congr(g1, |rec: int| fmul(c1, f1(rec)), records);
    lemma_fsum_congr(g2, |rec: int| fmul(c2, f2(rec)), records);
    let part = |rec: int|
        fadd(fadd(slot(rec), fmul(c1, first(rec))), fmul(c2, second(rec)));
    let all = |rec: int| fadd(f01(rec), g2(rec));
    let weighted = |rec: int|
        fmul(eq_weight(derived_point(h.delta, h.record_vars), rec), part(rec));
    assert forall|rec: int| 0 <= rec < records implies #[trigger] all(rec) == weighted(rec) by {
        let (wr, a, b, c) = (w(rec), slot(rec), first(rec), second(rec));
        lemma_fmul_distr(wr, fadd(a, fmul(c1, b)), fmul(c2, c));
        lemma_fmul_distr(wr, a, fmul(c1, b));
        lemma_fmul_assoc(wr, c1, b);
        lemma_fmul_comm(wr, c1);
        lemma_fmul_assoc(c1, wr, b);
        lemma_fmul_assoc(wr, c2, c);
        lemma_fmul_comm(wr, c2);
        lemma_fmul_assoc(c2, wr, c);
    }
    lemma_fsum_congr(all, weighted, records);
    lemma_fsum_congr(all, |rec: int| fadd(f01(rec), g2(rec)), records);
    let total = fadd(fadd(values[0], fmul(c1, values[20])), fmul(c2, values[21]));
    assert(total == fsum(weighted, records));
    lemma_fsum_congr(
        weighted,
        |rec: int| fmul(eq_weight(derived_point(h.delta, h.record_vars), rec), part(rec)),
        records,
    );
    lemma_power_form(h.record_vars, h.delta, part, total);
    let powers = |rec: int| fmul(fpow(h.delta, rec), part(rec));
    let public = |rec: int|
        if rec < h.publics.len() {
            fmul(
                fpow(h.delta, rec),
                mle(
                    bit_table(block_bits(frame_block(public_frame(h.publics[rec]), 0), 320)),
                    h.r,
                ),
            )
        } else {
            fzero()
        };
    assert forall|rec: int| 0 <= rec < records implies #[trigger] powers(rec) == public(rec) by {
        let record = h.records[rec];
        assert(record.fits());
        let block = frame_block(record.frame(), 0);
        reveal_with_fuel(trace_state, 1);
        let bits = block_bits(block, 0);
        lemma_honest_slot(h, rec, 0, false);
        assert(slot_window(h.z, rec, 0, false) =~= bits) by {
            assert forall|p: int| 0 <= p < 2048 implies slot_window(h.z, rec, 0, false)[p]
                == bits[p] by {
                if p < 1600 {
                    crate::hash_to_point_sponge::lemma_positions(p);
                }
            }
        }
        lemma_record_start(bits, h.r);
        assert(past_salt(bits) =~= block_bits(block, 320));
        let other = frame_block(public_frame(h.publics[rec]), 0);
        lemma_public_blocks(record, h.publics[rec], 40);
        assert forall|i: int| 40 <= i < 136 implies #[trigger] block[i] == other[i] by {
            lemma_public_blocks(record, h.publics[rec], i);
        }
        assert(block_bits(block, 320) =~= block_bits(other, 320));
    }
    lemma_fsum_congr(powers, public, records);
    lemma_fsum_congr(powers, |rec: int| fmul(fpow(h.delta, rec), part(rec)), records);
}

} // verus!
