//! Writing a packed block witness with a bit-sliced program.
use vstd::arithmetic::power2::{lemma2_to64, lemma_pow2_pos, lemma_pow2_unfold, pow2};
use vstd::prelude::*;

use crate::field::{coefficient, F128};
use crate::hash_to_point_slots::matrices::slot_matrices;
use crate::hash_to_point_slots::packed::{
    aligned_row, constant_parity, gather_four, lane_bit, lane_parity, shifted_row, specializable,
    tap_planes, uniform_plane, Program, PACKED_PLANE, WIRE_PLANES,
};
use crate::hash_to_point_slots::relation::{
    chains_hold, counter_before, counter_rows_hold, increment, input_wire, lemma_shift_bit64,
    nat_bit, row_left, row_right, slot_row_holds, value, wire_at, word_value,
};
use crate::hash_to_point_slots::witness::{
    accept_count, accepts, agree_slots, centered, dense_region, dense_wire, is_block_witness,
    lemma_cleared_pin, lemma_honest_chains, lemma_outputs_len, lemma_pin_slot_local,
    lemma_row_slot_local, outputs, target,
};
use crate::hash_to_point_slots::{
    ACC, CNT, COUNTER_BITS, D, FALCON_Q, GATE, H, K, PIN_RANGE, PIN_T4, PLANE, Q, SLOTS, U, X,
    Z_BASE, Z_CONST_POS, Z_PLANES,
};
use crate::packed_bits::{packed_bit, unpacked, zero_words};
use crate::r1cs::{columns_below, lin_eval, SparseBinaryMatrix};

verus! {

// ---------------------------------------------------------------------------
// Lanes.
// ---------------------------------------------------------------------------

/// The assignment of one lane at its slot: the constant wire, and lane `t` of
/// each plane.
pub open spec fn lane_assignment(values: Seq<u128>, slot: int, t: int) -> Seq<bool> {
    Seq::new(
        K as nat,
        |w: int|
            w == 0 || (w % PLANE as int == slot && w / PLANE as int > 0 && lane_bit(
                values[w / PLANE as int],
                t,
            )),
    )
}

proof fn lemma_lane_value(values: Seq<u128>, slot: int, t: int, p: int)
    requires
        0 < p < 128,
        0 <= slot < PLANE,
    ensures
        value(lane_assignment(values, slot, t), p, slot) == lane_bit(values[p], t),
{
    assert(wire_at(p, slot) / PLANE as int == p && wire_at(p, slot) % PLANE as int == slot);
}

/// A moved row evaluates on a lane as its form does.
proof fn lemma_shifted_eval(row: Seq<usize>, first: Seq<usize>, values: Seq<u128>, slot: int, t: int)
    requires
        aligned_row(first),
        shifted_row(row, first, slot),
        0 <= slot < SLOTS,
    ensures
        lin_eval(row, lane_assignment(values, slot, t)) == (constant_parity(first) != lane_parity(
            tap_planes(first),
            values,
            t,
        )),
    decreases row.len(),
{
    let y = lane_assignment(values, slot, t);
    if row.len() > 0 {
        assert(shifted_row(row.drop_last(), first.drop_last(), slot)) by {
            assert forall|i: int| 0 <= i < row.len() - 1 implies #[trigger] row.drop_last()[i] == (
            if first.drop_last()[i] == Z_CONST_POS {
                first.drop_last()[i] as int
            } else {
                first.drop_last()[i] + slot
            }) by {
                assert(row[i] == row.drop_last()[i]);
            }
        }
        lemma_shifted_eval(row.drop_last(), first.drop_last(), values, slot, t);
        let c = first.last();
        assert(first[first.len() - 1] == c);
        assert(row[row.len() - 1] == row.last());
        if c != Z_CONST_POS {
            let p = c as int / PLANE as int;
            assert(c == p * PLANE);
            assert(row.last() == wire_at(p, slot));
            lemma_lane_value(values, slot, t, p);
            assert(tap_planes(first).drop_last() =~= tap_planes(first.drop_last()));
        }
    }
}

/// A product's forms give the row's factors on every live lane.
proof fn lemma_product_lane(
    a: SparseBinaryMatrix,
    b: SparseBinaryMatrix,
    values: Seq<u128>,
    p: int,
    slot: int,
    t: int,
)
    requires
        slot_matrices(a, b),
        specializable(a, b),
        D <= p < H,
        0 <= slot < SLOTS,
    ensures
        (constant_parity(a.row(wire_at(p, 0))) != lane_parity(
            tap_planes(a.row(wire_at(p, 0))),
            values,
            t,
        )) == row_left(lane_assignment(values, slot, t), wire_at(p, slot)),
        (constant_parity(b.row(wire_at(p, 0))) != lane_parity(
            tap_planes(b.row(wire_at(p, 0))),
            values,
            t,
        )) == row_right(lane_assignment(values, slot, t), wire_at(p, slot)),
{
    let y = lane_assignment(values, slot, t);
    let w = wire_at(p, slot);
    assert(uniform_plane(a, p) && uniform_plane(b, p));
    let (fa, fb) = (a.row(wire_at(p, 0)), b.row(wire_at(p, 0)));
    if slot == 0 {
        assert(shifted_row(fa, fa, 0));
        assert(shifted_row(fb, fb, 0));
    } else {
        assert(shifted_row(a.row(w), fa, slot));
        assert(shifted_row(b.row(w), fb, slot));
    }
    lemma_shifted_eval(a.row(w), fa, values, slot, t);
    lemma_shifted_eval(b.row(w), fb, values, slot, t);
    assert(lin_eval(a.row(w), y) == row_left(y, w));
    assert(lin_eval(b.row(w), y) == row_right(y, w));
}

/// Plane `p` of the lane has been set from its row.
spec fn lane_evaluated(values: Seq<u128>, slot: int, t: int, p: int) -> bool {
    let w = wire_at(p, slot);
    let cleared = lane_assignment(values.update(p, 0), slot, t);
    lane_bit(values[p], t) == (row_left(cleared, w) && row_right(cleared, w))
}

/// Later planes do not matter to an evaluated plane.
proof fn lemma_lane_stable(values: Seq<u128>, q: int, v: u128, slot: int, t: int, p: int)
    requires
        values.len() == WIRE_PLANES,
        D <= p < q < H,
        0 <= slot < SLOTS,
        lane_evaluated(values, slot, t, p),
    ensures
        lane_evaluated(values.update(q, v), slot, t, p),
{
    let y = lane_assignment(values.update(p, 0), slot, t);
    let z = lane_assignment(values.update(q, v).update(p, 0), slot, t);
    lemma_lanes_agree(values.update(p, 0), values.update(q, v).update(p, 0), slot, t, q - 1);
    if p < PIN_RANGE {
        lemma_row_slot_local(y, slot, z, slot, p);
    } else {
        lemma_pin_slot_local(y, slot, z, slot, p);
    }
}

/// Lanes of values that agree up to a plane agree up to it.
proof fn lemma_lanes_agree(u: Seq<u128>, v: Seq<u128>, slot: int, t: int, top: int)
    requires
        u.len() == WIRE_PLANES,
        v.len() == WIRE_PLANES,
        0 <= slot < PLANE,
        top < 128,
        forall|p: int| 0 < p <= top ==> u[p] == v[p],
    ensures
        agree_slots(
            lane_assignment(u, slot, t),
            slot,
            lane_assignment(v, slot, t),
            slot,
            top,
        ),
{
    let y = lane_assignment(u, slot, t);
    let z = lane_assignment(v, slot, t);
    assert forall|p: int| 0 < p <= top implies #[trigger] value(y, p, slot) == value(z, p, slot) by {
        lemma_lane_value(u, slot, t, p);
        lemma_lane_value(v, slot, t, p);
    }
}

/// Run the products on all lanes.
fn run_products(
    program: &Program,
    a: Ghost<SparseBinaryMatrix>,
    b: Ghost<SparseBinaryMatrix>,
    values: &mut Vec<u128>,
    live: u128,
    block: usize,
    len: usize,
)
    requires
        slot_matrices(a@, b@),
        specializable(a@, b@),
        program.is_of(a@, b@),
        old(values)@.len() == WIRE_PLANES,
        len <= 128,
        128 * block + len <= SLOTS,
        forall|t: int| 0 <= t < 128 ==> #[trigger] lane_bit(live, t) == (t < len),
        forall|p: int| D <= p < H ==> #[trigger] old(values)@[p] == 0,
        forall|p: int, t: int|
            0 <= p < WIRE_PLANES && len <= t < 128 ==> !(#[trigger] lane_bit(old(values)@[p], t)),
    ensures
        final(values)@.len() == WIRE_PLANES,
        forall|p: int, t: int|
            0 <= p < WIRE_PLANES && len <= t < 128 ==> !(#[trigger] lane_bit(final(values)@[p], t)),
        forall|p: int|
            0 <= p < WIRE_PLANES && !(D <= p < H) ==> #[trigger] final(values)@[p] == old(values)@[p],
        forall|p: int, t: int|
            D <= p < H && 0 <= t < len ==> #[trigger] lane_evaluated(
                final(values)@,
                128 * block + t,
                t,
                p,
            ),
{
    let ghost start = values@;
    let mut i: usize = 0;
    while i < program.products.len()
        invariant
            slot_matrices(a@, b@),
            specializable(a@, b@),
            program.is_of(a@, b@),
            values@.len() == WIRE_PLANES,
            start.len() == WIRE_PLANES,
            i <= H - D,
            program.products@.len() == H - D,
            len <= 128,
            128 * block + len <= SLOTS,
            forall|t: int| 0 <= t < 128 ==> #[trigger] lane_bit(live, t) == (t < len),
            forall|p: int| D <= p < H ==> #[trigger] start[p] == 0,
            forall|p: int, t: int|
                0 <= p < WIRE_PLANES && len <= t < 128 ==> !(#[trigger] lane_bit(values@[p], t)),
            forall|p: int|
                0 <= p < WIRE_PLANES && !(D <= p < D + i) ==> #[trigger] values@[p] == start[p],
            forall|p: int, t: int|
                D <= p < D + i && 0 <= t < len ==> #[trigger] lane_evaluated(
                    values@,
                    128 * block + t,
                    t,
                    p,
                ),
        decreases H - D - i,
    {
        let product = &program.products[i];
        let plane: usize = product.plane;
        let ghost before = values@;
        let left: u128 = product.a.evaluate(values, live);
        let right: u128 = product.b.evaluate(values, live);
        values.set(plane, left & right);
        proof {
            let now = values@;
            assert forall|p: int, t: int| 0 <= p < WIRE_PLANES && len <= t < 128 implies !(
            #[trigger] lane_bit(
                now[p],
                t,
            )) by {
                if p == plane {
                    lemma_lane_and(left, right, t as u128);
                    lemma_idle_parity(product.a.planes@, before, t);
                    assert(!lane_bit(live, t));
                    assert(!lane_bit(left, t));
                } else {
                    assert(!lane_bit(before[p], t));
                }
            }
            assert(before[plane as int] == start[plane as int]);
            assert forall|p: int, t: int|
                D <= p < D + i + 1 && 0 <= t < len implies #[trigger] lane_evaluated(
                now,
                128 * block + t,
                t,
                p,
            ) by {
                if p < D + i {
                    assert(lane_evaluated(before, 128 * block + t, t, p));
                    lemma_lane_stable(before, plane as int, left & right, 128 * block + t, t, p);
                } else {
                    lemma_product_lane(a@, b@, before, p, 128 * block + t, t);
                    lemma_lane_and(left, right, t as u128);
                    assert(now.update(p, 0) =~= before);
                    assert(lane_bit(live, t));
                    let y = lane_assignment(before, 128 * block + t, t);
                    assert(product.a.is_of(a@.row(wire_at(p, 0))));
                    assert(product.b.is_of(b@.row(wire_at(p, 0))));
                    assert(lane_bit(left, t) == row_left(y, wire_at(p, 128 * block + t)));
                    assert(lane_bit(right, t) == row_right(y, wire_at(p, 128 * block + t)));
                    assert(lane_bit(now[p], t) == (lane_bit(left, t) && lane_bit(right, t)));
                }
            }
        }
        i = i + 1;
    }
}

/// A lane that is zero everywhere has parity zero.
proof fn lemma_idle_parity(planes: Seq<usize>, values: Seq<u128>, t: int)
    requires
        columns_below(planes, WIRE_PLANES as int),
        forall|p: int| 0 <= p < WIRE_PLANES ==> !lane_bit(#[trigger] values[p], t),
    ensures
        !lane_parity(planes, values, t),
    decreases planes.len(),
{
    if planes.len() > 0 {
        assert(planes[planes.len() - 1] == planes.last());
        lemma_idle_parity(planes.drop_last(), values, t);
    }
}

proof fn lemma_lane_and(a: u128, b: u128, t: u128)
    by (bit_vector)
    requires
        t < 128,
    ensures
        (((a & b) >> t) & 1 == 1) == (((a >> t) & 1 == 1) && ((b >> t) & 1 == 1)),
{
}

/// On an evaluated lane with the word and quotient on its inputs the flags are
/// the honest ones, the product rows hold and the forced-zero wires are zero.
proof fn lemma_lane_honest(values: Seq<u128>, slot: int, t: int, word: u16)
    requires
        values.len() == WIRE_PLANES,
        0 <= slot < SLOTS,
        0 <= t < 128,
        forall|p: int| D <= p < H ==> #[trigger] lane_evaluated(values, slot, t, p),
        forall|i: int| 0 <= i < 16 ==> #[trigger] lane_bit(values[X + i], t) == nat_bit(word as int, i),
        forall|i: int|
            0 <= i < 3 ==> #[trigger] lane_bit(values[Q + i], t) == nat_bit(
                word as int / FALCON_Q as int,
                i,
            ),
    ensures
        chains_hold(lane_assignment(values, slot, t), slot),
        lane_bit(values[ACC as int], t) == accepts(word),
        lane_bit(values[U as int], t) == centered(word),
        forall|p: int| PIN_RANGE <= p <= PIN_T4 ==> !lane_bit(#[trigger] values[p], t),
{
    let z = lane_assignment(values, slot, t);
    assert forall|p: int| D <= p < PIN_RANGE implies #[trigger] slot_row_holds(
        z,
        wire_at(p, slot),
    ) by {
        assert(lane_evaluated(values, slot, t, p));
        lemma_lane_value(values, slot, t, p);
        lemma_lanes_agree(values.update(p, 0), values, slot, t, p - 1);
        lemma_row_slot_local(lane_assignment(values.update(p, 0), slot, t), slot, z, slot, p);
    }
    assert forall|i: int| 0 <= i < 16 implies #[trigger] value(z, X + i, slot) == nat_bit(
        word as int,
        i,
    ) by {
        lemma_lane_value(values, slot, t, X + i);
        assert(lane_bit(values[X + i], t) == nat_bit(word as int, i));
    }
    assert forall|i: int| 0 <= i < 3 implies #[trigger] value(z, Q + i, slot) == nat_bit(
        word as int / FALCON_Q as int,
        i,
    ) by {
        lemma_lane_value(values, slot, t, Q + i);
        assert(lane_bit(values[Q + i], t) == nat_bit(word as int / FALCON_Q as int, i));
    }
    lemma_honest_chains(z, slot, word);
    lemma_lane_value(values, slot, t, ACC as int);
    lemma_lane_value(values, slot, t, U as int);
    assert forall|p: int| PIN_RANGE <= p <= PIN_T4 implies !lane_bit(#[trigger] values[p], t) by {
        assert(lane_evaluated(values, slot, t, p));
        lemma_cleared_pin(z, p, slot);
        let y = lane_assignment(values.update(p, 0), slot, t);
        let cleared = z.update(wire_at(p, slot), false);
        lemma_lanes_agree(values.update(p, 0), values, slot, t, PIN_RANGE - 1);
        assert forall|q: int| 0 < q <= PIN_RANGE - 1 implies #[trigger] value(y, q, slot) == value(
            cleared,
            q,
            slot,
        ) by {
            assert(value(y, q, slot) == value(z, q, slot));
        }
        lemma_lane_value(values.update(p, 0), slot, t, p);
        lemma_no_lane(t as u128);
        lemma_pin_slot_local(y, slot, cleared, slot, p);
    }
}

proof fn lemma_no_lane(t: u128)
    by (bit_vector)
    ensures
        t < 128 ==> (0u128 >> t) & 1 == 0,
{
}


// ---------------------------------------------------------------------------
// Columns of four words.
// ---------------------------------------------------------------------------

/// The word of sixteen-bit lanes.
spec fn four_words(w: Seq<u16>) -> u64 {
    (w[0] as u64) | ((w[1] as u64) << 16) | ((w[2] as u64) << 32) | ((w[3] as u64) << 48)
}

fn pack_four(w: &[u16; 4]) -> (xs: u64)
    ensures
        xs == four_words(w@),
{
    (w[0] as u64) | ((w[1] as u64) << 16) | ((w[2] as u64) << 32) | ((w[3] as u64) << 48)
}

proof fn lemma_four(w0: u64, w1: u64, w2: u64, w3: u64, bit: u64)
    by (bit_vector)
    requires
        w0 <= 0xffff,
        w1 <= 0xffff,
        w2 <= 0xffff,
        w3 <= 0xffff,
        bit < 16,
    ensures
        ({
            let x = (w0 | (w1 << 16) | (w2 << 32) | (w3 << 48)) >> bit;
            let g = (x & 1) | (((x >> 16) & 1) << 1) | (((x >> 32) & 1) << 2) | (((x >> 48) & 1)
                << 3);
            &&& g < 16
            &&& ((g >> 0) & 1 == 1) == ((w0 >> bit) & 1 == 1)
            &&& ((g >> 1) & 1 == 1) == ((w1 >> bit) & 1 == 1)
            &&& ((g >> 2) & 1 == 1) == ((w2 >> bit) & 1 == 1)
            &&& ((g >> 3) & 1 == 1) == ((w3 >> bit) & 1 == 1)
        }),
{
}

proof fn lemma_insert(v: u128, g: u64, s: u128, t: u128)
    by (bit_vector)
    requires
        g < 16,
        s <= 124,
        t < 128,
    ensures
        t < s || t >= s + 4 ==> (((v | ((g as u128) << s)) >> t) & 1 == 1) == ((v >> t) & 1 == 1),
        s <= t && t < s + 4 ==> (((v | ((g as u128) << s)) >> t) & 1 == 1) == ((v >> t) & 1 == 1 || (g
            >> ((t - s) as u64)) & 1 == 1),
{
}

/// Add column `bit` of four words at lanes `4 packet ..`.
fn insert_column(v: u128, packet: usize, w: &[u16; 4], xs: u64, bit: usize) -> (r: u128)
    requires
        packet < 32,
        bit < 16,
        xs == four_words(w@),
    ensures
        forall|t: int|
            0 <= t < 128 ==> #[trigger] lane_bit(r, t) == (lane_bit(v, t) || (4 * packet <= t < 4
                * packet + 4 && nat_bit(w@[t - 4 * packet] as int, bit as int))),
{
    let g: u64 = gather_four(xs >> (bit as u64));
    let s: u128 = 4 * (packet as u128);
    let r: u128 = v | ((g as u128) << s);
    proof {
        lemma_four(w@[0] as u64, w@[1] as u64, w@[2] as u64, w@[3] as u64, bit as u64);
        assert forall|t: int| 0 <= t < 128 implies #[trigger] lane_bit(r, t) == (lane_bit(v, t) || (4
            * packet <= t < 4 * packet + 4 && nat_bit(w@[t - 4 * packet] as int, bit as int))) by {
            lemma_insert(v, g, s, t as u128);
            if 4 * packet <= t < 4 * packet + 4 {
                lemma_shift_bit64(w@[t - 4 * packet] as u64, bit as u64);
            }
        }
    }
    r
}

/// The word and quotient planes hold the first `n` lanes.
spec fn loaded(values: Seq<u128>, words: Seq<u16>, block: int, n: int) -> bool {
    &&& values.len() == WIRE_PLANES
    &&& forall|i: int, t: int|
        0 <= i < 16 && 0 <= t < 128 ==> #[trigger] lane_bit(values[X + i], t) == (t < n && nat_bit(
            words[128 * block + t] as int,
            i,
        ))
    &&& forall|i: int, t: int|
        0 <= i < 3 && 0 <= t < 128 ==> #[trigger] lane_bit(values[Q + i], t) == (t < n && nat_bit(
            words[128 * block + t] as int / FALCON_Q as int,
            i,
        ))
    &&& forall|p: int| D <= p < WIRE_PLANES ==> #[trigger] values[p] == 0
    &&& values[0] == 0
}

/// Transpose a block's words and quotients into the input planes.
fn load_block(words: &[u16; SLOTS], block: usize, len: usize) -> (values: Vec<u128>)
    requires
        block < 5,
        len <= 128,
        len % 4 == 0,
        128 * block + len <= SLOTS,
    ensures
        loaded(values@, words@, block as int, len as int),
{
    let mut values: Vec<u128> = Vec::new();
    let mut p: usize = 0;
    while p < WIRE_PLANES
        invariant
            p <= WIRE_PLANES,
            values@.len() == p,
            forall|q: int| 0 <= q < p ==> #[trigger] values@[q] == 0,
        decreases WIRE_PLANES - p,
    {
        values.push(0);
        p = p + 1;
    }
    proof {
        assert forall|t: int| 0 <= t < 128 implies #[trigger] lane_bit(0u128, t) == false by {
            lemma_no_lane(t as u128);
        }
    }
    let mut packet: usize = 0;
    while 4 * packet < len
        invariant
            words@.len() == SLOTS,
            block < 5,
            len <= 128,
            len % 4 == 0,
            4 * packet <= len,
            128 * block + len <= SLOTS,
            loaded(values@, words@, block as int, 4 * packet),
        decreases len - 4 * packet,
    {
        let base: usize = 128 * block + 4 * packet;
        let w: [u16; 4] = [words[base], words[base + 1], words[base + 2], words[base + 3]];
        let q: [u16; 4] = [
            ((w[0] as u32) / FALCON_Q) as u16,
            ((w[1] as u32) / FALCON_Q) as u16,
            ((w[2] as u32) / FALCON_Q) as u16,
            ((w[3] as u32) / FALCON_Q) as u16,
        ];
        let xs: u64 = pack_four(&w);
        let qs: u64 = pack_four(&q);
        let ghost before = values@;
        let mut bit: usize = 0;
        while bit < 16
            invariant
                bit <= 16,
                packet < 32,
                xs == four_words(w@),
                values@.len() == WIRE_PLANES,
                before.len() == WIRE_PLANES,
                forall|p: int|
                    0 <= p < WIRE_PLANES && !(X <= p < X + bit) ==> #[trigger] values@[p] == before[p],
                forall|i: int, t: int|
                    0 <= i < bit && 0 <= t < 128 ==> #[trigger] lane_bit(values@[X + i], t) == (
                    lane_bit(before[X + i], t) || (4 * packet <= t < 4 * packet + 4 && nat_bit(
                        w@[t - 4 * packet] as int,
                        i,
                    ))),
            decreases 16 - bit,
        {
            let v: u128 = values[X + bit];
            let ghost middle = values@;
            values.set(X + bit, insert_column(v, packet, &w, xs, bit));
            assert forall|i: int, t: int| 0 <= i < bit + 1 && 0 <= t < 128 implies #[trigger] lane_bit(
                values@[X + i],
                t,
            ) == (lane_bit(before[X + i], t) || (4 * packet <= t < 4 * packet + 4 && nat_bit(
                w@[t - 4 * packet] as int,
                i,
            ))) by {
                if i < bit {
                    assert(values@[X + i] == middle[X + i]);
                }
            }
            bit = bit + 1;
        }
        let ghost words_done = values@;
        let mut bit: usize = 0;
        while bit < 3
            invariant
                bit <= 3,
                packet < 32,
                qs == four_words(q@),
                values@.len() == WIRE_PLANES,
                words_done.len() == WIRE_PLANES,
                forall|p: int|
                    0 <= p < WIRE_PLANES && !(Q <= p < Q + bit) ==> #[trigger] values@[p]
                        == words_done[p],
                forall|i: int, t: int|
                    0 <= i < bit && 0 <= t < 128 ==> #[trigger] lane_bit(values@[Q + i], t) == (
                    lane_bit(words_done[Q + i], t) || (4 * packet <= t < 4 * packet + 4 && nat_bit(
                        q@[t - 4 * packet] as int,
                        i,
                    ))),
            decreases 3 - bit,
        {
            let v: u128 = values[Q + bit];
            let ghost middle = values@;
            values.set(Q + bit, insert_column(v, packet, &q, qs, bit));
            assert forall|i: int, t: int| 0 <= i < bit + 1 && 0 <= t < 128 implies #[trigger] lane_bit(
                values@[Q + i],
                t,
            ) == (lane_bit(words_done[Q + i], t) || (4 * packet <= t < 4 * packet + 4 && nat_bit(
                q@[t - 4 * packet] as int,
                i,
            ))) by {
                if i < bit {
                    assert(values@[Q + i] == middle[Q + i]);
                }
            }
            bit = bit + 1;
        }
        proof {
            let now = values@;
            assert forall|i: int, t: int| 0 <= i < 16 && 0 <= t < 128 implies #[trigger] lane_bit(
                now[X + i],
                t,
            ) == (t < 4 * (packet + 1) && nat_bit(words@[128 * block + t] as int, i)) by {
                assert(now[X + i] == words_done[X + i]);
                assert(lane_bit(before[X + i], t) == (t < 4 * packet && nat_bit(
                    words@[128 * block + t] as int,
                    i,
                )));
            }
            assert forall|i: int, t: int| 0 <= i < 3 && 0 <= t < 128 implies #[trigger] lane_bit(
                now[Q + i],
                t,
            ) == (t < 4 * (packet + 1) && nat_bit(
                words@[128 * block + t] as int / FALCON_Q as int,
                i,
            )) by {
                assert(words_done[Q + i] == before[Q + i]);
                assert(lane_bit(before[Q + i], t) == (t < 4 * packet && nat_bit(
                    words@[128 * block + t] as int / FALCON_Q as int,
                    i,
                )));
            }
        }
        packet = packet + 1;
    }
    values
}

/// The mask of the first `len` lanes.
fn live_lanes(len: usize) -> (live: u128)
    requires
        1 <= len <= 128,
    ensures
        forall|t: int| 0 <= t < 128 ==> #[trigger] lane_bit(live, t) == (t < len),
{
    let shift: u128 = 128 - (len as u128);
    let live: u128 = u128::MAX >> shift;
    proof {
        assert forall|t: int| 0 <= t < 128 implies #[trigger] lane_bit(live, t) == (t < len) by {
            lemma_live(shift, t as u128);
        }
    }
    live
}

proof fn lemma_live(shift: u128, t: u128)
    by (bit_vector)
    requires
        shift < 128,
        t < 128,
    ensures
        (((0xffff_ffff_ffff_ffff_ffff_ffff_ffff_ffffu128 >> shift) >> t) & 1 == 1) == (t + shift
            < 128),
{
}


// ---------------------------------------------------------------------------
// Counters and outputs.
// ---------------------------------------------------------------------------

/// The write gate at a slot.
pub open spec fn gated(words: Seq<u16>, slot: int) -> bool {
    accepts(words[slot]) && accept_count(words, slot) < 512
}

/// The carry into counter bit `bit + 1` at a slot: the bit in which the counts
/// before and after differ.
pub open spec fn carried(words: Seq<u16>, slot: int, bit: int) -> bool {
    nat_bit(accept_count(words, slot), bit + 1) != nat_bit(accept_count(words, slot + 1), bit + 1)
}

/// Incrementing flips a bit exactly where all lower bits are ones.
proof fn lemma_increment_flips(c: int, i: int)
    requires
        0 <= c,
        0 <= i,
    ensures
        (nat_bit(c, i) != nat_bit(c + 1, i)) == (c % pow2(i as nat) as int == pow2(i as nat) - 1),
        (c % pow2((i + 1) as nat) as int == pow2((i + 1) as nat) - 1) == (c % pow2(i as nat) as int
            == pow2(i as nat) - 1 && nat_bit(c, i)),
{
    let p = pow2(i as nat) as int;
    lemma_pow2_pos(i as nat);
    lemma_pow2_unfold((i + 1) as nat);
    let (d, r) = (c / p, c % p);
    vstd::arithmetic::div_mod::lemma_fundamental_div_mod(c, p);
    assert(p * d == d * p) by (nonlinear_arith);
    assert(d * p + p == (d + 1) * p) by (nonlinear_arith);
    if r == p - 1 {
        vstd::arithmetic::div_mod::lemma_fundamental_div_mod_converse(c + 1, p, d + 1, 0);
    } else {
        vstd::arithmetic::div_mod::lemma_fundamental_div_mod_converse(c + 1, p, d, r + 1);
    }
    assert(d >= 0) by (nonlinear_arith)
        requires
            c >= 0,
            p > 0,
            d == c / p,
    ;
    vstd::arithmetic::div_mod::lemma_mod_breakdown(c, p, 2);
    assert(c % (2 * p) == p * (d % 2) + r) by {
        assert(p * 2 == 2 * p);
    }
    let b = d % 2;
    assert(p * b == if b == 1 {
        p
    } else {
        0
    }) by (nonlinear_arith)
        requires
            b == 0 || b == 1,
    ;
}

/// The integer counters satisfy the counter rows.
proof fn lemma_counter_rows(z: Seq<bool>, words: Seq<u16>, slot: int)
    requires
        z[0],
        0 <= slot < SLOTS,
        value(z, ACC as int, slot) == accepts(words[slot]),
        value(z, GATE as int, slot) == gated(words, slot),
        forall|bit: int|
            0 <= bit < COUNTER_BITS ==> #[trigger] value(z, H + bit, slot) == carried(
                words,
                slot,
                bit,
            ),
        forall|bit: int|
            0 <= bit < COUNTER_BITS ==> #[trigger] value(z, CNT + bit, slot) == nat_bit(
                accept_count(words, slot + 1),
                bit,
            ),
        slot > 0 ==> forall|bit: int|
            0 <= bit < COUNTER_BITS ==> #[trigger] value(z, CNT + bit, slot - 1) == nat_bit(
                accept_count(words, slot),
                bit,
            ),
    ensures
        counter_rows_hold(z, slot),
{
    lemma2_to64();
    let c0 = accept_count(words, slot);
    let c1 = accept_count(words, slot + 1);
    lemma_outputs_len(words, slot);
    assert forall|bit: int| 0 <= bit < COUNTER_BITS implies #[trigger] counter_before(z, slot, bit)
        == nat_bit(c0, bit) by {
        if slot == 0 {
            lemma_pow2_pos(bit as nat);
            assert(0int / pow2(bit as nat) as int == 0) by (nonlinear_arith)
                requires
                    pow2(bit as nat) > 0,
            ;
        } else {
            assert(value(z, CNT + bit, slot - 1) == nat_bit(c0, bit));
        }
    }
    assert forall|bit: int| 0 <= bit <= COUNTER_BITS implies #[trigger] increment(z, slot, bit) == (
    nat_bit(c0, bit) != nat_bit(c1, bit)) by {
        if bit == 0 {
            if accepts(words[slot]) {
                lemma_increment_flips(c0, 0);
                assert(c0 % 1 == 0);
            }
        } else {
            assert(value(z, H + (bit - 1), slot) == carried(words, slot, bit - 1));
        }
    }
    assert forall|bit: int| 0 <= bit < COUNTER_BITS implies #[trigger] slot_row_holds(
        z,
        wire_at(H + bit, slot),
    ) by {
        let w = wire_at(H + bit, slot);
        assert(w / PLANE as int == H + bit && w % PLANE as int == slot);
        assert(value(z, H + bit, slot) == carried(words, slot, bit));
        assert(counter_before(z, slot, bit) == nat_bit(c0, bit));
        assert(increment(z, slot, bit) == (nat_bit(c0, bit) != nat_bit(c1, bit)));
        if accepts(words[slot]) {
            lemma_increment_flips(c0, bit);
            lemma_increment_flips(c0, bit + 1);
        }
    }
    assert forall|bit: int| 0 <= bit < COUNTER_BITS implies #[trigger] slot_row_holds(
        z,
        wire_at(CNT + bit, slot),
    ) by {
        let w = wire_at(CNT + bit, slot);
        assert(w / PLANE as int == CNT + bit && w % PLANE as int == slot);
        assert(value(z, CNT + bit, slot) == nat_bit(c1, bit));
        assert(counter_before(z, slot, bit) == nat_bit(c0, bit));
        assert(increment(z, slot, bit) == (nat_bit(c0, bit) != nat_bit(c1, bit)));
    }
    let w = wire_at(GATE as int, slot);
    assert(w / PLANE as int == GATE && w % PLANE as int == slot);
    assert(counter_before(z, slot, 9) == nat_bit(c0, 9));
    assert(nat_bit(c0, 9) == (c0 >= 512)) by {
        assert(pow2(9) == 512);
    }
}

/// The write gate and counter planes hold the first `n` lanes.
spec fn counted(values: Seq<u128>, words: Seq<u16>, block: int, n: int) -> bool {
    &&& values.len() == WIRE_PLANES
    &&& forall|t: int|
        0 <= t < 128 ==> #[trigger] lane_bit(values[GATE as int], t) == (t < n && gated(
            words,
            128 * block + t,
        ))
    &&& forall|bit: int, t: int|
        0 <= bit < COUNTER_BITS && 0 <= t < 128 ==> #[trigger] lane_bit(values[CNT + bit], t) == (t
            < n && nat_bit(accept_count(words, 128 * block + t + 1), bit))
    &&& forall|bit: int, t: int|
        0 <= bit < COUNTER_BITS && 0 <= t < 128 ==> #[trigger] lane_bit(values[H + bit], t) == (t < n
            && carried(words, 128 * block + t, bit))
}

proof fn lemma_carry_bits(b: u64, c: u64, k: u64)
    by (bit_vector)
    requires
        k < 15,
        b <= 0xffff,
        c <= 0xffff,
    ensures
        (((((b ^ c) >> 1) >> k) & 1) == 1) == (((b >> ((k + 1) as u64)) & 1 == 1) != ((c >> ((k
            + 1) as u64)) & 1 == 1)),
        (b ^ c) >> 1 <= 0xffff,
{
}

proof fn lemma_gate_lane(v: u128, s: u128, t: u128)
    by (bit_vector)
    requires
        s < 128,
        t < 128,
    ensures
        (((v | (1u128 << s)) >> t) & 1 == 1) == ((v >> t) & 1 == 1 || s == t),
{
}

/// Count one packet of four slots: write its gate, counter and carry columns
/// and its outputs. Returns the count after the packet.
fn count_packet(
    values: &mut Vec<u128>,
    out: &mut Vec<F128>,
    words: &[u16; SLOTS],
    block: usize,
    packet: usize,
    count: u16,
) -> (after: u16)
    requires
        block < 5,
        packet < 32,
        128 * block + 4 * packet + 4 <= SLOTS,
        counted(old(values)@, words@, block as int, 4 * packet),
        forall|t: int|
            4 * packet <= t < 4 * packet + 4 ==> #[trigger] lane_bit(old(values)@[ACC as int], t)
                == accepts(words@[128 * block + t]),
        forall|t: int|
            4 * packet <= t < 4 * packet + 4 ==> #[trigger] lane_bit(old(values)@[U as int], t)
                == centered(words@[128 * block + t]),
        count == accept_count(words@, 128 * block + 4 * packet),
        old(out)@.len() == K / 128,
        dense_region(unpacked(old(out)@), words@, 128 * block + 4 * packet),
    ensures
        counted(final(values)@, words@, block as int, 4 * packet + 4),
        forall|p: int|
            0 <= p < WIRE_PLANES && !(H <= p < CNT + COUNTER_BITS) ==> #[trigger] final(values)@[p]
                == old(values)@[p],
        after == accept_count(words@, 128 * block + 4 * packet + 4),
        final(out)@.len() == K / 128,
        dense_region(unpacked(final(out)@), words@, 128 * block + 4 * packet + 4),
        forall|w: int|
            0 <= w < K && !(Z_BASE * PLANE <= w < (Z_BASE + Z_PLANES) * PLANE)
                ==> #[trigger] packed_bit(final(out)@, w) == packed_bit(old(out)@, w),
{
    let ghost values0 = values@;
    let ghost out0 = out@;
    let base: usize = 128 * block + 4 * packet;
    let mut counters: [u16; 4] = [0, 0, 0, 0];
    let mut carries: [u16; 4] = [0, 0, 0, 0];
    let mut running: u16 = count;
    let mut gate: u128 = values[GATE];
    let mut lane: usize = 0;
    while lane < 4
        invariant
            lane <= 4,
            block < 5,
            packet < 32,
            words@.len() == SLOTS,
            base == 128 * block + 4 * packet,
            base + 4 <= SLOTS,
            values@ == values0,
            values0.len() == WIRE_PLANES,
            counted(values0, words@, block as int, 4 * packet),
            forall|t: int|
                4 * packet <= t < 4 * packet + 4 ==> #[trigger] lane_bit(values0[ACC as int], t)
                    == accepts(words@[128 * block + t]),
            forall|t: int|
                4 * packet <= t < 4 * packet + 4 ==> #[trigger] lane_bit(values0[U as int], t)
                    == centered(words@[128 * block + t]),
            running == accept_count(words@, base + lane),
            forall|k: int|
                0 <= k < lane ==> #[trigger] counters@[k] == accept_count(words@, base + k + 1),
            forall|k: int, bit: int|
                0 <= k < lane && 0 <= bit < COUNTER_BITS ==> #[trigger] nat_bit(
                    carries@[k] as int,
                    bit,
                ) == carried(words@, base + k, bit),
            forall|t: int|
                0 <= t < 128 ==> #[trigger] lane_bit(gate, t) == (t < 4 * packet + lane && gated(
                    words@,
                    128 * block + t,
                )),
            out@.len() == K / 128,
            dense_region(unpacked(out@), words@, base + lane),
            forall|w: int|
                0 <= w < K && !(Z_BASE * PLANE <= w < (Z_BASE + Z_PLANES) * PLANE)
                    ==> #[trigger] packed_bit(out@, w) == packed_bit(out0, w),
        decreases 4 - lane,
    {
        let offset: usize = 4 * packet + lane;
        let word: u16 = words[base + lane];
        proof {
            assert(lane_bit(values0[ACC as int], offset as int) == accepts(word));
            assert(lane_bit(values0[U as int], offset as int) == centered(word));
            lemma_outputs_len(words@, base + lane);
            lemma_outputs_len(words@, base + lane + 1);
        }
        let accept = (values[ACC] >> (offset as u128)) & 1 == 1;
        let center = (values[U] >> (offset as u128)) & 1 == 1;
        let before: u16 = running;
        if accept {
            running = running + 1;
        }
        counters[lane] = running;
        let crossing: u16 = (before ^ running) >> 1;
        carries[lane] = crossing;
        let ghost gate0 = gate;
        if accept && before < 512 {
            gate = gate | (1u128 << (offset as u128));
            let residue: u16 = ((word as u32) % FALCON_Q) as u16;
            let packed: u16 = if center {
                residue + 16_384
            } else {
                residue
            };
            write_output(out, words, base + lane, before, packed);
        } else {
            assert(outputs(words@, base + lane + 1) == outputs(words@, base + lane));
        }
        proof {
            assert forall|t: int| 0 <= t < 128 implies #[trigger] lane_bit(gate, t) == (t < 4 * packet
                + lane + 1 && gated(words@, 128 * block + t)) by {
                lemma_gate_lane(gate0, offset as u128, t as u128);
                assert(lane_bit(gate0, t) == (t < 4 * packet + lane && gated(
                    words@,
                    128 * block + t,
                )));
            }
            assert forall|k: int, bit: int|
                0 <= k < lane + 1 && 0 <= bit < COUNTER_BITS implies #[trigger] nat_bit(
                carries@[k] as int,
                bit,
            ) == carried(words@, base + k, bit) by {
                if k == lane {
                    lemma_carry_bits(before as u64, running as u64, bit as u64);
                    lemma_shift_bit64(before as u64, (bit + 1) as u64);
                    lemma_shift_bit64(running as u64, (bit + 1) as u64);
                    lemma_shift_bit64(crossing as u64, bit as u64);
                    lemma_crossing_widens(before, running);
                }
            }
        }
        lane = lane + 1;
    }
    values.set(GATE, gate);
    let ghost gated_values = values@;
    let cs: u64 = pack_four(&counters);
    let hs: u64 = pack_four(&carries);
    let mut bit: usize = 0;
    while bit < COUNTER_BITS
        invariant
            bit <= COUNTER_BITS,
            packet < 32,
            cs == four_words(counters@),
            hs == four_words(carries@),
            values@.len() == WIRE_PLANES,
            gated_values.len() == WIRE_PLANES,
            forall|p: int|
                0 <= p < WIRE_PLANES && !(H <= p < H + bit) && !(CNT <= p < CNT + bit)
                    ==> #[trigger] values@[p] == gated_values[p],
            forall|k: int, t: int|
                0 <= k < bit && 0 <= t < 128 ==> #[trigger] lane_bit(values@[CNT + k], t) == (
                lane_bit(gated_values[CNT + k], t) || (4 * packet <= t < 4 * packet + 4 && nat_bit(
                    counters@[t - 4 * packet] as int,
                    k,
                ))),
            forall|k: int, t: int|
                0 <= k < bit && 0 <= t < 128 ==> #[trigger] lane_bit(values@[H + k], t) == (
                lane_bit(gated_values[H + k], t) || (4 * packet <= t < 4 * packet + 4 && nat_bit(
                    carries@[t - 4 * packet] as int,
                    k,
                ))),
        decreases COUNTER_BITS - bit,
    {
        let ghost middle = values@;
        let c: u128 = values[CNT + bit];
        let h: u128 = values[H + bit];
        values.set(CNT + bit, insert_column(c, packet, &counters, cs, bit));
        values.set(H + bit, insert_column(h, packet, &carries, hs, bit));
        proof {
            assert forall|k: int, t: int| 0 <= k < bit + 1 && 0 <= t < 128 implies #[trigger] lane_bit(
                values@[CNT + k],
                t,
            ) == (lane_bit(gated_values[CNT + k], t) || (4 * packet <= t < 4 * packet + 4 && nat_bit(
                counters@[t - 4 * packet] as int,
                k,
            ))) by {
                if k < bit {
                    assert(values@[CNT + k] == middle[CNT + k]);
                }
            }
            assert forall|k: int, t: int| 0 <= k < bit + 1 && 0 <= t < 128 implies #[trigger] lane_bit(
                values@[H + k],
                t,
            ) == (lane_bit(gated_values[H + k], t) || (4 * packet <= t < 4 * packet + 4 && nat_bit(
                carries@[t - 4 * packet] as int,
                k,
            ))) by {
                if k < bit {
                    assert(values@[H + k] == middle[H + k]);
                }
            }
        }
        bit = bit + 1;
    }
    proof {
        let now = values@;
        assert forall|bit: int, t: int| 0 <= bit < COUNTER_BITS && 0 <= t < 128 implies #[trigger] lane_bit(
            now[CNT + bit],
            t,
        ) == (t < 4 * packet + 4 && nat_bit(accept_count(words@, 128 * block + t + 1), bit)) by {
            assert(gated_values[CNT + bit] == values0[CNT + bit]);
            assert(lane_bit(values0[CNT + bit], t) == (t < 4 * packet && nat_bit(
                accept_count(words@, 128 * block + t + 1),
                bit,
            )));
            if 4 * packet <= t < 4 * packet + 4 {
                assert(counters@[t - 4 * packet] == accept_count(words@, base + (t - 4 * packet)
                    + 1));
            }
        }
        assert forall|bit: int, t: int| 0 <= bit < COUNTER_BITS && 0 <= t < 128 implies #[trigger] lane_bit(
            now[H + bit],
            t,
        ) == (t < 4 * packet + 4 && carried(words@, 128 * block + t, bit)) by {
            assert(gated_values[H + bit] == values0[H + bit]);
            assert(lane_bit(values0[H + bit], t) == (t < 4 * packet && carried(
                words@,
                128 * block + t,
                bit,
            )));
            if 4 * packet <= t < 4 * packet + 4 {
                assert(nat_bit(carries@[t - 4 * packet] as int, bit) == carried(
                    words@,
                    base + (t - 4 * packet),
                    bit,
                ));
            }
        }
        assert(now[GATE as int] == gate);
    }
    running
}

proof fn lemma_crossing_widens(b: u16, c: u16)
    by (bit_vector)
    ensures
        ((b ^ c) >> 1) as u64 == ((b as u64) ^ (c as u64)) >> 1,
{
}

proof fn lemma_output_limb(o: u64, v: u64, s: u64, k: u64)
    by (bit_vector)
    requires
        v <= 0xffff,
        s <= 48,
        k < 64,
    ensures
        (((o | (v << s)) >> k) & 1 == 1) == ((o >> k) & 1 == 1 || (s <= k && k < s + 16 && (v >> ((k
            - s) as u64)) & 1 == 1)),
{
}

/// Set sixteen bits at a sixteen-aligned position.
fn or_sixteen(out: &mut Vec<F128>, address: usize, packed: u16)
    requires
        address % 16 == 0,
        address < 128 * old(out)@.len(),
    ensures
        final(out)@.len() == old(out)@.len(),
        forall|w: int|
            0 <= w < 128 * final(out)@.len() ==> #[trigger] packed_bit(final(out)@, w) == (packed_bit(
                old(out)@,
                w,
            ) || (address <= w < address + 16 && nat_bit(packed as int, w - address))),
{
    let ghost start = out@;
    let word = out[address / 128];
    let shift: u64 = (address % 64) as u64;
    if address % 128 < 64 {
        out.set(address / 128, F128 { lo: word.lo | ((packed as u64) << shift), hi: word.hi });
    } else {
        out.set(address / 128, F128 { lo: word.lo, hi: word.hi | ((packed as u64) << shift) });
    }
    assert(shift <= 48);
    assert forall|w: int| 0 <= w < 128 * out@.len() implies #[trigger] packed_bit(out@, w) == (
    packed_bit(start, w) || (address <= w < address + 16 && nat_bit(packed as int, w - address))) by {
        if w / 128 == address as int / 128 {
            let half = address as int % 128 < 64;
            let k = w % 128;
            if half && k < 64 {
                lemma_output_limb(word.lo, packed as u64, shift, k as u64);
            } else if !half && k >= 64 {
                lemma_output_limb(word.hi, packed as u64, shift, (k - 64) as u64);
            }
            if address <= w < address + 16 {
                lemma_shift_bit64(packed as u64, (w - address) as u64);
            }
        }
    }
}

/// Write the packed output of a gated slot to its place in the dense region.
fn write_output(out: &mut Vec<F128>, words: &[u16; SLOTS], slot: usize, before: u16, packed: u16)
    requires
        slot < SLOTS,
        old(out)@.len() == K / 128,
        before == accept_count(words@, slot as int),
        before < 512,
        accepts(words@[slot as int]),
        packed == target(words@[slot as int]),
        dense_region(unpacked(old(out)@), words@, slot as int),
    ensures
        final(out)@.len() == K / 128,
        dense_region(unpacked(final(out)@), words@, slot + 1),
        forall|w: int|
            0 <= w < K && !(Z_BASE * PLANE <= w < (Z_BASE + Z_PLANES) * PLANE)
                ==> #[trigger] packed_bit(final(out)@, w) == packed_bit(old(out)@, w),
{
    let ghost start = out@;
    let address: usize = Z_BASE * PLANE + (before as usize) * 16;
    or_sixteen(out, address, packed);
    proof {
        lemma_outputs_len(words@, slot as int);
        let was = outputs(words@, slot as int);
        let now = outputs(words@, slot + 1);
        assert(now == was.push(packed as int));
        assert forall|j: int, c: int|
            0 <= j < 512 && 0 <= c < 16 implies #[trigger] unpacked(out@)[dense_wire(
            j,
            c,
        )] == (j < now.len() && nat_bit(now[j], c)) by {
            let w = dense_wire(j, c);
            assert(unpacked(start)[w] == (j < was.len() && nat_bit(was[j], c)));
            assert(unpacked(start)[w] == packed_bit(start, w));
            assert(unpacked(out@)[w] == packed_bit(out@, w));
            if j == before {
                assert(w - address == c);
            } else {
                assert(!(address <= w < address + 16));
            }
        }
    }
}

// ---------------------------------------------------------------------------
// The block.
// ---------------------------------------------------------------------------

/// The planes below the dense region hold the block's values at lane `t`.
spec fn stored(out: Seq<F128>, values: Seq<u128>, block: int) -> bool {
    forall|p: int, t: int|
        0 < p < Z_BASE && 0 <= t < 128 ==> #[trigger] packed_bit(out, p * PLANE + 128 * block + t)
            == lane_bit(values[p], t)
}

proof fn lemma_limbs(v: u128, t: u128)
    by (bit_vector)
    requires
        t < 128,
    ensures
        t < 64 ==> (((v as u64) >> (t as u64)) & 1 == 1) == ((v >> t) & 1 == 1),
        t >= 64 ==> ((((v >> 64) as u64) >> ((t - 64) as u64)) & 1 == 1) == ((v >> t) & 1 == 1),
{
}

/// Store the planes of a block.
fn store_block(out: &mut Vec<F128>, values: &Vec<u128>, block: usize)
    requires
        block < 8,
        old(out)@.len() == K / 128,
        values@.len() == WIRE_PLANES,
    ensures
        final(out)@.len() == K / 128,
        stored(final(out)@, values@, block as int),
        forall|w: int|
            0 <= w < K && !(0 < w / PLANE as int && w / (PLANE as int) < Z_BASE && (w
                % PLANE as int) / 128 == block) ==> #[trigger] packed_bit(final(out)@, w)
                == packed_bit(old(out)@, w),
{
    let ghost start = out@;
    let mut plane: usize = 1;
    while plane < Z_BASE
        invariant
            1 <= plane <= Z_BASE,
            block < 8,
            out@.len() == K / 128,
            start.len() == K / 128,
            values@.len() == WIRE_PLANES,
            forall|p: int, t: int|
                0 < p < plane && 0 <= t < 128 ==> #[trigger] packed_bit(
                    out@,
                    p * PLANE + 128 * block + t,
                ) == lane_bit(values@[p], t),
            forall|w: int|
                0 <= w < K && !(0 < w / PLANE as int && w / (PLANE as int) < plane && (w
                    % PLANE as int) / 128 == block) ==> #[trigger] packed_bit(out@, w)
                    == packed_bit(start, w),
        decreases Z_BASE - plane,
    {
        let v: u128 = values[plane];
        let ghost before = out@;
        let index: usize = plane * PACKED_PLANE + block;
        #[verifier::truncate]
        let lo: u64 = v as u64;
        #[verifier::truncate]
        let hi: u64 = (v >> 64) as u64;
        out.set(index, F128 { lo, hi });
        proof {
            let now = out@;
            assert forall|w: int| 0 <= w < K && w / 128 != index implies #[trigger] packed_bit(now, w)
                == packed_bit(before, w) by {}
            assert forall|p: int, t: int| 0 < p < plane + 1 && 0 <= t < 128 implies #[trigger] packed_bit(
                now,
                p * PLANE + 128 * block + t,
            ) == lane_bit(values@[p], t) by {
                let w = p * PLANE + 128 * block + t;
                assert(w / 128 == p * PACKED_PLANE + block && w % 128 == t);
                if p == plane {
                    lemma_limbs(v, t as u128);
                } else {
                    assert(packed_bit(before, p * PLANE + 128 * block + t) == lane_bit(
                        values@[p],
                        t,
                    ));
                }
            }
            assert forall|w: int|
                0 <= w < K && !(0 < w / PLANE as int && w / (PLANE as int) < plane + 1 && (w
                    % PLANE as int) / 128 == block) implies #[trigger] packed_bit(now, w)
                == packed_bit(start, w) by {
                assert(w / 128 == (w / PLANE as int) * 8 + (w % PLANE as int) / 128);
                assert(w / 128 != index);
                assert(packed_bit(before, w) == packed_bit(start, w));
            }
        }
        plane = plane + 1;
    }
}

/// Everything at a live slot is as the block witness has it.
spec fn slot_done(z: Seq<bool>, words: Seq<u16>, slot: int) -> bool {
    &&& chains_hold(z, slot)
    &&& forall|p: int| PIN_RANGE <= p <= PIN_T4 ==> !(#[trigger] value(z, p, slot))
    &&& forall|p: int|
        PIN_RANGE <= p <= PIN_T4 ==> #[trigger] slot_row_holds(z, wire_at(p, slot))
    &&& word_value(z, slot) == words[slot]
    &&& value(z, ACC as int, slot) == accepts(words[slot])
    &&& value(z, GATE as int, slot) == gated(words, slot)
    &&& forall|bit: int|
        0 <= bit < COUNTER_BITS ==> #[trigger] value(z, H + bit, slot) == carried(words, slot, bit)
    &&& forall|bit: int|
        0 <= bit < COUNTER_BITS ==> #[trigger] value(z, CNT + bit, slot) == nat_bit(
            accept_count(words, slot + 1),
            bit,
        )
    &&& !value(z, Z_BASE - 1, slot)
}

/// A slot's wires decide whether it is done.
proof fn lemma_slot_done_local(y: Seq<bool>, z: Seq<bool>, words: Seq<u16>, slot: int)
    requires
        0 <= slot < SLOTS,
        slot_done(y, words, slot),
        agree_slots(y, slot, z, slot, Z_BASE - 1),
    ensures
        slot_done(z, words, slot),
{
    assert forall|p: int| D <= p < PIN_RANGE implies #[trigger] slot_row_holds(
        z,
        wire_at(p, slot),
    ) by {
        assert(slot_row_holds(y, wire_at(p, slot)));
        assert(value(y, p, slot) == value(z, p, slot));
        lemma_row_slot_local(y, slot, z, slot, p);
    }
    crate::hash_to_point_slots::relation::lemma_bits_value_congr(
        |i: int| value(y, X + i, slot),
        |i: int| value(z, X + i, slot),
        16,
    );
    assert forall|p: int| PIN_RANGE <= p <= PIN_T4 implies !(#[trigger] value(z, p, slot)) by {
        assert(value(y, p, slot) == value(z, p, slot));
    }
    assert forall|p: int| PIN_RANGE <= p <= PIN_T4 implies #[trigger] slot_row_holds(
        z,
        wire_at(p, slot),
    ) by {
        assert(slot_row_holds(y, wire_at(p, slot)));
        assert(value(y, p, slot) == value(z, p, slot));
        lemma_pin_slot_local(y, slot, z, slot, p);
    }
    assert(value(y, ACC as int, slot) == value(z, ACC as int, slot));
    assert(value(y, GATE as int, slot) == value(z, GATE as int, slot));
    assert(value(y, Z_BASE - 1, slot) == value(z, Z_BASE - 1, slot));
    assert forall|bit: int| 0 <= bit < COUNTER_BITS implies #[trigger] value(z, H + bit, slot)
        == carried(words, slot, bit) by {
        assert(value(y, H + bit, slot) == value(z, H + bit, slot));
    }
    assert forall|bit: int| 0 <= bit < COUNTER_BITS implies #[trigger] value(z, CNT + bit, slot)
        == nat_bit(accept_count(words, slot + 1), bit) by {
        assert(value(y, CNT + bit, slot) == value(z, CNT + bit, slot));
    }
}

/// The stored lanes of a finished block are done.
proof fn lemma_stored_slot(out: Seq<F128>, values: Seq<u128>, words: Seq<u16>, block: int, t: int, len: int)
    requires
        out.len() == K / 128,
        values.len() == WIRE_PLANES,
        0 <= block < 5,
        0 <= t < len <= 128,
        128 * block + len <= SLOTS,
        packed_bit(out, 0),
        stored(out, values, block),
        forall|p: int|
            D <= p < H ==> #[trigger] lane_evaluated(values, 128 * block + t, t, p),
        counted(values, words, block, len),
        forall|i: int|
            0 <= i < 16 ==> #[trigger] lane_bit(values[X + i], t) == nat_bit(
                words[128 * block + t] as int,
                i,
            ),
        forall|i: int|
            0 <= i < 3 ==> #[trigger] lane_bit(values[Q + i], t) == nat_bit(
                words[128 * block + t] as int / FALCON_Q as int,
                i,
            ),
        values[Z_BASE - 1] == 0,
    ensures
        slot_done(unpacked(out), words, 128 * block + t),
{
    let slot = 128 * block + t;
    let word = words[slot];
    let y = lane_assignment(values, slot, t);
    let z = unpacked(out);
    lemma_lane_honest(values, slot, t, word);
    assert forall|p: int| 0 < p < Z_BASE implies #[trigger] value(z, p, slot) == lane_bit(values[p], t) by {
        assert(packed_bit(out, p * PLANE + 128 * block + t) == lane_bit(values[p], t));
        assert(wire_at(p, slot) == p * PLANE + 128 * block + t);
    }
    assert(z[0] && y[0]);
    assert forall|p: int| D <= p < PIN_RANGE implies #[trigger] slot_row_holds(
        z,
        wire_at(p, slot),
    ) by {
        assert(slot_row_holds(y, wire_at(p, slot)));
        assert forall|q: int| 0 < q <= p - 1 implies #[trigger] value(y, q, slot) == value(
            z,
            q,
            slot,
        ) by {
            lemma_lane_value(values, slot, t, q);
        }
        lemma_lane_value(values, slot, t, p);
        assert(value(z, p, slot) == lane_bit(values[p], t));
        lemma_row_slot_local(y, slot, z, slot, p);
    }
    assert forall|i: int| 0 <= i < 16 implies #[trigger] value(z, X + i, slot) == nat_bit(
        word as int,
        i,
    ) by {
        assert(lane_bit(values[X + i], t) == nat_bit(word as int, i));
    }
    assert forall|i: int| 0 <= i < 3 implies #[trigger] value(z, Q + i, slot) == nat_bit(
        word as int / FALCON_Q as int,
        i,
    ) by {
        assert(lane_bit(values[Q + i], t) == nat_bit(word as int / FALCON_Q as int, i));
    }
    lemma_honest_chains(z, slot, word);
    assert forall|p: int| PIN_RANGE <= p <= PIN_T4 implies !(#[trigger] value(z, p, slot)) by {
        assert(!lane_bit(values[p], t));
    }
    assert forall|p: int| PIN_RANGE <= p <= PIN_T4 implies #[trigger] slot_row_holds(
        z,
        wire_at(p, slot),
    ) by {
        let w = wire_at(p, slot);
        assert(w / PLANE as int == p && w % PLANE as int == slot);
        assert(!value(z, p, slot));
    }
    assert forall|bit: int| 0 <= bit < COUNTER_BITS implies #[trigger] value(z, H + bit, slot)
        == carried(words, slot, bit) by {
        assert(lane_bit(values[H + bit], t) == carried(words, slot, bit));
    }
    assert forall|bit: int| 0 <= bit < COUNTER_BITS implies #[trigger] value(z, CNT + bit, slot)
        == nat_bit(accept_count(words, slot + 1), bit) by {
        assert(lane_bit(values[CNT + bit], t) == nat_bit(accept_count(words, slot + 1), bit));
    }
    assert(value(z, GATE as int, slot) == lane_bit(values[GATE as int], t));
    lemma_no_lane(t as u128);
    assert(value(z, Z_BASE - 1, slot) == lane_bit(values[Z_BASE - 1], t));
}


impl Program {
    /// The program is the specialization of the slot matrices.
    pub open spec fn canonical(self) -> bool {
        exists|a: SparseBinaryMatrix, b: SparseBinaryMatrix|
            #[trigger] self.is_of(a, b) && slot_matrices(a, b) && specializable(a, b)
    }

    /// Write the packed witness of one block.
    pub fn write(&self, words: &[u16; SLOTS], out: &mut Vec<F128>)
        requires
            self.canonical(),
            old(out)@.len() == K / 128,
        ensures
            final(out)@.len() == K / 128,
            is_block_witness(unpacked(final(out)@), words@),
    {
        let ghost (a, b) = choose|a: SparseBinaryMatrix, b: SparseBinaryMatrix|
            #[trigger] self.is_of(a, b) && slot_matrices(a, b) && specializable(a, b);
        *out = zero_words(K / 128);
        out.set(0, F128 { lo: 1, hi: 0 });
        proof {
            lemma_unit_word();
            assert forall|w: int| 0 < w < K implies !(#[trigger] packed_bit(out@, w)) by {
                if w < 128 {
                    assert(w % 128 == w);
                } else {
                    crate::packed_bits::lemma_zero_word(w % 128);
                }
            }
            let z = unpacked(out@);
            assert forall|j: int, c: int| 0 <= j < 512 && 0 <= c < 16 implies !(#[trigger] z[dense_wire(
                j,
                c,
            )]) by {
                assert(z[dense_wire(j, c)] == packed_bit(out@, dense_wire(j, c)));
            }
        }
        let mut count: u16 = 0;
        let mut block: usize = 0;
        while block < 5
            invariant
                block <= 5,
                words@.len() == SLOTS,
                self.is_of(a, b),
                slot_matrices(a, b),
                specializable(a, b),
                out@.len() == K / 128,
                packed_bit(out@, 0),
                forall|w: int| 0 < w < PLANE ==> !(#[trigger] packed_bit(out@, w)),
                forall|w: int|
                    (Z_BASE + Z_PLANES) * PLANE <= w < K ==> !(#[trigger] packed_bit(out@, w)),
                forall|s: int|
                    0 <= s < SLOTS && s < 128 * block ==> #[trigger] slot_done(
                        unpacked(out@),
                        words@,
                        s,
                    ),
                forall|w: int|
                    PLANE <= w < Z_BASE * PLANE && (w % PLANE as int >= 128 * block || w % PLANE as int
                        >= SLOTS) ==> !(#[trigger] packed_bit(out@, w)),
                count == accept_count(words@, if 128 * block < SLOTS {
                    128 * block
                } else {
                    SLOTS as int
                }),
                dense_region(unpacked(out@), words@, if 128 * block < SLOTS {
                    128 * block
                } else {
                    SLOTS as int
                }),
            decreases 5 - block,
        {
            let len: usize = if block < 4 {
                128
            } else {
                SLOTS - 512
            };
            let mut values = load_block(words, block, len);
            let live: u128 = live_lanes(len);
            let ghost inputs = values@;
            proof {
                assert forall|p: int, t: int| 0 <= p < WIRE_PLANES && len <= t < 128 implies !(
            #[trigger] lane_bit(
                    inputs[p],
                    t,
                )) by {
                    lemma_no_lane(t as u128);
                    if X <= p < Q {
                        assert(lane_bit(inputs[X + (p - X)], t) == false);
                    } else if Q <= p < D {
                        assert(lane_bit(inputs[Q + (p - Q)], t) == false);
                    }
                }
            }
            run_products(self, Ghost(a), Ghost(b), &mut values, live, block, len);
            let ghost chains = values@;
            proof {
                assert forall|t: int| 0 <= t < 128 implies #[trigger] lane_bit(0u128, t) == false by {
                    lemma_no_lane(t as u128);
                }
                assert forall|t: int| 0 <= t < len implies lane_bit(
                    #[trigger] chains[ACC as int],
                    t,
                ) == accepts(words@[128 * block + t]) && lane_bit(chains[U as int], t) == centered(
                    words@[128 * block + t],
                ) by {
                    lemma_block_lane(inputs, chains, words@, block as int, t, len as int);
                }
                assert forall|t: int| 0 <= t < len implies lane_bit(
                    #[trigger] chains[U as int],
                    t,
                ) == centered(words@[128 * block + t]) by {
                    lemma_block_lane(inputs, chains, words@, block as int, t, len as int);
                }
                assert(counted(chains, words@, block as int, 0)) by {
                    assert(chains[GATE as int] == inputs[GATE as int]);
                    assert forall|bit: int| 0 <= bit < COUNTER_BITS implies #[trigger] chains[CNT + bit]
                        == 0 by {
                        assert(chains[CNT + bit] == inputs[CNT + bit]);
                    }
                    assert forall|bit: int| 0 <= bit < COUNTER_BITS implies #[trigger] chains[H + bit]
                        == 0 by {
                        assert(chains[H + bit] == inputs[H + bit]);
                    }
                }
            }
            let ghost out0 = out@;
            let mut packet: usize = 0;
            while 4 * packet < len
                invariant
                    words@.len() == SLOTS,
                    block < 5,
                    len <= 128,
                    len % 4 == 0,
                    4 * packet <= len,
                    128 * block + len <= SLOTS,
                    counted(values@, words@, block as int, 4 * packet),
                    chains.len() == WIRE_PLANES,
                    forall|p: int|
                        0 <= p < WIRE_PLANES && !(H <= p < CNT + COUNTER_BITS)
                            ==> #[trigger] values@[p] == chains[p],
                    forall|t: int|
                        0 <= t < len ==> #[trigger] lane_bit(chains[ACC as int], t) == accepts(
                            words@[128 * block + t],
                        ),
                    forall|t: int|
                        0 <= t < len ==> #[trigger] lane_bit(chains[U as int], t) == centered(
                            words@[128 * block + t],
                        ),
                    count == accept_count(words@, 128 * block + 4 * packet),
                    out@.len() == K / 128,
                    dense_region(unpacked(out@), words@, 128 * block + 4 * packet),
                    forall|w: int|
                        0 <= w < K && !(Z_BASE * PLANE <= w < (Z_BASE + Z_PLANES) * PLANE)
                            ==> #[trigger] packed_bit(out@, w) == packed_bit(out0, w),
                decreases len - 4 * packet,
            {
                count = count_packet(&mut values, out, words, block, packet, count);
                packet = packet + 1;
            }
            let ghost counted_out = out@;
            let ghost full = values@;
            store_block(out, &values, block);
            proof {
                let now = out@;
                assert(packed_bit(now, 0) == packed_bit(counted_out, 0));
                assert forall|w: int| 0 <= w < K && !(0 < w / PLANE as int && w / (PLANE as int)
                    < Z_BASE && (w % PLANE as int) / 128 == block) && !(Z_BASE * PLANE <= w < (Z_BASE
                    + Z_PLANES) * PLANE) implies #[trigger] packed_bit(now, w) == packed_bit(
                    out0,
                    w,
                ) by {
                    assert(packed_bit(counted_out, w) == packed_bit(out0, w));
                }
                assert forall|s: int| 0 <= s < SLOTS && s < 128 * (block + 1) implies #[trigger] slot_done(
                    unpacked(now),
                    words@,
                    s,
                ) by {
                    if s < 128 * block {
                        assert(slot_done(unpacked(out0), words@, s));
                        lemma_kept_slot(out0, now, words@, block as int, s);
                    } else {
                        let t = s - 128 * block;
                        lemma_finished_lane(inputs, chains, full, now, words@, block as int, t, len as int);
                    }
                }
                assert forall|w: int|
                    PLANE <= w < Z_BASE * PLANE && (w % PLANE as int >= 128 * (block + 1) || w
                        % PLANE as int >= SLOTS) implies !(#[trigger] packed_bit(now, w)) by {
                    let p = w / PLANE as int;
                    let s = w % PLANE as int;
                    if s / 128 == block {
                        let t = s - 128 * block;
                        assert(w == p * PLANE + 128 * block + t);
                        assert(packed_bit(now, p * PLANE + 128 * block + t) == lane_bit(full[p], t));
                        if H <= p < H + COUNTER_BITS {
                            assert(!lane_bit(full[H + (p - H)], t));
                        } else if CNT <= p < CNT + COUNTER_BITS {
                            assert(!lane_bit(full[CNT + (p - CNT)], t));
                        } else if p != GATE {
                            assert(full[p] == chains[p]);
                            assert(!lane_bit(chains[p], t));
                        }
                    }
                }
                assert(dense_region(unpacked(now), words@, 128 * block + len)) by {
                    assert forall|j: int, c: int| 0 <= j < 512 && 0 <= c < 16 implies #[trigger] unpacked(
                        now,
                    )[dense_wire(j, c)] == unpacked(counted_out)[dense_wire(j, c)] by {
                        let w = dense_wire(j, c);
                        assert(packed_bit(now, w) == packed_bit(counted_out, w));
                    }
                }
            }
            block = block + 1;
        }
        proof {
            lemma_block_complete(out@, words@);
        }
    }
}

proof fn lemma_unit_word()
    ensures
        coefficient(F128 { lo: 1, hi: 0 }, 0),
        forall|t: int| 0 < t < 128 ==> !(#[trigger] coefficient(F128 { lo: 1, hi: 0 }, t)),
{
    assert forall|t: int| 0 <= t < 128 implies #[trigger] coefficient(F128 { lo: 1, hi: 0 }, t) == (t
        == 0) by {
        if t < 64 {
            lemma_unit_limb(t as u64);
        } else {
            lemma_unit_limb((t - 64) as u64);
        }
    }
}

proof fn lemma_unit_limb(t: u64)
    by (bit_vector)
    requires
        t < 64,
    ensures
        ((1u64 >> t) & 1 == 1) == (t == 0),
        (0u64 >> t) & 1 == 0,
{
}

/// The flags of a live lane after the products.
proof fn lemma_block_lane(inputs: Seq<u128>, chains: Seq<u128>, words: Seq<u16>, block: int, t: int, len: int)
    requires
        0 <= block < 5,
        0 <= t < len <= 128,
        128 * block + len <= SLOTS,
        loaded(inputs, words, block, len),
        chains.len() == WIRE_PLANES,
        forall|p: int|
            0 <= p < WIRE_PLANES && !(D <= p < H) ==> #[trigger] chains[p] == inputs[p],
        forall|p: int, u: int|
            D <= p < H && 0 <= u < len ==> #[trigger] lane_evaluated(chains, 128 * block + u, u, p),
    ensures
        lane_bit(chains[ACC as int], t) == accepts(words[128 * block + t]),
        lane_bit(chains[U as int], t) == centered(words[128 * block + t]),
{
    assert forall|i: int| 0 <= i < 16 implies #[trigger] lane_bit(chains[X + i], t) == nat_bit(
        words[128 * block + t] as int,
        i,
    ) by {
        assert(chains[X + i] == inputs[X + i]);
    }
    assert forall|i: int| 0 <= i < 3 implies #[trigger] lane_bit(chains[Q + i], t) == nat_bit(
        words[128 * block + t] as int / FALCON_Q as int,
        i,
    ) by {
        assert(chains[Q + i] == inputs[Q + i]);
    }
    lemma_lane_honest(chains, 128 * block + t, t, words[128 * block + t]);
}

/// A slot of an earlier block keeps its wires.
proof fn lemma_kept_slot(before: Seq<F128>, now: Seq<F128>, words: Seq<u16>, block: int, s: int)
    requires
        before.len() == K / 128,
        now.len() == K / 128,
        0 <= block < 5,
        0 <= s < SLOTS,
        s < 128 * block,
        slot_done(unpacked(before), words, s),
        forall|w: int|
            0 <= w < K && !(0 < w / PLANE as int && w / (PLANE as int) < Z_BASE && (w % PLANE as int)
                / 128 == block) && !(Z_BASE * PLANE <= w < (Z_BASE + Z_PLANES) * PLANE)
                ==> #[trigger] packed_bit(now, w) == packed_bit(before, w),
    ensures
        slot_done(unpacked(now), words, s),
{
    let (y, z) = (unpacked(before), unpacked(now));
    assert(packed_bit(now, 0) == packed_bit(before, 0));
    assert forall|q: int| 0 < q <= Z_BASE - 1 implies #[trigger] value(y, q, s) == value(z, q, s) by {
        let w = wire_at(q, s);
        assert(w / PLANE as int == q && w % PLANE as int == s);
        assert(packed_bit(now, w) == packed_bit(before, w));
    }
    lemma_slot_done_local(y, z, words, s);
}

/// A live lane of the stored block is done.
proof fn lemma_finished_lane(
    inputs: Seq<u128>,
    chains: Seq<u128>,
    full: Seq<u128>,
    out: Seq<F128>,
    words: Seq<u16>,
    block: int,
    t: int,
    len: int,
)
    requires
        0 <= block < 5,
        0 <= t < len <= 128,
        128 * block + len <= SLOTS,
        loaded(inputs, words, block, len),
        chains.len() == WIRE_PLANES,
        full.len() == WIRE_PLANES,
        forall|p: int|
            0 <= p < WIRE_PLANES && !(D <= p < H) ==> #[trigger] chains[p] == inputs[p],
        forall|p: int|
            0 <= p < WIRE_PLANES && !(H <= p < CNT + COUNTER_BITS) ==> #[trigger] full[p] == chains[p],
        forall|p: int, u: int|
            D <= p < H && 0 <= u < len ==> #[trigger] lane_evaluated(chains, 128 * block + u, u, p),
        counted(full, words, block, len),
        out.len() == K / 128,
        packed_bit(out, 0),
        stored(out, full, block),
    ensures
        slot_done(unpacked(out), words, 128 * block + t),
{
    let slot = 128 * block + t;
    assert forall|p: int| D <= p < H implies #[trigger] lane_evaluated(full, slot, t, p) by {
        assert(lane_evaluated(chains, slot, t, p));
        let y = lane_assignment(chains.update(p, 0), slot, t);
        let z = lane_assignment(full.update(p, 0), slot, t);
        assert forall|q: int| 0 < q <= H - 1 implies chains.update(p, 0)[q] == full.update(p, 0)[q] by {
            assert(full[q] == chains[q]);
        }
        lemma_lanes_agree(chains.update(p, 0), full.update(p, 0), slot, t, H - 1);
        assert(full[p] == chains[p]);
        if p < PIN_RANGE {
            lemma_row_slot_local(y, slot, z, slot, p);
        } else {
            lemma_pin_slot_local(y, slot, z, slot, p);
        }
    }
    assert forall|i: int| 0 <= i < 16 implies #[trigger] lane_bit(full[X + i], t) == nat_bit(
        words[slot] as int,
        i,
    ) by {
        assert(full[X + i] == chains[X + i]);
        assert(chains[X + i] == inputs[X + i]);
    }
    assert forall|i: int| 0 <= i < 3 implies #[trigger] lane_bit(full[Q + i], t) == nat_bit(
        words[slot] as int / FALCON_Q as int,
        i,
    ) by {
        assert(full[Q + i] == chains[Q + i]);
        assert(chains[Q + i] == inputs[Q + i]);
    }
    assert(full[Z_BASE - 1] == chains[Z_BASE - 1]);
    assert(chains[Z_BASE - 1] == inputs[Z_BASE - 1]);
    lemma_stored_slot(out, full, words, block, t, len);
}

/// A packed block whose live slots are done and whose other wires are clear is
/// the block witness.
proof fn lemma_block_complete(out: Seq<F128>, words: Seq<u16>)
    requires
        out.len() == K / 128,
        words.len() == SLOTS,
        packed_bit(out, 0),
        forall|w: int| 0 < w < PLANE ==> !(#[trigger] packed_bit(out, w)),
        forall|w: int| (Z_BASE + Z_PLANES) * PLANE <= w < K ==> !(#[trigger] packed_bit(out, w)),
        forall|s: int| 0 <= s < SLOTS ==> #[trigger] slot_done(unpacked(out), words, s),
        forall|w: int|
            PLANE <= w < Z_BASE * PLANE && w % PLANE as int >= SLOTS ==> !(#[trigger] packed_bit(out, w)),
        dense_region(unpacked(out), words, SLOTS as int),
    ensures
        is_block_witness(unpacked(out), words),
{
    let z = unpacked(out);
    assert forall|s: int| 0 <= s < SLOTS implies #[trigger] counter_rows_hold(z, s) by {
        assert(slot_done(z, words, s));
        if s > 0 {
            assert(slot_done(z, words, s - 1));
        }
        lemma_counter_rows(z, words, s);
    }
    assert forall|w: int| 0 <= w < K implies #[trigger] slot_row_holds(z, w) by {
        let p = w / PLANE as int;
        let s = w % PLANE as int;
        assert(w == wire_at(p, s));
        assert(z[w] == packed_bit(out, w));
        if input_wire(w) {
        } else if p < Z_BASE && s < SLOTS && p > 0 {
            assert(slot_done(z, words, s));
            assert(counter_rows_hold(z, s));
            if p < PIN_RANGE {
                assert(slot_row_holds(z, wire_at(p, s)));
            } else if p < H {
                assert(slot_row_holds(z, wire_at(p, s)));
            } else if p < GATE {
                assert(slot_row_holds(z, wire_at(H + (p - H), s)));
            } else if p > GATE && p < CNT + COUNTER_BITS {
                assert(slot_row_holds(z, wire_at(CNT + (p - CNT), s)));
            } else if p >= CNT + COUNTER_BITS {
                assert(!value(z, Z_BASE - 1, s));
            }
        }
    }
    assert forall|p: int, slot: int| PIN_RANGE <= p <= PIN_T4 && 0 <= slot < SLOTS implies !(#[trigger] value(
        z,
        p,
        slot,
    )) by {
        assert(slot_done(z, words, slot));
    }
    assert forall|slot: int| 0 <= slot < SLOTS implies #[trigger] word_value(z, slot)
        == words[slot] by {
        assert(slot_done(z, words, slot));
    }
}

} // verus!
