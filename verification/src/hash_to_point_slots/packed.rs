//! Bit-sliced execution of the slot rows: each `u128` holds one wire of 128
//! slots. The matrix shape is checked before specializing.
use vstd::prelude::*;

use crate::hash_to_point_slots::matrices::{constant_one, is_form, pos, slot_matrices, wire};
use crate::hash_to_point_slots::relation::{row_left, row_right, value, wire_at};
use crate::hash_to_point_slots::witness::{agree_slots, lemma_pin_slot_local, lemma_row_slot_local};
use crate::hash_to_point_slots::{
    ACC, CNT, COUNTER_BITS, D, GATE, H, K, PIN_RANGE, PLANE, SLOTS, Z_CONST_POS,
};
use crate::r1cs::{columns_below, lin_eval, strictly_sorted, SparseBinaryMatrix};

verus! {

/// Planes of a block.
pub const WIRE_PLANES: usize = 128;

/// Words of a packed plane.
pub const PACKED_PLANE: usize = 8;

const WORD_LOW_BITS: u64 = 0x0001_0001_0001_0001;

const GATHER_FOUR: u64 = 0x0001_0002_0004_0008;

/// Lane `t` of a bit-sliced value.
pub open spec fn lane_bit(v: u128, t: int) -> bool {
    (v >> (t as u128)) & 1 == 1
}

proof fn lemma_gather(w: u64)
    by (bit_vector)
    ensures
        ((((((w & 0x0001_0001_0001_0001) * 0x0001_0002_0004_0008) % 0x1_0000_0000_0000_0000) as u64) >> 48)
            & 15) == (w & 1) | (((w >> 16) & 1) << 1) | (((w >> 32) & 1) << 2) | (((w >> 48) & 1)
            << 3),
{
}

/// Bits 0, 16, 32 and 48 of the word, as a four-bit number.
pub fn gather_four(word: u64) -> (column: u64)
    ensures
        column == (word & 1) | (((word >> 16) & 1) << 1) | (((word >> 32) & 1) << 2) | (((word >> 48)
            & 1) << 3),
{
    proof {
        lemma_gather(word);
    }
    ((word & WORD_LOW_BITS).wrapping_mul(GATHER_FOUR) >> 48) & 15
}

// ---------------------------------------------------------------------------
// Linear forms at a plane.
// ---------------------------------------------------------------------------

/// All columns are wires of slot zero.
pub open spec fn aligned_row(row: Seq<usize>) -> bool {
    forall|i: int| 0 <= i < row.len() ==> (#[trigger] row[i]) < K && row[i] as int % PLANE as int == 0
}

/// The row taps the constant wire an odd number of times.
pub open spec fn constant_parity(row: Seq<usize>) -> bool
    decreases row.len(),
{
    if row.len() == 0 {
        false
    } else {
        constant_parity(row.drop_last()) != (row.last() == Z_CONST_POS)
    }
}

/// The planes of the row's other columns, in order.
pub open spec fn tap_planes(row: Seq<usize>) -> Seq<usize>
    decreases row.len(),
{
    if row.len() == 0 {
        Seq::empty()
    } else if row.last() == Z_CONST_POS {
        tap_planes(row.drop_last())
    } else {
        tap_planes(row.drop_last()).push((row.last() / PLANE) as usize)
    }
}

/// The parity of lane `t` over the listed planes.
pub open spec fn lane_parity(planes: Seq<usize>, values: Seq<u128>, t: int) -> bool
    decreases planes.len(),
{
    if planes.len() == 0 {
        false
    } else {
        lane_parity(planes.drop_last(), values, t) != lane_bit(values[planes.last() as int], t)
    }
}

/// A linear form shared by every slot of a plane.
pub struct Linear {
    pub constant: bool,
    pub planes: Vec<usize>,
}

impl Linear {
    /// The form is the one of the row.
    pub open spec fn is_of(self, row: Seq<usize>) -> bool {
        &&& aligned_row(row)
        &&& self.constant == constant_parity(row)
        &&& self.planes@ == tap_planes(row)
    }

    /// All planes are planes of the block.
    pub open spec fn in_range(self) -> bool {
        columns_below(self.planes@, WIRE_PLANES as int)
    }

    /// The form of a row whose columns are all wires of slot zero.
    pub fn from_row(row: &Vec<usize>) -> (form: Option<Linear>)
        ensures
            match form {
                None => !aligned_row(row@),
                Some(linear) => linear.is_of(row@) && linear.in_range(),
            },
    {
        let mut constant = false;
        let mut planes: Vec<usize> = Vec::new();
        let mut i: usize = 0;
        while i < row.len()
            invariant
                i <= row@.len(),
                aligned_row(row@.take(i as int)),
                constant == constant_parity(row@.take(i as int)),
                planes@ == tap_planes(row@.take(i as int)),
                columns_below(planes@, WIRE_PLANES as int),
            decreases row@.len() - i,
        {
            let c: usize = row[i];
            if c >= K || c % PLANE != 0 {
                assert(!aligned_row(row@)) by {
                    assert(row@[i as int] == c);
                }
                return None;
            }
            assert(row@.take(i + 1).drop_last() =~= row@.take(i as int));
            if c == Z_CONST_POS {
                constant = !constant;
            } else {
                planes.push(c / PLANE);
            }
            i = i + 1;
        }
        assert(row@.take(i as int) =~= row@);
        Some(Linear { constant, planes })
    }

    /// The form on all lanes at once.
    pub fn evaluate(&self, values: &Vec<u128>, live: u128) -> (result: u128)
        requires
            self.in_range(),
            values@.len() == WIRE_PLANES,
        ensures
            forall|t: int|
                0 <= t < 128 ==> #[trigger] lane_bit(result, t) == ((self.constant && lane_bit(
                    live,
                    t,
                )) != lane_parity(self.planes@, values@, t)),
    {
        let mut result: u128 = if self.constant {
            live
        } else {
            0
        };
        proof {
            assert forall|t: int| 0 <= t < 128 implies #[trigger] lane_bit(0u128, t) == false by {
                lemma_lanes(0, 0, t as u128);
            }
        }
        let mut i: usize = 0;
        while i < self.planes.len()
            invariant
                self.in_range(),
                values@.len() == WIRE_PLANES,
                i <= self.planes@.len(),
                forall|t: int|
                    0 <= t < 128 ==> #[trigger] lane_bit(result, t) == ((self.constant && lane_bit(
                        live,
                        t,
                    )) != lane_parity(self.planes@.take(i as int), values@, t)),
            decreases self.planes@.len() - i,
        {
            let p: usize = self.planes[i];
            let ghost before = result;
            result = result ^ values[p];
            proof {
                assert(self.planes@.take(i + 1).drop_last() =~= self.planes@.take(i as int));
                assert forall|t: int| 0 <= t < 128 implies #[trigger] lane_bit(result, t) == ((
                self.constant && lane_bit(live, t)) != lane_parity(
                    self.planes@.take(i + 1),
                    values@,
                    t,
                )) by {
                    lemma_lanes(before, values@[p as int], t as u128);
                    assert(lane_bit(before, t) == ((self.constant && lane_bit(live, t))
                        != lane_parity(self.planes@.take(i as int), values@, t)));
                }
            }
            i = i + 1;
        }
        assert(self.planes@.take(i as int) =~= self.planes@);
        result
    }
}

proof fn lemma_lanes(a: u128, b: u128, t: u128)
    by (bit_vector)
    requires
        t < 128,
    ensures
        (((a ^ b) >> t) & 1 == 1) == (((a >> t) & 1 == 1) != ((b >> t) & 1 == 1)),
        (((a & b) >> t) & 1 == 1) == (((a >> t) & 1 == 1) && ((b >> t) & 1 == 1)),
        (0u128 >> t) & 1 == 0,
{
}

// ---------------------------------------------------------------------------
// The shape check.
// ---------------------------------------------------------------------------

/// The row is the first row moved up by `slot`, with the constant tap kept.
pub open spec fn shifted_row(row: Seq<usize>, first: Seq<usize>, slot: int) -> bool {
    &&& row.len() == first.len()
    &&& forall|i: int|
        0 <= i < row.len() ==> #[trigger] row[i] == (if first[i] == Z_CONST_POS {
            first[i] as int
        } else {
            first[i] + slot
        })
}

/// Whether the row is the first row moved up by `slot`.
pub fn same_shifted_row(row: &Vec<usize>, first: &Vec<usize>, slot: usize) -> (same: bool)
    requires
        columns_below(first@, K as int),
        slot < PLANE,
    ensures
        same == shifted_row(row@, first@, slot as int),
{
    if row.len() != first.len() {
        return false;
    }
    let mut i: usize = 0;
    while i < row.len()
        invariant
            columns_below(first@, K as int),
            slot < PLANE,
            row@.len() == first@.len(),
            i <= row@.len(),
            forall|k: int|
                0 <= k < i ==> #[trigger] row@[k] == (if first@[k] == Z_CONST_POS {
                    first@[k] as int
                } else {
                    first@[k] + slot
                }),
        decreases row@.len() - i,
    {
        let base: usize = first[i];
        let expected: usize = if base == Z_CONST_POS {
            base
        } else {
            base + slot
        };
        if row[i] != expected {
            return false;
        }
        i = i + 1;
    }
    true
}

/// The rows of a plane are one aligned row moved along the live slots, and
/// empty at the padded slots.
pub open spec fn uniform_plane(m: SparseBinaryMatrix, plane: int) -> bool {
    let first = m.row(wire_at(plane, 0));
    &&& aligned_row(first)
    &&& forall|slot: int|
        1 <= slot < SLOTS ==> #[trigger] shifted_row(m.row(wire_at(plane, slot)), first, slot)
    &&& forall|slot: int|
        SLOTS <= slot < PLANE ==> (#[trigger] m.row(wire_at(plane, slot))).len() == 0
}

/// The row of the counter bit before `slot`: empty at the first slot.
pub open spec fn previous_row(slot: int, bit: int) -> Seq<usize> {
    if slot == 0 {
        Seq::empty()
    } else {
        seq![wire_at(CNT + bit, slot - 1) as usize]
    }
}

/// The wire that is added into counter bit `bit` at `slot`.
pub open spec fn increment_wire(slot: int, bit: int) -> usize {
    if bit == 0 {
        wire_at(ACC as int, slot) as usize
    } else {
        wire_at(H + bit - 1, slot) as usize
    }
}

/// The write gate and counter rows of a slot are the increment by the accept flag;
/// at a padded slot they are empty.
pub open spec fn counter_rows_exact(
    a: SparseBinaryMatrix,
    b: SparseBinaryMatrix,
    slot: int,
) -> bool {
    if slot >= SLOTS {
        forall|p: int|
            #![trigger a.row(wire_at(p, slot))]
            #![trigger b.row(wire_at(p, slot))]
            H <= p < CNT + COUNTER_BITS ==> a.row(wire_at(p, slot)).len() == 0 && b.row(
                wire_at(p, slot),
            ).len() == 0
    } else {
        &&& a.row(wire_at(GATE as int, slot)) == seq![wire_at(ACC as int, slot) as usize]
        &&& b.row(wire_at(GATE as int, slot)) == seq![Z_CONST_POS] + previous_row(
            slot,
            COUNTER_BITS - 1,
        )
        &&& forall|bit: int|
            0 <= bit < COUNTER_BITS ==> #[trigger] counter_bit_exact(a, b, slot, bit)
    }
}

/// The two rows of a counter bit are the increment's.
pub open spec fn counter_bit_exact(
    a: SparseBinaryMatrix,
    b: SparseBinaryMatrix,
    slot: int,
    bit: int,
) -> bool {
    &&& a.row(wire_at(H + bit, slot)) == previous_row(slot, bit)
    &&& b.row(wire_at(H + bit, slot)) == seq![increment_wire(slot, bit)]
    &&& a.row(wire_at(CNT + bit, slot)) == seq![increment_wire(slot, bit)] + previous_row(slot, bit)
    &&& b.row(wire_at(CNT + bit, slot)) == seq![Z_CONST_POS]
}

/// The matrices have the shape that the bit-sliced execution relies on.
pub open spec fn specializable(a: SparseBinaryMatrix, b: SparseBinaryMatrix) -> bool {
    &&& a.rows@.len() == K
    &&& b.rows@.len() == K
    &&& forall|p: int| D <= p < H ==> #[trigger] uniform_plane(a, p) && uniform_plane(b, p)
    &&& forall|slot: int| 0 <= slot < PLANE ==> #[trigger] counter_rows_exact(a, b, slot)
}

/// One plane's product.
pub struct Product {
    pub plane: usize,
    pub a: Linear,
    pub b: Linear,
}

/// The products of the chain planes, in order.
pub struct Program {
    pub products: Vec<Product>,
}

impl Program {
    /// The program is the one of the matrices.
    pub open spec fn is_of(self, a: SparseBinaryMatrix, b: SparseBinaryMatrix) -> bool {
        &&& self.products@.len() == H - D
        &&& forall|i: int|
            0 <= i < self.products@.len() ==> {
                let product = #[trigger] self.products@[i];
                &&& product.plane == D + i
                &&& product.a.is_of(a.row(wire_at(D + i, 0)))
                &&& product.a.in_range()
                &&& product.b.is_of(b.row(wire_at(D + i, 0)))
                &&& product.b.in_range()
            }
    }
}


/// Whether the row is the given list.
fn row_is(row: &Vec<usize>, expected: &Vec<usize>) -> (same: bool)
    ensures
        same == (row@ == expected@),
{
    if row.len() != expected.len() {
        return false;
    }
    let mut i: usize = 0;
    while i < row.len()
        invariant
            row@.len() == expected@.len(),
            i <= row@.len(),
            row@.take(i as int) == expected@.take(i as int),
        decreases row@.len() - i,
    {
        if row[i] != expected[i] {
            return false;
        }
        assert(row@.take(i + 1) =~= row@.take(i as int).push(row@[i as int]));
        assert(expected@.take(i + 1) =~= expected@.take(i as int).push(expected@[i as int]));
        i = i + 1;
    }
    assert(row@.take(i as int) =~= row@);
    assert(expected@.take(i as int) =~= expected@);
    true
}

/// Check one plane of one matrix; the form of its rows where it is uniform.
fn plane_form(m: &SparseBinaryMatrix, plane: usize) -> (form: Option<Linear>)
    requires
        m.rows@.len() == K,
        plane < 128,
    ensures
        match form {
            None => !uniform_plane(*m, plane as int),
            Some(linear) => {
                &&& uniform_plane(*m, plane as int)
                &&& linear.is_of(m.row(wire_at(plane as int, 0)))
                &&& linear.in_range()
            },
        },
{
    let first: usize = pos(plane, 0);
    let linear = match Linear::from_row(&m.rows[first]) {
        None => {
            return None;
        },
        Some(linear) => linear,
    };
    let mut slot: usize = 1;
    while slot < SLOTS
        invariant
            m.rows@.len() == K,
            plane < 128,
            first == wire_at(plane as int, 0),
            1 <= slot <= SLOTS,
            aligned_row(m.row(first as int)),
            forall|s: int|
                1 <= s < slot ==> #[trigger] shifted_row(
                    m.row(wire_at(plane as int, s)),
                    m.row(first as int),
                    s,
                ),
        decreases SLOTS - slot,
    {
        let row: usize = pos(plane, slot);
        if !same_shifted_row(&m.rows[row], &m.rows[first], slot) {
            assert(!shifted_row(
                m.row(wire_at(plane as int, slot as int)),
                m.row(first as int),
                slot as int,
            ));
            return None;
        }
        slot = slot + 1;
    }
    while slot < PLANE
        invariant
            m.rows@.len() == K,
            plane < 128,
            SLOTS <= slot <= PLANE,
            forall|s: int|
                SLOTS <= s < slot ==> (#[trigger] m.row(wire_at(plane as int, s))).len() == 0,
        decreases PLANE - slot,
    {
        let row: usize = pos(plane, slot);
        if m.rows[row].len() != 0 {
            assert(m.row(wire_at(plane as int, slot as int)).len() != 0);
            return None;
        }
        slot = slot + 1;
    }
    Some(linear)
}

/// Check the write gate and counter rows of one slot.
fn counter_rows_check(a: &SparseBinaryMatrix, b: &SparseBinaryMatrix, slot: usize) -> (ok: bool)
    requires
        a.rows@.len() == K,
        b.rows@.len() == K,
        slot < PLANE,
    ensures
        ok == counter_rows_exact(*a, *b, slot as int),
{
    if slot >= SLOTS {
        let mut p: usize = H;
        while p < CNT + COUNTER_BITS
            invariant
                a.rows@.len() == K,
                b.rows@.len() == K,
                SLOTS <= slot < PLANE,
                H <= p <= CNT + COUNTER_BITS,
                forall|q: int|
                    #![trigger a.row(wire_at(q, slot as int))]
                    #![trigger b.row(wire_at(q, slot as int))]
                    H <= q < p ==> a.row(wire_at(q, slot as int)).len() == 0 && b.row(
                        wire_at(q, slot as int),
                    ).len() == 0,
            decreases CNT + COUNTER_BITS - p,
        {
            let w: usize = pos(p, slot);
            if a.rows[w].len() != 0 || b.rows[w].len() != 0 {
                assert(a.row(wire_at(p as int, slot as int)).len() != 0 || b.row(
                    wire_at(p as int, slot as int),
                ).len() != 0);
                return false;
            }
            p = p + 1;
        }
        return true;
    }
    let gate: usize = pos(GATE, slot);
    let acc: usize = pos(ACC, slot);
    let one = constant_one();
    let last = previous_form(slot, COUNTER_BITS - 1, Z_CONST_POS);
    if !row_is(&a.rows[gate], &wire(acc)) || !row_is(&b.rows[gate], &last) {
        return false;
    }
    let mut bit: usize = 0;
    while bit < COUNTER_BITS
        invariant
            a.rows@.len() == K,
            b.rows@.len() == K,
            slot < SLOTS,
            bit <= COUNTER_BITS,
            one@ == seq![Z_CONST_POS],
            forall|k: int|
                0 <= k < bit ==> #[trigger] counter_bit_exact(*a, *b, slot as int, k),
        decreases COUNTER_BITS - bit,
    {
        let input: usize = if bit == 0 {
            pos(ACC, slot)
        } else {
            pos(H + bit - 1, slot)
        };
        let h: usize = pos(H + bit, slot);
        let c: usize = pos(CNT + bit, slot);
        let both = previous_form(slot, bit, input);
        let mut previous: Vec<usize> = Vec::new();
        if slot > 0 {
            previous.push(pos(CNT + bit, slot - 1));
        }
        assert(previous@ =~= previous_row(slot as int, bit as int));
        let ok = row_is(&a.rows[h], &previous) && row_is(&b.rows[h], &wire(input)) && row_is(
            &a.rows[c],
            &both,
        ) && row_is(&b.rows[c], &one);
        assert(ok == counter_bit_exact(*a, *b, slot as int, bit as int));
        if !ok {
            return false;
        }
        bit = bit + 1;
    }
    true
}

/// The column `first`, then the counter bit before `slot`.
fn previous_form(slot: usize, bit: usize, first: usize) -> (form: Vec<usize>)
    requires
        slot < SLOTS,
        bit < COUNTER_BITS,
    ensures
        form@ == seq![first] + previous_row(slot as int, bit as int),
{
    let mut form: Vec<usize> = Vec::new();
    form.push(first);
    if slot > 0 {
        form.push(pos(CNT + bit, slot - 1));
    }
    assert(form@ =~= seq![first] + previous_row(slot as int, bit as int));
    form
}

impl Program {
    /// Specialize the matrices; nothing where their shape is not the one that
    /// the bit-sliced execution relies on.
    pub fn new(a: &SparseBinaryMatrix, b: &SparseBinaryMatrix) -> (program: Option<Program>)
        ensures
            match program {
                None => !specializable(*a, *b),
                Some(program) => specializable(*a, *b) && program.is_of(*a, *b),
            },
    {
        if a.rows.len() != K || b.rows.len() != K {
            return None;
        }
        let mut products: Vec<Product> = Vec::new();
        let mut plane: usize = D;
        while plane < H
            invariant
                a.rows@.len() == K,
                b.rows@.len() == K,
                D <= plane <= H,
                products@.len() == plane - D,
                forall|p: int|
                    D <= p < plane ==> #[trigger] uniform_plane(*a, p) && uniform_plane(*b, p),
                forall|i: int|
                    0 <= i < products@.len() ==> {
                        let product = #[trigger] products@[i];
                        &&& product.plane == D + i
                        &&& product.a.is_of(a.row(wire_at(D + i, 0)))
                        &&& product.a.in_range()
                        &&& product.b.is_of(b.row(wire_at(D + i, 0)))
                        &&& product.b.in_range()
                    },
            decreases H - plane,
        {
            let left = match plane_form(a, plane) {
                None => {
                    assert(!uniform_plane(*a, plane as int));
                    return None;
                },
                Some(linear) => linear,
            };
            let right = match plane_form(b, plane) {
                None => {
                    assert(uniform_plane(*a, plane as int) && !uniform_plane(*b, plane as int));
                    return None;
                },
                Some(linear) => linear,
            };
            products.push(Product { plane, a: left, b: right });
            assert forall|p: int| D <= p < plane + 1 implies #[trigger] uniform_plane(*a, p)
                && uniform_plane(*b, p) by {
                if p == plane {
                    assert(uniform_plane(*a, plane as int));
                    assert(uniform_plane(*b, plane as int));
                }
            }
            plane = plane + 1;
        }
        let mut slot: usize = 0;
        while slot < PLANE
            invariant
                a.rows@.len() == K,
                b.rows@.len() == K,
                slot <= PLANE,
                forall|s: int| 0 <= s < slot ==> #[trigger] counter_rows_exact(*a, *b, s),
            decreases PLANE - slot,
        {
            if !counter_rows_check(a, b, slot) {
                return None;
            }
            slot = slot + 1;
        }
        Some(Program { products })
    }
}


// ---------------------------------------------------------------------------
// The slot matrices have the shape.
// ---------------------------------------------------------------------------

/// The assignment with one wire set.
spec fn unit(c: int) -> Seq<bool> {
    Seq::new(K as nat, |w: int| w == c)
}

/// The assignment with no wire set.
spec fn blank() -> Seq<bool> {
    Seq::new(K as nat, |w: int| false)
}

proof fn lemma_blank_eval(row: Seq<usize>)
    requires
        columns_below(row, K as int),
    ensures
        !lin_eval(row, blank()),
    decreases row.len(),
{
    if row.len() > 0 {
        assert(row[row.len() - 1] == row.last());
        lemma_blank_eval(row.drop_last());
    }
}

/// A sorted row taps a column exactly when it is sensitive to it.
proof fn lemma_unit_eval(row: Seq<usize>, c: usize)
    requires
        is_form(row),
    ensures
        lin_eval(row, unit(c as int)) == row.contains(c),
    decreases row.len(),
{
    if row.len() > 0 {
        let rest = row.drop_last();
        assert(row[row.len() - 1] == row.last());
        lemma_unit_eval(rest, c);
        if rest.contains(c) {
            let i = choose|i: int| 0 <= i < rest.len() && rest[i] == c;
            assert(row[i] == c);
        }
        if row.contains(c) && row.last() != c {
            let i = choose|i: int| 0 <= i < row.len() && row[i] == c;
            assert(rest[i] == c);
        }
    }
}

/// Sorted rows with the same columns are equal.
proof fn lemma_sorted_unique(s: Seq<usize>, t: Seq<usize>)
    requires
        strictly_sorted(s),
        strictly_sorted(t),
        forall|c: usize| s.contains(c) == t.contains(c),
    ensures
        s == t,
    decreases s.len(),
{
    if s.len() == 0 {
        if t.len() > 0 {
            assert(t.contains(t[0]));
        }
        assert(s =~= t);
    } else {
        assert(s.contains(s.last())) by {
            assert(s[s.len() - 1] == s.last());
        }
        let i = choose|i: int| 0 <= i < t.len() && t[i] == s.last();
        assert(t.contains(t.last())) by {
            assert(t[t.len() - 1] == t.last());
        }
        let j = choose|j: int| 0 <= j < s.len() && s[j] == t.last();
        assert(s.last() == t.last());
        let (s1, t1) = (s.drop_last(), t.drop_last());
        assert forall|c: usize| s1.contains(c) == t1.contains(c) by {
            if s1.contains(c) {
                let k = choose|k: int| 0 <= k < s1.len() && s1[k] == c;
                assert(s[k] == c);
                assert(s.contains(c));
                let m = choose|m: int| 0 <= m < t.len() && t[m] == c;
                assert(t1[m] == c);
            }
            if t1.contains(c) {
                let k = choose|k: int| 0 <= k < t1.len() && t1[k] == c;
                assert(t[k] == c);
                assert(t.contains(c));
                let m = choose|m: int| 0 <= m < s.len() && s[m] == c;
                assert(s1[m] == c);
            }
        }
        lemma_sorted_unique(s1, t1);
        assert(s =~= s1.push(s.last()));
        assert(t =~= t1.push(t.last()));
    }
}

/// Chain rows look the same at every live slot.
proof fn lemma_chain_row_shape(y: Seq<bool>, s: int, z: Seq<bool>, t: int, p: int)
    requires
        D <= p < H,
        0 <= s < SLOTS,
        0 <= t < SLOTS,
        agree_slots(y, s, z, t, H - 1),
    ensures
        row_left(y, wire_at(p, s)) == row_left(z, wire_at(p, t)),
        row_right(y, wire_at(p, s)) == row_right(z, wire_at(p, t)),
{
    if p < PIN_RANGE {
        lemma_row_slot_local(y, s, z, t, p);
    } else {
        assert(value(y, p, s) == value(z, p, t));
        lemma_pin_slot_local(y, s, z, t, p);
    }
}

/// The rows of one matrix of the slot relation.
spec fn matrix_of(m: SparseBinaryMatrix, f: spec_fn(Seq<bool>, int) -> bool) -> bool {
    &&& forall|w: int| 0 <= w < K ==> is_form(#[trigger] m.row(w))
    &&& forall|w: int, z: Seq<bool>| 0 <= w < K ==> #[trigger] lin_eval(m.row(w), z) == f(z, w)
}

/// A factor that reads chain rows alike at every live slot, and nothing at
/// padded slots.
spec fn slot_uniform(f: spec_fn(Seq<bool>, int) -> bool) -> bool {
    &&& forall|y: Seq<bool>, s: int, z: Seq<bool>, t: int, p: int|
        D <= p < H && 0 <= s < SLOTS && 0 <= t < SLOTS && agree_slots(y, s, z, t, H - 1)
            ==> #[trigger] f(y, wire_at(p, s)) == #[trigger] f(z, wire_at(p, t))
    &&& forall|z: Seq<bool>, p: int, s: int|
        D <= p < CNT + COUNTER_BITS && SLOTS <= s < PLANE ==> !(#[trigger] f(z, wire_at(p, s)))
}

/// A chain row taps only the constant wire and wires of its own slot.
proof fn lemma_chain_column(
    m: SparseBinaryMatrix,
    f: spec_fn(Seq<bool>, int) -> bool,
    p: int,
    s: int,
    c: usize,
)
    requires
        matrix_of(m, f),
        slot_uniform(f),
        D <= p < H,
        0 <= s < SLOTS,
        m.row(wire_at(p, s)).contains(c),
    ensures
        c < K,
        c == 0 || (c as int % PLANE as int == s && c >= PLANE),
        f(unit(c as int), wire_at(p, s)),
{
    let row = m.row(wire_at(p, s));
    assert(is_form(row));
    let i = choose|i: int| 0 <= i < row.len() && row[i] == c;
    assert(row[i] < K);
    lemma_unit_eval(row, c);
    assert(lin_eval(row, unit(c as int)) == f(unit(c as int), wire_at(p, s)));
    if !(c == 0 || (c as int % PLANE as int == s && c >= PLANE)) {
        assert(agree_slots(unit(c as int), s, blank(), s, H - 1)) by {
            assert forall|q: int| 0 < q <= H - 1 implies #[trigger] value(unit(c as int), q, s)
                == value(blank(), q, s) by {
                assert(wire_at(q, s) % PLANE as int == s);
            }
        }
        assert(f(unit(c as int), wire_at(p, s)) == f(blank(), wire_at(p, s)));
        lemma_blank_eval(row);
        assert(lin_eval(row, blank()) == f(blank(), wire_at(p, s)));
    }
}

/// The column `c` of slot zero, moved up by `slot`.
spec fn moved(c: usize, slot: int) -> usize {
    if c == Z_CONST_POS {
        c
    } else {
        (c + slot) as usize
    }
}

/// The factor is as sensitive to a column at slot zero as to the moved column.
proof fn lemma_moved_unit(f: spec_fn(Seq<bool>, int) -> bool, p: int, slot: int, c: usize)
    requires
        slot_uniform(f),
        D <= p < H,
        0 <= slot < SLOTS,
        c < K,
        c as int % PLANE as int == 0,
    ensures
        f(unit(c as int), wire_at(p, 0)) == f(unit(moved(c, slot) as int), wire_at(p, slot)),
{
    let d = moved(c, slot) as int;
    assert(agree_slots(unit(c as int), 0, unit(d), slot, H - 1)) by {
        assert forall|q: int| 0 < q <= H - 1 implies #[trigger] value(unit(c as int), q, 0) == value(
            unit(d),
            q,
            slot,
        ) by {
            assert(wire_at(q, slot) == wire_at(q, 0) + slot);
        }
    }
}

proof fn lemma_plane_uniform(m: SparseBinaryMatrix, f: spec_fn(Seq<bool>, int) -> bool, p: int)
    requires
        matrix_of(m, f),
        slot_uniform(f),
        D <= p < H,
    ensures
        uniform_plane(m, p),
{
    let first = m.row(wire_at(p, 0));
    assert(is_form(first));
    assert forall|i: int| 0 <= i < first.len() implies (#[trigger] first[i]) < K && first[i] as int
        % PLANE as int == 0 by {
        assert(first.contains(first[i]));
        lemma_chain_column(m, f, p, 0, first[i]);
    }
    assert forall|slot: int| 1 <= slot < SLOTS implies #[trigger] shifted_row(
        m.row(wire_at(p, slot)),
        first,
        slot,
    ) by {
        let row = m.row(wire_at(p, slot));
        assert(is_form(row));
        let up = Seq::new(first.len(), |i: int| moved(first[i], slot));
        assert(strictly_sorted(up)) by {
            assert forall|i: int, j: int| 0 <= i < j < up.len() implies up[i] < up[j] by {
                assert(first[i] < first[j]);
                assert(first[i] < K && first[j] < K);
            }
        }
        assert forall|c: usize| up.contains(c) == row.contains(c) by {
            if up.contains(c) {
                let i = choose|i: int| 0 <= i < up.len() && up[i] == c;
                assert(first.contains(first[i]));
                lemma_chain_column(m, f, p, 0, first[i]);
                lemma_moved_unit(f, p, slot, first[i]);
                assert(first[i] as int <= K - PLANE);
                lemma_unit_eval(row, c);
                assert(lin_eval(row, unit(c as int)) == f(unit(c as int), wire_at(p, slot)));
            }
            if row.contains(c) {
                lemma_chain_column(m, f, p, slot, c);
                let d: usize = if c == 0 {
                    0
                } else {
                    (c - slot) as usize
                };
                lemma_moved_unit(f, p, slot, d);
                lemma_unit_eval(first, d);
                assert(lin_eval(first, unit(d as int)) == f(unit(d as int), wire_at(p, 0)));
                let i = choose|i: int| 0 <= i < first.len() && first[i] == d;
                assert(up[i] == c);
            }
        }
        lemma_sorted_unique(up, row);
    }
    assert forall|slot: int| SLOTS <= slot < PLANE implies (#[trigger] m.row(wire_at(p, slot))).len()
        == 0 by {
        lemma_row_empty(m, f, wire_at(p, slot));
    }
}

/// A row that never fires is empty.
proof fn lemma_row_empty(m: SparseBinaryMatrix, f: spec_fn(Seq<bool>, int) -> bool, w: int)
    requires
        matrix_of(m, f),
        0 <= w < K,
        forall|z: Seq<bool>| !(#[trigger] f(z, w)),
    ensures
        m.row(w).len() == 0,
{
    let row = m.row(w);
    assert(is_form(row));
    if row.len() > 0 {
        let c = row[0];
        assert(row.contains(c));
        lemma_unit_eval(row, c);
        assert(lin_eval(row, unit(c as int)) == f(unit(c as int), w));
    }
}

/// A row is the sorted list of the columns that it is sensitive to.
proof fn lemma_row_is(
    m: SparseBinaryMatrix,
    f: spec_fn(Seq<bool>, int) -> bool,
    w: int,
    expected: Seq<usize>,
)
    requires
        matrix_of(m, f),
        0 <= w < K,
        strictly_sorted(expected),
        columns_below(expected, K as int),
        forall|c: usize| c < K ==> expected.contains(c) == #[trigger] f(unit(c as int), w),
    ensures
        m.row(w) == expected,
{
    let row = m.row(w);
    assert(is_form(row));
    assert forall|c: usize| row.contains(c) == expected.contains(c) by {
        lemma_unit_eval(row, c);
        assert(lin_eval(row, unit(c as int)) == f(unit(c as int), w));
        if row.contains(c) {
            let i = choose|i: int| 0 <= i < row.len() && row[i] == c;
            assert(row[i] < K);
        }
        if expected.contains(c) {
            let i = choose|i: int| 0 <= i < expected.len() && expected[i] == c;
            assert(expected[i] < K);
        }
    }
    lemma_sorted_unique(row, expected);
}

proof fn lemma_counter_rows_exact(a: SparseBinaryMatrix, b: SparseBinaryMatrix, slot: int)
    requires
        slot_matrices(a, b),
        0 <= slot < PLANE,
    ensures
        counter_rows_exact(a, b, slot),
{
    let fa = |z: Seq<bool>, w: int| row_left(z, w);
    let fb = |z: Seq<bool>, w: int| row_right(z, w);
    assert(matrix_of(a, fa));
    assert(matrix_of(b, fb));
    if slot >= SLOTS {
        assert forall|p: int| H <= p < CNT + COUNTER_BITS implies #[trigger] a.row(
            wire_at(p, slot),
        ).len() == 0 && b.row(wire_at(p, slot)).len() == 0 by {
            let w = wire_at(p, slot);
            assert(w / PLANE as int == p && w % PLANE as int == slot);
            lemma_row_empty(a, fa, w);
            lemma_row_empty(b, fb, w);
        }
        assert forall|p: int| H <= p < CNT + COUNTER_BITS implies #[trigger] b.row(
            wire_at(p, slot),
        ).len() == 0 by {
            let w = wire_at(p, slot);
            assert(a.row(w).len() == 0);
        }
    } else {
        let w = wire_at(GATE as int, slot);
        assert(w / PLANE as int == GATE && w % PLANE as int == slot);
        let acc = seq![wire_at(ACC as int, slot) as usize];
        assert forall|c: usize| c < K implies acc.contains(c) == #[trigger] fa(unit(c as int), w) by {
            lemma_one_contains(wire_at(ACC as int, slot) as usize, c);
        }
        lemma_row_is(a, fa, w, acc);
        let last = seq![Z_CONST_POS] + previous_row(slot, COUNTER_BITS - 1);
        assert forall|c: usize| c < K implies last.contains(c) == #[trigger] fb(unit(c as int), w) by {
            lemma_with_previous(Z_CONST_POS, slot, COUNTER_BITS - 1, c);
        }
        lemma_row_is(b, fb, w, last);
        assert forall|bit: int| 0 <= bit < COUNTER_BITS implies #[trigger] counter_bit_exact(
            a,
            b,
            slot,
            bit,
        ) by {
            let h = wire_at(H + bit, slot);
            let n = wire_at(CNT + bit, slot);
            assert(h / PLANE as int == H + bit && h % PLANE as int == slot);
            assert(n / PLANE as int == CNT + bit && n % PLANE as int == slot);
            let input = increment_wire(slot, bit);
            let previous = previous_row(slot, bit);
            assert forall|c: usize| c < K implies previous.contains(c) == #[trigger] fa(
                unit(c as int),
                h,
            ) by {
                if slot > 0 {
                    lemma_one_contains(wire_at(CNT + bit, slot - 1) as usize, c);
                }
            }
            lemma_row_is(a, fa, h, previous);
            let one = seq![input];
            assert forall|c: usize| c < K implies one.contains(c) == #[trigger] fb(unit(c as int), h) by {
                lemma_one_contains(input, c);
            }
            lemma_row_is(b, fb, h, one);
            let both = seq![input] + previous;
            assert forall|c: usize| c < K implies both.contains(c) == #[trigger] fa(unit(c as int), n) by {
                lemma_with_previous(input, slot, bit, c);
            }
            lemma_row_is(a, fa, n, both);
            let constant = seq![Z_CONST_POS];
            assert forall|c: usize| c < K implies constant.contains(c) == #[trigger] fb(
                unit(c as int),
                n,
            ) by {
                lemma_one_contains(Z_CONST_POS, c);
            }
            lemma_row_is(b, fb, n, constant);
        }
    }
}

proof fn lemma_one_contains(v: usize, c: usize)
    ensures
        seq![v].contains(c) == (v == c),
{
    assert(seq![v][0] == v);
}

proof fn lemma_with_previous(v: usize, slot: int, bit: int, c: usize)
    requires
        0 <= slot < SLOTS,
        0 <= bit < COUNTER_BITS,
    ensures
        (seq![v] + previous_row(slot, bit)).contains(c) == (v == c || (slot > 0 && c == wire_at(
            CNT + bit,
            slot - 1,
        ))),
{
    let s = seq![v] + previous_row(slot, bit);
    assert(s[0] == v);
    if slot > 0 {
        assert(s[1] == wire_at(CNT + bit, slot - 1));
    }
}

/// The matrices of the slot relation always specialize.
pub proof fn slot_matrices_specialize(a: SparseBinaryMatrix, b: SparseBinaryMatrix)
    requires
        slot_matrices(a, b),
    ensures
        specializable(a, b),
{
    let fa = |z: Seq<bool>, w: int| row_left(z, w);
    let fb = |z: Seq<bool>, w: int| row_right(z, w);
    assert(matrix_of(a, fa));
    assert(matrix_of(b, fb));
    assert(slot_uniform(fa)) by {
        assert forall|y: Seq<bool>, s: int, z: Seq<bool>, t: int, p: int|
            D <= p < H && 0 <= s < SLOTS && 0 <= t < SLOTS && agree_slots(
                y,
                s,
                z,
                t,
                H - 1,
            ) implies #[trigger] fa(y, wire_at(p, s)) == #[trigger] fa(z, wire_at(p, t)) by {
            lemma_chain_row_shape(y, s, z, t, p);
        }
        assert forall|z: Seq<bool>, p: int, s: int|
            D <= p < CNT + COUNTER_BITS && SLOTS <= s < PLANE implies !(#[trigger] fa(
            z,
            wire_at(p, s),
        )) by {
            assert(wire_at(p, s) / PLANE as int == p && wire_at(p, s) % PLANE as int == s);
        }
    }
    assert(slot_uniform(fb)) by {
        assert forall|y: Seq<bool>, s: int, z: Seq<bool>, t: int, p: int|
            D <= p < H && 0 <= s < SLOTS && 0 <= t < SLOTS && agree_slots(
                y,
                s,
                z,
                t,
                H - 1,
            ) implies #[trigger] fb(y, wire_at(p, s)) == #[trigger] fb(z, wire_at(p, t)) by {
            lemma_chain_row_shape(y, s, z, t, p);
        }
        assert forall|z: Seq<bool>, p: int, s: int|
            D <= p < CNT + COUNTER_BITS && SLOTS <= s < PLANE implies !(#[trigger] fb(
            z,
            wire_at(p, s),
        )) by {
            assert(wire_at(p, s) / PLANE as int == p && wire_at(p, s) % PLANE as int == s);
        }
    }
    assert forall|p: int| D <= p < H implies #[trigger] uniform_plane(a, p) && uniform_plane(b, p) by {
        lemma_plane_uniform(a, fa, p);
        lemma_plane_uniform(b, fb, p);
    }
    assert forall|slot: int| 0 <= slot < PLANE implies #[trigger] counter_rows_exact(a, b, slot) by {
        lemma_counter_rows_exact(a, b, slot);
    }
}

} // verus!
