//! The rows of the compact witness.
use vstd::arithmetic::power2::{lemma2_to64, lemma_pow2_adds, lemma_pow2_pos, pow2};
use vstd::prelude::*;

use crate::field::F128;
use crate::hash_to_point_hybrid::assembly::{
    completed, completes, record_bits, record_limb, record_limbs_are_places, row_image, word_cell,
    Witness,
};
use crate::hash_to_point_hybrid::direct::{
    cell_owner, holds_sponges, permutation_cell, records_fit, sponge_cell, squeezed, state_bit,
    Side,
};
use crate::hash_to_point_hybrid::layout::{record_place, swapped, word_place, CONST, STATES, TARGET};
use crate::hash_to_point_hybrid::relocation::holds_record;
use crate::hash_to_point_slots::matrices::{is_form, slot_matrices};
use crate::hash_to_point_slots::relation::{
    bits_value, carry, input_wire, lemma_bits_value_range, nat_bit, row_left, row_right,
    slot_row_holds, value, wire_at, word_value,
};
use crate::hash_to_point_slots::witness::is_block_witness;
use crate::hash_to_point_slots::K;
use crate::hash_to_point_sponge::{
    lemma_value_bits, logical, squeeze_state, state_byte, state_word, trace_squeezes, trace_state,
    SpongeRecord,
};
use crate::keccak::permutation;
use crate::packed_bits::{packed_bit, unpacked};
use crate::r1cs::{lin_eval, SparseBinaryMatrix};

verus! {

/// Every row of the sponge holds: the product of its factors is its value.
pub proof fn sponge_rows_hold(frame: Seq<u8>, q: int)
    requires
        0 <= q < 524288,
    ensures
        (sponge_cell(frame, Side::Left, q) && sponge_cell(frame, Side::Right, q)) == sponge_cell(
            frame,
            Side::Value,
            q,
        ),
{
    let e = cell_owner(q);
    let s = trace_state(frame, e);
    assert(permutation_cell(s, e, Side::Left, q) is Some == permutation_cell(
        s,
        e,
        Side::Value,
        q,
    ) is Some);
}

/// Bit `b` of big-endian word `w` of a state.
pub proof fn lemma_word_bit(s: Seq<bool>, w: int, b: int)
    requires
        0 <= b < 16,
    ensures
        nat_bit(state_word(s, w), b) == s[logical(16 * w + swapped(b))],
{
    lemma2_to64();
    let high = |t: int| s[logical(8 * (2 * w) + t)];
    let low = |t: int| s[logical(8 * (2 * w + 1) + t)];
    let (hi, lo) = (state_byte(s, 2 * w), state_byte(s, 2 * w + 1));
    assert(hi == bits_value(high, 8)) by {
        crate::hash_to_point_slots::relation::lemma_bits_value_congr(
            |t: int| s[logical(8 * (2 * w) + t)],
            high,
            8,
        );
    }
    assert(lo == bits_value(low, 8)) by {
        crate::hash_to_point_slots::relation::lemma_bits_value_congr(
            |t: int| s[logical(8 * (2 * w + 1) + t)],
            low,
            8,
        );
    }
    lemma_bits_value_range(high, 8);
    lemma_bits_value_range(low, 8);
    let v = state_word(s, w);
    if b < 8 {
        lemma_value_bits(low, 8, b);
        crate::hash_to_point_sponge::chaining::lemma_add_multiple(hi, lo, 8, b);
        assert(hi * pow2(8) == 256 * hi) by (nonlinear_arith)
            requires
                pow2(8) == 256,
        ;
        assert(8 * (2 * w + 1) + b == 16 * w + swapped(b));
    } else {
        lemma_value_bits(high, 8, b - 8);
        lemma_pow2_adds(8, (b - 8) as nat);
        lemma_pow2_pos((b - 8) as nat);
        assert(v / 256 == hi);
        vstd::arithmetic::div_mod::lemma_div_denominator(v, 256, pow2((b - 8) as nat) as int);
        assert(8 * (2 * w) + (b - 8) == 16 * w + swapped(b));
    }
}

/// The cell that a candidate word's bit copies holds a bit of the squeezed
/// state.
proof fn lemma_copied_cell(frame: Seq<u8>, q: int, w: int, b: int)
    requires
        136 <= frame.len() < 272,
        0 <= q < 9,
        0 <= w < 68,
        0 <= b < 16,
    ensures
        sponge_cell(frame, Side::Value, word_place(68 * q + w, b)) == squeeze_state(
            frame,
            q,
        )[logical(16 * w + swapped(b))],
{
    let slot = 68 * q + w;
    assert(slot / 68 == q && slot % 68 == w);
    let e = q + 1;
    let c = word_place(slot, b);
    let at = 16 * w + swapped(b);
    assert(c == STATES + (2 * e + 1) * 2048 + at);
    assert(0 <= at < 1088);
    assert((c - STATES) / 2048 == 2 * e + 1);
    assert(cell_owner(c) == e);
    trace_squeezes(frame, q);
    let s = trace_state(frame, e);
    assert(permutation_cell(s, e, Side::Value, c) == Some(
        state_bit(permutation(s), Side::Value, logical(at)),
    ));
}

/// A candidate word's bit is the state bit that it copies.
proof fn lemma_copied_bit(frame: Seq<u8>, words: Seq<u16>, z: Seq<bool>, slot: int, b: int)
    requires
        136 <= frame.len() < 272,
        squeezed(words, frame),
        word_value(z, slot) == words[slot],
        0 <= slot < 612,
        0 <= b < 16,
    ensures
        z[(1 + b) * 1024 + slot] == sponge_cell(frame, Side::Value, word_place(slot, b)),
{
    let (q, w) = (slot / 68, slot % 68);
    assert(slot == 68 * q + w);
    assert(words[68 * q + w] == state_word(squeeze_state(frame, q), w));
    let bits = |t: int| value(z, 1 + t, slot);
    crate::hash_to_point_slots::relation::lemma_bits_value_congr(
        |t: int| value(z, crate::hash_to_point_slots::X + t, slot),
        bits,
        16,
    );
    assert(bits_value(bits, 16) == words[slot]);
    lemma_value_bits(bits, 16, b);
    assert(z[(1 + b) * 1024 + slot] == bits(b));
    lemma_word_bit(squeeze_state(frame, q), w, b);
    lemma_copied_cell(frame, q, w, b);
}

/// The compact witness of honest records satisfies every row: the sponge's
/// rows, the slot rows, and the copy rows that make the candidate words the
/// sponge's stream.
pub proof fn honest_rows_hold(
    w: Witness,
    rest: Witness,
    record: Seq<F128>,
    a: SparseBinaryMatrix,
    b: SparseBinaryMatrix,
    inputs: Seq<SpongeRecord>,
    words: spec_fn(int) -> Seq<u16>,
    x: int,
)
    requires
        slot_matrices(a, b),
        records_fit(inputs),
        holds_sponges(rest, inputs),
        completes(
            w,
            record,
            a,
            b,
            |x: int| packed_bit(rest.z@, x),
            |x: int| packed_bit(rest.a@, x),
            |x: int| packed_bit(rest.b@, x),
            inputs.len() as int,
        ),
        forall|rec: int|
            0 <= rec < inputs.len() ==> is_block_witness(
                #[trigger] record_bits(record, rec),
                words(rec),
            ) && squeezed(words(rec), inputs[rec].frame()),
        0 <= x < inputs.len() * 524288,
    ensures
        (packed_bit(w.a@, x) && packed_bit(w.b@, x)) == packed_bit(w.z@, x),
{
    let n = inputs.len() as int;
    let (rec, q) = (x / 524288, x % 524288);
    let frame = inputs[rec].frame();
    let z = record_bits(record, rec);
    assert(0 <= rec < n);
    assert(inputs[rec].fits());
    assert(is_block_witness(z, words(rec)));
    assert(packed_bit(w.z@, x) == completed(
        |rec: int, i: int| packed_bit(record, rec * 131072 + i),
        packed_bit(rest.z@, x),
        x,
    ));
    assert(packed_bit(w.b@, x) == completed(
        |rec: int, i: int| row_image(b, record, rec, i),
        packed_bit(rest.b@, x),
        x,
    ));
    match record_limb(q - q % 64) {
        None => {
            assert(word_cell(q) is None);
            sponge_rows_hold(frame, q);
            assert(packed_bit(rest.z@, x) == sponge_cell(frame, Side::Value, q));
            assert(packed_bit(rest.a@, x) == sponge_cell(frame, Side::Left, q));
            assert(packed_bit(rest.b@, x) == sponge_cell(frame, Side::Right, q));
        },
        Some(o) => {
            lemma_limb_range(q);
            let i = o + q % 64;
            assert(z[i] == packed_bit(record, rec * 131072 + i));
            assert(slot_row_holds(z, i));
            assert(lin_eval(b.row(i), z) == row_right(z, i));
            match word_cell(q) {
                None => {
                    assert(lin_eval(a.row(i), z) == row_left(z, i));
                },
                Some(c) => {
                    let (plane, slot) = (i / 1024, i % 1024);
                    assert(c == word_place(slot, plane - 1));
                    assert(word_value(z, slot) == words(rec)[slot]);
                    lemma_copied_bit(frame, words(rec), z, slot, plane - 1);
                    assert(i == 1024 * plane + slot);
                    assert(input_wire(i));
                    lemma_word_cell_free(slot, plane - 1);
                    let y = rec * 524288 + c;
                    assert(y / 524288 == rec && y % 524288 == c);
                    assert(0 <= y < n * 524288);
                    assert(packed_bit(w.z@, y) == completed(
                        |rec: int, i: int| packed_bit(record, rec * 131072 + i),
                        packed_bit(rest.z@, y),
                        y,
                    ));
                    assert(packed_bit(rest.z@, y) == sponge_cell(frame, Side::Value, c));
                },
            }
        },
    }
}

/// A slot limb lies in the slot domain.
proof fn lemma_limb_range(q: int)
    requires
        0 <= q < 524288,
    ensures
        match record_limb(q - q % 64) {
            Some(o) => 0 <= o && o + q % 64 < 131072,
            None => true,
        },
{
    crate::hash_to_point_hybrid::assembly::lemma_record_limb(q - q % 64);
}

/// A copied state cell is no slot wire's place.
proof fn lemma_word_cell_free(slot: int, bit: int)
    requires
        0 <= slot < 612,
        0 <= bit < 16,
    ensures
        STATES <= word_place(slot, bit) < 524288,
        record_limb(word_place(slot, bit) - word_place(slot, bit) % 64) is None,
{
    reveal(record_limb);
    let c = word_place(slot, bit);
    assert(c - c % 64 >= STATES) by {
        assert(STATES % 64 == 0);
    }
}

/// Where the copy row of a candidate word's bit holds, with the constant set,
/// the bit is the state bit that it copies.
pub proof fn copy_rows_bind_words(
    w: Witness,
    record: Seq<F128>,
    a: SparseBinaryMatrix,
    b: SparseBinaryMatrix,
    z_rest: spec_fn(int) -> bool,
    a_rest: spec_fn(int) -> bool,
    b_rest: spec_fn(int) -> bool,
    records: int,
    x: int,
)
    requires
        slot_matrices(a, b),
        completes(w, record, a, b, z_rest, a_rest, b_rest, records),
        0 <= x < records * 524288,
        word_cell(x % 524288) is Some,
        packed_bit(record, (x / 524288) * 131072),
        (packed_bit(w.a@, x) && packed_bit(w.b@, x)) == packed_bit(w.z@, x),
    ensures
        packed_bit(w.z@, x) == packed_bit(
            w.z@,
            (x / 524288) * 524288 + word_cell(x % 524288).unwrap(),
        ),
{
    let (rec, q) = (x / 524288, x % 524288);
    let z = record_bits(record, rec);
    let o = record_limb(q - q % 64).unwrap();
    let i = o + q % 64;
    lemma_limb_range(q);
    assert(packed_bit(w.b@, x) == completed(
        |rec: int, i: int| row_image(b, record, rec, i),
        b_rest(x),
        x,
    ));
    assert(lin_eval(b.row(i), z) == row_right(z, i));
    assert(input_wire(i));
    assert(z[0] == packed_bit(record, rec * 131072 + 0));
}

/// A limb of slot wires stands together.
#[verifier::spinoff_prover]
#[verifier::rlimit(50)]
proof fn lemma_limb_place(o: int)
    requires
        64 <= o < 131072,
        record_place(o) is Some,
    ensures
        ({
            let p = record_place(o).unwrap();
            &&& 0 <= p < 524288
            &&& p % 64 == o % 64
            &&& record_limb(p - p % 64) == Some(o - o % 64)
        }),
{
    let p = record_place(o).unwrap();
    let (plane, slot) = (o / 1024, o % 1024);
    let start = slot - slot % 64;
    let limb = o - o % 64;
    assert(o == 1024 * plane + slot);
    assert(o % 64 == slot % 64);
    vstd::arithmetic::div_mod::lemma_fundamental_div_mod_converse(limb, 1024, plane, start);
    if plane < 112 && slot < 512 {
        assert(p == (slot / 256) * 32768 + plane * 256 + slot % 256);
        assert(start / 256 == slot / 256);
        assert(start % 256 == slot % 256 - slot % 64);
        assert(p % 64 == slot % 64);
    } else if plane < 112 {
        assert(p == 65536 + plane * 128 + (slot - 512));
        assert(start >= 512);
        assert(p % 64 == slot % 64);
    } else {
        assert(p == TARGET + (plane - 112) * 1024 + slot);
        assert(p % 64 == slot % 64);
    }
    assert(record_place(limb) == Some(p - p % 64));
    record_limbs_are_places(limb, p - p % 64);
}

/// A completed witness holds the slot wires, where the omitted wires and those
/// beside the constant are zero; so its fragments reconstruct their openings.
pub proof fn completed_holds_record(
    w: Witness,
    record: Seq<F128>,
    a: SparseBinaryMatrix,
    b: SparseBinaryMatrix,
    z_rest: spec_fn(int) -> bool,
    a_rest: spec_fn(int) -> bool,
    b_rest: spec_fn(int) -> bool,
    records: int,
)
    requires
        0 <= records,
        completes(w, record, a, b, z_rest, a_rest, b_rest, records),
        record.len() == records * 1024,
        forall|x: int|
            0 <= x < records * 524288 && x % 524288 < 64 ==> !(#[trigger] z_rest(x)),
        forall|rec: int, o: int|
            0 <= rec < records && 0 <= o < 131072 && (record_place(o) is None || 1 <= o < 64)
                ==> !(#[trigger] packed_bit(record, rec * 131072 + o)),
    ensures
        holds_record(unpacked(w.z@), unpacked(record), records),
{
    let compact = unpacked(w.z@);
    let wires = unpacked(record);
    let image = |rec: int, i: int| packed_bit(record, rec * 131072 + i);
    assert forall|rec: int| 0 <= rec < records implies !(#[trigger] compact[rec * 524288]) by {
        let x = rec * 524288;
        assert(x / 524288 == rec && x % 524288 == 0);
        assert(record_limb(0) is None) by {
            reveal(record_limb);
        }
        assert(packed_bit(w.z@, x) == completed(image, z_rest(x), x));
    }
    assert forall|rec: int, o: int| 0 <= rec < records && 0 <= o < 131072 implies match record_place(
        o,
    ) {
        Some(p) => compact[rec * 524288 + p] == #[trigger] wires[rec * 131072 + o],
        None => !wires[rec * 131072 + o],
    } by {
        assert(wires[rec * 131072 + o] == packed_bit(record, rec * 131072 + o));
        match record_place(o) {
            None => {},
            Some(p) => {
                let x = rec * 524288 + p;
                assert(0 <= p < 524288);
                assert(x / 524288 == rec && x % 524288 == p);
                assert(compact[x] == packed_bit(w.z@, x));
                assert(packed_bit(w.z@, x) == completed(image, z_rest(x), x));
                if o == 0 {
                    assert(record_limb(CONST as int) == Some(0int)) by {
                        reveal(record_limb);
                    }
                    assert(p - p % 64 == CONST);
                } else if o < 64 {
                    assert(p == o) by {
                        assert(o / 1024 == 0 && o % 1024 == o);
                    }
                    assert(record_limb(0) is None) by {
                        reveal(record_limb);
                    }
                    assert(p - p % 64 == 0);
                } else {
                    lemma_limb_place(o);
                    assert(o - o % 64 + p % 64 == o);
                }
            },
        }
    }
}

/// A row taps a column if and only if the column's unit assignment makes it
/// one.
proof fn lemma_unit_tap(row: Seq<usize>, n: nat, c: int)
    requires
        is_form(row),
        n == K,
        0 <= c < n,
    ensures
        lin_eval(row, Seq::new(n, |i: int| i == c)) == row.contains(c as usize),
    decreases row.len(),
{
    let unit = Seq::new(n, |i: int| i == c);
    if row.len() > 0 {
        let head = row.drop_last();
        lemma_unit_tap(head, n, c);
        assert(unit[row.last() as int] == (row.last() == c));
        if row.contains(c as usize) {
            let i = choose|i: int| 0 <= i < row.len() && row[i] == c as usize;
            if i < row.len() - 1 {
                assert(head[i] == c as usize);
                assert(row[i] < row[row.len() - 1]);
            }
        }
        if head.contains(c as usize) {
            let i = choose|i: int| 0 <= i < head.len() && head[i] == c as usize;
            assert(row[i] == c as usize);
            assert(row[i] < row[row.len() - 1]);
        }
        if row.last() == c {
            assert(row[row.len() - 1] == c as usize);
        }
    }
}

/// No retained wire is set.
spec fn silent(z: Seq<bool>) -> bool {
    forall|q: int| 0 <= q < K && record_place(q) is Some ==> !#[trigger] z[q]
}

proof fn lemma_silent_value(z: Seq<bool>, plane: int, slot: int)
    requires
        silent(z),
        0 <= plane < 112,
        0 <= slot < 612,
    ensures
        !value(z, plane, slot),
{
    let q = wire_at(plane, slot);
    assert(q / 1024 == plane && q % 1024 == slot);
    assert(record_place(q) is Some);
}

proof fn lemma_silent_carry(z: Seq<bool>, plane: int, slot: int, n: int)
    requires
        silent(z),
        0 <= plane,
        plane + n <= 112,
        0 <= slot < 612,
    ensures
        !carry(z, plane, slot, n),
    decreases n,
{
    if n > 0 {
        lemma_silent_value(z, plane + n - 1, slot);
        lemma_silent_carry(z, plane, slot, n - 1);
    }
}

/// Where no retained wire is set, every row is zero.
proof fn lemma_silent_row(z: Seq<bool>, w: int)
    requires
        silent(z),
        0 <= w < K,
    ensures
        !row_left(z, w),
        !row_right(z, w),
{
    let p = w / 1024;
    let s = w % 1024;
    assert(record_place(0) is Some);
    assert(!z[0]);
    if input_wire(w) {
        assert(record_place(w) is Some);
    } else if s < 612 {
        assert forall|plane: int, slot: int|
            0 <= plane < 112 && 0 <= slot < 612 implies !#[trigger] value(z, plane, slot) by {
            lemma_silent_value(z, plane, slot);
        }
        assert forall|plane: int, n: int| 0 <= plane && plane + n <= 112 implies !#[trigger] carry(
            z,
            plane,
            s,
            n,
        ) by {
            lemma_silent_carry(z, plane, s, n);
        }
        if p < 112 {
            assert(record_place(w) is Some);
        }
    }
}

/// No row of the slot matrices taps a wire that the compact layout leaves out.
pub proof fn rows_tap_retained_columns(
    a: SparseBinaryMatrix,
    b: SparseBinaryMatrix,
    w: int,
    c: int,
)
    requires
        slot_matrices(a, b),
        0 <= w < K,
        0 <= c < K,
        record_place(c) is None,
    ensures
        !a.row(w).contains(c as usize),
        !b.row(w).contains(c as usize),
{
    let unit = Seq::new(K as nat, |i: int| i == c);
    assert(is_form(a.row(w)) && is_form(b.row(w)));
    lemma_unit_tap(a.row(w), K as nat, c);
    lemma_unit_tap(b.row(w), K as nat, c);
    lemma_silent_row(unit, w);
    assert(lin_eval(a.row(w), unit) == row_left(unit, w));
    assert(lin_eval(b.row(w), unit) == row_right(unit, w));
}

/// The rows of the wires that the compact layout leaves out are empty: they
/// say that the wire is zero.
pub proof fn omitted_rows_are_empty(a: SparseBinaryMatrix, b: SparseBinaryMatrix, w: int)
    requires
        slot_matrices(a, b),
        0 <= w < K,
        record_place(w) is None,
    ensures
        a.row(w).len() == 0,
        b.row(w).len() == 0,
{
    let p = w / 1024;
    let s = w % 1024;
    assert(is_form(a.row(w)) && is_form(b.row(w)));
    assert forall|z: Seq<bool>| !row_left(z, w) && !row_right(z, w) by {}
    if a.row(w).len() > 0 {
        let c = a.row(w)[0] as int;
        let unit = Seq::new(K as nat, |i: int| i == c);
        lemma_unit_tap(a.row(w), K as nat, c);
        assert(lin_eval(a.row(w), unit) == row_left(unit, w));
    }
    if b.row(w).len() > 0 {
        let c = b.row(w)[0] as int;
        let unit = Seq::new(K as nat, |i: int| i == c);
        lemma_unit_tap(b.row(w), K as nat, c);
        assert(lin_eval(b.row(w), unit) == row_right(unit, w));
    }
}

} // verus!
