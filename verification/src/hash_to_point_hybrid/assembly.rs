//! Moving packed witnesses into the compact domain.
use vstd::prelude::*;

use crate::field::F128;
use crate::hash_to_point_hybrid::layout::{
    record_place, record_position, sponge_place, word_place, word_source, CONST, END, K, PRODUCTS,
    SPONGE_CONST, SPONGE_K, SPONGE_PRODUCTS, STATES, TARGET, T_BASE,
};
use crate::hash_to_point_slots as slots;
use crate::keccak::lane_bit;
use crate::packed_bits::{bit, copy64, pack_witness, packed_bit, set_bit, unpacked, zero_words};
use crate::r1cs::{columns_below, eval_row, lin_eval, SparseBinaryMatrix};

verus! {

// ---------------------------------------------------------------------------
// Limbs: aligned runs of 64 cells.
// ---------------------------------------------------------------------------

/// The slot limb that stands at a compact limb.
#[verifier::opaque]
pub open spec fn record_limb(p: int) -> Option<int> {
    if p == CONST {
        Some(0)
    } else if 0 < p < 65536 && (p % 32768) / 256 < 112 {
        Some(((p % 32768) / 256) * 1024 + (p / 32768) * 256 + p % 256)
    } else if 65536 <= p < TARGET && (p - 65536) / 128 < 112 {
        Some(((p - 65536) / 128) * 1024 + 512 + (p - 65536) % 128)
    } else if TARGET <= p < CONST {
        Some(112 * 1024 + (p - TARGET))
    } else {
        None
    }
}

/// The sponge limb that stands at a compact limb: its block and its address
/// there. The shared constant is the slot wires'.
#[verifier::opaque]
pub open spec fn sponge_limb(p: int) -> Option<(int, int)> {
    if STATES <= p < T_BASE {
        let state = (p - STATES) / 2048;
        let at = (p - STATES) % 2048;
        let permutation = state / 2;
        if at < 1600 {
            Some((permutation % 4, (2 * (permutation / 4) + state % 2) * 2048 + at))
        } else {
            None
        }
    } else if T_BASE <= p < END {
        let permutation = (p - T_BASE) / 38400;
        Some(
            (
                permutation % 4,
                SPONGE_PRODUCTS + (permutation / 4) * 38400 + (p - T_BASE) % 38400,
            ),
        )
    } else {
        None
    }
}

/// A slot limb stands where its first wire does.
pub proof fn record_limbs_are_places(o: int, p: int)
    requires
        0 <= o < 131072,
        0 <= p < 524288,
        o % 64 == 0,
        p % 64 == 0,
    ensures
        record_limb(p) == Some(o) <==> record_place(o) == Some(p),
{
    reveal(record_limb);
}

/// A sponge limb stands where its first cell does.
pub proof fn sponge_limbs_are_places(block: int, o: int, p: int)
    requires
        0 <= block < 4,
        0 <= o < 131072,
        0 <= p < 524288,
        o != SPONGE_CONST,
        o % 64 == 0,
        p % 64 == 0,
    ensures
        sponge_limb(p) == Some((block, o)) <==> sponge_place(block, o) == Some(p),
{
    reveal(sponge_limb);
    if sponge_place(block, o) == Some(p) {
        if o < 12288 {
            let slot = o / 2048;
            let permutation = 4 * (slot / 2) + block;
            assert(permutation % 4 == block && permutation / 4 == slot / 2);
            let state = 2 * permutation + slot % 2;
            assert((p - STATES) / 2048 == state && (p - STATES) % 2048 == o % 2048);
            assert(state / 2 == permutation && state % 2 == slot % 2);
        } else {
            let offset = o - SPONGE_PRODUCTS;
            let permutation = 4 * (offset / 38400) + block;
            assert(permutation % 4 == block && permutation / 4 == offset / 38400);
            assert((p - T_BASE) / 38400 == permutation);
            assert((p - T_BASE) % 38400 == offset % 38400);
        }
    }
    if sponge_limb(p) == Some((block, o)) {
        if p < T_BASE {
            let state = (p - STATES) / 2048;
            let at = (p - STATES) % 2048;
            let permutation = state / 2;
            let slot = 2 * (permutation / 4) + state % 2;
            assert(o / 2048 == slot && o % 2048 == at);
            assert(slot / 2 == permutation / 4 && slot % 2 == state % 2);
            assert(4 * (slot / 2) + block == permutation);
        } else {
            let permutation = (p - T_BASE) / 38400;
            let offset = o - SPONGE_PRODUCTS;
            assert(offset / 38400 == permutation / 4);
            assert(offset % 38400 == (p - T_BASE) % 38400);
            assert(4 * (offset / 38400) + block == permutation);
        }
    }
}

/// The slot limbs are aligned runs of their domain.
pub proof fn lemma_record_limb(p: int)
    requires
        0 <= p < 524288,
        p % 64 == 0,
    ensures
        match record_limb(p) {
            Some(o) => 0 <= o && o + 64 <= 131072 && o % 64 == 0,
            None => true,
        },
{
    reveal(record_limb);
}

/// The sponge limbs are aligned runs of their domain.
proof fn lemma_sponge_limb(p: int)
    requires
        0 <= p < 524288,
        p % 64 == 0,
    ensures
        match sponge_limb(p) {
            Some((b, o)) => 0 <= b < 4 && 0 <= o && o + 64 <= 131072 && o % 64 == 0,
            None => true,
        },
{
    reveal(sponge_limb);
    if STATES <= p < T_BASE {
        let state = (p - STATES) / 2048;
        let at = (p - STATES) % 2048;
        let slot = 2 * ((state / 2) / 4) + state % 2;
        assert(0 <= state < 20 && 0 <= slot < 6);
        assert(at == p - STATES - 64 * (32 * state));
        assert(at % 64 == 0);
        assert((slot * 2048 + at) % 64 == 0);
    } else if T_BASE <= p < END {
        let permutation = (p - T_BASE) / 38400;
        let at = (p - T_BASE) % 38400;
        assert(0 <= permutation < 10);
        assert(at == p - T_BASE - 64 * (600 * permutation));
        assert(at % 64 == 0);
        assert(SPONGE_PRODUCTS + (permutation / 4) * 38400 + at == at + 64 * (194 + 600 * (
        permutation / 4)));
    }
}

fn record_limb_at(p: usize) -> (limb: Option<usize>)
    requires
        p < K,
    ensures
        match limb {
            Some(o) => record_limb(p as int) == Some(o as int),
            None => record_limb(p as int) is None,
        },
{
    proof {
        reveal(record_limb);
    }
    if p == CONST {
        Some(0)
    } else if 0 < p && p < 65536 && (p % 32768) / 256 < 112 {
        Some(((p % 32768) / 256) * 1024 + (p / 32768) * 256 + p % 256)
    } else if 65536 <= p && p < TARGET && (p - 65536) / 128 < 112 {
        Some(((p - 65536) / 128) * 1024 + 512 + (p - 65536) % 128)
    } else if TARGET <= p && p < CONST {
        Some(112 * 1024 + (p - TARGET))
    } else {
        None
    }
}

fn sponge_limb_at(p: usize) -> (limb: Option<(usize, usize)>)
    requires
        p < K,
    ensures
        match limb {
            Some((b, o)) => sponge_limb(p as int) == Some((b as int, o as int)),
            None => sponge_limb(p as int) is None,
        },
{
    proof {
        reveal(sponge_limb);
    }
    if STATES <= p && p < T_BASE {
        let state: usize = (p - STATES) / 2048;
        let at: usize = (p - STATES) % 2048;
        let permutation: usize = state / 2;
        if at < 1600 {
            Some((permutation % 4, (2 * (permutation / 4) + state % 2) * 2048 + at))
        } else {
            None
        }
    } else if T_BASE <= p && p < END {
        let permutation: usize = (p - T_BASE) / PRODUCTS;
        Some(
            (
                permutation % 4,
                SPONGE_PRODUCTS + (permutation / 4) * PRODUCTS + (p - T_BASE) % PRODUCTS,
            ),
        )
    } else {
        None
    }
}

// ---------------------------------------------------------------------------
// Placing.
// ---------------------------------------------------------------------------

/// Bit `x` of the compact domain once the slot wires are placed over `rest`.
pub open spec fn with_record(record: Seq<F128>, rest: Seq<F128>, x: int) -> bool {
    let (rec, q) = (x / 524288, x % 524288);
    match record_limb(q - q % 64) {
        Some(o) => packed_bit(record, rec * 131072 + (o + q % 64)),
        None => packed_bit(rest, x),
    }
}

/// Bit `x` of the compact domain that holds the sponge cells.
pub open spec fn with_sponge(sponge: Seq<F128>, x: int) -> bool {
    let (rec, q) = (x / 524288, x % 524288);
    match sponge_limb(q - q % 64) {
        Some((b, o)) => packed_bit(sponge, rec * 524288 + (b * 131072 + (o + q % 64))),
        None => false,
    }
}

/// A bit of the limb at `at`.
proof fn lemma_in_limb(at: int, x: int)
    requires
        0 <= at,
        at % 64 == 0,
        at <= x < at + 64,
    ensures
        x / 524288 == at / 524288,
        x % 524288 - (x % 524288) % 64 == at % 524288,
        (x % 524288) % 64 == x - at,
        (at % 524288) % 64 == 0,
{
}

/// Place the slot wires of every record.
#[verifier::spinoff_prover]
#[verifier::rlimit(40)]
pub fn place_record(record: &[F128], words: &mut Vec<F128>, records: usize)
    requires
        records * 524288 <= usize::MAX,
        old(words)@.len() == records * 4096,
        record@.len() == records * 1024,
    ensures
        final(words)@.len() == records * 4096,
        forall|x: int|
            0 <= x < records * 524288 ==> #[trigger] packed_bit(final(words)@, x) == with_record(
                record@,
                old(words)@,
                x,
            ),
{
    let total: usize = records * K;
    let ghost start = words@;
    let mut at: usize = 0;
    while at < total
        invariant
            total == records * 524288,
            at % 64 == 0,
            at <= total,
            start.len() == records * 4096,
            words@.len() == records * 4096,
            record@.len() == records * 1024,
            forall|x: int|
                0 <= x < total ==> #[trigger] packed_bit(words@, x) == (if x < at {
                    with_record(record@, start, x)
                } else {
                    packed_bit(start, x)
                }),
        decreases total - at,
    {
        let rec: usize = at / K;
        let p: usize = at % K;
        let ghost before = words@;
        proof {
            lemma_record_limb(p as int);
            assert(rec < records);
        }
        match record_limb_at(p) {
            Some(o) => {
                copy64(record, rec * slots::K + o, words, at);
            },
            None => {},
        }
        proof {
            assert forall|x: int| 0 <= x < total implies #[trigger] packed_bit(words@, x) == (if x
                < at + 64 {
                with_record(record@, start, x)
            } else {
                packed_bit(start, x)
            }) by {
                assert(packed_bit(before, x) == (if x < at {
                    with_record(record@, start, x)
                } else {
                    packed_bit(start, x)
                }));
                if at <= x < at + 64 {
                    lemma_in_limb(at as int, x);
                }
            }
        }
        at = at + 64;
    }
}

/// The compact domain that holds the sponge cells alone.
#[verifier::spinoff_prover]
#[verifier::rlimit(40)]
pub fn place_sponge(sponge: &[F128], records: usize) -> (words: Vec<F128>)
    requires
        records * 524288 <= usize::MAX,
        sponge@.len() == records * 4096,
    ensures
        words@.len() == records * 4096,
        forall|x: int|
            0 <= x < records * 524288 ==> #[trigger] packed_bit(words@, x) == with_sponge(
                sponge@,
                x,
            ),
{
    let total: usize = records * K;
    let mut words = zero_words(records * 4096);
    let mut at: usize = 0;
    while at < total
        invariant
            total == records * 524288,
            at % 64 == 0,
            at <= total,
            words@.len() == records * 4096,
            sponge@.len() == records * 4096,
            forall|x: int|
                0 <= x < total ==> #[trigger] packed_bit(words@, x) == (x < at && with_sponge(
                    sponge@,
                    x,
                )),
        decreases total - at,
    {
        let rec: usize = at / K;
        let p: usize = at % K;
        let ghost before = words@;
        proof {
            lemma_sponge_limb(p as int);
            assert(rec < records);
        }
        match sponge_limb_at(p) {
            Some((b, o)) => {
                copy64(sponge, rec * K + (b * SPONGE_K + o), &mut words, at);
            },
            None => {},
        }
        proof {
            assert forall|x: int| 0 <= x < total implies #[trigger] packed_bit(words@, x) == (x < at
                + 64 && with_sponge(sponge@, x)) by {
                assert(packed_bit(before, x) == (x < at && with_sponge(sponge@, x)));
                if at <= x < at + 64 {
                    lemma_in_limb(at as int, x);
                }
            }
        }
        at = at + 64;
    }
    words
}

// ---------------------------------------------------------------------------
// Copy rows.
// ---------------------------------------------------------------------------

/// The state cell that a compact cell copies, where it holds a bit of a
/// candidate word.
pub open spec fn word_cell(q: int) -> Option<int> {
    match record_limb(q - q % 64) {
        Some(o) => {
            let w = o + q % 64;
            let (plane, slot) = (w / 1024, w % 1024);
            if 1 <= plane < 17 && slot < 612 {
                Some(word_place(slot, plane - 1))
            } else {
                None
            }
        },
        None => None,
    }
}

/// The cell of word bit `bit` of slot `slot`, and no other, copies that bit's
/// state cell.
#[verifier::spinoff_prover]
#[verifier::rlimit(40)]
pub proof fn word_cells_are_copies(slot: int, bit: int)
    requires
        0 <= slot < 612,
        0 <= bit < 16,
    ensures
        ({
            let place = record_place((1 + bit) * 1024 + slot);
            place is Some && word_cell(place.unwrap()) == Some(word_place(slot, bit))
        }),
{
    let w = (1 + bit) * 1024 + slot;
    let o = w - w % 64;
    let q = record_place(w).unwrap();
    let p = q - q % 64;
    assert(w / 1024 == 1 + bit && w % 1024 == slot);
    assert(w % 64 == slot % 64);
    let start = slot - slot % 64;
    assert(0 <= start < 640);
    vstd::arithmetic::div_mod::lemma_fundamental_div_mod_converse(o, 1024, 1 + bit, start);
    if slot < 512 {
        assert(start / 256 == slot / 256);
        assert(start % 256 == slot % 256 - slot % 64);
        assert(q == (slot / 256) * 32768 + (1 + bit) * 256 + slot % 256);
    } else {
        assert(start >= 512);
        assert(q == 65536 + (1 + bit) * 128 + (slot - 512));
    }
    assert(q % 64 == slot % 64);
    assert(record_place(o) == Some(p));
    record_limbs_are_places(o, p);
}

/// Rewrite the left rows of the candidate words: each takes the state bit that
/// its word bit copies.
pub fn copy_word_rows(z: &[F128], a: &mut Vec<F128>, records: usize)
    requires
        records * 524288 <= usize::MAX,
        z@.len() == records * 4096,
        old(a)@.len() == records * 4096,
    ensures
        final(a)@.len() == records * 4096,
        forall|x: int|
            0 <= x < records * 524288 ==> #[trigger] packed_bit(final(a)@, x) == (match word_cell(
                x % 524288,
            ) {
                Some(c) => packed_bit(z@, (x / 524288) * 524288 + c),
                None => packed_bit(old(a)@, x),
            }),
{
    let total: usize = records * K;
    let ghost start = a@;
    let mut x: usize = 0;
    while x < total
        invariant
            total == records * 524288,
            x <= total,
            z@.len() == records * 4096,
            a@.len() == records * 4096,
            forall|y: int|
                0 <= y < total ==> #[trigger] packed_bit(a@, y) == (if y < x {
                    match word_cell(y % 524288) {
                        Some(c) => packed_bit(z@, (y / 524288) * 524288 + c),
                        None => packed_bit(start, y),
                    }
                } else {
                    packed_bit(start, y)
                }),
        decreases total - x,
    {
        let rec: usize = x / K;
        let q: usize = x % K;
        let ghost before = a@;
        proof {
            assert(rec < records);
            lemma_record_limb(q as int - q as int % 64);
        }
        match record_limb_at(q - q % 64) {
            Some(o) => {
                let w: usize = o + q % 64;
                let plane: usize = w / 1024;
                let slot: usize = w % 1024;
                if 1 <= plane && plane < 17 && slot < 612 {
                    let c: usize = word_source(slot, plane - 1);
                    let set = bit(z, rec * K + c);
                    set_bit(a, x, set);
                }
            },
            None => {},
        }
        proof {
            assert forall|y: int| 0 <= y < total implies #[trigger] packed_bit(a@, y) == (if y < x
                + 1 {
                match word_cell(y % 524288) {
                    Some(c) => packed_bit(z@, (y / 524288) * 524288 + c),
                    None => packed_bit(start, y),
                }
            } else {
                packed_bit(start, y)
            }) by {
                assert(packed_bit(before, y) == (if y < x {
                    match word_cell(y % 524288) {
                        Some(c) => packed_bit(z@, (y / 524288) * 524288 + c),
                        None => packed_bit(start, y),
                    }
                } else {
                    packed_bit(start, y)
                }));
            }
        }
        x = x + 1;
    }
}

// ---------------------------------------------------------------------------
// Assembling.
// ---------------------------------------------------------------------------

/// The slot wires of record `rec`.
pub open spec fn record_bits(record: Seq<F128>, rec: int) -> Seq<bool> {
    Seq::new(131072, |w: int| packed_bit(record, rec * 131072 + w))
}

/// The image of record `rec` under row `w` of a matrix.
pub open spec fn row_image(m: SparseBinaryMatrix, record: Seq<F128>, rec: int, w: int) -> bool {
    lin_eval(m.row(w), record_bits(record, rec))
}

/// Apply a slot matrix to every record.
pub fn apply_packed(m: &SparseBinaryMatrix, record: &[F128], records: usize) -> (image: Vec<F128>)
    requires
        m.well_formed(),
        m.num_rows == 131072,
        m.num_cols == 131072,
        records * 131072 <= usize::MAX,
        record@.len() == records * 1024,
    ensures
        image@.len() == records * 1024,
        forall|x: int|
            0 <= x < records * 131072 ==> #[trigger] packed_bit(image@, x) == row_image(
                *m,
                record@,
                x / 131072,
                x % 131072,
            ),
{
    let mut bits: Vec<bool> = Vec::new();
    let mut rec: usize = 0;
    while rec < records
        invariant
            m.well_formed(),
            m.num_rows == 131072,
            m.num_cols == 131072,
            records * 131072 <= usize::MAX,
            record@.len() == records * 1024,
            rec <= records,
            bits@.len() == rec * 131072,
            forall|x: int|
                0 <= x < bits@.len() ==> #[trigger] bits@[x] == row_image(
                    *m,
                    record@,
                    x / 131072,
                    x % 131072,
                ),
        decreases records - rec,
    {
        let mut block: Vec<bool> = Vec::with_capacity(131072);
        let mut w: usize = 0;
        while w < 131072
            invariant
                rec < records,
                records * 131072 <= usize::MAX,
                record@.len() == records * 1024,
                w <= 131072,
                block@ == record_bits(record@, rec as int).take(w as int),
            decreases 131072 - w,
        {
            block.push(bit(record, rec * 131072 + w));
            w = w + 1;
            assert(block@ =~= record_bits(record@, rec as int).take(w as int));
        }
        assert(block@ =~= record_bits(record@, rec as int));
        let mut r: usize = 0;
        while r < 131072
            invariant
                m.well_formed(),
                m.num_rows == 131072,
                m.num_cols == 131072,
                block@ == record_bits(record@, rec as int),
                r <= 131072,
                bits@.len() == rec * 131072 + r,
                forall|x: int|
                    0 <= x < bits@.len() ==> #[trigger] bits@[x] == row_image(
                        *m,
                        record@,
                        x / 131072,
                        x % 131072,
                    ),
            decreases 131072 - r,
        {
            assert(columns_below(m.row(r as int), 131072));
            let set = eval_row(&m.rows[r], block.as_slice());
            proof {
                let x = bits@.len() as int;
                assert(x / 131072 == rec && x % 131072 == r);
            }
            bits.push(set);
            r = r + 1;
        }
        rec = rec + 1;
    }
    let image = pack_witness(bits.as_slice());
    proof {
        assert forall|x: int| 0 <= x < records * 131072 implies #[trigger] packed_bit(image@, x)
            == row_image(*m, record@, x / 131072, x % 131072) by {
            assert(unpacked(image@)[x] == bits@[x]);
        }
    }
    image
}

/// The sponge's packed witness with its left and right rows.
#[derive(Clone, Debug)]
pub struct SpongeWitness {
    pub z_packed: Vec<F128>,
    pub a_packed: Vec<F128>,
    pub b_packed: Vec<F128>,
}

/// The compact witness with its left and right rows.
#[derive(Clone, Debug)]
pub struct Witness {
    pub z: Vec<F128>,
    pub a: Vec<F128>,
    pub b: Vec<F128>,
}

/// Bit `x` of the compact domain: an image of the slot wires where they
/// stand, and the rest elsewhere.
pub open spec fn completed(image: spec_fn(int, int) -> bool, rest: bool, x: int) -> bool {
    let (rec, q) = (x / 524288, x % 524288);
    match record_limb(q - q % 64) {
        Some(o) => image(rec, o + q % 64),
        None => rest,
    }
}

/// The witness completes `rest` with the records: the slot wires and their
/// images under the slot matrices stand in their places, and the left rows of
/// the candidate words copy the state bits.
pub open spec fn completes(
    w: Witness,
    record: Seq<F128>,
    a: SparseBinaryMatrix,
    b: SparseBinaryMatrix,
    z_rest: spec_fn(int) -> bool,
    a_rest: spec_fn(int) -> bool,
    b_rest: spec_fn(int) -> bool,
    records: int,
) -> bool {
    &&& w.z@.len() == records * 4096
    &&& w.a@.len() == records * 4096
    &&& w.b@.len() == records * 4096
    &&& forall|x: int|
        0 <= x < records * 524288 ==> #[trigger] packed_bit(w.z@, x) == completed(
            |rec: int, i: int| packed_bit(record, rec * 131072 + i),
            z_rest(x),
            x,
        )
    &&& forall|x: int|
        0 <= x < records * 524288 ==> #[trigger] packed_bit(w.a@, x) == (match word_cell(
            x % 524288,
        ) {
            Some(c) => packed_bit(w.z@, (x / 524288) * 524288 + c),
            None => completed(
                |rec: int, i: int| row_image(a, record, rec, i),
                a_rest(x),
                x,
            ),
        })
    &&& forall|x: int|
        0 <= x < records * 524288 ==> #[trigger] packed_bit(w.b@, x) == completed(
            |rec: int, i: int| row_image(b, record, rec, i),
            b_rest(x),
            x,
        )
}

/// Complete compact buffers with the records: place the slot wires and their
/// images, and let the candidate words copy the states.
pub fn complete(
    a_0: &SparseBinaryMatrix,
    b_0: &SparseBinaryMatrix,
    rest: Witness,
    record: &[F128],
    records: usize,
) -> (w: Witness)
    requires
        a_0.well_formed() && a_0.num_rows == 131072 && a_0.num_cols == 131072,
        b_0.well_formed() && b_0.num_rows == 131072 && b_0.num_cols == 131072,
        records * 524288 <= usize::MAX,
        rest.z@.len() == records * 4096,
        rest.a@.len() == records * 4096,
        rest.b@.len() == records * 4096,
        record@.len() == records * 1024,
    ensures
        completes(
            w,
            record@,
            *a_0,
            *b_0,
            |x: int| packed_bit(rest.z@, x),
            |x: int| packed_bit(rest.a@, x),
            |x: int| packed_bit(rest.b@, x),
            records as int,
        ),
{
    let record_a = apply_packed(a_0, record, records);
    let record_b = apply_packed(b_0, record, records);
    let Witness { mut z, mut a, mut b } = rest;
    place_record(record, &mut z, records);
    place_record(record_a.as_slice(), &mut a, records);
    place_record(record_b.as_slice(), &mut b, records);
    let ghost placed = a@;
    copy_word_rows(z.as_slice(), &mut a, records);
    proof {
        assert forall|x: int| 0 <= x < records * 524288 implies #[trigger] with_record(
            record_a@,
            rest.a@,
            x,
        ) == completed(
            |rec: int, i: int| row_image(*a_0, record@, rec, i),
            packed_bit(rest.a@, x),
            x,
        ) by {
            lemma_image(*a_0, record@, record_a@, rest.a@, records as int, x);
        }
        assert forall|x: int| 0 <= x < records * 524288 implies #[trigger] with_record(
            record_b@,
            rest.b@,
            x,
        ) == completed(
            |rec: int, i: int| row_image(*b_0, record@, rec, i),
            packed_bit(rest.b@, x),
            x,
        ) by {
            lemma_image(*b_0, record@, record_b@, rest.b@, records as int, x);
        }
        assert forall|x: int| 0 <= x < records * 524288 implies #[trigger] with_record(
            record@,
            rest.z@,
            x,
        ) == completed(
            |rec: int, i: int| packed_bit(record@, rec * 131072 + i),
            packed_bit(rest.z@, x),
            x,
        ) by {}
        assert forall|x: int| 0 <= x < records * 524288 implies #[trigger] packed_bit(placed, x)
            == completed(
            |rec: int, i: int| row_image(*a_0, record@, rec, i),
            packed_bit(rest.a@, x),
            x,
        ) by {
            assert(packed_bit(placed, x) == with_record(record_a@, rest.a@, x));
        }
        assert forall|x: int| 0 <= x < records * 524288 implies #[trigger] packed_bit(b@, x)
            == completed(
            |rec: int, i: int| row_image(*b_0, record@, rec, i),
            packed_bit(rest.b@, x),
            x,
        ) by {
            assert(packed_bit(b@, x) == with_record(record_b@, rest.b@, x));
        }
        assert forall|x: int| 0 <= x < records * 524288 implies #[trigger] packed_bit(z@, x)
            == completed(
            |rec: int, i: int| packed_bit(record@, rec * 131072 + i),
            packed_bit(rest.z@, x),
            x,
        ) by {
            assert(packed_bit(z@, x) == with_record(record@, rest.z@, x));
        }
    }
    Witness { z, a, b }
}

/// A placed image at its address.
proof fn lemma_image(
    m: SparseBinaryMatrix,
    record: Seq<F128>,
    image: Seq<F128>,
    rest: Seq<F128>,
    records: int,
    x: int,
)
    requires
        0 <= x < records * 524288,
        forall|y: int|
            0 <= y < records * 131072 ==> #[trigger] packed_bit(image, y) == row_image(
                m,
                record,
                y / 131072,
                y % 131072,
            ),
    ensures
        with_record(image, rest, x) == completed(
            |rec: int, i: int| row_image(m, record, rec, i),
            packed_bit(rest, x),
            x,
        ),
{
    let (rec, q) = (x / 524288, x % 524288);
    lemma_record_limb(q - q % 64);
    match record_limb(q - q % 64) {
        Some(o) => {
            let y = rec * 131072 + (o + q % 64);
            assert(0 <= y < records * 131072);
            assert(y / 131072 == rec && y % 131072 == o + q % 64);
            assert(packed_bit(image, y) == row_image(m, record, rec, o + q % 64));
        },
        None => {},
    }
}

/// Move the sponge's and the records' packed witnesses into one compact
/// domain.
pub fn assemble(
    a_0: &SparseBinaryMatrix,
    b_0: &SparseBinaryMatrix,
    sponge: &SpongeWitness,
    record: &[F128],
    records: usize,
) -> (w: Witness)
    requires
        a_0.well_formed() && a_0.num_rows == 131072 && a_0.num_cols == 131072,
        b_0.well_formed() && b_0.num_rows == 131072 && b_0.num_cols == 131072,
        records * 524288 <= usize::MAX,
        sponge.z_packed@.len() == records * 4096,
        sponge.a_packed@.len() == records * 4096,
        sponge.b_packed@.len() == records * 4096,
        record@.len() == records * 1024,
    ensures
        completes(
            w,
            record@,
            *a_0,
            *b_0,
            |x: int| with_sponge(sponge.z_packed@, x),
            |x: int| with_sponge(sponge.a_packed@, x),
            |x: int| with_sponge(sponge.b_packed@, x),
            records as int,
        ),
{
    let rest = Witness {
        z: place_sponge(sponge.z_packed.as_slice(), records),
        a: place_sponge(sponge.a_packed.as_slice(), records),
        b: place_sponge(sponge.b_packed.as_slice(), records),
    };
    let ghost (zr, ar, br) = (rest.z@, rest.a@, rest.b@);
    let w = complete(a_0, b_0, rest, record, records);
    proof {
        let n = records as int;
        assert forall|x: int| 0 <= x < n * 524288 implies #[trigger] packed_bit(w.z@, x)
            == completed(
            |rec: int, i: int| packed_bit(record@, rec * 131072 + i),
            with_sponge(sponge.z_packed@, x),
            x,
        ) by {
            assert(packed_bit(zr, x) == with_sponge(sponge.z_packed@, x));
        }
        assert forall|x: int| 0 <= x < n * 524288 implies #[trigger] packed_bit(w.b@, x)
            == completed(
            |rec: int, i: int| row_image(*b_0, record@, rec, i),
            with_sponge(sponge.b_packed@, x),
            x,
        ) by {
            assert(packed_bit(br, x) == with_sponge(sponge.b_packed@, x));
        }
        assert forall|x: int| 0 <= x < n * 524288 implies #[trigger] packed_bit(w.a@, x) == (
        match word_cell(x % 524288) {
            Some(c) => packed_bit(w.z@, (x / 524288) * 524288 + c),
            None => completed(
                |rec: int, i: int| row_image(*a_0, record@, rec, i),
                with_sponge(sponge.a_packed@, x),
                x,
            ),
        }) by {
            assert(packed_bit(ar, x) == with_sponge(sponge.a_packed@, x));
        }
    }
    w
}

/// The slot wire at `p` of a batch, read from the compact witness; an omitted
/// wire reads as zero.
pub fn record_bit(z: &[F128], p: usize) -> (set: bool)
    requires
        (p / 131072) * 524288 + 524288 <= 128 * z@.len(),
        128 * z@.len() <= usize::MAX,
    ensures
        set == (match record_place(p as int % 131072) {
            Some(q) => packed_bit(z@, (p as int / 131072) * 524288 + q),
            None => false,
        }),
{
    match record_position(p % slots::K) {
        Some(q) => bit(z, (p / slots::K) * K + q),
        None => false,
    }
}

/// The 64 slot wires from `p` on, read from the compact witness where the
/// first of them stands.
pub fn record_word(z: &[F128], p: usize) -> (word: u64)
    requires
        p % 64 == 0,
        (p / 131072) * 524288 + 524288 <= 128 * z@.len(),
        128 * z@.len() <= usize::MAX,
    ensures
        forall|t: int|
            0 <= t < 64 ==> #[trigger] lane_bit(word, t) == (match record_place(p as int % 131072) {
                Some(q) => packed_bit(z@, (p as int / 131072) * 524288 + q + t),
                None => false,
            }),
{
    match record_position(p % slots::K) {
        Some(q) => {
            let at: usize = (p / slots::K) * K + q;
            proof {
                lemma_place_aligned(p as int % 131072);
            }
            let word = z[at / 128];
            assert forall|t: int| 0 <= t < 64 implies #[trigger] packed_bit(z@, at + t) == (if at
                % 128 == 0 {
                lane_bit(word.lo, t)
            } else {
                lane_bit(word.hi, t)
            }) by {
                assert((at + t) / 128 == at as int / 128);
                assert((at + t) % 128 == at as int % 128 + t);
            }
            if at % 128 == 0 {
                word.lo
            } else {
                word.hi
            }
        },
        None => {
            proof {
                assert forall|t: int| 0 <= t < 64 implies !(#[trigger] lane_bit(0, t)) by {
                    crate::keccak::lemma_lane_ops(0, 0, t as u64);
                }
            }
            0
        },
    }
}

/// An aligned wire has an aligned place.
proof fn lemma_place_aligned(o: int)
    requires
        0 <= o < 131072,
        o % 64 == 0,
    ensures
        match record_place(o) {
            Some(p) => p % 64 == 0,
            None => true,
        },
{
    let (plane, slot) = (o / 1024, o % 1024);
    assert(o == 1024 * plane + slot);
    assert(slot % 64 == 0);
    if slot < 512 {
        assert((slot % 256) % 64 == 0);
    }
}

} // verus!
