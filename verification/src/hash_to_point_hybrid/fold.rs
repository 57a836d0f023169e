//! What the folded circuit holds in each column, by the cell that stands there.
use vstd::prelude::*;

use crate::field::{fadd, fmul, fzero, lemma_fadd_zero, F128};
use crate::hash_to_point_hybrid::circuit::{
    copy_share, copy_weight, folded_column, placed_sum, record_places, slot_fold, sponge_places,
};
use crate::hash_to_point_hybrid::layout::{
    places_are_disjoint, record_place, sponge_place, word_place, word_places_are_states, CONST,
    SPONGE_CONST, STATES,
};
use crate::merkle_r1cs::csc::column_sum;
use crate::r1cs::SparseBinaryMatrix;
use crate::sums::{fsum, lemma_fsum_single, lemma_fsum_zero};

verus! {

/// The slot wire of bit `bit` of the candidate word of a slot.
pub open spec fn word_wire(slot: int, bit: int) -> int {
    (1 + bit) * 1024 + slot
}

/// The wire carries no candidate word's bit.
pub open spec fn no_word_wire(c: int) -> bool {
    forall|slot: int, bit: int|
        0 <= slot < 612 && 0 <= bit < 16 ==> c != #[trigger] word_wire(slot, bit)
}

/// No candidate word's bit is copied from the column.
pub open spec fn no_word_source(p: int) -> bool {
    forall|slot: int, bit: int|
        0 <= slot < 612 && 0 <= bit < 16 ==> p != #[trigger] word_place(slot, bit)
}

/// The weights of the slots' rows at their places; the constant's row and the
/// omitted ones weigh nothing.
pub open spec fn slot_weights(weights: Seq<F128>) -> Seq<F128> {
    Seq::new(
        131072,
        |o: int|
            match record_place(o) {
                Some(p) => if o == 0 {
                    fzero()
                } else {
                    weights[p]
                },
                None => fzero(),
            },
    )
}

proof fn lemma_copy_wire(j: int)
    requires
        0 <= j < 9792,
    ensures
        0 <= j / 16 < 612,
        0 <= j % 16 < 16,
        (1 + j % 16) * 1024 + j / 16 == word_wire(j / 16, j % 16),
        0 < word_wire(j / 16, j % 16) < 131072,
{
}

/// The copies add nothing to a column that neither carries a word's bit nor is
/// copied.
proof fn lemma_no_copies(alpha: F128, weights: Seq<F128>, p: int)
    requires
        no_word_source(p),
        forall|slot: int, bit: int|
            0 <= slot < 612 && 0 <= bit < 16 ==> record_place(#[trigger] word_wire(slot, bit))
                != Some(p),
    ensures
        fsum(|j: int| copy_share(alpha, weights, j, p), 9792) == fzero(),
{
    let f = |j: int| copy_share(alpha, weights, j, p);
    assert forall|j: int| 0 <= j < 9792 implies #[trigger] f(j) == fzero() by {
        lemma_copy_wire(j);
        assert(record_place(word_wire(j / 16, j % 16)) != Some(p));
        assert(p != word_place(j / 16, j % 16));
        lemma_fadd_zero(fzero());
    }
    lemma_fsum_zero(f, 9792);
}

proof fn lemma_one_sponge(sponge: spec_fn(int) -> F128, b: int, o: int, p: int)
    requires
        0 <= b < 4,
        0 <= o < 131072,
        o != SPONGE_CONST,
        sponge_place(b, o) == Some(p),
    ensures
        placed_sum(sponge_places(), sponge, 524288, p) == sponge(b * 131072 + o),
{
    places_are_disjoint();
    let k = b * 131072 + o;
    assert(k / 131072 == b && k % 131072 == o);
    let f = |i: int|
        if sponge_places()(i) == Some(p) {
            sponge(i)
        } else {
            fzero()
        };
    assert forall|i: int| 0 <= i < 524288 && i != k implies #[trigger] f(i) == fzero() by {
        let (c, q) = (i / 131072, i % 131072);
        assert(sponge_place(b, o) is Some);
        assert(b != c || o != q);
        assert(sponge_place(c, q) != sponge_place(b, o));
    }
    lemma_fsum_single(f, 524288, k);
}

proof fn lemma_one_record(values: spec_fn(int) -> F128, c: int, p: int)
    requires
        0 <= c < 131072,
        record_place(c) == Some(p),
    ensures
        placed_sum(record_places(), values, 131072, p) == values(c),
{
    places_are_disjoint();
    let f = |i: int|
        if record_places()(i) == Some(p) {
            values(i)
        } else {
            fzero()
        };
    assert forall|i: int| 0 <= i < 131072 && i != c implies #[trigger] f(i) == fzero() by {
        assert(record_place(c) is Some);
        assert(record_place(i) != record_place(c));
    }
    lemma_fsum_single(f, 131072, c);
}

proof fn lemma_no_record(values: spec_fn(int) -> F128, p: int)
    requires
        forall|o: int| 0 <= o < 131072 ==> #[trigger] record_place(o) != Some(p),
    ensures
        placed_sum(record_places(), values, 131072, p) == fzero(),
{
    let f = |i: int|
        if record_places()(i) == Some(p) {
            values(i)
        } else {
            fzero()
        };
    assert forall|i: int| 0 <= i < 131072 implies #[trigger] f(i) == fzero() by {
        assert(record_place(i) != Some(p));
    }
    lemma_fsum_zero(f, 131072);
}

proof fn lemma_no_sponge(values: spec_fn(int) -> F128, p: int)
    requires
        forall|b: int, o: int|
            0 <= b < 4 && 0 <= o < 131072 ==> #[trigger] sponge_place(b, o) != Some(p),
    ensures
        placed_sum(sponge_places(), values, 524288, p) == fzero(),
{
    let f = |i: int|
        if sponge_places()(i) == Some(p) {
            values(i)
        } else {
            fzero()
        };
    assert forall|i: int| 0 <= i < 524288 implies #[trigger] f(i) == fzero() by {
        assert(sponge_place(i / 131072, i % 131072) != Some(p));
    }
    lemma_fsum_zero(f, 524288);
}

/// A slot wire's column holds the fold of the slot matrices at that wire, over
/// the rows at their places. Where the wire carries a bit of a candidate word,
/// the word's copy row takes its weight away.
pub proof fn slot_columns_fold_the_slots(
    a: SparseBinaryMatrix,
    b: SparseBinaryMatrix,
    alpha: F128,
    weights: Seq<F128>,
    sponge: spec_fn(int) -> F128,
    c: int,
    p: int,
)
    requires
        0 < c < 131072,
        record_place(c) == Some(p),
        p != CONST,
    ensures
        ({
            let folded = folded_column(a, b, alpha, weights, sponge, p);
            let own = fadd(
                fmul(alpha, column_sum(a, c, slot_weights(weights), 0)),
                column_sum(b, c, slot_weights(weights), 0),
            );
            &&& no_word_wire(c) ==> folded == own
            &&& forall|slot: int, bit: int|
                0 <= slot < 612 && 0 <= bit < 16 && c == #[trigger] word_wire(slot, bit) ==> folded
                    == fadd(own, fmul(alpha, weights[p]))
        }),
{
    places_are_disjoint();
    assert(record_place(c) is Some);
    assert(0 < p < STATES);
    assert forall|slot: int, bit: int| 0 <= slot < 612 && 0 <= bit < 16 implies p
        != #[trigger] word_place(slot, bit) by {
        word_places_are_states(slot, bit);
    }
    assert forall|d: int, o: int| 0 <= d < 4 && 0 <= o < 131072 implies #[trigger] sponge_place(
        d,
        o,
    ) != Some(p) by {
        assert(sponge_place(d, o) != record_place(c));
    }
    lemma_no_sponge(sponge, p);
    let values = |o: int| slot_fold(a, b, alpha, weights, o);
    lemma_one_record(values, c, p);
    let rows = Seq::new(
        131072,
        |o: int|
            crate::hash_to_point_hybrid::circuit::placed_weight(record_place(o), o == 0, weights),
    );
    assert(rows =~= slot_weights(weights));
    let own = slot_fold(a, b, alpha, weights, c);
    lemma_fadd_zero(fzero());
    lemma_fadd_zero(own);
    if no_word_wire(c) {
        assert forall|slot: int, bit: int| 0 <= slot < 612 && 0 <= bit < 16 implies record_place(
            #[trigger] word_wire(slot, bit),
        ) != Some(p) by {
            assert(record_place(c) is Some);
            assert(c != word_wire(slot, bit));
            assert(0 <= word_wire(slot, bit) < 131072);
            assert(record_place(word_wire(slot, bit)) != record_place(c));
        }
        lemma_no_copies(alpha, weights, p);
    }
    assert forall|slot: int, bit: int|
        0 <= slot < 612 && 0 <= bit < 16 && c == #[trigger] word_wire(slot, bit) implies
        folded_column(a, b, alpha, weights, sponge, p) == fadd(own, fmul(alpha, weights[p])) by {
        let f = |j: int| copy_share(alpha, weights, j, p);
        let k = 16 * slot + bit;
        assert(k / 16 == slot && k % 16 == bit);
        assert forall|j: int| 0 <= j < 9792 && j != k implies #[trigger] f(j) == fzero() by {
            lemma_copy_wire(j);
            assert(j / 16 != slot || j % 16 != bit);
            assert(word_wire(j / 16, j % 16) != c);
            assert(record_place(c) is Some);
            assert(record_place(word_wire(j / 16, j % 16)) != record_place(c));
            assert(p != word_place(j / 16, j % 16));
        }
        lemma_fsum_single(f, 9792, k);
        assert(p != word_place(slot, bit));
        lemma_fadd_zero(copy_weight(alpha, weights, k));
        assert(f(k) == fmul(alpha, weights[p]));
    }
}

/// A sponge cell's column holds the fold that the sponge's rows have there.
/// Where a bit of a candidate word is copied from the cell, the copy row's weight
/// comes on top.
pub proof fn sponge_columns_fold_the_sponge(
    a: SparseBinaryMatrix,
    b: SparseBinaryMatrix,
    alpha: F128,
    weights: Seq<F128>,
    sponge: spec_fn(int) -> F128,
    block: int,
    o: int,
    p: int,
)
    requires
        0 <= block < 4,
        0 <= o < 131072,
        o != SPONGE_CONST,
        sponge_place(block, o) == Some(p),
        p != CONST,
    ensures
        ({
            let folded = folded_column(a, b, alpha, weights, sponge, p);
            let own = sponge(block * 131072 + o);
            &&& no_word_source(p) ==> folded == own
            &&& forall|slot: int, bit: int|
                0 <= slot < 612 && 0 <= bit < 16 && p == #[trigger] word_place(slot, bit)
                    ==> folded == fadd(
                    own,
                    fmul(alpha, weights[record_place(word_wire(slot, bit)).unwrap()]),
                )
        }),
{
    places_are_disjoint();
    assert forall|c: int| 0 <= c < 131072 implies #[trigger] record_place(c) != Some(p) by {
        if record_place(c) is Some {
            assert(sponge_place(block, o) != record_place(c));
        }
    }
    lemma_one_sponge(sponge, block, o, p);
    lemma_no_record(|c: int| slot_fold(a, b, alpha, weights, c), p);
    let own = sponge(block * 131072 + o);
    lemma_fadd_zero(own);
    assert forall|slot: int, bit: int| 0 <= slot < 612 && 0 <= bit < 16 implies record_place(
        #[trigger] word_wire(slot, bit),
    ) != Some(p) by {
        assert(0 <= word_wire(slot, bit) < 131072);
    }
    if no_word_source(p) {
        lemma_no_copies(alpha, weights, p);
    }
    assert forall|slot: int, bit: int|
        0 <= slot < 612 && 0 <= bit < 16 && p == #[trigger] word_place(slot, bit) implies
        folded_column(a, b, alpha, weights, sponge, p) == fadd(
        own,
        fmul(alpha, weights[record_place(word_wire(slot, bit)).unwrap()]),
    ) by {
        let f = |j: int| copy_share(alpha, weights, j, p);
        let k = 16 * slot + bit;
        assert(k / 16 == slot && k % 16 == bit);
        word_places_are_states(slot, bit);
        assert forall|j: int| 0 <= j < 9792 && j != k implies #[trigger] f(j) == fzero() by {
            lemma_copy_wire(j);
            assert(j / 16 != slot || j % 16 != bit);
            assert(word_place(j / 16, j % 16) != p);
            assert(record_place(word_wire(j / 16, j % 16)) != Some(p));
            lemma_fadd_zero(fzero());
        }
        lemma_fsum_single(f, 9792, k);
        lemma_fadd_zero(copy_weight(alpha, weights, k));
    }
}

/// A column where no cell stands and from which nothing is copied folds to zero.
pub proof fn vacant_columns_fold_to_zero(
    a: SparseBinaryMatrix,
    b: SparseBinaryMatrix,
    alpha: F128,
    weights: Seq<F128>,
    sponge: spec_fn(int) -> F128,
    p: int,
)
    requires
        p != CONST,
        no_word_source(p),
        forall|o: int| 0 <= o < 131072 ==> #[trigger] record_place(o) != Some(p),
        forall|d: int, o: int|
            0 <= d < 4 && 0 <= o < 131072 ==> #[trigger] sponge_place(d, o) != Some(p),
    ensures
        folded_column(a, b, alpha, weights, sponge, p) == fzero(),
{
    assert forall|slot: int, bit: int| 0 <= slot < 612 && 0 <= bit < 16 implies record_place(
        #[trigger] word_wire(slot, bit),
    ) != Some(p) by {
        assert(0 <= word_wire(slot, bit) < 131072);
    }
    lemma_no_sponge(sponge, p);
    lemma_no_record(|c: int| slot_fold(a, b, alpha, weights, c), p);
    lemma_no_copies(alpha, weights, p);
    lemma_fadd_zero(fzero());
}

} // verus!
