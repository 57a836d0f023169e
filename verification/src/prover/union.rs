//! A registry's padded witness, the claims that its classes leave, and what its
//! proof is made of.
use vstd::arithmetic::power2::{lemma2_to64, lemma_pow2_pos, pow2};
use vstd::prelude::*;

use crate::field::{fzero, F128};
use crate::hash_to_point_link::single_root::folded_rows_carry_over;
use crate::mle::{bit_value, copy_table, mle};
use crate::packed_bits::zero_words;
use crate::prover::schedule::{Compaction, WitnessBufMode};
use crate::prover::{quirky_x_outer_full, ZClaim};

verus! {

/// One table's witness and products, with the words' place in the registry's.
/// An element table has no stripe.
#[derive(Clone, Debug)]
pub struct SlotBlock {
    pub start: usize,
    pub z: Vec<F128>,
    pub a: Vec<F128>,
    pub b: Vec<F128>,
    pub stripe: Vec<u8>,
}

/// A registry's padded witness and products, and its tables' stripes.
#[derive(Clone, Debug)]
pub struct UnionWitness {
    pub z: Vec<F128>,
    pub a: Vec<F128>,
    pub b: Vec<F128>,
    pub stripes: Vec<Vec<u8>>,
}

/// The tables' words are of one length each and lie within `words` words, in
/// order and apart.
pub open spec fn blocks_fit(blocks: Seq<SlotBlock>, words: int) -> bool {
    &&& forall|i: int|
        0 <= i < blocks.len() ==> {
            &&& (#[trigger] blocks[i]).a@.len() == blocks[i].z@.len()
            &&& blocks[i].b@.len() == blocks[i].z@.len()
            &&& blocks[i].start + blocks[i].z@.len() <= words
        }
    &&& forall|i: int, j: int|
        0 <= i < j < blocks.len() ==> (#[trigger] blocks[i]).start + blocks[i].z@.len() <= (
        #[trigger] blocks[j]).start
}

/// Word `k` lies in the table's block.
pub open spec fn covers(block: SlotBlock, k: int) -> bool {
    block.start <= k < block.start + block.z@.len()
}

/// Every block's words stand at its place, and zeros elsewhere.
pub open spec fn placed(
    all: Seq<F128>,
    blocks: Seq<SlotBlock>,
    part: spec_fn(SlotBlock) -> Seq<F128>,
) -> bool {
    &&& forall|i: int, k: int|
        #![trigger part(blocks[i]), all[k]]
        0 <= i < blocks.len() && covers(blocks[i], k) && 0 <= k < all.len() ==> all[k] == part(
            blocks[i],
        )[k - blocks[i].start]
    &&& forall|k: int|
        0 <= k < all.len() && (forall|i: int|
            0 <= i < blocks.len() ==> !covers(#[trigger] blocks[i], k)) ==> (#[trigger] all[k])
            == crate::field::fzero()
}

/// A block's witness.
pub open spec fn z_of() -> spec_fn(SlotBlock) -> Seq<F128> {
    |block: SlotBlock| block.z@
}

/// A block's first product.
pub open spec fn a_of() -> spec_fn(SlotBlock) -> Seq<F128> {
    |block: SlotBlock| block.a@
}

/// A block's second product.
pub open spec fn b_of() -> spec_fn(SlotBlock) -> Seq<F128> {
    |block: SlotBlock| block.b@
}

/// Place a registry's tables in `words` words.
pub fn build_union_witness(blocks: &[SlotBlock], words: usize) -> (witness: UnionWitness)
    requires
        blocks_fit(blocks@, words as int),
    ensures
        witness.z@.len() == words,
        witness.a@.len() == words,
        witness.b@.len() == words,
        placed(witness.z@, blocks@, z_of()),
        placed(witness.a@, blocks@, a_of()),
        placed(witness.b@, blocks@, b_of()),
        witness.stripes@.len() == blocks@.len(),
        forall|i: int|
            0 <= i < blocks@.len() ==> (#[trigger] witness.stripes@[i])@ == blocks@[i].stripe@,
{
    let mut z = zero_words(words);
    let mut a = zero_words(words);
    let mut b = zero_words(words);
    let mut stripes: Vec<Vec<u8>> = Vec::new();
    let mut i: usize = 0;
    while i < blocks.len()
        invariant
            i <= blocks@.len(),
            blocks_fit(blocks@, words as int),
            z@.len() == words,
            a@.len() == words,
            b@.len() == words,
            placed(z@, blocks@.take(i as int), z_of()),
            placed(a@, blocks@.take(i as int), a_of()),
            placed(b@, blocks@.take(i as int), b_of()),
            stripes@.len() == i,
            forall|j: int| 0 <= j < i ==> (#[trigger] stripes@[j])@ == blocks@[j].stripe@,
        decreases blocks@.len() - i,
    {
        let ghost before_z = z@;
        let ghost before_a = a@;
        let ghost before_b = b@;
        let block = &blocks[i];
        place(&mut z, block.start, block.z.as_slice());
        place(&mut a, block.start, block.a.as_slice());
        place(&mut b, block.start, block.b.as_slice());
        stripes.push(copy_bytes(block.stripe.as_slice()));
        proof {
            lemma_placed(before_z, z@, blocks@, i as int, z_of());
            lemma_placed(before_a, a@, blocks@, i as int, a_of());
            lemma_placed(before_b, b@, blocks@, i as int, b_of());
        }
        i = i + 1;
    }
    assert(blocks@.take(i as int) =~= blocks@);
    UnionWitness { z, a, b, stripes }
}

/// Where a table's witness comes from.
#[derive(Clone, Copy, Debug, PartialEq, Eq, Structural)]
pub enum SourceKind {
    /// Its words are at hand.
    Prebuilt,
    /// They are generated at their place.
    InPlace,
    /// An element table's, generated at their place and multiplied there.
    Element,
}

/// Every table's words are at hand.
pub open spec fn all_prebuilt(sources: Seq<SourceKind>) -> bool {
    forall|i: int| 0 <= i < sources.len() ==> #[trigger] sources[i] == SourceKind::Prebuilt
}

/// How the buffers of a registry's witness are had: prebuilt words are placed
/// in pooled zeros, and otherwise the buffers are the ones that were taken.
/// There is one source for every table, or no witness.
pub open spec fn witness_mode_of(
    sources: Seq<SourceKind>,
    tables: int,
    taken: WitnessBufMode,
) -> Option<WitnessBufMode> {
    if sources.len() != tables {
        None
    } else if all_prebuilt(sources) {
        Some(WitnessBufMode::PooledZeroed)
    } else {
        Some(taken)
    }
}

/// How the buffers of a registry's witness are had; nothing where there is not
/// one source for every table.
pub fn witness_mode(sources: &[SourceKind], tables: usize, taken: WitnessBufMode) -> (mode: Option<
    WitnessBufMode,
>)
    ensures
        mode == witness_mode_of(sources@, tables as int, taken),
        mode is None <==> sources@.len() != tables,
        forall|i: int|
            0 <= i < sources@.len() && sources@.len() == tables && #[trigger] sources@[i]
                != SourceKind::Prebuilt ==> mode == Some(taken),
{
    if sources.len() != tables {
        return None;
    }
    let mut i: usize = 0;
    while i < sources.len()
        invariant
            sources@.len() == tables,
            i <= sources@.len(),
            forall|j: int| 0 <= j < i ==> #[trigger] sources@[j] == SourceKind::Prebuilt,
        decreases sources@.len() - i,
    {
        if sources[i] != SourceKind::Prebuilt {
            assert(!all_prebuilt(sources@)) by {
                assert(sources@[i as int] != SourceKind::Prebuilt);
            }
            return Some(taken);
        }
        i = i + 1;
    }
    Some(WitnessBufMode::PooledZeroed)
}

/// The words that a registry commits to and, over the merged transport, opens:
/// a copy of the padded words where the gathering changes nothing, and the
/// gathered ones otherwise.
pub fn dense_words(compaction: Compaction, padded: &[F128], gathered: Option<Vec<F128>>) -> (words:
    Vec<F128>)
    requires
        compaction != Compaction::Copy ==> gathered is Some,
    ensures
        compaction == Compaction::Copy ==> words@ == padded@,
        compaction != Compaction::Copy ==> gathered == Some(words),
{
    match (compaction, gathered) {
        (Compaction::Copy, _) | (_, None) => copy_table(padded),
        (_, Some(words)) => words,
    }
}

/// Placing the next block keeps the earlier ones.
proof fn lemma_placed(
    before: Seq<F128>,
    after: Seq<F128>,
    blocks: Seq<SlotBlock>,
    i: int,
    part: spec_fn(SlotBlock) -> Seq<F128>,
)
    requires
        0 <= i < blocks.len(),
        placed(before, blocks.take(i), part),
        before.len() == after.len(),
        blocks_fit(blocks, before.len() as int),
        forall|k: int|
            0 <= k < after.len() ==> (#[trigger] after[k]) == if covers(blocks[i], k) {
                part(blocks[i])[k - blocks[i].start]
            } else {
                before[k]
            },
    ensures
        placed(after, blocks.take(i + 1), part),
{
    let earlier = blocks.take(i);
    let now = blocks.take(i + 1);
    assert forall|j: int, k: int|
        #![trigger part(now[j]), after[k]]
        0 <= j < now.len() && covers(now[j], k) && 0 <= k < after.len() implies after[k] == part(
        now[j],
    )[k - now[j].start] by {
        if j < i {
            assert(now[j] == blocks[j] && earlier[j] == blocks[j]);
            assert(blocks[j].start + blocks[j].z@.len() <= blocks[i].start);
            assert(part(earlier[j]) == part(now[j]));
            assert(before[k] == part(earlier[j])[k - earlier[j].start]);
        } else {
            assert(now[j] == blocks[i]);
        }
    }
    assert forall|k: int|
        0 <= k < after.len() && (forall|j: int|
            0 <= j < now.len() ==> !covers(#[trigger] now[j], k)) implies (#[trigger] after[k])
        == crate::field::fzero() by {
        assert(now[i] == blocks[i]);
        assert forall|j: int| 0 <= j < earlier.len() implies !covers(#[trigger] earlier[j], k) by {
            assert(now[j] == earlier[j]);
        }
        assert(before[k] == crate::field::fzero());
    }
}

/// Copy `part` to `start`.
fn place(all: &mut Vec<F128>, start: usize, part: &[F128])
    requires
        start + part@.len() <= old(all)@.len(),
    ensures
        final(all)@.len() == old(all)@.len(),
        forall|k: int|
            0 <= k < old(all)@.len() ==> (#[trigger] final(all)@[k]) == if start <= k < start
                + part@.len() {
                part@[k - start]
            } else {
                old(all)@[k]
            },
{
    let total: usize = all.len();
    let mut i: usize = 0;
    while i < part.len()
        invariant
            i <= part@.len(),
            total == all@.len(),
            start + part@.len() <= total,
            all@.len() == old(all)@.len(),
            forall|k: int|
                0 <= k < old(all)@.len() ==> (#[trigger] all@[k]) == if start <= k < start + i {
                    part@[k - start]
                } else {
                    old(all)@[k]
                },
        decreases part@.len() - i,
    {
        all.set(start + i, part[i]);
        i = i + 1;
    }
}

/// A copy of bytes.
fn copy_bytes(bytes: &[u8]) -> (copied: Vec<u8>)
    ensures
        copied@ == bytes@,
{
    let mut copied: Vec<u8> = Vec::new();
    let mut i: usize = 0;
    while i < bytes.len()
        invariant
            i <= bytes@.len(),
            copied@ == bytes@.take(i as int),
        decreases bytes@.len() - i,
    {
        copied.push(bytes[i]);
        i = i + 1;
        assert(copied@ =~= bytes@.take(i as int));
    }
    assert(copied@ =~= bytes@);
    copied
}

/// What the boolean class leaves to the opening: its two claims, and the folded
/// rows of each where they are known already.
#[derive(Clone, Debug)]
pub struct BooleanClaims {
    pub ab: ZClaim,
    pub c: ZClaim,
    pub rows_ab: Option<Vec<F128>>,
    pub rows_c: Vec<F128>,
}

/// What the element class leaves to the opening.
#[derive(Clone, Debug)]
pub struct ElementClaims {
    pub c_point: Vec<F128>,
    pub c_value: F128,
    pub lc_point: Vec<F128>,
    pub lc_value: F128,
}

/// A claimed evaluation of the packed words themselves.
#[derive(Clone, Debug)]
pub struct DirectClaim {
    pub point: Vec<F128>,
    pub value: F128,
}

/// What an opening is handed: the outer coordinates and the known rows of the
/// claims on bits, then the claims on words.
#[derive(Debug)]
pub struct OpeningInput {
    pub points: Vec<Vec<F128>>,
    pub rows: Vec<Option<Vec<F128>>>,
    pub direct: Vec<DirectClaim>,
}

/// The claim on words is of this point and value.
pub open spec fn claims_word(claim: DirectClaim, point: Seq<F128>, value: F128) -> bool {
    claim.point@ == point && claim.value == value
}

/// The claim on words at place `k`: the element class's two, then the wiring's.
pub open spec fn direct_at(
    claim: DirectClaim,
    element: Option<ElementClaims>,
    gather: Seq<DirectClaim>,
    k: int,
) -> bool {
    match element {
        Some(claims) => if k == 0 {
            claims_word(claim, claims.c_point@, claims.c_value)
        } else if k == 1 {
            claims_word(claim, claims.lc_point@, claims.lc_value)
        } else {
            claims_word(claim, gather[k - 2].point@, gather[k - 2].value)
        },
        None => claims_word(claim, gather[k].point@, gather[k].value),
    }
}

/// The opening's points and rows are the boolean class's.
pub open spec fn opens_boolean(
    points: Seq<Vec<F128>>,
    rows: Seq<Option<Vec<F128>>>,
    boolean: Option<BooleanClaims>,
) -> bool {
    match boolean {
        Some(claims) => {
            &&& points.len() == 2
            &&& points[0]@ == claims.ab.point.x_inner_rest@ + claims.ab.point.x_outer@
            &&& points[1]@ == claims.c.point.x_inner_rest@ + claims.c.point.x_outer@
            &&& rows.len() == 2
            &&& rows[0] == claims.rows_ab
            &&& rows[1] == Some(claims.rows_c)
        },
        None => points.len() == 0 && rows.len() == 0,
    }
}

/// Collect a registry's claims for its one opening: the boolean class's two,
/// then on words the element class's two and the wiring's.
pub fn opening_input(
    boolean: Option<BooleanClaims>,
    element: &Option<ElementClaims>,
    gather: &[DirectClaim],
) -> (input: OpeningInput)
    ensures
        opens_boolean(input.points@, input.rows@, boolean),
        boolean is None ==> input.points@.len() == 0 && input.rows@.len() == 0,
        boolean matches Some(claims) ==> {
            &&& input.points@.len() == 2
            &&& input.rows@.len() == 2
            &&& input.points@[0]@ == claims.ab.point.x_inner_rest@ + claims.ab.point.x_outer@
            &&& input.points@[1]@ == claims.c.point.x_inner_rest@ + claims.c.point.x_outer@
            &&& input.rows@[0] == claims.rows_ab
            &&& input.rows@[1] == Some(claims.rows_c)
        },
        input.direct@.len() == gather@.len() + (if element is Some {
            2int
        } else {
            0
        }),
        forall|k: int|
            0 <= k < input.direct@.len() ==> direct_at(
                #[trigger] input.direct@[k],
                *element,
                gather@,
                k,
            ),
{
    let mut points: Vec<Vec<F128>> = Vec::new();
    let mut rows: Vec<Option<Vec<F128>>> = Vec::new();
    match boolean {
        Some(claims) => {
            points.push(quirky_x_outer_full(&claims.ab.point));
            points.push(quirky_x_outer_full(&claims.c.point));
            rows.push(claims.rows_ab);
            rows.push(Some(claims.rows_c));
        },
        None => {},
    }
    let mut direct: Vec<DirectClaim> = Vec::new();
    match element {
        Some(claims) => {
            direct.push(direct_claim(claims.c_point.as_slice(), claims.c_value));
            direct.push(direct_claim(claims.lc_point.as_slice(), claims.lc_value));
        },
        None => {},
    }
    let ghost first = direct@.len() as int;
    let mut i: usize = 0;
    while i < gather.len()
        invariant
            i <= gather@.len(),
            first == (if element is Some {
                2int
            } else {
                0
            }),
            direct@.len() == first + i,
            forall|k: int|
                0 <= k < direct@.len() ==> direct_at(
                    #[trigger] direct@[k],
                    *element,
                    gather@,
                    k,
                ),
        decreases gather@.len() - i,
    {
        let claim = direct_claim(gather[i].point.as_slice(), gather[i].value);
        assert(direct_at(claim, *element, gather@, first + i));
        direct.push(claim);
        i = i + 1;
    }
    OpeningInput { points, rows, direct }
}

/// A claim on words with a copy of its point.
fn direct_claim(point: &[F128], value: F128) -> (claim: DirectClaim)
    ensures
        claims_word(claim, point@, value),
{
    let mut copied: Vec<F128> = Vec::new();
    crate::prover::append(&mut copied, point);
    assert(copied@ =~= point@);
    DirectClaim { point: copied, value }
}

/// The opening that a registry's proof ends with, by its transport.
#[derive(Clone, Debug)]
pub enum UnionOpen<J, M> {
    Jagged(J),
    Merged(M),
}

impl<J, M> UnionOpen<J, M> {
    /// The opening over the jagged transport.
    pub fn jagged(self) -> (opening: J)
        requires
            self is Jagged,
        ensures
            self == UnionOpen::<J, M>::Jagged(opening),
    {
        match self {
            UnionOpen::Jagged(opening) => opening,
            UnionOpen::Merged(_) => vstd::pervasive::unreached(),
        }
    }

    /// The opening over the merged transport.
    pub fn merged(self) -> (opening: M)
        requires
            self is Merged,
        ensures
            self == UnionOpen::<J, M>::Merged(opening),
    {
        match self {
            UnionOpen::Merged(opening) => opening,
            UnionOpen::Jagged(_) => vstd::pervasive::unreached(),
        }
    }
}

/// What a registry's proof is made of: each class's reduction with its claims,
/// the wiring's, and the one opening.
#[derive(Clone, Debug)]
pub struct UnionProveOutput<B, E, W, J, M> {
    pub boolean: Option<B>,
    pub element: Option<E>,
    pub wiring: Option<W>,
    pub opening: UnionOpen<J, M>,
}

impl<B, E, W, J, M> UnionProveOutput<B, E, W, J, M> {
    /// The parts of a proof of boolean tables alone over the jagged transport;
    /// nothing where another part is present or the boolean one is missing.
    pub fn into_boolean_only(self) -> (parts: Option<(B, J)>)
        requires
            self.element is None && self.wiring is None && self.boolean is Some
                ==> self.opening is Jagged,
        ensures
            parts is Some <==> self.element is None && self.wiring is None && self.boolean is Some,
            parts matches Some((boolean, opening)) ==> {
                &&& self.boolean == Some(boolean)
                &&& self.opening == UnionOpen::<J, M>::Jagged(opening)
            },
    {
        match (self.element, self.wiring, self.boolean) {
            (None, None, Some(boolean)) => Some((boolean, self.opening.jagged())),
            _ => None,
        }
    }
}

/// High coordinates that are frozen at zero keep the folded rows: any
/// coordinate of the packed words, weighted at the point, is that of the words
/// in the region that the other coordinates span.
pub proof fn frozen_zeros_keep_the_rows(
    words: Seq<F128>,
    coordinate: spec_fn(F128) -> F128,
    frozen: nat,
    point: Seq<F128>,
)
    requires
        words.len() == pow2(frozen) * pow2(point.len()),
    ensures
        mle(
            words.map_values(coordinate),
            Seq::new(frozen, |i: int| fzero()) + point,
        ) == mle(words.take(pow2(point.len()) as int).map_values(coordinate), point),
{
    lemma2_to64();
    let size = pow2(point.len()) as int;
    let zeros = Seq::new(frozen, |i: int| fzero());
    if frozen == 0 {
        assert(zeros + point =~= point);
        assert(words.len() == size) by (nonlinear_arith)
            requires
                words.len() == pow2(frozen) * size,
                pow2(frozen) == 1,
        ;
        assert(words.take(size) =~= words);
    } else {
        let pad = (frozen - 1) as nat;
        lemma_pow2_pos(frozen);
        assert(size <= words.len()) by (nonlinear_arith)
            requires
                words.len() == pow2(frozen) * size,
                pow2(frozen) >= 1,
                size >= 0,
        ;
        assert(words.subrange(0, size) =~= words.take(size));
        folded_rows_carry_over(words, words.take(size), coordinate, pad, false, point);
        assert(seq![bit_value(false)] + Seq::new(pad, |i: int| fzero()) =~= zeros);
    }
}

/// A registry has a witness exactly where every table has its source. Then it
/// lies in the pool's zeroed buffers where all of the tables' words are at hand,
/// and in the buffers that were taken where one table's are generated, whichever
/// table that is and of whichever class.
pub proof fn one_generated_table_takes_buffers(
    sources: Seq<SourceKind>,
    tables: int,
    taken: WitnessBufMode,
    i: int,
)
    ensures
        witness_mode_of(sources, tables, taken) is None <==> sources.len() != tables,
        sources.len() == tables && 0 <= i < tables && (sources[i] == SourceKind::InPlace
            || sources[i] == SourceKind::Element) ==> witness_mode_of(sources, tables, taken)
            == Some(taken),
        sources.len() == tables && (forall|j: int|
            0 <= j < tables ==> #[trigger] sources[j] == SourceKind::Prebuilt) ==> witness_mode_of(
            sources,
            tables,
            taken,
        ) == Some(WitnessBufMode::PooledZeroed),
{
}

/// An opening's claims on words keep their order and are all there: those of
/// the wiring follow those of the element class, each as it was given.
pub proof fn openings_take_every_claim(
    direct: Seq<DirectClaim>,
    element: Option<ElementClaims>,
    gather: Seq<DirectClaim>,
    j: int,
)
    requires
        direct.len() == gather.len() + (if element is Some {
            2int
        } else {
            0
        }),
        forall|k: int|
            0 <= k < direct.len() ==> direct_at(#[trigger] direct[k], element, gather, k),
        0 <= j < gather.len(),
    ensures
        direct[direct.len() - gather.len() + j].point@ == gather[j].point@,
        direct[direct.len() - gather.len() + j].value == gather[j].value,
        element matches Some(claims) ==> {
            &&& direct[0].point@ == claims.c_point@ && direct[0].value == claims.c_value
            &&& direct[1].point@ == claims.lc_point@ && direct[1].value == claims.lc_value
        },
{
    assert(direct_at(direct[direct.len() - gather.len() + j], element, gather, direct.len()
        - gather.len() + j));
    if element is Some {
        assert(direct_at(direct[0], element, gather, 0));
        assert(direct_at(direct[1], element, gather, 1));
    }
}

/// A word of a registry's witness belongs to one table: where it lies in a
/// table's block it is that table's word, and it does not lie in another's.
pub proof fn tables_do_not_overlap(
    all: Seq<F128>,
    blocks: Seq<SlotBlock>,
    part: spec_fn(SlotBlock) -> Seq<F128>,
    i: int,
    k: int,
)
    requires
        blocks_fit(blocks, all.len() as int),
        placed(all, blocks, part),
        0 <= i < blocks.len(),
        0 <= k < blocks[i].z@.len(),
    ensures
        all[blocks[i].start + k] == part(blocks[i])[k],
        forall|j: int|
            0 <= j < blocks.len() && j != i ==> !(#[trigger] blocks[j].start <= blocks[i].start + k
                < blocks[j].start + blocks[j].z@.len()),
{
    assert(blocks[i].start + blocks[i].z@.len() <= all.len());
    assert(covers(blocks[i], blocks[i].start + k));
    assert(part(blocks[i]) == part(blocks[i]));
    assert(all[blocks[i].start + k] == part(blocks[i])[k]);
    assert forall|j: int| 0 <= j < blocks.len() && j != i implies !(#[trigger] blocks[j].start
        <= blocks[i].start + k < blocks[j].start + blocks[j].z@.len()) by {
        if j < i {
            assert(blocks[j].start + blocks[j].z@.len() <= blocks[i].start);
        } else {
            assert(blocks[i].start + blocks[i].z@.len() <= blocks[j].start);
        }
    }
}

} // verus!
