//! The chains over whole histories of calls: what a history leaves, what its
//! squeezes give, and that a squeeze changes nothing that comes after it.
use vstd::prelude::*;

use crate::blake3::{full_blocks, lemma_ones_range, ones, xof};
use crate::fs_chain::shape::{
    absorbing_in_parts, after_block, after_blocks, after_squeeze, chain_entries, chain_row,
    chain_squeeze_entries, consecutive, flush_entries, lemma_merge_count, merge_count, Entry,
    Shape,
};
use crate::fs_chain::{
    absorb_rows, chain_node, chain_squeeze, chain_squeeze_rows, chaining_in_parts,
    lemma_chain_node_stable, squeeze_rows,
};

verus! {

/// One call on a chain.
pub enum Call {
    Absorb(Seq<u8>),
    Finalize(nat),
}

/// The bytes that a history absorbs, in order.
pub open spec fn absorbed(calls: Seq<Call>) -> Seq<u8>
    decreases calls.len(),
{
    if calls.len() == 0 {
        Seq::empty()
    } else {
        match calls.last() {
            Call::Absorb(bytes) => absorbed(calls.drop_last()) + bytes,
            Call::Finalize(_) => absorbed(calls.drop_last()),
        }
    }
}

/// A history without its squeezes.
pub open spec fn absorbs(calls: Seq<Call>) -> Seq<Call>
    decreases calls.len(),
{
    if calls.len() == 0 {
        Seq::empty()
    } else {
        match calls.last() {
            Call::Absorb(bytes) => absorbs(calls.drop_last()).push(calls.last()),
            Call::Finalize(_) => absorbs(calls.drop_last()),
        }
    }
}

/// What the squeezes of a history give, where `squeeze` gives the bytes of one
/// after a stream and `before` is the stream that the history begins with.
pub open spec fn outputs(
    squeeze: spec_fn(Seq<u8>, int) -> Seq<u8>,
    before: Seq<u8>,
    calls: Seq<Call>,
) -> Seq<Seq<u8>>
    decreases calls.len(),
{
    if calls.len() == 0 {
        Seq::empty()
    } else {
        let rest = calls.drop_last();
        match calls.last() {
            Call::Absorb(_) => outputs(squeeze, before, rest),
            Call::Finalize(n) => outputs(squeeze, before, rest).push(
                squeeze(before + absorbed(rest), n as int),
            ),
        }
    }
}

/// The extendable output of the tree chain.
pub open spec fn tree_squeeze() -> spec_fn(Seq<u8>, int) -> Seq<u8> {
    |stream: Seq<u8>, n: int| xof(stream, n)
}

/// The output of the sequential chain.
pub open spec fn sequential_squeeze() -> spec_fn(Seq<u8>, int) -> Seq<u8> {
    |stream: Seq<u8>, n: int| chain_squeeze(stream, n)
}

/// A squeeze interferes with nothing: what a history's later squeezes give is
/// what they give after its absorbed bytes alone, whatever squeezes came before
/// them.
pub proof fn finalizes_do_not_interfere(
    squeeze: spec_fn(Seq<u8>, int) -> Seq<u8>,
    calls: Seq<Call>,
    more: Seq<Call>,
)
    ensures
        absorbed(calls) == absorbed(absorbs(calls)),
        outputs(squeeze, Seq::empty(), absorbs(calls)).len() == 0,
        outputs(squeeze, Seq::empty(), calls + more) == outputs(squeeze, Seq::empty(), calls)
            + outputs(squeeze, absorbed(calls), more),
        outputs(squeeze, Seq::empty(), absorbs(calls) + more) == outputs(
            squeeze,
            absorbed(calls),
            more,
        ),
{
    lemma_absorbs(squeeze, calls);
    lemma_outputs_join(squeeze, calls, more);
    lemma_outputs_join(squeeze, absorbs(calls), more);
    assert(outputs(squeeze, Seq::empty(), absorbs(calls)) + outputs(
        squeeze,
        absorbed(calls),
        more,
    ) =~= outputs(squeeze, absorbed(calls), more));
}

proof fn lemma_absorbs(squeeze: spec_fn(Seq<u8>, int) -> Seq<u8>, calls: Seq<Call>)
    ensures
        absorbed(calls) == absorbed(absorbs(calls)),
        outputs(squeeze, Seq::empty(), absorbs(calls)).len() == 0,
    decreases calls.len(),
{
    if calls.len() > 0 {
        let rest = calls.drop_last();
        lemma_absorbs(squeeze, rest);
        if let Call::Absorb(bytes) = calls.last() {
            assert(absorbs(calls).drop_last() =~= absorbs(rest));
        }
    }
}

proof fn lemma_outputs_join(
    squeeze: spec_fn(Seq<u8>, int) -> Seq<u8>,
    calls: Seq<Call>,
    more: Seq<Call>,
)
    ensures
        absorbed(calls + more) == absorbed(calls) + absorbed(more),
        outputs(squeeze, Seq::empty(), calls + more) == outputs(squeeze, Seq::empty(), calls)
            + outputs(squeeze, absorbed(calls), more),
    decreases more.len(),
{
    if more.len() == 0 {
        assert(calls + more =~= calls);
        assert(absorbed(calls) + absorbed(more) =~= absorbed(calls));
        assert(outputs(squeeze, Seq::empty(), calls) + outputs(squeeze, absorbed(calls), more)
            =~= outputs(squeeze, Seq::empty(), calls));
    } else {
        let rest = more.drop_last();
        lemma_outputs_join(squeeze, calls, rest);
        assert((calls + more).drop_last() =~= calls + rest);
        assert((calls + more).last() == more.last());
        assert(Seq::<u8>::empty() + absorbed(calls + rest) =~= absorbed(calls) + absorbed(rest));
        match more.last() {
            Call::Absorb(bytes) => {
                assert(absorbed(calls + rest) + bytes =~= absorbed(calls) + (absorbed(rest)
                    + bytes));
            },
            Call::Finalize(n) => {
                let next = squeeze(absorbed(calls) + absorbed(rest), n as int);
                assert((outputs(squeeze, Seq::empty(), calls) + outputs(
                    squeeze,
                    absorbed(calls),
                    rest,
                )).push(next) =~= outputs(squeeze, Seq::empty(), calls) + outputs(
                    squeeze,
                    absorbed(calls),
                    rest,
                ).push(next));
            },
        }
    }
}

// ---------------------------------------------------------------------------
// The tree chain.
// ---------------------------------------------------------------------------

/// The tree chain as its contracts see it.
#[verifier::ext_equal]
pub struct ChainModel {
    pub shape: Shape,
    pub stream: Seq<u8>,
    pub squeezes: Seq<Seq<usize>>,
}

/// An empty tree chain.
pub open spec fn chain_start() -> ChainModel {
    ChainModel {
        shape: Shape { entries: Seq::empty(), cv_row: None, subtrees: Seq::empty() },
        stream: Seq::empty(),
        squeezes: Seq::empty(),
    }
}

/// Output rows of a squeeze of `n` bytes.
pub open spec fn squeeze_blocks(n: int) -> int {
    if n <= 64 {
        1
    } else {
        (n - 1) / 64 + 1
    }
}

/// The tree chain after one more call.
pub open spec fn chain_step(model: ChainModel, call: Call) -> ChainModel {
    match call {
        Call::Absorb(bytes) => {
            let stream = model.stream + bytes;
            ChainModel {
                shape: after_blocks(
                    model.shape,
                    stream,
                    full_blocks(model.stream.len() as int),
                    full_blocks(stream.len() as int),
                ),
                stream,
                ..model
            }
        },
        Call::Finalize(n) => ChainModel {
            shape: after_squeeze(model.shape, model.stream, n as int),
            squeezes: model.squeezes.push(
                consecutive(
                    model.shape.entries.len() + ones(full_blocks(model.stream.len() as int) / 16),
                    squeeze_blocks(n as int),
                ),
            ),
            ..model
        },
    }
}

/// The tree chain that a history leaves.
pub open spec fn chain_after(calls: Seq<Call>) -> ChainModel
    decreases calls.len(),
{
    if calls.len() == 0 {
        chain_start()
    } else {
        chain_step(chain_after(calls.drop_last()), calls.last())
    }
}

/// The rows that the squeezes of a history emit, where `rows` counts those of
/// one after so many bytes.
pub open spec fn finalize_rows(rows: spec_fn(int, int) -> int, calls: Seq<Call>) -> int
    decreases calls.len(),
{
    if calls.len() == 0 {
        0
    } else {
        let rest = calls.drop_last();
        finalize_rows(rows, rest) + match calls.last() {
            Call::Absorb(_) => 0,
            Call::Finalize(n) => rows(absorbed(rest).len() as int, n as int),
        }
    }
}

proof fn lemma_blocks_len(shape: Shape, s: Seq<u8>, from: int, to: int)
    requires
        0 <= from <= to,
    ensures
        after_blocks(shape, s, from, to).entries.len() - shape.entries.len() == (to + to / 16
            - ones(to / 16)) - (from + from / 16 - ones(from / 16)),
    decreases to - from,
{
    if from < to {
        let k = to - 1;
        lemma_blocks_len(shape, s, from, k);
        let before = after_blocks(shape, s, from, k);
        if k % 16 == 15 {
            let c = (k + 1) / 16;
            lemma_merge_count(c);
            assert(k / 16 == c - 1 && to / 16 == c);
            assert(after_block(before, s, k).entries.len() == before.entries.len() + 1
                + merge_count(c));
        } else {
            assert(to / 16 == k / 16);
        }
    }
}

/// A history's rows: those that the absorbed bytes give, by blocks and complete
/// chunks, and those of its squeezes; one squeeze is listed for each. The stream
/// is the absorbed bytes.
pub proof fn chain_rows_of_a_history(calls: Seq<Call>)
    ensures
        chain_after(calls).stream == absorbed(calls),
        chain_after(calls).shape.entries.len() == absorb_rows(absorbed(calls).len() as int)
            + finalize_rows(|len: int, n: int| squeeze_rows(len, n), calls),
        chain_after(calls).squeezes.len() == outputs(tree_squeeze(), Seq::empty(), calls).len(),
    decreases calls.len(),
{
    if calls.len() > 0 {
        let rest = calls.drop_last();
        chain_rows_of_a_history(rest);
        let before = chain_after(rest);
        let stream = absorbed(rest);
        match calls.last() {
            Call::Absorb(bytes) => {
                lemma_blocks_len(
                    before.shape,
                    stream + bytes,
                    full_blocks(stream.len() as int),
                    full_blocks((stream + bytes).len() as int),
                );
            },
            Call::Finalize(n) => {
                lemma_ones_range(full_blocks(stream.len() as int) / 16);
            },
        }
    } else {
        assert(ones(0) == 0);
    }
}

// ---------------------------------------------------------------------------
// The sequential chain.
// ---------------------------------------------------------------------------

/// The sequential chain as its contracts see it.
#[verifier::ext_equal]
pub struct SpongeModel {
    pub entries: Seq<Entry>,
    pub cv_row: Option<usize>,
    pub stream: Seq<u8>,
    pub squeezes: Seq<Seq<usize>>,
    pub requested: Seq<int>,
}

/// An empty sequential chain.
pub open spec fn sponge_start() -> SpongeModel {
    SpongeModel {
        entries: Seq::empty(),
        cv_row: None,
        stream: Seq::empty(),
        squeezes: Seq::empty(),
        requested: Seq::empty(),
    }
}

/// The sequential chain after one more call.
pub open spec fn sponge_step(model: SpongeModel, call: Call) -> SpongeModel {
    let base = model.entries.len() as int;
    match call {
        Call::Absorb(bytes) => {
            let stream = model.stream + bytes;
            let from = model.stream.len() as int / 64;
            let to = stream.len() as int / 64;
            SpongeModel {
                entries: model.entries + chain_entries(model.cv_row, base, stream, from, to),
                cv_row: chain_row(model.cv_row, base, to - from),
                stream,
                ..model
            }
        },
        Call::Finalize(n) => SpongeModel {
            entries: model.entries + chain_squeeze_entries(
                model.cv_row,
                base,
                model.stream,
                n as int,
            ),
            squeezes: model.squeezes.push(
                consecutive(
                    base + chain_squeeze_rows(model.stream.len() as int, 0),
                    (n as int + 63) / 64,
                ),
            ),
            requested: model.requested.push(n as int),
            ..model
        },
    }
}

/// The sequential chain that a history leaves.
pub open spec fn sponge_after(calls: Seq<Call>) -> SpongeModel
    decreases calls.len(),
{
    if calls.len() == 0 {
        sponge_start()
    } else {
        sponge_step(sponge_after(calls.drop_last()), calls.last())
    }
}

/// The rows that the absorbs of a history emit, in order.
pub open spec fn absorb_ids(calls: Seq<Call>) -> Seq<int>
    decreases calls.len(),
{
    if calls.len() == 0 {
        Seq::empty()
    } else {
        let rest = calls.drop_last();
        let from = sponge_after(rest).entries.len() as int;
        match calls.last() {
            Call::Absorb(_) => absorb_ids(rest) + Seq::new(
                (sponge_after(calls).entries.len() - from) as nat,
                |i: int| from + i,
            ),
            Call::Finalize(_) => absorb_ids(rest),
        }
    }
}

/// A history's rows outside its squeezes: one for every whole block of the
/// absorbed bytes, and row `i` of them is the absorb compression of block `i`,
/// however the bytes came. With the squeezes' rows these are all, and there is
/// one list and one requested length for each squeeze.
pub proof fn sponge_rows_of_a_history(calls: Seq<Call>)
    requires
        absorbed(calls).len() <= usize::MAX,
    ensures
        ({
            let model = sponge_after(calls);
            let s = absorbed(calls);
            &&& model.stream == s
            &&& absorb_ids(calls).len() == s.len() / 64
            &&& forall|i: int|
                0 <= i < s.len() / 64 ==> {
                    let row = #[trigger] absorb_ids(calls)[i];
                    &&& 0 <= row < model.entries.len()
                    &&& model.entries[row].node == chain_node(s, i)
                    &&& model.entries[row].offset == Some((64 * i) as usize)
                }
            &&& model.entries.len() == s.len() / 64 + finalize_rows(
                |len: int, n: int| chain_squeeze_rows(len, n),
                calls,
            )
            &&& model.squeezes.len() == outputs(sequential_squeeze(), Seq::empty(), calls).len()
            &&& model.requested.len() == model.squeezes.len()
        }),
    decreases calls.len(),
{
    if calls.len() > 0 {
        let rest = calls.drop_last();
        let before = sponge_after(rest);
        let model = sponge_after(calls);
        let s = absorbed(rest);
        let t = absorbed(calls);
        assert(s.len() <= t.len());
        sponge_rows_of_a_history(rest);
        let (from, to) = (s.len() as int / 64, t.len() as int / 64);
        assert(t.subrange(0, s.len() as int) =~= s);
        assert forall|i: int| 0 <= i < to implies ({
            let row = #[trigger] absorb_ids(calls)[i];
            &&& 0 <= row < model.entries.len()
            &&& model.entries[row].node == chain_node(t, i)
            &&& model.entries[row].offset == Some((64 * i) as usize)
        }) by {
            if i < from {
                let row = absorb_ids(rest)[i];
                assert(absorb_ids(calls)[i] == row);
                assert(model.entries[row] == before.entries[row]);
                lemma_chain_node_stable(s, t, i);
            } else if let Call::Absorb(bytes) = calls.last() {
                let added = chain_entries(
                    before.cv_row,
                    before.entries.len() as int,
                    t,
                    from,
                    to,
                );
                assert(absorb_ids(calls)[i] == before.entries.len() + (i - from));
                assert(model.entries[absorb_ids(calls)[i]] == added[i - from]);
            }
        }
        if let Call::Finalize(n) = calls.last() {
            assert(flush_entries(before.cv_row, s).len() == chain_squeeze_rows(s.len() as int, 0));
        }
    }
}

// ---------------------------------------------------------------------------
// Both chains.
// ---------------------------------------------------------------------------

/// A squeeze at the end of any history gives the output of all the absorbed
/// bytes in order, the streams of both chains are those bytes, and the same
/// squeeze again gives the same bytes.
pub proof fn finalize_reads_all_absorbed_bytes(calls: Seq<Call>, n: nat)
    ensures
        chain_after(calls).stream == absorbed(calls),
        sponge_after(calls).stream == absorbed(calls),
        ({
            let once = calls.push(Call::Finalize(n));
            let twice = once.push(Call::Finalize(n));
            let tree = tree_squeeze();
            let sequential = sequential_squeeze();
            &&& outputs(tree, Seq::empty(), once).last() == xof(absorbed(calls), n as int)
            &&& outputs(tree, Seq::empty(), twice).last() == xof(absorbed(calls), n as int)
            &&& outputs(sequential, Seq::empty(), once).last() == chain_squeeze(
                absorbed(calls),
                n as int,
            )
            &&& outputs(sequential, Seq::empty(), twice).last() == chain_squeeze(
                absorbed(calls),
                n as int,
            )
        }),
{
    let once = calls.push(Call::Finalize(n));
    let twice = once.push(Call::Finalize(n));
    chain_rows_of_a_history(calls);
    lemma_sponge_stream(calls);
    assert(once.drop_last() =~= calls);
    assert(twice.drop_last() =~= once);
    assert(absorbed(once) == absorbed(calls));
    assert(Seq::<u8>::empty() + absorbed(calls) =~= absorbed(calls));
}

proof fn lemma_sponge_stream(calls: Seq<Call>)
    ensures
        sponge_after(calls).stream == absorbed(calls),
    decreases calls.len(),
{
    if calls.len() > 0 {
        lemma_sponge_stream(calls.drop_last());
    }
}

/// How absorbed bytes are split does not show: two absorbs leave either chain as
/// one of all the bytes does, and absorbing nothing leaves it as it was.
pub proof fn splits_do_not_show(chain: ChainModel, sponge: SpongeModel, a: Seq<u8>, b: Seq<u8>)
    ensures
        chain_step(chain_step(chain, Call::Absorb(a)), Call::Absorb(b)) == chain_step(
            chain,
            Call::Absorb(a + b),
        ),
        sponge_step(sponge_step(sponge, Call::Absorb(a)), Call::Absorb(b)) == sponge_step(
            sponge,
            Call::Absorb(a + b),
        ),
        chain_step(chain, Call::Absorb(Seq::empty())) == chain,
        sponge_step(sponge, Call::Absorb(Seq::empty())) == sponge,
{
    absorbing_in_parts(chain.shape, chain.stream, a, b);
    assert(chain.stream + a + b =~= chain.stream + (a + b));
    assert(chain.stream + Seq::<u8>::empty() =~= chain.stream);
    let base = sponge.entries.len() as int;
    let s = sponge.stream;
    chaining_in_parts(sponge.cv_row, base, s, a, b);
    assert(s + a + b =~= s + (a + b));
    assert(s + Seq::<u8>::empty() =~= s);
    let (k0, k1) = (s.len() as int / 64, (s + a).len() as int / 64);
    let first = chain_entries(sponge.cv_row, base, s + a, k0, k1);
    let k2 = (s + a + b).len() as int / 64;
    let second = chain_entries(
        chain_row(sponge.cv_row, base, k1 - k0),
        base + k1 - k0,
        s + a + b,
        k1,
        k2,
    );
    assert(first.len() == k1 - k0);
    assert(sponge.entries + first + second =~= sponge.entries + (first + second));
    assert(sponge.entries + chain_entries(sponge.cv_row, base, s, k0, k0) =~= sponge.entries);
}

} // verus!
