//! How a trace of the tree hangs together: where each row's inputs come from, by
//! the places of the rows.
use vstd::arithmetic::power2::{lemma2_to64, lemma_pow2_strictly_increases, pow2};
use vstd::prelude::*;

use crate::blake3::{
    block_bytes, block_node, block_words, chunk_last_block, full_blocks, iv_words, lemma_low_bit,
    lemma_ones_range, low_bit, ones, root_node, tree_node, Node,
};
use crate::fs_chain::history::{absorbed, chain_after, Call};
use crate::fs_chain::links::squeezed_at;
use crate::fs_chain::shape::{
    after_block, after_blocks, after_squeeze, block_entry, lemma_merge_count, merge_count,
    merge_entries, merge_entry, rest, squeeze_entries, squeeze_entry, Entry, Shape,
};
use crate::fs_chain::{squeeze_rows, CvSource};

verus! {

/// Row `i` of the tree's trace. A further output row repeats a root row but for
/// its counter, which is how far behind the root it comes. A parent takes its
/// right half from the row just before it and its left half from a row before
/// that, neither of them a root. Any other row holds the block of the stream at
/// its offset; it starts from the initial value exactly at the start of a chunk,
/// and otherwise from the row of the block before.
pub open spec fn tree_linked(entries: Seq<Entry>, i: int, stream: Seq<u8>) -> bool {
    let e = entries[i];
    match (e.link.repeats, e.link.right) {
        (Some(r), _) => {
            &&& r < i
            &&& e.link.right is None
            &&& e.link.cv == CvSource::Iv
            &&& e.offset is None
            &&& entries[r as int].link.repeats is None
            &&& entries[r as int].node.flags >= 8
            &&& e.node == (Node { counter: (i - r) as u64, ..entries[r as int].node })
        },
        (None, Some(r)) => {
            &&& r == i - 1
            &&& entries[r as int].link.repeats is None
            &&& entries[r as int].node.flags < 8
            &&& match e.link.cv {
                CvSource::Iv => false,
                CvSource::Row(l) => l < r && entries[l as int].link.repeats is None
                    && entries[l as int].node.flags < 8,
            }
            &&& e.offset is None
            &&& e.node.cv == iv_words()
            &&& e.node.counter == 0
            &&& e.node.blen == 64
            &&& e.node.flags == 4 || e.node.flags == 12
        },
        (None, None) => match e.offset {
            Some(o) => {
                &&& o % 64 == 0
                &&& e.node.blen <= 64
                &&& o + e.node.blen <= stream.len()
                &&& e.node.block == block_words(stream.subrange(o as int, o + e.node.blen))
                &&& e.node.counter == o / 1024
                &&& e.node.flags % 2 == 1 <==> o % 1024 == 0
                &&& e.link.cv == CvSource::Iv <==> o % 1024 == 0
                &&& e.link.cv matches CvSource::Row(l) ==> l < i && entries[l as int].offset
                    == Some((o - 64) as usize) && entries[l as int].node.blen == 64
            },
            None => false,
        },
    }
}

/// The row may stand behind another row's input: it is no root and repeats none.
spec fn inner(entries: Seq<Entry>, r: usize) -> bool {
    &&& r < entries.len()
    &&& entries[r as int].link.repeats is None
    &&& entries[r as int].node.flags < 8
}

/// The live rows of a chain that has compressed `k` blocks.
spec fn tree_live(shape: Shape, k: int) -> bool {
    &&& match shape.cv_row {
        None => k % 16 == 0,
        Some(r) => {
            &&& k % 16 != 0
            &&& r < shape.entries.len()
            &&& shape.entries[r as int].offset == Some((64 * (k - 1)) as usize)
            &&& shape.entries[r as int].node.blen == 64
        },
    }
    &&& shape.subtrees.len() == ones(k / 16)
    &&& forall|j: int|
        0 <= j < shape.subtrees.len() ==> inner(shape.entries, #[trigger] shape.subtrees[j])
}

/// Every row so far is linked.
spec fn all_linked(entries: Seq<Entry>, stream: Seq<u8>) -> bool {
    forall|i: int| 0 <= i < entries.len() ==> #[trigger] tree_linked(entries, i, stream)
}

proof fn lemma_tree_grows(entries: Seq<Entry>, more: Seq<Entry>, s: Seq<u8>, t: Seq<u8>)
    requires
        all_linked(entries, s),
        s.len() <= t.len(),
        t.take(s.len() as int) == s,
    ensures
        forall|i: int|
            0 <= i < entries.len() ==> #[trigger] tree_linked(entries + more, i, t),
        forall|r: usize| #[trigger] inner(entries, r) ==> inner(entries + more, r),
{
    let all = entries + more;
    assert forall|i: int| 0 <= i < entries.len() implies #[trigger] tree_linked(all, i, t) by {
        assert(tree_linked(entries, i, s));
        assert(all[i] == entries[i]);
        if let Some(r) = entries[i].link.repeats {
            assert(all[r as int] == entries[r as int]);
        } else if let Some(r) = entries[i].link.right {
            assert(all[r as int] == entries[r as int]);
        }
        if let CvSource::Row(l) = entries[i].link.cv {
            if l < entries.len() {
                assert(all[l as int] == entries[l as int]);
            }
        }
        if let Some(o) = entries[i].offset {
            let n = entries[i].node.blen;
            if entries[i].link.repeats is None && entries[i].link.right is None {
                assert(t.subrange(o as int, o + n) =~= s.subrange(o as int, o + n)) by {
                    assert forall|k: int| 0 <= k < s.len() implies #[trigger] s[k] == t[k] by {
                        assert(t.take(s.len() as int)[k] == t[k]);
                    }
                }
            }
        }
    }
    assert forall|r: usize| #[trigger] inner(entries, r) implies inner(all, r) by {
        assert(all[r as int] == entries[r as int]);
    }
}

/// The node of block `k` by its offset.
proof fn lemma_block_fields(stream: Seq<u8>, k: int, last: bool)
    requires
        0 <= k,
        64 * k <= stream.len() <= usize::MAX,
    ensures
        ({
            let node = block_node(stream, k, last);
            let n = block_bytes(stream, k).len() as int;
            &&& node.blen == n
            &&& n <= 64
            &&& 64 * k + n <= stream.len()
            &&& 64 * k + 64 <= stream.len() ==> n == 64
            &&& node.block == block_words(stream.subrange(64 * k, 64 * k + n))
            &&& node.counter == k / 16
            &&& node.flags < 4
            &&& node.flags % 2 == 1 <==> k % 16 == 0
        }),
{
    let n = block_bytes(stream, k).len() as int;
    assert(block_bytes(stream, k) =~= stream.subrange(64 * k, 64 * k + n));
}

/// Compressing one more block keeps every row linked.
#[verifier::rlimit(40)]
proof fn lemma_block_step(shape: Shape, s: Seq<u8>, k: int)
    requires
        0 <= k,
        64 * k + 64 <= s.len() <= usize::MAX,
        tree_live(shape, k),
        all_linked(shape.entries, s),
        after_block(shape, s, k).entries.len() <= usize::MAX,
    ensures
        tree_live(after_block(shape, s, k), k + 1),
        all_linked(after_block(shape, s, k).entries, s),
{
    let after = after_block(shape, s, k);
    let base = shape.entries.len() as int + 1;
    let block = block_entry(shape.cv_row, s, k);
    let c = (k + 1) / 16;
    let n = merge_count(c);
    let merges = if k % 16 == 15 {
        merge_entries(shape.subtrees, base, s, c, n)
    } else {
        seq![]
    };
    let more = seq![block] + merges;
    assert(after.entries =~= shape.entries + more);
    assert(s.take(s.len() as int) =~= s);
    lemma_tree_grows(shape.entries, more, s, s);
    lemma_block_fields(s, k, k % 16 == 15);
    let all = after.entries;
    assert(all[base - 1] == block);
    assert((64 * k) % 1024 == 0 <==> k % 16 == 0);
    assert((64 * k) / 1024 == k / 16);
    if let Some(r) = shape.cv_row {
        assert(all[r as int] == shape.entries[r as int]);
    }
    assert(tree_linked(all, base - 1, s));
    assert(inner(all, (base - 1) as usize));
    if k % 16 == 15 {
        lemma_merge_count(c);
        lemma_ones_range(c);
        lemma_ones_range(c - 1);
        assert(k / 16 == c - 1 && (k + 1) % 16 == 0);
        assert(ones(c) >= 1) by {
            lemma_ones_positive(c);
        }
        assert(n <= shape.subtrees.len());
        lemma_merges_linked(shape, s, k, all, n);
        assert forall|j: int| 0 <= j < after.subtrees.len() implies inner(
            all,
            #[trigger] after.subtrees[j],
        ) by {
            if j < after.subtrees.len() - 1 {
                assert(after.subtrees[j] == shape.subtrees[j]);
                assert(inner(shape.entries, shape.subtrees[j]));
            } else if n > 0 {
                assert(inner(all, (base + n - 1) as usize));
            }
        }
        assert forall|i: int| 0 <= i < all.len() implies #[trigger] tree_linked(all, i, s) by {
            if i >= base {
                assert(tree_linked(all, base + (i - base), s));
            }
        }
    } else {
        assert((k + 1) / 16 == k / 16 && (k + 1) % 16 != 0);
        assert forall|j: int| 0 <= j < after.subtrees.len() implies inner(
            all,
            #[trigger] after.subtrees[j],
        ) by {
            assert(inner(shape.entries, shape.subtrees[j]));
        }
        assert forall|i: int| 0 <= i < all.len() implies #[trigger] tree_linked(all, i, s) by {}
    }
}

proof fn lemma_ones_positive(c: int)
    requires
        c > 0,
    ensures
        ones(c) >= 1,
    decreases c,
{
    if c % 2 == 0 {
        lemma_ones_positive(c / 2);
    } else {
        lemma_ones_range(c / 2);
    }
}

/// The merges of a completed chunk.
proof fn lemma_merges_linked(shape: Shape, s: Seq<u8>, k: int, all: Seq<Entry>, n: int)
    requires
        k % 16 == 15,
        0 <= k,
        tree_live(shape, k),
        0 <= n <= shape.subtrees.len(),
        n == merge_count((k + 1) / 16),
        all == after_block(shape, s, k).entries,
        all.len() <= usize::MAX,
        inner(all, shape.entries.len() as usize),
        forall|r: usize| #[trigger] inner(shape.entries, r) ==> inner(all, r),
    ensures
        forall|j: int|
            0 <= j < n ==> #[trigger] tree_linked(all, shape.entries.len() + 1 + j, s),
        forall|j: int|
            0 <= j < n ==> inner(all, #[trigger] ((shape.entries.len() + 1 + j) as usize)),
{
    let base = shape.entries.len() as int + 1;
    let c = (k + 1) / 16;
    assert forall|j: int| 0 <= j < n implies inner(
        all,
        #[trigger] ((shape.entries.len() + 1 + j) as usize),
    ) by {
        assert(all[base + j] == merge_entry(shape.subtrees, base, s, c, j));
        lemma_parent_fields(s, c - pow2((j + 1) as nat), j);
    }
    assert forall|j: int| 0 <= j < n implies #[trigger] tree_linked(
        all,
        shape.entries.len() + 1 + j,
        s,
    ) by {
        assert(all[base + j] == merge_entry(shape.subtrees, base, s, c, j));
        lemma_parent_fields(s, c - pow2((j + 1) as nat), j);
        let left = shape.subtrees[shape.subtrees.len() - 1 - j];
        assert(inner(shape.entries, left));
        assert(inner(all, left));
        if j > 0 {
            assert(inner(all, (shape.entries.len() + 1 + (j - 1)) as usize));
        }
    }
}

/// A subtree of two or more chunks is a parent.
proof fn lemma_parent_fields(s: Seq<u8>, from: int, j: int)
    requires
        0 <= j,
    ensures
        ({
            let node = tree_node(s, from, pow2((j + 1) as nat) as int);
            node.flags == 4 && node.counter == 0 && node.blen == 64 && node.cv == iv_words()
        }),
{
    lemma2_to64();
    if j > 0 {
        lemma_pow2_strictly_increases(1, (j + 1) as nat);
    }
}

proof fn lemma_blocks_linked(shape: Shape, s: Seq<u8>, from: int, to: int)
    requires
        0 <= from <= to,
        64 * to <= s.len() <= usize::MAX,
        tree_live(shape, from),
        all_linked(shape.entries, s),
        after_blocks(shape, s, from, to).entries.len() <= usize::MAX,
    ensures
        tree_live(after_blocks(shape, s, from, to), to),
        all_linked(after_blocks(shape, s, from, to).entries, s),
        shape.entries.len() <= after_blocks(shape, s, from, to).entries.len(),
        after_blocks(shape, s, from, to).entries.take(shape.entries.len() as int)
            == shape.entries,
    decreases to - from,
{
    if from < to {
        let before = after_blocks(shape, s, from, to - 1);
        let after = after_blocks(shape, s, from, to);
        if (to - 1) % 16 == 15 {
            lemma_merge_count(to / 16);
        }
        assert(before.entries.len() < after.entries.len());
        lemma_blocks_linked(shape, s, from, to - 1);
        lemma_block_step(before, s, to - 1);
        assert(after.entries.take(shape.entries.len() as int) =~= before.entries.take(
            shape.entries.len() as int,
        ));
    } else {
        assert(shape.entries.take(shape.entries.len() as int) =~= shape.entries);
    }
}

proof fn lemma_rest(c: int, i: int)
    requires
        0 <= i,
    ensures
        rest(c, i) <= c - i,
    decreases i,
{
    if i > 0 {
        lemma_rest(c, i - 1);
        if rest(c, i - 1) > 0 {
            lemma_low_bit(rest(c, i - 1));
        }
        assert(low_bit(rest(c, i - 1)) >= 1);
    }
}

/// A finalization's rows are linked, and its output rows follow its root.
#[verifier::rlimit(60)]
proof fn lemma_squeeze_linked(shape: Shape, s: Seq<u8>, n: int)
    requires
        0 <= n,
        s.len() <= usize::MAX,
        tree_live(shape, full_blocks(s.len() as int)),
        all_linked(shape.entries, s),
        after_squeeze(shape, s, n).entries.len() <= usize::MAX,
    ensures
        ({
            let all = after_squeeze(shape, s, n).entries;
            let base = shape.entries.len() as int;
            let depth = ones(full_blocks(s.len() as int) / 16);
            &&& all_linked(all, s)
            &&& tree_live(after_squeeze(shape, s, n), full_blocks(s.len() as int))
            &&& all[base].offset matches Some(o) && o + all[base].node.blen == s.len()
            &&& all[base + depth].link.repeats is None
            &&& all[base + depth].node.flags >= 8
            &&& forall|i: int|
                base + depth < i < all.len() ==> (#[trigger] all[i]).link.repeats == Some(
                    (base + depth) as usize,
                )
        }),
{
    let blocks = full_blocks(s.len() as int);
    let c = blocks / 16;
    let depth = ones(c);
    let base = shape.entries.len() as int;
    let rows = squeeze_rows(s.len() as int, n);
    let more = squeeze_entries(shape, s, rows);
    let all = after_squeeze(shape, s, n).entries;
    lemma_ones_range(c);
    assert(all =~= shape.entries + more);
    assert(s.take(s.len() as int) =~= s);
    lemma_tree_grows(shape.entries, more, s, s);
    assert(chunk_last_block(s, c) == blocks);
    lemma_block_fields(s, blocks, true);
    assert((64 * blocks) % 1024 == 0 <==> blocks % 16 == 0);
    assert((64 * blocks) / 1024 == c);
    assert(block_bytes(s, blocks).len() == s.len() - 64 * blocks);
    if depth > 0 {
        assert(c > 0) by {
            if c <= 0 {
                assert(ones(c) == 0);
            }
        }
    } else if c > 0 {
        lemma_ones_positive(c);
    }
    assert(all[base] == squeeze_entry(shape, s, 0));
    if depth == 0 {
        assert(root_node(s).flags == block_node(s, blocks, true).flags + 8);
    } else {
        assert(root_node(s).flags == 12);
        assert(all[base].node == block_node(s, blocks, true)) by {
            assert(rest(c, 0) == c);
        }
    }
    if let Some(r) = shape.cv_row {
        assert(all[r as int] == shape.entries[r as int]);
    }
    assert(tree_linked(all, base, s));
    assert forall|i: int| 0 <= i <= depth implies ({
        &&& (#[trigger] all[base + i]).link.repeats is None
        &&& i < depth ==> all[base + i].node.flags < 8
        &&& i > 0 ==> all[base + i].node.counter == 0 && all[base + i].node.blen == 64
            && all[base + i].node.cv == iv_words() && (all[base + i].node.flags == 4
            || all[base + i].node.flags == 12)
    }) by {
        assert(all[base + i] == squeeze_entry(shape, s, i));
        lemma_rest(c, i);
    }
    assert forall|i: int| 0 <= i < all.len() implies #[trigger] tree_linked(all, i, s) by {
        let j = i - base;
        if j > depth {
            assert(all[i] == squeeze_entry(shape, s, j));
            assert(all[base + depth] == squeeze_entry(shape, s, depth));
        } else if j > 0 {
            assert(all[base + j] == squeeze_entry(shape, s, j));
            assert(all[base + (j - 1)].link.repeats is None);
            assert(inner(shape.entries, shape.subtrees[depth - j]));
            assert(inner(all, shape.subtrees[depth - j]));
        }
    }
    assert forall|j: int| 0 <= j < shape.subtrees.len() implies inner(
        all,
        #[trigger] shape.subtrees[j],
    ) by {
        assert(inner(shape.entries, shape.subtrees[j]));
    }
    assert(all[base + depth].node == root_node(s));
    assert forall|i: int| base + depth < i < all.len() implies (#[trigger] all[i]).link.repeats
        == Some((base + depth) as usize) by {
        assert(all[i] == squeeze_entry(shape, s, i - base));
    }
}

/// The rows that one squeeze names: the root, and the rows that repeat it.
pub open spec fn names_a_root(entries: Seq<Entry>, ids: Seq<usize>, n: int) -> bool {
    &&& ids.len() == if n <= 64 {
        1
    } else {
        (n + 63) / 64
    }
    &&& ids[0] < entries.len()
    &&& entries[ids[0] as int].link.repeats is None
    &&& entries[ids[0] as int].node.flags >= 8
    &&& forall|j: int|
        0 < j < ids.len() ==> {
            &&& (#[trigger] ids[j]) == ids[0] + j
            &&& ids[j] < entries.len()
            &&& entries[ids[j] as int].link.repeats == Some(ids[0])
        }
}

/// The lengths that a history's squeezes ask for.
pub open spec fn asked(calls: Seq<Call>) -> Seq<nat>
    decreases calls.len(),
{
    if calls.len() == 0 {
        Seq::empty()
    } else {
        match calls.last() {
            Call::Absorb(_) => asked(calls.drop_last()),
            Call::Finalize(n) => asked(calls.drop_last()).push(n),
        }
    }
}

/// The pending row of a squeeze ends where the bytes absorbed by then end; it
/// stands as many rows before the root as there were complete subtrees.
pub open spec fn reads_up_to(entries: Seq<Entry>, root: int, len: nat) -> bool {
    let pending = root - ones(full_blocks(len as int) / 16);
    &&& 0 <= pending < entries.len()
    &&& match entries[pending].offset {
        Some(o) => o + entries[pending].node.blen == len,
        None => false,
    }
}

/// Whatever was called, the trace is one tree: every block's row holds the block
/// of the absorbed bytes at its offset and follows the row of the block before,
/// every parent joins two rows before it, and every squeeze names its root and
/// the rows that repeat it, over the bytes absorbed by then.
pub proof fn tree_traces_hang_together(calls: Seq<Call>)
    requires
        absorbed(calls).len() <= usize::MAX,
        chain_after(calls).shape.entries.len() <= usize::MAX,
    ensures
        ({
            let model = chain_after(calls);
            let entries = model.shape.entries;
            &&& model.stream == absorbed(calls)
            &&& forall|i: int|
                0 <= i < entries.len() ==> #[trigger] tree_linked(entries, i, absorbed(calls))
            &&& model.squeezes.len() == squeezed_at(calls).len()
            &&& asked(calls).len() == squeezed_at(calls).len()
            &&& forall|q: int|
                0 <= q < model.squeezes.len() ==> names_a_root(
                    entries,
                    #[trigger] model.squeezes[q],
                    asked(calls)[q] as int,
                ) && reads_up_to(entries, model.squeezes[q][0] as int, squeezed_at(calls)[q])
        }),
{
    lemma_tree_history(calls);
}

#[verifier::rlimit(60)]
proof fn lemma_tree_history(calls: Seq<Call>)
    requires
        absorbed(calls).len() <= usize::MAX,
        chain_after(calls).shape.entries.len() <= usize::MAX,
    ensures
        ({
            let model = chain_after(calls);
            let entries = model.shape.entries;
            &&& model.stream == absorbed(calls)
            &&& all_linked(entries, absorbed(calls))
            &&& tree_live(model.shape, full_blocks(absorbed(calls).len() as int))
            &&& model.squeezes.len() == squeezed_at(calls).len()
            &&& asked(calls).len() == squeezed_at(calls).len()
            &&& forall|q: int|
                0 <= q < model.squeezes.len() ==> names_a_root(
                    entries,
                    #[trigger] model.squeezes[q],
                    asked(calls)[q] as int,
                ) && reads_up_to(entries, model.squeezes[q][0] as int, squeezed_at(calls)[q])
        }),
    decreases calls.len(),
{
    if calls.len() > 0 {
        let before_calls = calls.drop_last();
        let before = chain_after(before_calls);
        let model = chain_after(calls);
        let s = absorbed(before_calls);
        let t = absorbed(calls);
        assert(s.len() <= t.len());
        assert(t.take(s.len() as int) =~= s);
        crate::fs_chain::history::chain_rows_of_a_history(before_calls);
        let base = before.shape.entries.len() as int;
        match calls.last() {
            Call::Absorb(bytes) => {
                let (from, to) = (full_blocks(s.len() as int), full_blocks(t.len() as int));
                assert(base <= model.shape.entries.len()) by {
                    lemma_blocks_more(before.shape, t, from, to);
                }
                lemma_tree_history(before_calls);
                lemma_tree_grows(before.shape.entries, seq![], s, t);
                assert(before.shape.entries + seq![] =~= before.shape.entries);
                lemma_blocks_linked(before.shape, t, from, to);
            },
            Call::Finalize(n) => {
                lemma_ones_range(full_blocks(s.len() as int) / 16);
                assert(base <= model.shape.entries.len());
                lemma_tree_history(before_calls);
                lemma_squeeze_linked(before.shape, s, n as int);
                assert(model.shape.entries.take(base) =~= before.shape.entries);
            },
        }
        let entries = model.shape.entries;
        assert forall|i: int| 0 <= i < base implies #[trigger] entries[i]
            == before.shape.entries[i] by {
            assert(entries.take(base)[i] == entries[i]);
        }
        assert forall|q: int| 0 <= q < model.squeezes.len() implies names_a_root(
            entries,
            #[trigger] model.squeezes[q],
            asked(calls)[q] as int,
        ) && reads_up_to(entries, model.squeezes[q][0] as int, squeezed_at(calls)[q]) by {
            if q < before.squeezes.len() {
                assert(names_a_root(
                    before.shape.entries,
                    before.squeezes[q],
                    asked(before_calls)[q] as int,
                ));
                assert(model.squeezes[q] == before.squeezes[q]);
            }
        }
    } else {
        assert(ones(0) == 0);
    }
}

proof fn lemma_blocks_more(shape: Shape, s: Seq<u8>, from: int, to: int)
    requires
        0 <= from,
    ensures
        shape.entries.len() <= after_blocks(shape, s, from, to).entries.len(),
    decreases to - from,
{
    if from < to {
        lemma_blocks_more(shape, s, from, to - 1);
    }
}

} // verus!
