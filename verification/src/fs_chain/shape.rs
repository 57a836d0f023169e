//! What the chains emit: the rows with their links and block offsets, as a
//! function of the bytes absorbed and the squeezes taken.
use vstd::arithmetic::power2::{lemma2_to64, lemma_pow2_pos, lemma_pow2_unfold, pow2};
use vstd::prelude::*;

use crate::blake3::{
    block_node, full_blocks, lemma_block_stable, lemma_low_bit, lemma_ones_range,
    lemma_tree_stable, low_bit, node_of, ones, root_node, tree_node, Compression, Node, ROOT,
};
use crate::fs_chain::{
    chain_node, squeeze_node, squeeze_rows, CvSource, Link, CHAIN_ABSORB, CHAIN_SQUEEZE,
};

verus! {

/// A row with where its inputs come from.
#[verifier::ext_equal]
pub struct Entry {
    pub node: Node,
    pub link: Link,
    pub offset: Option<usize>,
}

/// The emitted rows, the row behind the current chunk's chaining value and the
/// rows behind the complete subtrees.
#[verifier::ext_equal]
pub struct Shape {
    pub entries: Seq<Entry>,
    pub cv_row: Option<usize>,
    pub subtrees: Seq<usize>,
}

/// The rows with their links and offsets.
pub open spec fn entries_of(
    rows: Seq<Compression>,
    links: Seq<Link>,
    offsets: Seq<Option<usize>>,
) -> Seq<Entry> {
    Seq::new(
        rows.len(),
        |i: int| Entry { node: node_of(rows[i]), link: links[i], offset: offsets[i] },
    )
}

/// Where a chaining value comes from: an earlier row, or the initial value.
pub open spec fn source(row: Option<usize>) -> CvSource {
    match row {
        None => CvSource::Iv,
        Some(r) => CvSource::Row(r),
    }
}

/// The link of a row that takes a chaining value alone.
pub open spec fn chained(cv: CvSource) -> Link {
    Link { cv, right: None, repeats: None }
}

/// The row of block `k` of the stream.
pub open spec fn block_entry(cv_row: Option<usize>, stream: Seq<u8>, k: int) -> Entry {
    Entry {
        node: block_node(stream, k, k % 16 == 15),
        link: chained(source(cv_row)),
        offset: Some((64 * k) as usize),
    }
}

/// The merges that completing the `c`-th chunk makes: the trailing zeros of `c`.
pub open spec fn merge_count(c: int) -> int {
    1 + ones(c - 1) - ones(c)
}

/// Merge `j` on completing the `c`-th chunk, whose last block is row
/// `base - 1`: the subtree over the last `2^(j + 1)` chunks.
pub open spec fn merge_entry(
    subtrees: Seq<usize>,
    base: int,
    stream: Seq<u8>,
    c: int,
    j: int,
) -> Entry {
    Entry {
        node: tree_node(stream, c - pow2((j + 1) as nat), pow2((j + 1) as nat) as int),
        link: Link {
            cv: CvSource::Row(subtrees[subtrees.len() - 1 - j]),
            right: Some((base + j - 1) as usize),
            repeats: None,
        },
        offset: None,
    }
}

/// The first `n` merges on completing the `c`-th chunk.
pub open spec fn merge_entries(
    subtrees: Seq<usize>,
    base: int,
    stream: Seq<u8>,
    c: int,
    n: int,
) -> Seq<Entry> {
    Seq::new(n as nat, |j: int| merge_entry(subtrees, base, stream, c, j))
}

/// Compressing block `k` of the stream: its row and, where it ends a chunk,
/// the merges.
pub open spec fn after_block(shape: Shape, stream: Seq<u8>, k: int) -> Shape {
    let entries = shape.entries.push(block_entry(shape.cv_row, stream, k));
    let base = entries.len() as int;
    if k % 16 == 15 {
        let c = (k + 1) / 16;
        let n = merge_count(c);
        Shape {
            entries: entries + merge_entries(shape.subtrees, base, stream, c, n),
            cv_row: None,
            subtrees: shape.subtrees.take(shape.subtrees.len() - n).push((base + n - 1) as usize),
        }
    } else {
        Shape { entries, cv_row: Some((base - 1) as usize), subtrees: shape.subtrees }
    }
}

/// Compressing the blocks from `from` up to `to` of the stream.
pub open spec fn after_blocks(shape: Shape, stream: Seq<u8>, from: int, to: int) -> Shape
    decreases to - from,
{
    if to <= from {
        shape
    } else {
        after_block(after_blocks(shape, stream, from, to - 1), stream, to - 1)
    }
}

/// Chunk `c` and the `j` lowest complete subtrees before it start at this
/// chunk.
pub open spec fn rest(c: int, j: int) -> int
    decreases j,
{
    if j <= 0 {
        c
    } else {
        rest(c, j - 1) - low_bit(rest(c, j - 1))
    }
}

/// Row `i` of a finalization: the pending block, a merge with each complete
/// subtree from the last one down, and the further output blocks. The root is
/// the last of those before the further blocks.
pub open spec fn squeeze_entry(shape: Shape, stream: Seq<u8>, i: int) -> Entry {
    let base = shape.entries.len() as int;
    let blocks = full_blocks(stream.len() as int);
    let c = blocks / 16;
    let depth = ones(c);
    if i > depth {
        Entry {
            node: Node { counter: (i - depth) as u64, ..root_node(stream) },
            link: Link { cv: CvSource::Iv, right: None, repeats: Some((base + depth) as usize) },
            offset: None,
        }
    } else {
        Entry {
            node: if i == depth {
                root_node(stream)
            } else {
                tree_node(stream, rest(c, i), c + 1 - rest(c, i))
            },
            link: if i == 0 {
                chained(source(shape.cv_row))
            } else {
                Link {
                    cv: CvSource::Row(shape.subtrees[depth - i]),
                    right: Some((base + i - 1) as usize),
                    repeats: None,
                }
            },
            offset: if i == 0 {
                Some((64 * blocks) as usize)
            } else {
                None
            },
        }
    }
}

/// The first `n` rows of a finalization.
pub open spec fn squeeze_entries(shape: Shape, stream: Seq<u8>, n: int) -> Seq<Entry> {
    Seq::new(n as nat, |i: int| squeeze_entry(shape, stream, i))
}

/// A finalization adds its rows and nothing else.
pub open spec fn after_squeeze(shape: Shape, stream: Seq<u8>, n: int) -> Shape {
    Shape {
        entries: shape.entries + squeeze_entries(
            shape,
            stream,
            squeeze_rows(stream.len() as int, n),
        ),
        ..shape
    }
}

/// `n` rows in a row, from `first` on.
pub open spec fn consecutive(first: int, n: int) -> Seq<usize> {
    Seq::new(n as nat, |j: int| (first + j) as usize)
}

/// The row is an output row of one of the squeezes.
pub open spec fn listed(squeezes: Seq<Vec<usize>>, i: int) -> bool {
    exists|q: int, j: int|
        0 <= q < squeezes.len() && 0 <= j < squeezes[q]@.len() && #[trigger] squeezes[q]@[j] == i
}

/// Read through, the squeezes name ever later rows among the first `n`.
pub open spec fn in_order(squeezes: Seq<Vec<usize>>, n: int) -> bool {
    &&& forall|q: int, j: int|
        0 <= q < squeezes.len() && 0 <= j < squeezes[q]@.len() ==> #[trigger] squeezes[q]@[j] < n
    &&& forall|q: int, j: int, r: int, l: int|
        0 <= q <= r < squeezes.len() && 0 <= j < squeezes[q]@.len() && 0 <= l < squeezes[r]@.len()
            && (q < r || j < l) ==> #[trigger] squeezes[q]@[j] < #[trigger] squeezes[r]@[l]
}

/// A row of the tree has an offset exactly where it takes neither a right half
/// nor a root's inputs; offsets are multiples of the block length.
pub open spec fn offset_fits(e: Entry) -> bool {
    &&& e.offset is Some <==> e.link.right is None && e.link.repeats is None
    &&& e.offset matches Some(o) ==> o % 64 == 0
}

/// The rows of the tree chain: their offsets fit, and the ones that carry the
/// root flag are the output rows, which the squeezes name in order.
pub open spec fn traced(entries: Seq<Entry>, squeezes: Seq<Vec<usize>>) -> bool {
    &&& in_order(squeezes, entries.len() as int)
    &&& forall|i: int|
        0 <= i < entries.len() ==> {
            let e = #[trigger] entries[i];
            offset_fits(e) && (e.node.flags >= ROOT <==> listed(squeezes, i))
        }
}

pub(crate) proof fn lemma_traced_grows(
    entries: Seq<Entry>,
    more: Seq<Entry>,
    squeezes: Seq<Vec<usize>>,
)
    requires
        traced(entries, squeezes),
        forall|i: int|
            0 <= i < more.len() ==> offset_fits(#[trigger] more[i]) && more[i].node.flags < ROOT,
    ensures
        traced(entries + more, squeezes),
{
    let all = entries + more;
    assert forall|i: int| 0 <= i < all.len() implies ({
        let e = #[trigger] all[i];
        offset_fits(e) && (e.node.flags >= ROOT <==> listed(squeezes, i))
    }) by {
        if i < entries.len() {
            assert(all[i] == entries[i]);
        } else {
            assert(all[i] == more[i - entries.len()]);
        }
    }
}

/// A squeeze whose ids come after the `n` rows keeps the order.
pub(crate) proof fn lemma_order_grows(squeezes: Seq<Vec<usize>>, ids: Vec<usize>, n: int, m: int)
    requires
        in_order(squeezes, n),
        n <= m,
        forall|j: int| 0 <= j < ids@.len() ==> n <= #[trigger] ids@[j] < m,
        forall|j: int, l: int|
            0 <= j < l < ids@.len() ==> #[trigger] ids@[j] < #[trigger] ids@[l],
    ensures
        in_order(squeezes.push(ids), m),
        forall|i: int|
            #[trigger] listed(squeezes.push(ids), i) <==> listed(squeezes, i) || ids@.contains(
                i as usize,
            ) && 0 <= i <= usize::MAX,
{
    let all = squeezes.push(ids);
    assert forall|q: int, j: int|
        0 <= q < all.len() && 0 <= j < all[q]@.len() implies #[trigger] all[q]@[j] < m by {
        if q < squeezes.len() {
            assert(squeezes[q]@[j] < n);
        }
    }
    assert forall|q: int, j: int, r: int, l: int|
        0 <= q <= r < all.len() && 0 <= j < all[q]@.len() && 0 <= l < all[r]@.len() && (q < r || j
            < l) implies #[trigger] all[q]@[j] < #[trigger] all[r]@[l] by {
        if q < squeezes.len() {
            assert(squeezes[q]@[j] < n);
            if r < squeezes.len() {
                assert(squeezes[q]@[j] < squeezes[r]@[l]);
            }
        }
    }
    assert forall|i: int| #[trigger] listed(all, i) <==> listed(squeezes, i) || ids@.contains(
        i as usize,
    ) && 0 <= i <= usize::MAX by {
        if listed(all, i) {
            let (q, j) = choose|q: int, j: int|
                0 <= q < all.len() && 0 <= j < all[q]@.len() && #[trigger] all[q]@[j] == i;
            if q < squeezes.len() {
                assert(squeezes[q]@[j] == i);
            } else {
                assert(ids@[j] == i);
            }
        }
        if listed(squeezes, i) {
            let (q, j) = choose|q: int, j: int|
                0 <= q < squeezes.len() && 0 <= j < squeezes[q]@.len()
                    && #[trigger] squeezes[q]@[j] == i;
            assert(all[q]@[j] == i);
        }
        if ids@.contains(i as usize) && 0 <= i <= usize::MAX {
            let j = choose|j: int| 0 <= j < ids@.len() && ids@[j] == i as usize;
            assert(all[squeezes.len() as int]@[j] == i);
        }
    }
}

pub(crate) proof fn lemma_traced_squeeze(
    entries: Seq<Entry>,
    more: Seq<Entry>,
    squeezes: Seq<Vec<usize>>,
    ids: Vec<usize>,
    first: int,
)
    requires
        traced(entries, squeezes),
        0 <= first <= more.len(),
        entries.len() + more.len() <= usize::MAX,
        forall|i: int|
            0 <= i < more.len() ==> offset_fits(#[trigger] more[i]) && (more[i].node.flags >= ROOT
                <==> i >= first),
        ids@ == consecutive(entries.len() + first, more.len() - first),
    ensures
        traced(entries + more, squeezes.push(ids)),
{
    let all = entries + more;
    lemma_order_grows(squeezes, ids, entries.len() as int, all.len() as int);
    assert forall|i: int| 0 <= i < all.len() implies ({
        let e = #[trigger] all[i];
        offset_fits(e) && (e.node.flags >= ROOT <==> listed(squeezes.push(ids), i))
    }) by {
        if i < entries.len() {
            assert(all[i] == entries[i]);
        } else {
            assert(all[i] == more[i - entries.len()]);
            if i >= entries.len() + first {
                assert(ids@[i - entries.len() - first] == i as usize);
            }
        }
    }
}

/// The merges of a completed chunk stay within the chunks before it.
pub(crate) proof fn lemma_merge_count(c: int)
    requires
        c > 0,
    ensures
        0 <= merge_count(c),
        pow2(merge_count(c) as nat) == low_bit(c),
        low_bit(c) <= c,
    decreases c,
{
    lemma2_to64();
    lemma_low_bit(c);
    if c % 2 == 1 {
        assert((c - 1) / 2 == c / 2);
        lemma_ones_range(c / 2);
        if c - 1 > 0 {
            assert(ones(c - 1) == (c - 1) % 2 + ones((c - 1) / 2));
        } else {
            assert(ones(c / 2) == 0);
        }
    } else {
        lemma_merge_count(c / 2);
        assert((c - 1) / 2 == c / 2 - 1);
        assert(ones(c - 1) == 1 + ones(c / 2 - 1));
        lemma_pow2_unfold(merge_count(c) as nat);
    }
}

pub(crate) proof fn lemma_merge_fits(c: int, j: int)
    requires
        c > 0,
        0 <= j < merge_count(c),
    ensures
        1 <= pow2((j + 1) as nat) <= c,
{
    lemma_merge_count(c);
    lemma_pow2_pos((j + 1) as nat);
    if j + 1 < merge_count(c) {
        vstd::arithmetic::power2::lemma_pow2_strictly_increases(
            (j + 1) as nat,
            merge_count(c) as nat,
        );
    }
}

/// A tree node carries no root flag.
pub(crate) proof fn lemma_tree_flags(stream: Seq<u8>, c: int, n: int)
    ensures
        tree_node(stream, c, n).flags < ROOT,
{
}

/// Compressing blocks looks at those blocks alone: more stream changes nothing.
pub proof fn blocks_are_stable(shape: Shape, s: Seq<u8>, t: Seq<u8>, from: int, to: int)
    requires
        0 <= from,
        64 * to <= s.len() <= t.len(),
        t.take(s.len() as int) == s,
    ensures
        after_blocks(shape, s, from, to) == after_blocks(shape, t, from, to),
    decreases to - from,
{
    if from < to {
        let k = to - 1;
        let before = after_blocks(shape, s, from, k);
        blocks_are_stable(shape, s, t, from, k);
        assert(t.subrange(0, s.len() as int) =~= s);
        lemma_block_stable(s, t, k, k % 16 == 15);
        if k % 16 == 15 {
            let c = (k + 1) / 16;
            let base = before.entries.len() as int + 1;
            let n = merge_count(c);
            let one = merge_entries(before.subtrees, base, s, c, n);
            let other = merge_entries(before.subtrees, base, t, c, n);
            lemma_merge_count(c);
            assert forall|j: int| 0 <= j < n implies #[trigger] one[j] == other[j] by {
                lemma_merge_fits(c, j);
                lemma_tree_stable(s, t, c - pow2((j + 1) as nat), pow2((j + 1) as nat) as int);
            }
            assert(one =~= other);
        }
    }
}

/// Compressing blocks keeps the rows before them, and what is traced.
pub(crate) proof fn lemma_blocks_traced(
    shape: Shape,
    squeezes: Seq<Vec<usize>>,
    s: Seq<u8>,
    from: int,
    to: int,
)
    requires
        0 <= from,
        64 * to <= usize::MAX,
        traced(shape.entries, squeezes),
    ensures
        traced(after_blocks(shape, s, from, to).entries, squeezes),
        shape.entries.len() <= after_blocks(shape, s, from, to).entries.len(),
        after_blocks(shape, s, from, to).entries.take(shape.entries.len() as int)
            == shape.entries,
    decreases to - from,
{
    if from < to {
        let k = to - 1;
        let before = after_blocks(shape, s, from, k);
        let after = after_blocks(shape, s, from, to);
        lemma_blocks_traced(shape, squeezes, s, from, k);
        let block = block_entry(before.cv_row, s, k);
        let c = (k + 1) / 16;
        let base = before.entries.len() as int + 1;
        let more = if k % 16 == 15 {
            seq![block] + merge_entries(before.subtrees, base, s, c, merge_count(c))
        } else {
            seq![block]
        };
        assert(after.entries =~= before.entries + more);
        assert((64 * k) % 64 == 0);
        assert forall|i: int| 0 <= i < more.len() implies offset_fits(#[trigger] more[i])
            && more[i].node.flags < ROOT by {
            if i > 0 {
                assert(more[i] == merge_entry(before.subtrees, base, s, c, i - 1));
                lemma_tree_flags(s, c - pow2(i as nat), pow2(i as nat) as int);
            }
        }
        lemma_traced_grows(before.entries, more, squeezes);
        assert(after.entries.take(shape.entries.len() as int) =~= before.entries.take(
            shape.entries.len() as int,
        ));
    } else {
        assert(shape.entries.take(shape.entries.len() as int) =~= shape.entries);
    }
}

pub(crate) proof fn lemma_squeeze_traced(
    shape: Shape,
    squeezes: Seq<Vec<usize>>,
    ids: Vec<usize>,
    s: Seq<u8>,
    n: int,
)
    requires
        0 <= n,
        s.len() <= usize::MAX,
        shape.entries.len() + squeeze_rows(s.len() as int, n) <= usize::MAX,
        traced(shape.entries, squeezes),
        ids@ == consecutive(
            shape.entries.len() + ones(full_blocks(s.len() as int) / 16),
            squeeze_rows(s.len() as int, n) - ones(full_blocks(s.len() as int) / 16),
        ),
    ensures
        traced(after_squeeze(shape, s, n).entries, squeezes.push(ids)),
{
    let c = full_blocks(s.len() as int) / 16;
    let rows = squeeze_rows(s.len() as int, n);
    let more = squeeze_entries(shape, s, rows);
    lemma_ones_range(c);
    lemma_tree_flags(s, 0, c + 1);
    assert forall|i: int| 0 <= i < more.len() implies offset_fits(#[trigger] more[i]) && (
    more[i].node.flags >= ROOT <==> i >= ones(c)) by {
        assert(more[i] == squeeze_entry(shape, s, i));
        lemma_tree_flags(s, rest(c, i), c + 1 - rest(c, i));
        assert((64 * full_blocks(s.len() as int)) % 64 == 0);
    }
    lemma_traced_squeeze(shape.entries, more, squeezes, ids, ones(c));
}

/// Absorbing in two parts leaves the same rows as absorbing at once.
pub proof fn absorbing_in_parts(shape: Shape, s: Seq<u8>, a: Seq<u8>, b: Seq<u8>)
    ensures
        ({
            let k0 = full_blocks(s.len() as int);
            let k1 = full_blocks((s + a).len() as int);
            let k2 = full_blocks((s + (a + b)).len() as int);
            after_blocks(after_blocks(shape, s + a, k0, k1), s + a + b, k1, k2) == after_blocks(
                shape,
                s + (a + b),
                k0,
                k2,
            )
        }),
{
    let k0 = full_blocks(s.len() as int);
    let k1 = full_blocks((s + a).len() as int);
    let k2 = full_blocks((s + (a + b)).len() as int);
    let t = s + (a + b);
    assert(s + a + b =~= t);
    assert(t.take((s + a).len() as int) =~= s + a);
    blocks_are_stable(shape, s + a, t, k0, k1);
    lemma_blocks_join(shape, t, k0, k1, k2);
}

proof fn lemma_blocks_join(shape: Shape, s: Seq<u8>, from: int, mid: int, to: int)
    requires
        from <= mid <= to,
    ensures
        after_blocks(after_blocks(shape, s, from, mid), s, mid, to) == after_blocks(
            shape,
            s,
            from,
            to,
        ),
    decreases to - mid,
{
    if mid < to {
        lemma_blocks_join(shape, s, from, mid, to - 1);
    }
}

// ---------------------------------------------------------------------------
// The sequential chain.
// ---------------------------------------------------------------------------

/// The row of block `k` of the sequential chain.
pub open spec fn chain_entry(cv_row: Option<usize>, stream: Seq<u8>, k: int) -> Entry {
    Entry {
        node: chain_node(stream, k),
        link: chained(source(cv_row)),
        offset: Some((64 * k) as usize),
    }
}

/// The rows of the blocks from `from` up to `to`, the first of them after
/// `base` rows: each reads the one before it.
pub open spec fn chain_entries(
    cv_row: Option<usize>,
    base: int,
    stream: Seq<u8>,
    from: int,
    to: int,
) -> Seq<Entry> {
    Seq::new(
        (to - from) as nat,
        |j: int| chain_entry(chain_row(cv_row, base, j), stream, from + j),
    )
}

/// The row behind the chaining value once `n` more blocks are compressed.
pub open spec fn chain_row(cv_row: Option<usize>, base: int, n: int) -> Option<usize> {
    if n <= 0 {
        cv_row
    } else {
        Some((base + n - 1) as usize)
    }
}

/// The rows that a squeeze adds before its output rows: the pending bytes,
/// where there are any.
pub open spec fn flush_entries(cv_row: Option<usize>, stream: Seq<u8>) -> Seq<Entry> {
    if stream.len() % 64 == 0 {
        Seq::empty()
    } else {
        seq![chain_entry(cv_row, stream, stream.len() as int / 64)]
    }
}

/// Output row `j` of a squeeze of `n` bytes.
pub open spec fn output_entry(cv_row: Option<usize>, stream: Seq<u8>, n: int, j: int) -> Entry {
    Entry { node: squeeze_node(stream, n, j), link: chained(source(cv_row)), offset: None }
}

/// The first `m` output rows of a squeeze of `n` bytes.
pub open spec fn output_entries(
    cv_row: Option<usize>,
    stream: Seq<u8>,
    n: int,
    m: int,
) -> Seq<Entry> {
    Seq::new(m as nat, |j: int| output_entry(cv_row, stream, n, j))
}

/// The rows that a squeeze of `n` bytes adds after `base` rows.
pub open spec fn chain_squeeze_entries(
    cv_row: Option<usize>,
    base: int,
    stream: Seq<u8>,
    n: int,
) -> Seq<Entry> {
    let flushed = flush_entries(cv_row, stream);
    flushed + output_entries(
        chain_row(cv_row, base, flushed.len() as int),
        stream,
        n,
        (n + 63) / 64,
    )
}

/// A row of the sequential chain takes a chaining value alone, and has an
/// offset exactly where it absorbs a block.
pub open spec fn chain_offset_fits(e: Entry) -> bool {
    &&& e.link.right is None
    &&& e.link.repeats is None
    &&& e.node.flags == if e.offset is Some {
        CHAIN_ABSORB
    } else {
        CHAIN_SQUEEZE
    }
    &&& e.offset matches Some(o) ==> o % 64 == 0
    &&& e.offset is None ==> e.node.block == Seq::new(16, |k: int| 0u32)
}

/// The rows of the sequential chain: those without an offset are the output
/// rows, which the squeezes name in order, each with its place as its counter
/// and the requested length as its block length.
pub open spec fn chain_traced(
    entries: Seq<Entry>,
    squeezes: Seq<Vec<usize>>,
    requested: Seq<int>,
) -> bool {
    &&& requested.len() == squeezes.len()
    &&& in_order(squeezes, entries.len() as int)
    &&& forall|i: int|
        0 <= i < entries.len() ==> {
            let e = #[trigger] entries[i];
            chain_offset_fits(e) && (e.offset is None <==> listed(squeezes, i))
        }
    &&& forall|q: int, j: int|
        0 <= q < squeezes.len() && 0 <= j < squeezes[q]@.len() ==> {
            let node = entries[(#[trigger] squeezes[q]@[j]) as int].node;
            node.counter == j as u64 && node.blen == requested[q] as u32
        }
}

pub(crate) proof fn lemma_chain_traced_grows(
    entries: Seq<Entry>,
    more: Seq<Entry>,
    squeezes: Seq<Vec<usize>>,
    requested: Seq<int>,
)
    requires
        chain_traced(entries, squeezes, requested),
        forall|i: int|
            0 <= i < more.len() ==> chain_offset_fits(#[trigger] more[i])
                && more[i].offset is Some,
    ensures
        chain_traced(entries + more, squeezes, requested),
{
    let all = entries + more;
    assert forall|i: int| 0 <= i < all.len() implies ({
        let e = #[trigger] all[i];
        chain_offset_fits(e) && (e.offset is None <==> listed(squeezes, i))
    }) by {
        if i < entries.len() {
            assert(all[i] == entries[i]);
        } else {
            assert(all[i] == more[i - entries.len()]);
        }
    }
    assert forall|q: int, j: int|
        0 <= q < squeezes.len() && 0 <= j < squeezes[q]@.len() implies ({
        let node = all[(#[trigger] squeezes[q]@[j]) as int].node;
        node.counter == j as u64 && node.blen == requested[q] as u32
    }) by {
        assert(all[squeezes[q]@[j] as int] == entries[squeezes[q]@[j] as int]);
    }
}

pub(crate) proof fn lemma_chain_traced_squeeze(
    entries: Seq<Entry>,
    cv_row: Option<usize>,
    squeezes: Seq<Vec<usize>>,
    requested: Seq<int>,
    ids: Vec<usize>,
    s: Seq<u8>,
    n: int,
)
    requires
        chain_traced(entries, squeezes, requested),
        0 <= n,
        s.len() <= usize::MAX,
        ({
            let flushed = flush_entries(cv_row, s).len() as int;
            &&& entries.len() + flushed + (n + 63) / 64 <= usize::MAX
            &&& ids@ == consecutive(entries.len() + flushed, (n + 63) / 64)
        }),
    ensures
        chain_traced(
            entries + chain_squeeze_entries(cv_row, entries.len() as int, s, n),
            squeezes.push(ids),
            requested.push(n),
        ),
{
    let more = chain_squeeze_entries(cv_row, entries.len() as int, s, n);
    let flushed = flush_entries(cv_row, s).len() as int;
    let all = entries + more;
    let named = squeezes.push(ids);
    lemma_order_grows(squeezes, ids, entries.len() as int, all.len() as int);
    assert forall|i: int| 0 <= i < more.len() implies chain_offset_fits(#[trigger] more[i]) && (
    more[i].offset is None <==> i >= flushed) by {
        assert((64 * (s.len() as int / 64)) % 64 == 0);
    }
    assert forall|i: int| 0 <= i < all.len() implies ({
        let e = #[trigger] all[i];
        chain_offset_fits(e) && (e.offset is None <==> listed(named, i))
    }) by {
        if i < entries.len() {
            assert(all[i] == entries[i]);
        } else {
            assert(all[i] == more[i - entries.len()]);
            if i >= entries.len() + flushed {
                assert(ids@[i - entries.len() - flushed] == i as usize);
            }
        }
    }
    assert forall|q: int, j: int| 0 <= q < named.len() && 0 <= j < named[q]@.len() implies ({
        let node = all[(#[trigger] named[q]@[j]) as int].node;
        node.counter == j as u64 && node.blen == requested.push(n)[q] as u32
    }) by {
        if q < squeezes.len() {
            assert(squeezes[q]@[j] < entries.len());
            assert(all[squeezes[q]@[j] as int] == entries[squeezes[q]@[j] as int]);
        } else {
            assert(ids@[j] == entries.len() + flushed + j);
            assert(all[ids@[j] as int] == more[flushed + j]);
        }
    }
}

} // verus!
