//! The Fiat-Shamir chain: BLAKE3 over a transcript, with a finalization forked
//! at every squeeze.
//!
//! Each row of the trace is one compression. The trace records which
//! compressions happen, in what order, and how their chaining values connect.
use vstd::arithmetic::power2::{lemma2_to64, lemma_pow2_pos, lemma_pow2_unfold, pow2};
use vstd::prelude::*;

use crate::blake3::{
    blake3_compress, block_bytes, block_cv, block_node, block_words, chaining, chunk_count,
    chunk_last_block, compressed, first_half, full_blocks, iv, iv_words, lemma_compressed_len,
    lemma_cv_stable, lemma_low_bit, lemma_ones_range, lemma_split_at, lemma_split_double,
    lemma_split_range, lemma_stack_len, lemma_stack_stable, low_bit, node_of, ones, output_block,
    parent_block, parent_node, push_words, root_node, subtree_stack, tree_node, word_bytes, words,
    xof, Compression, Node, BLOCKS_PER_CHUNK, BLOCK_BYTES, CHUNK_END, CHUNK_START, PARENT, ROOT,
};
use crate::fs_chain::history::{
    chain_start, chain_step, sponge_start, sponge_step, Call, ChainModel, SpongeModel,
};
use crate::fs_chain::links::{chain_squeezes_read_their_rows, tree_squeezes_read_their_rows};
use crate::fs_chain::shape::{
    after_block, after_blocks, after_squeeze, block_entry, blocks_are_stable, chain_entries,
    chain_entry, chain_offset_fits, chain_row, chain_squeeze_entries, chain_traced, chained,
    consecutive, entries_of, flush_entries, lemma_blocks_traced, lemma_chain_traced_grows,
    lemma_chain_traced_squeeze, lemma_squeeze_traced, merge_count, merge_entries, merge_entry,
    output_entries, output_entry, rest, source, squeeze_entries, squeeze_entry, traced, Entry,
    Shape,
};

pub mod history;
pub mod links;
pub mod shape;
pub mod tree;

verus! {

/// Where a row's chaining input comes from.
#[derive(Clone, Copy, Debug, PartialEq, Eq, Structural)]
pub enum CvSource {
    /// The initial value: a public constant, no wire.
    Iv,
    /// The first output half of an earlier row.
    Row(usize),
}

/// Where a row's inputs come from.
#[derive(Clone, Copy, Debug, PartialEq, Eq, Structural)]
pub struct Link {
    pub cv: CvSource,
    /// For a parent row, the row supplying the right half of the message;
    /// `cv` supplies the left half.
    pub right: Option<usize>,
    /// For a further output block, the root row whose inputs it repeats with
    /// another counter.
    pub repeats: Option<usize>,
}

/// The compression sequence of one transcript.
pub struct FsChainTrace {
    /// Every compression, in emission order.
    pub rows: Vec<Compression>,
    /// Per row, where its inputs come from.
    pub links: Vec<Link>,
    /// Per squeeze, the rows whose outputs carry the challenge bytes.
    pub squeezes: Vec<Vec<usize>>,
    /// For a row that compresses transcript bytes, the offset of its block.
    pub block_offsets: Vec<Option<usize>>,
}

/// The chaining value that row `i` puts out.
pub open spec fn row_out(rows: Seq<Compression>, i: int) -> Seq<u32> {
    chaining(node_of(rows[i]))
}

/// Row `i` takes its inputs from where its link says: the chaining value from
/// the initial value or an earlier row, a parent's message from two earlier
/// rows, a repeated root's inputs from that root, a transcript block from the
/// stream, and an output block's message is zero.
pub open spec fn wired(
    rows: Seq<Compression>,
    i: int,
    link: Link,
    offset: Option<usize>,
    stream: Seq<u8>,
) -> bool {
    let row = node_of(rows[i]);
    match (link.repeats, link.right) {
        (Some(r), _) => {
            &&& r < i
            &&& link.right is None
            &&& link.cv == CvSource::Iv
            &&& offset is None
            &&& row == (Node { counter: row.counter, ..node_of(rows[r as int]) })
        },
        (None, Some(r)) => {
            &&& r < i
            &&& match link.cv {
                CvSource::Iv => false,
                CvSource::Row(l) => {
                    let parent = parent_node(row_out(rows, l as int), row_out(rows, r as int));
                    l < i && (row == parent || row == (Node {
                        flags: (PARENT + ROOT) as u32,
                        ..parent
                    }))
                },
            }
            &&& offset is None
        },
        (None, None) => {
            &&& match link.cv {
                CvSource::Iv => row.cv == iv_words(),
                CvSource::Row(l) => l < i && row.cv == row_out(rows, l as int),
            }
            &&& match offset {
                Some(o) => o + row.blen <= stream.len() && row.block == block_words(
                    stream.subrange(o as int, o + row.blen),
                ),
                None => row.block == Seq::new(16, |k: int| 0u32),
            }
        },
    }
}

/// Every row of the lists is wired as its link says.
pub open spec fn all_wired(
    rows: Seq<Compression>,
    links: Seq<Link>,
    offsets: Seq<Option<usize>>,
    stream: Seq<u8>,
) -> bool {
    &&& rows.len() == links.len()
    &&& rows.len() == offsets.len()
    &&& forall|i: int|
        0 <= i < rows.len() ==> #[trigger] wired(rows, i, links[i], offsets[i], stream)
}

/// The emitted rows with their links and block offsets.
struct Rows {
    rows: Vec<Compression>,
    links: Vec<Link>,
    block_offsets: Vec<Option<usize>>,
}

/// Wiring survives later rows and more stream.
proof fn lemma_wired_grows(
    rows: Seq<Compression>,
    more: Seq<Compression>,
    i: int,
    link: Link,
    offset: Option<usize>,
    s: Seq<u8>,
    t: Seq<u8>,
)
    requires
        wired(rows, i, link, offset, s),
        0 <= i < rows.len() <= more.len(),
        more.take(rows.len() as int) == rows,
        s.len() <= t.len(),
        t.take(s.len() as int) == s,
    ensures
        wired(more, i, link, offset, t),
{
    assert forall|k: int| 0 <= k < rows.len() implies #[trigger] rows[k] == more[k] by {
        assert(more.take(rows.len() as int)[k] == more[k]);
    }
    if let Some(o) = offset {
        let n = node_of(rows[i]).blen;
        if link.repeats is None && link.right is None {
            assert(s.subrange(o as int, o + n) =~= t.subrange(o as int, o + n)) by {
                assert forall|k: int| 0 <= k < s.len() implies #[trigger] s[k] == t[k] by {
                    assert(t.take(s.len() as int)[k] == t[k]);
                }
            }
        }
    }
}

impl Rows {
    spec fn ok(self, stream: Seq<u8>) -> bool {
        all_wired(self.rows@, self.links@, self.block_offsets@, stream)
    }

    spec fn entries(self) -> Seq<Entry> {
        entries_of(self.rows@, self.links@, self.block_offsets@)
    }

    proof fn lemma_stream_grows(self, s: Seq<u8>, t: Seq<u8>)
        requires
            self.ok(s),
            s.len() <= t.len(),
            t.take(s.len() as int) == s,
        ensures
            self.ok(t),
    {
        assert(self.rows@.take(self.rows@.len() as int) =~= self.rows@);
        assert forall|i: int| 0 <= i < self.rows@.len() implies #[trigger] wired(
            self.rows@,
            i,
            self.links@[i],
            self.block_offsets@[i],
            t,
        ) by {
            assert(wired(self.rows@, i, self.links@[i], self.block_offsets@[i], s));
            lemma_wired_grows(
                self.rows@,
                self.rows@,
                i,
                self.links@[i],
                self.block_offsets@[i],
                s,
                t,
            );
        }
    }

    /// Entries that begin with those of `before` begin with its links and
    /// offsets.
    proof fn lemma_prefix(self, before: Rows)
        requires
            self.links@.len() == self.rows@.len(),
            self.block_offsets@.len() == self.rows@.len(),
            before.links@.len() == before.rows@.len(),
            before.block_offsets@.len() == before.rows@.len(),
            before.rows@.len() <= self.rows@.len(),
            self.entries().take(before.rows@.len() as int) == before.entries(),
        ensures
            self.links@.take(before.rows@.len() as int) == before.links@,
            self.block_offsets@.take(before.rows@.len() as int) == before.block_offsets@,
    {
        let n = before.rows@.len() as int;
        assert forall|i: int| 0 <= i < n implies self.links@[i] == before.links@[i]
            && self.block_offsets@[i] == before.block_offsets@[i] by {
            assert(self.entries().take(n)[i] == before.entries()[i]);
        }
        assert(self.links@.take(n) =~= before.links@);
        assert(self.block_offsets@.take(n) =~= before.block_offsets@);
    }

    /// Append a row; returns its index.
    fn emit(
        &mut self,
        c: Compression,
        link: Link,
        offset: Option<usize>,
        stream: Ghost<Seq<u8>>,
    ) -> (row: usize)
        requires
            old(self).ok(stream@),
            wired(
                old(self).rows@.push(c),
                old(self).rows@.len() as int,
                link,
                offset,
                stream@,
            ),
        ensures
            final(self).ok(stream@),
            final(self).rows@ == old(self).rows@.push(c),
            final(self).entries() == old(self).entries().push(
                Entry { node: node_of(c), link, offset },
            ),
            row == old(self).rows@.len(),
    {
        let ghost before = *self;
        self.rows.push(c);
        self.links.push(link);
        self.block_offsets.push(offset);
        proof {
            assert(self.entries() =~= before.entries().push(
                Entry { node: node_of(c), link, offset },
            ));
            assert forall|i: int| 0 <= i < self.rows@.len() implies #[trigger] wired(
                self.rows@,
                i,
                self.links@[i],
                self.block_offsets@[i],
                stream@,
            ) by {
                if i < before.rows@.len() {
                    assert(wired(
                        before.rows@,
                        i,
                        before.links@[i],
                        before.block_offsets@[i],
                        stream@,
                    ));
                    assert(self.rows@.take(before.rows@.len() as int) =~= before.rows@);
                    assert(stream@.take(stream@.len() as int) =~= stream@);
                    lemma_wired_grows(
                        before.rows@,
                        self.rows@,
                        i,
                        self.links@[i],
                        self.block_offsets@[i],
                        stream@,
                        stream@,
                    );
                }
            }
        }
        self.rows.len() - 1
    }
}

/// The rows that absorbing `len` bytes has emitted: one per compressed block,
/// and the parents of the completed chunks.
pub open spec fn absorb_rows(len: int) -> int {
    let chunks = full_blocks(len) / 16;
    full_blocks(len) + chunks - ones(chunks)
}

/// The rows that a squeeze of `n` bytes after `len` bytes emits: the pending
/// block, one parent per complete subtree, and the further output blocks.
pub open spec fn squeeze_rows(len: int, n: int) -> int {
    1 + ones(full_blocks(len) / 16) + if n <= 64 {
        0
    } else {
        (n - 1) / 64
    }
}

/// Incremental BLAKE3 with forkable finalization.
pub struct FsChain {
    emitted: Rows,
    squeezes: Vec<Vec<usize>>,
    /// The current chunk's running chaining value, and the row that produced
    /// it (none at a chunk boundary).
    chunk_cv: [u32; 8],
    chunk_cv_row: Option<usize>,
    chunk_counter: u64,
    blocks_in_chunk: usize,
    /// Complete subtrees' chaining values, with the row that produced each.
    stack: Vec<([u32; 8], usize)>,
    buf: Vec<u8>,
    /// Offset of the pending block's first byte.
    buf_offset: usize,
    absorbed: usize,
    absorbed_bytes: Ghost<Seq<u8>>,
}

/// The entries are the chaining values, each put out by its row.
spec fn stack_is(
    stack: Seq<([u32; 8], usize)>,
    rows: Seq<Compression>,
    cvs: Seq<Seq<u32>>,
) -> bool {
    &&& stack.len() == cvs.len()
    &&& forall|i: int|
        0 <= i < stack.len() ==> {
            let entry = #[trigger] stack[i];
            &&& entry.0@ == cvs[i]
            &&& entry.1 < rows.len()
            &&& row_out(rows, entry.1 as int) == cvs[i]
        }
}

/// The rows behind the complete subtrees.
spec fn stack_rows(stack: Seq<([u32; 8], usize)>) -> Seq<usize> {
    Seq::new(stack.len(), |i: int| stack[i].1)
}

proof fn lemma_stack_rows_grow(
    stack: Seq<([u32; 8], usize)>,
    rows: Seq<Compression>,
    more: Seq<Compression>,
    cvs: Seq<Seq<u32>>,
)
    requires
        stack_is(stack, rows, cvs),
        rows.len() <= more.len(),
        more.take(rows.len() as int) == rows,
    ensures
        stack_is(stack, more, cvs),
{
    assert forall|i: int| 0 <= i < stack.len() implies ({
        let entry = #[trigger] stack[i];
        &&& entry.0@ == cvs[i]
        &&& entry.1 < more.len()
        &&& row_out(more, entry.1 as int) == cvs[i]
    }) by {
        let entry = stack[i];
        assert(more.take(rows.len() as int)[entry.1 as int] == more[entry.1 as int]);
    }
}

impl FsChain {
    /// The bytes absorbed so far.
    pub closed spec fn stream(self) -> Seq<u8> {
        self.absorbed_bytes@
    }

    /// The rows emitted so far.
    pub closed spec fn rows(self) -> Seq<Compression> {
        self.emitted.rows@
    }

    /// The rows' links.
    pub closed spec fn links(self) -> Seq<Link> {
        self.emitted.links@
    }

    /// The rows' block offsets.
    pub closed spec fn block_offsets(self) -> Seq<Option<usize>> {
        self.emitted.block_offsets@
    }

    /// The squeezes taken so far.
    pub closed spec fn squeezes(self) -> Seq<Vec<usize>> {
        self.squeezes@
    }

    /// The row behind the current chunk's chaining value.
    pub closed spec fn cv_row(self) -> Option<usize> {
        self.chunk_cv_row
    }

    /// The rows behind the complete subtrees' chaining values.
    pub closed spec fn subtree_rows(self) -> Seq<usize> {
        stack_rows(self.stack@)
    }

    /// The rows emitted so far with their links and offsets, and the rows
    /// behind the live chaining values.
    pub open spec fn shape(self) -> Shape {
        Shape {
            entries: entries_of(self.rows(), self.links(), self.block_offsets()),
            cv_row: self.cv_row(),
            subtrees: self.subtree_rows(),
        }
    }

    /// The chain as its contracts see it.
    pub open spec fn model(self) -> ChainModel {
        ChainModel {
            shape: self.shape(),
            stream: self.stream(),
            squeezes: Seq::new(self.squeezes().len(), |i: int| self.squeezes()[i]@),
        }
    }

    /// The state after `k` compressed blocks of the stream.
    closed spec fn at(self, k: int) -> bool {
        let s = self.absorbed_bytes@;
        &&& 0 <= k
        &&& 64 * k <= s.len()
        &&& s.len() <= usize::MAX
        &&& self.absorbed == s.len()
        &&& self.buf@ == s.skip(64 * k)
        &&& self.buf_offset == 64 * k
        &&& self.blocks_in_chunk == k % 16
        &&& self.chunk_counter == k / 16
        &&& self.chunk_cv@ == block_cv(s, k)
        &&& match self.chunk_cv_row {
            None => k % 16 == 0,
            Some(r) => r < self.emitted.rows@.len() && row_out(self.emitted.rows@, r as int)
                == self.chunk_cv@,
        }
        &&& stack_is(self.stack@, self.emitted.rows@, subtree_stack(s, k / 16))
        &&& self.emitted.ok(s)
    }

    /// The chain's state is the one of its stream, every row is wired as its
    /// link says, and the squeezes name the output rows.
    pub closed spec fn wf(self) -> bool {
        &&& self.at(full_blocks(self.absorbed_bytes@.len() as int))
        &&& traced(self.emitted.entries(), self.squeezes@)
    }

    /// The live state is the same: everything but the emitted rows and the
    /// list of squeezes.
    pub closed spec fn same_live_state(self, other: FsChain) -> bool {
        &&& self.chunk_cv == other.chunk_cv
        &&& self.chunk_cv_row == other.chunk_cv_row
        &&& self.chunk_counter == other.chunk_counter
        &&& self.blocks_in_chunk == other.blocks_in_chunk
        &&& self.stack == other.stack
        &&& self.buf == other.buf
        &&& self.buf_offset == other.buf_offset
        &&& self.absorbed == other.absorbed
        &&& self.absorbed_bytes == other.absorbed_bytes
    }

    /// An empty chain.
    pub fn new() -> (chain: FsChain)
        ensures
            chain.wf(),
            chain.stream() == Seq::<u8>::empty(),
            chain.model() == chain_start(),
            chain.rows().len() == 0,
            chain.squeezes().len() == 0,
    {
        let chain = FsChain {
            emitted: Rows { rows: Vec::new(), links: Vec::new(), block_offsets: Vec::new() },
            squeezes: Vec::new(),
            chunk_cv: iv(),
            chunk_cv_row: None,
            chunk_counter: 0,
            blocks_in_chunk: 0,
            stack: Vec::new(),
            buf: Vec::with_capacity(BLOCK_BYTES),
            buf_offset: 0,
            absorbed: 0,
            absorbed_bytes: Ghost(Seq::empty()),
        };
        assert(chain.buf@ =~= chain.absorbed_bytes@.skip(0));
        assert(chain.shape() =~= chain_start().shape);
        assert(chain.model() =~= chain_start());
        chain
    }
}


/// Scaling by a power of two scales the low bit.
proof fn lemma_low_bit_scale(t: nat, d: int)
    requires
        d > 0,
    ensures
        low_bit(pow2(t) * d) == pow2(t) * low_bit(d),
        pow2(t) * d > 0,
    decreases t,
{
    lemma_pow2_pos(t);
    assert(pow2(t) * d > 0) by (nonlinear_arith)
        requires
            pow2(t) > 0,
            d > 0,
    ;
    if t == 0 {
        lemma2_to64();
        assert(pow2(t) * d == d && pow2(t) * low_bit(d) == low_bit(d)) by (nonlinear_arith)
            requires
                pow2(t) == 1,
        ;
    } else {
        lemma_pow2_unfold(t);
        let p = pow2((t - 1) as nat) as int;
        lemma_low_bit_scale((t - 1) as nat, d);
        assert(pow2(t) * d == 2 * (p * d)) by (nonlinear_arith)
            requires
                pow2(t) == 2 * p,
        ;
        assert(pow2(t) * low_bit(d) == 2 * (p * low_bit(d))) by (nonlinear_arith)
            requires
                pow2(t) == 2 * p,
        ;
        assert((2 * (p * d)) % 2 == 0 && (2 * (p * d)) / 2 == p * d);
    }
}

/// Add a completed chunk's chaining value, merging while the chunk count is
/// even.
fn push_subtree(
    stack: &mut Vec<([u32; 8], usize)>,
    emitted: &mut Rows,
    chunk_counter: u64,
    cv: [u32; 8],
    row: usize,
    stream: Ghost<Seq<u8>>,
)
    requires
        0 < chunk_counter,
        1024 * chunk_counter <= stream@.len(),
        old(emitted).ok(stream@),
        stack_is(old(stack)@, old(emitted).rows@, subtree_stack(stream@, chunk_counter - 1)),
        cv@ == chaining(tree_node(stream@, chunk_counter - 1, 1)),
        row + 1 == old(emitted).rows@.len(),
        row_out(old(emitted).rows@, row as int) == cv@,
    ensures
        final(emitted).ok(stream@),
        final(emitted).entries() == old(emitted).entries() + merge_entries(
            stack_rows(old(stack)@),
            old(emitted).rows@.len() as int,
            stream@,
            chunk_counter as int,
            merge_count(chunk_counter as int),
        ),
        stack_rows(final(stack)@) == stack_rows(old(stack)@).take(
            old(stack)@.len() - merge_count(chunk_counter as int),
        ).push((old(emitted).rows@.len() + merge_count(chunk_counter as int) - 1) as usize),
        final(emitted).rows@.len() == old(emitted).rows@.len() + 1 + ones(chunk_counter - 1) - ones(
            chunk_counter as int,
        ),
        old(emitted).rows@.len() <= final(emitted).rows@.len(),
        final(emitted).rows@.take(old(emitted).rows@.len() as int) == old(emitted).rows@,
        stack_is(final(stack)@, final(emitted).rows@, subtree_stack(stream@, chunk_counter as int)),
{
    let ghost s = stream@;
    let ghost start = emitted.rows@;
    let ghost entries0 = emitted.entries();
    let ghost subtrees0 = stack_rows(stack@);
    let ghost mut t: nat = 0;
    let ghost mut from: int = chunk_counter - 1;
    let mut cv = cv;
    let mut row: usize = row;
    let mut total: u64 = chunk_counter;
    proof {
        lemma2_to64();
        assert(emitted.rows@.take(start.len() as int) =~= start);
        assert(entries0 + merge_entries(subtrees0, start.len() as int, s, chunk_counter as int, 0)
            =~= entries0);
        assert(subtrees0.take(subtrees0.len() as int) =~= subtrees0);
    }
    while total % 2 == 0
        invariant
            s == stream@,
            0 < chunk_counter,
            0 < total,
            0 <= from,
            total * pow2(t) == chunk_counter,
            from + pow2(t) == chunk_counter,
            1024 * chunk_counter <= s.len(),
            emitted.ok(s),
            stack_is(stack@, emitted.rows@, subtree_stack(s, from)),
            cv@ == chaining(tree_node(s, from, pow2(t) as int)),
            row < emitted.rows@.len(),
            row_out(emitted.rows@, row as int) == cv@,
            start.len() <= emitted.rows@.len(),
            emitted.rows@.take(start.len() as int) == start,
            emitted.rows@.len() == start.len() + ones(chunk_counter - 1) - ones(from),
            emitted.rows@.len() == start.len() + t,
            row + 1 == start.len() + t,
            t <= subtrees0.len(),
            stack_rows(stack@) == subtrees0.take(subtrees0.len() - t),
            emitted.entries() == entries0 + merge_entries(
                subtrees0,
                start.len() as int,
                s,
                chunk_counter as int,
                t as int,
            ),
        decreases total,
    {
        let ghost sz = pow2(t) as int;
        proof {
            lemma_pow2_pos(t);
            assert(from == sz * (total - 1)) by (nonlinear_arith)
                requires
                    total * sz == chunk_counter,
                    from + sz == chunk_counter,
            ;
            lemma_low_bit_scale(t, total - 1);
            assert(low_bit(total - 1) == 1);
            lemma_low_bit(from);
            lemma_split_double(from);
            lemma_pow2_unfold(t + 1);
            lemma_stack_len(s, from);
            assert(subtree_stack(s, from).drop_last() =~= subtree_stack(s, from - sz));
        }
        let ghost stack0 = stack@;
        let (left, left_row) = stack.pop().unwrap();
        assert(stack0[stack0.len() - 1] == (left, left_row));
        let m = parent_block(&left, &cv);
        let iv = iv();
        let out = blake3_compress(&iv, &m, 0, 64, PARENT);
        let link = Link { cv: CvSource::Row(left_row), right: Some(row), repeats: None };
        let c: Compression = (iv, m, 0, 64, PARENT);
        let ghost rows0 = emitted.rows@;
        proof {
            let pushed = rows0.push(c);
            assert(row_out(pushed, left_row as int) == row_out(rows0, left_row as int));
            assert(row_out(pushed, row as int) == row_out(rows0, row as int));
            assert(node_of(c) =~= parent_node(left@, cv@));
            assert(stack_rows(stack0)[stack0.len() - 1] == left_row);
            assert(subtrees0.take(subtrees0.len() - t).len() == stack0.len());
            assert(subtrees0.take(subtrees0.len() - t)[stack0.len() - 1] == subtrees0[
                stack0.len() - 1
            ]);
            assert(tree_node(s, from - sz, 2 * sz) == parent_node(left@, cv@));
        }
        let ghost entries1 = emitted.entries();
        row = emitted.emit(c, link, None, Ghost(s));
        proof {
            let n = start.len() as int;
            let e = Entry { node: node_of(c), link, offset: None };
            assert(pow2((t + 1) as nat) == 2 * sz);
            assert(subtrees0[subtrees0.len() - 1 - t] == left_row);
            assert(e == merge_entry(subtrees0, n, s, chunk_counter as int, t as int));
            assert(entries1.push(e) =~= entries0 + merge_entries(
                subtrees0,
                n,
                s,
                chunk_counter as int,
                t as int + 1,
            ));
            assert(stack_rows(stack@) =~= subtrees0.take(subtrees0.len() - (t + 1))) by {
                assert forall|i: int| 0 <= i < stack@.len() implies stack_rows(stack@)[i]
                    == subtrees0[i] by {
                    assert(stack_rows(stack0)[i] == stack0[i].1);
                    assert(subtrees0.take(subtrees0.len() - t)[i] == subtrees0[i]);
                }
            }
        }
        cv = first_half(&out);
        total = total / 2;
        proof {
            let rows1 = emitted.rows@;
            assert(rows1.take(rows0.len() as int) =~= rows0);
            assert(rows1.take(start.len() as int) =~= rows0.take(start.len() as int));
            assert(stack_is(stack@, rows0, subtree_stack(s, from - sz))) by {
                assert forall|i: int| 0 <= i < stack@.len() implies ({
                    let entry = #[trigger] stack@[i];
                    &&& entry.0@ == subtree_stack(s, from - sz)[i]
                    &&& entry.1 < rows0.len()
                    &&& row_out(rows0, entry.1 as int) == subtree_stack(s, from - sz)[i]
                }) by {
                    assert(stack0[i] == stack@[i]);
                }
            }
            lemma_stack_rows_grow(stack@, rows0, rows1, subtree_stack(s, from - sz));
            assert(total * (2 * sz) == chunk_counter) by (nonlinear_arith)
                requires
                    (2 * total) * sz == chunk_counter,
            ;
            from = from - sz;
            t = t + 1;
        }
    }
    proof {
        let sz = pow2(t) as int;
        assert(sz * total == chunk_counter) by (nonlinear_arith)
            requires
                total * sz == chunk_counter,
        ;
        lemma_low_bit_scale(t, total as int);
        assert(low_bit(total as int) == 1);
        assert(low_bit(chunk_counter as int) == sz);
        lemma_low_bit(chunk_counter as int);
    }
    let ghost stack1 = stack@;
    stack.push((cv, row));
    assert(stack_rows(stack@) =~= stack_rows(stack1).push(row));
}


impl FsChain {
    /// Compress the full pending block into the live state.
    fn compress_pending(&mut self, k: Ghost<int>)
        requires
            old(self).at(k@),
            old(self).buf@.len() == 64,
        ensures
            final(self).at(k@ + 1),
            final(self).shape() == after_block(old(self).shape(), old(self).absorbed_bytes@, k@),
            final(self).buf@.len() == 0,
            final(self).absorbed_bytes == old(self).absorbed_bytes,
            final(self).squeezes == old(self).squeezes,
            final(self).emitted.rows@.take(old(self).emitted.rows@.len() as int)
                == old(self).emitted.rows@,
            old(self).emitted.rows@.len() <= final(self).emitted.rows@.len(),
            final(self).emitted.rows@.len() - old(self).emitted.rows@.len() == 1 + ((k@ + 1) / 16
                - ones((k@ + 1) / 16)) - (k@ / 16 - ones(k@ / 16)),
    {
        let ghost k = k@;
        let ghost s = self.absorbed_bytes@;
        let ghost rows0 = self.emitted.rows@;
        let ghost shape0 = self.shape();
        let mut flags: u32 = 0;
        if self.blocks_in_chunk == 0 {
            flags = flags + CHUNK_START;
        }
        let ends = self.blocks_in_chunk == BLOCKS_PER_CHUNK - 1;
        if ends {
            flags = flags + CHUNK_END;
        }
        let m = words(self.buf.as_slice());
        let cv = self.chunk_cv;
        let counter: u64 = self.chunk_counter;
        let out = blake3_compress(&cv, &m, counter, 64, flags);
        let link = Link {
            cv: match self.chunk_cv_row {
                None => CvSource::Iv,
                Some(r) => CvSource::Row(r),
            },
            right: None,
            repeats: None,
        };
        let c: Compression = (cv, m, counter, 64, flags);
        proof {
            assert(block_bytes(s, k) =~= self.buf@);
            assert(node_of(c) =~= block_node(s, k, ends));
            assert((Entry { node: node_of(c), link, offset: Some(self.buf_offset) })
                == block_entry(shape0.cv_row, s, k));
            assert(s.subrange(64 * k, 64 * k + 64) =~= self.buf@);
            let pushed = rows0.push(c);
            if let Some(r) = self.chunk_cv_row {
                assert(row_out(pushed, r as int) == row_out(rows0, r as int));
            }
        }
        let row: usize = self.emitted.emit(c, link, Some(self.buf_offset), Ghost(s));
        let ghost rows1 = self.emitted.rows@;
        proof {
            assert(rows1.take(rows0.len() as int) =~= rows0);
            lemma_stack_rows_grow(self.stack@, rows0, rows1, subtree_stack(s, k / 16));
            assert(row_out(rows1, row as int) == chaining(block_node(s, k, ends)));
        }
        self.buf.clear();
        self.buf_offset = self.absorbed;
        let next_cv = first_half(&out);
        proof {
            assert(self.buf@ =~= s.skip(64 * (k + 1)));
            lemma_ones_range(k / 16);
        }
        if ends {
            self.chunk_counter = self.chunk_counter + 1;
            self.blocks_in_chunk = 0;
            self.chunk_cv = iv();
            self.chunk_cv_row = None;
            proof {
                assert(chunk_last_block(s, k / 16) == k) by {
                    assert(full_blocks(s.len() as int) == k);
                }
            }
            push_subtree(
                &mut self.stack,
                &mut self.emitted,
                self.chunk_counter,
                next_cv,
                row,
                Ghost(s),
            );
            proof {
                assert(self.emitted.rows@.take(rows0.len() as int) =~= rows1.take(
                    rows0.len() as int,
                )) by {
                    assert forall|i: int| 0 <= i < rows0.len() implies self.emitted.rows@[i]
                        == rows1[i] by {
                        assert(self.emitted.rows@.take(rows1.len() as int)[i] == rows1[i]);
                    }
                }
            }
        } else {
            self.blocks_in_chunk = self.blocks_in_chunk + 1;
            self.chunk_cv = next_cv;
            self.chunk_cv_row = Some(row);
        }
        assert(self.shape() =~= after_block(shape0, s, k));
    }

    /// Absorb transcript bytes. A block is compressed once it is full and more
    /// input arrives: the pending block may yet become a chunk's last.
    pub fn absorb(&mut self, bytes: &[u8])
        requires
            old(self).wf(),
            old(self).stream().len() + bytes@.len() <= usize::MAX,
        ensures
            final(self).wf(),
            final(self).stream() == old(self).stream() + bytes@,
            final(self).squeezes() == old(self).squeezes(),
            final(self).rows().len() - old(self).rows().len() == absorb_rows(
                final(self).stream().len() as int,
            ) - absorb_rows(old(self).stream().len() as int),
            final(self).rows().take(old(self).rows().len() as int) == old(self).rows(),
            final(self).links().take(old(self).rows().len() as int) == old(self).links(),
            final(self).block_offsets().take(old(self).rows().len() as int) == old(
                self,
            ).block_offsets(),
            final(self).shape() == after_blocks(
                old(self).shape(),
                final(self).stream(),
                full_blocks(old(self).stream().len() as int),
                full_blocks(final(self).stream().len() as int),
            ),
            final(self).model() == chain_step(old(self).model(), Call::Absorb(bytes@)),
    {
        let ghost before = *self;
        let ghost s0 = self.absorbed_bytes@;
        let ghost rows0 = self.emitted.rows@;
        let ghost shape0 = self.shape();
        let ghost k0 = full_blocks(s0.len() as int);
        let mut i: usize = 0;
        proof {
            assert(s0 + bytes@.take(0) =~= s0);
            assert(self.emitted.rows@.take(rows0.len() as int) =~= rows0);
        }
        while i < bytes.len()
            invariant
                i <= bytes@.len(),
                self.at(full_blocks(self.absorbed_bytes@.len() as int)),
                k0 == full_blocks(s0.len() as int),
                self.shape() == after_blocks(
                    shape0,
                    self.absorbed_bytes@,
                    k0,
                    full_blocks(self.absorbed_bytes@.len() as int),
                ),
                s0.len() + bytes@.len() <= usize::MAX,
                self.absorbed_bytes@ == s0 + bytes@.take(i as int),
                self.squeezes == before.squeezes,
                rows0.len() <= self.emitted.rows@.len(),
                self.emitted.rows@.take(rows0.len() as int) == rows0,
                self.emitted.rows@.len() - rows0.len() == absorb_rows(
                    self.absorbed_bytes@.len() as int,
                ) - absorb_rows(s0.len() as int),
            decreases bytes@.len() - i,
        {
            let ghost s = self.absorbed_bytes@;
            let ghost k = full_blocks(s.len() as int);
            let ghost rows1 = self.emitted.rows@;
            if self.buf.len() == BLOCK_BYTES {
                self.compress_pending(Ghost(k));
                proof {
                    assert forall|j: int| 0 <= j < rows0.len() implies self.emitted.rows@[j]
                        == rows0[j] by {
                        assert(self.emitted.rows@.take(rows1.len() as int)[j] == rows1[j]);
                        assert(rows1.take(rows0.len() as int)[j] == rows1[j]);
                    }
                    assert(self.emitted.rows@.take(rows0.len() as int) =~= rows0);
                }
            }
            let b: u8 = bytes[i];
            let ghost now = if s.len() > 0 && s.len() % 64 == 0 {
                k + 1
            } else {
                k
            };
            let ghost t = s.push(b);
            proof {
                assert(t.take(s.len() as int) =~= s);
                assert(t.subrange(0, s.len() as int) =~= s);
                assert(self.at(now));
                assert(full_blocks(t.len() as int) == now);
                assert(k0 <= k);
                assert(self.shape() == after_blocks(shape0, s, k0, now));
                blocks_are_stable(shape0, s, t, k0, now);
                lemma_cv_stable(s, t, now);
                lemma_stack_stable(s, t, now / 16);
                self.emitted.lemma_stream_grows(s, t);
                assert(self.buf@.push(b) =~= t.skip(64 * now));
                assert(s0 + bytes@.take(i + 1) =~= t);
            }
            self.buf.push(b);
            self.absorbed = self.absorbed + 1;
            self.absorbed_bytes = Ghost(t);
            i = i + 1;
        }
        proof {
            assert(s0 + bytes@.take(i as int) =~= s0 + bytes@);
            let s = self.absorbed_bytes@;
            lemma_blocks_traced(
                shape0,
                self.squeezes@,
                s,
                k0,
                full_blocks(s.len() as int),
            );
            self.emitted.lemma_prefix(before.emitted);
            assert(self.model() =~= chain_step(before.model(), Call::Absorb(bytes@)));
        }
    }
}


/// The squeeze's rows: output block `j` is the root compression at counter `j`.
pub open spec fn squeeze_is(
    rows: Seq<Compression>,
    ids: Seq<usize>,
    stream: Seq<u8>,
    n: int,
) -> bool {
    &&& ids.len() == if n <= 64 {
        1
    } else {
        (n - 1) / 64 + 1
    }
    &&& forall|j: int|
        0 <= j < ids.len() ==> (#[trigger] ids[j]) < rows.len() && node_of(rows[ids[j] as int]) == (
        Node { counter: j as u64, ..root_node(stream) })
}

impl FsChain {
    /// Fork a root finalization off the current state and take `out_bytes` of
    /// output, without disturbing the live chain.
    pub fn finalize(&mut self, out_bytes: usize) -> (bytes: Vec<u8>)
        requires
            old(self).wf(),
            out_bytes <= usize::MAX - 64,
        ensures
            bytes@ == xof(old(self).stream(), out_bytes as int),
            bytes@.len() == out_bytes,
            forall|i: int|
                #![trigger bytes@[i]]
                0 <= i < out_bytes ==> bytes@[i] == word_bytes(
                    compressed(
                        node_of(final(self).rows()[final(self).squeezes().last()@[i / 64] as int]),
                    ),
                )[i % 64],
            final(self).wf(),
            final(self).stream() == old(self).stream(),
            final(self).same_live_state(*old(self)),
            final(self).rows().len() == old(self).rows().len() + squeeze_rows(
                old(self).stream().len() as int,
                out_bytes as int,
            ),
            final(self).rows().take(old(self).rows().len() as int) == old(self).rows(),
            final(self).squeezes().len() == old(self).squeezes().len() + 1,
            final(self).squeezes().drop_last() == old(self).squeezes(),
            squeeze_is(
                final(self).rows(),
                final(self).squeezes().last()@,
                old(self).stream(),
                out_bytes as int,
            ),
            final(self).links().take(old(self).rows().len() as int) == old(self).links(),
            final(self).block_offsets().take(old(self).rows().len() as int) == old(
                self,
            ).block_offsets(),
            final(self).shape() == after_squeeze(
                old(self).shape(),
                old(self).stream(),
                out_bytes as int,
            ),
            final(self).squeezes().last()@ == consecutive(
                old(self).rows().len() + ones(full_blocks(old(self).stream().len() as int) / 16),
                if out_bytes <= 64 {
                    1
                } else {
                    (out_bytes - 1) / 64 + 1
                },
            ),
            final(self).model() == chain_step(
                old(self).model(),
                Call::Finalize(out_bytes as nat),
            ),
    {
        let ghost before = *self;
        let ghost s = self.absorbed_bytes@;
        let ghost fb = full_blocks(s.len() as int);
        let ghost c = fb / 16;
        let ghost rows0 = self.emitted.rows@;
        let ghost shape0 = self.shape();
        let ghost base = rows0.len() as int;
        let depth: usize = self.stack.len();
        proof {
            lemma_stack_len(s, c);
            lemma_ones_range(c);
        }
        // The pending block, as this fork's last chunk block. It is the root
        // itself when no complete subtree remains to merge with.
        let mut flags: u32 = CHUNK_END;
        if self.blocks_in_chunk == 0 {
            flags = flags + CHUNK_START;
        }
        if depth == 0 {
            flags = flags + ROOT;
        }
        let m = words(self.buf.as_slice());
        let cv = self.chunk_cv;
        let blen: u32 = self.buf.len() as u32;
        let counter: u64 = self.chunk_counter;
        let mut out = blake3_compress(&cv, &m, counter, blen, flags);
        let link = Link {
            cv: match self.chunk_cv_row {
                None => CvSource::Iv,
                Some(r) => CvSource::Row(r),
            },
            right: None,
            repeats: None,
        };
        let mut root: Compression = (cv, m, counter, blen, flags);
        let ghost mut from: int = c;
        proof {
            assert(block_bytes(s, fb) =~= self.buf@);
            assert(chunk_last_block(s, c) == fb);
            if depth == 0 {
                if c > 0 {
                    lemma_low_bit(c);
                }
                assert(node_of(root) =~= root_node(s));
            } else {
                assert(node_of(root) =~= tree_node(s, c, 1));
            }
            assert(s.subrange(64 * fb, 64 * fb + blen) =~= self.buf@);
            let pushed = rows0.push(root);
            if let Some(r) = self.chunk_cv_row {
                assert(row_out(pushed, r as int) == row_out(rows0, r as int));
            }
        }
        let mut row: usize = self.emitted.emit(root, link, Some(self.buf_offset), Ghost(s));
        proof {
            assert((Entry { node: node_of(root), link, offset: Some(self.buf_offset) })
                == squeeze_entry(shape0, s, 0));
            assert(self.emitted.entries() =~= shape0.entries + squeeze_entries(shape0, s, 1));
            assert(self.emitted.rows@.take(rows0.len() as int) =~= rows0);
            lemma_stack_rows_grow(self.stack@, rows0, self.emitted.rows@, subtree_stack(s, c));
            assert(subtree_stack(s, c).take(depth as int) =~= subtree_stack(s, c));
            if c > 0 {
                lemma_low_bit(c);
            }
        }
        // Collapse the stack from the top; the last merge is the root.
        let mut i: usize = depth;
        while i > 0
            invariant
                i <= depth,
                depth == self.stack@.len(),
                self.same_live_state(before),
                self.squeezes == before.squeezes,
                s == self.absorbed_bytes@,
                s.len() <= usize::MAX,
                fb == full_blocks(s.len() as int),
                c == fb / 16,
                self.emitted.ok(s),
                stack_is(self.stack@, self.emitted.rows@, subtree_stack(s, c)),
                0 <= from <= c,
                from > 0 ==> c - from < low_bit(from),
                i == subtree_stack(s, from).len(),
                subtree_stack(s, c).take(i as int) == subtree_stack(s, from),
                row < self.emitted.rows@.len(),
                self.emitted.rows@[row as int] == root,
                out@ == compressed(node_of(root)),
                if i > 0 {
                    node_of(root) == tree_node(s, from, c + 1 - from)
                } else {
                    node_of(root) == root_node(s)
                },
                rows0.len() <= self.emitted.rows@.len(),
                self.emitted.rows@.take(rows0.len() as int) == rows0,
                self.emitted.rows@.len() == rows0.len() + 1 + depth - i,
                base == rows0.len(),
                shape0 == before.shape(),
                base == shape0.entries.len(),
                depth == ones(c),
                from == rest(c, depth - i),
                row + 1 == self.emitted.rows@.len(),
                self.emitted.entries() == shape0.entries + squeeze_entries(
                    shape0,
                    s,
                    1 + depth - i,
                ),
            decreases i,
        {
            let ghost rows1 = self.emitted.rows@;
            let ghost entries1 = self.emitted.entries();
            let ghost at = depth - i + 1;
            let ghost size = low_bit(from);
            proof {
                if from == 0 {
                    assert(subtree_stack(s, 0).len() == 0);
                }
                lemma_low_bit(from);
                lemma_split_at(from, c + 1 - from);
                lemma_stack_len(s, from - size);
                assert(subtree_stack(s, from).drop_last() =~= subtree_stack(s, from - size));
                assert(subtree_stack(s, c).take(i as int)[i - 1] == subtree_stack(s, c)[i - 1]);
                assert(subtree_stack(s, c).take(i - 1) =~= subtree_stack(s, c).take(
                    i as int,
                ).drop_last());
            }
            i = i - 1;
            let (left, left_row) = self.stack[i];
            assert(self.stack@[i as int] == (left, left_row));
            let node = first_half(&out);
            let pm = parent_block(&left, &node);
            let mut pf: u32 = PARENT;
            if i == 0 {
                pf = pf + ROOT;
            }
            let iv = iv();
            out = blake3_compress(&iv, &pm, 0, 64, pf);
            let link = Link { cv: CvSource::Row(left_row), right: Some(row), repeats: None };
            let next: Compression = (iv, pm, 0, 64, pf);
            proof {
                let parent = parent_node(left@, node@);
                assert(left@ == chaining(tree_node(s, from - size, size)));
                assert(node@ == chaining(tree_node(s, from, c + 1 - from)));
                assert(tree_node(s, from - size, c + 1 - (from - size)) == parent);
                let pushed = rows1.push(next);
                assert(row_out(pushed, left_row as int) == row_out(rows1, left_row as int));
                assert(row_out(pushed, row as int) == row_out(rows1, row as int));
                if i == 0 {
                    if from - size > 0 {
                        lemma_low_bit(from - size);
                        lemma_ones_range(from - size - low_bit(from - size));
                    }
                    assert(from - size == 0);
                    assert(node_of(next) =~= (Node { flags: (PARENT + ROOT) as u32, ..parent }));
                    assert(node_of(next) =~= root_node(s));
                } else {
                    assert(node_of(next) =~= parent);
                }
                from = from - size;
            }
            root = next;
            row = self.emitted.emit(root, link, None, Ghost(s));
            proof {
                let e = Entry { node: node_of(root), link, offset: None };
                assert(shape0.subtrees[depth - at] == left_row);
                assert(e == squeeze_entry(shape0, s, at));
                assert(entries1.push(e) =~= shape0.entries + squeeze_entries(shape0, s, at + 1));
                assert(self.emitted.rows@.take(rows1.len() as int) =~= rows1);
                lemma_stack_rows_grow(self.stack@, rows1, self.emitted.rows@, subtree_stack(s, c));
                assert(self.emitted.rows@.take(rows0.len() as int) =~= rows1.take(
                    rows0.len() as int,
                ));
            }
        }
        proof {
            let n = chunk_count(s.len() as int);
            if n > 1 {
                lemma_split_range(n);
            }
            assert(root_node(s).counter == 0);
        }
        // The root compression yields the first 64 output bytes; further
        // blocks re-run it at counters 1, 2, ...
        let root_row: usize = row;
        let mut ids: Vec<usize> = Vec::new();
        ids.push(row);
        let mut bytes: Vec<u8> = Vec::new();
        push_words(&mut bytes, &out);
        proof {
            lemma_compressed_len(root_node(s));
            assert(node_of(root) =~= (Node { counter: 0u64, ..root_node(s) }));
            assert(bytes@ =~= output_block(s, 0));
            assert(ids@ =~= consecutive(base + depth, 1));
        }
        let mut ctr: u64 = 1;
        let ghost rows2 = self.emitted.rows@;
        while bytes.len() < out_bytes
            invariant
                self.same_live_state(before),
                self.squeezes == before.squeezes,
                s == self.absorbed_bytes@,
                fb == full_blocks(s.len() as int),
                c == fb / 16,
                out_bytes <= usize::MAX - 64,
                self.emitted.ok(s),
                stack_is(self.stack@, self.emitted.rows@, subtree_stack(s, c)),
                1 <= ctr,
                bytes@.len() == 64 * ctr,
                ctr > 1 ==> 64 * (ctr - 1) < out_bytes,
                forall|i: int|
                    0 <= i < bytes@.len() ==> #[trigger] bytes@[i] == output_block(s, i / 64)[i % 64],
                node_of(root) == root_node(s),
                root.2 == 0,
                root_row < rows2.len() <= self.emitted.rows@.len(),
                self.emitted.rows@.take(rows2.len() as int) == rows2,
                rows2[root_row as int] == root,
                self.emitted.rows@.len() == rows2.len() + ctr - 1,
                ids@.len() == ctr,
                base == rows0.len(),
                shape0 == before.shape(),
                base == shape0.entries.len(),
                depth == ones(c),
                root_row == base + depth,
                rows2.len() == base + depth + 1,
                ids@ == consecutive(base + depth, ctr as int),
                self.emitted.entries() == shape0.entries + squeeze_entries(
                    shape0,
                    s,
                    depth + ctr,
                ),
                forall|j: int|
                    0 <= j < ids@.len() ==> (#[trigger] ids@[j]) < self.emitted.rows@.len() && node_of(
                        self.emitted.rows@[ids@[j] as int],
                    ) == (Node { counter: j as u64, ..root_node(s) }),
            decreases out_bytes + 64 - bytes@.len(),
        {
            let ghost rows1 = self.emitted.rows@;
            let o = blake3_compress(&root.0, &root.1, ctr, root.3, root.4);
            let next: Compression = (root.0, root.1, ctr, root.3, root.4);
            let link = Link { cv: CvSource::Iv, right: None, repeats: Some(root_row) };
            proof {
                assert(rows1.take(rows2.len() as int)[root_row as int] == rows1[root_row as int]);
                assert(node_of(next) =~= (Node { counter: ctr, ..root_node(s) }));
                let pushed = rows1.push(next);
                assert(pushed[root_row as int] == root);
                lemma_compressed_len(node_of(next));
            }
            let ghost entries1 = self.emitted.entries();
            let r: usize = self.emitted.emit(next, link, None, Ghost(s));
            proof {
                let e = Entry { node: node_of(next), link, offset: None };
                assert(e == squeeze_entry(shape0, s, depth + ctr));
                assert(entries1.push(e) =~= shape0.entries + squeeze_entries(
                    shape0,
                    s,
                    depth + ctr + 1,
                ));
            }
            let ghost ids1 = ids@;
            ids.push(r);
            let ghost bytes1 = bytes@;
            push_words(&mut bytes, &o);
            proof {
                assert(ids@ =~= consecutive(base + depth, ctr + 1));
                assert(self.emitted.rows@.take(rows1.len() as int) =~= rows1);
                assert(self.emitted.rows@.take(rows2.len() as int) =~= rows1.take(
                    rows2.len() as int,
                ));
                lemma_stack_rows_grow(self.stack@, rows1, self.emitted.rows@, subtree_stack(s, c));
                assert(o@ == compressed(Node { counter: ctr, ..root_node(s) }));
                assert forall|i: int| 0 <= i < bytes@.len() implies #[trigger] bytes@[i]
                    == output_block(s, i / 64)[i % 64] by {
                    if i < bytes1.len() {
                        assert(bytes@[i] == bytes1[i]);
                    } else {
                        assert(i / 64 == ctr && i % 64 == i - 64 * ctr);
                    }
                }
                assert forall|j: int| 0 <= j < ids@.len() implies (#[trigger] ids@[j])
                    < self.emitted.rows@.len() && node_of(self.emitted.rows@[ids@[j] as int]) == (
                Node { counter: j as u64, ..root_node(s) }) by {
                    if j < ids1.len() {
                        assert(ids@[j] == ids1[j]);
                        assert(self.emitted.rows@[ids1[j] as int] == rows1[ids1[j] as int]);
                    }
                }
            }
            ctr = ctr + 1;
        }
        bytes.truncate(out_bytes);
        proof {
            assert(bytes@ =~= xof(s, out_bytes as int));
            assert forall|j: int| 0 <= j < rows0.len() implies self.emitted.rows@[j] == rows0[j] by {
                assert(self.emitted.rows@.take(rows2.len() as int)[j] == rows2[j]);
                assert(rows2.take(rows0.len() as int)[j] == rows2[j]);
            }
            assert(self.emitted.rows@.take(rows0.len() as int) =~= rows0);
            assert(self.emitted.rows.len() == self.emitted.rows@.len());
            lemma_squeeze_traced(shape0, before.squeezes@, ids, s, out_bytes as int);
            assert(self.emitted.entries().take(base) =~= shape0.entries);
            self.emitted.lemma_prefix(before.emitted);
        }
        self.squeezes.push(ids);
        proof {
            assert(self.squeezes@ =~= before.squeezes@.push(ids));
            assert(self.shape() =~= after_squeeze(shape0, s, out_bytes as int));
            assert(self.squeezes@.drop_last() =~= before.squeezes@);
            assert(self.model().squeezes =~= before.model().squeezes.push(ids@));
            assert(self.model() =~= chain_step(before.model(), Call::Finalize(out_bytes as nat)));
            tree_squeezes_read_their_rows(
                self.emitted.rows@,
                self.squeezes@.last()@,
                s,
                out_bytes as int,
            );
            assert(self.chunk_cv_row == before.chunk_cv_row);
            if let Some(r) = self.chunk_cv_row {
                assert(self.emitted.rows@.take(rows0.len() as int)[r as int]
                    == self.emitted.rows@[r as int]);
            }
        }
        bytes
    }

    /// The trace: its rows, how they are wired, and the squeezes.
    pub fn finish(self) -> (trace: FsChainTrace)
        requires
            self.wf(),
        ensures
            trace.rows@ == self.rows(),
            trace.links@ == self.links(),
            trace.squeezes@ == self.squeezes(),
            trace.block_offsets@ == self.block_offsets(),
            all_wired(trace.rows@, trace.links@, trace.block_offsets@, self.stream()),
            traced(
                entries_of(trace.rows@, trace.links@, trace.block_offsets@),
                trace.squeezes@,
            ),
    {
        FsChainTrace {
            rows: self.emitted.rows,
            links: self.emitted.links,
            squeezes: self.squeezes,
            block_offsets: self.emitted.block_offsets,
        }
    }
}


// ---------------------------------------------------------------------------
// The sequential chain.
// ---------------------------------------------------------------------------

/// Domain flag of the sequential chain's absorb compressions.
pub const CHAIN_ABSORB: u32 = 64;

/// Domain flag of the sequential chain's output compressions.
pub const CHAIN_SQUEEZE: u32 = 128;

/// The absorb compression of block `k` of the stream.
pub open spec fn chain_node(stream: Seq<u8>, k: int) -> Node
    decreases k, 1int,
{
    Node {
        cv: chain_cv(stream, k),
        block: block_words(block_bytes(stream, k)),
        counter: k as u64,
        blen: block_bytes(stream, k).len() as u32,
        flags: CHAIN_ABSORB,
    }
}

/// The chaining value after `k` blocks of the stream.
pub open spec fn chain_cv(stream: Seq<u8>, k: int) -> Seq<u32>
    decreases k, 0int,
{
    if k <= 0 {
        iv_words()
    } else {
        chaining(chain_node(stream, k - 1))
    }
}

/// The chaining value that the whole stream leaves: full blocks, then the
/// partial one where there is one.
pub open spec fn chain_state(stream: Seq<u8>) -> Seq<u32> {
    let k = stream.len() as int / 64;
    if stream.len() % 64 == 0 {
        chain_cv(stream, k)
    } else {
        chaining(chain_node(stream, k))
    }
}

/// Output compression `j` of a squeeze of `n` bytes.
pub open spec fn squeeze_node(stream: Seq<u8>, n: int, j: int) -> Node {
    Node {
        cv: chain_state(stream),
        block: Seq::new(16, |k: int| 0u32),
        counter: j as u64,
        blen: n as u32,
        flags: CHAIN_SQUEEZE,
    }
}

/// The `n` bytes squeezed from the chain after the stream.
pub open spec fn chain_squeeze(stream: Seq<u8>, n: int) -> Seq<u8> {
    Seq::new(
        n as nat,
        |i: int| word_bytes(compressed(squeeze_node(stream, n, i / 64)))[i % 64],
    )
}

proof fn lemma_chain_stable(s: Seq<u8>, t: Seq<u8>, k: int)
    requires
        0 <= k,
        64 * k <= s.len(),
        s.len() <= t.len(),
        t.subrange(0, s.len() as int) == s,
    ensures
        chain_cv(s, k) == chain_cv(t, k),
    decreases k,
{
    if k > 0 {
        lemma_chain_stable(s, t, k - 1);
        assert(block_bytes(s, k - 1) =~= block_bytes(t, k - 1)) by {
            assert forall|i: int| 0 <= i < s.len() implies #[trigger] s[i] == t[i] by {
                assert(t.subrange(0, s.len() as int)[i] == t[i]);
            }
        }
    }
}

pub(crate) proof fn lemma_chain_node_stable(s: Seq<u8>, t: Seq<u8>, k: int)
    requires
        0 <= k,
        64 * (k + 1) <= s.len(),
        s.len() <= t.len(),
        t.subrange(0, s.len() as int) == s,
    ensures
        chain_node(s, k) == chain_node(t, k),
{
    lemma_chain_stable(s, t, k);
    assert(block_bytes(s, k) =~= block_bytes(t, k)) by {
        assert forall|i: int| 0 <= i < s.len() implies #[trigger] s[i] == t[i] by {
            assert(t.subrange(0, s.len() as int)[i] == t[i]);
        }
    }
}

proof fn lemma_chain_entries_stable(
    cv_row: Option<usize>,
    base: int,
    s: Seq<u8>,
    t: Seq<u8>,
    from: int,
    to: int,
)
    requires
        0 <= from <= to,
        64 * to <= s.len(),
        s.len() <= t.len(),
        t.subrange(0, s.len() as int) == s,
    ensures
        chain_entries(cv_row, base, s, from, to) == chain_entries(cv_row, base, t, from, to),
{
    let one = chain_entries(cv_row, base, s, from, to);
    let other = chain_entries(cv_row, base, t, from, to);
    assert forall|j: int| 0 <= j < one.len() implies #[trigger] one[j] == other[j] by {
        lemma_chain_node_stable(s, t, from + j);
    }
    assert(one =~= other);
}

proof fn lemma_chain_entries_push(
    entries: Seq<Entry>,
    cv_row: Option<usize>,
    base: int,
    s: Seq<u8>,
    from: int,
    to: int,
)
    requires
        from <= to,
    ensures
        (entries + chain_entries(cv_row, base, s, from, to)).push(
            chain_entry(chain_row(cv_row, base, to - from), s, to),
        ) == entries + chain_entries(cv_row, base, s, from, to + 1),
{
    let e = chain_entry(chain_row(cv_row, base, to - from), s, to);
    assert(chain_entries(cv_row, base, s, from, to + 1) =~= chain_entries(
        cv_row,
        base,
        s,
        from,
        to,
    ).push(e));
    assert((entries + chain_entries(cv_row, base, s, from, to)).push(e) =~= entries
        + chain_entries(cv_row, base, s, from, to).push(e));
}

/// The sequential chain emits the same rows for bytes absorbed in two parts as
/// for the bytes absorbed at once.
pub proof fn chaining_in_parts(
    cv_row: Option<usize>,
    base: int,
    s: Seq<u8>,
    a: Seq<u8>,
    b: Seq<u8>,
)
    ensures
        ({
            let k0 = s.len() as int / 64;
            let k1 = (s + a).len() as int / 64;
            let k2 = (s + (a + b)).len() as int / 64;
            let mid = chain_row(cv_row, base, k1 - k0);
            let first = chain_entries(cv_row, base, s + a, k0, k1);
            let second = chain_entries(mid, base + k1 - k0, s + a + b, k1, k2);
            &&& first + second == chain_entries(cv_row, base, s + (a + b), k0, k2)
            &&& chain_row(mid, base + k1 - k0, k2 - k1) == chain_row(cv_row, base, k2 - k0)
        }),
{
    let k0 = s.len() as int / 64;
    let k1 = (s + a).len() as int / 64;
    let k2 = (s + (a + b)).len() as int / 64;
    let t = s + (a + b);
    assert(s + a + b =~= t);
    assert(t.subrange(0, (s + a).len() as int) =~= s + a);
    lemma_chain_entries_stable(cv_row, base, s + a, t, k0, k1);
    let mid = chain_row(cv_row, base, k1 - k0);
    assert(chain_entries(cv_row, base, t, k0, k1) + chain_entries(
        mid,
        base + k1 - k0,
        t,
        k1,
        k2,
    ) =~= chain_entries(cv_row, base, t, k0, k2));
}

/// The sequentially chained transcript: no chunk tree and no root forks.
/// Output rows carry a zero message block.
pub struct FsChainSponge {
    emitted: Rows,
    squeezes: Vec<Vec<usize>>,
    cv: [u32; 8],
    cv_row: Option<usize>,
    counter: u64,
    buf: Vec<u8>,
    buf_offset: usize,
    absorbed: usize,
    absorbed_bytes: Ghost<Seq<u8>>,
    requested: Ghost<Seq<int>>,
}

/// The rows that a squeeze of `n` bytes after `len` bytes emits.
pub open spec fn chain_squeeze_rows(len: int, n: int) -> int {
    (if len % 64 == 0 {
        0int
    } else {
        1
    }) + (n + 63) / 64
}

/// The squeeze's rows are its output compressions in order.
pub open spec fn chain_squeeze_is(
    rows: Seq<Compression>,
    ids: Seq<usize>,
    stream: Seq<u8>,
    n: int,
) -> bool {
    &&& ids.len() == (n + 63) / 64
    &&& forall|j: int|
        0 <= j < ids.len() ==> (#[trigger] ids[j]) < rows.len() && node_of(rows[ids[j] as int])
            == squeeze_node(stream, n, j)
}

impl FsChainSponge {
    /// The bytes absorbed so far.
    pub closed spec fn stream(self) -> Seq<u8> {
        self.absorbed_bytes@
    }

    /// The rows emitted so far.
    pub closed spec fn rows(self) -> Seq<Compression> {
        self.emitted.rows@
    }

    /// The rows' links.
    pub closed spec fn links(self) -> Seq<Link> {
        self.emitted.links@
    }

    /// The rows' block offsets.
    pub closed spec fn block_offsets(self) -> Seq<Option<usize>> {
        self.emitted.block_offsets@
    }

    /// The squeezes taken so far.
    pub closed spec fn squeezes(self) -> Seq<Vec<usize>> {
        self.squeezes@
    }

    /// The row behind the chaining value.
    pub closed spec fn cv_row(self) -> Option<usize> {
        self.cv_row
    }

    /// The rows emitted so far with their links and offsets.
    pub open spec fn entries(self) -> Seq<Entry> {
        entries_of(self.rows(), self.links(), self.block_offsets())
    }

    /// The length that each squeeze was asked for.
    pub closed spec fn requested(self) -> Seq<int> {
        self.requested@
    }

    /// The chain as its contracts see it.
    pub open spec fn model(self) -> SpongeModel {
        SpongeModel {
            entries: self.entries(),
            cv_row: self.cv_row(),
            stream: self.stream(),
            squeezes: Seq::new(self.squeezes().len(), |i: int| self.squeezes()[i]@),
            requested: self.requested(),
        }
    }

    closed spec fn at(self, k: int) -> bool {
        let s = self.absorbed_bytes@;
        &&& 0 <= k
        &&& 64 * k <= s.len()
        &&& s.len() <= usize::MAX
        &&& self.absorbed == s.len()
        &&& self.buf@ == s.skip(64 * k)
        &&& self.buf_offset == 64 * k
        &&& self.counter == k
        &&& self.cv@ == chain_cv(s, k)
        &&& match self.cv_row {
            None => k == 0,
            Some(r) => r < self.emitted.rows@.len() && row_out(self.emitted.rows@, r as int)
                == self.cv@,
        }
        &&& self.emitted.ok(s)
    }

    /// The chain's state is the one of its stream, every row is wired as its
    /// link says, and the squeezes name the output rows.
    pub closed spec fn wf(self) -> bool {
        &&& self.at(self.absorbed_bytes@.len() as int / 64)
        &&& chain_traced(self.emitted.entries(), self.squeezes@, self.requested@)
    }

    /// The live state is the same: everything but the emitted rows and the
    /// list of squeezes.
    pub closed spec fn same_live_state(self, other: FsChainSponge) -> bool {
        &&& self.cv == other.cv
        &&& self.cv_row == other.cv_row
        &&& self.counter == other.counter
        &&& self.buf == other.buf
        &&& self.buf_offset == other.buf_offset
        &&& self.absorbed == other.absorbed
        &&& self.absorbed_bytes == other.absorbed_bytes
    }

    /// An empty chain.
    pub fn new() -> (chain: FsChainSponge)
        ensures
            chain.wf(),
            chain.stream() == Seq::<u8>::empty(),
            chain.rows().len() == 0,
            chain.model() == sponge_start(),
            chain.squeezes().len() == 0,
    {
        let chain = FsChainSponge {
            emitted: Rows { rows: Vec::new(), links: Vec::new(), block_offsets: Vec::new() },
            squeezes: Vec::new(),
            cv: iv(),
            cv_row: None,
            counter: 0,
            buf: Vec::with_capacity(BLOCK_BYTES),
            buf_offset: 0,
            absorbed: 0,
            absorbed_bytes: Ghost(Seq::empty()),
            requested: Ghost(Seq::empty()),
        };
        assert(chain.buf@ =~= chain.absorbed_bytes@.skip(0));
        assert(chain.model() =~= sponge_start());
        chain
    }

    /// The link of a row that chains on the live value.
    fn cv_link(&self) -> (link: Link)
        ensures
            link == chained(source(self.cv_row)),
    {
        Link {
            cv: match self.cv_row {
                None => CvSource::Iv,
                Some(r) => CvSource::Row(r),
            },
            right: None,
            repeats: None,
        }
    }

    /// Compress the pending bytes as block `counter`; returns the new
    /// chaining value and the row.
    fn compress_pending(&mut self, k: Ghost<int>) -> (out: ([u32; 8], usize))
        requires
            old(self).at(k@),
            0 < old(self).buf@.len() <= 64,
        ensures
            final(self).same_live_state(*old(self)),
            final(self).squeezes == old(self).squeezes,
            final(self).requested == old(self).requested,
            final(self).at(k@),
            final(self).emitted.entries() == old(self).emitted.entries().push(
                chain_entry(old(self).cv_row, old(self).absorbed_bytes@, k@),
            ),
            final(self).emitted.rows@.len() == old(self).emitted.rows@.len() + 1,
            final(self).emitted.rows@.drop_last() == old(self).emitted.rows@,
            out.1 == old(self).emitted.rows@.len(),
            out.0@ == chaining(chain_node(old(self).absorbed_bytes@, k@)),
            row_out(final(self).emitted.rows@, out.1 as int) == out.0@,
    {
        let ghost k = k@;
        let ghost s = self.absorbed_bytes@;
        let ghost rows0 = self.emitted.rows@;
        let m = words(self.buf.as_slice());
        let blen: u32 = self.buf.len() as u32;
        let out = blake3_compress(&self.cv, &m, self.counter, blen, CHAIN_ABSORB);
        let link = self.cv_link();
        let c: Compression = (self.cv, m, self.counter, blen, CHAIN_ABSORB);
        proof {
            assert(block_bytes(s, k) =~= self.buf@);
            assert(node_of(c) =~= chain_node(s, k));
            assert(s.subrange(64 * k, 64 * k + blen) =~= self.buf@);
            let pushed = rows0.push(c);
            if let Some(r) = self.cv_row {
                assert(row_out(pushed, r as int) == row_out(rows0, r as int));
            }
        }
        let row: usize = self.emitted.emit(c, link, Some(self.buf_offset), Ghost(s));
        assert(self.emitted.rows@.drop_last() =~= rows0);
        (first_half(&out), row)
    }

    /// Absorb transcript bytes; every full block is compressed at once.
    pub fn absorb(&mut self, bytes: &[u8])
        requires
            old(self).wf(),
            old(self).stream().len() + bytes@.len() <= usize::MAX,
        ensures
            final(self).wf(),
            final(self).stream() == old(self).stream() + bytes@,
            final(self).squeezes() == old(self).squeezes(),
            final(self).rows().len() - old(self).rows().len() == final(self).stream().len() as int / 64
                - old(self).stream().len() as int / 64,
            final(self).rows().take(old(self).rows().len() as int) == old(self).rows(),
            final(self).links().take(old(self).rows().len() as int) == old(self).links(),
            final(self).block_offsets().take(old(self).rows().len() as int) == old(
                self,
            ).block_offsets(),
            final(self).entries() == old(self).entries() + chain_entries(
                old(self).cv_row(),
                old(self).rows().len() as int,
                final(self).stream(),
                old(self).stream().len() as int / 64,
                final(self).stream().len() as int / 64,
            ),
            final(self).cv_row() == chain_row(
                old(self).cv_row(),
                old(self).rows().len() as int,
                final(self).stream().len() as int / 64 - old(self).stream().len() as int / 64,
            ),
            final(self).model() == sponge_step(old(self).model(), Call::Absorb(bytes@)),
    {
        let ghost before = *self;
        let ghost s0 = self.absorbed_bytes@;
        let ghost rows0 = self.emitted.rows@;
        let ghost entries0 = self.emitted.entries();
        let ghost base = rows0.len() as int;
        let ghost k0 = s0.len() as int / 64;
        let ghost cv_row0 = self.cv_row;
        let mut i: usize = 0;
        proof {
            assert(entries0 + chain_entries(cv_row0, base, s0, k0, k0) =~= entries0);
            assert(s0 + bytes@.take(0) =~= s0);
            assert(self.emitted.rows@.take(rows0.len() as int) =~= rows0);
        }
        while i < bytes.len()
            invariant
                i <= bytes@.len(),
                self.at(self.absorbed_bytes@.len() as int / 64),
                base == rows0.len(),
                k0 == s0.len() as int / 64,
                self.cv_row == chain_row(
                    cv_row0,
                    base,
                    self.absorbed_bytes@.len() as int / 64 - k0,
                ),
                self.emitted.entries() == entries0 + chain_entries(
                    cv_row0,
                    base,
                    self.absorbed_bytes@,
                    k0,
                    self.absorbed_bytes@.len() as int / 64,
                ),
                s0.len() + bytes@.len() <= usize::MAX,
                self.absorbed_bytes@ == s0 + bytes@.take(i as int),
                self.squeezes == before.squeezes,
                self.requested == before.requested,
                rows0.len() <= self.emitted.rows@.len(),
                self.emitted.rows@.take(rows0.len() as int) == rows0,
                self.emitted.rows@.len() - rows0.len() == self.absorbed_bytes@.len() as int / 64
                    - s0.len() as int / 64,
            decreases bytes@.len() - i,
        {
            let ghost s = self.absorbed_bytes@;
            let ghost k = s.len() as int / 64;
            let b: u8 = bytes[i];
            let ghost t = s.push(b);
            proof {
                assert(t.take(s.len() as int) =~= s);
                assert(t.subrange(0, s.len() as int) =~= s);
                lemma_chain_stable(s, t, k);
                lemma_chain_entries_stable(cv_row0, base, s, t, k0, k);
                self.emitted.lemma_stream_grows(s, t);
                assert(self.buf@.push(b) =~= t.skip(64 * k));
                assert(s0 + bytes@.take(i + 1) =~= t);
            }
            self.buf.push(b);
            self.absorbed = self.absorbed + 1;
            self.absorbed_bytes = Ghost(t);
            assert(self.at(k));
            if self.buf.len() == BLOCK_BYTES {
                let ghost rows1 = self.emitted.rows@;
                let (cv, row) = self.compress_pending(Ghost(k));
                proof {
                    lemma_chain_entries_push(entries0, cv_row0, base, t, k0, k);
                }
                self.cv = cv;
                self.cv_row = Some(row);
                self.counter = self.counter + 1;
                self.buf.clear();
                self.buf_offset = self.absorbed;
                proof {
                    assert(self.buf@ =~= t.skip(64 * (k + 1)));
                    assert(self.emitted.rows@.take(rows0.len() as int) =~= rows1.take(
                        rows0.len() as int,
                    )) by {
                        assert forall|j: int| 0 <= j < rows1.len() implies self.emitted.rows@[j]
                            == rows1[j] by {
                            assert(self.emitted.rows@.drop_last()[j] == rows1[j]);
                        }
                    }
                }
            }
            i = i + 1;
        }
        proof {
            assert(s0 + bytes@.take(i as int) =~= s0 + bytes@);
            let s = self.absorbed_bytes@;
            let more = chain_entries(cv_row0, base, s, k0, s.len() as int / 64);
            assert forall|j: int| 0 <= j < more.len() implies chain_offset_fits(
                #[trigger] more[j],
            ) && more[j].offset is Some by {
                assert((64 * (k0 + j)) % 64 == 0);
            }
            lemma_chain_traced_grows(entries0, more, self.squeezes@, self.requested@);
            assert(self.emitted.entries().take(base) =~= entries0);
            self.emitted.lemma_prefix(before.emitted);
            assert(self.model() =~= sponge_step(before.model(), Call::Absorb(bytes@)));
        }
    }

    /// Fork a squeeze off the current state: flush the pending bytes into a
    /// local row, then emit the output rows. The live chain keeps its pending
    /// bytes.
    pub fn finalize(&mut self, out_bytes: usize) -> (bytes: Vec<u8>)
        requires
            old(self).wf(),
            out_bytes <= usize::MAX - 64,
        ensures
            bytes@ == chain_squeeze(old(self).stream(), out_bytes as int),
            bytes@.len() == out_bytes,
            forall|i: int|
                #![trigger bytes@[i]]
                0 <= i < out_bytes ==> bytes@[i] == word_bytes(
                    compressed(
                        node_of(final(self).rows()[final(self).squeezes().last()@[i / 64] as int]),
                    ),
                )[i % 64],
            final(self).wf(),
            final(self).stream() == old(self).stream(),
            final(self).same_live_state(*old(self)),
            final(self).rows().len() == old(self).rows().len() + chain_squeeze_rows(
                old(self).stream().len() as int,
                out_bytes as int,
            ),
            final(self).rows().take(old(self).rows().len() as int) == old(self).rows(),
            final(self).squeezes().len() == old(self).squeezes().len() + 1,
            final(self).squeezes().drop_last() == old(self).squeezes(),
            chain_squeeze_is(
                final(self).rows(),
                final(self).squeezes().last()@,
                old(self).stream(),
                out_bytes as int,
            ),
            final(self).links().take(old(self).rows().len() as int) == old(self).links(),
            final(self).block_offsets().take(old(self).rows().len() as int) == old(
                self,
            ).block_offsets(),
            final(self).entries() == old(self).entries() + chain_squeeze_entries(
                old(self).cv_row(),
                old(self).rows().len() as int,
                old(self).stream(),
                out_bytes as int,
            ),
            final(self).squeezes().last()@ == consecutive(
                old(self).rows().len() + chain_squeeze_rows(
                    old(self).stream().len() as int,
                    0,
                ),
                (out_bytes + 63) / 64,
            ),
            final(self).requested() == old(self).requested().push(out_bytes as int),
            final(self).model() == sponge_step(
                old(self).model(),
                Call::Finalize(out_bytes as nat),
            ),
    {
        let ghost before = *self;
        let ghost s = self.absorbed_bytes@;
        let ghost k = s.len() as int / 64;
        let ghost rows0 = self.emitted.rows@;
        let ghost entries0 = self.emitted.entries();
        let ghost base = rows0.len() as int;
        let ghost flushed = flush_entries(self.cv_row, s);
        let (fcv, fcv_row): ([u32; 8], Option<usize>) = if self.buf.len() == 0 {
            (self.cv, self.cv_row)
        } else {
            let (cv, row) = self.compress_pending(Ghost(k));
            (cv, Some(row))
        };
        let ghost rows1 = self.emitted.rows@;
        let ghost entries1 = self.emitted.entries();
        proof {
            assert(entries1 =~= entries0 + flushed);
            assert(fcv_row == chain_row(before.cv_row, base, flushed.len() as int));
            assert(entries1 + output_entries(fcv_row, s, out_bytes as int, 0) =~= entries1);
            assert(fcv@ == chain_state(s));
            assert(rows1.take(rows0.len() as int) =~= rows0) by {
                if s.len() % 64 != 0 {
                    assert(rows1.drop_last() =~= rows0);
                }
            }
        }
        let zero: [u32; 16] = [0; 16];
        assert(zero@ =~= Seq::new(16, |k: int| 0u32));
        let mut ids: Vec<usize> = Vec::new();
        let mut bytes: Vec<u8> = Vec::new();
        let mut j: u64 = 0;
        while bytes.len() < out_bytes
            invariant
                self.same_live_state(before),
                self.squeezes == before.squeezes,
                self.requested == before.requested,
                s == self.absorbed_bytes@,
                out_bytes <= usize::MAX - 64,
                self.emitted.ok(s),
                fcv@ == chain_state(s),
                zero@ == Seq::new(16, |k: int| 0u32),
                match fcv_row {
                    None => fcv@ == iv_words(),
                    Some(r) => r < rows1.len() && row_out(rows1, r as int) == fcv@,
                },
                bytes@.len() == 64 * j,
                j > 0 ==> 64 * (j - 1) < out_bytes,
                forall|i: int|
                    0 <= i < bytes@.len() ==> #[trigger] bytes@[i] == word_bytes(
                        compressed(squeeze_node(s, out_bytes as int, i / 64)),
                    )[i % 64],
                rows1.len() <= self.emitted.rows@.len(),
                self.emitted.rows@.take(rows1.len() as int) == rows1,
                self.emitted.rows@.len() == rows1.len() + j,
                ids@.len() == j,
                ids@ == consecutive(rows1.len() as int, j as int),
                self.emitted.entries() == entries1 + output_entries(
                    fcv_row,
                    s,
                    out_bytes as int,
                    j as int,
                ),
                forall|i: int|
                    0 <= i < ids@.len() ==> (#[trigger] ids@[i]) < self.emitted.rows@.len() && node_of(
                        self.emitted.rows@[ids@[i] as int],
                    ) == squeeze_node(s, out_bytes as int, i),
            decreases out_bytes + 64 - bytes@.len(),
        {
            let ghost rows2 = self.emitted.rows@;
            let o = blake3_compress(&fcv, &zero, j, out_bytes as u32, CHAIN_SQUEEZE);
            let c: Compression = (fcv, zero, j, out_bytes as u32, CHAIN_SQUEEZE);
            let link = Link {
                cv: match fcv_row {
                    None => CvSource::Iv,
                    Some(r) => CvSource::Row(r),
                },
                right: None,
                repeats: None,
            };
            proof {
                assert(node_of(c) =~= squeeze_node(s, out_bytes as int, j as int));
                let pushed = rows2.push(c);
                if let Some(r) = fcv_row {
                    assert(rows2.take(rows1.len() as int)[r as int] == rows2[r as int]);
                    assert(row_out(pushed, r as int) == row_out(rows1, r as int));
                }
                lemma_compressed_len(node_of(c));
            }
            let ghost entries2 = self.emitted.entries();
            let row: usize = self.emitted.emit(c, link, None, Ghost(s));
            proof {
                let e = Entry { node: node_of(c), link, offset: None };
                assert(e == output_entry(fcv_row, s, out_bytes as int, j as int));
                assert(entries2.push(e) =~= entries1 + output_entries(
                    fcv_row,
                    s,
                    out_bytes as int,
                    j + 1,
                ));
            }
            let ghost ids1 = ids@;
            ids.push(row);
            let ghost bytes1 = bytes@;
            push_words(&mut bytes, &o);
            proof {
                assert(ids@ =~= consecutive(rows1.len() as int, j + 1));
                assert(self.emitted.rows@.take(rows1.len() as int) =~= rows2.take(
                    rows1.len() as int,
                ));
                assert forall|i: int| 0 <= i < bytes@.len() implies #[trigger] bytes@[i]
                    == word_bytes(compressed(squeeze_node(s, out_bytes as int, i / 64)))[i % 64] by {
                    if i < bytes1.len() {
                        assert(bytes@[i] == bytes1[i]);
                    } else {
                        assert(i / 64 == j && i % 64 == i - 64 * j);
                    }
                }
                assert forall|i: int| 0 <= i < ids@.len() implies (#[trigger] ids@[i])
                    < self.emitted.rows@.len() && node_of(self.emitted.rows@[ids@[i] as int])
                    == squeeze_node(s, out_bytes as int, i) by {
                    if i < ids1.len() {
                        assert(ids@[i] == ids1[i]);
                        assert(self.emitted.rows@[ids1[i] as int] == rows2[ids1[i] as int]);
                    }
                }
            }
            j = j + 1;
        }
        bytes.truncate(out_bytes);
        proof {
            assert(bytes@ =~= chain_squeeze(s, out_bytes as int));
            assert forall|i: int| 0 <= i < rows0.len() implies self.emitted.rows@[i] == rows0[i] by {
                assert(self.emitted.rows@.take(rows1.len() as int)[i] == rows1[i]);
                assert(rows1.take(rows0.len() as int)[i] == rows1[i]);
            }
            assert(self.emitted.rows@.take(rows0.len() as int) =~= rows0);
            assert(self.emitted.rows.len() == self.emitted.rows@.len());
            let more = chain_squeeze_entries(before.cv_row, base, s, out_bytes as int);
            assert(self.emitted.entries() =~= entries0 + more);
            lemma_chain_traced_squeeze(
                entries0,
                before.cv_row,
                before.squeezes@,
                before.requested@,
                ids,
                s,
                out_bytes as int,
            );
            assert(self.emitted.entries().take(base) =~= entries0);
            self.emitted.lemma_prefix(before.emitted);
        }
        self.squeezes.push(ids);
        self.requested = Ghost(self.requested@.push(out_bytes as int));
        proof {
            assert(self.model().squeezes =~= before.model().squeezes.push(ids@));
            assert(self.model() =~= sponge_step(before.model(), Call::Finalize(out_bytes as nat)));
            chain_squeezes_read_their_rows(
                self.emitted.rows@,
                self.squeezes@.last()@,
                s,
                out_bytes as int,
            );
            assert(self.squeezes@ =~= before.squeezes@.push(ids));
            assert(self.squeezes@.drop_last() =~= before.squeezes@);
            if let Some(r) = self.cv_row {
                assert(self.emitted.rows@.take(rows0.len() as int)[r as int]
                    == self.emitted.rows@[r as int]);
            }
        }
        bytes
    }

    /// The trace: its rows, how they are wired, and the squeezes.
    pub fn finish(self) -> (trace: FsChainTrace)
        requires
            self.wf(),
        ensures
            trace.rows@ == self.rows(),
            trace.links@ == self.links(),
            trace.squeezes@ == self.squeezes(),
            trace.block_offsets@ == self.block_offsets(),
            all_wired(trace.rows@, trace.links@, trace.block_offsets@, self.stream()),
            chain_traced(
                entries_of(trace.rows@, trace.links@, trace.block_offsets@),
                trace.squeezes@,
                self.requested(),
            ),
    {
        FsChainTrace {
            rows: self.emitted.rows,
            links: self.emitted.links,
            squeezes: self.squeezes,
            block_offsets: self.emitted.block_offsets,
        }
    }
}

impl Default for FsChain {
    fn default() -> (chain: FsChain)
        ensures
            chain.wf(),
            chain.stream() == Seq::<u8>::empty(),
            chain.model() == chain_start(),
            chain.rows().len() == 0,
            chain.squeezes().len() == 0,
    {
        FsChain::new()
    }
}

impl Default for FsChainSponge {
    fn default() -> (chain: FsChainSponge)
        ensures
            chain.wf(),
            chain.stream() == Seq::<u8>::empty(),
            chain.rows().len() == 0,
            chain.model() == sponge_start(),
            chain.squeezes().len() == 0,
    {
        FsChainSponge::new()
    }
}

} // verus!
