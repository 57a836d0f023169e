//! How a trace hangs together: what the squeezed bytes have to do with the rows
//! that the squeezes name, and what each row has to do with the rows before it.
use vstd::prelude::*;

use crate::blake3::{
    block_words, chaining, compressed, iv_words, node_of, word_bytes, xof, Compression,
};
use crate::fs_chain::history::{absorbed, sponge_after, Call};
use crate::fs_chain::shape::{chain_entries, chain_squeeze_entries, flush_entries, Entry};
use crate::fs_chain::{
    chain_cv, chain_node, chain_squeeze, chain_squeeze_is, lemma_chain_node_stable, squeeze_is,
    CvSource,
};

verus! {

/// Byte `i` of a squeeze of the tree chain is byte `i % 64` of the output of the
/// `i / 64`-th row that the squeeze names: the bytes are the named rows' outputs
/// one after the other, cut to the requested length. The named rows are one
/// compression at the counters 0, 1, 2 and so on.
pub proof fn tree_squeezes_read_their_rows(
    rows: Seq<Compression>,
    ids: Seq<usize>,
    stream: Seq<u8>,
    n: int,
)
    requires
        0 <= n,
        squeeze_is(rows, ids, stream, n),
    ensures
        xof(stream, n).len() == n,
        n <= 64 * ids.len(),
        n > 0 ==> 64 * (ids.len() - 1) < n,
        forall|i: int|
            #![trigger xof(stream, n)[i]]
            0 <= i < n ==> xof(stream, n)[i] == word_bytes(
                compressed(node_of(rows[ids[i / 64] as int])),
            )[i % 64],
        forall|j: int|
            0 <= j < ids.len() && j <= u64::MAX ==> {
                let row = rows[(#[trigger] ids[j]) as int];
                &&& row.2 == j
                &&& row.0@ == rows[ids[0] as int].0@
                &&& row.1@ == rows[ids[0] as int].1@
                &&& row.3 == rows[ids[0] as int].3
                &&& row.4 == rows[ids[0] as int].4
                &&& row.4 >= 8
            },
{
    assert forall|i: int| #![trigger xof(stream, n)[i]] 0 <= i < n implies xof(stream, n)[i]
        == word_bytes(compressed(node_of(rows[ids[i / 64] as int])))[i % 64] by {
        assert(0 <= i / 64 < ids.len());
        assert(ids[i / 64] < rows.len());
    }
    assert(ids[0] < rows.len());
}

/// Byte `i` of a squeeze of the sequential chain is byte `i % 64` of the output
/// of the `i / 64`-th row that the squeeze names: the bytes are the named rows'
/// outputs one after the other, cut to the requested length. The named rows are
/// one chaining value over a zero message at the counters 0, 1, 2 and so on,
/// each with the requested length as its block length.
pub proof fn chain_squeezes_read_their_rows(
    rows: Seq<Compression>,
    ids: Seq<usize>,
    stream: Seq<u8>,
    n: int,
)
    requires
        0 <= n,
        chain_squeeze_is(rows, ids, stream, n),
    ensures
        chain_squeeze(stream, n).len() == n,
        n <= 64 * ids.len(),
        64 * (ids.len() - 1) < n,
        forall|i: int|
            #![trigger chain_squeeze(stream, n)[i]]
            0 <= i < n ==> chain_squeeze(stream, n)[i] == word_bytes(
                compressed(node_of(rows[ids[i / 64] as int])),
            )[i % 64],
        forall|j: int|
            0 <= j < ids.len() && n <= u32::MAX ==> {
                let row = rows[(#[trigger] ids[j]) as int];
                &&& row.2 == j
                &&& row.3 == n
                &&& row.4 == 128
                &&& row.0@ == rows[ids[0] as int].0@
                &&& forall|k: int| 0 <= k < 16 ==> #[trigger] row.1@[k] == 0
            },
{
    assert forall|i: int|
        #![trigger chain_squeeze(stream, n)[i]]
        0 <= i < n implies chain_squeeze(stream, n)[i] == word_bytes(
        compressed(node_of(rows[ids[i / 64] as int])),
    )[i % 64] by {
        assert(0 <= i / 64 < ids.len());
        assert(ids[i / 64] < rows.len());
    }
    assert forall|j: int| 0 <= j < ids.len() && n <= u32::MAX implies ({
        let row = rows[(#[trigger] ids[j]) as int];
        &&& row.2 == j
        &&& row.3 == n
        &&& row.4 == 128
        &&& row.0@ == rows[ids[0] as int].0@
        &&& forall|k: int| 0 <= k < 16 ==> #[trigger] row.1@[k] == 0
    }) by {
        let row = rows[ids[j] as int];
        assert(node_of(row).block == row.1@);
        assert(node_of(rows[ids[0] as int]).cv == node_of(row).cv);
    }
}

/// How many bytes a history had absorbed at each of its squeezes.
pub open spec fn squeezed_at(calls: Seq<Call>) -> Seq<nat>
    decreases calls.len(),
{
    if calls.len() == 0 {
        Seq::empty()
    } else {
        let rest = calls.drop_last();
        match calls.last() {
            Call::Absorb(_) => squeezed_at(rest),
            Call::Finalize(_) => squeezed_at(rest).push(absorbed(rest).len()),
        }
    }
}

/// Row `i` starts from the initial value or from the output of an earlier row
/// that absorbs; where it absorbs itself, it holds the block of the stream at
/// its offset, counts the blocks before it, and starts from the row of the
/// block just before.
pub open spec fn chain_linked(entries: Seq<Entry>, i: int, stream: Seq<u8>) -> bool {
    let e = entries[i];
    &&& match e.link.cv {
        CvSource::Iv => e.node.cv == iv_words(),
        CvSource::Row(l) => l < i && entries[l as int].offset is Some && e.node.cv == chaining(
            entries[l as int].node,
        ),
    }
    &&& match e.offset {
        Some(o) => {
            &&& 0 < e.node.blen <= 64
            &&& o + e.node.blen <= stream.len()
            &&& e.node.block == block_words(stream.subrange(o as int, o + e.node.blen))
            &&& e.node.flags == 64
            &&& o == 64 * e.node.counter
            &&& o == 0 <==> e.link.cv == CvSource::Iv
            &&& e.link.cv matches CvSource::Row(l) ==> entries[l as int].offset == Some(
                (o - 64) as usize,
            ) && entries[l as int].node.blen == 64
        },
        None => {
            &&& e.node.block == Seq::new(16, |k: int| 0u32)
            &&& e.node.flags == 128
        },
    }
}

/// Output row `j` of a squeeze of `n` bytes after `len` absorbed ones counts the
/// output rows before it, carries the requested length, and starts from the row
/// whose block ends where the absorbed bytes end.
pub open spec fn chain_reads(entries: Seq<Entry>, row: int, j: int, n: int, len: nat) -> bool {
    let e = entries[row];
    &&& 0 <= row < entries.len()
    &&& e.offset is None
    &&& e.node.counter == j as u64
    &&& e.node.blen == n as u32
    &&& match e.link.cv {
        CvSource::Iv => len == 0,
        CvSource::Row(l) => l < row && match entries[l as int].offset {
            Some(o) => o + entries[l as int].node.blen == len,
            None => false,
        },
    }
}

/// The live chaining value is the output of the last whole block's row.
spec fn chain_live(entries: Seq<Entry>, cv_row: Option<usize>, stream: Seq<u8>) -> bool {
    let k = stream.len() as int / 64;
    match cv_row {
        None => k == 0,
        Some(r) => {
            &&& k > 0
            &&& r < entries.len()
            &&& entries[r as int].offset == Some((64 * (k - 1)) as usize)
            &&& entries[r as int].node == chain_node(stream, k - 1)
        },
    }
}

proof fn lemma_linked_grows(
    entries: Seq<Entry>,
    more: Seq<Entry>,
    i: int,
    s: Seq<u8>,
    t: Seq<u8>,
)
    requires
        chain_linked(entries, i, s),
        0 <= i < entries.len(),
        s.len() <= t.len(),
        t.take(s.len() as int) == s,
    ensures
        chain_linked(entries + more, i, t),
{
    let all = entries + more;
    assert(all[i] == entries[i]);
    if let CvSource::Row(l) = entries[i].link.cv {
        assert(all[l as int] == entries[l as int]);
    }
    if let Some(o) = entries[i].offset {
        let n = entries[i].node.blen;
        assert(t.subrange(o as int, o + n) =~= s.subrange(o as int, o + n)) by {
            assert forall|k: int| 0 <= k < s.len() implies #[trigger] s[k] == t[k] by {
                assert(t.take(s.len() as int)[k] == t[k]);
            }
        }
    }
}

/// The entry of block `k` after the row of block `k - 1`.
proof fn lemma_block_linked(
    entries: Seq<Entry>,
    i: int,
    cv_row: Option<usize>,
    stream: Seq<u8>,
    k: int,
)
    requires
        0 <= i < entries.len(),
        0 <= k,
        64 * k < stream.len() <= usize::MAX,
        entries[i].node == chain_node(stream, k),
        entries[i].offset == Some((64 * k) as usize),
        entries[i].link.cv == (match cv_row {
            None => CvSource::Iv,
            Some(r) => CvSource::Row(r),
        }),
        match cv_row {
            None => k == 0,
            Some(r) => k > 0 && r < i && entries[r as int].offset == Some(
                (64 * (k - 1)) as usize,
            ) && entries[r as int].node == chain_node(stream, k - 1),
        },
    ensures
        chain_linked(entries, i, stream),
{
    assert(chain_node(stream, k).cv == chain_cv(stream, k));
    if k > 0 {
        assert(chain_cv(stream, k) == chaining(chain_node(stream, k - 1)));
    }
}

/// Whatever was called, the trace is one chain: every absorbing row holds the
/// block of the absorbed bytes at its offset and starts from the row of the
/// block before, and every output row of a squeeze starts from the row whose
/// block ends where the bytes absorbed by then end.
pub proof fn sponge_traces_hang_together(calls: Seq<Call>)
    requires
        absorbed(calls).len() <= usize::MAX,
        sponge_after(calls).entries.len() <= usize::MAX,
    ensures
        ({
            let model = sponge_after(calls);
            &&& model.stream == absorbed(calls)
            &&& forall|i: int|
                0 <= i < model.entries.len() ==> #[trigger] chain_linked(
                    model.entries,
                    i,
                    absorbed(calls),
                )
            &&& model.squeezes.len() == squeezed_at(calls).len()
            &&& model.requested.len() == squeezed_at(calls).len()
            &&& forall|q: int|
                #![trigger model.squeezes[q]]
                0 <= q < model.squeezes.len() ==> model.squeezes[q].len() == (model.requested[q]
                    + 63) / 64
            &&& forall|q: int, j: int|
                0 <= q < model.squeezes.len() && 0 <= j < model.squeezes[q].len() ==> chain_reads(
                    model.entries,
                    (#[trigger] model.squeezes[q][j]) as int,
                    j,
                    model.requested[q],
                    squeezed_at(calls)[q],
                )
        }),
{
    lemma_hangs_together(calls);
}

proof fn lemma_hangs_together(calls: Seq<Call>)
    requires
        absorbed(calls).len() <= usize::MAX,
        sponge_after(calls).entries.len() <= usize::MAX,
    ensures
        ({
            let model = sponge_after(calls);
            &&& model.stream == absorbed(calls)
            &&& chain_live(model.entries, model.cv_row, model.stream)
            &&& forall|i: int|
                0 <= i < model.entries.len() ==> #[trigger] chain_linked(
                    model.entries,
                    i,
                    absorbed(calls),
                )
            &&& model.squeezes.len() == squeezed_at(calls).len()
            &&& model.requested.len() == squeezed_at(calls).len()
            &&& forall|q: int|
                #![trigger model.squeezes[q]]
                0 <= q < model.squeezes.len() ==> model.squeezes[q].len() == (model.requested[q]
                    + 63) / 64
            &&& forall|q: int, j: int|
                0 <= q < model.squeezes.len() && 0 <= j < model.squeezes[q].len() ==> chain_reads(
                    model.entries,
                    (#[trigger] model.squeezes[q][j]) as int,
                    j,
                    model.requested[q],
                    squeezed_at(calls)[q],
                )
        }),
    decreases calls.len(),
{
    if calls.len() > 0 {
        let rest = calls.drop_last();
        let before = sponge_after(rest);
        let model = sponge_after(calls);
        let s = absorbed(rest);
        let t = absorbed(calls);
        assert(s.len() <= t.len());
        assert(t.take(s.len() as int) =~= s);
        assert(before.entries.len() <= model.entries.len());
        lemma_hangs_together(rest);
        let base = before.entries.len() as int;
        let more = match calls.last() {
            Call::Absorb(_) => chain_entries(
                before.cv_row,
                base,
                t,
                s.len() as int / 64,
                t.len() as int / 64,
            ),
            Call::Finalize(n) => chain_squeeze_entries(before.cv_row, base, s, n as int),
        };
        assert(model.entries == before.entries + more);
        lemma_new_rows_linked(calls, more);
        assert forall|i: int| 0 <= i < model.entries.len() implies #[trigger] chain_linked(
            model.entries,
            i,
            t,
        ) by {
            if i < base {
                assert(chain_linked(before.entries, i, s));
                lemma_linked_grows(before.entries, more, i, s, t);
            }
        }
        assert forall|q: int, j: int|
            0 <= q < model.squeezes.len() && 0 <= j < model.squeezes[q].len() implies chain_reads(
            model.entries,
            (#[trigger] model.squeezes[q][j]) as int,
            j,
            model.requested[q],
            squeezed_at(calls)[q],
        ) by {
            if q < before.squeezes.len() {
                let row = before.squeezes[q][j] as int;
                assert(chain_reads(
                    before.entries,
                    row,
                    j,
                    before.requested[q],
                    squeezed_at(rest)[q],
                ));
                assert(model.entries[row] == before.entries[row]);
                if let CvSource::Row(l) = before.entries[row].link.cv {
                    assert(model.entries[l as int] == before.entries[l as int]);
                }
            }
        }
    }
}

/// What one more call adds to a trace that hangs together.
proof fn lemma_new_rows_linked(calls: Seq<Call>, more: Seq<Entry>)
    requires
        calls.len() > 0,
        absorbed(calls).len() <= usize::MAX,
        sponge_after(calls).entries.len() <= usize::MAX,
        sponge_after(calls).entries == sponge_after(calls.drop_last()).entries + more,
        sponge_after(calls.drop_last()).stream == absorbed(calls.drop_last()),
        chain_live(
            sponge_after(calls.drop_last()).entries,
            sponge_after(calls.drop_last()).cv_row,
            absorbed(calls.drop_last()),
        ),
        more == (match calls.last() {
            Call::Absorb(_) => chain_entries(
                sponge_after(calls.drop_last()).cv_row,
                sponge_after(calls.drop_last()).entries.len() as int,
                absorbed(calls),
                absorbed(calls.drop_last()).len() as int / 64,
                absorbed(calls).len() as int / 64,
            ),
            Call::Finalize(n) => chain_squeeze_entries(
                sponge_after(calls.drop_last()).cv_row,
                sponge_after(calls.drop_last()).entries.len() as int,
                absorbed(calls.drop_last()),
                n as int,
            ),
        }),
    ensures
        ({
            let before = sponge_after(calls.drop_last());
            let model = sponge_after(calls);
            &&& chain_live(model.entries, model.cv_row, absorbed(calls))
            &&& forall|i: int|
                before.entries.len() <= i < model.entries.len() ==> #[trigger] chain_linked(
                    model.entries,
                    i,
                    absorbed(calls),
                )
            &&& calls.last() matches Call::Finalize(n) ==> forall|j: int|
                0 <= j < model.squeezes.last().len() ==> chain_reads(
                    model.entries,
                    (#[trigger] model.squeezes.last()[j]) as int,
                    j,
                    n as int,
                    absorbed(calls).len(),
                )
        }),
{
    let rest = calls.drop_last();
    let before = sponge_after(rest);
    let model = sponge_after(calls);
    let s = absorbed(rest);
    let t = absorbed(calls);
    let base = before.entries.len() as int;
    let (from, to) = (s.len() as int / 64, t.len() as int / 64);
    assert(s.len() <= t.len());
    assert(t.subrange(0, s.len() as int) =~= s);
    if from > 0 {
        lemma_chain_node_stable(s, t, from - 1);
        let r = before.cv_row->0 as int;
        assert(model.entries[r] == before.entries[r]);
        assert(model.entries[r].node == chain_node(t, from - 1));
    }
    match calls.last() {
        Call::Absorb(_) => {
            assert forall|i: int| base <= i < model.entries.len() implies #[trigger] chain_linked(
                model.entries,
                i,
                t,
            ) by {
                let j = i - base;
                assert(model.entries[i] == more[j]);
                if j > 0 {
                    assert(model.entries[i - 1] == more[j - 1]);
                    lemma_block_linked(model.entries, i, Some((i - 1) as usize), t, from + j);
                } else {
                    lemma_block_linked(model.entries, i, before.cv_row, t, from);
                }
            }
            if to > from {
                assert(model.entries[base + (to - from) - 1] == more[to - from - 1]);
            }
        },
        Call::Finalize(n) => {
            let flushed = flush_entries(before.cv_row, s);
            assert(s =~= t);
            if s.len() % 64 != 0 {
                assert(model.entries[base] == more[0]);
                assert(more[0] == flushed[0]);
                lemma_block_linked(model.entries, base, before.cv_row, s, from);
            }
            assert forall|i: int| base <= i < model.entries.len() implies #[trigger] chain_linked(
                model.entries,
                i,
                t,
            ) by {
                let j = i - base;
                assert(model.entries[i] == more[j]);
                if j >= flushed.len() && s.len() % 64 == 0 && from > 0 {
                    assert(chain_cv(s, from) == chaining(chain_node(s, from - 1)));
                }
            }
            assert forall|j: int| 0 <= j < model.squeezes.last().len() implies chain_reads(
                model.entries,
                (#[trigger] model.squeezes.last()[j]) as int,
                j,
                n as int,
                t.len(),
            ) by {
                let row = base + flushed.len() + j;
                assert(model.squeezes.last()[j] == row);
                assert(model.entries[row] == more[flushed.len() + j]);
            }
        },
    }
}

} // verus!
