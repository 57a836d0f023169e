//! Witnesses of Merkle paths.
//!
//! The base encoder's block of each level is an input: level `l` hashes the
//! children that `children` gives for the digest entering it, and the digest
//! it passes on is read from its block.
use vstd::arithmetic::power2::{
    lemma2_to64, lemma_pow2_adds, lemma_pow2_pos, lemma_pow2_strictly_increases, lemma_pow2_unfold,
    pow2,
};
use vstd::prelude::*;

use crate::blake3::{
    blake3_compress, chaining, compressed, first_half, iv, iv_words, parent_block, parent_node,
    Node,
};
use crate::field::{coefficient, F128};
use crate::hash_to_point_slots::relation::{
    bits_value, lemma_bits_of_number, lemma_bits_value_congr, lemma_bits_value_range,
    lemma_shift_bit, lemma_shift_bit64, nat_bit,
};
use crate::hash_to_point_slots::setup::power_of_two;
use crate::hash_to_point_sponge::lemma_value_bits;
use crate::keccak::lane_bit;
use crate::merkle_r1cs::{
    lemma_lin_one, lemma_lin_shift, lemma_lin_two, HashSpec, MerkleTreeLayout, BLAKE3_FLAG_PARENT,
    CONST_POS, NODE_BLOCK_LEN, NODE_COUNTER, SLOT_BITS,
};
use crate::packed_bits::{pack_witness, unpacked};
use crate::r1cs::{columns_below, lin_eval};

verus! {

/// One path: the leaf digest, its index, and the siblings from the leaf up.
#[derive(Clone, Debug)]
pub struct PathInput {
    pub leaf: [u32; 8],
    pub index: u64,
    pub siblings: Vec<[u32; 8]>,
}

/// The bits of a digest, least significant first in each word.
pub open spec fn digest_bits(d: Seq<u32>) -> Seq<bool> {
    Seq::new(256, |j: int| nat_bit(d[j / 32] as int, j % 32))
}

/// Bit `j` of a digest.
pub fn digest_bit(d: &[u32; 8], j: usize) -> (set: bool)
    requires
        j < 256,
    ensures
        set == digest_bits(d@)[j as int],
{
    proof {
        lemma_shift_bit(d@[j as int / 32], (j % 32) as u32);
    }
    (d[j / 32] >> ((j % 32) as u32)) & 1 == 1
}

/// Write a digest's bits.
pub fn write_digest(z: &mut Vec<bool>, base: usize, d: &[u32; 8])
    requires
        base + 256 <= old(z)@.len(),
    ensures
        final(z)@ == Seq::new(
            old(z)@.len(),
            |i: int|
                if base <= i < base + 256 {
                    digest_bits(d@)[i - base]
                } else {
                    old(z)@[i]
                },
        ),
{
    let ghost start = z@;
    let total: usize = z.len();
    let mut j: usize = 0;
    while j < SLOT_BITS
        invariant
            total == start.len(),
            base + 256 <= total,
            j <= SLOT_BITS,
            z@.len() == start.len(),
            forall|i: int|
                0 <= i < start.len() ==> #[trigger] z@[i] == (if base <= i < base + j {
                    digest_bits(d@)[i - base]
                } else {
                    start[i]
                }),
        decreases SLOT_BITS - j,
    {
        z[base + j] = digest_bit(d, j);
        j = j + 1;
    }
    assert(z@ =~= Seq::new(
        start.len(),
        |i: int|
            if base <= i < base + 256 {
                digest_bits(d@)[i - base]
            } else {
                start[i]
            },
    ));
}

/// The word whose bits start at `base`.
fn read_word(z: &[bool], base: usize) -> (word: u32)
    requires
        base + 32 <= z@.len(),
    ensures
        word == bits_value(|t: int| z@[base + t], 32),
{
    let ghost f = |t: int| z@[base + t];
    let mut word: u64 = 0;
    let mut weight: u64 = 1;
    let mut t: usize = 0;
    let total: usize = z.len();
    proof {
        lemma2_to64();
    }
    while t < 32
        invariant
            total == z@.len(),
            base + 32 <= total,
            f == (|t: int| z@[base + t]),
            t <= 32,
            weight == pow2(t as nat),
            weight <= 0x1_0000_0000,
            word == bits_value(f, t as int),
            word < weight,
        decreases 32 - t,
    {
        proof {
            lemma2_to64();
            lemma_pow2_unfold((t + 1) as nat);
            lemma_bits_value_range(f, t + 1);
            if t < 31 {
                lemma_pow2_strictly_increases((t + 1) as nat, 32);
            }
        }
        if z[base + t] {
            word = word + weight;
        }
        weight = 2 * weight;
        t = t + 1;
    }
    word as u32
}

/// The digest whose bits start at `base`.
pub fn read_digest(z: &[bool], base: usize) -> (d: [u32; 8])
    requires
        base + 256 <= z@.len(),
    ensures
        digest_bits(d@) == z@.subrange(base as int, base + 256),
{
    let mut d: [u32; 8] = [0; 8];
    let total: usize = z.len();
    let mut w: usize = 0;
    while w < 8
        invariant
            total == z@.len(),
            base + 256 <= total,
            w <= 8,
            forall|k: int|
                0 <= k < w ==> #[trigger] d@[k] == bits_value(|t: int| z@[base + 32 * k + t], 32),
        decreases 8 - w,
    {
        let ghost before = d@;
        let word = read_word(z, base + 32 * w);
        proof {
            let f = |t: int| z@[(base + 32 * w) as usize + t];
            let g = |t: int| z@[base + 32 * w + t];
            crate::hash_to_point_slots::relation::lemma_bits_value_congr(f, g, 32);
        }
        d[w] = word;
        w = w + 1;
    }
    proof {
        assert forall|j: int| 0 <= j < 256 implies digest_bits(d@)[j] == z@.subrange(
            base as int,
            base + 256,
        )[j] by {
            let k = j / 32;
            assert(d@[k] == bits_value(|t: int| z@[base + 32 * k + t], 32));
            lemma_value_bits(|t: int| z@[base + 32 * k + t], 32, j % 32);
            assert(32 * k + j % 32 == j);
        }
        assert(digest_bits(d@) =~= z@.subrange(base as int, base + 256));
    }
    d
}

/// The bits of a word buffer.
pub open spec fn buffer_bits(words: Seq<u64>) -> Seq<bool> {
    Seq::new(64 * words.len(), |i: int| lane_bit(words[i / 64], i % 64))
}

/// Bit `i` of a word buffer.
pub fn word_bit(words: &[u64], i: usize) -> (set: bool)
    requires
        i < 64 * words@.len(),
    ensures
        set == buffer_bits(words@)[i as int],
{
    (words[i / 64] >> ((i % 64) as u64)) & 1 == 1
}

/// The digest whose bits start at `base` of a word buffer.
pub fn read_digest_words(words: &[u64], base: usize) -> (d: [u32; 8])
    requires
        base + 256 <= 64 * words@.len(),
        64 * words@.len() <= usize::MAX,
    ensures
        digest_bits(d@) == buffer_bits(words@).subrange(base as int, base + 256),
{
    let mut bits: Vec<bool> = Vec::new();
    while bits.len() < 256
        invariant
            base + 256 <= 64 * words@.len(),
            64 * words@.len() <= usize::MAX,
            bits@.len() <= 256,
            forall|j: int|
                0 <= j < bits@.len() ==> #[trigger] bits@[j] == buffer_bits(words@)[base + j],
        decreases 256 - bits@.len(),
    {
        let i: usize = base + bits.len();
        bits.push(word_bit(words, i));
    }
    let d = read_digest(bits.as_slice(), 0);
    assert(bits@.subrange(0, 256) =~= buffer_bits(words@).subrange(base as int, base + 256));
    d
}

// ---------------------------------------------------------------------------
// The witness.
// ---------------------------------------------------------------------------

/// Bit `l` of an index.
pub open spec fn index_bit_of(index: u64, l: int) -> bool {
    nat_bit(index as int, l)
}

fn index_at(index: u64, l: usize) -> (set: bool)
    requires
        l < 64,
    ensures
        set == index_bit_of(index, l as int),
{
    proof {
        lemma_shift_bit64(index, l as u64);
    }
    (index >> (l as u64)) & 1 == 1
}

/// The children of a level: a set index bit puts the running digest on the
/// left.
pub fn children(input: &PathInput, level: usize, prev: &[u32; 8]) -> (pair: ([u32; 8], [u32; 8]))
    requires
        level < input.siblings@.len(),
        level < 64,
    ensures
        pair.0@ == (if index_bit_of(input.index, level as int) {
            prev@
        } else {
            input.siblings@[level as int]@
        }),
        pair.1@ == (if index_bit_of(input.index, level as int) {
            input.siblings@[level as int]@
        } else {
            prev@
        }),
{
    let sibling = input.siblings[level];
    if index_at(input.index, level) {
        (*prev, sibling)
    } else {
        (sibling, *prev)
    }
}

impl MerkleTreeLayout {
    /// The input fits the layout.
    pub open spec fn accepts(self, input: PathInput) -> bool {
        &&& input.siblings@.len() == self.depth
        &&& self.depth <= 64
        &&& self.depth == 64 || input.index < pow2(self.depth as nat)
    }

    /// Bit `j` of the digest entering level `l`.
    pub open spec fn entering(
        self,
        input: PathInput,
        blocks: Seq<Seq<bool>>,
        l: int,
        j: int,
    ) -> bool {
        if l == 0 {
            digest_bits(input.leaf@)[j]
        } else {
            blocks[l - 1][self.spec.out_cv_base + j]
        }
    }

    /// Column `r` of the witness.
    pub open spec fn witness_bit(self, input: PathInput, blocks: Seq<Seq<bool>>, r: int) -> bool {
        if r == 0 {
            true
        } else if r < 257 {
            digest_bits(input.leaf@)[r - 1]
        } else if r < self.levels_base {
            index_bit_of(input.index, r - 257)
        } else if r >= self.useful_bits {
            false
        } else {
            let l = (r - self.levels_base) / self.level_stride as int;
            let w = (r - self.levels_base) % self.level_stride as int;
            if w < 256 {
                digest_bits(input.siblings@[l]@)[w]
            } else if w < 512 {
                index_bit_of(input.index, l) && (self.entering(input, blocks, l, w - 256)
                    != digest_bits(input.siblings@[l]@)[w - 256])
            } else {
                blocks[l][w - 512]
            }
        }
    }

    /// The witness of a path over its blocks.
    pub open spec fn witness_of(self, input: PathInput, blocks: Seq<Seq<bool>>) -> Seq<bool> {
        Seq::new(self.width() as nat, |r: int| self.witness_bit(input, blocks, r))
    }

    /// Build the witness of one path.
    pub fn build_witness(&self, input: &PathInput, blocks: &[Vec<bool>]) -> (z: Vec<bool>)
        requires
            self.well_formed(),
            self.accepts(*input),
            blocks@.len() == self.depth,
            forall|l: int|
                0 <= l < self.depth ==> (#[trigger] blocks@[l])@.len() >= self.spec.useful_bits,
        ensures
            z@ == self.witness_of(*input, block_bits(blocks@)),
    {
        let k: usize = self.k();
        let ghost bits = block_bits(blocks@);
        let mut z: Vec<bool> = Vec::new();
        let mut r: usize = 0;
        while r < k
            invariant
                self.well_formed(),
                self.accepts(*input),
                blocks@.len() == self.depth,
                forall|l: int|
                    0 <= l < self.depth ==> (#[trigger] blocks@[l])@.len()
                        >= self.spec.useful_bits,
                bits == block_bits(blocks@),
                k == self.width(),
                r <= k,
                z@.len() == r,
                forall|i: int| 0 <= i < r ==> #[trigger] z@[i] == self.witness_bit(*input, bits, i),
            decreases k - r,
        {
            let bit: bool = if r == CONST_POS {
                true
            } else if r < 257 {
                digest_bit(&input.leaf, r - 1)
            } else if r < self.levels_base {
                index_at(input.index, r - 257)
            } else if r >= self.useful_bits {
                false
            } else {
                proof {
                    self.lemma_place(r as int);
                }
                let l: usize = (r - self.levels_base) / self.level_stride;
                let w: usize = (r - self.levels_base) % self.level_stride;
                if w < SLOT_BITS {
                    digest_bit(&input.siblings[l], w)
                } else if w < 2 * SLOT_BITS {
                    let j: usize = w - SLOT_BITS;
                    let prev: bool = if l == 0 {
                        digest_bit(&input.leaf, j)
                    } else {
                        assert(blocks@[l - 1]@.len() >= self.spec.useful_bits);
                        blocks[l - 1][self.spec.out_cv_base + j]
                    };
                    index_at(input.index, l) && (prev != digest_bit(&input.siblings[l], j))
                } else {
                    assert(blocks@[l as int]@.len() >= self.spec.useful_bits);
                    blocks[l][w - 2 * SLOT_BITS]
                }
            };
            z.push(bit);
            r = r + 1;
        }
        assert(z@ =~= self.witness_of(*input, bits));
        z
    }

    /// The root of a witness.
    pub fn read_root(&self, z: &[bool]) -> (root: [u32; 8])
        requires
            self.well_formed(),
            z@.len() == self.width(),
        ensures
            digest_bits(root@) == Seq::new(
                256,
                |j: int| z@[self.hash_at(self.depth - 1, self.spec.out_cv_base + j)],
            ),
    {
        let base = self.root_bit(0);
        let _last = self.root_bit(255);
        let root = read_digest(z, base);
        assert(z@.subrange(base as int, base + 256) =~= Seq::new(
            256,
            |j: int| z@[self.hash_at(self.depth - 1, self.spec.out_cv_base + j)],
        ));
        root
    }

    /// The blocks are the base encoder's for the path: they satisfy the base
    /// relation, and their messages are the children of their levels.
    pub open spec fn honest_blocks(self, input: PathInput, blocks: Seq<Seq<bool>>) -> bool {
        &&& blocks.len() == self.depth
        &&& forall|l: int|
            0 <= l < self.depth ==> ({
                let block = (#[trigger] blocks[l]).take(self.spec.useful_bits as int);
                let prev = Seq::new(256, |j: int| self.entering(input, blocks, l, j));
                let sib = digest_bits(input.siblings@[l]@);
                let b = index_bit_of(input.index, l);
                &&& blocks[l].len() >= self.spec.useful_bits
                &&& self.spec.block_holds(block)
                &&& self.left(block) == (if b {
                    prev
                } else {
                    sib
                })
                &&& self.right(block) == (if b {
                    sib
                } else {
                    prev
                })
            })
    }

    proof fn lemma_witness_level(self, input: PathInput, blocks: Seq<Seq<bool>>, l: int)
        requires
            self.well_formed(),
            self.accepts(input),
            blocks.len() == self.depth,
            forall|l: int|
                0 <= l < self.depth ==> (#[trigger] blocks[l]).len() >= self.spec.useful_bits,
            0 <= l < self.depth,
        ensures
            ({
                let z = self.witness_of(input, blocks);
                &&& z.len() == self.width()
                &&& self.block(z, l) == blocks[l].take(self.spec.useful_bits as int)
                &&& self.prev(z, l) == Seq::new(
                    256,
                    |j: int| self.entering(input, blocks, l, j),
                )
                &&& self.sibling(z, l) == digest_bits(input.siblings@[l]@)
                &&& z[257 + l] == index_bit_of(input.index, l)
            }),
    {
        let z = self.witness_of(input, blocks);
        self.lemma_level(l, 0);
        self.lemma_level(l, 512);
        self.lemma_level(l, self.level_stride - 1);
        assert forall|c: int| 0 <= c < self.spec.useful_bits implies self.block(z, l)[c]
            == blocks[l].take(self.spec.useful_bits as int)[c] by {
            self.lemma_level(l, 512 + c);
        }
        assert(self.block(z, l) =~= blocks[l].take(self.spec.useful_bits as int));
        let entering = Seq::new(256, |j: int| self.entering(input, blocks, l, j));
        assert forall|j: int| 0 <= j < 256 implies self.prev(z, l)[j] == entering[j] by {
            if l > 0 {
                self.lemma_level(l - 1, 512 + self.spec.out_cv_base + j);
                assert(blocks[l - 1].len() >= self.spec.useful_bits);
            }
        }
        assert(self.prev(z, l) =~= entering);
        assert forall|j: int| 0 <= j < 256 implies self.sibling(z, l)[j] == digest_bits(
            input.siblings@[l]@,
        )[j] by {
            self.lemma_level(l, j);
        }
        assert(self.sibling(z, l) =~= digest_bits(input.siblings@[l]@));
    }

    /// Completeness: the witness of a path over honest blocks satisfies the
    /// path relation.
    pub proof fn honest_path_holds(self, input: PathInput, blocks: Seq<Seq<bool>>)
        requires
            self.well_formed(),
            self.accepts(input),
            self.honest_blocks(input, blocks),
        ensures
            self.witness_of(input, blocks).len() == self.width(),
            self.witness_of(input, blocks)[0],
            self.path_holds(self.witness_of(input, blocks)),
    {
        let z = self.witness_of(input, blocks);
        lemma_pow2_pos(self.k_log as nat);
        assert forall|l: int| 0 <= l < self.depth implies (#[trigger] blocks[l]).len()
            >= self.spec.useful_bits by {}
        assert forall|l: int| 0 <= l < self.depth implies #[trigger] self.level_holds(z, l) by {
            self.lemma_witness_level(input, blocks, l);
            assert(blocks[l].len() >= self.spec.useful_bits);
            assert forall|j: int| 0 <= j < 256 implies z[#[trigger] self.t_at(l, j)] == (z[257 + l]
                && (self.prev(z, l)[j] != self.sibling(z, l)[j])) by {
                self.lemma_level(l, 256 + j);
            }
        }
    }
}

/// The contents of the blocks.
pub open spec fn block_bits(blocks: Seq<Vec<bool>>) -> Seq<Seq<bool>> {
    Seq::new(blocks.len(), |l: int| blocks[l]@)
}

// ---------------------------------------------------------------------------
// Row witnesses.
// ---------------------------------------------------------------------------

/// The base encoder's row witness of one block: the columns, and both sides
/// of their rows, as word buffers.
#[derive(Clone, Debug)]
pub struct BlockRows {
    pub z: Vec<u64>,
    pub a: Vec<u64>,
    pub b: Vec<u64>,
}

/// The column bits of the row witnesses.
pub open spec fn z_blocks(rows: Seq<BlockRows>) -> Seq<Seq<bool>> {
    Seq::new(rows.len(), |l: int| buffer_bits(rows[l].z@))
}

impl MerkleTreeLayout {
    /// The buffers cover the base block.
    pub open spec fn covers(self, rows: Seq<BlockRows>) -> bool {
        &&& rows.len() == self.depth
        &&& forall|l: int|
            0 <= l < self.depth ==> 64 * (#[trigger] rows[l]).z@.len() >= self.spec.useful_bits
                && 64 * rows[l].a@.len() >= self.spec.useful_bits && 64 * rows[l].b@.len()
                >= self.spec.useful_bits
    }

    /// The left side of column `r`'s rows.
    pub open spec fn left_row_bit(self, input: PathInput, rows: Seq<BlockRows>, r: int) -> bool {
        let l = (r - self.levels_base) / self.level_stride as int;
        let w = (r - self.levels_base) % self.level_stride as int;
        if self.levels_base <= r < self.useful_bits && 256 <= w < 512 {
            index_bit_of(input.index, l)
        } else if self.levels_base <= r < self.useful_bits && w >= 512 {
            buffer_bits(rows[l].a@)[w - 512]
        } else {
            self.witness_bit(input, z_blocks(rows), r)
        }
    }

    /// The right side of column `r`'s rows.
    pub open spec fn right_row_bit(self, input: PathInput, rows: Seq<BlockRows>, r: int) -> bool {
        let l = (r - self.levels_base) / self.level_stride as int;
        let w = (r - self.levels_base) % self.level_stride as int;
        if self.levels_base <= r < self.useful_bits && 256 <= w < 512 {
            self.entering(input, z_blocks(rows), l, w - 256) != digest_bits(
                input.siblings@[l]@,
            )[w - 256]
        } else if self.levels_base <= r < self.useful_bits && w >= 512 {
            buffer_bits(rows[l].b@)[w - 512]
        } else {
            r < self.useful_bits
        }
    }

    /// The row witness of one path: the columns, and both sides of every row,
    /// without applying a matrix.
    pub fn build_witness_zab(&self, input: &PathInput, rows: &[BlockRows]) -> (zab: [Vec<bool>; 3])
        requires
            self.well_formed(),
            self.accepts(*input),
            self.covers(rows@),
        ensures
            zab@[0]@ == self.witness_of(*input, z_blocks(rows@)),
            zab@[1]@ == Seq::new(
                self.width() as nat,
                |r: int| self.left_row_bit(*input, rows@, r),
            ),
            zab@[2]@ == Seq::new(
                self.width() as nat,
                |r: int| self.right_row_bit(*input, rows@, r),
            ),
    {
        let (z, a, b) = self.row_witness(input, rows);
        [z, a, b]
    }

    fn row_witness(&self, input: &PathInput, rows: &[BlockRows]) -> (zab: (
        Vec<bool>,
        Vec<bool>,
        Vec<bool>,
    ))
        requires
            self.well_formed(),
            self.accepts(*input),
            self.covers(rows@),
        ensures
            zab.0@ == self.witness_of(*input, z_blocks(rows@)),
            zab.1@ == Seq::new(
                self.width() as nat,
                |r: int| self.left_row_bit(*input, rows@, r),
            ),
            zab.2@ == Seq::new(
                self.width() as nat,
                |r: int| self.right_row_bit(*input, rows@, r),
            ),
    {
        let k: usize = self.k();
        let ghost bits = z_blocks(rows@);
        let mut z: Vec<bool> = Vec::new();
        let mut a: Vec<bool> = Vec::new();
        let mut b: Vec<bool> = Vec::new();
        let mut r: usize = 0;
        while r < k
            invariant
                self.well_formed(),
                self.accepts(*input),
                self.covers(rows@),
                bits == z_blocks(rows@),
                k == self.width(),
                r <= k,
                z@.len() == r,
                a@.len() == r,
                b@.len() == r,
                forall|i: int| 0 <= i < r ==> #[trigger] z@[i] == self.witness_bit(*input, bits, i),
                forall|i: int|
                    0 <= i < r ==> #[trigger] a@[i] == self.left_row_bit(*input, rows@, i),
                forall|i: int|
                    0 <= i < r ==> #[trigger] b@[i] == self.right_row_bit(*input, rows@, i),
            decreases k - r,
        {
            let (bz, ba, bb): (bool, bool, bool) = if r == CONST_POS {
                (true, true, true)
            } else if r < 257 {
                let v = digest_bit(&input.leaf, r - 1);
                (v, v, true)
            } else if r < self.levels_base {
                let v = index_at(input.index, r - 257);
                (v, v, true)
            } else if r >= self.useful_bits {
                (false, false, false)
            } else {
                proof {
                    self.lemma_place(r as int);
                }
                let l: usize = (r - self.levels_base) / self.level_stride;
                let w: usize = (r - self.levels_base) % self.level_stride;
                if w < SLOT_BITS {
                    let v = digest_bit(&input.siblings[l], w);
                    (v, v, true)
                } else if w < 2 * SLOT_BITS {
                    let j: usize = w - SLOT_BITS;
                    let prev: bool = if l == 0 {
                        digest_bit(&input.leaf, j)
                    } else {
                        assert(64 * rows@[l - 1].z@.len() >= self.spec.useful_bits);
                        word_bit(rows[l - 1].z.as_slice(), self.spec.out_cv_base + j)
                    };
                    let bit = index_at(input.index, l);
                    let differs = prev != digest_bit(&input.siblings[l], j);
                    (bit && differs, bit, differs)
                } else {
                    assert(64 * rows@[l as int].z@.len() >= self.spec.useful_bits);
                    let c: usize = w - 2 * SLOT_BITS;
                    (
                        word_bit(rows[l].z.as_slice(), c),
                        word_bit(rows[l].a.as_slice(), c),
                        word_bit(rows[l].b.as_slice(), c),
                    )
                }
            };
            z.push(bz);
            a.push(ba);
            b.push(bb);
            r = r + 1;
        }
        assert(z@ =~= self.witness_of(*input, bits));
        assert(a@ =~= Seq::new(
            self.width() as nat,
            |r: int| self.left_row_bit(*input, rows@, r),
        ));
        assert(b@ =~= Seq::new(
            self.width() as nat,
            |r: int| self.right_row_bit(*input, rows@, r),
        ));
        (z, a, b)
    }

    /// The base encoder's row witnesses are honest: the blocks are, the sides
    /// of a kept row are its values on the block, and a replaced row is that
    /// of a free column.
    pub open spec fn honest_rows(self, input: PathInput, rows: Seq<BlockRows>) -> bool {
        &&& self.covers(rows)
        &&& self.honest_blocks(input, z_blocks(rows))
        &&& forall|l: int, c: int|
            #![trigger buffer_bits(rows[l].a@)[c]]
            #![trigger buffer_bits(rows[l].b@)[c]]
            0 <= l < self.depth && 0 <= c < self.spec.useful_bits ==> ({
                let block = buffer_bits(rows[l].z@).take(self.spec.useful_bits as int);
                if self.spec.overridden(c) {
                    buffer_bits(rows[l].a@)[c] == block[c] && buffer_bits(rows[l].b@)[c]
                } else {
                    buffer_bits(rows[l].a@)[c] == lin_eval(self.spec.a.row(c), block)
                        && buffer_bits(rows[l].b@)[c] == lin_eval(self.spec.b.row(c), block)
                }
            })
    }

    /// The row witness is the matrices' action: over honest blocks, the two
    /// sides that are written directly are the rows' values on the witness.
    pub proof fn row_witness_is_the_product(self, input: PathInput, rows: Seq<BlockRows>, r: int)
        requires
            self.well_formed(),
            self.accepts(input),
            self.honest_rows(input, rows),
            0 <= r < self.width(),
        ensures
            ({
                let z = self.witness_of(input, z_blocks(rows));
                &&& self.left_row_bit(input, rows, r) == lin_eval(self.rows_at(r, true).0, z)
                &&& self.right_row_bit(input, rows, r) == lin_eval(self.rows_at(r, true).1, z)
            }),
    {
        let blocks = z_blocks(rows);
        let z = self.witness_of(input, blocks);
        self.honest_path_holds(input, blocks);
        assert forall|l: int| 0 <= l < self.depth implies (#[trigger] blocks[l]).len()
            >= self.spec.useful_bits by {}
        lemma_lin_one(0, z);
        assert(!lin_eval(Seq::<usize>::empty(), z));
        if r == 0 {
        } else if r < self.levels_base {
            lemma_lin_one(r as usize, z);
        } else if r < self.useful_bits {
            self.lemma_place(r);
            let l = (r - self.levels_base) / self.level_stride as int;
            let w = (r - self.levels_base) % self.level_stride as int;
            self.lemma_witness_level(input, blocks, l);
            assert(self.level_holds(z, l));
            let block = self.block(z, l);
            if w < 256 {
                lemma_lin_one(r as usize, z);
            } else if w < 512 {
                let j = w - 256;
                self.lemma_gadget(l, j);
                lemma_lin_one((257 + l) as usize, z);
                lemma_lin_two(self.prev_at(l, j) as usize, self.sibling_at(l, j) as usize, z);
                assert(self.prev(z, l)[j] == self.entering(input, blocks, l, j));
                assert(self.sibling(z, l)[j] == digest_bits(input.siblings@[l]@)[j]);
            } else {
                let c = w - 512;
                assert(buffer_bits(rows[l].a@)[c] == buffer_bits(rows[l].a@)[c]);
                self.lemma_level(l, 512);
                self.lemma_level(l, self.level_stride - 1);
                if exists|i: int|
                    0 <= i < self.spec.fixed_bits@.len() && (
                    #[trigger] self.spec.fixed_bits@[i]).0 == c {
                    let i = choose|i: int|
                        0 <= i < self.spec.fixed_bits@.len() && (
                        #[trigger] self.spec.fixed_bits@[i]).0 == c;
                    self.spec.lemma_pinned(i);
                    assert(block[self.spec.fixed_bits@[i].0 as int] == self.spec.fixed_bits@[i].1);
                } else if c == self.spec.z_const_pos {
                } else if self.spec.in_message(c) {
                    let j = c - self.spec.msg_base;
                    self.lemma_message_row(z, l, j);
                    self.lemma_children(z, l);
                    assert(z[self.t_at(l, j % 256)] == (z[257 + l] && (self.prev(z, l)[j % 256]
                        != self.sibling(z, l)[j % 256])));
                    if j < 256 {
                        self.lemma_gadget(l, j);
                        lemma_lin_two(
                            self.sibling_at(l, j) as usize,
                            self.t_at(l, j) as usize,
                            z,
                        );
                        assert(self.left(block)[j] == block[c]);
                    } else {
                        self.lemma_gadget(l, j - 256);
                        lemma_lin_two(
                            self.prev_at(l, j - 256) as usize,
                            self.t_at(l, j - 256) as usize,
                            z,
                        );
                        assert(self.right(block)[j - 256] == block[c]);
                    }
                } else {
                    let at = self.hash_at(l, 0);
                    let n = self.spec.useful_bits as int;
                    assert(columns_below(self.spec.a.row(c), n));
                    assert(columns_below(self.spec.b.row(c), n));
                    lemma_lin_shift(self.spec.a.row(c), z, at, n);
                    lemma_lin_shift(self.spec.b.row(c), z, at, n);
                }
            }
        }
    }
}

// ---------------------------------------------------------------------------
// A batch of paths.
// ---------------------------------------------------------------------------

/// Column `c` of row `i` of a batch: word `w` of row `i` is word
/// `w 2^nu + i`.
pub open spec fn batch_bit(words: Seq<F128>, nu: nat, i: int, c: int) -> bool {
    coefficient(words[(c / 128) * pow2(nu) + i], c % 128)
}

/// Pack per-row bits in batch-major order, with zero rows past the last.
fn pack_batch(bits: &Vec<Vec<bool>>, k: usize, nu: usize) -> (words: Vec<F128>)
    requires
        k % 128 == 0,
        pow2(nu as nat) * (k / 128) <= usize::MAX,
        bits@.len() <= pow2(nu as nat),
        pow2(nu as nat) <= usize::MAX,
        forall|i: int| 0 <= i < bits@.len() ==> (#[trigger] bits@[i])@.len() == k,
    ensures
        words@.len() == pow2(nu as nat) * (k / 128),
        forall|i: int, c: int|
            #![trigger batch_bit(words@, nu as nat, i, c)]
            0 <= i < pow2(nu as nat) && 0 <= c < k ==> batch_bit(words@, nu as nat, i, c) == (i
                < bits@.len() && bits@[i]@[c]),
{
    let n_total: usize = power_of_two(nu);
    let per_block: usize = k / 128;
    let mut packed: Vec<Vec<F128>> = Vec::new();
    let mut i: usize = 0;
    while i < bits.len()
        invariant
            k % 128 == 0,
            forall|i: int| 0 <= i < bits@.len() ==> (#[trigger] bits@[i])@.len() == k,
            i <= bits@.len(),
            packed@.len() == i,
            forall|j: int|
                0 <= j < i ==> 128 * (#[trigger] packed@[j])@.len() == k && unpacked(packed@[j]@)
                    == bits@[j]@,
        decreases bits@.len() - i,
    {
        assert(bits@[i as int]@.len() == k);
        let words = pack_witness(bits[i].as_slice());
        packed.push(words);
        i = i + 1;
    }
    let total: usize = n_total * per_block;
    let mut words: Vec<F128> = Vec::new();
    let mut at: usize = 0;
    proof {
        lemma_pow2_pos(nu as nat);
    }
    while at < total
        invariant
            k % 128 == 0,
            n_total == pow2(nu as nat),
            n_total > 0,
            per_block == k / 128,
            total == n_total * per_block,
            bits@.len() <= n_total,
            packed@.len() == bits@.len(),
            forall|j: int|
                0 <= j < bits@.len() ==> 128 * (#[trigger] packed@[j])@.len() == k && unpacked(
                    packed@[j]@,
                ) == bits@[j]@,
            at <= total,
            words@.len() == at,
            forall|p: int|
                0 <= p < at ==> #[trigger] words@[p] == (if (p % (n_total as int)) < bits@.len() {
                    packed@[p % n_total as int]@[p / n_total as int]
                } else {
                    crate::field::fzero()
                }),
        decreases total - at,
    {
        let i: usize = at % n_total;
        let w: usize = at / n_total;
        proof {
            lemma_word_in_range(at as int, n_total as int, per_block as int);
        }
        if i < bits.len() {
            assert(128 * packed@[i as int]@.len() == k);
            words.push(packed[i][w]);
        } else {
            words.push(F128::zero());
        }
        at = at + 1;
    }
    proof {
        assert forall|i: int, c: int|
            #![trigger batch_bit(words@, nu as nat, i, c)]
            0 <= i < pow2(nu as nat) && 0 <= c < k implies batch_bit(words@, nu as nat, i, c) == (i
            < bits@.len() && bits@[i]@[c]) by {
            let w = c / 128;
            let p = w * n_total + i;
            vstd::arithmetic::div_mod::lemma_fundamental_div_mod_converse(
                p,
                n_total as int,
                w,
                i,
            );
            assert(0 <= p < n_total * per_block) by (nonlinear_arith)
                requires
                    p == w * n_total + i,
                    0 <= i < n_total,
                    0 <= w < per_block,
            ;
            assert(words@[p] == (if (p % (n_total as int)) < bits@.len() {
                packed@[p % n_total as int]@[p / n_total as int]
            } else {
                crate::field::fzero()
            }));
            if i < bits@.len() {
                assert(unpacked(packed@[i]@)[c] == bits@[i]@[c]);
            } else {
                crate::packed_bits::lemma_zero_word(c % 128);
            }
        }
    }
    words
}

proof fn lemma_word_in_range(at: int, n: int, per_block: int)
    requires
        0 <= at < n * per_block,
        0 < n,
    ensures
        0 <= at / n < per_block,
        0 <= at % n < n,
{
    vstd::arithmetic::div_mod::lemma_fundamental_div_mod(at, n);
    vstd::arithmetic::div_mod::lemma_mod_bound(at, n);
    vstd::arithmetic::div_mod::lemma_div_pos_is_pos(at, n);
    let q = at / n;
    if q >= per_block {
        assert(n * q >= n * per_block) by (nonlinear_arith)
            requires
                q >= per_block,
                0 < n,
        ;
    }
}

/// Bit `r` of `stripe[g k + c]` is column `c` of row `8 g + r`.
pub open spec fn stripe_byte(bits: Seq<Vec<bool>>, g: int, c: int) -> int {
    bits_value(|r: int| 8 * g + r < bits.len() && bits[8 * g + r]@[c], 8)
}

fn pack_stripe(bits: &Vec<Vec<bool>>, k: usize, n_total: usize) -> (stripe: Vec<u8>)
    requires
        0 < k,
        (n_total / 8) * k <= usize::MAX,
        n_total % 8 == 0,
        bits@.len() <= n_total,
        forall|i: int| 0 <= i < bits@.len() ==> (#[trigger] bits@[i])@.len() == k,
    ensures
        stripe@.len() == (n_total / 8) * k,
        forall|g: int, c: int|
            #![trigger stripe@[g * k + c]]
            0 <= g < n_total / 8 && 0 <= c < k ==> stripe@[g * k + c] == stripe_byte(bits@, g, c),
{
    let total: usize = (n_total / 8) * k;
    let groups: usize = n_total / 8;
    let mut stripe: Vec<u8> = Vec::new();
    let mut at: usize = 0;
    assert(groups * k == k * groups) by (nonlinear_arith);
    while at < total
        invariant
            0 < k,
            groups == n_total / 8,
            total == k * groups,
            bits@.len() <= n_total,
            n_total % 8 == 0,
            forall|i: int| 0 <= i < bits@.len() ==> (#[trigger] bits@[i])@.len() == k,
            at <= total,
            stripe@.len() == at,
            forall|p: int|
                0 <= p < at ==> #[trigger] stripe@[p] == stripe_byte(
                    bits@,
                    p / k as int,
                    p % k as int,
                ),
        decreases total - at,
    {
        let g: usize = at / k;
        let c: usize = at % k;
        proof {
            lemma_word_in_range(at as int, k as int, groups as int);
        }
        let ghost f = |r: int| 8 * g + r < bits@.len() && bits@[8 * g + r]@[c as int];
        let mut byte: u32 = 0;
        let mut weight: u32 = 1;
        let mut r: usize = 0;
        proof {
            lemma2_to64();
        }
        while r < 8
            invariant
                g < n_total / 8,
                c < k,
                n_total % 8 == 0,
                bits@.len() <= n_total,
                forall|i: int| 0 <= i < bits@.len() ==> (#[trigger] bits@[i])@.len() == k,
                f == (|r: int| 8 * g + r < bits@.len() && bits@[8 * g + r]@[c as int]),
                r <= 8,
                weight == pow2(r as nat),
                weight <= 256,
                byte == bits_value(f, r as int),
                byte < weight,
            decreases 8 - r,
        {
            proof {
                lemma2_to64();
                lemma_pow2_unfold((r + 1) as nat);
                lemma_bits_value_range(f, r + 1);
                assert(weight <= 128);
            }
            let row: usize = 8 * g + r;
            if row < bits.len() {
                assert(bits@[row as int]@.len() == k);
                if bits[row][c] {
                    byte = byte + weight;
                }
            }
            weight = 2 * weight;
            r = r + 1;
        }
        stripe.push(byte as u8);
        at = at + 1;
    }
    proof {
        assert forall|g: int, c: int|
            #![trigger stripe@[g * k + c]]
            0 <= g < n_total / 8 && 0 <= c < k implies stripe@[g * k + c] == stripe_byte(
            bits@,
            g,
            c,
        ) by {
            let p = g * k + c;
            vstd::arithmetic::div_mod::lemma_fundamental_div_mod_converse(p, k as int, g, c);
            assert(0 <= p < k * groups) by (nonlinear_arith)
                requires
                    p == g * k + c,
                    0 <= c < k,
                    0 <= g < groups,
            ;
            assert(stripe@[p] == stripe_byte(bits@, p / k as int, p % k as int));
        }
    }
    stripe
}

impl MerkleTreeLayout {
    /// Column `c` of row `i` of a batch of paths.
    pub open spec fn batch_z(
        self,
        paths: Seq<PathInput>,
        rows: Seq<Vec<BlockRows>>,
        i: int,
        c: int,
    ) -> bool {
        i < paths.len() && self.witness_bit(paths[i], z_blocks(rows[i]@), c)
    }

    /// A table slot's packed row witness, batch-major, with the column stripe.
    /// Rows past the last path are zero throughout, the constant included.
    pub fn generate_witness_batch_major_partial(
        &self,
        paths: &[PathInput],
        rows: &[Vec<BlockRows>],
        nu: usize,
    ) -> (batch: (Vec<F128>, Vec<F128>, Vec<F128>, Vec<u8>))
        requires
            self.well_formed(),
            nu >= 3,
            pow2(nu as nat) * self.width() <= usize::MAX,
            paths@.len() <= pow2(nu as nat),
            rows@.len() == paths@.len(),
            forall|i: int|
                0 <= i < paths@.len() ==> self.accepts(#[trigger] paths@[i]) && self.covers(
                    rows@[i]@,
                ),
        ensures
            batch.0@.len() == pow2(nu as nat) * (self.width() / 128),
            batch.1@.len() == batch.0@.len(),
            batch.2@.len() == batch.0@.len(),
            forall|i: int, c: int|
                #![trigger batch_bit(batch.0@, nu as nat, i, c)]
                0 <= i < pow2(nu as nat) && 0 <= c < self.width() ==> batch_bit(
                    batch.0@,
                    nu as nat,
                    i,
                    c,
                ) == self.batch_z(paths@, rows@, i, c),
            forall|i: int, c: int|
                #![trigger batch_bit(batch.1@, nu as nat, i, c)]
                0 <= i < pow2(nu as nat) && 0 <= c < self.width() ==> batch_bit(
                    batch.1@,
                    nu as nat,
                    i,
                    c,
                ) == (i < paths@.len() && self.left_row_bit(paths@[i], rows@[i]@, c)),
            forall|i: int, c: int|
                #![trigger batch_bit(batch.2@, nu as nat, i, c)]
                0 <= i < pow2(nu as nat) && 0 <= c < self.width() ==> batch_bit(
                    batch.2@,
                    nu as nat,
                    i,
                    c,
                ) == (i < paths@.len() && self.right_row_bit(paths@[i], rows@[i]@, c)),
            batch.3@.len() == (pow2(nu as nat) / 8) * self.width(),
            forall|g: int, c: int, r: int|
                #![trigger byte_bit_at(batch.3@, g * self.width() + c, r)]
                0 <= g < pow2(nu as nat) / 8 && 0 <= c < self.width() && 0 <= r < 8
                    ==> byte_bit_at(batch.3@, g * self.width() + c, r) == self.batch_z(
                    paths@,
                    rows@,
                    8 * g + r,
                    c,
                ),
            forall|i: int, c: int|
                #![trigger batch_bit(batch.0@, nu as nat, i, c)]
                paths@.len() <= i < pow2(nu as nat) && 0 <= c < self.width() ==> !batch_bit(
                    batch.0@,
                    nu as nat,
                    i,
                    c,
                ),
    {
        let k: usize = self.k();
        let ghost n = pow2(nu as nat);
        proof {
            lemma2_to64();
            lemma_pow2_pos(nu as nat);
            self.lemma_width_words();
            lemma_pow2_adds(3, (nu - 3) as nat);
            assert(n * 1 <= n * k) by (nonlinear_arith)
                requires
                    1 <= k,
                    0 <= n,
            ;
            assert(n * (k / 128) <= n * k && (n / 8) * k <= n * k) by (nonlinear_arith)
                requires
                    0 <= n,
                    0 <= k,
            ;
        }
        let n_total: usize = power_of_two(nu);
        let mut z: Vec<Vec<bool>> = Vec::new();
        let mut a: Vec<Vec<bool>> = Vec::new();
        let mut b: Vec<Vec<bool>> = Vec::new();
        let mut i: usize = 0;
        while i < paths.len()
            invariant
                self.well_formed(),
                k == self.width(),
                rows@.len() == paths@.len(),
                forall|i: int|
                    0 <= i < paths@.len() ==> self.accepts(#[trigger] paths@[i]) && self.covers(
                        rows@[i]@,
                    ),
                i <= paths@.len(),
                z@.len() == i,
                a@.len() == i,
                b@.len() == i,
                forall|j: int|
                    0 <= j < i ==> (#[trigger] z@[j])@ == self.witness_of(
                        paths@[j],
                        z_blocks(rows@[j]@),
                    ),
                forall|j: int|
                    0 <= j < i ==> (#[trigger] a@[j])@ == Seq::new(
                        self.width() as nat,
                        |r: int| self.left_row_bit(paths@[j], rows@[j]@, r),
                    ),
                forall|j: int|
                    0 <= j < i ==> (#[trigger] b@[j])@ == Seq::new(
                        self.width() as nat,
                        |r: int| self.right_row_bit(paths@[j], rows@[j]@, r),
                    ),
            decreases paths@.len() - i,
        {
            assert(self.accepts(paths@[i as int]));
            let (pz, pa, pb) = self.row_witness(&paths[i], rows[i].as_slice());
            z.push(pz);
            a.push(pa);
            b.push(pb);
            i = i + 1;
        }
        let wz = pack_batch(&z, k, nu);
        let wa = pack_batch(&a, k, nu);
        let wb = pack_batch(&b, k, nu);
        let stripe = pack_stripe(&z, k, n_total);
        proof {
            assert forall|g: int, c: int, r: int|
                #![trigger byte_bit_at(stripe@, g * self.width() + c, r)]
                0 <= g < pow2(nu as nat) / 8 && 0 <= c < self.width() && 0 <= r < 8 implies
                byte_bit_at(stripe@, g * self.width() + c, r) == self.batch_z(
                paths@,
                rows@,
                8 * g + r,
                c,
            ) by {
                assert(stripe@[g * k + c] == stripe_byte(z@, g, c));
                let f = |r: int| 8 * g + r < z@.len() && z@[8 * g + r]@[c];
                lemma_value_bits(f, 8, r);
            }
        }
        (wz, wa, wb, stripe)
    }

    /// The width is a whole number of words.
    proof fn lemma_width_words(self)
        requires
            self.well_formed(),
        ensures
            self.width() % 128 == 0,
            self.width() > 0,
    {
        lemma2_to64();
        let k = self.k_log as nat;
        self.lemma_level(0, 0);
        self.lemma_level(0, self.level_stride - 1);
        if k < 7 {
            lemma_pow2_strictly_increases(k, 7);
        }
        lemma_pow2_adds(7, (k - 7) as nat);
        lemma_pow2_pos((k - 7) as nat);
        vstd::arithmetic::div_mod::lemma_mod_multiples_basic(pow2((k - 7) as nat) as int, 128);
    }
}

/// Bit `r` of byte `p`.
pub open spec fn byte_bit_at(bytes: Seq<u8>, p: int, r: int) -> bool {
    nat_bit(bytes[p] as int, r)
}

// ---------------------------------------------------------------------------
// The native root.
// ---------------------------------------------------------------------------

/// The digest after the first `l` levels, where `hash` gives a parent's digest
/// from its children's.
pub open spec fn native_digest(
    hash: spec_fn(Seq<u32>, Seq<u32>) -> Seq<u32>,
    input: PathInput,
    l: int,
) -> Seq<u32>
    decreases l,
{
    if l <= 0 {
        input.leaf@
    } else {
        let prev = native_digest(hash, input, l - 1);
        let sib = input.siblings@[l - 1]@;
        if index_bit_of(input.index, l - 1) {
            hash(prev, sib)
        } else {
            hash(sib, prev)
        }
    }
}

/// BLAKE3's parent digest of two children.
pub open spec fn blake3_parent() -> spec_fn(Seq<u32>, Seq<u32>) -> Seq<u32> {
    |left: Seq<u32>, right: Seq<u32>| chaining(parent_node(left, right))
}

/// The parent digest of two children: one BLAKE3 compression of both under the
/// parent flag.
pub fn parent_digest(left: &[u32; 8], right: &[u32; 8]) -> (digest: [u32; 8])
    ensures
        digest@ == blake3_parent()(left@, right@),
        digest@ == compressed(
            (Node { cv: iv_words(), block: left@ + right@, counter: 0, blen: 64, flags: 4 }),
        ).subrange(0, 8),
{
    let m = parent_block(left, right);
    let out = blake3_compress(&iv(), &m, NODE_COUNTER, NODE_BLOCK_LEN, BLAKE3_FLAG_PARENT);
    first_half(&out)
}

/// The children of level `l` over the running digest: a set index bit puts it on
/// the left.
pub open spec fn level_children(input: PathInput, prev: [u32; 8], l: int) -> ([u32; 8], [u32; 8]) {
    if index_bit_of(input.index, l) {
        (prev, input.siblings@[l])
    } else {
        (input.siblings@[l], prev)
    }
}

/// The node function may give the block for the two children.
pub open spec fn gives<N: Fn(&[u32; 8], &[u32; 8]) -> Vec<bool>>(
    node: N,
    pair: ([u32; 8], [u32; 8]),
    block: Vec<bool>,
) -> bool {
    call_ensures(node, (&pair.0, &pair.1), block)
}

/// A level of a native fold: the node function gives a block for the level's
/// children whose output is the digest that leaves it.
pub open spec fn folds_level<N: Fn(&[u32; 8], &[u32; 8]) -> Vec<bool>>(
    node: N,
    out_cv_base: int,
    input: PathInput,
    digests: Seq<[u32; 8]>,
    l: int,
) -> bool {
    exists|block: Vec<bool>|
        #[trigger] gives(node, level_children(input, digests[l], l), block) && digest_bits(
            digests[l + 1]@,
        ) == block@.subrange(out_cv_base, out_cv_base + 256)
}

/// The digests of a native fold of a path, from the leaf on.
pub open spec fn folds_path<N: Fn(&[u32; 8], &[u32; 8]) -> Vec<bool>>(
    node: N,
    out_cv_base: int,
    input: PathInput,
    digests: Seq<[u32; 8]>,
) -> bool {
    &&& digests.len() == input.siblings@.len() + 1
    &&& digests[0] == input.leaf
    &&& forall|l: int|
        0 <= l < input.siblings@.len() ==> #[trigger] folds_level(
            node,
            out_cv_base,
            input,
            digests,
            l,
        )
}

/// The root of a path, folded with a backend's node function: `node` gives the
/// block of two children, and the digest is read from its output.
pub fn reference_root<N: Fn(&[u32; 8], &[u32; 8]) -> Vec<bool>>(
    spec: &HashSpec,
    node: N,
    input: &PathInput,
) -> (root: [u32; 8])
    requires
        input.siblings@.len() <= 64,
        spec.out_cv_base + 256 <= usize::MAX,
        forall|left: [u32; 8], right: [u32; 8]| #[trigger] call_requires(node, (&left, &right)),
        forall|pair: ([u32; 8], [u32; 8]), block: Vec<bool>|
            #[trigger] gives(node, pair, block) ==> spec.out_cv_base + 256 <= block@.len(),
    ensures
        exists|digests: Seq<[u32; 8]>| #[trigger]
            folds_path(node, spec.out_cv_base as int, *input, digests) && root
                == digests.last(),
{
    let mut prev: [u32; 8] = input.leaf;
    let ghost mut digests: Seq<[u32; 8]> = seq![prev];
    let mut l: usize = 0;
    while l < input.siblings.len()
        invariant
            input.siblings@.len() <= 64,
            spec.out_cv_base + 256 <= usize::MAX,
            forall|left: [u32; 8], right: [u32; 8]| #[trigger] call_requires(node, (&left, &right)),
            forall|pair: ([u32; 8], [u32; 8]), block: Vec<bool>|
                #[trigger] gives(node, pair, block) ==> spec.out_cv_base + 256 <= block@.len(),
            l <= input.siblings@.len(),
            digests.len() == l + 1,
            digests[0] == input.leaf,
            digests[l as int] == prev,
            forall|k: int|
                0 <= k < l ==> #[trigger] folds_level(
                    node,
                    spec.out_cv_base as int,
                    *input,
                    digests,
                    k,
                ),
        decreases input.siblings@.len() - l,
    {
        let sibling = input.siblings[l];
        let up = index_at(input.index, l);
        let left = if up {
            prev
        } else {
            sibling
        };
        let right = if up {
            sibling
        } else {
            prev
        };
        let block = node(&left, &right);
        assert(gives(node, (left, right), block));
        let next = read_digest(block.as_slice(), spec.out_cv_base);
        proof {
            let longer = digests.push(next);
            assert(gives(node, level_children(*input, longer[l as int], l as int), block));
            assert forall|k: int| 0 <= k < l implies #[trigger] folds_level(
                node,
                spec.out_cv_base as int,
                *input,
                longer,
                k,
            ) by {
                assert(folds_level(node, spec.out_cv_base as int, *input, digests, k));
                assert(longer[k] == digests[k] && longer[k + 1] == digests[k + 1]);
            }
            digests = longer;
        }
        prev = next;
        l = l + 1;
    }
    assert(folds_path(node, spec.out_cv_base as int, *input, digests));
    prev
}

/// A native fold is the fold of the hash that the node function computes: where
/// every block of two children carries their hash, the digests are those of
/// `native_digest`.
pub proof fn folded_digests_are_native<N: Fn(&[u32; 8], &[u32; 8]) -> Vec<bool>>(
    node: N,
    hash: spec_fn(Seq<u32>, Seq<u32>) -> Seq<u32>,
    out_cv_base: int,
    input: PathInput,
    digests: Seq<[u32; 8]>,
    l: int,
)
    requires
        folds_path(node, out_cv_base, input, digests),
        forall|pair: ([u32; 8], [u32; 8]), block: Vec<bool>|
            #[trigger] gives(node, pair, block) ==> {
                &&& hash(pair.0@, pair.1@).len() == 8
                &&& block@.subrange(out_cv_base, out_cv_base + 256) == digest_bits(
                    hash(pair.0@, pair.1@),
                )
            },
        0 <= l <= input.siblings@.len(),
    ensures
        digests[l]@ == native_digest(hash, input, l),
    decreases l,
{
    if l > 0 {
        folded_digests_are_native(node, hash, out_cv_base, input, digests, l - 1);
        assert(folds_level(node, out_cv_base, input, digests, l - 1));
        let pair = level_children(input, digests[l - 1], l - 1);
        let block = choose|block: Vec<bool>|
            #[trigger] gives(node, pair, block) && digest_bits(digests[l]@) == block@.subrange(
                out_cv_base,
                out_cv_base + 256,
            );
        digest_bits_are_faithful(digests[l]@, hash(pair.0@, pair.1@));
    }
}

// ---------------------------------------------------------------------------
// The root of a witness.
// ---------------------------------------------------------------------------

/// A digest's bits determine its words.
pub proof fn digest_bits_are_faithful(a: Seq<u32>, b: Seq<u32>)
    requires
        a.len() == 8,
        b.len() == 8,
        digest_bits(a) == digest_bits(b),
    ensures
        a == b,
{
    lemma2_to64();
    assert forall|w: int| 0 <= w < 8 implies a[w] == b[w] by {
        let (u, v) = (a[w] as int, b[w] as int);
        let f = |i: int| nat_bit(u, i);
        let g = |i: int| nat_bit(v, i);
        assert forall|i: int| 0 <= i < 32 implies #[trigger] f(i) == g(i) by {
            let k = 32 * w + i;
            assert(k / 32 == w && k % 32 == i);
            assert(digest_bits(a)[k] == f(i));
            assert(digest_bits(b)[k] == g(i));
        }
        lemma_bits_value_congr(f, g, 32);
        lemma_bits_of_number(u, 32);
        lemma_bits_of_number(v, 32);
        assert(pow2(32) == 0x1_0000_0000);
        assert(u % 0x1_0000_0000 == u && v % 0x1_0000_0000 == v);
    }
    assert(a =~= b);
}

impl MerkleTreeLayout {
    /// The base relation hashes: a block that satisfies it with two digests as
    /// its message carries their hash in its output.
    pub open spec fn base_hashes(self, hash: spec_fn(Seq<u32>, Seq<u32>) -> Seq<u32>) -> bool {
        forall|block: Seq<bool>, l: Seq<u32>, r: Seq<u32>|
            #![trigger self.spec.block_holds(block), hash(l, r)]
            block.len() == self.spec.useful_bits && self.spec.block_holds(block) && l.len() == 8
                && r.len() == 8 && self.left(block) == digest_bits(l) && self.right(block)
                == digest_bits(r) ==> hash(l, r).len() == 8 && self.digest(block) == digest_bits(
                hash(l, r),
            )
    }

    proof fn lemma_native_entering(
        self,
        hash: spec_fn(Seq<u32>, Seq<u32>) -> Seq<u32>,
        input: PathInput,
        blocks: Seq<Seq<bool>>,
        l: int,
    )
        requires
            self.well_formed(),
            self.accepts(input),
            self.honest_blocks(input, blocks),
            self.base_hashes(hash),
            0 <= l <= self.depth,
        ensures
            native_digest(hash, input, l).len() == 8,
            Seq::new(256, |j: int| self.entering(input, blocks, l, j)) == digest_bits(
                native_digest(hash, input, l),
            ),
        decreases l,
    {
        let entering = Seq::new(256, |j: int| self.entering(input, blocks, l, j));
        if l == 0 {
            assert(entering =~= digest_bits(input.leaf@));
        } else {
            self.lemma_native_entering(hash, input, blocks, l - 1);
            let prev = native_digest(hash, input, l - 1);
            let sib = input.siblings@[l - 1]@;
            let block = blocks[l - 1].take(self.spec.useful_bits as int);
            assert(self.spec.block_holds(block));
            let (left, right) = if index_bit_of(input.index, l - 1) {
                (prev, sib)
            } else {
                (sib, prev)
            };
            assert(self.left(block) == digest_bits(left));
            assert(self.right(block) == digest_bits(right));
            assert(self.digest(block) == digest_bits(hash(left, right)));
            assert(entering =~= self.digest(block));
        }
    }

    /// The root of a path's witness is the root folded natively: where the base
    /// relation hashes, the root columns over honest blocks carry the native
    /// root, and no other digest has their bits.
    pub proof fn path_witness_has_the_native_root(
        self,
        hash: spec_fn(Seq<u32>, Seq<u32>) -> Seq<u32>,
        input: PathInput,
        blocks: Seq<Seq<bool>>,
    )
        requires
            self.well_formed(),
            self.accepts(input),
            self.honest_blocks(input, blocks),
            self.base_hashes(hash),
        ensures
            ({
                let z = self.witness_of(input, blocks);
                let root = native_digest(hash, input, input.siblings@.len() as int);
                let bits = Seq::new(
                    256,
                    |j: int| z[self.hash_at(self.depth - 1, self.spec.out_cv_base + j)],
                );
                &&& bits == digest_bits(root)
                &&& forall|d: Seq<u32>|
                    d.len() == 8 && #[trigger] digest_bits(d) == bits ==> d == root
            }),
    {
        let z = self.witness_of(input, blocks);
        let root = native_digest(hash, input, self.depth as int);
        let last = self.depth - 1;
        self.lemma_native_entering(hash, input, blocks, self.depth as int);
        assert forall|l: int| 0 <= l < self.depth implies (#[trigger] blocks[l]).len()
            >= self.spec.useful_bits by {}
        self.lemma_witness_level(input, blocks, last);
        self.lemma_level(last, 512);
        self.lemma_level(last, self.level_stride - 1);
        let bits = Seq::new(256, |j: int| z[self.hash_at(last, self.spec.out_cv_base + j)]);
        let entering = Seq::new(
            256,
            |j: int| self.entering(input, blocks, self.depth as int, j),
        );
        assert forall|j: int| 0 <= j < 256 implies bits[j] == entering[j] by {
            let c = self.spec.out_cv_base + j;
            assert(self.block(z, last)[c] == blocks[last].take(self.spec.useful_bits as int)[c]);
        }
        assert(bits =~= entering);
        assert forall|d: Seq<u32>| d.len() == 8 && #[trigger] digest_bits(d) == bits implies d
            == root by {
            digest_bits_are_faithful(d, root);
        }
    }

    /// The root of a path's witness is the one that the reference fold gives:
    /// where the base relation and the node function compute one hash, the root
    /// columns over honest blocks carry the last digest of the fold.
    pub proof fn witness_root_is_the_reference_root<
        N: Fn(&[u32; 8], &[u32; 8]) -> Vec<bool>,
    >(
        self,
        node: N,
        hash: spec_fn(Seq<u32>, Seq<u32>) -> Seq<u32>,
        input: PathInput,
        blocks: Seq<Seq<bool>>,
        digests: Seq<[u32; 8]>,
    )
        requires
            self.well_formed(),
            self.accepts(input),
            self.honest_blocks(input, blocks),
            self.base_hashes(hash),
            folds_path(node, self.spec.out_cv_base as int, input, digests),
            forall|pair: ([u32; 8], [u32; 8]), block: Vec<bool>|
                #[trigger] gives(node, pair, block) ==> {
                    &&& hash(pair.0@, pair.1@).len() == 8
                    &&& block@.subrange(
                        self.spec.out_cv_base as int,
                        self.spec.out_cv_base + 256,
                    ) == digest_bits(hash(pair.0@, pair.1@))
                },
        ensures
            Seq::new(
                256,
                |j: int|
                    self.witness_of(input, blocks)[self.hash_at(
                        self.depth - 1,
                        self.spec.out_cv_base + j,
                    )],
            ) == digest_bits(digests.last()@),
    {
        let levels = input.siblings@.len() as int;
        self.path_witness_has_the_native_root(hash, input, blocks);
        folded_digests_are_native(
            node,
            hash,
            self.spec.out_cv_base as int,
            input,
            digests,
            levels,
        );
    }
}

impl MerkleTreeLayout {
    /// A batch holds its paths row by row: the row of a path is that path's
    /// witness, its constant set, and a row past the last path is zero
    /// throughout, the constant included.
    pub proof fn batch_rows_are_their_paths(
        self,
        paths: Seq<PathInput>,
        rows: Seq<Vec<BlockRows>>,
        i: int,
        c: int,
    )
        requires
            self.well_formed(),
            0 <= i,
            0 <= c < self.width(),
        ensures
            i < paths.len() ==> self.batch_z(paths, rows, i, c) == self.witness_of(
                paths[i],
                z_blocks(rows[i]@),
            )[c],
            i < paths.len() ==> self.batch_z(paths, rows, i, 0),
            i >= paths.len() ==> !self.batch_z(paths, rows, i, c),
    {
    }
}

} // verus!
