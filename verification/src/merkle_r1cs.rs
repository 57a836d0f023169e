//! Merkle-path verification as one block: one row of a table per path.
//!
//! Level `l` swaps the running digest and the sibling by the index bit, and
//! hashes the pair:
//!
//! ```text
//!   t_j      = b_l (prev_j + S_j)      A = [b_l],      B = [prev_j, S_j]
//!   left_j   = S_j + t_j               A = [S_j, t_j], B = [1]
//!   right_j  = prev_j + t_j            A = [prev_j, t_j], B = [1]
//! ```
//!
//! The hash is a base block embedded at a column offset; `left` and `right`
//! are its message region, and its other inputs are pinned.
//!
//! ```text
//!   0                   the constant one
//!   1 .. 257            leaf digest
//!   257 .. 257 + D      index bits
//!   per level           sibling, t, hash block
//! ```
//!
//! Leaf, index and root are free columns: binding them is left to the caller.
use vstd::arithmetic::power2::{lemma2_to64, lemma_pow2_pos, lemma_pow2_unfold, pow2};
use vstd::prelude::*;

use crate::blake3::{high_word, iv, iv_words, low_word, parent_node};
use crate::hash_to_point_slots::relation::{lemma_shift_bit, nat_bit};
use crate::hash_to_point_slots::setup::{ceil_log2, is_ceil_log2, power_of_two};
use crate::prover::schedule::WitnessLayout;
use crate::r1cs::{columns_below, lin_eval, row_holds, BlockR1cs, SparseBinaryMatrix};

pub mod count;
pub mod csc;
pub mod walker;
pub mod witness;

verus! {

/// Bits in one digest.
pub const SLOT_BITS: usize = 256;

/// Words in one digest.
pub const SLOT_WORDS: usize = 8;

/// Parent nodes are not chunks, so their counter is zero.
pub const NODE_COUNTER: u64 = 0;

/// A parent node compresses two 32-byte digests.
pub const NODE_BLOCK_LEN: u32 = 64;

/// The parent flag, at every level.
pub const BLAKE3_FLAG_PARENT: u32 = 4;

/// The skipped variables of the zero check.
pub const K_SKIP: usize = 6;

/// The base block of one level: where it keeps its constant, its chaining
/// values and its message, its rows, and the inputs that the path pins.
#[derive(Debug)]
pub struct HashSpec {
    pub name: &'static str,
    pub k_log: usize,
    pub useful_bits: usize,
    pub z_const_pos: usize,
    pub in_cv_base: usize,
    pub out_cv_base: usize,
    pub msg_base: usize,
    pub flags: u32,
    pub a: SparseBinaryMatrix,
    pub b: SparseBinaryMatrix,
    pub fixed_bits: Vec<(usize, bool)>,
}

impl HashSpec {
    /// Rows of the useful columns read useful columns; the others are empty.
    pub open spec fn rows_useful(self, m: SparseBinaryMatrix) -> bool {
        &&& m.well_formed()
        &&& m.num_rows == pow2(self.k_log as nat)
        &&& m.num_cols == pow2(self.k_log as nat)
        &&& forall|c: int|
            0 <= c < self.useful_bits ==> columns_below(
                #[trigger] m.row(c),
                self.useful_bits as int,
            )
        &&& forall|c: int|
            self.useful_bits <= c < m.num_rows ==> (#[trigger] m.row(c)).len() == 0
    }

    pub open spec fn well_formed(self) -> bool {
        &&& self.useful_bits <= pow2(self.k_log as nat)
        &&& self.rows_useful(self.a)
        &&& self.rows_useful(self.b)
        &&& self.z_const_pos < self.useful_bits
        &&& self.out_cv_base + 256 <= self.useful_bits
        &&& self.msg_base + 512 <= self.useful_bits
        &&& !self.in_message(self.z_const_pos as int)
        &&& forall|i: int|
            0 <= i < self.fixed_bits@.len() ==> (#[trigger] self.fixed_bits@[i]).0
                < self.useful_bits && self.fixed_bits@[i].0 != self.z_const_pos
                && !self.in_message(self.fixed_bits@[i].0 as int)
        &&& forall|i: int, j: int|
            #![trigger self.fixed_bits@[i], self.fixed_bits@[j]]
            0 <= i < j < self.fixed_bits@.len() ==> self.fixed_bits@[i].0
                != self.fixed_bits@[j].0
    }

    pub open spec fn in_message(self, c: int) -> bool {
        self.msg_base <= c < self.msg_base + 512
    }

    /// The pinned value of a column.
    pub open spec fn pinned(self, c: int) -> Option<bool> {
        if exists|i: int| 0 <= i < self.fixed_bits@.len() && (#[trigger] self.fixed_bits@[i]).0 == c {
            let i = choose|i: int|
                0 <= i < self.fixed_bits@.len() && (#[trigger] self.fixed_bits@[i]).0 == c;
            Some(self.fixed_bits@[i].1)
        } else {
            None
        }
    }

    /// The column's row is replaced by the path.
    pub open spec fn overridden(self, c: int) -> bool {
        c == self.z_const_pos || self.in_message(c) || self.pinned(c) is Some
    }

    /// Row `c` of the base block.
    pub open spec fn base_row_holds(self, block: Seq<bool>, c: int) -> bool {
        (lin_eval(self.a.row(c), block) && lin_eval(self.b.row(c), block)) == block[c]
    }

    /// A block satisfies the base rows that the path keeps, with its constant
    /// set and its pinned inputs at their values.
    pub open spec fn block_holds(self, block: Seq<bool>) -> bool {
        &&& block[self.z_const_pos as int]
        &&& forall|i: int|
            0 <= i < self.fixed_bits@.len() ==> block[(#[trigger] self.fixed_bits@[i]).0 as int]
                == self.fixed_bits@[i].1
        &&& forall|c: int|
            0 <= c < self.useful_bits && !self.overridden(c) ==> #[trigger] self.base_row_holds(
                block,
                c,
            )
    }

    pub proof fn lemma_pinned(self, i: int)
        requires
            self.well_formed(),
            0 <= i < self.fixed_bits@.len(),
        ensures
            self.pinned(self.fixed_bits@[i].0 as int) == Some(self.fixed_bits@[i].1),
    {
        let c = self.fixed_bits@[i].0 as int;
        let k = choose|k: int|
            0 <= k < self.fixed_bits@.len() && (#[trigger] self.fixed_bits@[k]).0 == c;
        assert(self.fixed_bits@[i].0 == c);
        if k < i {
            assert(self.fixed_bits@[k].0 != self.fixed_bits@[i].0);
        } else if i < k {
            assert(self.fixed_bits@[i].0 != self.fixed_bits@[k].0);
        }
    }

    /// The pinned values by column.
    pub fn pins(&self) -> (pins: Vec<Option<bool>>)
        requires
            self.well_formed(),
        ensures
            pins@ == Seq::new(self.useful_bits as nat, |c: int| self.pinned(c)),
    {
        let mut pins: Vec<Option<bool>> = Vec::new();
        while pins.len() < self.useful_bits
            invariant
                pins@.len() <= self.useful_bits,
                forall|c: int| 0 <= c < pins@.len() ==> #[trigger] pins@[c] == None::<bool>,
            decreases self.useful_bits - pins@.len(),
        {
            pins.push(None);
        }
        let mut i: usize = 0;
        while i < self.fixed_bits.len()
            invariant
                self.well_formed(),
                i <= self.fixed_bits@.len(),
                pins@.len() == self.useful_bits,
                forall|c: int|
                    0 <= c < self.useful_bits ==> (#[trigger] pins@[c] == self.pinned(c) || (
                    pins@[c] == None::<bool> && (forall|k: int|
                        0 <= k < i ==> (#[trigger] self.fixed_bits@[k]).0 != c))),
            decreases self.fixed_bits@.len() - i,
        {
            let (c, v) = self.fixed_bits[i];
            proof {
                assert(self.fixed_bits@[i as int].0 < self.useful_bits);
                self.lemma_pinned(i as int);
            }
            pins[c] = Some(v);
            i = i + 1;
        }
        proof {
            assert forall|c: int| 0 <= c < self.useful_bits implies pins@[c] == self.pinned(c) by {
                if pins@[c] == None::<bool> && (forall|k: int|
                    0 <= k < i ==> (#[trigger] self.fixed_bits@[k]).0 != c) {
                    assert(self.pinned(c) is None);
                }
            }
            assert(pins@ =~= Seq::new(self.useful_bits as nat, |c: int| self.pinned(c)));
        }
        pins
    }
}

/// The column bases of BLAKE3's free inputs other than the message.
#[derive(Clone, Copy, Debug)]
pub struct Blake3Bases {
    pub cv: usize,
    pub t_lo: usize,
    pub t_hi: usize,
    pub blen: usize,
    pub flags: usize,
}

/// Word `w` of the pinned inputs of a parent node, with its base column.
pub open spec fn pinned_word(bases: Blake3Bases, w: int) -> (int, u32) {
    if w < 8 {
        (bases.cv + 32 * w, iv_words()[w])
    } else if w == 8 {
        (bases.t_lo as int, 0)
    } else if w == 9 {
        (bases.t_hi as int, 0)
    } else if w == 10 {
        (bases.blen as int, 64)
    } else {
        (bases.flags as int, 4)
    }
}

/// What is pinned is what a parent's compression takes besides its message,
/// whatever the children are: each word of its chaining value, both words of its
/// counter, its block length and its flags, each at its own columns.
pub proof fn pins_are_a_parents_inputs(
    bases: Blake3Bases,
    left: Seq<u32>,
    right: Seq<u32>,
    w: int,
)
    ensures
        ({
            let parent = parent_node(left, right);
            &&& 0 <= w < 8 ==> pinned_word(bases, w) == (bases.cv + 32 * w, parent.cv[w])
            &&& pinned_word(bases, 8) == (bases.t_lo as int, low_word(parent.counter))
            &&& pinned_word(bases, 9) == (bases.t_hi as int, high_word(parent.counter))
            &&& pinned_word(bases, 10) == (bases.blen as int, parent.blen)
            &&& pinned_word(bases, 11) == (bases.flags as int, parent.flags)
        }),
{
}

/// BLAKE3's free inputs other than the message: the initial chaining value,
/// counter zero, block length 64 and the parent flag.
pub fn blake3_fixed_bits(bases: &Blake3Bases) -> (bits: Vec<(usize, bool)>)
    requires
        bases.cv + 256 <= usize::MAX,
        bases.t_lo + 32 <= usize::MAX,
        bases.t_hi + 32 <= usize::MAX,
        bases.blen + 32 <= usize::MAX,
        bases.flags + 32 <= usize::MAX,
    ensures
        bits@.len() == 384,
        forall|w: int, b: int|
            #![trigger bits@[32 * w + b]]
            0 <= w < 12 && 0 <= b < 32 ==> bits@[32 * w + b].0 == pinned_word(*bases, w).0 + b
                && bits@[32 * w + b].1 == nat_bit(pinned_word(*bases, w).1 as int, b),
{
    let words = iv();
    let mut bits: Vec<(usize, bool)> = Vec::new();
    let mut i: usize = 0;
    while i < 384
        invariant
            bases.cv + 256 <= usize::MAX,
            bases.t_lo + 32 <= usize::MAX,
            bases.t_hi + 32 <= usize::MAX,
            bases.blen + 32 <= usize::MAX,
            bases.flags + 32 <= usize::MAX,
            words@ == iv_words(),
            i <= 384,
            bits@.len() == i,
            forall|k: int|
                0 <= k < i ==> (#[trigger] bits@[k]).0 == pinned_word(*bases, k / 32).0 + k % 32
                    && bits@[k].1 == nat_bit(pinned_word(*bases, k / 32).1 as int, k % 32),
        decreases 384 - i,
    {
        let w: usize = i / 32;
        let b: usize = i % 32;
        let (base, value): (usize, u32) = if w < 8 {
            (bases.cv + 32 * w, words[w])
        } else if w == 8 {
            (bases.t_lo, NODE_COUNTER as u32)
        } else if w == 9 {
            (bases.t_hi, 0)
        } else if w == 10 {
            (bases.blen, NODE_BLOCK_LEN)
        } else {
            (bases.flags, BLAKE3_FLAG_PARENT)
        };
        proof {
            lemma_shift_bit(value, b as u32);
        }
        bits.push((base + b, (value >> (b as u32)) & 1 == 1));
        i = i + 1;
    }
    proof {
        assert forall|w: int, b: int|
            #![trigger bits@[32 * w + b]]
            0 <= w < 12 && 0 <= b < 32 implies bits@[32 * w + b].0 == pinned_word(*bases, w).0 + b
            && bits@[32 * w + b].1 == nat_bit(pinned_word(*bases, w).1 as int, b) by {
            let k = 32 * w + b;
            assert(k / 32 == w && k % 32 == b);
            assert(bits@[k].0 == pinned_word(*bases, k / 32).0 + k % 32);
        }
    }
    bits
}

/// Where the BLAKE3 encoder keeps its wires, and its rows.
#[derive(Debug)]
pub struct Blake3Block {
    pub k_log: usize,
    pub useful_bits: usize,
    pub z_const_pos: usize,
    pub inputs: Blake3Bases,
    pub out_lo: usize,
    pub msg: usize,
    pub a: SparseBinaryMatrix,
    pub b: SparseBinaryMatrix,
}

impl Blake3Block {
    /// Two ranges of columns do not meet.
    pub open spec fn apart(x: int, m: int, y: int, n: int) -> bool {
        x + m <= y || y + n <= x
    }

    /// The inputs are useful columns, apart from each other, from the message
    /// and from the constant.
    pub open spec fn inputs_apart(self) -> bool {
        &&& forall|w: int|
            0 <= w < 12 ==> {
                let base = (#[trigger] pinned_word(self.inputs, w)).0;
                &&& base + 32 <= self.useful_bits
                &&& Self::apart(base, 32, self.msg as int, 512)
                &&& Self::apart(base, 32, self.z_const_pos as int, 1)
            }
        &&& forall|v: int, w: int|
            0 <= v < w < 12 ==> Self::apart(
                (#[trigger] pinned_word(self.inputs, v)).0,
                32,
                (#[trigger] pinned_word(self.inputs, w)).0,
                32,
            )
    }
}

/// The BLAKE3 node: one parent compression per level. The spec is usable where
/// the encoder's wires are apart and its rows useful.
pub fn blake3_spec(block: Blake3Block) -> (spec: HashSpec)
    requires
        block.inputs_apart(),
        block.useful_bits <= usize::MAX - 512,
    ensures
        spec.name@ == "blake3"@,
        spec.k_log == block.k_log,
        spec.useful_bits == block.useful_bits,
        spec.z_const_pos == block.z_const_pos,
        spec.in_cv_base == block.inputs.cv,
        spec.out_cv_base == block.out_lo,
        spec.msg_base == block.msg,
        spec.flags == BLAKE3_FLAG_PARENT,
        spec.a == block.a,
        spec.b == block.b,
        spec.fixed_bits@.len() == 384,
        forall|w: int, b: int|
            #![trigger spec.fixed_bits@[32 * w + b]]
            0 <= w < 12 && 0 <= b < 32 ==> spec.fixed_bits@[32 * w + b].0 == pinned_word(
                block.inputs,
                w,
            ).0 + b && spec.fixed_bits@[32 * w + b].1 == nat_bit(
                pinned_word(block.inputs, w).1 as int,
                b,
            ),
        spec.well_formed() <==> {
            &&& block.useful_bits <= pow2(block.k_log as nat)
            &&& spec.rows_useful(block.a)
            &&& spec.rows_useful(block.b)
            &&& block.z_const_pos < block.useful_bits
            &&& block.out_lo + 256 <= block.useful_bits
            &&& block.msg + 512 <= block.useful_bits
            &&& !(block.msg <= block.z_const_pos < block.msg + 512)
        },
{
    proof {
        assert(pinned_word(block.inputs, 7).0 + 32 <= block.useful_bits);
        assert(pinned_word(block.inputs, 8).0 + 32 <= block.useful_bits);
        assert(pinned_word(block.inputs, 9).0 + 32 <= block.useful_bits);
        assert(pinned_word(block.inputs, 10).0 + 32 <= block.useful_bits);
        assert(pinned_word(block.inputs, 11).0 + 32 <= block.useful_bits);
    }
    let fixed_bits = blake3_fixed_bits(&block.inputs);
    let spec = HashSpec {
        name: "blake3",
        k_log: block.k_log,
        useful_bits: block.useful_bits,
        z_const_pos: block.z_const_pos,
        in_cv_base: block.inputs.cv,
        out_cv_base: block.out_lo,
        msg_base: block.msg,
        flags: BLAKE3_FLAG_PARENT,
        a: block.a,
        b: block.b,
        fixed_bits,
    };
    proof {
        let bits = spec.fixed_bits@;
        assert forall|i: int| 0 <= i < bits.len() implies (#[trigger] bits[i]).0
            < spec.useful_bits && bits[i].0 != spec.z_const_pos && !spec.in_message(
            bits[i].0 as int,
        ) by {
            let (w, b) = (i / 32, i % 32);
            assert(bits[32 * w + b].0 == pinned_word(block.inputs, w).0 + b);
        }
        assert forall|i: int, j: int|
            #![trigger bits[i], bits[j]]
            0 <= i < j < bits.len() implies bits[i].0 != bits[j].0 by {
            let (v, x) = (i / 32, i % 32);
            let (w, y) = (j / 32, j % 32);
            assert(bits[32 * v + x].0 == pinned_word(block.inputs, v).0 + x);
            assert(bits[32 * w + y].0 == pinned_word(block.inputs, w).0 + y);
        }
    }
    spec
}

// ---------------------------------------------------------------------------
// The layout.
// ---------------------------------------------------------------------------

/// The columns of a path block.
#[derive(Debug)]
pub struct MerkleTreeLayout {
    pub spec: HashSpec,
    pub depth: usize,
    pub k_log: usize,
    pub useful_bits: usize,
    pub levels_base: usize,
    pub level_stride: usize,
}

/// The constant-one column.
pub const CONST_POS: usize = 0;

/// The first column of the leaf.
pub const LEAF_BASE: usize = 1;

/// The first column of the index bits.
pub const INDEX_BASE: usize = 257;

impl MerkleTreeLayout {
    pub open spec fn well_formed(self) -> bool {
        &&& self.spec.well_formed()
        &&& self.depth >= 1
        &&& self.levels_base == 257 + self.depth
        &&& self.level_stride == 512 + self.spec.useful_bits
        &&& self.useful_bits == self.levels_base + self.depth * self.level_stride
        &&& is_ceil_log2(self.useful_bits as int, self.k_log as nat)
        &&& pow2(self.k_log as nat) <= usize::MAX
    }

    /// The width of the block.
    pub open spec fn width(self) -> int {
        pow2(self.k_log as nat) as int
    }

    pub open spec fn level_at(self, l: int) -> int {
        self.levels_base + l * self.level_stride
    }

    pub open spec fn sibling_at(self, l: int, j: int) -> int {
        self.level_at(l) + j
    }

    pub open spec fn t_at(self, l: int, j: int) -> int {
        self.level_at(l) + 256 + j
    }

    pub open spec fn hash_at(self, l: int, c: int) -> int {
        self.level_at(l) + 512 + c
    }

    /// The digest that enters level `l`.
    pub open spec fn prev_at(self, l: int, j: int) -> int {
        if l == 0 {
            1 + j
        } else {
            self.hash_at(l - 1, self.spec.out_cv_base + j)
        }
    }

    /// Lay out a path of `depth` levels.
    pub fn new(depth: usize, spec: HashSpec) -> (layout: MerkleTreeLayout)
        requires
            depth >= 1,
            spec.well_formed(),
            257 + depth + depth * (512 + spec.useful_bits) <= usize::MAX / 2,
        ensures
            layout.well_formed(),
            layout.depth == depth,
            layout.spec == spec,
    {
        let ghost stride = 512 + spec.useful_bits;
        assert(1 * stride <= depth * stride) by (nonlinear_arith)
            requires
                depth >= 1,
                stride >= 0,
        ;
        let levels_base: usize = INDEX_BASE + depth;
        let level_stride: usize = 2 * SLOT_BITS + spec.useful_bits;
        assert(depth * level_stride == depth * stride);
        let useful_bits: usize = levels_base + depth * level_stride;
        let k_log = ceil_log2(useful_bits);
        proof {
            lemma2_to64();
            lemma_pow2_unfold(64);
            lemma_pow2_unfold(32);
            lemma_width(useful_bits as int, k_log as nat);
        }
        MerkleTreeLayout { spec, depth, k_log, useful_bits, levels_base, level_stride }
    }

    /// The width of the block.
    pub fn k(&self) -> (width: usize)
        requires
            self.well_formed(),
        ensures
            width == self.width(),
    {
        power_of_two(self.k_log)
    }

    pub proof fn lemma_level(self, l: int, w: int)
        requires
            self.well_formed(),
            0 <= l < self.depth,
            0 <= w < self.level_stride,
        ensures
            self.levels_base <= self.level_at(l) + w < self.useful_bits <= self.width(),
            0 <= l * self.level_stride,
            (self.level_at(l) + w - self.levels_base) / self.level_stride as int == l,
            (self.level_at(l) + w - self.levels_base) % self.level_stride as int == w,
    {
        let s = self.level_stride as int;
        assert(0 <= l * s && l * s + s <= self.depth * s) by (nonlinear_arith)
            requires
                0 <= l < self.depth,
                0 <= s,
        ;
        vstd::arithmetic::div_mod::lemma_fundamental_div_mod_converse(l * s + w, s, l, w);
    }

    /// The level and place of a column past the globals.
    pub proof fn lemma_place(self, r: int)
        requires
            self.well_formed(),
            self.levels_base <= r < self.useful_bits,
        ensures
            ({
                let l = (r - self.levels_base) / self.level_stride as int;
                let w = (r - self.levels_base) % self.level_stride as int;
                0 <= l < self.depth && 0 <= w < self.level_stride && r == self.level_at(l) + w
            }),
    {
        let s = self.level_stride as int;
        let off = r - self.levels_base;
        vstd::arithmetic::div_mod::lemma_fundamental_div_mod(off, s);
        vstd::arithmetic::div_mod::lemma_mod_bound(off, s);
        vstd::arithmetic::div_mod::lemma_div_pos_is_pos(off, s);
        let l = off / s;
        assert(s * l == l * s) by (nonlinear_arith);
        if l >= self.depth {
            assert(l * s >= self.depth * s) by (nonlinear_arith)
                requires
                    l >= self.depth,
                    s >= 0,
            ;
        }
    }

    /// Bit `j` of the leaf digest.
    pub fn leaf_bit(&self, j: usize) -> (c: usize)
        requires
            j < 256,
        ensures
            c == 1 + j,
    {
        LEAF_BASE + j
    }

    /// The index bit of a level.
    pub fn index_bit(&self, level: usize) -> (c: usize)
        requires
            self.well_formed(),
            level < self.depth,
        ensures
            c == 257 + level,
    {
        INDEX_BASE + level
    }

    fn level_base(&self, level: usize) -> (c: usize)
        requires
            self.well_formed(),
            level < self.depth,
        ensures
            c == self.level_at(level as int),
            c + self.level_stride <= self.useful_bits,
    {
        proof {
            self.lemma_level(level as int, self.level_stride - 1);
        }
        self.levels_base + level * self.level_stride
    }

    /// Bit `j` of a level's sibling.
    pub fn sibling_bit(&self, level: usize, j: usize) -> (c: usize)
        requires
            self.well_formed(),
            level < self.depth,
            j < 256,
        ensures
            c == self.sibling_at(level as int, j as int),
    {
        self.level_base(level) + j
    }

    /// Bit `j` of a level's products.
    pub fn t_bit(&self, level: usize, j: usize) -> (c: usize)
        requires
            self.well_formed(),
            level < self.depth,
            j < 256,
        ensures
            c == self.t_at(level as int, j as int),
    {
        self.level_base(level) + SLOT_BITS + j
    }

    /// Column `c` of a level's hash block.
    pub fn hash_bit(&self, level: usize, c: usize) -> (column: usize)
        requires
            self.well_formed(),
            level < self.depth,
            c < self.spec.useful_bits,
        ensures
            column == self.hash_at(level as int, c as int),
            column < self.useful_bits,
    {
        self.level_base(level) + 2 * SLOT_BITS + c
    }

    /// Bit `j` of the digest that enters a level.
    pub fn prev_bit(&self, level: usize, j: usize) -> (c: usize)
        requires
            self.well_formed(),
            level < self.depth,
            j < 256,
        ensures
            c == self.prev_at(level as int, j as int),
    {
        if level == 0 {
            self.leaf_bit(j)
        } else {
            self.hash_bit(level - 1, self.spec.out_cv_base + j)
        }
    }

    /// Bit `j` of the root.
    pub fn root_bit(&self, j: usize) -> (c: usize)
        requires
            self.well_formed(),
            j < 256,
        ensures
            c == self.hash_at(self.depth - 1, self.spec.out_cv_base + j),
            c < self.useful_bits,
    {
        self.hash_bit(self.depth - 1, self.spec.out_cv_base + j)
    }
}

proof fn lemma_width(n: int, k: nat)
    requires
        is_ceil_log2(n, k),
        0 < n <= usize::MAX / 2,
        pow2(64) == 0x1_0000_0000_0000_0000,
        pow2(32) == 0x1_0000_0000,
    ensures
        pow2(k) <= usize::MAX,
{
    if k > 0 {
        lemma_pow2_unfold(k);
    } else {
        lemma2_to64();
    }
}

// ---------------------------------------------------------------------------
// The rows.
// ---------------------------------------------------------------------------

/// A row with its columns moved up.
pub open spec fn shifted(row: Seq<usize>, offset: int) -> Seq<usize> {
    Seq::new(row.len(), |i: int| (row[i] + offset) as usize)
}

impl MerkleTreeLayout {
    /// The rows of column `c` of a level's hash block. With `base`, the kept
    /// rows of the base block; without, nothing in their place.
    pub open spec fn hash_rows(self, l: int, c: int, base: bool) -> (Seq<usize>, Seq<usize>) {
        let one = seq![0usize];
        let j = c - self.spec.msg_base;
        match self.spec.pinned(c) {
            Some(v) => (
                if v {
                    one
                } else {
                    Seq::empty()
                },
                one,
            ),
            None => if c == self.spec.z_const_pos {
                (one, one)
            } else if 0 <= j < 256 {
                (seq![self.sibling_at(l, j) as usize, self.t_at(l, j) as usize], one)
            } else if 256 <= j < 512 {
                (seq![self.prev_at(l, j - 256) as usize, self.t_at(l, j - 256) as usize], one)
            } else if base {
                (
                    shifted(self.spec.a.row(c), self.hash_at(l, 0)),
                    shifted(self.spec.b.row(c), self.hash_at(l, 0)),
                )
            } else {
                (Seq::empty(), Seq::empty())
            },
        }
    }

    /// The two rows of column `r`.
    pub open spec fn rows_at(self, r: int, base: bool) -> (Seq<usize>, Seq<usize>) {
        let one = seq![0usize];
        if r == 0 {
            (one, one)
        } else if r < self.levels_base {
            (seq![r as usize], one)
        } else if r >= self.useful_bits {
            (Seq::empty(), Seq::empty())
        } else {
            let l = (r - self.levels_base) / self.level_stride as int;
            let w = (r - self.levels_base) % self.level_stride as int;
            if w < 256 {
                (seq![r as usize], one)
            } else if w < 512 {
                (
                    seq![(257 + l) as usize],
                    seq![
                        self.prev_at(l, w - 256) as usize,
                        self.sibling_at(l, w - 256) as usize,
                    ],
                )
            } else {
                self.hash_rows(l, w - 512, base)
            }
        }
    }

    /// The columns of a level's gadget are useful.
    pub proof fn lemma_gadget(self, l: int, j: int)
        requires
            self.well_formed(),
            0 <= l < self.depth,
            0 <= j < 256,
        ensures
            0 <= self.sibling_at(l, j) < self.useful_bits,
            0 <= self.t_at(l, j) < self.useful_bits,
            0 <= self.prev_at(l, j) < self.useful_bits,
            257 + l < self.useful_bits,
    {
        self.lemma_level(l, j);
        self.lemma_level(l, 256 + j);
        if l > 0 {
            self.lemma_level(l - 1, 512 + self.spec.out_cv_base + j);
        }
    }

    /// Every row reads useful columns.
    pub proof fn lemma_rows_useful(self, r: int, base: bool)
        requires
            self.well_formed(),
            0 <= r,
        ensures
            columns_below(self.rows_at(r, base).0, self.useful_bits as int),
            columns_below(self.rows_at(r, base).1, self.useful_bits as int),
    {
        if self.levels_base <= r < self.useful_bits {
            self.lemma_place(r);
            let l = (r - self.levels_base) / self.level_stride as int;
            let w = (r - self.levels_base) % self.level_stride as int;
            if 256 <= w < 512 {
                self.lemma_gadget(l, w - 256);
            } else if w >= 512 {
                let c = w - 512;
                let j = c - self.spec.msg_base;
                if 0 <= j < 256 {
                    self.lemma_gadget(l, j);
                } else if 256 <= j < 512 {
                    self.lemma_gadget(l, j - 256);
                }
                let (a, b) = (self.spec.a.row(c), self.spec.b.row(c));
                self.lemma_level(l, 512);
                let at = self.hash_at(l, 0);
                assert(columns_below(a, self.spec.useful_bits as int));
                assert(columns_below(b, self.spec.useful_bits as int));
                assert forall|i: int| 0 <= i < a.len() implies (#[trigger] shifted(a, at)[i])
                    < self.useful_bits by {
                    assert(a[i] < self.spec.useful_bits);
                    self.lemma_level(l, 512 + a[i]);
                }
                assert forall|i: int| 0 <= i < b.len() implies (#[trigger] shifted(b, at)[i])
                    < self.useful_bits by {
                    assert(b[i] < self.spec.useful_bits);
                    self.lemma_level(l, 512 + b[i]);
                }
            }
        }
    }

    fn shift_row(&self, row: &Vec<usize>, level: usize) -> (moved: Vec<usize>)
        requires
            self.well_formed(),
            level < self.depth,
            columns_below(row@, self.spec.useful_bits as int),
        ensures
            moved@ == shifted(row@, self.hash_at(level as int, 0)),
    {
        let mut moved: Vec<usize> = Vec::new();
        let mut i: usize = 0;
        while i < row.len()
            invariant
                self.well_formed(),
                level < self.depth,
                columns_below(row@, self.spec.useful_bits as int),
                i <= row@.len(),
                moved@ == shifted(row@, self.hash_at(level as int, 0)).take(i as int),
            decreases row@.len() - i,
        {
            assert(row@[i as int] < self.spec.useful_bits);
            moved.push(self.hash_bit(level, row[i]));
            i = i + 1;
            assert(moved@ =~= shifted(row@, self.hash_at(level as int, 0)).take(i as int));
        }
        assert(moved@ =~= shifted(row@, self.hash_at(level as int, 0)));
        moved
    }

    /// The two rows of a column.
    fn rows(&self, r: usize, base: bool, pins: &Vec<Option<bool>>) -> (rows: (
        Vec<usize>,
        Vec<usize>,
    ))
        requires
            self.well_formed(),
            r < self.width(),
            pins@ == Seq::new(self.spec.useful_bits as nat, |c: int| self.spec.pinned(c)),
        ensures
            rows.0@ == self.rows_at(r as int, base).0,
            rows.1@ == self.rows_at(r as int, base).1,
    {
        let ghost one = seq![0usize];
        if r == CONST_POS {
            return (vec![CONST_POS], vec![CONST_POS]);
        }
        if r < self.levels_base {
            return (vec![r], vec![CONST_POS]);
        }
        if r >= self.useful_bits {
            return (Vec::new(), Vec::new());
        }
        proof {
            self.lemma_place(r as int);
        }
        let l: usize = (r - self.levels_base) / self.level_stride;
        let w: usize = (r - self.levels_base) % self.level_stride;
        if w < SLOT_BITS {
            return (vec![r], vec![CONST_POS]);
        }
        if w < 2 * SLOT_BITS {
            let j: usize = w - SLOT_BITS;
            return (
                vec![self.index_bit(l)],
                vec![self.prev_bit(l, j), self.sibling_bit(l, j)],
            );
        }
        let c: usize = w - 2 * SLOT_BITS;
        match pins[c] {
            Some(v) => {
                let a: Vec<usize> = if v {
                    vec![CONST_POS]
                } else {
                    Vec::new()
                };
                return (a, vec![CONST_POS]);
            },
            None => {},
        }
        if c == self.spec.z_const_pos {
            return (vec![CONST_POS], vec![CONST_POS]);
        }
        if c >= self.spec.msg_base && c - self.spec.msg_base < SLOT_BITS {
            let j: usize = c - self.spec.msg_base;
            return (vec![self.sibling_bit(l, j), self.t_bit(l, j)], vec![CONST_POS]);
        }
        if c >= self.spec.msg_base && c - self.spec.msg_base < 2 * SLOT_BITS {
            let j: usize = c - self.spec.msg_base - SLOT_BITS;
            return (vec![self.prev_bit(l, j), self.t_bit(l, j)], vec![CONST_POS]);
        }
        if base {
            assert(columns_below(self.spec.a.row(c as int), self.spec.useful_bits as int));
            assert(columns_below(self.spec.b.row(c as int), self.spec.useful_bits as int));
            (self.shift_row(&self.spec.a.rows[c], l), self.shift_row(&self.spec.b.rows[c], l))
        } else {
            (Vec::new(), Vec::new())
        }
    }

    /// The matrices hold the path's rows.
    pub open spec fn has_rows(
        self,
        a: SparseBinaryMatrix,
        b: SparseBinaryMatrix,
        base: bool,
    ) -> bool {
        &&& a.well_formed()
        &&& b.well_formed()
        &&& a.num_rows == self.width()
        &&& a.num_cols == self.width()
        &&& b.num_rows == self.width()
        &&& b.num_cols == self.width()
        &&& forall|r: int|
            0 <= r < self.width() ==> #[trigger] a.row(r) == self.rows_at(r, base).0
        &&& forall|r: int|
            0 <= r < self.width() ==> #[trigger] b.row(r) == self.rows_at(r, base).1
    }

    /// Both matrices, with or without the kept rows of the base blocks.
    fn matrices(&self, base: bool) -> (pair: (SparseBinaryMatrix, SparseBinaryMatrix))
        requires
            self.well_formed(),
        ensures
            self.has_rows(pair.0, pair.1, base),
    {
        let k: usize = self.k();
        let pins = self.spec.pins();
        let mut a: Vec<Vec<usize>> = Vec::new();
        let mut b: Vec<Vec<usize>> = Vec::new();
        let mut r: usize = 0;
        while r < k
            invariant
                self.well_formed(),
                k == self.width(),
                pins@ == Seq::new(self.spec.useful_bits as nat, |c: int| self.spec.pinned(c)),
                r <= k,
                a@.len() == r,
                b@.len() == r,
                forall|i: int| 0 <= i < r ==> (#[trigger] a@[i])@ == self.rows_at(i, base).0,
                forall|i: int| 0 <= i < r ==> (#[trigger] b@[i])@ == self.rows_at(i, base).1,
            decreases k - r,
        {
            let (row_a, row_b) = self.rows(r, base, &pins);
            let ghost (pa, pb) = (a@, b@);
            a.push(row_a);
            b.push(row_b);
            r = r + 1;
        }
        let a = SparseBinaryMatrix { num_rows: k, num_cols: k, rows: a };
        let b = SparseBinaryMatrix { num_rows: k, num_cols: k, rows: b };
        proof {
            assert forall|r: int| 0 <= r < k implies #[trigger] a.row(r) == self.rows_at(
                r,
                base,
            ).0 && columns_below(a.row(r), k as int) by {
                self.lemma_rows_useful(r, base);
                assert(a.rows@[r]@ == self.rows_at(r, base).0);
            }
            assert forall|r: int| 0 <= r < k implies #[trigger] b.row(r) == self.rows_at(
                r,
                base,
            ).1 && columns_below(b.row(r), k as int) by {
                self.lemma_rows_useful(r, base);
                assert(b.rows@[r]@ == self.rows_at(r, base).1);
            }
        }
        (a, b)
    }

    /// The rows that are not copies of base rows: the globals, the gadget
    /// columns and the replaced rows of every hash block.
    pub fn extras(&self) -> (pair: (SparseBinaryMatrix, SparseBinaryMatrix))
        requires
            self.well_formed(),
        ensures
            self.has_rows(pair.0, pair.1, false),
    {
        self.matrices(false)
    }

    /// All rows of the path block. Holds one copy of the base rows per level.
    pub fn build_matrices(&self) -> (pair: (SparseBinaryMatrix, SparseBinaryMatrix))
        requires
            self.well_formed(),
        ensures
            self.has_rows(pair.0, pair.1, true),
    {
        self.matrices(true)
    }

    /// The block system over `2^n_paths_log` paths.
    pub fn build_block_r1cs(&self, n_paths_log: usize) -> (r1cs: BlockR1cs)
        requires
            self.well_formed(),
            n_paths_log + self.k_log <= usize::MAX,
        ensures
            r1cs.well_formed(),
            self.has_rows(r1cs.a_0, r1cs.b_0, true),
            r1cs.m == n_paths_log + self.k_log,
            r1cs.k_log == self.k_log,
            r1cs.k_skip == K_SKIP,
            r1cs.useful_bits == self.useful_bits,
            r1cs.third_is_identity,
            r1cs.layout == WitnessLayout::BatchMajor,
            r1cs.const_pin == Some(0usize),
    {
        let (a_0, b_0) = self.build_matrices();
        proof {
            lemma_pow2_pos(self.k_log as nat);
        }
        BlockR1cs {
            m: n_paths_log + self.k_log,
            k_log: self.k_log,
            k_skip: K_SKIP,
            useful_bits: self.useful_bits,
            a_0,
            b_0,
            third_is_identity: true,
            layout: WitnessLayout::BatchMajor,
            const_pin: Some(CONST_POS),
        }
    }

    /// The block system with empty matrices, for the walker.
    pub fn build_block_r1cs_stub(&self, n_paths_log: usize) -> (r1cs: BlockR1cs)
        requires
            self.well_formed(),
            n_paths_log + self.k_log <= usize::MAX,
        ensures
            r1cs.well_formed(),
            r1cs.a_0.num_rows == self.width(),
            forall|r: int| 0 <= r < self.width() ==> (#[trigger] r1cs.a_0.row(r)).len() == 0,
            forall|r: int| 0 <= r < self.width() ==> (#[trigger] r1cs.b_0.row(r)).len() == 0,
            r1cs.m == n_paths_log + self.k_log,
            r1cs.k_log == self.k_log,
            r1cs.k_skip == K_SKIP,
            r1cs.useful_bits == self.useful_bits,
            r1cs.third_is_identity,
            r1cs.layout == WitnessLayout::BatchMajor,
            r1cs.const_pin == Some(0usize),
    {
        let k: usize = self.k();
        proof {
            lemma_pow2_pos(self.k_log as nat);
        }
        BlockR1cs {
            m: n_paths_log + self.k_log,
            k_log: self.k_log,
            k_skip: K_SKIP,
            useful_bits: self.useful_bits,
            a_0: empty_matrix(k),
            b_0: empty_matrix(k),
            third_is_identity: true,
            layout: WitnessLayout::BatchMajor,
            const_pin: Some(CONST_POS),
        }
    }
}

/// A square matrix without entries.
pub fn empty_matrix(k: usize) -> (m: SparseBinaryMatrix)
    ensures
        m.well_formed(),
        m.num_rows == k,
        m.num_cols == k,
        forall|r: int| 0 <= r < k ==> (#[trigger] m.row(r)).len() == 0,
{
    let mut rows: Vec<Vec<usize>> = Vec::new();
    while rows.len() < k
        invariant
            rows@.len() <= k,
            forall|r: int| 0 <= r < rows@.len() ==> (#[trigger] rows@[r])@.len() == 0,
        decreases k - rows@.len(),
    {
        rows.push(Vec::new());
    }
    let m = SparseBinaryMatrix { num_rows: k, num_cols: k, rows };
    proof {
        assert forall|r: int| 0 <= r < k implies (#[trigger] m.row(r)).len() == 0 by {
            assert(m.rows@[r]@.len() == 0);
        }
    }
    m
}

// ---------------------------------------------------------------------------
// What the rows say.
// ---------------------------------------------------------------------------

impl MerkleTreeLayout {
    /// The hash block of a level.
    pub open spec fn block(self, z: Seq<bool>, l: int) -> Seq<bool> {
        z.subrange(self.hash_at(l, 0), self.hash_at(l, 0) + self.spec.useful_bits)
    }

    /// The digest that enters a level, its sibling, and the two children.
    pub open spec fn prev(self, z: Seq<bool>, l: int) -> Seq<bool> {
        Seq::new(256, |j: int| z[self.prev_at(l, j)])
    }

    pub open spec fn sibling(self, z: Seq<bool>, l: int) -> Seq<bool> {
        Seq::new(256, |j: int| z[self.sibling_at(l, j)])
    }

    pub open spec fn left(self, block: Seq<bool>) -> Seq<bool> {
        block.subrange(self.spec.msg_base as int, self.spec.msg_base + 256)
    }

    pub open spec fn right(self, block: Seq<bool>) -> Seq<bool> {
        block.subrange(self.spec.msg_base + 256, self.spec.msg_base + 512)
    }

    pub open spec fn digest(self, block: Seq<bool>) -> Seq<bool> {
        block.subrange(self.spec.out_cv_base as int, self.spec.out_cv_base + 256)
    }

    /// A level: the products, the swap, and the base block's relation.
    pub open spec fn level_holds(self, z: Seq<bool>, l: int) -> bool {
        let block = self.block(z, l);
        let b = z[257 + l];
        &&& forall|j: int|
            0 <= j < 256 ==> z[#[trigger] self.t_at(l, j)] == (b && (self.prev(z, l)[j]
                != self.sibling(z, l)[j]))
        &&& self.left(block) == (if b {
            self.prev(z, l)
        } else {
            self.sibling(z, l)
        })
        &&& self.right(block) == (if b {
            self.sibling(z, l)
        } else {
            self.prev(z, l)
        })
        &&& self.spec.block_holds(block)
    }

    /// A path: every level, and zero padding.
    pub open spec fn path_holds(self, z: Seq<bool>) -> bool {
        &&& forall|l: int| 0 <= l < self.depth ==> #[trigger] self.level_holds(z, l)
        &&& forall|r: int| self.useful_bits <= r < self.width() ==> !(#[trigger] z[r])
    }

    /// The rows of column `r` hold.
    pub open spec fn column_holds(self, z: Seq<bool>, r: int) -> bool {
        let rows = self.rows_at(r, true);
        (lin_eval(rows.0, z) && lin_eval(rows.1, z)) == z[r]
    }
}

pub proof fn lemma_lin_one(x: usize, z: Seq<bool>)
    ensures
        lin_eval(seq![x], z) == z[x as int],
{
    reveal_with_fuel(lin_eval, 2);
    assert(seq![x].drop_last() =~= Seq::<usize>::empty());
}

pub proof fn lemma_lin_two(x: usize, y: usize, z: Seq<bool>)
    ensures
        lin_eval(seq![x, y], z) == (z[x as int] != z[y as int]),
{
    reveal_with_fuel(lin_eval, 3);
    assert(seq![x, y].drop_last() =~= seq![x]);
    assert(seq![x].drop_last() =~= Seq::<usize>::empty());
}

/// A moved row reads the window that it was moved to.
pub proof fn lemma_lin_shift(row: Seq<usize>, z: Seq<bool>, at: int, n: int)
    requires
        columns_below(row, n),
        0 <= at,
        at + n <= z.len() <= usize::MAX,
    ensures
        lin_eval(shifted(row, at), z) == lin_eval(row, z.subrange(at, at + n)),
    decreases row.len(),
{
    if row.len() > 0 {
        let rest = row.drop_last();
        assert forall|i: int| 0 <= i < rest.len() implies (#[trigger] rest[i]) < n by {
            assert(rest[i] == row[i]);
        }
        lemma_lin_shift(rest, z, at, n);
        assert(shifted(row, at).drop_last() =~= shifted(rest, at));
        assert(row.last() < n) by {
            assert(row[row.len() - 1] < n);
        }
    }
}

impl MerkleTreeLayout {
    /// What the rows of a level's columns say.
    proof fn lemma_level_rows(self, z: Seq<bool>, l: int)
        requires
            self.well_formed(),
            z.len() == self.width(),
            z[0],
            0 <= l < self.depth,
        ensures
            (forall|w: int|
                256 <= w < self.level_stride ==> self.column_holds(
                    z,
                    #[trigger] self.at(l, w),
                )) == self.level_holds(z, l),
    {
        let block = self.block(z, l);
        let b = z[257 + l];
        let (prev, sib) = (self.prev(z, l), self.sibling(z, l));
        self.lemma_level(l, 512);
        self.lemma_level(l, self.level_stride - 1);
        if forall|w: int|
            256 <= w < self.level_stride ==> self.column_holds(z, #[trigger] self.at(l, w)) {
            assert forall|j: int| 0 <= j < 256 implies z[#[trigger] self.t_at(l, j)] == (b && (
            prev[j] != sib[j])) by {
                assert(self.column_holds(z, self.at(l, 256 + j)));
                self.lemma_t_row(z, l, j);
            }
            assert forall|j: int| 0 <= j < 512 implies #[trigger] block[self.spec.msg_base + j]
                == self.child(z, l, j) by {
                assert(self.column_holds(z, self.at(l, 512 + self.spec.msg_base + j)));
                self.lemma_message_row(z, l, j);
                assert(z[self.t_at(l, j % 256)] == (b && (prev[j % 256] != sib[j % 256])));
            }
            self.lemma_children(z, l);
            self.lemma_const_row(z, l);
            assert(self.column_holds(z, self.at(l, 512 + self.spec.z_const_pos)));
            assert forall|i: int| 0 <= i < self.spec.fixed_bits@.len() implies block[(
            #[trigger] self.spec.fixed_bits@[i]).0 as int] == self.spec.fixed_bits@[i].1 by {
                self.lemma_pinned_row(z, l, i);
                assert(self.column_holds(z, self.at(l, 512 + self.spec.fixed_bits@[i].0)));
            }
            assert forall|c: int|
                0 <= c < self.spec.useful_bits && !self.spec.overridden(c) implies
                #[trigger] self.spec.base_row_holds(block, c) by {
                assert(self.column_holds(z, self.at(l, 512 + c)));
                self.lemma_base_row(z, l, c);
            }
        }
        if self.level_holds(z, l) {
            assert forall|w: int| 256 <= w < self.level_stride implies self.column_holds(
                z,
                #[trigger] self.at(l, w),
            ) by {
                if w < 512 {
                    self.lemma_t_row(z, l, w - 256);
                    assert(z[self.t_at(l, w - 256)] == (b && (prev[w - 256] != sib[w - 256])));
                } else {
                    let c = w - 512;
                    if exists|i: int|
                        0 <= i < self.spec.fixed_bits@.len() && (
                        #[trigger] self.spec.fixed_bits@[i]).0 == c {
                        let i = choose|i: int|
                            0 <= i < self.spec.fixed_bits@.len() && (
                            #[trigger] self.spec.fixed_bits@[i]).0 == c;
                        self.lemma_pinned_row(z, l, i);
                        assert(block[self.spec.fixed_bits@[i].0 as int]
                            == self.spec.fixed_bits@[i].1);
                    } else if c == self.spec.z_const_pos {
                        self.lemma_const_row(z, l);
                    } else if self.spec.in_message(c) {
                        let j = c - self.spec.msg_base;
                        self.lemma_message_row(z, l, j);
                        self.lemma_children(z, l);
                        assert(z[self.t_at(l, j % 256)] == (b && (prev[j % 256] != sib[j % 256])));
                        if j < 256 {
                            assert(self.left(block)[j] == block[c]);
                        } else {
                            assert(self.right(block)[j - 256] == block[c]);
                        }
                    } else {
                        assert(!self.spec.overridden(c));
                        assert(self.spec.base_row_holds(block, c));
                        self.lemma_base_row(z, l, c);
                    }
                }
            }
        }
    }

    /// Place `w` of a level.
    pub open spec fn at(self, l: int, w: int) -> int {
        self.level_at(l) + w
    }

    /// Bit `j` of the two children that the gadget puts in the message.
    pub open spec fn child(self, z: Seq<bool>, l: int, j: int) -> bool {
        let t = z[self.t_at(l, j % 256)];
        if j < 256 {
            self.sibling(z, l)[j] != t
        } else {
            self.prev(z, l)[j - 256] != t
        }
    }

    proof fn lemma_t_row(self, z: Seq<bool>, l: int, j: int)
        requires
            self.well_formed(),
            z.len() == self.width(),
            z[0],
            0 <= l < self.depth,
            0 <= j < 256,
        ensures
            self.column_holds(z, self.at(l, 256 + j)) == (z[self.t_at(l, j)] == (z[257 + l] && (
            self.prev(z, l)[j] != self.sibling(z, l)[j]))),
    {
        self.lemma_level(l, 256 + j);
        self.lemma_gadget(l, j);
        lemma_lin_one((257 + l) as usize, z);
        lemma_lin_two(self.prev_at(l, j) as usize, self.sibling_at(l, j) as usize, z);
    }

    pub proof fn lemma_message_row(self, z: Seq<bool>, l: int, j: int)
        requires
            self.well_formed(),
            z.len() == self.width(),
            z[0],
            0 <= l < self.depth,
            0 <= j < 512,
        ensures
            self.column_holds(z, self.at(l, 512 + self.spec.msg_base + j)) == (self.block(
                z,
                l,
            )[self.spec.msg_base + j] == self.child(z, l, j)),
    {
        let c = self.spec.msg_base + j;
        self.lemma_level(l, 512 + c);
        self.lemma_level(l, 512);
        self.lemma_level(l, self.level_stride - 1);
        assert(self.spec.in_message(c));
        assert(self.spec.pinned(c) is None) by {
            if exists|i: int|
                0 <= i < self.spec.fixed_bits@.len() && (#[trigger] self.spec.fixed_bits@[i]).0
                    == c {
                let i = choose|i: int|
                    0 <= i < self.spec.fixed_bits@.len() && (
                    #[trigger] self.spec.fixed_bits@[i]).0 == c;
                assert(!self.spec.in_message(self.spec.fixed_bits@[i].0 as int));
            }
        }
        lemma_lin_one(0, z);
        if j < 256 {
            self.lemma_gadget(l, j);
            lemma_lin_two(self.sibling_at(l, j) as usize, self.t_at(l, j) as usize, z);
        } else {
            self.lemma_gadget(l, j - 256);
            lemma_lin_two(self.prev_at(l, j - 256) as usize, self.t_at(l, j - 256) as usize, z);
        }
    }

    proof fn lemma_const_row(self, z: Seq<bool>, l: int)
        requires
            self.well_formed(),
            z.len() == self.width(),
            z[0],
            0 <= l < self.depth,
        ensures
            self.column_holds(z, self.at(l, 512 + self.spec.z_const_pos)) == self.block(
                z,
                l,
            )[self.spec.z_const_pos as int],
    {
        let c = self.spec.z_const_pos as int;
        self.lemma_level(l, 512 + c);
        self.lemma_level(l, 512);
        self.lemma_level(l, self.level_stride - 1);
        assert(self.spec.pinned(c) is None) by {
            if exists|i: int|
                0 <= i < self.spec.fixed_bits@.len() && (#[trigger] self.spec.fixed_bits@[i]).0
                    == c {
                let i = choose|i: int|
                    0 <= i < self.spec.fixed_bits@.len() && (
                    #[trigger] self.spec.fixed_bits@[i]).0 == c;
                assert(self.spec.fixed_bits@[i].0 != self.spec.z_const_pos);
            }
        }
        lemma_lin_one(0, z);
    }

    proof fn lemma_pinned_row(self, z: Seq<bool>, l: int, i: int)
        requires
            self.well_formed(),
            z.len() == self.width(),
            z[0],
            0 <= l < self.depth,
            0 <= i < self.spec.fixed_bits@.len(),
        ensures
            self.column_holds(z, self.at(l, 512 + self.spec.fixed_bits@[i].0)) == (self.block(
                z,
                l,
            )[self.spec.fixed_bits@[i].0 as int] == self.spec.fixed_bits@[i].1),
    {
        let c = self.spec.fixed_bits@[i].0 as int;
        self.lemma_level(l, 512 + c);
        self.lemma_level(l, 512);
        self.lemma_level(l, self.level_stride - 1);
        self.spec.lemma_pinned(i);
        lemma_lin_one(0, z);
        assert(!lin_eval(Seq::<usize>::empty(), z));
    }

    proof fn lemma_base_row(self, z: Seq<bool>, l: int, c: int)
        requires
            self.well_formed(),
            z.len() == self.width(),
            0 <= l < self.depth,
            0 <= c < self.spec.useful_bits,
            !self.spec.overridden(c),
        ensures
            self.column_holds(z, self.at(l, 512 + c)) == self.spec.base_row_holds(
                self.block(z, l),
                c,
            ),
    {
        self.lemma_level(l, 512 + c);
        self.lemma_level(l, 512);
        self.lemma_level(l, self.level_stride - 1);
        let at = self.hash_at(l, 0);
        let n = self.spec.useful_bits as int;
        assert(columns_below(self.spec.a.row(c), n));
        assert(columns_below(self.spec.b.row(c), n));
        lemma_lin_shift(self.spec.a.row(c), z, at, n);
        lemma_lin_shift(self.spec.b.row(c), z, at, n);
    }

    /// The gadget's children are the swapped pair.
    pub proof fn lemma_children(self, z: Seq<bool>, l: int)
        requires
            self.well_formed(),
            z.len() == self.width(),
            0 <= l < self.depth,
            forall|j: int|
                0 <= j < 256 ==> z[#[trigger] self.t_at(l, j)] == (z[257 + l] && (self.prev(
                    z,
                    l,
                )[j] != self.sibling(z, l)[j])),
        ensures
            (forall|j: int|
                0 <= j < 512 ==> #[trigger] self.block(z, l)[self.spec.msg_base + j] == self.child(
                    z,
                    l,
                    j,
                )) == (self.left(self.block(z, l)) == (if z[257 + l] {
                self.prev(z, l)
            } else {
                self.sibling(z, l)
            }) && self.right(self.block(z, l)) == (if z[257 + l] {
                self.sibling(z, l)
            } else {
                self.prev(z, l)
            })),
            forall|j: int|
                0 <= j < 512 ==> #[trigger] self.child(z, l, j) == (if (j < 256) == z[257 + l] {
                    self.prev(z, l)[j % 256]
                } else {
                    self.sibling(z, l)[j % 256]
                }),
    {
        let block = self.block(z, l);
        let b = z[257 + l];
        let (prev, sib) = (self.prev(z, l), self.sibling(z, l));
        self.lemma_level(l, 512);
        self.lemma_level(l, self.level_stride - 1);
        assert forall|j: int| 0 <= j < 512 implies #[trigger] self.child(z, l, j) == (if (j < 256)
            == b {
            prev[j % 256]
        } else {
            sib[j % 256]
        }) by {
            assert(z[self.t_at(l, j % 256)] == (b && (prev[j % 256] != sib[j % 256])));
        }
        let (x, y) = if b {
            (prev, sib)
        } else {
            (sib, prev)
        };
        if forall|j: int|
            0 <= j < 512 ==> #[trigger] block[self.spec.msg_base + j] == self.child(z, l, j) {
            assert forall|j: int| 0 <= j < 256 implies self.left(block)[j] == x[j] by {
                assert(block[self.spec.msg_base + j] == self.child(z, l, j));
            }
            assert forall|j: int| 0 <= j < 256 implies self.right(block)[j] == y[j] by {
                assert(block[self.spec.msg_base + (256 + j)] == self.child(z, l, 256 + j));
            }
            assert(self.left(block) =~= x);
            assert(self.right(block) =~= y);
        }
        if self.left(block) == x && self.right(block) == y {
            assert forall|j: int| 0 <= j < 512 implies #[trigger] block[self.spec.msg_base + j]
                == self.child(z, l, j) by {
                if j < 256 {
                    assert(self.left(block)[j] == block[self.spec.msg_base + j]);
                } else {
                    assert(self.right(block)[j - 256] == block[self.spec.msg_base + j]);
                }
            }
        }
    }

    /// The rows are the relation: with the constant set, all rows hold exactly
    /// when the padding is zero and every level swaps by its index bit, hashes
    /// the pair and passes the digest on.
    pub proof fn path_rows_are_the_relation(
        self,
        a: SparseBinaryMatrix,
        b: SparseBinaryMatrix,
        z: Seq<bool>,
    )
        requires
            self.well_formed(),
            self.has_rows(a, b, true),
            z.len() == self.width(),
            z[0],
        ensures
            (forall|r: int| 0 <= r < self.width() ==> #[trigger] row_holds(a, b, z, r))
                == self.path_holds(z),
    {
        lemma_pow2_pos(self.k_log as nat);
        assert forall|r: int| 0 <= r < self.width() implies #[trigger] row_holds(a, b, z, r)
            == self.column_holds(z, r) by {
            assert(a.row(r) == self.rows_at(r, true).0);
            assert(b.row(r) == self.rows_at(r, true).1);
        }
        if forall|r: int| 0 <= r < self.width() ==> #[trigger] row_holds(a, b, z, r) {
            assert forall|l: int| 0 <= l < self.depth implies #[trigger] self.level_holds(z, l) by {
                assert forall|w: int| 256 <= w < self.level_stride implies self.column_holds(
                    z,
                    #[trigger] self.at(l, w),
                ) by {
                    self.lemma_level(l, w);
                    assert(row_holds(a, b, z, self.at(l, w)));
                }
                self.lemma_level_rows(z, l);
            }
            assert forall|r: int| self.useful_bits <= r < self.width() implies !(
            #[trigger] z[r]) by {
                assert(row_holds(a, b, z, r));
                assert(!lin_eval(Seq::<usize>::empty(), z));
            }
        }
        if self.path_holds(z) {
            assert forall|r: int| 0 <= r < self.width() implies #[trigger] row_holds(
                a,
                b,
                z,
                r,
            ) by {
                lemma_lin_one(0, z);
                if r < self.levels_base {
                    lemma_lin_one(r as usize, z);
                } else if r >= self.useful_bits {
                    assert(!lin_eval(Seq::<usize>::empty(), z));
                    assert(!z[r]);
                } else {
                    self.lemma_place(r);
                    let l = (r - self.levels_base) / self.level_stride as int;
                    let w = (r - self.levels_base) % self.level_stride as int;
                    if w < 256 {
                        lemma_lin_one(r as usize, z);
                    } else {
                        assert(self.level_holds(z, l));
                        self.lemma_level_rows(z, l);
                        assert(self.column_holds(z, self.at(l, w)));
                        assert(self.at(l, w) == r);
                    }
                }
            }
        }
    }

    /// The digest after `l` levels of a path.
    pub open spec fn path_digest(
        self,
        hash: spec_fn(Seq<bool>, Seq<bool>) -> Seq<bool>,
        z: Seq<bool>,
        l: int,
    ) -> Seq<bool>
        decreases l,
    {
        if l <= 0 {
            z.subrange(1, 257)
        } else {
            let before = self.path_digest(hash, z, l - 1);
            let sib = self.sibling(z, l - 1);
            if z[257 + l - 1] {
                hash(before, sib)
            } else {
                hash(sib, before)
            }
        }
    }

    /// The root of a path: where every block that satisfies the base relation
    /// carries the hash of its message in its output, the root columns of a
    /// satisfied path carry the leaf hashed up along the index and siblings.
    pub proof fn path_root(
        self,
        hash: spec_fn(Seq<bool>, Seq<bool>) -> Seq<bool>,
        z: Seq<bool>,
        l: int,
    )
        requires
            self.well_formed(),
            z.len() == self.width(),
            self.path_holds(z),
            0 <= l <= self.depth,
            forall|block: Seq<bool>|
                block.len() == self.spec.useful_bits && #[trigger] self.spec.block_holds(block)
                    ==> self.digest(block) == hash(self.left(block), self.right(block)),
        ensures
            self.path_digest(hash, z, l) == (if l < self.depth {
                self.prev(z, l)
            } else {
                Seq::new(
                    256,
                    |j: int| z[self.hash_at(self.depth - 1, self.spec.out_cv_base + j)],
                )
            }),
        decreases l,
    {
        if l == 0 {
            self.lemma_level(0, 0);
            assert(self.prev(z, 0) =~= z.subrange(1, 257));
        } else {
            self.path_root(hash, z, l - 1);
            assert(self.level_holds(z, l - 1));
            let block = self.block(z, l - 1);
            self.lemma_level(l - 1, 512);
            self.lemma_level(l - 1, self.level_stride - 1);
            assert(block.len() == self.spec.useful_bits);
            assert(self.spec.block_holds(block));
            let after = Seq::new(
                256,
                |j: int| z[self.hash_at(l - 1, self.spec.out_cv_base + j)],
            );
            assert(self.digest(block) =~= after);
            if l < self.depth {
                assert(self.prev(z, l) =~= after);
            }
        }
    }
}

} // verus!
