//! Sparse binary constraint systems `(A z) & (B z) = z` over bit vectors.
use vstd::prelude::*;

use crate::prover::schedule::{TableShape, WitnessLayout};

verus! {

/// A sparse matrix over the two-element field: each row lists the columns of
/// its ones.
#[derive(Debug)]
pub struct SparseBinaryMatrix {
    pub num_rows: usize,
    pub num_cols: usize,
    pub rows: Vec<Vec<usize>>,
}

/// The parity of the bits that the row taps.
pub open spec fn lin_eval(row: Seq<usize>, z: Seq<bool>) -> bool
    decreases row.len(),
{
    if row.len() == 0 {
        false
    } else {
        lin_eval(row.drop_last(), z) != z[row.last() as int]
    }
}

/// The columns are strictly increasing.
pub open spec fn strictly_sorted(row: Seq<usize>) -> bool {
    forall|i: int, j: int| 0 <= i < j < row.len() ==> row[i] < row[j]
}

/// All columns are below `n`.
pub open spec fn columns_below(row: Seq<usize>, n: int) -> bool {
    forall|i: int| 0 <= i < row.len() ==> (#[trigger] row[i]) < n
}

impl SparseBinaryMatrix {
    /// Row `w` of the matrix.
    pub open spec fn row(self, w: int) -> Seq<usize> {
        self.rows@[w]@
    }

    /// The dimensions are the stored ones and all columns are in range.
    pub open spec fn well_formed(self) -> bool {
        &&& self.rows@.len() == self.num_rows
        &&& forall|w: int|
            0 <= w < self.num_rows ==> columns_below(#[trigger] self.row(w), self.num_cols as int)
    }
}

/// The constraint of row `w`: `(A z)_w & (B z)_w = z_w`.
pub open spec fn row_holds(
    a: SparseBinaryMatrix,
    b: SparseBinaryMatrix,
    z: Seq<bool>,
    w: int,
) -> bool {
    (lin_eval(a.row(w), z) && lin_eval(b.row(w), z)) == z[w]
}

/// The parity of the bits that the row taps.
pub fn eval_row(row: &Vec<usize>, z: &[bool]) -> (parity: bool)
    requires
        columns_below(row@, z@.len() as int),
    ensures
        parity == lin_eval(row@, z@),
{
    let mut parity = false;
    let mut i: usize = 0;
    while i < row.len()
        invariant
            columns_below(row@, z@.len() as int),
            i <= row@.len(),
            parity == lin_eval(row@.take(i as int), z@),
        decreases row@.len() - i,
    {
        let col: usize = row[i];
        parity = parity != z[col];
        assert(row@.take(i + 1).drop_last() =~= row@.take(i as int));
        i = i + 1;
    }
    assert(row@.take(i as int) =~= row@);
    parity
}

/// A block constraint system: the same `2^k_log` rows hold on each of the
/// `2^(m - k_log)` blocks of the witness. The layout is how the packed words of
/// the blocks lie; the rows' right sides are the witness itself where the third
/// matrix is the identity.
#[derive(Debug)]
pub struct BlockR1cs {
    pub m: usize,
    pub k_log: usize,
    pub k_skip: usize,
    pub useful_bits: usize,
    pub a_0: SparseBinaryMatrix,
    pub b_0: SparseBinaryMatrix,
    pub third_is_identity: bool,
    pub layout: WitnessLayout,
    pub const_pin: Option<usize>,
}

impl BlockR1cs {
    /// Both matrices are square of the block size, and the third is the
    /// identity.
    pub open spec fn well_formed(self) -> bool {
        &&& self.third_is_identity
        &&& self.a_0.well_formed()
        &&& self.b_0.well_formed()
        &&& self.a_0.num_rows > 0
        &&& self.a_0.num_rows == self.a_0.num_cols
        &&& self.b_0.num_rows == self.a_0.num_rows
        &&& self.b_0.num_cols == self.a_0.num_rows
    }

    /// Every row holds on every block of the witness.
    pub open spec fn holds(self, z: Seq<bool>) -> bool {
        let k = self.a_0.num_rows as int;
        forall|block: int, w: int|
            0 <= block < z.len() as int / k && 0 <= w < k ==> #[trigger] row_holds(
                self.a_0,
                self.b_0,
                block_of(z, k, block),
                w,
            )
    }

    /// What a proof of the system depends on.
    pub open spec fn shape(self) -> TableShape {
        TableShape {
            m: self.m,
            k_log: self.k_log,
            layout: self.layout,
            third_is_identity: self.third_is_identity,
        }
    }

    /// What a proof of the system depends on.
    pub fn table_shape(&self) -> (table: TableShape)
        ensures
            table == self.shape(),
            table.m == self.m,
            table.k_log == self.k_log,
            table.layout == self.layout,
            table.third_is_identity == self.third_is_identity,
    {
        TableShape {
            m: self.m,
            k_log: self.k_log,
            layout: self.layout,
            third_is_identity: self.third_is_identity,
        }
    }

    /// Check every row on every block of the witness.
    pub fn satisfies(&self, z: &[bool]) -> (ok: bool)
        requires
            self.well_formed(),
            z@.len() as int % self.a_0.num_rows as int == 0,
        ensures
            ok == self.holds(z@),
    {
        let k: usize = self.a_0.num_rows;
        let total: usize = z.len();
        let blocks: usize = total / k;
        let mut block: usize = 0;
        while block < blocks
            invariant
                self.well_formed(),
                k == self.a_0.num_rows,
                k > 0,
                total == z@.len(),
                blocks == z@.len() as int / k as int,
                block <= blocks,
                forall|c: int, w: int|
                    0 <= c < block && 0 <= w < k ==> #[trigger] row_holds(
                        self.a_0,
                        self.b_0,
                        block_of(z@, k as int, c),
                        w,
                    ),
            decreases blocks - block,
        {
            proof {
                lemma_block_bounds(z@.len() as int, k as int, block as int);
            }
            let start: usize = block * k;
            let part = copy_bits(z, start, k);
            assert(part@ == block_of(z@, k as int, block as int));
            let mut w: usize = 0;
            while w < k
                invariant
                    self.well_formed(),
                    k == self.a_0.num_rows,
                    part@.len() == k,
                    part@ == block_of(z@, k as int, block as int),
                    block < z@.len() as int / k as int,
                    w <= k,
                    forall|v: int|
                        0 <= v < w ==> #[trigger] row_holds(self.a_0, self.b_0, part@, v),
                decreases k - w,
            {
                assert(columns_below(self.a_0.row(w as int), k as int));
                assert(columns_below(self.b_0.row(w as int), k as int));
                let left = eval_row(&self.a_0.rows[w], part.as_slice());
                let right = eval_row(&self.b_0.rows[w], part.as_slice());
                if (left && right) != part[w] {
                    assert(!row_holds(self.a_0, self.b_0, part@, w as int));
                    assert(!row_holds(
                        self.a_0,
                        self.b_0,
                        block_of(z@, k as int, block as int),
                        w as int,
                    ));
                    return false;
                }
                w = w + 1;
            }
            block = block + 1;
        }
        true
    }
}

/// Block number `block` of a witness in blocks of `k` bits.
pub open spec fn block_of(z: Seq<bool>, k: int, block: int) -> Seq<bool> {
    z.subrange(block * k, block * k + k)
}

/// A block lies inside the witness.
pub proof fn lemma_block_bounds(len: int, k: int, block: int)
    requires
        0 < k,
        0 <= block < len / k,
    ensures
        0 <= block * k,
        block * k + k <= len,
{
    assert(block * k >= 0) by (nonlinear_arith)
        requires
            0 < k,
            0 <= block,
    ;
    assert(block * k + k <= len) by (nonlinear_arith)
        requires
            0 < k,
            block + 1 <= len / k,
    ;
}

/// A copy of `len` bits from `start`.
pub fn copy_bits(z: &[bool], start: usize, len: usize) -> (part: Vec<bool>)
    requires
        start + len <= z@.len(),
    ensures
        part@ == z@.subrange(start as int, start + len),
{
    let mut part: Vec<bool> = Vec::with_capacity(len);
    let total: usize = z.len();
    let mut i: usize = 0;
    while i < len
        invariant
            total == z@.len(),
            start + len <= z@.len(),
            i <= len,
            part@ == z@.subrange(start as int, start + i),
        decreases len - i,
    {
        part.push(z[start + i]);
        i = i + 1;
        assert(part@ =~= z@.subrange(start as int, start + i));
    }
    part
}

} // verus!
