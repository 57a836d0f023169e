//! The 128 x 128 bit transpose as one row of a boolean table.
//!
//! A row takes 128 words in and gives 128 words out; bit `i` of output word
//! `b` is bit `b` of input word `i`.
use vstd::prelude::*;

use crate::field::{coefficient, F128};
use crate::merkle_r1cs::{lemma_lin_one, K_SKIP};
use crate::packed_bits::{bit, packed_bit};
use crate::prover::schedule::WitnessLayout;
use crate::r1cs::{columns_below, lin_eval, row_holds, BlockR1cs, SparseBinaryMatrix};

verus! {

/// Words in, and words out.
pub const WORDS: usize = 128;

/// Whether a wired word is read or written by the table.
#[derive(Clone, Copy, Debug, PartialEq, Eq, Structural)]
pub enum Direction {
    Input,
    Output,
}

/// A word column of the table that is wired to the rest of a circuit.
#[derive(Clone, Copy, Debug, PartialEq, Eq, Structural)]
pub struct IoWord {
    pub column: usize,
    pub direction: Direction,
}

/// The table, one transpose per row of `2^16` columns.
///
/// Input word `i` stands in the columns `[128 i, 128 i + 128)`, output word
/// `b` in the columns `[16384 + 128 b, 16384 + 128 b + 128)`, and the
/// constant one in the column after them.
pub struct TransposeTable;

/// The wiring of word `w`: the inputs come first, then the outputs.
pub open spec fn wired(w: int) -> IoWord {
    IoWord {
        column: w as usize,
        direction: if w < WORDS {
            Direction::Input
        } else {
            Direction::Output
        },
    }
}

/// The column that row `r` of the left matrix taps: an input bit taps
/// itself, an output bit the input bit that it copies, the constant itself.
pub open spec fn tapped(r: int) -> Option<int> {
    if 0 <= r < 16384 {
        Some(r)
    } else if 16384 <= r < 32768 {
        Some(128 * ((r - 16384) % 128) + (r - 16384) / 128)
    } else if r == 32768 {
        Some(r)
    } else {
        None
    }
}

/// The left row: the tapped column alone, or nothing.
pub open spec fn left_row(r: int) -> Seq<usize> {
    match tapped(r) {
        Some(c) => seq![c as usize],
        None => seq![],
    }
}

/// The right row: the constant column wherever the left row taps.
pub open spec fn right_row(r: int) -> Seq<usize> {
    match tapped(r) {
        Some(_) => seq![32768usize],
        None => seq![],
    }
}

/// The transposed words: bit `i` of word `b` is bit `b` of word `i`.
pub open spec fn is_transpose(v: Seq<F128>, u: Seq<F128>) -> bool {
    &&& u.len() == 128
    &&& forall|b: int, i: int|
        0 <= b < 128 && 0 <= i < 128 ==> #[trigger] coefficient(u[b], i) == coefficient(v[i], b)
}

/// Bit `c` of the row that transposes `v`.
pub open spec fn row_bit(v: Seq<F128>, c: int) -> bool {
    if 0 <= c < 16384 {
        coefficient(v[c / 128], c % 128)
    } else if 16384 <= c < 32768 {
        coefficient(v[(c - 16384) % 128], (c - 16384) / 128)
    } else {
        c == 32768
    }
}

/// The row that transposes `v`.
pub open spec fn row_bits(v: Seq<F128>) -> Seq<bool> {
    Seq::new(65536, |c: int| row_bit(v, c))
}

/// Column `c` of a table row as a bit of the packed inputs.
proof fn lemma_packed(v: Seq<F128>, c: int)
    requires
        v.len() == 128,
        0 <= c < 16384,
    ensures
        packed_bit(v, c) == coefficient(v[c / 128], c % 128),
{
}

/// A tapped column is a column of the table.
proof fn lemma_tapped(r: int)
    ensures
        match tapped(r) {
            Some(c) => 0 <= c <= 32768,
            None => true,
        },
{
}

impl TransposeTable {
    pub const K_LOG: usize = 16;

    pub const V: usize = 0;

    pub const U: usize = 16384;

    pub const CONST: usize = 32768;

    pub const USEFUL_BITS: usize = 32769;

    /// Columns of a row.
    pub fn k() -> (columns: usize)
        ensures
            columns == 65536,
    {
        65536
    }

    /// The wired words: 128 inputs, then 128 outputs.
    pub fn io_schema() -> (words: Vec<IoWord>)
        ensures
            words@ == Seq::new(256, |w: int| wired(w)),
            words@.len() == 256,
            forall|w: int|
                0 <= w < 256 ==> (#[trigger] words@[w]).column == w && (words@[w].direction
                    == Direction::Input <==> w < 128),
    {
        let mut words: Vec<IoWord> = Vec::with_capacity(256);
        let mut w: usize = 0;
        while w < 256
            invariant
                w <= 256,
                words@ == Seq::new(w as nat, |x: int| wired(x)),
            decreases 256 - w,
        {
            let direction = if w < WORDS {
                Direction::Input
            } else {
                Direction::Output
            };
            words.push(IoWord { column: w, direction });
            w = w + 1;
            assert(words@ =~= Seq::new(w as nat, |x: int| wired(x)));
        }
        words
    }

    /// The two constraint matrices.
    pub fn build_matrices() -> (pair: (SparseBinaryMatrix, SparseBinaryMatrix))
        ensures
            has_rows(pair.0, pair.1),
    {
        let k: usize = 65536;
        let mut left: Vec<Vec<usize>> = Vec::with_capacity(k);
        let mut right: Vec<Vec<usize>> = Vec::with_capacity(k);
        let mut r: usize = 0;
        while r < k
            invariant
                k == 65536,
                r <= k,
                left@.len() == r,
                right@.len() == r,
                forall|w: int| 0 <= w < r ==> (#[trigger] left@[w])@ == left_row(w),
                forall|w: int| 0 <= w < r ==> (#[trigger] right@[w])@ == right_row(w),
            decreases k - r,
        {
            let mut left_taps: Vec<usize> = Vec::new();
            let mut right_taps: Vec<usize> = Vec::new();
            if r <= 32768 {
                if 16384 <= r && r < 32768 {
                    left_taps.push(128 * ((r - 16384) % 128) + (r - 16384) / 128);
                } else {
                    left_taps.push(r);
                }
                right_taps.push(32768);
            }
            assert(left_taps@ =~= left_row(r as int));
            assert(right_taps@ =~= right_row(r as int));
            left.push(left_taps);
            right.push(right_taps);
            r = r + 1;
        }
        let a = SparseBinaryMatrix { num_rows: k, num_cols: k, rows: left };
        let b = SparseBinaryMatrix { num_rows: k, num_cols: k, rows: right };
        proof {
            assert forall|w: int| 0 <= w < k implies columns_below(#[trigger] a.row(w), k as int) by {
                lemma_tapped(w);
            }
            assert forall|w: int| 0 <= w < k implies columns_below(#[trigger] b.row(w), k as int) by {
                lemma_tapped(w);
            }
        }
        (a, b)
    }

    /// The constraint system of `2^n_log` rows.
    pub fn build_block_r1cs(n_log: usize) -> (r1cs: BlockR1cs)
        requires
            n_log + 16 <= usize::MAX,
        ensures
            r1cs.well_formed(),
            has_rows(r1cs.a_0, r1cs.b_0),
            r1cs.m == n_log + 16,
            r1cs.k_log == 16,
            r1cs.k_skip == K_SKIP,
            r1cs.useful_bits == 32769,
            r1cs.third_is_identity,
            r1cs.layout == WitnessLayout::BatchMajor,
            r1cs.const_pin == Some(32768usize),
    {
        let (a_0, b_0) = Self::build_matrices();
        BlockR1cs {
            m: n_log + 16,
            k_log: 16,
            k_skip: K_SKIP,
            useful_bits: 32769,
            a_0,
            b_0,
            third_is_identity: true,
            layout: WitnessLayout::BatchMajor,
            const_pin: Some(32768),
        }
    }

    /// The row that transposes the 128 words of `v`, with its images under
    /// the two matrices.
    pub fn build_witness(v: &[F128]) -> (row: [Vec<bool>; 3])
        requires
            v@.len() == 128,
        ensures
            row@[0]@ == row_bits(v@),
            row@[1]@ == Seq::new(65536, |r: int| lin_eval(left_row(r), row_bits(v@))),
            row@[2]@ == Seq::new(65536, |r: int| lin_eval(right_row(r), row_bits(v@))),
    {
        let k: usize = 65536;
        let mut z: Vec<bool> = Vec::with_capacity(k);
        let mut a: Vec<bool> = Vec::with_capacity(k);
        let mut b: Vec<bool> = Vec::with_capacity(k);
        let ghost full = row_bits(v@);
        let mut c: usize = 0;
        while c < k
            invariant
                k == 65536,
                v@.len() == 128,
                full == row_bits(v@),
                c <= k,
                z@ == Seq::new(c as nat, |r: int| row_bit(v@, r)),
                a@ == Seq::new(c as nat, |r: int| lin_eval(left_row(r), full)),
                b@ == Seq::new(c as nat, |r: int| lin_eval(right_row(r), full)),
            decreases k - c,
        {
            let set = if c < 16384 {
                proof {
                    lemma_packed(v@, c as int);
                }
                bit(v, c)
            } else if c < 32768 {
                let from: usize = 128 * ((c - 16384) % 128) + (c - 16384) / 128;
                proof {
                    lemma_packed(v@, from as int);
                    assert(from / 128 == (c - 16384) % 128 && from % 128 == (c - 16384) / 128);
                }
                bit(v, from)
            } else {
                c == 32768
            };
            proof {
                lemma_row_images(v@, c as int);
            }
            z.push(set);
            a.push(set);
            b.push(c <= 32768);
            c = c + 1;
            assert(z@ =~= Seq::new(c as nat, |r: int| row_bit(v@, r)));
            assert(a@ =~= Seq::new(c as nat, |r: int| lin_eval(left_row(r), full)));
            assert(b@ =~= Seq::new(c as nat, |r: int| lin_eval(right_row(r), full)));
        }
        assert(z@ =~= row_bits(v@));
        [z, a, b]
    }
}

/// The matrices are the square ones with the table's rows.
pub open spec fn has_rows(a: SparseBinaryMatrix, b: SparseBinaryMatrix) -> bool {
    &&& a.well_formed()
    &&& b.well_formed()
    &&& a.num_rows == 65536 && a.num_cols == 65536
    &&& b.num_rows == 65536 && b.num_cols == 65536
    &&& forall|r: int| 0 <= r < 65536 ==> #[trigger] a.row(r) == left_row(r)
    &&& forall|r: int| 0 <= r < 65536 ==> #[trigger] b.row(r) == right_row(r)
}

/// The images of a transposing row: the left one is the row itself, the right
/// one the constant on the useful columns.
proof fn lemma_row_images(v: Seq<F128>, r: int)
    requires
        v.len() == 128,
        0 <= r < 65536,
    ensures
        lin_eval(left_row(r), row_bits(v)) == row_bit(v, r),
        lin_eval(right_row(r), row_bits(v)) == (r <= 32768),
{
    let z = row_bits(v);
    match tapped(r) {
        Some(c) => {
            lemma_tapped(r);
            lemma_lin_one(c as usize, z);
            lemma_lin_one(32768usize, z);
            assert(left_row(r) =~= seq![c as usize]);
            if 16384 <= r < 32768 {
                assert(c / 128 == (r - 16384) % 128 && c % 128 == (r - 16384) / 128);
            }
        },
        None => {},
    }
}

/// The row that transposes any 128 words satisfies the table, its images are
/// the matrix products, and its output words are the bit transpose of its
/// input words.
pub proof fn transpose_row_holds(a: SparseBinaryMatrix, b: SparseBinaryMatrix, v: Seq<F128>, u: Seq<F128>)
    requires
        has_rows(a, b),
        v.len() == 128,
        is_transpose(v, u),
    ensures
        forall|r: int| 0 <= r < 65536 ==> #[trigger] row_holds(a, b, row_bits(v), r),
        forall|w: int, t: int|
            0 <= w < 128 && 0 <= t < 128 ==> #[trigger] row_bits(v)[16384 + 128 * w + t]
                == coefficient(u[w], t),
{
    assert forall|r: int| 0 <= r < 65536 implies #[trigger] row_holds(a, b, row_bits(v), r) by {
        lemma_row_images(v, r);
        assert(a.row(r) == left_row(r));
        assert(b.row(r) == right_row(r));
    }
    assert forall|w: int, t: int| 0 <= w < 128 && 0 <= t < 128 implies #[trigger] row_bits(v)[16384
        + 128 * w + t] == coefficient(u[w], t) by {
        let c = 16384 + 128 * w + t;
        assert((c - 16384) % 128 == t && (c - 16384) / 128 == w);
        assert(coefficient(u[w], t) == coefficient(v[t], w));
    }
}

/// Whatever row satisfies the table with its constant set has the transpose
/// of its input words as its output words.
pub proof fn table_forces_transpose(a: SparseBinaryMatrix, b: SparseBinaryMatrix, z: Seq<bool>)
    requires
        has_rows(a, b),
        z.len() == 65536,
        z[32768],
        forall|r: int| 0 <= r < 65536 ==> #[trigger] row_holds(a, b, z, r),
    ensures
        forall|w: int, t: int|
            0 <= w < 128 && 0 <= t < 128 ==> #[trigger] z[16384 + 128 * w + t] == z[128 * t + w],
{
    assert forall|w: int, t: int| 0 <= w < 128 && 0 <= t < 128 implies #[trigger] z[16384 + 128 * w
        + t] == z[128 * t + w] by {
        let r = 16384 + 128 * w + t;
        assert(row_holds(a, b, z, r));
        assert((r - 16384) % 128 == t && (r - 16384) / 128 == w);
        lemma_lin_one((128 * t + w) as usize, z);
        lemma_lin_one(32768usize, z);
        assert(a.row(r) =~= seq![(128 * t + w) as usize]);
        assert(b.row(r) =~= seq![32768usize]);
    }
}

/// The wired words are the transpose's: bit `t` of word column `w` is a bit of
/// input word `w` where the column is wired as an input, and where it is wired
/// as an output a bit of the transposed word.
pub proof fn wired_words_are_the_transpose(v: Seq<F128>, u: Seq<F128>, w: int, t: int)
    requires
        v.len() == 128,
        is_transpose(v, u),
        0 <= w < 256,
        0 <= t < 128,
    ensures
        wired(w).direction == Direction::Input ==> w < 128 && row_bits(
            v,
        )[128 * wired(w).column + t] == coefficient(v[w], t),
        wired(w).direction == Direction::Output ==> w >= 128 && row_bits(
            v,
        )[128 * wired(w).column + t] == coefficient(u[w - 128], t),
{
    let c = 128 * w + t;
    if w < 128 {
        assert(c / 128 == w && c % 128 == t);
    } else {
        assert((c - 16384) / 128 == w - 128 && (c - 16384) % 128 == t);
        assert(coefficient(u[w - 128], t) == coefficient(v[t], w - 128));
    }
}

} // verus!
