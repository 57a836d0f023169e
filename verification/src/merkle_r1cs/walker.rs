//! The column marginals of a path block, without a copy of the base rows per
//! level.
//!
//! Level `l`'s kept rows are the base rows with rows and columns moved by one
//! offset, so one transposed base serves every level; the other rows are
//! transposed once over the whole block.
use vstd::prelude::*;

use crate::field::{fadd, fmul, fzero, lemma_fadd_comm, lemma_fadd_zero, F128};
use crate::merkle_r1cs::csc::{
    column_sum, hits, lemma_stored, list_sum, row_share, segment, transposable, Csc,
};
use crate::merkle_r1cs::{shifted, HashSpec, MerkleTreeLayout, CONST_POS, SLOT_BITS};
use crate::r1cs::{columns_below, SparseBinaryMatrix};
use crate::sums::{fsum, lemma_fsum_add, lemma_fsum_congr, lemma_fsum_split, lemma_fsum_zero};

verus! {

/// The transposed base and the transposed other rows, with the block's shape.
#[derive(Debug)]
pub struct MerkleWalkerCircuit {
    pub n_cols: usize,
    pub depth: usize,
    pub levels_base: usize,
    pub level_stride: usize,
    pub base_useful: usize,
    pub base: Csc,
    pub extras: Csc,
    pub const_pin: Option<usize>,
}

/// The base rows that the path keeps.
pub open spec fn kept_row(spec: HashSpec, m: SparseBinaryMatrix, c: int) -> Seq<usize> {
    if spec.overridden(c) {
        Seq::empty()
    } else {
        m.row(c)
    }
}

/// A base matrix with the replaced rows emptied.
pub open spec fn strips(spec: HashSpec, m: SparseBinaryMatrix, kept: SparseBinaryMatrix) -> bool {
    &&& kept.well_formed()
    &&& kept.num_rows == m.num_rows
    &&& kept.num_cols == m.num_cols
    &&& forall|c: int| 0 <= c < m.num_rows ==> #[trigger] kept.row(c) == kept_row(spec, m, c)
}

impl HashSpec {
    /// A base matrix with the replaced rows emptied.
    fn strip(&self, m: &SparseBinaryMatrix) -> (kept: SparseBinaryMatrix)
        requires
            self.well_formed(),
            self.rows_useful(*m),
        ensures
            strips(*self, *m, kept),
    {
        let pins = self.pins();
        let mut rows: Vec<Vec<usize>> = Vec::new();
        let mut c: usize = 0;
        while c < m.num_rows
            invariant
                self.well_formed(),
                self.rows_useful(*m),
                pins@ == Seq::new(self.useful_bits as nat, |c: int| self.pinned(c)),
                c <= m.num_rows,
                rows@.len() == c,
                forall|i: int| 0 <= i < c ==> (#[trigger] rows@[i])@ == kept_row(*self, *m, i),
            decreases m.num_rows - c,
        {
            let ghost before = rows@;
            let replaced: bool = c < self.useful_bits && (c == self.z_const_pos || (c
                >= self.msg_base && c - self.msg_base < 2 * SLOT_BITS) || pins[c].is_some());
            proof {
                if c >= self.useful_bits {
                    assert(m.row(c as int).len() == 0);
                    assert(kept_row(*self, *m, c as int) =~= Seq::<usize>::empty());
                } else {
                    assert(pins@[c as int] == self.pinned(c as int));
                }
            }
            let mut row: Vec<usize> = Vec::new();
            if !replaced {
                let source = &m.rows[c];
                let mut i: usize = 0;
                while i < source.len()
                    invariant
                        i <= source@.len(),
                        row@ == source@.take(i as int),
                    decreases source@.len() - i,
                {
                    row.push(source[i]);
                    i = i + 1;
                    assert(row@ =~= source@.take(i as int));
                }
                assert(row@ =~= m.row(c as int));
            }
            assert(row@ =~= kept_row(*self, *m, c as int));
            rows.push(row);
            c = c + 1;
        }
        let kept = SparseBinaryMatrix { num_rows: m.num_rows, num_cols: m.num_cols, rows };
        proof {
            assert forall|c: int| 0 <= c < m.num_rows implies #[trigger] kept.row(c) == kept_row(
                *self,
                *m,
                c,
            ) && columns_below(kept.row(c), m.num_cols as int) by {
                assert(kept.rows@[c]@ == kept_row(*self, *m, c));
                assert(columns_below(m.row(c), m.num_cols as int));
            }
        }
        kept
    }
}

impl MerkleTreeLayout {
    /// All transposed matrices have 32-bit indices.
    pub open spec fn walkable(self) -> bool {
        &&& forall|kept: SparseBinaryMatrix|
            #[trigger] strips(self.spec, self.spec.a, kept) ==> transposable(kept)
        &&& forall|kept: SparseBinaryMatrix|
            #[trigger] strips(self.spec, self.spec.b, kept) ==> transposable(kept)
        &&& forall|a: SparseBinaryMatrix, b: SparseBinaryMatrix|
            #[trigger] self.has_rows(a, b, false) ==> transposable(a) && transposable(b)
    }

    /// The walker of the layout.
    pub fn build_walker(&self) -> (walker: MerkleWalkerCircuit)
        requires
            self.well_formed(),
            self.walkable(),
        ensures
            walker.well_formed(),
            walker.walks(*self),
    {
        let kept_a = self.spec.strip(&self.spec.a);
        let kept_b = self.spec.strip(&self.spec.b);
        let base = Csc::pair(&kept_a, &kept_b);
        let (extra_a, extra_b) = self.extras();
        let extras = Csc::pair(&extra_a, &extra_b);
        let n_cols: usize = self.k();
        let walker = MerkleWalkerCircuit {
            n_cols,
            depth: self.depth,
            levels_base: self.levels_base,
            level_stride: self.level_stride,
            base_useful: self.spec.useful_bits,
            base,
            extras,
            const_pin: Some(CONST_POS),
        };
        proof {
            let w = Seq::<F128>::empty();
            assert forall|c: int| 0 <= c < n_cols implies #[trigger] extras.column_in_range(
                c,
                0,
                n_cols as int,
            ) by {
                lemma_stored(extras.a_col_ptr@, extras.a_rows@, extra_a, c, w, 0);
                lemma_stored(extras.b_col_ptr@, extras.b_rows@, extra_b, c, w, 0);
            }
            assert forall|c: int, off: int|
                0 <= c < self.spec.useful_bits implies #[trigger] base.column_in_range(
                c,
                off,
                off + self.spec.useful_bits,
            ) by {
                lemma_stored(base.a_col_ptr@, base.a_rows@, kept_a, c, w, 0);
                lemma_stored(base.b_col_ptr@, base.b_rows@, kept_b, c, w, 0);
                assert forall|k: int|
                    base.a_col_ptr@[c] <= k < base.a_col_ptr@[c + 1] implies off + (
                #[trigger] base.a_rows@[k]) < off + self.spec.useful_bits by {
                    self.lemma_kept_useful(self.spec.a, kept_a, base.a_rows@[k] as int);
                }
                assert forall|k: int|
                    base.b_col_ptr@[c] <= k < base.b_col_ptr@[c + 1] implies off + (
                #[trigger] base.b_rows@[k]) < off + self.spec.useful_bits by {
                    self.lemma_kept_useful(self.spec.b, kept_b, base.b_rows@[k] as int);
                }
            }
            self.lemma_level(0, 0);
            assert(walker.walks(*self)) by {
                assert(strips(self.spec, self.spec.a, kept_a));
                assert(strips(self.spec, self.spec.b, kept_b));
                assert(self.has_rows(extra_a, extra_b, false));
                assert(walker.transposed(*self, kept_a, kept_b, extra_a, extra_b));
            }
        }
        walker
    }

    /// A kept row with entries is a useful one.
    proof fn lemma_kept_useful(self, m: SparseBinaryMatrix, kept: SparseBinaryMatrix, r: int)
        requires
            self.well_formed(),
            self.spec.rows_useful(m),
            strips(self.spec, m, kept),
            0 <= r < kept.num_rows,
            kept.row(r).len() > 0,
        ensures
            r < self.spec.useful_bits,
    {
        if r >= self.spec.useful_bits {
            assert(m.row(r).len() == 0);
        }
    }
}

impl MerkleWalkerCircuit {
    /// The stored columns are in range, and the levels fit the block.
    pub open spec fn well_formed(self) -> bool {
        &&& self.level_stride == 512 + self.base_useful
        &&& self.levels_base + self.depth * self.level_stride <= self.n_cols
        &&& forall|c: int|
            0 <= c < self.n_cols ==> #[trigger] self.extras.column_in_range(
                c,
                0,
                self.n_cols as int,
            )
        &&& forall|c: int, off: int|
            0 <= c < self.base_useful ==> #[trigger] self.base.column_in_range(
                c,
                off,
                off + self.base_useful,
            )
    }

    /// The walker holds the columns of the given matrices.
    pub open spec fn transposed(
        self,
        layout: MerkleTreeLayout,
        kept_a: SparseBinaryMatrix,
        kept_b: SparseBinaryMatrix,
        extra_a: SparseBinaryMatrix,
        extra_b: SparseBinaryMatrix,
    ) -> bool {
        &&& strips(layout.spec, layout.spec.a, kept_a)
        &&& strips(layout.spec, layout.spec.b, kept_b)
        &&& layout.has_rows(extra_a, extra_b, false)
        &&& transposable(kept_a)
        &&& transposable(kept_b)
        &&& transposable(extra_a)
        &&& transposable(extra_b)
        &&& self.base.of(kept_a, kept_b)
        &&& self.extras.of(extra_a, extra_b)
    }

    /// The walker is that of the layout.
    pub open spec fn walks(self, layout: MerkleTreeLayout) -> bool {
        &&& self.n_cols == layout.width()
        &&& self.depth == layout.depth
        &&& self.levels_base == layout.levels_base
        &&& self.level_stride == layout.level_stride
        &&& self.base_useful == layout.spec.useful_bits
        &&& self.const_pin == Some(0usize)
        &&& exists|
            kept_a: SparseBinaryMatrix,
            kept_b: SparseBinaryMatrix,
            extra_a: SparseBinaryMatrix,
            extra_b: SparseBinaryMatrix,
        | #[trigger]
            self.transposed(layout, kept_a, kept_b, extra_a, extra_b)
    }

    /// The bytes of the stored indices.
    pub fn resident_bytes(&self) -> (bytes: usize)
        requires
            4 * (self.base.size() + self.extras.size()) <= usize::MAX,
        ensures
            bytes == 4 * (self.base.size() + self.extras.size()),
            bytes == 4 * (self.base.a_col_ptr@.len() + self.base.a_rows@.len()
                + self.base.b_col_ptr@.len() + self.base.b_rows@.len()
                + self.extras.a_col_ptr@.len() + self.extras.a_rows@.len()
                + self.extras.b_col_ptr@.len() + self.extras.b_rows@.len()),
    {
        let base: usize = 4 * (self.base.a_col_ptr.len() + self.base.a_rows.len()
            + self.base.b_col_ptr.len() + self.base.b_rows.len());
        let extras: usize = 4 * (self.extras.a_col_ptr.len() + self.extras.a_rows.len()
            + self.extras.b_col_ptr.len() + self.extras.b_rows.len());
        base + extras
    }

    /// The entries that one fold visits.
    pub fn effective_nnz(&self) -> (count: usize)
        requires
            self.depth * self.base.entries() + self.extras.entries() <= usize::MAX,
        ensures
            count == self.depth * self.base.entries() + self.extras.entries(),
            count == self.depth * (self.base.a_rows@.len() + self.base.b_rows@.len())
                + self.extras.a_rows@.len() + self.extras.b_rows@.len(),
    {
        let (ba, bb) = self.base.nnz();
        let (xa, xb) = self.extras.nnz();
        if self.depth == 0 {
            assert(self.depth * self.base.entries() == 0) by (nonlinear_arith)
                requires
                    self.depth == 0,
            ;
            return xa + xb;
        }
        assert(self.base.entries() <= self.depth * self.base.entries()) by (nonlinear_arith)
            requires
                self.depth >= 1,
                self.base.entries() >= 0,
        ;
        self.depth * (ba + bb) + xa + xb
    }

    /// The level and base column of a column inside a hash block.
    pub open spec fn decoded(self, c: int) -> Option<(int, int)> {
        let off = c - self.levels_base;
        let l = off / self.level_stride as int;
        let w = off % self.level_stride as int;
        if c < self.levels_base || l >= self.depth || w < 512 {
            None
        } else {
            Some((l, w - 512))
        }
    }

    /// The first column of a level's hash block.
    pub open spec fn hash_base_at(self, l: int) -> int {
        self.levels_base + l * self.level_stride + 512
    }

    /// Decode a column into its level and base column, if it is in a hash
    /// block.
    pub fn decode(&self, c: usize) -> (place: Option<(usize, usize)>)
        requires
            self.level_stride == 512 + self.base_useful,
        ensures
            match place {
                Some((l, w)) => self.decoded(c as int) == Some((l as int, w as int)),
                None => self.decoded(c as int) is None,
            },
    {
        if c < self.levels_base {
            return None;
        }
        let off: usize = c - self.levels_base;
        let level: usize = off / self.level_stride;
        if level >= self.depth {
            return None;
        }
        let within: usize = off % self.level_stride;
        if within < 2 * SLOT_BITS {
            return None;
        }
        Some((level, within - 2 * SLOT_BITS))
    }

    /// The first column of a level's hash block, which is also the row offset
    /// of its base rows.
    pub fn hash_base(&self, level: usize) -> (c: usize)
        requires
            self.well_formed(),
            level < self.depth,
        ensures
            c == self.hash_base_at(level as int),
            c + self.base_useful <= self.n_cols,
    {
        let ghost s = self.level_stride as int;
        assert(0 <= level * s && level * s + s <= self.depth * s) by (nonlinear_arith)
            requires
                level < self.depth,
                0 <= s,
        ;
        self.levels_base + level * self.level_stride + 2 * SLOT_BITS
    }

    /// The marginals of column `c` in the two matrices.
    pub open spec fn marginals(self, c: int, eq: Seq<F128>) -> (F128, F128) {
        let xa = list_sum(segment(self.extras.a_col_ptr@, self.extras.a_rows@, c), eq, 0);
        let xb = list_sum(segment(self.extras.b_col_ptr@, self.extras.b_rows@, c), eq, 0);
        match self.decoded(c) {
            None => (xa, xb),
            Some((l, w)) => (
                fadd(
                    xa,
                    list_sum(
                        segment(self.base.a_col_ptr@, self.base.a_rows@, w),
                        eq,
                        self.hash_base_at(l),
                    ),
                ),
                fadd(
                    xb,
                    list_sum(
                        segment(self.base.b_col_ptr@, self.base.b_rows@, w),
                        eq,
                        self.hash_base_at(l),
                    ),
                ),
            ),
        }
    }

    /// `alpha` times the first matrix's marginals plus the second's, under the
    /// given row weights.
    pub fn fold_alpha_batched(&self, alpha: F128, eq_inner: &[F128]) -> (out: Vec<F128>)
        requires
            self.well_formed(),
            eq_inner@.len() == self.n_cols,
        ensures
            out@ == Seq::new(
                self.n_cols as nat,
                |c: int|
                    fadd(
                        fmul(alpha, self.marginals(c, eq_inner@).0),
                        self.marginals(c, eq_inner@).1,
                    ),
            ),
    {
        let mut out: Vec<F128> = Vec::new();
        let mut c: usize = 0;
        while c < self.n_cols
            invariant
                self.well_formed(),
                eq_inner@.len() == self.n_cols,
                c <= self.n_cols,
                out@.len() == c,
                forall|i: int|
                    0 <= i < c ==> #[trigger] out@[i] == fadd(
                        fmul(alpha, self.marginals(i, eq_inner@).0),
                        self.marginals(i, eq_inner@).1,
                    ),
            decreases self.n_cols - c,
        {
            assert(self.extras.column_in_range(c as int, 0, self.n_cols as int));
            let (mut sa, mut sb) = self.extras.gather(c, eq_inner, 0);
            match self.decode(c) {
                Some((level, base_column)) => {
                    proof {
                        self.lemma_decoded(c as int);
                    }
                    let at = self.hash_base(level);
                    proof {
                        assert(self.base.column_in_range(
                            base_column as int,
                            at as int,
                            at + self.base_useful,
                        ));
                    }
                    let (ba, bb) = self.base.gather(base_column, eq_inner, at);
                    sa = sa + ba;
                    sb = sb + bb;
                },
                None => {},
            }
            out.push(alpha * sa + sb);
            c = c + 1;
        }
        assert(out@ =~= Seq::new(
            self.n_cols as nat,
            |c: int|
                fadd(
                    fmul(alpha, self.marginals(c, eq_inner@).0),
                    self.marginals(c, eq_inner@).1,
                ),
        ));
        out
    }

    proof fn lemma_decoded(self, c: int)
        requires
            self.level_stride == 512 + self.base_useful,
            self.decoded(c) is Some,
        ensures
            match self.decoded(c) {
                Some((l, w)) => 0 <= l < self.depth && 0 <= w < self.base_useful && c
                    == self.hash_base_at(l) + w,
                None => true,
            },
    {
        let s = self.level_stride as int;
        let off = c - self.levels_base;
        vstd::arithmetic::div_mod::lemma_fundamental_div_mod(off, s);
        vstd::arithmetic::div_mod::lemma_mod_bound(off, s);
        vstd::arithmetic::div_mod::lemma_div_pos_is_pos(off, s);
        let l = off / s;
        assert(s * l == l * s) by (nonlinear_arith);
    }
}

impl Csc {
    /// The stored indices.
    pub open spec fn size(self) -> nat {
        self.a_col_ptr@.len() + self.a_rows@.len() + self.b_col_ptr@.len() + self.b_rows@.len()
    }

    /// The stored entries.
    pub open spec fn entries(self) -> nat {
        self.a_rows@.len() + self.b_rows@.len()
    }
}

// ---------------------------------------------------------------------------
// The walker is the matrices.
// ---------------------------------------------------------------------------

proof fn lemma_hits_shift(row: Seq<usize>, at: int, c: int, t: int, n: int)
    requires
        columns_below(row, n),
        0 <= t <= row.len(),
        0 <= at,
        at + n <= usize::MAX,
    ensures
        hits(shifted(row, at), c, t) == hits(row, c - at, t),
        !(at <= c < at + n) ==> hits(shifted(row, at), c, t) == 0,
    decreases t,
{
    if t > 0 {
        lemma_hits_shift(row, at, c, t - 1, n);
        assert(row[t - 1] < n);
        assert(shifted(row, at)[t - 1] == row[t - 1] + at);
    }
}

/// A window sum.
proof fn lemma_window(f: spec_fn(int) -> F128, at: int, n: int, total: int)
    requires
        0 <= at,
        0 <= n,
        at + n <= total,
        forall|r: int| 0 <= r < total && !(at <= r < at + n) ==> #[trigger] f(r) == fzero(),
    ensures
        fsum(f, total) == fsum(|i: int| f(at + i), n),
{
    lemma_fsum_split(f, at, total - at);
    let g = |i: int| f(at + i);
    lemma_fsum_split(g, n, total - at - n);
    lemma_fsum_zero(f, at);
    let h = |i: int| g(n + i);
    assert forall|i: int| 0 <= i < total - at - n implies #[trigger] h(i) == fzero() by {
        assert(f(at + (n + i)) == fzero());
    }
    lemma_fsum_zero(h, total - at - n);
    lemma_fsum_congr(h, |i: int| g(n + i), total - at - n);
    lemma_fsum_congr(g, |i: int| f(at + i), total - at);
    lemma_fsum_congr(g, |i: int| f(at + i), n);
    lemma_fadd_zero(fsum(g, n));
    lemma_fadd_comm(fsum(g, n), fzero());
}

impl MerkleTreeLayout {
    /// The kept base row that column `r` copies, in one of the matrices.
    spec fn copied(self, m: SparseBinaryMatrix, r: int) -> Seq<usize> {
        let l = (r - self.levels_base) / self.level_stride as int;
        let w = (r - self.levels_base) % self.level_stride as int;
        if self.levels_base <= r < self.useful_bits && w >= 512 {
            shifted(kept_row(self.spec, m, w - 512), self.hash_at(l, 0))
        } else {
            Seq::empty()
        }
    }

    /// The copied rows' share of a column is the base's column sum at the
    /// level's offset.
    proof fn lemma_copied_sum(
        self,
        walker: MerkleWalkerCircuit,
        m: SparseBinaryMatrix,
        kept: SparseBinaryMatrix,
        c: int,
        eq: Seq<F128>,
    )
        requires
            self.well_formed(),
            self.spec.rows_useful(m),
            strips(self.spec, m, kept),
            walker.walks(self),
            0 <= c < self.width(),
            eq.len() == self.width(),
        ensures
            fsum(|r: int| row_share(self.copied(m, r), c, eq[r]), self.width()) == (
            match walker.decoded(c) {
                None => fzero(),
                Some((l, w)) => column_sum(kept, w, eq, walker.hash_base_at(l)),
            }),
    {
        let f = |r: int| row_share(self.copied(m, r), c, eq[r]);
        let width = self.width();
        let n = self.spec.useful_bits as int;
        match walker.decoded(c) {
            None => {
                assert forall|r: int| 0 <= r < width implies #[trigger] f(r) == fzero() by {
                    self.lemma_no_copy(walker, m, c, r);
                }
                lemma_fsum_zero(f, width);
            },
            Some((l, w)) => {
                walker.lemma_decoded(c);
                let at = self.hash_at(l, 0);
                self.lemma_level(l, 512);
                self.lemma_level(l, self.level_stride - 1);
                assert forall|r: int| 0 <= r < width && !(at <= r < at + n) implies
                    #[trigger] f(r) == fzero() by {
                    self.lemma_no_copy(walker, m, c, r);
                }
                lemma_window(f, at, n, width);
                let g = |i: int| row_share(kept.row(i), w, eq[at + i]);
                let shiftedf = |i: int| f(at + i);
                assert forall|i: int| 0 <= i < n implies #[trigger] shiftedf(i) == g(i) by {
                    self.lemma_level(l, 512 + i);
                    let row = kept_row(self.spec, m, i);
                    assert(columns_below(m.row(i), n));
                    assert(columns_below(row, n));
                    lemma_hits_shift(row, at, c, row.len() as int, n);
                    assert(kept.row(i) == row);
                }
                lemma_fsum_congr(shiftedf, g, n);
                lemma_fsum_congr(shiftedf, |i: int| f(at + i), n);
                let rows = kept.num_rows as int;
                lemma_fsum_split(g, n, rows - n);
                let tail = |i: int| g(n + i);
                assert forall|i: int| 0 <= i < rows - n implies #[trigger] tail(i) == fzero() by {
                    assert(m.row(n + i).len() == 0);
                    assert(kept.row(n + i).len() == 0);
                }
                lemma_fsum_zero(tail, rows - n);
                lemma_fsum_congr(tail, |i: int| g(n + i), rows - n);
                lemma_fadd_zero(fsum(g, n));
                lemma_fadd_comm(fsum(g, n), fzero());
                lemma_fsum_congr(
                    g,
                    |r: int| row_share(kept.row(r), w, eq[walker.hash_base_at(l) + r]),
                    rows,
                );
            },
        }
    }

    /// A copied row names a column only inside its own hash block.
    proof fn lemma_no_copy(
        self,
        walker: MerkleWalkerCircuit,
        m: SparseBinaryMatrix,
        c: int,
        r: int,
    )
        requires
            self.well_formed(),
            self.spec.rows_useful(m),
            walker.walks(self),
            0 <= c < self.width(),
            0 <= r < self.width(),
            match walker.decoded(c) {
                None => true,
                Some((l, w)) => !(self.hash_at(l, 0) <= r < self.hash_at(l, 0)
                    + self.spec.useful_bits),
            },
        ensures
            hits(self.copied(m, r), c, self.copied(m, r).len() as int) == 0,
    {
        let k = (r - self.levels_base) / self.level_stride as int;
        let v = (r - self.levels_base) % self.level_stride as int;
        let n = self.spec.useful_bits as int;
        if self.levels_base <= r < self.useful_bits && v >= 512 {
            self.lemma_place(r);
            let row = kept_row(self.spec, m, v - 512);
            assert(columns_below(m.row(v - 512), n));
            assert(columns_below(row, n));
            let at = self.hash_at(k, 0);
            self.lemma_level(k, 512);
            self.lemma_level(k, self.level_stride - 1);
            if at <= c < at + n {
                self.lemma_level(k, 512 + (c - at));
                assert(walker.decoded(c) == Some((k, c - at)));
                assert(false);
            }
            lemma_hits_shift(row, at, c, row.len() as int, n);
        }
    }

    /// The full rows' share is the others' plus the copied rows'.
    proof fn lemma_split_share(self, r: int, c: int, x: F128)
        requires
            self.well_formed(),
            0 <= r < self.width(),
        ensures
            row_share(self.rows_at(r, true).0, c, x) == fadd(
                row_share(self.rows_at(r, false).0, c, x),
                row_share(self.copied(self.spec.a, r), c, x),
            ),
            row_share(self.rows_at(r, true).1, c, x) == fadd(
                row_share(self.rows_at(r, false).1, c, x),
                row_share(self.copied(self.spec.b, r), c, x),
            ),
    {
        let (fa, fb) = self.rows_at(r, true);
        let (xa, xb) = self.rows_at(r, false);
        let (ca, cb) = (self.copied(self.spec.a, r), self.copied(self.spec.b, r));
        lemma_fadd_zero(row_share(fa, c, x));
        lemma_fadd_comm(row_share(fa, c, x), fzero());
        lemma_fadd_zero(row_share(fb, c, x));
        lemma_fadd_comm(row_share(fb, c, x), fzero());
        if self.levels_base <= r < self.useful_bits {
            self.lemma_place(r);
            let l = (r - self.levels_base) / self.level_stride as int;
            let w = (r - self.levels_base) % self.level_stride as int;
            if w >= 512 {
                if self.spec.overridden(w - 512) {
                    assert(ca =~= Seq::<usize>::empty());
                    assert(cb =~= Seq::<usize>::empty());
                } else {
                    assert(xa.len() == 0 && xb.len() == 0);
                    assert(fa == ca && fb == cb);
                }
            }
        }
    }
}

/// The walker folds the path's matrices: its marginals are the column sums of
/// the full rows.
pub proof fn walker_folds_the_matrices(
    layout: MerkleTreeLayout,
    walker: MerkleWalkerCircuit,
    a: SparseBinaryMatrix,
    b: SparseBinaryMatrix,
    c: int,
    eq: Seq<F128>,
)
    requires
        layout.well_formed(),
        walker.walks(layout),
        layout.has_rows(a, b, true),
        0 <= c < layout.width(),
        eq.len() == layout.width(),
    ensures
        walker.marginals(c, eq) == (column_sum(a, c, eq, 0), column_sum(b, c, eq, 0)),
{
    let (kept_a, kept_b, extra_a, extra_b) = choose|
        kept_a: SparseBinaryMatrix,
        kept_b: SparseBinaryMatrix,
        extra_a: SparseBinaryMatrix,
        extra_b: SparseBinaryMatrix,
    | #[trigger]
        walker.transposed(layout, kept_a, kept_b, extra_a, extra_b);
    lemma_stored(walker.extras.a_col_ptr@, walker.extras.a_rows@, extra_a, c, eq, 0);
    lemma_stored(walker.extras.b_col_ptr@, walker.extras.b_rows@, extra_b, c, eq, 0);
    layout.lemma_copied_sum(walker, layout.spec.a, kept_a, c, eq);
    layout.lemma_copied_sum(walker, layout.spec.b, kept_b, c, eq);
    let width = layout.width();
    lemma_side(layout, a, extra_a, layout.spec.a, true, c, eq);
    lemma_side(layout, b, extra_b, layout.spec.b, false, c, eq);
    match walker.decoded(c) {
        None => {
            lemma_fadd_zero(column_sum(extra_a, c, eq, 0));
            lemma_fadd_comm(column_sum(extra_a, c, eq, 0), fzero());
            lemma_fadd_zero(column_sum(extra_b, c, eq, 0));
            lemma_fadd_comm(column_sum(extra_b, c, eq, 0), fzero());
        },
        Some((l, w)) => {
            walker.lemma_decoded(c);
            let at = walker.hash_base_at(l);
            lemma_stored(walker.base.a_col_ptr@, walker.base.a_rows@, kept_a, w, eq, at);
            lemma_stored(walker.base.b_col_ptr@, walker.base.b_rows@, kept_b, w, eq, at);
        },
    }
}

/// One matrix: the full column sum is the others' plus the copied rows'.
proof fn lemma_side(
    layout: MerkleTreeLayout,
    full: SparseBinaryMatrix,
    extra: SparseBinaryMatrix,
    m: SparseBinaryMatrix,
    first: bool,
    c: int,
    eq: Seq<F128>,
)
    requires
        layout.well_formed(),
        full.num_rows == layout.width(),
        extra.num_rows == layout.width(),
        m == (if first {
            layout.spec.a
        } else {
            layout.spec.b
        }),
        forall|r: int|
            0 <= r < layout.width() ==> #[trigger] full.row(r) == (if first {
                layout.rows_at(r, true).0
            } else {
                layout.rows_at(r, true).1
            }),
        forall|r: int|
            0 <= r < layout.width() ==> #[trigger] extra.row(r) == (if first {
                layout.rows_at(r, false).0
            } else {
                layout.rows_at(r, false).1
            }),
    ensures
        column_sum(full, c, eq, 0) == fadd(
            column_sum(extra, c, eq, 0),
            fsum(|r: int| row_share(layout.copied(m, r), c, eq[r]), layout.width()),
        ),
{
    let width = layout.width();
    let f = |r: int| row_share(full.row(r), c, eq[0 + r]);
    let x = |r: int| row_share(extra.row(r), c, eq[0 + r]);
    let k = |r: int| row_share(layout.copied(m, r), c, eq[r]);
    let sum = |r: int| fadd(x(r), k(r));
    assert forall|r: int| 0 <= r < width implies #[trigger] f(r) == sum(r) by {
        layout.lemma_split_share(r, c, eq[r]);
        assert(full.row(r) == full.row(r) && extra.row(r) == extra.row(r));
    }
    lemma_fsum_congr(f, sum, width);
    lemma_fsum_add(x, k, width);
    lemma_fsum_congr(sum, |r: int| fadd(x(r), k(r)), width);
}

} // verus!
