//! A matrix pair by columns: where each column's ones are.
use vstd::prelude::*;

use crate::field::{fadd, fzero, lemma_fadd_assoc, lemma_fadd_comm, lemma_fadd_zero, F128};
use crate::r1cs::{columns_below, SparseBinaryMatrix};
use crate::sums::{fsum, lemma_fsum_congr};

verus! {

// ---------------------------------------------------------------------------
// Column sums.
// ---------------------------------------------------------------------------

/// How often the first `t` entries of a row name column `c`.
pub open spec fn hits(row: Seq<usize>, c: int, t: int) -> int
    decreases t,
{
    if t <= 0 {
        0
    } else {
        hits(row, c, t - 1) + (if row[t - 1] == c {
            1int
        } else {
            0
        })
    }
}

/// `x` once for each time a row names column `c`.
pub open spec fn row_share(row: Seq<usize>, c: int, x: F128) -> F128 {
    repeated(x, hits(row, c, row.len() as int))
}

/// `n` times `x`.
pub open spec fn repeated(x: F128, n: int) -> F128
    decreases n,
{
    if n <= 0 {
        fzero()
    } else {
        fadd(repeated(x, n - 1), x)
    }
}

/// The weights of the rows that name column `c`.
pub open spec fn column_sum(m: SparseBinaryMatrix, c: int, weights: Seq<F128>, offset: int) -> F128 {
    fsum(|r: int| row_share(m.row(r), c, weights[offset + r]), m.num_rows as int)
}

/// The entries of column `c` in the first `r` rows.
pub open spec fn column_count(m: SparseBinaryMatrix, c: int, r: int) -> int
    decreases r,
{
    if r <= 0 {
        0
    } else {
        column_count(m, c, r - 1) + hits(m.row(r - 1), c, m.row(r - 1).len() as int)
    }
}

/// The entries of the first `c` columns.
pub open spec fn entries_before(m: SparseBinaryMatrix, c: int) -> int
    decreases c,
{
    if c <= 0 {
        0
    } else {
        entries_before(m, c - 1) + column_count(m, c - 1, m.num_rows as int)
    }
}

/// All entries of the matrix.
pub open spec fn entry_count(m: SparseBinaryMatrix) -> int {
    entries_before(m, m.num_cols as int)
}

/// The rows of column `c` among the first `r` rows and the first `t` entries
/// of row `r`, in order.
pub open spec fn column_rows(m: SparseBinaryMatrix, c: int, r: int, t: int) -> Seq<u32>
    decreases r, t,
{
    if t > 0 {
        if m.row(r)[t - 1] == c {
            column_rows(m, c, r, t - 1).push(r as u32)
        } else {
            column_rows(m, c, r, t - 1)
        }
    } else if r > 0 {
        column_rows(m, c, r - 1, m.row(r - 1).len() as int)
    } else {
        Seq::empty()
    }
}

proof fn lemma_hits(row: Seq<usize>, c: int, t: int, u: int)
    requires
        0 <= t <= u,
    ensures
        0 <= hits(row, c, t) <= hits(row, c, u) <= u,
    decreases u,
{
    if t < u {
        lemma_hits(row, c, t, u - 1);
    } else if t > 0 {
        lemma_hits(row, c, t - 1, u - 1);
    }
}

proof fn lemma_count(m: SparseBinaryMatrix, c: int, r: int, s: int)
    requires
        0 <= r <= s,
    ensures
        0 <= column_count(m, c, r) <= column_count(m, c, s),
    decreases s,
{
    if s > 0 {
        lemma_hits(m.row(s - 1), c, 0, m.row(s - 1).len() as int);
        if r < s {
            lemma_count(m, c, r, s - 1);
        } else {
            lemma_count(m, c, s - 1, s - 1);
        }
    }
}

proof fn lemma_entries(m: SparseBinaryMatrix, c: int, d: int)
    requires
        0 <= c <= d,
    ensures
        0 <= entries_before(m, c) <= entries_before(m, d),
    decreases d,
{
    if d > 0 {
        lemma_count(m, d - 1, 0, m.num_rows as int);
        if c < d {
            lemma_entries(m, c, d - 1);
        } else {
            lemma_entries(m, d - 1, d - 1);
        }
    }
}

proof fn lemma_rows_len(m: SparseBinaryMatrix, c: int, r: int, t: int)
    requires
        0 <= r,
        0 <= t,
    ensures
        column_rows(m, c, r, t).len() == column_count(m, c, r) + hits(m.row(r), c, t),
    decreases r, t,
{
    if t > 0 {
        lemma_rows_len(m, c, r, t - 1);
    } else if r > 0 {
        lemma_rows_len(m, c, r - 1, m.row(r - 1).len() as int);
    }
}

/// All rows of column `c`.
pub open spec fn whole_column(m: SparseBinaryMatrix, c: int) -> Seq<u32> {
    column_rows(m, c, m.num_rows as int, 0)
}

/// The weights at the listed rows.
pub open spec fn list_sum(rows: Seq<u32>, weights: Seq<F128>, offset: int) -> F128 {
    fsum(|k: int| weights[offset + rows[k] as int], rows.len() as int)
}

proof fn lemma_list_sum(
    m: SparseBinaryMatrix,
    c: int,
    weights: Seq<F128>,
    offset: int,
    r: int,
    t: int,
)
    requires
        0 <= r,
        0 <= t,
        r <= u32::MAX,
    ensures
        list_sum(column_rows(m, c, r, t), weights, offset) == fadd(
            fsum(|i: int| row_share(m.row(i), c, weights[offset + i]), r),
            repeated(weights[offset + r], hits(m.row(r), c, t)),
        ),
    decreases r, t,
{
    let list = column_rows(m, c, r, t);
    let f = |k: int| weights[offset + list[k] as int];
    let rows = |i: int| row_share(m.row(i), c, weights[offset + i]);
    if t > 0 {
        lemma_list_sum(m, c, weights, offset, r, t - 1);
        lemma_hits(m.row(r), c, 0, t - 1);
        if m.row(r)[t - 1] == c {
            let before = column_rows(m, c, r, t - 1);
            let g = |k: int| weights[offset + before[k] as int];
            lemma_fsum_congr(f, g, before.len() as int);
            lemma_fadd_assoc(
                fsum(rows, r),
                repeated(weights[offset + r], hits(m.row(r), c, t - 1)),
                weights[offset + r],
            );
        }
    } else if r > 0 {
        lemma_list_sum(m, c, weights, offset, r - 1, m.row(r - 1).len() as int);
        lemma_fadd_zero(fsum(rows, r));
        lemma_fadd_comm(fsum(rows, r), fzero());
    } else {
        lemma_fadd_zero(fzero());
    }
}

/// A column's listed weights are its column sum.
pub proof fn lemma_whole_column(
    m: SparseBinaryMatrix,
    c: int,
    weights: Seq<F128>,
    offset: int,
)
    requires
        m.num_rows <= u32::MAX,
    ensures
        list_sum(whole_column(m, c), weights, offset) == column_sum(m, c, weights, offset),
{
    lemma_list_sum(m, c, weights, offset, m.num_rows as int, 0);
    let total = fsum(|i: int| row_share(m.row(i), c, weights[offset + i]), m.num_rows as int);
    lemma_fadd_zero(total);
    lemma_fadd_comm(total, fzero());
}

// ---------------------------------------------------------------------------
// The transposition.
// ---------------------------------------------------------------------------

/// A matrix by columns.
pub open spec fn transposes(col_ptr: Seq<u32>, rows: Seq<u32>, m: SparseBinaryMatrix) -> bool {
    &&& col_ptr.len() == m.num_cols + 1
    &&& forall|c: int| 0 <= c <= m.num_cols ==> #[trigger] col_ptr[c] == entries_before(m, c)
    &&& rows.len() == entry_count(m)
    &&& forall|c: int|
        0 <= c < m.num_cols ==> rows.subrange(
            col_ptr[c] as int,
            col_ptr[c + 1] as int,
        ) == #[trigger] whole_column(m, c)
}

fn zeros(n: usize) -> (v: Vec<u32>)
    ensures
        v@ == Seq::new(n as nat, |i: int| 0u32),
{
    let mut v: Vec<u32> = Vec::new();
    while v.len() < n
        invariant
            v@.len() <= n,
            forall|i: int| 0 <= i < v@.len() ==> #[trigger] v@[i] == 0,
        decreases n - v@.len(),
    {
        v.push(0);
    }
    assert(v@ =~= Seq::new(n as nat, |i: int| 0u32));
    v
}

/// The column counts, one place up.
fn count_columns(m: &SparseBinaryMatrix) -> (counts: Vec<u32>)
    requires
        m.well_formed(),
        m.num_cols < usize::MAX,
        entry_count(*m) <= u32::MAX,
    ensures
        counts@.len() == m.num_cols + 1,
        counts@[0] == 0,
        forall|c: int|
            0 <= c < m.num_cols ==> #[trigger] counts@[c + 1] == column_count(
                *m,
                c,
                m.num_rows as int,
            ),
{
    let mut counts = zeros(m.num_cols + 1);
    let mut r: usize = 0;
    while r < m.num_rows
        invariant
            m.well_formed(),
            m.num_cols < usize::MAX,
            entry_count(*m) <= u32::MAX,
            r <= m.num_rows,
            counts@.len() == m.num_cols + 1,
            counts@[0] == 0,
            forall|c: int|
                0 <= c < m.num_cols ==> #[trigger] counts@[c + 1] == column_count(*m, c, r as int),
        decreases m.num_rows - r,
    {
        let row = &m.rows[r];
        let ghost start = counts@;
        assert(m.row(r as int) == row@);
        let mut t: usize = 0;
        while t < row.len()
            invariant
                m.well_formed(),
                m.num_cols < usize::MAX,
                entry_count(*m) <= u32::MAX,
                r < m.num_rows,
                row@ == m.row(r as int),
                t <= row@.len(),
                counts@.len() == m.num_cols + 1,
                counts@[0] == 0,
                forall|c: int|
                    0 <= c < m.num_cols ==> #[trigger] counts@[c + 1] == column_count(
                        *m,
                        c,
                        r as int,
                    ) + hits(row@, c, t as int),
            decreases row@.len() - t,
        {
            let c: usize = row[t];
            assert(columns_below(m.row(r as int), m.num_cols as int));
            assert(row@[t as int] < m.num_cols);
            let ghost before = counts@;
            proof {
                lemma_hits(row@, c as int, t + 1, row@.len() as int);
                lemma_count(*m, c as int, r + 1, m.num_rows as int);
                lemma_entries(*m, c as int, c + 1);
                lemma_entries(*m, c + 1, m.num_cols as int);
                assert(counts@[c + 1] == column_count(*m, c as int, r as int) + hits(
                    row@,
                    c as int,
                    t as int,
                ));
            }
            counts[c + 1] = counts[c + 1] + 1;
            proof {
                assert forall|d: int| 0 <= d < m.num_cols implies #[trigger] counts@[d + 1]
                    == column_count(*m, d, r as int) + hits(row@, d, t + 1) by {
                    assert(before[d + 1] == column_count(*m, d, r as int) + hits(
                        row@,
                        d,
                        t as int,
                    ));
                }
            }
            t = t + 1;
        }
        r = r + 1;
    }
    counts
}

/// The matrix by columns.
pub fn csc_from_rows(m: &SparseBinaryMatrix) -> (result: (Vec<u32>, Vec<u32>))
    requires
        m.well_formed(),
        m.num_rows <= u32::MAX,
        m.num_cols <= u32::MAX,
        m.num_cols < usize::MAX,
        entry_count(*m) <= u32::MAX,
    ensures
        transposes(result.0@, result.1@, *m),
{
    let mut col_ptr = count_columns(m);
    let mut c: usize = 0;
    while c < m.num_cols
        invariant
            m.num_cols < usize::MAX,
            entry_count(*m) <= u32::MAX,
            c <= m.num_cols,
            col_ptr@.len() == m.num_cols + 1,
            forall|d: int| 0 <= d <= c ==> #[trigger] col_ptr@[d] == entries_before(*m, d),
            forall|d: int|
                c <= d < m.num_cols ==> #[trigger] col_ptr@[d + 1] == column_count(
                    *m,
                    d,
                    m.num_rows as int,
                ),
        decreases m.num_cols - c,
    {
        let ghost before = col_ptr@;
        proof {
            assert(col_ptr@[c + 1] == column_count(*m, c as int, m.num_rows as int));
            assert(col_ptr@[c as int] == entries_before(*m, c as int));
            lemma_entries(*m, c + 1, m.num_cols as int);
        }
        col_ptr[c + 1] = col_ptr[c + 1] + col_ptr[c];
        proof {
            assert forall|d: int| c + 1 <= d < m.num_cols implies #[trigger] col_ptr@[d + 1]
                == column_count(*m, d, m.num_rows as int) by {
                assert(before[d + 1] == column_count(*m, d, m.num_rows as int));
            }
        }
        c = c + 1;
    }
    let ghost ptr = col_ptr@;
    let mut next: Vec<u32> = Vec::new();
    let mut i: usize = 0;
    while i < col_ptr.len()
        invariant
            col_ptr@ == ptr,
            i <= ptr.len(),
            next@ == ptr.take(i as int),
        decreases ptr.len() - i,
    {
        next.push(col_ptr[i]);
        i = i + 1;
        assert(next@ =~= ptr.take(i as int));
    }
    assert(next@ =~= ptr);
    let total: usize = col_ptr[m.num_cols] as usize;
    let mut rows = zeros(total);
    let mut r: usize = 0;
    while r < m.num_rows
        invariant
            m.well_formed(),
            m.num_rows <= u32::MAX,
            m.num_cols < usize::MAX,
            entry_count(*m) <= u32::MAX,
            ptr.len() == m.num_cols + 1,
            forall|d: int| 0 <= d <= m.num_cols ==> #[trigger] ptr[d] == entries_before(*m, d),
            rows@.len() == entry_count(*m),
            next@.len() == m.num_cols + 1,
            r <= m.num_rows,
            forall|d: int|
                0 <= d < m.num_cols ==> #[trigger] next@[d] == ptr[d] + column_rows(
                    *m,
                    d,
                    r as int,
                    0,
                ).len(),
            forall|d: int, k: int|
                #![trigger column_rows(*m, d, r as int, 0)[k]]
                0 <= d < m.num_cols && 0 <= k < column_rows(*m, d, r as int, 0).len() ==> rows@[ptr[d]
                    + k] == column_rows(*m, d, r as int, 0)[k],
        decreases m.num_rows - r,
    {
        let row = &m.rows[r];
        assert(m.row(r as int) == row@);
        let mut t: usize = 0;
        while t < row.len()
            invariant
                m.well_formed(),
                m.num_rows <= u32::MAX,
                m.num_cols < usize::MAX,
                entry_count(*m) <= u32::MAX,
                ptr.len() == m.num_cols + 1,
                forall|d: int| 0 <= d <= m.num_cols ==> #[trigger] ptr[d] == entries_before(*m, d),
                rows@.len() == entry_count(*m),
                next@.len() == m.num_cols + 1,
                r < m.num_rows,
                row@ == m.row(r as int),
                t <= row@.len(),
                forall|d: int|
                    0 <= d < m.num_cols ==> #[trigger] next@[d] == ptr[d] + column_rows(
                        *m,
                        d,
                        r as int,
                        t as int,
                    ).len(),
                forall|d: int, k: int|
                    #![trigger column_rows(*m, d, r as int, t as int)[k]]
                    0 <= d < m.num_cols && 0 <= k < column_rows(*m, d, r as int, t as int).len()
                        ==> rows@[ptr[d] + k] == column_rows(*m, d, r as int, t as int)[k],
            decreases row@.len() - t,
        {
            let c: usize = row[t];
            assert(columns_below(m.row(r as int), m.num_cols as int));
            assert(row@[t as int] < m.num_cols);
            let ghost filled = rows@;
            let ghost was = next@;
            let ghost here = column_rows(*m, c as int, r as int, t as int);
            proof {
                lemma_room(*m, c as int, r as int, t + 1);
                lemma_rows_len(*m, c as int, r as int, t as int);
                lemma_rows_len(*m, c as int, r as int, t + 1);
                lemma_entries(*m, c + 1, m.num_cols as int);
                assert(next@[c as int] == ptr[c as int] + here.len());
            }
            let at: usize = next[c] as usize;
            rows[at] = r as u32;
            next[c] = next[c] + 1;
            proof {
                assert forall|d: int| 0 <= d < m.num_cols implies #[trigger] next@[d] == ptr[d]
                    + column_rows(*m, d, r as int, t + 1).len() by {
                    assert(was[d] == ptr[d] + column_rows(*m, d, r as int, t as int).len());
                }
                assert forall|d: int, k: int|
                    #![trigger column_rows(*m, d, r as int, t + 1)[k]]
                    0 <= d < m.num_cols && 0 <= k < column_rows(*m, d, r as int, t + 1).len()
                    implies rows@[ptr[d] + k] == column_rows(*m, d, r as int, t + 1)[k] by {
                    let longer = column_rows(*m, d, r as int, t + 1);
                    let shorter = column_rows(*m, d, r as int, t as int);
                    assert(ptr[d] == entries_before(*m, d));
                    assert(ptr[c as int] == entries_before(*m, c as int));
                    assert(at == ptr[c as int] + here.len());
                    lemma_room(*m, d, r as int, t as int);
                    lemma_rows_len(*m, d, r as int, t as int);
                    lemma_entries(*m, d + 1, m.num_cols as int);
                    if k < shorter.len() {
                        assert(shorter[k] == longer[k]);
                        assert(filled[ptr[d] + k] == shorter[k]);
                        if d != c {
                            if d < c {
                                lemma_entries(*m, d + 1, c as int);
                            } else {
                                lemma_entries(*m, c + 1, d);
                            }
                            assert(at < entries_before(*m, c + 1));
                            assert(ptr[d] + k != at);
                        }
                        assert(rows@[ptr[d] + k] == filled[ptr[d] + k]);
                    } else {
                        assert(d == c);
                        assert(longer[k] == r as u32);
                        assert(ptr[d] + k == at);
                    }
                }
            }
            t = t + 1;
        }
        proof {
            assert forall|d: int, k: int|
                #![trigger column_rows(*m, d, r + 1, 0)[k]]
                0 <= d < m.num_cols && 0 <= k < column_rows(*m, d, r + 1, 0).len() implies rows@[ptr[d]
                + k] == column_rows(*m, d, r + 1, 0)[k] by {
                assert(column_rows(*m, d, r + 1, 0) == column_rows(
                    *m,
                    d,
                    r as int,
                    row@.len() as int,
                ));
            }
        }
        r = r + 1;
    }
    proof {
        assert forall|d: int| 0 <= d < m.num_cols implies rows@.subrange(
            col_ptr@[d] as int,
            col_ptr@[d + 1] as int,
        ) == #[trigger] whole_column(*m, d) by {
            lemma_rows_len(*m, d, m.num_rows as int, 0);
            lemma_entries(*m, d, d + 1);
            lemma_entries(*m, d + 1, m.num_cols as int);
            let part = rows@.subrange(col_ptr@[d] as int, col_ptr@[d + 1] as int);
            let list = whole_column(*m, d);
            assert(ptr[d + 1] == entries_before(*m, d + 1));
            assert forall|k: int| 0 <= k < list.len() implies part[k] == list[k] by {
                assert(column_rows(*m, d, m.num_rows as int, 0)[k] == list[k]);
            }
            assert(part =~= list);
        }
    }
    (col_ptr, rows)
}

/// A column has room for its entries.
proof fn lemma_room(m: SparseBinaryMatrix, c: int, r: int, t: int)
    requires
        0 <= c < m.num_cols,
        0 <= r < m.num_rows,
        0 <= t <= m.row(r).len(),
    ensures
        column_count(m, c, r) + hits(m.row(r), c, t) <= column_count(m, c, m.num_rows as int),
        entries_before(m, c) + column_count(m, c, m.num_rows as int) == entries_before(m, c + 1),
        entries_before(m, c) >= 0,
{
    lemma_hits(m.row(r), c, t, m.row(r).len() as int);
    lemma_count(m, c, r + 1, m.num_rows as int);
    lemma_entries(m, c, c);
}

/// Two matrices by columns.
#[derive(Debug)]
pub struct Csc {
    pub a_col_ptr: Vec<u32>,
    pub a_rows: Vec<u32>,
    pub b_col_ptr: Vec<u32>,
    pub b_rows: Vec<u32>,
}

/// A matrix that can be transposed into 32-bit indices.
pub open spec fn transposable(m: SparseBinaryMatrix) -> bool {
    &&& m.well_formed()
    &&& m.num_rows <= u32::MAX
    &&& m.num_cols <= u32::MAX
    &&& m.num_cols < usize::MAX
    &&& entry_count(m) <= u32::MAX
}

impl Csc {
    /// The columns of two matrices of one shape.
    pub open spec fn of(self, a: SparseBinaryMatrix, b: SparseBinaryMatrix) -> bool {
        &&& transposes(self.a_col_ptr@, self.a_rows@, a)
        &&& transposes(self.b_col_ptr@, self.b_rows@, b)
    }

    pub fn pair(a: &SparseBinaryMatrix, b: &SparseBinaryMatrix) -> (csc: Csc)
        requires
            transposable(*a),
            transposable(*b),
        ensures
            csc.of(*a, *b),
    {
        let (a_col_ptr, a_rows) = csc_from_rows(a);
        let (b_col_ptr, b_rows) = csc_from_rows(b);
        Csc { a_col_ptr, a_rows, b_col_ptr, b_rows }
    }

    /// Column `c` of each matrix is stored, and its rows shifted by `row_off`
    /// are below `n`.
    pub open spec fn column_in_range(self, c: int, row_off: int, n: int) -> bool {
        &&& segment_in_range(self.a_col_ptr@, self.a_rows@, c, row_off, n)
        &&& segment_in_range(self.b_col_ptr@, self.b_rows@, c, row_off, n)
    }

    /// The weights of the rows that name column `c`, in each matrix.
    pub fn gather(&self, c: usize, weights: &[F128], row_off: usize) -> (sums: (F128, F128))
        requires
            self.column_in_range(c as int, row_off as int, weights@.len() as int),
        ensures
            sums.0 == list_sum(
                segment(self.a_col_ptr@, self.a_rows@, c as int),
                weights@,
                row_off as int,
            ),
            sums.1 == list_sum(
                segment(self.b_col_ptr@, self.b_rows@, c as int),
                weights@,
                row_off as int,
            ),
    {
        let sa = column_weights(&self.a_col_ptr, &self.a_rows, c, weights, row_off);
        let sb = column_weights(&self.b_col_ptr, &self.b_rows, c, weights, row_off);
        (sa, sb)
    }

    /// The entries of the two matrices.
    pub fn nnz(&self) -> (counts: (usize, usize))
        ensures
            counts == (self.a_rows@.len() as usize, self.b_rows@.len() as usize),
    {
        (self.a_rows.len(), self.b_rows.len())
    }
}

/// Listed rows name the column.
proof fn lemma_listed(m: SparseBinaryMatrix, c: int, r: int, t: int, k: int)
    requires
        0 <= r <= u32::MAX,
        0 <= t,
        0 <= k < column_rows(m, c, r, t).len(),
    ensures
        0 <= column_rows(m, c, r, t)[k] <= r,
        t == 0 ==> column_rows(m, c, r, t)[k] < r,
        m.row(column_rows(m, c, r, t)[k] as int).len() > 0 || (column_rows(m, c, r, t)[k] == r),
    decreases r, t,
{
    if t > 0 {
        if k < column_rows(m, c, r, t - 1).len() {
            lemma_listed(m, c, r, t - 1, k);
        }
    } else if r > 0 {
        lemma_listed_row(m, c, r - 1, m.row(r - 1).len() as int, k);
    }
}

proof fn lemma_listed_row(m: SparseBinaryMatrix, c: int, r: int, t: int, k: int)
    requires
        0 <= r <= u32::MAX,
        0 <= t <= m.row(r).len(),
        0 <= k < column_rows(m, c, r, t).len(),
    ensures
        0 <= column_rows(m, c, r, t)[k] <= r,
        m.row(column_rows(m, c, r, t)[k] as int).len() > 0,
    decreases r, t,
{
    if t > 0 {
        if k < column_rows(m, c, r, t - 1).len() {
            lemma_listed_row(m, c, r, t - 1, k);
        }
    } else if r > 0 {
        lemma_listed_row(m, c, r - 1, m.row(r - 1).len() as int, k);
    }
}

/// The listed rows of a column.
pub open spec fn segment(col_ptr: Seq<u32>, rows: Seq<u32>, c: int) -> Seq<u32> {
    rows.subrange(col_ptr[c] as int, col_ptr[c + 1] as int)
}

/// A column is stored, and its rows shifted by `row_off` are below `n`.
pub open spec fn segment_in_range(
    col_ptr: Seq<u32>,
    rows: Seq<u32>,
    c: int,
    row_off: int,
    n: int,
) -> bool {
    &&& c + 1 < col_ptr.len()
    &&& col_ptr[c] <= col_ptr[c + 1] <= rows.len()
    &&& forall|k: int|
        col_ptr[c] <= k < col_ptr[c + 1] ==> row_off + (#[trigger] rows[k]) < n
}

/// A transposed column is stored with its rows, and its listed weights are the
/// column sum.
pub proof fn lemma_stored(
    col_ptr: Seq<u32>,
    rows: Seq<u32>,
    m: SparseBinaryMatrix,
    c: int,
    weights: Seq<F128>,
    row_off: int,
)
    requires
        transposes(col_ptr, rows, m),
        transposable(m),
        0 <= c < m.num_cols,
    ensures
        c + 1 < col_ptr.len(),
        col_ptr[c] <= col_ptr[c + 1] <= rows.len(),
        forall|k: int|
            col_ptr[c] <= k < col_ptr[c + 1] ==> (#[trigger] rows[k]) < m.num_rows && m.row(
                rows[k] as int,
            ).len() > 0,
        list_sum(segment(col_ptr, rows, c), weights, row_off) == column_sum(
            m,
            c,
            weights,
            row_off,
        ),
{
    let list = whole_column(m, c);
    lemma_entries(m, c, c + 1);
    lemma_entries(m, c + 1, m.num_cols as int);
    assert(col_ptr[c + 1] == entries_before(m, c + 1));
    assert(segment(col_ptr, rows, c) == list);
    assert forall|k: int| col_ptr[c] <= k < col_ptr[c + 1] implies (#[trigger] rows[k])
        < m.num_rows && m.row(rows[k] as int).len() > 0 by {
        let i = k - col_ptr[c];
        assert(segment(col_ptr, rows, c)[i] == rows[k]);
        lemma_listed(m, c, m.num_rows as int, 0, i);
    }
    lemma_whole_column(m, c, weights, row_off);
}

fn column_weights(
    col_ptr: &Vec<u32>,
    rows: &Vec<u32>,
    c: usize,
    weights: &[F128],
    row_off: usize,
) -> (sum: F128)
    requires
        segment_in_range(col_ptr@, rows@, c as int, row_off as int, weights@.len() as int),
    ensures
        sum == list_sum(segment(col_ptr@, rows@, c as int), weights@, row_off as int),
{
    let ghost list = segment(col_ptr@, rows@, c as int);
    let ghost f = |k: int| weights@[row_off + list[k] as int];
    let total: usize = weights.len();
    let pointers: usize = col_ptr.len();
    let start: usize = col_ptr[c] as usize;
    let end: usize = col_ptr[c + 1] as usize;
    let mut sum = F128::zero();
    let mut i: usize = start;
    while i < end
        invariant
            total == weights@.len(),
            f == (|k: int| weights@[row_off + list[k] as int]),
            start <= i <= end <= rows@.len(),
            list == rows@.subrange(start as int, end as int),
            forall|k: int| start <= k < end ==> row_off + (#[trigger] rows@[k]) < total,
            sum == fsum(f, i - start),
        decreases end - i,
    {
        assert(rows@[i as int] == list[i - start]);
        sum = sum + weights[row_off + rows[i] as usize];
        i = i + 1;
    }
    sum
}

} // verus!
