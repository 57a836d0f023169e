//! The entries that the walker visits are those of the matrices.
use vstd::arithmetic::power2::pow2;
use vstd::prelude::*;

use crate::merkle_r1cs::csc::{column_count, entries_before, entry_count, hits, transposable};
use crate::merkle_r1cs::walker::{kept_row, strips, MerkleWalkerCircuit};
use crate::merkle_r1cs::MerkleTreeLayout;
use crate::r1cs::{columns_below, SparseBinaryMatrix};

verus! {

/// The lengths of the first `n` rows.
pub open spec fn rows_length(row: spec_fn(int) -> Seq<usize>, n: int) -> int
    decreases n,
{
    if n <= 0 {
        0
    } else {
        rows_length(row, n - 1) + row(n - 1).len()
    }
}

/// How often the first `t` entries of a row name one of the first `n` columns.
spec fn named(row: Seq<usize>, n: int, t: int) -> int
    decreases n,
{
    if n <= 0 {
        0
    } else {
        named(row, n - 1, t) + hits(row, n - 1, t)
    }
}

proof fn lemma_named_none(row: Seq<usize>, n: int)
    ensures
        named(row, n, 0) == 0,
    decreases n,
{
    if n > 0 {
        lemma_named_none(row, n - 1);
    }
}

/// One more entry names one column.
proof fn lemma_named_step(row: Seq<usize>, n: int, t: int)
    requires
        0 < t <= row.len(),
    ensures
        named(row, n, t) == named(row, n, t - 1) + (if row[t - 1] < n {
            1int
        } else {
            0
        }),
    decreases n,
{
    if n > 0 {
        lemma_named_step(row, n - 1, t);
    }
}

/// Every entry of a row names one column.
proof fn lemma_named(row: Seq<usize>, n: int, t: int)
    requires
        columns_below(row, n),
        0 <= t <= row.len(),
    ensures
        named(row, n, t) == t,
    decreases t,
{
    if t > 0 {
        lemma_named(row, n, t - 1);
        lemma_named_step(row, n, t);
        assert(row[t - 1] < n);
    } else {
        lemma_named_none(row, n);
    }
}

/// The entries of the first `c` columns in the first `r` rows.
spec fn corner_entries(m: SparseBinaryMatrix, c: int, r: int) -> int
    decreases c,
{
    if c <= 0 {
        0
    } else {
        corner_entries(m, c - 1, r) + column_count(m, c - 1, r)
    }
}

proof fn lemma_corner_none(m: SparseBinaryMatrix, c: int)
    ensures
        corner_entries(m, c, 0) == 0,
    decreases c,
{
    if c > 0 {
        lemma_corner_none(m, c - 1);
    }
}

proof fn lemma_corner_step(m: SparseBinaryMatrix, c: int, r: int)
    requires
        r > 0,
    ensures
        corner_entries(m, c, r) == corner_entries(m, c, r - 1) + named(
            m.row(r - 1),
            c,
            m.row(r - 1).len() as int,
        ),
    decreases c,
{
    if c > 0 {
        lemma_corner_step(m, c - 1, r);
    }
}

proof fn lemma_corner_rows(m: SparseBinaryMatrix, r: int)
    requires
        m.well_formed(),
        0 <= r <= m.num_rows,
    ensures
        corner_entries(m, m.num_cols as int, r) == rows_length(|i: int| m.row(i), r),
    decreases r,
{
    if r > 0 {
        lemma_corner_rows(m, r - 1);
        lemma_corner_step(m, m.num_cols as int, r);
        assert(columns_below(m.row(r - 1), m.num_cols as int));
        lemma_named(m.row(r - 1), m.num_cols as int, m.row(r - 1).len() as int);
    } else {
        lemma_corner_none(m, m.num_cols as int);
    }
}

proof fn lemma_corner_all(m: SparseBinaryMatrix, c: int)
    ensures
        corner_entries(m, c, m.num_rows as int) == entries_before(m, c),
    decreases c,
{
    if c > 0 {
        lemma_corner_all(m, c - 1);
    }
}

/// A matrix has as many entries by columns as by rows.
pub proof fn lemma_entries_by_rows(m: SparseBinaryMatrix)
    requires
        m.well_formed(),
    ensures
        entry_count(m) == rows_length(|i: int| m.row(i), m.num_rows as int),
{
    lemma_corner_rows(m, m.num_rows as int);
    lemma_corner_all(m, m.num_cols as int);
}

/// Rows whose lengths add up.
proof fn lemma_lengths_add(
    f: spec_fn(int) -> Seq<usize>,
    g: spec_fn(int) -> Seq<usize>,
    h: spec_fn(int) -> Seq<usize>,
    n: int,
)
    requires
        forall|r: int| 0 <= r < n ==> #[trigger] f(r).len() == g(r).len() + h(r).len(),
    ensures
        rows_length(f, n) == rows_length(g, n) + rows_length(h, n),
    decreases n,
{
    if n > 0 {
        lemma_lengths_add(f, g, h, n - 1);
        assert(f(n - 1).len() == g(n - 1).len() + h(n - 1).len());
    }
}

/// Empty rows add nothing.
proof fn lemma_lengths_empty(f: spec_fn(int) -> Seq<usize>, from: int, to: int)
    requires
        0 <= from <= to,
        forall|r: int| from <= r < to ==> #[trigger] f(r).len() == 0,
    ensures
        rows_length(f, to) == rows_length(f, from),
    decreases to,
{
    if from < to {
        lemma_lengths_empty(f, from, to - 1);
        assert(f(to - 1).len() == 0);
    }
}

/// A window of rows that are as long as given ones.
proof fn lemma_lengths_window(
    f: spec_fn(int) -> Seq<usize>,
    g: spec_fn(int) -> Seq<usize>,
    at: int,
    n: int,
)
    requires
        0 <= at,
        0 <= n,
        forall|r: int| 0 <= r < n ==> #[trigger] f(at + r).len() == g(r).len(),
    ensures
        rows_length(f, at + n) == rows_length(f, at) + rows_length(g, n),
    decreases n,
{
    if n > 0 {
        lemma_lengths_window(f, g, at, n - 1);
        assert(f(at + (n - 1)).len() == g(n - 1).len());
    }
}

impl MerkleTreeLayout {
    /// The kept base row that column `r` copies.
    spec fn copy_at(self, m: SparseBinaryMatrix, r: int) -> Seq<usize> {
        let w = (r - self.levels_base) % self.level_stride as int;
        if self.levels_base <= r < self.useful_bits && w >= 512 {
            kept_row(self.spec, m, w - 512)
        } else {
            Seq::empty()
        }
    }

    /// The first `l` levels copy the kept rows `l` times.
    proof fn lemma_copied_length(self, m: SparseBinaryMatrix, kept: SparseBinaryMatrix, l: int)
        requires
            self.well_formed(),
            self.spec.rows_useful(m),
            strips(self.spec, m, kept),
            0 <= l <= self.depth,
        ensures
            rows_length(|r: int| self.copy_at(m, r), self.level_at(l)) == l * entry_count(kept),
        decreases l,
    {
        let f = |r: int| self.copy_at(m, r);
        let g = |r: int| kept.row(r);
        let n = self.spec.useful_bits as int;
        if l > 0 {
            self.lemma_copied_length(m, kept, l - 1);
            let at = self.level_at(l - 1);
            self.lemma_level(l - 1, 0);
            self.lemma_level(l - 1, self.level_stride - 1);
            assert forall|r: int| at <= r < at + 512 implies #[trigger] f(r).len() == 0 by {
                self.lemma_level(l - 1, r - at);
            }
            lemma_lengths_empty(f, at, at + 512);
            assert forall|r: int| 0 <= r < n implies #[trigger] f(at + 512 + r).len()
                == g(r).len() by {
                self.lemma_level(l - 1, 512 + r);
                assert(kept.row(r) == kept_row(self.spec, m, r));
            }
            lemma_lengths_window(f, g, at + 512, n);
            assert forall|r: int| n <= r < kept.num_rows implies #[trigger] g(r).len() == 0 by {
                assert(m.row(r).len() == 0);
                assert(kept.row(r) == kept_row(self.spec, m, r));
            }
            lemma_lengths_empty(g, n, kept.num_rows as int);
            lemma_entries_by_rows(kept);
            assert(at + 512 + n == self.level_at(l)) by (nonlinear_arith)
                requires
                    at == self.levels_base + (l - 1) * self.level_stride,
                    self.level_at(l) == self.levels_base + l * self.level_stride,
                    self.level_stride == 512 + n,
            ;
            assert(l * entry_count(kept) == (l - 1) * entry_count(kept) + entry_count(kept))
                by (nonlinear_arith);
        } else {
            assert(self.level_at(0) == self.levels_base) by (nonlinear_arith)
                requires
                    self.level_at(0) == self.levels_base + 0 * self.level_stride,
            ;
            lemma_lengths_empty(f, 0, self.levels_base as int);
        }
    }

    /// A full row is as long as the other row and the copied one.
    proof fn lemma_split_length(self, r: int)
        requires
            self.well_formed(),
            0 <= r < self.width(),
        ensures
            self.rows_at(r, true).0.len() == self.rows_at(r, false).0.len() + self.copy_at(
                self.spec.a,
                r,
            ).len(),
            self.rows_at(r, true).1.len() == self.rows_at(r, false).1.len() + self.copy_at(
                self.spec.b,
                r,
            ).len(),
    {
        if self.levels_base <= r < self.useful_bits {
            self.lemma_place(r);
        }
    }

    /// One matrix has the others' entries and the kept base's at every level.
    proof fn lemma_side_entries(
        self,
        full: SparseBinaryMatrix,
        extra: SparseBinaryMatrix,
        kept: SparseBinaryMatrix,
        first: bool,
    )
        requires
            self.well_formed(),
            full.well_formed(),
            extra.well_formed(),
            full.num_rows == self.width(),
            extra.num_rows == self.width(),
            strips(
                self.spec,
                if first {
                    self.spec.a
                } else {
                    self.spec.b
                },
                kept,
            ),
            forall|r: int|
                0 <= r < self.width() ==> #[trigger] full.row(r) == (if first {
                    self.rows_at(r, true).0
                } else {
                    self.rows_at(r, true).1
                }),
            forall|r: int|
                0 <= r < self.width() ==> #[trigger] extra.row(r) == (if first {
                    self.rows_at(r, false).0
                } else {
                    self.rows_at(r, false).1
                }),
        ensures
            entry_count(full) == self.depth * entry_count(kept) + entry_count(extra),
    {
        let m = if first {
            self.spec.a
        } else {
            self.spec.b
        };
        let width = self.width();
        let f = |r: int| full.row(r);
        let x = |r: int| extra.row(r);
        let k = |r: int| self.copy_at(m, r);
        assert forall|r: int| 0 <= r < width implies #[trigger] f(r).len() == x(r).len()
            + k(r).len() by {
            self.lemma_split_length(r);
            assert(full.row(r).len() == f(r).len());
            assert(extra.row(r).len() == x(r).len());
        }
        lemma_lengths_add(f, x, k, width);
        lemma_entries_by_rows(full);
        lemma_entries_by_rows(extra);
        self.lemma_copied_length(m, kept, self.depth as int);
        let end = self.level_at(self.depth as int);
        lemma_lengths_empty(k, end, width);
    }
}

/// The walker visits as many entries as the path's matrices have.
pub proof fn walker_visits_every_entry(
    layout: MerkleTreeLayout,
    walker: MerkleWalkerCircuit,
    a: SparseBinaryMatrix,
    b: SparseBinaryMatrix,
)
    requires
        layout.well_formed(),
        walker.walks(layout),
        layout.has_rows(a, b, true),
    ensures
        entry_count(a) + entry_count(b) == walker.depth * walker.base.entries()
            + walker.extras.entries(),
{
    let (kept_a, kept_b, extra_a, extra_b) = choose|
        kept_a: SparseBinaryMatrix,
        kept_b: SparseBinaryMatrix,
        extra_a: SparseBinaryMatrix,
        extra_b: SparseBinaryMatrix,
    | #[trigger]
        walker.transposed(layout, kept_a, kept_b, extra_a, extra_b);
    layout.lemma_side_entries(a, extra_a, kept_a, true);
    layout.lemma_side_entries(b, extra_b, kept_b, false);
    let (x, y) = (entry_count(kept_a), entry_count(kept_b));
    assert(walker.base.entries() == x + y);
    let d = walker.depth as int;
    assert(d * (x + y) == d * x + d * y) by (nonlinear_arith);
}

/// Shorter rows have fewer entries.
proof fn lemma_lengths_within(
    f: spec_fn(int) -> Seq<usize>,
    g: spec_fn(int) -> Seq<usize>,
    n: int,
)
    requires
        forall|r: int| 0 <= r < n ==> #[trigger] f(r).len() <= g(r).len(),
    ensures
        rows_length(f, n) <= rows_length(g, n),
    decreases n,
{
    if n > 0 {
        lemma_lengths_within(f, g, n - 1);
        assert(f(n - 1).len() <= g(n - 1).len());
    }
}

/// Rows of two entries at most.
proof fn lemma_lengths_short(f: spec_fn(int) -> Seq<usize>, n: int)
    requires
        0 <= n,
        forall|r: int| 0 <= r < n ==> #[trigger] f(r).len() <= 2,
    ensures
        rows_length(f, n) <= 2 * n,
    decreases n,
{
    if n > 0 {
        lemma_lengths_short(f, n - 1);
        assert(f(n - 1).len() <= 2);
    }
}

/// A kept base has no more entries than the base.
proof fn lemma_kept_entries(
    layout: MerkleTreeLayout,
    m: SparseBinaryMatrix,
    kept: SparseBinaryMatrix,
)
    requires
        m.well_formed(),
        strips(layout.spec, m, kept),
    ensures
        entry_count(kept) <= entry_count(m),
{
    let f = |r: int| kept.row(r);
    let g = |r: int| m.row(r);
    assert forall|r: int| 0 <= r < m.num_rows implies #[trigger] f(r).len() <= g(r).len() by {
        assert(kept.row(r) == kept_row(layout.spec, m, r));
    }
    lemma_lengths_within(f, g, m.num_rows as int);
    lemma_entries_by_rows(kept);
    lemma_entries_by_rows(m);
}

/// Rows that are not copied from the base have two entries at most.
proof fn lemma_other_entries(m: SparseBinaryMatrix)
    requires
        m.well_formed(),
        forall|r: int| 0 <= r < m.num_rows ==> (#[trigger] m.row(r)).len() <= 2,
    ensures
        entry_count(m) <= 2 * m.num_rows,
{
    let f = |r: int| m.row(r);
    assert forall|r: int| 0 <= r < m.num_rows implies #[trigger] f(r).len() <= 2 by {
        assert(m.row(r).len() <= 2);
    }
    lemma_lengths_short(f, m.num_rows as int);
    lemma_entries_by_rows(m);
}

/// A path has a walker where twice its width, its base's width and its base's
/// entries are 32-bit numbers.
pub proof fn small_paths_are_walkable(layout: MerkleTreeLayout)
    requires
        layout.well_formed(),
        2 * layout.width() <= u32::MAX,
        pow2(layout.spec.k_log as nat) < u32::MAX,
        entry_count(layout.spec.a) <= u32::MAX,
        entry_count(layout.spec.b) <= u32::MAX,
    ensures
        layout.walkable(),
{
    let s = layout.spec;
    layout.lemma_level(0, 0);
    assert forall|kept: SparseBinaryMatrix| #[trigger] strips(s, s.a, kept) implies transposable(
        kept,
    ) by {
        lemma_kept_entries(layout, s.a, kept);
    }
    assert forall|kept: SparseBinaryMatrix| #[trigger] strips(s, s.b, kept) implies transposable(
        kept,
    ) by {
        lemma_kept_entries(layout, s.b, kept);
    }
    assert forall|a: SparseBinaryMatrix, b: SparseBinaryMatrix| #[trigger]
        layout.has_rows(a, b, false) implies transposable(a) && transposable(b) by {
        assert forall|r: int| 0 <= r < a.num_rows implies (#[trigger] a.row(r)).len() <= 2 by {
            assert(a.row(r) == layout.rows_at(r, false).0);
        }
        assert forall|r: int| 0 <= r < b.num_rows implies (#[trigger] b.row(r)).len() <= 2 by {
            assert(b.row(r) == layout.rows_at(r, false).1);
        }
        lemma_other_entries(a);
        lemma_other_entries(b);
    }
}

} // verus!
