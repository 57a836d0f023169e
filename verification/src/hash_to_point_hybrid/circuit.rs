//! The compact circuit: its dimensions, its descriptor, and its folding.
use vstd::arithmetic::power2::{lemma2_to64, pow2};
use vstd::prelude::*;
use vstd::string::*;

use crate::bytes::{le_bytes, write_bytes, write_le};
use crate::field::{fadd, fmul, fone, fzero, lemma_fadd_assoc, lemma_fadd_zero, F128};
use crate::hash_to_point_hybrid::layout::{
    record_place, record_position, sponge_place, sponge_position, word_place, word_source, CONST,
    END, K, K_LOG, SPONGE_CONST,
};
use crate::hash_to_point_slots as slots;
use crate::hash_to_point_slots::matrices::is_form;
use crate::hash_to_point_slots::setup::{
    ceil_log2, is_ceil_log2, word_position, PcsParams, SlotSetup,
};
use crate::merkle_r1cs::csc::{column_sum, hits, repeated, row_share};
use crate::merkle_r1cs::empty_matrix;
use crate::prover::schedule::WitnessLayout;
use crate::r1cs::{columns_below, BlockR1cs, SparseBinaryMatrix};
use crate::sums::{fsum, lemma_fsum_congr};
use crate::transcript::{all_observed, observe_bytes, observe_label, Observation, Observed};

verus! {

/// The domain separator of the circuit's descriptor.
pub const DESCRIPTOR_DOMAIN: &'static str =
    "aerie/hybrid-keccak-f1600-24-slot-v2/256-256-128-slot-segments/aligned-state-subcubes/copy-big-endian-words";

/// The transcript label of the circuit.
pub const CIRCUIT_LABEL: &'static str = "aerie-hybrid-compact-circuit-v2";

/// The BLAKE3 digest of a byte string, as the `blake3` crate computes it.
pub uninterp spec fn blake3_digest(bytes: Seq<u8>) -> Seq<u8>;

/// `blake3::hash`: the 32-byte digest of the whole input. What the digest is
/// is left to the crate; it depends on the input alone.
#[verifier::external_body]
fn blake3_hash(bytes: &[u8]) -> (digest: [u8; 32])
    ensures
        digest@ == blake3_digest(bytes@),
{
    *::blake3::hash(bytes).as_bytes()
}

/// An address in the descriptor; an omitted one is all ones.
pub open spec fn address_code(place: Option<int>) -> int {
    match place {
        Some(p) => p,
        None => 0xFFFF_FFFF_FFFF_FFFF,
    }
}

/// The first `n` codes, eight little-endian bytes each.
pub open spec fn code_bytes(code: spec_fn(int) -> int, n: int) -> Seq<u8>
    decreases n,
{
    if n <= 0 {
        seq![]
    } else {
        code_bytes(code, n - 1) + le_bytes(code(n - 1), 8)
    }
}

/// The codes of the slot wires' places.
pub open spec fn record_codes() -> spec_fn(int) -> int {
    |o: int| address_code(record_place(o))
}

/// The codes of the sponge cells' places, block by block.
pub open spec fn sponge_codes() -> spec_fn(int) -> int {
    |i: int| address_code(sponge_place(i / 131072, i % 131072))
}

/// The codes of the candidate words' sources, slot by slot.
pub open spec fn word_codes() -> spec_fn(int) -> int {
    |i: int| word_place(i / 16, i % 16)
}

/// What the descriptor hashes: the domain, the digests of the two statements,
/// both address maps, and every word-copy edge.
pub open spec fn descriptor_bytes(circuit: Seq<u8>, slot_circuit: Seq<u8>) -> Seq<u8> {
    DESCRIPTOR_DOMAIN.spec_bytes() + circuit + slot_circuit + code_bytes(record_codes(), 131072)
        + code_bytes(sponge_codes(), 524288) + code_bytes(word_codes(), 9792)
}

fn write_address(out: &mut Vec<u8>, position: Option<usize>)
    ensures
        final(out)@ == old(out)@ + le_bytes(
            match position {
                Some(p) => p as int,
                None => 0xFFFF_FFFF_FFFF_FFFF,
            },
            8,
        ),
{
    match position {
        Some(p) => write_le(out, p as u64, 8),
        None => write_le(out, 0xFFFF_FFFF_FFFF_FFFF, 8),
    }
}

/// The bytes that the descriptor hashes.
pub fn descriptor_stream(circuit: &[u8; 32], slot_circuit: &[u8; 32]) -> (out: Vec<u8>)
    ensures
        out@ == descriptor_bytes(circuit@, slot_circuit@),
{
    let mut out: Vec<u8> = Vec::new();
    write_bytes(&mut out, DESCRIPTOR_DOMAIN.as_bytes());
    write_bytes(&mut out, circuit.as_slice());
    write_bytes(&mut out, slot_circuit.as_slice());
    let ghost head = out@;
    assert(head =~= DESCRIPTOR_DOMAIN.spec_bytes() + circuit@ + slot_circuit@);
    let mut o: usize = 0;
    assert(out@ =~= head + code_bytes(record_codes(), 0));
    while o < 131072
        invariant
            o <= 131072,
            out@ == head + code_bytes(record_codes(), o as int),
        decreases 131072 - o,
    {
        let ghost before = out@;
        write_address(&mut out, record_position(o));
        o = o + 1;
        assert(out@ =~= head + code_bytes(record_codes(), o as int));
    }
    let ghost records = out@;
    let mut i: usize = 0;
    assert(out@ =~= records + code_bytes(sponge_codes(), 0));
    while i < 524288
        invariant
            i <= 524288,
            out@ == records + code_bytes(sponge_codes(), i as int),
        decreases 524288 - i,
    {
        write_address(&mut out, sponge_position(i / 131072, i % 131072));
        i = i + 1;
        assert(out@ =~= records + code_bytes(sponge_codes(), i as int));
    }
    let ghost sponges = out@;
    let mut j: usize = 0;
    assert(out@ =~= sponges + code_bytes(word_codes(), 0));
    while j < 9792
        invariant
            j <= 9792,
            out@ == sponges + code_bytes(word_codes(), j as int),
        decreases 9792 - j,
    {
        write_address(&mut out, Some(word_source(j / 16, j % 16)));
        j = j + 1;
        assert(out@ =~= sponges + code_bytes(word_codes(), j as int));
    }
    assert(out@ =~= descriptor_bytes(circuit@, slot_circuit@));
    out
}

/// The circuit's descriptor.
pub fn descriptor(circuit: &[u8; 32], slot_circuit: &[u8; 32]) -> (digest: [u8; 32])
    ensures
        digest@ == blake3_digest(descriptor_bytes(circuit@, slot_circuit@)),
{
    let stream = descriptor_stream(circuit, slot_circuit);
    blake3_hash(stream.as_slice())
}

/// The compact circuit of a batch of records. The matrices of `r1cs` are
/// empty: the rows are those of the sponge, of the slots and of the copies,
/// which the descriptor binds.
pub struct Setup {
    pub r1cs: BlockR1cs,
    pub params: PcsParams,
    pub slots: SlotSetup,
    pub descriptor: [u8; 32],
    /// The digest of the circuit's statement, which the descriptor is made of.
    pub statement: [u8; 32],
}

/// A power of two.
pub open spec fn is_power_of_two(n: int) -> bool {
    exists|k: nat| #[trigger] pow2(k) == n
}

impl Setup {
    /// The setup of `2^log` records.
    pub open spec fn well_formed(self, log: int) -> bool {
        &&& 3 <= log
        &&& self.r1cs.well_formed()
        &&& self.r1cs.a_0.num_rows == K
        &&& self.r1cs.m == log + 19
        &&& self.r1cs.k_log == 19
        &&& self.r1cs.k_skip == 6
        &&& self.r1cs.useful_bits == END
        &&& self.r1cs.layout == WitnessLayout::RowMajor
        &&& self.r1cs.const_pin is None
        &&& self.params == (PcsParams { m: self.r1cs.m, log_inv_rate: 1, log_batch_size: 6 })
        &&& self.slots.well_formed()
        &&& self.slots.n_blocks == pow2(log as nat)
        &&& forall|w: int| 0 <= w < K ==> (#[trigger] self.r1cs.a_0.row(w)).len() == 0
        &&& forall|w: int| 0 <= w < K ==> (#[trigger] self.r1cs.b_0.row(w)).len() == 0
    }

    /// The setup of a batch of records, a power of two and at least eight. The
    /// digests are those of the circuit's and of the slot circuit's statement.
    pub fn new(records: usize, circuit: &[u8; 32], slot_circuit: &[u8; 32]) -> (setup: Setup)
        requires
            is_power_of_two(records as int),
            8 <= records <= 0x8000_0000_0000_0000,
        ensures
            exists|log: int| pow2(log as nat) == records && #[trigger] setup.well_formed(log),
            setup.descriptor@ == blake3_digest(descriptor_bytes(circuit@, slot_circuit@)),
            setup.statement@ == circuit@,
    {
        let log: usize = ceil_log2(records);
        proof {
            lemma2_to64();
            let k = choose|k: nat| #[trigger] pow2(k) == records;
            lemma_log_exact(records as int, log as nat, k);
            if log < 3 {
                vstd::arithmetic::power2::lemma_pow2_strictly_increases(log as nat, 3);
            }
        }
        let slots = SlotSetup::new(records);
        let r1cs = BlockR1cs {
            m: log + K_LOG,
            k_log: K_LOG,
            k_skip: 6,
            useful_bits: END,
            a_0: empty_matrix(K),
            b_0: empty_matrix(K),
            third_is_identity: true,
            layout: WitnessLayout::RowMajor,
            const_pin: None,
        };
        let params = PcsParams { m: r1cs.m, log_inv_rate: 1, log_batch_size: 6 };
        let setup = Setup {
            r1cs,
            params,
            slots,
            descriptor: descriptor(circuit, slot_circuit),
            statement: *circuit,
        };
        assert(setup.well_formed(log as int));
        setup
    }

    /// Bind the circuit to a transcript.
    pub fn bind(&self, out: &mut Vec<Observation>)
        ensures
            all_observed(final(out)@) == all_observed(old(out)@) + seq![
                Observed::Label(CIRCUIT_LABEL.spec_bytes()),
                Observed::Bytes(self.descriptor@),
            ],
    {
        let ghost before = all_observed(out@);
        observe_label(out, CIRCUIT_LABEL);
        observe_bytes(out, self.descriptor.as_slice());
        assert(all_observed(out@) =~= before + seq![
            Observed::Label(CIRCUIT_LABEL.spec_bytes()),
            Observed::Bytes(self.descriptor@),
        ]);
    }

    /// Variables that count the records.
    pub fn record_vars(&self) -> (vars: usize)
        requires
            self.r1cs.m >= K_LOG,
        ensures
            vars == self.r1cs.m - 19,
    {
        self.r1cs.m - K_LOG
    }

    /// Columns of the circuit.
    pub fn n_cols(&self) -> (n: usize)
        ensures
            n == K,
    {
        K
    }

    /// The column of the constant.
    pub fn const_pin_col(&self) -> (column: Option<usize>)
        ensures
            column == Some(CONST),
    {
        Some(CONST)
    }
}

/// The least power of two above a power of two is that power.
proof fn lemma_log_exact(n: int, log: nat, k: nat)
    requires
        is_ceil_log2(n, log),
        pow2(k) == n,
    ensures
        log == k,
{
    if log < k {
        vstd::arithmetic::power2::lemma_pow2_strictly_increases(log, k);
    } else if log > k {
        if log - 1 > k {
            vstd::arithmetic::power2::lemma_pow2_strictly_increases(k, (log - 1) as nat);
        }
    }
}

// ---------------------------------------------------------------------------
// Folding.
// ---------------------------------------------------------------------------

/// The weight of a row at its place; omitted rows and the constant's own row
/// weigh nothing.
pub open spec fn placed_weight(place: Option<int>, constant: bool, weights: Seq<F128>) -> F128 {
    match place {
        Some(p) => if constant {
            fzero()
        } else {
            weights[p]
        },
        None => fzero(),
    }
}

/// The row weights of sponge block `block`.
pub fn sponge_rows(block: usize, weights: &[F128]) -> (rows: Vec<F128>)
    requires
        block < 4,
        weights@.len() == K,
    ensures
        rows@ == Seq::new(
            131072,
            |o: int|
                placed_weight(sponge_place(block as int, o), o == SPONGE_CONST, weights@),
        ),
        forall|o: int|
            0 <= o < 131072 ==> #[trigger] rows@[o] == (match sponge_place(block as int, o) {
                Some(p) if o != SPONGE_CONST => weights@[p],
                _ => fzero(),
            }),
{
    let mut rows: Vec<F128> = Vec::with_capacity(131072);
    let mut o: usize = 0;
    while o < 131072
        invariant
            block < 4,
            weights@.len() == K,
            o <= 131072,
            rows@ == Seq::new(
                o as nat,
                |i: int|
                    placed_weight(sponge_place(block as int, i), i == SPONGE_CONST, weights@),
            ),
        decreases 131072 - o,
    {
        let weight = if o == SPONGE_CONST {
            F128::zero()
        } else {
            match sponge_position(block, o) {
                Some(p) => weights[p],
                None => F128::zero(),
            }
        };
        rows.push(weight);
        o = o + 1;
        assert(rows@ =~= Seq::new(
            o as nat,
            |i: int| placed_weight(sponge_place(block as int, i), i == SPONGE_CONST, weights@),
        ));
    }
    rows
}

/// The row weights of the slot circuit.
pub fn slot_rows(weights: &[F128]) -> (rows: Vec<F128>)
    requires
        weights@.len() == K,
    ensures
        rows@ == Seq::new(131072, |o: int| placed_weight(record_place(o), o == 0, weights@)),
        forall|o: int|
            0 <= o < 131072 ==> #[trigger] rows@[o] == (match record_place(o) {
                Some(p) if o != 0 => weights@[p],
                _ => fzero(),
            }),
{
    let mut rows: Vec<F128> = Vec::with_capacity(131072);
    let mut o: usize = 0;
    while o < 131072
        invariant
            weights@.len() == K,
            o <= 131072,
            rows@ == Seq::new(
                o as nat,
                |i: int| placed_weight(record_place(i), i == 0, weights@),
            ),
        decreases 131072 - o,
    {
        let weight = if o == 0 {
            F128::zero()
        } else {
            match record_position(o) {
                Some(p) => weights[p],
                None => F128::zero(),
            }
        };
        rows.push(weight);
        o = o + 1;
        assert(rows@ =~= Seq::new(
            o as nat,
            |i: int| placed_weight(record_place(i), i == 0, weights@),
        ));
    }
    rows
}

/// The weights of the rows that name each column.
pub fn column_sums(m: &SparseBinaryMatrix, weights: &[F128]) -> (sums: Vec<F128>)
    requires
        m.well_formed(),
        weights@.len() == m.num_rows,
    ensures
        sums@ == Seq::new(m.num_cols as nat, |c: int| column_sum(*m, c, weights@, 0)),
{
    let mut sums: Vec<F128> = Vec::with_capacity(m.num_cols);
    while sums.len() < m.num_cols
        invariant
            sums@.len() <= m.num_cols,
            forall|c: int| 0 <= c < sums@.len() ==> #[trigger] sums@[c] == fzero(),
        decreases m.num_cols - sums@.len(),
    {
        sums.push(F128::zero());
    }
    let mut r: usize = 0;
    while r < m.num_rows
        invariant
            m.well_formed(),
            weights@.len() == m.num_rows,
            r <= m.num_rows,
            sums@.len() == m.num_cols,
            forall|c: int|
                0 <= c < m.num_cols ==> #[trigger] sums@[c] == fsum(
                    |i: int| row_share(m.row(i), c, weights@[0 + i]),
                    r as int,
                ),
        decreases m.num_rows - r,
    {
        let row = &m.rows[r];
        let weight = weights[r];
        let ghost before = sums@;
        assert(columns_below(m.row(r as int), m.num_cols as int));
        assert forall|c: int| 0 <= c < m.num_cols implies #[trigger] sums@[c] == fadd(
            before[c],
            repeated(weight, hits(row@, c, 0)),
        ) by {
            lemma_fadd_zero(before[c]);
        }
        let mut t: usize = 0;
        while t < row.len()
            invariant
                columns_below(row@, m.num_cols as int),
                t <= row@.len(),
                sums@.len() == m.num_cols,
                before.len() == m.num_cols,
                forall|c: int|
                    0 <= c < m.num_cols ==> #[trigger] sums@[c] == fadd(
                        before[c],
                        repeated(weight, hits(row@, c, t as int)),
                    ),
            decreases row@.len() - t,
        {
            let col: usize = row[t];
            let ghost was = sums@;
            let sum = sums[col] + weight;
            sums.set(col, sum);
            proof {
                assert forall|c: int| 0 <= c < m.num_cols implies #[trigger] sums@[c] == fadd(
                    before[c],
                    repeated(weight, hits(row@, c, t + 1)),
                ) by {
                    assert(was[c] == fadd(before[c], repeated(weight, hits(row@, c, t as int))));
                    if c == col {
                        lemma_hits_bound(row@, c, t as int);
                        lemma_fadd_assoc(
                            before[c],
                            repeated(weight, hits(row@, c, t as int)),
                            weight,
                        );
                    }
                }
            }
            t = t + 1;
        }
        proof {
            assert forall|c: int| 0 <= c < m.num_cols implies #[trigger] sums@[c] == fsum(
                |i: int| row_share(m.row(i), c, weights@[0 + i]),
                r + 1,
            ) by {
                let f = |i: int| row_share(m.row(i), c, weights@[0 + i]);
                assert(before[c] == fsum(f, r as int));
                assert(f(r as int) == repeated(weight, hits(row@, c, row@.len() as int)));
            }
        }
        r = r + 1;
    }
    proof {
        assert forall|c: int| 0 <= c < m.num_cols implies #[trigger] sums@[c] == column_sum(
            *m,
            c,
            weights@,
            0,
        ) by {
            let f = |i: int| row_share(m.row(i), c, weights@[0 + i]);
            let g = |r: int| row_share(m.row(r), c, weights@[0 + r]);
            lemma_fsum_congr(f, g, m.num_rows as int);
        }
    }
    assert(sums@ =~= Seq::new(m.num_cols as nat, |c: int| column_sum(*m, c, weights@, 0)));
    sums
}

proof fn lemma_hits_bound(row: Seq<usize>, c: int, t: int)
    ensures
        0 <= hits(row, c, t),
    decreases t,
{
    if t > 0 {
        lemma_hits_bound(row, c, t - 1);
    }
}

/// What the values contribute to column `p`: those whose place it is.
pub open spec fn placed_sum(
    place: spec_fn(int) -> Option<int>,
    values: spec_fn(int) -> F128,
    n: int,
    p: int,
) -> F128 {
    fsum(
        |o: int|
            if place(o) == Some(p) {
                values(o)
            } else {
                fzero()
            },
        n,
    )
}

/// The places of the sponge cells, block by block.
pub open spec fn sponge_places() -> spec_fn(int) -> Option<int> {
    |i: int| sponge_place(i / 131072, i % 131072)
}

/// The places of the slot wires.
pub open spec fn record_places() -> spec_fn(int) -> Option<int> {
    |o: int| record_place(o)
}

/// The fold of the slot matrices at column `c`.
pub open spec fn slot_fold(
    a: SparseBinaryMatrix,
    b: SparseBinaryMatrix,
    alpha: F128,
    weights: Seq<F128>,
    c: int,
) -> F128 {
    let rows = Seq::new(131072, |o: int| placed_weight(record_place(o), o == 0, weights));
    fadd(fmul(alpha, column_sum(a, c, rows, 0)), column_sum(b, c, rows, 0))
}

/// The weight of copy row `j`.
pub open spec fn copy_weight(alpha: F128, weights: Seq<F128>, j: int) -> F128 {
    fmul(alpha, weights[record_place((1 + j % 16) * 1024 + j / 16).unwrap()])
}

/// What copy row `j` adds to column `p`: its left factor becomes the state bit
/// instead of the word bit.
pub open spec fn copy_share(alpha: F128, weights: Seq<F128>, j: int, p: int) -> F128 {
    let weight = copy_weight(alpha, weights, j);
    fadd(
        if record_place((1 + j % 16) * 1024 + j / 16) == Some(p) {
            weight
        } else {
            fzero()
        },
        if word_place(j / 16, j % 16) == p {
            weight
        } else {
            fzero()
        },
    )
}

/// Column `p` of the folded circuit: the constant's row, the sponge's rows,
/// the slots' rows, and the copies.
pub open spec fn folded_column(
    a: SparseBinaryMatrix,
    b: SparseBinaryMatrix,
    alpha: F128,
    weights: Seq<F128>,
    sponge: spec_fn(int) -> F128,
    p: int,
) -> F128 {
    let constant = if p == CONST {
        fmul(fadd(alpha, fone()), weights[CONST as int])
    } else {
        fzero()
    };
    fadd(
        fadd(
            fadd(constant, placed_sum(sponge_places(), sponge, 524288, p)),
            placed_sum(
                record_places(),
                |o: int| slot_fold(a, b, alpha, weights, o),
                131072,
                p,
            ),
        ),
        fsum(|j: int| copy_share(alpha, weights, j, p), 9792),
    )
}

/// Add to one entry.
fn add_at(result: &mut Vec<F128>, p: usize, value: F128)
    requires
        p < old(result)@.len(),
    ensures
        final(result)@ == old(result)@.update(p as int, fadd(old(result)@[p as int], value)),
{
    let sum = result[p] + value;
    result.set(p, sum);
}

/// Add the four sponge blocks' folds.
fn add_sponge(result: &mut Vec<F128>, sponge: &[Vec<F128>])
    requires
        old(result)@.len() == K,
        sponge@.len() == 4,
        forall|b: int| 0 <= b < 4 ==> (#[trigger] sponge@[b])@.len() == 131072,
    ensures
        final(result)@ == Seq::new(
            K as nat,
            |p: int|
                fadd(
                    old(result)@[p],
                    placed_sum(
                        sponge_places(),
                        |i: int| sponge@[i / 131072]@[i % 131072],
                        524288,
                        p,
                    ),
                ),
        ),
{
    let ghost start = result@;
    let ghost values = |i: int| sponge@[i / 131072]@[i % 131072];
    let ghost term = |p: int|
        |o: int|
            if sponge_places()(o) == Some(p) {
                values(o)
            } else {
                fzero()
            };
    proof {
        assert forall|p: int| 0 <= p < K implies #[trigger] result@[p] == fadd(
            start[p],
            fsum(term(p), 0),
        ) by {
            lemma_fadd_zero(start[p]);
        }
    }
    let mut i: usize = 0;
    while i < 524288
        invariant
            i <= 524288,
            result@.len() == K,
            start.len() == K,
            sponge@.len() == 4,
            forall|b: int| 0 <= b < 4 ==> (#[trigger] sponge@[b])@.len() == 131072,
            values == (|i: int| sponge@[i / 131072]@[i % 131072]),
            term == (|p: int|
                |o: int|
                    if sponge_places()(o) == Some(p) {
                        values(o)
                    } else {
                        fzero()
                    }),
            forall|p: int|
                0 <= p < K ==> #[trigger] result@[p] == fadd(start[p], fsum(term(p), i as int)),
        decreases 524288 - i,
    {
        let block: usize = i / 131072;
        let old_cell: usize = i % 131072;
        let ghost before = result@;
        assert(sponge@[block as int]@.len() == 131072);
        let value = sponge[block][old_cell];
        match sponge_position(block, old_cell) {
            Some(p) => {
                add_at(result, p, value);
            },
            None => {},
        }
        proof {
            assert forall|p: int| 0 <= p < K implies #[trigger] result@[p] == fadd(
                start[p],
                fsum(term(p), i + 1),
            ) by {
                assert(before[p] == fadd(start[p], fsum(term(p), i as int)));
                lemma_fadd_assoc(start[p], fsum(term(p), i as int), term(p)(i as int));
                lemma_fadd_zero(before[p]);
            }
        }
        i = i + 1;
    }
    proof {
        assert forall|p: int| 0 <= p < K implies #[trigger] result@[p] == fadd(
            start[p],
            placed_sum(sponge_places(), values, 524288, p),
        ) by {
            let g = |o: int|
                if sponge_places()(o) == Some(p) {
                    values(o)
                } else {
                    fzero()
                };
            lemma_fsum_congr(term(p), g, 524288);
        }
    }
    assert(result@ =~= Seq::new(
        K as nat,
        |p: int|
            fadd(
                start[p],
                placed_sum(sponge_places(), |i: int| sponge@[i / 131072]@[i % 131072], 524288, p),
            ),
    ));
}

/// Add the slot circuit's fold.
fn add_slots(result: &mut Vec<F128>, fold: &[F128])
    requires
        old(result)@.len() == K,
        fold@.len() == 131072,
    ensures
        final(result)@ == Seq::new(
            K as nat,
            |p: int|
                fadd(
                    old(result)@[p],
                    placed_sum(record_places(), |o: int| fold@[o], 131072, p),
                ),
        ),
{
    let ghost start = result@;
    let ghost values = |o: int| fold@[o];
    let ghost term = |p: int|
        |o: int|
            if record_places()(o) == Some(p) {
                values(o)
            } else {
                fzero()
            };
    proof {
        assert forall|p: int| 0 <= p < K implies #[trigger] result@[p] == fadd(
            start[p],
            fsum(term(p), 0),
        ) by {
            lemma_fadd_zero(start[p]);
        }
    }
    let mut o: usize = 0;
    while o < 131072
        invariant
            o <= 131072,
            result@.len() == K,
            start.len() == K,
            fold@.len() == 131072,
            values == (|o: int| fold@[o]),
            term == (|p: int|
                |o: int|
                    if record_places()(o) == Some(p) {
                        values(o)
                    } else {
                        fzero()
                    }),
            forall|p: int|
                0 <= p < K ==> #[trigger] result@[p] == fadd(start[p], fsum(term(p), o as int)),
        decreases 131072 - o,
    {
        let ghost before = result@;
        match record_position(o) {
            Some(p) => {
                add_at(result, p, fold[o]);
            },
            None => {},
        }
        proof {
            assert forall|p: int| 0 <= p < K implies #[trigger] result@[p] == fadd(
                start[p],
                fsum(term(p), o + 1),
            ) by {
                assert(before[p] == fadd(start[p], fsum(term(p), o as int)));
                lemma_fadd_assoc(start[p], fsum(term(p), o as int), term(p)(o as int));
                lemma_fadd_zero(before[p]);
            }
        }
        o = o + 1;
    }
    proof {
        assert forall|p: int| 0 <= p < K implies #[trigger] result@[p] == fadd(
            start[p],
            placed_sum(record_places(), values, 131072, p),
        ) by {
            let g = |o: int|
                if record_places()(o) == Some(p) {
                    values(o)
                } else {
                    fzero()
                };
            lemma_fsum_congr(term(p), g, 131072);
        }
    }
    assert(result@ =~= Seq::new(
        K as nat,
        |p: int| fadd(start[p], placed_sum(record_places(), |o: int| fold@[o], 131072, p)),
    ));
}

/// Add the copy rows.
fn add_copies(result: &mut Vec<F128>, alpha: F128, weights: &[F128])
    requires
        old(result)@.len() == K,
        weights@.len() == K,
    ensures
        final(result)@ == Seq::new(
            K as nat,
            |p: int|
                fadd(
                    old(result)@[p],
                    fsum(|j: int| copy_share(alpha, weights@, j, p), 9792),
                ),
        ),
{
    let ghost start = result@;
    let ghost term = |p: int| |j: int| copy_share(alpha, weights@, j, p);
    proof {
        assert forall|p: int| 0 <= p < K implies #[trigger] result@[p] == fadd(
            start[p],
            fsum(term(p), 0),
        ) by {
            lemma_fadd_zero(start[p]);
        }
    }
    let mut j: usize = 0;
    while j < 9792
        invariant
            j <= 9792,
            result@.len() == K,
            start.len() == K,
            weights@.len() == K,
            term == (|p: int| |j: int| copy_share(alpha, weights@, j, p)),
            forall|p: int|
                0 <= p < K ==> #[trigger] result@[p] == fadd(start[p], fsum(term(p), j as int)),
        decreases 9792 - j,
    {
        let slot: usize = j / 16;
        let bit: usize = j % 16;
        let wire: usize = word_position(slot, bit);
        assert(wire == (1 + j % 16) * 1024 + j / 16);
        let ghost before = result@;
        match record_position(wire) {
            Some(row) => {
                let source: usize = word_source(slot, bit);
                let weight = alpha * weights[row];
                add_at(result, row, weight);
                let ghost mid = result@;
                add_at(result, source, weight);
                proof {
                    assert forall|p: int| 0 <= p < K implies #[trigger] result@[p] == fadd(
                        start[p],
                        fsum(term(p), j + 1),
                    ) by {
                        assert(before[p] == fadd(start[p], fsum(term(p), j as int)));
                        let share = copy_share(alpha, weights@, j as int, p);
                        lemma_fadd_assoc(start[p], fsum(term(p), j as int), share);
                        let first = if p == row {
                            weight
                        } else {
                            fzero()
                        };
                        let second = if p == source {
                            weight
                        } else {
                            fzero()
                        };
                        assert(share == fadd(first, second));
                        lemma_fadd_zero(before[p]);
                        assert(mid[p] == fadd(before[p], first));
                        lemma_fadd_zero(mid[p]);
                        assert(result@[p] == fadd(mid[p], second));
                        lemma_fadd_assoc(before[p], first, second);
                    }
                }
            },
            None => {
                assert(false) by {
                    assert(wire as int / 1024 == 1 + bit && wire as int % 1024 == slot);
                }
            },
        }
        j = j + 1;
    }
    proof {
        assert forall|p: int| 0 <= p < K implies #[trigger] result@[p] == fadd(
            start[p],
            fsum(|j: int| copy_share(alpha, weights@, j, p), 9792),
        ) by {
            lemma_fsum_congr(term(p), |j: int| copy_share(alpha, weights@, j, p), 9792);
        }
    }
    assert(result@ =~= Seq::new(
        K as nat,
        |p: int| fadd(start[p], fsum(|j: int| copy_share(alpha, weights@, j, p), 9792)),
    ));
}

impl Setup {
    /// The folded circuit under the given row weights. The sponge blocks' folds
    /// come from the sponge circuit, under the rows of `sponge_rows`; a column
    /// without a place must fold to zero there.
    pub fn fold_alpha_batched(&self, alpha: F128, weights: &[F128], sponge: &[Vec<F128>]) -> (
        result: Vec<F128>)
        requires
            self.slots.well_formed(),
            weights@.len() == K,
            sponge@.len() == 4,
            forall|b: int| 0 <= b < 4 ==> (#[trigger] sponge@[b])@.len() == 131072,
            forall|b: int, o: int|
                0 <= b < 4 && 0 <= o < 131072 && sponge_place(b, o) is None ==> #[trigger] sponge@[b]@[o]
                    == fzero(),
        ensures
            result@ == Seq::new(
                K as nat,
                |p: int|
                    folded_column(
                        self.slots.r1cs.a_0,
                        self.slots.r1cs.b_0,
                        alpha,
                        weights@,
                        |i: int| sponge@[i / 131072]@[i % 131072],
                        p,
                    ),
            ),
    {
        let ghost a_0 = self.slots.r1cs.a_0;
        let ghost b_0 = self.slots.r1cs.b_0;
        let mut result: Vec<F128> = Vec::with_capacity(K);
        while result.len() < K
            invariant
                result@.len() <= K,
                forall|p: int| 0 <= p < result@.len() ==> #[trigger] result@[p] == fzero(),
            decreases K - result@.len(),
        {
            result.push(F128::zero());
        }
        result.set(CONST, (alpha + F128::one()) * weights[CONST]);
        let ghost constants = result@;
        add_sponge(&mut result, sponge);
        let ghost with_sponge = result@;
        let rows = slot_rows(weights);
        proof {
            assert forall|w: int| 0 <= w < 131072 implies columns_below(
                #[trigger] a_0.row(w),
                131072,
            ) by {
                assert(is_form(a_0.row(w)));
            }
            assert forall|w: int| 0 <= w < 131072 implies columns_below(
                #[trigger] b_0.row(w),
                131072,
            ) by {
                assert(is_form(b_0.row(w)));
            }
        }
        let left = column_sums(&self.slots.r1cs.a_0, rows.as_slice());
        let right = column_sums(&self.slots.r1cs.b_0, rows.as_slice());
        let mut fold: Vec<F128> = Vec::with_capacity(131072);
        let mut o: usize = 0;
        while o < 131072
            invariant
                o <= 131072,
                rows@ == Seq::new(
                    131072,
                    |o: int| placed_weight(record_place(o), o == 0, weights@),
                ),
                left@ == Seq::new(131072, |c: int| column_sum(a_0, c, rows@, 0)),
                right@ == Seq::new(131072, |c: int| column_sum(b_0, c, rows@, 0)),
                fold@ == Seq::new(o as nat, |c: int| slot_fold(a_0, b_0, alpha, weights@, c)),
            decreases 131072 - o,
        {
            fold.push(alpha * left[o] + right[o]);
            o = o + 1;
            assert(fold@ =~= Seq::new(o as nat, |c: int| slot_fold(a_0, b_0, alpha, weights@, c)));
        }
        add_slots(&mut result, fold.as_slice());
        let ghost with_slots = result@;
        add_copies(&mut result, alpha, weights);
        proof {
            let values = |i: int| sponge@[i / 131072]@[i % 131072];
            assert forall|p: int| 0 <= p < K implies #[trigger] result@[p] == folded_column(
                a_0,
                b_0,
                alpha,
                weights@,
                values,
                p,
            ) by {
                let f = |o: int|
                    if record_places()(o) == Some(p) {
                        (|o: int| fold@[o])(o)
                    } else {
                        fzero()
                    };
                let g = |o: int|
                    if record_places()(o) == Some(p) {
                        (|o: int| slot_fold(a_0, b_0, alpha, weights@, o))(o)
                    } else {
                        fzero()
                    };
                lemma_fsum_congr(f, g, 131072);
                assert(placed_sum(record_places(), |o: int| fold@[o], 131072, p) == fsum(
                    f,
                    131072,
                )) by {
                    lemma_fsum_congr(
                        f,
                        |o: int|
                            if record_places()(o) == Some(p) {
                                (|o: int| fold@[o])(o)
                            } else {
                                fzero()
                            },
                        131072,
                    );
                }
                assert(with_sponge[p] == fadd(
                    constants[p],
                    placed_sum(sponge_places(), values, 524288, p),
                ));
                assert(with_slots[p] == fadd(
                    with_sponge[p],
                    placed_sum(record_places(), |o: int| fold@[o], 131072, p),
                ));
            }
        }
        assert(result@ =~= Seq::new(
            K as nat,
            |p: int|
                folded_column(
                    self.slots.r1cs.a_0,
                    self.slots.r1cs.b_0,
                    alpha,
                    weights@,
                    |i: int| sponge@[i / 131072]@[i % 131072],
                    p,
                ),
        ));
        result
    }
}

proof fn lemma_le_len(v: int, n: nat)
    ensures
        le_bytes(v, n).len() == n,
    decreases n,
{
    if n > 0 {
        lemma_le_len(v / 256, (n - 1) as nat);
    }
}

proof fn lemma_code_place(code: spec_fn(int) -> int, n: int, i: int)
    requires
        0 <= n,
    ensures
        code_bytes(code, n).len() == 8 * n,
        0 <= i < n ==> code_bytes(code, n).subrange(8 * i, 8 * i + 8) == le_bytes(code(i), 8),
    decreases n,
{
    if n > 0 {
        lemma_code_place(code, n - 1, i);
        lemma_le_len(code(n - 1), 8);
        let all = code_bytes(code, n);
        let before = code_bytes(code, n - 1);
        if 0 <= i < n - 1 {
            assert(all.subrange(8 * i, 8 * i + 8) =~= before.subrange(8 * i, 8 * i + 8));
        } else if i == n - 1 {
            assert(all.subrange(8 * i, 8 * i + 8) =~= le_bytes(code(i), 8));
        }
    }
}

/// The descriptor holds the whole circuit: the digests of both statements behind
/// the domain, then the place of every slot wire, of every sponge cell and of
/// every bit of every candidate word, in order, with all ones for a cell that
/// has no place.
pub proof fn descriptors_hold_every_address(circuit: Seq<u8>, slot_circuit: Seq<u8>, i: int)
    requires
        circuit.len() == 32,
        slot_circuit.len() == 32,
        0 <= i,
    ensures
        ({
            let out = descriptor_bytes(circuit, slot_circuit);
            let at = DESCRIPTOR_DOMAIN.spec_bytes().len() as int;
            let records = at + 64;
            let sponges = records + 8 * 131072;
            let words = sponges + 8 * 524288;
            &&& out.take(at) == DESCRIPTOR_DOMAIN.spec_bytes()
            &&& out.subrange(at, at + 32) == circuit
            &&& out.subrange(at + 32, at + 64) == slot_circuit
            &&& i < 131072 ==> out.subrange(records + 8 * i, records + 8 * i + 8) == le_bytes(
                match record_place(i) {
                    Some(p) => p,
                    None => 0xFFFF_FFFF_FFFF_FFFF,
                },
                8,
            )
            &&& i < 524288 ==> out.subrange(sponges + 8 * i, sponges + 8 * i + 8) == le_bytes(
                match sponge_place(i / 131072, i % 131072) {
                    Some(p) => p,
                    None => 0xFFFF_FFFF_FFFF_FFFF,
                },
                8,
            )
            &&& i < 9792 ==> out.subrange(words + 8 * i, words + 8 * i + 8) == le_bytes(
                word_place(i / 16, i % 16),
                8,
            )
            &&& out.len() == words + 8 * 9792
        }),
{
    let out = descriptor_bytes(circuit, slot_circuit);
    let domain = DESCRIPTOR_DOMAIN.spec_bytes();
    let at = domain.len() as int;
    let (r, s, w) = (
        code_bytes(record_codes(), 131072),
        code_bytes(sponge_codes(), 524288),
        code_bytes(word_codes(), 9792),
    );
    lemma_code_place(record_codes(), 131072, i);
    lemma_code_place(sponge_codes(), 524288, i);
    lemma_code_place(word_codes(), 9792, i);
    let records = at + 64;
    let sponges = records + 8 * 131072;
    let words = sponges + 8 * 524288;
    assert(out.take(at) =~= domain);
    assert(out.subrange(at, at + 32) =~= circuit);
    assert(out.subrange(at + 32, at + 64) =~= slot_circuit);
    if i < 131072 {
        assert(out.subrange(records + 8 * i, records + 8 * i + 8) =~= r.subrange(
            8 * i,
            8 * i + 8,
        ));
    }
    if i < 524288 {
        assert(out.subrange(sponges + 8 * i, sponges + 8 * i + 8) =~= s.subrange(
            8 * i,
            8 * i + 8,
        ));
    }
    if i < 9792 {
        assert(out.subrange(words + 8 * i, words + 8 * i + 8) =~= w.subrange(8 * i, 8 * i + 8));
    }
}

} // verus!
