//! Wire positions, and the reusable state of the slot prover.
use vstd::arithmetic::power2::{
    lemma2_to64, lemma_pow2_pos, lemma_pow2_strictly_increases, lemma_pow2_unfold, pow2,
};
use vstd::prelude::*;

use crate::hash_to_point_slots::matrices::{build_matrices, pos, slot_matrices};
use crate::hash_to_point_slots::relation::{
    block_holds, row_left, row_right, slot_row_holds, wire_at,
};
use crate::hash_to_point_slots::witness::{build_block_witness_with, is_block_witness};
use crate::hash_to_point_slots::{
    ACC, CNT, COUNTER_BITS, G, GATE, H, K, K_LOG, K_SKIP, PLANE, Q, SLOTS, U, USEFUL_BITS, X,
    Z_CONST_POS,
};
use crate::prover::schedule::WitnessLayout;
use crate::r1cs::{block_of, lin_eval, row_holds, BlockR1cs};

verus! {

/// The accept flag of `slot`.
pub fn accept_position(slot: usize) -> (w: usize)
    requires
        slot < PLANE,
    ensures
        w == wire_at(ACC as int, slot as int),
{
    pos(ACC, slot)
}

/// The centering flag of `slot`.
pub fn centering_position(slot: usize) -> (w: usize)
    requires
        slot < PLANE,
    ensures
        w == wire_at(U as int, slot as int),
{
    pos(U, slot)
}

/// The write gate of `slot`: accepted and before the 512th acceptance.
pub fn gate_position(slot: usize) -> (w: usize)
    requires
        slot < PLANE,
    ensures
        w == wire_at(GATE as int, slot as int),
{
    pos(GATE, slot)
}

/// Quotient bit `bit` of `slot`.
pub fn quotient_position(slot: usize, bit: usize) -> (w: usize)
    requires
        slot < PLANE,
        bit < 3,
    ensures
        w == wire_at(Q + bit, slot as int),
{
    pos(Q + bit, slot)
}

/// Candidate word bit `bit` of `slot`.
pub fn word_position(slot: usize, bit: usize) -> (w: usize)
    requires
        slot < PLANE,
        bit < 16,
    ensures
        w == wire_at(X + bit, slot as int),
{
    pos(X + bit, slot)
}

/// Borrow product `bit` of `slot`.
pub fn borrow_position(slot: usize, bit: usize) -> (w: usize)
    requires
        slot < PLANE,
        bit < 16,
    ensures
        w == wire_at(G + bit, slot as int),
{
    pos(G + bit, slot)
}

/// Counter-increment product `bit` of `slot`.
pub fn increment_position(slot: usize, bit: usize) -> (w: usize)
    requires
        slot < PLANE,
        bit < COUNTER_BITS,
    ensures
        w == wire_at(H + bit, slot as int),
{
    pos(H + bit, slot)
}

/// Counter-after bit `bit` of `slot`.
pub fn counter_position(slot: usize, bit: usize) -> (w: usize)
    requires
        slot < PLANE,
        bit < COUNTER_BITS,
    ensures
        w == wire_at(CNT + bit, slot as int),
{
    pos(CNT + bit, slot)
}

/// The plane index of a wire.
pub fn plane_of(position: usize) -> (plane: usize)
    ensures
        plane as int == position as int / PLANE as int,
{
    position / PLANE
}

/// The size parameters of the polynomial commitment.
#[derive(Clone, Copy, Debug, PartialEq, Eq, Structural)]
pub struct PcsParams {
    pub m: usize,
    pub log_inv_rate: usize,
    pub log_batch_size: usize,
}

/// `k` is the logarithm of the smallest power of two that is at least `n`.
pub open spec fn is_ceil_log2(n: int, k: nat) -> bool {
    &&& n <= pow2(k)
    &&& k == 0 || pow2((k - 1) as nat) < n
}

/// The logarithm of the smallest power of two that is at least `n`.
pub fn ceil_log2(n: usize) -> (k: usize)
    requires
        n <= 0x8000_0000_0000_0000,
    ensures
        is_ceil_log2(n as int, k as nat),
        n <= pow2(k as nat),
        k == 0 || pow2((k - 1) as nat) < n,
        k <= 63,
{
    let mut k: usize = 0;
    let mut power: u128 = 1;
    proof {
        lemma2_to64();
    }
    while power < n as u128
        invariant
            power == pow2(k as nat),
            k <= 63,
            n <= 0x8000_0000_0000_0000,
            k == 0 || pow2((k - 1) as nat) < n,
        decreases 64 - k,
    {
        proof {
            lemma2_to64();
            lemma_pow2_unfold((k + 1) as nat);
            if k >= 63 {
                assert(pow2(63) == 0x8000_0000_0000_0000);
            }
        }
        power = 2 * power;
        k = k + 1;
    }
    k
}

/// The shared block constraint system and commitment parameters of a batch of
/// records. One block is one record.
pub struct SlotSetup {
    pub n_blocks: usize,
    pub r1cs: BlockR1cs,
    pub pcs_params: PcsParams,
}

/// The block constraint system of the slot relation over `2^n_blocks_log`
/// blocks.
pub open spec fn slot_r1cs(r1cs: BlockR1cs, n_blocks_log: int) -> bool {
    &&& slot_matrices(r1cs.a_0, r1cs.b_0)
    &&& r1cs.m == n_blocks_log + K_LOG
    &&& r1cs.k_log == K_LOG
    &&& r1cs.k_skip == K_SKIP
    &&& r1cs.useful_bits == USEFUL_BITS
    &&& r1cs.third_is_identity
    &&& r1cs.layout == WitnessLayout::RowMajor
    &&& r1cs.const_pin == Some(Z_CONST_POS)
}

/// The block constraint system of the slot relation.
pub fn build_block_r1cs(n_blocks_log: usize) -> (r1cs: BlockR1cs)
    requires
        n_blocks_log <= usize::MAX - K_LOG,
    ensures
        slot_r1cs(r1cs, n_blocks_log as int),
{
    let (a_0, b_0) = build_matrices();
    BlockR1cs {
        m: n_blocks_log + K_LOG,
        k_log: K_LOG,
        k_skip: K_SKIP,
        useful_bits: USEFUL_BITS,
        a_0,
        b_0,
        third_is_identity: true,
        layout: WitnessLayout::RowMajor,
        const_pin: Some(Z_CONST_POS),
    }
}

/// The words of block `index`: the given block, or zeros past the last one.
pub open spec fn block_words(blocks: Seq<[u16; SLOTS]>, index: int) -> Seq<u16> {
    if index < blocks.len() {
        blocks[index]@
    } else {
        Seq::new(SLOTS as nat, |i: int| 0u16)
    }
}

impl SlotSetup {
    /// The setup is the one of its block count.
    pub open spec fn well_formed(self) -> bool {
        &&& self.r1cs.m >= K_LOG + 3
        &&& slot_r1cs(self.r1cs, self.r1cs.m - K_LOG)
        &&& self.r1cs.m > K_LOG + 3 ==> is_ceil_log2(
            self.n_blocks as int,
            (self.r1cs.m - K_LOG) as nat,
        )
        &&& self.n_blocks <= pow2((self.r1cs.m - K_LOG) as nat)
        &&& self.pcs_params == (PcsParams { m: self.r1cs.m, log_inv_rate: 1, log_batch_size: 6 })
    }

    /// The setup of a batch of `n_blocks` records, padded to a power of two
    /// and to at least eight blocks.
    pub fn new(n_blocks: usize) -> (setup: SlotSetup)
        requires
            n_blocks <= 0x8000_0000_0000_0000,
        ensures
            setup.well_formed(),
            setup.n_blocks == n_blocks,
            setup.r1cs.m >= 20,
            n_blocks <= pow2((setup.r1cs.m - 17) as nat),
            setup.r1cs.m > 20 ==> pow2((setup.r1cs.m - 18) as nat) < n_blocks,
            setup.pcs_params.m == setup.r1cs.m,
            setup.pcs_params.log_inv_rate == 1,
            setup.pcs_params.log_batch_size == 6,
    {
        let k: usize = ceil_log2(n_blocks);
        let n_blocks_log: usize = if k < 3 {
            3
        } else {
            k
        };
        proof {
            if k < 3 {
                lemma_pow2_strictly_increases(k as nat, 3);
            }
        }
        let r1cs = build_block_r1cs(n_blocks_log);
        let pcs_params = PcsParams { m: r1cs.m, log_inv_rate: 1, log_batch_size: 6 };
        SlotSetup { n_blocks, r1cs, pcs_params }
    }

    /// The witness of the record blocks, with zero-word blocks as padding.
    pub fn generate_witness(&self, blocks: &Vec<[u16; SLOTS]>) -> (z: Vec<bool>)
        requires
            self.well_formed(),
            blocks@.len() == self.n_blocks,
            pow2(self.r1cs.m as nat) <= usize::MAX,
        ensures
            z@.len() == pow2(self.r1cs.m as nat),
            forall|index: int|
                0 <= index < pow2((self.r1cs.m - K_LOG) as nat) ==> is_block_witness(
                    #[trigger] block_of(z@, K as int, index),
                    block_words(blocks@, index),
                ),
    {
        let zero_block: [u16; SLOTS] = [0u16; SLOTS];
        let log: usize = self.r1cs.m - K_LOG;
        proof {
            lemma2_to64();
            vstd::arithmetic::power2::lemma_pow2_adds(log as nat, K_LOG as nat);
            assert(pow2(17) == 131_072);
            lemma_pow2_pos(log as nat);
        }
        let padded: usize = power_of_two(log);
        let mut z: Vec<bool> = Vec::new();
        let mut index: usize = 0;
        while index < padded
            invariant
                self.well_formed(),
                blocks@.len() == self.n_blocks,
                padded == pow2((self.r1cs.m - K_LOG) as nat),
                padded * K <= usize::MAX,
                index <= padded,
                z@.len() == index * K,
                zero_block@ == Seq::new(SLOTS as nat, |i: int| 0u16),
                forall|k: int|
                    0 <= k < index ==> is_block_witness(
                        #[trigger] block_of(z@, K as int, k),
                        block_words(blocks@, k),
                    ),
            decreases padded - index,
        {
            let words: &[u16; SLOTS] = if index < blocks.len() {
                &blocks[index]
            } else {
                &zero_block
            };
            let (mut block, _counter) = build_block_witness_with(
                &self.r1cs.a_0,
                &self.r1cs.b_0,
                words,
            );
            let ghost before = z@;
            let ghost added = block@;
            z.append(&mut block);
            proof {
                assert(z@ =~= before + added);
                assert forall|k: int| 0 <= k < index + 1 implies is_block_witness(
                    #[trigger] block_of(z@, K as int, k),
                    block_words(blocks@, k),
                ) by {
                    if k < index {
                        assert(k * K + K <= index * K) by (nonlinear_arith)
                            requires
                                k + 1 <= index,
                        ;
                        assert(block_of(z@, K as int, k) =~= block_of(before, K as int, k));
                        assert(is_block_witness(
                            block_of(before, K as int, k),
                            block_words(blocks@, k),
                        ));
                    } else {
                        assert(block_of(z@, K as int, k) =~= added);
                        assert(block_words(blocks@, k) =~= words@);
                    }
                }
            }
            index = index + 1;
        }
        z
    }
}

/// `2^k`.
pub fn power_of_two(k: usize) -> (power: usize)
    requires
        pow2(k as nat) <= usize::MAX,
    ensures
        power == pow2(k as nat),
{
    let mut power: usize = 1;
    let mut i: usize = 0;
    proof {
        lemma2_to64();
    }
    while i < k
        invariant
            i <= k,
            pow2(k as nat) <= usize::MAX,
            power == pow2(i as nat),
        decreases k - i,
    {
        proof {
            lemma_pow2_unfold((i + 1) as nat);
            if i + 1 < k {
                lemma_pow2_strictly_increases((i + 1) as nat, k as nat);
            }
        }
        power = 2 * power;
        i = i + 1;
    }
    power
}

/// Completeness: the witness of a batch of records satisfies every row of the
/// batch's constraint system.
pub proof fn generated_witness_satisfies(r1cs: BlockR1cs, z: Seq<bool>, words: spec_fn(int) -> Seq<u16>)
    requires
        slot_matrices(r1cs.a_0, r1cs.b_0),
        forall|index: int|
            0 <= index < z.len() as int / K as int ==> is_block_witness(
                #[trigger] block_of(z, K as int, index),
                words(index),
            ),
    ensures
        r1cs.holds(z),
{
    assert forall|block: int, w: int|
        0 <= block < z.len() as int / K as int && 0 <= w < K implies #[trigger] row_holds(
        r1cs.a_0,
        r1cs.b_0,
        block_of(z, K as int, block),
        w,
    ) by {
        let part = block_of(z, K as int, block);
        assert(is_block_witness(part, words(block)));
        assert(slot_row_holds(part, w));
        assert(lin_eval(r1cs.a_0.row(w), part) == row_left(part, w));
        assert(lin_eval(r1cs.b_0.row(w), part) == row_right(part, w));
    }
}

/// The slot constraint system is the slot relation: a block with the constant
/// wire at one satisfies every row exactly when the relation holds on it.
pub proof fn slot_rows_are_the_relation(r1cs: BlockR1cs, z: Seq<bool>)
    requires
        slot_matrices(r1cs.a_0, r1cs.b_0),
        z.len() == K,
        z[0],
    ensures
        r1cs.holds(z) == block_holds(z),
{
    let part = block_of(z, K as int, 0);
    assert(part =~= z);
    assert forall|w: int| 0 <= w < K implies row_holds(r1cs.a_0, r1cs.b_0, z, w)
        == #[trigger] slot_row_holds(z, w) by {
        assert(lin_eval(r1cs.a_0.row(w), z) == row_left(z, w));
        assert(lin_eval(r1cs.b_0.row(w), z) == row_right(z, w));
    }
    if r1cs.holds(z) {
        assert forall|w: int| 0 <= w < K implies #[trigger] slot_row_holds(z, w) by {
            assert(row_holds(r1cs.a_0, r1cs.b_0, block_of(z, K as int, 0), w));
        }
    }
    if block_holds(z) {
        assert forall|block: int, w: int|
            0 <= block < z.len() as int / K as int && 0 <= w < K implies #[trigger] row_holds(
            r1cs.a_0,
            r1cs.b_0,
            block_of(z, K as int, block),
            w,
        ) by {
            assert(slot_row_holds(z, w));
        }
    }
}

} // verus!
