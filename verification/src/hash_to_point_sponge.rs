//! The sponge lane: the SHAKE256 sponge over `salt || hpk || 0 || 0 || message`
//! for messages that make exactly two absorption blocks.
//!
//! Physical bit `p` of a state is bit `p % 64` of lane `p / 64`, which is the
//! byte order of the standard; the state's own index is `25 (p % 64) + p / 64`.
use vstd::arithmetic::power2::{lemma2_to64, lemma_pow2_pos, lemma_pow2_unfold, pow2};
use vstd::prelude::*;

use crate::hash_to_point_slots::relation::{
    bits_value, lemma_bits_of_number, lemma_bits_value_range, lemma_shift_bit, lemma_shift_bit64,
    nat_bit,
};
use crate::hash_to_point_slots::setup::{ceil_log2, is_ceil_log2};
use crate::keccak::{keccak_f, permutation, State, STATE_BITS};

pub mod chaining;
pub mod gather;
pub mod lane;
pub mod soundness;

verus! {

/// Live permutations per record: two absorptions, the second of which also
/// gives the first squeeze block, and eight further squeezes.
pub const LIVE_PERMS: usize = 10;

/// Permutations per block.
pub const N_SUB: usize = 3;

/// Blocks per record, a power of two.
pub const BLOCKS_PER_RECORD: usize = 4;

pub const PERM_CAPACITY: usize = 12;

pub const RATE_BYTES: usize = 136;

pub const SALT_BYTES: usize = 40;

pub const SALT_BITS: usize = 320;

/// The shortest message that reaches a second block.
pub const MIN_MESSAGE_BYTES: usize = 31;

/// The longest message whose frame and padding fit in two blocks.
pub const MAX_MESSAGE_BYTES: usize = 165;

/// One record's inputs; the salt is the private part.
#[derive(Clone, Debug)]
pub struct SpongeRecord {
    pub salt: [u8; 40],
    pub hpk: [u8; 64],
    pub message: Vec<u8>,
}

/// The public part.
#[derive(Clone, Debug)]
pub struct SpongePublic {
    pub hpk: [u8; 64],
    pub message: Vec<u8>,
}

impl SpongeRecord {
    /// The framed input.
    pub open spec fn frame(self) -> Seq<u8> {
        self.salt@ + self.hpk@ + seq![0u8, 0u8] + self.message@
    }

    /// The frame makes exactly two absorption blocks.
    pub open spec fn fits(self) -> bool {
        31 <= self.message@.len() <= 165
    }
}

/// The padded input of the sponge: the domain byte after the message, and the
/// top bit of the last byte of the last block.
pub open spec fn padded_frame(frame: Seq<u8>) -> Seq<u8> {
    let blocks = frame.len() / 136 + 1;
    Seq::new(
        136 * blocks,
        |i: int|
            {
                let byte: u8 = if i < frame.len() {
                    frame[i]
                } else if i == frame.len() {
                    0x1F
                } else {
                    0
                };
                if i == 136 * blocks - 1 {
                    byte ^ 0x80
                } else {
                    byte
                }
            },
    )
}

/// Block `n` of the padded input.
pub open spec fn frame_block(frame: Seq<u8>, n: int) -> Seq<u8> {
    padded_frame(frame).subrange(136 * n, 136 * n + 136)
}

/// Bit `t` of a byte.
pub open spec fn byte_bit(byte: u8, t: int) -> bool {
    nat_bit(byte as int, t)
}

/// The physical position of a state bit.
pub open spec fn physical(j: int) -> int {
    (j % 25) * 64 + j / 25
}

/// The state bit at a physical position.
pub open spec fn logical(p: int) -> int {
    (p % 64) * 25 + p / 64
}

pub proof fn lemma_positions(j: int)
    requires
        0 <= j < 1600,
    ensures
        0 <= physical(j) < 1600,
        logical(physical(j)) == j,
        0 <= logical(j) < 1600,
        physical(logical(j)) == j,
{
    vstd::arithmetic::div_mod::lemma_fundamental_div_mod_converse(
        physical(j),
        64,
        j % 25,
        j / 25,
    );
    vstd::arithmetic::div_mod::lemma_fundamental_div_mod_converse(
        logical(j),
        25,
        j % 64,
        j / 64,
    );
}

/// The state that the bytes spell.
pub open spec fn bytes_state(bytes: Seq<u8>) -> Seq<bool> {
    Seq::new(1600, |j: int| byte_bit(bytes[physical(j) / 8], physical(j) % 8))
}

/// A state with a block added to its rate.
pub open spec fn absorb(s: Seq<bool>, block: Seq<u8>) -> Seq<bool> {
    Seq::new(
        1600,
        |j: int|
            s[j] != (physical(j) < 1088 && byte_bit(block[physical(j) / 8], physical(j) % 8)),
    )
}

pub open spec fn zero_state() -> Seq<bool> {
    Seq::new(1600, |j: int| false)
}

/// The state after `n` absorbed blocks.
pub open spec fn absorbed(frame: Seq<u8>, n: int) -> Seq<bool>
    decreases n,
{
    if n <= 0 {
        zero_state()
    } else {
        permutation(absorb(absorbed(frame, n - 1), frame_block(frame, n - 1)))
    }
}

/// The state that squeeze block `q` of SHAKE256 is read from.
pub open spec fn squeeze_state(frame: Seq<u8>, q: int) -> Seq<bool>
    decreases q,
{
    if q <= 0 {
        absorbed(frame, frame.len() as int / 136 + 1)
    } else {
        permutation(squeeze_state(frame, q - 1))
    }
}

/// Byte `k` of a state.
pub open spec fn state_byte(s: Seq<bool>, k: int) -> int {
    bits_value(|t: int| s[logical(8 * k + t)], 8)
}

/// Big-endian word `w` of a state.
pub open spec fn state_word(s: Seq<bool>, w: int) -> int {
    256 * state_byte(s, 2 * w) + state_byte(s, 2 * w + 1)
}

/// The input state of permutation `e` of a record.
pub open spec fn trace_state(frame: Seq<u8>, e: int) -> Seq<bool>
    decreases e,
{
    if e <= 0 {
        absorb(zero_state(), frame_block(frame, 0))
    } else if e == 1 {
        absorb(permutation(trace_state(frame, 0)), frame_block(frame, 1))
    } else {
        permutation(trace_state(frame, e - 1))
    }
}

/// The trace permutes into the squeeze states.
pub proof fn trace_squeezes(frame: Seq<u8>, q: int)
    requires
        136 <= frame.len() < 272,
        0 <= q,
    ensures
        squeeze_state(frame, q) == permutation(trace_state(frame, q + 1)),
    decreases q,
{
    if q == 0 {
        reveal_with_fuel(absorbed, 3);
        reveal_with_fuel(trace_state, 3);
        assert(frame.len() as int / 136 == 1);
    } else {
        trace_squeezes(frame, q - 1);
    }
}

/// Bit `t` of a byte.
pub fn bit_of(byte: u8, t: usize) -> (set: bool)
    requires
        t < 8,
    ensures
        set == byte_bit(byte, t as int),
{
    proof {
        lemma_shift_bit(byte as u32, t as u32);
    }
    ((byte as u32) >> (t as u32)) & 1 == 1
}

/// The state that 200 bytes spell.
pub fn state_from_physical_bytes(bytes: &[u8; 200]) -> (state: State)
    ensures
        state@ == bytes_state(bytes@),
{
    let mut state: State = [false; 1600];
    let mut j: usize = 0;
    while j < STATE_BITS
        invariant
            j <= STATE_BITS,
            forall|k: int| 0 <= k < j ==> #[trigger] state@[k] == bytes_state(bytes@)[k],
        decreases STATE_BITS - j,
    {
        proof {
            lemma_positions(j as int);
        }
        let p: usize = (j % 25) * 64 + j / 25;
        state[j] = bit_of(bytes[p / 8], p % 8);
        j = j + 1;
    }
    assert(state@ =~= bytes_state(bytes@));
    state
}

/// The bytes of a state.
pub fn state_to_physical_bytes(state: &State) -> (bytes: [u8; 200])
    ensures
        bytes_state(bytes@) == state@,
        forall|k: int| 0 <= k < 200 ==> #[trigger] bytes@[k] == state_byte(state@, k),
{
    let mut bytes: [u8; 200] = [0; 200];
    let mut k: usize = 0;
    while k < 200
        invariant
            k <= 200,
            forall|i: int| 0 <= i < k ==> #[trigger] bytes@[i] == state_byte(state@, i),
        decreases 200 - k,
    {
        let ghost f = |t: int| state@[logical(8 * k + t)];
        let mut byte: u32 = 0;
        let mut weight: u32 = 1;
        let mut t: usize = 0;
        proof {
            lemma2_to64();
        }
        while t < 8
            invariant
                k < 200,
                f == (|t: int| state@[logical(8 * k + t)]),
                t <= 8,
                weight == pow2(t as nat),
                weight <= 256,
                byte == bits_value(f, t as int),
                byte < weight,
            decreases 8 - t,
        {
            proof {
                lemma2_to64();
                lemma_pow2_unfold((t + 1) as nat);
                lemma_bits_value_range(f, t + 1);
                assert(weight <= 128);
            }
            let p: usize = 8 * k + t;
            proof {
                lemma_positions(p as int);
            }
            if state[(p % 64) * 25 + p / 64] {
                byte = byte + weight;
            }
            weight = 2 * weight;
            t = t + 1;
        }
        bytes[k] = byte as u8;
        k = k + 1;
    }
    proof {
        assert forall|j: int| 0 <= j < 1600 implies bytes_state(bytes@)[j] == state@[j] by {
            lemma_positions(j);
            let p = physical(j);
            let k = p / 8;
            let t = p % 8;
            assert(bytes@[k] == state_byte(state@, k));
            let f = |t: int| state@[logical(8 * k + t)];
            lemma_value_bits(f, 8, t);
            assert(8 * k + t == p);
        }
        assert(bytes_state(bytes@) =~= state@);
    }
    bytes
}

/// A number read back from its bits has them.
pub proof fn lemma_value_bits(f: spec_fn(int) -> bool, n: int, t: int)
    requires
        0 <= t < n,
    ensures
        nat_bit(bits_value(f, n), t) == f(t),
{
    let v = bits_value(f, n);
    lemma_bits_value_range(f, n);
    lemma_bits_of_number(v, n);
    let g = |i: int| nat_bit(v, i);
    vstd::arithmetic::div_mod::lemma_small_mod(v as nat, pow2(n as nat));
    assert(v % pow2(n as nat) as int == v);
    assert(bits_value(g, n) == v);
    crate::hash_to_point_slots::relation::lemma_bits_value_injective(g, f, n, t);
}

/// The two padded absorption blocks of the frame.
pub fn framed_blocks(record: &SpongeRecord) -> (blocks: ([u8; 136], [u8; 136]))
    requires
        record.fits(),
    ensures
        blocks.0@ == frame_block(record.frame(), 0),
        blocks.1@ == frame_block(record.frame(), 1),
{
    let ghost frame = record.frame();
    let ghost padded = padded_frame(frame);
    assert(frame.len() == 106 + record.message@.len());
    assert(frame.len() as int / 136 == 1);
    assert(padded.len() == 272);
    let end: usize = 106 + record.message.len();
    let mut block1: [u8; 136] = [0; 136];
    let mut block2: [u8; 136] = [0; 136];
    let mut i: usize = 0;
    while i < 272
        invariant
            record.fits(),
            frame == record.frame(),
            padded == padded_frame(frame),
            padded.len() == 272,
            end == frame.len(),
            end == 106 + record.message@.len(),
            i <= 272,
            forall|k: int| 0 <= k < i && k < 136 ==> #[trigger] block1@[k] == padded[k],
            forall|k: int| 0 <= k < i - 136 ==> #[trigger] block2@[k] == padded[136 + k],
        decreases 272 - i,
    {
        let byte: u8 = if i < 40 {
            record.salt[i]
        } else if i < 104 {
            record.hpk[i - 40]
        } else if i < 106 {
            0
        } else if i < end {
            record.message[i - 106]
        } else if i == end {
            0x1F
        } else {
            0
        };
        let byte: u8 = if i == 271 {
            byte ^ 0x80
        } else {
            byte
        };
        assert(byte == padded[i as int]);
        if i < 136 {
            block1[i] = byte;
        } else {
            block2[i - 136] = byte;
        }
        i = i + 1;
    }
    assert(block1@ =~= frame_block(frame, 0));
    assert(block2@ =~= frame_block(frame, 1));
    (block1, block2)
}

/// Bits of an exclusive or of bytes.
proof fn lemma_byte_xor(a: u8, b: u8, t: int)
    requires
        0 <= t < 8,
    ensures
        byte_bit(a ^ b, t) == (byte_bit(a, t) != byte_bit(b, t)),
{
    let (x, y) = (a as u64, b as u64);
    crate::carry_gate::packed_round::lemma_limb_bits(x, y, t as u64);
    lemma_shift_bit64(x, t as u64);
    lemma_shift_bit64(y, t as u64);
    lemma_shift_bit64(x ^ y, t as u64);
    assert((x ^ y) == ((a ^ b) as u64));
}

/// Add a block to a state's rate.
pub fn absorb_block(state: &State, block: &[u8; 136]) -> (out: State)
    ensures
        out@ == absorb(state@, block@),
{
    let mut bytes = state_to_physical_bytes(state);
    let ghost start = bytes@;
    let mut i: usize = 0;
    while i < RATE_BYTES
        invariant
            i <= RATE_BYTES,
            start.len() == 200,
            forall|k: int| 0 <= k < i ==> #[trigger] bytes@[k] == start[k] ^ block@[k],
            forall|k: int| i <= k < 200 ==> #[trigger] bytes@[k] == start[k],
        decreases RATE_BYTES - i,
    {
        bytes[i] = bytes[i] ^ block[i];
        i = i + 1;
    }
    let out = state_from_physical_bytes(&bytes);
    proof {
        assert forall|j: int| 0 <= j < 1600 implies out@[j] == absorb(state@, block@)[j] by {
            lemma_positions(j);
            let p = physical(j);
            assert(bytes_state(start)[j] == state@[j]);
            if p < 1088 {
                lemma_byte_xor(start[p / 8], block@[p / 8], p % 8);
            }
        }
        assert(out@ =~= absorb(state@, block@));
    }
    out
}

/// Read the 68 words of a squeeze block.
pub fn squeeze_words(state: &State, words: &mut Vec<u16>)
    ensures
        final(words)@.len() == old(words)@.len() + 68,
        forall|k: int|
            0 <= k < old(words)@.len() ==> #[trigger] final(words)@[k] == old(words)@[k],
        forall|w: int|
            0 <= w < 68 ==> #[trigger] final(words)@[old(words)@.len() + w] == state_word(
                state@,
                w,
            ),
{
    let ghost start = words@;
    let bytes = state_to_physical_bytes(state);
    let mut w: usize = 0;
    while w < 68
        invariant
            w <= 68,
            forall|k: int| 0 <= k < 200 ==> #[trigger] bytes@[k] == state_byte(state@, k),
            words@.len() == start.len() + w,
            forall|k: int| 0 <= k < start.len() ==> #[trigger] words@[k] == start[k],
            forall|k: int|
                0 <= k < w ==> #[trigger] words@[start.len() + k] == state_word(state@, k),
        decreases 68 - w,
    {
        let ghost before = words@;
        assert(bytes@[2 * w] == state_byte(state@, 2 * w));
        assert(bytes@[2 * w + 1] == state_byte(state@, 2 * w + 1));
        let word: u16 = 256 * (bytes[2 * w] as u16) + bytes[2 * w + 1] as u16;
        words.push(word);
        proof {
            assert forall|k: int| 0 <= k < w + 1 implies #[trigger] words@[start.len() + k]
                == state_word(state@, k) by {
                if k < w {
                    assert(words@[start.len() + k] == before[start.len() + k]);
                }
            }
        }
        w = w + 1;
    }
}

/// The ten live input states, and the 612 squeezed big-endian words: those of
/// the first nine squeeze blocks of SHAKE256 of the frame.
pub fn sponge_trace(record: &SpongeRecord) -> (trace: ([State; 10], Vec<u16>))
    requires
        record.fits(),
    ensures
        forall|e: int|
            0 <= e < 10 ==> (#[trigger] trace.0@[e])@ == trace_state(record.frame(), e),
        trace.1@.len() == 612,
        forall|q: int, w: int|
            #![trigger trace.1@[68 * q + w]]
            0 <= q < 9 && 0 <= w < 68 ==> trace.1@[68 * q + w] == state_word(
                squeeze_state(record.frame(), q),
                w,
            ),
{
    let ghost frame = record.frame();
    let (block1, block2) = framed_blocks(record);
    let zero: State = [false; 1600];
    assert(zero@ =~= zero_state());
    let first = absorb_block(&zero, &block1);
    let mut states: [State; 10] = [zero; 10];
    states[0] = first;
    let mut words: Vec<u16> = Vec::new();
    let mut state: State = first;
    let mut instance: usize = 1;
    assert(frame.len() == 106 + record.message@.len());
    while instance < LIVE_PERMS
        invariant
            136 <= frame.len() < 272,
            block2@ == frame_block(frame, 1),
            1 <= instance <= LIVE_PERMS,
            state@ == trace_state(frame, instance - 1),
            forall|e: int| 0 <= e < instance ==> (#[trigger] states@[e])@ == trace_state(frame, e),
            words@.len() == 68 * (if instance >= 2 {
                instance - 2
            } else {
                0
            }),
            forall|q: int, w: int|
                #![trigger words@[68 * q + w]]
                0 <= q < instance - 2 && 0 <= w < 68 ==> words@[68 * q + w] == state_word(
                    squeeze_state(frame, q),
                    w,
                ),
        decreases LIVE_PERMS - instance,
    {
        let ghost before = states@;
        let ghost was = words@;
        keccak_f(&mut state);
        if instance == 1 {
            state = absorb_block(&state, &block2);
        } else {
            proof {
                trace_squeezes(frame, instance - 2);
            }
            squeeze_words(&state, &mut words);
        }
        states[instance] = state;
        proof {
            assert forall|e: int| 0 <= e < instance + 1 implies (#[trigger] states@[e])@
                == trace_state(frame, e) by {
                if e < instance {
                    assert(states@[e] == before[e]);
                }
            }
            assert forall|q: int, w: int|
                #![trigger words@[68 * q + w]]
                0 <= q < instance - 1 && 0 <= w < 68 implies words@[68 * q + w] == state_word(
                squeeze_state(frame, q),
                w,
            ) by {
                if q < instance - 2 {
                    assert(words@[68 * q + w] == was[68 * q + w]);
                } else {
                    assert(words@[was.len() + w] == state_word(state@, w));
                }
            }
        }
        instance = instance + 1;
    }
    let ghost was = words@;
    keccak_f(&mut state);
    proof {
        trace_squeezes(frame, 8);
    }
    squeeze_words(&state, &mut words);
    proof {
        assert forall|q: int, w: int|
            #![trigger words@[68 * q + w]]
            0 <= q < 9 && 0 <= w < 68 implies words@[68 * q + w] == state_word(
            squeeze_state(frame, q),
            w,
        ) by {
            if q < 8 {
                assert(words@[68 * q + w] == was[68 * q + w]);
            } else {
                assert(words@[was.len() + w] == state_word(state@, w));
            }
        }
    }
    (states, words)
}

/// The size of a batch: records, and the blocks' exponent.
#[derive(Clone, Debug)]
pub struct SpongeSetup {
    pub records: usize,
    pub n_blocks_log: usize,
}

impl SpongeSetup {
    /// A power of two of records, four blocks each.
    pub open spec fn well_formed(self) -> bool {
        &&& self.n_blocks_log >= 2
        &&& self.records == pow2((self.n_blocks_log - 2) as nat)
    }

    /// Size the lane for a power of two of records.
    pub fn new(records: usize) -> (setup: SpongeSetup)
        requires
            exists|k: nat| records == #[trigger] pow2(k),
            4 * records <= usize::MAX,
        ensures
            setup.well_formed(),
            setup.records == records,
            4 * records == pow2(setup.n_blocks_log as nat),
    {
        let ghost k = choose|k: nat| records == #[trigger] pow2(k);
        proof {
            lemma_pow2_unfold(k + 1);
            lemma_pow2_unfold(k + 2);
            lemma_pow2_pos(k);
            lemma2_to64();
            lemma_pow2_unfold(64);
            crate::packed_mle::lemma_exponent_fits(k + 2);
            if k + 2 < 63 {
                vstd::arithmetic::power2::lemma_pow2_strictly_increases(k + 2, 63);
            }
        }
        let n_blocks_log = ceil_log2(4 * records);
        proof {
            lemma_exact_log(n_blocks_log as nat, k + 2);
        }
        SpongeSetup { records, n_blocks_log }
    }

    /// The exponent of the record count.
    pub fn record_vars(&self) -> (vars: usize)
        requires
            self.well_formed(),
        ensures
            self.records == pow2(vars as nat),
    {
        self.n_blocks_log - 2
    }
}

/// The exponent of a power of two.
pub proof fn lemma_exact_log(a: nat, k: nat)
    requires
        is_ceil_log2(pow2(k) as int, a),
    ensures
        a == k,
{
    if a < k {
        vstd::arithmetic::power2::lemma_pow2_strictly_increases(a, k);
    }
    if a > k {
        if a > k + 1 {
            vstd::arithmetic::power2::lemma_pow2_strictly_increases(k, (a - 1) as nat);
        }
    }
}

/// Permutation `e` of a record, or the zero state of a pad position.
pub open spec fn slot_state(states: Seq<State>, e: int) -> Seq<bool> {
    if e < 10 {
        states[e]@
    } else {
        zero_state()
    }
}

/// The flat list of input states, block-major within each record: entry
/// `3 (4 rec + blk) + sub` is permutation `4 sub + blk` of record `rec`.
pub fn sponge_initial_states(traces: &[[State; 10]]) -> (states: Vec<State>)
    requires
        12 * traces@.len() <= usize::MAX,
    ensures
        states@.len() == 12 * traces@.len(),
        forall|rec: int, blk: int, sub: int|
            #![trigger states@[3 * (4 * rec + blk) + sub]]
            0 <= rec < traces@.len() && 0 <= blk < 4 && 0 <= sub < 3 ==> states@[3 * (4 * rec
                + blk) + sub]@ == slot_state(traces@[rec]@, 4 * sub + blk),
{
    let zero: State = [false; 1600];
    assert(zero@ =~= zero_state());
    let total: usize = 12 * traces.len();
    let mut states: Vec<State> = Vec::new();
    let mut i: usize = 0;
    while i < total
        invariant
            total == 12 * traces@.len(),
            zero@ == zero_state(),
            i <= total,
            states@.len() == i,
            forall|k: int|
                0 <= k < i ==> (#[trigger] states@[k])@ == slot_state(
                    traces@[k / 12]@,
                    4 * (k % 3) + (k / 3) % 4,
                ),
        decreases total - i,
    {
        let ghost before = states@;
        let e: usize = BLOCKS_PER_RECORD * (i % 3) + (i / 3) % 4;
        if e < LIVE_PERMS {
            states.push(traces[i / 12][e]);
        } else {
            states.push(zero);
        }
        i = i + 1;
    }
    proof {
        assert forall|rec: int, blk: int, sub: int|
            #![trigger states@[3 * (4 * rec + blk) + sub]]
            0 <= rec < traces@.len() && 0 <= blk < 4 && 0 <= sub < 3 implies states@[3 * (4 * rec
            + blk) + sub]@ == slot_state(traces@[rec]@, 4 * sub + blk) by {
            let k = 3 * (4 * rec + blk) + sub;
            assert(k / 12 == rec && k % 3 == sub && (k / 3) % 4 == blk);
            assert(states@[k]@ == slot_state(traces@[k / 12]@, 4 * (k % 3) + (k / 3) % 4));
        }
    }
    states
}

/// A record's frame is its salt, its key, two zero bytes and its message, each
/// at its place, and the padding keeps it: the frame comes first, the domain's
/// bits come just behind it, the last bit of the last block is set, and every
/// byte between is zero. Two blocks hold it all.
pub proof fn frames_are_padded_to_two_blocks(record: SpongeRecord, i: int)
    requires
        record.fits(),
        0 <= i < 272,
    ensures
        ({
            let n = 106 + record.message@.len() as int;
            let block = frame_block(record.frame(), i / 136);
            let byte = block[i % 136];
            &&& record.frame().len() == n
            &&& n < 272
            &&& padded_frame(record.frame()).len() == 272
            &&& block.len() == 136
            &&& i < 40 ==> byte == record.salt@[i]
            &&& 40 <= i < 104 ==> byte == record.hpk@[i - 40]
            &&& 104 <= i < 106 ==> byte == 0
            &&& 106 <= i < n ==> byte == record.message@[i - 106]
            &&& i == n && n < 271 ==> byte == 0x1F
            &&& n < i < 271 ==> byte == 0
            &&& i == 271 ==> byte == if n == 271 {
                0x9Fu8
            } else {
                0x80u8
            }
        }),
{
    let frame = record.frame();
    let padded = padded_frame(frame);
    assert(frame.len() / 136 == 1);
    assert(0u8 ^ 0x80u8 == 0x80u8 && 0x1Fu8 ^ 0x80u8 == 0x9Fu8) by (bit_vector);
    assert(frame_block(frame, i / 136)[i % 136] == padded[136 * (i / 136) + i % 136]);
}

} // verus!
