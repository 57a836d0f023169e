//! Reproducible vectors of the opening's folds and of the first zerocheck
//! round, as little-endian byte streams.
use vstd::arithmetic::power2::{
    lemma2_to64, lemma_pow2_adds, lemma_pow2_pos, lemma_pow2_unfold, pow2,
};
use vstd::prelude::*;

use crate::bytes::{f128_bytes, le_bytes, write_bytes, write_f128, write_u32};
use crate::field::{
    fadd, fmul, fone, lemma_fadd_zero, lemma_fmul_comm, lemma_fmul_assoc, lemma_fmul_distr, F128,
};
use crate::hash_to_point_scatter::power_sum::lemma_fsum_blocks;
use crate::hash_to_point_slots::relation::{bits_value, lemma_bits_value_range};
use crate::hash_to_point_slots::setup::power_of_two;
use crate::mle::{copy_table, eq_weight, lemma_lerp, lemma_mle_is_weighted_sum, lerp, mle};
use crate::prover::append;
use crate::sums::{fsum, lemma_fsum_congr};

pub mod streams;

verus! {

// ---------------------------------------------------------------------------
// The generator.
// ---------------------------------------------------------------------------

/// The step of the generator's state.
pub const STEP: u64 = 0x9E37_79B9_7F4A_7C15;

/// The output at a state.
pub open spec fn mixed(state: u64) -> u64 {
    let a = (state ^ (state >> 30)).wrapping_mul(0xBF58_476D_1CE4_E5B9);
    let b = (a ^ (a >> 27)).wrapping_mul(0x94D0_49BB_1331_11EB);
    b ^ (b >> 31)
}

/// The state after `n` outputs.
pub open spec fn state_after(seed: u64, n: int) -> u64
    decreases n,
{
    if n <= 0 {
        seed
    } else {
        state_after(seed, n - 1).wrapping_add(STEP)
    }
}

/// Output number `n`, from zero.
pub open spec fn output(seed: u64, n: int) -> u64 {
    mixed(state_after(seed, n + 1))
}

/// The field element that starts at output `n`.
pub open spec fn element_at(seed: u64, n: int) -> F128 {
    F128 { lo: output(seed, n), hi: output(seed, n + 1) }
}

/// A SplitMix64 generator.
#[derive(Clone, Copy, Debug)]
pub struct Rng {
    pub state: u64,
}

impl Rng {
    /// The generator of a seed.
    pub fn new(seed: u64) -> (rng: Rng)
        ensures
            rng.state == seed,
    {
        Rng { state: seed }
    }

    /// The next output.
    pub fn next_u64(&mut self) -> (z: u64)
        ensures
            final(self).state == old(self).state.wrapping_add(STEP),
            z == mixed(final(self).state),
    {
        self.state = self.state.wrapping_add(STEP);
        let z = self.state;
        let a = (z ^ (z >> 30)).wrapping_mul(0xBF58_476D_1CE4_E5B9);
        let b = (a ^ (a >> 27)).wrapping_mul(0x94D0_49BB_1331_11EB);
        b ^ (b >> 31)
    }

    /// The next field element: two outputs, the low limb first.
    pub fn next_f128(&mut self) -> (x: F128)
        ensures
            final(self).state == state_after(old(self).state, 2),
            x == element_at(old(self).state, 0),
    {
        proof {
            reveal_with_fuel(state_after, 3);
        }
        let lo = self.next_u64();
        let hi = self.next_u64();
        F128 { lo, hi }
    }

    /// The next output's low bit.
    pub fn bit(&mut self) -> (set: bool)
        ensures
            final(self).state == state_after(old(self).state, 1),
            set == (output(old(self).state, 0) & 1 == 1),
    {
        proof {
            reveal_with_fuel(state_after, 2);
        }
        (self.next_u64() & 1) == 1
    }
}

/// Outputs continue where they stopped.
proof fn lemma_state_after(seed: u64, n: int, m: int)
    requires
        0 <= n,
        0 <= m,
    ensures
        state_after(state_after(seed, n), m) == state_after(seed, n + m),
    decreases m,
{
    if m > 0 {
        lemma_state_after(seed, n, m - 1);
    }
}

/// `n` field elements, each from two outputs.
fn elements(rng: &mut Rng, n: usize) -> (list: Vec<F128>)
    requires
        2 * n <= usize::MAX,
    ensures
        final(rng).state == state_after(old(rng).state, 2 * n),
        list@ == Seq::new(n as nat, |i: int| element_at(old(rng).state, 2 * i)),
{
    let ghost seed = rng.state;
    let mut list: Vec<F128> = Vec::with_capacity(n);
    let mut i: usize = 0;
    while i < n
        invariant
            i <= n,
            rng.state == state_after(seed, 2 * i),
            list@ == Seq::new(i as nat, |i: int| element_at(seed, 2 * i)),
        decreases n - i,
    {
        let x = rng.next_f128();
        proof {
            lemma_state_after(seed, 2 * i as int, 1);
            lemma_state_after(seed, 2 * i as int, 2);
        }
        list.push(x);
        i = i + 1;
        assert(list@ =~= Seq::new(i as nat, |i: int| element_at(seed, 2 * i)));
    }
    list
}

/// The bytes of a list of field elements.
pub open spec fn elements_bytes(list: Seq<F128>) -> Seq<u8>
    decreases list.len(),
{
    if list.len() == 0 {
        seq![]
    } else {
        elements_bytes(list.drop_last()) + f128_bytes(list.last())
    }
}

/// Append a list of field elements.
fn write_elements(out: &mut Vec<u8>, list: &[F128])
    ensures
        final(out)@ == old(out)@ + elements_bytes(list@),
{
    let ghost start = out@;
    let mut i: usize = 0;
    assert(list@.take(0) =~= seq![]);
    assert(out@ =~= start + elements_bytes(list@.take(0)));
    while i < list.len()
        invariant
            i <= list@.len(),
            out@ == start + elements_bytes(list@.take(i as int)),
        decreases list@.len() - i,
    {
        write_f128(out, list[i]);
        assert(list@.take(i + 1).drop_last() =~= list@.take(i as int));
        i = i + 1;
        assert(out@ =~= start + elements_bytes(list@.take(i as int)));
    }
    assert(list@.take(i as int) =~= list@);
}

// ---------------------------------------------------------------------------
// The codeword fold.
// ---------------------------------------------------------------------------

/// One folded position: the pair is taken through the inverse butterfly of its
/// twiddle, then interpolated at `r`.
pub open spec fn folded_pair(twiddle: F128, u_in: F128, v_in: F128, r: F128) -> F128 {
    let v = fadd(v_in, u_in);
    let u = fadd(u_in, fmul(v, twiddle));
    lerp(u, v, r)
}

/// Fold one pair of a codeword.
pub fn fold_pair(twiddle: F128, u_in: F128, v_in: F128, r: F128) -> (x: F128)
    ensures
        x == folded_pair(twiddle, u_in, v_in, r),
{
    let v = v_in + u_in;
    let u = u_in + v * twiddle;
    u + r * (u + v)
}

/// A folded codeword.
pub open spec fn folded_codeword(codeword: Seq<F128>, twiddles: Seq<F128>, r: F128) -> Seq<F128> {
    Seq::new(
        codeword.len() / 2,
        |i: int| folded_pair(twiddles[i], codeword[2 * i], codeword[2 * i + 1], r),
    )
}

/// Fold a codeword: one round halves it.
pub fn fold_codeword(codeword: &[F128], twiddles: &[F128], r: F128) -> (folded: Vec<F128>)
    requires
        codeword@.len() % 2 == 0,
        twiddles@.len() >= codeword@.len() / 2,
    ensures
        folded@ == folded_codeword(codeword@, twiddles@, r),
{
    let total: usize = codeword.len();
    let half: usize = total / 2;
    let mut folded: Vec<F128> = Vec::with_capacity(half);
    let mut i: usize = 0;
    while i < half
        invariant
            total == codeword@.len(),
            half == total / 2,
            codeword@.len() % 2 == 0,
            twiddles@.len() >= half,
            i <= half,
            folded@ == folded_codeword(codeword@, twiddles@, r).take(i as int),
        decreases half - i,
    {
        folded.push(fold_pair(twiddles[i], codeword[2 * i], codeword[2 * i + 1], r));
        i = i + 1;
        assert(folded@ =~= folded_codeword(codeword@, twiddles@, r).take(i as int));
    }
    assert(folded@ =~= folded_codeword(codeword@, twiddles@, r));
    folded
}

/// The layer of the code's twiddles that round `j` folds with.
pub open spec fn fold_layer(k_code: int, j: int) -> int {
    k_code - j - 1
}

/// The codeword after `j` rounds; the challenges follow the codeword in the
/// generator's stream.
pub open spec fn codeword_after(
    seed: u64,
    k_code: nat,
    twiddles: Seq<Vec<F128>>,
    j: int,
) -> Seq<F128>
    decreases j,
{
    if j <= 0 {
        Seq::new(pow2(k_code), |i: int| element_at(seed, 2 * i))
    } else {
        folded_codeword(
            codeword_after(seed, k_code, twiddles, j - 1),
            twiddles[fold_layer(k_code as int, j - 1)]@,
            fold_challenge(seed, k_code, j - 1),
        )
    }
}

/// The challenge of round `j`.
pub open spec fn fold_challenge(seed: u64, k_code: nat, j: int) -> F128 {
    element_at(seed, 2 * (pow2(k_code) + j))
}

/// The bytes of the first `j` rounds: the challenge, the folded length, and
/// the folded codeword.
pub open spec fn rounds_bytes(
    seed: u64,
    k_code: nat,
    twiddles: Seq<Vec<F128>>,
    j: int,
) -> Seq<u8>
    decreases j,
{
    if j <= 0 {
        seq![]
    } else {
        let folded = codeword_after(seed, k_code, twiddles, j);
        rounds_bytes(seed, k_code, twiddles, j - 1) + f128_bytes(
            fold_challenge(seed, k_code, j - 1),
        ) + le_bytes(folded.len() as int, 4) + elements_bytes(folded)
    }
}

/// The seed of the fold vectors.
pub const FOLD_SEED: u64 = 0xC0_FFEE;

/// The fold vectors' stream: the magic, the sizes, the codeword, and every
/// round.
pub open spec fn fold_bytes(k_code: nat, log_inv_rate: nat, twiddles: Seq<Vec<F128>>) -> Seq<u8> {
    le_bytes(0x464F_4C44, 4) + le_bytes(k_code as int, 4) + le_bytes(log_inv_rate as int, 4)
        + le_bytes(k_code - log_inv_rate, 4) + le_bytes(pow2(k_code) as int, 4) + elements_bytes(
        codeword_after(FOLD_SEED, k_code, twiddles, 0),
    ) + rounds_bytes(FOLD_SEED, k_code, twiddles, k_code - log_inv_rate)
}

/// A codeword after `j` rounds has `2^(k - j)` positions.
pub(crate) proof fn lemma_codeword_len(seed: u64, k_code: nat, twiddles: Seq<Vec<F128>>, j: int)
    requires
        0 <= j <= k_code,
    ensures
        codeword_after(seed, k_code, twiddles, j).len() == pow2((k_code - j) as nat),
    decreases j,
{
    if j > 0 {
        lemma_codeword_len(seed, k_code, twiddles, j - 1);
        lemma_pow2_unfold((k_code - j + 1) as nat);
    }
}

/// The fold vectors: a pseudorandom codeword of `2^k_code` positions folded
/// `k_code - log_inv_rate` times under the code's twiddles, layer by layer; the
/// first round takes the last layer.
pub fn fold_vectors(k_code: usize, log_inv_rate: usize, twiddles: &[Vec<F128>]) -> (out: Vec<u8>)
    requires
        log_inv_rate < k_code < 32,
        2 * pow2(k_code as nat) <= usize::MAX,
        twiddles@.len() >= k_code,
        forall|l: int|
            log_inv_rate <= l < k_code ==> (#[trigger] twiddles@[l])@.len() >= pow2(l as nat),
    ensures
        out@ == fold_bytes(k_code as nat, log_inv_rate as nat, twiddles@),
{
    proof {
        lemma2_to64();
        vstd::arithmetic::power2::lemma_pow2_strictly_increases(k_code as nat, 32);
    }
    let log_dim: usize = k_code - log_inv_rate;
    let size: usize = power_of_two(k_code);
    let mut rng = Rng::new(FOLD_SEED);
    let mut codeword = elements(&mut rng, size);
    assert(codeword@ =~= codeword_after(FOLD_SEED, k_code as nat, twiddles@, 0));
    let mut out: Vec<u8> = Vec::new();
    write_u32(&mut out, 0x464F_4C44);
    write_u32(&mut out, k_code as u32);
    write_u32(&mut out, log_inv_rate as u32);
    write_u32(&mut out, log_dim as u32);
    write_u32(&mut out, size as u32);
    write_elements(&mut out, codeword.as_slice());
    let ghost head = out@;
    let mut j: usize = 0;
    assert(out@ =~= head + rounds_bytes(FOLD_SEED, k_code as nat, twiddles@, 0));
    while j < log_dim
        invariant
            log_dim == k_code - log_inv_rate,
            k_code < 32,
            size == pow2(k_code as nat),
            size < 0x1_0000_0000,
            twiddles@.len() >= k_code,
            forall|l: int|
                log_inv_rate <= l < k_code ==> (#[trigger] twiddles@[l])@.len() >= pow2(l as nat),
            j <= log_dim,
            rng.state == state_after(FOLD_SEED, 2 * (size + j)),
            codeword@ == codeword_after(FOLD_SEED, k_code as nat, twiddles@, j as int),
            codeword@.len() == pow2((k_code - j) as nat),
            out@ == head + rounds_bytes(FOLD_SEED, k_code as nat, twiddles@, j as int),
        decreases log_dim - j,
    {
        let r = rng.next_f128();
        proof {
            lemma_state_after(FOLD_SEED, 2 * (size + j), 1);
            lemma_state_after(FOLD_SEED, 2 * (size + j), 2);
            lemma_pow2_unfold((k_code - j) as nat);
            lemma_codeword_len(FOLD_SEED, k_code as nat, twiddles@, j + 1);
            if j > 0 {
                vstd::arithmetic::power2::lemma_pow2_strictly_increases(
                    (k_code - j) as nat,
                    k_code as nat,
                );
            }
            assert(twiddles@[k_code - j - 1]@.len() >= pow2((k_code - j - 1) as nat));
        }
        let folded = fold_codeword(codeword.as_slice(), twiddles[k_code - j - 1].as_slice(), r);
        write_f128(&mut out, r);
        write_u32(&mut out, folded.len() as u32);
        write_elements(&mut out, folded.as_slice());
        codeword = folded;
        j = j + 1;
        assert(out@ =~= head + rounds_bytes(FOLD_SEED, k_code as nat, twiddles@, j as int));
    }
    assert(out@ =~= fold_bytes(k_code as nat, log_inv_rate as nat, twiddles@));
    out
}

// ---------------------------------------------------------------------------
// The row-batch fold.
// ---------------------------------------------------------------------------

/// Neighbours interpolated at `r`.
pub open spec fn paired(table: Seq<F128>, r: F128) -> Seq<F128> {
    Seq::new(table.len() / 2, |j: int| lerp(table[2 * j], table[2 * j + 1], r))
}

/// The lanes after the first `n` challenges.
pub open spec fn lanes_after(lanes: Seq<F128>, challenges: Seq<F128>, n: int) -> Seq<F128>
    decreases n,
{
    if n <= 0 {
        lanes
    } else {
        paired(lanes_after(lanes, challenges, n - 1), challenges[n - 1])
    }
}

/// The lanes halve with every challenge.
proof fn lemma_lanes_len(lanes: Seq<F128>, challenges: Seq<F128>, n: int)
    requires
        0 <= n <= challenges.len(),
        lanes.len() == pow2(challenges.len()),
    ensures
        lanes_after(lanes, challenges, n).len() == pow2((challenges.len() - n) as nat),
    decreases n,
{
    if n > 0 {
        lemma_lanes_len(lanes, challenges, n - 1);
        lemma_pow2_unfold((challenges.len() - n + 1) as nat);
    }
}

/// Fold a position's lanes to one value, neighbours first.
pub fn row_batch_fold_one(lanes: &[F128], challenges: &[F128]) -> (value: F128)
    requires
        lanes@.len() == pow2(challenges@.len()),
    ensures
        value == lanes_after(lanes@, challenges@, challenges@.len() as int)[0],
{
    let mut buf = copy_table(lanes);
    let mut n: usize = 0;
    while n < challenges.len()
        invariant
            lanes@.len() == pow2(challenges@.len()),
            n <= challenges@.len(),
            buf@ == lanes_after(lanes@, challenges@, n as int),
        decreases challenges@.len() - n,
    {
        let r = challenges[n];
        proof {
            lemma_lanes_len(lanes@, challenges@, n as int);
            lemma_pow2_unfold((challenges@.len() - n) as nat);
        }
        let total: usize = buf.len();
        let half: usize = total / 2;
        let mut next: Vec<F128> = Vec::with_capacity(half);
        let mut j: usize = 0;
        while j < half
            invariant
                total == buf@.len(),
                half == total / 2,
                j <= half,
                next@ == paired(buf@, r).take(j as int),
            decreases half - j,
        {
            let u = buf[2 * j];
            let v = buf[2 * j + 1];
            next.push(u + r * (u + v));
            j = j + 1;
            assert(next@ =~= paired(buf@, r).take(j as int));
        }
        assert(next@ =~= paired(buf@, r));
        buf = next;
        n = n + 1;
    }
    proof {
        lemma_lanes_len(lanes@, challenges@, n as int);
        lemma2_to64();
    }
    buf[0]
}

/// Interpolating neighbours binds the last variable.
proof fn lemma_last_variable(table: Seq<F128>, p: Seq<F128>, r: F128)
    requires
        table.len() == pow2(p.len() + 1),
    ensures
        mle(table, p.push(r)) == mle(paired(table, r), p),
{
    lemma_pow2_unfold(p.len() + 1);
    let n = pow2(p.len()) as int;
    let point = p.push(r);
    let folded = paired(table, r);
    lemma_mle_is_weighted_sum(table, point);
    lemma_mle_is_weighted_sum(folded, p);
    let f = |i: int| fmul(table[i], eq_weight(point, i));
    lemma_fsum_blocks(f, n, 2);
    let blocks = |j: int| fsum(|c: int| f(j * 2 + c), 2);
    let g = |j: int| fmul(folded[j], eq_weight(p, j));
    assert(point.drop_last() =~= p);
    assert forall|j: int| 0 <= j < n implies #[trigger] blocks(j) == g(j) by {
        let (u, v, w) = (table[2 * j], table[2 * j + 1], eq_weight(p, j));
        let h = |c: int| f(j * 2 + c);
        reveal_with_fuel(fsum, 3);
        assert((2 * j) / 2 == j && (2 * j) % 2 == 0 && (2 * j + 1) / 2 == j && (2 * j + 1) % 2
            == 1);
        assert(h(0) == fmul(u, fmul(w, fadd(fone(), r))));
        assert(h(1) == fmul(v, fmul(w, r)));
        lemma_fadd_zero(h(0));
        assert(fsum(h, 2) == fadd(h(0), h(1)));
        // u w (1 + r) + v w r = w ((1 + r) u + r v)
        lemma_lerp(u, v, r);
        let (a, b) = (fmul(fadd(fone(), r), u), fmul(r, v));
        lemma_fmul_distr(w, a, b);
        lemma_fmul_comm(u, fmul(w, fadd(fone(), r)));
        lemma_fmul_assoc(w, fadd(fone(), r), u);
        lemma_fmul_comm(v, fmul(w, r));
        lemma_fmul_assoc(w, r, v);
        lemma_fmul_comm(w, lerp(u, v, r));
    }
    lemma_fsum_congr(blocks, g, n);
    lemma_fsum_congr(|j: int| fsum(|c: int| f(j * 2 + c), 2), blocks, n);
    assert(n * 2 == table.len());
}

/// The challenges from `n` on, the last one first.
pub open spec fn reversed_from(challenges: Seq<F128>, n: int) -> Seq<F128> {
    Seq::new((challenges.len() - n) as nat, |i: int| challenges[challenges.len() - 1 - i])
}

proof fn lemma_lanes_extension(lanes: Seq<F128>, challenges: Seq<F128>, n: int)
    requires
        0 <= n <= challenges.len(),
        lanes.len() == pow2(challenges.len()),
    ensures
        mle(lanes, reversed_from(challenges, 0)) == mle(
            lanes_after(lanes, challenges, n),
            reversed_from(challenges, n),
        ),
    decreases n,
{
    if n > 0 {
        lemma_lanes_extension(lanes, challenges, n - 1);
        lemma_lanes_len(lanes, challenges, n - 1);
        let rest = reversed_from(challenges, n);
        assert(reversed_from(challenges, n - 1) =~= rest.push(challenges[n - 1]));
        lemma_last_variable(lanes_after(lanes, challenges, n - 1), rest, challenges[n - 1]);
    }
}

/// Folding a position's lanes evaluates their multilinear extension; the first
/// challenge binds the last variable.
pub proof fn row_batch_fold_is_the_extension(lanes: Seq<F128>, challenges: Seq<F128>)
    requires
        lanes.len() == pow2(challenges.len()),
    ensures
        lanes_after(lanes, challenges, challenges.len() as int)[0] == mle(
            lanes,
            reversed_from(challenges, 0),
        ),
{
    let n = challenges.len() as int;
    lemma_lanes_extension(lanes, challenges, n);
    lemma_lanes_len(lanes, challenges, n);
    lemma2_to64();
    assert(reversed_from(challenges, n) =~= seq![]);
}

/// The lanes of position `p`.
pub open spec fn position_lanes(codeword: Seq<F128>, lanes: int, p: int) -> Seq<F128> {
    codeword.subrange(p * lanes, p * lanes + lanes)
}

/// The row-batch vectors' stream: the magic, the sizes, the codeword, the
/// challenges, and one value per position.
pub open spec fn row_batch_bytes(k_code: nat, log_batch_size: nat) -> Seq<u8> {
    let lanes = pow2(log_batch_size) as int;
    let positions = pow2(k_code) as int;
    let total = positions * lanes;
    let codeword = Seq::new(total as nat, |i: int| element_at(FOLD_SEED, 2 * i));
    let challenges = Seq::new(
        log_batch_size,
        |i: int| element_at(FOLD_SEED, 2 * (total + i)),
    );
    let folded = Seq::new(
        positions as nat,
        |p: int|
            lanes_after(position_lanes(codeword, lanes, p), challenges, log_batch_size as int)[0],
    );
    le_bytes(0x5242_4631, 4) + le_bytes(k_code as int, 4) + le_bytes(log_batch_size as int, 4)
        + le_bytes(lanes, 4) + le_bytes(total, 4) + elements_bytes(codeword) + elements_bytes(
        challenges,
    ) + le_bytes(positions, 4) + elements_bytes(folded)
}

/// The row-batch vectors: a pseudorandom codeword of `2^k_code` positions, each
/// of `2^log_batch_size` lanes, and every position's folded value.
pub fn row_batch_vectors(k_code: usize, log_batch_size: usize) -> (out: Vec<u8>)
    requires
        k_code + log_batch_size < 32,
        2 * pow2((k_code + log_batch_size) as nat) <= usize::MAX,
    ensures
        out@ == row_batch_bytes(k_code as nat, log_batch_size as nat),
{
    proof {
        lemma2_to64();
        lemma_pow2_adds(k_code as nat, log_batch_size as nat);
        lemma_pow2_pos(k_code as nat);
        lemma_pow2_pos(log_batch_size as nat);
        vstd::arithmetic::power2::lemma_pow2_strictly_increases(
            (k_code + log_batch_size) as nat,
            32,
        );
        let (a, b) = (pow2(k_code as nat) as int, pow2(log_batch_size as nat) as int);
        assert(a <= a * b && b <= a * b) by (nonlinear_arith)
            requires
                1 <= a,
                1 <= b,
        ;
    }
    let lanes: usize = power_of_two(log_batch_size);
    let positions: usize = power_of_two(k_code);
    let total: usize = positions * lanes;
    let mut rng = Rng::new(FOLD_SEED);
    let codeword = elements(&mut rng, total);
    let ghost after = rng.state;
    let challenges = elements(&mut rng, log_batch_size);
    proof {
        assert forall|i: int| 0 <= i < log_batch_size implies #[trigger] challenges@[i]
            == element_at(FOLD_SEED, 2 * (total + i)) by {
            lemma_state_after(FOLD_SEED, 2 * total as int, 2 * i + 1);
            lemma_state_after(FOLD_SEED, 2 * total as int, 2 * i + 2);
        }
    }
    let mut folded: Vec<F128> = Vec::with_capacity(positions);
    let mut p: usize = 0;
    while p < positions
        invariant
            lanes == pow2(log_batch_size as nat),
            total == positions * lanes,
            codeword@.len() == total,
            challenges@.len() == log_batch_size,
            p <= positions,
            folded@ == Seq::new(
                p as nat,
                |p: int|
                    lanes_after(
                        position_lanes(codeword@, lanes as int, p),
                        challenges@,
                        log_batch_size as int,
                    )[0],
            ),
        decreases positions - p,
    {
        proof {
            assert(p * lanes + lanes <= total && 0 <= p * lanes) by (nonlinear_arith)
                requires
                    p + 1 <= positions,
                    total == positions * lanes,
            ;
        }
        let start: usize = p * lanes;
        let mut part: Vec<F128> = Vec::with_capacity(lanes);
        let mut i: usize = 0;
        while i < lanes
            invariant
                start == p * lanes,
                start + lanes <= codeword@.len(),
                codeword@.len() == total,
                i <= lanes,
                part@ == codeword@.subrange(start as int, start + i),
            decreases lanes - i,
        {
            part.push(codeword[start + i]);
            i = i + 1;
            assert(part@ =~= codeword@.subrange(start as int, start + i));
        }
        let value = row_batch_fold_one(part.as_slice(), challenges.as_slice());
        folded.push(value);
        p = p + 1;
        assert(folded@ =~= Seq::new(
            p as nat,
            |p: int|
                lanes_after(
                    position_lanes(codeword@, lanes as int, p),
                    challenges@,
                    log_batch_size as int,
                )[0],
        ));
    }
    let mut out: Vec<u8> = Vec::new();
    write_u32(&mut out, 0x5242_4631);
    write_u32(&mut out, k_code as u32);
    write_u32(&mut out, log_batch_size as u32);
    write_u32(&mut out, lanes as u32);
    write_u32(&mut out, total as u32);
    write_elements(&mut out, codeword.as_slice());
    write_elements(&mut out, challenges.as_slice());
    write_u32(&mut out, positions as u32);
    write_elements(&mut out, folded.as_slice());
    proof {
        let spec_codeword = Seq::new(total as nat, |i: int| element_at(FOLD_SEED, 2 * i));
        let spec_challenges = Seq::new(
            log_batch_size as nat,
            |i: int| element_at(FOLD_SEED, 2 * (total + i)),
        );
        assert(codeword@ =~= spec_codeword);
        assert(challenges@ =~= spec_challenges);
        assert(out@ =~= row_batch_bytes(k_code as nat, log_batch_size as nat));
    }
    out
}

// ---------------------------------------------------------------------------
// The first zerocheck round.
// ---------------------------------------------------------------------------

/// The three witness columns of a padded batch, and the generator after them.
pub struct Round1Bits {
    pub a: Seq<bool>,
    pub b: Seq<bool>,
    pub c: Seq<bool>,
    pub state: u64,
}

/// The first `n` rows: a useful row takes three bits of the generator, a
/// padded one none.
pub open spec fn round1_bits(state: u64, block: int, useful: int, n: int) -> Round1Bits
    decreases n,
{
    if n <= 0 {
        Round1Bits { a: seq![], b: seq![], c: seq![], state }
    } else {
        let rest = round1_bits(state, block, useful, n - 1);
        if (n - 1) % block < useful {
            Round1Bits {
                a: rest.a.push(output(rest.state, 0) & 1 == 1),
                b: rest.b.push(output(rest.state, 1) & 1 == 1),
                c: rest.c.push(output(rest.state, 2) & 1 == 1),
                state: state_after(rest.state, 3),
            }
        } else {
            Round1Bits {
                a: rest.a.push(false),
                b: rest.b.push(false),
                c: rest.c.push(false),
                state: rest.state,
            }
        }
    }
}

/// The witness columns of `2^m` rows in blocks of `2^k_log`, of which the first
/// `useful` are drawn and the others are zero.
pub fn padded_witness(rng: &mut Rng, m: usize, k_log: usize, useful: usize) -> (columns: (
    Vec<bool>,
    Vec<bool>,
    Vec<bool>,
))
    requires
        k_log <= m,
        pow2(m as nat) <= usize::MAX,
        useful <= pow2(k_log as nat),
    ensures
        ({
            let drawn = round1_bits(
                old(rng).state,
                pow2(k_log as nat) as int,
                useful as int,
                pow2(m as nat) as int,
            );
            &&& columns.0@ == drawn.a
            &&& columns.1@ == drawn.b
            &&& columns.2@ == drawn.c
            &&& final(rng).state == drawn.state
        }),
{
    proof {
        lemma_pow2_pos(k_log as nat);
        if k_log < m {
            vstd::arithmetic::power2::lemma_pow2_strictly_increases(k_log as nat, m as nat);
        }
    }
    let ghost seed = rng.state;
    let total: usize = power_of_two(m);
    let block: usize = power_of_two(k_log);
    let mut a: Vec<bool> = Vec::with_capacity(total);
    let mut b: Vec<bool> = Vec::with_capacity(total);
    let mut c: Vec<bool> = Vec::with_capacity(total);
    let mut i: usize = 0;
    while i < total
        invariant
            block == pow2(k_log as nat),
            block > 0,
            i <= total,
            ({
                let drawn = round1_bits(seed, block as int, useful as int, i as int);
                &&& a@ == drawn.a
                &&& b@ == drawn.b
                &&& c@ == drawn.c
                &&& rng.state == drawn.state
            }),
        decreases total - i,
    {
        if i % block < useful {
            let ghost s = rng.state;
            proof {
                lemma_state_after(s, 1, 1);
                lemma_state_after(s, 2, 1);
            }
            a.push(rng.bit());
            b.push(rng.bit());
            c.push(rng.bit());
        } else {
            a.push(false);
            b.push(false);
            c.push(false);
        }
        i = i + 1;
    }
    (a, b, c)
}

/// The seed of the first-round vectors, before the size is mixed in.
pub const ROUND1_SEED: u64 = 0x2E_CEC0;

/// Coordinates that the first round skips over, and the fixed ones after them.
pub const ROUND1_SKIP: usize = 6;

pub const ROUND1_FIXED: usize = 7;

/// The generator of the first-round vectors of `2^m` rows.
pub fn round1_rng(m: usize) -> (rng: Rng)
    ensures
        rng.state == ROUND1_SEED ^ ((m as u64) << 8u64),
{
    Rng::new(ROUND1_SEED ^ ((m as u64) << 8u64))
}

/// The first round's point: six drawn coordinates, the three small fixed ones,
/// the four medium fixed ones, and the drawn outer ones.
pub fn round1_point(rng: &mut Rng, m: usize, small: &[F128], medium: &[F128]) -> (r: Vec<F128>)
    requires
        ROUND1_SKIP + ROUND1_FIXED <= m,
        2 * m <= usize::MAX,
        small@.len() == 3,
        medium@.len() == 4,
    ensures
        r@.len() == m,
        r@ == Seq::new(6, |i: int| element_at(old(rng).state, 2 * i)) + small@ + medium@
            + Seq::new((m - 13) as nat, |i: int| element_at(old(rng).state, 12 + 2 * i)),
        final(rng).state == state_after(old(rng).state, 2 * (m - 7)),
{
    let ghost seed = rng.state;
    let mut r = elements(rng, ROUND1_SKIP);
    let ghost head = r@;
    append(&mut r, small);
    append(&mut r, medium);
    let ghost mid = rng.state;
    let outer = elements(rng, m - ROUND1_SKIP - ROUND1_FIXED);
    append(&mut r, outer.as_slice());
    proof {
        lemma_state_after(seed, 12, 2 * (m - 13));
        let later = Seq::new((m - 13) as nat, |i: int| element_at(seed, 12 + 2 * i));
        assert forall|i: int| 0 <= i < m - 13 implies outer@[i] == later[i] by {
            lemma_state_after(seed, 12, 2 * i + 1);
            lemma_state_after(seed, 12, 2 * i + 2);
        }
        assert(outer@ =~= later);
        assert(r@ =~= head + small@ + medium@ + later);
    }
    r
}

/// A column as bytes, the first bit of each byte the lowest.
pub fn column_bytes(bits: &[bool]) -> (bytes: Vec<u8>)
    requires
        bits@.len() % 8 == 0,
    ensures
        8 * bytes@.len() == bits@.len(),
        forall|i: int|
            0 <= i < bytes@.len() ==> #[trigger] bytes@[i] == bits_value(
                |t: int| bits@[8 * i + t],
                8,
            ),
{
    let total: usize = bits.len();
    let mut bytes: Vec<u8> = Vec::with_capacity(total / 8);
    let mut i: usize = 0;
    while i < total / 8
        invariant
            total == bits@.len(),
            total % 8 == 0,
            i <= total / 8,
            bytes@.len() == i,
            forall|k: int|
                0 <= k < i ==> #[trigger] bytes@[k] == bits_value(|t: int| bits@[8 * k + t], 8),
        decreases total / 8 - i,
    {
        let mut byte: u8 = 0;
        let mut power: u16 = 1;
        let mut t: usize = 0;
        let ghost bit = |t: int| bits@[8 * i + t];
        proof {
            lemma2_to64();
        }
        while t < 8
            invariant
                total == bits@.len(),
                i < total / 8,
                t <= 8,
                bit == (|t: int| bits@[8 * i + t]),
                byte == bits_value(bit, t as int),
                byte < pow2(t as nat),
                power == pow2(t as nat),
                power <= 256,
                pow2(8) == 256,
            decreases 8 - t,
        {
            proof {
                lemma_pow2_unfold((t + 1) as nat);
                lemma_bits_value_range(bit, t + 1);
                if t + 1 < 8 {
                    vstd::arithmetic::power2::lemma_pow2_strictly_increases((t + 1) as nat, 8);
                }
                assert(bit(t as int) == bits@[8 * i + t]);
            }
            if bits[8 * i + t] {
                byte = byte + power as u8;
            }
            power = power * 2;
            t = t + 1;
        }
        bytes.push(byte);
        i = i + 1;
    }
    bytes
}

/// The sizes of a first-round vector.
#[derive(Clone, Copy, Debug)]
pub struct Round1Sizes {
    pub m: u32,
    pub k_skip: u32,
    pub k_log: u32,
    pub useful_bits: u32,
}

/// The sizes of the vectors of `2^m` rows in blocks of `2^k_log`, of which
/// `useful_bits` are drawn; nothing where the point has no room for its fixed
/// coordinates, or the blocks do not fit.
pub fn round1_sizes(m: usize, k_log: usize, useful_bits: usize) -> (sizes: Option<Round1Sizes>)
    requires
        pow2(k_log as nat) <= usize::MAX,
    ensures
        sizes == (if ROUND1_SKIP + ROUND1_FIXED <= m && k_log <= m && useful_bits <= pow2(
            k_log as nat,
        ) {
            Some(
                Round1Sizes {
                    m: m as u32,
                    k_skip: ROUND1_SKIP as u32,
                    k_log: k_log as u32,
                    useful_bits: useful_bits as u32,
                },
            )
        } else {
            None
        }),
{
    if ROUND1_SKIP + ROUND1_FIXED <= m && k_log <= m && useful_bits <= power_of_two(k_log) {
        Some(
            Round1Sizes {
                m: m as u32,
                k_skip: ROUND1_SKIP as u32,
                k_log: k_log as u32,
                useful_bits: useful_bits as u32,
            },
        )
    } else {
        None
    }
}

/// The first-round vectors' stream.
pub open spec fn round1_bytes(
    sizes: Round1Sizes,
    r: Seq<F128>,
    matrix: Seq<u8>,
    products: Seq<u8>,
    packed: (Seq<u8>, Seq<u8>, Seq<u8>),
    round1_ab: Seq<F128>,
    round1_c: Seq<F128>,
) -> Seq<u8> {
    le_bytes(0x5A43_5231, 4) + le_bytes(sizes.m as int, 4) + le_bytes(sizes.k_skip as int, 4)
        + le_bytes(sizes.k_log as int, 4) + le_bytes(sizes.useful_bits as int, 4) + elements_bytes(
        r,
    ) + matrix + products + packed.0 + packed.1 + packed.2 + elements_bytes(round1_ab)
        + elements_bytes(round1_c)
}

/// The first-round vectors' stream: the magic, the sizes, the challenges, the
/// extension matrix and the multiplication table, the packed columns, and the
/// round's two messages.
pub fn round1_stream(
    sizes: &Round1Sizes,
    r: &[F128],
    matrix: &[u8],
    products: &[u8],
    a_packed: &[u8],
    b_packed: &[u8],
    c_packed: &[u8],
    round1_ab: &[F128],
    round1_c: &[F128],
) -> (out: Vec<u8>)
    ensures
        out@ == round1_bytes(
            *sizes,
            r@,
            matrix@,
            products@,
            (a_packed@, b_packed@, c_packed@),
            round1_ab@,
            round1_c@,
        ),
        out@ == le_bytes(0x5A43_5231, 4) + le_bytes(sizes.m as int, 4) + le_bytes(
            sizes.k_skip as int,
            4,
        ) + le_bytes(sizes.k_log as int, 4) + le_bytes(sizes.useful_bits as int, 4)
            + elements_bytes(r@) + matrix@ + products@ + a_packed@ + b_packed@ + c_packed@
            + elements_bytes(round1_ab@) + elements_bytes(round1_c@),
{
    let mut out: Vec<u8> = Vec::new();
    write_u32(&mut out, 0x5A43_5231);
    write_u32(&mut out, sizes.m);
    write_u32(&mut out, sizes.k_skip);
    write_u32(&mut out, sizes.k_log);
    write_u32(&mut out, sizes.useful_bits);
    assert(out@ =~= le_bytes(0x5A43_5231, 4) + le_bytes(sizes.m as int, 4) + le_bytes(
        sizes.k_skip as int,
        4,
    ) + le_bytes(sizes.k_log as int, 4) + le_bytes(sizes.useful_bits as int, 4));
    write_elements(&mut out, r);
    write_bytes(&mut out, matrix);
    write_bytes(&mut out, products);
    write_bytes(&mut out, a_packed);
    write_bytes(&mut out, b_packed);
    write_bytes(&mut out, c_packed);
    write_elements(&mut out, round1_ab);
    write_elements(&mut out, round1_c);
    out
}

} // verus!
