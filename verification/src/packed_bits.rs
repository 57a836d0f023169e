//! Bit vectors packed 128 to a field element, least significant bit first.
use vstd::prelude::*;

use crate::field::{coefficient, F128};

verus! {

/// Bit `p` of the packed words.
pub open spec fn packed_bit(words: Seq<F128>, p: int) -> bool {
    coefficient(words[p / 128], p % 128)
}

/// The bits of the packed words.
pub open spec fn unpacked(words: Seq<F128>) -> Seq<bool> {
    Seq::new(128 * words.len(), |p: int| packed_bit(words, p))
}

/// Setting and writing bits of a limb.
proof fn lemma_limb(limb: u64, s: u64, t: u64, v: u64)
    by (bit_vector)
    requires
        s < 64,
        t < 64,
        v <= 1,
    ensures
        ((((limb & !(1u64 << s)) | (v << s)) >> t) & 1 == 1) == (if s == t {
            v == 1
        } else {
            (limb >> t) & 1 == 1
        }),
        (((limb | (1u64 << s)) >> t) & 1 == 1) == (s == t || (limb >> t) & 1 == 1),
        (0u64 >> t) & 1 == 0,
{
}

/// Bit `p` of the packed words.
pub fn bit(words: &[F128], p: usize) -> (set: bool)
    requires
        p < 128 * words@.len(),
    ensures
        set == packed_bit(words@, p as int),
{
    let w = words[p / 128];
    let limb: u64 = if p % 128 < 64 {
        w.lo
    } else {
        w.hi
    };
    (limb >> ((p % 64) as u64)) & 1 == 1
}

/// The word with bit `s` set to `value`.
fn with_bit(w: F128, s: usize, value: bool) -> (r: F128)
    requires
        s < 128,
    ensures
        forall|t: int|
            0 <= t < 128 ==> #[trigger] coefficient(r, t) == (if t == s {
                value
            } else {
                coefficient(w, t)
            }),
{
    let v: u64 = if value {
        1
    } else {
        0
    };
    let sh: u64 = (s % 64) as u64;
    proof {
        assert forall|limb: u64, t: u64| t < 64 implies ((#[trigger] (((limb & !(1u64 << sh)) | (v << sh))
            >> t)) & 1 == 1) == (if sh == t {
            v == 1
        } else {
            (limb >> t) & 1 == 1
        }) by {
            lemma_limb(limb, sh, t, v);
        }
    }
    if s < 64 {
        F128 { lo: (w.lo & !(1u64 << sh)) | (v << sh), hi: w.hi }
    } else {
        F128 { lo: w.lo, hi: (w.hi & !(1u64 << sh)) | (v << sh) }
    }
}

/// Set bit `p` of the packed words.
pub fn set_bit(words: &mut Vec<F128>, p: usize, value: bool)
    requires
        p < 128 * old(words)@.len(),
    ensures
        final(words)@.len() == old(words)@.len(),
        forall|q: int|
            0 <= q < 128 * final(words)@.len() ==> #[trigger] packed_bit(final(words)@, q) == (if q
                == p {
                value
            } else {
                packed_bit(old(words)@, q)
            }),
{
    let w = words[p / 128];
    words.set(p / 128, with_bit(w, p % 128, value));
}

/// Copy 64 bits between 64-bit aligned positions.
pub fn copy64(src: &[F128], from: usize, dst: &mut Vec<F128>, to: usize)
    requires
        from % 64 == 0,
        to % 64 == 0,
        from < 128 * src@.len(),
        to < 128 * old(dst)@.len(),
    ensures
        final(dst)@.len() == old(dst)@.len(),
        forall|q: int|
            0 <= q < 128 * final(dst)@.len() ==> #[trigger] packed_bit(final(dst)@, q) == (if to <= q
                < to + 64 {
                packed_bit(src@, q - to + from)
            } else {
                packed_bit(old(dst)@, q)
            }),
{
    let w = src[from / 128];
    let v: u64 = if from % 128 == 0 {
        w.lo
    } else {
        w.hi
    };
    let ghost start = dst@;
    write64(dst, to, v);
    assert forall|q: int| 0 <= q < 128 * dst@.len() implies #[trigger] packed_bit(dst@, q) == (if to
        <= q < to + 64 {
        packed_bit(src@, q - to + from)
    } else {
        packed_bit(start, q)
    }) by {
        if to <= q < to + 64 {
            let p = q - to + from;
            assert(p / 128 == from as int / 128);
            assert(p % 128 == from as int % 128 + (q - to));
        }
    }
}

/// Write 64 bits at a 64-bit aligned position.
pub fn write64(words: &mut Vec<F128>, at: usize, value: u64)
    requires
        at % 64 == 0,
        at < 128 * old(words)@.len(),
    ensures
        final(words)@.len() == old(words)@.len(),
        forall|q: int|
            0 <= q < 128 * final(words)@.len() ==> #[trigger] packed_bit(final(words)@, q) == (if at
                <= q < at + 64 {
                (value >> ((q - at) as u64)) & 1 == 1
            } else {
                packed_bit(old(words)@, q)
            }),
{
    let ghost start = words@;
    let w = words[at / 128];
    if at % 128 == 0 {
        words.set(at / 128, F128 { lo: value, hi: w.hi });
    } else {
        words.set(at / 128, F128 { lo: w.lo, hi: value });
    }
    assert forall|q: int| 0 <= q < 128 * words@.len() implies #[trigger] packed_bit(words@, q) == (if at
        <= q < at + 64 {
        (value >> ((q - at) as u64)) & 1 == 1
    } else {
        packed_bit(start, q)
    }) by {
        if at <= q < at + 64 {
            assert(q / 128 == at as int / 128);
            assert(q % 128 == at as int % 128 + (q - at));
        }
    }
}

/// The word of all zeros has no bits.
pub proof fn lemma_zero_word(t: int)
    requires
        0 <= t < 128,
    ensures
        !coefficient(F128 { lo: 0, hi: 0 }, t),
{
    if t < 64 {
        lemma_limb(0, 0, t as u64, 0);
    } else {
        lemma_limb(0, 0, (t - 64) as u64, 0);
    }
}

/// `n` words of zeros.
pub fn zero_words(n: usize) -> (words: Vec<F128>)
    ensures
        words@.len() == n,
        forall|p: int| 0 <= p < 128 * n ==> !(#[trigger] packed_bit(words@, p)),
        forall|i: int| 0 <= i < n ==> #[trigger] words@[i] == (F128 { lo: 0, hi: 0 }),
{
    let mut words: Vec<F128> = Vec::with_capacity(n);
    let mut i: usize = 0;
    while i < n
        invariant
            i <= n,
            words@.len() == i,
            forall|k: int| 0 <= k < i ==> #[trigger] words@[k] == (F128 { lo: 0, hi: 0 }),
        decreases n - i,
    {
        words.push(F128::zero());
        i = i + 1;
    }
    assert forall|p: int| 0 <= p < 128 * n implies !(#[trigger] packed_bit(words@, p)) by {
        lemma_zero_word(p % 128);
        assert(words@[p / 128] == (F128 { lo: 0, hi: 0 }));
    }
    words
}

/// Pack bits 128 to a word.
pub fn pack_witness(bits: &[bool]) -> (words: Vec<F128>)
    requires
        bits@.len() % 128 == 0,
    ensures
        128 * words@.len() == bits@.len(),
        unpacked(words@) == bits@,
{
    let total: usize = bits.len();
    let mut words = zero_words(total / 128);
    let mut p: usize = 0;
    while p < total
        invariant
            total == bits@.len(),
            p <= total,
            128 * words@.len() == total,
            forall|q: int|
                0 <= q < total ==> #[trigger] packed_bit(words@, q) == (q < p && bits@[q]),
        decreases total - p,
    {
        set_bit(&mut words, p, bits[p]);
        p = p + 1;
    }
    assert(unpacked(words@) =~= bits@);
    words
}

} // verus!
