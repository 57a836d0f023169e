//! The BLAKE3 compression function and the tree hash built on it.
use vstd::prelude::*;

verus! {

pub const CHUNK_START: u32 = 1;

pub const CHUNK_END: u32 = 2;

pub const PARENT: u32 = 4;

pub const ROOT: u32 = 8;

pub const BLOCK_BYTES: usize = 64;

pub const BLOCKS_PER_CHUNK: usize = 16;

/// The inputs of one compression: chaining value, message block, counter,
/// block length and flags.
pub type Compression = ([u32; 8], [u32; 16], u64, u32, u32);

/// The initial chaining value.
pub open spec fn iv_words() -> Seq<u32> {
    seq![
        0x6A09_E667u32,
        0xBB67_AE85u32,
        0x3C6E_F372u32,
        0xA54F_F53Au32,
        0x510E_527Fu32,
        0x9B05_688Cu32,
        0x1F83_D9ABu32,
        0x5BE0_CD19u32,
    ]
}

/// The initial chaining value.
pub fn iv() -> (words: [u32; 8])
    ensures
        words@ == iv_words(),
{
    let words: [u32; 8] = [
        0x6A09_E667,
        0xBB67_AE85,
        0x3C6E_F372,
        0xA54F_F53A,
        0x510E_527F,
        0x9B05_688C,
        0x1F83_D9AB,
        0x5BE0_CD19,
    ];
    assert(words@ =~= iv_words());
    words
}

/// Rotation to the right.
pub open spec fn rotated(x: u32, n: u32) -> u32 {
    (x >> n) | (x << ((32 - n) as u32))
}

fn rotate(x: u32, n: u32) -> (r: u32)
    requires
        0 < n < 32,
    ensures
        r == rotated(x, n),
{
    (x >> n) | (x << (32 - n))
}

/// The quarter round on the words `a, b, c, d` of the state.
pub open spec fn quarter(
    v: Seq<u32>,
    a: int,
    b: int,
    c: int,
    d: int,
    x: u32,
    y: u32,
) -> Seq<u32> {
    let v = v.update(a, v[a].wrapping_add(v[b]).wrapping_add(x));
    let v = v.update(d, rotated(v[d] ^ v[a], 16));
    let v = v.update(c, v[c].wrapping_add(v[d]));
    let v = v.update(b, rotated(v[b] ^ v[c], 12));
    let v = v.update(a, v[a].wrapping_add(v[b]).wrapping_add(y));
    let v = v.update(d, rotated(v[d] ^ v[a], 8));
    let v = v.update(c, v[c].wrapping_add(v[d]));
    v.update(b, rotated(v[b] ^ v[c], 7))
}

fn quarter_round(v: &mut [u32; 16], a: usize, b: usize, c: usize, d: usize, x: u32, y: u32)
    requires
        a < 16,
        b < 16,
        c < 16,
        d < 16,
    ensures
        final(v)@ == quarter(old(v)@, a as int, b as int, c as int, d as int, x, y),
{
    v[a] = v[a].wrapping_add(v[b]).wrapping_add(x);
    v[d] = rotate(v[d] ^ v[a], 16);
    v[c] = v[c].wrapping_add(v[d]);
    v[b] = rotate(v[b] ^ v[c], 12);
    v[a] = v[a].wrapping_add(v[b]).wrapping_add(y);
    v[d] = rotate(v[d] ^ v[a], 8);
    v[c] = v[c].wrapping_add(v[d]);
    v[b] = rotate(v[b] ^ v[c], 7);
}

/// A round: the four columns, then the four diagonals.
pub open spec fn mixed(v: Seq<u32>, m: Seq<u32>) -> Seq<u32> {
    let v = quarter(v, 0, 4, 8, 12, m[0], m[1]);
    let v = quarter(v, 1, 5, 9, 13, m[2], m[3]);
    let v = quarter(v, 2, 6, 10, 14, m[4], m[5]);
    let v = quarter(v, 3, 7, 11, 15, m[6], m[7]);
    let v = quarter(v, 0, 5, 10, 15, m[8], m[9]);
    let v = quarter(v, 1, 6, 11, 12, m[10], m[11]);
    let v = quarter(v, 2, 7, 8, 13, m[12], m[13]);
    quarter(v, 3, 4, 9, 14, m[14], m[15])
}

fn mix(v: &mut [u32; 16], m: &[u32; 16])
    ensures
        final(v)@ == mixed(old(v)@, m@),
{
    quarter_round(v, 0, 4, 8, 12, m[0], m[1]);
    quarter_round(v, 1, 5, 9, 13, m[2], m[3]);
    quarter_round(v, 2, 6, 10, 14, m[4], m[5]);
    quarter_round(v, 3, 7, 11, 15, m[6], m[7]);
    quarter_round(v, 0, 5, 10, 15, m[8], m[9]);
    quarter_round(v, 1, 6, 11, 12, m[10], m[11]);
    quarter_round(v, 2, 7, 8, 13, m[12], m[13]);
    quarter_round(v, 3, 4, 9, 14, m[14], m[15]);
}

/// The message schedule's permutation.
pub open spec fn permuted(m: Seq<u32>) -> Seq<u32> {
    seq![
        m[2],
        m[6],
        m[3],
        m[10],
        m[7],
        m[0],
        m[4],
        m[13],
        m[1],
        m[11],
        m[12],
        m[5],
        m[9],
        m[14],
        m[15],
        m[8],
    ]
}

fn permute(m: &[u32; 16]) -> (p: [u32; 16])
    ensures
        p@ == permuted(m@),
{
    let p: [u32; 16] = [
        m[2],
        m[6],
        m[3],
        m[10],
        m[7],
        m[0],
        m[4],
        m[13],
        m[1],
        m[11],
        m[12],
        m[5],
        m[9],
        m[14],
        m[15],
        m[8],
    ];
    assert(p@ =~= permuted(m@));
    p
}

/// State and message after `n` rounds.
pub open spec fn rounds(v: Seq<u32>, m: Seq<u32>, n: int) -> (Seq<u32>, Seq<u32>)
    decreases n,
{
    if n <= 0 {
        (v, m)
    } else {
        let (v, m) = rounds(v, m, n - 1);
        (mixed(v, m), permuted(m))
    }
}

/// One compression's inputs.
#[verifier::ext_equal]
pub struct Node {
    pub cv: Seq<u32>,
    pub block: Seq<u32>,
    pub counter: u64,
    pub blen: u32,
    pub flags: u32,
}

/// The inputs as a node.
pub open spec fn node_of(c: Compression) -> Node {
    Node { cv: c.0@, block: c.1@, counter: c.2, blen: c.3, flags: c.4 }
}

/// The low word of a counter.
pub open spec fn low_word(counter: u64) -> u32 {
    (counter % 0x1_0000_0000) as u32
}

/// The high word of a counter.
pub open spec fn high_word(counter: u64) -> u32 {
    (counter / 0x1_0000_0000) as u32
}

/// The sixteen output words of a compression.
#[verifier::opaque]
pub open spec fn compressed(n: Node) -> Seq<u32> {
    let iv = iv_words();
    let start = n.cv + iv.subrange(0, 4) + seq![
        low_word(n.counter),
        high_word(n.counter),
        n.blen,
        n.flags,
    ];
    let v = rounds(start, n.block, 7).0;
    Seq::new(
        16,
        |i: int|
            if i < 8 {
                v[i] ^ v[i + 8]
            } else {
                v[i] ^ n.cv[i - 8]
            },
    )
}

/// The chaining value of a compression: its first eight output words.
pub open spec fn chaining(n: Node) -> Seq<u32> {
    compressed(n).subrange(0, 8)
}

pub proof fn lemma_compressed_len(n: Node)
    ensures
        compressed(n).len() == 16,
{
    reveal(compressed);
}

/// The BLAKE3 compression function.
pub fn blake3_compress(
    cv: &[u32; 8],
    m: &[u32; 16],
    counter: u64,
    blen: u32,
    flags: u32,
) -> (out: [u32; 16])
    ensures
        out@ == compressed(Node { cv: cv@, block: m@, counter, blen, flags }),
{
    let iv = iv();
    let lo: u32 = (counter % 0x1_0000_0000) as u32;
    let hi: u32 = (counter / 0x1_0000_0000) as u32;
    let mut v: [u32; 16] = [
        cv[0],
        cv[1],
        cv[2],
        cv[3],
        cv[4],
        cv[5],
        cv[6],
        cv[7],
        iv[0],
        iv[1],
        iv[2],
        iv[3],
        lo,
        hi,
        blen,
        flags,
    ];
    let ghost start = v@;
    assert(start =~= cv@ + iv_words().subrange(0, 4) + seq![
        low_word(counter),
        high_word(counter),
        blen,
        flags,
    ]);
    let mut block: [u32; 16] = [
        m[0],
        m[1],
        m[2],
        m[3],
        m[4],
        m[5],
        m[6],
        m[7],
        m[8],
        m[9],
        m[10],
        m[11],
        m[12],
        m[13],
        m[14],
        m[15],
    ];
    assert(block@ =~= m@);
    let mut i: usize = 0;
    while i < 7
        invariant
            i <= 7,
            (v@, block@) == rounds(start, m@, i as int),
        decreases 7 - i,
    {
        mix(&mut v, &block);
        block = permute(&block);
        i = i + 1;
    }
    let out: [u32; 16] = [
        v[0] ^ v[8],
        v[1] ^ v[9],
        v[2] ^ v[10],
        v[3] ^ v[11],
        v[4] ^ v[12],
        v[5] ^ v[13],
        v[6] ^ v[14],
        v[7] ^ v[15],
        v[8] ^ cv[0],
        v[9] ^ cv[1],
        v[10] ^ cv[2],
        v[11] ^ cv[3],
        v[12] ^ cv[4],
        v[13] ^ cv[5],
        v[14] ^ cv[6],
        v[15] ^ cv[7],
    ];
    proof {
        reveal(compressed);
        assert(out@ =~= compressed(Node { cv: cv@, block: m@, counter, blen, flags }));
    }
    out
}

/// The first eight output words.
pub fn first_half(out: &[u32; 16]) -> (cv: [u32; 8])
    ensures
        cv@ == out@.subrange(0, 8),
{
    let cv: [u32; 8] = [out[0], out[1], out[2], out[3], out[4], out[5], out[6], out[7]];
    assert(cv@ =~= out@.subrange(0, 8));
    cv
}

// ---------------------------------------------------------------------------
// Blocks and bytes.
// ---------------------------------------------------------------------------

/// Byte `i`, or zero past the end.
pub open spec fn byte_or_zero(bytes: Seq<u8>, i: int) -> int {
    if 0 <= i < bytes.len() {
        bytes[i] as int
    } else {
        0
    }
}

/// The sixteen little-endian words of a block, padded with zeros.
pub open spec fn block_words(bytes: Seq<u8>) -> Seq<u32> {
    Seq::new(
        16,
        |i: int|
            (byte_or_zero(bytes, 4 * i) + 256 * byte_or_zero(bytes, 4 * i + 1) + 65_536
                * byte_or_zero(bytes, 4 * i + 2) + 16_777_216 * byte_or_zero(bytes, 4 * i + 3)) as u32,
    )
}

fn byte_at(block: &[u8], i: usize) -> (b: u32)
    ensures
        b == byte_or_zero(block@, i as int),
        b < 256,
{
    if i < block.len() {
        block[i] as u32
    } else {
        0
    }
}

/// The sixteen little-endian words of a block, padded with zeros.
pub fn words(block: &[u8]) -> (m: [u32; 16])
    requires
        block@.len() <= 64,
    ensures
        m@ == block_words(block@),
{
    let mut m: [u32; 16] = [0; 16];
    let mut i: usize = 0;
    while i < 16
        invariant
            i <= 16,
            forall|k: int| 0 <= k < i ==> #[trigger] m@[k] == block_words(block@)[k],
        decreases 16 - i,
    {
        m[i] = byte_at(block, 4 * i) + 256 * byte_at(block, 4 * i + 1) + 65_536 * byte_at(
            block,
            4 * i + 2,
        ) + 16_777_216 * byte_at(block, 4 * i + 3);
        i = i + 1;
    }
    assert(m@ =~= block_words(block@));
    m
}

/// A parent node's message is `left || right`.
pub fn parent_block(left: &[u32; 8], right: &[u32; 8]) -> (m: [u32; 16])
    ensures
        m@ == left@ + right@,
{
    let m: [u32; 16] = [
        left[0],
        left[1],
        left[2],
        left[3],
        left[4],
        left[5],
        left[6],
        left[7],
        right[0],
        right[1],
        right[2],
        right[3],
        right[4],
        right[5],
        right[6],
        right[7],
    ];
    assert(m@ =~= left@ + right@);
    m
}

/// The little-endian bytes of the words.
pub open spec fn word_bytes(words: Seq<u32>) -> Seq<u8> {
    Seq::new(
        4 * words.len(),
        |i: int|
            if i % 4 == 0 {
                (words[i / 4] % 256) as u8
            } else if i % 4 == 1 {
                (words[i / 4] / 256 % 256) as u8
            } else if i % 4 == 2 {
                (words[i / 4] / 65_536 % 256) as u8
            } else {
                (words[i / 4] / 16_777_216) as u8
            },
    )
}

/// Append the little-endian bytes of sixteen words.
pub fn push_words(bytes: &mut Vec<u8>, out: &[u32; 16])
    ensures
        final(bytes)@ == old(bytes)@ + word_bytes(out@),
{
    let ghost start = bytes@;
    let mut i: usize = 0;
    while i < 16
        invariant
            i <= 16,
            bytes@ == start + word_bytes(out@).subrange(0, 4 * i),
        decreases 16 - i,
    {
        let w: u32 = out[i];
        bytes.push((w % 256) as u8);
        bytes.push((w / 256 % 256) as u8);
        bytes.push((w / 65_536 % 256) as u8);
        bytes.push((w / 16_777_216) as u8);
        i = i + 1;
        assert(bytes@ =~= start + word_bytes(out@).subrange(0, 4 * i));
    }
    assert(word_bytes(out@).subrange(0, 64) =~= word_bytes(out@));
}

// ---------------------------------------------------------------------------
// The tree.
// ---------------------------------------------------------------------------

/// The largest power of two below `n`, for `n > 1`.
pub open spec fn split(n: int) -> int
    decreases n,
{
    if n <= 2 {
        1
    } else {
        2 * split((n + 1) / 2)
    }
}

pub proof fn lemma_split_range(n: int)
    requires
        n > 1,
    ensures
        0 < split(n) < n,
        n <= 2 * split(n),
    decreases n,
{
    if n > 2 {
        lemma_split_range((n + 1) / 2);
    }
}

/// The bytes of block `k` of a stream.
pub open spec fn block_bytes(stream: Seq<u8>, k: int) -> Seq<u8> {
    stream.subrange(64 * k, if 64 * k + 64 <= stream.len() {
        64 * k + 64
    } else {
        stream.len() as int
    })
}

/// The compression of block `k` of a stream, `last` where it ends its chunk.
pub open spec fn block_node(stream: Seq<u8>, k: int, last: bool) -> Node
    decreases k, 1int,
{
    Node {
        cv: block_cv(stream, k),
        block: block_words(block_bytes(stream, k)),
        counter: (k / 16) as u64,
        blen: block_bytes(stream, k).len() as u32,
        flags: ((if k % 16 == 0 {
            CHUNK_START as int
        } else {
            0
        }) + (if last {
            CHUNK_END as int
        } else {
            0
        })) as u32,
    }
}

/// The chaining value that enters block `k`: the initial one at the start of a
/// chunk, the previous block's otherwise.
pub open spec fn block_cv(stream: Seq<u8>, k: int) -> Seq<u32>
    decreases k, 0int,
{
    if k <= 0 || k % 16 == 0 {
        iv_words()
    } else {
        chaining(block_node(stream, k - 1, false))
    }
}

/// The number of blocks before the last one, which may be partial or empty.
pub open spec fn full_blocks(len: int) -> int {
    if len <= 0 {
        0
    } else {
        (len - 1) / 64
    }
}

/// The last block of chunk `c` of the stream.
pub open spec fn chunk_last_block(stream: Seq<u8>, c: int) -> int {
    if 16 * c + 15 <= full_blocks(stream.len() as int) {
        16 * c + 15
    } else {
        full_blocks(stream.len() as int)
    }
}

/// The parent of two chaining values.
pub open spec fn parent_node(left: Seq<u32>, right: Seq<u32>) -> Node {
    Node { cv: iv_words(), block: left + right, counter: 0, blen: 64, flags: PARENT }
}

/// The node of the subtree over the `n` chunks from chunk `c`: a chunk's last
/// block, or the parent of the largest complete left subtree and the rest.
pub open spec fn tree_node(stream: Seq<u8>, c: int, n: int) -> Node
    decreases n,
{
    if n <= 1 {
        block_node(stream, chunk_last_block(stream, c), true)
    } else {
        proof {
            lemma_split_range(n);
        }
        parent_node(
            chaining(tree_node(stream, c, split(n))),
            chaining(tree_node(stream, c + split(n), n - split(n))),
        )
    }
}

/// The number of chunks of a stream; an empty stream is one empty chunk.
pub open spec fn chunk_count(len: int) -> int {
    full_blocks(len) / 16 + 1
}

/// The root node of the stream.
pub open spec fn root_node(stream: Seq<u8>) -> Node {
    let node = tree_node(stream, 0, chunk_count(stream.len() as int));
    Node { flags: (node.flags + ROOT) as u32, ..node }
}

/// Output block `j` of the stream's hash.
pub open spec fn output_block(stream: Seq<u8>, j: int) -> Seq<u8> {
    word_bytes(compressed(Node { counter: j as u64, ..root_node(stream) }))
}

/// The first `n` bytes of the stream's extendable output.
pub open spec fn xof(stream: Seq<u8>, n: int) -> Seq<u8> {
    Seq::new(n as nat, |i: int| output_block(stream, i / 64)[i % 64])
}


// ---------------------------------------------------------------------------
// Complete subtrees.
// ---------------------------------------------------------------------------

/// The largest power of two that divides `c`, for `c > 0`.
pub open spec fn low_bit(c: int) -> int
    decreases c,
{
    if c <= 0 || c % 2 == 1 {
        1
    } else {
        2 * low_bit(c / 2)
    }
}

/// The number of ones in the binary expansion.
pub open spec fn ones(c: int) -> int
    decreases c,
{
    if c <= 0 {
        0
    } else {
        c % 2 + ones(c / 2)
    }
}

pub proof fn lemma_low_bit(c: int)
    requires
        c > 0,
    ensures
        0 < low_bit(c) <= c,
        ones(c) == ones(c - low_bit(c)) + 1,
        c - low_bit(c) > 0 ==> low_bit(c - low_bit(c)) >= 2 * low_bit(c),
        0 <= ones(c - low_bit(c)),
    decreases c,
{
    lemma_ones_range(c - low_bit(c));
    if c % 2 == 0 {
        lemma_low_bit(c / 2);
        let rest = c - low_bit(c);
        assert(rest % 2 == 0 && rest / 2 == c / 2 - low_bit(c / 2));
        reveal_with_fuel(ones, 2);
        reveal_with_fuel(low_bit, 2);
    } else {
        let rest = c - 1;
        assert(rest % 2 == 0 && rest / 2 == c / 2);
        reveal_with_fuel(ones, 2);
        reveal_with_fuel(low_bit, 2);
        if rest > 0 {
            lemma_low_bit(rest / 2);
        }
    }
}

pub proof fn lemma_ones_range(c: int)
    ensures
        0 <= ones(c),
        c >= 0 ==> ones(c) <= c,
    decreases c,
{
    if c > 0 {
        lemma_ones_range(c / 2);
    }
}

/// The power of two below `b + r` is `b`, for a power of two `b` and
/// `1 <= r <= b`.
pub proof fn lemma_split_at(c: int, r: int)
    requires
        c > 0,
        1 <= r <= low_bit(c),
    ensures
        split(low_bit(c) + r) == low_bit(c),
    decreases c,
{
    if c % 2 == 0 {
        lemma_low_bit(c / 2);
        let b = low_bit(c / 2);
        let n = 2 * b + r;
        assert((n + 1) / 2 == b + (r + 1) / 2);
        lemma_split_at(c / 2, (r + 1) / 2);
    }
}

/// Twice a power of two splits in halves.
pub proof fn lemma_split_double(c: int)
    requires
        c > 0,
    ensures
        split(2 * low_bit(c)) == low_bit(c),
{
    lemma_low_bit(c);
    lemma_split_at(c, low_bit(c));
}

/// The chaining values of the complete subtrees over the first `c` chunks, one
/// per one of `c`, largest first.
pub open spec fn subtree_stack(stream: Seq<u8>, c: int) -> Seq<Seq<u32>>
    decreases c,
{
    if c <= 0 {
        Seq::empty()
    } else {
        proof {
            lemma_low_bit(c);
        }
        subtree_stack(stream, c - low_bit(c)).push(
            chaining(tree_node(stream, c - low_bit(c), low_bit(c))),
        )
    }
}

pub proof fn lemma_stack_len(stream: Seq<u8>, c: int)
    ensures
        subtree_stack(stream, c).len() == ones(c),
    decreases c,
{
    if c > 0 {
        lemma_low_bit(c);
        lemma_stack_len(stream, c - low_bit(c));
    }
}

pub proof fn lemma_block_stable(s: Seq<u8>, t: Seq<u8>, k: int, last: bool)
    requires
        0 <= k,
        64 * (k + 1) <= s.len(),
        s.len() <= t.len(),
        t.subrange(0, s.len() as int) == s,
    ensures
        block_node(s, k, last) == block_node(t, k, last),
        block_cv(s, k) == block_cv(t, k),
    decreases k,
{
    assert(block_bytes(s, k) =~= block_bytes(t, k)) by {
        assert forall|i: int| 0 <= i < s.len() implies #[trigger] s[i] == t[i] by {
            assert(t.subrange(0, s.len() as int)[i] == t[i]);
        }
    }
    if k > 0 && k % 16 != 0 {
        lemma_block_stable(s, t, k - 1, false);
    }
}

/// The chaining value that enters a block depends on the blocks before it.
pub proof fn lemma_cv_stable(s: Seq<u8>, t: Seq<u8>, k: int)
    requires
        0 <= k,
        64 * k <= s.len(),
        s.len() <= t.len(),
        t.subrange(0, s.len() as int) == s,
    ensures
        block_cv(s, k) == block_cv(t, k),
{
    if k > 0 && k % 16 != 0 {
        lemma_block_stable(s, t, k - 1, false);
    }
}

/// A complete subtree does not change as the stream grows.
pub proof fn lemma_tree_stable(s: Seq<u8>, t: Seq<u8>, c: int, n: int)
    requires
        0 <= c,
        1 <= n,
        1024 * (c + n) <= s.len(),
        s.len() <= t.len(),
        t.subrange(0, s.len() as int) == s,
    ensures
        tree_node(s, c, n) == tree_node(t, c, n),
    decreases n,
{
    if n <= 1 {
        lemma_block_stable(s, t, 16 * c + 15, true);
    } else {
        lemma_split_range(n);
        lemma_tree_stable(s, t, c, split(n));
        lemma_tree_stable(s, t, c + split(n), n - split(n));
    }
}

pub proof fn lemma_stack_stable(s: Seq<u8>, t: Seq<u8>, c: int)
    requires
        0 <= c,
        1024 * c <= s.len(),
        s.len() <= t.len(),
        t.subrange(0, s.len() as int) == s,
    ensures
        subtree_stack(s, c) == subtree_stack(t, c),
    decreases c,
{
    if c > 0 {
        lemma_low_bit(c);
        lemma_stack_stable(s, t, c - low_bit(c));
        lemma_tree_stable(s, t, c - low_bit(c), low_bit(c));
    }
}

} // verus!
