//! What the vectors' streams hold, and where: every number and every element is
//! read back from its place.
use vstd::arithmetic::power2::{lemma2_to64, lemma_pow2_adds, lemma_pow2_pos, pow2};
use vstd::prelude::*;

use crate::bytes::{
    elements_are_read_back, f128_bytes, le_bytes, le_value, numbers_are_read_back,
};
use crate::field::{fadd, fmul, lemma_fadd_cancel, lemma_fadd_comm, F128};
use crate::mle::{lerp, mle};
use crate::vectors::{
    codeword_after, element_at, elements_bytes, fold_bytes, folded_pair, lemma_codeword_len,
    output, position_lanes, reversed_from, round1_bits, round1_bytes, rounds_bytes,
    row_batch_bytes, row_batch_fold_is_the_extension, state_after, Round1Sizes, FOLD_SEED,
};

verus! {

/// The stream holds a 32-bit number at a place.
pub open spec fn holds_number(stream: Seq<u8>, at: int, v: int) -> bool {
    &&& 0 <= at
    &&& at + 4 <= stream.len()
    &&& le_value(stream.subrange(at, at + 4)) == v
}

/// The stream holds an element at a place: its low limb, then its high limb.
pub open spec fn holds_element(stream: Seq<u8>, at: int, x: F128) -> bool {
    &&& 0 <= at
    &&& at + 16 <= stream.len()
    &&& le_value(stream.subrange(at, at + 8)) == x.lo
    &&& le_value(stream.subrange(at + 8, at + 16)) == x.hi
}

/// A number in the middle of a stream is read back.
proof fn lemma_number(head: Seq<u8>, v: int, tail: Seq<u8>)
    requires
        0 <= v < 0x1_0000_0000,
    ensures
        le_bytes(v, 4).len() == 4,
        holds_number(head + le_bytes(v, 4) + tail, head.len() as int, v),
{
    assert(vstd::arithmetic::power::pow(256, 4) == 0x1_0000_0000) by {
        reveal_with_fuel(vstd::arithmetic::power::pow, 5);
    }
    numbers_are_read_back(v, 4);
    let all = head + le_bytes(v, 4) + tail;
    let at = head.len() as int;
    assert(all.subrange(at, at + 4) =~= le_bytes(v, 4));
}

/// Five numbers.
spec fn header(a: int, b: int, c: int, d: int, e: int) -> Seq<u8> {
    le_bytes(a, 4) + le_bytes(b, 4) + le_bytes(c, 4) + le_bytes(d, 4) + le_bytes(e, 4)
}

/// The five numbers that a stream begins with are read back.
proof fn lemma_header(a: int, b: int, c: int, d: int, e: int, tail: Seq<u8>)
    requires
        0 <= a < 0x1_0000_0000,
        0 <= b < 0x1_0000_0000,
        0 <= c < 0x1_0000_0000,
        0 <= d < 0x1_0000_0000,
        0 <= e < 0x1_0000_0000,
    ensures
        header(a, b, c, d, e).len() == 20,
        holds_number(header(a, b, c, d, e) + tail, 0, a),
        holds_number(header(a, b, c, d, e) + tail, 4, b),
        holds_number(header(a, b, c, d, e) + tail, 8, c),
        holds_number(header(a, b, c, d, e) + tail, 12, d),
        holds_number(header(a, b, c, d, e) + tail, 16, e),
{
    let none = Seq::<u8>::empty();
    let out = header(a, b, c, d, e) + tail;
    let h1 = le_bytes(a, 4);
    let h2 = h1 + le_bytes(b, 4);
    let h3 = h2 + le_bytes(c, 4);
    let h4 = h3 + le_bytes(d, 4);
    let h5 = h4 + le_bytes(e, 4);
    lemma_number(none, a, out.skip(4));
    assert(none + h1 + out.skip(4) =~= out);
    lemma_number(h1, b, out.skip(8));
    assert(h2 + out.skip(8) =~= out);
    lemma_number(h2, c, out.skip(12));
    assert(h3 + out.skip(12) =~= out);
    lemma_number(h3, d, out.skip(16));
    assert(h4 + out.skip(16) =~= out);
    lemma_number(h4, e, out.skip(20));
    assert(h5 + out.skip(20) =~= out);
}

proof fn lemma_elements(list: Seq<F128>, i: int)
    ensures
        elements_bytes(list).len() == 16 * list.len(),
        0 <= i < list.len() ==> elements_bytes(list).subrange(16 * i, 16 * i + 16) == f128_bytes(
            list[i],
        ),
    decreases list.len(),
{
    if list.len() > 0 {
        let rest = list.drop_last();
        elements_are_read_back(list.last());
        lemma_elements(rest, i);
        let bytes = elements_bytes(list);
        if 0 <= i < rest.len() {
            assert(bytes.subrange(16 * i, 16 * i + 16) =~= elements_bytes(rest).subrange(
                16 * i,
                16 * i + 16,
            ));
        } else if i == rest.len() {
            assert(bytes.subrange(16 * i, 16 * i + 16) =~= f128_bytes(list[i]));
        }
    }
}

/// Element `i` of a list in the middle of a stream is read back.
proof fn lemma_element(head: Seq<u8>, list: Seq<F128>, tail: Seq<u8>, i: int)
    ensures
        elements_bytes(list).len() == 16 * list.len(),
        0 <= i < list.len() ==> holds_element(
            head + elements_bytes(list) + tail,
            head.len() + 16 * i,
            list[i],
        ),
{
    lemma_elements(list, i);
    if 0 <= i < list.len() {
        let all = head + elements_bytes(list) + tail;
        let at = head.len() + 16 * i;
        elements_are_read_back(list[i]);
        let x = f128_bytes(list[i]);
        assert(elements_bytes(list).subrange(16 * i, 16 * i + 16) == x);
        assert(all.subrange(at, at + 16) =~= x);
        assert(all.subrange(at, at + 8) =~= x.take(8)) by {
            assert forall|t: int| 0 <= t < 16 implies #[trigger] x[t] == all[at + t] by {
                assert(all.subrange(at, at + 16)[t] == all[at + t]);
            }
        }
        assert(all.subrange(at + 8, at + 16) =~= x.skip(8)) by {
            assert forall|t: int| 0 <= t < 16 implies #[trigger] x[t] == all[at + t] by {
                assert(all.subrange(at, at + 16)[t] == all[at + t]);
            }
        }
    }
}

/// Folding a pair undoes the code's butterfly: the pair that the butterfly of a
/// twiddle makes of `u` and `v` folds to `u` and `v` interpolated at the
/// challenge.
pub proof fn folding_undoes_the_butterfly(twiddle: F128, u: F128, v: F128, r: F128)
    ensures
        ({
            let top = fadd(u, fmul(v, twiddle));
            folded_pair(twiddle, top, fadd(top, v), r) == lerp(u, v, r)
        }),
{
    let top = fadd(u, fmul(v, twiddle));
    lemma_fadd_comm(fadd(top, v), top);
    lemma_fadd_cancel(top, v);
    assert(fadd(fadd(top, v), top) == v);
    lemma_fadd_cancel(fmul(v, twiddle), u);
    assert(fadd(top, fmul(v, twiddle)) == u);
}

/// A padded column: a row of a block's first `useful` ones takes the next three
/// outputs of the generator, one for each column, and every other row is zero
/// and takes none.
pub proof fn padding_is_zero_and_takes_nothing(
    state: u64,
    block: int,
    useful: int,
    n: int,
    i: int,
)
    requires
        0 < block,
        0 <= useful <= block,
        0 <= i < n,
    ensures
        ({
            let drawn = round1_bits(state, block, useful, n);
            let t = i % block;
            let from = 3 * (useful * (i / block) + t);
            &&& drawn.a.len() == n && drawn.b.len() == n && drawn.c.len() == n
            &&& t < useful ==> {
                &&& drawn.a[i] == (output(state, from) & 1 == 1)
                &&& drawn.b[i] == (output(state, from + 1) & 1 == 1)
                &&& drawn.c[i] == (output(state, from + 2) & 1 == 1)
            }
            &&& t >= useful ==> !drawn.a[i] && !drawn.b[i] && !drawn.c[i]
        }),
    decreases n,
{
    lemma_drawn(state, block, useful, n - 1);
    let rest = round1_bits(state, block, useful, n - 1);
    if i < n - 1 {
        padding_is_zero_and_takes_nothing(state, block, useful, n - 1, i);
    } else {
        let t = i % block;
        let from = 3 * (useful * (i / block) + t);
        assert(0 <= useful * (i / block)) by (nonlinear_arith)
            requires
                0 <= useful,
                0 <= i,
                0 < block,
        ;
        if t < useful {
            lemma_state_after(state, from, 1);
            lemma_state_after(state, from, 2);
            lemma_state_after(state, from, 3);
        }
    }
}

/// Drawing on from a state is drawing later from the seed.
proof fn lemma_state_after(seed: u64, n: int, m: int)
    requires
        0 <= n,
        0 <= m,
    ensures
        state_after(state_after(seed, n), m) == state_after(seed, n + m),
    decreases m,
{
    if m > 0 {
        lemma_state_after(seed, n, m - 1);
    }
}

/// How many outputs the first `n` rows have taken.
proof fn lemma_drawn(state: u64, block: int, useful: int, n: int)
    requires
        0 < block,
        0 <= useful <= block,
        0 <= n,
    ensures
        ({
            let drawn = round1_bits(state, block, useful, n);
            let taken = useful * (n / block) + (if n % block < useful {
                n % block
            } else {
                useful
            });
            &&& drawn.a.len() == n && drawn.b.len() == n && drawn.c.len() == n
            &&& 0 <= taken
            &&& drawn.state == state_after(state, 3 * taken)
        }),
    decreases n,
{
    let (q, t) = (n / block, n % block);
    assert(0 <= useful * q) by (nonlinear_arith)
        requires
            0 <= useful,
            0 <= q,
    ;
    if n > 0 {
        lemma_drawn(state, block, useful, n - 1);
        let (p, s) = ((n - 1) / block, (n - 1) % block);
        if s + 1 < block {
            vstd::arithmetic::div_mod::lemma_fundamental_div_mod(n - 1, block);
            assert(n == p * block + (s + 1)) by (nonlinear_arith)
                requires
                    n - 1 == block * p + s,
            ;
            vstd::arithmetic::div_mod::lemma_fundamental_div_mod_converse(n, block, p, s + 1);
        } else {
            vstd::arithmetic::div_mod::lemma_fundamental_div_mod(n - 1, block);
            assert(n == (p + 1) * block + 0) by (nonlinear_arith)
                requires
                    n - 1 == block * p + s,
                    s + 1 == block,
            ;
            vstd::arithmetic::div_mod::lemma_fundamental_div_mod_converse(n, block, p + 1, 0);
            assert(useful * (p + 1) == useful * p + useful) by (nonlinear_arith);
        }
        if s < useful {
            assert(0 <= useful * p) by (nonlinear_arith)
                requires
                    0 <= useful,
                    0 <= p,
            ;
            lemma_state_after(state, 3 * (useful * p + s), 3);
        }
    } else {
        vstd::arithmetic::div_mod::lemma_fundamental_div_mod_converse(0, block, 0, 0);
        assert(useful * 0 == 0) by (nonlinear_arith);
    }
}

/// The first-round stream is read back: the four sizes behind the magic, the
/// point, the two tables, the three columns in order, and the two messages.
pub proof fn round1_streams_are_read_back(
    sizes: Round1Sizes,
    r: Seq<F128>,
    matrix: Seq<u8>,
    products: Seq<u8>,
    packed: (Seq<u8>, Seq<u8>, Seq<u8>),
    ab: Seq<F128>,
    c: Seq<F128>,
    i: int,
)
    ensures
        ({
            let out = round1_bytes(sizes, r, matrix, products, packed, ab, c);
            let tables = 20 + 16 * r.len() as int;
            let columns = tables + matrix.len() + products.len();
            let messages = columns + packed.0.len() + packed.1.len() + packed.2.len();
            &&& holds_number(out, 0, 0x5A43_5231)
            &&& holds_number(out, 4, sizes.m as int)
            &&& holds_number(out, 8, sizes.k_skip as int)
            &&& holds_number(out, 12, sizes.k_log as int)
            &&& holds_number(out, 16, sizes.useful_bits as int)
            &&& 0 <= i < r.len() ==> holds_element(out, 20 + 16 * i, r[i])
            &&& out.subrange(tables, tables + matrix.len()) == matrix
            &&& out.subrange(tables + matrix.len(), columns) == products
            &&& out.subrange(columns, columns + packed.0.len()) == packed.0
            &&& out.subrange(
                columns + packed.0.len(),
                columns + packed.0.len() + packed.1.len(),
            ) == packed.1
            &&& out.subrange(columns + packed.0.len() + packed.1.len(), messages) == packed.2
            &&& 0 <= i < ab.len() ==> holds_element(out, messages + 16 * i, ab[i])
            &&& 0 <= i < c.len() ==> holds_element(
                out,
                messages + 16 * ab.len() + 16 * i,
                c[i],
            )
            &&& out.len() == messages + 16 * ab.len() + 16 * c.len()
        }),
{
    let out = round1_bytes(sizes, r, matrix, products, packed, ab, c);
    let none = Seq::<u8>::empty();
    let h0 = le_bytes(0x5A43_5231, 4);
    let h1 = h0 + le_bytes(sizes.m as int, 4);
    let h2 = h1 + le_bytes(sizes.k_skip as int, 4);
    let h3 = h2 + le_bytes(sizes.k_log as int, 4);
    let h4 = h3 + le_bytes(sizes.useful_bits as int, 4);
    let h5 = h4 + elements_bytes(r);
    let h6 = h5 + matrix + products + packed.0 + packed.1 + packed.2;
    lemma_number(none, 0x5A43_5231, none);
    lemma_number(h0, sizes.m as int, none);
    lemma_number(h1, sizes.k_skip as int, none);
    lemma_number(h2, sizes.k_log as int, none);
    lemma_number(h3, sizes.useful_bits as int, none);
    lemma_elements(r, i);
    lemma_elements(ab, i);
    lemma_elements(c, i);
    lemma_number(none, 0x5A43_5231, out.skip(4));
    assert(none + h0 + out.skip(4) =~= out);
    lemma_number(h0, sizes.m as int, out.skip(8));
    assert(h1 + out.skip(8) =~= out);
    lemma_number(h1, sizes.k_skip as int, out.skip(12));
    assert(h2 + out.skip(12) =~= out);
    lemma_number(h2, sizes.k_log as int, out.skip(16));
    assert(h3 + out.skip(16) =~= out);
    lemma_number(h3, sizes.useful_bits as int, out.skip(20));
    assert(h4 + out.skip(20) =~= out);
    lemma_element(h4, r, out.skip(h5.len() as int), i);
    assert(h5 + out.skip(h5.len() as int) =~= out);
    let h7 = h6 + elements_bytes(ab);
    lemma_element(h6, ab, out.skip(h7.len() as int), i);
    assert(h7 + out.skip(h7.len() as int) =~= out);
    lemma_element(h7, c, none, i);
    assert(h7 + elements_bytes(c) + none =~= out);
    let tables = 20 + 16 * r.len() as int;
    let columns = tables + matrix.len() + products.len();
    let messages = columns + packed.0.len() + packed.1.len() + packed.2.len();
    assert(out.subrange(tables, tables + matrix.len()) =~= matrix);
    assert(out.subrange(tables + matrix.len(), columns) =~= products);
    assert(out.subrange(columns, columns + packed.0.len()) =~= packed.0);
    assert(out.subrange(
        columns + packed.0.len(),
        columns + packed.0.len() + packed.1.len(),
    ) =~= packed.1);
    assert(out.subrange(columns + packed.0.len() + packed.1.len(), messages) =~= packed.2);
}

proof fn lemma_row_batch_places(
    k_code: nat,
    log_batch_size: nat,
    codeword: Seq<F128>,
    challenges: Seq<F128>,
    folded: Seq<F128>,
    total: int,
    i: int,
)
    requires
        k_code < 0x1_0000_0000,
        log_batch_size < 0x1_0000_0000,
        pow2(log_batch_size) < 0x1_0000_0000,
        pow2(k_code) < 0x1_0000_0000,
        total < 0x1_0000_0000,
        codeword.len() == total,
        challenges.len() == log_batch_size,
        folded.len() == pow2(k_code),
        row_batch_bytes(k_code, log_batch_size) == header(
            0x5242_4631,
            k_code as int,
            log_batch_size as int,
            pow2(log_batch_size) as int,
            total,
        ) + elements_bytes(codeword) + elements_bytes(challenges) + le_bytes(
            pow2(k_code) as int,
            4,
        ) + elements_bytes(folded),
    ensures
        ({
            let out = row_batch_bytes(k_code, log_batch_size);
            let values = 24 + 16 * total + 16 * log_batch_size;
            &&& holds_number(out, 0, 0x5242_4631)
            &&& holds_number(out, 4, k_code as int)
            &&& holds_number(out, 8, log_batch_size as int)
            &&& holds_number(out, 12, pow2(log_batch_size) as int)
            &&& holds_number(out, 16, total)
            &&& 0 <= i < total ==> holds_element(out, 20 + 16 * i, codeword[i])
            &&& 0 <= i < log_batch_size ==> holds_element(
                out,
                20 + 16 * total + 16 * i,
                challenges[i],
            )
            &&& holds_number(out, 20 + 16 * total + 16 * log_batch_size, pow2(k_code) as int)
            &&& 0 <= i < folded.len() ==> holds_element(out, values + 16 * i, folded[i])
            &&& out.len() == values + 16 * folded.len()
        }),
{
    let out = row_batch_bytes(k_code, log_batch_size);
    let none = Seq::<u8>::empty();
    let h4 = header(
        0x5242_4631,
        k_code as int,
        log_batch_size as int,
        pow2(log_batch_size) as int,
        total,
    );
    let h5 = h4 + elements_bytes(codeword);
    let h6 = h5 + elements_bytes(challenges);
    let h7 = h6 + le_bytes(pow2(k_code) as int, 4);
    lemma_header(
        0x5242_4631,
        k_code as int,
        log_batch_size as int,
        pow2(log_batch_size) as int,
        total,
        out.skip(20),
    );
    assert(h4 + out.skip(20) =~= out);
    lemma_element(h4, codeword, out.skip(h5.len() as int), i);
    assert(h5 + out.skip(h5.len() as int) =~= out);
    lemma_element(h5, challenges, out.skip(h6.len() as int), i);
    assert(h6 + out.skip(h6.len() as int) =~= out);
    lemma_number(h6, pow2(k_code) as int, out.skip(h7.len() as int));
    assert(h7 + out.skip(h7.len() as int) =~= out);
    lemma_element(h7, folded, none, i);
    assert(h7 + elements_bytes(folded) + none =~= out);
}

/// The row-batch stream is read back: its sizes, the generator's elements as the
/// codeword, the next ones as the challenges, and for every position the
/// extension of its lanes at the challenges, the first of which binds the last
/// variable.
pub proof fn row_batch_streams_are_read_back(k_code: nat, log_batch_size: nat, i: int)
    requires
        k_code + log_batch_size < 32,
    ensures
        ({
            let out = row_batch_bytes(k_code, log_batch_size);
            let lanes = pow2(log_batch_size) as int;
            let positions = pow2(k_code) as int;
            let total = pow2((k_code + log_batch_size) as nat) as int;
            let codeword = Seq::new(total as nat, |j: int| element_at(FOLD_SEED, 2 * j));
            let challenges = Seq::new(
                log_batch_size,
                |j: int| element_at(FOLD_SEED, 2 * (total + j)),
            );
            let values = 24 + 16 * total + 16 * log_batch_size;
            &&& holds_number(out, 0, 0x5242_4631)
            &&& holds_number(out, 4, k_code as int)
            &&& holds_number(out, 8, log_batch_size as int)
            &&& holds_number(out, 12, lanes)
            &&& holds_number(out, 16, total)
            &&& 0 <= i < total ==> holds_element(out, 20 + 16 * i, codeword[i])
            &&& 0 <= i < log_batch_size ==> holds_element(
                out,
                20 + 16 * total + 16 * i,
                challenges[i],
            )
            &&& holds_number(out, 20 + 16 * total + 16 * log_batch_size, positions)
            &&& 0 <= i < positions ==> holds_element(
                out,
                values + 16 * i,
                mle(
                    codeword.subrange(i * lanes, i * lanes + lanes),
                    reversed_from(challenges, 0),
                ),
            )
            &&& out.len() == values + 16 * positions
        }),
{
    lemma2_to64();
    let lanes = pow2(log_batch_size) as int;
    let positions = pow2(k_code) as int;
    let total = positions * lanes;
    lemma_pow2_adds(k_code, log_batch_size);
    lemma_pow2_pos(k_code);
    lemma_pow2_pos(log_batch_size);
    vstd::arithmetic::power2::lemma_pow2_strictly_increases((k_code + log_batch_size) as nat, 32);
    assert(lanes <= total && positions <= total) by (nonlinear_arith)
        requires
            total == positions * lanes,
            positions >= 1,
            lanes >= 1,
    ;
    let codeword = Seq::new(total as nat, |j: int| element_at(FOLD_SEED, 2 * j));
    let challenges = Seq::new(log_batch_size, |j: int| element_at(FOLD_SEED, 2 * (total + j)));
    let folded = Seq::new(
        positions as nat,
        |p: int|
            crate::vectors::lanes_after(
                position_lanes(codeword, lanes, p),
                challenges,
                log_batch_size as int,
            )[0],
    );
    lemma_row_batch_places(k_code, log_batch_size, codeword, challenges, folded, total, i);
    if 0 <= i < positions {
        assert(i * lanes + lanes <= total && 0 <= i * lanes) by (nonlinear_arith)
            requires
                0 <= i < positions,
                total == positions * lanes,
                lanes >= 1,
        ;
        row_batch_fold_is_the_extension(position_lanes(codeword, lanes, i), challenges);
    }
}

proof fn lemma_rounds_len(k_code: nat, twiddles: Seq<Vec<F128>>, j: int)
    requires
        0 <= j <= k_code,
        k_code < 32,
    ensures
        rounds_bytes(FOLD_SEED, k_code, twiddles, j).len() == 20 * j + 16 * (pow2(k_code) - pow2(
            (k_code - j) as nat,
        )),
    decreases j,
{
    if j > 0 {
        lemma_rounds_len(k_code, twiddles, j - 1);
        let folded = codeword_after(FOLD_SEED, k_code, twiddles, j);
        lemma_codeword_len(FOLD_SEED, k_code, twiddles, j);
        lemma_elements(folded, 0);
        elements_are_read_back(crate::vectors::fold_challenge(FOLD_SEED, k_code, j - 1));
        lemma_small_power((k_code - j) as nat);
        lemma_number(Seq::empty(), folded.len() as int, Seq::empty());
        vstd::arithmetic::power2::lemma_pow2_unfold((k_code - j + 1) as nat);
    }
}

proof fn lemma_small_power(k: nat)
    requires
        k < 32,
    ensures
        1 <= pow2(k) < 0x1_0000_0000,
{
    lemma2_to64();
    lemma_pow2_pos(k);
    vstd::arithmetic::power2::lemma_pow2_strictly_increases(k, 32);
}

/// Round `j` of the bytes of more rounds.
proof fn lemma_round_bytes(k_code: nat, twiddles: Seq<Vec<F128>>, j: int, n: int)
    requires
        0 <= j < n <= k_code,
        k_code < 32,
    ensures
        ({
            let all = rounds_bytes(FOLD_SEED, k_code, twiddles, n);
            let one = rounds_bytes(FOLD_SEED, k_code, twiddles, j + 1);
            one.len() <= all.len() && all.take(one.len() as int) == one
        }),
    decreases n,
{
    let all = rounds_bytes(FOLD_SEED, k_code, twiddles, n);
    let one = rounds_bytes(FOLD_SEED, k_code, twiddles, j + 1);
    if j + 1 < n {
        lemma_round_bytes(k_code, twiddles, j, n - 1);
        let before = rounds_bytes(FOLD_SEED, k_code, twiddles, n - 1);
        assert(all.take(before.len() as int) =~= before);
        assert(all.take(one.len() as int) =~= before.take(one.len() as int));
    } else {
        assert(all.take(one.len() as int) =~= one);
    }
}

/// The fold stream is read back: its sizes, the generator's elements as the
/// codeword and, for every round, the generator's next element as the challenge,
/// the halved length and the folded codeword, each entry of which is its pair of
/// the codeword before it folded under the twiddle of its layer: the last layer
/// in the first round, and one below in each later one.
pub proof fn fold_streams_are_read_back(
    k_code: nat,
    log_inv_rate: nat,
    twiddles: Seq<Vec<F128>>,
    j: int,
    i: int,
)
    requires
        log_inv_rate < k_code < 32,
        0 <= j < k_code - log_inv_rate,
    ensures
        ({
            let out = fold_bytes(k_code, log_inv_rate, twiddles);
            let size = pow2(k_code) as int;
            let half = pow2((k_code - j - 1) as nat) as int;
            let at = 20 + 16 * size + 20 * j + 16 * (size - 2 * half);
            let r = element_at(FOLD_SEED, 2 * (size + j));
            let before = codeword_after(FOLD_SEED, k_code, twiddles, j);
            let after = codeword_after(FOLD_SEED, k_code, twiddles, j + 1);
            &&& holds_number(out, 0, 0x464F_4C44)
            &&& holds_number(out, 4, k_code as int)
            &&& holds_number(out, 8, log_inv_rate as int)
            &&& holds_number(out, 12, k_code - log_inv_rate)
            &&& holds_number(out, 16, size)
            &&& 0 <= i < size ==> holds_element(
                out,
                20 + 16 * i,
                element_at(FOLD_SEED, 2 * i),
            )
            &&& holds_element(out, at, r)
            &&& holds_number(out, at + 16, half)
            &&& after.len() == half
            &&& before.len() == 2 * half
            &&& j == 0 && 0 <= i < size ==> before[i] == element_at(FOLD_SEED, 2 * i)
            &&& 0 <= i < half ==> holds_element(out, at + 20 + 16 * i, after[i]) && after[i]
                == folded_pair(
                twiddles[k_code - 1 - j]@[i],
                before[2 * i],
                before[2 * i + 1],
                r,
            )
        }),
{
    let out = fold_bytes(k_code, log_inv_rate, twiddles);
    let size = pow2(k_code) as int;
    let half = pow2((k_code - j - 1) as nat) as int;
    let r = element_at(FOLD_SEED, 2 * (size + j));
    let rounds = k_code - log_inv_rate;
    let first = codeword_after(FOLD_SEED, k_code, twiddles, 0);
    let after = codeword_after(FOLD_SEED, k_code, twiddles, j + 1);
    let none = Seq::<u8>::empty();
    lemma_small_power(k_code);
    lemma_small_power((k_code - j - 1) as nat);
    vstd::arithmetic::power2::lemma_pow2_unfold((k_code - j) as nat);
    lemma_codeword_len(FOLD_SEED, k_code, twiddles, j);
    lemma_codeword_len(FOLD_SEED, k_code, twiddles, j + 1);
    let h4 = header(0x464F_4C44, k_code as int, log_inv_rate as int, rounds, size);
    let h5 = h4 + elements_bytes(first);
    let all = rounds_bytes(FOLD_SEED, k_code, twiddles, rounds);
    assert(out == h5 + all);
    lemma_header(
        0x464F_4C44,
        k_code as int,
        log_inv_rate as int,
        rounds,
        size,
        elements_bytes(first) + all,
    );
    assert(h4 + (elements_bytes(first) + all) =~= out);
    lemma_element(h4, first, all, i);
    lemma_round_places(k_code, twiddles, h5, rounds, j, i);
}

proof fn lemma_round_places(
    k_code: nat,
    twiddles: Seq<Vec<F128>>,
    h5: Seq<u8>,
    rounds: int,
    j: int,
    i: int,
)
    requires
        k_code < 32,
        0 <= j < rounds <= k_code,
    ensures
        ({
            let out = h5 + rounds_bytes(FOLD_SEED, k_code, twiddles, rounds);
            let size = pow2(k_code) as int;
            let half = pow2((k_code - j - 1) as nat) as int;
            let at = h5.len() + 20 * j + 16 * (size - 2 * half);
            let r = element_at(FOLD_SEED, 2 * (size + j));
            let after = codeword_after(FOLD_SEED, k_code, twiddles, j + 1);
            &&& holds_element(out, at, r)
            &&& holds_number(out, at + 16, half)
            &&& 0 <= i < half ==> holds_element(out, at + 20 + 16 * i, after[i])
        }),
{
    let size = pow2(k_code) as int;
    let half = pow2((k_code - j - 1) as nat) as int;
    let r = element_at(FOLD_SEED, 2 * (size + j));
    let after = codeword_after(FOLD_SEED, k_code, twiddles, j + 1);
    let all = rounds_bytes(FOLD_SEED, k_code, twiddles, rounds);
    let done = rounds_bytes(FOLD_SEED, k_code, twiddles, j);
    let one = rounds_bytes(FOLD_SEED, k_code, twiddles, j + 1);
    lemma_small_power((k_code - j - 1) as nat);
    vstd::arithmetic::power2::lemma_pow2_unfold((k_code - j) as nat);
    lemma_codeword_len(FOLD_SEED, k_code, twiddles, j + 1);
    lemma_rounds_len(k_code, twiddles, j);
    lemma_round_bytes(k_code, twiddles, j, rounds);
    let head = h5 + done;
    let tail = all.skip(one.len() as int);
    let (el, lens, body) = (f128_bytes(r), le_bytes(half, 4), elements_bytes(after));
    assert(one == done + el + lens + body);
    assert(all == one + tail) by {
        assert(all.take(one.len() as int) + tail =~= all);
    }
    lemma_round_parts(head, r, half, after, tail, i);
    lemma_regroup(h5, done, el, lens, body, tail);
}

/// Parts joined from the left are parts joined to a head.
proof fn lemma_regroup(
    a: Seq<u8>,
    b: Seq<u8>,
    c: Seq<u8>,
    d: Seq<u8>,
    e: Seq<u8>,
    f: Seq<u8>,
)
    ensures
        a + (b + c + d + e + f) == a + b + c + d + e + f,
{
    assert(a + (b + c + d + e + f) =~= a + b + c + d + e + f);
}

/// A round's bytes: an element, a number and a list.
proof fn lemma_round_parts(
    head: Seq<u8>,
    r: F128,
    half: int,
    after: Seq<F128>,
    tail: Seq<u8>,
    i: int,
)
    requires
        0 <= half < 0x1_0000_0000,
        after.len() == half,
    ensures
        ({
            let out = head + f128_bytes(r) + le_bytes(half, 4) + elements_bytes(after) + tail;
            let at = head.len() as int;
            &&& holds_element(out, at, r)
            &&& holds_number(out, at + 16, half)
            &&& 0 <= i < half ==> holds_element(out, at + 20 + 16 * i, after[i])
        }),
{
    let (el, lens, body) = (f128_bytes(r), le_bytes(half, 4), elements_bytes(after));
    let out = head + el + lens + body + tail;
    elements_are_read_back(r);
    lemma_number(head + el, half, body + tail);
    assert(head + el + lens + (body + tail) =~= out);
    lemma_element(head + el + lens, after, tail, i);
    let at = head.len() as int;
    assert(out.subrange(at, at + 8) =~= el.take(8));
    assert(out.subrange(at + 8, at + 16) =~= el.skip(8));
}

} // verus!
