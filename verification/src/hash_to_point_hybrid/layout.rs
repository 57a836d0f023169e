//! The compact, record-major layout. Every retained range is 64-bit aligned.
//!
//! A record takes `2^19` cells: the slot wires of two 256-slot segments and
//! one 128-slot segment, the dense target region, the shared constant, twenty
//! aligned states, and the products of ten permutations.
use vstd::arithmetic::power2::{lemma2_to64, pow2};
use vstd::prelude::*;

use crate::field::{fmul, fzero, F128};
use crate::hash_to_point_slots as slots;
use crate::hash_to_point_slots::relation::nat_bit;
use crate::hash_to_point_sponge::chaining::bit_point;
use crate::mle::{bit_element, bit_value, eq_weight};

verus! {

/// The name of the layout.
pub const PROFILE: &'static str = "aligned-state-v2";

/// log2 of the cells of a record.
pub const K_LOG: usize = 19;

/// Cells of a record.
pub const K: usize = 524_288;

/// The dense target region.
pub const TARGET: usize = 81_920;

/// The shared constant.
pub const CONST: usize = 90_112;

/// The first state.
pub const STATES: usize = 98_304;

/// Cells of a state, padding included.
pub const STATE_STRIDE: usize = 2_048;

/// The first product.
pub const T_BASE: usize = 139_264;

/// Products of a permutation: 24 rounds of 1,600 bits.
pub const PRODUCTS: usize = 38_400;

/// The cells past the last product are padding.
pub const END: usize = 523_264;

/// Cells of a sponge block, which holds three permutations.
pub const SPONGE_K: usize = 131_072;

/// The constant of a sponge block, after its six states.
pub const SPONGE_CONST: usize = 12_288;

/// The products of a sponge block.
pub const SPONGE_PRODUCTS: usize = 12_416;

/// The end of a sponge block's products.
pub const SPONGE_END: usize = 127_616;

// ---------------------------------------------------------------------------
// Addresses.
// ---------------------------------------------------------------------------

/// Where a slot wire stands in the compact layout.
pub open spec fn record_place(old: int) -> Option<int> {
    let plane = old / 1024;
    let slot = old % 1024;
    if old == 0 {
        Some(CONST as int)
    } else if plane < 112 && slot < 512 {
        Some((slot / 256) * 32768 + plane * 256 + slot % 256)
    } else if plane < 112 && slot < 640 {
        Some(65536 + plane * 128 + (slot - 512))
    } else if 112 <= plane < 120 {
        Some(TARGET + (plane - 112) * 1024 + slot)
    } else {
        None
    }
}

/// Where a state stands.
pub open spec fn state_place(permutation: int, output: int) -> int {
    STATES + (2 * permutation + output) * 2048
}

/// Where a permutation's products stand.
pub open spec fn product_place(permutation: int) -> int {
    T_BASE + permutation * 38400
}

/// Where a cell of a sponge block stands in the compact layout.
pub open spec fn sponge_place(block: int, old: int) -> Option<int> {
    if old == SPONGE_CONST {
        Some(CONST as int)
    } else if old < 12288 {
        let slot = old / 2048;
        let permutation = 4 * (slot / 2) + block;
        if permutation < 10 && old % 2048 < 1600 {
            Some(state_place(permutation, slot % 2) + old % 2048)
        } else {
            None
        }
    } else if SPONGE_PRODUCTS <= old < SPONGE_END {
        let offset = old - SPONGE_PRODUCTS;
        let permutation = 4 * (offset / 38400) + block;
        if permutation < 10 {
            Some(product_place(permutation) + offset % 38400)
        } else {
            None
        }
    } else {
        None
    }
}

/// The bit of a two-byte word in the other byte.
pub open spec fn swapped(bit: int) -> int {
    if bit < 8 {
        bit + 8
    } else {
        bit - 8
    }
}

/// The state bit that a candidate word's bit copies: the words are read
/// big-endian from the little-endian lanes of nine output states.
pub open spec fn word_place(slot: int, bit: int) -> int {
    state_place(1 + slot / 68, 1) + 16 * (slot % 68) + swapped(bit)
}

/// Where a slot wire stands in the compact layout.
pub fn record_position(old: usize) -> (position: Option<usize>)
    ensures
        match position {
            Some(p) => record_place(old as int) == Some(p as int) && p < STATES,
            None => record_place(old as int) is None,
        },
{
    if old == slots::Z_CONST_POS {
        return Some(CONST);
    }
    let plane: usize = old / 1024;
    let slot: usize = old % 1024;
    if plane < 112 && slot < 640 {
        if slot < 512 {
            Some((slot / 256) * 32768 + plane * 256 + slot % 256)
        } else {
            Some(2 * 32768 + plane * 128 + (slot - 512))
        }
    } else if 112 <= plane && plane < 120 {
        Some(TARGET + (plane - 112) * 1024 + slot)
    } else {
        None
    }
}

/// Where a state stands.
pub fn state_position(permutation: usize, output: usize) -> (position: usize)
    requires
        permutation < 10,
        output < 2,
    ensures
        position == state_place(permutation as int, output as int),
{
    STATES + (2 * permutation + output) * STATE_STRIDE
}

/// Where a permutation's products stand.
pub fn product_position(permutation: usize) -> (position: usize)
    requires
        permutation < 10,
    ensures
        position == product_place(permutation as int),
{
    T_BASE + permutation * PRODUCTS
}

/// Where a cell of a sponge block stands in the compact layout.
pub fn sponge_position(block: usize, old: usize) -> (position: Option<usize>)
    requires
        block < 4,
    ensures
        match position {
            Some(p) => sponge_place(block as int, old as int) == Some(p as int) && p < END,
            None => sponge_place(block as int, old as int) is None,
        },
{
    if old == SPONGE_CONST {
        return Some(CONST);
    }
    if old < 6 * 2048 {
        let slot: usize = old / 2048;
        let permutation: usize = 4 * (slot / 2) + block;
        let bit: usize = old % 2048;
        if permutation < 10 && bit < 1600 {
            Some(state_position(permutation, slot % 2) + bit)
        } else {
            None
        }
    } else if SPONGE_PRODUCTS <= old && old < SPONGE_END {
        let offset: usize = old - SPONGE_PRODUCTS;
        let permutation: usize = 4 * (offset / PRODUCTS) + block;
        if permutation < 10 {
            Some(product_position(permutation) + offset % PRODUCTS)
        } else {
            None
        }
    } else {
        None
    }
}

/// The state bit that a candidate word's bit copies.
pub fn word_source(slot: usize, bit: usize) -> (position: usize)
    requires
        slot < slots::SLOTS,
        bit < 16,
    ensures
        position == word_place(slot as int, bit as int),
        STATES <= position < T_BASE,
{
    let other: usize = if bit < 8 {
        bit + 8
    } else {
        bit - 8
    };
    state_position(1 + slot / 68, 1) + 16 * (slot % 68) + other
}

/// The layout loses nothing and shares nothing but the constant: two slot
/// wires have different places, two sponge cells have different places unless
/// both are constants, a slot wire and a sponge cell meet only in the
/// constant, and every place is below the end.
pub proof fn places_are_disjoint()
    ensures
        forall|o: int, p: int|
            0 <= o < 131072 && 0 <= p < 131072 && (#[trigger] record_place(o)) is Some && o != p
                ==> #[trigger] record_place(p) != record_place(o),
        forall|b: int, o: int, c: int, p: int|
            0 <= b < 4 && 0 <= o < 131072 && 0 <= c < 4 && 0 <= p < 131072 && (
            #[trigger] sponge_place(b, o)) is Some && (b != c || o != p) && (o != SPONGE_CONST || p
                != SPONGE_CONST) ==> #[trigger] sponge_place(c, p) != sponge_place(b, o),
        forall|o: int, b: int, p: int|
            0 <= o < 131072 && 0 <= b < 4 && 0 <= p < 131072 && (#[trigger] record_place(o)) is Some
                && (o != 0 || p != SPONGE_CONST) ==> #[trigger] sponge_place(b, p) != record_place(
                o,
            ),
        forall|o: int|
            0 <= o < 131072 && (#[trigger] record_place(o)) is Some ==> 0 < record_place(o).unwrap()
                < STATES,
        forall|b: int, o: int|
            0 <= b < 4 && 0 <= o < 131072 && (#[trigger] sponge_place(b, o)) is Some ==> CONST
                <= sponge_place(b, o).unwrap() < END,
{
}

/// The padding of a state is no cell's place.
pub proof fn state_padding_is_vacant(state: int, bit: int)
    requires
        0 <= state < 20,
        1600 <= bit < 2048,
    ensures
        forall|o: int|
            0 <= o < 131072 ==> #[trigger] record_place(o) != Some(STATES + state * 2048 + bit),
        forall|b: int, o: int|
            0 <= b < 4 && 0 <= o < 131072 ==> #[trigger] sponge_place(b, o) != Some(
                STATES + state * 2048 + bit,
            ),
{
}

/// A candidate word's bit copies one bit of an output state, and two bits
/// copy different ones.
pub proof fn word_places_are_states(slot: int, bit: int)
    requires
        0 <= slot < 612,
        0 <= bit < 16,
    ensures
        ({
            let q = slot / 68;
            let at = word_place(slot, bit) - state_place(1 + q, 1);
            &&& 0 <= q < 9
            &&& at == 16 * (slot % 68) + swapped(bit)
            &&& 0 <= at < 1088
        }),
        forall|s: int, b: int|
            0 <= s < 612 && 0 <= b < 16 && (s != slot || b != bit) ==> #[trigger] word_place(s, b)
                != word_place(slot, bit),
{
    let (q, r) = (slot / 68, slot % 68);
    assert(slot == 68 * q + r && 0 <= q < 9 && 0 <= r < 68);
    let a = 16 * r + swapped(bit);
    assert forall|s: int, b: int|
        0 <= s < 612 && 0 <= b < 16 && (s != slot || b != bit) implies #[trigger] word_place(s, b)
        != word_place(slot, bit) by {
        let (v, w) = (s / 68, s % 68);
        assert(s == 68 * v + w && 0 <= v < 9 && 0 <= w < 68);
        let c = 16 * w + swapped(b);
        assert(word_place(s, b) == 98304 + (2 * (1 + v) + 1) * 2048 + c);
        assert(word_place(slot, bit) == 98304 + (2 * (1 + q) + 1) * 2048 + a);
        if word_place(s, b) == word_place(slot, bit) {
            assert(4096 * (v - q) == a - c);
            assert(v == q);
            assert(w == r);
        }
    }
}

// ---------------------------------------------------------------------------
// Fragments.
// ---------------------------------------------------------------------------

/// An opening of the compact witness and its coefficient.
#[derive(Clone, Debug)]
pub struct Fragment {
    pub point: Vec<F128>,
    pub weight: F128,
}

/// A subcube of an old domain that stands contiguously in the compact one.
///
/// An old address has `low` free bits, then fixed bits `gap` up to bit `high`,
/// then `mid` free bits, then fixed bits `top`. The free bits, in order, count
/// the cells from `target` on.
#[derive(Clone, Copy, Debug)]
pub struct Cube {
    pub low: usize,
    pub high: usize,
    pub mid: usize,
    pub gap: usize,
    pub top: usize,
    pub target: usize,
}

impl Cube {
    /// The cube lies in an old domain of `vars` variables, and its target is
    /// an aligned range of the compact one.
    pub open spec fn fits(self, vars: int) -> bool {
        &&& self.low <= self.high
        &&& self.high + self.mid <= vars
        &&& self.low + self.mid <= 19
        &&& self.gap < pow2((self.high - self.low) as nat)
        &&& self.top < pow2((vars - self.high - self.mid) as nat)
        &&& self.target as int % pow2((self.low + self.mid) as nat) as int == 0
        &&& self.target + pow2((self.low + self.mid) as nat) <= K
    }

    /// The old address of the cube's cell `x`.
    pub open spec fn old_address(self, x: int) -> int {
        let low = pow2(self.low as nat) as int;
        let high = pow2(self.high as nat) as int;
        (self.top * pow2(self.mid as nat) + x / low) * high + self.gap * low + x % low
    }

    /// The coordinates of the fixed bits above.
    pub open spec fn top_part(self, vars: int, point: Seq<F128>) -> Seq<F128> {
        point.subrange(point.len() - vars, point.len() - self.high - self.mid)
    }

    /// The coordinates of the free bits above the gap.
    pub open spec fn mid_part(self, point: Seq<F128>) -> Seq<F128> {
        point.subrange(point.len() - self.high - self.mid, point.len() - self.high)
    }

    /// The coordinates of the fixed bits of the gap.
    pub open spec fn gap_part(self, point: Seq<F128>) -> Seq<F128> {
        point.subrange(point.len() - self.high, point.len() - self.low)
    }

    /// The coordinates of the low free bits.
    pub open spec fn low_part(self, point: Seq<F128>) -> Seq<F128> {
        point.subrange(point.len() - self.low, point.len() as int)
    }

    /// The weight of the fixed bits.
    pub open spec fn weight(self, vars: int, point: Seq<F128>) -> F128 {
        fmul(
            eq_weight(self.top_part(vars, point), self.top as int),
            eq_weight(self.gap_part(point), self.gap as int),
        )
    }

    /// The point of the compact domain: the record coordinates, the target's
    /// bits, and the coordinates of the free bits.
    pub open spec fn point(self, vars: int, point: Seq<F128>) -> Seq<F128> {
        let d = (self.low + self.mid) as nat;
        point.take(point.len() - vars) + bit_point(
            self.target as int / pow2(d) as int,
            (19 - d) as nat,
        ) + (self.mid_part(point) + self.low_part(point))
    }
}

/// A fragment's point and weight.
pub open spec fn fragment_view(f: Fragment) -> (Seq<F128>, F128) {
    (f.point@, f.weight)
}

/// The fragments' points and weights.
pub open spec fn fragment_views(fs: Seq<Fragment>) -> Seq<(Seq<F128>, F128)> {
    Seq::new(fs.len(), |i: int| fragment_view(fs[i]))
}

/// The fragments of the first `n` cubes; those of weight zero are left out.
pub open spec fn cube_fragments(
    cubes: spec_fn(int) -> Cube,
    n: int,
    vars: int,
    point: Seq<F128>,
) -> Seq<(Seq<F128>, F128)>
    decreases n,
{
    if n <= 0 {
        seq![]
    } else {
        let before = cube_fragments(cubes, n - 1, vars, point);
        let c = cubes(n - 1);
        if c.weight(vars, point) == fzero() {
            before
        } else {
            before.push((c.point(vars, point), c.weight(vars, point)))
        }
    }
}

/// The weight of the bits of `i` under the coordinates in a range.
fn weight_at(point: &[F128], from: usize, to: usize, i: usize) -> (weight: F128)
    requires
        from <= to <= point@.len(),
    ensures
        weight == eq_weight(point@.subrange(from as int, to as int), i as int),
    decreases to - from,
{
    if from == to {
        return F128::one();
    }
    let ghost part = point@.subrange(from as int, to as int);
    proof {
        assert(part.drop_last() =~= point@.subrange(from as int, to - 1));
    }
    let rest = weight_at(point, from, to - 1, i / 2);
    let r = point[to - 1];
    let factor = if i % 2 == 1 {
        r
    } else {
        F128::one() + r
    };
    rest * factor
}

/// Append the fragment of a cube, unless its weight is zero.
fn cube(out: &mut Vec<Fragment>, point: &[F128], vars: usize, c: Cube)
    requires
        c.fits(vars as int),
        vars <= point@.len(),
    ensures
        fragment_views(final(out)@) == (if c.weight(vars as int, point@) == fzero() {
            fragment_views(old(out)@)
        } else {
            fragment_views(old(out)@).push(
                (c.point(vars as int, point@), c.weight(vars as int, point@)),
            )
        }),
{
    let n: usize = point.len();
    let records: usize = n - vars;
    let d: usize = c.low + c.mid;
    let ghost target = c.point(vars as int, point@);
    proof {
        lemma2_to64();
    }
    let mut dest: Vec<F128> = Vec::with_capacity(records);
    let mut j: usize = 0;
    while j < records
        invariant
            records <= point@.len(),
            j <= records,
            dest@ == point@.take(j as int),
        decreases records - j,
    {
        dest.push(point[j]);
        j = j + 1;
        assert(dest@ =~= point@.take(j as int));
    }
    let ghost lead = dest@;
    let ghost bits = bit_point(c.target as int / pow2(d as nat) as int, (19 - d) as nat);
    let mut i: usize = 19;
    while i > d
        invariant
            d <= i <= 19,
            d == c.low + c.mid,
            bits == bit_point(c.target as int / pow2(d as nat) as int, (19 - d) as nat),
            dest@ == lead + bits.take(19 - i),
        decreases i,
    {
        i = i - 1;
        proof {
            lemma2_to64();
            vstd::arithmetic::power2::lemma_pow2_adds(d as nat, (i - d) as nat);
            vstd::arithmetic::power2::lemma_pow2_pos(d as nat);
            vstd::arithmetic::power2::lemma_pow2_pos((i - d) as nat);
            vstd::arithmetic::div_mod::lemma_div_denominator(
                c.target as int,
                pow2(d as nat) as int,
                pow2((i - d) as nat) as int,
            );
            vstd::arithmetic::power2::lemma_pow2_strictly_increases(i as nat, 19);
        }
        let set = (c.target / slots::setup::power_of_two(i)) % 2 == 1;
        assert(set == nat_bit(c.target as int, i as int));
        assert(bits[18 - i] == bit_value(nat_bit(c.target as int / pow2(d as nat) as int, i - d)));
        dest.push(bit_element(set));
        assert(dest@ =~= lead + bits.take(19 - i));
    }
    let ghost fixed = dest@;
    assert(bits.take(19 - d) =~= bits);
    let mut k: usize = n - c.high - c.mid;
    let ghost first = k as int;
    while k < n - c.high
        invariant
            n == point@.len(),
            first <= k <= n - c.high,
            0 <= first,
            c.high <= n,
            dest@ == fixed + point@.subrange(first, k as int),
        decreases n - c.high - k,
    {
        dest.push(point[k]);
        k = k + 1;
        assert(dest@ =~= fixed + point@.subrange(first, k as int));
    }
    let ghost upper = dest@;
    let mut l: usize = n - c.low;
    while l < n
        invariant
            n == point@.len(),
            c.low <= n,
            n - c.low <= l <= n,
            dest@ == upper + point@.subrange(n - c.low, l as int),
        decreases n - l,
    {
        dest.push(point[l]);
        l = l + 1;
        assert(dest@ =~= upper + point@.subrange(n - c.low, l as int));
    }
    assert(dest@ =~= target);
    let top = weight_at(point, records, n - c.high - c.mid, c.top);
    let gap = weight_at(point, n - c.high, n - c.low, c.gap);
    let weight = top * gap;
    if weight != F128::zero() {
        let ghost before = out@;
        out.push(Fragment { point: dest, weight });
        assert(fragment_views(out@) =~= fragment_views(before).push((target, weight)));
    }
}

/// Cube `k` of the slot wires: three segments of slots by three aligned
/// ranges of planes, the target region, and the constant.
pub open spec fn record_cube_of(k: int) -> Cube {
    let segment = k / 3;
    let low: int = if segment < 2 {
        8
    } else {
        7
    };
    let (plane, mid): (int, int) = if k % 3 == 0 {
        (0, 6)
    } else if k % 3 == 1 {
        (64, 5)
    } else {
        (96, 4)
    };
    if k < 9 {
        Cube {
            low: low as usize,
            high: 10,
            mid: mid as usize,
            gap: (if segment < 2 {
                segment
            } else {
                4
            }) as usize,
            top: (if k % 3 == 0 {
                0
            } else if k % 3 == 1 {
                2
            } else {
                6int
            }) as usize,
            target: (segment * 32768 + plane * (if segment < 2 {
                256
            } else {
                128int
            })) as usize,
        }
    } else if k == 9 {
        Cube { low: 13, high: 13, mid: 0, gap: 0, top: 14, target: TARGET }
    } else {
        Cube { low: 0, high: 0, mid: 0, gap: 0, top: 0, target: CONST }
    }
}

/// Cube `k` of the sponge: a whole state with its padding.
pub open spec fn sponge_cube_of(k: int) -> Cube {
    let permutation = k / 2;
    Cube {
        low: 11,
        high: 11,
        mid: 0,
        gap: 0,
        top: ((permutation % 4) * 64 + 2 * (permutation / 4) + k % 2) as usize,
        target: (STATES + k * 2048) as usize,
    }
}

/// The cubes of the slot wires.
pub open spec fn record_cubes() -> spec_fn(int) -> Cube {
    |k: int| record_cube_of(k)
}

/// The cubes of the sponge.
pub open spec fn sponge_cubes() -> spec_fn(int) -> Cube {
    |k: int| sponge_cube_of(k)
}

/// A cube fits where its numbers do.
proof fn lemma_fits(
    c: Cube,
    vars: int,
    target: int,
    d: nat,
    size: int,
    gap_bits: nat,
    gaps: int,
    top_bits: nat,
    tops: int,
)
    requires
        c.target == target,
        c.low + c.mid == d,
        c.low <= c.high,
        c.high + c.mid <= vars,
        d <= 19,
        gap_bits == c.high - c.low,
        top_bits == vars - c.high - c.mid,
        pow2(d) == size,
        pow2(gap_bits) == gaps,
        pow2(top_bits) == tops,
        c.gap < gaps,
        c.top < tops,
        target % size == 0,
        target + size <= K,
    ensures
        c.fits(vars),
{
}

/// The slot cubes lie in both domains.
pub proof fn lemma_record_cube(k: int)
    requires
        0 <= k < 11,
    ensures
        record_cube_of(k).fits(17),
{
    lemma2_to64();
    let c = record_cube_of(k);
    if k == 0 {
        assert(0int % 16384 == 0);
        lemma_fits(c, 17, 0, 14, 16384, 2, 4, 1, 2);
    } else if k == 1 {
        lemma_fits(c, 17, 16384, 13, 8192, 2, 4, 2, 4);
    } else if k == 2 {
        lemma_fits(c, 17, 24576, 12, 4096, 2, 4, 3, 8);
    } else if k == 3 {
        lemma_fits(c, 17, 32768, 14, 16384, 2, 4, 1, 2);
    } else if k == 4 {
        lemma_fits(c, 17, 49152, 13, 8192, 2, 4, 2, 4);
    } else if k == 5 {
        lemma_fits(c, 17, 57344, 12, 4096, 2, 4, 3, 8);
    } else if k == 6 {
        lemma_fits(c, 17, 65536, 13, 8192, 3, 8, 1, 2);
    } else if k == 7 {
        lemma_fits(c, 17, 73728, 12, 4096, 3, 8, 2, 4);
    } else if k == 8 {
        lemma_fits(c, 17, 77824, 11, 2048, 3, 8, 3, 8);
    } else if k == 9 {
        lemma_fits(c, 17, 81920, 13, 8192, 0, 1, 4, 16);
    } else if k == 10 {
        lemma_fits(c, 17, 90112, 0, 1, 0, 1, 17, 131072);
    }
}

/// The sponge cubes lie in both domains.
pub proof fn lemma_sponge_cube(k: int)
    requires
        0 <= k < 20,
    ensures
        sponge_cube_of(k).fits(19),
{
    lemma2_to64();
    assert((98304 + k * 2048) % 2048 == 0);
    lemma_fits(sponge_cube_of(k), 19, 98304 + k * 2048, 11, 2048, 0, 1, 8, 256);
}

fn record_cube(k: usize) -> (c: Cube)
    requires
        k < 11,
    ensures
        c == record_cube_of(k as int),
{
    if k == 9 {
        return Cube { low: 13, high: 13, mid: 0, gap: 0, top: 14, target: TARGET };
    }
    if k == 10 {
        return Cube { low: 0, high: 0, mid: 0, gap: 0, top: 0, target: CONST };
    }
    let segment: usize = k / 3;
    let low: usize = if segment < 2 {
        8
    } else {
        7
    };
    let width: usize = if segment < 2 {
        256
    } else {
        128
    };
    let gap: usize = if segment < 2 {
        segment
    } else {
        4
    };
    let (plane, mid, top): (usize, usize, usize) = if k % 3 == 0 {
        (0, 6, 0)
    } else if k % 3 == 1 {
        (64, 5, 2)
    } else {
        (96, 4, 6)
    };
    Cube { low, high: 10, mid, gap, top, target: segment * 32768 + plane * width }
}

/// The openings of the compact witness that make up an opening of the slot
/// wires at `point`.
pub fn record_fragments(point: &[F128]) -> (fragments: Vec<Fragment>)
    requires
        point@.len() >= 17,
    ensures
        fragment_views(fragments@) == cube_fragments(record_cubes(), 11, 17, point@),
{
    let mut out: Vec<Fragment> = Vec::new();
    let ghost cubes = record_cubes();
    let mut k: usize = 0;
    assert(fragment_views(out@) =~= cube_fragments(cubes, 0, 17, point@));
    while k < 11
        invariant
            point@.len() >= 17,
            cubes == record_cubes(),
            k <= 11,
            fragment_views(out@) == cube_fragments(cubes, k as int, 17, point@),
        decreases 11 - k,
    {
        proof {
            lemma_record_cube(k as int);
        }
        cube(&mut out, point, 17, record_cube(k));
        k = k + 1;
    }
    out
}

/// The openings of the compact witness that make up an opening of the sponge
/// states at `point`.
pub fn sponge_fragments(point: &[F128]) -> (fragments: Vec<Fragment>)
    requires
        point@.len() >= 19,
    ensures
        fragment_views(fragments@) == cube_fragments(sponge_cubes(), 20, 19, point@),
{
    let mut out: Vec<Fragment> = Vec::new();
    let ghost cubes = sponge_cubes();
    let mut k: usize = 0;
    assert(fragment_views(out@) =~= cube_fragments(cubes, 0, 19, point@));
    while k < 20
        invariant
            point@.len() >= 19,
            cubes == sponge_cubes(),
            k <= 20,
            fragment_views(out@) == cube_fragments(cubes, k as int, 19, point@),
        decreases 20 - k,
    {
        proof {
            lemma_sponge_cube(k as int);
        }
        let permutation: usize = k / 2;
        let top: usize = (permutation % 4) * 64 + 2 * (permutation / 4) + k % 2;
        let c = Cube { low: 11, high: 11, mid: 0, gap: 0, top, target: STATES + k * 2048 };
        cube(&mut out, point, 19, c);
        k = k + 1;
    }
    out
}

} // verus!
