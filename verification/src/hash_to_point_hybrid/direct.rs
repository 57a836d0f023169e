//! The sponge's part of the compact witness, generated in place.
use vstd::prelude::*;

use crate::field::F128;
use crate::hash_to_point_hybrid::assembly::{complete, completes, Witness};
use crate::hash_to_point_hybrid::layout::{
    product_place, product_position, state_place, state_position, CONST, END, K, STATES, T_BASE,
};
use crate::hash_to_point_sponge::{
    absorb_block, frame_block, framed_blocks, lemma_positions, logical, squeeze_state,
    squeeze_words, state_word, trace_squeezes, trace_state, zero_state, SpongeRecord,
};
use crate::keccak::{
    chi_lanes, iota_lanes, keccak_round, keccak_rounds, lane_bit, lane_bits, lanes_to_state,
    lemma_from_lanes, lemma_lane_ops, lemma_position, neighbor_of, permutation, rho_pi,
    rho_pi_lanes, state_to_lanes, theta, theta_lanes, Lanes, State, ROUNDS,
};
use crate::packed_bits::{packed_bit, write64, zero_words};
use crate::r1cs::SparseBinaryMatrix;

verus! {

/// A column of the witness: the value of a row, or one of its two factors.
#[derive(Clone, Copy, Debug, PartialEq, Eq, Structural)]
pub enum Side {
    Value,
    Left,
    Right,
}

/// Product `i` of the round that follows state `s`.
pub open spec fn product_bit(s: Seq<bool>, side: Side, i: int) -> bool {
    let phi = rho_pi(theta(s));
    let left = !phi[neighbor_of(i, 1)];
    let right = phi[neighbor_of(i, 2)];
    match side {
        Side::Value => left && right,
        Side::Left => left,
        Side::Right => right,
    }
}

/// The cell of a state bit: a free row, whose right factor is one.
pub open spec fn state_bit(s: Seq<bool>, side: Side, i: int) -> bool {
    side == Side::Right || s[i]
}

/// What permutation `e` with input `s` writes at cell `q` of its record.
pub open spec fn permutation_cell(s: Seq<bool>, e: int, side: Side, q: int) -> Option<bool> {
    let first = q - state_place(e, 0);
    let second = q - state_place(e, 1);
    let offset = q - product_place(e);
    if 0 <= first < 1600 {
        Some(state_bit(s, side, logical(first)))
    } else if 0 <= second < 1600 {
        Some(state_bit(permutation(s), side, logical(second)))
    } else if 0 <= offset < 38400 {
        Some(product_bit(keccak_rounds(s, offset / 1600), side, logical(offset % 1600)))
    } else {
        None
    }
}

/// The permutation whose state or product a cell may hold.
pub open spec fn cell_owner(q: int) -> int {
    if STATES <= q < T_BASE {
        ((q - STATES) / 2048) / 2
    } else if T_BASE <= q < END {
        (q - T_BASE) / 38400
    } else {
        -1
    }
}

/// Cell `q` of a record with the given frame.
pub open spec fn sponge_cell(frame: Seq<u8>, side: Side, q: int) -> bool {
    let e = cell_owner(q);
    if q == CONST {
        true
    } else if 0 <= e < 10 {
        match permutation_cell(trace_state(frame, e), e, side, q) {
            Some(set) => set,
            None => false,
        }
    } else {
        false
    }
}

/// A permutation writes only the cells that it owns.
proof fn lemma_cell_owner(s: Seq<bool>, e: int, side: Side, q: int)
    requires
        0 <= e < 10,
        permutation_cell(s, e, side, q) is Some,
    ensures
        cell_owner(q) == e,
        STATES <= q < END,
{
    let second = q - state_place(e, 1);
    let first = q - state_place(e, 0);
    if 0 <= first < 1600 {
        assert((q - STATES) / 2048 == 2 * e);
    } else if 0 <= second < 1600 {
        assert((q - STATES) / 2048 == 2 * e + 1);
    } else {
        assert((q - T_BASE) / 38400 == e);
    }
}

/// The lanes of one round's products.
#[derive(Clone, Copy, Debug)]
pub struct RoundLanes {
    pub left: Lanes,
    pub right: Lanes,
    pub product: Lanes,
}

impl RoundLanes {
    /// The lanes of a column.
    pub open spec fn lanes(self, side: Side) -> Seq<u64> {
        match side {
            Side::Value => self.product@,
            Side::Left => self.left@,
            Side::Right => self.right@,
        }
    }
}

/// The lanes are those of the products that follow state `s`.
pub open spec fn is_round(r: RoundLanes, s: Seq<bool>) -> bool {
    forall|side: Side| #[trigger]
        lane_bits(r.lanes(side)) == Seq::new(1600, |i: int| product_bit(s, side, i))
}

proof fn lemma_not_lane(a: u64, t: u64)
    by (bit_vector)
    requires
        t < 64,
    ensures
        (((!a) >> t) & 1 == 1) == !((a >> t) & 1 == 1),
        ((0xFFFF_FFFF_FFFF_FFFFu64 >> t) & 1 == 1),
        ((1u64 >> t) & 1 == 1) == (t == 0),
{
}

/// The products of a round, from the lanes after the linear layer.
fn round_lanes(phi: &Lanes, Ghost(s): Ghost<Seq<bool>>) -> (r: RoundLanes)
    requires
        lane_bits(phi@) == rho_pi(theta(s)),
    ensures
        is_round(r, s),
{
    let mut left: Lanes = [0; 25];
    let mut right: Lanes = [0; 25];
    let mut product: Lanes = [0; 25];
    let ghost p = lane_bits(phi@);
    let mut i: usize = 0;
    while i < 25
        invariant
            i <= 25,
            p == lane_bits(phi@),
            p == rho_pi(theta(s)),
            forall|k: int, z: int|
                #![trigger lane_bit(left@[k], z)]
                0 <= k < i && 0 <= z < 64 ==> lane_bit(left@[k], z) == product_bit(
                    s,
                    Side::Left,
                    k + 25 * z,
                ),
            forall|k: int, z: int|
                #![trigger lane_bit(right@[k], z)]
                0 <= k < i && 0 <= z < 64 ==> lane_bit(right@[k], z) == product_bit(
                    s,
                    Side::Right,
                    k + 25 * z,
                ),
            forall|k: int, z: int|
                #![trigger lane_bit(product@[k], z)]
                0 <= k < i && 0 <= z < 64 ==> lane_bit(product@[k], z) == product_bit(
                    s,
                    Side::Value,
                    k + 25 * z,
                ),
        decreases 25 - i,
    {
        let ghost (l0, r0, p0) = (left@, right@, product@);
        let next: usize = (i % 5 + 1) % 5 + 5 * (i / 5);
        let after: usize = (i % 5 + 2) % 5 + 5 * (i / 5);
        let x = !phi[next];
        let y = phi[after];
        let xy = !phi[next] & phi[after];
        left[i] = x;
        right[i] = y;
        product[i] = xy;
        proof {
            assert forall|z: int| 0 <= z < 64 implies #[trigger] lane_bit(x, z) == product_bit(
                s,
                Side::Left,
                i + 25 * z,
            ) && lane_bit(y, z) == product_bit(s, Side::Right, i + 25 * z) && lane_bit(xy, z)
                == product_bit(s, Side::Value, i + 25 * z) by {
                lemma_position(i as int, z);
                lemma_position(next as int, z);
                lemma_position(after as int, z);
                lemma_not_lane(phi@[next as int], z as u64);
                lemma_lane_ops(phi@[next as int], phi@[after as int], z as u64);
                assert(p[next + 25 * z] == lane_bit(phi@[next as int], z));
                assert(p[after + 25 * z] == lane_bit(phi@[after as int], z));
                assert(neighbor_of(i + 25 * z, 1) == next + 25 * z);
                assert(neighbor_of(i + 25 * z, 2) == after + 25 * z);
            }
            assert forall|k: int, z: int|
                #![trigger lane_bit(left@[k], z)]
                0 <= k < i + 1 && 0 <= z < 64 implies lane_bit(left@[k], z) == product_bit(
                s,
                Side::Left,
                k + 25 * z,
            ) by {
                if k < i {
                    assert(left@[k] == l0[k]);
                    assert(lane_bit(l0[k], z) == product_bit(s, Side::Left, k + 25 * z));
                } else {
                    assert(lane_bit(x, z) == product_bit(s, Side::Left, i + 25 * z));
                }
            }
            assert forall|k: int, z: int|
                #![trigger lane_bit(right@[k], z)]
                0 <= k < i + 1 && 0 <= z < 64 implies lane_bit(right@[k], z) == product_bit(
                s,
                Side::Right,
                k + 25 * z,
            ) by {
                if k < i {
                    assert(right@[k] == r0[k]);
                    assert(lane_bit(r0[k], z) == product_bit(s, Side::Right, k + 25 * z));
                } else {
                    assert(lane_bit(x, z) == product_bit(s, Side::Left, i + 25 * z));
                }
            }
            assert forall|k: int, z: int|
                #![trigger lane_bit(product@[k], z)]
                0 <= k < i + 1 && 0 <= z < 64 implies lane_bit(product@[k], z) == product_bit(
                s,
                Side::Value,
                k + 25 * z,
            ) by {
                if k < i {
                    assert(product@[k] == p0[k]);
                    assert(lane_bit(p0[k], z) == product_bit(s, Side::Value, k + 25 * z));
                } else {
                    assert(lane_bit(x, z) == product_bit(s, Side::Left, i + 25 * z));
                }
            }
        }
        i = i + 1;
    }
    let r = RoundLanes { left, right, product };
    proof {
        lemma_from_lanes(left@, Seq::new(1600, |i: int| product_bit(s, Side::Left, i)));
        lemma_from_lanes(right@, Seq::new(1600, |i: int| product_bit(s, Side::Right, i)));
        lemma_from_lanes(product@, Seq::new(1600, |i: int| product_bit(s, Side::Value, i)));
        assert forall|side: Side| #[trigger] lane_bits(r.lanes(side)) == Seq::new(
            1600,
            |i: int| product_bit(s, side, i),
        ) by {
            match side {
                Side::Value => {
                    assert(lane_bits(r.lanes(side)) =~= Seq::new(
                        1600,
                        |i: int| product_bit(s, side, i),
                    ));
                },
                Side::Left => {
                    assert(lane_bits(r.lanes(side)) =~= Seq::new(
                        1600,
                        |i: int| product_bit(s, side, i),
                    ));
                },
                Side::Right => {
                    assert(lane_bits(r.lanes(side)) =~= Seq::new(
                        1600,
                        |i: int| product_bit(s, side, i),
                    ));
                },
            }
        }
    }
    r
}

/// Run the permutation, keeping the products of every round.
pub fn permutation_rounds(lanes: &mut Lanes) -> (rounds: Vec<RoundLanes>)
    ensures
        lane_bits(final(lanes)@) == permutation(lane_bits(old(lanes)@)),
        rounds@.len() == 24,
        forall|r: int|
            0 <= r < 24 ==> is_round(
                #[trigger] rounds@[r],
                keccak_rounds(lane_bits(old(lanes)@), r),
            ),
{
    let ghost s0 = lane_bits(lanes@);
    let mut rounds: Vec<RoundLanes> = Vec::with_capacity(24);
    let mut round: usize = 0;
    while round < ROUNDS
        invariant
            round <= 24,
            lane_bits(lanes@) == keccak_rounds(s0, round as int),
            rounds@.len() == round,
            forall|r: int|
                0 <= r < round ==> is_round(#[trigger] rounds@[r], keccak_rounds(s0, r)),
        decreases 24 - round,
    {
        let ghost s = lane_bits(lanes@);
        let mut phi: Lanes = *lanes;
        theta_lanes(&mut phi);
        let phi = rho_pi_lanes(&phi);
        let products = round_lanes(&phi, Ghost(s));
        rounds.push(products);
        let mut next = chi_lanes(&phi);
        iota_lanes(&mut next, round);
        *lanes = next;
        assert(keccak_rounds(s0, round + 1) == keccak_round(s, round as int));
        round = round + 1;
    }
    rounds
}

/// Write 25 lanes at an aligned address.
fn write_lanes(words: &mut Vec<F128>, at: usize, lanes: &Lanes)
    requires
        at % 64 == 0,
        at + 1600 <= 128 * old(words)@.len(),
        128 * old(words)@.len() <= usize::MAX,
    ensures
        final(words)@.len() == old(words)@.len(),
        forall|x: int|
            0 <= x < 128 * final(words)@.len() ==> #[trigger] packed_bit(final(words)@, x) == (if at
                <= x < at + 1600 {
                lane_bits(lanes@)[logical(x - at)]
            } else {
                packed_bit(old(words)@, x)
            }),
{
    let ghost start = words@;
    let mut lane: usize = 0;
    while lane < 25
        invariant
            lane <= 25,
            at % 64 == 0,
            at + 1600 <= 128 * words@.len(),
            128 * words@.len() <= usize::MAX,
            words@.len() == start.len(),
            forall|x: int|
                0 <= x < 128 * words@.len() ==> #[trigger] packed_bit(words@, x) == (if at <= x < at
                    + 64 * lane {
                    lane_bits(lanes@)[logical(x - at)]
                } else {
                    packed_bit(start, x)
                }),
        decreases 25 - lane,
    {
        let ghost before = words@;
        write64(words, at + 64 * lane, lanes[lane]);
        proof {
            assert forall|x: int| 0 <= x < 128 * words@.len() implies #[trigger] packed_bit(
                words@,
                x,
            ) == (if at <= x < at + 64 * (lane + 1) {
                lane_bits(lanes@)[logical(x - at)]
            } else {
                packed_bit(start, x)
            }) by {
                let from = at + 64 * lane;
                if from <= x < from + 64 {
                    let p = x - at;
                    assert(p / 64 == lane && p % 64 == x - from);
                    lemma_position(lane as int, p % 64);
                    assert(logical(p) == lane + 25 * (p % 64));
                    assert(lane_bits(lanes@)[logical(p)] == lane_bit(lanes@[lane as int], p % 64));
                } else {
                    assert(packed_bit(before, x) == (if at <= x < at + 64 * lane {
                        lane_bits(lanes@)[logical(x - at)]
                    } else {
                        packed_bit(start, x)
                    }));
                }
            }
        }
        lane = lane + 1;
    }
}

/// The cells of the record at `base` that permutation `e` writes hold what it
/// writes, and the others hold what they held.
pub open spec fn filled(
    words: Seq<F128>,
    before: Seq<F128>,
    base: int,
    s: Seq<bool>,
    e: int,
    side: Side,
) -> bool {
    &&& words.len() == before.len()
    &&& forall|x: int|
        0 <= x < 128 * words.len() ==> #[trigger] packed_bit(words, x) == (match permutation_cell(
            s,
            e,
            side,
            x - base,
        ) {
            Some(set) => set,
            None => packed_bit(before, x),
        })
}

/// The lanes with every bit set.
fn all_ones() -> (lanes: Lanes)
    ensures
        forall|i: int| 0 <= i < 1600 ==> #[trigger] lane_bits(lanes@)[i],
{
    let lanes: Lanes = [0xFFFF_FFFF_FFFF_FFFF; 25];
    proof {
        assert forall|i: int| 0 <= i < 1600 implies #[trigger] lane_bits(lanes@)[i] by {
            lemma_not_lane(0, (i / 25) as u64);
        }
    }
    lanes
}

/// Write one column of a permutation at its compact addresses.
#[verifier::spinoff_prover]
fn write_side(
    words: &mut Vec<F128>,
    base: usize,
    e: usize,
    side: Side,
    input: &Lanes,
    output: &Lanes,
    rounds: &Vec<RoundLanes>,
)
    requires
        e < 10,
        base % 64 == 0,
        base + 524288 <= 128 * old(words)@.len(),
        128 * old(words)@.len() <= usize::MAX,
        lane_bits(output@) == permutation(lane_bits(input@)),
        rounds@.len() == 24,
        forall|r: int|
            0 <= r < 24 ==> is_round(#[trigger] rounds@[r], keccak_rounds(lane_bits(input@), r)),
    ensures
        filled(final(words)@, old(words)@, base as int, lane_bits(input@), e as int, side),
{
    let ghost start = words@;
    let ghost s = lane_bits(input@);
    let first: usize = base + state_position(e, 0);
    let second: usize = base + state_position(e, 1);
    let products: usize = base + product_position(e);
    let ones = all_ones();
    match side {
        Side::Right => {
            write_lanes(words, first, &ones);
            write_lanes(words, second, &ones);
        },
        _ => {
            write_lanes(words, first, input);
            write_lanes(words, second, output);
        },
    }
    let ghost stated = words@;
    proof {
        assert forall|x: int| 0 <= x < 128 * words@.len() implies #[trigger] packed_bit(stated, x)
            == (if first <= x < first + 1600 {
            state_bit(s, side, logical(x - first))
        } else if second <= x < second + 1600 {
            state_bit(permutation(s), side, logical(x - second))
        } else {
            packed_bit(start, x)
        }) by {
            if first <= x < first + 1600 {
                lemma_positions(x - first);
                assert(lane_bits(ones@)[logical(x - first)]);
            }
            if second <= x < second + 1600 {
                lemma_positions(x - second);
                assert(lane_bits(ones@)[logical(x - second)]);
            }
        }
    }
    let mut r: usize = 0;
    while r < 24
        invariant
            r <= 24,
            e < 10,
            base % 64 == 0,
            base + 524288 <= 128 * words@.len(),
            128 * words@.len() <= usize::MAX,
            products == base + product_place(e as int),
            s == lane_bits(input@),
            rounds@.len() == 24,
            forall|k: int|
                0 <= k < 24 ==> is_round(#[trigger] rounds@[k], keccak_rounds(s, k)),
            words@.len() == stated.len(),
            forall|x: int|
                0 <= x < 128 * words@.len() ==> #[trigger] packed_bit(words@, x) == (if products <= x
                    < products + 1600 * r {
                    product_bit(
                        keccak_rounds(s, (x - products) / 1600),
                        side,
                        logical((x - products) % 1600),
                    )
                } else {
                    packed_bit(stated, x)
                }),
        decreases 24 - r,
    {
        let ghost before = words@;
        let round = &rounds[r];
        assert(is_round(rounds@[r as int], keccak_rounds(s, r as int)));
        let at: usize = products + 1600 * r;
        let lanes: &Lanes = match side {
            Side::Value => &round.product,
            Side::Left => &round.left,
            Side::Right => &round.right,
        };
        assert(lanes@ == round.lanes(side));
        write_lanes(words, at, lanes);
        proof {
            let bits = lane_bits(round.lanes(side));
            assert(bits == Seq::new(
                1600,
                |i: int| product_bit(keccak_rounds(s, r as int), side, i),
            ));
            assert forall|x: int| 0 <= x < 128 * words@.len() implies #[trigger] packed_bit(
                words@,
                x,
            ) == (if products <= x < products + 1600 * (r + 1) {
                product_bit(
                    keccak_rounds(s, (x - products) / 1600),
                    side,
                    logical((x - products) % 1600),
                )
            } else {
                packed_bit(stated, x)
            }) by {
                if at <= x < at + 1600 {
                    assert((x - products) / 1600 == r && (x - products) % 1600 == x - at);
                    lemma_positions(x - at);
                    assert(bits[logical(x - at)] == product_bit(
                        keccak_rounds(s, r as int),
                        side,
                        logical(x - at),
                    ));
                } else {
                    assert(packed_bit(before, x) == (if products <= x < products + 1600 * r {
                        product_bit(
                            keccak_rounds(s, (x - products) / 1600),
                            side,
                            logical((x - products) % 1600),
                        )
                    } else {
                        packed_bit(stated, x)
                    }));
                }
            }
        }
        r = r + 1;
    }
    proof {
        assert forall|x: int| 0 <= x < 128 * words@.len() implies #[trigger] packed_bit(words@, x)
            == (match permutation_cell(s, e as int, side, x - base) {
            Some(set) => set,
            None => packed_bit(start, x),
        }) by {
            assert(packed_bit(stated, x) == (if first <= x < first + 1600 {
                state_bit(s, side, logical(x - first))
            } else if second <= x < second + 1600 {
                state_bit(permutation(s), side, logical(x - second))
            } else {
                packed_bit(start, x)
            }));
        }
    }
}

/// Write one permutation's states and products at its compact addresses; the
/// lanes become the permuted ones.
pub fn fill_permutation(lanes: &mut Lanes, e: usize, base: usize, w: &mut Witness)
    requires
        e < 10,
        base % 64 == 0,
        old(w).z@.len() == old(w).a@.len(),
        old(w).z@.len() == old(w).b@.len(),
        base + 524288 <= 128 * old(w).z@.len(),
        128 * old(w).z@.len() <= usize::MAX,
    ensures
        lane_bits(final(lanes)@) == permutation(lane_bits(old(lanes)@)),
        filled(
            final(w).z@,
            old(w).z@,
            base as int,
            lane_bits(old(lanes)@),
            e as int,
            Side::Value,
        ),
        filled(final(w).a@, old(w).a@, base as int, lane_bits(old(lanes)@), e as int, Side::Left),
        filled(final(w).b@, old(w).b@, base as int, lane_bits(old(lanes)@), e as int, Side::Right),
{
    let input: Lanes = *lanes;
    let rounds = permutation_rounds(lanes);
    write_side(&mut w.z, base, e, Side::Value, &input, lanes, &rounds);
    write_side(&mut w.a, base, e, Side::Left, &input, lanes, &rounds);
    write_side(&mut w.b, base, e, Side::Right, &input, lanes, &rounds);
}

/// The sponge's part of the compact witness, and every record's candidate
/// words.
#[derive(Clone, Debug)]
pub struct CompactSpongeWitness {
    pub all_words: Vec<Vec<u16>>,
    pub witness: Witness,
}

/// The cells of the first records hold the sponge of their frames, and the
/// cells from `from` on are still zero.
spec fn column_holds(
    words: Seq<F128>,
    records: Seq<SpongeRecord>,
    side: Side,
    from: int,
) -> bool {
    forall|x: int|
        0 <= x < 128 * words.len() ==> #[trigger] packed_bit(words, x) == (x < from && sponge_cell(
            records[x / 524288].frame(),
            side,
            x % 524288,
        ))
}

/// The cells before `base` are done; the record at `base` holds its constant
/// and its first `e` permutations; the rest is zero.
spec fn column_partial(
    words: Seq<F128>,
    records: Seq<SpongeRecord>,
    side: Side,
    base: int,
    e: int,
) -> bool {
    forall|x: int|
        0 <= x < 128 * words.len() ==> #[trigger] packed_bit(words, x) == (x < base + 524288
            && sponge_cell(records[x / 524288].frame(), side, x % 524288) && (x < base || x - base
            == CONST || cell_owner(x - base) < e))
}

/// The constant's limb starts a record.
fn write_constant(
    words: &mut Vec<F128>,
    base: usize,
    Ghost(records): Ghost<Seq<SpongeRecord>>,
    Ghost(side): Ghost<Side>,
)
    requires
        base as int % 524288 == 0,
        base + 524288 <= 128 * old(words)@.len(),
        128 * old(words)@.len() <= usize::MAX,
        column_holds(old(words)@, records, side, base as int),
    ensures
        final(words)@.len() == old(words)@.len(),
        column_partial(final(words)@, records, side, base as int, 0),
{
    let ghost before = words@;
    write64(words, base + CONST, 1);
    proof {
        assert forall|x: int| 0 <= x < 128 * words@.len() implies #[trigger] packed_bit(words@, x)
            == (x < base + 524288 && sponge_cell(
            records[x / 524288].frame(),
            side,
            x % 524288,
        ) && (x < base || x - base == CONST || cell_owner(x - base) < 0)) by {
            assert(packed_bit(before, x) == (x < base && sponge_cell(
                records[x / 524288].frame(),
                side,
                x % 524288,
            )));
            let at = base + CONST;
            if at <= x < at + 64 {
                lemma_not_lane(0, (x - at) as u64);
            }
            if base <= x < base + 524288 {
                assert(x % 524288 == x - base);
            }
        }
    }
}

/// Filling the next permutation extends the column.
proof fn lemma_extend(
    words: Seq<F128>,
    before: Seq<F128>,
    records: Seq<SpongeRecord>,
    side: Side,
    rec: int,
    e: int,
)
    requires
        0 <= e < 10,
        0 <= rec,
        column_partial(before, records, side, rec * 524288, e),
        filled(words, before, rec * 524288, trace_state(records[rec].frame(), e), e, side),
    ensures
        column_partial(words, records, side, rec * 524288, e + 1),
{
    let base = rec * 524288;
    let s = trace_state(records[rec].frame(), e);
    assert forall|x: int| 0 <= x < 128 * words.len() implies #[trigger] packed_bit(words, x) == (x
        < base + 524288 && sponge_cell(records[x / 524288].frame(), side, x % 524288) && (x < base
        || x - base == CONST || cell_owner(x - base) < e + 1)) by {
        let q = x - base;
        assert(packed_bit(before, x) == (x < base + 524288 && sponge_cell(
            records[x / 524288].frame(),
            side,
            x % 524288,
        ) && (x < base || q == CONST || cell_owner(q) < e)));
        match permutation_cell(s, e, side, q) {
            Some(set) => {
                lemma_cell_owner(s, e, side, q);
                assert(x / 524288 == rec && x % 524288 == q);
            },
            None => {
                if base <= x < base + 524288 {
                    assert(x / 524288 == rec && x % 524288 == q);
                }
            },
        }
    }
}

/// After the tenth permutation the record is done.
proof fn lemma_record_done(
    words: Seq<F128>,
    records: Seq<SpongeRecord>,
    side: Side,
    base: int,
)
    requires
        base % 524288 == 0,
        column_partial(words, records, side, base, 10),
    ensures
        column_holds(words, records, side, base + 524288),
{
    assert forall|x: int| 0 <= x < 128 * words.len() implies #[trigger] packed_bit(words, x) == (x
        < base + 524288 && sponge_cell(records[x / 524288].frame(), side, x % 524288)) by {
        let q = x - base;
        if base <= x < base + 524288 {
            assert(x % 524288 == q);
            assert(cell_owner(q) < 10);
        }
    }
}

/// The words are those that the record's sponge squeezes.
pub open spec fn squeezed(words: Seq<u16>, frame: Seq<u8>) -> bool {
    &&& words.len() == 612
    &&& forall|q: int, w: int|
        #![trigger words[68 * q + w]]
        0 <= q < 9 && 0 <= w < 68 ==> words[68 * q + w] == state_word(squeeze_state(frame, q), w)
}

/// Fill one record: its constant and its ten permutations.
fn fill_record(
    record: &SpongeRecord,
    rec: usize,
    w: &mut Witness,
    Ghost(records): Ghost<Seq<SpongeRecord>>,
) -> (words: Vec<u16>)
    requires
        record.fits(),
        rec < records.len(),
        records[rec as int] == *record,
        old(w).z@.len() == old(w).a@.len(),
        old(w).z@.len() == old(w).b@.len(),
        (rec + 1) * 524288 <= 128 * old(w).z@.len(),
        128 * old(w).z@.len() <= usize::MAX,
        column_holds(old(w).z@, records, Side::Value, rec * 524288),
        column_holds(old(w).a@, records, Side::Left, rec * 524288),
        column_holds(old(w).b@, records, Side::Right, rec * 524288),
    ensures
        squeezed(words@, record.frame()),
        final(w).z@.len() == old(w).z@.len(),
        final(w).a@.len() == old(w).a@.len(),
        final(w).b@.len() == old(w).b@.len(),
        column_holds(final(w).z@, records, Side::Value, (rec + 1) * 524288),
        column_holds(final(w).a@, records, Side::Left, (rec + 1) * 524288),
        column_holds(final(w).b@, records, Side::Right, (rec + 1) * 524288),
{
    let ghost frame = record.frame();
    let base: usize = rec * K;
    write_constant(&mut w.z, base, Ghost(records), Ghost(Side::Value));
    write_constant(&mut w.a, base, Ghost(records), Ghost(Side::Left));
    write_constant(&mut w.b, base, Ghost(records), Ghost(Side::Right));
    let (first, second) = framed_blocks(record);
    let zero: State = [false; 1600];
    assert(zero@ =~= zero_state());
    let mut state: State = absorb_block(&zero, &first);
    let mut words: Vec<u16> = Vec::with_capacity(612);
    assert(frame.len() == 106 + record.message@.len());
    let ghost n = w.z@.len();
    let mut e: usize = 0;
    while e < 10
        invariant
            e <= 10,
            136 <= frame.len() < 272,
            frame == record.frame(),
            records[rec as int] == *record,
            second@ == frame_block(frame, 1),
            base == rec * 524288,
            n == w.z@.len(),
            n == w.a@.len(),
            n == w.b@.len(),
            base + 524288 <= 128 * n,
            128 * n <= usize::MAX,
            e < 10 ==> state@ == trace_state(frame, e as int),
            words@.len() == 68 * (if e >= 1 {
                e - 1
            } else {
                0
            }),
            forall|q: int, w: int|
                #![trigger words@[68 * q + w]]
                0 <= q < e - 1 && 0 <= w < 68 ==> words@[68 * q + w] == state_word(
                    squeeze_state(frame, q),
                    w,
                ),
            column_partial(w.z@, records, Side::Value, rec * 524288, e as int),
            column_partial(w.a@, records, Side::Left, rec * 524288, e as int),
            column_partial(w.b@, records, Side::Right, rec * 524288, e as int),
        decreases 10 - e,
    {
        let ghost (z0, a0, b0) = (w.z@, w.a@, w.b@);
        let mut lanes = state_to_lanes(&state);
        fill_permutation(&mut lanes, e, base, w);
        proof {
            lemma_extend(w.z@, z0, records, Side::Value, rec as int, e as int);
            lemma_extend(w.a@, a0, records, Side::Left, rec as int, e as int);
            lemma_extend(w.b@, b0, records, Side::Right, rec as int, e as int);
        }
        state = lanes_to_state(&lanes);
        if e == 0 {
            state = absorb_block(&state, &second);
        } else {
            let ghost was = words@;
            squeeze_words(&state, &mut words);
            proof {
                trace_squeezes(frame, e - 1);
                assert forall|q: int, w: int|
                    #![trigger words@[68 * q + w]]
                    0 <= q < e && 0 <= w < 68 implies words@[68 * q + w] == state_word(
                    squeeze_state(frame, q),
                    w,
                ) by {
                    if q < e - 1 {
                        assert(words@[68 * q + w] == was[68 * q + w]);
                    } else {
                        assert(words@[was.len() + w] == state_word(state@, w));
                    }
                }
            }
        }
        e = e + 1;
    }
    proof {
        lemma_record_done(w.z@, records, Side::Value, rec * 524288);
        lemma_record_done(w.a@, records, Side::Left, rec * 524288);
        lemma_record_done(w.b@, records, Side::Right, rec * 524288);
    }
    words
}

/// Every record fits the frame.
pub open spec fn records_fit(records: Seq<SpongeRecord>) -> bool {
    forall|rec: int| 0 <= rec < records.len() ==> (#[trigger] records[rec]).fits()
}

/// The sponge's part of the compact witness of every record.
pub open spec fn holds_sponges(w: Witness, records: Seq<SpongeRecord>) -> bool {
    &&& w.z@.len() == records.len() * 4096
    &&& w.a@.len() == records.len() * 4096
    &&& w.b@.len() == records.len() * 4096
    &&& forall|x: int|
        0 <= x < records.len() * 524288 ==> #[trigger] packed_bit(w.z@, x) == sponge_cell(
            records[x / 524288].frame(),
            Side::Value,
            x % 524288,
        )
    &&& forall|x: int|
        0 <= x < records.len() * 524288 ==> #[trigger] packed_bit(w.a@, x) == sponge_cell(
            records[x / 524288].frame(),
            Side::Left,
            x % 524288,
        )
    &&& forall|x: int|
        0 <= x < records.len() * 524288 ==> #[trigger] packed_bit(w.b@, x) == sponge_cell(
            records[x / 524288].frame(),
            Side::Right,
            x % 524288,
        )
}

/// Generate the ten permutations of every record once, directly in the compact
/// layout, with the candidate words that they squeeze.
pub fn compact_sponge_witness(records: &[SpongeRecord]) -> (compact: CompactSpongeWitness)
    requires
        records_fit(records@),
        records@.len() * 524288 <= usize::MAX,
    ensures
        holds_sponges(compact.witness, records@),
        compact.all_words@.len() == records@.len(),
        forall|rec: int|
            0 <= rec < records@.len() ==> squeezed(
                (#[trigger] compact.all_words@[rec])@,
                records@[rec].frame(),
            ),
{
    let n: usize = records.len();
    let mut w = Witness {
        z: zero_words(n * 4096),
        a: zero_words(n * 4096),
        b: zero_words(n * 4096),
    };
    let mut all_words: Vec<Vec<u16>> = Vec::with_capacity(n);
    let mut rec: usize = 0;
    while rec < n
        invariant
            n == records@.len(),
            records_fit(records@),
            n * 524288 <= usize::MAX,
            rec <= n,
            w.z@.len() == n * 4096,
            w.a@.len() == n * 4096,
            w.b@.len() == n * 4096,
            column_holds(w.z@, records@, Side::Value, rec * 524288),
            column_holds(w.a@, records@, Side::Left, rec * 524288),
            column_holds(w.b@, records@, Side::Right, rec * 524288),
            all_words@.len() == rec,
            forall|k: int|
                0 <= k < rec ==> squeezed((#[trigger] all_words@[k])@, records@[k].frame()),
        decreases n - rec,
    {
        assert(records@[rec as int].fits());
        let words = fill_record(&records[rec], rec, &mut w, Ghost(records@));
        all_words.push(words);
        rec = rec + 1;
    }
    CompactSpongeWitness { all_words, witness: w }
}

/// Complete the sponge's compact witness with arbitrary packed records.
pub fn assemble_direct(
    a_0: &SparseBinaryMatrix,
    b_0: &SparseBinaryMatrix,
    sponge: CompactSpongeWitness,
    record: &[F128],
    records: usize,
) -> (w: Witness)
    requires
        a_0.well_formed() && a_0.num_rows == 131072 && a_0.num_cols == 131072,
        b_0.well_formed() && b_0.num_rows == 131072 && b_0.num_cols == 131072,
        records * 524288 <= usize::MAX,
        sponge.witness.z@.len() == records * 4096,
        sponge.witness.a@.len() == records * 4096,
        sponge.witness.b@.len() == records * 4096,
        record@.len() == records * 1024,
    ensures
        completes(
            w,
            record@,
            *a_0,
            *b_0,
            |x: int| packed_bit(sponge.witness.z@, x),
            |x: int| packed_bit(sponge.witness.a@, x),
            |x: int| packed_bit(sponge.witness.b@, x),
            records as int,
        ),
{
    complete(a_0, b_0, sponge.witness, record, records)
}

} // verus!
