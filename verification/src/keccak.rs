//! The Keccak-f[1600] permutation on lanes and on bit states.
//!
//! Bit `25 z + lane` of a state is bit `z` of the lane `lane = x + 5 y`.
use vstd::prelude::*;

verus! {

pub const STATE_BITS: usize = 1600;

pub const ROUNDS: usize = 24;

/// The lanes of a state.
pub type Lanes = [u64; 25];

/// The bits of a state.
pub type State = [bool; 1600];

/// Bit `z` of a lane.
pub open spec fn lane_bit(lane: u64, z: int) -> bool {
    (lane >> (z as u64)) & 1 == 1
}

/// The bits of the lanes.
pub open spec fn lane_bits(lanes: Seq<u64>) -> Seq<bool> {
    Seq::new(1600, |i: int| lane_bit(lanes[i % 25], i / 25))
}

/// The parity of the column `(x, z)`.
pub open spec fn column(s: Seq<bool>, x: int, z: int) -> bool {
    s[x + 25 * z] != (s[x + 5 + 25 * z] != (s[x + 10 + 25 * z] != (s[x + 15 + 25 * z] != s[x + 20
        + 25 * z])))
}

pub open spec fn theta(s: Seq<bool>) -> Seq<bool> {
    Seq::new(
        1600,
        |i: int|
            s[i] != (column(s, (i % 25 % 5 + 4) % 5, i / 25) != column(
                s,
                (i % 25 % 5 + 1) % 5,
                (i / 25 + 63) % 64,
            )),
    )
}

/// The rotation of a lane under rho.
pub open spec fn rotation_of(lane: int) -> int {
    if lane == 0 {
        0
    } else if lane == 1 {
        1
    } else if lane == 2 {
        62
    } else if lane == 3 {
        28
    } else if lane == 4 {
        27
    } else if lane == 5 {
        36
    } else if lane == 6 {
        44
    } else if lane == 7 {
        6
    } else if lane == 8 {
        55
    } else if lane == 9 {
        20
    } else if lane == 10 {
        3
    } else if lane == 11 {
        10
    } else if lane == 12 {
        43
    } else if lane == 13 {
        25
    } else if lane == 14 {
        39
    } else if lane == 15 {
        41
    } else if lane == 16 {
        45
    } else if lane == 17 {
        15
    } else if lane == 18 {
        21
    } else if lane == 19 {
        8
    } else if lane == 20 {
        18
    } else if lane == 21 {
        2
    } else if lane == 22 {
        61
    } else if lane == 23 {
        56
    } else {
        14
    }
}

/// The lane that pi moves to `lane`.
pub open spec fn pi_source(lane: int) -> int {
    (lane % 5 + 3 * (lane / 5)) % 5 + 5 * (lane % 5)
}

/// The bit that rho and pi move to bit `i`.
pub open spec fn rho_pi_source(i: int) -> int {
    let lane = pi_source(i % 25);
    lane + 25 * ((i / 25 + 64 - rotation_of(lane)) % 64)
}

pub open spec fn rho_pi(s: Seq<bool>) -> Seq<bool> {
    Seq::new(1600, |i: int| s[rho_pi_source(i)])
}

/// The bit `dx` lanes on in the same row.
pub open spec fn neighbor_of(i: int, dx: int) -> int {
    (i % 25 % 5 + dx) % 5 + 5 * (i % 25 / 5) + 25 * (i / 25)
}

pub open spec fn chi(s: Seq<bool>) -> Seq<bool> {
    Seq::new(1600, |i: int| s[i] != (!s[neighbor_of(i, 1)] && s[neighbor_of(i, 2)]))
}

/// The constant of a round.
pub open spec fn round_constant_of(round: int) -> u64 {
    if round == 0 {
        0x0000_0000_0000_0001
    } else if round == 1 {
        0x0000_0000_0000_8082
    } else if round == 2 {
        0x8000_0000_0000_808A
    } else if round == 3 {
        0x8000_0000_8000_8000
    } else if round == 4 {
        0x0000_0000_0000_808B
    } else if round == 5 {
        0x0000_0000_8000_0001
    } else if round == 6 {
        0x8000_0000_8000_8081
    } else if round == 7 {
        0x8000_0000_0000_8009
    } else if round == 8 {
        0x0000_0000_0000_008A
    } else if round == 9 {
        0x0000_0000_0000_0088
    } else if round == 10 {
        0x0000_0000_8000_8009
    } else if round == 11 {
        0x0000_0000_8000_000A
    } else if round == 12 {
        0x0000_0000_8000_808B
    } else if round == 13 {
        0x8000_0000_0000_008B
    } else if round == 14 {
        0x8000_0000_0000_8089
    } else if round == 15 {
        0x8000_0000_0000_8003
    } else if round == 16 {
        0x8000_0000_0000_8002
    } else if round == 17 {
        0x8000_0000_0000_0080
    } else if round == 18 {
        0x0000_0000_0000_800A
    } else if round == 19 {
        0x8000_0000_8000_000A
    } else if round == 20 {
        0x8000_0000_8000_8081
    } else if round == 21 {
        0x8000_0000_0000_8080
    } else if round == 22 {
        0x0000_0000_8000_0001
    } else {
        0x8000_0000_8000_8008
    }
}

pub open spec fn iota(s: Seq<bool>, round: int) -> Seq<bool> {
    Seq::new(
        1600,
        |i: int| s[i] != (i % 25 == 0 && lane_bit(round_constant_of(round), i / 25)),
    )
}

/// One round.
pub open spec fn keccak_round(s: Seq<bool>, round: int) -> Seq<bool> {
    iota(chi(rho_pi(theta(s))), round)
}

/// The first `n` rounds.
pub open spec fn keccak_rounds(s: Seq<bool>, n: int) -> Seq<bool>
    decreases n,
{
    if n <= 0 {
        s
    } else {
        keccak_round(keccak_rounds(s, n - 1), n - 1)
    }
}

/// The permutation.
pub open spec fn permutation(s: Seq<bool>) -> Seq<bool> {
    keccak_rounds(s, 24)
}

/// The rotation of a lane.
pub fn rotation(lane: usize) -> (n: u64)
    requires
        lane < 25,
    ensures
        n == rotation_of(lane as int),
        n < 64,
{
    match lane {
        0 => 0,
        1 => 1,
        2 => 62,
        3 => 28,
        4 => 27,
        5 => 36,
        6 => 44,
        7 => 6,
        8 => 55,
        9 => 20,
        10 => 3,
        11 => 10,
        12 => 43,
        13 => 25,
        14 => 39,
        15 => 41,
        16 => 45,
        17 => 15,
        18 => 21,
        19 => 8,
        20 => 18,
        21 => 2,
        22 => 61,
        23 => 56,
        _ => 14,
    }
}

/// The constant of a round.
pub fn round_constant(round: usize) -> (constant: u64)
    requires
        round < ROUNDS,
    ensures
        constant == round_constant_of(round as int),
{
    match round {
        0 => 0x0000_0000_0000_0001,
        1 => 0x0000_0000_0000_8082,
        2 => 0x8000_0000_0000_808A,
        3 => 0x8000_0000_8000_8000,
        4 => 0x0000_0000_0000_808B,
        5 => 0x0000_0000_8000_0001,
        6 => 0x8000_0000_8000_8081,
        7 => 0x8000_0000_0000_8009,
        8 => 0x0000_0000_0000_008A,
        9 => 0x0000_0000_0000_0088,
        10 => 0x0000_0000_8000_8009,
        11 => 0x0000_0000_8000_000A,
        12 => 0x0000_0000_8000_808B,
        13 => 0x8000_0000_0000_008B,
        14 => 0x8000_0000_0000_8089,
        15 => 0x8000_0000_0000_8003,
        16 => 0x8000_0000_0000_8002,
        17 => 0x8000_0000_0000_0080,
        18 => 0x0000_0000_0000_800A,
        19 => 0x8000_0000_8000_000A,
        20 => 0x8000_0000_8000_8081,
        21 => 0x8000_0000_0000_8080,
        22 => 0x0000_0000_8000_0001,
        _ => 0x8000_0000_8000_8008,
    }
}

pub proof fn lemma_lane_ops(a: u64, b: u64, t: u64)
    by (bit_vector)
    requires
        t < 64,
    ensures
        (((a ^ b) >> t) & 1 == 1) == (((a >> t) & 1 == 1) != ((b >> t) & 1 == 1)),
        (((!a & b) >> t) & 1 == 1) == (!((a >> t) & 1 == 1) && ((b >> t) & 1 == 1)),
        ((0u64 >> t) & 1 == 1) == false,
{
}

proof fn lemma_rotated(a: u64, n: u64, t: u64)
    by (bit_vector)
    requires
        0 < n < 64,
        t < 64,
    ensures
        ((((a << n) | (a >> ((64 - n) as u64))) >> t) & 1 == 1) == ((a >> (((t + 64 - n)
            % 64) as u64)) & 1 == 1),
{
}

/// A lane rotated to the left.
fn rotate(a: u64, n: u64) -> (r: u64)
    requires
        n < 64,
    ensures
        forall|z: int|
            0 <= z < 64 ==> #[trigger] lane_bit(r, z) == lane_bit(a, (z + 64 - n) % 64),
{
    if n == 0 {
        return a;
    }
    let r = (a << n) | (a >> (64 - n));
    proof {
        assert forall|z: int| 0 <= z < 64 implies #[trigger] lane_bit(r, z) == lane_bit(
            a,
            (z + 64 - n) % 64,
        ) by {
            lemma_rotated(a, n, z as u64);
        }
    }
    r
}

fn xor(a: u64, b: u64) -> (r: u64)
    ensures
        forall|z: int|
            0 <= z < 64 ==> #[trigger] lane_bit(r, z) == (lane_bit(a, z) != lane_bit(b, z)),
{
    proof {
        assert forall|z: int| 0 <= z < 64 implies #[trigger] lane_bit(a ^ b, z) == (lane_bit(a, z)
            != lane_bit(b, z)) by {
            lemma_lane_ops(a, b, z as u64);
        }
    }
    a ^ b
}

/// The theta step.
pub fn theta_lanes(lanes: &mut Lanes)
    ensures
        lane_bits(final(lanes)@) == theta(lane_bits(old(lanes)@)),
{
    let ghost before = lanes@;
    let ghost s = lane_bits(before);
    let mut sums: [u64; 5] = [0; 5];
    let mut x: usize = 0;
    while x < 5
        invariant
            x <= 5,
            lanes@ == before,
            s == lane_bits(before),
            forall|k: int, z: int|
                #![trigger lane_bit(sums@[k], z)]
                0 <= k < x && 0 <= z < 64 ==> lane_bit(sums@[k], z) == column(s, k, z),
        decreases 5 - x,
    {
        let ghost prior = sums@;
        let sum = xor(lanes[x], xor(lanes[x + 5], xor(lanes[x + 10], xor(
            lanes[x + 15],
            lanes[x + 20],
        ))));
        sums[x] = sum;
        proof {
            assert forall|k: int, z: int|
                #![trigger lane_bit(sums@[k], z)]
                0 <= k < x + 1 && 0 <= z < 64 implies lane_bit(sums@[k], z) == column(
                s,
                k,
                z,
            ) by {
                if k < x {
                    assert(sums@[k] == prior[k]);
                    assert(lane_bit(prior[k], z) == column(s, k, z));
                } else {
                    lemma_position(x as int, z);
                    lemma_position(x + 5, z);
                    lemma_position(x + 10, z);
                    lemma_position(x + 15, z);
                    lemma_position(x + 20, z);
                }
            }
        }
        x = x + 1;
    }
    let mut i: usize = 0;
    while i < 25
        invariant
            i <= 25,
            s == lane_bits(before),
            before.len() == 25,
            forall|k: int| i <= k < 25 ==> #[trigger] lanes@[k] == before[k],
            forall|k: int, z: int|
                #![trigger lane_bit(sums@[k], z)]
                0 <= k < 5 && 0 <= z < 64 ==> lane_bit(sums@[k], z) == column(s, k, z),
            forall|k: int, z: int|
                #![trigger lane_bit(lanes@[k], z)]
                0 <= k < i && 0 <= z < 64 ==> lane_bit(lanes@[k], z) == theta(s)[k + 25 * z],
        decreases 25 - i,
    {
        let ghost prior = lanes@;
        let column_before = sums[(i % 5 + 4) % 5];
        let column_after = rotate(sums[(i % 5 + 1) % 5], 1);
        let lane = xor(lanes[i], xor(column_before, column_after));
        lanes[i] = lane;
        proof {
            assert forall|k: int, z: int|
                #![trigger lane_bit(lanes@[k], z)]
                0 <= k < i + 1 && 0 <= z < 64 implies lane_bit(lanes@[k], z) == theta(s)[k + 25
                * z] by {
                if k < i {
                    assert(lanes@[k] == prior[k]);
                    assert(lane_bit(prior[k], z) == theta(s)[k + 25 * z]);
                } else {
                    lemma_position(i as int, z);
                    assert(lane_bit(sums@[(i % 5 + 1) % 5], (z + 63) % 64) == column(
                        s,
                        (i % 5 + 1) % 5,
                        (z + 63) % 64,
                    ));
                    assert(lane_bit(column_after, z) == lane_bit(
                        sums@[(i % 5 + 1) % 5],
                        (z + 64 - 1) % 64,
                    ));
                }
            }
        }
        i = i + 1;
    }
    proof {
        lemma_from_lanes(lanes@, theta(s));
    }
}

/// The position of bit `z` of a lane.
pub proof fn lemma_position(lane: int, z: int)
    requires
        0 <= lane < 25,
        0 <= z < 64,
    ensures
        0 <= lane + 25 * z < 1600,
        (lane + 25 * z) % 25 == lane,
        (lane + 25 * z) / 25 == z,
{
    vstd::arithmetic::div_mod::lemma_fundamental_div_mod_converse(lane + 25 * z, 25, z, lane);
}

pub proof fn lemma_from_lanes(lanes: Seq<u64>, s: Seq<bool>)
    requires
        lanes.len() == 25,
        s.len() == 1600,
        forall|k: int, z: int|
            #![trigger lane_bit(lanes[k], z)]
            0 <= k < 25 && 0 <= z < 64 ==> lane_bit(lanes[k], z) == s[k + 25 * z],
    ensures
        lane_bits(lanes) == s,
{
    assert forall|i: int| 0 <= i < 1600 implies lane_bits(lanes)[i] == s[i] by {
        vstd::arithmetic::div_mod::lemma_fundamental_div_mod(i, 25);
        assert(lane_bit(lanes[i % 25], i / 25) == s[i % 25 + 25 * (i / 25)]);
    }
    assert(lane_bits(lanes) =~= s);
}

/// The rho and pi steps.
pub fn rho_pi_lanes(lanes: &Lanes) -> (out: Lanes)
    ensures
        lane_bits(out@) == rho_pi(lane_bits(lanes@)),
{
    let ghost s = lane_bits(lanes@);
    let mut out: Lanes = [0; 25];
    let mut i: usize = 0;
    while i < 25
        invariant
            i <= 25,
            s == lane_bits(lanes@),
            forall|k: int, z: int|
                #![trigger lane_bit(out@[k], z)]
                0 <= k < i && 0 <= z < 64 ==> lane_bit(out@[k], z) == rho_pi(s)[k + 25 * z],
        decreases 25 - i,
    {
        let ghost prior = out@;
        let source: usize = (i % 5 + 3 * (i / 5)) % 5 + 5 * (i % 5);
        let n = rotation(source);
        out[i] = rotate(lanes[source], n);
        proof {
            assert forall|k: int, z: int|
                #![trigger lane_bit(out@[k], z)]
                0 <= k < i + 1 && 0 <= z < 64 implies lane_bit(out@[k], z) == rho_pi(s)[k + 25
                * z] by {
                if k < i {
                    assert(out@[k] == prior[k]);
                    assert(lane_bit(prior[k], z) == rho_pi(s)[k + 25 * z]);
                } else {
                    lemma_position(i as int, z);
                    lemma_position(source as int, (z + 64 - n) % 64);
                    assert(pi_source(i as int) == source);
                    assert(lane_bit(out@[i as int], z) == lane_bit(
                        lanes@[source as int],
                        (z + 64 - n) % 64,
                    ));
                }
            }
        }
        i = i + 1;
    }
    proof {
        lemma_from_lanes(out@, rho_pi(s));
    }
    out
}

/// The chi step.
pub fn chi_lanes(lanes: &Lanes) -> (out: Lanes)
    ensures
        lane_bits(out@) == chi(lane_bits(lanes@)),
{
    let ghost s = lane_bits(lanes@);
    let mut out: Lanes = [0; 25];
    let mut i: usize = 0;
    while i < 25
        invariant
            i <= 25,
            s == lane_bits(lanes@),
            forall|k: int, z: int|
                #![trigger lane_bit(out@[k], z)]
                0 <= k < i && 0 <= z < 64 ==> lane_bit(out@[k], z) == chi(s)[k + 25 * z],
        decreases 25 - i,
    {
        let ghost prior = out@;
        let next: usize = (i % 5 + 1) % 5 + 5 * (i / 5);
        let after: usize = (i % 5 + 2) % 5 + 5 * (i / 5);
        let masked = !lanes[next] & lanes[after];
        out[i] = xor(lanes[i], masked);
        proof {
            assert forall|k: int, z: int|
                #![trigger lane_bit(out@[k], z)]
                0 <= k < i + 1 && 0 <= z < 64 implies lane_bit(out@[k], z) == chi(s)[k + 25
                * z] by {
                if k < i {
                    assert(out@[k] == prior[k]);
                    assert(lane_bit(prior[k], z) == chi(s)[k + 25 * z]);
                } else {
                    lemma_position(i as int, z);
                    lemma_position(next as int, z);
                    lemma_position(after as int, z);
                    lemma_lane_ops(lanes@[next as int], lanes@[after as int], z as u64);
                    assert(lane_bit(masked, z) == (!lane_bit(lanes@[next as int], z) && lane_bit(
                        lanes@[after as int],
                        z,
                    )));
                }
            }
        }
        i = i + 1;
    }
    proof {
        lemma_from_lanes(out@, chi(s));
    }
    out
}

/// The iota step.
pub fn iota_lanes(lanes: &mut Lanes, round: usize)
    requires
        round < ROUNDS,
    ensures
        lane_bits(final(lanes)@) == iota(lane_bits(old(lanes)@), round as int),
{
    let ghost before = lanes@;
    let ghost s = lane_bits(before);
    let constant = round_constant(round);
    let lane = xor(lanes[0], constant);
    lanes[0] = lane;
    proof {
        assert forall|k: int, z: int|
            #![trigger lane_bit(lanes@[k], z)]
            0 <= k < 25 && 0 <= z < 64 implies lane_bit(lanes@[k], z) == iota(
            s,
            round as int,
        )[k + 25 * z] by {
            lemma_position(k, z);
            if k > 0 {
                assert(lanes@[k] == before[k]);
            } else {
                assert(lane_bit(lane, z) == (lane_bit(before[0], z) != lane_bit(constant, z)));
            }
        }
        lemma_from_lanes(lanes@, iota(s, round as int));
    }
}

/// The lanes of a state.
pub fn state_to_lanes(state: &State) -> (lanes: Lanes)
    ensures
        lane_bits(lanes@) == state@,
{
    let mut lanes: Lanes = [0; 25];
    let mut k: usize = 0;
    while k < 25
        invariant
            k <= 25,
            forall|j: int, z: int|
                #![trigger lane_bit(lanes@[j], z)]
                0 <= j < k && 0 <= z < 64 ==> lane_bit(lanes@[j], z) == state@[j + 25 * z],
        decreases 25 - k,
    {
        let ghost prior = lanes@;
        let mut lane: u64 = 0;
        let mut z: usize = 0;
        proof {
            assert forall|t: int| 0 <= t < 64 implies !(#[trigger] lane_bit(0, t)) by {
                lemma_lane_ops(0, 0, t as u64);
            }
        }
        while z < 64
            invariant
                k < 25,
                z <= 64,
                forall|t: int|
                    0 <= t < 64 ==> #[trigger] lane_bit(lane, t) == (t < z && state@[k + 25 * t]),
            decreases 64 - z,
        {
            let bit: u64 = if state[k + 25 * z] {
                1
            } else {
                0
            };
            let ghost was = lane;
            lane = lane ^ (bit << (z as u64));
            proof {
                assert forall|t: int| 0 <= t < 64 implies #[trigger] lane_bit(lane, t) == (t < z + 1
                    && state@[k + 25 * t]) by {
                    lemma_lane_ops(was, bit << (z as u64), t as u64);
                    lemma_unit(bit, z as u64, t as u64);
                    assert(lane_bit(was, t) == (t < z && state@[k + 25 * t]));
                }
            }
            z = z + 1;
        }
        lanes[k] = lane;
        proof {
            assert forall|j: int, z: int|
                #![trigger lane_bit(lanes@[j], z)]
                0 <= j < k + 1 && 0 <= z < 64 implies lane_bit(lanes@[j], z) == state@[j + 25
                * z] by {
                if j < k {
                    assert(lanes@[j] == prior[j]);
                    assert(lane_bit(prior[j], z) == state@[j + 25 * z]);
                }
            }
        }
        k = k + 1;
    }
    proof {
        lemma_from_lanes(lanes@, state@);
    }
    lanes
}

pub proof fn lemma_unit(bit: u64, z: u64, t: u64)
    by (bit_vector)
    requires
        bit <= 1,
        z < 64,
        t < 64,
    ensures
        (((bit << z) >> t) & 1 == 1) == (bit == 1 && t == z),
{
}

/// The state of the lanes.
pub fn lanes_to_state(lanes: &Lanes) -> (state: State)
    ensures
        state@ == lane_bits(lanes@),
{
    let mut state: State = [false; 1600];
    let mut i: usize = 0;
    while i < 1600
        invariant
            i <= 1600,
            forall|k: int| 0 <= k < i ==> #[trigger] state@[k] == lane_bits(lanes@)[k],
        decreases 1600 - i,
    {
        state[i] = (lanes[i % 25] >> ((i / 25) as u64)) & 1 == 1;
        i = i + 1;
    }
    assert(state@ =~= lane_bits(lanes@));
    state
}

/// Permute a state.
pub fn keccak_f(state: &mut State)
    ensures
        final(state)@ == permutation(old(state)@),
{
    let ghost s = state@;
    let mut lanes = state_to_lanes(state);
    let mut round: usize = 0;
    while round < ROUNDS
        invariant
            round <= ROUNDS,
            lane_bits(lanes@) == keccak_rounds(s, round as int),
        decreases ROUNDS - round,
    {
        theta_lanes(&mut lanes);
        let moved = rho_pi_lanes(&lanes);
        lanes = chi_lanes(&moved);
        iota_lanes(&mut lanes, round);
        round = round + 1;
    }
    *state = lanes_to_state(&lanes);
}

} // verus!
