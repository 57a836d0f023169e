//! One commitment over both lanes: the sponge's witness fills the lower half
//! of the root's domain from its start, the slots' the upper half, and every
//! lane claim is lifted to the root's domain.
use vstd::arithmetic::power2::{lemma_pow2_adds, lemma_pow2_pos, pow2};
use vstd::prelude::*;

use crate::field::{fzero, F128};
use crate::hash_to_point_slots::setup::PcsParams;
use crate::hash_to_point_sponge::chaining::{
    bit_point, lemma_bit_points, lemma_fold_bits, publics_fit,
};
use crate::hash_to_point_sponge::gather::bit_extension;
use crate::hash_to_point_sponge::{SpongePublic, SpongeSetup};
use crate::mle::{bit_element, bit_table, bit_value, lemma_fold_all_concat, mle};
use crate::packed_bits::packed_bit;
use crate::packed_mle::leading_bits;
use crate::hash_to_point_hybrid::point_views;
use crate::hash_to_point_link::composed::{
    lanes_hold, lanes_refused, lemma_lane_counts, lemma_lane_points, lemma_opened_counts,
    opens_lanes, prove_hash_to_point, record_lane, sponge_lane, verify_lanes, LaneClaims,
    LanesChallenges, LanesProof, LinkedLanes, OpenedLanes,
};
use crate::hash_to_point_link::consistency::ConsistencyProof;
use crate::hash_to_point_link::LinkProof;
use crate::hash_to_point_scatter::power_sum::power_sum_defined;
use crate::prover::{append, open_multilinear, open_quirky, outer_part, LowBinding, ZClaim};

verus! {

/// The variables of the root over lanes of so many.
pub open spec fn root_vars(sponge_m: int, slots_m: int) -> int {
    1 + if sponge_m >= slots_m {
        sponge_m
    } else {
        slots_m
    }
}

/// The root's parameters: one variable above the larger lane, with the rate
/// and the batch size that the lanes share.
pub fn single_root_params(sponge: &PcsParams, slots: &PcsParams) -> (root: PcsParams)
    requires
        sponge.log_inv_rate == slots.log_inv_rate,
        sponge.log_batch_size == slots.log_batch_size,
        sponge.m < usize::MAX,
        slots.m < usize::MAX,
    ensures
        root.m == root_vars(sponge.m as int, slots.m as int),
        root.m == (if sponge.m >= slots.m {
            sponge.m + 1
        } else {
            slots.m + 1
        }),
        root.log_inv_rate == sponge.log_inv_rate,
        root.log_batch_size == sponge.log_batch_size,
{
    let larger: usize = if sponge.m >= slots.m {
        sponge.m
    } else {
        slots.m
    };
    PcsParams {
        m: larger + 1,
        log_inv_rate: sponge.log_inv_rate,
        log_batch_size: sponge.log_batch_size,
    }
}

/// A lane's outer coordinates on the root's domain: zeros above the lane's
/// variables, and the lane last.
pub open spec fn lifted(x_full: Seq<F128>, lane_m: int, root_m: int, lane: bool) -> Seq<F128> {
    x_full + Seq::new((root_m - 1 - lane_m) as nat, |i: int| fzero()) + seq![bit_value(lane)]
}

/// Lift a lane's outer coordinates to the root's domain.
pub fn lift_to_root(x_full: Vec<F128>, lane_m: usize, root_m: usize, lane: bool) -> (x: Vec<F128>)
    requires
        lane_m < root_m,
    ensures
        x@ == lifted(x_full@, lane_m as int, root_m as int, lane),
{
    let ghost start = x_full@;
    let mut x = x_full;
    let pad: usize = root_m - 1 - lane_m;
    let mut i: usize = 0;
    while i < pad
        invariant
            i <= pad,
            x@ == start + Seq::new(i as nat, |k: int| fzero()),
        decreases pad - i,
    {
        x.push(F128::zero());
        i = i + 1;
        assert(x@ =~= start + Seq::new(i as nat, |k: int| fzero()));
    }
    x.push(bit_element(lane));
    assert(x@ =~= lifted(start, lane_m as int, root_m as int, lane));
    x
}

/// The root's packed witness: the sponge's words from the start of the lower
/// half, the slots' from the start of the upper half, and zeros.
pub open spec fn root_words(sponge: Seq<F128>, slots: Seq<F128>, half: int) -> Seq<F128> {
    Seq::new(
        (2 * half) as nat,
        |i: int|
            if i < half {
                if i < sponge.len() {
                    sponge[i]
                } else {
                    fzero()
                }
            } else if i - half < slots.len() {
                slots[i - half]
            } else {
                fzero()
            },
    )
}

/// Lay both lanes' packed witnesses out on the root's domain.
pub fn root_witness(sponge: &[F128], slots: &[F128], half_words: usize) -> (root: Vec<F128>)
    requires
        sponge@.len() <= half_words,
        slots@.len() <= half_words,
        2 * half_words <= usize::MAX,
    ensures
        root@ == root_words(sponge@, slots@, half_words as int),
{
    let mut root: Vec<F128> = Vec::with_capacity(2 * half_words);
    let mut i: usize = 0;
    while i < 2 * half_words
        invariant
            2 * half_words <= usize::MAX,
            i <= 2 * half_words,
            root@ == root_words(sponge@, slots@, half_words as int).take(i as int),
        decreases 2 * half_words - i,
    {
        let word = if i < half_words {
            if i < sponge.len() {
                sponge[i]
            } else {
                F128::zero()
            }
        } else if i - half_words < slots.len() {
            slots[i - half_words]
        } else {
            F128::zero()
        };
        root.push(word);
        i = i + 1;
        assert(root@ =~= root_words(sponge@, slots@, half_words as int).take(i as int));
    }
    assert(root@ =~= root_words(sponge@, slots@, half_words as int));
    root
}

/// The claims of the one batched opening.
#[derive(Clone, Debug)]
pub struct RootClaims {
    pub values: Vec<F128>,
    pub bindings: Vec<LowBinding>,
    pub x_fulls: Vec<Vec<F128>>,
}

/// How a multilinear point binds the low variables.
pub open spec fn binds_low(binding: LowBinding, point: Seq<F128>) -> bool {
    binding matches LowBinding::Multilinear { x_low } && x_low@ == Seq::new(
        7,
        |i: int| point[point.len() - 1 - i],
    )
}

/// The bindings and coordinates from index `at` on are a lane's.
pub open spec fn lane_opened(
    claims: RootClaims,
    at: int,
    lane: LaneClaims,
    root_m: int,
    side: bool,
    n: int,
) -> bool {
    &&& claims.bindings@[at] == (LowBinding::Quirky { z_skip: lane.ab.point.z_skip })
    &&& claims.x_fulls@[at]@ == lifted(
        lane.ab.point.x_inner_rest@ + lane.ab.point.x_outer@,
        lane.m as int,
        root_m,
        side,
    )
    &&& claims.bindings@[at + 1] == (LowBinding::Quirky { z_skip: lane.c.point.z_skip })
    &&& claims.x_fulls@[at + 1]@ == lifted(
        lane.c.point.x_inner_rest@ + lane.c.point.x_outer@,
        lane.m as int,
        root_m,
        side,
    )
    &&& forall|i: int|
        0 <= i < n ==> binds_low(#[trigger] claims.bindings@[at + 2 + i], lane.points@[i]@)
    &&& forall|i: int|
        0 <= i < n ==> (#[trigger] claims.x_fulls@[at + 2 + i])@ == lifted(
            outer_part(lane.points@[i]@),
            lane.m as int,
            root_m,
            side,
        )
}

/// The claims kept so far.
proof fn lemma_lane_kept(
    before: RootClaims,
    after: RootClaims,
    at: int,
    lane: LaneClaims,
    root_m: int,
    side: bool,
    n: int,
)
    requires
        0 <= at,
        0 <= n,
        at + 2 + n <= before.bindings@.len(),
        at + 2 + n <= before.x_fulls@.len(),
        lane_opened(before, at, lane, root_m, side, n),
        forall|i: int|
            0 <= i < before.bindings@.len() ==> #[trigger] after.bindings@[i] == before.bindings@[i],
        forall|i: int|
            0 <= i < before.x_fulls@.len() ==> #[trigger] after.x_fulls@[i] == before.x_fulls@[i],
    ensures
        lane_opened(after, at, lane, root_m, side, n),
{
    assert forall|i: int| 0 <= i < n implies binds_low(
        #[trigger] after.bindings@[at + 2 + i],
        lane.points@[i]@,
    ) by {
        assert(after.bindings@[at + 2 + i] == before.bindings@[at + 2 + i]);
    }
    assert forall|i: int| 0 <= i < n implies (#[trigger] after.x_fulls@[at + 2 + i])@ == lifted(
        outer_part(lane.points@[i]@),
        lane.m as int,
        root_m,
        side,
    ) by {
        assert(after.x_fulls@[at + 2 + i] == before.x_fulls@[at + 2 + i]);
    }
}

/// The points of a lane have low variables to bind.
pub open spec fn lane_fits(lane: LaneClaims, root_m: int) -> bool {
    &&& lane.m < root_m
    &&& forall|i: int| 0 <= i < lane.points@.len() ==> (#[trigger] lane.points@[i])@.len() > 7
}

/// Append a lane's claims.
fn open_lane(claims: &mut RootClaims, lane: &LaneClaims, root_m: usize, side: bool)
    requires
        lane_fits(*lane, root_m as int),
        old(claims).bindings@.len() == old(claims).x_fulls@.len(),
    ensures
        final(claims).values@ == old(claims).values@ + seq![lane.ab.value, lane.c.value]
            + lane.values@,
        final(claims).bindings@.len() == old(claims).bindings@.len() + 2 + lane.points@.len(),
        final(claims).x_fulls@.len() == final(claims).bindings@.len(),
        forall|i: int|
            0 <= i < old(claims).bindings@.len() ==> #[trigger] final(claims).bindings@[i] == old(
                claims,
            ).bindings@[i],
        forall|i: int|
            0 <= i < old(claims).x_fulls@.len() ==> #[trigger] final(claims).x_fulls@[i] == old(
                claims,
            ).x_fulls@[i],
        lane_opened(
            *final(claims),
            old(claims).bindings@.len() as int,
            *lane,
            root_m as int,
            side,
            lane.points@.len() as int,
        ),
{
    let ghost start = *claims;
    let ghost at = claims.bindings@.len() as int;
    let ab = open_quirky(&lane.ab);
    claims.values.push(ab.value);
    claims.bindings.push(ab.binding);
    claims.x_fulls.push(lift_to_root(ab.x_full, lane.m, root_m, side));
    let c = open_quirky(&lane.c);
    claims.values.push(c.value);
    claims.bindings.push(c.binding);
    claims.x_fulls.push(lift_to_root(c.x_full, lane.m, root_m, side));
    append(&mut claims.values, lane.values.as_slice());
    assert(claims.values@ =~= start.values@ + seq![lane.ab.value, lane.c.value] + lane.values@);
    let mut i: usize = 0;
    while i < lane.points.len()
        invariant
            lane_fits(*lane, root_m as int),
            start.bindings@.len() == start.x_fulls@.len(),
            at == start.bindings@.len(),
            i <= lane.points@.len(),
            claims.values@ == start.values@ + seq![lane.ab.value, lane.c.value] + lane.values@,
            claims.bindings@.len() == at + 2 + i,
            claims.x_fulls@.len() == at + 2 + i,
            forall|k: int|
                0 <= k < start.bindings@.len() ==> #[trigger] claims.bindings@[k]
                    == start.bindings@[k],
            forall|k: int|
                0 <= k < start.x_fulls@.len() ==> #[trigger] claims.x_fulls@[k]
                    == start.x_fulls@[k],
            lane_opened(*claims, at, *lane, root_m as int, side, i as int),
        decreases lane.points@.len() - i,
    {
        assert(lane.points@[i as int]@.len() > 7);
        let ghost before = *claims;
        let o = open_multilinear(lane.points[i].as_slice(), F128::zero());
        claims.bindings.push(o.binding);
        claims.x_fulls.push(lift_to_root(o.x_full, lane.m, root_m, side));
        proof {
            lemma_lane_kept(before, *claims, at, *lane, root_m as int, side, i as int);
        }
        i = i + 1;
    }
}

/// The list of the single opening: the sponge's lane, then the slots'.
pub open spec fn root_lists(
    claims: RootClaims,
    sponge: LaneClaims,
    slots: LaneClaims,
    root_m: int,
) -> bool {
    &&& claims.values@ == seq![sponge.ab.value, sponge.c.value] + sponge.values@ + seq![
        slots.ab.value,
        slots.c.value,
    ] + slots.values@
    &&& claims.bindings@.len() == sponge.points@.len() + slots.points@.len() + 4
    &&& claims.x_fulls@.len() == claims.bindings@.len()
    &&& lane_opened(claims, 0, sponge, root_m, false, sponge.points@.len() as int)
    &&& lane_opened(
        claims,
        2 + sponge.points@.len() as int,
        slots,
        root_m,
        true,
        slots.points@.len() as int,
    )
}

/// The claims of the single opening: the sponge's lane, then the slots'.
pub fn single_root_claims(sponge: &LaneClaims, slots: &LaneClaims, root_m: usize) -> (result: Result<
    RootClaims,
    &'static str,
>)
    requires
        lane_fits(*sponge, root_m as int),
        lane_fits(*slots, root_m as int),
    ensures
        ({
            let balanced = sponge.values@.len() + slots.values@.len() == sponge.points@.len()
                + slots.points@.len();
            match result {
                Ok(claims) => balanced && root_lists(claims, *sponge, *slots, root_m as int),
                Err(e) => !balanced && e@ == "single-root claim bookkeeping disagrees"@,
            }
        }),
{
    let mut claims = RootClaims { values: Vec::new(), bindings: Vec::new(), x_fulls: Vec::new() };
    open_lane(&mut claims, sponge, root_m, false);
    let ghost before = claims;
    open_lane(&mut claims, slots, root_m, true);
    proof {
        lemma_lane_kept(
            before,
            claims,
            0,
            *sponge,
            root_m as int,
            false,
            sponge.points@.len() as int,
        );
        assert(claims.values@ =~= seq![sponge.ab.value, sponge.c.value] + sponge.values@ + seq![
            slots.ab.value,
            slots.c.value,
        ] + slots.values@);
    }
    if claims.values.len() != claims.x_fulls.len() || claims.bindings.len()
        != claims.x_fulls.len() {
        return Err("single-root claim bookkeeping disagrees");
    }
    Ok(claims)
}

/// The folded rows that the prover knows, one entry per claim of the single
/// opening: each lane's two circuit claims have theirs.
pub open spec fn known_rows(
    rows: Seq<Option<Vec<F128>>>,
    sponge_points: int,
    slot_points: int,
    sponge_ab: Option<Vec<F128>>,
    sponge_c: Vec<F128>,
    slots_ab: Vec<F128>,
    slots_c: Vec<F128>,
) -> bool {
    &&& rows.len() == sponge_points + slot_points + 4
    &&& rows[0] == sponge_ab
    &&& rows[1] == Some(sponge_c)
    &&& rows[sponge_points + 2] == Some(slots_ab)
    &&& rows[sponge_points + 3] == Some(slots_c)
    &&& forall|i: int|
        2 <= i < rows.len() && !(sponge_points + 2 <= i < sponge_points + 4) ==> (
        #[trigger] rows[i]) is None
}

/// List the rows that go with the claims of the single opening.
pub fn single_root_rows(
    sponge_points: usize,
    slot_points: usize,
    sponge_ab: Option<Vec<F128>>,
    sponge_c: Vec<F128>,
    slots_ab: Vec<F128>,
    slots_c: Vec<F128>,
) -> (rows: Vec<Option<Vec<F128>>>)
    requires
        sponge_points + slot_points + 4 <= usize::MAX,
    ensures
        known_rows(
            rows@,
            sponge_points as int,
            slot_points as int,
            sponge_ab,
            sponge_c,
            slots_ab,
            slots_c,
        ),
{
    let mut rows: Vec<Option<Vec<F128>>> = Vec::new();
    rows.push(sponge_ab);
    rows.push(Some(sponge_c));
    while rows.len() < 2 + sponge_points
        invariant
            sponge_points + slot_points + 4 <= usize::MAX,
            2 <= rows@.len() <= 2 + sponge_points,
            rows@[0] == sponge_ab,
            rows@[1] == Some(sponge_c),
            forall|i: int| 2 <= i < rows@.len() ==> (#[trigger] rows@[i]) is None,
        decreases 2 + sponge_points - rows@.len(),
    {
        rows.push(None);
    }
    rows.push(Some(slots_ab));
    rows.push(Some(slots_c));
    while rows.len() < 4 + sponge_points + slot_points
        invariant
            sponge_points + slot_points + 4 <= usize::MAX,
            4 + sponge_points <= rows@.len() <= 4 + sponge_points + slot_points,
            rows@[0] == sponge_ab,
            rows@[1] == Some(sponge_c),
            rows@[sponge_points + 2] == Some(slots_ab),
            rows@[sponge_points + 3] == Some(slots_c),
            forall|i: int|
                2 <= i < rows@.len() && !(sponge_points + 2 <= i < sponge_points + 4) ==> (
                #[trigger] rows@[i]) is None,
        decreases 4 + sponge_points + slot_points - rows@.len(),
    {
        rows.push(None);
    }
    rows
}

/// What the prover of one root has before the opening: the messages, the
/// claims and the rows that go with them.
#[derive(Clone, Debug)]
pub struct RootOpening {
    pub sponge_values: Vec<F128>,
    pub link: LinkProof,
    pub consistency: ConsistencyProof,
    pub claims: RootClaims,
    pub rows: Vec<Option<Vec<F128>>>,
}

/// A lane's circuit claims with the rows that they fold.
#[derive(Clone, Debug)]
pub struct CircuitRows {
    pub ab: ZClaim,
    pub c: ZClaim,
    pub rows_ab: Option<Vec<F128>>,
    pub rows_c: Vec<F128>,
}

/// Open both lanes over one root of `root_m` variables, and list the claims of
/// the single opening. The record lane's own claims come with it; nothing where
/// a challenge degenerates.
pub fn prove_hash_to_point_single_root(
    keccak_vars: usize,
    slot_vars: usize,
    root_m: usize,
    sponge_z: &[F128],
    record_z: &[F128],
    sponge: CircuitRows,
    record: LaneClaims,
    record_rows: (Vec<F128>, Vec<F128>),
    challenges: &LanesChallenges,
) -> (opened: Option<RootOpening>)
    requires
        challenges.well_formed(slot_vars as int),
        pow2((slot_vars + 17) as nat) <= usize::MAX,
        pow2((keccak_vars + 19) as nat) <= usize::MAX,
        128 * record_z@.len() >= pow2((slot_vars + 17) as nat),
        128 * sponge_z@.len() >= pow2((keccak_vars + 19) as nat),
        keccak_vars + 19 < root_m,
        lane_fits(record, root_m as int),
        record.points@.len() == record.values@.len(),
    ensures
        ({
            let regular = power_sum_defined(challenges.delta, keccak_vars as int)
                && challenges.link.regular(slot_vars as int, keccak_vars as int);
            match opened {
                Some(o) => {
                    &&& regular
                    &&& opens_lanes(
                        o.sponge_values@,
                        o.link,
                        o.consistency,
                        *challenges,
                        sponge_z@,
                        record_z@,
                        keccak_vars as nat,
                        slot_vars as nat,
                    )
                    &&& exists|given: LanesProof, lanes: LinkedLanes|
                        {
                            &&& given.circuit == Some((sponge.ab, sponge.c))
                            &&& given.sponge_values == o.sponge_values
                            &&& given.record == Ok::<LaneClaims, &'static str>(record)
                            &&& given.link == o.link
                            &&& given.consistency == o.consistency
                            &&& #[trigger] sponge_lane(
                                lanes.sponge,
                                given,
                                *challenges,
                                keccak_vars as nat,
                            )
                            &&& record_lane(lanes.record, given, *challenges, slot_vars as nat)
                            &&& root_lists(o.claims, lanes.sponge, lanes.record, root_m as int)
                            &&& known_rows(
                                o.rows@,
                                lanes.sponge.points@.len() as int,
                                lanes.record.points@.len() as int,
                                sponge.rows_ab,
                                sponge.rows_c,
                                record_rows.0,
                                record_rows.1,
                            )
                        }
                },
                None => !regular,
            }
        }),
{
    let o = match prove_hash_to_point(keccak_vars, slot_vars, sponge_z, record_z, challenges) {
        Some(o) => o,
        None => {
            return None;
        },
    };
    let ghost given = LanesProof {
        circuit: Some((sponge.ab, sponge.c)),
        sponge_values: o.sponge_values,
        record: Ok(record),
        link: o.link,
        consistency: o.consistency,
    };
    let OpenedLanes {
        sponge_values,
        link,
        consistency,
        mut sponge_points,
        mut keccak_points,
        mut record_points,
        mut record_values,
    } = o;
    let CircuitRows { ab, c, rows_ab, rows_c } = sponge;
    let ghost (first, linked) = (sponge_points@, keccak_points@);
    sponge_points.append(&mut keccak_points);
    let mut values: Vec<F128> = Vec::new();
    append(&mut values, sponge_values.as_slice());
    append(&mut values, link.keccak_values.as_slice());
    let LaneClaims { m, ab: record_ab, c: record_c, points: mut all, values: mut all_of } = record;
    let ghost (own, added) = (all@, record_points@);
    all.append(&mut record_points);
    all_of.append(&mut record_values);
    let lanes = LinkedLanes {
        sponge: LaneClaims { m: keccak_vars + 19, ab, c, points: sponge_points, values },
        record: LaneClaims { m, ab: record_ab, c: record_c, points: all, values: all_of },
    };
    proof {
        assert(point_views(lanes.sponge.points@) =~= point_views(first) + point_views(linked));
        assert(point_views(lanes.record.points@) =~= point_views(own) + point_views(added));
        assert(lanes.sponge.values@ =~= sponge_values@ + link.keccak_values@);
        assert(sponge_lane(lanes.sponge, given, *challenges, keccak_vars as nat));
        assert(record_lane(lanes.record, given, *challenges, slot_vars as nat));
        lemma_lane_points(lanes, given, *challenges, keccak_vars as nat, slot_vars as nat);
        lemma_opened_counts(
            lanes,
            given,
            *challenges,
            sponge_z@,
            record_z@,
            keccak_vars as nat,
            slot_vars as nat,
        );
    }
    match single_root_claims(&lanes.sponge, &lanes.record, root_m) {
        Ok(claims) => {
            let _total: usize = claims.bindings.len();
            let rows = single_root_rows(
                lanes.sponge.points.len(),
                lanes.record.points.len(),
                rows_ab,
                rows_c,
                record_rows.0,
                record_rows.1,
            );
            Some(RootOpening { sponge_values, link, consistency, claims, rows })
        },
        Err(_) => {
            assert(false);
            None
        },
    }
}

/// Check both lanes and the arguments between them over one commitment of
/// `root_m` variables, and list the claims of its single opening.
pub fn verify_hash_to_point_single_root(
    setup: &SpongeSetup,
    publics: &[SpongePublic],
    slot_vars: usize,
    root_m: usize,
    given: LanesProof,
    challenges: &LanesChallenges,
) -> (result: Result<RootClaims, &'static str>)
    requires
        setup.well_formed(),
        setup.n_blocks_log + 17 < root_m,
        publics@.len() == setup.records,
        publics_fit(publics@),
        challenges.well_formed(slot_vars as int),
        given.record matches Ok(own) ==> lane_fits(own, root_m as int),
    ensures
        ({
            let keccak_vars = (setup.n_blocks_log - 2) as nat;
            let hold = lanes_hold(given, *challenges, publics@, keccak_vars, slot_vars as nat);
            let balanced = given.record matches Ok(own) && own.points@.len()
                == own.values@.len();
            match result {
                Ok(claims) => {
                    &&& hold
                    &&& balanced
                    &&& exists|lanes: LinkedLanes|
                        {
                            &&& #[trigger] sponge_lane(
                                lanes.sponge,
                                given,
                                *challenges,
                                keccak_vars,
                            )
                            &&& record_lane(lanes.record, given, *challenges, slot_vars as nat)
                            &&& root_lists(claims, lanes.sponge, lanes.record, root_m as int)
                        }
                },
                Err(e) => if !hold {
                    lanes_refused(
                        e@,
                        given,
                        *challenges,
                        publics@,
                        keccak_vars,
                        slot_vars as nat,
                    )
                } else {
                    !balanced && e@ == "single-root claim bookkeeping disagrees"@
                },
            }
        }),
{
    let ghost keccak_vars = (setup.n_blocks_log - 2) as nat;
    match verify_lanes(setup, publics, slot_vars, given, challenges) {
        Ok(lanes) => {
            proof {
                lemma_lane_points(lanes, given, *challenges, keccak_vars, slot_vars as nat);
                lemma_lane_counts(
                    lanes,
                    given,
                    *challenges,
                    publics@,
                    keccak_vars,
                    slot_vars as nat,
                );
                assert(sponge_lane(lanes.sponge, given, *challenges, keccak_vars));
            }
            single_root_claims(&lanes.sponge, &lanes.record, root_m)
        },
        Err(e) => Err(e),
    }
}

/// Lifting selects the lane: with the lane's coordinate first and zeros after
/// it, the root's extension at a lane's point is the lane's own extension,
/// wherever the lane's table stands at the start of its half.
pub proof fn lifting_selects_the_lane(
    root: Seq<F128>,
    lane_table: Seq<F128>,
    pad: nat,
    lane: bool,
    point: Seq<F128>,
)
    requires
        lane_table.len() == pow2(point.len()),
        root.len() == pow2(pad + 1) * pow2(point.len()),
        ({
            let at: int = if lane {
                pow2(pad) as int * pow2(point.len()) as int
            } else {
                0
            };
            root.subrange(at, at + pow2(point.len())) == lane_table
        }),
    ensures
        mle(
            root,
            seq![bit_value(lane)] + Seq::new(pad, |i: int| fzero()) + point,
        ) == mle(lane_table, point),
{
    let v: int = if lane {
        pow2(pad) as int
    } else {
        0
    };
    lemma_pow2_pos(pad);
    lemma_pow2_adds(1, pad);
    vstd::arithmetic::power2::lemma2_to64();
    let b: int = if lane {
        1
    } else {
        0
    };
    lemma_bit_points(b, 1, 0, pad);
    assert(b * pow2(pad) + 0 == v) by (nonlinear_arith)
        requires
            b == 1 ==> v == pow2(pad),
            b == 0 ==> v == 0,
            b == 0 || b == 1,
    ;
    assert(bit_point(b, 1) =~= seq![bit_value(lane)]) by {
        assert(b / 1 == b);
    }
    let zeros = Seq::new(pad, |i: int| fzero());
    assert(zeros =~= bit_point(0, pad)) by {
        assert forall|i: int| 0 <= i < pad implies zeros[i] == bit_point(0, pad)[i] by {
            lemma_pow2_pos((pad - 1 - i) as nat);
            vstd::arithmetic::div_mod::lemma_div_of0(pow2((pad - 1 - i) as nat) as int);
        }
    }
    assert(1 + pad == pad + 1);
    lemma_fold_bits(root, v, pad + 1, pow2(point.len()));
    assert(0int * pow2(point.len()) == 0) by (nonlinear_arith);
    lemma_fold_all_concat(root, bit_point(v, pad + 1), point);
    assert(seq![bit_value(lane)] + zeros =~= bit_point(v, pad + 1));
}

/// The rows that a lane's claim folds carry over to the root: any coordinate of
/// the packed words, weighted at the lifted point, is that of the lane's own
/// words at the lane's point.
pub proof fn folded_rows_carry_over(
    root: Seq<F128>,
    lane_words: Seq<F128>,
    coordinate: spec_fn(F128) -> F128,
    pad: nat,
    lane: bool,
    point: Seq<F128>,
)
    requires
        lane_words.len() == pow2(point.len()),
        root.len() == pow2(pad + 1) * pow2(point.len()),
        ({
            let at: int = if lane {
                pow2(pad) as int * pow2(point.len()) as int
            } else {
                0
            };
            root.subrange(at, at + pow2(point.len())) == lane_words
        }),
    ensures
        mle(
            root.map_values(coordinate),
            seq![bit_value(lane)] + Seq::new(pad, |i: int| fzero()) + point,
        ) == mle(lane_words.map_values(coordinate), point),
{
    let at: int = if lane {
        pow2(pad) as int * pow2(point.len()) as int
    } else {
        0
    };
    lemma_pow2_pos(pad);
    lemma_pow2_adds(1, pad);
    vstd::arithmetic::power2::lemma2_to64();
    let size = pow2(point.len()) as int;
    assert(0 <= at && at + size <= root.len()) by (nonlinear_arith)
        requires
            root.len() == pow2(pad + 1) * size,
            pow2(pad + 1) == 2 * pow2(pad),
            pow2(pad) >= 1,
            size >= 0,
            at == 0 || at == pow2(pad) * size,
    ;
    let mapped = root.map_values(coordinate);
    assert(mapped.subrange(at, at + size) =~= lane_words.map_values(coordinate));
    lifting_selects_the_lane(mapped, lane_words.map_values(coordinate), pad, lane, point);
}

/// The root has room for both lanes, one in each half, and no variable more than
/// the larger one needs; which lane is which does not matter.
pub proof fn the_root_has_room_for_both_lanes(sponge_m: int, slots_m: int)
    ensures
        sponge_m < root_vars(sponge_m, slots_m),
        slots_m < root_vars(sponge_m, slots_m),
        sponge_m == root_vars(sponge_m, slots_m) - 1 || slots_m == root_vars(sponge_m, slots_m)
            - 1,
        root_vars(sponge_m, slots_m) == root_vars(slots_m, sponge_m),
{
}

/// A point given most significant first, with its coordinates the other way
/// round.
pub open spec fn turned(point: Seq<F128>) -> Seq<F128> {
    Seq::new(point.len(), |i: int| point[point.len() - 1 - i])
}

/// An opening of either lane is an opening of the root: the root's committed
/// words at a lane's lifted coordinates have the value that the lane's own words
/// have at the lane's, whatever the other lane holds.
pub proof fn lanes_open_through_the_root(
    sponge: Seq<F128>,
    slots: Seq<F128>,
    root_m: nat,
    lane: bool,
    point: Seq<F128>,
)
    requires
        7 <= point.len() < root_m,
        128 * sponge.len() <= pow2((root_m - 1) as nat),
        128 * slots.len() <= pow2((root_m - 1) as nat),
        128 * (if lane {
            slots
        } else {
            sponge
        }).len() == pow2(point.len()),
    ensures
        bit_extension(
            root_words(sponge, slots, pow2((root_m - 8) as nat) as int),
            turned(lifted(turned(point), point.len() as int, root_m as int, lane)),
        ) == bit_extension(
            if lane {
                slots
            } else {
                sponge
            },
            point,
        ),
{
    let half = pow2((root_m - 8) as nat) as int;
    let words = root_words(sponge, slots, half);
    let own = if lane {
        slots
    } else {
        sponge
    };
    let pad = (root_m - 1 - point.len()) as nat;
    let size = pow2(point.len()) as int;
    let lifted_point = turned(lifted(turned(point), point.len() as int, root_m as int, lane));
    let zeros = Seq::new(pad, |i: int| fzero());
    assert(lifted_point =~= seq![bit_value(lane)] + zeros + point);
    vstd::arithmetic::power2::lemma2_to64();
    lemma_pow2_adds(7, (root_m - 8) as nat);
    lemma_pow2_adds(pad, point.len());
    lemma_pow2_adds(pad + 1, point.len());
    lemma_pow2_adds(1, (root_m - 1) as nat);
    assert(pow2((root_m - 1) as nat) == 128 * half);
    let root = bit_table(leading_bits(words, pow2(root_m)));
    let table = bit_table(leading_bits(own, pow2(point.len())));
    let at: int = if lane {
        pow2(pad) as int * pow2(point.len()) as int
    } else {
        0
    };
    assert(at == if lane {
        128 * half
    } else {
        0
    });
    lemma_pow2_pos(pad);
    assert(size <= 128 * half) by (nonlinear_arith)
        requires
            pow2(pad) as int * size == 128 * half,
            pow2(pad) >= 1,
            size >= 0,
    ;
    assert(root.len() == 2 * (128 * half));
    assert forall|p: int| 0 <= p < size implies root.subrange(at, at + size)[p] == table[p] by {
        let q = at + p;
        assert(q % 128 == p % 128 && q / 128 == at / 128 + p / 128);
        assert(p / 128 < own.len());
        assert(words[q / 128] == own[p / 128]);
        assert(packed_bit(words, q) == packed_bit(own, p));
    }
    assert(root.subrange(at, at + size) =~= table);
    lifting_selects_the_lane(root, table, pad, lane, point);
}

/// The rows that are known already go with the claims on bits: they are known
/// for no claim at a multilinear point, and for every other one but the first,
/// whose rows may be left to the opening.
pub proof fn rows_go_with_their_claims(
    claims: RootClaims,
    sponge: LaneClaims,
    slots: LaneClaims,
    root_m: int,
    rows: Seq<Option<Vec<F128>>>,
    sponge_ab: Option<Vec<F128>>,
    sponge_c: Vec<F128>,
    slots_ab: Vec<F128>,
    slots_c: Vec<F128>,
    i: int,
)
    requires
        root_lists(claims, sponge, slots, root_m),
        known_rows(
            rows,
            sponge.points@.len() as int,
            slots.points@.len() as int,
            sponge_ab,
            sponge_c,
            slots_ab,
            slots_c,
        ),
        0 <= i < claims.bindings@.len(),
    ensures
        rows.len() == claims.bindings@.len(),
        claims.bindings@[i] is Multilinear ==> rows[i] is None,
        claims.bindings@[i] is Quirky && i > 0 ==> rows[i] is Some,
        claims.x_fulls@[i]@.last() == bit_value(i >= sponge.points@.len() + 2),
{
    let n = sponge.points@.len() as int;
    if 2 <= i < n + 2 {
        assert(binds_low(claims.bindings@[0 + 2 + (i - 2)], sponge.points@[i - 2]@));
        assert(claims.x_fulls@[0 + 2 + (i - 2)]@ == lifted(
            outer_part(sponge.points@[i - 2]@),
            sponge.m as int,
            root_m,
            false,
        ));
    } else if n + 4 <= i {
        let at = 2 + n;
        assert(binds_low(claims.bindings@[at + 2 + (i - n - 4)], slots.points@[i - n - 4]@));
        assert(claims.x_fulls@[at + 2 + (i - n - 4)]@ == lifted(
            outer_part(slots.points@[i - n - 4]@),
            slots.m as int,
            root_m,
            true,
        ));
    }
}

} // verus!
