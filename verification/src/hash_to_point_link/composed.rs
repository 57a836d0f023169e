//! The claims that the words' linkage and the masked tags leave to the two
//! lanes' openings.
use vstd::arithmetic::power2::{lemma2_to64, lemma_pow2_adds, pow2};
use vstd::prelude::*;

use crate::field::F128;
use crate::hash_to_point_hybrid::point_views;
use crate::hash_to_point_link::consistency::{
    all_points, all_values, prove_consistency_with, rep_fails, rep_points, tag_of,
    verify_consistency_with, ConsistencyProof, MASK_REPS,
};
use crate::hash_to_point_link::linkage::{
    generated_words_are_the_stream, honest_link_verifies, words_are_the_stream,
};
use crate::hash_to_point_link::{
    challenges_regular, claim_points, claims_sum, keccak_claims, lemma_keccak_lengths,
    lemma_slot_lengths, prove_link_claims, slot_claims, verify_link_claims, LinkProof,
};
use crate::hash_to_point_record::multilinear_claims;
use crate::hash_to_point_scatter::power_sum::power_sum_defined;
use crate::hash_to_point_slots::setup::block_words;
use crate::hash_to_point_slots::witness::is_block_witness;
use crate::hash_to_point_slots::{K, SLOTS};
use crate::hash_to_point_sponge::chaining::{
    honest_openings_pass, publics_fit, sponge_point_at, Honest,
};
use crate::hash_to_point_sponge::gather::bit_extension;
use crate::hash_to_point_sponge::lane::{
    core_outcome, prove_sponge_core, verify_sponge_core, SpongeVerifyCore,
};
use crate::hash_to_point_sponge::{squeeze_state, state_word, SpongePublic, SpongeSetup};
use crate::packed_bits::unpacked;
use crate::packed_mle::leading_bits;
use crate::prover::{append, open_quirky, opens_multilinear, opens_quirky, OpeningClaim, ZClaim};
use crate::r1cs::block_of;

verus! {

/// The challenges of the words' linkage.
#[derive(Clone, Copy, Debug)]
pub struct LinkChallenges {
    pub delta: F128,
    pub nu: F128,
    pub mu: F128,
    pub gamma: F128,
}

impl LinkChallenges {
    /// The record side's claims.
    pub open spec fn slots(self, record_vars: nat) -> Seq<(Seq<F128>, F128)> {
        slot_claims(record_vars, self.delta, self.nu, self.mu, self.gamma, 9)
    }

    /// The sponge side's claims.
    pub open spec fn states(self, record_vars: nat) -> Seq<(Seq<F128>, F128)> {
        keccak_claims(record_vars, self.delta, self.nu, self.mu, self.gamma, 4)
    }

    /// No challenge is degenerate on either side.
    pub open spec fn regular(self, slot_vars: int, keccak_vars: int) -> bool {
        challenges_regular(slot_vars, self.delta, self.nu, self.mu, self.gamma)
            && challenges_regular(keccak_vars, self.delta, self.nu, self.mu, self.gamma)
    }
}

/// What the two arguments add to the lanes' openings.
#[derive(Clone, Debug)]
pub struct ExtraClaims {
    pub keccak_points: Vec<Vec<F128>>,
    pub record_points: Vec<Vec<F128>>,
    pub record_values: Vec<F128>,
}

/// The record lane's extra claims: the linkage's, then every repetition's.
pub fn record_extras(
    slot_points: Vec<Vec<F128>>,
    slot_values: &[F128],
    consistency_points: Vec<Vec<F128>>,
    consistency_values: &[Vec<F128>],
) -> (extras: (Vec<Vec<F128>>, Vec<F128>))
    ensures
        point_views(extras.0@) == point_views(slot_points@) + point_views(consistency_points@),
        extras.1@ == slot_values@ + all_values(
            consistency_values@,
            consistency_values@.len() as int,
        ),
{
    let mut points = slot_points;
    let mut more = consistency_points;
    points.append(&mut more);
    assert(point_views(points@) =~= point_views(slot_points@) + point_views(
        consistency_points@,
    ));
    let mut values: Vec<F128> = Vec::new();
    append(&mut values, slot_values);
    let mut rep: usize = 0;
    assert(values@ =~= slot_values@ + all_values(consistency_values@, 0));
    while rep < consistency_values.len()
        invariant
            rep <= consistency_values@.len(),
            values@ == slot_values@ + all_values(consistency_values@, rep as int),
        decreases consistency_values@.len() - rep,
    {
        append(&mut values, consistency_values[rep].as_slice());
        rep = rep + 1;
        assert(values@ =~= slot_values@ + all_values(consistency_values@, rep as int));
    }
    (points, values)
}

/// Every repetition's tag is that of its values.
pub open spec fn tags_hold(
    proof: ConsistencyProof,
    challenges: Seq<(Vec<F128>, F128)>,
) -> bool {
    &&& proof.values@.len() == MASK_REPS
    &&& proof.tags@.len() == MASK_REPS
    &&& forall|rep: int| 0 <= rep < MASK_REPS ==> !#[trigger] rep_fails(proof, challenges, rep)
}

/// The two weighted sums agree, over as many values as there are claims.
pub open spec fn words_linked(
    proof: LinkProof,
    challenges: LinkChallenges,
    slot_vars: nat,
    keccak_vars: nat,
) -> bool {
    &&& challenges.regular(slot_vars as int, keccak_vars as int)
    &&& proof.slot_values@.len() == challenges.slots(slot_vars).len()
    &&& proof.keccak_values@.len() == challenges.states(keccak_vars).len()
    &&& claims_sum(challenges.slots(slot_vars), proof.slot_values@) == claims_sum(
        challenges.states(keccak_vars),
        proof.keccak_values@,
    )
}

/// Why the linkage or the tags are refused.
pub open spec fn extras_refused(
    e: Seq<char>,
    slot_vars: nat,
    keccak_vars: nat,
    link: LinkProof,
    link_challenges: LinkChallenges,
    consistency: ConsistencyProof,
    challenges: Seq<(Vec<F128>, F128)>,
) -> bool {
    if !link_challenges.regular(slot_vars as int, keccak_vars as int) {
        e == "degenerate"@
    } else if link.slot_values@.len() != link_challenges.slots(slot_vars).len()
        || link.keccak_values@.len() != link_challenges.states(keccak_vars).len() {
        e == "wrong linkage claim count"@
    } else if !words_linked(link, link_challenges, slot_vars, keccak_vars) {
        e == "the word linkage does not hold"@
    } else if consistency.values@.len() != MASK_REPS || consistency.tags@.len() != MASK_REPS {
        e == "wrong consistency repetition count"@
    } else {
        exists|rep: int|
            {
                &&& 0 <= rep < MASK_REPS
                &&& #[trigger] rep_fails(consistency, challenges, rep)
                &&& forall|k: int|
                    0 <= k < rep ==> !#[trigger] rep_fails(consistency, challenges, k)
                &&& if consistency.values@[rep]@.len() != 16 {
                    e == "wrong consistency claim count"@
                } else {
                    e == "a consistency tag equation does not hold"@
                }
            }
    }
}

/// Check the linkage, then the tags, and list what they add to the lanes'
/// openings.
pub fn verify_extras(
    slot_vars: usize,
    keccak_vars: usize,
    link: &LinkProof,
    link_challenges: LinkChallenges,
    consistency: &ConsistencyProof,
    challenges: &[(Vec<F128>, F128)],
) -> (result: Result<ExtraClaims, &'static str>)
    requires
        challenges@.len() == MASK_REPS,
        forall|rep: int|
            0 <= rep < challenges@.len() ==> (#[trigger] challenges@[rep]).0@.len() == slot_vars
                + 9,
    ensures
        result is Ok <==> words_linked(
            *link,
            link_challenges,
            slot_vars as nat,
            keccak_vars as nat,
        ) && tags_hold(*consistency, challenges@),
        result matches Ok(extras) ==> {
            &&& point_views(extras.keccak_points@) == claim_points(
                link_challenges.states(keccak_vars as nat),
            )
            &&& point_views(extras.record_points@) == claim_points(
                link_challenges.slots(slot_vars as nat),
            ) + all_points(slot_vars as int, challenges@, MASK_REPS as int)
            &&& extras.record_values@ == link.slot_values@ + all_values(
                consistency.values@,
                MASK_REPS as int,
            )
        },
        result matches Err(e) ==> extras_refused(
            e@,
            slot_vars as nat,
            keccak_vars as nat,
            *link,
            link_challenges,
            *consistency,
            challenges@,
        ),
{
    let LinkChallenges { delta, nu, mu, gamma } = link_challenges;
    let (slot_points, keccak_points) = match verify_link_claims(
        slot_vars,
        keccak_vars,
        link,
        delta,
        nu,
        mu,
        gamma,
    ) {
        Ok(points) => points,
        Err(e) => {
            return Err(e);
        },
    };
    let (consistency_points, consistency_values) = match verify_consistency_with(
        slot_vars,
        consistency,
        challenges,
    ) {
        Ok(claims) => claims,
        Err(e) => {
            return Err(e);
        },
    };
    assert(consistency.values@.len() == MASK_REPS);
    let (record_points, record_values) = record_extras(
        slot_points,
        link.slot_values.as_slice(),
        consistency_points,
        consistency.values.as_slice(),
    );
    Ok(ExtraClaims { keccak_points, record_points, record_values })
}

// ---------------------------------------------------------------------------
// Both lanes.
// ---------------------------------------------------------------------------

/// The claims of one lane: its circuit's two, and its multilinear openings.
#[derive(Clone, Debug)]
pub struct LaneClaims {
    pub m: usize,
    pub ab: ZClaim,
    pub c: ZClaim,
    pub points: Vec<Vec<F128>>,
    pub values: Vec<F128>,
}

/// What the verifier is given: the claims of the sponge circuit's replay, the
/// sponge's opening values, the outcome of the record lane's own checks, and
/// the two arguments between the lanes.
#[derive(Debug)]
pub struct LanesProof {
    pub circuit: Option<(ZClaim, ZClaim)>,
    pub sponge_values: Vec<F128>,
    pub record: Result<LaneClaims, &'static str>,
    pub link: LinkProof,
    pub consistency: ConsistencyProof,
}

/// The challenges in transcript order.
#[derive(Clone, Debug)]
pub struct LanesChallenges {
    pub delta: F128,
    pub r: Vec<F128>,
    pub link: LinkChallenges,
    pub consistency: Vec<(Vec<F128>, F128)>,
}

impl LanesChallenges {
    /// As many challenges as the checks use.
    pub open spec fn well_formed(self, slot_vars: int) -> bool {
        &&& self.r@.len() == 11
        &&& self.consistency@.len() == MASK_REPS
        &&& forall|rep: int|
            0 <= rep < self.consistency@.len() ==> (#[trigger] self.consistency@[rep]).0@.len()
                == slot_vars + 9
    }
}

/// Both lanes' claims, with those that the arguments between them add.
#[derive(Clone, Debug)]
pub struct LinkedLanes {
    pub sponge: LaneClaims,
    pub record: LaneClaims,
}

/// Every check holds.
pub open spec fn lanes_hold(
    given: LanesProof,
    challenges: LanesChallenges,
    publics: Seq<SpongePublic>,
    keccak_vars: nat,
    slot_vars: nat,
) -> bool {
    &&& core_outcome(
        given.circuit,
        given.sponge_values@,
        publics,
        keccak_vars,
        challenges.delta,
        challenges.r@,
    ) is Ok
    &&& given.record is Ok
    &&& words_linked(given.link, challenges.link, slot_vars, keccak_vars)
    &&& tags_hold(given.consistency, challenges.consistency@)
}

/// Why the lanes are refused: the sponge's checks come first, then the
/// record's, the linkage and the tags.
pub open spec fn lanes_refused(
    e: Seq<char>,
    given: LanesProof,
    challenges: LanesChallenges,
    publics: Seq<SpongePublic>,
    keccak_vars: nat,
    slot_vars: nat,
) -> bool {
    match core_outcome(
        given.circuit,
        given.sponge_values@,
        publics,
        keccak_vars,
        challenges.delta,
        challenges.r@,
    ) {
        Err(message) => e == message,
        Ok(()) => match given.record {
            Err(message) => e == message@,
            Ok(_) => extras_refused(
                e,
                slot_vars,
                keccak_vars,
                given.link,
                challenges.link,
                given.consistency,
                challenges.consistency@,
            ),
        },
    }
}

/// The sponge lane's claims: its own, then the linkage's.
pub open spec fn sponge_lane(
    lane: LaneClaims,
    given: LanesProof,
    challenges: LanesChallenges,
    keccak_vars: nat,
) -> bool {
    &&& lane.m == keccak_vars + 19
    &&& given.circuit == Some((lane.ab, lane.c))
    &&& point_views(lane.points@) == Seq::new(
        22,
        |k: int| sponge_point_at(keccak_vars, challenges.delta, challenges.r@, k),
    ) + claim_points(challenges.link.states(keccak_vars))
    &&& lane.values@ == given.sponge_values@ + given.link.keccak_values@
}

/// The record lane's claims: its own, then the linkage's and the tags'.
pub open spec fn record_lane(
    lane: LaneClaims,
    given: LanesProof,
    challenges: LanesChallenges,
    slot_vars: nat,
) -> bool {
    &&& given.record matches Ok(own)
    &&& lane.m == own.m
    &&& lane.ab == own.ab
    &&& lane.c == own.c
    &&& point_views(lane.points@) == point_views(own.points@) + (claim_points(
        challenges.link.slots(slot_vars),
    ) + all_points(slot_vars as int, challenges.consistency@, MASK_REPS as int))
    &&& lane.values@ == own.values@ + (given.link.slot_values@ + all_values(
        given.consistency.values@,
        MASK_REPS as int,
    ))
}

/// Check both lanes and the arguments between them, and list every claim that
/// is left to the openings.
pub fn verify_lanes(
    setup: &SpongeSetup,
    publics: &[SpongePublic],
    slot_vars: usize,
    given: LanesProof,
    challenges: &LanesChallenges,
) -> (result: Result<LinkedLanes, &'static str>)
    requires
        setup.well_formed(),
        publics@.len() == setup.records,
        publics_fit(publics@),
        challenges.well_formed(slot_vars as int),
    ensures
        ({
            let keccak_vars = (setup.n_blocks_log - 2) as nat;
            match result {
                Ok(lanes) => {
                    &&& lanes_hold(given, *challenges, publics@, keccak_vars, slot_vars as nat)
                    &&& sponge_lane(lanes.sponge, given, *challenges, keccak_vars)
                    &&& record_lane(lanes.record, given, *challenges, slot_vars as nat)
                },
                Err(e) => {
                    &&& !lanes_hold(given, *challenges, publics@, keccak_vars, slot_vars as nat)
                    &&& lanes_refused(
                        e@,
                        given,
                        *challenges,
                        publics@,
                        keccak_vars,
                        slot_vars as nat,
                    )
                },
            }
        }),
{
    let LanesProof { circuit, sponge_values, record, link, consistency } = given;
    let core = match verify_sponge_core(
        setup,
        publics,
        circuit,
        sponge_values.as_slice(),
        challenges.delta,
        challenges.r.as_slice(),
    ) {
        Ok(core) => core,
        Err(e) => {
            return Err(e);
        },
    };
    let own = match record {
        Ok(own) => own,
        Err(e) => {
            return Err(e);
        },
    };
    let keccak_vars: usize = setup.n_blocks_log - 2;
    let extras = match verify_extras(
        slot_vars,
        keccak_vars,
        &link,
        challenges.link,
        &consistency,
        challenges.consistency.as_slice(),
    ) {
        Ok(extras) => extras,
        Err(e) => {
            return Err(e);
        },
    };
    proof {
        crate::packed_mle::lemma_exponent_fits(keccak_vars as nat);
    }
    let SpongeVerifyCore { ab, c, mut points } = core;
    let ExtraClaims { mut keccak_points, mut record_points, mut record_values } = extras;
    let ghost (own_points, linked) = (points@, keccak_points@);
    points.append(&mut keccak_points);
    let mut values = sponge_values;
    append(&mut values, link.keccak_values.as_slice());
    let LaneClaims { m, ab: record_ab, c: record_c, points: mut all, values: mut all_of } = own;
    let ghost (lane_points, added) = (all@, record_points@);
    all.append(&mut record_points);
    all_of.append(&mut record_values);
    proof {
        assert(point_views(points@) =~= point_views(own_points) + point_views(linked));
        assert(point_views(own_points) =~= Seq::new(
            22,
            |k: int|
                sponge_point_at(keccak_vars as nat, challenges.delta, challenges.r@, k),
        ));
        assert(point_views(all@) =~= point_views(lane_points) + point_views(added));
    }
    Ok(
        LinkedLanes {
            sponge: LaneClaims { m: keccak_vars + 19, ab, c, points, values },
            record: LaneClaims { m, ab: record_ab, c: record_c, points: all, values: all_of },
        },
    )
}

/// A repetition's points have the slots' variables.
proof fn lemma_rep_lengths(record_vars: int, challenges: Seq<(Vec<F128>, F128)>, n: int)
    requires
        0 <= record_vars,
        0 <= n <= challenges.len(),
        forall|rep: int|
            0 <= rep < challenges.len() ==> (#[trigger] challenges[rep]).0@.len() == record_vars + 9,
    ensures
        forall|i: int|
            0 <= i < all_points(record_vars, challenges, n).len() ==> (#[trigger] all_points(
                record_vars,
                challenges,
                n,
            )[i]).len() == record_vars + 17,
    decreases n,
{
    if n > 0 {
        lemma_rep_lengths(record_vars, challenges, n - 1);
        let before = all_points(record_vars, challenges, n - 1);
        let all = all_points(record_vars, challenges, n);
        assert(challenges[n - 1].0@.len() == record_vars + 9);
        assert forall|i: int| 0 <= i < all.len() implies (#[trigger] all[i]).len() == record_vars
            + 17 by {
            if i < before.len() {
                assert(all[i] == before[i]);
            }
        }
    }
}

/// Every point of both lanes has low variables to bind, where the record's own
/// points do.
pub proof fn lemma_lane_points(
    lanes: LinkedLanes,
    given: LanesProof,
    challenges: LanesChallenges,
    keccak_vars: nat,
    slot_vars: nat,
)
    requires
        challenges.well_formed(slot_vars as int),
        sponge_lane(lanes.sponge, given, challenges, keccak_vars),
        record_lane(lanes.record, given, challenges, slot_vars),
        given.record matches Ok(own) && forall|i: int|
            0 <= i < own.points@.len() ==> (#[trigger] own.points@[i])@.len() > 7,
    ensures
        forall|i: int|
            0 <= i < lanes.sponge.points@.len() ==> (#[trigger] lanes.sponge.points@[i])@.len() > 7,
        forall|i: int|
            0 <= i < lanes.record.points@.len() ==> (#[trigger] lanes.record.points@[i])@.len() > 7,
{
    let LinkChallenges { delta, nu, mu, gamma } = challenges.link;
    lemma_keccak_lengths(keccak_vars, delta, nu, mu, gamma, 4);
    lemma_slot_lengths(slot_vars, delta, nu, mu, gamma, 9);
    lemma_rep_lengths(slot_vars as int, challenges.consistency@, MASK_REPS as int);
    assert forall|i: int| 0 <= i < lanes.sponge.points@.len() implies (
    #[trigger] lanes.sponge.points@[i])@.len() > 7 by {
        let views = point_views(lanes.sponge.points@);
        assert(views.len() == lanes.sponge.points@.len());
        assert(views[i] == lanes.sponge.points@[i]@);
        if i < 22 {
            assert(sponge_point_at(keccak_vars, challenges.delta, challenges.r@, i).len()
                == keccak_vars + 19);
        } else {
            assert(challenges.link.states(keccak_vars)[i - 22].0.len() == keccak_vars + 19);
        }
    }
    if let Ok(own) = given.record {
        let slots = challenges.link.slots(slot_vars);
        let n = own.points@.len() as int;
        assert forall|i: int| 0 <= i < lanes.record.points@.len() implies (
        #[trigger] lanes.record.points@[i])@.len() > 7 by {
            let views = point_views(lanes.record.points@);
            assert(views.len() == lanes.record.points@.len());
            assert(point_views(own.points@).len() == n);
            assert(views[i] == lanes.record.points@[i]@);
            if i < n {
                assert(own.points@[i]@.len() > 7);
            } else if i - n < slots.len() {
                assert(slots[i - n].0.len() == slot_vars + 17);
            } else {
                let reps = all_points(slot_vars as int, challenges.consistency@, MASK_REPS as int);
                assert(reps[i - n - slots.len()].len() == slot_vars + 17);
            }
        }
    }
}

/// The list of a lane's opening: the circuit's two claims, then the points in
/// order.
pub open spec fn lists_lane(claims: Seq<OpeningClaim>, lane: LaneClaims) -> bool {
    &&& claims.len() == 2 + lane.points@.len()
    &&& opens_quirky(claims[0], lane.ab)
    &&& opens_quirky(claims[1], lane.c)
    &&& forall|i: int|
        0 <= i < lane.points@.len() ==> opens_multilinear(
            #[trigger] claims[2 + i],
            lane.points@[i]@,
            lane.values@[i],
        )
}

fn list_lane(lane: &LaneClaims) -> (claims: Vec<OpeningClaim>)
    requires
        lane.points@.len() == lane.values@.len(),
        forall|i: int| 0 <= i < lane.points@.len() ==> (#[trigger] lane.points@[i])@.len() > 7,
    ensures
        lists_lane(claims@, *lane),
{
    let mut claims: Vec<OpeningClaim> = Vec::new();
    claims.push(open_quirky(&lane.ab));
    claims.push(open_quirky(&lane.c));
    let mut more = multilinear_claims(lane.points.as_slice(), lane.values.as_slice());
    let ghost rest = more@;
    claims.append(&mut more);
    proof {
        assert forall|i: int| 0 <= i < lane.points@.len() implies opens_multilinear(
            #[trigger] claims@[2 + i],
            lane.points@[i]@,
            lane.values@[i],
        ) by {
            assert(claims@[2 + i] == rest[i]);
        }
    }
    claims
}

/// The claims of the two openings, the sponge's and the record's.
pub fn verify_hash_to_point(
    setup: &SpongeSetup,
    publics: &[SpongePublic],
    slot_vars: usize,
    given: LanesProof,
    challenges: &LanesChallenges,
) -> (result: Result<(Vec<OpeningClaim>, Vec<OpeningClaim>), &'static str>)
    requires
        setup.well_formed(),
        publics@.len() == setup.records,
        publics_fit(publics@),
        challenges.well_formed(slot_vars as int),
        given.record matches Ok(own) ==> own.points@.len() == own.values@.len() && forall|i: int|
            0 <= i < own.points@.len() ==> (#[trigger] own.points@[i])@.len() > 7,
    ensures
        ({
            let keccak_vars = (setup.n_blocks_log - 2) as nat;
            match result {
                Ok((sponge, record)) => {
                    &&& lanes_hold(given, *challenges, publics@, keccak_vars, slot_vars as nat)
                    &&& exists|lanes: LinkedLanes|
                        {
                            &&& #[trigger] sponge_lane(
                                lanes.sponge,
                                given,
                                *challenges,
                                keccak_vars,
                            )
                            &&& record_lane(lanes.record, given, *challenges, slot_vars as nat)
                            &&& lists_lane(sponge@, lanes.sponge)
                            &&& lists_lane(record@, lanes.record)
                        }
                },
                Err(e) => {
                    &&& !lanes_hold(given, *challenges, publics@, keccak_vars, slot_vars as nat)
                    &&& lanes_refused(
                        e@,
                        given,
                        *challenges,
                        publics@,
                        keccak_vars,
                        slot_vars as nat,
                    )
                },
            }
        }),
{
    let ghost keccak_vars = (setup.n_blocks_log - 2) as nat;
    match verify_lanes(setup, publics, slot_vars, given, challenges) {
        Ok(lanes) => {
            proof {
                lemma_lane_points(lanes, given, *challenges, keccak_vars, slot_vars as nat);
                lemma_lane_counts(lanes, given, *challenges, publics@, keccak_vars, slot_vars as nat);
            }
            Ok((list_lane(&lanes.sponge), list_lane(&lanes.record)))
        },
        Err(e) => Err(e),
    }
}

/// Every point of both lanes has a value, where the record's own points do.
pub proof fn lemma_lane_counts(
    lanes: LinkedLanes,
    given: LanesProof,
    challenges: LanesChallenges,
    publics: Seq<SpongePublic>,
    keccak_vars: nat,
    slot_vars: nat,
)
    requires
        challenges.well_formed(slot_vars as int),
        lanes_hold(given, challenges, publics, keccak_vars, slot_vars),
        sponge_lane(lanes.sponge, given, challenges, keccak_vars),
        record_lane(lanes.record, given, challenges, slot_vars),
    ensures
        lanes.sponge.points@.len() == lanes.sponge.values@.len(),
        given.record matches Ok(own) && lanes.record.points@.len() - own.points@.len()
            == lanes.record.values@.len() - own.values@.len(),
{
    assert(point_views(lanes.sponge.points@).len() == lanes.sponge.points@.len());
    assert(point_views(lanes.record.points@).len() == lanes.record.points@.len());
    if let Ok(own) = given.record {
        assert(point_views(own.points@).len() == own.points@.len());
    }
    lemma_rep_counts(slot_vars as int, challenges.consistency@, given.consistency, MASK_REPS as int);
}

proof fn lemma_rep_counts(
    slot_vars: int,
    challenges: Seq<(Vec<F128>, F128)>,
    consistency: ConsistencyProof,
    n: int,
)
    requires
        0 <= n <= MASK_REPS,
        tags_hold(consistency, challenges),
    ensures
        all_points(slot_vars, challenges, n).len() == all_values(consistency.values@, n).len(),
    decreases n,
{
    if n > 0 {
        lemma_rep_counts(slot_vars, challenges, consistency, n - 1);
        assert(!rep_fails(consistency, challenges, n - 1));
    }
}

// ---------------------------------------------------------------------------
// The prover.
// ---------------------------------------------------------------------------

/// What the prover opens on the lanes' packed witnesses, and the points that
/// the arguments between the lanes add.
#[derive(Clone, Debug)]
pub struct OpenedLanes {
    pub sponge_values: Vec<F128>,
    pub link: LinkProof,
    pub consistency: ConsistencyProof,
    pub sponge_points: Vec<Vec<F128>>,
    pub keccak_points: Vec<Vec<F128>>,
    pub record_points: Vec<Vec<F128>>,
    pub record_values: Vec<F128>,
}

/// The values are the openings of the two witnesses.
pub open spec fn opens_lanes(
    sponge_values: Seq<F128>,
    link: LinkProof,
    consistency: ConsistencyProof,
    challenges: LanesChallenges,
    sponge_z: Seq<F128>,
    record_z: Seq<F128>,
    keccak_vars: nat,
    slot_vars: nat,
) -> bool {
    let slots = challenges.link.slots(slot_vars);
    let states = challenges.link.states(keccak_vars);
    &&& sponge_values == Seq::new(
        22,
        |k: int|
            bit_extension(
                sponge_z,
                sponge_point_at(keccak_vars, challenges.delta, challenges.r@, k),
            ),
    )
    &&& link.slot_values@ == Seq::new(
        slots.len(),
        |i: int| bit_extension(record_z, slots[i].0),
    )
    &&& link.keccak_values@ == Seq::new(
        states.len(),
        |i: int| bit_extension(sponge_z, states[i].0),
    )
    &&& consistency.values@.len() == MASK_REPS
    &&& consistency.tags@.len() == MASK_REPS
    &&& forall|rep: int|
        0 <= rep < MASK_REPS ==> (#[trigger] consistency.values@[rep])@ == Seq::new(
            16,
            |i: int|
                bit_extension(
                    record_z,
                    rep_points(slot_vars as int, challenges.consistency@[rep].0@, rep)[i],
                ),
        )
    &&& forall|rep: int|
        0 <= rep < MASK_REPS ==> #[trigger] consistency.tags@[rep] == tag_of(
            challenges.consistency@[rep].1,
            consistency.values@[rep]@,
        )
}

/// Open both lanes' claims and those of the arguments between them; nothing
/// where a challenge degenerates.
pub fn prove_hash_to_point(
    keccak_vars: usize,
    slot_vars: usize,
    sponge_z: &[F128],
    record_z: &[F128],
    challenges: &LanesChallenges,
) -> (opened: Option<OpenedLanes>)
    requires
        challenges.well_formed(slot_vars as int),
        pow2((slot_vars + 17) as nat) <= usize::MAX,
        pow2((keccak_vars + 19) as nat) <= usize::MAX,
        128 * record_z@.len() >= pow2((slot_vars + 17) as nat),
        128 * sponge_z@.len() >= pow2((keccak_vars + 19) as nat),
    ensures
        ({
            let regular = power_sum_defined(challenges.delta, keccak_vars as int)
                && challenges.link.regular(slot_vars as int, keccak_vars as int);
            match opened {
                Some(o) => {
                    &&& regular
                    &&& opens_lanes(
                        o.sponge_values@,
                        o.link,
                        o.consistency,
                        *challenges,
                        sponge_z@,
                        record_z@,
                        keccak_vars as nat,
                        slot_vars as nat,
                    )
                    &&& point_views(o.sponge_points@) == Seq::new(
                        22,
                        |k: int|
                            sponge_point_at(
                                keccak_vars as nat,
                                challenges.delta,
                                challenges.r@,
                                k,
                            ),
                    )
                    &&& point_views(o.keccak_points@) == claim_points(
                        challenges.link.states(keccak_vars as nat),
                    )
                    &&& point_views(o.record_points@) == claim_points(
                        challenges.link.slots(slot_vars as nat),
                    ) + all_points(slot_vars as int, challenges.consistency@, MASK_REPS as int)
                    &&& o.record_values@ == o.link.slot_values@ + all_values(
                        o.consistency.values@,
                        MASK_REPS as int,
                    )
                },
                None => !regular,
            }
        }),
{
    let (sponge_points, sponge_values) = match prove_sponge_core(
        keccak_vars,
        sponge_z,
        challenges.delta,
        challenges.r.as_slice(),
    ) {
        Some(core) => core,
        None => {
            return None;
        },
    };
    let LinkChallenges { delta, nu, mu, gamma } = challenges.link;
    let one = F128::one();
    if ((slot_vars != 0 || keccak_vars != 0) && delta == one) || nu == one || mu == one || gamma
        == one {
        return None;
    }
    let (link, slot_points, keccak_points) = prove_link_claims(
        slot_vars,
        keccak_vars,
        record_z,
        sponge_z,
        delta,
        nu,
        mu,
        gamma,
    );
    let (consistency, consistency_points) = prove_consistency_with(
        slot_vars,
        record_z,
        challenges.consistency.as_slice(),
    );
    let (record_points, record_values) = record_extras(
        slot_points,
        link.slot_values.as_slice(),
        consistency_points,
        consistency.values.as_slice(),
    );
    proof {
        assert(point_views(sponge_points@) =~= Seq::new(
            22,
            |k: int|
                sponge_point_at(keccak_vars as nat, challenges.delta, challenges.r@, k),
        ));
        assert(sponge_values@ =~= Seq::new(
            22,
            |k: int|
                bit_extension(
                    sponge_z@,
                    sponge_point_at(keccak_vars as nat, challenges.delta, challenges.r@, k),
                ),
        ));
    }
    Some(
        OpenedLanes {
            sponge_values,
            link,
            consistency,
            sponge_points,
            keccak_points,
            record_points,
            record_values,
        },
    )
}

/// Every point that the prover adds has a value.
pub proof fn lemma_opened_counts(
    lanes: LinkedLanes,
    given: LanesProof,
    challenges: LanesChallenges,
    sponge_z: Seq<F128>,
    record_z: Seq<F128>,
    keccak_vars: nat,
    slot_vars: nat,
)
    requires
        challenges.well_formed(slot_vars as int),
        opens_lanes(
            given.sponge_values@,
            given.link,
            given.consistency,
            challenges,
            sponge_z,
            record_z,
            keccak_vars,
            slot_vars,
        ),
        sponge_lane(lanes.sponge, given, challenges, keccak_vars),
        record_lane(lanes.record, given, challenges, slot_vars),
    ensures
        lanes.sponge.points@.len() == lanes.sponge.values@.len(),
        given.record matches Ok(own) && lanes.record.points@.len() - own.points@.len()
            == lanes.record.values@.len() - own.values@.len(),
{
    assert(point_views(lanes.sponge.points@).len() == lanes.sponge.points@.len());
    assert(point_views(lanes.record.points@).len() == lanes.record.points@.len());
    if let Ok(own) = given.record {
        assert(point_views(own.points@).len() == own.points@.len());
    }
    lemma_opened_tags(given.consistency, challenges);
    lemma_rep_counts(slot_vars as int, challenges.consistency@, given.consistency, MASK_REPS as int);
}

/// Tags that are those of sixteen values each hold.
proof fn lemma_opened_tags(consistency: ConsistencyProof, challenges: LanesChallenges)
    requires
        consistency.values@.len() == MASK_REPS,
        consistency.tags@.len() == MASK_REPS,
        forall|rep: int|
            0 <= rep < MASK_REPS ==> (#[trigger] consistency.values@[rep])@.len() == 16,
        forall|rep: int|
            0 <= rep < MASK_REPS ==> #[trigger] consistency.tags@[rep] == tag_of(
                challenges.consistency@[rep].1,
                consistency.values@[rep]@,
            ),
    ensures
        tags_hold(consistency, challenges.consistency@),
{
    assert forall|rep: int| 0 <= rep < MASK_REPS implies !#[trigger] rep_fails(
        consistency,
        challenges.consistency@,
        rep,
    ) by {
        assert(consistency.values@[rep]@.len() == 16);
        assert(consistency.tags@[rep] == tag_of(
            challenges.consistency@[rep].1,
            consistency.values@[rep]@,
        ));
    }
}

/// Completeness: what the prover opens on two witnesses of one batch passes
/// every check, where the sponge's holds the records' traces and the slots'
/// words are its stream.
pub proof fn honest_lanes_hold(
    h: Honest,
    given: LanesProof,
    challenges: LanesChallenges,
    sponge_z: Seq<F128>,
    record_z: Seq<F128>,
)
    requires
        h.well_formed(),
        h.z == unpacked(sponge_z),
        h.delta == challenges.delta,
        h.r == challenges.r@,
        128 * sponge_z.len() == pow2(h.record_vars) * 524288,
        128 * record_z.len() == pow2(h.record_vars) * 131072,
        words_are_the_stream(unpacked(record_z), h.z, pow2(h.record_vars) as int),
        challenges.well_formed(h.record_vars as int),
        challenges.link.regular(h.record_vars as int, h.record_vars as int),
        given.circuit is Some,
        given.record is Ok,
        opens_lanes(
            given.sponge_values@,
            given.link,
            given.consistency,
            challenges,
            sponge_z,
            record_z,
            h.record_vars,
            h.record_vars,
        ),
    ensures
        lanes_hold(given, challenges, h.publics, h.record_vars, h.record_vars),
{
    lemma2_to64();
    lemma_pow2_adds(h.record_vars, 19);
    let values = given.sponge_values@;
    assert forall|k: int| 0 <= k < 22 implies #[trigger] values[k] == h.opening(k) by {
        let point = sponge_point_at(h.record_vars, h.delta, h.r, k);
        assert(point.len() == h.record_vars + 19);
        assert(leading_bits(sponge_z, pow2(h.record_vars + 19)) =~= unpacked(sponge_z));
    }
    honest_openings_pass(h, values);
    let LinkChallenges { delta, nu, mu, gamma } = challenges.link;
    honest_link_verifies(
        record_z,
        sponge_z,
        given.link.slot_values@,
        given.link.keccak_values@,
        h.record_vars,
        delta,
        nu,
        mu,
        gamma,
    );
    lemma_opened_tags(given.consistency, challenges);
}

/// Completeness on generated witnesses: what the prover opens on the sponge
/// witness of a batch's traces and on the slot witness generated for the batch's
/// squeezed words passes every check.
pub proof fn generated_lanes_hold(
    h: Honest,
    blocks: Seq<[u16; SLOTS]>,
    given: LanesProof,
    challenges: LanesChallenges,
    sponge_z: Seq<F128>,
    record_z: Seq<F128>,
)
    requires
        h.well_formed(),
        h.z == unpacked(sponge_z),
        h.delta == challenges.delta,
        h.r == challenges.r@,
        128 * sponge_z.len() == pow2(h.record_vars) * 524288,
        128 * record_z.len() == pow2(h.record_vars) * 131072,
        blocks.len() == h.records.len(),
        forall|rec: int|
            0 <= rec < blocks.len() ==> is_block_witness(
                #[trigger] block_of(unpacked(record_z), K as int, rec),
                block_words(blocks, rec),
            ),
        forall|rec: int, q: int, w: int|
            #![trigger blocks[rec]@[68 * q + w]]
            0 <= rec < blocks.len() && 0 <= q < 9 && 0 <= w < 68 ==> blocks[rec]@[68 * q + w]
                == state_word(squeeze_state(h.records[rec].frame(), q), w),
        challenges.well_formed(h.record_vars as int),
        challenges.link.regular(h.record_vars as int, h.record_vars as int),
        given.circuit is Some,
        given.record is Ok,
        opens_lanes(
            given.sponge_values@,
            given.link,
            given.consistency,
            challenges,
            sponge_z,
            record_z,
            h.record_vars,
            h.record_vars,
        ),
    ensures
        lanes_hold(given, challenges, h.publics, h.record_vars, h.record_vars),
{
    assert(unpacked(record_z).len() == 128 * record_z.len());
    generated_words_are_the_stream(unpacked(record_z), blocks, h.z, h.records);
    honest_lanes_hold(h, given, challenges, sponge_z, record_z);
}

/// The values of the first repetitions are the extensions at their points.
proof fn lemma_tags_open(
    record_z: Seq<F128>,
    values: Seq<Vec<F128>>,
    challenges: Seq<(Vec<F128>, F128)>,
    slot_vars: int,
    n: int,
)
    requires
        0 <= n <= values.len(),
        forall|rep: int|
            0 <= rep < n ==> (#[trigger] values[rep])@ == Seq::new(
                16,
                |i: int| bit_extension(record_z, rep_points(slot_vars, challenges[rep].0@, rep)[i]),
            ),
    ensures
        all_values(values, n).len() == 16 * n,
        all_points(slot_vars, challenges, n).len() == 16 * n,
        forall|i: int|
            0 <= i < 16 * n ==> #[trigger] all_values(values, n)[i] == bit_extension(
                record_z,
                all_points(slot_vars, challenges, n)[i],
            ),
    decreases n,
{
    if n > 0 {
        lemma_tags_open(record_z, values, challenges, slot_vars, n - 1);
        assert(values[n - 1]@.len() == 16);
    }
}

/// Honest lanes leave true claims: every value that is left to the sponge's
/// opening is the extension of the sponge's witness at its own point, and every
/// one that the linkage and the tags leave to the record's opening is the
/// extension of the record's witness, behind the record's own claims.
pub proof fn honest_lanes_leave_true_claims(
    lanes: LinkedLanes,
    given: LanesProof,
    challenges: LanesChallenges,
    sponge_z: Seq<F128>,
    record_z: Seq<F128>,
    keccak_vars: nat,
    slot_vars: nat,
    i: int,
)
    requires
        sponge_lane(lanes.sponge, given, challenges, keccak_vars),
        record_lane(lanes.record, given, challenges, slot_vars),
        given.record matches Ok(own) && own.points@.len() == own.values@.len(),
        opens_lanes(
            given.sponge_values@,
            given.link,
            given.consistency,
            challenges,
            sponge_z,
            record_z,
            keccak_vars,
            slot_vars,
        ),
    ensures
        lanes.sponge.points@.len() == lanes.sponge.values@.len(),
        0 <= i < lanes.sponge.points@.len() ==> lanes.sponge.values@[i] == bit_extension(
            sponge_z,
            lanes.sponge.points@[i]@,
        ),
        lanes.record.points@.len() == lanes.record.values@.len(),
        given.record matches Ok(own) ==> {
            &&& own.points@.len() <= i < lanes.record.points@.len() ==> lanes.record.values@[i]
                == bit_extension(record_z, lanes.record.points@[i]@)
            &&& 0 <= i < own.points@.len() ==> lanes.record.values@[i] == own.values@[i]
                && lanes.record.points@[i]@ == own.points@[i]@
        },
{
    let states = challenges.link.states(keccak_vars);
    let slots = challenges.link.slots(slot_vars);
    let sponge_points = point_views(lanes.sponge.points@);
    let record_points = point_views(lanes.record.points@);
    lemma_tags_open(
        record_z,
        given.consistency.values@,
        challenges.consistency@,
        slot_vars as int,
        MASK_REPS as int,
    );
    if let Ok(own) = given.record {
        let n = own.points@.len() as int;
        assert(point_views(own.points@).len() == n);
        assert(record_points.len() == lanes.record.points@.len());
        if 0 <= i < lanes.record.points@.len() {
            assert(record_points[i] == lanes.record.points@[i]@);
            if i < n {
                assert(point_views(own.points@)[i] == own.points@[i]@);
            } else if i < n + slots.len() {
                assert(claim_points(slots)[i - n] == slots[i - n].0);
            } else {
                let j = i - n - slots.len();
                assert(all_values(given.consistency.values@, MASK_REPS as int)[j]
                    == bit_extension(
                    record_z,
                    all_points(slot_vars as int, challenges.consistency@, MASK_REPS as int)[j],
                ));
            }
        }
    }
    assert(sponge_points.len() == lanes.sponge.points@.len());
    if 0 <= i < lanes.sponge.points@.len() {
        assert(sponge_points[i] == lanes.sponge.points@[i]@);
        if i >= 22 {
            assert(claim_points(states)[i - 22] == states[i - 22].0);
        }
    }
}

} // verus!
