//! Ledgers of the claims that a reduction leaves to the opening.
use vstd::arithmetic::power2::pow2;
use vstd::prelude::*;
use vstd::string::*;

use crate::field::{fmul, F128};
use crate::hash_to_point_hybrid::circuit::{Setup, DESCRIPTOR_DOMAIN};
use crate::hash_to_point_hybrid::layout::{fragment_view, fragment_views, Fragment};
use crate::hash_to_point_hybrid::protocol::{Core, Proof, VerifyCore};
use crate::hash_to_point_hybrid::{
    check_fragments, count_fragments, evaluations, flat, flatten, fragment_points, fragments_opened,
    group_start, group_sum, group_views, groups_opened, lemma_flat_concat, lemma_flat_part,
    lemma_flat_take, lemma_fragment_vars, lemma_opened_concat, point_views, relocated, values_agree,
    values_fit, Relocation,
};
use crate::hash_to_point_scatter::power_sum::power_sum_defined;
use crate::hash_to_point_slots::setup::PcsParams;
use crate::hash_to_point_sponge::chaining::{
    chain_outcome, check_chain, publics_fit, sponge_point_at, sponge_points,
};
use crate::hash_to_point_sponge::gather::covers_point;
use crate::hash_to_point_sponge::SpongePublic;
use crate::mle::copy_table;
use crate::prover::ZClaim;
use crate::sumcheck::ScatterProof;
use crate::sums::lemma_fsum_congr;
use crate::transcript::{
    all_observed, coordinates, coordinates_observed, count, count_observed, observe_bytes,
    observe_f128, observe_label, Observation, Observed,
};

verus! {

pub const LEDGER_LABEL: &'static str = "aerie/hybrid/relation-ledger-v1";

pub const QUIRKY_LABEL: &'static str = "quirky-binding-v1";

pub const CIRCUIT_LEDGER_LABEL: &'static str = "aerie/hybrid/circuit-claim-ledger-v1";

pub const RECORD_LEDGER_LABEL: &'static str = "aerie/hybrid/record-claim-ledger-v1";

pub const STATEMENT_LEDGER_LABEL: &'static str = "aerie/hybrid/statement-ledger-v1";

/// Which witness a reduction read: where it stands, how long it is, and the
/// circuit that it belongs to.
#[derive(Clone, Copy, Debug)]
pub struct WitnessSource {
    pub address: usize,
    pub len: usize,
    pub descriptor: [u8; 32],
    pub m: usize,
}

fn same_bytes(a: &[u8], b: &[u8]) -> (same: bool)
    ensures
        same == (a@ == b@),
{
    if a.len() != b.len() {
        return false;
    }
    let mut i: usize = 0;
    while i < a.len()
        invariant
            a@.len() == b@.len(),
            i <= a@.len(),
            forall|k: int| 0 <= k < i ==> a@[k] == b@[k],
        decreases a@.len() - i,
    {
        if a[i] != b[i] {
            return false;
        }
        i = i + 1;
    }
    assert(a@ =~= b@);
    true
}

impl WitnessSource {
    /// The two sources are one.
    pub open spec fn is(self, other: WitnessSource) -> bool {
        &&& self.address == other.address
        &&& self.len == other.len
        &&& self.descriptor@ == other.descriptor@
        &&& self.m == other.m
    }

    /// The source is the witness of `len` words at `address`.
    pub open spec fn reads(self, setup: Setup, address: int, len: int) -> bool {
        &&& self.address == address
        &&& self.len == len
        &&& self.descriptor == setup.descriptor
        &&& self.m == setup.r1cs.m
    }

    /// The source of a witness.
    pub fn new(setup: &Setup, address: usize, len: usize) -> (source: WitnessSource)
        ensures
            source.reads(*setup, address as int, len as int),
    {
        WitnessSource { address, len, descriptor: setup.descriptor, m: setup.r1cs.m }
    }

    /// Whether the two sources are one.
    pub fn same(&self, other: &WitnessSource) -> (same: bool)
        ensures
            same == self.is(*other),
            same <==> self.address == other.address && self.len == other.len && self.descriptor@
                == other.descriptor@ && self.m == other.m,
    {
        self.address == other.address && self.len == other.len && same_bytes(
            self.descriptor.as_slice(),
            other.descriptor.as_slice(),
        ) && self.m == other.m
    }

    /// Whether a witness stands where the source does.
    pub fn matches(&self, address: usize, len: usize) -> (matched: bool)
        ensures
            matched == (self.address == address && self.len == len),
    {
        self.address == address && self.len == len
    }
}

/// The openings of a relation: the points over the old domain with their
/// values, and their fragments with theirs.
#[derive(Clone, Debug)]
pub struct RelationLedger {
    pub source_points: Vec<Vec<F128>>,
    pub groups: Vec<Vec<Fragment>>,
    pub originals: Vec<F128>,
    pub points: Vec<Vec<F128>>,
    pub values: Vec<F128>,
}

/// Copy a list of points.
pub fn copy_points(points: &[Vec<F128>]) -> (copy: Vec<Vec<F128>>)
    ensures
        point_views(copy@) == point_views(points@),
{
    let mut copy: Vec<Vec<F128>> = Vec::with_capacity(points.len());
    append_points(&mut copy, points);
    assert(point_views(copy@) =~= point_views(points@));
    copy
}

/// Append a copy of a list of points.
pub fn append_points(all: &mut Vec<Vec<F128>>, points: &[Vec<F128>])
    ensures
        point_views(final(all)@) == point_views(old(all)@) + point_views(points@),
{
    let ghost start = all@;
    let mut k: usize = 0;
    assert(point_views(all@) =~= point_views(start) + point_views(points@).take(0));
    while k < points.len()
        invariant
            k <= points@.len(),
            point_views(all@) == point_views(start) + point_views(points@).take(k as int),
        decreases points@.len() - k,
    {
        let ghost before = all@;
        all.push(copy_table(points[k].as_slice()));
        assert(point_views(all@) =~= point_views(before).push(points@[k as int]@));
        k = k + 1;
        assert(point_views(all@) =~= point_views(start) + point_views(points@).take(k as int));
    }
    assert(point_views(points@).take(k as int) =~= point_views(points@));
}

/// What the fragment with value `value` adds to the transcript.
pub open spec fn fragment_observed(f: (Seq<F128>, F128), value: F128) -> Seq<Observed> {
    coordinates_observed(f.0) + seq![Observed::Element(f.1), Observed::Element(value)]
}

/// What the first `n` fragments of a group add, with the values from `from`.
pub open spec fn fragments_observed(
    group: Seq<(Seq<F128>, F128)>,
    values: Seq<F128>,
    from: int,
    n: int,
) -> Seq<Observed>
    decreases n,
{
    if n <= 0 {
        seq![]
    } else {
        fragments_observed(group, values, from, n - 1) + fragment_observed(
            group[n - 1],
            values[from + n - 1],
        )
    }
}

/// What the first `n` openings add.
pub open spec fn groups_observed(
    points: Seq<Seq<F128>>,
    groups: Seq<Seq<(Seq<F128>, F128)>>,
    originals: Seq<F128>,
    values: Seq<F128>,
    n: int,
) -> Seq<Observed>
    decreases n,
{
    if n <= 0 {
        seq![]
    } else {
        let g = n - 1;
        groups_observed(points, groups, originals, values, g) + (coordinates_observed(points[g])
            + seq![Observed::Element(originals[g]), count_observed(groups[g].len() as int)]
            + fragments_observed(
            groups[g],
            values,
            group_start(groups, g),
            groups[g].len() as int,
        ))
    }
}

impl RelationLedger {
    /// The fragments' points and weights.
    pub open spec fn views(self) -> Seq<Seq<(Seq<F128>, F128)>> {
        group_views(self.groups@)
    }

    /// One value per opening and per fragment.
    pub open spec fn well_formed(self) -> bool {
        &&& self.source_points@.len() == self.groups@.len()
        &&& self.source_points@.len() == self.originals@.len()
        &&& flat(self.views()).len() == self.values@.len()
        &&& point_views(self.points@) == fragment_points(flat(self.views()))
    }

    /// The ledger holds the openings of `source` on a compact witness.
    pub open spec fn opens(
        self,
        z: Seq<F128>,
        source: Seq<Seq<F128>>,
        relocation: Relocation,
    ) -> bool {
        &&& self.well_formed()
        &&& point_views(self.source_points@) == source
        &&& self.views() == relocated(source, relocation)
        &&& self.values@ == fragments_opened(z, relocated(source, relocation))
        &&& self.originals@ == groups_opened(z, relocated(source, relocation))
    }

    /// The ledger holds claimed openings and fragment values.
    pub open spec fn holds(
        self,
        source: Seq<Seq<F128>>,
        relocation: Relocation,
        originals: Seq<F128>,
        values: Seq<F128>,
    ) -> bool {
        &&& self.well_formed()
        &&& point_views(self.source_points@) == source
        &&& self.views() == relocated(source, relocation)
        &&& self.originals@ == originals
        &&& self.values@ == values
    }

    /// What the ledger adds to the transcript.
    pub open spec fn observed(self) -> Seq<Observed> {
        seq![
            Observed::Label(LEDGER_LABEL.spec_bytes()),
            count_observed(self.source_points@.len() as int),
            count_observed(self.values@.len() as int),
        ] + groups_observed(
            point_views(self.source_points@),
            self.views(),
            self.originals@,
            self.values@,
            self.source_points@.len() as int,
        )
    }

    /// Open every point on the compact witness.
    pub fn evaluate(z: &[F128], source: &[Vec<F128>], relocation: Relocation) -> (ledger:
        RelationLedger)
        requires
            forall|k: int|
                0 <= k < source@.len() ==> (#[trigger] source@[k])@.len() >= relocation.vars(),
            forall|k: int, i: int|
                0 <= k < source@.len() && 0 <= i < relocation.fragments(source@[k]@).len()
                    ==> covers_point(
                    z@,
                    (#[trigger] relocation.fragments(source@[k]@)[i]).0,
                ),
        ensures
            ledger.opens(z@, point_views(source@), relocation),
    {
        let groups = flatten(source, relocation);
        proof {
            let views = group_views(groups@);
            assert forall|g: int, i: int|
                0 <= g < views.len() && 0 <= i < views[g].len() implies covers_point(
                z@,
                (#[trigger] views[g][i]).0,
            ) by {
                assert(relocation.fragments(source@[g]@)[i] == views[g][i]);
            }
            lemma_flat_all(views, |f: (Seq<F128>, F128)| covers_point(z@, f.0));
            assert forall|i: int| 0 <= i < flat(views).len() implies covers_point(
                z@,
                (#[trigger] flat(views)[i]).0,
            ) by {
                assert((|f: (Seq<F128>, F128)| covers_point(z@, f.0))(flat(views)[i]));
            }
            assert(views.len() == groups@.len());
        }
        let (originals, points, values) = evaluations(z, groups.as_slice());
        let source_points = copy_points(source);
        proof {
            assert(point_views(source_points@).len() == source_points@.len());
            assert(point_views(source@).len() == source@.len());
            assert(group_views(groups@) =~= relocated(point_views(source@), relocation));
        }
        RelationLedger { source_points, groups, originals, points, values }
    }

    /// Check claimed values against the points' fragments.
    pub fn checked(
        source_points: Vec<Vec<F128>>,
        relocation: Relocation,
        originals: &[F128],
        values: &[F128],
    ) -> (result: Result<RelationLedger, &'static str>)
        requires
            forall|k: int|
                0 <= k < source_points@.len() ==> (#[trigger] source_points@[k])@.len()
                    >= relocation.vars(),
        ensures
            ({
                let source = point_views(source_points@);
                match relocation_outcome(relocated(source, relocation), values@, originals@) {
                    Ok(()) => result matches Ok(ledger) && ledger.holds(
                        source,
                        relocation,
                        originals@,
                        values@,
                    ),
                    Err(message) => result matches Err(e) && e@ == message,
                }
            }),
    {
        let groups = flatten(source_points.as_slice(), relocation);
        proof {
            assert(group_views(groups@) =~= relocated(point_views(source_points@), relocation));
            assert(group_views(groups@).len() == groups@.len());
        }
        match check_fragments(groups.as_slice(), values, originals) {
            Ok(points) => Ok(
                RelationLedger {
                    source_points,
                    groups,
                    originals: copy_table(originals),
                    points,
                    values: copy_table(values),
                },
            ),
            Err(e) => Err(e),
        }
    }

    /// Append another ledger's openings.
    pub fn append(&mut self, other: RelationLedger)
        requires
            old(self).well_formed(),
            other.well_formed(),
        ensures
            final(self).well_formed(),
            final(self).source_points@ == old(self).source_points@ + other.source_points@,
            final(self).groups@ == old(self).groups@ + other.groups@,
            final(self).originals@ == old(self).originals@ + other.originals@,
            final(self).points@ == old(self).points@ + other.points@,
            final(self).values@ == old(self).values@ + other.values@,
    {
        let ghost a = *old(self);
        let RelationLedger {
            mut source_points,
            mut groups,
            mut originals,
            mut points,
            mut values,
        } = other;
        self.source_points.append(&mut source_points);
        self.groups.append(&mut groups);
        self.originals.append(&mut originals);
        self.points.append(&mut points);
        self.values.append(&mut values);
        proof {
            lemma_flat_concat(a.views(), other.views());
            assert(self.views() =~= a.views() + other.views());
            assert(point_views(self.points@) =~= point_views(a.points@) + point_views(
                other.points@,
            ));
            assert(fragment_points(flat(self.views())) =~= fragment_points(flat(a.views()))
                + fragment_points(flat(other.views())));
        }
    }

    /// Add the ledger to a transcript.
    pub fn absorb(&self, out: &mut Vec<Observation>)
        requires
            self.well_formed(),
        ensures
            all_observed(final(out)@) == all_observed(old(out)@) + self.observed(),
    {
        let ghost start = all_observed(out@);
        let ghost views = self.views();
        let ghost sources = point_views(self.source_points@);
        observe_label(out, LEDGER_LABEL);
        count(out, self.source_points.len());
        count(out, self.values.len());
        let ghost head = all_observed(out@);
        let total: usize = self.values.len();
        let mut offset: usize = 0;
        let mut g: usize = 0;
        assert(views.take(0) =~= seq![]);
        assert(all_observed(out@) =~= head + groups_observed(
            sources,
            views,
            self.originals@,
            self.values@,
            0,
        ));
        while g < self.source_points.len()
            invariant
                self.well_formed(),
                views == self.views(),
                sources == point_views(self.source_points@),
                total == self.values@.len(),
                g <= self.source_points@.len(),
                offset == group_start(views, g as int),
                offset <= self.values@.len(),
                all_observed(out@) == head + groups_observed(
                    sources,
                    views,
                    self.originals@,
                    self.values@,
                    g as int,
                ),
            decreases self.source_points@.len() - g,
        {
            proof {
                lemma_flat_take(views, g as int);
                lemma_flat_part(views, g + 1);
                assert(views[g as int] == fragment_views(self.groups@[g as int]@));
            }
            let ghost before = all_observed(out@);
            coordinates(out, self.source_points[g].as_slice());
            observe_f128(out, self.originals[g]);
            let group = &self.groups[g];
            count(out, group.len());
            let ghost opened = all_observed(out@);
            let ghost from = offset as int;
            let ghost view = views[g as int];
            let mut i: usize = 0;
            assert(all_observed(out@) =~= opened + fragments_observed(
                view,
                self.values@,
                from,
                0,
            ));
            while i < group.len()
                invariant
                    total == self.values@.len(),
                    view == fragment_views(group@),
                    i <= group@.len(),
                    offset == from + i,
                    from + group@.len() <= self.values@.len(),
                    all_observed(out@) == opened + fragments_observed(
                        view,
                        self.values@,
                        from,
                        i as int,
                    ),
                decreases group@.len() - i,
            {
                let ghost was = all_observed(out@);
                assert(view[i as int] == fragment_view(group@[i as int]));
                coordinates(out, group[i].point.as_slice());
                observe_f128(out, group[i].weight);
                observe_f128(out, self.values[offset]);
                assert(all_observed(out@) =~= was + fragment_observed(
                    view[i as int],
                    self.values@[from + i],
                ));
                offset = offset + 1;
                i = i + 1;
                assert(all_observed(out@) =~= opened + fragments_observed(
                    view,
                    self.values@,
                    from,
                    i as int,
                ));
            }
            assert(opened =~= before + (coordinates_observed(sources[g as int]) + seq![
                Observed::Element(self.originals@[g as int]),
                count_observed(view.len() as int),
            ]));
            g = g + 1;
            assert(all_observed(out@) =~= head + groups_observed(
                sources,
                views,
                self.originals@,
                self.values@,
                g as int,
            ));
        }
        assert(head =~= start + seq![
            Observed::Label(LEDGER_LABEL.spec_bytes()),
            count_observed(self.source_points@.len() as int),
            count_observed(self.values@.len() as int),
        ]);
        assert(all_observed(out@) =~= start + self.observed());
    }
}

/// What holds of every fragment of every group holds of the list.
proof fn lemma_flat_all(
    groups: Seq<Seq<(Seq<F128>, F128)>>,
    good: spec_fn((Seq<F128>, F128)) -> bool,
)
    requires
        forall|g: int, i: int|
            0 <= g < groups.len() && 0 <= i < groups[g].len() ==> good(#[trigger] groups[g][i]),
    ensures
        forall|i: int| 0 <= i < flat(groups).len() ==> good(#[trigger] flat(groups)[i]),
    decreases groups.len(),
{
    if groups.len() > 0 {
        let rest = groups.drop_last();
        assert forall|g: int, i: int| 0 <= g < rest.len() && 0 <= i < rest[g].len() implies good(
            #[trigger] rest[g][i],
        ) by {
            assert(good(groups[g][i]));
        }
        lemma_flat_all(rest, good);
        assert forall|i: int| 0 <= i < flat(groups).len() implies good(
            #[trigger] flat(groups)[i],
        ) by {
            let n = flat(rest).len();
            if i < n {
                assert(good(flat(rest)[i]));
            } else {
                assert(good(groups[groups.len() - 1][i - n]));
            }
        }
    }
}

// ---------------------------------------------------------------------------
// Claim ledgers.
// ---------------------------------------------------------------------------

/// What a quirky claim adds to the transcript.
pub open spec fn quirky_observed(claim: ZClaim) -> Seq<Observed> {
    seq![Observed::Label(QUIRKY_LABEL.spec_bytes()), Observed::Element(claim.point.z_skip)]
        + coordinates_observed(claim.point.x_inner_rest@) + coordinates_observed(
        claim.point.x_outer@,
    ) + seq![Observed::Element(claim.value)]
}

/// Add a quirky claim to a transcript.
pub fn quirky(out: &mut Vec<Observation>, claim: &ZClaim)
    ensures
        all_observed(final(out)@) == all_observed(old(out)@) + quirky_observed(*claim),
{
    let ghost start = all_observed(out@);
    observe_label(out, QUIRKY_LABEL);
    observe_f128(out, claim.point.z_skip);
    coordinates(out, claim.point.x_inner_rest.as_slice());
    coordinates(out, claim.point.x_outer.as_slice());
    observe_f128(out, claim.value);
    assert(all_observed(out@) =~= start + quirky_observed(*claim));
}

/// What the circuit's claims and the sponge's ledger add to a transcript.
pub open spec fn circuit_observed(ab: ZClaim, c: ZClaim, sponge: RelationLedger) -> Seq<Observed> {
    seq![Observed::Label(CIRCUIT_LEDGER_LABEL.spec_bytes()), count_observed(2)] + quirky_observed(
        ab,
    ) + quirky_observed(c) + sponge.observed()
}

/// What the record's fingerprint and ledger add to a transcript.
pub open spec fn record_observed(
    record: RelationLedger,
    r_fp: Seq<F128>,
    fingerprint: F128,
) -> Seq<Observed> {
    seq![Observed::Label(RECORD_LEDGER_LABEL.spec_bytes())] + coordinates_observed(r_fp) + seq![
        Observed::Element(fingerprint),
    ] + record.observed()
}

/// Add the circuit's claims and the sponge's ledger to a transcript.
pub fn circuit_ledger(
    ab: &ZClaim,
    c: &ZClaim,
    sponge: &RelationLedger,
    out: &mut Vec<Observation>,
)
    requires
        sponge.well_formed(),
    ensures
        all_observed(final(out)@) == all_observed(old(out)@) + circuit_observed(*ab, *c, *sponge),
{
    let ghost start = all_observed(out@);
    observe_label(out, CIRCUIT_LEDGER_LABEL);
    count(out, 2);
    quirky(out, ab);
    quirky(out, c);
    sponge.absorb(out);
    assert(all_observed(out@) =~= start + circuit_observed(*ab, *c, *sponge));
}

/// Add the record's fingerprint and ledger to a transcript.
pub fn record_ledger(
    record: &RelationLedger,
    r_fp: &[F128],
    fingerprint: F128,
    out: &mut Vec<Observation>,
)
    requires
        record.well_formed(),
    ensures
        all_observed(final(out)@) == all_observed(old(out)@) + record_observed(
            *record,
            r_fp@,
            fingerprint,
        ),
{
    let ghost start = all_observed(out@);
    observe_label(out, RECORD_LEDGER_LABEL);
    coordinates(out, r_fp);
    observe_f128(out, fingerprint);
    record.absorb(out);
    assert(all_observed(out@) =~= start + record_observed(*record, r_fp@, fingerprint));
}

/// The profile of a commitment's opening.
#[derive(Clone, Copy, Debug, PartialEq, Eq, Structural)]
pub enum Profile {
    Fast,
    Slim,
    Secure,
    Grind,
}

impl Profile {
    /// The profile's name.
    pub open spec fn label(self) -> &'static str {
        match self {
            Profile::Fast => "fast",
            Profile::Slim => "slim",
            Profile::Secure => "secure",
            Profile::Grind => "grind",
        }
    }

    /// The profile's name.
    pub fn name(&self) -> (name: &'static str)
        ensures
            name == self.label(),
    {
        match self {
            Profile::Fast => "fast",
            Profile::Slim => "slim",
            Profile::Secure => "secure",
            Profile::Grind => "grind",
        }
    }
}

/// The parameters that a commitment carries.
#[derive(Clone, Debug)]
pub struct CommitmentParams {
    pub m: usize,
    pub log_inv_rate: usize,
    pub log_batch_size: usize,
    pub profile: Profile,
    pub merkle_hash: Vec<u8>,
}

impl CommitmentParams {
    /// What the parameters add to the transcript.
    pub open spec fn observed(self) -> Seq<Observed> {
        seq![
            count_observed(self.m as int),
            count_observed(self.log_inv_rate as int),
            count_observed(self.log_batch_size as int),
            Observed::Bytes(self.profile.label().spec_bytes()),
            Observed::Bytes(self.merkle_hash@),
        ]
    }

    /// Add the parameters to a transcript.
    pub fn absorb(&self, out: &mut Vec<Observation>)
        ensures
            all_observed(final(out)@) == all_observed(old(out)@) + self.observed(),
    {
        let ghost start = all_observed(out@);
        count(out, self.m);
        count(out, self.log_inv_rate);
        count(out, self.log_batch_size);
        observe_bytes(out, self.profile.name().as_bytes());
        observe_bytes(out, self.merkle_hash.as_slice());
        assert(all_observed(out@) =~= start + self.observed());
    }
}

/// What a commitment's parameters say beside the setup's sizes: the profile and
/// the tree's hash.
#[derive(Clone, Debug)]
pub struct CommitmentDefaults {
    pub profile: Profile,
    pub merkle_hash: Vec<u8>,
}

impl CommitmentParams {
    /// The parameters are the setup's sizes with the defaults.
    pub open spec fn fits(self, sizes: PcsParams, defaults: CommitmentDefaults) -> bool {
        &&& self.m == sizes.m
        &&& self.log_inv_rate == sizes.log_inv_rate
        &&& self.log_batch_size == sizes.log_batch_size
        &&& self.profile == defaults.profile
        &&& self.merkle_hash@ == defaults.merkle_hash@
    }
}

/// Add the whole statement of a setup to a transcript, once the commitment's
/// parameters are found to be the setup's.
pub fn absorb_statement_ledger(
    setup: &Setup,
    defaults: &CommitmentDefaults,
    params: &CommitmentParams,
    root: &[u8],
    out: &mut Vec<Observation>,
) -> (result: Result<(), &'static str>)
    ensures
        match result {
            Ok(_) => params.fits(setup.params, *defaults) && all_observed(final(out)@)
                == all_observed(old(out)@) + (seq![
                Observed::Label(STATEMENT_LEDGER_LABEL.spec_bytes()),
                Observed::Bytes(DESCRIPTOR_DOMAIN.spec_bytes()),
                Observed::Bytes(setup.descriptor@),
                Observed::Bytes(setup.statement@),
                Observed::Bytes(root@),
            ] + params.observed()),
            Err(e) => !params.fits(setup.params, *defaults) && e@
                == "hybrid commitment parameters"@ && final(out)@ == old(out)@,
        },
{
    let sizes = &setup.params;
    if params.m != sizes.m || params.log_inv_rate != sizes.log_inv_rate || params.log_batch_size
        != sizes.log_batch_size || params.profile != defaults.profile || !same_bytes(
        params.merkle_hash.as_slice(),
        defaults.merkle_hash.as_slice(),
    ) {
        return Err("hybrid commitment parameters");
    }
    let ghost start = all_observed(out@);
    observe_label(out, STATEMENT_LEDGER_LABEL);
    observe_bytes(out, DESCRIPTOR_DOMAIN.as_bytes());
    observe_bytes(out, setup.descriptor.as_slice());
    observe_bytes(out, setup.statement.as_slice());
    observe_bytes(out, root);
    params.absorb(out);
    assert(all_observed(out@) =~= start + (seq![
        Observed::Label(STATEMENT_LEDGER_LABEL.spec_bytes()),
        Observed::Bytes(DESCRIPTOR_DOMAIN.spec_bytes()),
        Observed::Bytes(setup.descriptor@),
        Observed::Bytes(setup.statement@),
        Observed::Bytes(root@),
    ] + params.observed()));
    Ok(())
}

// ---------------------------------------------------------------------------
// The prover's reductions.
// ---------------------------------------------------------------------------

/// The openings of two batches in a row are those of both.
pub proof fn lemma_batches_open(
    first: RelationLedger,
    second: RelationLedger,
    both: RelationLedger,
    z: Seq<F128>,
    a: Seq<Seq<F128>>,
    b: Seq<Seq<F128>>,
    relocation: Relocation,
)
    requires
        first.opens(z, a, relocation),
        second.opens(z, b, relocation),
        both.well_formed(),
        both.source_points@ == first.source_points@ + second.source_points@,
        both.groups@ == first.groups@ + second.groups@,
        both.originals@ == first.originals@ + second.originals@,
        both.values@ == first.values@ + second.values@,
    ensures
        both.opens(z, a + b, relocation),
{
    assert(point_views(both.source_points@) =~= a + b);
    assert(both.views() =~= first.views() + second.views());
    assert(relocated(a + b, relocation) =~= relocated(a, relocation) + relocated(b, relocation));
    lemma_opened_concat(z, relocated(a, relocation), relocated(b, relocation));
}

/// A witness covers the domain of `m` variables.
pub open spec fn covers_domain(z: Seq<F128>, m: int) -> bool {
    pow2(m as nat) <= usize::MAX && 128 * z.len() >= pow2(m as nat)
}

/// The points have the given number of variables.
pub open spec fn points_have(points: Seq<Vec<F128>>, vars: int) -> bool {
    forall|k: int| 0 <= k < points.len() ==> (#[trigger] points[k])@.len() == vars
}

/// Points over the old domain have fragments within the witness.
proof fn lemma_fragments_covered(
    z: Seq<F128>,
    points: Seq<Vec<F128>>,
    relocation: Relocation,
    record_vars: nat,
)
    requires
        covers_domain(z, record_vars as int + 19),
        points_have(points, record_vars + relocation.vars()),
    ensures
        forall|k: int, i: int|
            0 <= k < points.len() && 0 <= i < relocation.fragments(points[k]@).len()
                ==> covers_point(z, (#[trigger] relocation.fragments(points[k]@)[i]).0),
{
    assert forall|k: int, i: int|
        0 <= k < points.len() && 0 <= i < relocation.fragments(points[k]@).len() implies
        covers_point(z, (#[trigger] relocation.fragments(points[k]@)[i]).0) by {
        lemma_fragment_vars(relocation, points[k]@, i);
    }
}

/// The points of the sponge relation, in claim order.
pub open spec fn sponge_source(record_vars: nat, delta: F128, r: Seq<F128>) -> Seq<Seq<F128>> {
    Seq::new(22, |k: int| sponge_point_at(record_vars, delta, r, k))
}

/// The listed points are those of the sponge relation.
proof fn lemma_sponge_source(
    points: Seq<Vec<F128>>,
    record_vars: nat,
    delta: F128,
    r: Seq<F128>,
)
    requires
        r.len() == 11,
        points.len() == 22,
        forall|k: int|
            0 <= k < 22 ==> (#[trigger] points[k])@ == sponge_point_at(record_vars, delta, r, k),
    ensures
        point_views(points) == sponge_source(record_vars, delta, r),
        points_have(points, record_vars as int + 19),
{
    assert(point_views(points) =~= sponge_source(record_vars, delta, r));
    assert forall|k: int| 0 <= k < points.len() implies (#[trigger] points[k])@.len()
        == record_vars + 19 by {
        assert(sponge_point_at(record_vars, delta, r, k).len() == record_vars + 19);
    }
}

/// Open the sponge relation on a compact witness; nothing where the records'
/// powers degenerate.
pub fn open_sponge_relation(record_vars: usize, z: &[F128], delta: F128, r: &[F128]) -> (ledger:
    Option<RelationLedger>)
    requires
        r@.len() == 11,
        covers_domain(z@, record_vars + 19),
    ensures
        match ledger {
            Some(ledger) => power_sum_defined(delta, record_vars as int) && ledger.opens(
                z@,
                sponge_source(record_vars as nat, delta, r@),
                Relocation::Sponge,
            ),
            None => !power_sum_defined(delta, record_vars as int),
        },
{
    let points = match sponge_points(record_vars, delta, r) {
        Some(points) => points,
        None => {
            return None;
        },
    };
    proof {
        lemma_sponge_source(points@, record_vars as nat, delta, r@);
        lemma_fragments_covered(z@, points@, Relocation::Sponge, record_vars as nat);
    }
    Some(RelationLedger::evaluate(z, points.as_slice(), Relocation::Sponge))
}

/// Open the record relation on a compact witness: the scatter's points, then
/// the fingerprint's.
pub fn open_record_relation(
    record_vars: usize,
    z: &[F128],
    scatter_points: &[Vec<F128>],
    fingerprint_points: &[Vec<F128>],
) -> (ledger: RelationLedger)
    requires
        covers_domain(z@, record_vars + 19),
        points_have(scatter_points@, record_vars + 17),
        points_have(fingerprint_points@, record_vars + 17),
    ensures
        ledger.opens(
            z@,
            point_views(scatter_points@) + point_views(fingerprint_points@),
            Relocation::Record,
        ),
{
    proof {
        lemma_fragments_covered(z@, scatter_points@, Relocation::Record, record_vars as nat);
        lemma_fragments_covered(z@, fingerprint_points@, Relocation::Record, record_vars as nat);
    }
    let mut ledger = RelationLedger::evaluate(z, scatter_points, Relocation::Record);
    let more = RelationLedger::evaluate(z, fingerprint_points, Relocation::Record);
    let ghost (first, second) = (ledger, more);
    ledger.append(more);
    proof {
        lemma_batches_open(
            first,
            second,
            ledger,
            z@,
            point_views(scatter_points@),
            point_views(fingerprint_points@),
            Relocation::Record,
        );
    }
    ledger
}

/// Circuit and sponge claims that await the opening.
#[derive(Clone, Debug)]
pub struct ProverCircuitReduction {
    pub source: WitnessSource,
    pub ab: ZClaim,
    pub c: ZClaim,
    pub sponge: RelationLedger,
}

impl ProverCircuitReduction {
    /// Bind every derived claim to a transcript.
    pub fn absorb_ledger(&self, out: &mut Vec<Observation>)
        requires
            self.sponge.well_formed(),
        ensures
            all_observed(final(out)@) == all_observed(old(out)@) + circuit_observed(
                self.ab,
                self.c,
                self.sponge,
            ),
    {
        circuit_ledger(&self.ab, &self.c, &self.sponge, out);
    }
}

/// What the record relation hands over: the points it opens in two batches,
/// and the values that it keeps.
#[derive(Clone, Debug)]
pub struct RecordRelation {
    pub scatter: ScatterProof,
    pub scatter_points: Vec<Vec<F128>>,
    pub fingerprint_points: Vec<Vec<F128>>,
    pub r_fp: Vec<F128>,
    pub fingerprint: F128,
}

impl RecordRelation {
    /// The points lie in the domain of the slots' wires.
    pub open spec fn fits(self, record_vars: int) -> bool {
        points_have(self.scatter_points@, record_vars + 17) && points_have(
            self.fingerprint_points@,
            record_vars + 17,
        )
    }

    /// All points in order.
    pub open spec fn source(self) -> Seq<Seq<F128>> {
        point_views(self.scatter_points@) + point_views(self.fingerprint_points@)
    }
}

/// Record claims that await the opening.
#[derive(Clone, Debug)]
pub struct ProverRecordReduction {
    pub source: WitnessSource,
    pub scatter: ScatterProof,
    pub record: RelationLedger,
    pub r_fp: Vec<F128>,
    pub fingerprint: F128,
}

impl ProverRecordReduction {
    /// The point of the fingerprint.
    pub fn r_fp(&self) -> (point: &[F128])
        ensures
            point@ == self.r_fp@,
    {
        self.r_fp.as_slice()
    }

    /// The fingerprint.
    pub fn fingerprint(&self) -> (value: F128)
        ensures
            value == self.fingerprint,
    {
        self.fingerprint
    }

    /// Bind every derived claim to a transcript.
    pub fn absorb_ledger(&self, out: &mut Vec<Observation>)
        requires
            self.record.well_formed(),
        ensures
            all_observed(final(out)@) == all_observed(old(out)@) + record_observed(
                self.record,
                self.r_fp@,
                self.fingerprint,
            ),
    {
        record_ledger(&self.record, self.r_fp.as_slice(), self.fingerprint, out);
    }
}

/// Reduce the circuit and the sponge relation of a committed witness, which
/// stands at `address`. The two claims are the circuit's.
pub fn prove_circuit_after_root(
    setup: &Setup,
    address: usize,
    z: &[F128],
    ab: ZClaim,
    c: ZClaim,
    delta: F128,
    r: &[F128],
) -> (reduction: Option<ProverCircuitReduction>)
    requires
        setup.r1cs.m >= 19,
        covers_domain(z@, setup.r1cs.m as int),
        r@.len() == 11,
    ensures
        ({
            let record_vars = setup.r1cs.m - 19;
            match reduction {
                Some(reduction) => {
                    &&& power_sum_defined(delta, record_vars)
                    &&& reduction.source.reads(*setup, address as int, z@.len() as int)
                    &&& reduction.ab == ab
                    &&& reduction.c == c
                    &&& reduction.sponge.opens(
                        z@,
                        sponge_source(record_vars as nat, delta, r@),
                        Relocation::Sponge,
                    )
                },
                None => !power_sum_defined(delta, record_vars),
            }
        }),
{
    match open_sponge_relation(setup.record_vars(), z, delta, r) {
        Some(sponge) => Some(
            ProverCircuitReduction {
                source: WitnessSource::new(setup, address, z.len()),
                ab,
                c,
                sponge,
            },
        ),
        None => None,
    }
}

/// Reduce the record relation of the same witness.
pub fn prove_record(setup: &Setup, address: usize, z: &[F128], relation: RecordRelation) -> (
    reduction: ProverRecordReduction)
    requires
        setup.r1cs.m >= 19,
        covers_domain(z@, setup.r1cs.m as int),
        relation.fits(setup.r1cs.m - 19),
    ensures
        reduction.source.reads(*setup, address as int, z@.len() as int),
        reduction.scatter == relation.scatter,
        reduction.record.opens(z@, relation.source(), Relocation::Record),
        reduction.r_fp == relation.r_fp,
        reduction.fingerprint == relation.fingerprint,
{
    let RecordRelation { scatter, scatter_points, fingerprint_points, r_fp, fingerprint } =
        relation;
    let record = open_record_relation(
        setup.record_vars(),
        z,
        scatter_points.as_slice(),
        fingerprint_points.as_slice(),
    );
    ProverRecordReduction {
        source: WitnessSource::new(setup, address, z.len()),
        scatter,
        record,
        r_fp,
        fingerprint,
    }
}

/// Put the two reductions together, the sponge's openings before the record's.
pub fn join(circuit: ProverCircuitReduction, record: ProverRecordReduction) -> (core: Core)
    ensures
        core.joins(circuit, record),
{
    let ProverCircuitReduction { ab, c, sponge, .. } = circuit;
    let RelationLedger { originals: sponge_values, mut points, mut values, .. } = sponge;
    let ProverRecordReduction { scatter, record: ledger, r_fp, fingerprint, .. } = record;
    let RelationLedger {
        originals: record_values,
        points: mut record_points,
        values: mut record_fragments,
        ..
    } = ledger;
    points.append(&mut record_points);
    values.append(&mut record_fragments);
    Core {
        ab,
        c,
        scatter,
        sponge_values,
        record_values,
        fingerprint,
        r_fp,
        points,
        values,
    }
}

/// Join two reductions of the committed witness that stands at `address`.
pub fn recombine(
    address: usize,
    len: usize,
    commitment_m: usize,
    circuit: ProverCircuitReduction,
    record: ProverRecordReduction,
) -> (result: Result<Core, &'static str>)
    ensures
        ({
            let fits = circuit.source.is(record.source) && circuit.source.address == address
                && circuit.source.len == len && circuit.source.m == commitment_m;
            match result {
                Ok(core) => fits && core.joins(circuit, record),
                Err(e) => !fits && e@ == "hybrid reduction witness source"@,
            }
        }),
{
    if !circuit.source.same(&record.source) || !circuit.source.matches(address, len)
        || circuit.source.m != commitment_m {
        return Err("hybrid reduction witness source");
    }
    Ok(join(circuit, record))
}

// ---------------------------------------------------------------------------
// The verifier's reductions.
// ---------------------------------------------------------------------------

/// What the check of a relation's openings against its fragment values gives.
pub open spec fn relocation_outcome(
    groups: Seq<Seq<(Seq<F128>, F128)>>,
    values: Seq<F128>,
    originals: Seq<F128>,
) -> Result<(), Seq<char>> {
    if !values_fit(groups, values, originals) {
        Err("hybrid relocation shape"@)
    } else if !values_agree(groups, values, originals) {
        Err("hybrid relocation identity"@)
    } else {
        Ok(())
    }
}

/// The outcome on as many of the first values as there are fragments.
pub open spec fn prefix_outcome(
    groups: Seq<Seq<(Seq<F128>, F128)>>,
    values: Seq<F128>,
    originals: Seq<F128>,
) -> Result<(), Seq<char>> {
    if values.len() < flat(groups).len() {
        Err("hybrid relocation shape"@)
    } else {
        relocation_outcome(groups, values.take(flat(groups).len() as int), originals)
    }
}

/// The outcome on as many of the last values as there are fragments.
pub open spec fn suffix_outcome(
    groups: Seq<Seq<(Seq<F128>, F128)>>,
    values: Seq<F128>,
    originals: Seq<F128>,
) -> Result<(), Seq<char>> {
    if values.len() < flat(groups).len() {
        Err("hybrid relocation shape"@)
    } else {
        relocation_outcome(groups, values.skip(values.len() - flat(groups).len()), originals)
    }
}

/// Check the sponge's openings against the first fragment values.
pub fn checked_prefix(
    source_points: Vec<Vec<F128>>,
    relocation: Relocation,
    originals: &[F128],
    fragment_values: &[F128],
) -> (result: Result<RelationLedger, &'static str>)
    requires
        forall|k: int|
            0 <= k < source_points@.len() ==> (#[trigger] source_points@[k])@.len()
                >= relocation.vars(),
    ensures
        ({
            let source = point_views(source_points@);
            let groups = relocated(source, relocation);
            match prefix_outcome(groups, fragment_values@, originals@) {
                Ok(()) => result matches Ok(ledger) && ledger.holds(
                    source,
                    relocation,
                    originals@,
                    fragment_values@.take(flat(groups).len() as int),
                ),
                Err(message) => result matches Err(e) && e@ == message,
            }
        }),
{
    let total: usize = fragment_values.len();
    let groups = flatten(source_points.as_slice(), relocation);
    assert(group_views(groups@) =~= relocated(point_views(source_points@), relocation));
    let n: usize = match count_fragments(groups.as_slice()) {
        Some(n) => n,
        None => {
            return Err("hybrid relocation shape");
        },
    };
    if n > total {
        return Err("hybrid relocation shape");
    }
    let mut values: Vec<F128> = Vec::with_capacity(n);
    let mut i: usize = 0;
    while i < n
        invariant
            n <= fragment_values@.len(),
            i <= n,
            values@ == fragment_values@.take(i as int),
        decreases n - i,
    {
        values.push(fragment_values[i]);
        i = i + 1;
        assert(values@ =~= fragment_values@.take(i as int));
    }
    RelationLedger::checked(source_points, relocation, originals, values.as_slice())
}

/// Check the record's openings against the last fragment values.
pub fn checked_suffix(
    source_points: Vec<Vec<F128>>,
    relocation: Relocation,
    originals: &[F128],
    fragment_values: &[F128],
) -> (result: Result<RelationLedger, &'static str>)
    requires
        forall|k: int|
            0 <= k < source_points@.len() ==> (#[trigger] source_points@[k])@.len()
                >= relocation.vars(),
    ensures
        ({
            let source = point_views(source_points@);
            let groups = relocated(source, relocation);
            match suffix_outcome(groups, fragment_values@, originals@) {
                Ok(()) => result matches Ok(ledger) && ledger.holds(
                    source,
                    relocation,
                    originals@,
                    fragment_values@.skip(fragment_values@.len() - flat(groups).len()),
                ),
                Err(message) => result matches Err(e) && e@ == message,
            }
        }),
{
    let total: usize = fragment_values.len();
    let groups = flatten(source_points.as_slice(), relocation);
    assert(group_views(groups@) =~= relocated(point_views(source_points@), relocation));
    let n: usize = match count_fragments(groups.as_slice()) {
        Some(n) => n,
        None => {
            return Err("hybrid relocation shape");
        },
    };
    if n > total {
        return Err("hybrid relocation shape");
    }
    let from: usize = total - n;
    let mut values: Vec<F128> = Vec::with_capacity(n);
    let mut i: usize = from;
    while i < total
        invariant
            total == fragment_values@.len(),
            from <= i <= total,
            values@ == fragment_values@.subrange(from as int, i as int),
        decreases total - i,
    {
        values.push(fragment_values[i]);
        i = i + 1;
        assert(values@ =~= fragment_values@.subrange(from as int, i as int));
    }
    assert(values@ =~= fragment_values@.skip(from as int));
    RelationLedger::checked(source_points, relocation, originals, values.as_slice())
}

/// Replayed circuit claims; nothing is opened yet.
#[derive(Clone, Debug)]
pub struct VerifierCircuitReduction {
    pub proof: usize,
    pub ab: ZClaim,
    pub c: ZClaim,
    pub sponge: RelationLedger,
}

impl VerifierCircuitReduction {
    /// Bind every replayed claim to a transcript.
    pub fn absorb_ledger(&self, out: &mut Vec<Observation>)
        requires
            self.sponge.well_formed(),
        ensures
            all_observed(final(out)@) == all_observed(old(out)@) + circuit_observed(
                self.ab,
                self.c,
                self.sponge,
            ),
    {
        circuit_ledger(&self.ab, &self.c, &self.sponge, out);
    }
}

/// Replayed record claims; nothing is opened yet.
#[derive(Clone, Debug)]
pub struct VerifierRecordReduction {
    pub proof: usize,
    pub record: RelationLedger,
    pub r_fp: Vec<F128>,
    pub fingerprint: F128,
}

impl VerifierRecordReduction {
    /// The point of the fingerprint.
    pub fn r_fp(&self) -> (point: &[F128])
        ensures
            point@ == self.r_fp@,
    {
        self.r_fp.as_slice()
    }

    /// The fingerprint.
    pub fn fingerprint(&self) -> (value: F128)
        ensures
            value == self.fingerprint,
    {
        self.fingerprint
    }

    /// Bind every replayed claim to a transcript.
    pub fn absorb_ledger(&self, out: &mut Vec<Observation>)
        requires
            self.record.well_formed(),
        ensures
            all_observed(final(out)@) == all_observed(old(out)@) + record_observed(
                self.record,
                self.r_fp@,
                self.fingerprint,
            ),
    {
        record_ledger(&self.record, self.r_fp.as_slice(), self.fingerprint, out);
    }
}

/// What the replay of the circuit's half gives.
pub open spec fn circuit_outcome(
    circuit: Option<(ZClaim, ZClaim)>,
    publics: Seq<SpongePublic>,
    proof: Proof,
    record_vars: nat,
    delta: F128,
    r: Seq<F128>,
) -> Result<(), Seq<char>> {
    if circuit is None {
        Err("hybrid binary circuit"@)
    } else {
        match chain_outcome(proof.sponge_values@, publics, record_vars, delta, r) {
            Err(message) => Err(message),
            Ok(()) => prefix_outcome(
                relocated(sponge_source(record_vars, delta, r), Relocation::Sponge),
                proof.fragment_values@,
                proof.sponge_values@,
            ),
        }
    }
}

/// Replay the circuit's half of the proof at `address`: its two claims, where
/// the constraint system's replay gives them, and the sponge relation.
pub fn verify_circuit_after_root(
    record_vars: usize,
    publics: &[SpongePublic],
    proof: &Proof,
    address: usize,
    circuit: Option<(ZClaim, ZClaim)>,
    delta: F128,
    r: &[F128],
) -> (result: Result<VerifierCircuitReduction, &'static str>)
    requires
        publics_fit(publics@),
        pow2(record_vars as nat) <= usize::MAX,
        r@.len() == 11,
    ensures
        match circuit_outcome(circuit, publics@, *proof, record_vars as nat, delta, r@) {
            Ok(()) => {
                let source = sponge_source(record_vars as nat, delta, r@);
                &&& result matches Ok(reduction)
                &&& reduction.proof == address
                &&& circuit == Some((reduction.ab, reduction.c))
                &&& reduction.sponge.holds(
                    source,
                    Relocation::Sponge,
                    proof.sponge_values@,
                    proof.fragment_values@.take(
                        flat(relocated(source, Relocation::Sponge)).len() as int,
                    ),
                )
            },
            Err(message) => result matches Err(e) && e@ == message,
        },
{
    let (ab, c) = match circuit {
        Some(claims) => claims,
        None => {
            return Err("hybrid binary circuit");
        },
    };
    match check_chain(proof.sponge_values.as_slice(), publics, record_vars, delta, r) {
        Ok(()) => {},
        Err(e) => {
            return Err(e);
        },
    }
    let points = match sponge_points(record_vars, delta, r) {
        Some(points) => points,
        None => {
            return Err("degenerate delta");
        },
    };
    proof {
        lemma_sponge_source(points@, record_vars as nat, delta, r@);
    }
    match checked_prefix(
        points,
        Relocation::Sponge,
        proof.sponge_values.as_slice(),
        proof.fragment_values.as_slice(),
    ) {
        Ok(sponge) => Ok(VerifierCircuitReduction { proof: address, ab, c, sponge }),
        Err(e) => Err(e),
    }
}

/// Replay the record's half of the proof at `address`: `relation` is what the
/// record relation's replay gives, its points and the fingerprint's.
pub fn verify_record(
    proof: &Proof,
    address: usize,
    relation: Result<(Vec<Vec<F128>>, Vec<F128>), &'static str>,
) -> (result: Result<VerifierRecordReduction, &'static str>)
    requires
        relation matches Ok((points, _)) ==> forall|k: int|
            0 <= k < points@.len() ==> (#[trigger] points@[k])@.len() >= 17,
    ensures
        match relation {
            Err(message) => result == Err::<VerifierRecordReduction, &'static str>(message),
            Ok((points, r_fp)) => {
                let source = point_views(points@);
                let groups = relocated(source, Relocation::Record);
                match suffix_outcome(groups, proof.fragment_values@, proof.record_values@) {
                    Ok(()) => {
                        &&& result matches Ok(reduction)
                        &&& reduction.proof == address
                        &&& reduction.r_fp == r_fp
                        &&& reduction.fingerprint == proof.fingerprint
                        &&& reduction.record.holds(
                            source,
                            Relocation::Record,
                            proof.record_values@,
                            proof.fragment_values@.skip(
                                proof.fragment_values@.len() - flat(groups).len(),
                            ),
                        )
                    },
                    Err(message) => result matches Err(e) && e@ == message,
                }
            },
        },
{
    let (points, r_fp) = match relation {
        Ok(relation) => relation,
        Err(e) => {
            return Err(e);
        },
    };
    match checked_suffix(
        points,
        Relocation::Record,
        proof.record_values.as_slice(),
        proof.fragment_values.as_slice(),
    ) {
        Ok(record) => Ok(
            VerifierRecordReduction {
                proof: address,
                record,
                r_fp,
                fingerprint: proof.fingerprint,
            },
        ),
        Err(e) => Err(e),
    }
}

/// Join two replayed reductions of the proof at `address`: both must come from
/// it, and their fragments must use its values up.
pub fn recombine_verifier(
    proof: &Proof,
    address: usize,
    circuit: VerifierCircuitReduction,
    record: VerifierRecordReduction,
) -> (result: Result<VerifyCore, &'static str>)
    ensures
        ({
            let from_proof = circuit.proof == address && record.proof == address;
            let used_up = circuit.sponge.values@.len() + record.record.values@.len()
                == proof.fragment_values@.len();
            match result {
                Ok(core) => {
                    &&& from_proof
                    &&& used_up
                    &&& core.r_fp == record.r_fp
                    &&& core.ab == circuit.ab
                    &&& core.c == circuit.c
                    &&& core.points@ == circuit.sponge.points@ + record.record.points@
                },
                Err(e) => if !from_proof {
                    e@ == "hybrid reduction proof source"@
                } else {
                    !used_up && e@ == "hybrid relocation shape"@
                },
            }
        }),
{
    if circuit.proof != address || record.proof != address {
        return Err("hybrid reduction proof source");
    }
    let fragments: usize = proof.fragment_values.len();
    match circuit.sponge.values.len().checked_add(record.record.values.len()) {
        Some(n) => {
            if n != fragments {
                return Err("hybrid relocation shape");
            }
        },
        None => {
            return Err("hybrid relocation shape");
        },
    }
    let VerifierCircuitReduction { ab, c, sponge, .. } = circuit;
    let VerifierRecordReduction { record: ledger, r_fp, .. } = record;
    let RelationLedger { mut points, .. } = sponge;
    let RelationLedger { points: mut record_points, .. } = ledger;
    points.append(&mut record_points);
    Ok(VerifyCore { r_fp, ab, c, points })
}

/// The two halves' checks are the check of the whole: with as many sponge
/// openings as points, the fragment values make up all openings if and only if
/// the first ones make up the sponge's, the last ones the record's, and no
/// value is left over or used twice.
pub proof fn split_checks_are_the_whole_check(
    sponge: Seq<Seq<(Seq<F128>, F128)>>,
    record: Seq<Seq<(Seq<F128>, F128)>>,
    values: Seq<F128>,
    sponge_values: Seq<F128>,
    record_values: Seq<F128>,
)
    requires
        sponge_values.len() == sponge.len(),
    ensures
        relocation_outcome(sponge + record, values, sponge_values + record_values) is Ok <==> {
            &&& prefix_outcome(sponge, values, sponge_values) is Ok
            &&& suffix_outcome(record, values, record_values) is Ok
            &&& flat(sponge).len() + flat(record).len() == values.len()
        },
{
    lemma_flat_concat(sponge, record);
    let n = flat(sponge).len() as int;
    let all = sponge + record;
    let originals = sponge_values + record_values;
    if n + flat(record).len() == values.len() {
        let first = values.take(n);
        let last = values.skip(n);
        assert(values.skip(values.len() - flat(record).len()) == last);
        assert forall|g: int| 0 <= g < sponge.len() implies #[trigger] group_sum(all, values, g)
            == group_sum(sponge, first, g) by {
            lemma_group_in_front(sponge, record, values, g);
        }
        assert forall|g: int| 0 <= g < record.len() implies group_sum(
            all,
            values,
            sponge.len() + g,
        ) == #[trigger] group_sum(record, last, g) by {
            lemma_group_behind(sponge, record, values, g);
        }
        if record_values.len() == record.len() {
            if values_agree(all, values, originals) {
                assert forall|g: int| 0 <= g < sponge.len() implies #[trigger] group_sum(
                    sponge,
                    first,
                    g,
                ) == sponge_values[g] by {
                    assert(group_sum(all, values, g) == originals[g]);
                }
                assert forall|g: int| 0 <= g < record.len() implies #[trigger] group_sum(
                    record,
                    last,
                    g,
                ) == record_values[g] by {
                    assert(group_sum(all, values, sponge.len() + g) == originals[sponge.len()
                        + g]);
                }
            }
            if values_agree(sponge, first, sponge_values) && values_agree(
                record,
                last,
                record_values,
            ) {
                assert forall|g: int| 0 <= g < all.len() implies #[trigger] group_sum(
                    all,
                    values,
                    g,
                ) == originals[g] by {
                    if g < sponge.len() {
                        assert(group_sum(sponge, first, g) == sponge_values[g]);
                    } else {
                        let k = g - sponge.len();
                        assert(group_sum(record, last, k) == record_values[k]);
                    }
                }
            }
        }
    }
}

proof fn lemma_group_in_front(
    sponge: Seq<Seq<(Seq<F128>, F128)>>,
    record: Seq<Seq<(Seq<F128>, F128)>>,
    values: Seq<F128>,
    g: int,
)
    requires
        0 <= g < sponge.len(),
        flat(sponge).len() <= values.len(),
    ensures
        group_sum(sponge + record, values, g) == group_sum(
            sponge,
            values.take(flat(sponge).len() as int),
            g,
        ),
{
    let first = values.take(flat(sponge).len() as int);
    assert((sponge + record).take(g) =~= sponge.take(g));
    lemma_flat_take(sponge, g);
    lemma_flat_part(sponge, g + 1);
    let from = group_start(sponge, g);
    let a = |i: int| fmul(sponge[g][i].1, values[from + i]);
    let b = |i: int| fmul(sponge[g][i].1, first[from + i]);
    assert((sponge + record)[g] == sponge[g]);
    lemma_fsum_congr(a, b, sponge[g].len() as int);
}

proof fn lemma_group_behind(
    sponge: Seq<Seq<(Seq<F128>, F128)>>,
    record: Seq<Seq<(Seq<F128>, F128)>>,
    values: Seq<F128>,
    g: int,
)
    requires
        0 <= g < record.len(),
        flat(sponge).len() + flat(record).len() == values.len(),
    ensures
        group_sum(sponge + record, values, sponge.len() + g) == group_sum(
            record,
            values.skip(flat(sponge).len() as int),
            g,
        ),
{
    let n = flat(sponge).len() as int;
    let last = values.skip(n);
    assert((sponge + record).take(sponge.len() + g) =~= sponge + record.take(g));
    lemma_flat_concat(sponge, record.take(g));
    lemma_flat_take(record, g);
    lemma_flat_part(record, g + 1);
    let from = group_start(record, g);
    let a = |i: int| fmul(record[g][i].1, values[n + from + i]);
    let b = |i: int| fmul(record[g][i].1, last[from + i]);
    assert((sponge + record)[sponge.len() + g] == record[g]);
    assert(group_start(sponge + record, sponge.len() + g) == n + from);
    lemma_fsum_congr(a, b, record[g].len() as int);
}

} // verus!
