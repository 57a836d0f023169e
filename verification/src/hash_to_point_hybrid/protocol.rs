//! The relation's proof over one commitment: what the prover opens, what the
//! verifier checks, and the claims of the one batched opening.
use vstd::arithmetic::power2::{lemma2_to64, lemma_pow2_adds, pow2};
use vstd::prelude::*;

use crate::face_closure::{
    challenge_total, claims_error, close_faces, closes_all, faces_before, plans, ClosedClaim,
    Family,
};
use crate::field::{fmul, F128};
use crate::hash_to_point_hybrid::circuit::Setup;
use crate::hash_to_point_hybrid::layout::sponge_cube_of;
use crate::hash_to_point_hybrid::reductions::{
    covers_domain, join, prove_circuit_after_root, prove_record, relocation_outcome, sponge_source,
    ProverCircuitReduction, ProverRecordReduction, RecordRelation,
};
use crate::hash_to_point_hybrid::relocation::{holds_states, sponge_fragments_reconstruct};
use crate::hash_to_point_hybrid::{
    check_fragments, flat, flatten, fragment_points, fragments_opened, group_opened, group_views,
    groups_opened, lemma_flat_concat, lemma_fragment_vars, lemma_opened_concat,
    opened_fragments_agree, point_views, relocated, Relocation,
};
use crate::hash_to_point_scatter::power_sum::{derived_point, power_sum_defined};
use crate::hash_to_point_sponge::chaining::{
    bit_point, chain_outcome, check_chain, honest_openings_pass, lemma_bit_points, publics_fit,
    sponge_point_at, sponge_points, state_slot, Honest,
};
use crate::hash_to_point_sponge::gather::bit_extension;
use crate::hash_to_point_sponge::lane::open_sponge;
use crate::hash_to_point_sponge::SpongePublic;
use crate::mle::{bit_table, copy_table, mle};
use crate::packed_mle::leading_bits;
use crate::prover::{
    append, open_multilinear, open_quirky, opens_multilinear, opens_quirky, outer_part,
    OpeningClaim, ZClaim,
};
use crate::sumcheck::ScatterProof;
use crate::sums::lemma_fsum_congr;

verus! {

/// The part of a proof that the relation's checks read.
#[derive(Clone, Debug)]
pub struct Proof {
    pub scatter: ScatterProof,
    pub sponge_values: Vec<F128>,
    pub record_values: Vec<F128>,
    pub fingerprint: F128,
    pub fragment_values: Vec<F128>,
}

/// Everything that the prover has before the opening.
#[derive(Clone, Debug)]
pub struct Core {
    pub ab: ZClaim,
    pub c: ZClaim,
    pub scatter: ScatterProof,
    pub sponge_values: Vec<F128>,
    pub record_values: Vec<F128>,
    pub fingerprint: F128,
    pub r_fp: Vec<F128>,
    pub points: Vec<Vec<F128>>,
    pub values: Vec<F128>,
}

/// Everything that the verifier has before the opening.
#[derive(Clone, Debug)]
pub struct VerifyCore {
    pub r_fp: Vec<F128>,
    pub ab: ZClaim,
    pub c: ZClaim,
    pub points: Vec<Vec<F128>>,
}

impl Core {
    /// The core is the two reductions put together.
    pub open spec fn joins(
        self,
        circuit: ProverCircuitReduction,
        record: ProverRecordReduction,
    ) -> bool {
        &&& self.ab == circuit.ab
        &&& self.c == circuit.c
        &&& self.scatter == record.scatter
        &&& self.sponge_values == circuit.sponge.originals
        &&& self.record_values == record.record.originals
        &&& self.fingerprint == record.fingerprint
        &&& self.r_fp == record.r_fp
        &&& self.points@ == circuit.sponge.points@ + record.record.points@
        &&& self.values@ == circuit.sponge.values@ + record.record.values@
    }

    /// The core opens both relations on a witness: the sponge's points over
    /// its domain, then the record's.
    pub open spec fn opens(
        self,
        z: Seq<F128>,
        sponge: Seq<Seq<F128>>,
        record: Seq<Seq<F128>>,
    ) -> bool {
        let sponge_groups = relocated(sponge, Relocation::Sponge);
        let record_groups = relocated(record, Relocation::Record);
        &&& self.sponge_values@ == groups_opened(z, sponge_groups)
        &&& self.record_values@ == groups_opened(z, record_groups)
        &&& point_views(self.points@) == fragment_points(flat(sponge_groups + record_groups))
        &&& self.values@ == fragments_opened(z, sponge_groups + record_groups)
    }
}

/// Two reductions of one witness, put together, open what the whole relation
/// opens: splitting a proof changes nothing in it.
pub proof fn split_reductions_open_the_relation(
    core: Core,
    circuit: ProverCircuitReduction,
    record: ProverRecordReduction,
    z: Seq<F128>,
    sponge_points: Seq<Seq<F128>>,
    record_points: Seq<Seq<F128>>,
)
    requires
        core.joins(circuit, record),
        circuit.sponge.opens(z, sponge_points, Relocation::Sponge),
        record.record.opens(z, record_points, Relocation::Record),
    ensures
        core.opens(z, sponge_points, record_points),
{
    let a = relocated(sponge_points, Relocation::Sponge);
    let b = relocated(record_points, Relocation::Record);
    lemma_flat_concat(a, b);
    lemma_opened_concat(z, a, b);
    assert(point_views(core.points@) =~= point_views(circuit.sponge.points@) + point_views(
        record.record.points@,
    ));
    assert(fragment_points(flat(a + b)) =~= fragment_points(flat(a)) + fragment_points(flat(b)));
}

/// The prover's claims on a committed witness: the circuit's two, both
/// relations' openings and their fragments. Nothing where the records' powers
/// degenerate.
pub fn prove_core(
    setup: &Setup,
    z: &[F128],
    ab: ZClaim,
    c: ZClaim,
    delta: F128,
    r: &[F128],
    relation: RecordRelation,
) -> (core: Option<Core>)
    requires
        setup.r1cs.m >= 19,
        covers_domain(z@, setup.r1cs.m as int),
        r@.len() == 11,
        relation.fits(setup.r1cs.m - 19),
    ensures
        ({
            let record_vars = setup.r1cs.m - 19;
            match core {
                Some(core) => {
                    &&& power_sum_defined(delta, record_vars)
                    &&& core.ab == ab
                    &&& core.c == c
                    &&& core.scatter == relation.scatter
                    &&& core.fingerprint == relation.fingerprint
                    &&& core.r_fp == relation.r_fp
                    &&& core.opens(
                        z@,
                        sponge_source(record_vars as nat, delta, r@),
                        relation.source(),
                    )
                },
                None => !power_sum_defined(delta, record_vars),
            }
        }),
{
    let circuit = match prove_circuit_after_root(setup, 0, z, ab, c, delta, r) {
        Some(circuit) => circuit,
        None => {
            return None;
        },
    };
    let record = prove_record(setup, 0, z, relation);
    let core = join(circuit, record);
    proof {
        split_reductions_open_the_relation(
            core,
            circuit,
            record,
            z@,
            sponge_source((setup.r1cs.m - 19) as nat, delta, r@),
            relation.source(),
        );
    }
    Some(core)
}

/// What the verifier's checks give, in order: the circuit's replay, the sponge
/// chain, the record relation's replay, and the fragments.
pub open spec fn verify_outcome(
    circuit: Option<(ZClaim, ZClaim)>,
    publics: Seq<SpongePublic>,
    proof: Proof,
    relation: Result<(Vec<Vec<F128>>, Vec<F128>), &'static str>,
    record_vars: nat,
    delta: F128,
    r: Seq<F128>,
) -> Result<(), Seq<char>> {
    if circuit is None {
        Err("hybrid binary circuit"@)
    } else {
        match chain_outcome(proof.sponge_values@, publics, record_vars, delta, r) {
            Err(message) => Err(message),
            Ok(()) => match relation {
                Err(message) => Err(message@),
                Ok((points, _)) => relocation_outcome(
                    relocated(sponge_source(record_vars, delta, r), Relocation::Sponge)
                        + relocated(point_views(points@), Relocation::Record),
                    proof.fragment_values@,
                    proof.sponge_values@ + proof.record_values@,
                ),
            },
        }
    }
}

/// Check a proof but for its opening. `circuit` is what the constraint
/// system's replay claims, and `relation` what the record relation's replay
/// gives: its points, and the fingerprint's point.
pub fn verify_core(
    record_vars: usize,
    publics: &[SpongePublic],
    proof: &Proof,
    circuit: Option<(ZClaim, ZClaim)>,
    relation: Result<(Vec<Vec<F128>>, Vec<F128>), &'static str>,
    delta: F128,
    r: &[F128],
) -> (result: Result<VerifyCore, &'static str>)
    requires
        publics_fit(publics@),
        pow2(record_vars as nat) <= usize::MAX,
        r@.len() == 11,
        relation matches Ok((points, _)) ==> forall|k: int|
            0 <= k < points@.len() ==> (#[trigger] points@[k])@.len() >= 17,
    ensures
        match verify_outcome(circuit, publics@, *proof, relation, record_vars as nat, delta, r@) {
            Ok(()) => {
                &&& result matches Ok(core)
                &&& relation matches Ok((points, r_fp))
                &&& circuit == Some((core.ab, core.c))
                &&& core.r_fp == r_fp
                &&& point_views(core.points@) == fragment_points(
                    flat(
                        relocated(
                            sponge_source(record_vars as nat, delta, r@),
                            Relocation::Sponge,
                        ) + relocated(point_views(points@), Relocation::Record),
                    ),
                )
            },
            Err(message) => result matches Err(e) && e@ == message,
        },
{
    let (ab, c) = match circuit {
        Some(claims) => claims,
        None => {
            return Err("hybrid binary circuit");
        },
    };
    match check_chain(proof.sponge_values.as_slice(), publics, record_vars, delta, r) {
        Ok(()) => {},
        Err(e) => {
            return Err(e);
        },
    }
    let sponge = match sponge_points(record_vars, delta, r) {
        Some(points) => points,
        None => {
            return Err("degenerate delta");
        },
    };
    let (points, r_fp) = match relation {
        Ok(relation) => relation,
        Err(e) => {
            return Err(e);
        },
    };
    let ghost source = sponge_source(record_vars as nat, delta, r@);
    proof {
        assert forall|k: int| 0 <= k < sponge@.len() implies (#[trigger] sponge@[k])@.len()
            >= 19 by {
            assert(sponge_point_at(record_vars as nat, delta, r@, k).len() == record_vars + 19);
        }
    }
    let mut groups = flatten(sponge.as_slice(), Relocation::Sponge);
    let ghost first = groups@;
    let mut record_groups = flatten(points.as_slice(), Relocation::Record);
    let ghost second = record_groups@;
    groups.append(&mut record_groups);
    let mut originals: Vec<F128> = Vec::new();
    append(&mut originals, proof.sponge_values.as_slice());
    append(&mut originals, proof.record_values.as_slice());
    proof {
        assert(originals@ =~= proof.sponge_values@ + proof.record_values@);
        assert(group_views(first) =~= relocated(source, Relocation::Sponge));
        assert(group_views(second) =~= relocated(point_views(points@), Relocation::Record));
        assert(group_views(groups@) =~= group_views(first) + group_views(second));
    }
    match check_fragments(
        groups.as_slice(),
        proof.fragment_values.as_slice(),
        originals.as_slice(),
    ) {
        Ok(points) => Ok(VerifyCore { r_fp, ab, c, points }),
        Err(e) => Err(e),
    }
}

/// The sponge point `k` selects a live state: its slot coordinates are that
/// state's.
proof fn lemma_point_selects(record_vars: nat, delta: F128, r: Seq<F128>, k: int) -> (selected: (
    int,
    Seq<F128>,
))
    requires
        r.len() == 11,
        0 <= k < 22,
    ensures
        0 <= selected.0 < 20,
        selected.1.len() == 11,
        sponge_point_at(record_vars, delta, r, k) == derived_point(delta, record_vars) + bit_point(
            sponge_cube_of(selected.0).top as int,
            8,
        ) + selected.1,
{
    lemma2_to64();
    let e: int = if k < 10 {
        k
    } else if k < 20 {
        k - 10
    } else {
        0
    };
    let out = 10 <= k < 20;
    let o: int = if out {
        1
    } else {
        0
    };
    let point = sponge_point_at(record_vars, delta, r, k);
    let tail = point.skip(point.len() - 11);
    let state = 2 * e + o;
    assert(state / 2 == e && state % 2 == o);
    let slot = state_slot(e, out);
    lemma_bit_points(e % 4, 2, slot, 6);
    assert(sponge_cube_of(state).top == (e % 4) * 64 + slot);
    assert(point =~= derived_point(delta, record_vars) + (bit_point(e % 4, 2) + bit_point(slot, 6))
        + tail);
    (state, tail)
}

/// Completeness: what the prover opens on a compact witness that holds the
/// records' sponge traces passes every check against the records' public
/// parts, whatever the record relation's points are.
pub proof fn honest_core_verifies(
    h: Honest,
    z: Seq<F128>,
    core: Core,
    claims: Proof,
    circuit: (ZClaim, ZClaim),
    points: Vec<Vec<F128>>,
    r_fp: Vec<F128>,
)
    requires
        h.well_formed(),
        covers_domain(z, h.record_vars as int + 19),
        holds_states(
            leading_bits(z, pow2(h.record_vars + 19)),
            h.z,
            pow2(h.record_vars) as int,
        ),
        core.opens(z, sponge_source(h.record_vars, h.delta, h.r), point_views(points@)),
        claims.sponge_values@ == core.sponge_values@,
        claims.record_values@ == core.record_values@,
        claims.fragment_values@ == core.values@,
    ensures
        verify_outcome(
            Some(circuit),
            h.publics,
            claims,
            Ok((points, r_fp)),
            h.record_vars,
            h.delta,
            h.r,
        ) == Ok::<(), Seq<char>>(()),
{
    lemma2_to64();
    let source = sponge_source(h.record_vars, h.delta, h.r);
    let sponge_groups = relocated(source, Relocation::Sponge);
    let record_groups = relocated(point_views(points@), Relocation::Record);
    let compact = leading_bits(z, pow2(h.record_vars + 19));
    lemma_pow2_adds(h.record_vars, 19);
    let values = claims.sponge_values@;
    assert forall|k: int| 0 <= k < 22 implies #[trigger] values[k] == h.opening(k) by {
        let (state, tail) = lemma_point_selects(h.record_vars, h.delta, h.r, k);
        let coords = derived_point(h.delta, h.record_vars);
        assert(coords.len() == h.record_vars);
        sponge_fragments_reconstruct(h.record_vars, h.z, compact, coords, state, tail);
        let fragments = Relocation::Sponge.fragments(source[k]);
        let f = |i: int| fmul(fragments[i].1, bit_extension(z, fragments[i].0));
        let g = |i: int| fmul(fragments[i].1, mle(bit_table(compact), fragments[i].0));
        assert forall|i: int| 0 <= i < fragments.len() implies #[trigger] f(i) == g(i) by {
            lemma_fragment_vars(Relocation::Sponge, source[k], i);
        }
        lemma_fsum_congr(f, g, fragments.len() as int);
        assert(values[k] == group_opened(z, sponge_groups[k]));
    }
    honest_openings_pass(h, values);
    opened_fragments_agree(z, sponge_groups + record_groups);
    lemma_opened_concat(z, sponge_groups, record_groups);
}

/// The plan, the arity and the challenges with which a list of claims closes
/// its faces.
pub open spec fn closes_with(
    points: Seq<Vec<F128>>,
    values: Seq<F128>,
    families: Seq<Family>,
    vars: int,
    challenges: Seq<F128>,
) -> bool {
    &&& claims_error(points, values) is None
    &&& plans(points, families)
    &&& points.len() > 0 ==> vars == points[0]@.len()
    &&& 7 < vars <= 63
    &&& challenges.len() == challenge_total(families, vars, families.len() as int)
}

/// The claims of the one batched opening are the circuit's two and the closed
/// ones, one per ring switch.
pub open spec fn opens_closed(
    result: Result<Vec<OpeningClaim>, &'static str>,
    ab: ZClaim,
    c: ZClaim,
    closed: Seq<ClosedClaim>,
    ring_switches: int,
) -> bool {
    match result {
        Ok(claims) => {
            &&& ring_switches == closed.len() + 2
            &&& claims@.len() == closed.len() + 2
            &&& opens_quirky(claims@[0], ab)
            &&& opens_quirky(claims@[1], c)
            &&& forall|i: int|
                0 <= i < closed.len() ==> #[trigger] opens_multilinear(
                    claims@[2 + i],
                    closed[i].point@,
                    closed[i].value,
                )
        },
        Err(e) => ring_switches != closed.len() + 2 && e@ == "hybrid opening shape"@,
    }
}

/// The claims of the one batched opening.
fn opening_claims(
    ab: &ZClaim,
    c: &ZClaim,
    closed: &[ClosedClaim],
    ring_switches: usize,
) -> (result: Result<Vec<OpeningClaim>, &'static str>)
    requires
        forall|i: int| 0 <= i < closed@.len() ==> (#[trigger] closed@[i]).point@.len() > 7,
    ensures
        opens_closed(result, *ab, *c, closed@, ring_switches as int),
{
    let mut claims: Vec<OpeningClaim> = Vec::new();
    claims.push(open_quirky(ab));
    claims.push(open_quirky(c));
    let mut i: usize = 0;
    while i < closed.len()
        invariant
            forall|i: int| 0 <= i < closed@.len() ==> (#[trigger] closed@[i]).point@.len() > 7,
            i <= closed@.len(),
            claims@.len() == i + 2,
            opens_quirky(claims@[0], *ab),
            opens_quirky(claims@[1], *c),
            forall|k: int|
                0 <= k < i ==> #[trigger] opens_multilinear(
                    claims@[2 + k],
                    closed@[k].point@,
                    closed@[k].value,
                ),
        decreases closed@.len() - i,
    {
        assert(closed@[i as int].point@.len() > 7);
        let claim = open_multilinear(closed[i].point.as_slice(), closed[i].value);
        let ghost before = claims@;
        claims.push(claim);
        proof {
            assert forall|k: int| 0 <= k < i + 1 implies #[trigger] opens_multilinear(
                claims@[2 + k],
                closed@[k].point@,
                closed@[k].value,
            ) by {
                if k < i {
                    assert(claims@[2 + k] == before[2 + k]);
                }
            }
        }
        i = i + 1;
    }
    if ring_switches != claims.len() {
        return Err("hybrid opening shape");
    }
    Ok(claims)
}


/// The closed claims' points have the claims' arity.
proof fn lemma_closed_arity(
    closed: Seq<ClosedClaim>,
    points: Seq<Vec<F128>>,
    values: Seq<F128>,
    families: Seq<Family>,
    vars: int,
    challenges: Seq<F128>,
)
    requires
        closes_with(points, values, families, vars, challenges),
        closes_all(closed, points, values, families, challenges, vars),
    ensures
        forall|i: int| 0 <= i < closed.len() ==> (#[trigger] closed[i]).point@.len() == vars,
{
    assert forall|i: int| 0 <= i < closed.len() implies (#[trigger] closed[i]).point@.len()
        == vars by {
        let k = lemma_face_of(families, families.len() as int, i);
        let j = i - faces_before(families, k);
        let cube = families[k].cubes@[j];
        assert(closed[faces_before(families, k) + j] == closed[i]);
        let rep = families[k].representative as int;
        assert(points[rep]@.len() == points[0]@.len());
    }
}

/// The family that face `i` of a plan belongs to.
proof fn lemma_face_of(families: Seq<Family>, n: int, i: int) -> (k: int)
    requires
        0 <= n <= families.len(),
        0 <= i < faces_before(families, n),
    ensures
        0 <= k < n,
        faces_before(families, k) <= i < faces_before(families, k) + families[k].cubes@.len(),
    decreases n,
{
    if n > 0 && i < faces_before(families, n - 1) {
        lemma_face_of(families, n - 1, i)
    } else {
        n - 1
    }
}

/// The verifier's claims for the one batched opening: the circuit's two, then
/// one per closed face. The challenges are sampled once the fragments are
/// bound.
pub fn verify_open(
    core: &VerifyCore,
    values: &[F128],
    families: &Vec<Family>,
    vars: usize,
    challenges: &[F128],
    ring_switches: usize,
) -> (result: Result<Vec<OpeningClaim>, &'static str>)
    requires
        closes_with(core.points@, values@, families@, vars as int, challenges@),
    ensures
        exists|closed: Seq<ClosedClaim>|
            {
                &&& #[trigger] closes_all(
                    closed,
                    core.points@,
                    values@,
                    families@,
                    challenges@,
                    vars as int,
                )
                &&& opens_closed(result, core.ab, core.c, closed, ring_switches as int)
            },
{
    let closed = close_faces(core.points.as_slice(), values, families, vars, challenges);
    proof {
        lemma_closed_arity(
            closed@,
            core.points@,
            values@,
            families@,
            vars as int,
            challenges@,
        );
    }
    opening_claims(&core.ab, &core.c, closed.as_slice(), ring_switches)
}

/// The prover's side of the opening: the outer coordinates of every claim in
/// order, and the folded rows of the circuit's two.
pub fn open(
    core: &Core,
    families: &Vec<Family>,
    vars: usize,
    challenges: &[F128],
    rows_ab: Option<Vec<F128>>,
    rows_c: Vec<F128>,
) -> (opened: (Vec<Vec<F128>>, Vec<Option<Vec<F128>>>))
    requires
        closes_with(core.points@, core.values@, families@, vars as int, challenges@),
    ensures
        opened.0@[0]@ == core.ab.point.x_inner_rest@ + core.ab.point.x_outer@,
        opened.0@[1]@ == core.c.point.x_inner_rest@ + core.c.point.x_outer@,
        exists|closed: Seq<ClosedClaim>|
            {
                &&& #[trigger] closes_all(
                    closed,
                    core.points@,
                    core.values@,
                    families@,
                    challenges@,
                    vars as int,
                )
                &&& opened.0@.len() == closed.len() + 2
                &&& forall|i: int|
                    2 <= i < opened.0@.len() ==> (#[trigger] opened.0@[i])@ == outer_part(
                        closed[i - 2].point@,
                    )
            },
        opened.1@.len() == opened.0@.len(),
        opened.1@[0] == rows_ab,
        opened.1@[1] == Some(rows_c),
        forall|i: int| 2 <= i < opened.1@.len() ==> (#[trigger] opened.1@[i]) is None,
{
    let closed = close_faces(
        core.points.as_slice(),
        core.values.as_slice(),
        families,
        vars,
        challenges,
    );
    proof {
        lemma_closed_arity(
            closed@,
            core.points@,
            core.values@,
            families@,
            vars as int,
            challenges@,
        );
    }
    let ghost all = closed@;
    let mut points: Vec<Vec<F128>> = Vec::new();
    let mut i: usize = 0;
    while i < closed.len()
        invariant
            all == closed@,
            i <= closed@.len(),
            points@.len() == i,
            forall|k: int| 0 <= k < i ==> (#[trigger] points@[k])@ == closed@[k].point@,
        decreases closed@.len() - i,
    {
        points.push(copy_table(closed[i].point.as_slice()));
        i = i + 1;
    }
    let none: Vec<Vec<F128>> = Vec::new();
    proof {
        assert forall|k: int| 0 <= k < points@.len() implies (#[trigger] points@[k])@.len()
            > 7 by {
            assert(closed@[k].point@.len() == vars);
        }
        assert(points@ + none@ =~= points@);
    }
    let opened = open_sponge(
        &core.ab,
        &core.c,
        rows_ab,
        rows_c,
        points.as_slice(),
        none.as_slice(),
    );
    proof {
        assert forall|k: int| 2 <= k < opened.0@.len() implies (#[trigger] opened.0@[k])@
            == outer_part(all[k - 2].point@) by {
            assert((points@ + none@)[k - 2] == points@[k - 2]);
        }
        assert(closes_all(
            all,
            core.points@,
            core.values@,
            families@,
            challenges@,
            vars as int,
        ));
    }
    opened
}

} // verus!
