//! The sponge's lane of a proof: what its witness is made from, the openings it
//! claims, and the list of its batched opening.
use vstd::arithmetic::power2::pow2;
use vstd::prelude::*;

use crate::field::F128;
use crate::hash_to_point_scatter::power_sum::power_sum_defined;
use crate::hash_to_point_sponge::chaining::{
    chain_outcome, check_chain, publics_fit, sponge_point_at, sponge_points,
};
use crate::hash_to_point_sponge::gather::{bit_extension, covers_point, gather_eval_many};
use crate::hash_to_point_sponge::{
    absorb, frame_block, slot_state, sponge_initial_states, sponge_trace, squeeze_state, state_word,
    trace_squeezes, trace_state, zero_state, SpongePublic, SpongeRecord, SpongeSetup,
};
use crate::keccak::{permutation, State};
use crate::prover::{
    open_multilinear, open_quirky, opens_multilinear, opens_quirky, outer_part, quirky_x_outer_full,
    OpeningClaim, ZClaim,
};

verus! {

/// What the lane's witness is made from: the input states of every permutation,
/// and every record's squeezed words.
#[derive(Clone, Debug)]
pub struct SpongeInputs {
    pub states: Vec<State>,
    pub words: Vec<Vec<u16>>,
}

/// Permutation `e` of a record, or the zero state of a pad position.
pub open spec fn record_state(record: SpongeRecord, e: int) -> Seq<bool> {
    if e < 10 {
        trace_state(record.frame(), e)
    } else {
        zero_state()
    }
}

/// Trace every record of a batch.
pub fn sponge_inputs(setup: &SpongeSetup, records: &[SpongeRecord]) -> (inputs: SpongeInputs)
    requires
        records@.len() == setup.records,
        12 * records@.len() <= usize::MAX,
        forall|i: int| 0 <= i < records@.len() ==> (#[trigger] records@[i]).fits(),
    ensures
        inputs.states@.len() == 12 * records@.len(),
        forall|rec: int, blk: int, sub: int|
            #![trigger inputs.states@[3 * (4 * rec + blk) + sub]]
            0 <= rec < records@.len() && 0 <= blk < 4 && 0 <= sub < 3 ==> inputs.states@[3 * (4
                * rec + blk) + sub]@ == record_state(records@[rec], 4 * sub + blk),
        inputs.words@.len() == records@.len(),
        forall|rec: int|
            0 <= rec < records@.len() ==> (#[trigger] inputs.words@[rec])@.len() == 612,
        forall|rec: int, q: int, w: int|
            #![trigger inputs.words@[rec]@[68 * q + w]]
            0 <= rec < records@.len() && 0 <= q < 9 && 0 <= w < 68 ==> inputs.words@[rec]@[68 * q
                + w] == state_word(squeeze_state(records@[rec].frame(), q), w),
{
    let mut traces: Vec<[State; 10]> = Vec::new();
    let mut words: Vec<Vec<u16>> = Vec::new();
    let mut i: usize = 0;
    while i < records.len()
        invariant
            i <= records@.len(),
            forall|i: int| 0 <= i < records@.len() ==> (#[trigger] records@[i]).fits(),
            traces@.len() == i,
            words@.len() == i,
            forall|rec: int, e: int|
                #![trigger traces@[rec]@[e]]
                0 <= rec < i && 0 <= e < 10 ==> traces@[rec]@[e]@ == trace_state(
                    records@[rec].frame(),
                    e,
                ),
            forall|rec: int| 0 <= rec < i ==> (#[trigger] words@[rec])@.len() == 612,
            forall|rec: int, q: int, w: int|
                #![trigger words@[rec]@[68 * q + w]]
                0 <= rec < i && 0 <= q < 9 && 0 <= w < 68 ==> words@[rec]@[68 * q + w]
                    == state_word(squeeze_state(records@[rec].frame(), q), w),
        decreases records@.len() - i,
    {
        assert(records@[i as int].fits());
        let (states, squeezed) = sponge_trace(&records[i]);
        traces.push(states);
        words.push(squeezed);
        i = i + 1;
    }
    let states = sponge_initial_states(traces.as_slice());
    proof {
        assert forall|rec: int, blk: int, sub: int|
            #![trigger states@[3 * (4 * rec + blk) + sub]]
            0 <= rec < records@.len() && 0 <= blk < 4 && 0 <= sub < 3 implies states@[3 * (4 * rec
            + blk) + sub]@ == record_state(records@[rec], 4 * sub + blk) by {
            let e = 4 * sub + blk;
            assert(states@[3 * (4 * rec + blk) + sub]@ == slot_state(traces@[rec]@, e));
            if e < 10 {
                assert(traces@[rec]@[e]@ == trace_state(records@[rec].frame(), e));
            }
        }
    }
    SpongeInputs { states, words }
}

/// The lane's openings of the packed witness: the points and their values, or
/// nothing where the records' powers degenerate.
pub fn prove_sponge_core(
    record_vars: usize,
    z_packed: &[F128],
    delta: F128,
    r: &[F128],
) -> (claims: Option<(Vec<Vec<F128>>, Vec<F128>)>)
    requires
        r@.len() == 11,
        pow2((record_vars + 19) as nat) <= usize::MAX,
        128 * z_packed@.len() >= pow2((record_vars + 19) as nat),
    ensures
        match claims {
            Some((points, values)) => {
                &&& power_sum_defined(delta, record_vars as int)
                &&& points@.len() == 22
                &&& values@.len() == 22
                &&& forall|k: int|
                    0 <= k < 22 ==> (#[trigger] points@[k])@ == sponge_point_at(
                        record_vars as nat,
                        delta,
                        r@,
                        k,
                    )
                &&& forall|k: int|
                    0 <= k < 22 ==> #[trigger] values@[k] == bit_extension(
                        z_packed@,
                        sponge_point_at(record_vars as nat, delta, r@, k),
                    )
            },
            None => !power_sum_defined(delta, record_vars as int),
        },
{
    let points = match sponge_points(record_vars, delta, r) {
        Some(points) => points,
        None => {
            return None;
        },
    };
    proof {
        assert forall|k: int| 0 <= k < points@.len() implies covers_point(
            z_packed@,
            (#[trigger] points@[k])@,
        ) by {
            lemma_point_length(record_vars as nat, delta, r@, k);
        }
    }
    let values = gather_eval_many(z_packed, points.as_slice());
    Some((points, values))
}

/// Every point of the lane has the witness's variables.
proof fn lemma_point_length(record_vars: nat, delta: F128, r: Seq<F128>, k: int)
    requires
        r.len() == 11,
        0 <= k < 22,
    ensures
        sponge_point_at(record_vars, delta, r, k).len() == record_vars + 19,
{
}

/// The circuit's two claims and the lane's opening points, ready for the
/// batched opening.
#[derive(Clone, Debug)]
pub struct SpongeVerifyCore {
    pub ab: ZClaim,
    pub c: ZClaim,
    pub points: Vec<Vec<F128>>,
}

/// What the lane's checks give: the circuit's claims come first, where its
/// replay succeeded.
pub open spec fn core_outcome(
    circuit: Option<(ZClaim, ZClaim)>,
    values: Seq<F128>,
    publics: Seq<SpongePublic>,
    record_vars: nat,
    delta: F128,
    r: Seq<F128>,
) -> Result<(), Seq<char>> {
    if circuit is None {
        Err("keccak R1CS verification failed"@)
    } else {
        chain_outcome(values, publics, record_vars, delta, r)
    }
}

/// Check the lane's claimed openings against the public inputs, and list their
/// points. `circuit` is what the constraint system's replay claims.
pub fn verify_sponge_core(
    setup: &SpongeSetup,
    publics: &[SpongePublic],
    circuit: Option<(ZClaim, ZClaim)>,
    values: &[F128],
    delta: F128,
    r: &[F128],
) -> (result: Result<SpongeVerifyCore, &'static str>)
    requires
        setup.well_formed(),
        publics@.len() == setup.records,
        publics_fit(publics@),
        r@.len() == 11,
    ensures
        ({
            let record_vars = (setup.n_blocks_log - 2) as nat;
            match core_outcome(circuit, values@, publics@, record_vars, delta, r@) {
                Ok(()) => {
                    &&& result matches Ok(core)
                    &&& circuit == Some((core.ab, core.c))
                    &&& core.points@.len() == 22
                    &&& forall|k: int|
                        0 <= k < 22 ==> (#[trigger] core.points@[k])@ == sponge_point_at(
                            record_vars,
                            delta,
                            r@,
                            k,
                        )
                },
                Err(message) => result matches Err(e) && e@ == message,
            }
        }),
{
    let (ab, c) = match circuit {
        Some(claims) => claims,
        None => {
            return Err("keccak R1CS verification failed");
        },
    };
    let record_vars: usize = setup.n_blocks_log - 2;
    match check_chain(values, publics, record_vars, delta, r) {
        Ok(()) => {},
        Err(e) => {
            return Err(e);
        },
    }
    match sponge_points(record_vars, delta, r) {
        Some(points) => Ok(SpongeVerifyCore { ab, c, points }),
        None => Err("degenerate delta"),
    }
}

/// Claim `2 + i` is that of the lane's point `i`, or of the extra point past
/// them.
pub open spec fn claim_at(
    claims: Seq<OpeningClaim>,
    points: Seq<Vec<F128>>,
    values: Seq<F128>,
    extra_points: Seq<Vec<F128>>,
    extra_values: Seq<F128>,
    i: int,
) -> bool {
    if i < points.len() {
        opens_multilinear(claims[2 + i], points[i]@, values[i])
    } else {
        opens_multilinear(
            claims[2 + i],
            extra_points[i - points.len()]@,
            extra_values[i - points.len()],
        )
    }
}

/// The claims of a lane's batched opening: the circuit's two, the lane's own,
/// and the extra ones that other arguments left to it.
pub fn verify_sponge_open(
    core: &SpongeVerifyCore,
    values: &[F128],
    extra_points: &[Vec<F128>],
    extra_values: &[F128],
) -> (result: Result<Vec<OpeningClaim>, &'static str>)
    requires
        core.points@.len() == values@.len(),
        forall|i: int| 0 <= i < core.points@.len() ==> (#[trigger] core.points@[i])@.len() > 7,
        forall|i: int| 0 <= i < extra_points@.len() ==> (#[trigger] extra_points@[i])@.len() > 7,
    ensures
        match result {
            Ok(claims) => {
                &&& extra_points@.len() == extra_values@.len()
                &&& claims@.len() == 2 + core.points@.len() + extra_points@.len()
                &&& opens_quirky(claims@[0], core.ab)
                &&& opens_quirky(claims@[1], core.c)
                &&& forall|i: int|
                    0 <= i < core.points@.len() + extra_points@.len() ==> #[trigger] claim_at(
                        claims@,
                        core.points@,
                        values@,
                        extra_points@,
                        extra_values@,
                        i,
                    )
            },
            Err(e) => extra_points@.len() != extra_values@.len() && e@
                == "extra claim points and values disagree"@,
        },
{
    if extra_points.len() != extra_values.len() {
        return Err("extra claim points and values disagree");
    }
    let mut claims: Vec<OpeningClaim> = Vec::new();
    claims.push(open_quirky(&core.ab));
    claims.push(open_quirky(&core.c));
    let mut i: usize = 0;
    while i < core.points.len()
        invariant
            core.points@.len() == values@.len(),
            forall|i: int| 0 <= i < core.points@.len() ==> (#[trigger] core.points@[i])@.len() > 7,
            i <= core.points@.len(),
            claims@.len() == 2 + i,
            opens_quirky(claims@[0], core.ab),
            opens_quirky(claims@[1], core.c),
            forall|k: int|
                0 <= k < i ==> #[trigger] claim_at(
                    claims@,
                    core.points@,
                    values@,
                    extra_points@,
                    extra_values@,
                    k,
                ),
        decreases core.points@.len() - i,
    {
        assert(core.points@[i as int]@.len() > 7);
        let ghost before = claims@;
        claims.push(open_multilinear(core.points[i].as_slice(), values[i]));
        proof {
            lemma_claims_kept(before, claims@, core.points@, values@, extra_points@, extra_values@);
        }
        i = i + 1;
    }
    let mut j: usize = 0;
    while j < extra_points.len()
        invariant
            extra_points@.len() == extra_values@.len(),
            forall|i: int|
                0 <= i < extra_points@.len() ==> (#[trigger] extra_points@[i])@.len() > 7,
            j <= extra_points@.len(),
            claims@.len() == 2 + core.points@.len() + j,
            opens_quirky(claims@[0], core.ab),
            opens_quirky(claims@[1], core.c),
            forall|k: int|
                0 <= k < core.points@.len() + j ==> #[trigger] claim_at(
                    claims@,
                    core.points@,
                    values@,
                    extra_points@,
                    extra_values@,
                    k,
                ),
        decreases extra_points@.len() - j,
    {
        assert(extra_points@[j as int]@.len() > 7);
        let ghost before = claims@;
        claims.push(open_multilinear(extra_points[j].as_slice(), extra_values[j]));
        proof {
            lemma_claims_kept(before, claims@, core.points@, values@, extra_points@, extra_values@);
        }
        j = j + 1;
    }
    Ok(claims)
}

/// The lane on its own: its checks, then the claims of its opening.
pub fn verify_sponge(
    setup: &SpongeSetup,
    publics: &[SpongePublic],
    circuit: Option<(ZClaim, ZClaim)>,
    values: &[F128],
    delta: F128,
    r: &[F128],
) -> (result: Result<Vec<OpeningClaim>, &'static str>)
    requires
        setup.well_formed(),
        publics@.len() == setup.records,
        publics_fit(publics@),
        r@.len() == 11,
    ensures
        ({
            let record_vars = (setup.n_blocks_log - 2) as nat;
            match core_outcome(circuit, values@, publics@, record_vars, delta, r@) {
                Ok(()) => {
                    &&& result matches Ok(claims)
                    &&& circuit matches Some((ab, c))
                    &&& claims@.len() == 24
                    &&& opens_quirky(claims@[0], ab)
                    &&& opens_quirky(claims@[1], c)
                    &&& forall|k: int|
                        0 <= k < 22 ==> opens_multilinear(
                            #[trigger] claims@[2 + k],
                            sponge_point_at(record_vars, delta, r@, k),
                            values@[k],
                        )
                },
                Err(message) => result matches Err(e) && e@ == message,
            }
        }),
{
    let core = match verify_sponge_core(setup, publics, circuit, values, delta, r) {
        Ok(core) => core,
        Err(e) => {
            return Err(e);
        },
    };
    let no_points: Vec<Vec<F128>> = Vec::new();
    let no_values: Vec<F128> = Vec::new();
    let ghost record_vars = (setup.n_blocks_log - 2) as nat;
    proof {
        assert forall|i: int| 0 <= i < core.points@.len() implies (
        #[trigger] core.points@[i])@.len() > 7 by {
            lemma_point_length(record_vars, delta, r@, i);
        }
    }
    let opened = verify_sponge_open(&core, values, no_points.as_slice(), no_values.as_slice());
    proof {
        if let Ok(ref claims) = opened {
            assert forall|k: int| 0 <= k < 22 implies opens_multilinear(
                #[trigger] claims@[2 + k],
                sponge_point_at(record_vars, delta, r@, k),
                values@[k],
            ) by {
                assert(claim_at(claims@, core.points@, values@, no_points@, no_values@, k));
            }
        }
    }
    opened
}

/// A pushed claim keeps the earlier ones.
proof fn lemma_claims_kept(
    before: Seq<OpeningClaim>,
    after: Seq<OpeningClaim>,
    points: Seq<Vec<F128>>,
    values: Seq<F128>,
    extra_points: Seq<Vec<F128>>,
    extra_values: Seq<F128>,
)
    requires
        before.len() >= 2,
        after.len() == before.len() + 1,
        forall|i: int| 0 <= i < before.len() ==> #[trigger] after[i] == before[i],
    ensures
        forall|k: int|
            0 <= k < before.len() - 2 && claim_at(
                before,
                points,
                values,
                extra_points,
                extra_values,
                k,
            ) ==> #[trigger] claim_at(after, points, values, extra_points, extra_values, k),
{
    assert forall|k: int|
        0 <= k < before.len() - 2 && claim_at(
            before,
            points,
            values,
            extra_points,
            extra_values,
            k,
        ) implies #[trigger] claim_at(after, points, values, extra_points, extra_values, k) by {
        assert(after[2 + k] == before[2 + k]);
    }
}

/// The prover's side of a lane's batched opening: the outer coordinates of
/// every claim in order, and the folded rows of the circuit's two.
pub fn open_sponge(
    ab: &ZClaim,
    c: &ZClaim,
    rows_ab: Option<Vec<F128>>,
    rows_c: Vec<F128>,
    points: &[Vec<F128>],
    extra_points: &[Vec<F128>],
) -> (opened: (Vec<Vec<F128>>, Vec<Option<Vec<F128>>>))
    requires
        forall|i: int| 0 <= i < points@.len() ==> (#[trigger] points@[i])@.len() > 7,
        forall|i: int| 0 <= i < extra_points@.len() ==> (#[trigger] extra_points@[i])@.len() > 7,
    ensures
        opened.0@.len() == 2 + points@.len() + extra_points@.len(),
        opened.0@[0]@ == ab.point.x_inner_rest@ + ab.point.x_outer@,
        opened.0@[1]@ == c.point.x_inner_rest@ + c.point.x_outer@,
        forall|i: int|
            2 <= i < opened.0@.len() ==> (#[trigger] opened.0@[i])@ == outer_part(
                (points@ + extra_points@)[i - 2]@,
            ),
        opened.1@.len() == opened.0@.len(),
        opened.1@[0] == rows_ab,
        opened.1@[1] == Some(rows_c),
        forall|i: int| 2 <= i < opened.1@.len() ==> (#[trigger] opened.1@[i]) is None,
{
    let mut x_fulls: Vec<Vec<F128>> = Vec::new();
    let mut rows: Vec<Option<Vec<F128>>> = Vec::new();
    x_fulls.push(quirky_x_outer_full(&ab.point));
    x_fulls.push(quirky_x_outer_full(&c.point));
    rows.push(rows_ab);
    rows.push(Some(rows_c));
    push_outer(&mut x_fulls, &mut rows, points);
    let ghost (before, before_rows) = (x_fulls@, rows@);
    push_outer(&mut x_fulls, &mut rows, extra_points);
    proof {
        assert forall|i: int| 2 <= i < x_fulls@.len() implies (#[trigger] x_fulls@[i])@
            == outer_part((points@ + extra_points@)[i - 2]@) by {
            if i < before.len() {
                assert(x_fulls@[i] == before[i]);
            }
        }
        assert(rows@[0] == before_rows[0] && rows@[1] == before_rows[1]);
    }
    (x_fulls, rows)
}

/// Append the outer coordinates of every point, with no rows known.
fn push_outer(x_fulls: &mut Vec<Vec<F128>>, rows: &mut Vec<Option<Vec<F128>>>, points: &[Vec<F128>])
    requires
        old(x_fulls)@.len() == old(rows)@.len(),
        forall|i: int| 0 <= i < points@.len() ==> (#[trigger] points@[i])@.len() > 7,
    ensures
        final(x_fulls)@.len() == old(x_fulls)@.len() + points@.len(),
        final(rows)@.len() == final(x_fulls)@.len(),
        forall|i: int|
            0 <= i < old(x_fulls)@.len() ==> #[trigger] final(x_fulls)@[i] == old(x_fulls)@[i],
        forall|i: int| 0 <= i < old(rows)@.len() ==> #[trigger] final(rows)@[i] == old(rows)@[i],
        forall|i: int|
            old(x_fulls)@.len() <= i < final(x_fulls)@.len() ==> (#[trigger] final(x_fulls)@[i])@
                == outer_part(points@[i - old(x_fulls)@.len()]@),
        forall|i: int|
            old(rows)@.len() <= i < final(rows)@.len() ==> (#[trigger] final(rows)@[i]) is None,
{
    let ghost (start, start_rows) = (x_fulls@, rows@);
    let mut k: usize = 0;
    while k < points.len()
        invariant
            start.len() == start_rows.len(),
            forall|i: int| 0 <= i < points@.len() ==> (#[trigger] points@[i])@.len() > 7,
            k <= points@.len(),
            x_fulls@.len() == start.len() + k,
            rows@.len() == x_fulls@.len(),
            forall|i: int| 0 <= i < start.len() ==> #[trigger] x_fulls@[i] == start[i],
            forall|i: int| 0 <= i < start_rows.len() ==> #[trigger] rows@[i] == start_rows[i],
            forall|i: int|
                start.len() <= i < x_fulls@.len() ==> (#[trigger] x_fulls@[i])@ == outer_part(
                    points@[i - start.len()]@,
                ),
            forall|i: int| start_rows.len() <= i < rows@.len() ==> (#[trigger] rows@[i]) is None,
        decreases points@.len() - k,
    {
        assert(points@[k as int]@.len() > 7);
        let opened = open_multilinear(points[k].as_slice(), F128::zero());
        x_fulls.push(opened.x_full);
        rows.push(None);
        k = k + 1;
    }
}

/// The permutations of a record run its sponge: the first takes the first block
/// on zeros, the second the second block on what the first gave, each later one
/// what the one before it gave, and the pad positions take zeros. What a
/// permutation from the second on gives is a squeezed state.
pub proof fn states_run_the_sponge(record: SpongeRecord, e: int)
    requires
        record.fits(),
        0 <= e,
    ensures
        record_state(record, 0) == absorb(zero_state(), frame_block(record.frame(), 0)),
        record_state(record, 1) == absorb(
            permutation(record_state(record, 0)),
            frame_block(record.frame(), 1),
        ),
        2 <= e < 10 ==> record_state(record, e) == permutation(record_state(record, e - 1)),
        1 <= e < 10 ==> permutation(record_state(record, e)) == squeeze_state(
            record.frame(),
            e - 1,
        ),
        e >= 10 ==> record_state(record, e) == Seq::new(1600, |j: int| false),
{
    if 1 <= e < 10 {
        trace_squeezes(record.frame(), e - 1);
    }
}

} // verus!
