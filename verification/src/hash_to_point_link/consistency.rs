//! The masked fingerprint of the dense region: per repetition a public tag
//! `gamma * fingerprint + mask` over values that one opening carries.
use vstd::arithmetic::power2::{lemma2_to64, lemma_pow2_adds, lemma_pow2_pos, pow2};
use vstd::prelude::*;

use crate::carry_gate::packed_round::lemma_fold_parts;
use crate::field::{fadd, fmul, fzero, lemma_fmul_comm, F128};
use crate::frobenius::x_element;
use crate::hash_to_point_hybrid::point_views;
use crate::hash_to_point_link::linkage::{lemma_bit_segment, lemma_last_segment, table_of};
use crate::hash_to_point_link::{lemma_power_sum_defined, push_bits};
use crate::hash_to_point_scatter::power_sum::{derived_point, derived_scale, power_sum_point};
use crate::hash_to_point_slots::relation::{block_holds, slot_row_holds, wire_at};
use crate::hash_to_point_slots::PLANE;
use crate::hash_to_point_sponge::chaining::bit_point;
use crate::hash_to_point_sponge::gather::{bit_extension, covers_point, gather_eval_many};
use crate::mle::{
    eq_weight, fold_all, lemma_fold_all_concat, lemma_mle_combination, lemma_mle_is_weighted_sum,
    mle,
};
use crate::prover::append;
use crate::sums::{fpow, fsum, lemma_fsum_congr};

verus! {

/// The plane of the masks: the last one before the dense region, which no wire
/// class of the slot block uses. The block's rows leave it empty, so a block that
/// meets them carries zero masks.
pub const MASK_PLANE: usize = 111;

/// Repetitions of the consistency check.
pub const MASK_REPS: usize = 2;

/// Live coordinates of a dense output.
pub const COORDINATES: usize = 15;

/// The point of coordinate `c` of the dense region at `r`: the records, the
/// region's top bits, the outputs, and the coordinate's bits.
pub open spec fn zh_point(record_vars: int, r: Seq<F128>, c: int) -> Seq<F128> {
    r.take(record_vars) + (bit_point(14, 4) + (r.skip(record_vars) + bit_point(c, 4)))
}

/// The fifteen points of the dense region at `r`.
pub fn zh_fingerprint_points(record_vars: usize, r: &[F128]) -> (points: Vec<Vec<F128>>)
    requires
        r@.len() == record_vars + 9,
    ensures
        point_views(points@) == Seq::new(15, |c: int| zh_point(record_vars as int, r@, c)),
{
    let mut points: Vec<Vec<F128>> = Vec::with_capacity(16);
    let ghost target = Seq::new(15, |c: int| zh_point(record_vars as int, r@, c));
    let mut c: usize = 0;
    assert(point_views(points@) =~= target.take(0));
    while c < COORDINATES
        invariant
            r@.len() == record_vars + 9,
            target == Seq::new(15, |c: int| zh_point(record_vars as int, r@, c)),
            c <= 15,
            point_views(points@) == target.take(c as int),
        decreases 15 - c,
    {
        let mut point: Vec<F128> = Vec::new();
        let mut i: usize = 0;
        while i < record_vars
            invariant
                record_vars <= r@.len(),
                i <= record_vars,
                point@ == r@.take(i as int),
            decreases record_vars - i,
        {
            point.push(r[i]);
            i = i + 1;
            assert(point@ =~= r@.take(i as int));
        }
        push_bits(&mut point, 14, 4, 0);
        let ghost head = point@;
        let mut j: usize = record_vars;
        while j < r.len()
            invariant
                record_vars <= j <= r@.len(),
                point@ == head + r@.subrange(record_vars as int, j as int),
            decreases r@.len() - j,
        {
            point.push(r[j]);
            j = j + 1;
            assert(point@ =~= head + r@.subrange(record_vars as int, j as int));
        }
        push_bits(&mut point, c, 4, 0);
        proof {
            lemma2_to64();
            assert(14int / 1 == 14 && c as int / 1 == c);
            assert(point@ =~= zh_point(record_vars as int, r@, c as int));
        }
        let ghost before = points@;
        points.push(point);
        assert(point_views(points@) =~= point_views(before).push(target[c as int]));
        c = c + 1;
        assert(point_views(points@) =~= target.take(c as int));
    }
    assert(target.take(15) =~= target);
    points
}

/// The fingerprint of the coordinates' values.
pub open spec fn fingerprint(values: Seq<F128>) -> F128 {
    fsum(|c: int| fmul(fpow(x_element(), c), values[c]), 15)
}

/// The fingerprint: each coordinate's value under its power of `x`.
pub fn zh_fingerprint_value(values: &[F128]) -> (value: F128)
    requires
        values@.len() >= 15,
    ensures
        value == fingerprint(values@),
{
    let x = F128 { lo: 2, hi: 0 };
    let mut sum = F128::zero();
    let mut power = F128::one();
    let ghost term = |c: int| fmul(fpow(x_element(), c), values@[c]);
    let mut c: usize = 0;
    while c < 15
        invariant
            values@.len() >= 15,
            x == x_element(),
            c <= 15,
            power == fpow(x_element(), c as int),
            term == (|c: int| fmul(fpow(x_element(), c), values@[c])),
            sum == fsum(term, c as int),
        decreases 15 - c,
    {
        sum = sum + power * values[c];
        proof {
            lemma_fmul_comm(power, x);
        }
        power = power * x;
        c = c + 1;
    }
    sum
}

/// The point of the masks of repetition `rep`: the first record, the mask
/// plane, the repetition's 128 slots, and powers of `x` over them.
pub open spec fn mask_point(record_vars: int, rep: int) -> Seq<F128> {
    Seq::new(record_vars as nat, |i: int| fzero()) + (bit_point(MASK_PLANE as int, 7) + (bit_point(rep, 3)
        + derived_point(x_element(), 7)))
}

/// The point of a repetition's mask, and its scale.
pub fn mask_claim_point(record_vars: usize, rep: usize) -> (claim: (Vec<F128>, F128))
    requires
        rep < 8,
    ensures
        claim.0@ == mask_point(record_vars as int, rep as int),
        claim.1 == derived_scale(x_element(), 7),
{
    let mut point: Vec<F128> = Vec::new();
    while point.len() < record_vars
        invariant
            point@.len() <= record_vars,
            forall|i: int| 0 <= i < point@.len() ==> #[trigger] point@[i] == fzero(),
        decreases record_vars - point@.len(),
    {
        point.push(F128::zero());
    }
    let ghost zeros = point@;
    push_bits(&mut point, MASK_PLANE, 7, 0);
    push_bits(&mut point, rep, 3, 0);
    proof {
        lemma_power_sum_defined(x_element(), 7);
    }
    match power_sum_point(F128 { lo: 2, hi: 0 }, 7) {
        Some((tail, scale)) => {
            append(&mut point, tail.as_slice());
            proof {
                lemma2_to64();
                assert(111int / 1 == 111 && rep as int / 1 == rep);
                assert(zeros =~= Seq::new(record_vars as nat, |i: int| fzero()));
                assert(point@ =~= mask_point(record_vars as int, rep as int));
            }
            (point, scale)
        },
        None => {
            assert(false);
            (point, F128::one())
        },
    }
}

/// The claimed values of every repetition and the public tags.
#[derive(Clone, Debug)]
pub struct ConsistencyProof {
    pub values: Vec<Vec<F128>>,
    pub tags: Vec<F128>,
}

/// The sixteen points of a repetition: the dense region's, then the mask's.
pub open spec fn rep_points(record_vars: int, r: Seq<F128>, rep: int) -> Seq<Seq<F128>> {
    Seq::new(15, |c: int| zh_point(record_vars, r, c)).push(mask_point(record_vars, rep))
}

/// The tag of a repetition's values.
pub open spec fn tag_of(gamma: F128, values: Seq<F128>) -> F128 {
    fadd(fmul(gamma, fingerprint(values)), fmul(derived_scale(x_element(), 7), values[15]))
}

/// The points of the first repetitions.
pub open spec fn all_points(
    record_vars: int,
    challenges: Seq<(Vec<F128>, F128)>,
    n: int,
) -> Seq<Seq<F128>>
    decreases n,
{
    if n <= 0 {
        seq![]
    } else {
        all_points(record_vars, challenges, n - 1) + rep_points(
            record_vars,
            challenges[n - 1].0@,
            n - 1,
        )
    }
}

/// The values of the first repetitions.
pub open spec fn all_values(values: Seq<Vec<F128>>, n: int) -> Seq<F128>
    decreases n,
{
    if n <= 0 {
        seq![]
    } else {
        all_values(values, n - 1) + values[n - 1]@
    }
}

/// The points of one repetition.
fn points_of_rep(record_vars: usize, r: &[F128], rep: usize) -> (points: Vec<Vec<F128>>)
    requires
        r@.len() == record_vars + 9,
        rep < 8,
    ensures
        point_views(points@) == rep_points(record_vars as int, r@, rep as int),
{
    let mut points = zh_fingerprint_points(record_vars, r);
    let (mask, _scale) = mask_claim_point(record_vars, rep);
    let ghost before = points@;
    points.push(mask);
    assert(point_views(points@) =~= rep_points(record_vars as int, r@, rep as int));
    points
}

/// Open every repetition's points and tag its values.
pub fn prove_consistency_with(
    record_vars: usize,
    z_packed: &[F128],
    challenges: &[(Vec<F128>, F128)],
) -> (proved: (ConsistencyProof, Vec<Vec<F128>>))
    requires
        challenges@.len() <= 8,
        forall|rep: int|
            0 <= rep < challenges@.len() ==> (#[trigger] challenges@[rep]).0@.len() == record_vars
                + 9,
        pow2((record_vars + 17) as nat) <= usize::MAX,
        128 * z_packed@.len() >= pow2((record_vars + 17) as nat),
    ensures
        point_views(proved.1@) == all_points(
            record_vars as int,
            challenges@,
            challenges@.len() as int,
        ),
        proved.0.values@.len() == challenges@.len(),
        proved.0.tags@.len() == challenges@.len(),
        forall|rep: int|
            0 <= rep < challenges@.len() ==> (#[trigger] proved.0.values@[rep])@ == Seq::new(
                16,
                |i: int|
                    bit_extension(
                        z_packed@,
                        rep_points(record_vars as int, challenges@[rep].0@, rep)[i],
                    ),
            ),
        forall|rep: int|
            0 <= rep < challenges@.len() ==> #[trigger] proved.0.tags@[rep] == tag_of(
                challenges@[rep].1,
                proved.0.values@[rep]@,
            ),
{
    let mut points: Vec<Vec<F128>> = Vec::new();
    let mut values: Vec<Vec<F128>> = Vec::new();
    let mut tags: Vec<F128> = Vec::new();
    let mut rep: usize = 0;
    assert(point_views(points@) =~= all_points(record_vars as int, challenges@, 0));
    while rep < challenges.len()
        invariant
            challenges@.len() <= 8,
            forall|k: int|
                0 <= k < challenges@.len() ==> (#[trigger] challenges@[k]).0@.len() == record_vars
                    + 9,
            pow2((record_vars + 17) as nat) <= usize::MAX,
            128 * z_packed@.len() >= pow2((record_vars + 17) as nat),
            rep <= challenges@.len(),
            point_views(points@) == all_points(record_vars as int, challenges@, rep as int),
            values@.len() == rep,
            tags@.len() == rep,
            forall|k: int|
                0 <= k < rep ==> (#[trigger] values@[k])@ == Seq::new(
                    16,
                    |i: int|
                        bit_extension(
                            z_packed@,
                            rep_points(record_vars as int, challenges@[k].0@, k)[i],
                        ),
                ),
            forall|k: int|
                0 <= k < rep ==> #[trigger] tags@[k] == tag_of(challenges@[k].1, values@[k]@),
        decreases challenges@.len() - rep,
    {
        let (r, gamma) = &challenges[rep];
        assert(challenges@[rep as int].0@.len() == record_vars + 9);
        let mut part = points_of_rep(record_vars, r.as_slice(), rep);
        let ghost target = rep_points(record_vars as int, r@, rep as int);
        proof {
            assert(point_views(part@).len() == part@.len());
            assert forall|k: int| 0 <= k < part@.len() implies covers_point(
                z_packed@,
                (#[trigger] part@[k])@,
            ) by {
                assert(point_views(part@)[k] == target[k]);
                if k == 15 {
                    assert(target[k] == mask_point(record_vars as int, rep as int));
                } else {
                    assert(target[k] == zh_point(record_vars as int, r@, k));
                }
                assert(target[k].len() == record_vars + 17);
            }
        }
        let rep_values = gather_eval_many(z_packed, part.as_slice());
        proof {
            assert forall|i: int| 0 <= i < 16 implies #[trigger] rep_values@[i] == bit_extension(
                z_packed@,
                target[i],
            ) by {
                assert(point_views(part@)[i] == target[i]);
            }
            assert(rep_values@ =~= Seq::new(16, |i: int| bit_extension(z_packed@, target[i])));
        }
        let v = zh_fingerprint_value(rep_values.as_slice());
        let (_point, scale) = mask_claim_point(record_vars, rep);
        tags.push(*gamma * v + scale * rep_values[15]);
        let ghost (before, added) = (points@, part@);
        points.append(&mut part);
        assert(point_views(points@) =~= point_views(before) + point_views(added));
        let ghost old_values = values@;
        values.push(rep_values);
        proof {
            assert forall|k: int| 0 <= k < rep + 1 implies (#[trigger] values@[k])@ == Seq::new(
                16,
                |i: int|
                    bit_extension(
                        z_packed@,
                        rep_points(record_vars as int, challenges@[k].0@, k)[i],
                    ),
            ) by {
                if k < rep {
                    assert(values@[k] == old_values[k]);
                }
            }
        }
        rep = rep + 1;
        assert(point_views(points@) =~= all_points(record_vars as int, challenges@, rep as int));
    }
    (ConsistencyProof { values, tags }, points)
}

/// How a proof fails at repetition `rep`: a wrong number of values, or a tag
/// that is not that of its values.
pub open spec fn rep_fails(
    proof: ConsistencyProof,
    challenges: Seq<(Vec<F128>, F128)>,
    rep: int,
) -> bool {
    proof.values@[rep]@.len() != 16 || proof.tags@[rep] != tag_of(
        challenges[rep].1,
        proof.values@[rep]@,
    )
}

/// Check every repetition's tag, and list the points and the values of the
/// opening.
pub fn verify_consistency_with(
    record_vars: usize,
    proof: &ConsistencyProof,
    challenges: &[(Vec<F128>, F128)],
) -> (result: Result<(Vec<Vec<F128>>, Vec<F128>), &'static str>)
    requires
        challenges@.len() == MASK_REPS,
        forall|rep: int|
            0 <= rep < challenges@.len() ==> (#[trigger] challenges@[rep]).0@.len() == record_vars
                + 9,
    ensures
        ({
            let counted = proof.values@.len() == MASK_REPS && proof.tags@.len() == MASK_REPS;
            match result {
                Ok((points, values)) => {
                    &&& counted
                    &&& forall|rep: int|
                        0 <= rep < MASK_REPS ==> !#[trigger] rep_fails(*proof, challenges@, rep)
                    &&& point_views(points@) == all_points(
                        record_vars as int,
                        challenges@,
                        MASK_REPS as int,
                    )
                    &&& values@ == all_values(proof.values@, MASK_REPS as int)
                },
                Err(e) => if !counted {
                    e@ == "wrong consistency repetition count"@
                } else {
                    exists|rep: int|
                        {
                            &&& 0 <= rep < MASK_REPS
                            &&& #[trigger] rep_fails(*proof, challenges@, rep)
                            &&& forall|k: int|
                                0 <= k < rep ==> !#[trigger] rep_fails(*proof, challenges@, k)
                            &&& if proof.values@[rep]@.len() != 16 {
                                e@ == "wrong consistency claim count"@
                            } else {
                                e@ == "a consistency tag equation does not hold"@
                            }
                        }
                },
            }
        }),
{
    if proof.values.len() != MASK_REPS || proof.tags.len() != MASK_REPS {
        return Err("wrong consistency repetition count");
    }
    let mut points: Vec<Vec<F128>> = Vec::new();
    let mut flat_values: Vec<F128> = Vec::new();
    let mut rep: usize = 0;
    assert(point_views(points@) =~= all_points(record_vars as int, challenges@, 0));
    while rep < challenges.len()
        invariant
            challenges@.len() == MASK_REPS,
            forall|k: int|
                0 <= k < challenges@.len() ==> (#[trigger] challenges@[k]).0@.len() == record_vars
                    + 9,
            proof.values@.len() == MASK_REPS,
            proof.tags@.len() == MASK_REPS,
            rep <= challenges@.len(),
            forall|k: int| 0 <= k < rep ==> !#[trigger] rep_fails(*proof, challenges@, k),
            point_views(points@) == all_points(record_vars as int, challenges@, rep as int),
            flat_values@ == all_values(proof.values@, rep as int),
        decreases challenges@.len() - rep,
    {
        let (r, gamma) = &challenges[rep];
        assert(challenges@[rep as int].0@.len() == record_vars + 9);
        let rep_values = &proof.values[rep];
        if rep_values.len() != 16 {
            assert(rep_fails(*proof, challenges@, rep as int));
            return Err("wrong consistency claim count");
        }
        let (_point, scale) = mask_claim_point(record_vars, rep);
        let v = zh_fingerprint_value(rep_values.as_slice());
        if proof.tags[rep] != *gamma * v + scale * rep_values[15] {
            assert(rep_fails(*proof, challenges@, rep as int));
            return Err("a consistency tag equation does not hold");
        }
        assert(!rep_fails(*proof, challenges@, rep as int));
        let mut part = points_of_rep(record_vars, r.as_slice(), rep);
        let ghost (before, added) = (points@, part@);
        points.append(&mut part);
        assert(point_views(points@) =~= point_views(before) + point_views(added));
        append(&mut flat_values, rep_values.as_slice());
        rep = rep + 1;
        assert(point_views(points@) =~= all_points(record_vars as int, challenges@, rep as int));
        assert(flat_values@ =~= all_values(proof.values@, rep as int));
    }
    Ok((points, flat_values))
}

// ---------------------------------------------------------------------------
// What the tags bind.
// ---------------------------------------------------------------------------

/// Coordinate `c` of every output of the dense regions.
pub open spec fn coordinate_table(table: Seq<F128>, record_vars: nat, c: int) -> Seq<F128> {
    Seq::new(
        pow2(record_vars + 9),
        |i: int| table[(i / 512) * 131072 + (114688 + 16 * (i % 512) + c)],
    )
}

/// Every output of the dense regions, packed under powers of `x`.
pub open spec fn leaf_table(table: Seq<F128>, record_vars: nat) -> Seq<F128> {
    Seq::new(
        pow2(record_vars + 9),
        |i: int|
            fsum(
                |c: int|
                    fmul(
                        fpow(x_element(), c),
                        table[(i / 512) * 131072 + (114688 + 16 * (i % 512) + c)],
                    ),
                15,
            ),
    )
}

/// One coordinate's opening is the extension of that coordinate's table.
proof fn lemma_coordinate(table: Seq<F128>, record_vars: nat, r: Seq<F128>, c: int)
    requires
        table.len() == pow2(record_vars) * 131072,
        r.len() == record_vars + 9,
        0 <= c < 16,
    ensures
        mle(table, zh_point(record_vars as int, r, c)) == mle(
            coordinate_table(table, record_vars, c),
            r,
        ),
{
    lemma2_to64();
    let a = r.take(record_vars as int);
    let l = r.skip(record_vars as int);
    assert(r =~= a + l);
    let tail = l + bit_point(c, 4);
    let rest = bit_point(14, 4) + tail;
    lemma_fold_all_concat(table, a, rest);
    lemma_fold_parts(table, a, 131072, 0);
    let u = fold_all(table, a);
    let f = |i: int| u[i];
    assert(u =~= table_of(f, 17));
    assert(tail.len() == 13);
    lemma_bit_segment(f, 14, 4, tail);
    let g = |i: int| f(14 * pow2(tail.len()) + i);
    let low = table_of(g, 13);
    lemma_fold_all_concat(low, l, bit_point(c, 4));
    lemma_fold_parts(low, l, 16, c);
    let w = fold_all(low, l);
    let h = |i: int| w[i];
    assert(w =~= table_of(h, 4));
    let none: Seq<F128> = seq![];
    assert(bit_point(c, 4) + none =~= bit_point(c, 4));
    lemma_bit_segment(h, c, 4, none);
    assert(mle(w, bit_point(c, 4)) == w[c]) by {
        let single = table_of(|i: int| h(c * pow2(none.len()) + i), 0);
        assert(c * pow2(none.len()) + 0 == c) by (nonlinear_arith)
            requires
                pow2(none.len()) == 1,
        ;
        assert(single[0] == w[c]);
    }
    // The same sums over the coordinate's table.
    let leaves = coordinate_table(table, record_vars, c);
    lemma_pow2_adds(record_vars, 9);
    lemma_fold_all_concat(leaves, a, l);
    lemma_fold_parts(leaves, a, 512, 0);
    let v = fold_all(leaves, a);
    lemma_mle_is_weighted_sum(v, l);
    let x = |leaf: int| fmul(eq_weight(l, leaf), low[leaf * 16 + c]);
    let y = |leaf: int| fmul(v[leaf], eq_weight(l, leaf));
    assert forall|leaf: int| 0 <= leaf < 512 implies #[trigger] x(leaf) == y(leaf) by {
        let at = 114688 + (leaf * 16 + c);
        assert(14 * pow2(tail.len()) == 114688) by (nonlinear_arith)
            requires
                pow2(tail.len()) == 8192,
        ;
        assert(low[leaf * 16 + c] == u[at]);
        lemma_fold_parts(table, a, 131072, at);
        lemma_fold_parts(leaves, a, 512, leaf);
        let p = |rec: int| fmul(eq_weight(a, rec), table[rec * 131072 + at]);
        let q = |rec: int| fmul(eq_weight(a, rec), leaves[rec * 512 + leaf]);
        assert forall|rec: int| 0 <= rec < pow2(record_vars) implies #[trigger] p(rec) == q(
            rec,
        ) by {
            let i = rec * 512 + leaf;
            assert(i / 512 == rec && i % 512 == leaf);
            assert(0 <= i < pow2(record_vars) * 512);
            assert(leaves[i] == table[rec * 131072 + (114688 + 16 * leaf + c)]);
        }
        lemma_fsum_congr(p, q, pow2(record_vars) as int);
        lemma_fmul_comm(eq_weight(l, leaf), v[leaf]);
    }
    lemma_fsum_congr(x, y, 512);
    assert(pow2(l.len()) == 512);
}

/// The fingerprint of the dense region's openings is the extension, at the
/// same point, of its outputs packed under powers of `x`.
pub proof fn fingerprint_is_the_packed_extension(
    table: Seq<F128>,
    record_vars: nat,
    r: Seq<F128>,
)
    requires
        table.len() == pow2(record_vars) * 131072,
        r.len() == record_vars + 9,
    ensures
        fingerprint(Seq::new(15, |c: int| mle(table, zh_point(record_vars as int, r, c)))) == mle(
            leaf_table(table, record_vars),
            r,
        ),
{
    let coefficient = |c: int| fpow(x_element(), c);
    let tables = |c: int| coordinate_table(table, record_vars, c);
    lemma_mle_combination(coefficient, tables, 15, r);
    let combined = Seq::new(
        pow2(r.len()),
        |i: int| fsum(|c: int| fmul(coefficient(c), tables(c)[i]), 15),
    );
    let leaves = leaf_table(table, record_vars);
    assert forall|i: int| 0 <= i < combined.len() implies combined[i] == leaves[i] by {
        lemma_fsum_congr(
            |c: int| fmul(coefficient(c), tables(c)[i]),
            |c: int|
                fmul(
                    fpow(x_element(), c),
                    table[(i / 512) * 131072 + (114688 + 16 * (i % 512) + c)],
                ),
            15,
        );
    }
    assert(combined =~= leaves);
    let values = Seq::new(15, |c: int| mle(table, zh_point(record_vars as int, r, c)));
    let x = |c: int| fmul(fpow(x_element(), c), values[c]);
    let y = |c: int| fmul(coefficient(c), mle(tables(c), r));
    assert forall|c: int| 0 <= c < 15 implies #[trigger] x(c) == y(c) by {
        lemma_coordinate(table, record_vars, r, c);
    }
    lemma_fsum_congr(x, y, 15);
}

/// The scaled mask opening is the mask's bits under powers of `x`: the 128
/// slots of the repetition in the mask plane of the first record.
pub proof fn mask_opening_is_the_mask(table: Seq<F128>, record_vars: nat, rep: int)
    requires
        table.len() == pow2(record_vars) * 131072,
        0 <= rep < 8,
    ensures
        fmul(derived_scale(x_element(), 7), mle(table, mask_point(record_vars as int, rep)))
            == fsum(
            |h: int| fmul(
                fpow(x_element(), h),
                table[wire_at(MASK_PLANE as int, 128 * rep + h)],
            ),
            128,
        ),
{
    lemma2_to64();
    lemma_power_sum_defined(x_element(), 7);
    let tail = derived_point(x_element(), 7);
    let r2 = bit_point(rep, 3) + tail;
    let r1 = bit_point(MASK_PLANE as int, 7) + r2;
    assert(r2.len() == 10 && r1.len() == 17);
    let zeros = Seq::new(record_vars, |i: int| fzero());
    lemma_pow2_pos(record_vars);
    assert(zeros =~= bit_point(0, record_vars)) by {
        assert forall|i: int| 0 <= i < record_vars implies zeros[i] == bit_point(
            0,
            record_vars,
        )[i] by {
            lemma_pow2_pos((record_vars - 1 - i) as nat);
            assert(0int / pow2((record_vars - 1 - i) as nat) as int == 0) by {
                vstd::arithmetic::div_mod::lemma_div_of0(pow2((record_vars - 1 - i) as nat) as int);
            }
        }
    }
    lemma_pow2_adds(record_vars, 17);
    let f0 = |i: int| table[i];
    assert(table =~= table_of(f0, record_vars + 17));
    lemma_bit_segment(f0, 0, record_vars, r1);
    let f1 = |i: int| f0(0 * pow2(r1.len()) + i);
    lemma_bit_segment(f1, MASK_PLANE as int, 7, r2);
    let f2 = |i: int| f1(111 * pow2(r2.len()) + i);
    lemma_bit_segment(f2, rep, 3, tail);
    let f3 = |i: int| f2(rep * pow2(tail.len()) + i);
    lemma_last_segment(f3, x_element(), 7);
    let a = |j: int| fmul(fpow(x_element(), j), f3(j));
    let b = |h: int| fmul(fpow(x_element(), h), table[wire_at(MASK_PLANE as int, 128 * rep + h)]);
    assert forall|h: int| 0 <= h < 128 implies #[trigger] a(h) == b(h) by {
        assert(0 * pow2(r1.len()) + (111 * pow2(r2.len()) + (rep * pow2(tail.len()) + h)) == 113664
            + 128 * rep + h) by (nonlinear_arith)
            requires
                pow2(r2.len()) == 1024,
                pow2(tail.len()) == 128,
        ;
    }
    lemma_fsum_congr(a, b, 128);
    assert(mask_point(record_vars as int, rep) =~= bit_point(0, record_vars) + r1);
}

/// The mask plane is vacant in the slot block: a block whose rows hold has a zero
/// there, in every repetition.
pub proof fn held_blocks_have_zero_masks(block: Seq<bool>, rep: int, h: int)
    requires
        block_holds(block),
        0 <= rep < MASK_REPS,
        0 <= h < 128,
    ensures
        !block[wire_at(MASK_PLANE as int, 128 * rep + h)],
{
    let w = wire_at(MASK_PLANE as int, 128 * rep + h);
    assert(w / PLANE as int == MASK_PLANE);
    assert(slot_row_holds(block, w));
}

} // verus!
