//! What the ledgers bind: transcripts of ledgers that are alike come from the
//! same claims, points, weights and values.
use vstd::prelude::*;
use vstd::string::*;

use crate::bytes::{le_bytes, le_value, numbers_are_read_back};
use crate::field::F128;
use crate::hash_to_point_hybrid::reductions::{
    circuit_observed, fragment_observed, fragments_observed, groups_observed, quirky_observed,
    record_observed, CommitmentParams, RelationLedger,
};
use crate::hash_to_point_hybrid::{group_start, lemma_flat_take, point_views};
use crate::prover::ZClaim;
use crate::transcript::{count_observed, Observed};

verus! {

/// A count is read back from its observation.
proof fn lemma_count(n: int, m: int)
    requires
        0 <= n <= usize::MAX,
        0 <= m <= usize::MAX,
        count_observed(n) == count_observed(m),
    ensures
        n == m,
{
    assert(vstd::arithmetic::power::pow(256, 8) == 0x1_0000_0000_0000_0000) by {
        reveal_with_fuel(vstd::arithmetic::power::pow, 9);
    }
    numbers_are_read_back(n, 8);
    numbers_are_read_back(m, 8);
    assert(le_value(le_bytes(n, 8)) == le_value(le_bytes(m, 8)));
}

/// Quirky claims whose transcripts are alike are the same: the univariate
/// coordinate, every multilinear one and the value.
pub proof fn quirky_claims_are_bound(one: ZClaim, other: ZClaim)
    requires
        quirky_observed(one) == quirky_observed(other),
    ensures
        one.point.z_skip == other.point.z_skip,
        one.point.x_inner_rest@ == other.point.x_inner_rest@,
        one.point.x_outer@ == other.point.x_outer@,
        one.value == other.value,
        quirky_observed(one).len() == 7,
{
    let (l, r) = (quirky_observed(one), quirky_observed(other));
    assert(l[1] == Observed::Element(one.point.z_skip));
    assert(r[1] == Observed::Element(other.point.z_skip));
    assert(l[3] == Observed::Elements(one.point.x_inner_rest@));
    assert(r[3] == Observed::Elements(other.point.x_inner_rest@));
    assert(l[5] == Observed::Elements(one.point.x_outer@));
    assert(r[5] == Observed::Elements(other.point.x_outer@));
    assert(l[6] == Observed::Element(one.value));
    assert(r[6] == Observed::Element(other.value));
}

proof fn lemma_fragments_len(
    group: Seq<(Seq<F128>, F128)>,
    values: Seq<F128>,
    from: int,
    n: int,
)
    requires
        0 <= n,
    ensures
        fragments_observed(group, values, from, n).len() == 4 * n,
    decreases n,
{
    if n > 0 {
        lemma_fragments_len(group, values, from, n - 1);
    }
}

/// Fragments that are observed alike are the same, with the same values.
proof fn lemma_fragments_bound(
    group: Seq<(Seq<F128>, F128)>,
    values: Seq<F128>,
    other: Seq<(Seq<F128>, F128)>,
    others: Seq<F128>,
    from: int,
    n: int,
)
    requires
        0 <= n,
        fragments_observed(group, values, from, n) == fragments_observed(
            other,
            others,
            from,
            n,
        ),
    ensures
        forall|i: int|
            0 <= i < n ==> (#[trigger] group[i]) == other[i] && values[from + i] == others[from
                + i],
    decreases n,
{
    if n > 0 {
        let l = fragments_observed(group, values, from, n);
        let r = fragments_observed(other, others, from, n);
        let (a, b) = (
            fragments_observed(group, values, from, n - 1),
            fragments_observed(other, others, from, n - 1),
        );
        lemma_fragments_len(group, values, from, n - 1);
        lemma_fragments_len(other, others, from, n - 1);
        assert(l.take(4 * (n - 1)) =~= a);
        assert(r.take(4 * (n - 1)) =~= b);
        lemma_fragments_bound(group, values, other, others, from, n - 1);
        let (f, g) = (
            fragment_observed(group[n - 1], values[from + n - 1]),
            fragment_observed(other[n - 1], others[from + n - 1]),
        );
        assert(l.skip(4 * (n - 1)) =~= f);
        assert(r.skip(4 * (n - 1)) =~= g);
        assert(f[1] == Observed::Elements(group[n - 1].0));
        assert(g[1] == Observed::Elements(other[n - 1].0));
        assert(f[2] == Observed::Element(group[n - 1].1));
        assert(g[2] == Observed::Element(other[n - 1].1));
        assert(f[3] == Observed::Element(values[from + n - 1]));
        assert(g[3] == Observed::Element(others[from + n - 1]));
    }
}

/// What the first openings add is the beginning of what more of them add.
proof fn lemma_groups_prefix(
    points: Seq<Seq<F128>>,
    groups: Seq<Seq<(Seq<F128>, F128)>>,
    originals: Seq<F128>,
    values: Seq<F128>,
    k: int,
    n: int,
)
    requires
        0 <= k <= n,
    ensures
        ({
            let part = groups_observed(points, groups, originals, values, k);
            let all = groups_observed(points, groups, originals, values, n);
            part.len() <= all.len() && all.take(part.len() as int) == part
        }),
    decreases n,
{
    let part = groups_observed(points, groups, originals, values, k);
    let all = groups_observed(points, groups, originals, values, n);
    if k < n {
        lemma_groups_prefix(points, groups, originals, values, k, n - 1);
        let before = groups_observed(points, groups, originals, values, n - 1);
        assert(all.take(before.len() as int) =~= before);
        assert(all.take(part.len() as int) =~= before.take(part.len() as int));
    } else {
        assert(all.take(part.len() as int) =~= part);
    }
}

/// Opening `g` of two lists that are observed alike, where those before it
/// agree.
proof fn lemma_group_bound(
    points: (Seq<Seq<F128>>, Seq<Seq<F128>>),
    groups: (Seq<Seq<(Seq<F128>, F128)>>, Seq<Seq<(Seq<F128>, F128)>>),
    originals: (Seq<F128>, Seq<F128>),
    values: (Seq<F128>, Seq<F128>),
    g: int,
    n: int,
)
    requires
        0 <= g < n,
        groups.0[g].len() <= usize::MAX,
        groups.1[g].len() <= usize::MAX,
        group_start(groups.0, g) == group_start(groups.1, g),
        groups_observed(points.0, groups.0, originals.0, values.0, g) == groups_observed(
            points.1,
            groups.1,
            originals.1,
            values.1,
            g,
        ),
        groups_observed(points.0, groups.0, originals.0, values.0, n) == groups_observed(
            points.1,
            groups.1,
            originals.1,
            values.1,
            n,
        ),
    ensures
        points.0[g] == points.1[g],
        originals.0[g] == originals.1[g],
        groups.0[g] == groups.1[g],
        forall|i: int|
            0 <= i < groups.0[g].len() ==> #[trigger] values.0[group_start(groups.0, g) + i]
                == values.1[group_start(groups.0, g) + i],
        groups_observed(points.0, groups.0, originals.0, values.0, g + 1) == groups_observed(
            points.1,
            groups.1,
            originals.1,
            values.1,
            g + 1,
        ),
{
    let a = groups_observed(points.0, groups.0, originals.0, values.0, g);
    let (x, y) = (
        groups_observed(points.0, groups.0, originals.0, values.0, g + 1),
        groups_observed(points.1, groups.1, originals.1, values.1, g + 1),
    );
    let all = groups_observed(points.0, groups.0, originals.0, values.0, n);
    lemma_groups_prefix(points.0, groups.0, originals.0, values.0, g + 1, n);
    lemma_groups_prefix(points.1, groups.1, originals.1, values.1, g + 1, n);
    let from = group_start(groups.0, g);
    let (p, q) = (groups.0[g].len() as int, groups.1[g].len() as int);
    lemma_fragments_len(groups.0[g], values.0, from, p);
    lemma_fragments_len(groups.1[g], values.1, from, q);
    let at = a.len() as int;
    assert(x.len() == at + 4 + 4 * p && y.len() == at + 4 + 4 * q);
    assert forall|i: int| at <= i < at + 4 implies #[trigger] x[i] == y[i] by {
        assert(all.take(x.len() as int)[i] == all[i]);
        assert(all.take(y.len() as int)[i] == all[i]);
    }
    assert(x[at + 1] == Observed::Elements(points.0[g]));
    assert(y[at + 1] == Observed::Elements(points.1[g]));
    assert(x[at + 2] == Observed::Element(originals.0[g]));
    assert(y[at + 2] == Observed::Element(originals.1[g]));
    assert(x[at + 3] == count_observed(p));
    assert(y[at + 3] == count_observed(q));
    assert(x[at + 3] == y[at + 3]);
    assert(x[at + 1] == y[at + 1] && x[at + 2] == y[at + 2]);
    lemma_count(p, q);
    assert(x == y);
    assert(x.skip(at + 4) =~= fragments_observed(groups.0[g], values.0, from, p));
    assert(y.skip(at + 4) =~= fragments_observed(groups.1[g], values.1, from, p));
    lemma_fragments_bound(groups.0[g], values.0, groups.1[g], values.1, from, p);
    assert(groups.0[g] =~= groups.1[g]);
    assert forall|i: int| 0 <= i < p implies #[trigger] values.0[from + i] == values.1[from
        + i] by {
        assert(groups.0[g][i] == groups.1[g][i]);
    }
}

/// The first openings of two lists that are observed alike.
proof fn lemma_groups_bound(
    points: (Seq<Seq<F128>>, Seq<Seq<F128>>),
    groups: (Seq<Seq<(Seq<F128>, F128)>>, Seq<Seq<(Seq<F128>, F128)>>),
    originals: (Seq<F128>, Seq<F128>),
    values: (Seq<F128>, Seq<F128>),
    k: int,
    n: int,
)
    requires
        0 <= k <= n,
        n == groups.0.len(),
        n == groups.1.len(),
        forall|g: int| 0 <= g < n ==> (#[trigger] groups.0[g]).len() <= usize::MAX,
        forall|g: int| 0 <= g < n ==> (#[trigger] groups.1[g]).len() <= usize::MAX,
        groups_observed(points.0, groups.0, originals.0, values.0, n) == groups_observed(
            points.1,
            groups.1,
            originals.1,
            values.1,
            n,
        ),
    ensures
        groups_observed(points.0, groups.0, originals.0, values.0, k) == groups_observed(
            points.1,
            groups.1,
            originals.1,
            values.1,
            k,
        ),
        groups.0.take(k) == groups.1.take(k),
        forall|g: int|
            0 <= g < k ==> (#[trigger] points.0[g]) == points.1[g] && originals.0[g]
                == originals.1[g],
        forall|i: int|
            0 <= i < group_start(groups.0, k) ==> #[trigger] values.0[i] == values.1[i],
    decreases k,
{
    if k > 0 {
        let g = k - 1;
        lemma_groups_bound(points, groups, originals, values, g, n);
        assert(groups.0[g].len() <= usize::MAX && groups.1[g].len() <= usize::MAX);
        lemma_group_bound(points, groups, originals, values, g, n);
        assert(groups.0.take(k) =~= groups.0.take(g).push(groups.0[g]));
        assert(groups.1.take(k) =~= groups.1.take(g).push(groups.1[g]));
        lemma_flat_take(groups.0, g);
        let from = group_start(groups.0, g);
        assert forall|i: int| 0 <= i < group_start(groups.0, k) implies #[trigger] values.0[i]
            == values.1[i] by {
            if i >= from {
                assert(values.0[from + (i - from)] == values.1[from + (i - from)]);
            }
        }
    } else {
        assert(groups.0.take(0) =~= groups.1.take(0));
    }
}

/// Ledgers whose transcripts are alike are the same: every point, every claimed
/// opening, every fragment's point and weight, and every fragment's value, each
/// in its place.
pub proof fn ledgers_are_bound(one: RelationLedger, other: RelationLedger)
    requires
        one.well_formed(),
        other.well_formed(),
        one.observed() == other.observed(),
    ensures
        point_views(one.source_points@) == point_views(other.source_points@),
        one.originals@ == other.originals@,
        one.views() == other.views(),
        one.values@ == other.values@,
{
    let (l, r) = (one.observed(), other.observed());
    assert(l[1] == count_observed(one.source_points@.len() as int));
    assert(r[1] == count_observed(other.source_points@.len() as int));
    lemma_vec_len(one.source_points);
    lemma_vec_len(other.source_points);
    lemma_count(one.source_points@.len() as int, other.source_points@.len() as int);
    let n = one.source_points@.len() as int;
    let points = (point_views(one.source_points@), point_views(other.source_points@));
    let groups = (one.views(), other.views());
    let originals = (one.originals@, other.originals@);
    let values = (one.values@, other.values@);
    assert(l.skip(3) =~= groups_observed(points.0, groups.0, originals.0, values.0, n));
    assert(r.skip(3) =~= groups_observed(points.1, groups.1, originals.1, values.1, n));
    assert forall|g: int| 0 <= g < n implies (#[trigger] groups.0[g]).len() <= usize::MAX by {
        lemma_vec_len(one.groups@[g]);
    }
    assert forall|g: int| 0 <= g < n implies (#[trigger] groups.1[g]).len() <= usize::MAX by {
        lemma_vec_len(other.groups@[g]);
    }
    lemma_groups_bound(points, groups, originals, values, n, n);
    assert(groups.0.take(n) =~= groups.0 && groups.1.take(n) =~= groups.1);
    assert(points.0 =~= points.1);
    assert(originals.0 =~= originals.1) by {
        assert forall|g: int| 0 <= g < n implies originals.0[g] == originals.1[g] by {
            assert(points.0[g] == points.1[g]);
        }
    }
    assert(values.0 =~= values.1);
}

proof fn lemma_vec_len<T>(v: Vec<T>)
    ensures
        v@.len() <= usize::MAX,
{
    assert(v.len() == v@.len());
}

/// Circuits' ledgers that are alike have the same two claims and the same
/// openings of the sponge.
pub proof fn circuit_ledgers_are_bound(
    ab: ZClaim,
    c: ZClaim,
    sponge: RelationLedger,
    other_ab: ZClaim,
    other_c: ZClaim,
    other: RelationLedger,
)
    requires
        circuit_observed(ab, c, sponge) == circuit_observed(other_ab, other_c, other),
    ensures
        quirky_observed(ab) == quirky_observed(other_ab),
        quirky_observed(c) == quirky_observed(other_c),
        sponge.observed() == other.observed(),
        ab.value == other_ab.value,
        c.value == other_c.value,
{
    let l = circuit_observed(ab, c, sponge);
    let r = circuit_observed(other_ab, other_c, other);
    assert(l.subrange(2, 9) =~= quirky_observed(ab));
    assert(r.subrange(2, 9) =~= quirky_observed(other_ab));
    assert(l.subrange(9, 16) =~= quirky_observed(c));
    assert(r.subrange(9, 16) =~= quirky_observed(other_c));
    assert(l.skip(16) =~= sponge.observed());
    assert(r.skip(16) =~= other.observed());
    quirky_claims_are_bound(ab, other_ab);
    quirky_claims_are_bound(c, other_c);
}

/// Records' ledgers that are alike have the same fingerprint at the same point
/// and the same openings.
pub proof fn record_ledgers_are_bound(
    record: RelationLedger,
    r_fp: Seq<F128>,
    fingerprint: F128,
    other: RelationLedger,
    other_fp: Seq<F128>,
    other_fingerprint: F128,
)
    requires
        record_observed(record, r_fp, fingerprint) == record_observed(
            other,
            other_fp,
            other_fingerprint,
        ),
    ensures
        r_fp == other_fp,
        fingerprint == other_fingerprint,
        record.observed() == other.observed(),
{
    let l = record_observed(record, r_fp, fingerprint);
    let r = record_observed(other, other_fp, other_fingerprint);
    assert(l[2] == Observed::Elements(r_fp));
    assert(r[2] == Observed::Elements(other_fp));
    assert(l[3] == Observed::Element(fingerprint));
    assert(r[3] == Observed::Element(other_fingerprint));
    assert(l.skip(4) =~= record.observed());
    assert(r.skip(4) =~= other.observed());
}

/// Commitments whose parameters are observed alike have the same sizes, the same
/// profile's name and the same tree's hash.
pub proof fn commitments_are_bound(one: CommitmentParams, other: CommitmentParams)
    requires
        one.observed() == other.observed(),
    ensures
        one.m == other.m,
        one.log_inv_rate == other.log_inv_rate,
        one.log_batch_size == other.log_batch_size,
        one.profile.label().spec_bytes() == other.profile.label().spec_bytes(),
        one.merkle_hash@ == other.merkle_hash@,
{
    let (l, r) = (one.observed(), other.observed());
    assert(l[0] == count_observed(one.m as int) && r[0] == count_observed(other.m as int));
    assert(l[1] == count_observed(one.log_inv_rate as int));
    assert(r[1] == count_observed(other.log_inv_rate as int));
    assert(l[2] == count_observed(one.log_batch_size as int));
    assert(r[2] == count_observed(other.log_batch_size as int));
    lemma_count(one.m as int, other.m as int);
    lemma_count(one.log_inv_rate as int, other.log_inv_rate as int);
    lemma_count(one.log_batch_size as int, other.log_batch_size as int);
    assert(l[3] == Observed::Bytes(one.profile.label().spec_bytes()));
    assert(r[3] == Observed::Bytes(other.profile.label().spec_bytes()));
    assert(l[4] == Observed::Bytes(one.merkle_hash@));
    assert(r[4] == Observed::Bytes(other.merkle_hash@));
}

} // verus!
