//! Laws of a whole closure: every closed claim is true where the claims are, every
//! distinct point is a corner of one face, and a complete face closes to one.
use vstd::arithmetic::power2::pow2;
use vstd::prelude::*;
use vstd::set_lib::lemma_set_disjoint_lens;

use crate::face_closure::{
    apart, axis_bit, boolean, challenge_total, challenges_before, claims_error,
    closed_claims_are_true, closes, closes_all, corner_total, corners, covers, disjoint_faces,
    distinct_points, faces_before, faces_partition_the_corners, first_at_point, has_axis, keys_of,
    lemma_axis_bits, lemma_corner_facts, lemma_corner_kept, lemma_family_transitive,
    lemma_merge_mask, lemma_no_axes, lemma_no_corners, lemma_pair_faces, lemma_paired_image,
    lemma_paired_sources, lemma_representatives_apart, lemma_same_point, lemma_sweep_partition,
    on_face, paired, plans, plans_family, point_offset, representatives, same_family, settles,
    sorts, spans, splits_at, sweep, swept, ClosedClaim, Cube, Family,
};
use crate::field::F128;
use crate::mle::mle;

verus! {

/// Closing keeps the truth of the whole list: if every claim is the extension of
/// one table at its point, so is every closed claim.
pub proof fn every_closed_claim_is_true(
    table: Seq<F128>,
    points: Seq<Vec<F128>>,
    values: Seq<F128>,
    families: Seq<Family>,
    claims: Seq<ClosedClaim>,
    challenges: Seq<F128>,
    vars: int,
)
    requires
        claims_error(points, values) is None,
        plans(points, families),
        points.len() > 0 ==> vars == points[0]@.len(),
        points.len() > 0 ==> table.len() == pow2(points[0]@.len()),
        forall|i: int|
            0 <= i < points.len() ==> values[i] == mle(table, (#[trigger] points[i])@),
        closes_all(claims, points, values, families, challenges, vars),
    ensures
        forall|j: int|
            0 <= j < claims.len() ==> (#[trigger] claims[j]).value == mle(table, claims[j].point@),
{
    assert forall|j: int| 0 <= j < claims.len() implies (#[trigger] claims[j]).value == mle(
        table,
        claims[j].point@,
    ) by {
        let k = lemma_place(families, families.len() as int, j);
        let i = j - faces_before(families, k);
        let family = families[k];
        let rep = family.representative as int;
        let cube = family.cubes@[i];
        assert(plans_family(points, family));
        assert(spans(points, rep, cube.vertices@, cube.mask, cube.offset));
        assert(points[rep]@.len() == points[0]@.len());
        let start = challenge_total(families, vars, k)
            + challenges_before(family.cubes@, vars, i);
        assert(families[k].cubes@[i] == cube);
        assert(closes(claims[j], points, values, rep, cube, challenges, start));
        closed_claims_are_true(
            table,
            points,
            values,
            rep,
            cube,
            claims[j],
            challenges,
            start,
        );
    }
}

/// The family of face `j`.
proof fn lemma_place(families: Seq<Family>, n: int, j: int) -> (k: int)
    requires
        0 <= n <= families.len(),
        0 <= j < faces_before(families, n),
    ensures
        0 <= k < n,
        faces_before(families, k) <= j < faces_before(families, k) + families[k].cubes@.len(),
    decreases n,
{
    if j < faces_before(families, n - 1) {
        lemma_place(families, n - 1, j)
    } else {
        n - 1
    }
}

// ---------------------------------------------------------------------------
// Counting the corners.
// ---------------------------------------------------------------------------

/// The corners of a face.
pub open spec fn corner_set(face: (u64, u64)) -> Set<u64> {
    Set::new(|c: u64| on_face(c, face))
}

/// The corners of the first `n` faces.
spec fn cover_set(keys: Seq<(u64, u64)>, n: int) -> Set<u64>
    decreases n,
{
    if n <= 0 {
        Set::empty()
    } else {
        cover_set(keys, n - 1) + corner_set(keys[n - 1])
    }
}

/// The sum of the first `n` weights.
spec fn weight_sum(weight: spec_fn(int) -> int, n: int) -> int
    decreases n,
{
    if n <= 0 {
        0
    } else {
        weight_sum(weight, n - 1) + weight(n - 1)
    }
}

proof fn lemma_cover_contains(keys: Seq<(u64, u64)>, n: int, c: u64)
    requires
        0 <= n <= keys.len(),
    ensures
        cover_set(keys, n).contains(c) == exists|i: int| 0 <= i < n && on_face(
            c,
            #[trigger] keys[i],
        ),
    decreases n,
{
    if n > 0 {
        lemma_cover_contains(keys, n - 1, c);
        if on_face(c, keys[n - 1]) {
            assert(on_face(c, keys[n - 1]));
        }
    }
}

proof fn lemma_cover_len(keys: Seq<(u64, u64)>, weight: spec_fn(int) -> int, n: int)
    requires
        0 <= n <= keys.len(),
        disjoint_faces(keys),
        forall|i: int|
            0 <= i < keys.len() ==> corner_set(#[trigger] keys[i]).finite() && corner_set(
                keys[i],
            ).len() == weight(i),
    ensures
        cover_set(keys, n).finite(),
        cover_set(keys, n).len() == weight_sum(weight, n),
    decreases n,
{
    if n > 0 {
        lemma_cover_len(keys, weight, n - 1);
        let before = cover_set(keys, n - 1);
        let own = corner_set(keys[n - 1]);
        assert(before.disjoint(own)) by {
            assert forall|c: u64| !(#[trigger] before.contains(c) && own.contains(c)) by {
                lemma_cover_contains(keys, n - 1, c);
                if before.contains(c) && own.contains(c) {
                    let i = choose|i: int| 0 <= i < n - 1 && on_face(c, #[trigger] keys[i]);
                    assert(on_face(c, keys[i]) && on_face(c, keys[n - 1]));
                }
            }
        }
        lemma_set_disjoint_lens(before, own);
        assert(before + own == before.union(own));
    }
}

/// A face has as many corners as it lists.
pub proof fn faces_list_their_corners(
    points: Seq<Vec<F128>>,
    rep: int,
    vertices: Seq<usize>,
    mask: u64,
    offset: u64,
)
    requires
        0 <= rep < points.len(),
        points[rep]@.len() <= 64,
        spans(points, rep, vertices, mask, offset),
    ensures
        corner_set((mask, offset)).finite(),
        corner_set((mask, offset)).len() == vertices.len(),
    decreases vertices.len(),
{
    if vertices.len() <= 1 {
        assert forall|c: u64| on_face(c, (0u64, offset)) == (c == offset) by {
            lemma_no_axes(c, 0);
        }
        assert(corner_set((mask, offset)) =~= Set::empty().insert(offset));
    } else {
        let (a, k) = choose|a: int, k: int|
            #![trigger has_axis(mask, a), vertices.take(k)]
            splits_at(points, rep, vertices, mask, offset, a, k) && spans(
                points,
                rep,
                vertices.take(k),
                mask ^ axis_bit(a),
                offset,
            ) && spans(
                points,
                rep,
                vertices.skip(k),
                mask ^ axis_bit(a),
                offset ^ axis_bit(a),
            );
        let b = axis_bit(a);
        let m = mask ^ b;
        let (l, r) = (vertices.take(k), vertices.skip(k));
        faces_list_their_corners(points, rep, l, m, offset);
        faces_list_their_corners(points, rep, r, m, offset ^ b);
        lemma_axis_bits(mask, a as u64, a as u64);
        lemma_axis_bits(offset, a as u64, a as u64);
        lemma_merge_mask(mask, a as u64);
        let low = corner_set((m, offset));
        let high = corner_set((m, offset ^ b));
        assert forall|c: u64| #[trigger] on_face(c, (mask, offset)) == (on_face(c, (m, offset))
            || on_face(c, (m, offset ^ b))) by {
            lemma_pair_faces(c, m, offset, a as u64);
        }
        assert(corner_set((mask, offset)) =~= low.union(high));
        assert(low.disjoint(high)) by {
            lemma_pair_faces(0, m, offset, a as u64);
            assert(offset != offset ^ b);
        }
        lemma_set_disjoint_lens(low, high);
        assert(low + high == low.union(high));
    }
}

/// The corners that the first `n` faces list.
pub open spec fn listed_corners(cubes: Seq<Cube>, n: int) -> int
    decreases n,
{
    if n <= 0 {
        0
    } else {
        listed_corners(cubes, n - 1) + cubes[n - 1].vertices@.len()
    }
}

/// The corners that the faces of the first `k` families list.
pub open spec fn plan_corners(families: Seq<Family>, k: int) -> int
    decreases k,
{
    if k <= 0 {
        0
    } else {
        plan_corners(families, k - 1) + listed_corners(
            families[k - 1].cubes@,
            families[k - 1].cubes@.len() as int,
        )
    }
}

proof fn lemma_listed(cubes: Seq<Cube>, n: int)
    requires
        0 <= n <= cubes.len(),
    ensures
        listed_corners(cubes, n) == weight_sum(|i: int| cubes[i].vertices@.len() as int, n),
    decreases n,
{
    if n > 0 {
        lemma_listed(cubes, n - 1);
    }
}

proof fn lemma_ones_sum(n: int)
    requires
        0 <= n,
    ensures
        weight_sum(|i: int| 1int, n) == n,
    decreases n,
{
    if n > 0 {
        lemma_ones_sum(n - 1);
    }
}

/// The faces of a family list its distinct corners, each once.
proof fn lemma_family_corners(points: Seq<Vec<F128>>, family: Family)
    requires
        plans_family(points, family),
        points[family.representative as int]@.len() <= 63,
    ensures
        listed_corners(family.cubes@, family.cubes@.len() as int) == corners(
            points,
            family.representative as int,
            points.len() as int,
        ).len(),
{
    let rep = family.representative as int;
    let n = points.len() as int;
    let cubes = family.cubes@;
    let vars = points[rep]@.len() as int;
    let keys = corners(points, rep, n);
    let sorted = keys_of(cubes);
    let faces = choose|faces: Seq<(u64, u64)>|
        settles(keys, vars, faces) && #[trigger] sorts(faces, sorted);
    lemma_corner_facts(points, rep, n);
    faces_partition_the_corners(keys, vars, faces, 0);
    assert(disjoint_faces(sorted)) by {
        assert forall|i: int| 0 <= i < sorted.len() implies (#[trigger] sorted[i]).1 & sorted[i].0
            == 0 by {
            assert(sorted.contains(sorted[i]));
            let x = choose|x: int| 0 <= x < faces.len() && faces[x] == sorted[i];
            assert(faces[x].1 & faces[x].0 == 0);
        }
        assert forall|i: int, j: int, c: u64|
            #![trigger on_face(c, sorted[i]), on_face(c, sorted[j])]
            0 <= i < sorted.len() && 0 <= j < sorted.len() && i != j implies !(on_face(
            c,
            sorted[i],
        ) && on_face(c, sorted[j])) by {
            assert(sorted.contains(sorted[i]) && sorted.contains(sorted[j]));
            let x = choose|x: int| 0 <= x < faces.len() && faces[x] == sorted[i];
            let y = choose|y: int| 0 <= y < faces.len() && faces[y] == sorted[j];
            assert(sorted[i] != sorted[j]);
            if on_face(c, sorted[i]) && on_face(c, sorted[j]) {
                assert(on_face(c, faces[x]) && on_face(c, faces[y]));
            }
        }
    }
    let weight = |i: int| cubes[i].vertices@.len() as int;
    assert forall|i: int| 0 <= i < sorted.len() implies corner_set(#[trigger] sorted[i]).finite()
        && corner_set(sorted[i]).len() == weight(i) by {
        let cube = cubes[i];
        assert(spans(points, rep, cube.vertices@, cube.mask, cube.offset));
        faces_list_their_corners(points, rep, cube.vertices@, cube.mask, cube.offset);
    }
    lemma_cover_len(sorted, weight, sorted.len() as int);
    lemma_listed(cubes, cubes.len() as int);
    let one = |i: int| 1int;
    assert forall|i: int| 0 <= i < keys.len() implies corner_set(#[trigger] keys[i]).finite()
        && corner_set(keys[i]).len() == one(i) by {
        let o = keys[i].1;
        assert(keys[i].0 == 0);
        assert forall|c: u64| on_face(c, (0u64, o)) == (c == o) by {
            lemma_no_axes(c, 0);
        }
        assert(corner_set(keys[i]) =~= Set::empty().insert(o));
    }
    lemma_cover_len(keys, one, keys.len() as int);
    lemma_ones_sum(keys.len() as int);
    assert(cover_set(sorted, sorted.len() as int) =~= cover_set(keys, keys.len() as int)) by {
        assert forall|c: u64|
            cover_set(sorted, sorted.len() as int).contains(c) == cover_set(
                keys,
                keys.len() as int,
            ).contains(c) by {
            lemma_cover_contains(sorted, sorted.len() as int, c);
            lemma_cover_contains(keys, keys.len() as int, c);
            faces_partition_the_corners(keys, vars, faces, c);
            if covers(faces, c) {
                let x = choose|x: int| 0 <= x < faces.len() && on_face(c, #[trigger] faces[x]);
                assert(faces.contains(faces[x]));
                assert(sorted.contains(faces[x]));
                let i = choose|i: int| 0 <= i < sorted.len() && sorted[i] == faces[x];
                assert(on_face(c, sorted[i]));
            }
            if exists|i: int| 0 <= i < sorted.len() && on_face(c, #[trigger] sorted[i]) {
                let i = choose|i: int| 0 <= i < sorted.len() && on_face(c, #[trigger] sorted[i]);
                assert(sorted.contains(sorted[i]));
                let x = choose|x: int| 0 <= x < faces.len() && faces[x] == sorted[i];
                assert(on_face(c, faces[x]));
            }
        }
    }
}

/// A corner of a family is at one of its claims.
proof fn lemma_corner_source(points: Seq<Vec<F128>>, rep: int, n: int, key: (u64, u64)) -> (j: int)
    requires
        corners(points, rep, n).contains(key),
    ensures
        0 <= j < n,
        same_family(points[rep]@, points[j]@),
        key == (0u64, point_offset(points[j]@)),
    decreases n,
{
    let before = corners(points, rep, n - 1);
    if before.contains(key) {
        lemma_corner_source(points, rep, n - 1, key)
    } else {
        let i = choose|i: int|
            0 <= i < corners(points, rep, n).len() && corners(points, rep, n)[i] == key;
        if i < before.len() {
            assert(before[i] == key);
        }
        n - 1
    }
}

/// Every claim is of the family of some representative.
proof fn lemma_represented(points: Seq<Vec<F128>>, n: int, i: int) -> (k: int)
    requires
        0 <= i < n,
    ensures
        0 <= k < representatives(points, n).len(),
        same_family(points[representatives(points, n)[k]]@, points[i]@),
    decreases n,
{
    let before = representatives(points, n - 1);
    let reps = representatives(points, n);
    if i < n - 1 {
        let k = lemma_represented(points, n - 1, i);
        assert(reps[k] == before[k]);
        k
    } else if exists|k: int|
        0 <= k < before.len() && same_family(points[#[trigger] before[k]]@, points[n - 1]@) {
        choose|k: int|
            0 <= k < before.len() && same_family(points[#[trigger] before[k]]@, points[n - 1]@)
    } else {
        before.len() as int
    }
}

proof fn lemma_same_family_back(p: Seq<F128>, q: Seq<F128>)
    requires
        same_family(p, q),
    ensures
        same_family(q, p),
{
    assert forall|x: int| 0 <= x < q.len() implies (#[trigger] q[x] == p[x] || (boolean(q[x])
        && boolean(p[x]))) by {
        assert(p[x] == q[x] || (boolean(p[x]) && boolean(q[x])));
    }
}

/// One more claim adds exactly one corner where its point is new.
proof fn lemma_corner_growth_exact(points: Seq<Vec<F128>>, reps: Seq<int>, k: int, n: int)
    requires
        0 <= k <= reps.len(),
        1 <= n <= points.len(),
        apart(points, reps),
        forall|i: int| 0 <= i < points.len() ==> (#[trigger] points[i])@.len() <= 63,
    ensures
        corner_total(points, reps, k, n) == corner_total(points, reps, k, n - 1) + (if (exists|
            a: int,
        |
            0 <= a < k && same_family(points[#[trigger] reps[a]]@, points[n - 1]@))
            && first_at_point(points, n - 1) {
            1int
        } else {
            0
        }),
    decreases k,
{
    if k > 0 {
        lemma_corner_growth_exact(points, reps, k - 1, n);
        let rep = reps[k - 1];
        let p = points[n - 1]@;
        let key = (0u64, point_offset(p));
        if same_family(points[rep]@, p) {
            assert forall|a: int| 0 <= a < k - 1 implies !same_family(
                points[#[trigger] reps[a]]@,
                p,
            ) by {
                if same_family(points[reps[a]]@, p) {
                    lemma_same_family_back(points[reps[a]]@, p);
                    lemma_same_family_back(points[rep]@, p);
                    lemma_family_transitive(p, points[reps[a]]@, points[rep]@);
                }
            }
            if !first_at_point(points, n - 1) {
                let j = choose|j: int| 0 <= j < n - 1 && (#[trigger] points[j])@ == p;
                lemma_corner_kept(points, rep, n - 1, j);
            } else {
                if corners(points, rep, n - 1).contains(key) {
                    let j = lemma_corner_source(points, rep, n - 1, key);
                    lemma_family_transitive(points[rep]@, points[j]@, p);
                    assert(points[n - 1]@.len() <= 63);
                    assert(points[j]@.len() == p.len());
                    lemma_same_point(points[j]@, p);
                }
                assert(reps[k - 1] == rep);
            }
        }
    }
}

proof fn lemma_corners_count(points: Seq<Vec<F128>>, reps: Seq<int>, n: int)
    requires
        0 <= n <= points.len(),
        reps == representatives(points, points.len() as int),
        apart(points, reps),
        forall|i: int| 0 <= i < points.len() ==> (#[trigger] points[i])@.len() <= 63,
    ensures
        corner_total(points, reps, reps.len() as int, n) == distinct_points(points, n),
    decreases n,
{
    if n > 0 {
        lemma_corners_count(points, reps, n - 1);
        lemma_corner_growth_exact(points, reps, reps.len() as int, n);
        let k = lemma_represented(points, points.len() as int, n - 1);
        assert(same_family(points[reps[k]]@, points[n - 1]@));
    } else {
        lemma_no_corners(points, reps, reps.len() as int);
    }
}

/// Every distinct point is a corner of one face: the faces of a plan list as many
/// corners as there are distinct points.
pub proof fn faces_count_the_points(
    points: Seq<Vec<F128>>,
    values: Seq<F128>,
    families: Seq<Family>,
)
    requires
        claims_error(points, values) is None,
        plans(points, families),
    ensures
        plan_corners(families, families.len() as int) == distinct_points(
            points,
            points.len() as int,
        ),
{
    let n = points.len() as int;
    let reps = representatives(points, n);
    lemma_representatives_apart(points, n);
    assert forall|i: int| 0 <= i < points.len() implies (#[trigger] points[i])@.len() <= 63 by {}
    lemma_corners_count(points, reps, n);
    lemma_plan_corners(points, families, families.len() as int);
}

proof fn lemma_plan_corners(points: Seq<Vec<F128>>, families: Seq<Family>, k: int)
    requires
        plans(points, families),
        forall|i: int| 0 <= i < points.len() ==> (#[trigger] points[i])@.len() <= 63,
        0 <= k <= families.len(),
    ensures
        plan_corners(families, k) == corner_total(
            points,
            representatives(points, points.len() as int),
            k,
            points.len() as int,
        ),
    decreases k,
{
    if k > 0 {
        lemma_plan_corners(points, families, k - 1);
        let family = families[k - 1];
        assert(plans_family(points, family));
        assert(points[family.representative as int]@.len() <= 63);
        lemma_family_corners(points, family);
    }
}

// ---------------------------------------------------------------------------
// Complete faces.
// ---------------------------------------------------------------------------

/// The axes of a mask below `a`.
spec fn axes_under(mask: u64, a: u64) -> u64 {
    mask & !(0xFFFF_FFFF_FFFF_FFFFu64 << a)
}

proof fn lemma_axes_under(mask: u64, offset: u64, o: u64, a: u64, b: u64)
    by (bit_vector)
    requires
        a < 63,
        b == a + 1,
    ensures
        axes_under(mask, a) & (1u64 << a) == 0,
        (mask >> a) & 1 == 1 ==> axes_under(mask, b) == axes_under(mask, a) | (1u64 << a),
        (mask >> a) & 1 != 1 ==> axes_under(mask, b) == axes_under(mask, a),
        (mask >> a) & 1 == 1 && o & !mask == offset ==> (o ^ (1u64 << a)) & !mask == offset,
        (mask >> a) & 1 != 1 && o & !mask == offset ==> (o ^ (1u64 << a)) & !mask != offset,
        o & axes_under(mask, a) == 0 ==> (o ^ (1u64 << a)) & axes_under(mask, a) == 0,
        (o & (axes_under(mask, a) | (1u64 << a)) == 0) == (o & axes_under(mask, a) == 0 && o & (1u64
            << a) == 0),
{
}

proof fn lemma_axes_ends(mask: u64, offset: u64, o: u64, v: u64)
    by (bit_vector)
    requires
        v < 64,
        mask >> v == 0,
        offset & mask == 0,
    ensures
        axes_under(mask, 0) == 0,
        axes_under(mask, v) == mask,
        o & 0u64 == 0,
        (o & !mask == offset && o & mask == 0) == (o == offset),
{
}

/// The faces are the complete face cut along the axes from `a` on.
spec fn cut_from(keys: Seq<(u64, u64)>, mask: u64, offset: u64, a: int) -> bool {
    forall|m: u64, o: u64| #[trigger]
        keys.contains((m, o)) <==> {
            &&& m == axes_under(mask, a as u64)
            &&& on_face(o, (mask, offset))
            &&& o & m == 0
        }
}

proof fn lemma_cut_step(keys: Seq<(u64, u64)>, mask: u64, offset: u64, a: int)
    requires
        0 <= a < 63,
        cut_from(keys, mask, offset, a),
    ensures
        cut_from(paired(keys, axis_bit(a), keys.len() as int), mask, offset, a + 1),
{
    let n = keys.len() as int;
    let b = axis_bit(a);
    let under = axes_under(mask, a as u64);
    let out = paired(keys, b, n);
    assert forall|m: u64, o: u64| #[trigger] out.contains((m, o)) <==> {
        &&& m == axes_under(mask, (a + 1) as u64)
        &&& on_face(o, (mask, offset))
        &&& o & m == 0
    } by {
        lemma_axes_under(mask, offset, o, a as u64, (a + 1) as u64);
        if out.contains((m, o)) {
            let t = choose|t: int| 0 <= t < out.len() && out[t] == (m, o);
            let s = lemma_paired_sources(keys, b, n, t);
            let key = keys[s];
            assert(keys.contains((key.0, key.1)));
            lemma_axes_under(mask, offset, key.1, a as u64, (a + 1) as u64);
            assert(keys.contains((key.0, key.1 ^ b)) == has_axis(mask, a));
        }
        if m == axes_under(mask, (a + 1) as u64) && on_face(o, (mask, offset)) && o & m == 0 {
            assert(keys.contains((under, o)));
            let s = choose|s: int| 0 <= s < keys.len() && keys[s] == (under, o);
            assert(keys.contains((under, o ^ b)) == has_axis(mask, a));
            let t = lemma_paired_image(keys, b, n, s);
            assert(out[t] == (m, o));
        }
    }
}

proof fn lemma_cut_sweep(keys: Seq<(u64, u64)>, mask: u64, offset: u64, n: int)
    requires
        0 <= n <= 63,
        cut_from(keys, mask, offset, 0),
    ensures
        cut_from(sweep(keys, n), mask, offset, n),
    decreases n,
{
    if n > 0 {
        lemma_cut_sweep(keys, mask, offset, n - 1);
        lemma_cut_step(sweep(keys, n - 1), mask, offset, n - 1);
    }
}

/// One face alone stays as it is.
proof fn lemma_alone(face: (u64, u64), n: int)
    requires
        0 <= n <= 64,
    ensures
        sweep(seq![face], n) == seq![face],
    decreases n,
{
    if n > 0 {
        lemma_alone(face, n - 1);
        let keys = seq![face];
        let b = axis_bit(n - 1);
        lemma_axis_bits(face.1, (n - 1) as u64, (n - 1) as u64);
        assert(!keys.contains((face.0, face.1 ^ b))) by {
            if keys.contains((face.0, face.1 ^ b)) {
                assert(face.1 ^ b == face.1);
            }
        }
        assert(paired(keys, b, 0) =~= Seq::empty());
        assert(keys[0] == face);
        assert(paired(keys, b, 1) =~= keys);
    }
}

/// A complete face closes to one claim: where the corners of a family are all the
/// corners of a face whose axes are among the variables, that face is all that is
/// left of them.
pub proof fn complete_faces_close_to_one(
    keys: Seq<(u64, u64)>,
    vars: int,
    faces: Seq<(u64, u64)>,
    mask: u64,
    offset: u64,
)
    requires
        0 <= vars <= 63,
        mask >> (vars as u64) == 0,
        offset & mask == 0,
        disjoint_faces(keys),
        forall|m: u64, o: u64| #[trigger]
            keys.contains((m, o)) <==> m == 0 && on_face(o, (mask, offset)),
        settles(keys, vars, faces),
    ensures
        faces == seq![(mask, offset)],
{
    let face = (mask, offset);
    assert(cut_from(keys, mask, offset, 0)) by {
        assert forall|m: u64, o: u64| #[trigger] keys.contains((m, o)) <==> {
            &&& m == axes_under(mask, 0u64)
            &&& on_face(o, face)
            &&& o & m == 0
        } by {
            lemma_axes_ends(mask, offset, o, vars as u64);
        }
    }
    lemma_cut_sweep(keys, mask, offset, vars);
    let once = sweep(keys, vars);
    lemma_axes_ends(mask, offset, offset, vars as u64);
    lemma_sweep_partition(keys, vars, offset);
    assert(once.contains((mask, offset)));
    assert(once =~= seq![face]) by {
        assert forall|i: int| 0 <= i < once.len() implies once[i] == face by {
            assert(once.contains((once[i].0, once[i].1)));
            lemma_axes_ends(mask, offset, once[i].1, vars as u64);
        }
        if once.len() > 1 {
            assert(on_face(offset, once[0]) && on_face(offset, once[1]));
        }
    }
    let rounds = choose|rounds: nat| faces == #[trigger] swept(keys, vars, rounds);
    if rounds == 0 {
        assert(sweep(faces, vars) == once);
    } else {
        lemma_swept_alone(keys, vars, face, rounds);
    }
}

proof fn lemma_swept_alone(keys: Seq<(u64, u64)>, vars: int, face: (u64, u64), rounds: nat)
    requires
        0 <= vars <= 63,
        sweep(keys, vars) == seq![face],
        rounds > 0,
    ensures
        swept(keys, vars, rounds) == seq![face],
    decreases rounds,
{
    if rounds == 1 {
        assert(swept(keys, vars, 0) == keys);
    } else {
        lemma_swept_alone(keys, vars, face, (rounds - 1) as nat);
        lemma_alone(face, vars);
    }
}

} // verus!
