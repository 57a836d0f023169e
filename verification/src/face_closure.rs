//! Complete Boolean faces of multilinear claims collapse to one claim each.
//!
//! Claims whose points agree in every non-Boolean coordinate form a family.
//! Within a family, faces that differ in one Boolean coordinate are paired into
//! a larger face until no pair is left; no missing corner is invented. By
//! multilinearity a complete face's claims give one claim at a challenge point.
//! Work depends on the claim count and the arity, never on the domain.
use vstd::arithmetic::power2::{lemma_pow2_unfold, pow2};
use vstd::prelude::*;

use crate::field::{
    fadd, fmul, fone, fzero, lemma_fadd_assoc, lemma_fadd_comm, lemma_fadd_self, lemma_fadd_swap,
    lemma_fadd_zero, lemma_fmul_assoc, lemma_fmul_comm, lemma_fmul_distr, lemma_fmul_one,
    lemma_fmul_zero, F128,
};
use crate::mle::{
    fold_all, fold_table, lemma_fold_all_concat, lemma_fold_all_len, lemma_lerp, lemma_mle_add,
    lemma_mle_scale, mle,
};
use crate::polynomial::lemma_lines_bind;
use crate::sums::{
    fprod, fsum, lemma_fprod_congr, lemma_fprod_mul, lemma_fsum_congr, lemma_fsum_scale,
    lemma_fsum_split,
};

pub mod whole;

verus! {

/// One claim per face.
#[derive(Clone, Debug)]
pub struct ClosedClaim {
    pub point: Vec<F128>,
    pub value: F128,
}

/// A face: the varying axes, the Boolean offset, and the claims at its corners.
#[derive(Clone, Debug)]
pub struct Cube {
    pub mask: u64,
    pub offset: u64,
    pub vertices: Vec<usize>,
}

/// The faces of one family, with the family's first claim.
#[derive(Clone, Debug)]
pub struct Family {
    pub representative: usize,
    pub cubes: Vec<Cube>,
}

// ---------------------------------------------------------------------------
// Axes and faces.
// ---------------------------------------------------------------------------

/// Axis `a` is in the mask.
pub open spec fn has_axis(m: u64, a: int) -> bool {
    (m >> (a as u64)) & 1 == 1
}

/// The mask of one axis.
pub open spec fn axis_bit(a: int) -> u64 {
    1u64 << (a as u64)
}

/// A corner lies on a face.
pub open spec fn on_face(corner: u64, face: (u64, u64)) -> bool {
    corner & !face.0 == face.1
}

proof fn lemma_pair_faces(c: u64, m: u64, o: u64, a: u64)
    by (bit_vector)
    requires
        a < 64,
        m & (1u64 << a) == 0,
        o & (1u64 << a) == 0,
    ensures
        (c & !(m | (1u64 << a)) == o) == ((c & !m == o) || (c & !m == (o ^ (1u64 << a)))),
        (m | (1u64 << a)) ^ (1u64 << a) == m,
        (m | (1u64 << a)) & (1u64 << a) != 0,
        (o ^ (1u64 << a)) & (1u64 << a) != 0,
        (o ^ (1u64 << a)) ^ (1u64 << a) == o,
        o ^ (1u64 << a) == o | (1u64 << a),
        o & m == 0 ==> o & (m | (1u64 << a)) == 0,
{
}

proof fn lemma_axis_bits(m: u64, a: u64, j: u64)
    by (bit_vector)
    requires
        a < 64,
        j < 64,
    ensures
        (((m | (1u64 << a)) >> j) & 1 == 1) == (j == a || ((m >> j) & 1 == 1)),
        (((m ^ (1u64 << a)) >> j) & 1 == 1) == ((j == a) != ((m >> j) & 1 == 1)),
        (m & (1u64 << a) != 0) == ((m >> a) & 1 == 1),
        ((0u64 >> j) & 1 == 1) == false,
        (m ^ (1u64 << a)) ^ (1u64 << a) == m,
{
}

proof fn lemma_offset_bits(c: u64, m: u64, o: u64, j: u64)
    by (bit_vector)
    requires
        j < 64,
        c & !m == o,
    ensures
        (m >> j) & 1 != 1 ==> (((c >> j) & 1 == 1) == ((o >> j) & 1 == 1)),
        (m >> j) & 1 == 1 ==> (o >> j) & 1 != 1,
        o & m == 0,
        o & !m == o,
{
}

proof fn lemma_no_axes(o: u64, c: u64)
    by (bit_vector)
    ensures
        o & !0u64 == o,
        o & 0u64 == 0,
{
}

// ---------------------------------------------------------------------------
// Pairing.
// ---------------------------------------------------------------------------

/// What a face becomes when faces are paired along an axis: a face without a
/// partner stays, the lower face of a pair grows, and the upper one goes.
pub open spec fn image(keys: Seq<(u64, u64)>, key: (u64, u64), bit: u64) -> Option<(u64, u64)> {
    if key.0 & bit != 0 || !keys.contains((key.0, key.1 ^ bit)) {
        Some(key)
    } else if key.1 & bit == 0 {
        Some((key.0 | bit, key.1))
    } else {
        None
    }
}

/// The first `i` faces after pairing along an axis.
pub open spec fn paired(keys: Seq<(u64, u64)>, bit: u64, i: int) -> Seq<(u64, u64)>
    decreases i,
{
    if i <= 0 {
        Seq::empty()
    } else {
        match image(keys, keys[i - 1], bit) {
            Some(key) => paired(keys, bit, i - 1).push(key),
            None => paired(keys, bit, i - 1),
        }
    }
}

/// The faces after pairing along the first `n` axes in turn.
pub open spec fn sweep(keys: Seq<(u64, u64)>, n: int) -> Seq<(u64, u64)>
    decreases n,
{
    if n <= 0 {
        keys
    } else {
        let before = sweep(keys, n - 1);
        paired(before, axis_bit(n - 1), before.len() as int)
    }
}

/// The faces after `rounds` sweeps.
pub open spec fn swept(keys: Seq<(u64, u64)>, vars: int, rounds: nat) -> Seq<(u64, u64)>
    decreases rounds,
{
    if rounds == 0 {
        keys
    } else {
        sweep(swept(keys, vars, (rounds - 1) as nat), vars)
    }
}

/// `faces` is what is left of `keys` once no two faces can be paired.
pub open spec fn settles(keys: Seq<(u64, u64)>, vars: int, faces: Seq<(u64, u64)>) -> bool {
    &&& exists|rounds: nat| faces == #[trigger] swept(keys, vars, rounds)
    &&& sweep(faces, vars) == faces
}

/// No two faces share a corner, and no offset has a varying axis.
pub open spec fn disjoint_faces(keys: Seq<(u64, u64)>) -> bool {
    &&& forall|i: int| 0 <= i < keys.len() ==> (#[trigger] keys[i]).1 & keys[i].0 == 0
    &&& forall|i: int, j: int, c: u64|
        #![trigger on_face(c, keys[i]), on_face(c, keys[j])]
        0 <= i < keys.len() && 0 <= j < keys.len() && i != j ==> !(on_face(c, keys[i]) && on_face(
            c,
            keys[j],
        ))
}

/// Some face holds the corner.
pub open spec fn covers(keys: Seq<(u64, u64)>, c: u64) -> bool {
    exists|i: int| 0 <= i < keys.len() && on_face(c, #[trigger] keys[i])
}

proof fn lemma_paired_sources(keys: Seq<(u64, u64)>, bit: u64, i: int, t: int) -> (s: int)
    requires
        0 <= i <= keys.len(),
        0 <= t < paired(keys, bit, i).len(),
    ensures
        0 <= s < i,
        image(keys, keys[s], bit) == Some(paired(keys, bit, i)[t]),
    decreases i,
{
    match image(keys, keys[i - 1], bit) {
        Some(key) => {
            if t == paired(keys, bit, i).len() - 1 {
                i - 1
            } else {
                lemma_paired_sources(keys, bit, i - 1, t)
            }
        },
        None => lemma_paired_sources(keys, bit, i - 1, t),
    }
}

proof fn lemma_paired_image(keys: Seq<(u64, u64)>, bit: u64, i: int, s: int) -> (t: int)
    requires
        0 <= s < i <= keys.len(),
        image(keys, keys[s], bit) is Some,
    ensures
        0 <= t < paired(keys, bit, i).len(),
        image(keys, keys[s], bit) == Some(paired(keys, bit, i)[t]),
    decreases i,
{
    if s == i - 1 {
        paired(keys, bit, i).len() - 1
    } else {
        lemma_paired_image(keys, bit, i - 1, s)
    }
}

/// A corner of an image is a corner of its source or of the source's partner.
proof fn lemma_image_corners(keys: Seq<(u64, u64)>, a: int, s: int, e: (u64, u64), c: u64) -> (q:
    int)
    requires
        0 <= a < 64,
        0 <= s < keys.len(),
        image(keys, keys[s], axis_bit(a)) == Some(e),
        on_face(c, e),
    ensures
        0 <= q < keys.len(),
        on_face(c, keys[q]),
        q == s || (image(keys, keys[q], axis_bit(a)) is None && keys[q] == (
            keys[s].0,
            keys[s].1 ^ axis_bit(a),
        )),
{
    let b = axis_bit(a);
    let key = keys[s];
    if key.0 & b != 0 || !keys.contains((key.0, key.1 ^ b)) {
        s
    } else {
        lemma_pair_faces(c, key.0, key.1, a as u64);
        let partner = (key.0, key.1 ^ b);
        let p = choose|p: int| 0 <= p < keys.len() && keys[p] == partner;
        assert(keys.contains((partner.0, partner.1 ^ b))) by {
            assert(keys[s] == (partner.0, partner.1 ^ b));
        }
        if on_face(c, key) {
            s
        } else {
            p
        }
    }
}

/// Pairing along an axis keeps the faces disjoint.
proof fn lemma_paired_disjoint(keys: Seq<(u64, u64)>, a: int, i: int)
    requires
        0 <= a < 64,
        0 <= i <= keys.len(),
        disjoint_faces(keys),
    ensures
        disjoint_faces(paired(keys, axis_bit(a), i)),
    decreases i,
{
    let b = axis_bit(a);
    if i > 0 {
        lemma_paired_disjoint(keys, a, i - 1);
        let rest = paired(keys, b, i - 1);
        match image(keys, keys[i - 1], b) {
            None => {},
            Some(e) => {
                let out = paired(keys, b, i);
                assert(e.1 & e.0 == 0) by {
                    assert(keys[i - 1].1 & keys[i - 1].0 == 0);
                    if e != keys[i - 1] {
                        lemma_pair_faces(0, keys[i - 1].0, keys[i - 1].1, a as u64);
                    }
                }
                assert forall|x: int| 0 <= x < out.len() implies (#[trigger] out[x]).1 & out[x].0
                    == 0 by {
                    if x < rest.len() {
                        assert(out[x] == rest[x]);
                    }
                }
                assert forall|x: int, y: int, c: u64|
                    #![trigger on_face(c, out[x]), on_face(c, out[y])]
                    0 <= x < out.len() && 0 <= y < out.len() && x != y implies !(on_face(
                    c,
                    out[x],
                ) && on_face(c, out[y])) by {
                    if on_face(c, out[x]) && on_face(c, out[y]) {
                        if x < rest.len() && y < rest.len() {
                            assert(out[x] == rest[x] && out[y] == rest[y]);
                            assert(on_face(c, rest[x]) && on_face(c, rest[y]));
                        } else {
                            let w = if x < rest.len() {
                                x
                            } else {
                                y
                            };
                            assert(out[w] == rest[w]);
                            let s = lemma_paired_sources(keys, b, i - 1, w);
                            let q = lemma_image_corners(keys, a, s, rest[w], c);
                            let r = lemma_image_corners(keys, a, i - 1, e, c);
                            assert(q != r) by {
                                if q == r && q != s && r != i - 1 {
                                    lemma_axis_bits(keys[s].1, a as u64, 0);
                                    lemma_axis_bits(keys[i - 1].1, a as u64, 0);
                                    assert(keys[s] == keys[i - 1]);
                                    assert(on_face(keys[s].1, keys[s])) by {
                                        lemma_self_corner(keys[s].0, keys[s].1);
                                    }
                                    assert(on_face(keys[s].1, keys[i - 1]));
                                }
                            }
                            assert(on_face(c, keys[q]) && on_face(c, keys[r]));
                        }
                    }
                }
            },
        }
    }
}

proof fn lemma_self_corner(m: u64, o: u64)
    by (bit_vector)
    requires
        o & m == 0,
    ensures
        o & !m == o,
{
}

/// Pairing along an axis loses no corner and adds none.
proof fn lemma_paired_covers(keys: Seq<(u64, u64)>, a: int, c: u64)
    requires
        0 <= a < 64,
    ensures
        covers(paired(keys, axis_bit(a), keys.len() as int), c) == covers(keys, c),
{
    let b = axis_bit(a);
    let n = keys.len() as int;
    let out = paired(keys, b, n);
    if covers(out, c) {
        let t = choose|t: int| 0 <= t < out.len() && on_face(c, #[trigger] out[t]);
        let s = lemma_paired_sources(keys, b, n, t);
        let q = lemma_image_corners(keys, a, s, out[t], c);
        assert(on_face(c, keys[q]));
    }
    if covers(keys, c) {
        let s = choose|s: int| 0 <= s < keys.len() && on_face(c, #[trigger] keys[s]);
        let key = keys[s];
        if key.0 & b != 0 || !keys.contains((key.0, key.1 ^ b)) {
            let t = lemma_paired_image(keys, b, n, s);
            assert(on_face(c, out[t]));
        } else if key.1 & b == 0 {
            lemma_pair_faces(c, key.0, key.1, a as u64);
            let t = lemma_paired_image(keys, b, n, s);
            assert(on_face(c, out[t]));
        } else {
            let low = (key.0, key.1 ^ b);
            lemma_axis_bits(key.1, a as u64, a as u64);
            lemma_axis_bits(key.1 ^ b, a as u64, a as u64);
            let p = choose|p: int| 0 <= p < keys.len() && keys[p] == low;
            assert(keys.contains((low.0, low.1 ^ b))) by {
                assert(keys[s] == (low.0, low.1 ^ b));
            }
            lemma_pair_faces(c, low.0, low.1, a as u64);
            let t = lemma_paired_image(keys, b, n, p);
            assert(on_face(c, out[t]));
        }
    }
}

proof fn lemma_sweep_partition(keys: Seq<(u64, u64)>, n: int, c: u64)
    requires
        0 <= n <= 64,
        disjoint_faces(keys),
    ensures
        disjoint_faces(sweep(keys, n)),
        covers(sweep(keys, n), c) == covers(keys, c),
    decreases n,
{
    if n > 0 {
        lemma_sweep_partition(keys, n - 1, c);
        let before = sweep(keys, n - 1);
        lemma_paired_disjoint(before, n - 1, before.len() as int);
        lemma_paired_covers(before, n - 1, c);
    }
}

proof fn lemma_swept_partition(keys: Seq<(u64, u64)>, vars: int, rounds: nat, c: u64)
    requires
        0 <= vars <= 64,
        disjoint_faces(keys),
    ensures
        disjoint_faces(swept(keys, vars, rounds)),
        covers(swept(keys, vars, rounds), c) == covers(keys, c),
    decreases rounds,
{
    if rounds > 0 {
        lemma_swept_partition(keys, vars, (rounds - 1) as nat, c);
        lemma_sweep_partition(swept(keys, vars, (rounds - 1) as nat), vars, c);
    }
}

/// The faces partition the corners: whatever is settled is disjoint, and it
/// holds exactly the corners that were there.
pub proof fn faces_partition_the_corners(
    keys: Seq<(u64, u64)>,
    vars: int,
    faces: Seq<(u64, u64)>,
    c: u64,
)
    requires
        0 <= vars <= 64,
        disjoint_faces(keys),
        settles(keys, vars, faces),
    ensures
        disjoint_faces(faces),
        covers(faces, c) == covers(keys, c),
{
    let rounds = choose|rounds: nat| faces == #[trigger] swept(keys, vars, rounds);
    lemma_swept_partition(keys, vars, rounds, c);
}

// ---------------------------------------------------------------------------
// Families.
// ---------------------------------------------------------------------------

pub open spec fn boolean(x: F128) -> bool {
    x == fzero() || x == fone()
}

/// Two points agree in every non-Boolean coordinate, and have the same ones.
pub open spec fn same_family(p: Seq<F128>, q: Seq<F128>) -> bool {
    &&& p.len() == q.len()
    &&& forall|a: int|
        0 <= a < p.len() ==> (#[trigger] p[a] == q[a] || (boolean(p[a]) && boolean(q[a])))
}

/// The Boolean offset of the first `n` coordinates.
pub open spec fn offset_of(p: Seq<F128>, n: int) -> u64
    decreases n,
{
    if n <= 0 {
        0
    } else if p[n - 1] == fone() {
        offset_of(p, n - 1) | axis_bit(n - 1)
    } else {
        offset_of(p, n - 1)
    }
}

pub open spec fn point_offset(p: Seq<F128>) -> u64 {
    offset_of(p, p.len() as int)
}

proof fn lemma_offset_axis(p: Seq<F128>, n: int, a: int)
    requires
        0 <= n <= 64,
        0 <= a < 64,
    ensures
        has_axis(offset_of(p, n), a) == (a < n && p[a] == fone()),
    decreases n,
{
    if n > 0 {
        lemma_offset_axis(p, n - 1, a);
        lemma_axis_bits(offset_of(p, n - 1), (n - 1) as u64, a as u64);
    } else {
        lemma_axis_bits(0, 0, a as u64);
    }
}

/// Points of one family with one offset are equal.
proof fn lemma_same_point(p: Seq<F128>, q: Seq<F128>)
    requires
        same_family(p, q),
        p.len() <= 64,
        point_offset(p) == point_offset(q),
    ensures
        p == q,
{
    lemma_fone_is_not_zero();
    assert forall|a: int| 0 <= a < p.len() implies p[a] == q[a] by {
        lemma_offset_axis(p, p.len() as int, a);
        lemma_offset_axis(q, q.len() as int, a);
    }
    assert(p =~= q);
}

proof fn lemma_fone_is_not_zero()
    ensures
        fone() != fzero(),
{
}

/// The distinct corners of a family, in claim order, among the first `n`
/// claims.
pub open spec fn corners(points: Seq<Vec<F128>>, rep: int, n: int) -> Seq<(u64, u64)>
    decreases n,
{
    if n <= 0 {
        Seq::empty()
    } else {
        let before = corners(points, rep, n - 1);
        let key = (0u64, point_offset(points[n - 1]@));
        if same_family(points[rep]@, points[n - 1]@) && !before.contains(key) {
            before.push(key)
        } else {
            before
        }
    }
}

/// The claims that open a family, in order.
pub open spec fn representatives(points: Seq<Vec<F128>>, n: int) -> Seq<int>
    decreases n,
{
    if n <= 0 {
        Seq::empty()
    } else {
        let before = representatives(points, n - 1);
        if exists|k: int|
            0 <= k < before.len() && same_family(points[#[trigger] before[k]]@, points[n - 1]@) {
            before
        } else {
            before.push(n - 1)
        }
    }
}

proof fn lemma_corner_facts(points: Seq<Vec<F128>>, rep: int, n: int)
    requires
        0 <= n <= points.len(),
        0 <= rep < points.len(),
    ensures
        disjoint_faces(corners(points, rep, n)),
        forall|i: int|
            0 <= i < corners(points, rep, n).len() ==> (#[trigger] corners(points, rep, n)[i]).0
                == 0,
        forall|i: int, j: int|
            0 <= i < j < corners(points, rep, n).len() ==> corners(points, rep, n)[i] != corners(
                points,
                rep,
                n,
            )[j],
    decreases n,
{
    if n > 0 {
        lemma_corner_facts(points, rep, n - 1);
    }
    let keys = corners(points, rep, n);
    assert forall|i: int| 0 <= i < keys.len() implies (#[trigger] keys[i]).1 & keys[i].0 == 0 by {
        lemma_no_axes(keys[i].1, 0);
    }
    assert forall|i: int, j: int, c: u64|
        #![trigger on_face(c, keys[i]), on_face(c, keys[j])]
        0 <= i < keys.len() && 0 <= j < keys.len() && i != j implies !(on_face(c, keys[i])
        && on_face(c, keys[j])) by {
        assert(keys[i].0 == 0 && keys[j].0 == 0);
        if i < j {
            assert(keys[i] != keys[j]);
        } else {
            assert(keys[j] != keys[i]);
        }
    }
}

// ---------------------------------------------------------------------------
// The vertices of a face.
// ---------------------------------------------------------------------------

/// A claim of the family with the given offset.
pub open spec fn is_corner(points: Seq<Vec<F128>>, rep: int, index: usize, offset: u64) -> bool {
    &&& index < points.len()
    &&& same_family(points[rep]@, points[index as int]@)
    &&& point_offset(points[index as int]@) == offset
}

/// The listed claims are the corners of a face, each once: a single corner, or
/// the two halves of the face along one of its axes.
pub open spec fn spans(
    points: Seq<Vec<F128>>,
    rep: int,
    vertices: Seq<usize>,
    mask: u64,
    offset: u64,
) -> bool
    decreases vertices.len(),
{
    if vertices.len() <= 1 {
        vertices.len() == 1 && mask == 0 && is_corner(points, rep, vertices[0], offset)
    } else {
        exists|a: int, k: int|
            #![trigger has_axis(mask, a), vertices.take(k)]
            splits_at(points, rep, vertices, mask, offset, a, k) && spans(
                points,
                rep,
                vertices.take(k),
                mask ^ axis_bit(a),
                offset,
            ) && spans(
                points,
                rep,
                vertices.skip(k),
                mask ^ axis_bit(a),
                offset ^ axis_bit(a),
            )
    }
}

pub open spec fn splits_at(
    points: Seq<Vec<F128>>,
    rep: int,
    vertices: Seq<usize>,
    mask: u64,
    offset: u64,
    a: int,
    k: int,
) -> bool {
    0 <= a < points[rep]@.len() && 0 < k < vertices.len() && has_axis(mask, a) && !has_axis(
        offset,
        a,
    )
}

/// The keys of a list of faces.
pub open spec fn keys_of(cubes: Seq<Cube>) -> Seq<(u64, u64)> {
    Seq::new(cubes.len(), |i: int| (cubes[i].mask, cubes[i].offset))
}

/// Every face lists its corners.
pub open spec fn spanned(points: Seq<Vec<F128>>, rep: int, cubes: Seq<Cube>) -> bool {
    forall|i: int|
        0 <= i < cubes.len() ==> spans(
            points,
            rep,
            (#[trigger] cubes[i]).vertices@,
            cubes[i].mask,
            cubes[i].offset,
        )
}

/// The first vertex is at the face's offset, and every vertex is on the face.
proof fn lemma_spans(
    points: Seq<Vec<F128>>,
    rep: int,
    vertices: Seq<usize>,
    mask: u64,
    offset: u64,
)
    requires
        0 <= rep < points.len(),
        points[rep]@.len() <= 64,
        spans(points, rep, vertices, mask, offset),
    ensures
        vertices.len() > 0,
        is_corner(points, rep, vertices[0], offset),
        forall|i: int|
            0 <= i < vertices.len() ==> is_corner(
                points,
                rep,
                #[trigger] vertices[i],
                point_offset(points[vertices[i] as int]@),
            ) && on_face(point_offset(points[vertices[i] as int]@), (mask, offset)),
        offset & mask == 0,
        forall|a: int|
            0 <= a < 64 && #[trigger] has_axis(mask, a) ==> a < points[rep]@.len() && boolean(
                points[rep]@[a],
            ),
    decreases vertices.len(),
{
    if vertices.len() <= 1 {
        lemma_no_axes(offset, 0);
        assert forall|a: int| 0 <= a < 64 && #[trigger] has_axis(mask, a) implies a
            < points[rep]@.len() && boolean(points[rep]@[a]) by {
            lemma_axis_bits(0, 0, a as u64);
        }
    } else {
        let (a, k) = choose|a: int, k: int|
            #![trigger has_axis(mask, a), vertices.take(k)]
            splits_at(points, rep, vertices, mask, offset, a, k) && spans(
                points,
                rep,
                vertices.take(k),
                mask ^ axis_bit(a),
                offset,
            ) && spans(
                points,
                rep,
                vertices.skip(k),
                mask ^ axis_bit(a),
                offset ^ axis_bit(a),
            );
        let b = axis_bit(a);
        let m = mask ^ b;
        let (l, r) = (vertices.take(k), vertices.skip(k));
        lemma_spans(points, rep, l, m, offset);
        lemma_spans(points, rep, r, m, offset ^ b);
        lemma_axis_bits(mask, a as u64, a as u64);
        lemma_axis_bits(m, a as u64, a as u64);
        lemma_axis_bits(offset, a as u64, a as u64);
        lemma_pair_faces(0, m, offset, a as u64);
        lemma_merge_mask(mask, a as u64);
        assert forall|i: int| 0 <= i < vertices.len() implies is_corner(
            points,
            rep,
            #[trigger] vertices[i],
            point_offset(points[vertices[i] as int]@),
        ) && on_face(point_offset(points[vertices[i] as int]@), (mask, offset)) by {
            let c = point_offset(points[vertices[i] as int]@);
            lemma_pair_faces(c, m, offset, a as u64);
            if i < k {
                assert(l[i] == vertices[i]);
            } else {
                assert(r[i - k] == vertices[i]);
            }
        }
        assert forall|x: int| 0 <= x < 64 && #[trigger] has_axis(mask, x) implies x
            < points[rep]@.len() && boolean(points[rep]@[x]) by {
            if x == a {
                let w = r[0];
                let p = points[w as int]@;
                lemma_axis_bits(offset, a as u64, a as u64);
                assert(is_corner(points, rep, w, offset ^ b));
                lemma_offset_axis(p, p.len() as int, a);
                assert(p[a] == fone());
                assert(points[rep]@[a] == p[a] || boolean(points[rep]@[a]));
            } else {
                lemma_axis_bits(mask, a as u64, x as u64);
                assert(has_axis(m, x));
            }
        }
    }
}

proof fn lemma_merge_mask(m: u64, a: u64)
    by (bit_vector)
    requires
        a < 64,
        (m >> a) & 1 == 1,
    ensures
        (m ^ (1u64 << a)) | (1u64 << a) == m,
        (m ^ (1u64 << a)) & (1u64 << a) == 0,
{
}

// ---------------------------------------------------------------------------
// Building the faces.
// ---------------------------------------------------------------------------

fn copy_indices(indices: &Vec<usize>) -> (copy: Vec<usize>)
    ensures
        copy@ == indices@,
{
    let mut copy: Vec<usize> = Vec::new();
    let mut i: usize = 0;
    while i < indices.len()
        invariant
            i <= indices@.len(),
            copy@ == indices@.take(i as int),
        decreases indices@.len() - i,
    {
        copy.push(indices[i]);
        i = i + 1;
        assert(copy@ =~= indices@.take(i as int));
    }
    assert(copy@ =~= indices@);
    copy
}

/// Where a face is in the list.
fn find_face(cubes: &Vec<Cube>, mask: u64, offset: u64) -> (found: Option<usize>)
    ensures
        match found {
            Some(j) => j < cubes@.len() && keys_of(cubes@)[j as int] == (mask, offset),
            None => !keys_of(cubes@).contains((mask, offset)),
        },
{
    let mut j: usize = 0;
    while j < cubes.len()
        invariant
            j <= cubes@.len(),
            forall|t: int| 0 <= t < j ==> #[trigger] keys_of(cubes@)[t] != (mask, offset),
        decreases cubes@.len() - j,
    {
        if cubes[j].mask == mask && cubes[j].offset == offset {
            return Some(j);
        }
        j = j + 1;
    }
    None
}

/// Pair the faces along one axis; the flag says whether any pair was found.
fn pair_axis(cubes: &Vec<Cube>, a: usize, points: &[Vec<F128>], rep: usize) -> (result: (
    Vec<Cube>,
    bool,
))
    requires
        rep < points@.len(),
        a < points@[rep as int]@.len() <= 64,
        spanned(points@, rep as int, cubes@),
    ensures
        keys_of(result.0@) == paired(keys_of(cubes@), axis_bit(a as int), cubes@.len() as int),
        spanned(points@, rep as int, result.0@),
        !result.1 ==> keys_of(result.0@) == keys_of(cubes@),
        result.1 ==> result.0@.len() < cubes@.len(),
        result.0@.len() <= cubes@.len(),
{
    let ghost keys = keys_of(cubes@);
    let bit: u64 = 1u64 << (a as u64);
    let mut out: Vec<Cube> = Vec::new();
    let mut changed = false;
    let mut i: usize = 0;
    let ghost mut lost: int = 0;
    let ghost mut upper = false;
    while i < cubes.len()
        invariant
            rep < points@.len(),
            a < points@[rep as int]@.len() <= 64,
            bit == axis_bit(a as int),
            spanned(points@, rep as int, cubes@),
            keys == keys_of(cubes@),
            i <= cubes@.len(),
            keys_of(out@) == paired(keys, bit, i as int),
            spanned(points@, rep as int, out@),
            out@.len() + lost == i,
            0 <= lost,
            upper == (lost > 0),
            !changed ==> lost == 0 && keys_of(out@) == keys.take(i as int),
            changed ==> exists|q: int|
                0 <= q < keys.len() && image(keys, #[trigger] keys[q], bit) is None,
            forall|q: int|
                0 <= q < i && lost == 0 ==> image(keys, #[trigger] keys[q], bit) is Some,
        decreases cubes@.len() - i,
    {
        let ghost before = out@;
        let mask = cubes[i].mask;
        let offset = cubes[i].offset;
        assert(keys[i as int] == (mask, offset));
        let partner = if mask & bit != 0 {
            None
        } else {
            find_face(cubes, mask, offset ^ bit)
        };
        match partner {
            None => {
                let vertices = copy_indices(&cubes[i].vertices);
                out.push(Cube { mask, offset, vertices });
                proof {
                    assert(keys_of(out@) =~= keys_of(before).push((mask, offset)));
                    assert forall|t: int| 0 <= t < out@.len() implies spans(
                        points@,
                        rep as int,
                        (#[trigger] out@[t]).vertices@,
                        out@[t].mask,
                        out@[t].offset,
                    ) by {
                        if t < before.len() {
                            assert(out@[t] == before[t]);
                        } else {
                            assert(spans(
                                points@,
                                rep as int,
                                cubes@[i as int].vertices@,
                                mask,
                                offset,
                            ));
                        }
                    }
                    assert(keys.take(i + 1) =~= keys.take(i as int).push(keys[i as int]));
                }
            },
            Some(j) => {
                changed = true;
                proof {
                    assert(keys.contains((mask, offset ^ bit))) by {
                        assert(keys[j as int] == (mask, offset ^ bit));
                    }
                    lemma_axis_bits(offset, a as u64, a as u64);
                    lemma_axis_bits(offset ^ bit, a as u64, a as u64);
                }
                if offset & bit == 0 {
                    let mut vertices = copy_indices(&cubes[i].vertices);
                    let mut upper_half = copy_indices(&cubes[j].vertices);
                    let ghost l = vertices@;
                    let ghost r = upper_half@;
                    vertices.append(&mut upper_half);
                    proof {
                        assert(spans(points@, rep as int, l, mask, offset)) by {
                            assert(cubes@[i as int].vertices@ == l);
                        }
                        assert(spans(points@, rep as int, r, mask, offset ^ bit)) by {
                            assert(cubes@[j as int].vertices@ == r);
                        }
                        lemma_merge(points@, rep as int, l, r, mask, offset, a as int);
                        assert(vertices@ =~= l + r);
                        assert(image(keys, keys[j as int], bit) is None) by {
                            assert(keys[i as int] == (mask, (offset ^ bit) ^ bit));
                            assert(keys.contains((mask, (offset ^ bit) ^ bit)));
                            lemma_pair_faces(0, mask, offset, a as u64);
                        }
                    }
                    out.push(Cube { mask: mask | bit, offset, vertices });
                    proof {
                        assert(keys_of(out@) =~= keys_of(before).push((mask | bit, offset)));
                        assert forall|t: int| 0 <= t < out@.len() implies spans(
                            points@,
                            rep as int,
                            (#[trigger] out@[t]).vertices@,
                            out@[t].mask,
                            out@[t].offset,
                        ) by {
                            if t < before.len() {
                                assert(out@[t] == before[t]);
                            }
                        }
                    }
                } else {
                    proof {
                        lost = lost + 1;
                        upper = true;
                        assert(image(keys, keys[i as int], bit) is None);
                    }
                }
            },
        }
        i = i + 1;
    }
    proof {
        assert(keys.take(keys.len() as int) =~= keys);
        if changed && lost == 0 {
            let q = choose|q: int|
                0 <= q < keys.len() && image(keys, #[trigger] keys[q], bit) is None;
            assert(image(keys, keys[q], bit) is Some);
        }
    }
    (out, changed)
}

/// Two halves span the face they make up.
proof fn lemma_merge(
    points: Seq<Vec<F128>>,
    rep: int,
    l: Seq<usize>,
    r: Seq<usize>,
    mask: u64,
    offset: u64,
    a: int,
)
    requires
        0 <= rep < points.len(),
        0 <= a < points[rep]@.len() <= 64,
        mask & axis_bit(a) == 0,
        offset & axis_bit(a) == 0,
        spans(points, rep, l, mask, offset),
        spans(points, rep, r, mask, offset ^ axis_bit(a)),
    ensures
        spans(points, rep, l + r, mask | axis_bit(a), offset),
{
    lemma_spans(points, rep, l, mask, offset);
    lemma_spans(points, rep, r, mask, offset ^ axis_bit(a));
    let v = l + r;
    let k = l.len() as int;
    assert(v.take(k) =~= l);
    assert(v.skip(k) =~= r);
    lemma_pair_faces(0, mask, offset, a as u64);
    lemma_axis_bits(mask, a as u64, a as u64);
    lemma_axis_bits(mask | axis_bit(a), a as u64, a as u64);
    lemma_axis_bits(offset, a as u64, a as u64);
    assert(has_axis(mask | axis_bit(a), a));
    assert(splits_at(points, rep, v, mask | axis_bit(a), offset, a, k));
}

/// Pair along every axis until nothing is left to pair.
fn settle(start: Vec<Cube>, points: &[Vec<F128>], rep: usize) -> (cubes: Vec<Cube>)
    requires
        rep < points@.len(),
        points@[rep as int]@.len() <= 63,
        spanned(points@, rep as int, start@),
    ensures
        settles(keys_of(start@), points@[rep as int]@.len() as int, keys_of(cubes@)),
        spanned(points@, rep as int, cubes@),
{
    let vars: usize = points[rep].len();
    let ghost keys = keys_of(start@);
    let mut cubes = start;
    let mut again = true;
    let ghost mut rounds: nat = 0;
    while again
        invariant
            rep < points@.len(),
            vars == points@[rep as int]@.len(),
            vars <= 63,
            spanned(points@, rep as int, cubes@),
            keys_of(cubes@) == swept(keys, vars as int, rounds),
            !again ==> sweep(keys_of(cubes@), vars as int) == keys_of(cubes@),
        decreases cubes@.len(), (if again {
            1int
        } else {
            0int
        }),
    {
        again = false;
        let ghost first = keys_of(cubes@);
        let ghost count = cubes@.len();
        let mut axis: usize = 0;
        while axis < vars
            invariant
                rep < points@.len(),
                vars == points@[rep as int]@.len(),
                vars <= 63,
                axis <= vars,
                spanned(points@, rep as int, cubes@),
                keys_of(cubes@) == sweep(first, axis as int),
                !again ==> keys_of(cubes@) == first,
                again ==> cubes@.len() < count,
                cubes@.len() <= count,
            decreases vars - axis,
        {
            let (next, changed) = pair_axis(&cubes, axis, points, rep);
            assert(keys_of(cubes@).len() == cubes@.len());
            cubes = next;
            if changed {
                again = true;
            }
            axis = axis + 1;
        }
        proof {
            rounds = rounds + 1;
        }
    }
    cubes
}

/// Keys in order.
pub open spec fn key_less(a: (u64, u64), b: (u64, u64)) -> bool {
    a.0 < b.0 || (a.0 == b.0 && a.1 < b.1)
}

/// The same faces in key order.
pub open spec fn sorts(keys: Seq<(u64, u64)>, faces: Seq<(u64, u64)>) -> bool {
    &&& faces.len() == keys.len()
    &&& forall|i: int, j: int|
        0 <= i < j < faces.len() ==> key_less(#[trigger] faces[i], #[trigger] faces[j])
    &&& forall|k: (u64, u64)| #[trigger] faces.contains(k) == keys.contains(k)
}

/// Sort faces by key.
fn sort_faces(cubes: Vec<Cube>, points: &[Vec<F128>], rep: usize) -> (sorted: Vec<Cube>)
    requires
        spanned(points@, rep as int, cubes@),
        forall|i: int, j: int|
            0 <= i < j < cubes@.len() ==> keys_of(cubes@)[i] != keys_of(cubes@)[j],
    ensures
        sorts(keys_of(cubes@), keys_of(sorted@)),
        spanned(points@, rep as int, sorted@),
{
    let ghost keys = keys_of(cubes@);
    let mut sorted: Vec<Cube> = Vec::new();
    let mut i: usize = 0;
    proof {
        assert(keys_of(sorted@) =~= Seq::<(u64, u64)>::empty());
        assert(keys.take(0) =~= Seq::<(u64, u64)>::empty());
    }
    while i < cubes.len()
        invariant
            keys == keys_of(cubes@),
            spanned(points@, rep as int, cubes@),
            forall|i: int, j: int|
                0 <= i < j < cubes@.len() ==> keys_of(cubes@)[i] != keys_of(cubes@)[j],
            i <= cubes@.len(),
            sorts(keys.take(i as int), keys_of(sorted@)),
            spanned(points@, rep as int, sorted@),
        decreases cubes@.len() - i,
    {
        let mask = cubes[i].mask;
        let offset = cubes[i].offset;
        let ghost before = sorted@;
        let ghost old_keys = keys_of(before);
        let ghost key = (mask, offset);
        let mut at: usize = 0;
        let count: usize = sorted.len();
        while at < count && (sorted[at].mask < mask || (sorted[at].mask == mask
            && sorted[at].offset < offset))
            invariant
                key == (mask, offset),
                sorted@ == before,
                old_keys == keys_of(before),
                count == before.len(),
                at <= count,
                forall|t: int| 0 <= t < at ==> key_less(#[trigger] old_keys[t], key),
            decreases count - at,
        {
            at = at + 1;
        }
        let vertices = copy_indices(&cubes[i].vertices);
        proof {
            assert(keys[i as int] == key);
            assert(!keys.take(i as int).contains(key)) by {
                if keys.take(i as int).contains(key) {
                    let t = choose|t: int| 0 <= t < i && keys.take(i as int)[t] == key;
                    assert(keys_of(cubes@)[t] != keys_of(cubes@)[i as int]);
                }
            }
            assert(!old_keys.contains(key));
            assert forall|t: int| at <= t < count implies key_less(key, #[trigger] old_keys[t]) by {
                assert(old_keys[t] != key);
                assert(old_keys[at as int] != key);
                assert(!key_less(old_keys[at as int], key));
                if t > at {
                    assert(key_less(old_keys[at as int], old_keys[t]));
                }
            }
        }
        sorted.insert(at, Cube { mask, offset, vertices });
        proof {
            let new_keys = keys_of(sorted@);
            assert(new_keys =~= old_keys.insert(at as int, key));
            assert(keys.take(i + 1) =~= keys.take(i as int).push(key));
            assert forall|x: int, y: int| 0 <= x < y < new_keys.len() implies key_less(
                #[trigger] new_keys[x],
                #[trigger] new_keys[y],
            ) by {
                let u = if x < at {
                    x
                } else {
                    x - 1
                };
                let w = if y < at {
                    y
                } else {
                    y - 1
                };
                if x != at && y != at {
                    assert(new_keys[x] == old_keys[u] && new_keys[y] == old_keys[w]);
                } else if x == at {
                    assert(new_keys[y] == old_keys[w]);
                } else {
                    assert(new_keys[x] == old_keys[u]);
                }
            }
            assert forall|k: (u64, u64)| #[trigger] new_keys.contains(k) == keys.take(
                i + 1,
            ).contains(k) by {
                let longer = keys.take(i + 1);
                assert(old_keys.contains(k) == keys.take(i as int).contains(k));
                if new_keys.contains(k) {
                    let x = choose|x: int| 0 <= x < new_keys.len() && new_keys[x] == k;
                    if x == at {
                        assert(longer[i as int] == k);
                    } else {
                        let u = if x < at {
                            x
                        } else {
                            x - 1
                        };
                        assert(old_keys[u] == k);
                        let t = choose|t: int| 0 <= t < i && keys.take(i as int)[t] == k;
                        assert(longer[t] == k);
                    }
                }
                if longer.contains(k) {
                    let t = choose|t: int| 0 <= t < longer.len() && longer[t] == k;
                    if t == i {
                        assert(new_keys[at as int] == k);
                    } else {
                        assert(keys.take(i as int)[t] == k);
                        let u = choose|u: int| 0 <= u < old_keys.len() && old_keys[u] == k;
                        let x = if u < at {
                            u
                        } else {
                            u + 1
                        };
                        assert(new_keys[x] == k);
                    }
                }
            }
            assert forall|t: int| 0 <= t < sorted@.len() implies spans(
                points@,
                rep as int,
                (#[trigger] sorted@[t]).vertices@,
                sorted@[t].mask,
                sorted@[t].offset,
            ) by {
                if t == at {
                    assert(spans(points@, rep as int, cubes@[i as int].vertices@, mask, offset));
                } else {
                    let u = if t < at {
                        t
                    } else {
                        t - 1
                    };
                    assert(sorted@[t] == before[u]);
                }
            }
        }
        i = i + 1;
    }
    assert(keys.take(keys.len() as int) =~= keys);
    sorted
}

/// Two points are in one family.
fn agree(p: &Vec<F128>, q: &Vec<F128>) -> (same: bool)
    requires
        p@.len() == q@.len(),
    ensures
        same == same_family(p@, q@),
{
    let mut a: usize = 0;
    while a < p.len()
        invariant
            p@.len() == q@.len(),
            a <= p@.len(),
            forall|x: int|
                0 <= x < a ==> (#[trigger] p@[x] == q@[x] || (boolean(p@[x]) && boolean(q@[x]))),
        decreases p@.len() - a,
    {
        if p[a] != q[a] && !(is_boolean(p[a]) && is_boolean(q[a])) {
            return false;
        }
        a = a + 1;
    }
    true
}

fn is_boolean(x: F128) -> (yes: bool)
    ensures
        yes == boolean(x),
{
    x == F128::zero() || x == F128::one()
}

/// The Boolean offset of a point.
fn offset(p: &Vec<F128>) -> (o: u64)
    requires
        p@.len() <= 63,
    ensures
        o == point_offset(p@),
{
    let mut o: u64 = 0;
    let mut a: usize = 0;
    while a < p.len()
        invariant
            p@.len() <= 63,
            a <= p@.len(),
            o == offset_of(p@, a as int),
        decreases p@.len() - a,
    {
        if p[a] == F128::one() {
            o = o | (1u64 << (a as u64));
        }
        a = a + 1;
    }
    o
}

/// The corners of a family as faces without a varying axis.
fn corner_faces(points: &[Vec<F128>], rep: usize) -> (cubes: Vec<Cube>)
    requires
        rep < points@.len(),
        points@[rep as int]@.len() <= 63,
        forall|i: int|
            0 <= i < points@.len() ==> (#[trigger] points@[i])@.len() == points@[rep as int]@.len(),
    ensures
        keys_of(cubes@) == corners(points@, rep as int, points@.len() as int),
        spanned(points@, rep as int, cubes@),
{
    let mut cubes: Vec<Cube> = Vec::new();
    let mut i: usize = 0;
    assert(keys_of(cubes@) =~= Seq::<(u64, u64)>::empty());
    while i < points.len()
        invariant
            rep < points@.len(),
            points@[rep as int]@.len() <= 63,
            forall|i: int|
                0 <= i < points@.len() ==> (#[trigger] points@[i])@.len() == points@[rep as int]@.len(),
            i <= points@.len(),
            keys_of(cubes@) == corners(points@, rep as int, i as int),
            spanned(points@, rep as int, cubes@),
        decreases points@.len() - i,
    {
        let ghost before = cubes@;
        if agree(&points[rep], &points[i]) {
            let o = offset(&points[i]);
            if find_face(&cubes, 0, o).is_none() {
                let mut vertices: Vec<usize> = Vec::new();
                vertices.push(i);
                cubes.push(Cube { mask: 0, offset: o, vertices });
                proof {
                    assert(keys_of(cubes@) =~= keys_of(before).push((0u64, o)));
                    assert(spans(points@, rep as int, vertices@, 0, o));
                    assert forall|t: int| 0 <= t < cubes@.len() implies spans(
                        points@,
                        rep as int,
                        (#[trigger] cubes@[t]).vertices@,
                        cubes@[t].mask,
                        cubes@[t].offset,
                    ) by {
                        if t < before.len() {
                            assert(cubes@[t] == before[t]);
                        }
                    }
                }
            }
        }
        i = i + 1;
    }
    cubes
}

/// The families of the claims and their faces: families in claim order, each
/// with its settled faces in key order.
pub open spec fn plans(points: Seq<Vec<F128>>, families: Seq<Family>) -> bool {
    let reps = representatives(points, points.len() as int);
    &&& families.len() == reps.len()
    &&& forall|k: int| 0 <= k < families.len() ==> plans_family(points, #[trigger] families[k])
    &&& forall|k: int|
        0 <= k < families.len() ==> (#[trigger] families[k]).representative == reps[k]
}

/// The faces of one family.
pub open spec fn plans_family(points: Seq<Vec<F128>>, family: Family) -> bool {
    let rep = family.representative as int;
    &&& rep < points.len()
    &&& spanned(points, rep, family.cubes@)
    &&& exists|faces: Seq<(u64, u64)>|
        settles(
            corners(points, rep, points.len() as int),
            points[rep]@.len() as int,
            faces,
        ) && #[trigger] sorts(faces, keys_of(family.cubes@))
}

/// What is wrong with the claims, if anything.
pub open spec fn claims_error(points: Seq<Vec<F128>>, values: Seq<F128>) -> Option<Seq<char>> {
    if points.len() != values.len() {
        Some("face claim count mismatch"@)
    } else if exists|i: int|
        0 <= i < points.len() && ((#[trigger] points[i])@.len() > 63 || points[i]@.len()
            != points[0]@.len()) {
        Some("invalid face claim arity"@)
    } else if exists|i: int, j: int|
        0 <= i < points.len() && 0 <= j < points.len() && (#[trigger] points[i])@ == (
        #[trigger] points[j])@ && values[i] != values[j] {
        Some("conflicting duplicate face claim"@)
    } else {
        None
    }
}

fn equal_points(p: &Vec<F128>, q: &Vec<F128>) -> (same: bool)
    requires
        p@.len() == q@.len(),
    ensures
        same == (p@ == q@),
{
    let mut a: usize = 0;
    while a < p.len()
        invariant
            p@.len() == q@.len(),
            a <= p@.len(),
            forall|x: int| 0 <= x < a ==> p@[x] == q@[x],
        decreases p@.len() - a,
    {
        if p[a] != q[a] {
            return false;
        }
        a = a + 1;
    }
    assert(p@ =~= q@);
    true
}

/// Group the claims into families and pair their faces. Duplicate points must
/// carry equal values.
pub fn plan_faces(points: &[Vec<F128>], values: &[F128]) -> (result: Result<
    Vec<Family>,
    &'static str,
>)
    ensures
        match claims_error(points@, values@) {
            Some(message) => result matches Err(e) && e@ == message,
            None => result matches Ok(families) && plans(points@, families@),
        },
{
    if points.len() != values.len() {
        return Err("face claim count mismatch");
    }
    let total: usize = points.len();
    let vars: usize = if total == 0 {
        0
    } else {
        points[0].len()
    };
    let mut i: usize = 0;
    while i < total
        invariant
            total == points@.len(),
            total == values@.len(),
            i <= total,
            total > 0 ==> vars == points@[0]@.len(),
            forall|k: int|
                0 <= k < i ==> (#[trigger] points@[k])@.len() <= 63 && points@[k]@.len() == vars,
        decreases total - i,
    {
        if points[i].len() > 63 || points[i].len() != vars {
            assert(points@[i as int]@.len() > 63 || points@[i as int]@.len() != points@[0]@.len());
            return Err("invalid face claim arity");
        }
        i = i + 1;
    }
    let mut i: usize = 0;
    while i < total
        invariant
            total == points@.len(),
            total == values@.len(),
            total > 0 ==> vars == points@[0]@.len(),
            forall|k: int|
                0 <= k < total ==> (#[trigger] points@[k])@.len() <= 63 && points@[k]@.len()
                    == vars,
            i <= total,
            forall|x: int, y: int|
                0 <= x < i && 0 <= y < x && (#[trigger] points@[x])@ == (#[trigger] points@[y])@
                    ==> values@[x] == values@[y],
        decreases total - i,
    {
        let mut j: usize = 0;
        while j < i
            invariant
                total == points@.len(),
                total == values@.len(),
                total > 0 ==> vars == points@[0]@.len(),
                forall|k: int|
                    0 <= k < total ==> (#[trigger] points@[k])@.len() <= 63 && points@[k]@.len()
                        == vars,
                j <= i < total,
                forall|y: int|
                    0 <= y < j && points@[i as int]@ == (#[trigger] points@[y])@
                        ==> values@[i as int] == values@[y],
            decreases i - j,
        {
            if equal_points(&points[i], &points[j]) && values[i] != values[j] {
                assert(points@[i as int]@ == points@[j as int]@);
                return Err("conflicting duplicate face claim");
            }
            j = j + 1;
        }
        i = i + 1;
    }
    let mut families: Vec<Family> = Vec::new();
    let mut i: usize = 0;
    while i < total
        invariant
            total == points@.len(),
            forall|k: int|
                0 <= k < total ==> (#[trigger] points@[k])@.len() <= 63 && points@[k]@.len()
                    == vars,
            i <= total,
            families@.len() == representatives(points@, i as int).len(),
            forall|k: int| 0 <= k < families@.len() ==> plans_family(points@, #[trigger] families@[k]),
            forall|k: int|
                0 <= k < families@.len() ==> (#[trigger] families@[k]).representative
                    == representatives(points@, i as int)[k],
        decreases total - i,
    {
        let ghost reps = representatives(points@, i as int);
        let mut known = false;
        let mut k: usize = 0;
        while k < families.len() && !known
            invariant
                total == points@.len(),
                forall|k: int|
                    0 <= k < total ==> (#[trigger] points@[k])@.len() <= 63 && points@[k]@.len()
                        == vars,
                i < total,
                reps == representatives(points@, i as int),
                families@.len() == reps.len(),
                forall|k: int|
                    0 <= k < families@.len() ==> plans_family(points@, #[trigger] families@[k]),
                forall|k: int|
                    0 <= k < families@.len() ==> (#[trigger] families@[k]).representative
                        == reps[k],
                k <= families@.len(),
                known ==> exists|t: int|
                    0 <= t < reps.len() && same_family(
                        points@[#[trigger] reps[t]]@,
                        points@[i as int]@,
                    ),
                !known ==> forall|t: int|
                    0 <= t < k ==> !same_family(points@[#[trigger] reps[t]]@, points@[i as int]@),
            decreases families@.len() - k, (if known {
                0int
            } else {
                1int
            }),
        {
            assert(plans_family(points@, families@[k as int]));
            assert(families@[k as int].representative == reps[k as int]);
            if agree(&points[families[k].representative], &points[i]) {
                known = true;
            } else {
                k = k + 1;
            }
        }
        if !known {
            let ghost before = families@;
            let start = corner_faces(points, i);
            let ghost keys = corners(points@, i as int, points@.len() as int);
            let settled = settle(start, points, i);
            let ghost faces = keys_of(settled@);
            proof {
                lemma_corner_facts(points@, i as int, points@.len() as int);
                faces_partition_the_corners(keys, vars as int, faces, 0);
                assert forall|x: int, y: int| 0 <= x < y < faces.len() implies faces[x]
                    != faces[y] by {
                    assert(faces[x].1 & faces[x].0 == 0);
                    lemma_self_corner(faces[x].0, faces[x].1);
                    assert(on_face(faces[x].1, faces[x]));
                    if faces[x] == faces[y] {
                        assert(on_face(faces[x].1, faces[y]));
                    }
                }
            }
            let cubes = sort_faces(settled, points, i);
            proof {
                assert(sorts(faces, keys_of(cubes@)));
            }
            families.push(Family { representative: i, cubes });
            proof {
                assert(plans_family(points@, families@.last()));
                assert forall|k: int| 0 <= k < families@.len() implies plans_family(
                    points@,
                    #[trigger] families@[k],
                ) by {
                    if k < before.len() {
                        assert(families@[k] == before[k]);
                    }
                }
                let next = representatives(points@, i + 1);
                assert(next == reps.push(i as int));
                assert forall|k: int| 0 <= k < families@.len() implies (
                #[trigger] families@[k]).representative == next[k] by {
                    if k < before.len() {
                        assert(families@[k] == before[k]);
                    }
                }
            }
        }
        i = i + 1;
    }
    Ok(families)
}

// ---------------------------------------------------------------------------
// Closing.
// ---------------------------------------------------------------------------

/// The varying axes below axis `n`.
pub open spec fn axes_below(mask: u64, n: int) -> int
    decreases n,
{
    if n <= 0 {
        0
    } else {
        axes_below(mask, n - 1) + (if has_axis(mask, n - 1) {
            1int
        } else {
            0
        })
    }
}

/// The challenges that the first `k` faces take.
pub open spec fn challenges_before(cubes: Seq<Cube>, vars: int, k: int) -> int
    decreases k,
{
    if k <= 0 {
        0
    } else {
        challenges_before(cubes, vars, k - 1) + axes_below(cubes[k - 1].mask, vars)
    }
}

/// The point of a closed face: challenges on the varying axes in order, the
/// offset's bit on the other Boolean axes, the family's coordinate elsewhere.
pub open spec fn closed_point(
    base: Seq<F128>,
    mask: u64,
    offset: u64,
    challenges: Seq<F128>,
    start: int,
) -> Seq<F128> {
    Seq::new(
        base.len(),
        |a: int|
            if has_axis(mask, a) {
                challenges[start + axes_below(mask, a)]
            } else if boolean(base[a]) {
                if has_axis(offset, a) {
                    fone()
                } else {
                    fzero()
                }
            } else {
                base[a]
            },
    )
}

/// The value of the family's claim at a corner.
pub open spec fn corner_value(
    points: Seq<Vec<F128>>,
    values: Seq<F128>,
    rep: int,
    offset: u64,
) -> F128 {
    values[(choose|i: usize| is_corner(points, rep, i, offset)) as int]
}

/// The multilinear value of a face at `p`, from its corners' values, with the
/// first `n` axes interpolated.
pub open spec fn face_value(
    value: spec_fn(u64) -> F128,
    p: Seq<F128>,
    mask: u64,
    offset: u64,
    n: int,
) -> F128
    decreases n,
{
    if n <= 0 {
        value(offset)
    } else if has_axis(mask, n - 1) {
        fadd(
            fmul(
                fadd(fone(), p[n - 1]),
                face_value(value, p, mask, offset, n - 1),
            ),
            fmul(p[n - 1], face_value(value, p, mask, offset ^ axis_bit(n - 1), n - 1)),
        )
    } else {
        face_value(value, p, mask, offset, n - 1)
    }
}

/// A face's claim is closed at the given challenges.
pub open spec fn closes(
    claim: ClosedClaim,
    points: Seq<Vec<F128>>,
    values: Seq<F128>,
    rep: int,
    cube: Cube,
    challenges: Seq<F128>,
    start: int,
) -> bool {
    let vars = points[rep]@.len() as int;
    &&& claim.point@ == closed_point(points[rep]@, cube.mask, cube.offset, challenges, start)
    &&& claim.value == face_value(
        |c: u64| corner_value(points, values, rep, c),
        claim.point@,
        cube.mask,
        cube.offset,
        vars,
    )
}

/// The weight of a claim's corner at `p`.
spec fn vertex_weight(p: Seq<F128>, mask: u64, x: Seq<F128>, n: int) -> F128 {
    fprod(
        |a: int|
            if has_axis(mask, a) {
                fadd(fadd(p[a], fone()), x[a])
            } else {
                fone()
            },
        n,
    )
}

proof fn lemma_fprod_single(f: spec_fn(int) -> F128, n: int, k: int)
    requires
        0 <= k < n,
        forall|i: int| 0 <= i < n && i != k ==> #[trigger] f(i) == fone(),
    ensures
        fprod(f, n) == f(k),
    decreases n,
{
    if n - 1 == k {
        lemma_fprod_ones(f, k);
        lemma_fmul_one(f(k));
    } else {
        lemma_fprod_single(f, n - 1, k);
        lemma_fmul_one(f(k));
        lemma_fmul_comm(f(k), fone());
    }
}

proof fn lemma_fprod_ones(f: spec_fn(int) -> F128, n: int)
    requires
        forall|i: int| 0 <= i < n ==> #[trigger] f(i) == fone(),
    ensures
        fprod(f, n) == fone(),
    decreases n,
{
    if n > 0 {
        lemma_fprod_ones(f, n - 1);
        lemma_fmul_one(fone());
    }
}

/// A weight with one of its axes taken out.
proof fn lemma_weight_axis(p: Seq<F128>, mask: u64, x: Seq<F128>, n: int, a: int)
    requires
        0 <= a < n <= 64,
        has_axis(mask, a),
    ensures
        vertex_weight(p, mask, x, n) == fmul(
            fadd(fadd(p[a], fone()), x[a]),
            vertex_weight(p, mask ^ axis_bit(a), x, n),
        ),
{
    let factor = |m: u64, j: int|
        if has_axis(m, j) {
            fadd(fadd(p[j], fone()), x[j])
        } else {
            fone()
        };
    let f = |j: int| factor(mask, j);
    let g = |j: int| factor(mask ^ axis_bit(a), j);
    let h = |j: int|
        if j == a {
            f(a)
        } else {
            fone()
        };
    let hg = |j: int| fmul(h(j), g(j));
    assert forall|j: int| 0 <= j < n implies #[trigger] f(j) == hg(j) by {
        lemma_axis_bits(mask, a as u64, j as u64);
        lemma_fmul_one(f(j));
        lemma_fmul_comm(f(j), fone());
        lemma_fmul_one(g(j));
    }
    lemma_fprod_congr(f, hg, n);
    lemma_fprod_mul(h, g, n);
    lemma_fprod_congr(hg, |j: int| fmul(h(j), g(j)), n);
    lemma_fprod_single(h, n, a);
    lemma_fprod_congr(
        f,
        |j: int|
            if has_axis(mask, j) {
                fadd(fadd(p[j], fone()), x[j])
            } else {
                fone()
            },
        n,
    );
    lemma_fprod_congr(
        g,
        |j: int|
            if has_axis(mask ^ axis_bit(a), j) {
                fadd(fadd(p[j], fone()), x[j])
            } else {
                fone()
            },
        n,
    );
}

/// Axes from `n` on play no part in the first `n` axes' interpolation.
proof fn lemma_value_high_axis(
    value: spec_fn(u64) -> F128,
    p: Seq<F128>,
    mask: u64,
    offset: u64,
    n: int,
    a: int,
)
    requires
        0 <= n <= a < 64,
    ensures
        face_value(value, p, mask, offset, n) == face_value(
            value,
            p,
            mask ^ axis_bit(a),
            offset,
            n,
        ),
    decreases n,
{
    if n > 0 {
        lemma_axis_bits(mask, a as u64, (n - 1) as u64);
        lemma_value_high_axis(value, p, mask, offset, n - 1, a);
        lemma_value_high_axis(value, p, mask, offset ^ axis_bit(n - 1), n - 1, a);
    }
}

proof fn lemma_xor_swap(o: u64, a: u64, b: u64)
    by (bit_vector)
    ensures
        (o ^ a) ^ b == (o ^ b) ^ a,
{
}

/// A face's value splits along any of its axes.
proof fn lemma_value_axis(
    value: spec_fn(u64) -> F128,
    p: Seq<F128>,
    mask: u64,
    offset: u64,
    n: int,
    a: int,
)
    requires
        0 <= a < n <= 64,
        has_axis(mask, a),
    ensures
        face_value(value, p, mask, offset, n) == fadd(
            fmul(
                fadd(fone(), p[a]),
                face_value(value, p, mask ^ axis_bit(a), offset, n),
            ),
            fmul(
                p[a],
                face_value(value, p, mask ^ axis_bit(a), offset ^ axis_bit(a), n),
            ),
        ),
    decreases n,
{
    let b = axis_bit(a);
    let m = mask ^ b;
    lemma_axis_bits(mask, a as u64, (n - 1) as u64);
    if a == n - 1 {
        lemma_value_high_axis(value, p, mask, offset, n - 1, a);
        lemma_value_high_axis(value, p, mask, offset ^ b, n - 1, a);
    } else {
        let c = axis_bit(n - 1);
        lemma_value_axis(value, p, mask, offset, n - 1, a);
        if has_axis(mask, n - 1) {
            lemma_value_axis(value, p, mask, offset ^ c, n - 1, a);
            lemma_xor_swap(offset, b, c);
            let (x, y) = (p[n - 1], p[a]);
            let (nx, ny) = (fadd(fone(), x), fadd(fone(), y));
            let f00 = face_value(value, p, m, offset, n - 1);
            let f01 = face_value(value, p, m, offset ^ b, n - 1);
            let f10 = face_value(value, p, m, offset ^ c, n - 1);
            let f11 = face_value(value, p, m, (offset ^ c) ^ b, n - 1);
            lemma_bilinear(nx, x, ny, y, f00, f01, f10, f11);
        }
    }
}

/// `a (c w + d x) + b (c y + d z) = c (a w + b y) + d (a x + b z)`.
proof fn lemma_bilinear(a: F128, b: F128, c: F128, d: F128, w: F128, x: F128, y: F128, z: F128)
    ensures
        fadd(
            fmul(a, fadd(fmul(c, w), fmul(d, x))),
            fmul(b, fadd(fmul(c, y), fmul(d, z))),
        ) == fadd(
            fmul(c, fadd(fmul(a, w), fmul(b, y))),
            fmul(d, fadd(fmul(a, x), fmul(b, z))),
        ),
{
    lemma_fmul_distr(a, fmul(c, w), fmul(d, x));
    lemma_fmul_distr(b, fmul(c, y), fmul(d, z));
    lemma_fmul_distr(c, fmul(a, w), fmul(b, y));
    lemma_fmul_distr(d, fmul(a, x), fmul(b, z));
    lemma_factor_swap(a, c, w);
    lemma_factor_swap(a, d, x);
    lemma_factor_swap(b, c, y);
    lemma_factor_swap(b, d, z);
    lemma_fadd_swap(
        fmul(c, fmul(a, w)),
        fmul(d, fmul(a, x)),
        fmul(c, fmul(b, y)),
        fmul(d, fmul(b, z)),
    );
}

proof fn lemma_factor_swap(a: F128, b: F128, c: F128)
    ensures
        fmul(a, fmul(b, c)) == fmul(b, fmul(a, c)),
{
    lemma_fmul_assoc(a, b, c);
    lemma_fmul_comm(a, b);
    lemma_fmul_assoc(b, a, c);
}

/// The corners' values weighted at `p` sum to the face's value.
proof fn lemma_face_sum(
    points: Seq<Vec<F128>>,
    values: Seq<F128>,
    rep: int,
    vertices: Seq<usize>,
    mask: u64,
    offset: u64,
    value: spec_fn(u64) -> F128,
    p: Seq<F128>,
)
    requires
        0 <= rep < points.len(),
        points[rep]@.len() <= 64,
        spans(points, rep, vertices, mask, offset),
        forall|i: int|
            0 <= i < vertices.len() ==> values[(#[trigger] vertices[i]) as int] == value(
                point_offset(points[vertices[i] as int]@),
            ),
    ensures
        fsum(
            |i: int|
                fmul(
                    vertex_weight(
                        p,
                        mask,
                        points[vertices[i] as int]@,
                        points[rep]@.len() as int,
                    ),
                    values[vertices[i] as int],
                ),
            vertices.len() as int,
        ) == face_value(value, p, mask, offset, points[rep]@.len() as int),
    decreases vertices.len(),
{
    let vars = points[rep]@.len() as int;
    let f = |i: int|
        fmul(
            vertex_weight(p, mask, points[vertices[i] as int]@, vars),
            values[vertices[i] as int],
        );
    lemma_spans(points, rep, vertices, mask, offset);
    if vertices.len() <= 1 {
        reveal_with_fuel(fsum, 2);
        let x = points[vertices[0] as int]@;
        let w = |a: int|
            if has_axis(mask, a) {
                fadd(fadd(p[a], fone()), x[a])
            } else {
                fone()
            };
        assert forall|a: int| 0 <= a < vars implies #[trigger] w(a) == fone() by {
            lemma_axis_bits(0, 0, a as u64);
        }
        lemma_fprod_ones(w, vars);
        lemma_fmul_one(values[vertices[0] as int]);
        lemma_fadd_zero(values[vertices[0] as int]);
        lemma_value_point(value, p, offset, vars);
        assert(values[vertices[0] as int] == value(point_offset(x)));
    } else {
        let (a, k) = choose|a: int, k: int|
            #![trigger has_axis(mask, a), vertices.take(k)]
            splits_at(points, rep, vertices, mask, offset, a, k) && spans(
                points,
                rep,
                vertices.take(k),
                mask ^ axis_bit(a),
                offset,
            ) && spans(
                points,
                rep,
                vertices.skip(k),
                mask ^ axis_bit(a),
                offset ^ axis_bit(a),
            );
        let b = axis_bit(a);
        let m = mask ^ b;
        let (l, r) = (vertices.take(k), vertices.skip(k));
        lemma_spans(points, rep, l, m, offset);
        lemma_spans(points, rep, r, m, offset ^ b);
        lemma_axis_bits(mask, a as u64, a as u64);
        lemma_axis_bits(offset, a as u64, a as u64);
        assert forall|i: int| 0 <= i < l.len() implies values[(#[trigger] l[i]) as int] == value(
            point_offset(points[l[i] as int]@),
        ) by {
            assert(l[i] == vertices[i]);
        }
        assert forall|i: int| 0 <= i < r.len() implies values[(#[trigger] r[i]) as int] == value(
            point_offset(points[r[i] as int]@),
        ) by {
            assert(r[i] == vertices[k + i]);
        }
        lemma_face_sum(points, values, rep, l, m, offset, value, p);
        lemma_face_sum(points, values, rep, r, m, offset ^ b, value, p);
        lemma_value_axis(value, p, mask, offset, vars, a);
        let fl = |i: int|
            fmul(vertex_weight(p, m, points[l[i] as int]@, vars), values[l[i] as int]);
        let fr = |i: int|
            fmul(vertex_weight(p, m, points[r[i] as int]@, vars), values[r[i] as int]);
        let na = fadd(fone(), p[a]);
        let low = |i: int| fmul(na, fl(i));
        let high = |i: int| fmul(p[a], fr(i));
        lemma_fadd_comm(fone(), p[a]);
        lemma_fadd_zero(na);
        lemma_fadd_zero(p[a]);
        lemma_fadd_comm(na, fzero());
        assert forall|i: int| 0 <= i < k implies #[trigger] f(i) == low(i) by {
            assert(l[i] == vertices[i]);
            let x = points[vertices[i] as int]@;
            let c = point_offset(x);
            assert(on_face(c, (m, offset)));
            lemma_offset_bits(c, m, offset, a as u64);
            lemma_offset_axis(x, x.len() as int, a);
            assert(x[a] == fzero()) by {
                assert(same_family(points[rep]@, x));
                assert(points[rep]@[a] == x[a] || (boolean(points[rep]@[a]) && boolean(x[a])));
                assert(boolean(points[rep]@[a]));
            }
            lemma_weight_axis(p, mask, x, vars, a);
            lemma_fmul_assoc(na, vertex_weight(p, m, x, vars), values[vertices[i] as int]);
        }
        lemma_fadd_assoc(p[a], fone(), fone());
        lemma_fadd_self(fone());
        lemma_fadd_comm(p[a], fzero());
        let upper = |i: int| f(k + i);
        assert forall|i: int| 0 <= i < r.len() implies #[trigger] upper(i) == high(i) by {
            assert(r[i] == vertices[k + i]);
            let x = points[r[i] as int]@;
            let c = point_offset(x);
            assert(on_face(c, (m, offset ^ b)));
            lemma_offset_bits(c, m, offset ^ b, a as u64);
            lemma_offset_axis(x, x.len() as int, a);
            assert(x[a] == fone());
            lemma_weight_axis(p, mask, x, vars, a);
            lemma_fmul_assoc(p[a], vertex_weight(p, m, x, vars), values[r[i] as int]);
        }
        lemma_fsum_split(f, k, r.len() as int);
        lemma_fsum_congr(f, low, k);
        lemma_fsum_congr(|i: int| f(k + i), high, r.len() as int);
        lemma_fsum_scale(na, fl, k);
        lemma_fsum_scale(p[a], fr, r.len() as int);
    }
}

proof fn lemma_value_point(value: spec_fn(u64) -> F128, p: Seq<F128>, offset: u64, n: int)
    requires
        0 <= n <= 64,
    ensures
        face_value(value, p, 0, offset, n) == value(offset),
    decreases n,
{
    if n > 0 {
        lemma_axis_bits(0, 0, (n - 1) as u64);
        lemma_value_point(value, p, offset, n - 1);
    }
}

/// The claims that a plan needs challenges for.
pub open spec fn challenge_total(families: Seq<Family>, vars: int, k: int) -> int
    decreases k,
{
    if k <= 0 {
        0
    } else {
        challenge_total(families, vars, k - 1) + challenges_before(
            families[k - 1].cubes@,
            vars,
            families[k - 1].cubes@.len() as int,
        )
    }
}

/// The faces of the first `k` families.
pub open spec fn faces_before(families: Seq<Family>, k: int) -> int
    decreases k,
{
    if k <= 0 {
        0
    } else {
        faces_before(families, k - 1) + families[k - 1].cubes@.len()
    }
}

proof fn lemma_axes_below(mask: u64, n: int, a: int)
    requires
        0 <= a <= n,
    ensures
        0 <= axes_below(mask, a) <= axes_below(mask, n),
        axes_below(mask, n) - axes_below(mask, a) <= n - a,
        a < n && has_axis(mask, a) ==> axes_below(mask, a) < axes_below(mask, n),
    decreases n,
{
    if a < n {
        lemma_axes_below(mask, n - 1, a);
    } else if n > 0 {
        lemma_axes_below(mask, n - 1, n - 1);
    }
}

/// The number of challenges that the closed faces take.
pub fn challenge_count(families: &[Family], vars: usize) -> (count: Option<usize>)
    requires
        vars <= 63,
    ensures
        match count {
            Some(n) => n == challenge_total(families@, vars as int, families@.len() as int),
            None => challenge_total(families@, vars as int, families@.len() as int) > usize::MAX,
        },
{
    let mut count: usize = 0;
    let mut k: usize = 0;
    while k < families.len()
        invariant
            vars <= 63,
            k <= families@.len(),
            count == challenge_total(families@, vars as int, k as int),
        decreases families@.len() - k,
    {
        let cubes = &families[k].cubes;
        let ghost start = count;
        let mut i: usize = 0;
        while i < cubes.len()
            invariant
                vars <= 63,
                k < families@.len(),
                *cubes == families@[k as int].cubes,
                start == challenge_total(families@, vars as int, k as int),
                i <= cubes@.len(),
                count == start + challenges_before(cubes@, vars as int, i as int),
            decreases cubes@.len() - i,
        {
            let n = count_axes(cubes[i].mask, vars);
            match count.checked_add(n) {
                Some(next) => {
                    count = next;
                },
                None => {
                    proof {
                        lemma_challenges_grow(cubes@, vars as int, i + 1, cubes@.len() as int);
                        lemma_totals_grow(families@, vars as int, k + 1, families@.len() as int);
                    }
                    return None;
                },
            }
            i = i + 1;
        }
        k = k + 1;
    }
    Some(count)
}

proof fn lemma_challenges_grow(cubes: Seq<Cube>, vars: int, i: int, n: int)
    requires
        0 <= i <= n,
        0 <= vars,
    ensures
        0 <= challenges_before(cubes, vars, i) <= challenges_before(cubes, vars, n),
    decreases n,
{
    if i < n {
        lemma_challenges_grow(cubes, vars, i, n - 1);
        lemma_axes_below(cubes[n - 1].mask, vars, 0);
    } else if n > 0 {
        lemma_challenges_grow(cubes, vars, n - 1, n - 1);
        lemma_axes_below(cubes[n - 1].mask, vars, 0);
    }
}

proof fn lemma_totals_grow(families: Seq<Family>, vars: int, k: int, n: int)
    requires
        0 <= k <= n,
        0 <= vars,
    ensures
        0 <= challenge_total(families, vars, k) <= challenge_total(families, vars, n),
    decreases n,
{
    if n > 0 {
        lemma_challenges_grow(
            families[n - 1].cubes@,
            vars,
            families[n - 1].cubes@.len() as int,
            families[n - 1].cubes@.len() as int,
        );
        if k < n {
            lemma_totals_grow(families, vars, k, n - 1);
        } else {
            lemma_totals_grow(families, vars, n - 1, n - 1);
        }
    }
}

/// The varying axes of a face.
fn count_axes(mask: u64, vars: usize) -> (count: usize)
    requires
        vars <= 63,
    ensures
        count == axes_below(mask, vars as int),
{
    let mut count: usize = 0;
    let mut a: usize = 0;
    while a < vars
        invariant
            vars <= 63,
            a <= vars,
            count == axes_below(mask, a as int),
            count <= a,
        decreases vars - a,
    {
        if (mask >> (a as u64)) & 1 == 1 {
            count = count + 1;
        }
        a = a + 1;
    }
    count
}

/// Close one face at its challenges.
fn close_face(
    points: &[Vec<F128>],
    values: &[F128],
    rep: usize,
    cube: &Cube,
    challenges: &[F128],
    start: usize,
) -> (claim: ClosedClaim)
    requires
        claims_error(points@, values@) is None,
        rep < points@.len(),
        spans(points@, rep as int, cube.vertices@, cube.mask, cube.offset),
        start + axes_below(cube.mask, points@[rep as int]@.len() as int) <= challenges@.len(),
    ensures
        closes(claim, points@, values@, rep as int, *cube, challenges@, start as int),
{
    let ghost base = points@[rep as int]@;
    let mask = cube.mask;
    proof {
        assert(points@[rep as int]@.len() <= 63);
        lemma_spans(points@, rep as int, cube.vertices@, mask, cube.offset);
    }
    let first: usize = cube.vertices[0];
    let ghost x = points@[first as int]@;
    let vars: usize = points[rep].len();
    let total: usize = challenges.len();
    let mut point: Vec<F128> = Vec::new();
    let mut next: usize = start;
    let mut a: usize = 0;
    let ghost target = closed_point(base, mask, cube.offset, challenges@, start as int);
    while a < vars
        invariant
            total == challenges@.len(),
            vars == base.len(),
            vars <= 63,
            mask == cube.mask,
            first < points@.len(),
            x == points@[first as int]@,
            same_family(base, x),
            point_offset(x) == cube.offset,
            target == closed_point(base, mask, cube.offset, challenges@, start as int),
            start + axes_below(mask, vars as int) <= total,
            a <= vars,
            next == start + axes_below(mask, a as int),
            point@ == target.take(a as int),
        decreases vars - a,
    {
        proof {
            lemma_axes_below(mask, vars as int, a as int);
            lemma_axes_below(mask, vars as int, a + 1);
            lemma_offset_axis(x, x.len() as int, a as int);
            assert(base[a as int] == x[a as int] || (boolean(base[a as int]) && boolean(
                x[a as int],
            )));
        }
        if (mask >> (a as u64)) & 1 == 1 {
            point.push(challenges[next]);
            next = next + 1;
        } else {
            point.push(points[first][a]);
        }
        proof {
            assert(point@.last() == target[a as int]);
            assert(point@ =~= target.take(a + 1));
        }
        a = a + 1;
    }
    assert(point@ =~= target);
    let ghost p = point@;
    let ghost vertices = cube.vertices@;
    let ghost f = |i: int|
        fmul(
            vertex_weight(p, mask, points@[vertices[i] as int]@, vars as int),
            values@[vertices[i] as int],
        );
    let mut value = F128::zero();
    let mut i: usize = 0;
    while i < cube.vertices.len()
        invariant
            values@.len() == points@.len(),
            mask == cube.mask,
            vars <= 63,
            point@ == p,
            p.len() == vars,
            vertices == cube.vertices@,
            forall|i: int|
                0 <= i < vertices.len() ==> (#[trigger] vertices[i]) < points@.len()
                    && points@[vertices[i] as int]@.len() == vars,
            f == (|i: int|
                fmul(
                    vertex_weight(p, mask, points@[vertices[i] as int]@, vars as int),
                    values@[vertices[i] as int],
                )),
            i <= vertices.len(),
            value == fsum(f, i as int),
        decreases vertices.len() - i,
    {
        let index = cube.vertices[i];
        assert(vertices[i as int] == index);
        let ghost x = points@[index as int]@;
        let ghost w = |a: int|
            if has_axis(mask, a) {
                fadd(fadd(p[a], fone()), x[a])
            } else {
                fone()
            };
        let mut weight = F128::one();
        let mut a: usize = 0;
        while a < vars
            invariant
                vars <= 63,
                point@ == p,
                p.len() == vars,
                index < points@.len(),
                x == points@[index as int]@,
                x.len() == vars,
                w == (|a: int|
                    if has_axis(mask, a) {
                        fadd(fadd(p[a], fone()), x[a])
                    } else {
                        fone()
                    }),
                a <= vars,
                weight == fprod(w, a as int),
            decreases vars - a,
        {
            proof {
                lemma_fmul_one(weight);
                lemma_fmul_comm(weight, fone());
            }
            if (mask >> (a as u64)) & 1 == 1 {
                weight = weight * (point[a] + F128::one() + points[index][a]);
            }
            a = a + 1;
        }
        value = value + weight * values[index];
        i = i + 1;
    }
    proof {
        let val = |c: u64| corner_value(points@, values@, rep as int, c);
        assert forall|i: int| 0 <= i < vertices.len() implies values@[(
        #[trigger] vertices[i]) as int] == val(point_offset(points@[vertices[i] as int]@)) by {
            let v = vertices[i];
            let c = point_offset(points@[v as int]@);
            assert(is_corner(points@, rep as int, v, c));
            let u = choose|u: usize| is_corner(points@, rep as int, u, c);
            assert(is_corner(points@, rep as int, u, c));
            lemma_family_transitive(base, points@[u as int]@, points@[v as int]@);
            lemma_same_point(points@[u as int]@, points@[v as int]@);
        }
        lemma_face_sum(points@, values@, rep as int, vertices, mask, cube.offset, val, p);
        lemma_fsum_congr(
            f,
            |i: int|
                fmul(
                    vertex_weight(
                        p,
                        mask,
                        points@[vertices[i] as int]@,
                        points@[rep as int]@.len() as int,
                    ),
                    values@[vertices[i] as int],
                ),
            vertices.len() as int,
        );
    }
    ClosedClaim { point, value }
}

proof fn lemma_family_transitive(base: Seq<F128>, p: Seq<F128>, q: Seq<F128>)
    requires
        same_family(base, p),
        same_family(base, q),
    ensures
        same_family(p, q),
{
    assert forall|a: int| 0 <= a < p.len() implies (#[trigger] p[a] == q[a] || (boolean(p[a])
        && boolean(q[a]))) by {
        assert(base[a] == p[a] || (boolean(base[a]) && boolean(p[a])));
        assert(base[a] == q[a] || (boolean(base[a]) && boolean(q[a])));
    }
}

/// Every face of the plan is closed, in plan order, at its own challenges.
pub open spec fn closes_all(
    claims: Seq<ClosedClaim>,
    points: Seq<Vec<F128>>,
    values: Seq<F128>,
    families: Seq<Family>,
    challenges: Seq<F128>,
    vars: int,
) -> bool {
    &&& claims.len() == faces_before(families, families.len() as int)
    &&& forall|k: int, i: int|
        #![trigger families[k].cubes@[i]]
        0 <= k < families.len() && 0 <= i < families[k].cubes@.len() ==> closes(
            claims[faces_before(families, k) + i],
            points,
            values,
            families[k].representative as int,
            families[k].cubes@[i],
            challenges,
            challenge_total(families, vars, k) + challenges_before(families[k].cubes@, vars, i),
        )
}

/// Reduce the claims to one per face. The families and faces are those that
/// `plan_faces` gives; the challenges are sampled once the claims are bound,
/// one per varying axis of each face in turn.
pub fn close_faces(
    points: &[Vec<F128>],
    values: &[F128],
    families: &Vec<Family>,
    vars: usize,
    challenges: &[F128],
) -> (claims: Vec<ClosedClaim>)
    requires
        claims_error(points@, values@) is None,
        plans(points@, families@),
        points@.len() > 0 ==> vars == points@[0]@.len(),
        vars <= 63,
        challenges@.len() == challenge_total(families@, vars as int, families@.len() as int),
    ensures
        closes_all(claims@, points@, values@, families@, challenges@, vars as int),
{
    let total: usize = challenges.len();
    let mut claims: Vec<ClosedClaim> = Vec::new();
    let mut start: usize = 0;
    let mut k: usize = 0;
    while k < families.len()
        invariant
            claims_error(points@, values@) is None,
            plans(points@, families@),
            points@.len() > 0 ==> vars == points@[0]@.len(),
            vars <= 63,
            total == challenges@.len(),
            total == challenge_total(families@, vars as int, families@.len() as int),
            k <= families@.len(),
            start == challenge_total(families@, vars as int, k as int),
            claims@.len() == faces_before(families@, k as int),
            forall|j: int, i: int|
                #![trigger families@[j].cubes@[i]]
                0 <= j < k && 0 <= i < families@[j].cubes@.len() ==> closes(
                    claims@[faces_before(families@, j) + i],
                    points@,
                    values@,
                    families@[j].representative as int,
                    families@[j].cubes@[i],
                    challenges@,
                    challenge_total(families@, vars as int, j) + challenges_before(
                        families@[j].cubes@,
                        vars as int,
                        i,
                    ),
                ),
        decreases families@.len() - k,
    {
        let family = &families[k];
        assert(plans_family(points@, families@[k as int]));
        let rep: usize = family.representative;
        let ghost cubes = family.cubes@;
        let ghost begin = start;
        let ghost done = claims@;
        assert(points@[rep as int]@.len() == vars);
        let mut i: usize = 0;
        while i < family.cubes.len()
            invariant
                claims_error(points@, values@) is None,
                rep < points@.len(),
                points@[rep as int]@.len() == vars,
                vars <= 63,
                total == challenges@.len(),
                total == challenge_total(families@, vars as int, families@.len() as int),
                k < families@.len(),
                *family == families@[k as int],
                cubes == family.cubes@,
                spanned(points@, rep as int, cubes),
                i <= cubes.len(),
                begin == challenge_total(families@, vars as int, k as int),
                start == begin + challenges_before(cubes, vars as int, i as int),
                done.len() == faces_before(families@, k as int),
                claims@.len() == done.len() + i,
                forall|t: int| 0 <= t < done.len() ==> claims@[t] == done[t],
                forall|t: int|
                    0 <= t < i ==> closes(
                        #[trigger] claims@[done.len() + t],
                        points@,
                        values@,
                        rep as int,
                        cubes[t],
                        challenges@,
                        begin + challenges_before(cubes, vars as int, t),
                    ),
            decreases cubes.len() - i,
        {
            proof {
                lemma_challenges_grow(cubes, vars as int, i + 1, cubes.len() as int);
                lemma_totals_grow(families@, vars as int, k + 1, families@.len() as int);
                assert(spans(
                    points@,
                    rep as int,
                    cubes[i as int].vertices@,
                    cubes[i as int].mask,
                    cubes[i as int].offset,
                ));
            }
            let ghost before = claims@;
            let claim = close_face(points, values, rep, &family.cubes[i], challenges, start);
            let n = count_axes(family.cubes[i].mask, vars);
            claims.push(claim);
            start = start + n;
            i = i + 1;
            proof {
                assert forall|t: int| 0 <= t < i implies closes(
                    #[trigger] claims@[done.len() + t],
                    points@,
                    values@,
                    rep as int,
                    cubes[t],
                    challenges@,
                    begin + challenges_before(cubes, vars as int, t),
                ) by {
                    if t < i - 1 {
                        assert(claims@[done.len() + t] == before[done.len() + t]);
                    }
                }
            }
        }
        proof {
            assert forall|j: int, t: int|
                #![trigger families@[j].cubes@[t]]
                0 <= j < k + 1 && 0 <= t < families@[j].cubes@.len() implies closes(
                claims@[faces_before(families@, j) + t],
                points@,
                values@,
                families@[j].representative as int,
                families@[j].cubes@[t],
                challenges@,
                challenge_total(families@, vars as int, j) + challenges_before(
                    families@[j].cubes@,
                    vars as int,
                    t,
                ),
            ) by {
                if j < k {
                    lemma_faces_grow(families@, j + 1, k as int);
                    lemma_faces_grow(families@, j, j);
                    assert(claims@[faces_before(families@, j) + t] == done[faces_before(
                        families@,
                        j,
                    ) + t]);
                } else {
                    assert(closes(
                        claims@[done.len() + t],
                        points@,
                        values@,
                        rep as int,
                        cubes[t],
                        challenges@,
                        begin + challenges_before(cubes, vars as int, t),
                    ));
                }
            }
        }
        k = k + 1;
    }
    claims
}

proof fn lemma_faces_grow(families: Seq<Family>, j: int, k: int)
    requires
        0 <= j <= k,
    ensures
        0 <= faces_before(families, j) <= faces_before(families, k),
    decreases k,
{
    if j < k {
        lemma_faces_grow(families, j, k - 1);
    } else if k > 0 {
        lemma_faces_grow(families, k - 1, k - 1);
    }
}

// ---------------------------------------------------------------------------
// Soundness of the closed values.
// ---------------------------------------------------------------------------

/// An extension is linear in every coordinate.
pub proof fn lemma_mle_axis(table: Seq<F128>, p: Seq<F128>, a: int)
    requires
        table.len() == pow2(p.len()),
        0 <= a < p.len(),
    ensures
        mle(table, p) == fadd(
            fmul(fadd(fone(), p[a]), mle(table, p.update(a, fzero()))),
            fmul(p[a], mle(table, p.update(a, fone()))),
        ),
{
    let r = p[a];
    let head = p.take(a);
    let rest = p.skip(a + 1);
    let u = fold_all(table, head);
    lemma_fold_all_len(table, head, p.len());
    lemma_pow2_unfold((p.len() - a) as nat);
    let half = (u.len() / 2) as nat;
    lemma_axis_fold(table, p, a, r);
    lemma_axis_fold(table, p, a, fzero());
    lemma_axis_fold(table, p, a, fone());
    assert(p.update(a, r) =~= p);
    let t0 = fold_table(u, fzero());
    let t1 = fold_table(u, fone());
    let tr = fold_table(u, r);
    let nr = fadd(fone(), r);
    let s0 = Seq::new(t0.len(), |i: int| fmul(nr, t0[i]));
    let s1 = Seq::new(t1.len(), |i: int| fmul(r, t1[i]));
    let sum = Seq::new(s0.len(), |i: int| fadd(s0[i], s1[i]));
    assert forall|i: int| 0 <= i < half implies #[trigger] tr[i] == sum[i] by {
        let (x, y) = (u[i], u[half + i]);
        lemma_lerp(x, y, r);
        lemma_fmul_zero(fadd(x, y));
        lemma_fadd_zero(x);
        lemma_fmul_one(fadd(x, y));
        lemma_fadd_assoc(x, x, y);
        lemma_fadd_self(x);
        lemma_fadd_zero(y);
    }
    assert(tr =~= sum);
    lemma_mle_scale(nr, t0, rest);
    lemma_mle_scale(r, t1, rest);
    lemma_mle_add(s0, s1, rest);
}

proof fn lemma_axis_fold(table: Seq<F128>, p: Seq<F128>, a: int, r: F128)
    requires
        0 <= a < p.len(),
    ensures
        mle(table, p.update(a, r)) == mle(
            fold_table(fold_all(table, p.take(a)), r),
            p.skip(a + 1),
        ),
{
    let q = p.update(a, r);
    let tail = seq![r] + p.skip(a + 1);
    assert(q =~= p.take(a) + tail);
    lemma_fold_all_concat(table, p.take(a), tail);
    assert(tail.drop_first() =~= p.skip(a + 1));
    assert(tail[0] == r);
}

/// A face's corner as a point: the first `n` axes of the mask are challenges,
/// the rest of the Boolean axes are the offset's.
spec fn mixed_point(base: Seq<F128>, p: Seq<F128>, mask: u64, offset: u64, n: int) -> Seq<F128> {
    Seq::new(
        base.len(),
        |a: int|
            if a < n && has_axis(mask, a) {
                p[a]
            } else if boolean(base[a]) {
                if has_axis(offset, a) {
                    fone()
                } else {
                    fzero()
                }
            } else {
                base[a]
            },
    )
}

proof fn lemma_face_value_is_mle(
    table: Seq<F128>,
    value: spec_fn(u64) -> F128,
    base: Seq<F128>,
    p: Seq<F128>,
    mask: u64,
    offset: u64,
    n: int,
)
    requires
        table.len() == pow2(base.len()),
        0 <= n <= base.len() <= 64,
        p.len() == base.len(),
        offset & mask == 0,
        forall|a: int| 0 <= a < base.len() && #[trigger] has_axis(mask, a) ==> boolean(base[a]),
        forall|c: u64|
            on_face(c, (mask, offset)) ==> #[trigger] value(c) == mle(
                table,
                mixed_point(base, p, mask, c, 0),
            ),
    ensures
        forall|c: u64|
            on_face(c, (mask, offset)) && (forall|a: int|
                0 <= a < n && has_axis(mask, a) ==> !(#[trigger] has_axis(c, a)))
                ==> #[trigger] face_value(value, p, mask, c, n) == mle(
                table,
                mixed_point(base, p, mask, c, n),
            ),
    decreases n,
{
    if n > 0 {
        let a = n - 1;
        lemma_face_value_is_mle(table, value, base, p, mask, offset, n - 1);
        assert forall|c: u64|
            on_face(c, (mask, offset)) && (forall|a: int|
                0 <= a < n && has_axis(mask, a) ==> !(#[trigger] has_axis(c, a))) implies
            #[trigger] face_value(value, p, mask, c, n) == mle(
            table,
            mixed_point(base, p, mask, c, n),
        ) by {
            let point = mixed_point(base, p, mask, c, n);
            let low = mixed_point(base, p, mask, c, n - 1);
            if has_axis(mask, a) {
                let b = axis_bit(a);
                let d = c ^ b;
                let high = mixed_point(base, p, mask, d, n - 1);
                assert(!has_axis(c, a));
                lemma_axis_bits(c, a as u64, a as u64);
                lemma_flip_on_face(c, mask, offset, a as u64);
                assert(on_face(d, (mask, offset)));
                assert forall|x: int| 0 <= x < n - 1 && has_axis(mask, x) implies !(
                #[trigger] has_axis(d, x)) by {
                    lemma_axis_bits(c, a as u64, x as u64);
                    assert(!has_axis(c, x));
                }
                assert(face_value(value, p, mask, c, n - 1) == mle(table, low));
                assert(face_value(value, p, mask, d, n - 1) == mle(table, high));
                lemma_mle_axis(table, point, a);
                assert(low =~= point.update(a, fzero()));
                assert forall|x: int| 0 <= x < base.len() implies high[x] == point.update(
                    a,
                    fone(),
                )[x] by {
                    lemma_axis_bits(c, a as u64, x as u64);
                }
                assert(high =~= point.update(a, fone()));
            } else {
                assert forall|x: int| 0 <= x < n - 1 && has_axis(mask, x) implies !(
                #[trigger] has_axis(c, x)) by {}
                assert(face_value(value, p, mask, c, n - 1) == mle(table, low));
                assert(point =~= low);
            }
        }
    }
}

proof fn lemma_flip_on_face(c: u64, m: u64, o: u64, a: u64)
    by (bit_vector)
    requires
        a < 64,
        c & !m == o,
        (m >> a) & 1 == 1,
    ensures
        (c ^ (1u64 << a)) & !m == o,
{
}

/// How many of the first `n` claims are at a point of their own, each point
/// counted where it first occurs.
pub open spec fn distinct_points(points: Seq<Vec<F128>>, n: int) -> int
    decreases n,
{
    if n <= 0 {
        0
    } else {
        distinct_points(points, n - 1) + if first_at_point(points, n - 1) {
            1int
        } else {
            0
        }
    }
}

/// No earlier claim is at the point of claim `i`.
pub open spec fn first_at_point(points: Seq<Vec<F128>>, i: int) -> bool {
    forall|j: int| 0 <= j < i ==> (#[trigger] points[j])@ != points[i]@
}

proof fn lemma_paired_shrinks(keys: Seq<(u64, u64)>, bit: u64, i: int)
    requires
        0 <= i <= keys.len(),
    ensures
        paired(keys, bit, i).len() <= i,
    decreases i,
{
    if i > 0 {
        lemma_paired_shrinks(keys, bit, i - 1);
    }
}

proof fn lemma_sweep_shrinks(keys: Seq<(u64, u64)>, n: int)
    ensures
        sweep(keys, n).len() <= keys.len(),
    decreases n,
{
    if n > 0 {
        lemma_sweep_shrinks(keys, n - 1);
        let before = sweep(keys, n - 1);
        lemma_paired_shrinks(before, axis_bit(n - 1), before.len() as int);
    }
}

proof fn lemma_swept_shrinks(keys: Seq<(u64, u64)>, vars: int, rounds: nat)
    ensures
        swept(keys, vars, rounds).len() <= keys.len(),
    decreases rounds,
{
    if rounds > 0 {
        lemma_swept_shrinks(keys, vars, (rounds - 1) as nat);
        lemma_sweep_shrinks(swept(keys, vars, (rounds - 1) as nat), vars);
    }
}

proof fn lemma_corner_kept(points: Seq<Vec<F128>>, rep: int, n: int, j: int)
    requires
        0 <= j < n,
        same_family(points[rep]@, points[j]@),
    ensures
        corners(points, rep, n).contains((0u64, point_offset(points[j]@))),
    decreases n,
{
    let key = (0u64, point_offset(points[j]@));
    let before = corners(points, rep, n - 1);
    let all = corners(points, rep, n);
    if j < n - 1 {
        lemma_corner_kept(points, rep, n - 1, j);
        let i = choose|i: int| 0 <= i < before.len() && before[i] == key;
        assert(all[i] == key);
    } else if !before.contains(key) {
        assert(all[before.len() as int] == key);
    }
}

/// The corners of the first `k` families among the first `n` claims.
spec fn corner_total(points: Seq<Vec<F128>>, reps: Seq<int>, k: int, n: int) -> int
    decreases k,
{
    if k <= 0 {
        0
    } else {
        corner_total(points, reps, k - 1, n) + corners(points, reps[k - 1], n).len()
    }
}

/// No two of the claims are of one family.
spec fn apart(points: Seq<Vec<F128>>, reps: Seq<int>) -> bool {
    forall|a: int, b: int|
        0 <= a < b < reps.len() ==> !same_family(
            points[#[trigger] reps[a]]@,
            points[#[trigger] reps[b]]@,
        )
}

proof fn lemma_representatives_apart(points: Seq<Vec<F128>>, n: int)
    ensures
        apart(points, representatives(points, n)),
    decreases n,
{
    if n > 0 {
        lemma_representatives_apart(points, n - 1);
    }
}

/// One more claim adds a corner to the family it is of, and only where its
/// point is new.
proof fn lemma_corner_growth(points: Seq<Vec<F128>>, reps: Seq<int>, k: int, n: int)
    requires
        0 <= k <= reps.len(),
        1 <= n <= points.len(),
        apart(points, reps),
    ensures
        corner_total(points, reps, k, n) <= corner_total(points, reps, k, n - 1) + (if (exists|
            a: int,
        |
            0 <= a < k && same_family(points[#[trigger] reps[a]]@, points[n - 1]@))
            && first_at_point(points, n - 1) {
            1int
        } else {
            0
        }),
    decreases k,
{
    if k > 0 {
        lemma_corner_growth(points, reps, k - 1, n);
        let rep = reps[k - 1];
        let p = points[n - 1]@;
        if same_family(points[rep]@, p) {
            assert forall|a: int| 0 <= a < k - 1 implies !same_family(
                points[#[trigger] reps[a]]@,
                p,
            ) by {
                let base = points[reps[a]]@;
                if same_family(base, p) {
                    assert(same_family(p, base)) by {
                        assert forall|x: int| 0 <= x < p.len() implies (#[trigger] p[x] == base[x]
                            || (boolean(p[x]) && boolean(base[x]))) by {
                            assert(base[x] == p[x] || (boolean(base[x]) && boolean(p[x])));
                        }
                    }
                    let own = points[rep]@;
                    assert(same_family(p, own)) by {
                        assert forall|x: int| 0 <= x < p.len() implies (#[trigger] p[x] == own[x]
                            || (boolean(p[x]) && boolean(own[x]))) by {
                            assert(own[x] == p[x] || (boolean(own[x]) && boolean(p[x])));
                        }
                    }
                    lemma_family_transitive(p, base, own);
                }
            }
            if !first_at_point(points, n - 1) {
                let j = choose|j: int| 0 <= j < n - 1 && (#[trigger] points[j])@ == p;
                lemma_corner_kept(points, rep, n - 1, j);
            } else {
                assert(reps[k - 1] == rep);
            }
        }
    }
}

proof fn lemma_corners_are_points(points: Seq<Vec<F128>>, reps: Seq<int>, n: int)
    requires
        0 <= n <= points.len(),
        apart(points, reps),
    ensures
        corner_total(points, reps, reps.len() as int, n) <= distinct_points(points, n),
    decreases n,
{
    if n > 0 {
        lemma_corners_are_points(points, reps, n - 1);
        lemma_corner_growth(points, reps, reps.len() as int, n);
    } else {
        lemma_no_corners(points, reps, reps.len() as int);
    }
}

proof fn lemma_no_corners(points: Seq<Vec<F128>>, reps: Seq<int>, k: int)
    requires
        0 <= k <= reps.len(),
    ensures
        corner_total(points, reps, k, 0) == 0,
    decreases k,
{
    if k > 0 {
        lemma_no_corners(points, reps, k - 1);
    }
}

/// Closing never adds a claim: the plan has at most as many faces as there are
/// distinct points, and so no more closed claims.
pub proof fn faces_are_at_most_the_points(points: Seq<Vec<F128>>, families: Seq<Family>)
    requires
        plans(points, families),
    ensures
        faces_before(families, families.len() as int) <= distinct_points(
            points,
            points.len() as int,
        ),
{
    let n = points.len() as int;
    let reps = representatives(points, n);
    lemma_representatives_apart(points, n);
    lemma_corners_are_points(points, reps, n);
    lemma_faces_within(points, families, families.len() as int);
}

proof fn lemma_faces_within(points: Seq<Vec<F128>>, families: Seq<Family>, k: int)
    requires
        plans(points, families),
        0 <= k <= families.len(),
    ensures
        faces_before(families, k) <= corner_total(
            points,
            representatives(points, points.len() as int),
            k,
            points.len() as int,
        ),
    decreases k,
{
    if k > 0 {
        lemma_faces_within(points, families, k - 1);
        let family = families[k - 1];
        let rep = family.representative as int;
        assert(plans_family(points, family));
        let vars = points[rep]@.len() as int;
        let keys = corners(points, rep, points.len() as int);
        let faces = choose|faces: Seq<(u64, u64)>|
            settles(keys, vars, faces) && #[trigger] sorts(faces, keys_of(family.cubes@));
        let rounds = choose|rounds: nat| faces == #[trigger] swept(keys, vars, rounds);
        lemma_swept_shrinks(keys, vars, rounds);
    }
}

/// Closing keeps the truth: if every claim is the extension of one table at
/// its point, so is every closed claim.
pub proof fn closed_claims_are_true(
    table: Seq<F128>,
    points: Seq<Vec<F128>>,
    values: Seq<F128>,
    rep: int,
    cube: Cube,
    claim: ClosedClaim,
    challenges: Seq<F128>,
    start: int,
)
    requires
        claims_error(points, values) is None,
        0 <= rep < points.len(),
        table.len() == pow2(points[rep]@.len()),
        forall|i: int|
            0 <= i < points.len() ==> values[i] == mle(table, (#[trigger] points[i])@),
        spans(points, rep, cube.vertices@, cube.mask, cube.offset),
        closes(claim, points, values, rep, cube, challenges, start),
    ensures
        claim.value == mle(table, claim.point@),
{
    let base = points[rep]@;
    let vars = base.len() as int;
    let (mask, offset) = (cube.mask, cube.offset);
    let p = claim.point@;
    let value = |c: u64| corner_value(points, values, rep, c);
    assert(points[rep]@.len() <= 63);
    lemma_spans(points, rep, cube.vertices@, mask, offset);
    assert forall|c: u64| on_face(c, (mask, offset)) implies #[trigger] value(c) == mle(
        table,
        mixed_point(base, p, mask, c, 0),
    ) by {
        let i = lemma_corner_listed(points, rep, cube.vertices@, mask, offset, c);
        let u = choose|u: usize| is_corner(points, rep, u, c);
        assert(is_corner(points, rep, i, c));
        assert(is_corner(points, rep, u, c));
        lemma_corner_point(points, rep, p, mask, c, u);
        assert(values[u as int] == mle(table, points[u as int]@));
    }
    assert forall|a: int| 0 <= a < base.len() && #[trigger] has_axis(mask, a) implies boolean(
        base[a],
    ) by {}
    lemma_face_value_is_mle(table, value, base, p, mask, offset, vars);
    lemma_self_corner(mask, offset);
    assert(on_face(offset, (mask, offset)));
    assert forall|a: int| 0 <= a < vars && has_axis(mask, a) implies !(#[trigger] has_axis(
        offset,
        a,
    )) by {
        lemma_offset_bits(offset, mask, offset, a as u64);
    }
    assert(mixed_point(base, p, mask, offset, vars) =~= p);
    assert(face_value(value, p, mask, offset, vars) == mle(
        table,
        mixed_point(base, p, mask, offset, vars),
    ));
}

/// Every corner of a spanned face is one of its claims.
proof fn lemma_corner_listed(
    points: Seq<Vec<F128>>,
    rep: int,
    vertices: Seq<usize>,
    mask: u64,
    offset: u64,
    c: u64,
) -> (index: usize)
    requires
        0 <= rep < points.len(),
        points[rep]@.len() <= 64,
        spans(points, rep, vertices, mask, offset),
        on_face(c, (mask, offset)),
    ensures
        is_corner(points, rep, index, c),
    decreases vertices.len(),
{
    lemma_spans(points, rep, vertices, mask, offset);
    if vertices.len() <= 1 {
        lemma_no_axes(c, 0);
        vertices[0]
    } else {
        let (a, k) = choose|a: int, k: int|
            #![trigger has_axis(mask, a), vertices.take(k)]
            splits_at(points, rep, vertices, mask, offset, a, k) && spans(
                points,
                rep,
                vertices.take(k),
                mask ^ axis_bit(a),
                offset,
            ) && spans(
                points,
                rep,
                vertices.skip(k),
                mask ^ axis_bit(a),
                offset ^ axis_bit(a),
            );
        let b = axis_bit(a);
        let m = mask ^ b;
        lemma_merge_mask(mask, a as u64);
        lemma_axis_bits(offset, a as u64, a as u64);
        lemma_pair_faces(c, m, offset, a as u64);
        if on_face(c, (m, offset)) {
            lemma_corner_listed(points, rep, vertices.take(k), m, offset, c)
        } else {
            lemma_corner_listed(points, rep, vertices.skip(k), m, offset ^ b, c)
        }
    }
}

/// A point of a face's grid: one of two elements on each varying axis, the
/// face's coordinate on the others.
pub open spec fn on_grid(
    p: Seq<F128>,
    base: Seq<F128>,
    face: (u64, u64),
    lows: Seq<F128>,
    highs: Seq<F128>,
) -> bool {
    &&& p.len() == base.len()
    &&& forall|a: int|
        0 <= a < p.len() ==> if has_axis(face.0, a) {
            #[trigger] p[a] == lows[a] || p[a] == highs[a]
        } else if boolean(base[a]) {
            p[a] == if has_axis(face.1, a) {
                fone()
            } else {
                fzero()
            }
        } else {
            p[a] == base[a]
        }
}

/// The value of a face reads the point and the mask below `n` alone.
proof fn lemma_face_value_reads(
    value: spec_fn(u64) -> F128,
    p: Seq<F128>,
    q: Seq<F128>,
    m: u64,
    k: u64,
    o: u64,
    n: int,
)
    requires
        forall|a: int| 0 <= a < n ==> #[trigger] p[a] == q[a],
        forall|a: int| 0 <= a < n ==> #[trigger] has_axis(m, a) == has_axis(k, a),
    ensures
        face_value(value, p, m, o, n) == face_value(value, q, k, o, n),
    decreases n,
{
    if n > 0 {
        assert(has_axis(m, n - 1) == has_axis(k, n - 1));
        assert(p[n - 1] == q[n - 1]);
        lemma_face_value_reads(value, p, q, m, k, o, n - 1);
        lemma_face_value_reads(value, p, q, m, k, o ^ axis_bit(n - 1), n - 1);
    }
}

proof fn lemma_drop_axis(m: u64, o: u64, a: u64, n: u64)
    by (bit_vector)
    requires
        n <= 63,
        a + 1 == n,
        m >> n == 0,
        o & m == 0,
    ensures
        (m >> a) & 1 != 1 ==> m >> a == 0,
        (m >> a) & 1 == 1 ==> (m ^ (1u64 << a)) >> a == 0,
        (m >> a) & 1 == 1 ==> m == (m ^ (1u64 << a)) | (1u64 << a),
        (m >> a) & 1 == 1 ==> (m ^ (1u64 << a)) & (1u64 << a) == 0,
        (m >> a) & 1 == 1 ==> o & (1u64 << a) == 0,
        o & (m ^ (1u64 << a)) == 0 || (m >> a) & 1 != 1,
        (o ^ (1u64 << a)) & (m ^ (1u64 << a)) == 0 || (m >> a) & 1 != 1,
{
}

/// A mask without an axis from `n` on.
proof fn lemma_mask_height(m: u64, n: int)
    requires
        0 <= n <= 63,
        forall|a: int| n <= a < 64 ==> !(#[trigger] has_axis(m, a)),
    ensures
        m >> (n as u64) == 0,
    decreases 63 - n,
{
    assert(!has_axis(m, n));
    if n == 63 {
        assert((m >> 63u64) & 1 != 1 ==> m >> 63u64 == 0) by (bit_vector);
    } else {
        lemma_mask_height(m, n + 1);
        assert(0 & m == 0) by (bit_vector);
        lemma_drop_axis(m, 0, n as u64, (n + 1) as u64);
    }
}

/// A corner's claim stands at the corner.
proof fn lemma_corner_point(
    points: Seq<Vec<F128>>,
    rep: int,
    p: Seq<F128>,
    mask: u64,
    c: u64,
    index: usize,
)
    requires
        0 <= rep < points.len(),
        points[rep]@.len() <= 64,
        is_corner(points, rep, index, c),
    ensures
        mixed_point(points[rep]@, p, mask, c, 0) == points[index as int]@,
{
    let base = points[rep]@;
    let q = points[index as int]@;
    assert forall|a: int| 0 <= a < base.len() implies mixed_point(base, p, mask, c, 0)[a]
        == q[a] by {
        lemma_offset_axis(q, q.len() as int, a);
        assert(base[a] == q[a] || (boolean(base[a]) && boolean(q[a])));
    }
    assert(mixed_point(base, p, mask, c, 0) =~= q);
}

/// Two faces with the same value at every point of a grid have the same
/// corners.
proof fn lemma_grid_binds(
    v: spec_fn(u64) -> F128,
    t: spec_fn(u64) -> F128,
    base: Seq<F128>,
    face: (u64, u64),
    lows: Seq<F128>,
    highs: Seq<F128>,
    m: u64,
    o: u64,
    n: int,
    c: u64,
)
    requires
        0 <= n <= base.len() <= 63,
        lows.len() == highs.len() == base.len(),
        forall|a: int| 0 <= a < lows.len() ==> lows[a] != highs[a],
        m >> (n as u64) == 0,
        o & m == 0,
        forall|a: int| 0 <= a < n && #[trigger] has_axis(m, a) ==> has_axis(face.0, a),
        forall|p: Seq<F128>| #[trigger]
            on_grid(p, base, face, lows, highs) ==> face_value(v, p, m, o, n) == face_value(
                t,
                p,
                m,
                o,
                n,
            ),
        on_face(c, (m, o)),
    ensures
        v(c) == t(c),
    decreases n,
{
    if n == 0 {
        assert(m == 0) by (bit_vector)
            requires
                m >> 0u64 == 0,
        ;
        lemma_no_axes(c, 0);
        let p = closed_point(base, face.0, face.1, lows, 0);
        let q = Seq::new(
            base.len(),
            |a: int| if has_axis(face.0, a) {
                lows[a]
            } else {
                p[a]
            },
        );
        assert(on_grid(q, base, face, lows, highs));
    } else {
        let a = n - 1;
        let b = axis_bit(a);
        lemma_drop_axis(m, o, a as u64, n as u64);
        if has_axis(m, a) {
            let k = m ^ b;
            lemma_pair_faces(c, k, o, a as u64);
            assert forall|x: int| 0 <= x < a implies #[trigger] has_axis(m, x) == has_axis(
                k,
                x,
            ) by {
                lemma_axis_bits(m, a as u64, x as u64);
            }
            assert forall|x: int| 0 <= x < a && #[trigger] has_axis(k, x) implies has_axis(
                face.0,
                x,
            ) by {
                assert(has_axis(m, x));
            }
            assert forall|p: Seq<F128>| #[trigger]
                on_grid(p, base, face, lows, highs) implies face_value(v, p, k, o, a)
                == face_value(t, p, k, o, a) && face_value(v, p, k, o ^ b, a) == face_value(
                t,
                p,
                k,
                o ^ b,
                a,
            ) by {
                let p0 = p.update(a, lows[a]);
                let p1 = p.update(a, highs[a]);
                assert(on_grid(p0, base, face, lows, highs));
                assert(on_grid(p1, base, face, lows, highs));
                lemma_face_value_reads(v, p0, p, m, k, o, a);
                lemma_face_value_reads(v, p0, p, m, k, o ^ b, a);
                lemma_face_value_reads(v, p1, p, m, k, o, a);
                lemma_face_value_reads(v, p1, p, m, k, o ^ b, a);
                lemma_face_value_reads(t, p0, p, m, k, o, a);
                lemma_face_value_reads(t, p0, p, m, k, o ^ b, a);
                lemma_face_value_reads(t, p1, p, m, k, o, a);
                lemma_face_value_reads(t, p1, p, m, k, o ^ b, a);
                lemma_lines_bind(
                    lows[a],
                    highs[a],
                    face_value(v, p, k, o, a),
                    face_value(v, p, k, o ^ b, a),
                    face_value(t, p, k, o, a),
                    face_value(t, p, k, o ^ b, a),
                );
            }
            if on_face(c, (k, o)) {
                lemma_grid_binds(v, t, base, face, lows, highs, k, o, a, c);
            } else {
                lemma_grid_binds(v, t, base, face, lows, highs, k, o ^ b, a, c);
            }
        } else {
            assert forall|p: Seq<F128>| #[trigger]
                on_grid(p, base, face, lows, highs) implies face_value(v, p, m, o, a)
                == face_value(t, p, m, o, a) by {
                assert(face_value(v, p, m, o, n) == face_value(t, p, m, o, n));
            }
            lemma_grid_binds(v, t, base, face, lows, highs, m, o, a, c);
        }
    }
}

/// Closing binds the claims: a face whose closed value is the table's
/// extension at every point of a grid, with two challenges on each axis, has
/// only true claims. One with a false claim refutes some point of every grid.
pub proof fn closed_faces_bind_their_claims(
    table: Seq<F128>,
    points: Seq<Vec<F128>>,
    values: Seq<F128>,
    rep: int,
    cube: Cube,
    lows: Seq<F128>,
    highs: Seq<F128>,
    i: int,
)
    requires
        claims_error(points, values) is None,
        0 <= rep < points.len(),
        table.len() == pow2(points[rep]@.len()),
        spans(points, rep, cube.vertices@, cube.mask, cube.offset),
        lows.len() == highs.len() == points[rep]@.len(),
        forall|a: int| 0 <= a < lows.len() ==> lows[a] != highs[a],
        forall|p: Seq<F128>| #[trigger]
            on_grid(p, points[rep]@, (cube.mask, cube.offset), lows, highs) ==> face_value(
                |c: u64| corner_value(points, values, rep, c),
                p,
                cube.mask,
                cube.offset,
                points[rep]@.len() as int,
            ) == mle(table, p),
        0 <= i < cube.vertices@.len(),
    ensures
        values[cube.vertices@[i] as int] == mle(table, points[cube.vertices@[i] as int]@),
{
    let base = points[rep]@;
    let vars = base.len() as int;
    let (mask, offset) = (cube.mask, cube.offset);
    let face = (mask, offset);
    assert(vars <= 63);
    let v = |c: u64| corner_value(points, values, rep, c);
    let t = |c: u64| mle(table, mixed_point(base, base, mask, c, 0));
    lemma_spans(points, rep, cube.vertices@, mask, offset);
    lemma_self_corner(mask, offset);
    assert forall|a: int| 0 <= a < vars && has_axis(mask, a) implies !(#[trigger] has_axis(
        offset,
        a,
    )) by {
        lemma_offset_bits(offset, mask, offset, a as u64);
    }
    assert forall|p: Seq<F128>| #[trigger] on_grid(p, base, face, lows, highs) implies face_value(
        v,
        p,
        mask,
        offset,
        vars,
    ) == face_value(t, p, mask, offset, vars) by {
        assert forall|c: u64| on_face(c, face) implies #[trigger] t(c) == mle(
            table,
            mixed_point(base, p, mask, c, 0),
        ) by {
            assert(mixed_point(base, p, mask, c, 0) =~= mixed_point(base, base, mask, c, 0));
        }
        lemma_face_value_is_mle(table, t, base, p, mask, offset, vars);
        assert(on_face(offset, face));
        assert(mixed_point(base, p, mask, offset, vars) =~= p);
        assert(face_value(t, p, mask, offset, vars) == mle(
            table,
            mixed_point(base, p, mask, offset, vars),
        ));
    }
    lemma_mask_height(mask, vars);
    let u = cube.vertices@[i];
    let q = points[u as int]@;
    let c = point_offset(q);
    lemma_grid_binds(v, t, base, face, lows, highs, mask, offset, vars, c);
    assert(is_corner(points, rep, u, c));
    let w = choose|w: usize| is_corner(points, rep, w, c);
    assert(is_corner(points, rep, w, c));
    lemma_corner_point(points, rep, base, mask, c, u);
    lemma_corner_point(points, rep, base, mask, c, w);
    assert(points[u as int]@ == points[w as int]@);
}

} // verus!
