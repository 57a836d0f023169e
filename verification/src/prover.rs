//! The claims that a constraint-system proof leaves to the commitment's
//! opening.
use vstd::prelude::*;

use crate::field::F128;
use crate::hash_to_point_record::flock_claim_shape;

pub mod schedule;
pub mod union;

verus! {

/// A point that binds the low variables through one univariate coordinate and
/// the others multilinearly.
#[derive(Clone, Debug)]
pub struct QuirkyPoint {
    pub z_skip: F128,
    pub x_inner_rest: Vec<F128>,
    pub x_outer: Vec<F128>,
}

/// A claimed evaluation of the witness.
#[derive(Clone, Debug)]
pub struct ZClaim {
    pub point: QuirkyPoint,
    pub value: F128,
}

/// A point's multilinear coordinates: the inner ones, then the outer ones.
pub fn quirky_x_outer_full(point: &QuirkyPoint) -> (coordinates: Vec<F128>)
    ensures
        coordinates@ == point.x_inner_rest@ + point.x_outer@,
{
    let mut v: Vec<F128> = Vec::new();
    append(&mut v, point.x_inner_rest.as_slice());
    append(&mut v, point.x_outer.as_slice());
    assert(v@ =~= point.x_inner_rest@ + point.x_outer@);
    v
}

/// Append a copy of `part`.
pub fn append(all: &mut Vec<F128>, part: &[F128])
    ensures
        final(all)@ == old(all)@ + part@,
{
    let mut i: usize = 0;
    while i < part.len()
        invariant
            i <= part@.len(),
            all@ == old(all)@ + part@.take(i as int),
        decreases part@.len() - i,
    {
        all.push(part[i]);
        i = i + 1;
        assert(all@ =~= old(all)@ + part@.take(i as int));
    }
    assert(part@.take(i as int) =~= part@);
}

/// How a claim binds the seven low variables.
#[derive(Clone, Copy, Debug)]
pub enum LowBinding {
    Quirky { z_skip: F128 },
    Multilinear { x_low: [F128; 7] },
}

/// A claim of a batched opening: its value, how it binds the low variables,
/// and its outer coordinates.
#[derive(Clone, Debug)]
pub struct OpeningClaim {
    pub value: F128,
    pub binding: LowBinding,
    pub x_full: Vec<F128>,
}

/// The opening claim is that of a quirky claim.
pub open spec fn opens_quirky(o: OpeningClaim, claim: ZClaim) -> bool {
    &&& o.value == claim.value
    &&& o.binding == (LowBinding::Quirky { z_skip: claim.point.z_skip })
    &&& o.x_full@ == claim.point.x_inner_rest@ + claim.point.x_outer@
}

/// The outer coordinates of a multilinear point given most significant first:
/// from bit six up.
pub open spec fn outer_part(point: Seq<F128>) -> Seq<F128> {
    Seq::new((point.len() - 6) as nat, |j: int| point[point.len() - 7 - j])
}

/// The opening claim is that of a multilinear point given most significant
/// first.
pub open spec fn opens_multilinear(o: OpeningClaim, point: Seq<F128>, value: F128) -> bool {
    &&& o.value == value
    &&& o.binding matches LowBinding::Multilinear { x_low } && x_low@ == Seq::new(
        7,
        |i: int| point[point.len() - 1 - i],
    )
    &&& o.x_full@ == outer_part(point)
}

/// The opening claim of a quirky claim.
pub fn open_quirky(claim: &ZClaim) -> (o: OpeningClaim)
    ensures
        opens_quirky(o, *claim),
{
    OpeningClaim {
        value: claim.value,
        binding: LowBinding::Quirky { z_skip: claim.point.z_skip },
        x_full: quirky_x_outer_full(&claim.point),
    }
}

/// The opening claim of a multilinear point.
pub fn open_multilinear(point: &[F128], value: F128) -> (o: OpeningClaim)
    requires
        point@.len() > 7,
    ensures
        opens_multilinear(o, point@, value),
{
    let (x_low, x_outer) = flock_claim_shape(point);
    OpeningClaim { value, binding: LowBinding::Multilinear { x_low }, x_full: x_outer }
}

/// An opening claim keeps its point: of the coordinates, least significant
/// first, the first seven are the low ones and those from the seventh on the
/// outer ones, and there are no others.
pub proof fn opened_points_are_kept(o: OpeningClaim, point: Seq<F128>, value: F128, i: int)
    requires
        point.len() > 7,
        opens_multilinear(o, point, value),
        0 <= i < point.len(),
    ensures
        o.value == value,
        o.x_full@.len() == point.len() - 6,
        i < 7 ==> (o.binding matches LowBinding::Multilinear { x_low } && x_low@[i]
            == point[point.len() - 1 - i]),
        i >= 6 ==> o.x_full@[i - 6] == point[point.len() - 1 - i],
{
}

/// Opening claims tell their points and values apart: claims of points of one
/// length that open alike are the same.
pub proof fn opened_points_are_told_apart(
    o: OpeningClaim,
    point: Seq<F128>,
    value: F128,
    other: Seq<F128>,
    other_value: F128,
)
    requires
        point.len() > 7,
        other.len() == point.len(),
        opens_multilinear(o, point, value),
        opens_multilinear(o, other, other_value),
    ensures
        point == other,
        value == other_value,
{
    let n = point.len() as int;
    assert forall|k: int| 0 <= k < n implies point[k] == other[k] by {
        opened_points_are_kept(o, point, value, n - 1 - k);
        opened_points_are_kept(o, other, other_value, n - 1 - k);
    }
    assert(point =~= other);
}

/// A quirky claim's opening keeps its value, its univariate coordinate and every
/// multilinear one, the inner before the outer.
pub proof fn opened_quirky_claims_are_kept(o: OpeningClaim, claim: ZClaim, i: int)
    requires
        opens_quirky(o, claim),
        0 <= i,
    ensures
        o.value == claim.value,
        o.binding matches LowBinding::Quirky { z_skip } && z_skip == claim.point.z_skip,
        o.x_full@.len() == claim.point.x_inner_rest@.len() + claim.point.x_outer@.len(),
        i < claim.point.x_inner_rest@.len() ==> o.x_full@[i] == claim.point.x_inner_rest@[i],
        i < claim.point.x_outer@.len() ==> o.x_full@[claim.point.x_inner_rest@.len() + i]
            == claim.point.x_outer@[i],
{
}

} // verus!
