//! Record assembly: the shape of multilinear opening claims, and the compact
//! prover of the record scatter.
use vstd::prelude::*;

use crate::field::F128;
use crate::prover::{open_multilinear, opens_multilinear, OpeningClaim};

pub mod compact_scatter;
pub mod counter_prefix;
pub mod counter_tables;
pub mod counter_tail;

verus! {

/// Convert an opening point given most significant variable first into a
/// claim's shape: the seven coordinates of the low address bits, least
/// significant first, and the outer vector, which starts at bit six.
pub fn flock_claim_shape(point_msb: &[F128]) -> (shape: ([F128; 7], Vec<F128>))
    requires
        point_msb@.len() > 7,
    ensures
        shape.0@ == Seq::new(7, |i: int| point_msb@[point_msb@.len() - 1 - i]),
        shape.1@ == Seq::new(
            (point_msb@.len() - 6) as nat,
            |j: int| point_msb@[point_msb@.len() - 7 - j],
        ),
{
    let m: usize = point_msb.len();
    let mut x_low: [F128; 7] = [F128::zero(); 7];
    let mut i: usize = 0;
    while i < 7
        invariant
            m == point_msb@.len(),
            m > 7,
            i <= 7,
            forall|k: int| 0 <= k < i ==> #[trigger] x_low@[k] == point_msb@[m - 1 - k],
        decreases 7 - i,
    {
        x_low[i] = point_msb[m - 1 - i];
        i = i + 1;
    }
    let mut x_outer: Vec<F128> = Vec::new();
    let mut j: usize = 0;
    while j < m - 6
        invariant
            m == point_msb@.len(),
            m > 7,
            j <= m - 6,
            x_outer@.len() == j,
            forall|k: int| 0 <= k < j ==> #[trigger] x_outer@[k] == point_msb@[m - 7 - k],
        decreases m - 6 - j,
    {
        x_outer.push(point_msb[m - 7 - j]);
        j = j + 1;
    }
    assert(x_low@ =~= Seq::new(7, |i: int| point_msb@[point_msb@.len() - 1 - i]));
    assert(x_outer@ =~= Seq::new(
        (point_msb@.len() - 6) as nat,
        |j: int| point_msb@[point_msb@.len() - 7 - j],
    ));
    (x_low, x_outer)
}

/// The claims that a witness takes given values at given points.
pub fn multilinear_claims(points_msb: &[Vec<F128>], values: &[F128]) -> (claims: Vec<OpeningClaim>)
    requires
        points_msb@.len() == values@.len(),
        forall|i: int| 0 <= i < points_msb@.len() ==> (#[trigger] points_msb@[i])@.len() > 7,
    ensures
        claims@.len() == points_msb@.len(),
        forall|i: int|
            0 <= i < claims@.len() ==> opens_multilinear(
                #[trigger] claims@[i],
                points_msb@[i]@,
                values@[i],
            ),
{
    let mut claims: Vec<OpeningClaim> = Vec::new();
    let mut i: usize = 0;
    while i < points_msb.len()
        invariant
            points_msb@.len() == values@.len(),
            forall|i: int| 0 <= i < points_msb@.len() ==> (#[trigger] points_msb@[i])@.len() > 7,
            i <= points_msb@.len(),
            claims@.len() == i,
            forall|k: int|
                0 <= k < i ==> opens_multilinear(
                    #[trigger] claims@[k],
                    points_msb@[k]@,
                    values@[k],
                ),
        decreases points_msb@.len() - i,
    {
        assert(points_msb@[i as int]@.len() > 7);
        claims.push(open_multilinear(points_msb[i].as_slice(), values[i]));
        i = i + 1;
    }
    claims
}

} // verus!
