//! What a transcript observes, as data: the challenger that absorbs it lives
//! with the caller.
use vstd::prelude::*;
use vstd::string::*;

use crate::bytes::{le_bytes, write_bytes, write_le};
use crate::field::F128;
use crate::mle::copy_table;

pub mod binding;
pub mod scripts;

verus! {

/// One observation.
#[derive(Clone, Debug, PartialEq, Eq)]
pub enum Observation {
    Label(Vec<u8>),
    Bytes(Vec<u8>),
    Element(F128),
    Elements(Vec<F128>),
}

/// The content of an observation.
pub enum Observed {
    Label(Seq<u8>),
    Bytes(Seq<u8>),
    Element(F128),
    Elements(Seq<F128>),
}

/// The content of an observation.
pub open spec fn observed(o: Observation) -> Observed {
    match o {
        Observation::Label(bytes) => Observed::Label(bytes@),
        Observation::Bytes(bytes) => Observed::Bytes(bytes@),
        Observation::Element(x) => Observed::Element(x),
        Observation::Elements(xs) => Observed::Elements(xs@),
    }
}

/// The contents of a list of observations.
pub open spec fn all_observed(list: Seq<Observation>) -> Seq<Observed> {
    Seq::new(list.len(), |i: int| observed(list[i]))
}

/// A count is observed as eight little-endian bytes.
pub open spec fn count_observed(n: int) -> Observed {
    Observed::Bytes(le_bytes(n, 8))
}

/// A point is observed as its length and its coordinates.
pub open spec fn coordinates_observed(point: Seq<F128>) -> Seq<Observed> {
    seq![count_observed(point.len() as int), Observed::Elements(point)]
}

/// Observe a label.
pub fn observe_label(out: &mut Vec<Observation>, label: &str)
    ensures
        all_observed(final(out)@) == all_observed(old(out)@).push(
            Observed::Label(label.spec_bytes()),
        ),
{
    let ghost before = out@;
    let mut bytes: Vec<u8> = Vec::new();
    write_bytes(&mut bytes, label.as_bytes());
    assert(bytes@ =~= label.spec_bytes());
    out.push(Observation::Label(bytes));
    assert(all_observed(out@) =~= all_observed(before).push(Observed::Label(label.spec_bytes())));
}

/// Observe a byte string.
pub fn observe_bytes(out: &mut Vec<Observation>, bytes: &[u8])
    ensures
        all_observed(final(out)@) == all_observed(old(out)@).push(Observed::Bytes(bytes@)),
{
    let ghost before = out@;
    let mut copy: Vec<u8> = Vec::new();
    write_bytes(&mut copy, bytes);
    assert(copy@ =~= bytes@);
    out.push(Observation::Bytes(copy));
    assert(all_observed(out@) =~= all_observed(before).push(Observed::Bytes(bytes@)));
}

/// Observe a field element.
pub fn observe_f128(out: &mut Vec<Observation>, x: F128)
    ensures
        all_observed(final(out)@) == all_observed(old(out)@).push(Observed::Element(x)),
{
    let ghost before = out@;
    out.push(Observation::Element(x));
    assert(all_observed(out@) =~= all_observed(before).push(Observed::Element(x)));
}

/// Observe a count.
pub fn count(out: &mut Vec<Observation>, n: usize)
    ensures
        all_observed(final(out)@) == all_observed(old(out)@).push(count_observed(n as int)),
{
    let ghost before = out@;
    let mut bytes: Vec<u8> = Vec::new();
    write_le(&mut bytes, n as u64, 8);
    assert(bytes@ =~= le_bytes(n as int, 8));
    out.push(Observation::Bytes(bytes));
    assert(all_observed(out@) =~= all_observed(before).push(count_observed(n as int)));
}

/// Observe a point.
pub fn coordinates(out: &mut Vec<Observation>, point: &[F128])
    ensures
        all_observed(final(out)@) == all_observed(old(out)@) + coordinates_observed(point@),
{
    let ghost before = out@;
    count(out, point.len());
    let ghost mid = out@;
    out.push(Observation::Elements(copy_table(point)));
    assert(all_observed(out@) =~= all_observed(mid).push(Observed::Elements(point@)));
    assert(all_observed(out@) =~= all_observed(before) + coordinates_observed(point@));
}

} // verus!
