//! Little-endian numbers in byte streams.
use vstd::prelude::*;

use crate::field::F128;

verus! {

/// The low `n` bytes of a number, least significant first.
pub open spec fn le_bytes(v: int, n: nat) -> Seq<u8>
    decreases n,
{
    if n == 0 {
        seq![]
    } else {
        seq![(v % 256) as u8] + le_bytes(v / 256, (n - 1) as nat)
    }
}

/// Append the low `n` bytes of a number.
pub fn write_le(out: &mut Vec<u8>, v: u64, n: usize)
    ensures
        final(out)@ == old(out)@ + le_bytes(v as int, n as nat),
{
    let ghost start = out@;
    let mut rest: u64 = v;
    let mut i: usize = 0;
    assert(out@ + le_bytes(rest as int, n as nat) =~= start + le_bytes(v as int, n as nat));
    while i < n
        invariant
            i <= n,
            out@ + le_bytes(rest as int, (n - i) as nat) == start + le_bytes(v as int, n as nat),
        decreases n - i,
    {
        let ghost before = out@;
        let byte: u8 = (rest % 256) as u8;
        out.push(byte);
        assert(out@ + le_bytes(rest as int / 256, (n - i - 1) as nat) =~= before + le_bytes(
            rest as int,
            (n - i) as nat,
        ));
        rest = rest / 256;
        i = i + 1;
    }
    assert(out@ + le_bytes(rest as int, 0) =~= out@);
}

/// A field element's sixteen bytes: its low limb, then its high limb.
pub open spec fn f128_bytes(v: F128) -> Seq<u8> {
    le_bytes(v.lo as int, 8) + le_bytes(v.hi as int, 8)
}

/// Append a field element.
pub fn write_f128(out: &mut Vec<u8>, v: F128)
    ensures
        final(out)@ == old(out)@ + f128_bytes(v),
{
    let ghost start = out@;
    write_le(out, v.lo, 8);
    write_le(out, v.hi, 8);
    assert(out@ =~= start + f128_bytes(v));
}

/// Append a 32-bit number.
pub fn write_u32(out: &mut Vec<u8>, v: u32)
    ensures
        final(out)@ == old(out)@ + le_bytes(v as int, 4),
{
    write_le(out, v as u64, 4);
}

/// Append a copy of `part`.
pub fn write_bytes(out: &mut Vec<u8>, part: &[u8])
    ensures
        final(out)@ == old(out)@ + part@,
{
    let mut i: usize = 0;
    while i < part.len()
        invariant
            i <= part@.len(),
            out@ == old(out)@ + part@.take(i as int),
        decreases part@.len() - i,
    {
        out.push(part[i]);
        i = i + 1;
        assert(out@ =~= old(out)@ + part@.take(i as int));
    }
    assert(part@.take(i as int) =~= part@);
}

/// The number that bytes spell, least significant first.
pub open spec fn le_value(bytes: Seq<u8>) -> int
    decreases bytes.len(),
{
    if bytes.len() == 0 {
        0
    } else {
        bytes[0] + 256 * le_value(bytes.skip(1))
    }
}

/// A number is read back from its bytes, of which there are as many as were
/// asked for: two numbers with the same bytes are the same.
pub proof fn numbers_are_read_back(v: int, n: nat)
    requires
        0 <= v < vstd::arithmetic::power::pow(256, n),
    ensures
        le_bytes(v, n).len() == n,
        le_value(le_bytes(v, n)) == v,
    decreases n,
{
    vstd::arithmetic::power::lemma_pow0(256);
    if n > 0 {
        let rest = vstd::arithmetic::power::pow(256, (n - 1) as nat);
        reveal(vstd::arithmetic::power::pow);
        assert(vstd::arithmetic::power::pow(256, n) == 256 * rest);
        assert(0 <= v / 256 < rest);
        numbers_are_read_back(v / 256, (n - 1) as nat);
        assert(le_bytes(v, n).skip(1) =~= le_bytes(v / 256, (n - 1) as nat));
    }
}

/// An element is read back from its sixteen bytes: its low limb from the first
/// eight, its high limb from the others.
pub proof fn elements_are_read_back(x: F128)
    ensures
        f128_bytes(x).len() == 16,
        le_value(f128_bytes(x).take(8)) == x.lo,
        le_value(f128_bytes(x).skip(8)) == x.hi,
{
    assert(vstd::arithmetic::power::pow(256, 8) == 0x1_0000_0000_0000_0000) by {
        reveal_with_fuel(vstd::arithmetic::power::pow, 9);
    }
    numbers_are_read_back(x.lo as int, 8);
    numbers_are_read_back(x.hi as int, 8);
    assert(f128_bytes(x).take(8) =~= le_bytes(x.lo as int, 8));
    assert(f128_bytes(x).skip(8) =~= le_bytes(x.hi as int, 8));
}

} // verus!
