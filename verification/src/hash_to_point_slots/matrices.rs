//! The slot matrices, built from symbolic linear forms.
use vstd::prelude::*;

use crate::hash_to_point_slots::relation::{
    carry, constant_bit, counter_before, increment, input_wire, lemma_shift_bit, multiple_bit,
    residue_bit, row_left, row_right, triple_bit, value, wire_at,
};
use crate::hash_to_point_slots::{
    ACC, ACCEPT_K, CENTER_K, CNT, COUNTER_BITS, D, E, G, GATE, H, K, PIN_A14, PIN_A15, PIN_B16,
    PIN_RANGE, PIN_T4, PLANE, Q, RANGE_K, R_CHAIN, SLOTS, U, U_CHAIN, X, Z_BASE, Z_CONST_POS,
    Z_PLANES,
};
use crate::r1cs::{columns_below, lin_eval, strictly_sorted, SparseBinaryMatrix};

verus! {

/// The wire of `plane` at `slot`.
pub fn pos(plane: usize, slot: usize) -> (w: usize)
    requires
        plane < 128,
        slot < PLANE,
    ensures
        w == wire_at(plane as int, slot as int),
        w < K,
{
    plane * PLANE + slot
}

/// A linear form over the wires: sorted columns in range.
pub open spec fn is_form(lin: Seq<usize>) -> bool {
    strictly_sorted(lin) && columns_below(lin, K as int)
}

proof fn lemma_lin_eval_push(row: Seq<usize>, c: usize, z: Seq<bool>)
    ensures
        lin_eval(row.push(c), z) == (lin_eval(row, z) != z[c as int]),
{
    assert(row.push(c).drop_last() =~= row);
}

/// The symmetric difference of two sorted column sets.
pub fn lin_xor(a: &Vec<usize>, b: &Vec<usize>) -> (out: Vec<usize>)
    requires
        strictly_sorted(a@),
        strictly_sorted(b@),
    ensures
        strictly_sorted(out@),
        forall|n: int|
            columns_below(a@, n) && columns_below(b@, n) ==> #[trigger] columns_below(out@, n),
        forall|c: usize| #[trigger] out@.contains(c) == (a@.contains(c) != b@.contains(c)),
        forall|z: Seq<bool>|
            #[trigger] lin_eval(out@, z) == (lin_eval(a@, z) != lin_eval(b@, z)),
{
    let mut out: Vec<usize> = Vec::new();
    let mut i: usize = 0;
    let mut j: usize = 0;
    while i < a.len() || j < b.len()
        invariant
            strictly_sorted(a@),
            strictly_sorted(b@),
            strictly_sorted(out@),
            i <= a@.len(),
            j <= b@.len(),
            forall|k: int| 0 <= k < out@.len() && i < a@.len() ==> (#[trigger] out@[k]) < a@[i as int],
            forall|k: int| 0 <= k < out@.len() && j < b@.len() ==> (#[trigger] out@[k]) < b@[j as int],
            forall|k: int| 0 <= k < j && i < a@.len() ==> (#[trigger] b@[k]) < a@[i as int],
            forall|k: int| 0 <= k < i && j < b@.len() ==> (#[trigger] a@[k]) < b@[j as int],
            forall|c: usize|
                #[trigger] out@.contains(c) == (a@.take(i as int).contains(c) != b@.take(
                    j as int,
                ).contains(c)),
            forall|z: Seq<bool>|
                #[trigger] lin_eval(out@, z) == (lin_eval(a@.take(i as int), z) != lin_eval(
                    b@.take(j as int),
                    z,
                )),
        decreases a@.len() - i + b@.len() - j,
    {
        let ghost (i0, j0, out0) = (i as int, j as int, out@);
        let take_a = i < a.len() && (j >= b.len() || a[i] <= b[j]);
        let take_b = j < b.len() && (i >= a.len() || b[j] <= a[i]);
        if take_a && take_b {
            proof {
                lemma_take_step(a@, i0);
                lemma_take_step(b@, j0);
            }
            i = i + 1;
            j = j + 1;
        } else if take_a {
            out.push(a[i]);
            proof {
                lemma_take_step(a@, i0);
                lemma_push_contains(out0, a@[i0]);
                lemma_prefix_misses(b@, j0, a@[i0]);
                assert forall|z: Seq<bool>| #[trigger] lin_eval(out@, z) == (lin_eval(
                    a@.take(i0 + 1),
                    z,
                ) != lin_eval(b@.take(j0), z)) by {
                    lemma_lin_eval_push(out0, a@[i0], z);
                    lemma_lin_eval_push(a@.take(i0), a@[i0], z);
                }
            }
            i = i + 1;
        } else {
            out.push(b[j]);
            proof {
                lemma_take_step(b@, j0);
                lemma_push_contains(out0, b@[j0]);
                lemma_prefix_misses(a@, i0, b@[j0]);
                assert forall|z: Seq<bool>| #[trigger] lin_eval(out@, z) == (lin_eval(
                    a@.take(i0),
                    z,
                ) != lin_eval(b@.take(j0 + 1), z)) by {
                    lemma_lin_eval_push(out0, b@[j0], z);
                    lemma_lin_eval_push(b@.take(j0), b@[j0], z);
                }
            }
            j = j + 1;
        }
    }
    proof {
        assert(a@.take(i as int) =~= a@);
        assert(b@.take(j as int) =~= b@);
        assert forall|n: int|
            columns_below(a@, n) && columns_below(b@, n) implies #[trigger] columns_below(
            out@,
            n,
        ) by {
            assert forall|k: int| 0 <= k < out@.len() implies (#[trigger] out@[k]) < n by {
                assert(out@.contains(out@[k]));
            }
        }
    }
    out
}

proof fn lemma_take_step(s: Seq<usize>, i: int)
    requires
        0 <= i < s.len(),
        strictly_sorted(s),
    ensures
        s.take(i + 1) == s.take(i).push(s[i]),
        forall|c: usize| #[trigger] s.take(i + 1).contains(c) == (s.take(i).contains(c) || c == s[i]),
        !s.take(i).contains(s[i]),
        forall|z: Seq<bool>|
            #[trigger] lin_eval(s.take(i + 1), z) == (lin_eval(s.take(i), z) != z[s[i] as int]),
{
    assert(s.take(i + 1) =~= s.take(i).push(s[i]));
    lemma_push_contains(s.take(i), s[i]);
    assert forall|z: Seq<bool>| #[trigger] lin_eval(s.take(i + 1), z) == (lin_eval(s.take(i), z)
        != z[s[i] as int]) by {
        lemma_lin_eval_push(s.take(i), s[i], z);
    }
}

proof fn lemma_push_contains(s: Seq<usize>, v: usize)
    ensures
        forall|c: usize| #[trigger] s.push(v).contains(c) == (s.contains(c) || c == v),
{
    assert forall|c: usize| #[trigger] s.push(v).contains(c) == (s.contains(c) || c == v) by {
        if s.contains(c) {
            let k = choose|k: int| 0 <= k < s.len() && s[k] == c;
            assert(s.push(v)[k] == c);
        }
        if c == v {
            assert(s.push(v)[s.len() as int] == c);
        }
    }
}

proof fn lemma_prefix_misses(s: Seq<usize>, j: int, v: usize)
    requires
        0 <= j <= s.len(),
        forall|k: int| 0 <= k < j ==> (#[trigger] s[k]) < v,
    ensures
        !s.take(j).contains(v),
{
}

/// The form of one wire.
pub fn wire(col: usize) -> (lin: Vec<usize>)
    requires
        col < K,
    ensures
        lin@ == seq![col],
        is_form(lin@),
        forall|z: Seq<bool>| #[trigger] lin_eval(lin@, z) == z[col as int],
{
    let mut lin: Vec<usize> = Vec::new();
    lin.push(col);
    proof {
        assert(lin@ =~= seq![col]);
        assert forall|z: Seq<bool>| #[trigger] lin_eval(lin@, z) == z[col as int] by {
            assert(Seq::<usize>::empty().push(col) =~= lin@);
            lemma_lin_eval_push(Seq::empty(), col, z);
        }
    }
    lin
}

/// The form of the constant one.
pub fn constant_one() -> (lin: Vec<usize>)
    ensures
        lin@ == seq![Z_CONST_POS],
        is_form(lin@),
        forall|z: Seq<bool>| #[trigger] lin_eval(lin@, z) == z[0],
{
    wire(Z_CONST_POS)
}

/// The form of zero.
fn zero_form() -> (lin: Vec<usize>)
    ensures
        lin@.len() == 0,
        is_form(lin@),
        forall|z: Seq<bool>| #[trigger] lin_eval(lin@, z) == false,
{
    Vec::new()
}

fn copy_form(lin: &Vec<usize>) -> (copy: Vec<usize>)
    ensures
        copy@ == lin@,
{
    let mut copy: Vec<usize> = Vec::with_capacity(lin.len());
    let mut i: usize = 0;
    while i < lin.len()
        invariant
            i <= lin@.len(),
            copy@ == lin@.take(i as int),
        decreases lin@.len() - i,
    {
        copy.push(lin[i]);
        i = i + 1;
        assert(copy@ =~= lin@.take(i as int));
    }
    assert(copy@ =~= lin@);
    copy
}

/// The wire lies in the planes `low..high` of `slot`.
pub open spec fn in_planes(w: int, slot: int, low: int, high: int) -> bool {
    let plane = w / PLANE as int;
    w % PLANE as int == slot && low <= plane < high
}

/// The two row lists under construction.
pub struct Builder {
    pub a: Vec<Vec<usize>>,
    pub b: Vec<Vec<usize>>,
}

impl Builder {
    /// One row per wire in each list, all in range.
    pub open spec fn well_formed(self) -> bool {
        &&& self.a@.len() == K
        &&& self.b@.len() == K
        &&& forall|w: int|
            #![trigger self.a@[w]]
            #![trigger self.b@[w]]
            0 <= w < K ==> is_form(self.a@[w]@) && is_form(self.b@[w]@)
    }

    /// Row `w` is still empty.
    pub open spec fn vacant(self, w: int) -> bool {
        self.a@[w]@.len() == 0 && self.b@[w]@.len() == 0
    }

    /// Row `w` is the slot relation's.
    pub open spec fn settled(self, w: int) -> bool {
        forall|z: Seq<bool>|
            #![trigger lin_eval(self.a@[w]@, z)]
            #![trigger lin_eval(self.b@[w]@, z)]
            lin_eval(self.a@[w]@, z) == row_left(z, w) && lin_eval(self.b@[w]@, z) == row_right(
                z,
                w,
            )
    }

    /// Rows outside the planes `low..high` of `slot` are as before.
    pub open spec fn keeps(self, before: Builder, slot: int, low: int, high: int) -> bool {
        forall|w: int|
            #![trigger self.a@[w]]
            #![trigger self.b@[w]]
            0 <= w < K && !in_planes(w, slot, low, high) ==> self.a@[w]@ == before.a@[w]@
                && self.b@[w]@ == before.b@[w]@
    }

    /// The planes `low..high` of `slot` are still empty.
    pub open spec fn vacant_planes(self, slot: int, low: int, high: int) -> bool {
        forall|p: int| low <= p < high ==> self.vacant(#[trigger] wire_at(p, slot))
    }

    /// All rows empty.
    pub fn new() -> (builder: Builder)
        ensures
            builder.well_formed(),
            forall|w: int| 0 <= w < K ==> #[trigger] builder.vacant(w),
    {
        let mut a: Vec<Vec<usize>> = Vec::new();
        let mut b: Vec<Vec<usize>> = Vec::new();
        let mut w: usize = 0;
        while w < K
            invariant
                w <= K,
                a@.len() == w,
                b@.len() == w,
                forall|v: int| 0 <= v < w ==> (#[trigger] a@[v])@.len() == 0,
                forall|v: int| 0 <= v < w ==> (#[trigger] b@[v])@.len() == 0,
            decreases K - w,
        {
            a.push(Vec::new());
            b.push(Vec::new());
            w = w + 1;
        }
        Builder { a, b }
    }

    /// Row `w`: `(a_lin)(b_lin) = z_w`.
    pub fn product(&mut self, w: usize, a_lin: Vec<usize>, b_lin: Vec<usize>)
        requires
            old(self).well_formed(),
            w < K,
            old(self).vacant(w as int),
            is_form(a_lin@),
            is_form(b_lin@),
        ensures
            final(self).well_formed(),
            final(self).a@ == old(self).a@.update(w as int, a_lin),
            final(self).b@ == old(self).b@.update(w as int, b_lin),
    {
        self.a.set(w, a_lin);
        self.b.set(w, b_lin);
    }

    /// Free input: the vacuous self-loop `(z_w)(1) = z_w`.
    pub fn input(&mut self, w: usize)
        requires
            old(self).well_formed(),
            w < K,
            old(self).vacant(w as int),
            input_wire(w as int),
        ensures
            final(self).well_formed(),
            final(self).settled(w as int),
            forall|v: int|
                #![trigger final(self).a@[v]]
                #![trigger final(self).b@[v]]
                0 <= v < K && v != w ==> final(self).a@[v]@ == old(self).a@[v]@
                    && final(self).b@[v]@ == old(self).b@[v]@,
    {
        self.product(w, wire(w), constant_one());
    }

    /// Defined wire: `(lin)(1) = z_w`.
    pub fn define(&mut self, w: usize, lin: Vec<usize>)
        requires
            old(self).well_formed(),
            w < K,
            old(self).vacant(w as int),
            is_form(lin@),
        ensures
            final(self).well_formed(),
            final(self).a@[w as int]@ == lin@,
            forall|z: Seq<bool>| #[trigger] lin_eval(final(self).b@[w as int]@, z) == z[0],
            forall|v: int|
                #![trigger final(self).a@[v]]
                #![trigger final(self).b@[v]]
                0 <= v < K && v != w ==> final(self).a@[v]@ == old(self).a@[v]@
                    && final(self).b@[v]@ == old(self).b@[v]@,
    {
        self.product(w, lin, constant_one());
    }

    /// Forced zero: `(lin ^ z_w)(1) = z_w` holds exactly when `lin = 0`.
    pub fn force_zero(&mut self, w: usize, lin: &Vec<usize>)
        requires
            old(self).well_formed(),
            w < K,
            old(self).vacant(w as int),
            is_form(lin@),
        ensures
            final(self).well_formed(),
            forall|z: Seq<bool>|
                #[trigger] lin_eval(final(self).a@[w as int]@, z) == (lin_eval(lin@, z)
                    != z[w as int]),
            forall|z: Seq<bool>| #[trigger] lin_eval(final(self).b@[w as int]@, z) == z[0],
            forall|v: int|
                #![trigger final(self).a@[v]]
                #![trigger final(self).b@[v]]
                0 <= v < K && v != w ==> final(self).a@[v]@ == old(self).a@[v]@
                    && final(self).b@[v]@ == old(self).b@[v]@,
    {
        self.product(w, lin_xor(lin, &wire(w)), constant_one());
    }
}

/// One carry step: the product row for
/// `carry' = maj(p, s, c) = (p ^ c)(s ^ c) ^ c` at wire `w`; returns the new
/// symbolic carry `{w} ^ c`.
pub fn carry_step(
    builder: &mut Builder,
    w: usize,
    p: &Vec<usize>,
    s: &Vec<usize>,
    c: &Vec<usize>,
) -> (next: Vec<usize>)
    requires
        old(builder).well_formed(),
        w < K,
        old(builder).vacant(w as int),
        is_form(p@),
        is_form(s@),
        is_form(c@),
    ensures
        final(builder).well_formed(),
        is_form(next@),
        forall|z: Seq<bool>|
            #[trigger] lin_eval(next@, z) == (z[w as int] != lin_eval(c@, z)),
        forall|z: Seq<bool>|
            #[trigger] lin_eval(final(builder).a@[w as int]@, z) == (lin_eval(p@, z) != lin_eval(
                c@,
                z,
            )),
        forall|z: Seq<bool>|
            #[trigger] lin_eval(final(builder).b@[w as int]@, z) == (lin_eval(s@, z) != lin_eval(
                c@,
                z,
            )),
        forall|v: int|
            #![trigger final(builder).a@[v]]
            #![trigger final(builder).b@[v]]
            0 <= v < K && v != w ==> final(builder).a@[v]@ == old(builder).a@[v]@
                && final(builder).b@[v]@ == old(builder).b@[v]@,
{
    builder.product(w, lin_xor(p, c), lin_xor(s, c));
    lin_xor(&wire(w), c)
}

/// The carry chain of `value + constant`; product `i` lands in plane
/// `plane_base + i` at `slot`. Returns the symbolic carry out.
pub fn constant_add_chain(
    builder: &mut Builder,
    plane_base: usize,
    slot: usize,
    constant: u32,
    bits: usize,
    values: &Vec<Vec<usize>>,
) -> (out: Vec<usize>)
    requires
        old(builder).well_formed(),
        plane_base + bits <= 128,
        bits <= 32,
        bits <= values@.len(),
        slot < PLANE,
        forall|i: int| 0 <= i < values@.len() ==> is_form(#[trigger] values@[i]@),
        old(builder).vacant_planes(slot as int, plane_base as int, plane_base + bits),
    ensures
        final(builder).well_formed(),
        final(builder).keeps(*old(builder), slot as int, plane_base as int, plane_base + bits),
        is_form(out@),
        forall|z: Seq<bool>|
            #[trigger] lin_eval(out@, z) == carry(
                z,
                plane_base as int,
                slot as int,
                bits as int,
            ),
        forall|i: int, z: Seq<bool>|
            #![trigger lin_eval(final(builder).a@[wire_at(plane_base + i, slot as int)]@, z)]
            0 <= i < bits ==> lin_eval(
                final(builder).a@[wire_at(plane_base + i, slot as int)]@,
                z,
            ) == (lin_eval(values@[i]@, z) != carry(z, plane_base as int, slot as int, i)),
        forall|i: int, z: Seq<bool>|
            #![trigger lin_eval(final(builder).b@[wire_at(plane_base + i, slot as int)]@, z)]
            0 <= i < bits ==> lin_eval(
                final(builder).b@[wire_at(plane_base + i, slot as int)]@,
                z,
            ) == (constant_bit(z, constant as int, i) != carry(
                z,
                plane_base as int,
                slot as int,
                i,
            )),
{
    let mut carried = zero_form();
    let mut i: usize = 0;
    let ghost start = *builder;
    while i < bits
        invariant
            builder.well_formed(),
            start.vacant_planes(slot as int, plane_base as int, plane_base + bits),
            builder.keeps(start, slot as int, plane_base as int, plane_base + i),
            plane_base + bits <= 128,
            bits <= 32,
            i <= bits,
            bits <= values@.len(),
            slot < PLANE,
            forall|i: int| 0 <= i < values@.len() ==> is_form(#[trigger] values@[i]@),
            is_form(carried@),
            forall|z: Seq<bool>|
                #[trigger] lin_eval(carried@, z) == carry(
                    z,
                    plane_base as int,
                    slot as int,
                    i as int,
                ),
            forall|k: int, z: Seq<bool>|
                #![trigger lin_eval(builder.a@[wire_at(plane_base + k, slot as int)]@, z)]
                0 <= k < i ==> lin_eval(
                    builder.a@[wire_at(plane_base + k, slot as int)]@,
                    z,
                ) == (lin_eval(values@[k]@, z) != carry(z, plane_base as int, slot as int, k)),
            forall|k: int, z: Seq<bool>|
                #![trigger lin_eval(builder.b@[wire_at(plane_base + k, slot as int)]@, z)]
                0 <= k < i ==> lin_eval(
                    builder.b@[wire_at(plane_base + k, slot as int)]@,
                    z,
                ) == (constant_bit(z, constant as int, k) != carry(
                    z,
                    plane_base as int,
                    slot as int,
                    k,
                )),
        decreases bits - i,
    {
        proof {
            lemma_shift_bit(constant, i as u32);
        }
        let shifted: u32 = constant >> (i as u32);
        let k_bit = if shifted & 1 == 1 {
            constant_one()
        } else {
            zero_form()
        };
        let w: usize = pos(plane_base + i, slot);
        assert(builder.vacant(w as int)) by {
            assert(start.vacant(wire_at(plane_base + i, slot as int)));
            assert(builder.a@[w as int]@ == start.a@[w as int]@);
        }
        carried = carry_step(builder, w, &values[i], &k_bit, &carried);
        i = i + 1;
    }
    carried
}


impl Builder {
    /// The planes `low..high` of `slot` are settled.
    pub open spec fn settled_planes(self, slot: int, low: int, high: int) -> bool {
        forall|p: int| low <= p < high ==> self.settled(#[trigger] wire_at(p, slot))
    }
}

/// The forms of a list have the given values.
pub open spec fn forms_are(
    forms: Seq<Vec<usize>>,
    n: int,
    f: spec_fn(int, Seq<bool>) -> bool,
) -> bool {
    &&& forms.len() == n
    &&& forall|i: int| 0 <= i < n ==> is_form(#[trigger] forms[i]@)
    &&& forall|i: int, z: Seq<bool>|
        0 <= i < n ==> #[trigger] lin_eval(forms[i]@, z) == f(i, z)
}

proof fn lemma_plane_of(plane: int, slot: int)
    requires
        0 <= plane,
        0 <= slot < PLANE,
    ensures
        wire_at(plane, slot) / PLANE as int == plane,
        wire_at(plane, slot) % PLANE as int == slot,
{
}

/// The free inputs of a slot: the word and quotient bits.
fn slot_inputs(builder: &mut Builder, slot: usize)
    requires
        old(builder).well_formed(),
        slot < SLOTS,
        old(builder).vacant_planes(slot as int, X as int, D as int),
    ensures
        final(builder).well_formed(),
        final(builder).keeps(*old(builder), slot as int, X as int, D as int),
        final(builder).settled_planes(slot as int, X as int, D as int),
{
    let ghost start = *builder;
    let mut p: usize = X;
    while p < D
        invariant
            X <= p <= D,
            slot < SLOTS,
            builder.well_formed(),
            start.vacant_planes(slot as int, X as int, D as int),
            builder.keeps(start, slot as int, X as int, p as int),
            builder.settled_planes(slot as int, X as int, p as int),
        decreases D - p,
    {
        let w: usize = pos(p, slot);
        assert(start.vacant(wire_at(p as int, slot as int)));
        builder.input(w);
        p = p + 1;
    }
}

/// The candidate word's bit forms.
fn word_forms(slot: usize) -> (forms: Vec<Vec<usize>>)
    requires
        slot < SLOTS,
    ensures
        forms_are(forms@, 16, |i: int, z: Seq<bool>| value(z, X + i, slot as int)),
{
    let mut forms: Vec<Vec<usize>> = Vec::new();
    let mut i: usize = 0;
    while i < 16
        invariant
            i <= 16,
            slot < SLOTS,
            forms_are(forms@, i as int, |i: int, z: Seq<bool>| value(z, X + i, slot as int)),
        decreases 16 - i,
    {
        forms.push(wire(pos(X + i, slot)));
        i = i + 1;
    }
    forms
}

/// The accept chain: the reject flag is the carry out of `x + 4,091`.
fn slot_accept(builder: &mut Builder, slot: usize)
    requires
        old(builder).well_formed(),
        slot < SLOTS,
        old(builder).vacant_planes(slot as int, D as int, E as int),
    ensures
        final(builder).well_formed(),
        final(builder).keeps(*old(builder), slot as int, D as int, E as int),
        final(builder).settled_planes(slot as int, D as int, E as int),
{
    let ghost start = *builder;
    let x = word_forms(slot);
    let reject = constant_add_chain(builder, D, slot, ACCEPT_K, 16, &x);
    let w: usize = pos(ACC, slot);
    assert(start.vacant(wire_at(ACC as int, slot as int)));
    builder.define(w, lin_xor(&reject, &constant_one()));
    assert forall|p: int| D <= p < E implies builder.settled(#[trigger] wire_at(p, slot as int)) by {
        lemma_plane_of(p, slot as int);
        let i = p - D;
        assert(wire_at(D + i, slot as int) == wire_at(p, slot as int));
    }
}

/// The small adder `3 q = q + (q << 1)`; returns the five bit forms.
fn slot_triple(builder: &mut Builder, slot: usize) -> (t: Vec<Vec<usize>>)
    requires
        old(builder).well_formed(),
        slot < SLOTS,
        old(builder).vacant_planes(slot as int, E as int, G as int),
    ensures
        final(builder).well_formed(),
        final(builder).keeps(*old(builder), slot as int, E as int, G as int),
        final(builder).settled_planes(slot as int, E as int, G as int),
        forms_are(t@, 5, |i: int, z: Seq<bool>| triple_bit(z, slot as int, i)),
{
    let ghost start = *builder;
    let q0 = wire(pos(Q, slot));
    let q1 = wire(pos(Q + 1, slot));
    let q2 = wire(pos(Q + 2, slot));
    let none = zero_form();
    assert(start.vacant(wire_at(E as int, slot as int)));
    assert(start.vacant(wire_at(E + 1, slot as int)));
    assert(start.vacant(wire_at(E + 2, slot as int)));
    let e2 = carry_step(builder, pos(E, slot), &q1, &q0, &none);
    let e3 = carry_step(builder, pos(E + 1, slot), &q2, &q1, &e2);
    let e4 = carry_step(builder, pos(E + 2, slot), &none, &q2, &e3);
    proof {
        reveal_with_fuel(carry, 4);
        assert forall|z: Seq<bool>| #[trigger] lin_eval(e2@, z) == carry(z, E as int, slot as int, 1) by {}
        assert forall|z: Seq<bool>| #[trigger] lin_eval(e3@, z) == carry(z, E as int, slot as int, 2) by {}
        assert forall|z: Seq<bool>| #[trigger] lin_eval(e4@, z) == carry(z, E as int, slot as int, 3) by {}
        lemma_plane_of(E as int, slot as int);
        lemma_plane_of(E + 1, slot as int);
        lemma_plane_of(E + 2, slot as int);
        assert(builder.settled(wire_at(E as int, slot as int)));
        assert(builder.settled(wire_at(E + 1, slot as int)));
        assert(builder.settled(wire_at(E + 2, slot as int)));
    }
    let t1 = lin_xor(&q1, &q0);
    let t2 = lin_xor(&lin_xor(&q2, &q1), &e2);
    let t3 = lin_xor(&q2, &e3);
    let mut t: Vec<Vec<usize>> = Vec::new();
    t.push(q0);
    t.push(t1);
    t.push(t2);
    t.push(t3);
    t.push(e4);
    t
}

/// The form of bit `i` of `12,289 q`.
fn multiple_form(slot: usize, i: usize, t: &Vec<Vec<usize>>) -> (form: Vec<usize>)
    requires
        slot < SLOTS,
        i < 16,
        forms_are(t@, 5, |i: int, z: Seq<bool>| triple_bit(z, slot as int, i)),
    ensures
        is_form(form@),
        forall|z: Seq<bool>| #[trigger] lin_eval(form@, z) == multiple_bit(z, slot as int, i as int),
{
    if i < 3 {
        wire(pos(Q + i, slot))
    } else if i >= 12 {
        assert(is_form(t@[i - 12]@));
        copy_form(&t[i - 12])
    } else {
        zero_form()
    }
}

/// The subtraction `x - 12,289 q`; returns the difference bits and the final
/// borrow.
fn slot_subtract(builder: &mut Builder, slot: usize, t: &Vec<Vec<usize>>) -> (out: (
    Vec<Vec<usize>>,
    Vec<usize>,
))
    requires
        old(builder).well_formed(),
        slot < SLOTS,
        old(builder).vacant_planes(slot as int, G as int, U_CHAIN as int),
        forms_are(t@, 5, |i: int, z: Seq<bool>| triple_bit(z, slot as int, i)),
    ensures
        final(builder).well_formed(),
        final(builder).keeps(*old(builder), slot as int, G as int, U_CHAIN as int),
        final(builder).settled_planes(slot as int, G as int, U_CHAIN as int),
        forms_are(out.0@, 16, |i: int, z: Seq<bool>| residue_bit(z, slot as int, i)),
        is_form(out.1@),
        forall|z: Seq<bool>|
            #[trigger] lin_eval(out.1@, z) == carry(z, G as int, slot as int, 16),
{
    let ghost start = *builder;
    let mut borrow = zero_form();
    let mut a_bits: Vec<Vec<usize>> = Vec::new();
    let mut i: usize = 0;
    while i < 16
        invariant
            i <= 16,
            slot < SLOTS,
            builder.well_formed(),
            start.vacant_planes(slot as int, G as int, U_CHAIN as int),
            builder.keeps(start, slot as int, G as int, G + i),
            builder.settled_planes(slot as int, G as int, G + i),
            forms_are(t@, 5, |i: int, z: Seq<bool>| triple_bit(z, slot as int, i)),
            forms_are(a_bits@, i as int, |i: int, z: Seq<bool>| residue_bit(z, slot as int, i)),
            is_form(borrow@),
            forall|z: Seq<bool>|
                #[trigger] lin_eval(borrow@, z) == carry(z, G as int, slot as int, i as int),
        decreases 16 - i,
    {
        let x = wire(pos(X + i, slot));
        let m = multiple_form(slot, i, t);
        let w: usize = pos(G + i, slot);
        assert(start.vacant(wire_at(G + i, slot as int)));
        let bit = lin_xor(&lin_xor(&x, &m), &borrow);
        let not_x = lin_xor(&x, &constant_one());
        let ghost before = *builder;
        let ghost borrow0 = borrow@;
        borrow = carry_step(builder, w, &not_x, &m, &borrow);
        proof {
            lemma_plane_of(G + i, slot as int);
            assert(builder.settled(w as int));
            assert forall|p: int| G <= p < G + i + 1 implies builder.settled(
                #[trigger] wire_at(p, slot as int),
            ) by {
                if p < G + i {
                    assert(before.settled(wire_at(p, slot as int)));
                    assert(builder.a@[wire_at(p, slot as int)]@ == before.a@[wire_at(
                        p,
                        slot as int,
                    )]@);
                }
            }
        }
        a_bits.push(bit);
        i = i + 1;
    }
    (a_bits, borrow)
}

/// The centering and range chains over the difference bits, with the
/// forced-zero rows on the range carry and the two high difference bits.
fn slot_flags(builder: &mut Builder, slot: usize, a_bits: &Vec<Vec<usize>>)
    requires
        old(builder).well_formed(),
        slot < SLOTS,
        old(builder).vacant_planes(slot as int, U_CHAIN as int, PIN_B16 as int),
        forms_are(a_bits@, 16, |i: int, z: Seq<bool>| residue_bit(z, slot as int, i)),
    ensures
        final(builder).well_formed(),
        final(builder).keeps(*old(builder), slot as int, U_CHAIN as int, PIN_B16 as int),
        final(builder).settled_planes(slot as int, U_CHAIN as int, PIN_B16 as int),
{
    let ghost start = *builder;
    let center = constant_add_chain(builder, U_CHAIN, slot, CENTER_K, 14, a_bits);
    assert(start.vacant(wire_at(U as int, slot as int)));
    builder.define(pos(U, slot), center);
    let ghost first = *builder;
    proof {
        assert forall|p: int| U_CHAIN <= p <= U implies builder.settled(
            #[trigger] wire_at(p, slot as int),
        ) by {
            lemma_plane_of(p, slot as int);
            assert(wire_at(U_CHAIN + (p - U_CHAIN), slot as int) == wire_at(p, slot as int));
        }
        assert forall|p: int| R_CHAIN <= p < PIN_B16 implies builder.vacant(
            #[trigger] wire_at(p, slot as int),
        ) by {
            lemma_plane_of(p, slot as int);
            assert(start.vacant(wire_at(p, slot as int)));
            assert(builder.a@[wire_at(p, slot as int)]@ == start.a@[wire_at(p, slot as int)]@);
        }
    }
    let range = constant_add_chain(builder, R_CHAIN, slot, RANGE_K, 14, a_bits);
    let ghost second = *builder;
    proof {
        assert forall|p: int| PIN_RANGE <= p < PIN_B16 implies builder.vacant(
            #[trigger] wire_at(p, slot as int),
        ) by {
            lemma_plane_of(p, slot as int);
            assert(first.vacant(wire_at(p, slot as int)));
            assert(builder.a@[wire_at(p, slot as int)]@ == first.a@[wire_at(p, slot as int)]@);
        }
        assert(second.vacant(wire_at(PIN_RANGE as int, slot as int)));
        assert(second.vacant(wire_at(PIN_A14 as int, slot as int)));
        assert(second.vacant(wire_at(PIN_A15 as int, slot as int)));
    }
    builder.force_zero(pos(PIN_RANGE, slot), &range);
    builder.force_zero(pos(PIN_A14, slot), &a_bits[14]);
    builder.force_zero(pos(PIN_A15, slot), &a_bits[15]);
    assert forall|p: int| U_CHAIN <= p < PIN_B16 implies builder.settled(
        #[trigger] wire_at(p, slot as int),
    ) by {
        let w = wire_at(p, slot as int);
        lemma_plane_of(p, slot as int);
        assert(wire_at(R_CHAIN + (p - R_CHAIN), slot as int) == w);
        if p <= U {
            assert(first.settled(w));
            assert(second.a@[w]@ == first.a@[w]@);
            assert(builder.a@[w]@ == second.a@[w]@);
        }
    }
}

/// The forced-zero rows on the final borrow and the top bit of `3 q`.
fn slot_pins(builder: &mut Builder, slot: usize, borrow: &Vec<usize>, top: &Vec<usize>)
    requires
        old(builder).well_formed(),
        slot < SLOTS,
        old(builder).vacant_planes(slot as int, PIN_B16 as int, H as int),
        is_form(borrow@),
        is_form(top@),
        forall|z: Seq<bool>|
            #[trigger] lin_eval(borrow@, z) == carry(z, G as int, slot as int, 16),
        forall|z: Seq<bool>| #[trigger] lin_eval(top@, z) == carry(z, E as int, slot as int, 3),
    ensures
        final(builder).well_formed(),
        final(builder).keeps(*old(builder), slot as int, PIN_B16 as int, H as int),
        final(builder).settled_planes(slot as int, PIN_B16 as int, H as int),
{
    let ghost start = *builder;
    assert(start.vacant(wire_at(PIN_B16 as int, slot as int)));
    assert(start.vacant(wire_at(PIN_T4 as int, slot as int)));
    builder.force_zero(pos(PIN_B16, slot), borrow);
    builder.force_zero(pos(PIN_T4, slot), top);
    assert forall|p: int| PIN_B16 <= p < H implies builder.settled(
        #[trigger] wire_at(p, slot as int),
    ) by {
        lemma_plane_of(p, slot as int);
    }
}


/// The write gate and the counter increment by the accept flag:
/// `h_0 = acc`, `h_{i+1} = cnt_i & h_i`, `cnt_i' = cnt_i ^ h_i`. The counter
/// forms move from before the slot to after it.
fn slot_counter(builder: &mut Builder, slot: usize, counter: &mut Vec<Vec<usize>>)
    requires
        old(builder).well_formed(),
        slot < SLOTS,
        old(builder).vacant_planes(slot as int, H as int, CNT + COUNTER_BITS),
        forms_are(
            old(counter)@,
            COUNTER_BITS as int,
            |i: int, z: Seq<bool>| counter_before(z, slot as int, i),
        ),
    ensures
        final(builder).well_formed(),
        final(builder).keeps(*old(builder), slot as int, H as int, CNT + COUNTER_BITS),
        final(builder).settled_planes(slot as int, H as int, CNT + COUNTER_BITS),
        forms_are(
            final(counter)@,
            COUNTER_BITS as int,
            |i: int, z: Seq<bool>| counter_before(z, slot + 1, i),
        ),
{
    let ghost start = *builder;
    let acc = wire(pos(ACC, slot));
    assert(start.vacant(wire_at(GATE as int, slot as int)));
    let gate = lin_xor(&counter[COUNTER_BITS - 1], &constant_one());
    builder.product(pos(GATE, slot), copy_form(&acc), gate);
    let ghost gated = *builder;
    proof {
        lemma_plane_of(GATE as int, slot as int);
        assert(gated.settled(wire_at(GATE as int, slot as int)));
    }
    let mut carried = acc;
    let mut bit: usize = 0;
    while bit < COUNTER_BITS
        invariant
            bit <= COUNTER_BITS,
            slot < SLOTS,
            builder.well_formed(),
            start.vacant_planes(slot as int, H as int, CNT + COUNTER_BITS),
            builder.keeps(start, slot as int, H as int, CNT + COUNTER_BITS),
            builder.settled(wire_at(GATE as int, slot as int)),
            builder.settled_planes(slot as int, H as int, H + bit),
            builder.settled_planes(slot as int, CNT as int, CNT + bit),
            builder.vacant_planes(slot as int, H + bit, H + COUNTER_BITS),
            builder.vacant_planes(slot as int, CNT + bit, CNT + COUNTER_BITS),
            is_form(carried@),
            forall|z: Seq<bool>|
                #[trigger] lin_eval(carried@, z) == increment(z, slot as int, bit as int),
            counter@.len() == COUNTER_BITS,
            forall|i: int| 0 <= i < COUNTER_BITS ==> is_form(#[trigger] counter@[i]@),
            forall|i: int, z: Seq<bool>|
                0 <= i < COUNTER_BITS ==> #[trigger] lin_eval(counter@[i]@, z)
                    == counter_before(z, if i < bit {
                    slot + 1
                } else {
                    slot as int
                }, i),
        decreases COUNTER_BITS - bit,
    {
        let ghost before = *builder;
        let h: usize = pos(H + bit, slot);
        let c: usize = pos(CNT + bit, slot);
        proof {
            lemma_plane_of(H + bit, slot as int);
            lemma_plane_of(CNT + bit, slot as int);
            assert(before.vacant(wire_at(H + bit, slot as int)));
            assert(before.vacant(wire_at(CNT + bit, slot as int)));
        }
        let after = lin_xor(&counter[bit], &carried);
        builder.product(h, copy_form(&counter[bit]), copy_form(&carried));
        builder.define(c, after);
        counter.set(bit, wire(c));
        carried = wire(h);
        proof {
            assert(builder.settled(h as int));
            assert(builder.settled(c as int));
            assert forall|p: int|
                (H <= p < H + bit || CNT <= p < CNT + bit || p == GATE) implies builder.settled(
                #[trigger] wire_at(p, slot as int),
            ) by {
                let w = wire_at(p, slot as int);
                assert(before.settled(w));
                assert(builder.a@[w]@ == before.a@[w]@);
                assert(builder.b@[w]@ == before.b@[w]@);
            }
            assert forall|p: int|
                (H + bit < p < H + COUNTER_BITS || CNT + bit < p < CNT
                    + COUNTER_BITS) implies builder.vacant(#[trigger] wire_at(p, slot as int)) by {
                let w = wire_at(p, slot as int);
                assert(before.vacant(w));
                assert(builder.a@[w]@ == before.a@[w]@);
                assert(builder.b@[w]@ == before.b@[w]@);
            }
        }
        bit = bit + 1;
    }
}

/// Vacancy passes through a step that leaves the planes alone.
proof fn lemma_still_vacant(before: Builder, after: Builder, slot: int, low: int, high: int, p: int, q: int)
    requires
        0 <= slot < PLANE,
        before.vacant_planes(slot, p, q),
        after.keeps(before, slot, low, high),
        0 <= p,
        q <= 128,
        high <= p,
    ensures
        after.vacant_planes(slot, p, q),
{
    assert forall|v: int| p <= v < q implies after.vacant(#[trigger] wire_at(v, slot)) by {
        let w = wire_at(v, slot);
        lemma_plane_of(v, slot);
        assert(before.vacant(w));
        assert(after.a@[w]@ == before.a@[w]@);
        assert(after.b@[w]@ == before.b@[w]@);
    }
}

/// Settled planes pass through a step that leaves them alone.
proof fn lemma_still_settled(before: Builder, after: Builder, slot: int, low: int, high: int, p: int, q: int)
    requires
        0 <= slot < PLANE,
        before.settled_planes(slot, p, q),
        after.keeps(before, slot, low, high),
        0 <= p,
        q <= 128,
        q <= low,
    ensures
        after.settled_planes(slot, p, q),
{
    assert forall|v: int| p <= v < q implies after.settled(#[trigger] wire_at(v, slot)) by {
        let w = wire_at(v, slot);
        lemma_plane_of(v, slot);
        assert(before.settled(w));
        assert(after.a@[w]@ == before.a@[w]@);
        assert(after.b@[w]@ == before.b@[w]@);
    }
}

/// All rows of one slot.
fn slot_rows(builder: &mut Builder, slot: usize, counter: &mut Vec<Vec<usize>>)
    requires
        old(builder).well_formed(),
        slot < SLOTS,
        old(builder).vacant_planes(slot as int, X as int, CNT + COUNTER_BITS),
        forms_are(
            old(counter)@,
            COUNTER_BITS as int,
            |i: int, z: Seq<bool>| counter_before(z, slot as int, i),
        ),
    ensures
        final(builder).well_formed(),
        final(builder).keeps(*old(builder), slot as int, X as int, CNT + COUNTER_BITS),
        final(builder).settled_planes(slot as int, X as int, CNT + COUNTER_BITS),
        forms_are(
            final(counter)@,
            COUNTER_BITS as int,
            |i: int, z: Seq<bool>| counter_before(z, slot + 1, i),
        ),
{
    let ghost s = slot as int;
    let ghost top = CNT + COUNTER_BITS;
    let ghost b0 = *builder;
    slot_inputs(builder, slot);
    let ghost b1 = *builder;
    proof {
        lemma_still_vacant(b0, b1, s, X as int, D as int, D as int, top);
    }
    slot_accept(builder, slot);
    let ghost b2 = *builder;
    proof {
        lemma_still_vacant(b1, b2, s, D as int, E as int, E as int, top);
        lemma_still_settled(b1, b2, s, D as int, E as int, X as int, D as int);
    }
    let t = slot_triple(builder, slot);
    let ghost b3 = *builder;
    proof {
        lemma_still_vacant(b2, b3, s, E as int, G as int, G as int, top);
        lemma_still_settled(b2, b3, s, E as int, G as int, X as int, E as int);
    }
    let (a_bits, borrow) = slot_subtract(builder, slot, &t);
    let ghost b4 = *builder;
    proof {
        lemma_still_vacant(b3, b4, s, G as int, U_CHAIN as int, U_CHAIN as int, top);
        lemma_still_settled(b3, b4, s, G as int, U_CHAIN as int, X as int, G as int);
    }
    slot_flags(builder, slot, &a_bits);
    let ghost b5 = *builder;
    proof {
        lemma_still_vacant(b4, b5, s, U_CHAIN as int, PIN_B16 as int, PIN_B16 as int, top);
        lemma_still_settled(b4, b5, s, U_CHAIN as int, PIN_B16 as int, X as int, U_CHAIN as int);
    }
    slot_pins(builder, slot, &borrow, &t[4]);
    let ghost b6 = *builder;
    proof {
        lemma_still_vacant(b5, b6, s, PIN_B16 as int, H as int, H as int, top);
        lemma_still_settled(b5, b6, s, PIN_B16 as int, H as int, X as int, PIN_B16 as int);
    }
    slot_counter(builder, slot, counter);
    proof {
        lemma_still_settled(b6, *builder, s, H as int, top, X as int, H as int);
    }
}

/// The two matrices are the slot relation's: for every assignment the rows
/// evaluate to the relation's factors, and the columns are sorted.
pub open spec fn slot_matrices(a: SparseBinaryMatrix, b: SparseBinaryMatrix) -> bool {
    &&& a.num_rows == K && a.num_cols == K && a.rows@.len() == K
    &&& b.num_rows == K && b.num_cols == K && b.rows@.len() == K
    &&& forall|w: int| 0 <= w < K ==> is_form(#[trigger] a.row(w))
    &&& forall|w: int| 0 <= w < K ==> is_form(#[trigger] b.row(w))
    &&& forall|w: int, z: Seq<bool>|
        0 <= w < K ==> #[trigger] lin_eval(a.row(w), z) == row_left(z, w)
    &&& forall|w: int, z: Seq<bool>|
        0 <= w < K ==> #[trigger] lin_eval(b.row(w), z) == row_right(z, w)
}

/// Build the shared per-block matrices.
pub fn build_matrices() -> (matrices: (SparseBinaryMatrix, SparseBinaryMatrix))
    ensures
        slot_matrices(matrices.0, matrices.1),
{
    let mut builder = Builder::new();
    let ghost empty = builder;
    builder.input(Z_CONST_POS);
    assert forall|w: int| 0 < w < K implies #[trigger] builder.vacant(w) by {
        assert(empty.vacant(w));
        assert(builder.a@[w]@ == empty.a@[w]@);
        assert(builder.b@[w]@ == empty.b@[w]@);
    }
    // The running counter; the reset to zero is structural.
    let mut counter: Vec<Vec<usize>> = Vec::new();
    let mut bit: usize = 0;
    while bit < COUNTER_BITS
        invariant
            bit <= COUNTER_BITS,
            forms_are(counter@, bit as int, |i: int, z: Seq<bool>| counter_before(z, 0, i)),
        decreases COUNTER_BITS - bit,
    {
        counter.push(zero_form());
        bit = bit + 1;
    }
    let mut slot: usize = 0;
    while slot < SLOTS
        invariant
            slot <= SLOTS,
            builder.well_formed(),
            builder.settled(0),
            forms_are(
                counter@,
                COUNTER_BITS as int,
                |i: int, z: Seq<bool>| counter_before(z, slot as int, i),
            ),
            forall|w: int|
                0 < w < K && w / PLANE as int > 0 && w / (PLANE as int) < CNT + COUNTER_BITS && w
                    % (PLANE as int) < slot ==> #[trigger] builder.settled(w),
            forall|w: int|
                0 < w < K && (w / PLANE as int == 0 || w / PLANE as int >= CNT + COUNTER_BITS || w
                    % PLANE as int >= slot) ==> #[trigger] builder.vacant(w),
        decreases SLOTS - slot,
    {
        let ghost before = builder;
        proof {
            assert forall|p: int| X <= p < CNT + COUNTER_BITS implies builder.vacant(
                #[trigger] wire_at(p, slot as int),
            ) by {
                lemma_plane_of(p, slot as int);
            }
        }
        slot_rows(&mut builder, slot, &mut counter);
        proof {
            assert forall|w: int|
                0 <= w < K && w % PLANE as int != slot implies #[trigger] builder.a@[w]@
                == before.a@[w]@ && builder.b@[w]@ == before.b@[w]@ by {}
            assert forall|w: int|
                0 < w < K && w / PLANE as int > 0 && w / (PLANE as int) < CNT + COUNTER_BITS && w
                    % (PLANE as int) < slot + 1 implies #[trigger] builder.settled(w) by {
                if w % PLANE as int == slot {
                    assert(w == wire_at(w / PLANE as int, slot as int));
                } else {
                    assert(before.settled(w));
                    assert(builder.a@[w]@ == before.a@[w]@);
                }
            }
            assert forall|w: int|
                0 < w < K && (w / PLANE as int == 0 || w / PLANE as int >= CNT + COUNTER_BITS || w
                    % PLANE as int >= slot + 1) implies #[trigger] builder.vacant(w) by {
                assert(before.vacant(w));
                assert(builder.a@[w]@ == before.a@[w]@);
            }
            assert(builder.a@[0]@ == before.a@[0]@);
        }
        slot = slot + 1;
    }
    // The dense output region: free inputs.
    let ghost slots_done = builder;
    let base: usize = Z_BASE * PLANE;
    let end: usize = base + Z_PLANES * PLANE;
    let mut w: usize = base;
    while w < end
        invariant
            base == Z_BASE * PLANE,
            end == base + Z_PLANES * PLANE,
            base <= w <= end,
            builder.well_formed(),
            forall|v: int|
                #![trigger builder.a@[v]]
                #![trigger builder.b@[v]]
                0 <= v < K && !(base <= v < w) ==> builder.a@[v]@ == slots_done.a@[v]@
                    && builder.b@[v]@ == slots_done.b@[v]@,
            forall|v: int| base <= v < w ==> #[trigger] builder.settled(v),
            forall|v: int| base <= v < K ==> #[trigger] slots_done.vacant(v),
        decreases end - w,
    {
        let ghost before = builder;
        assert(slots_done.vacant(w as int));
        builder.input(w);
        assert forall|v: int| base <= v < w implies #[trigger] builder.settled(v) by {
            assert(before.settled(v));
            assert(builder.a@[v]@ == before.a@[v]@);
        }
        w = w + 1;
    }
    let a = SparseBinaryMatrix { num_rows: K, num_cols: K, rows: builder.a };
    let b = SparseBinaryMatrix { num_rows: K, num_cols: K, rows: builder.b };
    proof {
        assert forall|w: int| 0 <= w < K implies #[trigger] builder.settled(w) by {
            if !(base <= w < end) {
                assert(builder.a@[w]@ == slots_done.a@[w]@);
                assert(builder.b@[w]@ == slots_done.b@[w]@);
                if slots_done.settled(w) {
                } else {
                    assert(slots_done.vacant(w));
                    assert(!input_wire(w));
                }
            }
        }
        assert forall|w: int, z: Seq<bool>| 0 <= w < K implies #[trigger] lin_eval(a.row(w), z)
            == row_left(z, w) by {
            assert(builder.settled(w));
            assert(a.row(w) == builder.a@[w]@);
        }
        assert forall|w: int, z: Seq<bool>| 0 <= w < K implies #[trigger] lin_eval(b.row(w), z)
            == row_right(z, w) by {
            assert(builder.settled(w));
            assert(b.row(w) == builder.b@[w]@);
        }
    }
    (a, b)
}

} // verus!
