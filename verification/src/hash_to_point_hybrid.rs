//! The hash-to-point relation in one compact circuit: the sponge's states and
//! products, the candidate slots and the copy rows between them share one
//! record-major domain.
//!
//! The relation's openings are stated over the old domains of slot wires and
//! of sponge blocks. Each is made up of openings of the compact domain, its
//! fragments, so that one commitment carries them all.
use vstd::prelude::*;

use crate::field::{fmul, F128};
use crate::hash_to_point_hybrid::layout::{
    cube_fragments, fragment_view, fragment_views, lemma_record_cube, lemma_sponge_cube,
    record_cubes, record_fragments, sponge_cubes, sponge_fragments, Cube, Fragment,
};
use crate::hash_to_point_sponge::gather::{bit_extension, covers_point, gather_eval_many};
use crate::mle::copy_table;
use crate::sums::{fsum, lemma_fsum_congr};

pub mod assembly;
pub mod circuit;
pub mod direct;
pub mod fold;
pub mod layout;
pub mod ledgers;
pub mod protocol;
pub mod reductions;
pub mod relocation;
pub mod rows;

verus! {

/// The domain that a list of opening points is stated over.
#[derive(Clone, Copy, Debug, PartialEq, Eq, Structural)]
pub enum Relocation {
    Record,
    Sponge,
}

impl Relocation {
    /// Variables of a record's part of the domain.
    pub open spec fn vars(self) -> int {
        match self {
            Relocation::Record => 17,
            Relocation::Sponge => 19,
        }
    }

    /// The fragments of an opening.
    pub open spec fn fragments(self, point: Seq<F128>) -> Seq<(Seq<F128>, F128)> {
        match self {
            Relocation::Record => cube_fragments(record_cubes(), 11, 17, point),
            Relocation::Sponge => cube_fragments(sponge_cubes(), 20, 19, point),
        }
    }
}

/// The groups' points and weights.
pub open spec fn group_views(groups: Seq<Vec<Fragment>>) -> Seq<Seq<(Seq<F128>, F128)>> {
    Seq::new(groups.len(), |g: int| fragment_views(groups[g]@))
}

/// All fragments in order.
pub open spec fn flat(groups: Seq<Seq<(Seq<F128>, F128)>>) -> Seq<(Seq<F128>, F128)>
    decreases groups.len(),
{
    if groups.len() == 0 {
        seq![]
    } else {
        flat(groups.drop_last()) + groups.last()
    }
}

/// The weighted sum of a group's values, which start at `from`.
pub open spec fn group_value(group: Seq<(Seq<F128>, F128)>, values: Seq<F128>, from: int) -> F128 {
    fsum(|i: int| fmul(group[i].1, values[from + i]), group.len() as int)
}

/// The first value of group `g`.
pub open spec fn group_start(groups: Seq<Seq<(Seq<F128>, F128)>>, g: int) -> int {
    flat(groups.take(g)).len() as int
}

/// The value of group `g`.
pub open spec fn group_sum(groups: Seq<Seq<(Seq<F128>, F128)>>, values: Seq<F128>, g: int) -> F128 {
    group_value(groups[g], values, group_start(groups, g))
}

/// The fragments' points.
pub open spec fn fragment_points(fragments: Seq<(Seq<F128>, F128)>) -> Seq<Seq<F128>> {
    Seq::new(fragments.len(), |i: int| fragments[i].0)
}

/// The views of a list of points.
pub open spec fn point_views(points: Seq<Vec<F128>>) -> Seq<Seq<F128>> {
    Seq::new(points.len(), |i: int| points[i]@)
}

/// The fragments of every point.
pub open spec fn relocated(source: Seq<Seq<F128>>, relocation: Relocation) -> Seq<
    Seq<(Seq<F128>, F128)>,
> {
    Seq::new(source.len(), |k: int| relocation.fragments(source[k]))
}

/// What the fragments open to, in order.
pub open spec fn fragments_opened(z: Seq<F128>, groups: Seq<Seq<(Seq<F128>, F128)>>) -> Seq<F128> {
    Seq::new(flat(groups).len(), |i: int| bit_extension(z, flat(groups)[i].0))
}

/// What the openings of one group make up.
pub open spec fn group_opened(z: Seq<F128>, group: Seq<(Seq<F128>, F128)>) -> F128 {
    fsum(|i: int| fmul(group[i].1, bit_extension(z, group[i].0)), group.len() as int)
}

/// What the openings of every group make up.
pub open spec fn groups_opened(z: Seq<F128>, groups: Seq<Seq<(Seq<F128>, F128)>>) -> Seq<F128> {
    Seq::new(groups.len(), |g: int| group_opened(z, groups[g]))
}

/// The fragments of two lists of groups in a row.
pub proof fn lemma_flat_concat(a: Seq<Seq<(Seq<F128>, F128)>>, b: Seq<Seq<(Seq<F128>, F128)>>)
    ensures
        flat(a + b) == flat(a) + flat(b),
    decreases b.len(),
{
    if b.len() == 0 {
        assert(a + b =~= a);
        assert(flat(a) + flat(b) =~= flat(a));
    } else {
        lemma_flat_concat(a, b.drop_last());
        assert((a + b).drop_last() =~= a + b.drop_last());
        assert(flat(a + b) =~= flat(a) + flat(b));
    }
}

/// Two lists of groups in a row open to their openings in a row.
pub proof fn lemma_opened_concat(
    z: Seq<F128>,
    a: Seq<Seq<(Seq<F128>, F128)>>,
    b: Seq<Seq<(Seq<F128>, F128)>>,
)
    ensures
        fragments_opened(z, a + b) == fragments_opened(z, a) + fragments_opened(z, b),
        groups_opened(z, a + b) == groups_opened(z, a) + groups_opened(z, b),
{
    lemma_flat_concat(a, b);
    assert(fragments_opened(z, a + b) =~= fragments_opened(z, a) + fragments_opened(z, b));
    assert(groups_opened(z, a + b) =~= groups_opened(z, a) + groups_opened(z, b));
}

/// Every fragment has the record coordinates of its opening and the variables
/// of a record.
pub proof fn lemma_fragment_vars(relocation: Relocation, point: Seq<F128>, i: int)
    requires
        point.len() >= relocation.vars(),
        0 <= i < relocation.fragments(point).len(),
    ensures
        relocation.fragments(point)[i].0.len() == point.len() - relocation.vars() + 19,
{
    match relocation {
        Relocation::Record => {
            assert forall|k: int| 0 <= k < 11 implies (#[trigger] record_cubes()(k)).fits(17) by {
                lemma_record_cube(k);
            }
            lemma_cube_vars(record_cubes(), 11, 17, point, i);
        },
        Relocation::Sponge => {
            assert forall|k: int| 0 <= k < 20 implies (#[trigger] sponge_cubes()(k)).fits(19) by {
                lemma_sponge_cube(k);
            }
            lemma_cube_vars(sponge_cubes(), 20, 19, point, i);
        },
    }
}

proof fn lemma_cube_vars(cubes: spec_fn(int) -> Cube, n: int, vars: int, point: Seq<F128>, i: int)
    requires
        forall|k: int| 0 <= k < n ==> (#[trigger] cubes(k)).fits(vars),
        point.len() >= vars,
        0 <= i < cube_fragments(cubes, n, vars, point).len(),
    ensures
        cube_fragments(cubes, n, vars, point)[i].0.len() == point.len() - vars + 19,
    decreases n,
{
    if n > 0 {
        assert(cubes(n - 1).fits(vars));
        if i < cube_fragments(cubes, n - 1, vars, point).len() {
            lemma_cube_vars(cubes, n - 1, vars, point, i);
        }
    }
}

/// The fragments of the first groups are the first fragments.
pub proof fn lemma_flat_take(groups: Seq<Seq<(Seq<F128>, F128)>>, g: int)
    requires
        0 <= g < groups.len(),
    ensures
        flat(groups.take(g + 1)) == flat(groups.take(g)) + groups[g],
        group_start(groups, g + 1) == group_start(groups, g) + groups[g].len(),
{
    assert(groups.take(g + 1).drop_last() =~= groups.take(g));
}

/// The first groups' fragments are a part of all.
pub proof fn lemma_flat_part(groups: Seq<Seq<(Seq<F128>, F128)>>, g: int)
    requires
        0 <= g <= groups.len(),
    ensures
        group_start(groups, g) <= flat(groups).len(),
        flat(groups.take(g)) == flat(groups).take(group_start(groups, g)),
    decreases groups.len() - g,
{
    if g == groups.len() {
        assert(groups.take(g) =~= groups);
        assert(flat(groups) =~= flat(groups).take(flat(groups).len() as int));
    } else {
        lemma_flat_part(groups, g + 1);
        lemma_flat_take(groups, g);
        assert(flat(groups.take(g)) =~= flat(groups).take(group_start(groups, g)));
    }
}

/// The fragments of every point.
pub fn flatten(points: &[Vec<F128>], relocation: Relocation) -> (groups: Vec<Vec<Fragment>>)
    requires
        forall|k: int| 0 <= k < points@.len() ==> (#[trigger] points@[k])@.len() >= relocation.vars(),
    ensures
        group_views(groups@) == Seq::new(
            points@.len(),
            |k: int| relocation.fragments(points@[k]@),
        ),
{
    let mut groups: Vec<Vec<Fragment>> = Vec::with_capacity(points.len());
    let mut k: usize = 0;
    while k < points.len()
        invariant
            forall|k: int|
                0 <= k < points@.len() ==> (#[trigger] points@[k])@.len() >= relocation.vars(),
            k <= points@.len(),
            groups@.len() == k,
            forall|j: int|
                0 <= j < k ==> fragment_views((#[trigger] groups@[j])@) == relocation.fragments(
                    points@[j]@,
                ),
        decreases points@.len() - k,
    {
        assert(points@[k as int]@.len() >= relocation.vars());
        let group = match relocation {
            Relocation::Record => record_fragments(points[k].as_slice()),
            Relocation::Sponge => sponge_fragments(points[k].as_slice()),
        };
        groups.push(group);
        k = k + 1;
    }
    assert(group_views(groups@) =~= Seq::new(
        points@.len(),
        |k: int| relocation.fragments(points@[k]@),
    ));
    groups
}

/// The points of all groups in order.
pub fn group_points(groups: &[Vec<Fragment>]) -> (points: Vec<Vec<F128>>)
    ensures
        point_views(points@) == fragment_points(flat(group_views(groups@))),
{
    let mut points: Vec<Vec<F128>> = Vec::new();
    let ghost views = group_views(groups@);
    let mut g: usize = 0;
    assert(views.take(0) =~= seq![]);
    assert(point_views(points@) =~= fragment_points(flat(views.take(0))));
    while g < groups.len()
        invariant
            views == group_views(groups@),
            g <= groups@.len(),
            point_views(points@) == fragment_points(flat(views.take(g as int))),
        decreases groups@.len() - g,
    {
        let group = &groups[g];
        let ghost before = point_views(points@);
        let mut i: usize = 0;
        while i < group.len()
            invariant
                g < groups@.len(),
                group@ == groups@[g as int]@,
                views == group_views(groups@),
                i <= group@.len(),
                point_views(points@) == before + fragment_points(views[g as int].take(i as int)),
            decreases group@.len() - i,
        {
            let point = copy_table(group[i].point.as_slice());
            assert(views[g as int][i as int] == fragment_view(group@[i as int]));
            let ghost mid = points@;
            points.push(point);
            assert(point_views(points@) =~= point_views(mid).push(points@.last()@));
            assert(fragment_points(views[g as int].take(i + 1)) =~= fragment_points(
                views[g as int].take(i as int),
            ).push(views[g as int][i as int].0));
            i = i + 1;
            assert(point_views(points@) =~= before + fragment_points(
                views[g as int].take(i as int),
            ));
        }
        assert(views[g as int].take(i as int) =~= views[g as int]);
        proof {
            lemma_flat_take(views, g as int);
        }
        g = g + 1;
        assert(point_views(points@) =~= fragment_points(flat(views.take(g as int))));
    }
    assert(views.take(g as int) =~= views);
    points
}

/// The weighted sum of a group's values.
fn sum_group(group: &Vec<Fragment>, values: &[F128], from: usize) -> (sum: F128)
    requires
        from + group@.len() <= values@.len(),
    ensures
        sum == group_value(fragment_views(group@), values@, from as int),
{
    let mut sum = F128::zero();
    let total: usize = values.len();
    let ghost view = fragment_views(group@);
    let ghost term = |i: int| fmul(view[i].1, values@[from + i]);
    let mut i: usize = 0;
    while i < group.len()
        invariant
            total == values@.len(),
            from + group@.len() <= values@.len(),
            view == fragment_views(group@),
            term == (|i: int| fmul(view[i].1, values@[from + i])),
            i <= group@.len(),
            sum == fsum(term, i as int),
        decreases group@.len() - i,
    {
        assert(view[i as int] == fragment_view(group@[i as int]));
        sum = sum + group[i].weight * values[from + i];
        i = i + 1;
    }
    sum
}

/// Open every fragment: the groups' values, and the points and values of all
/// fragments in order.
pub fn evaluations(z: &[F128], groups: &[Vec<Fragment>]) -> (opened: (
    Vec<F128>,
    Vec<Vec<F128>>,
    Vec<F128>,
))
    requires
        forall|i: int|
            0 <= i < flat(group_views(groups@)).len() ==> covers_point(
                z@,
                (#[trigger] flat(group_views(groups@))[i]).0,
            ),
    ensures
        point_views(opened.1@) == fragment_points(flat(group_views(groups@))),
        opened.2@ == fragments_opened(z@, group_views(groups@)),
        opened.0@ == groups_opened(z@, group_views(groups@)),
{
    let ghost views = group_views(groups@);
    let points = group_points(groups);
    proof {
        assert(point_views(points@).len() == points@.len());
        assert(fragment_points(flat(views)).len() == flat(views).len());
        assert forall|k: int| 0 <= k < points@.len() implies covers_point(
            z@,
            (#[trigger] points@[k])@,
        ) by {
            assert(point_views(points@)[k] == flat(views)[k].0);
        }
    }
    let values = gather_eval_many(z, points.as_slice());
    proof {
        assert forall|i: int| 0 <= i < flat(views).len() implies #[trigger] values@[i]
            == bit_extension(z@, flat(views)[i].0) by {
            assert(point_views(points@)[i] == flat(views)[i].0);
        }
        assert(values@ =~= Seq::new(
            flat(views).len(),
            |i: int| bit_extension(z@, flat(views)[i].0),
        ));
    }
    let total: usize = values.len();
    let mut originals: Vec<F128> = Vec::with_capacity(groups.len());
    let ghost value_of = |g: int|
        fsum(
            |i: int| fmul(views[g][i].1, bit_extension(z@, views[g][i].0)),
            views[g].len() as int,
        );
    let mut from: usize = 0;
    let mut g: usize = 0;
    assert(views.take(0) =~= seq![]);
    while g < groups.len()
        invariant
            views == group_views(groups@),
            value_of == (|g: int|
                fsum(
                    |i: int| fmul(views[g][i].1, bit_extension(z@, views[g][i].0)),
                    views[g].len() as int,
                )),
            values@ == Seq::new(flat(views).len(), |i: int| bit_extension(z@, flat(views)[i].0)),
            total == values@.len(),
            g <= groups@.len(),
            from == group_start(views, g as int),
            from <= values@.len(),
            originals@ == Seq::new(g as nat, |h: int| value_of(h)),
        decreases groups@.len() - g,
    {
        proof {
            lemma_flat_take(views, g as int);
            lemma_flat_part(views, g + 1);
            assert(views[g as int] == fragment_views(groups@[g as int]@));
        }
        let sum = sum_group(&groups[g], values.as_slice(), from);
        proof {
            let group = views[g as int];
            let a = |i: int| fmul(group[i].1, values@[from + i]);
            let b = |i: int| fmul(views[g as int][i].1, bit_extension(z@, views[g as int][i].0));
            assert forall|i: int| 0 <= i < group.len() implies #[trigger] a(i) == b(i) by {
                let part = flat(views.take(g + 1));
                assert(part[from + i] == group[i]);
                assert(part[from + i] == flat(views)[from + i]);
            }
            lemma_fsum_congr(a, b, group.len() as int);
        }
        originals.push(sum);
        from = from + groups[g].len();
        g = g + 1;
        assert(originals@ =~= Seq::new(g as nat, |h: int| value_of(h)));
    }
    assert(originals@ =~= Seq::new(
        groups@.len(),
        |g: int|
            fsum(
                |i: int|
                    fmul(
                        group_views(groups@)[g][i].1,
                        bit_extension(z@, group_views(groups@)[g][i].0),
                    ),
                group_views(groups@)[g].len() as int,
            ),
    )) by {
        assert forall|g: int| 0 <= g < groups@.len() implies #[trigger] originals@[g] == fsum(
            |i: int|
                fmul(
                    group_views(groups@)[g][i].1,
                    bit_extension(z@, group_views(groups@)[g][i].0),
                ),
            group_views(groups@)[g].len() as int,
        ) by {
            assert(originals@[g] == value_of(g));
        }
    }
    (originals, points, values)
}

/// Fragments in all groups.
pub fn count_fragments(groups: &[Vec<Fragment>]) -> (count: Option<usize>)
    ensures
        match count {
            Some(n) => n == flat(group_views(groups@)).len(),
            None => flat(group_views(groups@)).len() > usize::MAX,
        },
{
    let ghost views = group_views(groups@);
    let mut count: usize = 0;
    let mut g: usize = 0;
    assert(views.take(0) =~= seq![]);
    while g < groups.len()
        invariant
            views == group_views(groups@),
            g <= groups@.len(),
            count == group_start(views, g as int),
        decreases groups@.len() - g,
    {
        proof {
            lemma_flat_take(views, g as int);
            lemma_flat_part(views, g + 1);
            assert(views[g as int] == fragment_views(groups@[g as int]@));
        }
        match count.checked_add(groups[g].len()) {
            Some(next) => {
                count = next;
            },
            None => {
                return None;
            },
        }
        g = g + 1;
    }
    assert(views.take(g as int) =~= views);
    Some(count)
}

/// The claimed values have one value per group and one per fragment.
pub open spec fn values_fit(
    groups: Seq<Seq<(Seq<F128>, F128)>>,
    values: Seq<F128>,
    originals: Seq<F128>,
) -> bool {
    groups.len() == originals.len() && flat(groups).len() == values.len()
}

/// Every group's weighted sum is its claimed value.
pub open spec fn values_agree(
    groups: Seq<Seq<(Seq<F128>, F128)>>,
    values: Seq<F128>,
    originals: Seq<F128>,
) -> bool {
    forall|g: int| 0 <= g < groups.len() ==> #[trigger] group_sum(groups, values, g) == originals[g]
}

/// Check that the fragments' values make up the openings, and list the
/// fragments' points.
pub fn check_fragments(groups: &[Vec<Fragment>], values: &[F128], originals: &[F128]) -> (result:
    Result<Vec<Vec<F128>>, &'static str>)
    ensures
        ({
            let views = group_views(groups@);
            match result {
                Ok(points) => values_fit(views, values@, originals@) && values_agree(
                    views,
                    values@,
                    originals@,
                ) && point_views(points@) == fragment_points(flat(views)),
                Err(e) => if !values_fit(views, values@, originals@) {
                    e@ == "hybrid relocation shape"@
                } else {
                    e@ == "hybrid relocation identity"@ && !values_agree(views, values@, originals@)
                },
            }
        }),
{
    let ghost views = group_views(groups@);
    let total: usize = values.len();
    if groups.len() != originals.len() {
        return Err("hybrid relocation shape");
    }
    match count_fragments(groups) {
        Some(n) => {
            if n != values.len() {
                return Err("hybrid relocation shape");
            }
        },
        None => {
            return Err("hybrid relocation shape");
        },
    }
    let mut from: usize = 0;
    let mut g: usize = 0;
    assert(views.take(0) =~= seq![]);
    while g < groups.len()
        invariant
            views == group_views(groups@),
            values_fit(views, values@, originals@),
            total == values@.len(),
            g <= groups@.len(),
            from == group_start(views, g as int),
            from <= values@.len(),
            forall|h: int| 0 <= h < g ==> #[trigger] group_sum(views, values@, h) == originals@[h],
        decreases groups@.len() - g,
    {
        proof {
            lemma_flat_take(views, g as int);
            lemma_flat_part(views, g + 1);
            assert(views[g as int] == fragment_views(groups@[g as int]@));
        }
        let got = sum_group(&groups[g], values, from);
        assert(got == group_sum(views, values@, g as int));
        if got != originals[g] {
            return Err("hybrid relocation identity");
        }
        from = from + groups[g].len();
        g = g + 1;
    }
    Ok(group_points(groups))
}

/// The values that fragments open to make up the openings that the fragments
/// stand for, so an honest ledger is accepted.
pub proof fn opened_fragments_agree(z: Seq<F128>, groups: Seq<Seq<(Seq<F128>, F128)>>)
    ensures
        values_fit(groups, fragments_opened(z, groups), groups_opened(z, groups)),
        values_agree(groups, fragments_opened(z, groups), groups_opened(z, groups)),
{
    let values = fragments_opened(z, groups);
    assert forall|g: int| 0 <= g < groups.len() implies #[trigger] group_sum(groups, values, g)
        == groups_opened(z, groups)[g] by {
        lemma_flat_take(groups, g);
        lemma_flat_part(groups, g + 1);
        let from = group_start(groups, g);
        let a = |i: int| fmul(groups[g][i].1, values[from + i]);
        let b = |i: int| fmul(groups[g][i].1, bit_extension(z, groups[g][i].0));
        assert forall|i: int| 0 <= i < groups[g].len() implies #[trigger] a(i) == b(i) by {
            let part = flat(groups.take(g + 1));
            assert(part[from + i] == groups[g][i]);
            assert(part[from + i] == flat(groups)[from + i]);
        }
        lemma_fsum_congr(a, b, groups[g].len() as int);
    }
}

/// The converse: where the fragment values are what the fragments open to, only
/// the openings that the fragments stand for are accepted.
pub proof fn accepted_openings_are_true(
    z: Seq<F128>,
    groups: Seq<Seq<(Seq<F128>, F128)>>,
    originals: Seq<F128>,
)
    requires
        values_fit(groups, fragments_opened(z, groups), originals),
        values_agree(groups, fragments_opened(z, groups), originals),
    ensures
        originals == groups_opened(z, groups),
{
    opened_fragments_agree(z, groups);
    let values = fragments_opened(z, groups);
    assert forall|g: int| 0 <= g < groups.len() implies originals[g] == groups_opened(
        z,
        groups,
    )[g] by {
        assert(group_sum(groups, values, g) == originals[g]);
    }
    assert(originals =~= groups_opened(z, groups));
}

} // verus!
