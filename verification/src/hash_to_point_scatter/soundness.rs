//! What an accepted sumcheck proves: short of a coincidence between a false
//! message and the honest one at a challenge, an accepted claim is the sum.
use vstd::prelude::*;

use crate::field::{fmul, fone, fzero, F128};
use crate::frobenius::finv;
use crate::hash_to_point_scatter::completeness::{lemma_combined_claim, lemma_discharge_terminal};
use crate::hash_to_point_scatter::discharge::{
    combined_value, counter_claim, discharge_outcome, discharge_tables, source_table,
};
use crate::hash_to_point_scatter::{
    honest_proof_verifies, honest_rounds, verify_outcome, walk_rounds,
};
use crate::hash_to_point_slots::{COUNTER_BITS, SLOT_VARS};
use crate::mle::{fold_all, mle};
use crate::polynomial::{distinct, is_poly, lemma_poly_unique, lemma_power_sums_bind};
use crate::sumcheck::{
    fold_factors, lagrange, lemma_lagrange_at_node, lemma_lagrange_poly, lemma_round_binds,
    lemma_round_interpolates, lemma_round_sums, node, node_product, product_sum, round_evals,
    shaped, terminal_value,
};
use crate::sums::{fpow, fsum, lemma_fprod_congr, lemma_fsum_congr};

verus! {

/// A message that is not the honest one meets it at the round's challenge.
pub open spec fn coincides(
    rounds: Seq<Seq<F128>>,
    honest: Seq<Seq<F128>>,
    challenges: Seq<F128>,
    k: int,
) -> bool {
    rounds[k] != honest[k] && lagrange(rounds[k], challenges[k]) == lagrange(
        honest[k],
        challenges[k],
    )
}

/// No round has such a coincidence.
pub open spec fn coincidence_free(
    rounds: Seq<Seq<F128>>,
    honest: Seq<Seq<F128>>,
    challenges: Seq<F128>,
) -> bool {
    forall|k: int|
        0 <= k < challenges.len() ==> !(#[trigger] coincides(rounds, honest, challenges, k))
}

/// Two messages of `n` evaluations that meet at `n` distinct challenges are
/// one: a false message coincides with the honest one at fewer.
pub proof fn coincidences_are_few(a: Seq<F128>, b: Seq<F128>, challenges: Seq<F128>)
    requires
        a.len() == b.len() == challenges.len(),
        a.len() <= u64::MAX,
        distinct(challenges),
        forall|i: int|
            0 <= i < challenges.len() ==> lagrange(a, #[trigger] challenges[i]) == lagrange(
                b,
                challenges[i],
            ),
    ensures
        a == b,
{
    let n = a.len() as int;
    let f = |r: F128| lagrange(a, r);
    let g = |r: F128| lagrange(b, r);
    lemma_lagrange_is_poly(a);
    lemma_lagrange_is_poly(b);
    assert forall|t: int| 0 <= t < n implies a[t] == b[t] by {
        lemma_poly_unique(f, g, challenges, node(t));
        lemma_lagrange_at_node(a, t);
        lemma_lagrange_at_node(b, t);
    }
    assert(a =~= b);
}

proof fn lemma_lagrange_is_poly(evals: Seq<F128>)
    ensures
        is_poly(|r: F128| lagrange(evals, r), evals.len()),
{
    let n = evals.len() as int;
    lemma_lagrange_poly(evals, n);
    assert((|r: F128| lagrange(evals, r)) =~= |r: F128|
        fsum(
            |t: int|
                fmul(fmul(evals[t], node_product(r, t, n)), finv(node_product(node(t), t, n))),
            n,
        ));
}

proof fn lemma_walk_sound(
    factors: Seq<Seq<F128>>,
    rounds: Seq<Seq<F128>>,
    running: F128,
    challenges: Seq<F128>,
)
    requires
        shaped(factors, challenges.len()),
        factors.len() < u64::MAX,
        rounds.len() == challenges.len(),
        walk_rounds(rounds, factors.len() as int, running, challenges) == Ok::<F128, Seq<char>>(
            terminal_value(factors, challenges),
        ),
        coincidence_free(rounds, honest_rounds(factors, challenges), challenges),
    ensures
        running == product_sum(factors),
    decreases challenges.len(),
{
    honest_proof_verifies(factors, challenges);
    let honest = honest_rounds(factors, challenges);
    if challenges.len() > 0 {
        let vars = challenges.len();
        let r = challenges[0];
        let rest = challenges.drop_first();
        let tail = rounds.drop_first();
        let bound = fold_factors(factors, seq![r]);
        assert(fold_factors(factors, challenges.take(0)) =~= factors);
        assert(honest[0] == round_evals(factors));
        assert(node(0) == fzero() && node(1) == fone());
        lemma_round_sums(factors, vars);
        lemma_round_interpolates(factors, r);
        lemma_round_binds(factors, vars, r);
        assert(seq![r].drop_first() =~= Seq::<F128>::empty());
        reveal_with_fuel(fold_all, 2);
        lemma_fprod_congr(
            |f: int| mle(bound[f], rest),
            |f: int| mle(factors[f], challenges),
            factors.len() as int,
        );
        assert forall|k: int| 0 <= k < rest.len() implies !(#[trigger] coincides(
            tail,
            honest_rounds(bound, rest),
            rest,
            k,
        )) by {
            let long = challenges.take(k + 1);
            assert(long.drop_first() =~= rest.take(k));
            assert(fold_factors(factors, long) =~= fold_factors(bound, rest.take(k)));
            assert(honest_rounds(bound, rest)[k] == honest[k + 1]);
            assert(!coincides(rounds, honest, challenges, k + 1));
        }
        lemma_walk_sound(bound, tail, lagrange(rounds[0], r), rest);
        assert(!coincides(rounds, honest, challenges, 0));
        assert(rounds[0] == round_evals(factors));
    }
}

/// Soundness: where the verifier accepts with the tables' own terminal and no
/// message coincides, the claim is the sum.
pub proof fn accepted_sums_are_true(
    factors: Seq<Seq<F128>>,
    claim: F128,
    rounds: Seq<Seq<F128>>,
    challenges: Seq<F128>,
)
    requires
        shaped(factors, challenges.len()),
        factors.len() < u64::MAX,
        verify_outcome(
            claim,
            rounds,
            challenges.len() as int,
            factors.len() as int,
            challenges,
        ) == Ok::<F128, Seq<char>>(terminal_value(factors, challenges)),
        coincidence_free(rounds, honest_rounds(factors, challenges), challenges),
    ensures
        claim == product_sum(factors),
{
    lemma_walk_sound(factors, rounds, claim, challenges);
}

/// The true counter claims of a block at a point.
pub open spec fn counter_claims(z: Seq<bool>, r: Seq<F128>) -> Seq<F128> {
    Seq::new(COUNTER_BITS as nat, |b: int| counter_claim(z, r, b))
}

/// Soundness of the discharge: where it is accepted with the true source
/// openings and no message coincides, the claims combine as the true ones do.
pub proof fn accepted_discharges_are_true(
    z: Seq<bool>,
    claims: Seq<F128>,
    sumcheck_claim: F128,
    rounds: Seq<Seq<F128>>,
    r: Seq<F128>,
    beta: F128,
    terminal: F128,
    gate: F128,
    value: F128,
    rho: F128,
    challenges: Seq<F128>,
)
    requires
        r.len() == SLOT_VARS,
        challenges.len() == SLOT_VARS,
        discharge_outcome(
            claims,
            sumcheck_claim,
            rounds,
            r,
            beta,
            terminal,
            Seq::new(COUNTER_BITS as nat, |b: int| mle(source_table(z, b), challenges)),
            gate,
            value,
            rho,
            challenges,
        ) == Ok::<(), Seq<char>>(()),
        coincidence_free(
            rounds,
            honest_rounds(discharge_tables(z, r, rho), challenges),
            challenges,
        ),
    ensures
        claims.len() == COUNTER_BITS,
        combined_value(claims, rho) == combined_value(counter_claims(z, r), rho),
{
    vstd::arithmetic::power2::lemma2_to64();
    let factors = discharge_tables(z, r, rho);
    assert(shaped(factors, challenges.len()));
    lemma_combined_claim(z, r, rho);
    lemma_discharge_terminal(z, r, rho, challenges);
    accepted_sums_are_true(factors, sumcheck_claim, rounds, challenges);
}

/// Claims that combine as the true ones do at ten distinct combiners are the
/// true ones.
pub proof fn combiners_bind_the_counter_claims(
    z: Seq<bool>,
    r: Seq<F128>,
    claims: Seq<F128>,
    rhos: Seq<F128>,
)
    requires
        claims.len() == COUNTER_BITS,
        rhos.len() == COUNTER_BITS,
        distinct(rhos),
        forall|i: int|
            0 <= i < rhos.len() ==> combined_value(claims, #[trigger] rhos[i]) == combined_value(
                counter_claims(z, r),
                rhos[i],
            ),
    ensures
        claims == counter_claims(z, r),
{
    let truth = counter_claims(z, r);
    lemma_combined_values_bind(claims, truth, rhos);
}

/// Lists that combine alike under the powers of as many distinct elements as
/// they have entries are equal.
pub proof fn lemma_combined_values_bind(a: Seq<F128>, b: Seq<F128>, points: Seq<F128>)
    requires
        a.len() == b.len() == points.len(),
        distinct(points),
        forall|i: int|
            0 <= i < points.len() ==> combined_value(a, #[trigger] points[i]) == combined_value(
                b,
                points[i],
            ),
    ensures
        a == b,
{
    let n = a.len() as int;
    let f = |j: int| a[j];
    let g = |j: int| b[j];
    assert forall|k: int| 0 <= k < n implies a[k] == b[k] by {
        assert forall|i: int| 0 <= i < points.len() implies fsum(
            |j: int| fmul(fpow(#[trigger] points[i], j), f(j)),
            n,
        ) == fsum(|j: int| fmul(fpow(points[i], j), g(j)), n) by {
            lemma_fsum_congr(
                |j: int| fmul(fpow(points[i], j), a[j]),
                |j: int| fmul(fpow(points[i], j), f(j)),
                n,
            );
            lemma_fsum_congr(
                |j: int| fmul(fpow(points[i], j), b[j]),
                |j: int| fmul(fpow(points[i], j), g(j)),
                n,
            );
            assert(combined_value(a, points[i]) == combined_value(b, points[i]));
        }
        lemma_power_sums_bind(f, g, n, points, k);
    }
    assert(a =~= b);
}

} // verus!
