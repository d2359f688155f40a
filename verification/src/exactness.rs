//! The tail summation in exact arithmetic.
//!
//! The caller judges each term in floating point. Were the terms compared
//! exactly instead, the machine would gather exactly the tails of Fisher's
//! test: this module proves it, for every table that is not degenerate.
//! Weights stand for probabilities; the common divisor is the mass.

use vstd::prelude::*;
use crate::distribution::{
    Distribution,
    lemma_no_dip_after,
    lemma_no_dip_before,
    lemma_record_on_one_side,
    lemma_swap_rows_mirrors,
    lemma_total_mass,
    lemma_weight_positive,
    lemma_weight_split,
};
use crate::evaluator::{cold, lemma_plan_exact, lemma_plan_sound, probability, Fraction, Memo};
use crate::tails::{
    distance,
    ends_left_walk,
    ends_right_walk,
    lemma_finish,
    lemma_left_stop_unique,
    lemma_right_stop_unique,
    Next,
    TailRule,
    Verdict,
    Walk,
};

verus! {

/// How the term of `k` compares with the term of the observed value when
/// nothing is rounded.
pub open spec fn exact_verdict(d: Distribution, observed: int, k: int) -> Verdict {
    if d.weight(k) < d.weight(observed) {
        Verdict::Below
    } else if d.weight(k) == d.weight(observed) {
        Verdict::Level
    } else {
        Verdict::Above
    }
}

/// The judgements of exact arithmetic, one for each cell value.
pub open spec fn exact_judge(d: Distribution, observed: int) -> spec_fn(int) -> Verdict {
    |k: int| exact_verdict(d, observed, k)
}

/// The state in which the machine ends when every term is judged exactly.
pub open spec fn exact_end(d: Distribution, observed: int) -> Walk {
    Walk::initial(d, observed).finish(exact_judge(d, observed), exact_judge(d, observed))
}

/// The weight of the left sum at the end: all values up to the left stop.
pub open spec fn left_sum(end: Walk) -> int {
    end.margins().weight_between(end.margins().lo(), end.left_stop) as int
}

/// The weight of the right sum at the end: all values from the right stop on.
pub open spec fn right_sum(end: Walk) -> int {
    end.margins().weight_between(end.right_stop, end.margins().hi()) as int
}

/// The weight of the lower tail that the rule gives.
pub open spec fn less_weight(end: Walk) -> int {
    let d = end.margins();
    match end.rule() {
        TailRule::LessIsLeft => left_sum(end),
        TailRule::GreaterIsRight => d.mass() - right_sum(end) + d.weight(end.observed),
    }
}

/// The weight of the upper tail that the rule gives.
pub open spec fn greater_weight(end: Walk) -> int {
    let d = end.margins();
    match end.rule() {
        TailRule::LessIsLeft => d.mass() - left_sum(end) + d.weight(end.observed),
        TailRule::GreaterIsRight => right_sum(end),
    }
}

/// The weight of the two-sided tail: both sums, but no more than the mass.
pub open spec fn two_tail_weight(end: Walk) -> int {
    let d = end.margins();
    if left_sum(end) + right_sum(end) > d.mass() {
        d.mass() as int
    } else {
        left_sum(end) + right_sum(end)
    }
}

/// The weight of those values from `a` to `b` that weigh no more than `bound`.
pub open spec fn weight_at_most(d: Distribution, bound: nat, a: int, b: int) -> nat
    decreases b - a + 1,
{
    if a > b {
        0
    } else if d.weight(b) <= bound {
        d.weight(b) + weight_at_most(d, bound, a, b - 1)
    } else {
        weight_at_most(d, bound, a, b - 1)
    }
}

/// A range splits into two at any point.
proof fn lemma_at_most_split(d: Distribution, bound: nat, a: int, b: int, c: int)
    requires
        a - 1 <= b <= c,
    ensures
        weight_at_most(d, bound, a, c) == weight_at_most(d, bound, a, b) + weight_at_most(
            d,
            bound,
            b + 1,
            c,
        ),
    decreases c - b,
{
    if b < c {
        lemma_at_most_split(d, bound, a, b, c - 1);
    }
}

/// Where no value exceeds the bound, all of the weight counts.
proof fn lemma_at_most_all(d: Distribution, bound: nat, a: int, b: int)
    requires
        forall|k: int| a <= k <= b ==> #[trigger] d.weight(k) <= bound,
    ensures
        weight_at_most(d, bound, a, b) == d.weight_between(a, b),
    decreases b - a + 1,
{
    if a <= b {
        lemma_at_most_all(d, bound, a, b - 1);
    }
}

/// Where every value exceeds the bound, none of the weight counts.
proof fn lemma_at_most_none(d: Distribution, bound: nat, a: int, b: int)
    requires
        forall|k: int| a <= k <= b ==> #[trigger] d.weight(k) > bound,
    ensures
        weight_at_most(d, bound, a, b) == 0,
    decreases b - a + 1,
{
    if a <= b {
        lemma_at_most_none(d, bound, a, b - 1);
    }
}

/// Where the walks end under exact judgement: neither passes the observed
/// value, at least one stops on it, and between the two stops every value
/// outweighs the observed one.
pub proof fn lemma_exact_stops(d: Distribution, observed: int)
    requires
        d.valid(),
        d.total <= i32::MAX,
        !d.degenerate(),
        d.contains(observed),
    ensures
        ({
            let end = exact_end(d, observed);
            &&& end.phase is Done
            &&& end.observed == observed
            &&& end.margins() == d
            &&& d.lo() - 1 <= end.left_stop <= observed <= end.right_stop <= d.hi() + 1
            &&& end.left_stop == observed || end.right_stop == observed
            &&& forall|k: int| d.lo() <= k <= end.left_stop ==> #[trigger] d.weight(k) <= d.weight(observed)
            &&& forall|k: int|
                end.right_stop <= k <= d.hi() ==> #[trigger] d.weight(k) <= d.weight(observed)
            &&& forall|k: int|
                end.left_stop < k < end.right_stop ==> #[trigger] d.weight(k) > d.weight(observed)
        }),
{
    let judge = exact_judge(d, observed);
    let end = exact_end(d, observed);
    let ls = end.left_stop;
    let rs = end.right_stop;
    lemma_finish(d, observed, judge, judge);
    assert(judge(observed) is Level);
    if ls > observed {
        assert(judge(observed) is Below);
    }
    if rs < observed {
        assert(judge(observed) is Below);
    }
    lemma_record_on_one_side(d, observed);
    if forall|j: int| d.lo() <= j < observed ==> #[trigger] d.weight(j) < d.weight(observed) {
        assert forall|k: int| d.lo() <= k < observed implies #[trigger] judge(k) is Below by {
            assert(d.weight(k) < d.weight(observed));
        }
        assert(ends_left_walk(d, judge, observed));
        lemma_left_stop_unique(d, judge, ls, observed);
    } else {
        assert forall|k: int| observed < k <= d.hi() implies #[trigger] judge(k) is Below by {
            assert(d.weight(k) < d.weight(observed));
        }
        assert(ends_right_walk(d, judge, observed));
        lemma_right_stop_unique(d, judge, rs, observed);
    }
    assert forall|k: int| d.lo() <= k <= ls implies #[trigger] d.weight(k) <= d.weight(
        observed,
    ) by {
        if k < ls {
            assert(judge(k) is Below);
        } else {
            assert(judge(ls) !is Above);
        }
    }
    assert forall|k: int| rs <= k <= d.hi() implies #[trigger] d.weight(k) <= d.weight(
        observed,
    ) by {
        if k > rs {
            assert(judge(k) is Below);
        } else {
            assert(judge(rs) !is Above);
        }
    }
    assert forall|k: int| ls < k < rs implies #[trigger] d.weight(k) > d.weight(observed) by {
        if d.weight(k) <= d.weight(observed) {
            if ls == observed {
                // the right walk stopped above k, on a value that weighs no less
                if rs <= d.hi() && judge(rs) is Level {
                    lemma_no_dip_after(d, observed, k, rs);
                } else {
                    assert(judge(rs - 1) is Above);
                    if k < rs - 1 {
                        lemma_no_dip_after(d, observed, k, rs - 1);
                    }
                }
            } else {
                if ls >= d.lo() && judge(ls) is Level {
                    lemma_no_dip_before(d, ls, k, observed);
                } else {
                    assert(judge(ls + 1) is Above);
                    if ls + 1 < k {
                        lemma_no_dip_before(d, ls + 1, k, observed);
                    }
                }
            }
        }
    }
}

/// Under exact judgement the one-sided tails are those of Fisher's test: the
/// lower tail is the weight of all values up to the observed one, the upper
/// tail the weight of all values from the observed one on, and together they
/// hold the whole mass and the observed weight once more.
pub proof fn lemma_exact_one_sided(d: Distribution, observed: int)
    requires
        d.valid(),
        d.total <= i32::MAX,
        !d.degenerate(),
        d.contains(observed),
    ensures
        less_weight(exact_end(d, observed)) == d.weight_between(d.lo(), observed),
        greater_weight(exact_end(d, observed)) == d.weight_between(observed, d.hi()),
        less_weight(exact_end(d, observed)) + greater_weight(exact_end(d, observed)) - d.weight(
            observed,
        ) == d.mass(),
{
    let end = exact_end(d, observed);
    lemma_exact_stops(d, observed);
    lemma_total_mass(d);
    lemma_weight_split(d, d.lo(), observed, d.hi());
    lemma_weight_split(d, observed, observed, d.hi());
    assert(d.weight_between(observed, observed - 1) == 0);
    assert(d.weight_between(observed, observed) == d.weight(observed));
    if end.right_stop == observed {
        assert(distance(end.right_stop, observed) == 0);
        assert(end.rule() == TailRule::GreaterIsRight);
    } else {
        assert(distance(end.left_stop, observed) == 0);
        assert(distance(end.right_stop, observed) > 0);
        assert(end.rule() == TailRule::LessIsLeft);
    }
}

/// Under exact judgement the two-sided tail is that of Fisher's test: the
/// weight of all values that weigh no more than the observed one.
pub proof fn lemma_exact_two_sided(d: Distribution, observed: int)
    requires
        d.valid(),
        d.total <= i32::MAX,
        !d.degenerate(),
        d.contains(observed),
    ensures
        two_tail_weight(exact_end(d, observed)) == weight_at_most(
            d,
            d.weight(observed),
            d.lo(),
            d.hi(),
        ),
{
    let end = exact_end(d, observed);
    let ls = end.left_stop;
    let rs = end.right_stop;
    let bound = d.weight(observed);
    lemma_exact_stops(d, observed);
    lemma_total_mass(d);
    if ls >= rs {
        // both walks took the observed value, and between them everything
        lemma_weight_positive(d, observed);
        lemma_weight_split(d, d.lo(), observed, d.hi());
        lemma_weight_split(d, observed, observed, d.hi());
        assert(d.weight_between(observed, observed - 1) == 0);
        lemma_at_most_all(d, bound, d.lo(), d.hi());
    } else {
        lemma_at_most_split(d, bound, d.lo(), ls, d.hi());
        lemma_at_most_split(d, bound, ls + 1, rs - 1, d.hi());
        lemma_at_most_all(d, bound, d.lo(), ls);
        lemma_at_most_none(d, bound, ls + 1, rs - 1);
        lemma_at_most_all(d, bound, rs, d.hi());
        lemma_weight_split(d, d.lo(), ls, d.hi());
        lemma_weight_split(d, ls + 1, rs - 1, d.hi());
    }
}

/// A degenerate table is certain: its one value carries the whole mass, so
/// every probability and every tail is one.
pub proof fn lemma_degenerate_is_certain(d: Distribution)
    requires
        d.valid(),
        d.degenerate(),
    ensures
        d.weight(d.lo()) == d.mass(),
        d.weight_between(d.lo(), d.hi()) == d.weight(d.lo()),
{
    lemma_total_mass(d);
    assert(d.weight_between(d.lo(), d.lo() - 1) == 0);
}

/// Whatever the judgements were, the two one-sided tails hold the whole
/// mass and the observed weight once more: they complement each other.
pub proof fn lemma_tails_complement(end: Walk)
    ensures
        less_weight(end) + greater_weight(end) - end.margins().weight(end.observed)
            == end.margins().mass(),
{
}

/// Whatever the judgements were, the two-sided tail lies between nothing and
/// the whole mass.
pub proof fn lemma_two_tail_bounded(end: Walk)
    ensures
        0 <= two_tail_weight(end) <= end.margins().mass(),
{
}

/// A range of the mirrored distribution weighs what its mirror image weighs.
proof fn lemma_mirror_weight_between(d: Distribution, a: int, b: int)
    requires
        d.valid(),
        d.lo() <= a,
        b <= d.hi(),
    ensures
        d.swap_rows().weight_between(d.col - b, d.col - a) == d.weight_between(a, b),
    decreases b - a + 1,
{
    if a <= b {
        let m = d.swap_rows();
        lemma_swap_rows_mirrors(d, a);
        lemma_mirror_weight_between(d, a + 1, b);
        lemma_weight_split(d, a, a, b);
        assert(d.weight_between(a, a - 1) == 0);
        assert(m.weight_between(d.col - b, d.col - a) == m.weight(d.col - a) + m.weight_between(
            d.col - b,
            d.col - a - 1,
        ));
    }
}

/// The same for the values that weigh no more than a bound.
proof fn lemma_mirror_at_most(d: Distribution, bound: nat, a: int, b: int)
    requires
        d.valid(),
        d.lo() <= a,
        b <= d.hi(),
    ensures
        weight_at_most(d.swap_rows(), bound, d.col - b, d.col - a) == weight_at_most(
            d,
            bound,
            a,
            b,
        ),
    decreases b - a + 1,
{
    if a <= b {
        lemma_swap_rows_mirrors(d, a);
        lemma_mirror_at_most(d, bound, a + 1, b);
        lemma_at_most_split(d, bound, a, a, b);
        assert(weight_at_most(d, bound, a, a - 1) == 0);
    }
}

/// Changing the places of the two rows of the table changes the places of
/// the two one-sided tails and leaves the two-sided tail as it is.
pub proof fn lemma_exact_swap_rows(d: Distribution, observed: int)
    requires
        d.valid(),
        d.total <= i32::MAX,
        !d.degenerate(),
        d.contains(observed),
    ensures
        less_weight(exact_end(d.swap_rows(), d.col - observed)) == greater_weight(
            exact_end(d, observed),
        ),
        greater_weight(exact_end(d.swap_rows(), d.col - observed)) == less_weight(
            exact_end(d, observed),
        ),
        two_tail_weight(exact_end(d.swap_rows(), d.col - observed)) == two_tail_weight(
            exact_end(d, observed),
        ),
{
    let m = d.swap_rows();
    let mirrored = d.col - observed;
    lemma_swap_rows_mirrors(d, observed);
    lemma_exact_one_sided(d, observed);
    lemma_exact_two_sided(d, observed);
    lemma_exact_one_sided(m, mirrored);
    lemma_exact_two_sided(m, mirrored);
    lemma_mirror_weight_between(d, observed, d.hi());
    lemma_mirror_weight_between(d, d.lo(), observed);
    lemma_mirror_at_most(d, d.weight(observed), d.lo(), d.hi());
}

/// The opening is exact: the first step gives the probability of the observed
/// value, and the second, carried out on that probability, the probability of
/// the least value of the support.
pub proof fn lemma_opening_exact(d: Distribution, observed: int)
    requires
        d.valid(),
        d.total <= i32::MAX,
        d.contains(observed),
    ensures
        forall|prev: Fraction| #[trigger] cold(d, observed).exact(prev) == probability(d, observed),
        (Memo { n11: observed, margins: d, valid: true }).plan(d.lo()).exact(
            probability(d, observed),
        ).agrees(probability(d, d.lo())),
{
    let m = Memo { n11: observed, margins: d, valid: true };
    lemma_weight_positive(d, observed);
    lemma_plan_exact(m, d.lo(), probability(d, observed));
}

/// The walk is exact: if the term being judged is the probability of the
/// value at the cursor, the step that the machine answers with gives the
/// probability of the value at the cursor it moves to.
pub proof fn lemma_next_term_exact(w: Walk, verdict: Verdict, prev: Fraction)
    requires
        w.well_formed(),
        w.phase !is Done,
        prev.agrees(probability(w.margins(), w.cursor())),
    ensures
        w.reaction(verdict).next matches Next::Evaluate(step) ==> {
            &&& step.sound()
            &&& w.after(verdict).phase !is Done
            &&& step.exact(prev).agrees(probability(w.margins(), w.after(verdict).cursor()))
        },
{
    let later = w.after(verdict);
    if later.phase !is Done {
        lemma_plan_exact(w.memo, later.memo.n11, prev);
        lemma_plan_sound(w.memo, later.memo.n11);
    }
}

} // verus!
