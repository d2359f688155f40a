//! The tail summation: two walks over the support of the distribution, one
//! upwards from its least value and one downwards from its greatest, each
//! gathering the values that are no more probable than the observed one.
//!
//! The walks are a state machine. The caller evaluates a probability as the
//! machine's step says, compares it with the observed probability, and hands
//! the verdict back; the machine answers with the tail that the term belongs
//! to and with the next step, until both walks have ended and it names the
//! rule by which the one-sided tails follow from the two sums.

use vstd::prelude::*;
use crate::distribution::Distribution;
use crate::evaluator::{cold, EvaluatorState, Memo, Step};
use crate::table::Table2x2;

verus! {

/// How a term compares with the observed probability, within a relative
/// tolerance of one part in a hundred million.
#[derive(Clone, Copy, Debug, PartialEq, Eq, Structural)]
pub enum Verdict {
    /// The term is smaller, by more than the tolerance or just by it.
    Below,
    /// The term is not `Below`, and exceeds the observed probability by no
    /// more than the tolerance.
    Level,
    /// The term is larger by more than the tolerance, or cannot be compared.
    Above,
}

/// Where the machine stands.
#[derive(Clone, Copy, Debug, PartialEq, Eq, Structural)]
pub enum Phase {
    /// Walking upwards from the least value of the support.
    Left,
    /// Walking downwards from the greatest value of the support.
    Right,
    /// Both walks have ended.
    Done,
}

/// The sum to which the term just judged is to be added.
#[derive(Clone, Copy, Debug, PartialEq, Eq, Structural)]
pub enum Tally {
    /// To neither sum.
    Skip,
    /// To the sum of the left tail.
    Left,
    /// To the sum of the right tail.
    Right,
}

/// How the one-sided tails follow from the two sums and the observed
/// probability.
#[derive(Clone, Copy, Debug, PartialEq, Eq, Structural)]
pub enum TailRule {
    /// The lower tail is the left sum; the upper tail is one minus the left
    /// sum plus the observed probability.
    LessIsLeft,
    /// The upper tail is the right sum; the lower tail is one minus the right
    /// sum plus the observed probability.
    GreaterIsRight,
}

/// What the caller is to do next.
#[derive(Clone, Copy, Debug, PartialEq, Eq, Structural)]
pub enum Next {
    /// Evaluate the next term by this step and hand back its verdict.
    Evaluate(Step),
    /// Both sums are complete; this rule gives the one-sided tails.
    Finish(TailRule),
}

/// The machine's answer to a verdict.
#[derive(Clone, Copy, Debug, PartialEq, Eq, Structural)]
pub struct Reaction {
    pub tally: Tally,
    pub next: Next,
}

/// The distance between two cell values.
pub open spec fn distance(a: int, b: int) -> int {
    if a < b {
        b - a
    } else {
        a - b
    }
}

/// The rule for an observed value and the values at which the two walks
/// stopped: the left sum is the lower tail when the left walk stopped closer
/// to the observed value than the right walk did.
pub open spec fn rule_for(observed: int, left_stop: int, right_stop: int) -> TailRule {
    if distance(left_stop, observed) < distance(right_stop, observed) {
        TailRule::LessIsLeft
    } else {
        TailRule::GreaterIsRight
    }
}

/// The state of the tail summation, as mathematical values.
///
/// `left_stop` is the greatest value taken into the left sum so far, one
/// below the support when there is none; `right_stop` is the least value
/// taken into the right sum so far, one above the support when there is none.
pub struct Walk {
    pub observed: int,
    pub phase: Phase,
    pub left_stop: int,
    pub right_stop: int,
    pub memo: Memo,
}

impl Walk {
    /// The margins the walk works under.
    pub open spec fn margins(self) -> Distribution {
        self.memo.margins
    }

    /// The state in which the machine opens, with the first term of the left
    /// walk asked for and nothing judged yet.
    pub open spec fn initial(d: Distribution, observed: int) -> Walk {
        Walk {
            observed: observed,
            phase: Phase::Left,
            left_stop: d.lo() - 1,
            right_stop: d.hi() + 1,
            memo: Memo { n11: d.lo(), margins: d, valid: true },
        }
    }

    /// The cell value whose term is being judged.
    pub open spec fn cursor(self) -> int {
        match self.phase {
            Phase::Left => self.left_stop + 1,
            Phase::Right => self.right_stop - 1,
            Phase::Done => self.memo.n11,
        }
    }

    /// What holds of every state the machine is ever in.
    pub open spec fn well_formed(self) -> bool {
        let d = self.margins();
        &&& self.memo.well_formed()
        &&& self.memo.valid
        &&& d.total <= i32::MAX
        &&& d.lo() < d.hi()
        &&& d.contains(self.observed)
        &&& d.lo() - 1 <= self.left_stop <= d.hi()
        &&& d.lo() <= self.right_stop <= d.hi() + 1
        &&& self.phase is Left ==> self.left_stop < d.hi() && self.right_stop == d.hi() + 1
        &&& self.phase is Right ==> self.right_stop > d.lo()
        &&& self.phase !is Done ==> self.memo.n11 == self.cursor()
    }

    /// Whether the walk under way goes on once the term at the cursor is
    /// judged so, which it does when the term was below the observed
    /// probability and the support is not used up.
    pub open spec fn goes_on(self, verdict: Verdict) -> bool {
        match self.phase {
            Phase::Left => verdict is Below && self.cursor() < self.margins().hi(),
            Phase::Right => verdict is Below && self.cursor() > self.margins().lo(),
            Phase::Done => false,
        }
    }

    /// The state after a verdict on the term at the cursor.
    pub open spec fn after(self, verdict: Verdict) -> Walk {
        let d = self.margins();
        match self.phase {
            Phase::Left => {
                let stop = if verdict is Above {
                    self.left_stop
                } else {
                    self.left_stop + 1
                };
                if self.goes_on(verdict) {
                    Walk { left_stop: stop, memo: self.memo.moved(stop + 1), ..self }
                } else {
                    Walk {
                        phase: Phase::Right,
                        left_stop: stop,
                        memo: self.memo.moved(d.hi()),
                        ..self
                    }
                }
            },
            Phase::Right => {
                let stop = if verdict is Above {
                    self.right_stop
                } else {
                    self.right_stop - 1
                };
                if self.goes_on(verdict) {
                    Walk { right_stop: stop, memo: self.memo.moved(stop - 1), ..self }
                } else {
                    Walk { phase: Phase::Done, right_stop: stop, ..self }
                }
            },
            Phase::Done => self,
        }
    }

    /// The rule that the stops of a finished walk give.
    pub open spec fn rule(self) -> TailRule {
        rule_for(self.observed, self.left_stop, self.right_stop)
    }

    /// The machine's answer to a verdict on the term at the cursor.
    pub open spec fn reaction(self, verdict: Verdict) -> Reaction {
        let later = self.after(verdict);
        Reaction {
            tally: match self.phase {
                Phase::Left => if verdict is Above {
                    Tally::Skip
                } else {
                    Tally::Left
                },
                Phase::Right => if verdict is Above {
                    Tally::Skip
                } else {
                    Tally::Right
                },
                Phase::Done => Tally::Skip,
            },
            next: if later.phase is Done {
                Next::Finish(later.rule())
            } else {
                Next::Evaluate(self.memo.plan(later.memo.n11))
            },
        }
    }

    /// An upper bound on the number of verdicts the machine still takes
    /// before it is done.
    pub open spec fn remaining(self) -> int {
        let d = self.margins();
        match self.phase {
            Phase::Left => (d.hi() - self.cursor()) + (d.hi() - d.lo()) + 2,
            Phase::Right => self.cursor() - d.lo() + 1,
            Phase::Done => 0,
        }
    }

    /// The state in which the machine ends when each term of the left walk is
    /// judged as `left` says of its cell value, and each term of the right
    /// walk as `right` says.
    pub open spec fn finish(
        self,
        left: spec_fn(int) -> Verdict,
        right: spec_fn(int) -> Verdict,
    ) -> Walk
        decreases self.remaining(),
        when self.well_formed()
    {
        match self.phase {
            Phase::Left => self.after(left(self.cursor())).finish(left, right),
            Phase::Right => self.after(right(self.cursor())).finish(left, right),
            Phase::Done => self,
        }
    }
}

/// Whether `stop` is where a walk upwards through the support of `d` ends
/// under the judgements `judged`: every value before `stop` was below,
/// `stop` itself was taken, and the walk went no further because the support
/// ended there, because `stop` was level, or because the next value was above.
pub open spec fn ends_left_walk(d: Distribution, judged: spec_fn(int) -> Verdict, stop: int) -> bool {
    &&& d.lo() - 1 <= stop <= d.hi()
    &&& forall|k: int| d.lo() <= k < stop ==> #[trigger] judged(k) is Below
    &&& stop >= d.lo() ==> judged(stop) !is Above
    &&& stop < d.hi() ==> (stop >= d.lo() && judged(stop) is Level) || judged(stop + 1) is Above
}

/// Whether `stop` is where a walk downwards through the support of `d` ends
/// under the judgements `judged`: the mirror image of `ends_left_walk`.
pub open spec fn ends_right_walk(d: Distribution, judged: spec_fn(int) -> Verdict, stop: int) -> bool {
    &&& d.lo() <= stop <= d.hi() + 1
    &&& forall|k: int| stop < k <= d.hi() ==> #[trigger] judged(k) is Below
    &&& stop <= d.hi() ==> judged(stop) !is Above
    &&& stop > d.lo() ==> (stop <= d.hi() && judged(stop) is Level) || judged(stop - 1) is Above
}

/// What holds of a state on the way from the opening to the end: whatever
/// either walk has taken so far was below or, for a walk that has ended,
/// the stop is where that walk ends.
spec fn on_course(
    w: Walk,
    left: spec_fn(int) -> Verdict,
    right: spec_fn(int) -> Verdict,
) -> bool {
    let d = w.margins();
    &&& w.well_formed()
    &&& w.phase is Left ==> forall|k: int| d.lo() <= k <= w.left_stop ==> #[trigger] left(k) is Below
    &&& w.phase !is Left ==> ends_left_walk(d, left, w.left_stop)
    &&& w.phase is Right ==> forall|k: int|
        w.right_stop <= k <= d.hi() ==> #[trigger] right(k) is Below
    &&& w.phase is Done ==> ends_right_walk(d, right, w.right_stop)
}

/// Every verdict leaves the machine well formed, keeps the observed value and
/// the margins, and, unless the machine was done, brings it closer to the end.
pub proof fn lemma_after(w: Walk, verdict: Verdict)
    requires
        w.well_formed(),
    ensures
        w.after(verdict).well_formed(),
        w.after(verdict).observed == w.observed,
        w.after(verdict).margins() == w.margins(),
        w.phase !is Done ==> w.after(verdict).remaining() < w.remaining(),
        w.remaining() >= 0,
        w.remaining() <= 2 * (w.margins().hi() - w.margins().lo() + 1),
{
}

/// A term goes to a sum exactly when the stop of that sum moves onto its
/// cell value; otherwise both stops stay.
pub proof fn lemma_tally_moves_stop(w: Walk, verdict: Verdict)
    requires
        w.well_formed(),
    ensures
        match w.reaction(verdict).tally {
            Tally::Left => w.after(verdict).left_stop == w.cursor() && w.cursor() == w.left_stop
                + 1 && w.after(verdict).right_stop == w.right_stop,
            Tally::Right => w.after(verdict).right_stop == w.cursor() && w.cursor()
                == w.right_stop - 1 && w.after(verdict).left_stop == w.left_stop,
            Tally::Skip => w.after(verdict).left_stop == w.left_stop && w.after(
                verdict,
            ).right_stop == w.right_stop,
        },
{
}

/// Driven by any judgements, the machine ends, and it ends with the stops
/// of the two walks that those judgements describe.
pub proof fn lemma_finish(
    d: Distribution,
    observed: int,
    left: spec_fn(int) -> Verdict,
    right: spec_fn(int) -> Verdict,
)
    requires
        d.valid(),
        d.total <= i32::MAX,
        !d.degenerate(),
        d.contains(observed),
    ensures
        ({
            let end = Walk::initial(d, observed).finish(left, right);
            &&& end.phase is Done
            &&& end.observed == observed
            &&& end.margins() == d
            &&& ends_left_walk(d, left, end.left_stop)
            &&& ends_right_walk(d, right, end.right_stop)
        }),
{
    lemma_finish_from(Walk::initial(d, observed), left, right);
}

/// From any state on course the machine ends on course.
proof fn lemma_finish_from(w: Walk, left: spec_fn(int) -> Verdict, right: spec_fn(int) -> Verdict)
    requires
        on_course(w, left, right),
    ensures
        on_course(w.finish(left, right), left, right),
        w.finish(left, right).phase is Done,
        w.finish(left, right).observed == w.observed,
        w.finish(left, right).margins() == w.margins(),
    decreases w.remaining(),
{
    match w.phase {
        Phase::Left => {
            let next = w.after(left(w.cursor()));
            lemma_after(w, left(w.cursor()));
            lemma_finish_from(next, left, right);
        },
        Phase::Right => {
            let next = w.after(right(w.cursor()));
            lemma_after(w, right(w.cursor()));
            lemma_finish_from(next, left, right);
        },
        Phase::Done => {},
    }
}

/// The judgements leave a walk upwards a single place to end.
pub proof fn lemma_left_stop_unique(
    d: Distribution,
    judged: spec_fn(int) -> Verdict,
    a: int,
    b: int,
)
    requires
        ends_left_walk(d, judged, a),
        ends_left_walk(d, judged, b),
    ensures
        a == b,
{
    lemma_left_stop_not_before(d, judged, a, b);
    lemma_left_stop_not_before(d, judged, b, a);
}

/// Of two places where a walk upwards ends, the first is not before the second.
proof fn lemma_left_stop_not_before(d: Distribution, judged: spec_fn(int) -> Verdict, a: int, b: int)
    requires
        ends_left_walk(d, judged, a),
        ends_left_walk(d, judged, b),
    ensures
        a >= b,
{
    if a < b {
        if a >= d.lo() {
            assert(judged(a) is Below);
        }
        if a + 1 < b {
            assert(judged(a + 1) is Below);
        }
    }
}

/// The judgements leave a walk downwards a single place to end.
pub proof fn lemma_right_stop_unique(
    d: Distribution,
    judged: spec_fn(int) -> Verdict,
    a: int,
    b: int,
)
    requires
        ends_right_walk(d, judged, a),
        ends_right_walk(d, judged, b),
    ensures
        a == b,
{
    lemma_right_stop_not_before(d, judged, a, b);
    lemma_right_stop_not_before(d, judged, b, a);
}

/// Of two places where a walk downwards ends, the first is not before the second.
proof fn lemma_right_stop_not_before(
    d: Distribution,
    judged: spec_fn(int) -> Verdict,
    a: int,
    b: int,
)
    requires
        ends_right_walk(d, judged, a),
        ends_right_walk(d, judged, b),
    ensures
        a >= b,
{
    if a < b {
        if b <= d.hi() {
            assert(judged(b) is Below);
        }
        if a < b - 1 {
            assert(judged(b - 1) is Below);
        }
    }
}

/// Changing the places of the two rows of the table mirrors the walks: where
/// the walk upwards ends under the new margins is the mirror image of where
/// the walk downwards ended under the old ones, and the other way round.
pub proof fn lemma_swap_rows_mirrors_walks(
    d: Distribution,
    judged: spec_fn(int) -> Verdict,
    mirrored: spec_fn(int) -> Verdict,
    stop: int,
)
    requires
        d.valid(),
        forall|k: int| #[trigger] mirrored(k) == judged(d.col - k),
    ensures
        ends_left_walk(d.swap_rows(), mirrored, d.col - stop) <==> ends_right_walk(d, judged, stop),
        ends_right_walk(d.swap_rows(), mirrored, d.col - stop) <==> ends_left_walk(d, judged, stop),
{
    let m = d.swap_rows();
    assert(m.lo() == d.col - d.hi());
    assert(m.hi() == d.col - d.lo());
    if ends_right_walk(d, judged, stop) {
        assert forall|k: int| m.lo() <= k < d.col - stop implies #[trigger] mirrored(k) is Below by {
            assert(judged(d.col - k) is Below);
        }
        assert(mirrored(d.col - stop) == judged(stop));
        assert(mirrored(d.col - stop + 1) == judged(stop - 1));
    }
    if ends_left_walk(m, mirrored, d.col - stop) {
        assert forall|k: int| stop < k <= d.hi() implies #[trigger] judged(k) is Below by {
            assert(mirrored(d.col - k) is Below);
        }
        assert(mirrored(d.col - stop) == judged(stop));
        assert(mirrored(d.col - stop + 1) == judged(stop - 1));
    }
    if ends_left_walk(d, judged, stop) {
        assert forall|k: int| d.col - stop < k <= m.hi() implies #[trigger] mirrored(k) is Below by {
            assert(judged(d.col - k) is Below);
        }
        assert(mirrored(d.col - stop) == judged(stop));
        assert(mirrored(d.col - stop - 1) == judged(stop + 1));
    }
    if ends_right_walk(m, mirrored, d.col - stop) {
        assert forall|k: int| d.lo() <= k < stop implies #[trigger] judged(k) is Below by {
            assert(mirrored(d.col - k) is Below);
        }
        assert(mirrored(d.col - stop) == judged(stop));
        assert(mirrored(d.col - stop - 1) == judged(stop + 1));
    }
}

/// Mirrored stops give the other rule, unless both walks stopped equally far
/// from the observed value: then the upper tail is the right sum either way.
pub proof fn lemma_rule_mirrors(col: int, observed: int, left_stop: int, right_stop: int)
    ensures
        distance(left_stop, observed) < distance(right_stop, observed) ==> {
            &&& rule_for(observed, left_stop, right_stop) == TailRule::LessIsLeft
            &&& rule_for(col - observed, col - right_stop, col - left_stop)
                == TailRule::GreaterIsRight
        },
        distance(left_stop, observed) > distance(right_stop, observed) ==> {
            &&& rule_for(observed, left_stop, right_stop) == TailRule::GreaterIsRight
            &&& rule_for(col - observed, col - right_stop, col - left_stop) == TailRule::LessIsLeft
        },
        distance(left_stop, observed) == distance(right_stop, observed) ==> {
            &&& rule_for(observed, left_stop, right_stop) == TailRule::GreaterIsRight
            &&& rule_for(col - observed, col - right_stop, col - left_stop)
                == TailRule::GreaterIsRight
        },
{
}

/// The tail summation of one table.
#[derive(Clone, Copy, Debug)]
pub struct TailSummation {
    evaluator: EvaluatorState,
    observed: i32,
    phase: Phase,
    left_stop: i32,
    right_stop: i32,
}

/// How a tail summation opens.
#[derive(Clone, Copy, Debug)]
pub enum Opening {
    /// The margins leave a single table: the observed probability, both sums
    /// and both one-sided tails are one, and there is nothing to walk.
    Degenerate,
    /// The caller evaluates the observed probability by `observe`, then the
    /// first term by `first`, and hands the verdict on that term to `walk`.
    Walk { walk: TailSummation, observe: Step, first: Step },
}

impl View for TailSummation {
    type V = Walk;

    closed spec fn view(&self) -> Walk {
        Walk {
            observed: self.observed as int,
            phase: self.phase,
            left_stop: self.left_stop as int,
            right_stop: self.right_stop as int,
            memo: self.evaluator@,
        }
    }
}

impl TailSummation {
    #[verifier::type_invariant]
    spec fn well_formed(self) -> bool {
        self@.well_formed()
    }

    /// Opens the tail summation of `table`.
    pub fn begin(table: &Table2x2) -> (opening: Opening)
        ensures
            match opening {
                Opening::Degenerate => table@.margins().degenerate(),
                Opening::Walk { walk, observe, first } => {
                    let d = table@.margins();
                    &&& !d.degenerate()
                    &&& walk@ == Walk::initial(d, table@.n11)
                    &&& walk@.well_formed()
                    &&& observe == cold(d, table@.n11)
                    &&& first == (Memo { n11: table@.n11, margins: d, valid: true }).plan(d.lo())
                    &&& observe.sound()
                    &&& first.sound()
                },
            },
    {
        let margins = table.margins();
        if margins.is_degenerate() {
            return Opening::Degenerate;
        }
        let observed = table.n11();
        let lo = margins.lo();
        let hi = margins.hi();
        let mut evaluator = EvaluatorState::new();
        let observe = evaluator.start(observed, margins);
        let first = evaluator.evaluate(lo);
        let walk = TailSummation {
            evaluator,
            observed,
            phase: Phase::Left,
            left_stop: lo - 1,
            right_stop: hi + 1,
        };
        Opening::Walk { walk, observe, first }
    }

    /// Takes the verdict on the term at the cursor and answers with the sum
    /// the term goes to and with what to do next.
    ///
    /// A term that is `Below` goes to the sum of the walk under way, and the
    /// walk moves on by one value; a term that is `Level` goes to the sum and
    /// ends the walk; a term that is `Above` ends the walk and goes to no
    /// sum. A walk also ends when it has taken the last value of the support.
    /// When the left walk ends, the right walk starts at the greatest value
    /// of the support; when the right walk ends, the machine names the rule.
    /// A finished machine answers every verdict with its rule and stays as
    /// it is.
    pub fn advance(&mut self, verdict: Verdict) -> (reaction: Reaction)
        ensures
            final(self)@ == old(self)@.after(verdict),
            reaction == old(self)@.reaction(verdict),
            old(self)@.well_formed(),
            final(self)@.well_formed(),
            reaction.next matches Next::Evaluate(step) ==> step.sound(),
            reaction.next is Evaluate ==> final(self)@.remaining() < old(self)@.remaining(),
            reaction.next is Finish <==> final(self)@.phase is Done,
    {
        proof {
            use_type_invariant(&*self);
        }
        let margins = self.evaluator.margins();
        let lo = margins.lo();
        let hi = margins.hi();
        let taken = !matches!(verdict, Verdict::Above);
        let below = matches!(verdict, Verdict::Below);
        match self.phase {
            Phase::Left => {
                let cursor = self.left_stop + 1;
                let stop = if taken {
                    cursor
                } else {
                    self.left_stop
                };
                let tally = if taken {
                    Tally::Left
                } else {
                    Tally::Skip
                };
                let mut evaluator = self.evaluator;
                if below && cursor < hi {
                    let step = evaluator.evaluate(cursor + 1);
                    *self = TailSummation { evaluator, left_stop: stop, ..*self };
                    Reaction { tally, next: Next::Evaluate(step) }
                } else {
                    let step = evaluator.evaluate(hi);
                    *self = TailSummation {
                        evaluator,
                        phase: Phase::Right,
                        left_stop: stop,
                        ..*self
                    };
                    Reaction { tally, next: Next::Evaluate(step) }
                }
            },
            Phase::Right => {
                let cursor = self.right_stop - 1;
                let stop = if taken {
                    cursor
                } else {
                    self.right_stop
                };
                let tally = if taken {
                    Tally::Right
                } else {
                    Tally::Skip
                };
                if below && cursor > lo {
                    let mut evaluator = self.evaluator;
                    let step = evaluator.evaluate(cursor - 1);
                    *self = TailSummation { evaluator, right_stop: stop, ..*self };
                    Reaction { tally, next: Next::Evaluate(step) }
                } else {
                    *self = TailSummation { phase: Phase::Done, right_stop: stop, ..*self };
                    Reaction { tally, next: Next::Finish(self.rule_now()) }
                }
            },
            Phase::Done => Reaction { tally: Tally::Skip, next: Next::Finish(self.rule_now()) },
        }
    }

    /// The rule that the present stops give.
    fn rule_now(&self) -> (rule: TailRule)
        ensures
            rule == self@.rule(),
    {
        let observed: i64 = self.observed as i64;
        let left: i64 = self.left_stop as i64 - observed;
        let right: i64 = self.right_stop as i64 - observed;
        let left_distance: i64 = if left < 0 {
            -left
        } else {
            left
        };
        let right_distance: i64 = if right < 0 {
            -right
        } else {
            right
        };
        if left_distance < right_distance {
            TailRule::LessIsLeft
        } else {
            TailRule::GreaterIsRight
        }
    }

    /// Where the machine stands.
    pub fn phase(&self) -> (phase: Phase)
        ensures
            phase == self@.phase,
    {
        self.phase
    }

    /// The cell value whose term is being judged; once the machine is done,
    /// the value whose term was judged last.
    pub fn cursor(&self) -> (r: i32)
        ensures
            r == self@.cursor(),
    {
        proof {
            use_type_invariant(self);
        }
        self.evaluator.n11()
    }

    /// The observed cell value.
    pub fn observed(&self) -> (r: i32)
        ensures
            r == self@.observed,
    {
        self.observed
    }

    /// The greatest value taken into the left sum so far, or one below the
    /// support.
    pub fn left_stop(&self) -> (r: i32)
        ensures
            r == self@.left_stop,
    {
        self.left_stop
    }

    /// The least value taken into the right sum so far, or one above the
    /// support.
    pub fn right_stop(&self) -> (r: i32)
        ensures
            r == self@.right_stop,
    {
        self.right_stop
    }
}

} // verus!
