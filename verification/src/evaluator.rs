//! The incremental evaluator: how each hypergeometric probability is to be
//! obtained, given the one obtained before.
//!
//! The evaluator keeps the cell value it was last asked for and the margins
//! it works under. Asked for a neighbouring value it answers with the two
//! ratios by which the previous probability is to be multiplied; asked for
//! any other value, for a multiple of ten, or for the first time, it answers
//! with the three binomial coefficients of the closed form. The caller does
//! the floating-point arithmetic; this module proves that in exact arithmetic
//! every answer leads to the probability asked for.

use vstd::prelude::*;
use crate::binomial::binomial;
use crate::distribution::{
    Distribution,
    lemma_support_bounds,
    lemma_weight_positive,
    lemma_weight_step,
};
use crate::table::Margins;

verus! {

/// A binomial coefficient `C(n, k)` that the caller is to take the logarithm of.
#[derive(Clone, Copy, Debug, PartialEq, Eq, Structural)]
pub struct Binomial {
    pub n: i32,
    pub k: i32,
}

/// The arguments at which the logarithm of the gamma function is wanted for
/// one binomial coefficient: `ln C(n, k) = lg(upper) - lg(lower) - lg(rest)`,
/// where `lg(None)` is zero and `lg(Some(z))` is `ln Gamma(z)`.
#[derive(Clone, Copy, Debug, PartialEq, Eq, Structural)]
pub struct LogGammaArguments {
    pub upper: Option<i64>,
    pub lower: Option<i64>,
    pub rest: Option<i64>,
}

/// A quotient of two counts, to be formed in floating point.
#[derive(Clone, Copy, Debug, PartialEq, Eq, Structural)]
pub struct Ratio {
    pub num: i32,
    pub den: i32,
}

/// How the next probability is to be computed.
#[derive(Clone, Copy, Debug, PartialEq, Eq, Structural)]
pub enum Step {
    /// From scratch: `exp(ln within + ln outside - ln overall)`.
    Cold { within: Binomial, outside: Binomial, overall: Binomial },
    /// From the previous probability: multiply it by `first * second`.
    Scale { first: Ratio, second: Ratio },
}

/// A probability in exact arithmetic, as a quotient that is never reduced.
pub struct Fraction {
    pub num: int,
    pub den: int,
}

/// What the evaluator remembers, as mathematical values.
pub struct Memo {
    pub n11: int,
    pub margins: Distribution,
    pub valid: bool,
}

/// The argument of the gamma function that gives `ln(n!)`, where one is
/// needed: the logarithm of `0!` and of `1!` is zero and needs none, and for
/// larger `n` it is `n + 1`.
pub open spec fn gamma_argument(n: int) -> Option<i64> {
    if n <= 1 {
        None
    } else {
        Some((n + 1) as i64)
    }
}

impl Binomial {
    /// Whether `0 <= k <= n`.
    pub open spec fn proper(self) -> bool {
        0 <= self.k <= self.n
    }

    /// The coefficient itself.
    pub open spec fn value(self) -> nat {
        binomial(self.n as nat, self.k as nat)
    }

    /// The gamma arguments of `n!`, `k!` and `(n - k)!`.
    pub open spec fn arguments(self) -> LogGammaArguments {
        LogGammaArguments {
            upper: gamma_argument(self.n as int),
            lower: gamma_argument(self.k as int),
            rest: gamma_argument(self.n - self.k),
        }
    }

    /// The arguments at which the caller evaluates the logarithm of the gamma
    /// function to get the logarithm of this coefficient.
    pub fn log_gamma_arguments(&self) -> (r: LogGammaArguments)
        ensures
            r == self.arguments(),
    {
        let n: i64 = self.n as i64;
        let k: i64 = self.k as i64;
        let rest: i64 = n - k;
        LogGammaArguments {
            upper: if n <= 1 {
                None
            } else {
                Some(n + 1)
            },
            lower: if k <= 1 {
                None
            } else {
                Some(k + 1)
            },
            rest: if rest <= 1 {
                None
            } else {
                Some(rest + 1)
            },
        }
    }
}

impl Fraction {
    /// Whether two quotients with non-zero divisors have the same value.
    pub open spec fn agrees(self, other: Fraction) -> bool {
        &&& self.den != 0
        &&& other.den != 0
        &&& self.num * other.den == other.num * self.den
    }
}

/// The probability of the cell value `k` under the margins `d`.
pub open spec fn probability(d: Distribution, k: int) -> Fraction {
    Fraction { num: d.weight(k) as int, den: d.mass() as int }
}

/// The closed form for the cell value `k`:
/// `C(row, k) * C(total - row, col - k) / C(total, col)`.
pub open spec fn cold(d: Distribution, k: int) -> Step {
    Step::Cold {
        within: Binomial { n: d.row as i32, k: k as i32 },
        outside: Binomial { n: (d.total - d.row) as i32, k: (d.col - k) as i32 },
        overall: Binomial { n: d.total as i32, k: d.col as i32 },
    }
}

/// The step from the cell value `from` to `from + 1`.
pub open spec fn forward(d: Distribution, from: int) -> Step {
    Step::Scale {
        first: Ratio { num: (d.row - from) as i32, den: (from + 1) as i32 },
        second: Ratio {
            num: (d.col - from) as i32,
            den: (from + 1 + d.total - d.row - d.col) as i32,
        },
    }
}

/// The step from the cell value `from` to `from - 1`.
pub open spec fn backward(d: Distribution, from: int) -> Step {
    Step::Scale {
        first: Ratio { num: from as i32, den: (d.row - (from - 1)) as i32 },
        second: Ratio {
            num: (from + d.total - d.row - d.col) as i32,
            den: (d.col - (from - 1)) as i32,
        },
    }
}

impl Step {
    /// Whether the caller can carry the step out: every binomial coefficient
    /// of a cold start has `0 <= k <= n`, and both ratios of a scaling have
    /// positive parts.
    pub open spec fn sound(self) -> bool {
        match self {
            Step::Cold { within, outside, overall } => within.proper() && outside.proper()
                && overall.proper(),
            Step::Scale { first, second } => first.num > 0 && first.den > 0 && second.num > 0
                && second.den > 0,
        }
    }

    /// The value that the step gives in exact arithmetic when the previous
    /// probability was `prev`.
    pub open spec fn exact(self, prev: Fraction) -> Fraction {
        match self {
            Step::Cold { within, outside, overall } => Fraction {
                num: (within.value() * outside.value()) as int,
                den: overall.value() as int,
            },
            Step::Scale { first, second } => Fraction {
                num: prev.num * (first.num * second.num),
                den: prev.den * (first.den * second.den),
            },
        }
    }
}

impl Memo {
    /// What a new evaluator remembers: nothing.
    pub open spec fn fresh() -> Memo {
        Memo { n11: 0, margins: Distribution { row: 0, col: 0, total: 0 }, valid: false }
    }

    /// Whether the value `n11` is computed from scratch whatever came before.
    pub open spec fn resynchronizes(n11: int) -> bool {
        n11 % 10 == 0
    }

    /// The step by which the probability of `n11` is obtained.
    pub open spec fn plan(self, n11: int) -> Step {
        if self.valid && !Self::resynchronizes(n11) && n11 == self.n11 + 1 {
            forward(self.margins, self.n11)
        } else if self.valid && !Self::resynchronizes(n11) && n11 == self.n11 - 1 {
            backward(self.margins, self.n11)
        } else {
            cold(self.margins, n11)
        }
    }

    /// What the evaluator remembers after it was asked for `n11`.
    pub open spec fn moved(self, n11: int) -> Memo {
        Memo { n11: n11, margins: self.margins, valid: true }
    }

    /// What the evaluator remembers after it was asked for each value of
    /// `path` in turn.
    pub open spec fn moved_along(self, path: Seq<int>) -> Memo
        decreases path.len(),
    {
        if path.len() == 0 {
            self
        } else {
            self.moved(path[0]).moved_along(path.skip(1))
        }
    }

    /// The value that exact arithmetic arrives at when it starts from `prev`
    /// and carries out, one after the other, the steps by which the values
    /// of `path` are obtained.
    pub open spec fn exact_along(self, prev: Fraction, path: Seq<int>) -> Fraction
        decreases path.len(),
    {
        if path.len() == 0 {
            prev
        } else {
            self.moved(path[0]).exact_along(self.plan(path[0]).exact(prev), path.skip(1))
        }
    }

    /// The margins are valid, and once the evaluator has been asked for a
    /// value, that value lies in their support.
    pub open spec fn well_formed(self) -> bool {
        &&& self.margins.valid()
        &&& self.valid ==> self.margins.contains(self.n11)
    }
}

/// The memo of the incremental evaluator: the cell value last asked for, the
/// margins in force, and whether anything was asked for yet.
#[derive(Clone, Copy, Debug)]
pub struct EvaluatorState {
    n11: i32,
    margins: Margins,
    valid: bool,
}

impl View for EvaluatorState {
    type V = Memo;

    closed spec fn view(&self) -> Memo {
        Memo { n11: self.n11 as int, margins: self.margins@, valid: self.valid }
    }
}

impl EvaluatorState {
    #[verifier::type_invariant]
    spec fn well_formed(self) -> bool {
        self@.well_formed()
    }

    /// An evaluator that has not been asked for anything.
    pub fn new() -> (s: EvaluatorState)
        ensures
            s@ == Memo::fresh(),
    {
        EvaluatorState { n11: 0, margins: Margins::empty(), valid: false }
    }

    /// Puts the margins in force and asks for the value `n11`: always a cold
    /// start.
    pub fn start(&mut self, n11: i32, margins: Margins) -> (step: Step)
        requires
            margins@.contains(n11 as int),
        ensures
            final(self)@ == (Memo { n11: n11 as int, margins: margins@, valid: true }),
            step == cold(margins@, n11 as int),
            step.sound(),
            final(self)@.well_formed(),
    {
        let step = cold_start(&margins, n11);
        *self = EvaluatorState { n11, margins, valid: true };
        step
    }

    /// Asks for the value `n11` under the margins in force. The answer is a
    /// scaling when `n11` is a neighbour of the value asked for before and no
    /// multiple of ten, and a cold start otherwise.
    pub fn evaluate(&mut self, n11: i32) -> (step: Step)
        requires
            old(self)@.margins.contains(n11 as int),
        ensures
            final(self)@ == old(self)@.moved(n11 as int),
            step == old(self)@.plan(n11 as int),
            step.sound(),
            old(self)@.well_formed(),
            final(self)@.well_formed(),
    {
        let margins = self.margins;
        let from = self.n11;
        let row = margins.row();
        let col = margins.col();
        let total = margins.total();
        proof {
            use_type_invariant(&*self);
            lemma_plan_sound(self@, n11 as int);
        }
        let adjacent = self.valid && n11 % 10 != 0;
        let step = if adjacent && n11 as i64 == from as i64 + 1 {
            let slack: i64 = n11 as i64 + total as i64 - row as i64 - col as i64;
            Step::Scale {
                first: Ratio { num: row - from, den: n11 },
                second: Ratio { num: col - from, den: slack as i32 },
            }
        } else if adjacent && n11 as i64 == from as i64 - 1 {
            let slack: i64 = from as i64 + total as i64 - row as i64 - col as i64;
            Step::Scale {
                first: Ratio { num: from, den: row - n11 },
                second: Ratio { num: slack as i32, den: col - n11 },
            }
        } else {
            cold_start(&margins, n11)
        };
        *self = EvaluatorState { n11, margins, valid: true };
        step
    }

    /// The cell value last asked for.
    pub fn n11(&self) -> (r: i32)
        ensures
            r == self@.n11,
    {
        self.n11
    }

    /// The margins in force.
    pub fn margins(&self) -> (m: Margins)
        ensures
            m@ == self@.margins,
    {
        self.margins
    }

    /// Whether the evaluator has been asked for a value.
    pub fn is_valid(&self) -> (r: bool)
        ensures
            r == self@.valid,
    {
        self.valid
    }
}

/// The closed form for the value `n11` under `margins`.
fn cold_start(margins: &Margins, n11: i32) -> (step: Step)
    requires
        margins@.contains(n11 as int),
    ensures
        step == cold(margins@, n11 as int),
        step.sound(),
{
    let row = margins.row();
    let col = margins.col();
    let total = margins.total();
    Step::Cold {
        within: Binomial { n: row, k: n11 },
        outside: Binomial { n: total - row, k: col - n11 },
        overall: Binomial { n: total, k: col },
    }
}

/// Inside the support every step can be carried out: no binomial coefficient
/// has `k` outside `0..=n`, and no ratio has a part that is zero or negative.
pub proof fn lemma_plan_sound(m: Memo, n11: int)
    requires
        m.well_formed(),
        m.margins.contains(n11),
        m.margins.total <= i32::MAX,
    ensures
        m.plan(n11).sound(),
        m.moved(n11).well_formed(),
{
    lemma_support_bounds(m.margins);
}

/// A multiple of ten is always computed from scratch.
pub proof fn lemma_resynchronizes(m: Memo, n11: int)
    requires
        n11 % 10 == 0,
    ensures
        m.plan(n11) == cold(m.margins, n11),
{
}

/// A value that is no neighbour of the one asked for before is computed from
/// scratch, and so is the first value asked for.
pub proof fn lemma_jump_is_cold(m: Memo, n11: int)
    requires
        !m.valid || (n11 != m.n11 + 1 && n11 != m.n11 - 1),
    ensures
        m.plan(n11) == cold(m.margins, n11),
{
}

/// The evaluator is exact: if the previous probability was that of the value
/// asked for before, the step gives the probability of the value asked for
/// now, whichever kind of step it is.
pub proof fn lemma_plan_exact(m: Memo, n11: int, prev: Fraction)
    requires
        m.well_formed(),
        m.margins.contains(n11),
        m.margins.total <= i32::MAX,
        m.valid ==> prev.agrees(probability(m.margins, m.n11)),
    ensures
        m.plan(n11).exact(prev).agrees(probability(m.margins, n11)),
{
    let d = m.margins;
    lemma_support_bounds(d);
    lemma_weight_positive(d, n11);
    let mass = d.mass() as int;
    let target = d.weight(n11) as int;
    let step = m.plan(n11);
    if m.valid && !Memo::resynchronizes(n11) && n11 == m.n11 + 1 {
        lemma_weight_step(d, m.n11);
        lemma_positive_product(m.n11 + 1, m.n11 + 1 + d.total - d.row - d.col);
        lemma_scaled_agrees(
            prev,
            d.weight(m.n11) as int,
            target,
            mass,
            (d.row - m.n11) * (d.col - m.n11),
            (m.n11 + 1) * (m.n11 + 1 + d.total - d.row - d.col),
        );
        assert(step == forward(d, m.n11));
    } else if m.valid && !Memo::resynchronizes(n11) && n11 == m.n11 - 1 {
        lemma_weight_step(d, n11);
        lemma_positive_product(d.row - n11, d.col - n11);
        lemma_scaled_agrees(
            prev,
            d.weight(m.n11) as int,
            target,
            mass,
            m.n11 * (m.n11 + d.total - d.row - d.col),
            (d.row - n11) * (d.col - n11),
        );
        assert(step == backward(d, m.n11));
    } else {
        assert(step == cold(d, n11));
        assert(step.exact(prev) == probability(d, n11));
    }
}

/// The evaluator does not drift: along any path through the support, over
/// however many multiples of ten and in whichever direction, exact arithmetic
/// arrives at the probability of the last value asked for.
pub proof fn lemma_path_exact(m: Memo, prev: Fraction, path: Seq<int>)
    requires
        m.well_formed(),
        m.margins.total <= i32::MAX,
        path.len() > 0,
        forall|i: int| 0 <= i < path.len() ==> m.margins.contains(#[trigger] path[i]),
        m.valid ==> prev.agrees(probability(m.margins, m.n11)),
    ensures
        m.exact_along(prev, path).agrees(probability(m.margins, path.last())),
        m.moved_along(path) == m.moved(path.last()),
    decreases path.len(),
{
    let first = path[0];
    let rest = path.skip(1);
    lemma_plan_exact(m, first, prev);
    lemma_plan_sound(m, first);
    if rest.len() > 0 {
        assert forall|i: int| 0 <= i < rest.len() implies m.margins.contains(
            #[trigger] rest[i],
        ) by {
            assert(rest[i] == path[i + 1]);
        }
        assert(rest.last() == path.last());
        lemma_path_exact(m.moved(first), m.plan(first).exact(prev), rest);
    } else {
        assert(m.moved(first).exact_along(m.plan(first).exact(prev), rest) == m.plan(first).exact(
            prev,
        ));
        assert(m.moved(first).moved_along(rest) == m.moved(first));
    }
}

/// The product of two positive numbers is positive.
proof fn lemma_positive_product(a: int, b: int)
    by (nonlinear_arith)
    requires
        a > 0,
        b > 0,
    ensures
        a * b > 0,
{
}

/// If `prev` is `old / mass` and `new * den == old * num`, then `prev`
/// scaled by `num / den` is `new / mass`.
proof fn lemma_scaled_agrees(prev: Fraction, old: int, new: int, mass: int, num: int, den: int)
    by (nonlinear_arith)
    requires
        prev.den != 0,
        mass != 0,
        den != 0,
        prev.num * mass == old * prev.den,
        new * den == old * num,
    ensures
        prev.den * den != 0,
        (prev.num * num) * mass == new * (prev.den * den),
{
}

} // verus!
