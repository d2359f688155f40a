//! The whole test in floating point, driven through the library's plans.

use fishers_exact::evaluator::{Binomial, EvaluatorState, Step};
use fishers_exact::table::{Margins, Table2x2};
use fishers_exact::tails::{Next, Opening, TailRule, TailSummation, Tally, Verdict};

struct Outcome {
    prob: f64,
    sleft: f64,
    sright: f64,
    less: f64,
    greater: f64,
    two_tail: f64,
}

fn ln_gamma(z: i64) -> f64 {
    let z = z as f64;
    let mut x = 0.0;
    x += 0.1659470187408462e-06 / (z + 7.0);
    x += 0.9934937113930748e-05 / (z + 6.0);
    x -= 0.1385710331296526 / (z + 5.0);
    x += 12.50734324009056 / (z + 4.0);
    x -= 176.6150291498386 / (z + 3.0);
    x += 771.3234287757674 / (z + 2.0);
    x -= 1259.139216722289 / (z + 1.0);
    x += 676.5203681218835 / (z);
    x += 0.9999999999995183;
    x.ln() - 5.58106146679532777 - z + (z - 0.5) * (z + 6.5).ln()
}

fn ln_gamma_at(argument: Option<i64>) -> f64 {
    match argument {
        None => 0.0,
        Some(z) => ln_gamma(z),
    }
}

fn ln_binomial(b: &Binomial) -> f64 {
    let a = b.log_gamma_arguments();
    ln_gamma_at(a.upper) - ln_gamma_at(a.lower) - ln_gamma_at(a.rest)
}

fn carry_out(step: &Step, previous: f64) -> f64 {
    match step {
        Step::Cold { within, outside, overall } => {
            (ln_binomial(within) + ln_binomial(outside) - ln_binomial(overall)).exp()
        }
        Step::Scale { first, second } => {
            previous
                * ((first.num as f64 / first.den as f64) * (second.num as f64 / second.den as f64))
        }
    }
}

fn judge(p: f64, prob: f64) -> Verdict {
    if p <= 0.99999999 * prob {
        Verdict::Below
    } else if p <= 1.00000001 * prob {
        Verdict::Level
    } else {
        Verdict::Above
    }
}

fn run(n11: i32, n12: i32, n21: i32, n22: i32) -> Outcome {
    let table = Table2x2::new(n11, n12, n21, n22).unwrap();
    match TailSummation::begin(&table) {
        Opening::Degenerate => Outcome {
            prob: 1.0,
            sleft: 1.0,
            sright: 1.0,
            less: 1.0,
            greater: 1.0,
            two_tail: 1.0,
        },
        Opening::Walk { mut walk, observe, first } => {
            let prob = carry_out(&observe, 0.0);
            let mut p = carry_out(&first, prob);
            let mut sleft = 0.0;
            let mut sright = 0.0;
            let rule;
            loop {
                let reaction = walk.advance(judge(p, prob));
                match reaction.tally {
                    Tally::Left => sleft += p,
                    Tally::Right => sright += p,
                    Tally::Skip => {}
                }
                match reaction.next {
                    Next::Evaluate(step) => p = carry_out(&step, p),
                    Next::Finish(r) => {
                        rule = r;
                        break;
                    }
                }
            }
            let (less, greater) = match rule {
                TailRule::LessIsLeft => (sleft, 1.0 - sleft + prob),
                TailRule::GreaterIsRight => (1.0 - sright + prob, sright),
            };
            let mut two_tail = sleft + sright;
            if two_tail > 1.0 {
                two_tail = 1.0;
            }
            Outcome { prob, sleft, sright, less, greater, two_tail }
        }
    }
}

fn cold_value(margins: Margins, k: i32) -> f64 {
    let mut fresh = EvaluatorState::new();
    let step = fresh.start(k, margins);
    carry_out(&step, 0.0)
}

#[test]
fn known_table_gives_known_pvalues() {
    let o = run(1, 9, 11, 3);
    assert!((o.less - 0.001346).abs() < 0.0001);
    assert!((o.greater - 0.9999663).abs() < 0.0001);
    assert!((o.two_tail - 0.0027594).abs() < 0.0001);
}

#[test]
fn known_table_matches_exact_fractions() {
    // C(24, 12) = 2704156 tables; 91 have the cell at 0 and 3640 have it at 1.
    let o = run(1, 9, 11, 3);
    assert!((o.prob - 3640.0 / 2704156.0).abs() < 1e-8);
    assert!((o.less - 3731.0 / 2704156.0).abs() < 1e-8);
    assert!((o.greater - (1.0 - 91.0 / 2704156.0)).abs() < 1e-9);
    assert!((o.two_tail - 2.0 * 3731.0 / 2704156.0).abs() < 1e-8);
    assert!((o.sleft - o.sright).abs() < 1e-8);
}

#[test]
fn small_table_by_hand() {
    // Margins 3, 3 of 6: weights 1, 9, 9, 1 over 20.
    let o = run(3, 0, 0, 3);
    assert!((o.prob - 0.05).abs() < 1e-8);
    assert!((o.greater - 0.05).abs() < 1e-8);
    assert!((o.less - 1.0).abs() < 1e-8);
    assert!((o.two_tail - 0.1).abs() < 1e-8);
    let o = run(1, 2, 2, 1);
    assert!((o.prob - 0.45).abs() < 1e-8);
    assert!((o.less - 0.5).abs() < 1e-8);
    assert!((o.greater - 0.95).abs() < 1e-8);
    assert!((o.two_tail - 1.0).abs() < 1e-8);
}

#[test]
fn degenerate_table_gives_ones() {
    for &(a, b, c, d) in &[(5, 0, 0, 0), (0, 0, 0, 0), (0, 7, 0, 0), (0, 0, 4, 0), (0, 0, 0, 9), (3, 4, 0, 0)] {
        let o = run(a, b, c, d);
        assert_eq!(o.prob, 1.0);
        assert_eq!(o.sleft, 1.0);
        assert_eq!(o.sright, 1.0);
        assert_eq!(o.less, 1.0);
        assert_eq!(o.greater, 1.0);
        assert_eq!(o.two_tail, 1.0);
    }
}

#[test]
fn tails_complement_each_other() {
    for a in 0..7 {
        for b in 0..7 {
            for c in 0..7 {
                for d in 0..7 {
                    let o = run(a, b, c, d);
                    assert!((o.less + o.greater - o.prob - 1.0).abs() < 1e-6);
                }
            }
        }
    }
    let o = run(120, 340, 95, 410);
    assert!((o.less + o.greater - o.prob - 1.0).abs() < 1e-6);
}

#[test]
fn pvalues_are_probabilities() {
    for a in 0..8 {
        for b in 0..8 {
            for c in 0..8 {
                for d in 0..8 {
                    let o = run(a, b, c, d);
                    assert!(o.two_tail >= 0.0 && o.two_tail <= 1.0);
                    assert!(o.less >= -1e-12 && o.less <= 1.0 + 1e-8);
                    assert!(o.greater >= -1e-12 && o.greater <= 1.0 + 1e-8);
                }
            }
        }
    }
}

#[test]
fn two_tail_is_clamped_at_one() {
    // The observed value is the single mode: both walks take it, so the raw
    // sum exceeds one by the observed probability.
    let o = run(2, 2, 2, 2);
    assert!(o.sleft + o.sright > 1.0);
    assert_eq!(o.two_tail, 1.0);
}

#[test]
fn swapping_rows_swaps_the_tails() {
    for &(a, b, c, d) in &[(1, 9, 11, 3), (3, 5, 2, 8), (0, 4, 6, 1), (12, 30, 25, 18), (7, 7, 7, 7)] {
        let o = run(a, b, c, d);
        let s = run(c, d, a, b);
        assert!((o.less - s.greater).abs() < 1e-9);
        assert!((o.greater - s.less).abs() < 1e-9);
        assert!((o.two_tail - s.two_tail).abs() < 1e-9);
    }
}

#[test]
fn neighbouring_values_agree_with_the_closed_form() {
    let margins = Margins::new(37, 45, 120).unwrap();
    let lo = margins.lo();
    let hi = margins.hi();
    assert_eq!((lo, hi), (0, 37));
    for k in lo..hi {
        let mut up = EvaluatorState::new();
        let at_k = carry_out(&up.start(k, margins), 0.0);
        let stepped = carry_out(&up.evaluate(k + 1), at_k);
        let cold = cold_value(margins, k + 1);
        assert!(((stepped - cold) / cold).abs() < 1e-9);
        let mut down = EvaluatorState::new();
        let at_next = carry_out(&down.start(k + 1, margins), 0.0);
        let stepped = carry_out(&down.evaluate(k), at_next);
        let cold = cold_value(margins, k);
        assert!(((stepped - cold) / cold).abs() < 1e-9);
    }
}

#[test]
fn stepping_across_multiples_of_ten_does_not_drift() {
    let margins = Margins::new(60, 75, 200).unwrap();
    let lo = margins.lo();
    let hi = margins.hi();
    let mut state = EvaluatorState::new();
    let mut p = carry_out(&state.start(lo, margins), 0.0);
    for k in lo + 1..=hi {
        let step = state.evaluate(k);
        if k % 10 == 0 {
            assert!(matches!(step, Step::Cold { .. }));
        } else {
            assert!(matches!(step, Step::Scale { .. }));
        }
        p = carry_out(&step, p);
        let cold = cold_value(margins, k);
        assert!(((p - cold) / cold).abs() < 1e-9);
    }
}

#[test]
fn probabilities_sum_to_one() {
    let margins = Margins::new(23, 31, 80).unwrap();
    let mut sum = 0.0;
    for k in margins.lo()..=margins.hi() {
        sum += cold_value(margins, k);
    }
    assert!((sum - 1.0).abs() < 1e-7);
}

#[test]
fn log_gamma_matches_small_factorials() {
    // Gamma(n + 1) = n!
    assert!((ln_gamma(3) - 2.0f64.ln()).abs() < 1e-9);
    assert!((ln_gamma(5) - 24.0f64.ln()).abs() < 1e-9);
    assert!((ln_gamma(11) - 3628800.0f64.ln()).abs() < 1e-9);
    let b = Binomial { n: 10, k: 3 };
    assert!((ln_binomial(&b).exp() - 120.0).abs() < 1e-6);
}
