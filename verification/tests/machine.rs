//! The integer side of the library on concrete values.

use fishers_exact::evaluator::{Binomial, EvaluatorState, LogGammaArguments, Ratio, Step};
use fishers_exact::table::{Margins, Table2x2, TableError};
use fishers_exact::tails::{Next, Opening, Phase, Reaction, TailRule, TailSummation, Tally, Verdict};

fn cold(n11: i32, row: i32, col: i32, total: i32) -> Step {
    Step::Cold {
        within: Binomial { n: row, k: n11 },
        outside: Binomial { n: total - row, k: col - n11 },
        overall: Binomial { n: total, k: col },
    }
}

fn scale(a: i32, b: i32, c: i32, d: i32) -> Step {
    Step::Scale { first: Ratio { num: a, den: b }, second: Ratio { num: c, den: d } }
}

fn open(n11: i32, n12: i32, n21: i32, n22: i32) -> (TailSummation, Step, Step) {
    let table = Table2x2::new(n11, n12, n21, n22).unwrap();
    match TailSummation::begin(&table) {
        Opening::Walk { walk, observe, first } => (walk, observe, first),
        Opening::Degenerate => panic!("degenerate"),
    }
}

#[test]
fn table_keeps_its_counts() {
    let t = Table2x2::new(1, 9, 11, 3).unwrap();
    assert_eq!((t.n11(), t.n12(), t.n21(), t.n22()), (1, 9, 11, 3));
    let m = t.margins();
    assert_eq!((m.row(), m.col(), m.total()), (10, 12, 24));
    assert_eq!((m.lo(), m.hi()), (0, 10));
    assert!(!m.is_degenerate());
}

#[test]
fn negative_count_is_refused() {
    assert_eq!(Table2x2::new(-1, 2, 3, 4).err(), Some(TableError::NegativeCount));
    assert_eq!(Table2x2::new(1, -2, 3, 4).err(), Some(TableError::NegativeCount));
    assert_eq!(Table2x2::new(1, 2, -3, 4).err(), Some(TableError::NegativeCount));
    assert_eq!(Table2x2::new(1, 2, 3, i32::MIN).err(), Some(TableError::NegativeCount));
    assert_eq!(Table2x2::new(-1, i32::MAX, i32::MAX, 4).err(), Some(TableError::NegativeCount));
}

#[test]
fn oversized_total_is_refused() {
    assert_eq!(Table2x2::new(i32::MAX, 1, 0, 0).err(), Some(TableError::TotalTooLarge));
    assert_eq!(
        Table2x2::new(i32::MAX, i32::MAX, i32::MAX, i32::MAX).err(),
        Some(TableError::TotalTooLarge)
    );
    assert!(Table2x2::new(i32::MAX, 0, 0, 0).is_ok());
    assert!(Table2x2::new(i32::MAX - 3, 1, 1, 1).is_ok());
}

#[test]
fn support_bounds_follow_the_margins() {
    // max(0, row + col - total) and min(row, col)
    let m = Margins::new(8, 9, 12).unwrap();
    assert_eq!((m.lo(), m.hi()), (5, 8));
    let m = Margins::new(3, 9, 40).unwrap();
    assert_eq!((m.lo(), m.hi()), (0, 3));
    let m = Margins::new(9, 3, 9).unwrap();
    assert_eq!((m.lo(), m.hi()), (3, 3));
    assert!(m.is_degenerate());
    let m = Margins::new(i32::MAX, i32::MAX, i32::MAX).unwrap();
    assert_eq!((m.lo(), m.hi()), (i32::MAX, i32::MAX));
    let m = Margins::empty();
    assert_eq!((m.row(), m.col(), m.total(), m.lo(), m.hi()), (0, 0, 0, 0, 0));
}

#[test]
fn margins_must_fit_the_total() {
    assert!(Margins::new(5, 3, 4).is_none());
    assert!(Margins::new(3, 5, 4).is_none());
    assert!(Margins::new(-1, 0, 4).is_none());
    assert!(Margins::new(0, -1, 4).is_none());
    assert!(Margins::new(4, 4, 4).is_some());
    assert!(Margins::new(0, 0, 0).is_some());
}

#[test]
fn table_from_margins_needs_the_cell_in_the_support() {
    let t = Table2x2::from_margins(1, 10, 12, 24).unwrap();
    assert_eq!((t.n11(), t.n12(), t.n21(), t.n22()), (1, 9, 11, 3));
    let t = Table2x2::from_margins(5, 8, 9, 12).unwrap();
    assert_eq!((t.n11(), t.n12(), t.n21(), t.n22()), (5, 3, 4, 0));
    assert!(Table2x2::from_margins(4, 8, 9, 12).is_none());
    assert!(Table2x2::from_margins(9, 8, 9, 12).is_none());
    assert!(Table2x2::from_margins(-1, 8, 9, 12).is_none());
    assert!(Table2x2::from_margins(0, 2, 3, 1).is_none());
    assert!(Table2x2::from_margins(i32::MIN, i32::MAX, i32::MAX, 0).is_none());
}

#[test]
fn swapped_rows_change_places() {
    let t = Table2x2::new(1, 9, 11, 3).unwrap().swap_rows();
    assert_eq!((t.n11(), t.n12(), t.n21(), t.n22()), (11, 3, 1, 9));
    let m = t.margins();
    assert_eq!((m.row(), m.col(), m.total()), (14, 12, 24));
    assert_eq!((m.lo(), m.hi()), (2, 12));
}

#[test]
fn log_factorials_of_zero_and_one_need_no_gamma() {
    let a = Binomial { n: 10, k: 1 }.log_gamma_arguments();
    assert_eq!(a, LogGammaArguments { upper: Some(11), lower: None, rest: Some(10) });
    let a = Binomial { n: 1, k: 0 }.log_gamma_arguments();
    assert_eq!(a, LogGammaArguments { upper: None, lower: None, rest: None });
    let a = Binomial { n: 2, k: 2 }.log_gamma_arguments();
    assert_eq!(a, LogGammaArguments { upper: Some(3), lower: Some(3), rest: None });
    let a = Binomial { n: i32::MAX, k: 2 }.log_gamma_arguments();
    assert_eq!(
        a,
        LogGammaArguments { upper: Some(2147483648), lower: Some(3), rest: Some(2147483646) }
    );
}

#[test]
fn first_evaluation_is_a_cold_start() {
    let m = Margins::new(10, 12, 24).unwrap();
    let mut s = EvaluatorState::new();
    assert!(!s.is_valid());
    assert_eq!(s.n11(), 0);
    let step = s.start(4, m);
    assert_eq!(step, cold(4, 10, 12, 24));
    assert!(s.is_valid());
    assert_eq!(s.n11(), 4);
    assert_eq!(s.margins().total(), 24);
}

#[test]
fn evaluating_before_any_start_is_a_cold_start_on_empty_margins() {
    let mut s = EvaluatorState::new();
    let step = s.evaluate(0);
    assert_eq!(step, cold(0, 0, 0, 0));
    assert!(s.is_valid());
}

#[test]
fn neighbours_are_reached_by_scaling() {
    let m = Margins::new(10, 12, 24).unwrap();
    let mut s = EvaluatorState::new();
    s.start(4, m);
    // (row - 4) / 5 and (col - 4) / (5 + total - row - col)
    assert_eq!(s.evaluate(5), scale(6, 5, 8, 7));
    assert_eq!(s.n11(), 5);
    // 5 / (row - 4) and (5 + total - row - col) / (col - 4)
    assert_eq!(s.evaluate(4), scale(5, 6, 7, 8));
    assert_eq!(s.n11(), 4);
}

#[test]
fn jumps_and_repeats_are_cold_starts() {
    let m = Margins::new(10, 12, 24).unwrap();
    let mut s = EvaluatorState::new();
    s.start(4, m);
    assert_eq!(s.evaluate(6), cold(6, 10, 12, 24));
    assert_eq!(s.evaluate(6), cold(6, 10, 12, 24));
    assert_eq!(s.evaluate(2), cold(2, 10, 12, 24));
}

#[test]
fn multiples_of_ten_are_cold_starts() {
    let m = Margins::new(30, 30, 90).unwrap();
    let mut s = EvaluatorState::new();
    s.start(9, m);
    assert_eq!(s.evaluate(10), cold(10, 30, 30, 90));
    assert_eq!(s.evaluate(11), scale(20, 11, 20, 41));
    assert_eq!(s.evaluate(10), cold(10, 30, 30, 90));
    s.start(1, m);
    assert_eq!(s.evaluate(0), cold(0, 30, 30, 90));
    s.start(21, m);
    assert_eq!(s.evaluate(20), cold(20, 30, 30, 90));
}

#[test]
fn start_replaces_the_margins() {
    let mut s = EvaluatorState::new();
    s.start(4, Margins::new(10, 12, 24).unwrap());
    let step = s.start(5, Margins::new(8, 9, 12).unwrap());
    assert_eq!(step, cold(5, 8, 9, 12));
    assert_eq!(s.evaluate(6), scale(3, 6, 4, 1));
}

#[test]
fn degenerate_margins_open_without_a_walk() {
    for &(a, b, c, d) in &[(5, 0, 0, 0), (0, 0, 0, 0), (0, 7, 0, 0), (0, 0, 4, 0), (0, 0, 0, 9), (3, 4, 0, 0), (0, 0, 3, 4)] {
        let t = Table2x2::new(a, b, c, d).unwrap();
        assert!(matches!(TailSummation::begin(&t), Opening::Degenerate));
    }
}

#[test]
fn walk_opens_at_the_least_value() {
    let (walk, observe, first) = open(1, 9, 11, 3);
    assert_eq!(observe, cold(1, 10, 12, 24));
    assert_eq!(first, cold(0, 10, 12, 24));
    assert_eq!(walk.phase(), Phase::Left);
    assert_eq!(walk.observed(), 1);
    assert_eq!(walk.left_stop(), -1);
    assert_eq!(walk.right_stop(), 11);
    // The least value is a neighbour of the observed one and no multiple of ten.
    let (_, observe, first) = open(6, 2, 3, 1);
    assert_eq!(observe, cold(6, 8, 9, 12));
    assert_eq!(first, scale(6, 3, 1, 4));
}

#[test]
fn walk_on_the_known_table() {
    let (mut walk, _, _) = open(1, 9, 11, 3);
    let r = walk.advance(Verdict::Below);
    assert_eq!(r, Reaction { tally: Tally::Left, next: Next::Evaluate(scale(10, 1, 12, 3)) });
    assert_eq!(walk.left_stop(), 0);
    let r = walk.advance(Verdict::Level);
    assert_eq!(r, Reaction { tally: Tally::Left, next: Next::Evaluate(cold(10, 10, 12, 24)) });
    assert_eq!(walk.phase(), Phase::Right);
    assert_eq!(walk.left_stop(), 1);
    let r = walk.advance(Verdict::Below);
    assert_eq!(r, Reaction { tally: Tally::Right, next: Next::Evaluate(scale(10, 1, 12, 3)) });
    assert_eq!(walk.right_stop(), 10);
    let r = walk.advance(Verdict::Above);
    assert_eq!(r, Reaction { tally: Tally::Skip, next: Next::Finish(TailRule::LessIsLeft) });
    assert_eq!(walk.phase(), Phase::Done);
    assert_eq!((walk.left_stop(), walk.right_stop()), (1, 10));
}

#[test]
fn a_term_above_stops_the_walk_one_short() {
    let (mut walk, _, _) = open(3, 1, 1, 3);
    // support 0..=4, observed 3
    walk.advance(Verdict::Below);
    let r = walk.advance(Verdict::Above);
    assert_eq!(r.tally, Tally::Skip);
    assert_eq!(walk.phase(), Phase::Right);
    assert_eq!(walk.left_stop(), 0);
    walk.advance(Verdict::Below);
    let r = walk.advance(Verdict::Level);
    assert_eq!(r, Reaction { tally: Tally::Right, next: Next::Finish(TailRule::GreaterIsRight) });
    assert_eq!((walk.left_stop(), walk.right_stop()), (0, 3));
}

#[test]
fn a_first_term_above_leaves_the_tail_empty() {
    let (mut walk, _, _) = open(2, 2, 2, 2);
    let r = walk.advance(Verdict::Above);
    assert_eq!(r.tally, Tally::Skip);
    assert_eq!(walk.left_stop(), -1);
    let r = walk.advance(Verdict::Above);
    assert_eq!(r, Reaction { tally: Tally::Skip, next: Next::Finish(TailRule::GreaterIsRight) });
    assert_eq!(walk.right_stop(), 5);
}

#[test]
fn equal_distances_give_the_right_sum_to_the_upper_tail() {
    let (mut walk, _, _) = open(2, 2, 2, 2);
    walk.advance(Verdict::Below);
    walk.advance(Verdict::Below);
    walk.advance(Verdict::Level);
    walk.advance(Verdict::Below);
    walk.advance(Verdict::Below);
    let r = walk.advance(Verdict::Level);
    assert_eq!((walk.left_stop(), walk.right_stop()), (2, 2));
    assert_eq!(r.next, Next::Finish(TailRule::GreaterIsRight));
}

#[test]
fn walks_end_where_the_support_ends() {
    let (mut walk, _, _) = open(1, 1, 1, 1);
    // support 0..=2: three terms below use it up
    assert!(matches!(walk.advance(Verdict::Below).next, Next::Evaluate(_)));
    assert!(matches!(walk.advance(Verdict::Below).next, Next::Evaluate(_)));
    assert_eq!(walk.phase(), Phase::Left);
    let r = walk.advance(Verdict::Below);
    assert_eq!(r, Reaction { tally: Tally::Left, next: Next::Evaluate(cold(2, 2, 2, 4)) });
    assert_eq!(walk.phase(), Phase::Right);
    assert_eq!(walk.left_stop(), 2);
    walk.advance(Verdict::Below);
    walk.advance(Verdict::Below);
    let r = walk.advance(Verdict::Below);
    assert_eq!(r, Reaction { tally: Tally::Right, next: Next::Finish(TailRule::GreaterIsRight) });
    assert_eq!(walk.right_stop(), 0);
}

#[test]
fn a_finished_walk_repeats_its_rule() {
    let (mut walk, _, _) = open(1, 9, 11, 3);
    walk.advance(Verdict::Below);
    walk.advance(Verdict::Level);
    walk.advance(Verdict::Below);
    walk.advance(Verdict::Above);
    for v in [Verdict::Below, Verdict::Level, Verdict::Above] {
        let r = walk.advance(v);
        assert_eq!(r, Reaction { tally: Tally::Skip, next: Next::Finish(TailRule::LessIsLeft) });
        assert_eq!((walk.left_stop(), walk.right_stop()), (1, 10));
    }
}

#[test]
fn every_walk_ends_within_twice_the_support() {
    for &v in &[Verdict::Below, Verdict::Level, Verdict::Above] {
        let (mut walk, _, _) = open(20, 15, 17, 30);
        let m = Margins::new(35, 37, 82).unwrap();
        let width = (m.hi() - m.lo() + 1) as usize;
        let mut asked = 0;
        loop {
            asked += 1;
            if let Next::Finish(_) = walk.advance(v).next {
                break;
            }
        }
        assert!(asked <= 2 * width);
    }
}

#[test]
fn cursor_follows_the_walks() {
    let (mut walk, _, _) = open(3, 1, 1, 3);
    assert_eq!(walk.cursor(), 0);
    walk.advance(Verdict::Below);
    assert_eq!(walk.cursor(), 1);
    walk.advance(Verdict::Level);
    assert_eq!(walk.cursor(), 4);
    walk.advance(Verdict::Below);
    assert_eq!(walk.cursor(), 3);
    walk.advance(Verdict::Above);
    assert_eq!(walk.phase(), Phase::Done);
    assert_eq!(walk.cursor(), 3);
    assert_eq!((walk.left_stop(), walk.right_stop()), (1, 4));
}

#[test]
fn swapped_rows_mirror_the_stops() {
    // The table and its mirror image, judged by mirrored verdicts.
    let left = [Verdict::Below, Verdict::Below, Verdict::Above];
    let right = [Verdict::Below, Verdict::Level];
    let (mut walk, _, _) = open(4, 3, 2, 5);
    let mut last = None;
    for &v in left.iter().chain(right.iter()) {
        last = Some(walk.advance(v).next);
    }
    let (mut mirror, _, _) = open(2, 5, 4, 3);
    let mut mirrored_last = None;
    for &v in right.iter().chain(left.iter()) {
        mirrored_last = Some(mirror.advance(v).next);
    }
    let col = 6;
    assert_eq!(mirror.observed(), col - walk.observed());
    assert_eq!(mirror.left_stop(), col - walk.right_stop());
    assert_eq!(mirror.right_stop(), col - walk.left_stop());
    assert_eq!((walk.left_stop(), walk.right_stop()), (1, 5));
    assert_eq!(last, Some(Next::Finish(TailRule::GreaterIsRight)));
    assert_eq!(mirrored_last, Some(Next::Finish(TailRule::LessIsLeft)));
}
