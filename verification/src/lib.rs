//! The integer skeleton of Fisher's exact test for 2x2 contingency tables.
//!
//! The test sums hypergeometric probabilities over the tables that share the
//! margins of the observed one. Everything the test decides with integers
//! lives here and is proved: the margins and the support of the distribution,
//! the plan by which each probability is obtained from the previous one, and
//! the two walks that gather the tails. The probabilities themselves are
//! floating-point numbers and are computed by the caller, who follows the
//! plans handed out by this crate.
//!
//! A caller makes a [`table::Table2x2`], opens a [`tails::TailSummation`] on
//! it, and then repeats three things until the machine names a rule: carry
//! out the [`evaluator::Step`] it was given on the previous probability,
//! compare the result with the observed probability, and hand the
//! [`tails::Verdict`] to [`tails::TailSummation::advance`], adding the term to
//! the sum that the answer names.
//!
//! The module `exactness` proves that this protocol, run in exact arithmetic,
//! yields the tails of Fisher's test.

pub mod binomial;
pub mod distribution;
pub mod table;
pub mod evaluator;
pub mod exactness;
pub mod tails;
