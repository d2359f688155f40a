//! The hypergeometric distribution that fixed margins put on the upper-left
//! cell of a 2x2 table, in exact arithmetic.
//!
//! A probability is held as a weight over a common mass: the cell value `k`
//! has probability `weight(k) / mass()`. No fraction is ever reduced, so every
//! statement below is one about naturals.

use vstd::prelude::*;
use crate::binomial::{
    binomial,
    convolution,
    lemma_binomial_absorb,
    lemma_binomial_beyond,
    lemma_binomial_positive,
    lemma_vandermonde,
};

verus! {

/// The margins of a 2x2 table: the total of the first row, the total of the
/// first column, and the grand total.
pub struct Distribution {
    pub row: int,
    pub col: int,
    pub total: int,
}

impl Distribution {
    /// Both margins lie between zero and the grand total.
    pub open spec fn valid(self) -> bool {
        &&& 0 <= self.row <= self.total
        &&& 0 <= self.col <= self.total
    }

    /// The least value the upper-left cell can take.
    pub open spec fn lo(self) -> int {
        if self.row + self.col - self.total > 0 {
            self.row + self.col - self.total
        } else {
            0
        }
    }

    /// The greatest value the upper-left cell can take.
    pub open spec fn hi(self) -> int {
        if self.col < self.row {
            self.col
        } else {
            self.row
        }
    }

    /// Whether the upper-left cell can take the value `k`.
    pub open spec fn contains(self, k: int) -> bool {
        self.lo() <= k <= self.hi()
    }

    /// Whether the margins leave the upper-left cell a single value.
    pub open spec fn degenerate(self) -> bool {
        self.lo() == self.hi()
    }

    /// The number of tables with these margins whose upper-left cell is `k`:
    /// `C(row, k) * C(total - row, col - k)`.
    pub open spec fn weight(self, k: int) -> nat {
        binomial(self.row as nat, k as nat) * binomial(
            (self.total - self.row) as nat,
            (self.col - k) as nat,
        )
    }

    /// The number of tables with these margins: `C(total, col)`.
    pub open spec fn mass(self) -> nat {
        binomial(self.total as nat, self.col as nat)
    }

    /// The margins of the table whose two rows have changed places.
    pub open spec fn swap_rows(self) -> Distribution {
        Distribution { row: self.total - self.row, col: self.col, total: self.total }
    }

    /// The weight of all cell values from `a` to `b`, both included.
    pub open spec fn weight_between(self, a: int, b: int) -> nat
        decreases b - a + 1,
    {
        if a > b {
            0
        } else {
            self.weight(b) + self.weight_between(a, b - 1)
        }
    }
}

/// Valid margins leave the cell at least one value, and every value they
/// leave lies between zero and both margins.
pub proof fn lemma_support_bounds(d: Distribution)
    requires
        d.valid(),
    ensures
        0 <= d.lo() <= d.hi() <= d.total,
        d.hi() <= d.row,
        d.hi() <= d.col,
        d.lo() >= d.row + d.col - d.total,
{
}

/// Every value of the support has positive weight, and the mass is positive.
pub proof fn lemma_weight_positive(d: Distribution, k: int)
    requires
        d.valid(),
        d.contains(k),
    ensures
        d.weight(k) > 0,
        d.mass() > 0,
{
    let a = binomial(d.row as nat, k as nat);
    let b = binomial((d.total - d.row) as nat, (d.col - k) as nat);
    lemma_binomial_positive(d.row as nat, k as nat);
    lemma_binomial_positive((d.total - d.row) as nat, (d.col - k) as nat);
    lemma_binomial_positive(d.total as nat, d.col as nat);
    assert(a * b > 0) by (nonlinear_arith)
        requires
            a > 0,
            b > 0,
    ;
}

/// The ratio of neighbouring weights: for `k` and `k + 1` in the support,
/// `weight(k + 1) * (k + 1) * (k + 1 + total - row - col)` equals
/// `weight(k) * (row - k) * (col - k)`, and both divisors are positive.
pub proof fn lemma_weight_step(d: Distribution, k: int)
    requires
        d.valid(),
        d.contains(k),
        d.contains(k + 1),
    ensures
        d.weight(k + 1) * ((k + 1) * (k + 1 + d.total - d.row - d.col)) == d.weight(k) * ((d.row
            - k) * (d.col - k)),
        k + 1 > 0,
        k + 1 + d.total - d.row - d.col > 0,
        d.row - k > 0,
        d.col - k > 0,
{
    let rest = (d.total - d.row) as nat;
    let below = (d.col - k - 1) as nat;
    lemma_binomial_absorb(d.row as nat, k as nat);
    lemma_binomial_absorb(rest, below);
    let a0 = binomial(d.row as nat, k as nat) as int;
    let a1 = binomial(d.row as nat, (k + 1) as nat) as int;
    let b0 = binomial(rest, (d.col - k) as nat) as int;
    let b1 = binomial(rest, below) as int;
    let p = k + 1;
    let q = k + 1 + d.total - d.row - d.col;
    let r = d.row - k;
    let s = d.col - k;
    assert(p * a1 == r * a0);
    assert(s * b0 == q * b1);
    assert(d.weight(k + 1) == a1 * b1);
    assert(d.weight(k) == a0 * b0);
    assert((a1 * b1) * (p * q) == (a0 * b0) * (r * s)) by (nonlinear_arith)
        requires
            p * a1 == r * a0,
            s * b0 == q * b1,
    ;
}

/// Changing the places of the two rows mirrors the distribution: the support
/// of the new margins is the old one read from `col` downwards, and the value
/// `col - k` weighs what `k` weighed before.
pub proof fn lemma_swap_rows_mirrors(d: Distribution, k: int)
    requires
        d.valid(),
    ensures
        d.swap_rows().valid(),
        d.swap_rows().swap_rows() == d,
        d.swap_rows().lo() == d.col - d.hi(),
        d.swap_rows().hi() == d.col - d.lo(),
        d.swap_rows().contains(d.col - k) <==> d.contains(k),
        d.swap_rows().mass() == d.mass(),
        d.contains(k) ==> d.swap_rows().weight(d.col - k) == d.weight(k),
{
    if d.contains(k) {
        let a = binomial(d.row as nat, k as nat);
        let b = binomial((d.total - d.row) as nat, (d.col - k) as nat);
        let m = d.swap_rows();
        assert((m.total - m.row) as nat == d.row as nat);
        assert((m.col - (d.col - k)) as nat == k as nat);
        assert(m.weight(d.col - k) == b * a);
        assert(a * b == b * a) by (nonlinear_arith);
    }
}

/// A range of cell values splits into two at any point.
pub proof fn lemma_weight_split(d: Distribution, a: int, b: int, c: int)
    requires
        a - 1 <= b <= c,
    ensures
        d.weight_between(a, c) == d.weight_between(a, b) + d.weight_between(b + 1, c),
    decreases c - b,
{
    if b < c {
        lemma_weight_split(d, a, b, c - 1);
    }
}

/// The sum that Vandermonde's identity speaks of is, from the least value
/// of the support on, the weight gathered so far.
proof fn lemma_convolution_is_weight(d: Distribution, j: int)
    requires
        d.valid(),
        j <= d.hi(),
    ensures
        convolution(d.row as nat, (d.total - d.row) as nat, d.col as nat, j) == d.weight_between(
            d.lo(),
            j,
        ),
    decreases j + 1,
{
    let a = d.row as nat;
    let b = (d.total - d.row) as nat;
    let m = d.col as nat;
    if j < 0 {
    } else {
        lemma_convolution_is_weight(d, j - 1);
        if j < d.lo() {
            lemma_binomial_beyond(b, (m - j) as nat);
            assert(binomial(a, j as nat) * binomial(b, (m - j) as nat) == 0) by (nonlinear_arith)
                requires
                    binomial(b, (m - j) as nat) == 0,
            ;
        }
    }
}

/// Beyond the greatest value of the support there is nothing to add.
proof fn lemma_convolution_beyond(d: Distribution, j: int)
    requires
        d.valid(),
        d.hi() <= j <= d.col,
    ensures
        convolution(d.row as nat, (d.total - d.row) as nat, d.col as nat, j) == convolution(
            d.row as nat,
            (d.total - d.row) as nat,
            d.col as nat,
            d.hi(),
        ),
    decreases j,
{
    let a = d.row as nat;
    let b = (d.total - d.row) as nat;
    let m = d.col as nat;
    if j > d.hi() {
        lemma_convolution_beyond(d, j - 1);
        lemma_binomial_beyond(a, j as nat);
        assert(binomial(a, j as nat) * binomial(b, (m - j) as nat) == 0) by (nonlinear_arith)
            requires
                binomial(a, j as nat) == 0,
        ;
    }
}

/// The weights of the support add up to the mass: the probabilities add up
/// to one.
pub proof fn lemma_total_mass(d: Distribution)
    requires
        d.valid(),
    ensures
        d.weight_between(d.lo(), d.hi()) == d.mass(),
{
    lemma_vandermonde(d.row as nat, (d.total - d.row) as nat, d.col as nat);
    lemma_convolution_beyond(d, d.col);
    lemma_convolution_is_weight(d, d.hi());
    assert(d.row as nat + (d.total - d.row) as nat == d.total as nat);
}

/// From one pair of neighbours to the next the ratio of their weights falls:
/// once the weights have stopped rising they fall, and strictly.
proof fn lemma_descent_goes_on(d: Distribution, k: int)
    requires
        d.valid(),
        d.contains(k),
        d.contains(k + 2),
        d.weight(k + 1) <= d.weight(k),
    ensures
        d.weight(k + 2) < d.weight(k + 1),
{
    lemma_weight_step(d, k);
    lemma_weight_step(d, k + 1);
    lemma_weight_positive(d, k + 1);
    let a = d.weight(k) as int;
    let b = d.weight(k + 1) as int;
    let c = d.weight(k + 2) as int;
    let slack = d.total - d.row - d.col;
    let den_here = (k + 1) * (k + 1 + slack);
    let num_here = (d.row - k) * (d.col - k);
    let den_next = (k + 2) * (k + 2 + slack);
    let num_next = (d.row - (k + 1)) * (d.col - (k + 1));
    assert(den_here < den_next) by (nonlinear_arith)
        requires
            den_here == (k + 1) * (k + 1 + slack),
            den_next == (k + 2) * (k + 2 + slack),
            k + 1 > 0,
            k + 1 + slack > 0,
    ;
    assert(0 < num_next < num_here) by (nonlinear_arith)
        requires
            num_here == (d.row - k) * (d.col - k),
            num_next == (d.row - (k + 1)) * (d.col - (k + 1)),
            d.row - (k + 1) > 0,
            d.col - (k + 1) > 0,
    ;
    assert(num_here <= den_here) by (nonlinear_arith)
        requires
            b * den_here == a * num_here,
            0 < b <= a,
            num_here > 0,
    ;
    assert(c < b) by (nonlinear_arith)
        requires
            c * den_next == b * num_next,
            num_next < den_next,
            0 < num_next,
            b > 0,
    ;
}

/// After a pair of neighbours whose weights do not rise, the weights fall
/// strictly all the way to the end of the support.
pub proof fn lemma_falls_after_descent(d: Distribution, j: int, k: int)
    requires
        d.valid(),
        d.contains(j),
        d.contains(k),
        j < k,
        d.weight(j + 1) <= d.weight(j),
    ensures
        d.weight(k) <= d.weight(k - 1),
        d.weight(k) <= d.weight(j + 1),
        k > j + 1 ==> d.weight(k) < d.weight(j + 1),
    decreases k - j,
{
    if k > j + 1 {
        lemma_falls_after_descent(d, j, k - 1);
        lemma_descent_goes_on(d, k - 2);
    }
}

/// Before a pair of neighbours whose weights do not fall, the weights rise
/// strictly all the way from the start of the support.
pub proof fn lemma_rises_before_ascent(d: Distribution, k: int, j: int)
    requires
        d.valid(),
        d.contains(k),
        d.contains(j + 1),
        k < j,
        d.weight(j) <= d.weight(j + 1),
    ensures
        d.weight(k) < d.weight(k + 1),
        d.weight(k) < d.weight(j),
    decreases j - k,
{
    if k + 1 < j {
        lemma_rises_before_ascent(d, k + 1, j);
    }
    if d.weight(k + 1) <= d.weight(k) {
        lemma_descent_goes_on(d, k);
    }
}

/// The weights have no dip: a value that weighs no more than one before it
/// outweighs every value after it.
pub proof fn lemma_no_dip_after(d: Distribution, a: int, k: int, b: int)
    requires
        d.valid(),
        d.contains(a),
        d.contains(b),
        a < k < b,
        d.weight(k) <= d.weight(a),
    ensures
        d.weight(b) < d.weight(k),
    decreases k - a,
{
    if d.weight(k) <= d.weight(k - 1) {
        lemma_falls_after_descent(d, k - 1, b);
    } else {
        lemma_no_dip_after(d, a, k - 1, k);
    }
}

/// The weights have no dip: a value that weighs no more than one after it
/// outweighs every value before it.
pub proof fn lemma_no_dip_before(d: Distribution, a: int, k: int, b: int)
    requires
        d.valid(),
        d.contains(a),
        d.contains(b),
        a < k < b,
        d.weight(k) <= d.weight(b),
    ensures
        d.weight(a) < d.weight(k),
    decreases b - k,
{
    if d.weight(k) <= d.weight(k + 1) {
        lemma_rises_before_ascent(d, a, k);
    } else {
        lemma_no_dip_before(d, k, k + 1, b);
    }
}

/// Every value of the support outweighs all values on one of its sides.
pub proof fn lemma_record_on_one_side(d: Distribution, k: int)
    requires
        d.valid(),
        d.contains(k),
    ensures
        (forall|j: int| d.lo() <= j < k ==> #[trigger] d.weight(j) < d.weight(k)) || (forall|j: int|
            k < j <= d.hi() ==> #[trigger] d.weight(j) < d.weight(k)),
{
    if k > d.lo() && d.weight(k) <= d.weight(k - 1) {
        assert forall|j: int| k < j <= d.hi() implies #[trigger] d.weight(j) < d.weight(k) by {
            lemma_falls_after_descent(d, k - 1, j);
        }
    } else {
        assert forall|j: int| d.lo() <= j < k implies #[trigger] d.weight(j) < d.weight(k) by {
            if j < k - 1 {
                lemma_rises_before_ascent(d, j, k - 1);
            }
        }
    }
}

} // verus!
