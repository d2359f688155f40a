//! The 2x2 contingency table and its margins.

use vstd::prelude::*;
use crate::distribution::Distribution;

verus! {

/// The four cell counts of a table, as mathematical integers.
pub struct Counts {
    pub n11: int,
    pub n12: int,
    pub n21: int,
    pub n22: int,
}

impl Counts {
    /// No cell is negative.
    pub open spec fn valid(self) -> bool {
        self.n11 >= 0 && self.n12 >= 0 && self.n21 >= 0 && self.n22 >= 0
    }

    /// The sum of the four cells.
    pub open spec fn total(self) -> int {
        self.n11 + self.n12 + self.n21 + self.n22
    }

    /// The margins of the table: first row, first column, grand total.
    pub open spec fn margins(self) -> Distribution {
        Distribution { row: self.n11 + self.n12, col: self.n11 + self.n21, total: self.total() }
    }

    /// The table with its two rows in each other's place.
    pub open spec fn swap_rows(self) -> Counts {
        Counts { n11: self.n21, n12: self.n22, n21: self.n11, n22: self.n12 }
    }

    /// The table that has the upper-left cell `n11` under the margins `d`.
    pub open spec fn from_margins(n11: int, d: Distribution) -> Counts {
        Counts {
            n11: n11,
            n12: d.row - n11,
            n21: d.col - n11,
            n22: d.total - d.row - d.col + n11,
        }
    }
}

/// Why four numbers are not a table.
#[derive(Clone, Copy, Debug, PartialEq, Eq, Structural)]
pub enum TableError {
    /// A cell count is negative.
    NegativeCount,
    /// The grand total does not fit the counter type.
    TotalTooLarge,
}

/// A 2x2 contingency table of non-negative counts whose grand total fits an `i32`.
#[derive(Clone, Copy, Debug)]
pub struct Table2x2 {
    n11: i32,
    n12: i32,
    n21: i32,
    n22: i32,
}

/// The margins of a table: `0 <= row <= total` and `0 <= col <= total`.
#[derive(Clone, Copy, Debug)]
pub struct Margins {
    row: i32,
    col: i32,
    total: i32,
}

impl View for Table2x2 {
    type V = Counts;

    closed spec fn view(&self) -> Counts {
        Counts {
            n11: self.n11 as int,
            n12: self.n12 as int,
            n21: self.n21 as int,
            n22: self.n22 as int,
        }
    }
}

impl View for Margins {
    type V = Distribution;

    closed spec fn view(&self) -> Distribution {
        Distribution { row: self.row as int, col: self.col as int, total: self.total as int }
    }
}

impl Table2x2 {
    #[verifier::type_invariant]
    spec fn well_formed(self) -> bool {
        self@.valid() && self@.total() <= i32::MAX
    }

    /// Makes a table of four counts, or says why they are none.
    pub fn new(n11: i32, n12: i32, n21: i32, n22: i32) -> (r: Result<Table2x2, TableError>)
        ensures
            match r {
                Ok(t) => {
                    &&& t@ == (Counts {
                        n11: n11 as int,
                        n12: n12 as int,
                        n21: n21 as int,
                        n22: n22 as int,
                    })
                    &&& t@.valid()
                    &&& t@.total() <= i32::MAX
                },
                Err(TableError::NegativeCount) => n11 < 0 || n12 < 0 || n21 < 0 || n22 < 0,
                Err(TableError::TotalTooLarge) => {
                    &&& n11 >= 0 && n12 >= 0 && n21 >= 0 && n22 >= 0
                    &&& n11 + n12 + n21 + n22 > i32::MAX
                },
            },
    {
        if n11 < 0 || n12 < 0 || n21 < 0 || n22 < 0 {
            return Err(TableError::NegativeCount);
        }
        let sum: i64 = n11 as i64 + n12 as i64 + n21 as i64 + n22 as i64;
        if sum > i32::MAX as i64 {
            return Err(TableError::TotalTooLarge);
        }
        Ok(Table2x2 { n11, n12, n21, n22 })
    }

    /// Makes the table that has the upper-left cell `n11` under the margins
    /// `row`, `col` and `total`; there is one exactly when `n11` lies in the
    /// support of those margins.
    pub fn from_margins(n11: i32, row: i32, col: i32, total: i32) -> (r: Option<Table2x2>)
        ensures
            ({
                let d = Distribution { row: row as int, col: col as int, total: total as int };
                match r {
                    Some(t) => {
                        &&& d.contains(n11 as int)
                        &&& t@ == Counts::from_margins(n11 as int, d)
                        &&& t@.margins() == d
                        &&& t@.valid()
                    },
                    None => !d.contains(n11 as int),
                }
            }),
    {
        let n12: i64 = row as i64 - n11 as i64;
        let n21: i64 = col as i64 - n11 as i64;
        let n22: i64 = total as i64 - row as i64 - col as i64 + n11 as i64;
        if n11 < 0 || n12 < 0 || n21 < 0 || n22 < 0 {
            return None;
        }
        Some(Table2x2 { n11, n12: n12 as i32, n21: n21 as i32, n22: n22 as i32 })
    }

    /// The upper-left cell.
    pub fn n11(&self) -> (r: i32)
        ensures
            r == self@.n11,
            self@.valid(),
    {
        proof {
            use_type_invariant(self);
        }
        self.n11
    }

    /// The upper-right cell.
    pub fn n12(&self) -> (r: i32)
        ensures
            r == self@.n12,
    {
        self.n12
    }

    /// The lower-left cell.
    pub fn n21(&self) -> (r: i32)
        ensures
            r == self@.n21,
    {
        self.n21
    }

    /// The lower-right cell.
    pub fn n22(&self) -> (r: i32)
        ensures
            r == self@.n22,
    {
        self.n22
    }

    /// The margins of the table.
    pub fn margins(&self) -> (m: Margins)
        ensures
            m@ == self@.margins(),
            m@.valid(),
            m@.contains(self@.n11),
            m@.total <= i32::MAX,
    {
        proof {
            use_type_invariant(self);
        }
        Margins {
            row: self.n11 + self.n12,
            col: self.n11 + self.n21,
            total: self.n11 + self.n12 + self.n21 + self.n22,
        }
    }

    /// The table with its two rows in each other's place.
    pub fn swap_rows(&self) -> (t: Table2x2)
        ensures
            t@ == self@.swap_rows(),
    {
        proof {
            use_type_invariant(self);
        }
        Table2x2 { n11: self.n21, n12: self.n22, n21: self.n11, n22: self.n12 }
    }
}

impl Margins {
    #[verifier::type_invariant]
    spec fn well_formed(self) -> bool {
        self@.valid()
    }

    /// Makes margins of three totals; there are such margins exactly when
    /// `0 <= row <= total` and `0 <= col <= total`.
    pub fn new(row: i32, col: i32, total: i32) -> (r: Option<Margins>)
        ensures
            ({
                let d = Distribution { row: row as int, col: col as int, total: total as int };
                match r {
                    Some(m) => m@ == d && d.valid(),
                    None => !d.valid(),
                }
            }),
    {
        if 0 <= row && row <= total && 0 <= col && col <= total {
            Some(Margins { row, col, total })
        } else {
            None
        }
    }

    /// The margins of the table that holds nothing.
    pub fn empty() -> (m: Margins)
        ensures
            m@ == (Distribution { row: 0, col: 0, total: 0 }),
    {
        Margins { row: 0, col: 0, total: 0 }
    }

    /// The total of the first row.
    pub fn row(&self) -> (r: i32)
        ensures
            r == self@.row,
            self@.valid(),
    {
        proof {
            use_type_invariant(self);
        }
        self.row
    }

    /// The total of the first column.
    pub fn col(&self) -> (r: i32)
        ensures
            r == self@.col,
    {
        self.col
    }

    /// The grand total.
    pub fn total(&self) -> (r: i32)
        ensures
            r == self@.total,
    {
        self.total
    }

    /// The least value the upper-left cell can take: `max(0, row + col - total)`.
    pub fn lo(&self) -> (r: i32)
        ensures
            r == self@.lo(),
    {
        proof {
            use_type_invariant(self);
        }
        let least: i64 = self.row as i64 + self.col as i64 - self.total as i64;
        if least < 0 {
            0
        } else {
            least as i32
        }
    }

    /// The greatest value the upper-left cell can take: `min(row, col)`.
    pub fn hi(&self) -> (r: i32)
        ensures
            r == self@.hi(),
    {
        if self.col < self.row {
            self.col
        } else {
            self.row
        }
    }

    /// Whether the margins leave the upper-left cell a single value.
    pub fn is_degenerate(&self) -> (r: bool)
        ensures
            r == self@.degenerate(),
    {
        self.lo() == self.hi()
    }
}

/// The table with its rows in each other's place has the mirrored margins,
/// and its upper-left cell is the mirror image of the old one.
pub proof fn lemma_swap_rows_margins(c: Counts)
    requires
        c.valid(),
    ensures
        c.swap_rows().valid(),
        c.swap_rows().margins() == c.margins().swap_rows(),
        c.swap_rows().n11 == c.margins().col - c.n11,
        c.swap_rows().swap_rows() == c,
        c.margins().valid(),
        c.margins().contains(c.n11),
{
}

} // verus!
