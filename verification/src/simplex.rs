//! The `LinearProgram` data model, its admission checks, and the simplex
//! engine.
//!
//! A `LinearProgram` is admitted only when, in this order: the tableau is
//! non-empty, all rows and the cost/relative-cost/solution vectors share
//! one width, there are no more rows than columns, the leading square
//! block is the identity, the supplied solution is non-negative, only its
//! first M entries are positive, and those entries match the right-hand
//! sides. The first failing check decides the reported error.

use vstd::prelude::*;

use crate::rational::ratio_eq;
use crate::rational::ratio_fits;
use crate::rational::ratio_lt;
use crate::rational::ratio_neg;
use crate::rational::ratio_one;
use crate::rational::ratio_zero;
use crate::rational::Rat;
use crate::rational::Ratio;
use crate::row_arithmetic::lemma_rat_seq_index;
use crate::row_arithmetic::rat_seq;
use crate::row_arithmetic::rat_seq_wf;
use crate::row_arithmetic::row_wf;
use crate::row_arithmetic::Row;
use crate::row_arithmetic::RowV;
use crate::row_arithmetic::SimplexError;
use crate::row_arithmetic::SimplexResult;

verus! {

/// The row views of a vector of rows.
pub open spec fn row_seq(v: Seq<Row>) -> Seq<RowV> {
    Seq::new(v.len(), |i: int| v[i]@)
}

/// Indexing into the view of a row vector reads the row's view.
pub broadcast proof fn lemma_row_seq_index(v: Seq<Row>, k: int)
    requires
        0 <= k < v.len(),
    ensures
        #![trigger row_seq(v)[k]]
        #![trigger row_seq(v), v[k]]
        row_seq(v)[k] == v[k]@,
{
}

/// A standard-form linear program in tableau shape: the constraint rows,
/// the raw objective coefficients, the derived relative-cost row, and a
/// dense primal solution vector.
#[derive(Clone, Debug)]
pub struct LinearProgram {
    pub tableau: Vec<Row>,
    pub costs: Vec<Rat>,
    pub relative_costs: Row,
    pub solution: Vec<Rat>,
}

/// The specification-level value of a `LinearProgram`.
#[verifier::ext_equal]
pub ghost struct LpV {
    pub tableau: Seq<RowV>,
    pub costs: Seq<Ratio>,
    pub relative_costs: RowV,
    pub solution: Seq<Ratio>,
}

impl View for LinearProgram {
    type V = LpV;

    open spec fn view(&self) -> LpV {
        LpV {
            tableau: row_seq(self.tableau@),
            costs: rat_seq(self.costs@),
            relative_costs: self.relative_costs@,
            solution: rat_seq(self.solution@),
        }
    }
}

/// Every rational of the program is well-formed (positive denominator).
pub open spec fn lp_rats_wf(v: LpV) -> bool {
    &&& rat_seq_wf(v.costs)
    &&& rat_seq_wf(v.solution)
    &&& row_wf(v.relative_costs)
    &&& forall|i: int| 0 <= i < v.tableau.len() ==> row_wf(#[trigger] v.tableau[i])
}

/// All tableau rows and the three vectors share the width of the first
/// tableau row.
pub open spec fn lp_lengths_ok(v: LpV) -> bool {
    &&& forall|i: int|
        0 <= i < v.tableau.len() ==> (#[trigger] v.tableau[i]).a.len() == v.tableau[0].a.len()
    &&& v.costs.len() == v.tableau[0].a.len()
    &&& v.relative_costs.a.len() == v.tableau[0].a.len()
    &&& v.solution.len() == v.tableau[0].a.len()
}

/// There are no more rows than columns.
pub open spec fn lp_cols_ok(v: LpV) -> bool {
    v.tableau.len() <= v.tableau[0].a.len()
}

/// The leading M-by-M block of the tableau is the identity matrix.
pub open spec fn lp_identity_ok(v: LpV) -> bool {
    forall|i: int, j: int|
        0 <= i < v.tableau.len() && 0 <= j < v.tableau.len() && j < v.tableau[i].a.len() ==> (if i
            == j {
            ratio_eq(#[trigger] v.tableau[i].a[j], ratio_one())
        } else {
            ratio_eq(v.tableau[i].a[j], ratio_zero())
        })
}

/// No entry of the supplied solution is negative.
pub open spec fn lp_feasible_ok(v: LpV) -> bool {
    forall|k: int| 0 <= k < v.solution.len() ==> !ratio_lt(#[trigger] v.solution[k], ratio_zero())
}

/// Only the first M entries of the supplied solution are positive.
/// A basic value may legitimately be exactly zero under degeneracy, so
/// entries beyond the first M are only required not to be positive, and
/// the alignment check below compares values exactly.
pub open spec fn lp_basic_ok(v: LpV) -> bool {
    &&& v.solution.len() >= v.tableau.len()
    &&& forall|k: int|
        v.tableau.len() <= k < v.solution.len() ==> !ratio_lt(
            ratio_zero(),
            #[trigger] v.solution[k],
        )
}

/// The first M entries of the supplied solution equal the tableau's
/// right-hand sides.
pub open spec fn lp_aligned_ok(v: LpV) -> bool {
    &&& v.solution.len() >= v.tableau.len()
    &&& forall|i: int|
        0 <= i < v.tableau.len() ==> ratio_eq(v.solution[i], (#[trigger] v.tableau[i]).b)
}

/// The admission outcome: the first failing check in the fixed order, or
/// `None` when the program is admitted.
pub open spec fn spec_admission(v: LpV) -> Option<SimplexError> {
    if v.tableau.len() == 0 {
        Some(SimplexError::EmptyTableau)
    } else if !lp_lengths_ok(v) {
        Some(SimplexError::LengthMismatch)
    } else if !lp_cols_ok(v) {
        Some(SimplexError::TooManyColumns)
    } else if !lp_identity_ok(v) {
        Some(SimplexError::MissingIdentityBasis)
    } else if !lp_feasible_ok(v) {
        Some(SimplexError::Infeasible)
    } else if !lp_basic_ok(v) {
        Some(SimplexError::NotBasic)
    } else if !lp_aligned_ok(v) {
        Some(SimplexError::BasisMismatch)
    } else {
        None
    }
}

/// Admission order: an input that breaks both the row/column-count check
/// and the identity check is reported with the row/column-count error,
/// because the checks run in a fixed order and the first failure wins.
pub proof fn lemma_admission_order_too_many_columns(v: LpV)
    requires
        v.tableau.len() > 0,
        lp_lengths_ok(v),
        !lp_cols_ok(v),
        !lp_identity_ok(v),
    ensures
        spec_admission(v) == Some(SimplexError::TooManyColumns),
{
}

impl LinearProgram {
    /// Whether all rows have the width of the first row and the three
    /// vectors share it; errs when the tableau has no first row.
    fn check_row_length(&self) -> (r: Result<bool, SimplexError>)
        ensures
            match r {
                Ok(b) => self@.tableau.len() > 0 && b == lp_lengths_ok(self@),
                Err(e) => e == SimplexError::EmptyTableau && self@.tableau.len() == 0,
            },
    {
        broadcast use lemma_row_seq_index, lemma_rat_seq_index;

        if self.tableau.len() == 0 {
            return Err(SimplexError::EmptyTableau);
        }
        let width: usize = self.tableau[0].a_ij.len();
        let mut same_length = true;
        let mut i: usize = 0;
        while i < self.tableau.len()
            invariant
                0 < self.tableau@.len(),
                i <= self.tableau@.len(),
                width == self@.tableau[0].a.len(),
                same_length == forall|j: int|
                    0 <= j < i as int ==> (#[trigger] self@.tableau[j]).a.len() == width as int,
            decreases self.tableau@.len() - i as int,
        {
            broadcast use lemma_row_seq_index;

            if self.tableau[i].a_ij.len() != width {
                same_length = false;
            }
            i += 1;
        }
        if self.costs.len() != width || self.relative_costs.a_ij.len() != width
            || self.solution.len() != width {
            same_length = false;
        }
        Ok(same_length)
    }

    /// Whether the tableau has at most as many rows as columns.
    fn check_if_rows_is_equal_or_greater_than_columns(&self) -> (r: bool)
        requires
            self@.tableau.len() > 0,
        ensures
            r == lp_cols_ok(self@),
    {
        broadcast use lemma_row_seq_index;

        self.tableau.len() <= self.tableau[0].a_ij.len()
    }

    /// Whether the leading square block of the tableau is the identity.
    fn check_if_matrix_starts_with_identity(&self) -> (r: bool)
        ensures
            r == lp_identity_ok(self@),
    {
        broadcast use lemma_row_seq_index, lemma_rat_seq_index;

        let max_row: usize = self.tableau.len();
        let mut current_row: usize = 0;
        while current_row < self.tableau.len()
            invariant
                max_row == self.tableau@.len(),
                current_row <= max_row,
                forall|i: int, j: int|
                    0 <= i < current_row as int && 0 <= j < max_row as int && j
                        < self@.tableau[i].a.len() ==> (if i == j {
                        ratio_eq(#[trigger] self@.tableau[i].a[j], ratio_one())
                    } else {
                        ratio_eq(self@.tableau[i].a[j], ratio_zero())
                    }),
            decreases self.tableau@.len() - current_row as int,
        {
            broadcast use lemma_row_seq_index, lemma_rat_seq_index;

            let row_len: usize = self.tableau[current_row].a_ij.len();
            let mut current_column: usize = 0;
            while current_column < row_len
                invariant
                    max_row == self.tableau@.len(),
                    current_row < max_row,
                    row_len == self@.tableau[current_row as int].a.len(),
                    current_column <= row_len,
                    forall|i: int, j: int|
                        0 <= i < current_row as int && 0 <= j < max_row as int && j
                            < self@.tableau[i].a.len() ==> (if i == j {
                            ratio_eq(#[trigger] self@.tableau[i].a[j], ratio_one())
                        } else {
                            ratio_eq(self@.tableau[i].a[j], ratio_zero())
                        }),
                    forall|j: int|
                        0 <= j < current_column as int && j < max_row as int ==> (if current_row as int
                            == j {
                            ratio_eq(
                                #[trigger] self@.tableau[current_row as int].a[j],
                                ratio_one(),
                            )
                        } else {
                            ratio_eq(self@.tableau[current_row as int].a[j], ratio_zero())
                        }),
                decreases row_len - current_column as int,
            {
                broadcast use lemma_row_seq_index, lemma_rat_seq_index;

                if current_column < max_row {
                    let entry = self.tableau[current_row].a_ij[current_column];
                    if current_column == current_row && !entry.is_one() {
                        return false;
                    }
                    if current_column != current_row && !entry.is_zero() {
                        return false;
                    }
                }
                current_column += 1;
            }
            current_row += 1;
        }
        true
    }

    /// Whether the supplied solution has no negative entry.
    fn check_if_solution_is_feasible(&self) -> (r: bool)
        requires
            rat_seq_wf(self@.solution),
        ensures
            r == lp_feasible_ok(self@),
    {
        broadcast use lemma_rat_seq_index;

        let mut k: usize = 0;
        let mut feasible = true;
        while k < self.solution.len()
            invariant
                rat_seq_wf(rat_seq(self.solution@)),
                k <= self.solution@.len(),
                feasible == forall|j: int|
                    0 <= j < k as int ==> !ratio_lt(
                        #[trigger] rat_seq(self.solution@)[j],
                        ratio_zero(),
                    ),
            decreases self.solution@.len() - k as int,
        {
            broadcast use lemma_rat_seq_index;

            if self.solution[k].is_negative() {
                feasible = false;
            }
            k += 1;
        }
        feasible
    }

    /// Whether only the first M entries of the supplied solution are
    /// positive.
    fn check_if_the_first_m_are_basic(&self) -> (r: bool)
        requires
            rat_seq_wf(self@.solution),
        ensures
            r == lp_basic_ok(self@),
    {
        broadcast use lemma_rat_seq_index;

        if self.solution.len() < self.tableau.len() {
            return false;
        }
        let mut k: usize = self.tableau.len();
        let mut basic = true;
        while k < self.solution.len()
            invariant
                rat_seq_wf(rat_seq(self.solution@)),
                self.tableau@.len() <= k as int <= self.solution@.len(),
                basic == forall|j: int|
                    self.tableau@.len() <= j < k as int ==> !ratio_lt(
                        ratio_zero(),
                        #[trigger] rat_seq(self.solution@)[j],
                    ),
            decreases self.solution@.len() - k as int,
        {
            broadcast use lemma_rat_seq_index;

            if self.solution[k].is_positive() {
                basic = false;
            }
            k += 1;
        }
        basic
    }

    /// Whether the first M entries of the supplied solution equal the
    /// tableau's right-hand sides.
    fn check_if_b_and_solutions_are_same(&self) -> (r: bool)
        ensures
            r == lp_aligned_ok(self@),
    {
        broadcast use lemma_row_seq_index, lemma_rat_seq_index;

        if self.solution.len() < self.tableau.len() {
            return false;
        }
        let mut i: usize = 0;
        while i < self.tableau.len()
            invariant
                self.tableau@.len() <= self.solution@.len(),
                i <= self.tableau@.len(),
                forall|j: int|
                    0 <= j < i as int ==> ratio_eq(
                        rat_seq(self.solution@)[j],
                        (#[trigger] row_seq(self.tableau@)[j]).b,
                    ),
            decreases self.tableau@.len() - i as int,
        {
            broadcast use lemma_row_seq_index, lemma_rat_seq_index;

            if !self.solution[i].equals(self.tableau[i].b_i) {
                return false;
            }
            i += 1;
        }
        true
    }

    /// Derives the initial relative-cost row from the raw cost vector:
    /// the first M entries are zero (the reduced cost of a basic variable
    /// is zero by construction), the remaining entries are the negated
    /// raw costs, and the constant starts at zero.
    pub fn calculate_costs(&self) -> (r: Result<Row, SimplexError>)
        requires
            rat_seq_wf(self@.costs),
        ensures
            match r {
                Ok(row) => {
                    &&& row@.a.len() == self@.costs.len()
                    &&& row@.b == ratio_zero()
                    &&& row_wf(row@)
                    &&& row@ == initial_relative_costs(self@)
                    &&& forall|k: int|
                        0 <= k < self@.costs.len() ==> #[trigger] row@.a[k] == (if k
                            < self@.tableau.len() {
                            ratio_zero()
                        } else {
                            ratio_neg(self@.costs[k])
                        })
                },
                Err(e) => e == SimplexError::Overflow && !(forall|k: int|
                    self@.tableau.len() <= k < self@.costs.len() ==> ratio_fits(
                        ratio_neg(#[trigger] self@.costs[k]),
                    )),
            },
    {
        broadcast use lemma_rat_seq_index;

        let mut entries: Vec<Rat> = Vec::new();
        let mut k: usize = 0;
        while k < self.costs.len()
            invariant
                rat_seq_wf(rat_seq(self.costs@)),
                k <= self.costs@.len(),
                entries@.len() == k as int,
                forall|j: int|
                    0 <= j < k as int ==> #[trigger] entries@[j]@ == (if j
                        < self.tableau@.len() {
                        ratio_zero()
                    } else {
                        ratio_neg(rat_seq(self.costs@)[j])
                    }) && entries@[j].wf(),
            decreases self.costs@.len() - k as int,
        {
            broadcast use lemma_rat_seq_index;

            if k < self.tableau.len() {
                entries.push(Rat::zero());
            } else {
                let negated = match self.costs[k].checked_neg() {
                    Some(x) => x,
                    None => {
                        proof {
                            assert(self@.tableau.len() <= k as int && (k as int)
                                < self@.costs.len() && !ratio_fits(
                                ratio_neg(self@.costs[k as int]),
                            ));
                        }
                        return Err(SimplexError::Overflow);
                    },
                };
                entries.push(negated);
            }
            k += 1;
        }
        let row = Row { a_ij: entries, b_i: Rat::zero() };
        proof {
            assert forall|j: int| 0 <= j < self@.costs.len() implies #[trigger] row@.a[j] == (if j
                < self@.tableau.len() {
                ratio_zero()
            } else {
                ratio_neg(self@.costs[j])
            }) by {}
            assert(row@ =~= initial_relative_costs(self@));
        }
        Ok(row)
    }
}

/// Column `c` has a strictly negative relative cost: bringing it into
/// the basis improves the objective.
pub open spec fn negative_cost_col(v: LpV, c: int) -> bool {
    ratio_lt(v.relative_costs.a[c], ratio_zero())
}

/// Row `j` can limit entering column `c`: its entry there is strictly
/// positive.
pub open spec fn eligible(v: LpV, j: int, c: int) -> bool {
    0 <= j < v.tableau.len() && crate::pivot::row_positive(v.tableau[j], c)
}

pub open spec fn has_eligible(v: LpV, c: int) -> bool {
    exists|j: int| eligible(v, j, c)
}

/// Two distinct eligible rows that the lexicographic comparison cannot
/// separate.
pub open spec fn has_tied_pair(v: LpV, c: int) -> bool {
    exists|j: int, k: int|
        eligible(v, j, c) && eligible(v, k, c) && j != k && crate::pivot::lex_tie(
            v.tableau[j],
            v.tableau[k],
            c,
        )
}

/// Column `c` yields no pivot row: either no row is eligible, or the
/// scan may run into a tied (linearly dependent) pair.
pub open spec fn column_failed(v: LpV, c: int) -> bool {
    !has_eligible(v, c) || has_tied_pair(v, c)
}

/// The invariants the iteration itself relies on: well-formed rationals
/// everywhere and one shared width between the tableau rows and the
/// relative-cost row.
pub open spec fn lp_engine_wf(v: LpV) -> bool {
    &&& row_wf(v.relative_costs)
    &&& forall|i: int| 0 <= i < v.tableau.len() ==> row_wf(#[trigger] v.tableau[i])
    &&& forall|i: int|
        0 <= i < v.tableau.len() ==> (#[trigger] v.tableau[i]).a.len()
            == v.relative_costs.a.len()
}

impl LinearProgram {
    /// All columns with strictly negative relative cost, in ascending
    /// index order.
    fn get_all_negative_cost_rows(&self) -> (r: Vec<usize>)
        requires
            row_wf(self@.relative_costs),
        ensures
            forall|p: int|
                0 <= p < r@.len() ==> ((#[trigger] r@[p]) as int) < self@.relative_costs.a.len()
                    && negative_cost_col(self@, r@[p] as int),
            forall|p: int, q: int| 0 <= p < q < r@.len() ==> r@[p] < r@[q],
            forall|c: usize|
                (c as int) < self@.relative_costs.a.len() && negative_cost_col(self@, c as int)
                    ==> r@.contains(c),
    {
        broadcast use lemma_rat_seq_index;

        let mut found: Vec<usize> = Vec::new();
        let mut c: usize = 0;
        while c < self.relative_costs.a_ij.len()
            invariant
                row_wf(self.relative_costs@),
                c <= self.relative_costs@.a.len(),
                forall|p: int|
                    0 <= p < found@.len() ==> ((#[trigger] found@[p]) as int) < c as int
                        && negative_cost_col(self@, found@[p] as int),
                forall|p: int, q: int| 0 <= p < q < found@.len() ==> found@[p] < found@[q],
                forall|d: usize|
                    (d as int) < c as int && negative_cost_col(self@, d as int) ==> found@.contains(
                        d,
                    ),
            decreases self.relative_costs@.a.len() - c as int,
        {
            broadcast use lemma_rat_seq_index;

            if self.relative_costs.a_ij[c].is_negative() {
                let ghost prior = found@;
                found.push(c);
                proof {
                    assert forall|d: usize|
                        (d as int) < c as int + 1 && negative_cost_col(
                            self@,
                            d as int,
                        ) implies found@.contains(d) by {
                        if (d as int) < c as int {
                            let idx = choose|i: int| 0 <= i < prior.len() && prior[i] == d;
                            assert(found@[idx] == d);
                        } else {
                            assert(found@[prior.len() as int] == c);
                        }
                    }
                }
            }
            c += 1;
        }
        found
    }

    /// Finds the lexicographically smallest eligible row for the given
    /// entering column: among the rows with strictly positive entry in
    /// that column, the one whose minimum ratio (with column ratios as
    /// tie-break) is strictly below every other's.
    pub fn find_lexicographically_lowest_row(&self, divider_column: usize) -> (r: Result<
        usize,
        SimplexError,
    >)
        requires
            lp_engine_wf(self@),
            (divider_column as int) < self@.relative_costs.a.len(),
        ensures
            match r {
                Ok(i) => eligible(self@, i as int, divider_column as int) && forall|j: int|
                    eligible(self@, j, divider_column as int) && j != i as int
                        ==> crate::pivot::lex_lt(
                        self@.tableau[i as int],
                        #[trigger] self@.tableau[j],
                        divider_column as int,
                    ),
                Err(e) => (e == SimplexError::NoPositiveEntry && !has_eligible(
                    self@,
                    divider_column as int,
                )) || (e == SimplexError::LinearlyDependentRows && has_tied_pair(
                    self@,
                    divider_column as int,
                )),
            },
    {
        broadcast use lemma_row_seq_index;

        let ghost div = divider_column as int;
        let _row_count: usize = self.tableau.len();
        let mut current_lowest_row: usize = match crate::pivot::find_first_row_with_positive_a(
            &self.tableau,
            0,
            divider_column,
        ) {
            Ok(number) => number,
            Err(_) => {
                return Err(SimplexError::NoPositiveEntry);
            },
        };
        let mut current_comparing_row: usize = match crate::pivot::find_first_row_with_positive_a(
            &self.tableau,
            current_lowest_row + 1,
            divider_column,
        ) {
            Ok(number) => number,
            Err(_) => {
                return Ok(current_lowest_row);
            },
        };
        while current_comparing_row < self.tableau.len()
            invariant
                lp_engine_wf(self@),
                div == divider_column as int,
                div < self@.relative_costs.a.len(),
                eligible(self@, current_lowest_row as int, div),
                eligible(self@, current_comparing_row as int, div),
                current_lowest_row < current_comparing_row,
                (current_comparing_row as int) < self@.tableau.len(),
                forall|j: int|
                    eligible(self@, j, div) && j < current_comparing_row as int && j
                        != current_lowest_row as int ==> crate::pivot::lex_lt(
                        self@.tableau[current_lowest_row as int],
                        #[trigger] self@.tableau[j],
                        div,
                    ),
            decreases self@.tableau.len() - current_comparing_row as int,
        {
            broadcast use lemma_row_seq_index;

            let lexicographic_comparison = match crate::pivot::compare_lexicographic_value_start(
                &self.tableau[current_lowest_row],
                &self.tableau[current_comparing_row],
                divider_column,
            ) {
                Ok(b) => b,
                Err(_) => {
                    proof {
                        assert(eligible(self@, current_lowest_row as int, div) && eligible(
                            self@,
                            current_comparing_row as int,
                            div,
                        ) && current_lowest_row != current_comparing_row
                            && crate::pivot::lex_tie(
                            self@.tableau[current_lowest_row as int],
                            self@.tableau[current_comparing_row as int],
                            div,
                        ));
                    }
                    return Err(SimplexError::LinearlyDependentRows);
                },
            };
            if lexicographic_comparison {
                proof {
                    let ghost old_lowest = current_lowest_row as int;
                    let ghost comparing = current_comparing_row as int;
                    crate::pivot::lemma_lex_start_flip(
                        self@.tableau[old_lowest],
                        self@.tableau[comparing],
                        div,
                    );
                    assert forall|j: int|
                        eligible(self@, j, div) && j < comparing && j
                            != comparing implies crate::pivot::lex_lt(
                        self@.tableau[comparing],
                        #[trigger] self@.tableau[j],
                        div,
                    ) by {
                        if j == old_lowest {
                        } else {
                            crate::pivot::lemma_lex_lt_trans(
                                self@.tableau[comparing],
                                self@.tableau[old_lowest],
                                self@.tableau[j],
                                div,
                            );
                        }
                    }
                }
                current_lowest_row = current_comparing_row;
            }
            current_comparing_row = match crate::pivot::find_first_row_with_positive_a(
                &self.tableau,
                current_comparing_row + 1,
                divider_column,
            ) {
                Ok(number) => number,
                Err(_) => {
                    return Ok(current_lowest_row);
                },
            };
        }
        Ok(current_lowest_row)
    }

    /// Tries the candidate columns in the given order and returns the
    /// first one that admits a pivot row, together with that row.
    fn select_row_to_reduce_by(&self, negative_indices: &Vec<usize>) -> (r: Result<
        (usize, usize),
        SimplexError,
    >)
        requires
            lp_engine_wf(self@),
            forall|p: int|
                0 <= p < negative_indices@.len() ==> ((#[trigger] negative_indices@[p]) as int)
                    < self@.relative_costs.a.len(),
        ensures
            match r {
                Ok(pair) => {
                    &&& (pair.1 as int) < self@.relative_costs.a.len()
                    &&& eligible(self@, pair.0 as int, pair.1 as int)
                    &&& forall|j: int|
                        eligible(self@, j, pair.1 as int) && j != pair.0 as int
                            ==> crate::pivot::lex_lt(
                            self@.tableau[pair.0 as int],
                            #[trigger] self@.tableau[j],
                            pair.1 as int,
                        )
                    &&& exists|p: int|
                        0 <= p < negative_indices@.len() && negative_indices@[p] == pair.1
                            && forall|q: int|
                            0 <= q < p ==> column_failed(
                                self@,
                                (#[trigger] negative_indices@[q]) as int,
                            )
                },
                Err(e) => e == SimplexError::NoViableRow && forall|p: int|
                    0 <= p < negative_indices@.len() ==> column_failed(
                        self@,
                        (#[trigger] negative_indices@[p]) as int,
                    ),
            },
    {
        let mut p: usize = 0;
        while p < negative_indices.len()
            invariant
                lp_engine_wf(self@),
                forall|q: int|
                    0 <= q < negative_indices@.len() ==> ((#[trigger] negative_indices@[q]) as int)
                        < self@.relative_costs.a.len(),
                p <= negative_indices@.len(),
                forall|q: int|
                    0 <= q < p as int ==> column_failed(
                        self@,
                        (#[trigger] negative_indices@[q]) as int,
                    ),
            decreases negative_indices@.len() - p as int,
        {
            let index: usize = negative_indices[p];
            match self.find_lexicographically_lowest_row(index) {
                Ok(row) => {
                    return Ok((row, index));
                },
                Err(_) => {},
            }
            p += 1;
        }
        Err(SimplexError::NoViableRow)
    }
}

/// The relative-cost row the engine starts from: zero for the first M
/// (basic) columns, the negated raw cost elsewhere, and a zero constant.
pub open spec fn initial_relative_costs(v: LpV) -> RowV {
    RowV {
        a: Seq::new(
            v.costs.len(),
            |k: int|
                if k < v.tableau.len() {
                    ratio_zero()
                } else {
                    ratio_neg(v.costs[k])
                },
        ),
        b: ratio_zero(),
    }
}

/// The program as the engine first sees it: the supplied relative-cost
/// row replaced by the derived one.
pub open spec fn with_initial_costs(v: LpV) -> LpV {
    LpV {
        tableau: v.tableau,
        costs: v.costs,
        relative_costs: initial_relative_costs(v),
        solution: v.solution,
    }
}

/// The pivot the iteration takes in state `v`: `pc` is the first
/// negative-cost column whose candidates are not all ruled out, and
/// `pr` is the lexicographically smallest eligible row for it.
pub open spec fn chosen_pivot(v: LpV, pr: int, pc: int) -> bool {
    &&& 0 <= pr < v.tableau.len()
    &&& 0 <= pc < v.relative_costs.a.len()
    &&& negative_cost_col(v, pc)
    &&& forall|c: int| 0 <= c < pc && negative_cost_col(v, c) ==> column_failed(v, c)
    &&& eligible(v, pr, pc)
    &&& forall|j: int|
        eligible(v, j, pc) && j != pr ==> crate::pivot::lex_lt(
            v.tableau[pr],
            #[trigger] v.tableau[j],
            pc,
        )
}

/// Every intermediate value of the whole pivot at `(pr, pc)` stays in
/// the representable range: normalizing the pivot row fits, and so does
/// eliminating the column from every other row and from the cost row.
pub open spec fn pivot_fits(v: LpV, pr: int, pc: int) -> bool {
    let norm = crate::row_arithmetic::normalize_spec(v.tableau[pr], pc);
    &&& crate::row_arithmetic::normalize_fits(v.tableau[pr], pc)
    &&& forall|i: int|
        0 <= i < v.tableau.len() && i != pr ==> crate::row_arithmetic::reduce_fits(
            #[trigger] v.tableau[i],
            norm,
            pc,
        )
    &&& crate::row_arithmetic::reduce_fits(v.relative_costs, norm, pc)
}

/// One whole pivot at `(pr, pc)`: the pivot row is normalized so that
/// its `pc` entry becomes one, then `pc` is eliminated from every other
/// tableau row and from the relative-cost row, all against the
/// post-normalization pivot row. Costs and solution are untouched.
pub open spec fn pivot_step(v: LpV, pr: int, pc: int) -> LpV {
    let norm = crate::row_arithmetic::normalize_spec(v.tableau[pr], pc);
    LpV {
        tableau: Seq::new(
            v.tableau.len(),
            |i: int|
                if i == pr {
                    norm
                } else {
                    crate::row_arithmetic::reduce_spec(v.tableau[i], norm, pc)
                },
        ),
        costs: v.costs,
        relative_costs: crate::row_arithmetic::reduce_spec(v.relative_costs, norm, pc),
        solution: v.solution,
    }
}

/// State `v` arises from `v0` by a chain of `n` pivots, each taken at
/// the column/row the lexicographic rule chooses and each staying inside
/// the representable range.
pub open spec fn reaches(v0: LpV, v: LpV, n: nat) -> bool
    decreases n,
{
    if n == 0 {
        v == v0
    } else {
        exists|w: LpV, pr: int, pc: int|
            reaches(v0, w, (n - 1) as nat) && #[trigger] chosen_pivot(w, pr, pc) && pivot_fits(
                w,
                pr,
                pc,
            ) && v == pivot_step(w, pr, pc)
    }
}

/// A value copy of a row; the pivot row is snapshotted like this before
/// it is used to eliminate every other row.
pub(crate) fn copy_row(row: &Row) -> (r: Row)
    ensures
        r@ == row@,
{
    broadcast use lemma_rat_seq_index;

    let mut entries: Vec<Rat> = Vec::new();
    let mut k: usize = 0;
    while k < row.a_ij.len()
        invariant
            k <= row.a_ij@.len(),
            entries@.len() == k as int,
            forall|j: int| 0 <= j < k as int ==> #[trigger] entries@[j] == row.a_ij@[j],
        decreases row.a_ij@.len() - k as int,
    {
        entries.push(row.a_ij[k]);
        k += 1;
    }
    let r = Row { a_ij: entries, b_i: row.b_i };
    proof {
        assert(r@ =~= row@);
    }
    r
}

impl LinearProgram {
    /// One simplex iteration: no negative relative cost means the
    /// program is optimal; otherwise the candidate columns are scanned in
    /// ascending order, the first that admits a pivot row is pivoted on,
    /// and if none does the program is unbounded.
    pub fn simplex_iteration(&mut self) -> (r: SimplexResult)
        requires
            lp_engine_wf(old(self)@),
        ensures
            lp_engine_wf(final(self)@),
            final(self)@.costs == old(self)@.costs,
            final(self)@.solution == old(self)@.solution,
            final(self)@.tableau.len() == old(self)@.tableau.len(),
            final(self)@.relative_costs.a.len() == old(self)@.relative_costs.a.len(),
            match r {
                SimplexResult::Finished => final(self)@ == old(self)@ && forall|c: int|
                    0 <= c < old(self)@.relative_costs.a.len() ==> !negative_cost_col(
                        old(self)@,
                        c,
                    ),
                SimplexResult::Unbound => final(self)@ == old(self)@ && (exists|c: int|
                    0 <= c < old(self)@.relative_costs.a.len() && negative_cost_col(old(self)@, c))
                    && (forall|c: int|
                    0 <= c < old(self)@.relative_costs.a.len() && negative_cost_col(old(self)@, c)
                        ==> column_failed(old(self)@, c)),
                SimplexResult::IterationComplete => exists|pr: int, pc: int|
                    {
                        &&& #[trigger] chosen_pivot(old(self)@, pr, pc)
                        &&& pivot_fits(old(self)@, pr, pc)
                        &&& final(self)@ == pivot_step(old(self)@, pr, pc)
                    },
                SimplexResult::Error(e) => e == SimplexError::Overflow && (exists|pr: int, pc: int|
                    #[trigger] chosen_pivot(old(self)@, pr, pc) && !pivot_fits(
                        old(self)@,
                        pr,
                        pc,
                    )),
            },
            (forall|c: int|
                0 <= c < old(self)@.relative_costs.a.len() ==> !negative_cost_col(old(self)@, c))
                ==> r == SimplexResult::Finished,
    {
        broadcast use lemma_row_seq_index;

        let _width: usize = self.relative_costs.a_ij.len();
        let negative_indices = self.get_all_negative_cost_rows();
        if negative_indices.len() == 0 {
            proof {
                assert forall|c: int|
                    0 <= c < self@.relative_costs.a.len() implies !negative_cost_col(
                    self@,
                    c,
                ) by {
                    if negative_cost_col(self@, c) {
                        assert(negative_indices@.contains(c as usize));
                    }
                }
            }
            return SimplexResult::Finished;
        }
        let (reduction_row, column) = match self.select_row_to_reduce_by(&negative_indices) {
            Ok(row_result) => row_result,
            Err(_) => {
                proof {
                    assert(negative_cost_col(self@, negative_indices@[0] as int));
                    assert forall|c: int|
                        0 <= c < self@.relative_costs.a.len() && negative_cost_col(
                            self@,
                            c,
                        ) implies column_failed(self@, c) by {
                        assert(negative_indices@.contains(c as usize));
                        let p = choose|p: int|
                            0 <= p < negative_indices@.len() && negative_indices@[p] == c as usize;
                        assert(column_failed(self@, (negative_indices@[p]) as int));
                    }
                }
                return SimplexResult::Unbound;
            },
        };
        let ghost pre = old(self)@;
        let ghost pr = reduction_row as int;
        let ghost pc = column as int;
        proof {
            let p = choose|p: int|
                0 <= p < negative_indices@.len() && negative_indices@[p] == column && (forall|
                    q2: int,
                |
                    0 <= q2 < p ==> column_failed(pre, (#[trigger] negative_indices@[q2]) as int));
            assert(negative_cost_col(pre, pc));
            assert forall|c: int|
                0 <= c < pc && negative_cost_col(pre, c) implies column_failed(pre, c) by {
                assert(negative_indices@.contains(c as usize));
                let q = choose|q: int|
                    0 <= q < negative_indices@.len() && negative_indices@[q] == c as usize;
                if q < p {
                    assert(column_failed(pre, (negative_indices@[q]) as int));
                } else if p < q {
                    assert(negative_indices@[p] < negative_indices@[q]);
                }
            }
            assert(chosen_pivot(pre, pr, pc));
        }
        let mut pivot_row = copy_row(&self.tableau[reduction_row]);
        match pivot_row.reduce_row_till_column_one(column) {
            Ok(_) => {},
            Err(e) => {
                proof {
                    assert(e == SimplexError::Overflow);
                    assert(!crate::row_arithmetic::normalize_fits(pre.tableau[pr], pc));
                    assert(!pivot_fits(pre, pr, pc));
                }
                return SimplexResult::Error(SimplexError::Overflow);
            },
        }
        let ghost norm = crate::row_arithmetic::normalize_spec(pre.tableau[pr], pc);
        let cloned_reduction_row = copy_row(&pivot_row);
        self.tableau.set(reduction_row, pivot_row);
        let mut i: usize = 0;
        while i < self.tableau.len()
            invariant
                lp_engine_wf(pre),
                pre == old(self)@,
                pr == reduction_row as int,
                pc == column as int,
                0 <= pr < pre.tableau.len(),
                0 <= pc < pre.relative_costs.a.len(),
                chosen_pivot(pre, pr, pc),
                crate::row_arithmetic::normalize_fits(pre.tableau[pr], pc),
                self.tableau@.len() == pre.tableau.len(),
                self.costs@ == old(self).costs@,
                self.solution@ == old(self).solution@,
                self.relative_costs == old(self).relative_costs,
                norm == crate::row_arithmetic::normalize_spec(pre.tableau[pr], pc),
                row_wf(norm),
                norm.a.len() == pre.relative_costs.a.len(),
                norm.a[pc] == ratio_one(),
                cloned_reduction_row@ == norm,
                i <= self.tableau@.len(),
                self@.tableau[pr] == norm,
                forall|j: int|
                    0 <= j < self.tableau@.len() && j != pr ==> row_wf(#[trigger] self@.tableau[j])
                        && self@.tableau[j].a.len() == pre.relative_costs.a.len(),
                forall|j: int|
                    0 <= j < i as int && j != pr ==> #[trigger] self@.tableau[j]
                        == crate::row_arithmetic::reduce_spec(pre.tableau[j], norm, pc),
                forall|j: int|
                    0 <= j < i as int && j != pr ==> crate::row_arithmetic::reduce_fits(
                        #[trigger] pre.tableau[j],
                        norm,
                        pc,
                    ),
                forall|j: int|
                    i as int <= j < self.tableau@.len() && j != pr ==> #[trigger] self@.tableau[j]
                        == pre.tableau[j],
            decreases self.tableau@.len() - i as int,
        {
            broadcast use lemma_row_seq_index;

            if i != reduction_row {
                let mut row = copy_row(&self.tableau[i]);
                proof {
                    assert(row@ == self@.tableau[i as int]);
                    assert(row@.a.len() == cloned_reduction_row@.a.len());
                    assert(!ratio_eq(cloned_reduction_row@.a[column as int], ratio_zero()));
                }
                match row.reduce_row(&cloned_reduction_row, column) {
                    Ok(_) => {},
                    Err(e) => {
                        proof {
                            assert(e == SimplexError::Overflow);
                            assert(!crate::row_arithmetic::reduce_fits(
                                pre.tableau[i as int],
                                norm,
                                pc,
                            ));
                            assert(!pivot_fits(pre, pr, pc));
                        }
                        return SimplexResult::Error(SimplexError::Overflow);
                    },
                }
                self.tableau.set(i, row);
                proof {
                    assert(self@.tableau[i as int] == row@);
                    assert(self@.tableau[pr] == norm);
                }
            }
            i += 1;
        }
        proof {
            assert(self.relative_costs@.a.len() == cloned_reduction_row@.a.len());
            assert(!ratio_eq(cloned_reduction_row@.a[column as int], ratio_zero()));
        }
        match self.relative_costs.reduce_row(&cloned_reduction_row, column) {
            Ok(_) => {},
            Err(e) => {
                proof {
                    assert(e == SimplexError::Overflow);
                    assert(!crate::row_arithmetic::reduce_fits(pre.relative_costs, norm, pc));
                    assert(!pivot_fits(pre, pr, pc));
                }
                return SimplexResult::Error(SimplexError::Overflow);
            },
        }
        proof {
            assert(pivot_fits(pre, pr, pc));
            assert(self@.tableau =~= pivot_step(pre, pr, pc).tableau);
            assert(self@ =~= pivot_step(pre, pr, pc));
        }
        SimplexResult::IterationComplete
    }
}

/// The number of ways to choose `k` of `n` columns: the count of
/// distinct bases an `n`-column, `k`-row tableau can have.
pub open spec fn spec_binomial(n: nat, k: nat) -> nat
    decreases n, k,
{
    if k == 0 {
        1
    } else if n == 0 {
        0
    } else {
        spec_binomial((n - 1) as nat, (k - 1) as nat) + spec_binomial((n - 1) as nat, k)
    }
}

/// A sum clipped to the `u64` range.
pub open spec fn sat64(x: nat) -> nat {
    if x > u64::MAX as nat {
        u64::MAX as nat
    } else {
        x
    }
}

/// Computes the binomial coefficient, clipped to the `u64` range.
fn binomial_saturating(n: usize, k: usize) -> (r: u64)
    ensures
        r as nat == sat64(spec_binomial(n as nat, k as nat)),
{
    let mut values: Vec<u64> = Vec::new();
    while values.len() <= k
        invariant
            values@.len() <= k as int + 1,
            forall|t: int|
                0 <= t < values@.len() ==> (#[trigger] values@[t]) as nat == sat64(
                    spec_binomial(0, t as nat),
                ),
        decreases k as int + 1 - values@.len(),
    {
        if values.len() == 0 {
            values.push(1u64);
        } else {
            values.push(0u64);
        }
    }
    let mut i: usize = 0;
    while i < n
        invariant
            i <= n,
            values@.len() == k as int + 1,
            forall|t: int|
                0 <= t <= k as int ==> (#[trigger] values@[t]) as nat == sat64(
                    spec_binomial(i as nat, t as nat),
                ),
        decreases n as int - i as int,
    {
        let mut next: Vec<u64> = Vec::new();
        while next.len() <= k
            invariant
                i < n,
                values@.len() == k as int + 1,
                forall|t: int|
                    0 <= t <= k as int ==> (#[trigger] values@[t]) as nat == sat64(
                        spec_binomial(i as nat, t as nat),
                    ),
                next@.len() <= k as int + 1,
                forall|t: int|
                    0 <= t < next@.len() ==> (#[trigger] next@[t]) as nat == sat64(
                        spec_binomial(i as nat + 1, t as nat),
                    ),
            decreases k as int + 1 - next@.len(),
        {
            let j: usize = next.len();
            if j == 0 {
                next.push(1u64);
            } else {
                let above_left: u64 = values[j - 1];
                let above: u64 = values[j];
                let summed: u64 = if above_left > u64::MAX - above {
                    u64::MAX
                } else {
                    above_left + above
                };
                proof {
                    assert(summed as nat == sat64(
                        sat64(spec_binomial(i as nat, (j - 1) as nat)) + sat64(
                            spec_binomial(i as nat, j as nat),
                        ),
                    ));
                }
                next.push(summed);
            }
        }
        values = next;
        i += 1;
    }
    values[k]
}

impl LinearProgram {
    /// Drives simplex iterations until a terminal outcome. The loop
    /// allows one iteration per distinct basis — the binomial count of
    /// the tableau's columns over its rows, plus one — which the
    /// lexicographic pivot rule never exhausts on a validated, bounded
    /// program.
    pub fn preform_simplex(&mut self) -> (r: SimplexResult)
        requires
            lp_engine_wf(old(self)@),
        ensures
            lp_engine_wf(final(self)@),
            final(self)@.costs == old(self)@.costs,
            final(self)@.solution == old(self)@.solution,
            final(self)@.tableau.len() == old(self)@.tableau.len(),
            final(self)@.relative_costs.a.len() == old(self)@.relative_costs.a.len(),
            r != SimplexResult::IterationComplete,
            match r {
                SimplexResult::Finished => forall|c: int|
                    0 <= c < final(self)@.relative_costs.a.len() ==> !negative_cost_col(
                        final(self)@,
                        c,
                    ),
                SimplexResult::Unbound => (exists|c: int|
                    0 <= c < final(self)@.relative_costs.a.len() && negative_cost_col(
                        final(self)@,
                        c,
                    )) && forall|c: int|
                    0 <= c < final(self)@.relative_costs.a.len() && negative_cost_col(
                        final(self)@,
                        c,
                    ) ==> column_failed(final(self)@, c),
                SimplexResult::IterationComplete => false,
                SimplexResult::Error(e) => e == SimplexError::Overflow || e
                    == SimplexError::IterationLimit,
            },
            (forall|c: int|
                0 <= c < old(self)@.relative_costs.a.len() ==> !negative_cost_col(old(self)@, c))
                ==> r == SimplexResult::Finished && final(self)@ == old(self)@,
            r == SimplexResult::Finished || r == SimplexResult::Unbound ==> exists|n: nat|
                reaches(old(self)@, final(self)@, n),
            r == SimplexResult::Error(SimplexError::Overflow) ==> exists|
                n: nat,
                w: LpV,
                pr: int,
                pc: int,
            |
                #![trigger reaches(old(self)@, w, n), chosen_pivot(w, pr, pc)]
                reaches(old(self)@, w, n) && chosen_pivot(w, pr, pc) && !pivot_fits(w, pr, pc),
            r == SimplexResult::Error(SimplexError::IterationLimit) ==> exists|n: nat|
                reaches(old(self)@, final(self)@, n) && (n > spec_binomial(
                    old(self)@.relative_costs.a.len(),
                    old(self)@.tableau.len(),
                ) || n >= u64::MAX as nat),
    {
        let bound: u64 = binomial_saturating(self.relative_costs.a_ij.len(), self.tableau.len());
        let mut fuel: u64 = if bound == u64::MAX {
            bound
        } else {
            bound + 1
        };
        let ghost fuel0 = fuel as nat;
        proof {
            assert(reaches(old(self)@, self@, 0));
        }
        while fuel > 0
            invariant
                lp_engine_wf(self@),
                self@.costs == old(self)@.costs,
                self@.solution == old(self)@.solution,
                self@.tableau.len() == old(self)@.tableau.len(),
                self@.relative_costs.a.len() == old(self)@.relative_costs.a.len(),
                (forall|c: int|
                    0 <= c < old(self)@.relative_costs.a.len() ==> !negative_cost_col(
                        old(self)@,
                        c,
                    )) ==> self@ == old(self)@ && fuel >= 1,
                exists|n: nat| #[trigger] reaches(old(self)@, self@, n) && n + fuel as nat == fuel0,
            decreases fuel,
        {
            let ghost prev = self@;
            let ghost steps = choose|n: nat|
                #[trigger] reaches(old(self)@, prev, n) && n + fuel as nat == fuel0;
            match self.simplex_iteration() {
                SimplexResult::Finished => {
                    proof {
                        assert(reaches(old(self)@, self@, steps));
                    }
                    return SimplexResult::Finished;
                },
                SimplexResult::Unbound => {
                    proof {
                        assert(reaches(old(self)@, self@, steps));
                    }
                    return SimplexResult::Unbound;
                },
                SimplexResult::IterationComplete => {
                    proof {
                        let (pr, pc) = choose|pr: int, pc: int|
                            #[trigger] chosen_pivot(prev, pr, pc) && pivot_fits(prev, pr, pc)
                                && self@ == pivot_step(prev, pr, pc);
                        assert(reaches(old(self)@, prev, steps) && chosen_pivot(prev, pr, pc)
                            && pivot_fits(prev, pr, pc) && self@ == pivot_step(prev, pr, pc));
                        assert(reaches(old(self)@, self@, steps + 1));
                    }
                },
                SimplexResult::Error(error) => {
                    proof {
                        let (pr, pc) = choose|pr: int, pc: int|
                            #[trigger] chosen_pivot(prev, pr, pc) && !pivot_fits(prev, pr, pc);
                        assert(reaches(old(self)@, prev, steps) && chosen_pivot(prev, pr, pc)
                            && !pivot_fits(prev, pr, pc));
                    }
                    return SimplexResult::Error(error);
                },
            }
            fuel -= 1;
        }
        proof {
            assert(exists|n: nat|
                #[trigger] reaches(old(self)@, self@, n) && n + fuel as nat == fuel0);
        }
        SimplexResult::Error(SimplexError::IterationLimit)
    }
}

/// Column `c` has a relative cost of exactly zero.
pub open spec fn zero_rel_cost(v: LpV, c: int) -> bool {
    ratio_eq(v.relative_costs.a[c], ratio_zero())
}

/// Tableau row `i` holds exactly one in column `c`.
pub open spec fn unit_entry(v: LpV, i: int, c: int) -> bool {
    ratio_eq(v.tableau[i].a[c], ratio_one())
}

impl LinearProgram {
    /// The (row, column) positions of the final basis: for every column
    /// with zero relative cost, the single tableau row holding one
    /// there. A second such row in the same column is a structural
    /// violation.
    fn get_all_e_i(&self) -> (r: Result<Vec<crate::row_arithmetic::Position>, SimplexError>)
        requires
            lp_engine_wf(self@),
        ensures
            match r {
                Ok(ps) => {
                    &&& forall|p: int|
                        0 <= p < ps@.len() ==> ((#[trigger] ps@[p]).row as int)
                            < self@.tableau.len() && (ps@[p].column as int)
                            < self@.relative_costs.a.len() && zero_rel_cost(
                            self@,
                            ps@[p].column as int,
                        ) && unit_entry(self@, ps@[p].row as int, ps@[p].column as int)
                    &&& forall|p: int, q: int|
                        0 <= p < q < ps@.len() ==> ps@[p].column != ps@[q].column
                    &&& forall|i: int, c: int|
                        0 <= i < self@.tableau.len() && 0 <= c < self@.relative_costs.a.len()
                            && zero_rel_cost(self@, c) && unit_entry(self@, i, c)
                            ==> ps@.contains(
                            crate::row_arithmetic::Position {
                                row: i as usize,
                                column: c as usize,
                            },
                        )
                },
                Err(e) => e == SimplexError::AmbiguousBasicColumn && exists|c: int, i: int, j: int|
                    0 <= c < self@.relative_costs.a.len() && 0 <= i < self@.tableau.len() && 0 <= j
                        < self@.tableau.len() && i != j && zero_rel_cost(self@, c) && unit_entry(
                        self@,
                        i,
                        c,
                    ) && unit_entry(self@, j, c),
            },
    {
        broadcast use lemma_row_seq_index, lemma_rat_seq_index;

        let mut positions: Vec<crate::row_arithmetic::Position> = Vec::new();
        let mut column_index: usize = 0;
        while column_index < self.relative_costs.a_ij.len()
            invariant
                lp_engine_wf(self@),
                column_index <= self@.relative_costs.a.len(),
                forall|p: int|
                    0 <= p < positions@.len() ==> ((#[trigger] positions@[p]).row as int)
                        < self@.tableau.len() && (positions@[p].column as int)
                        < column_index as int && zero_rel_cost(self@, positions@[p].column as int)
                        && unit_entry(self@, positions@[p].row as int, positions@[p].column as int),
                forall|p: int, q: int|
                    0 <= p < q < positions@.len() ==> positions@[p].column
                        != positions@[q].column,
                forall|i: int, c: int|
                    0 <= i < self@.tableau.len() && 0 <= c < column_index as int && zero_rel_cost(
                        self@,
                        c,
                    ) && unit_entry(self@, i, c) ==> positions@.contains(
                        crate::row_arithmetic::Position { row: i as usize, column: c as usize },
                    ),
            decreases self@.relative_costs.a.len() - column_index as int,
        {
            broadcast use lemma_row_seq_index, lemma_rat_seq_index;

            if self.relative_costs.a_ij[column_index].is_zero() {
                let mut found: Option<usize> = None;
                let mut row_index: usize = 0;
                while row_index < self.tableau.len()
                    invariant
                        lp_engine_wf(self@),
                        (column_index as int) < self@.relative_costs.a.len(),
                        zero_rel_cost(self@, column_index as int),
                        row_index <= self@.tableau.len(),
                        match found {
                            Some(fr) => (fr as int) < row_index as int && unit_entry(
                                self@,
                                fr as int,
                                column_index as int,
                            ) && forall|i: int|
                                0 <= i < row_index as int && i != fr as int ==> !unit_entry(
                                    self@,
                                    i,
                                    column_index as int,
                                ),
                            None => forall|i: int|
                                0 <= i < row_index as int ==> !unit_entry(
                                    self@,
                                    i,
                                    column_index as int,
                                ),
                        },
                    decreases self@.tableau.len() - row_index as int,
                {
                    broadcast use lemma_row_seq_index, lemma_rat_seq_index;

                    if self.tableau[row_index].a_ij[column_index].is_one() {
                        match found {
                            Some(fr) => {
                                proof {
                                    assert(unit_entry(self@, fr as int, column_index as int)
                                        && unit_entry(self@, row_index as int, column_index as int)
                                        && fr as int != row_index as int);
                                }
                                return Err(SimplexError::AmbiguousBasicColumn);
                            },
                            None => {
                                found = Some(row_index);
                            },
                        }
                    }
                    row_index += 1;
                }
                match found {
                    Some(fr) => {
                        let ghost prior = positions@;
                        positions.push(crate::row_arithmetic::Position::new(fr, column_index));
                        proof {
                            assert(positions@[prior.len() as int] == (
                            crate::row_arithmetic::Position { row: fr, column: column_index }));
                            assert forall|i: int, c: int|
                                0 <= i < self@.tableau.len() && 0 <= c < column_index as int + 1
                                    && zero_rel_cost(self@, c) && unit_entry(
                                    self@,
                                    i,
                                    c,
                                ) implies positions@.contains(
                                crate::row_arithmetic::Position {
                                    row: i as usize,
                                    column: c as usize,
                                },
                            ) by {
                                if c < column_index as int {
                                    let idx = choose|p: int|
                                        0 <= p < prior.len() && prior[p] == (
                                        crate::row_arithmetic::Position {
                                            row: i as usize,
                                            column: c as usize,
                                        });
                                    assert(positions@[idx] == (crate::row_arithmetic::Position {
                                        row: i as usize,
                                        column: c as usize,
                                    }));
                                } else {
                                    assert(i == fr as int);
                                }
                            }
                        }
                    },
                    None => {
                        proof {
                            assert forall|i: int|
                                0 <= i < self@.tableau.len() implies !unit_entry(
                                self@,
                                i,
                                column_index as int,
                            ) by {}
                        }
                    },
                }
            }
            column_index += 1;
        }
        Ok(positions)
    }

    /// Reads the final basis back into the solution vector: every column
    /// with zero relative cost and a single unit row takes that row's
    /// constant; every other column becomes zero.
    pub fn set_solution(&mut self) -> (r: Result<String, SimplexError>)
        requires
            lp_engine_wf(old(self)@),
            old(self)@.solution.len() == old(self)@.relative_costs.a.len(),
        ensures
            lp_engine_wf(final(self)@),
            final(self)@.tableau == old(self)@.tableau,
            final(self)@.costs == old(self)@.costs,
            final(self)@.relative_costs == old(self)@.relative_costs,
            final(self)@.solution.len() == old(self)@.solution.len(),
            rat_seq_wf(final(self)@.solution),
            match r {
                Ok(_) => {
                    &&& forall|i: int, c: int|
                        0 <= i < old(self)@.tableau.len() && 0 <= c
                            < old(self)@.relative_costs.a.len() && zero_rel_cost(old(self)@, c)
                            && unit_entry(old(self)@, i, c) ==> final(self)@.solution[c] == old(
                            self,
                        )@.tableau[i].b
                    &&& forall|c: int|
                        0 <= c < old(self)@.relative_costs.a.len() && (forall|i: int|
                            0 <= i < old(self)@.tableau.len() ==> !(zero_rel_cost(old(self)@, c)
                                && unit_entry(old(self)@, i, c))) ==> final(self)@.solution[c]
                            == ratio_zero()
                    &&& forall|i: int, j: int, c: int|
                        0 <= i < old(self)@.tableau.len() && 0 <= j < old(self)@.tableau.len() && 0
                            <= c < old(self)@.relative_costs.a.len() && zero_rel_cost(old(self)@, c)
                            && unit_entry(old(self)@, i, c) && unit_entry(old(self)@, j, c) ==> i
                            == j
                },
                Err(e) => e == SimplexError::AmbiguousBasicColumn && (exists|
                    c: int,
                    i: int,
                    j: int,
                |
                    #![trigger unit_entry(old(self)@, i, c), unit_entry(old(self)@, j, c)]
                    0 <= c < old(self)@.relative_costs.a.len() && 0 <= i < old(self)@.tableau.len()
                        && 0 <= j < old(self)@.tableau.len() && i != j && zero_rel_cost(
                        old(self)@,
                        c,
                    ) && unit_entry(old(self)@, i, c) && unit_entry(old(self)@, j, c)) && forall|
                    c: int,
                |
                    0 <= c < old(self)@.solution.len() ==> final(self)@.solution[c]
                        == ratio_zero(),
            },
    {
        broadcast use lemma_row_seq_index, lemma_rat_seq_index;

        let ghost pre = old(self)@;
        let row_count: usize = self.tableau.len();
        let width: usize = self.solution.len();
        let mut k: usize = 0;
        while k < self.solution.len()
            invariant
                pre == old(self)@,
                lp_engine_wf(pre),
                row_count as int == pre.tableau.len(),
                width as int == pre.solution.len(),
                self@.tableau == pre.tableau,
                self@.costs == pre.costs,
                self@.relative_costs == pre.relative_costs,
                self@.solution.len() == pre.solution.len(),
                k <= self@.solution.len(),
                forall|c: int|
                    0 <= c < k as int ==> #[trigger] self@.solution[c] == ratio_zero(),
            decreases self@.solution.len() - k as int,
        {
            broadcast use lemma_rat_seq_index;

            self.solution.set(k, Rat::zero());
            k += 1;
        }
        proof {
            assert(lp_engine_wf(self@));
        }
        let positions = match self.get_all_e_i() {
            Ok(ps) => ps,
            Err(e) => {
                proof {
                    assert(e == SimplexError::AmbiguousBasicColumn);
                    let (c, i, j) = choose|c: int, i: int, j: int|
                        0 <= c < self@.relative_costs.a.len() && 0 <= i < self@.tableau.len() && 0
                            <= j < self@.tableau.len() && i != j && zero_rel_cost(self@, c)
                            && unit_entry(self@, i, c) && unit_entry(self@, j, c);
                    assert(zero_rel_cost(pre, c) && unit_entry(pre, i, c) && unit_entry(
                        pre,
                        j,
                        c,
                    ));
                }
                return Err(e);
            },
        };
        proof {
            assert forall|q: int| 0 <= q < positions@.len() implies ((
            #[trigger] positions@[q]).row as int) < pre.tableau.len() && (
            positions@[q].column as int) < pre.relative_costs.a.len() && zero_rel_cost(
                pre,
                positions@[q].column as int,
            ) && unit_entry(pre, positions@[q].row as int, positions@[q].column as int) by {
                assert(zero_rel_cost(self@, positions@[q].column as int));
                assert(unit_entry(self@, positions@[q].row as int, positions@[q].column as int));
            }
            assert forall|i: int, c: int|
                0 <= i < pre.tableau.len() && 0 <= c < pre.relative_costs.a.len() && zero_rel_cost(
                    pre,
                    c,
                ) && unit_entry(pre, i, c) implies positions@.contains(
                crate::row_arithmetic::Position { row: i as usize, column: c as usize },
            ) by {
                assert(zero_rel_cost(self@, c));
                assert(unit_entry(self@, i, c));
            }
        }
        let mut p: usize = 0;
        while p < positions.len()
            invariant
                pre == old(self)@,
                lp_engine_wf(pre),
                row_count as int == pre.tableau.len(),
                width as int == pre.solution.len(),
                pre.solution.len() == pre.relative_costs.a.len(),
                self@.tableau == pre.tableau,
                self@.costs == pre.costs,
                self@.relative_costs == pre.relative_costs,
                self@.solution.len() == pre.solution.len(),
                rat_seq_wf(self@.solution),
                p <= positions@.len(),
                forall|q: int|
                    0 <= q < positions@.len() ==> ((#[trigger] positions@[q]).row as int)
                        < pre.tableau.len() && (positions@[q].column as int)
                        < pre.relative_costs.a.len() && zero_rel_cost(
                        pre,
                        positions@[q].column as int,
                    ) && unit_entry(pre, positions@[q].row as int, positions@[q].column as int),
                forall|q1: int, q2: int|
                    0 <= q1 < q2 < positions@.len() ==> positions@[q1].column
                        != positions@[q2].column,
                forall|i: int, c: int|
                    0 <= i < pre.tableau.len() && 0 <= c < pre.relative_costs.a.len()
                        && zero_rel_cost(pre, c) && unit_entry(pre, i, c)
                        ==> positions@.contains(
                        crate::row_arithmetic::Position { row: i as usize, column: c as usize },
                    ),
                forall|q: int|
                    0 <= q < p as int ==> self@.solution[(#[trigger] positions@[q]).column as int]
                        == pre.tableau[positions@[q].row as int].b,
                forall|c: int|
                    0 <= c < self@.solution.len() && (forall|q: int|
                        0 <= q < p as int ==> ((#[trigger] positions@[q]).column as int) != c)
                        ==> self@.solution[c] == ratio_zero(),
            decreases positions@.len() - p as int,
        {
            broadcast use lemma_row_seq_index, lemma_rat_seq_index;

            let position = positions[p];
            self.solution.set(position.column, self.tableau[position.row].b_i);
            p += 1;
        }
        proof {
            assert forall|i: int, c: int|
                0 <= i < pre.tableau.len() && 0 <= c < pre.relative_costs.a.len() && zero_rel_cost(
                    pre,
                    c,
                ) && unit_entry(pre, i, c) implies self@.solution[c] == pre.tableau[i].b by {
                assert(positions@.contains(
                    crate::row_arithmetic::Position { row: i as usize, column: c as usize },
                ));
                let q = choose|q: int|
                    0 <= q < positions@.len() && positions@[q] == (
                    crate::row_arithmetic::Position { row: i as usize, column: c as usize });
                assert(self@.solution[positions@[q].column as int]
                    == pre.tableau[positions@[q].row as int].b);
            }
            assert forall|i: int, j: int, c: int|
                0 <= i < pre.tableau.len() && 0 <= j < pre.tableau.len() && 0 <= c
                    < pre.relative_costs.a.len() && zero_rel_cost(pre, c) && unit_entry(pre, i, c)
                    && unit_entry(pre, j, c) implies i == j by {
                let pos_i = crate::row_arithmetic::Position { row: i as usize, column: c as usize };
                let pos_j = crate::row_arithmetic::Position { row: j as usize, column: c as usize };
                assert(positions@.contains(pos_i));
                assert(positions@.contains(pos_j));
                let qi = choose|q: int| 0 <= q < positions@.len() && positions@[q] == pos_i;
                let qj = choose|q: int| 0 <= q < positions@.len() && positions@[q] == pos_j;
                if qi != qj {
                    assert(positions@[qi].column == positions@[qj].column);
                }
            }
            assert forall|c: int|
                0 <= c < pre.relative_costs.a.len() && (forall|i: int|
                    0 <= i < pre.tableau.len() ==> !(zero_rel_cost(pre, c) && unit_entry(
                        pre,
                        i,
                        c,
                    ))) implies self@.solution[c] == ratio_zero() by {
                assert forall|q: int| 0 <= q < positions@.len() implies ((
                #[trigger] positions@[q]).column as int) != c by {
                    if (positions@[q].column as int) == c {
                        assert(unit_entry(pre, positions@[q].row as int, c));
                    }
                }
            }
        }
        Ok("Solution set successfully".to_owned())
    }
}

/// Runs the admission checks in their fixed order and reports the first
/// failure; an admitted program satisfies every invariant the simplex
/// engine relies on.
pub fn perform_checks(linear_program: &LinearProgram) -> (r: Result<String, SimplexError>)
    requires
        lp_rats_wf(linear_program@),
    ensures
        r.is_ok() <==> spec_admission(linear_program@) is None,
        r matches Err(e) ==> spec_admission(linear_program@) == Some(e),
{
    match linear_program.check_row_length() {
        Ok(same) => {
            if !same {
                return Err(SimplexError::LengthMismatch);
            }
        },
        Err(e) => {
            return Err(e);
        },
    }
    if !linear_program.check_if_rows_is_equal_or_greater_than_columns() {
        return Err(SimplexError::TooManyColumns);
    }
    if !linear_program.check_if_matrix_starts_with_identity() {
        return Err(SimplexError::MissingIdentityBasis);
    }
    if !linear_program.check_if_solution_is_feasible() {
        return Err(SimplexError::Infeasible);
    }
    if !linear_program.check_if_the_first_m_are_basic() {
        return Err(SimplexError::NotBasic);
    }
    if !linear_program.check_if_b_and_solutions_are_same() {
        return Err(SimplexError::BasisMismatch);
    }
    Ok("All checks passed".to_owned())
}

} // verus!
