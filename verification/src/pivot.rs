//! The lexicographic pivot-row rule.
//!
//! Two candidate pivot rows are compared first by the classic minimum
//! ratio `b / a[divider]`; on an exact tie, the ratios `a[k] / a[divider]`
//! are compared for `k = 0, 1, 2, ...` until a strict difference is
//! found. A pair of rows without any strict difference is linearly
//! dependent, which the comparison reports as an error. Because ties are
//! broken by whole-row comparison and never by row index, the selection
//! is deterministic and the simplex iteration cannot cycle among
//! degenerate bases.

use vstd::prelude::*;

use crate::rational::lemma_pos_product_pos;
use crate::rational::lemma_ratio_eq_lt_trans;
use crate::rational::lemma_ratio_eq_trans;
use crate::rational::lemma_ratio_lt_eq_trans;
use crate::rational::lemma_ratio_lt_trans;
use crate::rational::quotient_eq;
use crate::rational::quotient_lt;
use crate::rational::ratio_div;
use crate::rational::ratio_eq;
use crate::rational::ratio_lt;
use crate::rational::ratio_wf;
use crate::rational::Ratio;
use crate::row_arithmetic::lemma_rat_seq_index;
use crate::row_arithmetic::row_wf;
use crate::row_arithmetic::Row;
use crate::row_arithmetic::RowV;
use crate::row_arithmetic::SimplexError;

verus! {

/// Whether a row may limit the entering column `div`: its entry there is
/// strictly positive.
pub open spec fn row_positive(r: RowV, div: int) -> bool {
    r.a[div].n > 0
}

/// The ratio of coefficient `k` to the divider-column coefficient.
pub open spec fn col_ratio(r: RowV, k: int, div: int) -> Ratio {
    ratio_div(r.a[k], r.a[div])
}

/// The minimum-ratio-test value of a row: its constant over the
/// divider-column coefficient.
pub open spec fn b_ratio(r: RowV, div: int) -> Ratio {
    ratio_div(r.b, r.a[div])
}

/// Column-by-column comparison of two rows from column `j` on, by their
/// divider ratios. `Some(true)` means the first row is strictly greater
/// at the first differing column, `Some(false)` strictly smaller, `None`
/// that no column differs.
pub open spec fn lex_cmp_from(r1: RowV, r2: RowV, div: int, j: int) -> Option<bool>
    decreases r1.a.len() - j,
{
    if j >= r1.a.len() {
        None
    } else if !ratio_eq(col_ratio(r1, j, div), col_ratio(r2, j, div)) {
        Some(ratio_lt(col_ratio(r2, j, div), col_ratio(r1, j, div)))
    } else {
        lex_cmp_from(r1, r2, div, j + 1)
    }
}

/// The whole lexicographic comparison: first the minimum-ratio values,
/// then, on an exact tie, the columns in ascending order.
pub open spec fn lex_start(r1: RowV, r2: RowV, div: int) -> Option<bool> {
    if ratio_eq(b_ratio(r1, div), b_ratio(r2, div)) {
        lex_cmp_from(r1, r2, div, 0)
    } else {
        Some(ratio_lt(b_ratio(r2, div), b_ratio(r1, div)))
    }
}

/// Strict lexicographic order between two candidate rows.
pub open spec fn lex_lt(r1: RowV, r2: RowV, div: int) -> bool {
    lex_start(r1, r2, div) == Some(false)
}

/// A full tie: the rows agree in the minimum ratio and in every column
/// ratio, so the comparison cannot separate them.
pub open spec fn lex_tie(r1: RowV, r2: RowV, div: int) -> bool {
    lex_start(r1, r2, div) == Option::<bool>::None
}

/// The comparison preconditions: equal lengths, a valid divider column,
/// and strictly positive divider entries in both rows.
pub open spec fn comparable(r1: RowV, r2: RowV, div: int) -> bool {
    &&& row_wf(r1)
    &&& row_wf(r2)
    &&& r1.a.len() == r2.a.len()
    &&& 0 <= div < r1.a.len()
    &&& row_positive(r1, div)
    &&& row_positive(r2, div)
}

/// Every column ratio of a comparable row is well-formed.
pub proof fn lemma_col_ratio_wf(r: RowV, k: int, div: int)
    requires
        row_wf(r),
        0 <= k < r.a.len(),
        0 <= div < r.a.len(),
        row_positive(r, div),
    ensures
        ratio_wf(col_ratio(r, k, div)),
{
    lemma_pos_product_pos(r.a[k].d, r.a[div].n);
}

/// The minimum-ratio value of a comparable row is well-formed.
pub proof fn lemma_b_ratio_wf(r: RowV, div: int)
    requires
        row_wf(r),
        0 <= div < r.a.len(),
        row_positive(r, div),
    ensures
        ratio_wf(b_ratio(r, div)),
{
    lemma_pos_product_pos(r.b.d, r.a[div].n);
}

/// Swapping the two rows flips the column comparison: the winner does not
/// depend on the order in which the candidates are supplied.
pub proof fn lemma_lex_cmp_from_flip(r1: RowV, r2: RowV, div: int, j: int)
    requires
        r1.a.len() == r2.a.len(),
    ensures
        lex_cmp_from(r1, r2, div, j) matches Some(b) ==> lex_cmp_from(r2, r1, div, j) == Some(!b),
        lex_cmp_from(r1, r2, div, j) is None ==> lex_cmp_from(r2, r1, div, j) is None,
    decreases r1.a.len() - j,
{
    if j >= r1.a.len() {
    } else if !ratio_eq(col_ratio(r1, j, div), col_ratio(r2, j, div)) {
    } else {
        lemma_lex_cmp_from_flip(r1, r2, div, j + 1);
    }
}

/// Swapping the two rows flips the whole comparison.
pub proof fn lemma_lex_start_flip(r1: RowV, r2: RowV, div: int)
    requires
        r1.a.len() == r2.a.len(),
    ensures
        lex_start(r1, r2, div) matches Some(b) ==> lex_start(r2, r1, div) == Some(!b),
        lex_start(r1, r2, div) is None ==> lex_start(r2, r1, div) is None,
{
    lemma_lex_cmp_from_flip(r1, r2, div, 0);
}

/// Lexicographic tie-break determinism: when two rows tie on the minimum
/// ratio but differ at some column, the same row wins whichever way the
/// pair is ordered.
pub proof fn lemma_lex_tie_break_commutative(r1: RowV, r2: RowV, div: int, b: bool)
    requires
        r1.a.len() == r2.a.len(),
        ratio_eq(b_ratio(r1, div), b_ratio(r2, div)),
        lex_start(r1, r2, div) == Some(b),
    ensures
        lex_start(r2, r1, div) == Some(!b),
{
    lemma_lex_cmp_from_flip(r1, r2, div, 0);
}

/// Transitivity of the strict column comparison.
pub proof fn lemma_lex_cmp_from_lt_trans(r1: RowV, r2: RowV, r3: RowV, div: int, j: int)
    requires
        comparable(r1, r2, div),
        comparable(r2, r3, div),
        comparable(r1, r3, div),
        0 <= j,
        lex_cmp_from(r1, r2, div, j) == Some(false),
        lex_cmp_from(r2, r3, div, j) == Some(false),
    ensures
        lex_cmp_from(r1, r3, div, j) == Some(false),
    decreases r1.a.len() - j,
{
    if j >= r1.a.len() {
    } else {
        lemma_col_ratio_wf(r1, j, div);
        lemma_col_ratio_wf(r2, j, div);
        lemma_col_ratio_wf(r3, j, div);
        let c1 = col_ratio(r1, j, div);
        let c2 = col_ratio(r2, j, div);
        let c3 = col_ratio(r3, j, div);
        if ratio_eq(c1, c2) && ratio_eq(c2, c3) {
            lemma_ratio_eq_trans(c1, c2, c3);
            lemma_lex_cmp_from_lt_trans(r1, r2, r3, div, j + 1);
        } else if ratio_eq(c1, c2) {
            lemma_ratio_eq_lt_trans(c1, c2, c3);
        } else if ratio_eq(c2, c3) {
            lemma_ratio_lt_eq_trans(c1, c2, c3);
        } else {
            lemma_ratio_lt_trans(c1, c2, c3);
        }
    }
}

/// Transitivity of the strict lexicographic order.
pub proof fn lemma_lex_lt_trans(r1: RowV, r2: RowV, r3: RowV, div: int)
    requires
        comparable(r1, r2, div),
        comparable(r2, r3, div),
        comparable(r1, r3, div),
        lex_lt(r1, r2, div),
        lex_lt(r2, r3, div),
    ensures
        lex_lt(r1, r3, div),
{
    lemma_b_ratio_wf(r1, div);
    lemma_b_ratio_wf(r2, div);
    lemma_b_ratio_wf(r3, div);
    let b1 = b_ratio(r1, div);
    let b2 = b_ratio(r2, div);
    let b3 = b_ratio(r3, div);
    if ratio_eq(b1, b2) && ratio_eq(b2, b3) {
        lemma_ratio_eq_trans(b1, b2, b3);
        lemma_lex_cmp_from_lt_trans(r1, r2, r3, div, 0);
    } else if ratio_eq(b1, b2) {
        lemma_ratio_eq_lt_trans(b1, b2, b3);
    } else if ratio_eq(b2, b3) {
        lemma_ratio_lt_eq_trans(b1, b2, b3);
    } else {
        lemma_ratio_lt_trans(b1, b2, b3);
    }
}

/// Compares two rows by their column ratios from `column` on, stopping at
/// the first strict difference; returns whether the first row is the
/// strictly greater one there, and reports a full tie as linear
/// dependence.
pub fn compare_lexicographic_value(
    row_1: &Row,
    row_2: &Row,
    column: usize,
    divider_column: usize,
) -> (r: Result<bool, SimplexError>)
    requires
        comparable(row_1@, row_2@, divider_column as int),
        column as int <= row_1@.a.len(),
    ensures
        match r {
            Ok(b) => lex_cmp_from(row_1@, row_2@, divider_column as int, column as int) == Some(b),
            Err(e) => e == SimplexError::LinearlyDependentRows && lex_cmp_from(
                row_1@,
                row_2@,
                divider_column as int,
                column as int,
            ) is None,
        },
{
    broadcast use lemma_rat_seq_index;

    let ghost div = divider_column as int;
    let mut k: usize = column;
    while k < row_1.a_ij.len()
        invariant
            comparable(row_1@, row_2@, div),
            div == divider_column as int,
            column as int <= k as int <= row_1@.a.len(),
            lex_cmp_from(row_1@, row_2@, div, column as int) == lex_cmp_from(
                row_1@,
                row_2@,
                div,
                k as int,
            ),
        decreases row_1@.a.len() - k as int,
    {
        broadcast use lemma_rat_seq_index;

        let divider_1 = row_1.a_ij[divider_column];
        let divider_2 = row_2.a_ij[divider_column];
        if !quotient_eq(row_1.a_ij[k], divider_1, row_2.a_ij[k], divider_2) {
            return Ok(quotient_lt(row_2.a_ij[k], divider_2, row_1.a_ij[k], divider_1));
        }
        k += 1;
    }
    Err(SimplexError::LinearlyDependentRows)
}

/// Compares two candidate pivot rows: first by the minimum ratio, then,
/// on an exact tie, column by column. Returns whether the first row is
/// the strictly greater (worse) candidate.
pub fn compare_lexicographic_value_start(row_1: &Row, row_2: &Row, divider_column: usize) -> (r:
    Result<bool, SimplexError>)
    requires
        comparable(row_1@, row_2@, divider_column as int),
    ensures
        match r {
            Ok(b) => lex_start(row_1@, row_2@, divider_column as int) == Some(b),
            Err(e) => e == SimplexError::LinearlyDependentRows && lex_tie(
                row_1@,
                row_2@,
                divider_column as int,
            ),
        },
{
    broadcast use lemma_rat_seq_index;

    let divider_1 = row_1.a_ij[divider_column];
    let divider_2 = row_2.a_ij[divider_column];
    if quotient_eq(row_1.b_i, divider_1, row_2.b_i, divider_2) {
        compare_lexicographic_value(row_1, row_2, 0, divider_column)
    } else {
        Ok(quotient_lt(row_2.b_i, divider_2, row_1.b_i, divider_1))
    }
}

/// Finds the first row at or after `row` whose entry in `divider_column`
/// is strictly positive.
pub fn find_first_row_with_positive_a(rows: &Vec<Row>, row: usize, divider_column: usize) -> (r:
    Result<usize, SimplexError>)
    requires
        forall|i: int|
            0 <= i < rows@.len() ==> row_wf((#[trigger] rows@[i])@) && (divider_column as int)
                < rows@[i]@.a.len(),
    ensures
        match r {
            Ok(i) => row as int <= i as int && (i as int) < rows@.len() && row_positive(
                rows@[i as int]@,
                divider_column as int,
            ) && forall|j: int|
                row as int <= j < i as int ==> !row_positive(
                    (#[trigger] rows@[j])@,
                    divider_column as int,
                ),
            Err(e) => e == SimplexError::NoPositiveEntry && forall|j: int|
                row as int <= j < rows@.len() ==> !row_positive(
                    (#[trigger] rows@[j])@,
                    divider_column as int,
                ),
        },
{
    let mut current_row: usize = row;
    while current_row < rows.len()
        invariant
            forall|i: int|
                0 <= i < rows@.len() ==> row_wf((#[trigger] rows@[i])@) && (divider_column as int)
                    < rows@[i]@.a.len(),
            row as int <= current_row as int,
            forall|j: int|
                row as int <= j < current_row as int && j < rows@.len() ==> !row_positive(
                    (#[trigger] rows@[j])@,
                    divider_column as int,
                ),
        decreases rows@.len() - current_row as int,
    {
        broadcast use lemma_rat_seq_index;

        if rows[current_row].a_ij[divider_column].is_positive() {
            return Ok(current_row);
        }
        current_row += 1;
    }
    Err(SimplexError::NoPositiveEntry)
}

} // verus!
