//! Dense tableau rows and the two row operations of the solver:
//! Gauss-Jordan elimination of one column, and normalization of a row so
//! that a chosen column becomes exactly one.

use vstd::prelude::*;

use crate::rational::Rat;
use crate::rational::Ratio;
use crate::rational::ratio_add;
use crate::rational::ratio_div;
use crate::rational::ratio_eq;
use crate::rational::ratio_fits;
use crate::rational::ratio_mul;
use crate::rational::ratio_neg;
use crate::rational::ratio_one;
use crate::rational::ratio_wf;
use crate::rational::ratio_zero;

verus! {

/// The failure kinds of the solver. Each kind carries a stable message,
/// reachable through `message`.
#[derive(Clone, Copy, Debug, PartialEq, Eq, Structural)]
pub enum SimplexError {
    /// Row lengths disagree, between two rows being combined or between
    /// the tableau width and the declared costs/relative-costs/solution.
    LengthMismatch,
    /// A column index is at or beyond the end of the row it addresses.
    ColumnOutOfRange,
    /// Elimination was attempted against a pivot entry equal to zero.
    ZeroPivot,
    /// The tableau has more rows than columns.
    TooManyColumns,
    /// The leading square block of the tableau is not the identity.
    MissingIdentityBasis,
    /// The supplied solution has a negative entry.
    Infeasible,
    /// The supplied solution is positive outside its first M entries.
    NotBasic,
    /// The supplied solution disagrees with the right-hand side vector.
    BasisMismatch,
    /// The tableau has no rows at all.
    EmptyTableau,
    /// A lexicographic comparison exhausted all columns without finding a
    /// strict difference.
    LinearlyDependentRows,
    /// No row has a strictly positive entry in the requested column.
    NoPositiveEntry,
    /// No candidate column admits a pivot row.
    NoViableRow,
    /// More than one row claims the unit entry of a basic column.
    AmbiguousBasicColumn,
    /// A linear system cannot be brought into reduced row echelon form.
    NotReducible,
    /// An exact rational value left the representable range.
    Overflow,
    /// The iteration budget of the simplex driver was spent.
    IterationLimit,
}

impl SimplexError {
    /// The stable message of each failure kind.
    pub open spec fn spec_message(self) -> Seq<char> {
        match self {
            SimplexError::LengthMismatch => "Json passed did not have the same length of rows"@,
            SimplexError::ColumnOutOfRange => "Column cannot be outside of row"@,
            SimplexError::ZeroPivot => "Cannot reduce row by column if the minuend has a 0 in it"@,
            SimplexError::TooManyColumns => "The passed linear program has more columns than rows"@,
            SimplexError::MissingIdentityBasis => "The passed linear problem does not start with an identity"@,
            SimplexError::Infeasible => "The passed solution is not feasible"@,
            SimplexError::NotBasic => "The passed solution is not basic or non-degenerate"@,
            SimplexError::BasisMismatch => "Vector b and solution do not align"@,
            SimplexError::EmptyTableau => "First row does no have length"@,
            SimplexError::LinearlyDependentRows => "Rows are linearly dependent"@,
            SimplexError::NoPositiveEntry => "There does not exist a row with positive elements in the column"@,
            SimplexError::NoViableRow => "No viable rows have been found"@,
            SimplexError::AmbiguousBasicColumn => "A given column with relative cost 0 cannot have more than 1 element greater than 0"@,
            SimplexError::NotReducible => "Linear set of equations cannot be turned into reduced row echelon form"@,
            SimplexError::Overflow => "Exact arithmetic left the representable range"@,
            SimplexError::IterationLimit => "The iteration budget was spent before the simplex loop finished"@,
        }
    }

    pub fn message(&self) -> (r: String)
        ensures
            r@ == self.spec_message(),
    {
        match self {
            SimplexError::LengthMismatch => "Json passed did not have the same length of rows".to_owned(),
            SimplexError::ColumnOutOfRange => "Column cannot be outside of row".to_owned(),
            SimplexError::ZeroPivot => "Cannot reduce row by column if the minuend has a 0 in it".to_owned(),
            SimplexError::TooManyColumns => "The passed linear program has more columns than rows".to_owned(),
            SimplexError::MissingIdentityBasis => "The passed linear problem does not start with an identity".to_owned(),
            SimplexError::Infeasible => "The passed solution is not feasible".to_owned(),
            SimplexError::NotBasic => "The passed solution is not basic or non-degenerate".to_owned(),
            SimplexError::BasisMismatch => "Vector b and solution do not align".to_owned(),
            SimplexError::EmptyTableau => "First row does no have length".to_owned(),
            SimplexError::LinearlyDependentRows => "Rows are linearly dependent".to_owned(),
            SimplexError::NoPositiveEntry => "There does not exist a row with positive elements in the column".to_owned(),
            SimplexError::NoViableRow => "No viable rows have been found".to_owned(),
            SimplexError::AmbiguousBasicColumn => "A given column with relative cost 0 cannot have more than 1 element greater than 0".to_owned(),
            SimplexError::NotReducible => "Linear set of equations cannot be turned into reduced row echelon form".to_owned(),
            SimplexError::Overflow => "Exact arithmetic left the representable range".to_owned(),
            SimplexError::IterationLimit => "The iteration budget was spent before the simplex loop finished".to_owned(),
        }
    }
}

/// The terminal outcomes of one simplex iteration and of the whole loop.
#[derive(Clone, Copy, Debug, PartialEq, Eq, Structural)]
pub enum SimplexResult {
    Unbound,
    Finished,
    IterationComplete,
    Error(SimplexError),
}

/// A (row, column) pair of tableau indices.
#[derive(Clone, Copy, Debug, PartialEq, Eq, Structural)]
pub struct Position {
    pub row: usize,
    pub column: usize,
}

impl Position {
    pub fn new(new_row: usize, new_column: usize) -> (r: Self)
        ensures
            r.row == new_row,
            r.column == new_column,
    {
        Position { row: new_row, column: new_column }
    }
}

/// The ratios represented by a vector of tableau entries.
pub open spec fn rat_seq(v: Seq<Rat>) -> Seq<Ratio> {
    Seq::new(v.len(), |i: int| v[i]@)
}

pub open spec fn rat_seq_wf(s: Seq<Ratio>) -> bool {
    forall|k: int| 0 <= k < s.len() ==> ratio_wf(#[trigger] s[k])
}

/// Indexing into the ratio view of an entry vector reads the entry's view.
pub broadcast proof fn lemma_rat_seq_index(v: Seq<Rat>, k: int)
    requires
        0 <= k < v.len(),
    ensures
        #![trigger rat_seq(v)[k]]
        #![trigger rat_seq(v), v[k]]
        rat_seq(v)[k] == v[k]@,
{
}

/// A dense constraint row: coefficients and a right-hand-side constant.
#[derive(Clone, Debug)]
pub struct Row {
    pub a_ij: Vec<Rat>,
    pub b_i: Rat,
}

/// The specification-level value of a `Row`.
#[verifier::ext_equal]
pub ghost struct RowV {
    pub a: Seq<Ratio>,
    pub b: Ratio,
}

impl View for Row {
    type V = RowV;

    open spec fn view(&self) -> RowV {
        RowV { a: rat_seq(self.a_ij@), b: self.b_i@ }
    }
}

pub open spec fn row_wf(r: RowV) -> bool {
    ratio_wf(r.b) && rat_seq_wf(r.a)
}

/// The multiplier of one elimination step: the factor by which the source
/// row is scaled before being added to the target row.
pub open spec fn eliminate_multiplier(t: Seq<Ratio>, s: Seq<Ratio>, c: int) -> Ratio {
    ratio_neg(ratio_div(t[c], s[c]))
}

/// Elimination of column `c` from the coefficient sequence `t`, using `s`
/// as the source: entry `c` becomes exactly zero, and every other entry
/// `k` becomes `t[k] + m * s[k]` for the multiplier `m`.
pub open spec fn eliminate_spec(t: Seq<Ratio>, s: Seq<Ratio>, c: int) -> Seq<Ratio> {
    let m = eliminate_multiplier(t, s, c);
    Seq::new(
        t.len(),
        |k: int|
            if k == c {
                ratio_zero()
            } else {
                ratio_add(t[k], ratio_mul(m, s[k]))
            },
    )
}

/// Whether every intermediate value of the elimination step fits into the
/// representable range.
pub open spec fn eliminate_fits(t: Seq<Ratio>, s: Seq<Ratio>, c: int) -> bool {
    let dv = ratio_div(t[c], s[c]);
    let m = ratio_neg(dv);
    &&& ratio_fits(dv)
    &&& ratio_fits(m)
    &&& forall|k: int|
        0 <= k < t.len() && k != c ==> ratio_fits(ratio_mul(m, #[trigger] s[k]))
            && ratio_fits(ratio_add(t[k], ratio_mul(m, s[k])))
}

/// Scaling of a coefficient sequence so that entry `c` becomes exactly
/// one: every other entry `k` becomes `t[k] / t[c]`.
pub open spec fn scale_spec(t: Seq<Ratio>, c: int) -> Seq<Ratio> {
    Seq::new(
        t.len(),
        |k: int|
            if k == c {
                ratio_one()
            } else {
                ratio_div(t[k], t[c])
            },
    )
}

pub open spec fn scale_fits(t: Seq<Ratio>, c: int) -> bool {
    forall|k: int| 0 <= k < t.len() && k != c ==> ratio_fits(ratio_div(#[trigger] t[k], t[c]))
}

/// Elimination of one whole row (coefficients and constant) against a
/// source row.
pub open spec fn reduce_spec(t: RowV, s: RowV, c: int) -> RowV {
    let m = eliminate_multiplier(t.a, s.a, c);
    RowV { a: eliminate_spec(t.a, s.a, c), b: ratio_add(t.b, ratio_mul(m, s.b)) }
}

pub open spec fn reduce_fits(t: RowV, s: RowV, c: int) -> bool {
    let m = eliminate_multiplier(t.a, s.a, c);
    &&& eliminate_fits(t.a, s.a, c)
    &&& ratio_fits(ratio_mul(m, s.b))
    &&& ratio_fits(ratio_add(t.b, ratio_mul(m, s.b)))
}

/// Normalization of one whole row: the coefficients are scaled so that
/// entry `c` is exactly one, and the constant is divided by the old entry.
pub open spec fn normalize_spec(r: RowV, c: int) -> RowV {
    RowV { a: scale_spec(r.a, c), b: ratio_div(r.b, r.a[c]) }
}

pub open spec fn normalize_fits(r: RowV, c: int) -> bool {
    scale_fits(r.a, c) && ratio_fits(ratio_div(r.b, r.a[c]))
}

/// Normalizing a row to a unit column is idempotent: the first
/// application makes the chosen entry exactly one, so a second
/// application divides by one and is a no-op on the whole row.
pub proof fn lemma_normalize_to_unit_idempotent(r: RowV, c: int)
    requires
        row_wf(r),
        0 <= c < r.a.len(),
        !ratio_eq(r.a[c], ratio_zero()),
    ensures
        normalize_spec(normalize_spec(r, c), c) == normalize_spec(r, c),
{
    let once = normalize_spec(r, c);
    assert(r.a[c].n != 0);
    assert forall|k: int| 0 <= k < once.a.len() implies ratio_wf(#[trigger] once.a[k]) by {
        if k != c {
            crate::rational::lemma_ratio_div_wf(r.a[k], r.a[c]);
        }
    }
    crate::rational::lemma_ratio_div_wf(r.b, r.a[c]);
    assert forall|k: int| 0 <= k < once.a.len() implies #[trigger] normalize_spec(once, c).a[k]
        == once.a[k] by {
        if k != c {
            crate::rational::lemma_ratio_div_one(once.a[k]);
        }
    }
    crate::rational::lemma_ratio_div_one(once.b);
    assert(normalize_spec(once, c) =~= once);
}

/// Eliminates `column` from `subtrahend`, using `minuend` as the source
/// row: afterwards `subtrahend[column]` is exactly zero and every other
/// entry holds the stated linear combination of the two rows.
pub fn subtract_rows_setting_column_to_zero(
    subtrahend: &mut Vec<Rat>,
    minuend: &Vec<Rat>,
    column: usize,
) -> (r: Result<bool, SimplexError>)
    requires
        rat_seq_wf(rat_seq(old(subtrahend)@)),
        rat_seq_wf(rat_seq(minuend@)),
    ensures
        final(subtrahend)@.len() == old(subtrahend)@.len(),
        rat_seq_wf(rat_seq(final(subtrahend)@)),
        match r {
            Ok(b) => b && old(subtrahend)@.len() == minuend@.len() && (column as int) < minuend@.len()
                && !ratio_eq(rat_seq(minuend@)[column as int], ratio_zero())
                && eliminate_fits(rat_seq(old(subtrahend)@), rat_seq(minuend@), column as int)
                && rat_seq(final(subtrahend)@) == eliminate_spec(
                rat_seq(old(subtrahend)@),
                rat_seq(minuend@),
                column as int,
            ),
            Err(e) => final(subtrahend)@ == old(subtrahend)@ && (if old(subtrahend)@.len()
                != minuend@.len() {
                e == SimplexError::LengthMismatch
            } else if minuend@.len() <= column as int {
                e == SimplexError::ColumnOutOfRange
            } else if ratio_eq(rat_seq(minuend@)[column as int], ratio_zero()) {
                e == SimplexError::ZeroPivot
            } else {
                e == SimplexError::Overflow && !eliminate_fits(
                    rat_seq(old(subtrahend)@),
                    rat_seq(minuend@),
                    column as int,
                )
            }),
        },
{
    broadcast use lemma_rat_seq_index;

    if subtrahend.len() != minuend.len() {
        return Err(SimplexError::LengthMismatch);
    }
    if column >= minuend.len() {
        return Err(SimplexError::ColumnOutOfRange);
    }
    if minuend[column].is_zero() {
        return Err(SimplexError::ZeroPivot);
    }
    let ghost t = rat_seq(old(subtrahend)@);
    let ghost s = rat_seq(minuend@);
    let ghost c = column as int;
    let dv = match subtrahend[column].checked_div(minuend[column]) {
        Some(x) => x,
        None => {
            return Err(SimplexError::Overflow);
        },
    };
    let multiplier = match dv.checked_neg() {
        Some(x) => x,
        None => {
            return Err(SimplexError::Overflow);
        },
    };
    proof {
        assert(multiplier@ == eliminate_multiplier(t, s, c));
    }
    let mut updated: Vec<Rat> = Vec::new();
    let mut k: usize = 0;
    while k < subtrahend.len()
        invariant
            subtrahend@ == old(subtrahend)@,
            subtrahend@.len() == minuend@.len(),
            (column as int) < minuend@.len(),
            k <= subtrahend@.len(),
            rat_seq_wf(rat_seq(subtrahend@)),
            rat_seq_wf(rat_seq(minuend@)),
            t == rat_seq(subtrahend@),
            s == rat_seq(minuend@),
            c == column as int,
            !ratio_eq(s[c], ratio_zero()),
            multiplier.wf(),
            multiplier@ == eliminate_multiplier(t, s, c),
            updated@.len() == k as int,
            forall|j: int|
                0 <= j < k as int ==> #[trigger] updated@[j]@ == eliminate_spec(t, s, c)[j]
                    && updated@[j].wf(),
            forall|j: int|
                0 <= j < k as int && j != c ==> ratio_fits(ratio_mul(multiplier@, #[trigger] s[j]))
                    && ratio_fits(ratio_add(t[j], ratio_mul(multiplier@, s[j]))),
        decreases subtrahend@.len() - k as int,
    {
        broadcast use lemma_rat_seq_index;

        if k == column {
            updated.push(Rat::zero());
        } else {
            let scaled = match multiplier.checked_mul(minuend[k]) {
                Some(x) => x,
                None => {
                    proof {
                        assert(!ratio_fits(ratio_mul(multiplier@, s[k as int])));
                    }
                    return Err(SimplexError::Overflow);
                },
            };
            let combined = match subtrahend[k].checked_add(scaled) {
                Some(x) => x,
                None => {
                    proof {
                        assert(!ratio_fits(
                            ratio_add(t[k as int], ratio_mul(multiplier@, s[k as int])),
                        ));
                    }
                    return Err(SimplexError::Overflow);
                },
            };
            updated.push(combined);
        }
        k += 1;
    }
    *subtrahend = updated;
    proof {
        assert(rat_seq(subtrahend@) =~= eliminate_spec(t, s, c));
    }
    Ok(true)
}

/// Scales `row` so that entry `column` becomes exactly one. The last
/// entry of the vector is the row's right-hand side, so the chosen column
/// must lie strictly before it.
pub fn reduce_row_till_column_zero(row: &mut Vec<Rat>, column: usize) -> (r: Result<
    bool,
    SimplexError,
>)
    requires
        rat_seq_wf(rat_seq(old(row)@)),
    ensures
        final(row)@.len() == old(row)@.len(),
        rat_seq_wf(rat_seq(final(row)@)),
        match r {
            Ok(b) => b && (column as int) < old(row)@.len() - 1 && !ratio_eq(
                rat_seq(old(row)@)[column as int],
                ratio_zero(),
            ) && scale_fits(rat_seq(old(row)@), column as int) && rat_seq(final(row)@)
                == scale_spec(rat_seq(old(row)@), column as int),
            Err(e) => final(row)@ == old(row)@ && (if old(row)@.len() - 1 <= column as int {
                e == SimplexError::ColumnOutOfRange
            } else if ratio_eq(rat_seq(old(row)@)[column as int], ratio_zero()) {
                e == SimplexError::ZeroPivot
            } else {
                e == SimplexError::Overflow && !scale_fits(rat_seq(old(row)@), column as int)
            }),
        },
{
    broadcast use lemma_rat_seq_index;

    if row.len() == 0 || column >= row.len() - 1 {
        return Err(SimplexError::ColumnOutOfRange);
    }
    scale_by_pivot(row, column)
}

/// Scales every entry of `v` by the inverse of entry `column`, which
/// becomes exactly one.
fn scale_by_pivot(v: &mut Vec<Rat>, column: usize) -> (r: Result<bool, SimplexError>)
    requires
        rat_seq_wf(rat_seq(old(v)@)),
        (column as int) < old(v)@.len(),
    ensures
        final(v)@.len() == old(v)@.len(),
        rat_seq_wf(rat_seq(final(v)@)),
        match r {
            Ok(b) => b && !ratio_eq(rat_seq(old(v)@)[column as int], ratio_zero()) && scale_fits(
                rat_seq(old(v)@),
                column as int,
            ) && rat_seq(final(v)@) == scale_spec(rat_seq(old(v)@), column as int),
            Err(e) => final(v)@ == old(v)@ && (if ratio_eq(
                rat_seq(old(v)@)[column as int],
                ratio_zero(),
            ) {
                e == SimplexError::ZeroPivot
            } else {
                e == SimplexError::Overflow && !scale_fits(rat_seq(old(v)@), column as int)
            }),
        },
{
    broadcast use lemma_rat_seq_index;

    let pivot = v[column];
    if pivot.is_zero() {
        return Err(SimplexError::ZeroPivot);
    }
    let ghost t = rat_seq(old(v)@);
    let ghost c = column as int;
    let mut updated: Vec<Rat> = Vec::new();
    let mut k: usize = 0;
    while k < v.len()
        invariant
            v@ == old(v)@,
            (column as int) < v@.len(),
            k <= v@.len(),
            rat_seq_wf(rat_seq(v@)),
            t == rat_seq(v@),
            c == column as int,
            pivot == v@[c],
            pivot@.n != 0,
            pivot.wf(),
            updated@.len() == k as int,
            forall|j: int|
                0 <= j < k as int ==> #[trigger] updated@[j]@ == scale_spec(t, c)[j]
                    && updated@[j].wf(),
            forall|j: int|
                0 <= j < k as int && j != c ==> ratio_fits(ratio_div(#[trigger] t[j], t[c])),
        decreases v@.len() - k as int,
    {
        broadcast use lemma_rat_seq_index;

        if k == column {
            updated.push(Rat::one());
        } else {
            let scaled = match v[k].checked_div(pivot) {
                Some(x) => x,
                None => {
                    proof {
                        assert(!ratio_fits(ratio_div(t[k as int], t[c])));
                    }
                    return Err(SimplexError::Overflow);
                },
            };
            updated.push(scaled);
        }
        k += 1;
    }
    *v = updated;
    proof {
        assert(rat_seq(v@) =~= scale_spec(t, c));
    }
    Ok(true)
}

impl Row {
    /// A row holding the given cost changes, with the constant set to the
    /// negated total cost.
    pub fn new(cost_changes: Vec<Rat>, total_cost: Rat) -> (r: Self)
        requires
            total_cost.wf(),
            total_cost@.n > i32::MIN,
        ensures
            r@.a == rat_seq(cost_changes@),
            r@.b == ratio_neg(total_cost@),
            ratio_wf(r@.b),
    {
        let b = match total_cost.checked_neg() {
            Some(x) => x,
            None => Rat::zero(),
        };
        Row { a_ij: cost_changes, b_i: b }
    }

    /// Eliminates `column` from this row, using `minuend` as the pivot
    /// source row: afterwards the entry at `column` is exactly zero, every
    /// other coefficient `k` holds `self[k] + m * minuend[k]` for the
    /// multiplier `m = -(self[column] / minuend[column])`, and the
    /// constant holds `self.b + m * minuend.b`.
    pub fn reduce_row(&mut self, minuend: &Row, column: usize) -> (r: Result<bool, SimplexError>)
        requires
            row_wf(old(self)@),
            row_wf(minuend@),
        ensures
            final(self)@.a.len() == old(self)@.a.len(),
            row_wf(final(self)@),
            match r {
                Ok(b) => b && old(self)@.a.len() == minuend@.a.len() && (column as int)
                    < minuend@.a.len() && !ratio_eq(minuend@.a[column as int], ratio_zero())
                    && reduce_fits(old(self)@, minuend@, column as int) && final(self)@
                    == reduce_spec(old(self)@, minuend@, column as int),
                Err(e) => final(self)@ == old(self)@ && (if old(self)@.a.len()
                    != minuend@.a.len() {
                    e == SimplexError::LengthMismatch
                } else if minuend@.a.len() <= column as int {
                    e == SimplexError::ColumnOutOfRange
                } else if ratio_eq(minuend@.a[column as int], ratio_zero()) {
                    e == SimplexError::ZeroPivot
                } else {
                    e == SimplexError::Overflow && !reduce_fits(old(self)@, minuend@, column as int)
                }),
            },
    {
        broadcast use lemma_rat_seq_index;

        if self.a_ij.len() != minuend.a_ij.len() {
            return Err(SimplexError::LengthMismatch);
        }
        if column >= minuend.a_ij.len() {
            return Err(SimplexError::ColumnOutOfRange);
        }
        if minuend.a_ij[column].is_zero() {
            return Err(SimplexError::ZeroPivot);
        }
        let ghost t = old(self)@;
        let ghost s = minuend@;
        let ghost c = column as int;
        let dv = match self.a_ij[column].checked_div(minuend.a_ij[column]) {
            Some(x) => x,
            None => {
                return Err(SimplexError::Overflow);
            },
        };
        let multiplier = match dv.checked_neg() {
            Some(x) => x,
            None => {
                return Err(SimplexError::Overflow);
            },
        };
        proof {
            assert(multiplier@ == eliminate_multiplier(t.a, s.a, c));
        }
        let scaled_b = match multiplier.checked_mul(minuend.b_i) {
            Some(x) => x,
            None => {
                return Err(SimplexError::Overflow);
            },
        };
        let combined_b = match self.b_i.checked_add(scaled_b) {
            Some(x) => x,
            None => {
                return Err(SimplexError::Overflow);
            },
        };
        match subtract_rows_setting_column_to_zero(&mut self.a_ij, &minuend.a_ij, column) {
            Ok(_) => {},
            Err(e) => {
                proof {
                    assert(e == SimplexError::Overflow);
                    assert(!eliminate_fits(t.a, s.a, c));
                }
                return Err(SimplexError::Overflow);
            },
        }
        self.b_i = combined_b;
        proof {
            assert(self@ =~= reduce_spec(t, s, c));
        }
        Ok(true)
    }

    /// Scales this row so that the entry at `column` becomes exactly one;
    /// the constant is divided by the old entry. Applying it a second time
    /// to the same column changes nothing.
    pub fn reduce_row_till_column_one(&mut self, column: usize) -> (r: Result<bool, SimplexError>)
        requires
            row_wf(old(self)@),
        ensures
            final(self)@.a.len() == old(self)@.a.len(),
            row_wf(final(self)@),
            match r {
                Ok(b) => b && (column as int) < old(self)@.a.len() && !ratio_eq(
                    old(self)@.a[column as int],
                    ratio_zero(),
                ) && normalize_fits(old(self)@, column as int) && final(self)@ == normalize_spec(
                    old(self)@,
                    column as int,
                ),
                Err(e) => final(self)@ == old(self)@ && (if old(self)@.a.len() <= column as int {
                    e == SimplexError::ColumnOutOfRange
                } else if ratio_eq(old(self)@.a[column as int], ratio_zero()) {
                    e == SimplexError::ZeroPivot
                } else {
                    e == SimplexError::Overflow && !normalize_fits(old(self)@, column as int)
                }),
            },
    {
        broadcast use lemma_rat_seq_index;

        if column >= self.a_ij.len() {
            return Err(SimplexError::ColumnOutOfRange);
        }
        let ghost t = old(self)@;
        let ghost c = column as int;
        let pivot = self.a_ij[column];
        if pivot.is_zero() {
            return Err(SimplexError::ZeroPivot);
        }
        let scaled_b = match self.b_i.checked_div(pivot) {
            Some(x) => x,
            None => {
                return Err(SimplexError::Overflow);
            },
        };
        match scale_by_pivot(&mut self.a_ij, column) {
            Ok(_) => {},
            Err(e) => {
                proof {
                    assert(e == SimplexError::Overflow);
                }
                return Err(SimplexError::Overflow);
            },
        }
        self.b_i = scaled_b;
        proof {
            assert(self@ =~= normalize_spec(t, c));
        }
        Ok(true)
    }
}

} // verus!
