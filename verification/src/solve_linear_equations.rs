//! A generic linear-system solver over the same row primitives.
//!
//! This secondary component repeatedly picks a fresh (row, column) pair
//! with a non-zero entry, eliminates that column everywhere else, and
//! stops when every equation has been assigned a pivot. It answers a
//! different question than the simplex engine (solvability of `Ax = b`,
//! no objective), and its contract is deliberately lighter: the shared
//! row operations carry the exact arithmetic guarantees.

use vstd::prelude::*;

use crate::rational::ratio_eq;
use crate::rational::ratio_one;
use crate::rational::ratio_zero;
use crate::row_arithmetic::lemma_rat_seq_index;
use crate::row_arithmetic::row_wf;
use crate::row_arithmetic::Position;
use crate::row_arithmetic::Row;
use crate::row_arithmetic::RowV;
use crate::row_arithmetic::SimplexError;
use crate::simplex::lemma_row_seq_index;
use crate::simplex::row_seq;

verus! {

/// A system of linear equations, one row per equation.
#[derive(Clone, Debug)]
pub struct LinearSystem {
    pub equations: Vec<Row>,
}

/// The outcome of the pivot search: a fresh (row, column) pair with a
/// non-zero entry, or the report that none is left.
#[derive(Clone, Copy, Debug)]
pub enum RowColumnResult {
    Found((usize, usize)),
    NotFound,
}

pub open spec fn ls_wf(eqs: Seq<RowV>) -> bool {
    forall|i: int| 0 <= i < eqs.len() ==> row_wf(#[trigger] eqs[i])
}

/// Whether some assigned pivot already uses equation `i`.
pub open spec fn pivot_row_used(ps: Seq<Position>, i: int) -> bool {
    exists|p: int| 0 <= p < ps.len() && ((#[trigger] ps[p]).row as int) == i
}

/// Whether some assigned pivot already uses column `c`.
pub open spec fn pivot_col_used(ps: Seq<Position>, c: int) -> bool {
    exists|p: int| 0 <= p < ps.len() && ((#[trigger] ps[p]).column as int) == c
}

/// A usable pivot: a fresh equation, a fresh column, and a non-zero
/// entry where they meet.
pub open spec fn pivot_candidate(eqs: Seq<RowV>, ps: Seq<Position>, i: int, c: int) -> bool {
    &&& 0 <= i < eqs.len()
    &&& !pivot_row_used(ps, i)
    &&& 0 <= c < eqs[i].a.len()
    &&& !pivot_col_used(ps, c)
    &&& !ratio_eq(eqs[i].a[c], ratio_zero())
}

/// Every step of one whole pivot at `(row, c)` is well-defined and stays
/// in the representable range: the column lies in the pivot row, its
/// entry is non-zero, every equation shares the pivot row's width, and
/// the normalize/reduce arithmetic fits.
pub open spec fn reduce_rows_succeeds(eqs: Seq<RowV>, row: int, c: int) -> bool {
    let norm = crate::row_arithmetic::normalize_spec(eqs[row], c);
    &&& 0 <= c < eqs[row].a.len()
    &&& !ratio_eq(eqs[row].a[c], ratio_zero())
    &&& crate::row_arithmetic::normalize_fits(eqs[row], c)
    &&& forall|i: int|
        0 <= i < eqs.len() && i != row ==> (#[trigger] eqs[i]).a.len() == eqs[row].a.len()
            && crate::row_arithmetic::reduce_fits(eqs[i], norm, c)
}

/// A product with a zero factor is zero.
proof fn lemma_zero_factor(x: int, y: int)
    requires
        x == 0,
    ensures
        x * y == 0,
        y * x == 0,
{
    assert(x * y == 0 && y * x == 0) by (nonlinear_arith)
        requires
            x == 0,
    ;
}

/// A set of assigned pivots in reduced row echelon shape: distinct
/// equations, distinct columns, and each pivot column holds exactly one
/// in its own equation and exactly zero in every other.
pub open spec fn echelon_pivots(eqs: Seq<RowV>, ps: Seq<Position>) -> bool {
    &&& forall|p: int| 0 <= p < ps.len() ==> ((#[trigger] ps[p]).row as int) < eqs.len()
    &&& forall|p: int, q: int|
        0 <= p < q < ps.len() ==> (#[trigger] ps[p]).row != (#[trigger] ps[q]).row
            && ps[p].column != ps[q].column
    &&& forall|p: int, i: int|
        #![trigger ps[p], eqs[i]]
        0 <= p < ps.len() && 0 <= i < eqs.len() ==> ((ps[p].column as int) < eqs[i].a.len()
            && ratio_eq(
            eqs[i].a[ps[p].column as int],
            if i == ps[p].row as int {
                ratio_one()
            } else {
                ratio_zero()
            },
        ))
}

/// Whether `solution_map` already uses equation `row`.
fn map_uses_row(solution_map: &Vec<Position>, row: usize) -> (r: bool)
    ensures
        r == pivot_row_used(solution_map@, row as int),
{
    let mut p: usize = 0;
    while p < solution_map.len()
        invariant
            p <= solution_map@.len(),
            forall|q: int|
                0 <= q < p as int ==> ((#[trigger] solution_map@[q]).row as int) != row as int,
        decreases solution_map@.len() - p as int,
    {
        if solution_map[p].row == row {
            return true;
        }
        p += 1;
    }
    false
}

/// Whether `solution_map` already uses column `column`.
fn map_uses_column(solution_map: &Vec<Position>, column: usize) -> (r: bool)
    ensures
        r == pivot_col_used(solution_map@, column as int),
{
    let mut p: usize = 0;
    while p < solution_map.len()
        invariant
            p <= solution_map@.len(),
            forall|q: int|
                0 <= q < p as int ==> ((#[trigger] solution_map@[q]).column as int)
                    != column as int,
        decreases solution_map@.len() - p as int,
    {
        if solution_map[p].column == column {
            return true;
        }
        p += 1;
    }
    false
}

impl LinearSystem {
    pub fn new(equations: Vec<Row>) -> (r: Self)
        ensures
            r.equations@ == equations@,
    {
        LinearSystem { equations }
    }

    /// Finds the first fresh (row, column) pair, in row-major order,
    /// whose entry is non-zero.
    pub fn determine_column_and_row(&self, solution_map: &Vec<Position>) -> (r: RowColumnResult)
        ensures
            match r {
                RowColumnResult::Found(pair) => pivot_candidate(
                    row_seq(self.equations@),
                    solution_map@,
                    pair.0 as int,
                    pair.1 as int,
                ) && (forall|c: int|
                    0 <= c < pair.1 as int ==> !pivot_candidate(
                        row_seq(self.equations@),
                        solution_map@,
                        pair.0 as int,
                        c,
                    )) && (forall|i: int, c: int|
                    0 <= i < pair.0 as int ==> !pivot_candidate(
                        row_seq(self.equations@),
                        solution_map@,
                        i,
                        c,
                    )),
                RowColumnResult::NotFound => forall|i: int, c: int|
                    !pivot_candidate(row_seq(self.equations@), solution_map@, i, c),
            },
    {
        broadcast use lemma_row_seq_index, lemma_rat_seq_index;

        let mut row_index: usize = 0;
        while row_index < self.equations.len()
            invariant
                row_index <= self.equations@.len(),
                forall|i: int, c: int|
                    0 <= i < row_index as int ==> !pivot_candidate(
                        row_seq(self.equations@),
                        solution_map@,
                        i,
                        c,
                    ),
            decreases self.equations@.len() - row_index as int,
        {
            broadcast use lemma_row_seq_index, lemma_rat_seq_index;

            if !map_uses_row(solution_map, row_index) {
                let mut column_index: usize = 0;
                while column_index < self.equations[row_index].a_ij.len()
                    invariant
                        row_index < self.equations@.len(),
                        !pivot_row_used(solution_map@, row_index as int),
                        forall|i: int, c: int|
                            0 <= i < row_index as int ==> !pivot_candidate(
                                row_seq(self.equations@),
                                solution_map@,
                                i,
                                c,
                            ),
                        column_index <= row_seq(self.equations@)[row_index as int].a.len(),
                        forall|c: int|
                            0 <= c < column_index as int ==> !pivot_candidate(
                                row_seq(self.equations@),
                                solution_map@,
                                row_index as int,
                                c,
                            ),
                    decreases row_seq(self.equations@)[row_index as int].a.len()
                        - column_index as int,
                {
                    broadcast use lemma_row_seq_index, lemma_rat_seq_index;

                    if !map_uses_column(solution_map, column_index)
                        && !self.equations[row_index].a_ij[column_index].is_zero() {
                        return RowColumnResult::Found((row_index, column_index));
                    }
                    column_index += 1;
                }
            }
            row_index += 1;
        }
        RowColumnResult::NotFound
    }

    /// Normalizes the chosen pivot row so its pivot column becomes one,
    /// then eliminates that column from every other equation.
    fn reduce_rows(&mut self, column: usize, row: usize) -> (r: Result<bool, SimplexError>)
        requires
            ls_wf(row_seq(old(self).equations@)),
            (row as int) < old(self).equations@.len(),
        ensures
            ls_wf(row_seq(final(self).equations@)),
            final(self).equations@.len() == old(self).equations@.len(),
            forall|i: int|
                0 <= i < old(self).equations@.len() ==> (#[trigger] row_seq(
                    final(self).equations@,
                )[i]).a.len() == row_seq(old(self).equations@)[i].a.len(),
            r.is_ok() <==> reduce_rows_succeeds(
                row_seq(old(self).equations@),
                row as int,
                column as int,
            ),
            match r {
                Ok(b) => {
                    let norm = crate::row_arithmetic::normalize_spec(
                        row_seq(old(self).equations@)[row as int],
                        column as int,
                    );
                    &&& b
                    &&& row_seq(final(self).equations@)[row as int] == norm
                    &&& forall|i: int|
                        0 <= i < old(self).equations@.len() && i != row as int
                            ==> #[trigger] row_seq(final(self).equations@)[i]
                            == crate::row_arithmetic::reduce_spec(
                            row_seq(old(self).equations@)[i],
                            norm,
                            column as int,
                        )
                },
                Err(e) => {
                    let pre = row_seq(old(self).equations@);
                    let norm = crate::row_arithmetic::normalize_spec(
                        pre[row as int],
                        column as int,
                    );
                    &&& (e == SimplexError::ColumnOutOfRange || e == SimplexError::ZeroPivot || e
                        == SimplexError::LengthMismatch || e == SimplexError::Overflow)
                    &&& (e == SimplexError::ColumnOutOfRange ==> pre[row as int].a.len()
                        <= column as int)
                    &&& (e == SimplexError::ZeroPivot ==> (column as int) < pre[row as int].a.len()
                        && ratio_eq(pre[row as int].a[column as int], ratio_zero()))
                    &&& (e == SimplexError::LengthMismatch ==> exists|i: int|
                        0 <= i < pre.len() && i != row as int && (#[trigger] pre[i]).a.len()
                            != pre[row as int].a.len())
                    &&& (e == SimplexError::Overflow ==> !crate::row_arithmetic::normalize_fits(
                        pre[row as int],
                        column as int,
                    ) || (exists|i: int|
                        0 <= i < pre.len() && i != row as int
                            && !crate::row_arithmetic::reduce_fits(
                            #[trigger] pre[i],
                            norm,
                            column as int,
                        )))
                },
            },
    {
        broadcast use lemma_row_seq_index, lemma_rat_seq_index;

        let ghost pre = row_seq(old(self).equations@);
        let mut pivot_row = crate::simplex::copy_row(&self.equations[row]);
        match pivot_row.reduce_row_till_column_one(column) {
            Ok(_) => {},
            Err(e) => {
                return Err(e);
            },
        }
        let ghost norm = crate::row_arithmetic::normalize_spec(pre[row as int], column as int);
        let equation_to_reduce_by = crate::simplex::copy_row(&pivot_row);
        self.equations.set(row, pivot_row);
        let mut i: usize = 0;
        while i < self.equations.len()
            invariant
                pre == row_seq(old(self).equations@),
                ls_wf(pre),
                pre.len() == self.equations@.len(),
                (row as int) < self.equations@.len(),
                (column as int) < pre[row as int].a.len(),
                norm == crate::row_arithmetic::normalize_spec(pre[row as int], column as int),
                row_wf(norm),
                equation_to_reduce_by@ == norm,
                i <= self.equations@.len(),
                row_seq(self.equations@)[row as int] == norm,
                forall|j: int|
                    0 <= j < self.equations@.len() && j != row as int ==> row_wf(
                        #[trigger] row_seq(self.equations@)[j],
                    ),
                forall|j: int|
                    0 <= j < self.equations@.len() ==> (#[trigger] row_seq(
                        self.equations@,
                    )[j]).a.len() == pre[j].a.len(),
                forall|j: int|
                    0 <= j < i as int && j != row as int ==> #[trigger] row_seq(
                        self.equations@,
                    )[j] == crate::row_arithmetic::reduce_spec(pre[j], norm, column as int),
                forall|j: int|
                    0 <= j < i as int && j != row as int ==> (#[trigger] pre[j]).a.len()
                        == pre[row as int].a.len() && crate::row_arithmetic::reduce_fits(
                        pre[j],
                        norm,
                        column as int,
                    ),
                forall|j: int|
                    i as int <= j < self.equations@.len() && j != row as int ==> #[trigger] row_seq(
                        self.equations@,
                    )[j] == pre[j],
            decreases self.equations@.len() - i as int,
        {
            broadcast use lemma_row_seq_index, lemma_rat_seq_index;

            if i != row {
                let mut equation = crate::simplex::copy_row(&self.equations[i]);
                proof {
                    assert(equation@ == pre[i as int]);
                }
                match equation.reduce_row(&equation_to_reduce_by, column) {
                    Ok(_) => {},
                    Err(e) => {
                        proof {
                            assert(e == SimplexError::LengthMismatch || e
                                == SimplexError::Overflow);
                            if e == SimplexError::LengthMismatch {
                                assert(pre[i as int].a.len() != pre[row as int].a.len());
                            } else {
                                assert(!crate::row_arithmetic::reduce_fits(
                                    pre[i as int],
                                    norm,
                                    column as int,
                                ));
                            }
                        }
                        return Err(e);
                    },
                }
                self.equations.set(i, equation);
                proof {
                    assert(row_seq(self.equations@)[i as int] == crate::row_arithmetic::reduce_spec(
                        pre[i as int],
                        norm,
                        column as int,
                    ));
                    assert(row_seq(self.equations@)[row as int] == norm);
                }
            }
            i += 1;
        }
        Ok(true)
    }

    /// Brings the system into reduced row echelon form, one pivot per
    /// equation, or reports that no usable pivot is left. On success the
    /// assigned pivots have distinct equations and columns, each pivot
    /// column is one in its own equation and zero in every other, and one
    /// pivot was assigned per equation (or per column, when there are
    /// fewer columns). Failure is either `NotReducible` — no fresh
    /// (equation, column) pair with a non-zero entry is left — or an
    /// arithmetic error from one elimination pass.
    pub fn solve_system_of_linear_equations(&mut self) -> (r: Result<bool, SimplexError>)
        requires
            ls_wf(row_seq(old(self).equations@)),
        ensures
            ls_wf(row_seq(final(self).equations@)),
            final(self).equations@.len() == old(self).equations@.len(),
            forall|i: int|
                0 <= i < old(self).equations@.len() ==> (#[trigger] row_seq(
                    final(self).equations@,
                )[i]).a.len() == row_seq(old(self).equations@)[i].a.len(),
            r matches Ok(b) ==> b && (exists|ps: Seq<Position>|
                #[trigger] echelon_pivots(row_seq(final(self).equations@), ps) && (ps.len()
                    == final(self).equations@.len() || (final(self).equations@.len() > 0
                    && ps.len() == row_seq(final(self).equations@)[0].a.len()))),
            r == Err::<bool, SimplexError>(SimplexError::NotReducible) ==> exists|
                ps: Seq<Position>,
            |
                #[trigger] echelon_pivots(row_seq(final(self).equations@), ps) && (forall|
                    i: int,
                    c: int,
                |
                    !pivot_candidate(row_seq(final(self).equations@), ps, i, c)),
            r matches Err(e) ==> e == SimplexError::NotReducible || e
                == SimplexError::LengthMismatch || e == SimplexError::Overflow,
    {
        broadcast use lemma_row_seq_index;

        let mut solution_map: Vec<Position> = Vec::new();
        let mut iteration_count: usize = 0;
        while solution_map.len() != self.equations.len() && iteration_count
            < self.equations[0].a_ij.len()
            invariant
                ls_wf(row_seq(self.equations@)),
                self.equations@.len() == old(self).equations@.len(),
                forall|i: int|
                    0 <= i < self.equations@.len() ==> (#[trigger] row_seq(
                        self.equations@,
                    )[i]).a.len() == row_seq(old(self).equations@)[i].a.len(),
                solution_map@.len() <= self.equations@.len(),
                solution_map@.len() == iteration_count as int,
                self.equations@.len() > 0 ==> iteration_count as int <= row_seq(
                    old(self).equations@,
                )[0].a.len(),
                echelon_pivots(row_seq(self.equations@), solution_map@),
            decreases usize::MAX - iteration_count as int,
        {
            broadcast use lemma_row_seq_index;

            iteration_count += 1;
            match self.determine_column_and_row(&solution_map) {
                RowColumnResult::Found((row, column)) => {
                    let ghost eqs0 = row_seq(self.equations@);
                    let ghost prior = solution_map@;
                    match self.reduce_rows(column, row) {
                        Ok(_) => {},
                        Err(error) => {
                            proof {
                                assert(error != SimplexError::ColumnOutOfRange && error
                                    != SimplexError::ZeroPivot);
                            }
                            return Err(error);
                        },
                    }
                    proof {
                        lemma_pivot_pass_keeps_echelon(eqs0, row_seq(self.equations@), prior,
                            row as int, column as int);
                    }
                    solution_map.push(Position::new(row, column));
                    proof {
                        assert(solution_map@[prior.len() as int] == (Position {
                            row,
                            column,
                        }));
                        lemma_push_keeps_echelon(row_seq(self.equations@), prior, row as int,
                            column as int);
                    }
                },
                RowColumnResult::NotFound => {
                    proof {
                        assert(echelon_pivots(row_seq(self.equations@), solution_map@));
                    }
                    return Err(SimplexError::NotReducible);
                },
            }
        }
        proof {
            assert(echelon_pivots(row_seq(self.equations@), solution_map@));
        }
        Ok(true)
    }
}

/// One elimination pass at a fresh pivot keeps every previously assigned
/// pivot column in echelon shape: the pass scales the pivot equation and
/// adds multiples of it to the others, and the pivot equation holds an
/// exact zero in every previously assigned column, so those columns keep
/// their values as rational numbers.
proof fn lemma_pivot_pass_keeps_echelon(
    eqs0: Seq<RowV>,
    eqs1: Seq<RowV>,
    ps: Seq<Position>,
    row: int,
    c: int,
)
    requires
        echelon_pivots(eqs0, ps),
        eqs1.len() == eqs0.len(),
        0 <= row < eqs0.len(),
        !pivot_row_used(ps, row),
        !pivot_col_used(ps, c),
        reduce_rows_succeeds(eqs0, row, c),
        eqs1[row] == crate::row_arithmetic::normalize_spec(eqs0[row], c),
        forall|i: int|
            0 <= i < eqs0.len() && i != row ==> #[trigger] eqs1[i]
                == crate::row_arithmetic::reduce_spec(
                eqs0[i],
                crate::row_arithmetic::normalize_spec(eqs0[row], c),
                c,
            ),
        forall|i: int|
            0 <= i < eqs0.len() ==> (#[trigger] eqs1[i]).a.len() == eqs0[i].a.len(),
    ensures
        echelon_pivots(eqs1, ps),
{
    let norm = crate::row_arithmetic::normalize_spec(eqs0[row], c);
    assert forall|p: int, i: int|
        #![trigger ps[p], eqs1[i]]
        0 <= p < ps.len() && 0 <= i < eqs1.len() implies ((ps[p].column as int) < eqs1[i].a.len()
        && ratio_eq(
        eqs1[i].a[ps[p].column as int],
        if i == ps[p].row as int {
            ratio_one()
        } else {
            ratio_zero()
        },
    )) by {
        let c0 = ps[p].column as int;
        let r0 = ps[p].row as int;
        assert((c0 as int) < eqs0[i].a.len() && ratio_eq(
            eqs0[i].a[c0],
            if i == r0 {
                ratio_one()
            } else {
                ratio_zero()
            },
        ));
        assert(c0 != c);
        assert(r0 != row);
        // the pivot equation's entry in an assigned column is exactly zero
        assert(ratio_eq(eqs0[row].a[c0], ratio_zero()));
        assert(eqs0[row].a[c0].n == 0);
        assert(norm.a[c0] == crate::rational::ratio_div(eqs0[row].a[c0], eqs0[row].a[c]));
        lemma_zero_factor(eqs0[row].a[c0].n, eqs0[row].a[c].d);
        assert(norm.a[c0].n == 0);
        if i == row {
            assert(eqs1[i].a[c0] == norm.a[c0]);
        } else {
            let m = crate::row_arithmetic::eliminate_multiplier(eqs0[i].a, norm.a, c);
            let scaled = crate::rational::ratio_mul(m, norm.a[c0]);
            assert(eqs1[i].a[c0] == crate::rational::ratio_add(eqs0[i].a[c0], scaled));
            lemma_zero_factor(norm.a[c0].n, m.n);
            assert(scaled.n == 0);
            let x = eqs0[i].a[c0];
            lemma_zero_factor(scaled.n, x.d);
            assert(eqs1[i].a[c0].n == x.n * scaled.d);
            assert(eqs1[i].a[c0].d == x.d * scaled.d);
            if i == r0 {
                assert(x.n == x.d);
                assert(x.n * scaled.d == x.d * scaled.d);
            } else {
                assert(x.n == 0);
                lemma_zero_factor(x.n, scaled.d);
            }
        }
    }
}

/// Assigning one more fresh pivot, whose column the pass has just turned
/// into a unit column, keeps the assignment in echelon shape.
proof fn lemma_push_keeps_echelon(eqs1: Seq<RowV>, ps: Seq<Position>, row: int, c: int)
    requires
        echelon_pivots(eqs1, ps),
        0 <= row < eqs1.len(),
        0 <= c,
        !pivot_row_used(ps, row),
        !pivot_col_used(ps, c),
        forall|i: int|
            0 <= i < eqs1.len() ==> c < (#[trigger] eqs1[i]).a.len() && ratio_eq(
                eqs1[i].a[c],
                if i == row {
                    ratio_one()
                } else {
                    ratio_zero()
                },
            ),
        row <= usize::MAX,
        c <= usize::MAX,
    ensures
        echelon_pivots(
            eqs1,
            ps.push(Position { row: row as usize, column: c as usize }),
        ),
{
    let extended = ps.push(Position { row: row as usize, column: c as usize });
    assert forall|p: int, q: int|
        0 <= p < q < extended.len() implies (#[trigger] extended[p]).row != (
    #[trigger] extended[q]).row && extended[p].column != extended[q].column by {
        if q == ps.len() {
            assert(extended[p] == ps[p]);
        }
    }
    assert forall|p: int, i: int|
        #![trigger extended[p], eqs1[i]]
        0 <= p < extended.len() && 0 <= i < eqs1.len() implies ((extended[p].column as int)
        < eqs1[i].a.len() && ratio_eq(
        eqs1[i].a[extended[p].column as int],
        if i == extended[p].row as int {
            ratio_one()
        } else {
            ratio_zero()
        },
    )) by {
        if p < ps.len() {
            assert(extended[p] == ps[p]);
        }
    }
}

} // verus!
