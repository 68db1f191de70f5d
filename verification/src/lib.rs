//! A tableau simplex solver for standard-form linear programs.
//!
//! The solver works on dense tableau rows whose entries are exact rational
//! numbers, validates its input against the invariants the algorithm relies
//! on, and uses a lexicographic pivot-row rule so that degenerate bases
//! cannot make the iteration cycle.

pub mod pivot;
pub mod rational;
pub mod row_arithmetic;
pub mod simplex;
pub mod solve_linear_equations;

use vstd::prelude::*;

use crate::rational::ratio_fits;
use crate::rational::ratio_neg;
use crate::row_arithmetic::SimplexError;
use crate::row_arithmetic::SimplexResult;
use crate::simplex::chosen_pivot;
use crate::simplex::column_failed;
use crate::simplex::lp_engine_wf;
use crate::simplex::lp_lengths_ok;
use crate::simplex::lp_rats_wf;
use crate::simplex::negative_cost_col;
use crate::simplex::pivot_fits;
use crate::simplex::reaches;
use crate::simplex::spec_binomial;
use crate::simplex::unit_entry;
use crate::simplex::with_initial_costs;
use crate::simplex::zero_rel_cost;
use crate::simplex::LinearProgram;
use crate::simplex::LpV;

verus! {

/// Solves an admitted linear program in place: derives the relative-cost
/// row, drives simplex iterations to a terminal outcome, and on an
/// optimal finish reads the solution out of the final basis.
pub fn run(linear_program: &mut LinearProgram) -> (r: SimplexResult)
    requires
        lp_rats_wf(old(linear_program)@),
        old(linear_program)@.tableau.len() > 0,
        lp_lengths_ok(old(linear_program)@),
    ensures
        r != SimplexResult::IterationComplete,
        final(linear_program)@.costs == old(linear_program)@.costs,
        final(linear_program)@.tableau.len() == old(linear_program)@.tableau.len(),
        match r {
            SimplexResult::Finished => {
                &&& forall|c: int|
                    0 <= c < final(linear_program)@.relative_costs.a.len() ==> !negative_cost_col(
                        final(linear_program)@,
                        c,
                    )
                &&& forall|i: int, c: int|
                    0 <= i < final(linear_program)@.tableau.len() && 0 <= c < final(linear_program)@.relative_costs.a.len() && zero_rel_cost(final(linear_program)@, c)
                        && unit_entry(final(linear_program)@, i, c) ==> final(linear_program)@.solution[c] == final(linear_program)@.tableau[i].b
                &&& forall|c: int|
                    0 <= c < final(linear_program)@.relative_costs.a.len() && (forall|i: int|
                        0 <= i < final(linear_program)@.tableau.len() ==> !(zero_rel_cost(
                            final(linear_program)@,
                            c,
                        ) && unit_entry(final(linear_program)@, i, c))) ==> final(linear_program)@.solution[c] == crate::rational::ratio_zero()
                &&& forall|i: int, j: int, c: int|
                    0 <= i < final(linear_program)@.tableau.len() && 0 <= j < final(linear_program)@.tableau.len() && 0 <= c < final(linear_program)@.relative_costs.a.len()
                        && zero_rel_cost(final(linear_program)@, c) && unit_entry(
                        final(linear_program)@,
                        i,
                        c,
                    ) && unit_entry(final(linear_program)@, j, c) ==> i == j
            },
            SimplexResult::Unbound => final(linear_program)@.solution == old(linear_program)@.solution && (exists|c: int|
                0 <= c < final(linear_program)@.relative_costs.a.len() && negative_cost_col(
                    final(linear_program)@,
                    c,
                )) && forall|c: int|
                0 <= c < final(linear_program)@.relative_costs.a.len() && negative_cost_col(
                    final(linear_program)@,
                    c,
                ) ==> column_failed(final(linear_program)@, c),
            SimplexResult::IterationComplete => false,
            SimplexResult::Error(e) => e == SimplexError::Overflow || e
                == SimplexError::IterationLimit || e == SimplexError::AmbiguousBasicColumn,
        },
        r == SimplexResult::Finished ==> exists|n: nat, w: LpV|
            #![trigger reaches(with_initial_costs(old(linear_program)@), w, n)]
            reaches(with_initial_costs(old(linear_program)@), w, n) && final(linear_program)@.tableau == w.tableau && final(linear_program)@.relative_costs == w.relative_costs,
        r == SimplexResult::Unbound ==> exists|n: nat|
            reaches(with_initial_costs(old(linear_program)@), final(linear_program)@, n),
        r == SimplexResult::Error(SimplexError::Overflow) ==> (!(forall|k: int|
            old(linear_program)@.tableau.len() <= k < old(linear_program)@.costs.len()
                ==> ratio_fits(ratio_neg(#[trigger] old(linear_program)@.costs[k])))) || (exists|
            n: nat,
            w: LpV,
            pr: int,
            pc: int,
        |
            #![trigger reaches(with_initial_costs(old(linear_program)@), w, n), chosen_pivot(w, pr, pc)]
            reaches(with_initial_costs(old(linear_program)@), w, n) && chosen_pivot(w, pr, pc)
                && !pivot_fits(w, pr, pc)),
        r == SimplexResult::Error(SimplexError::IterationLimit) ==> exists|n: nat|
            reaches(with_initial_costs(old(linear_program)@), final(linear_program)@, n) && (n
                > spec_binomial(old(linear_program)@.costs.len(), old(linear_program)@.tableau.len())
                || n >= u64::MAX as nat),
        r == SimplexResult::Error(SimplexError::AmbiguousBasicColumn) ==> exists|
            c: int,
            i: int,
            j: int,
        |
            #![trigger unit_entry(final(linear_program)@, i, c), unit_entry(final(linear_program)@, j, c)]
            0 <= c < final(linear_program)@.relative_costs.a.len() && 0 <= i < final(linear_program)@.tableau.len() && 0 <= j < final(linear_program)@.tableau.len() && i != j
                && zero_rel_cost(final(linear_program)@, c) && unit_entry(final(linear_program)@, i, c)
                && unit_entry(final(linear_program)@, j, c),
{
    let relative_costs = match linear_program.calculate_costs() {
        Ok(row) => row,
        Err(e) => {
            return SimplexResult::Error(e);
        },
    };
    linear_program.relative_costs = relative_costs;
    let ghost assigned = linear_program@;
    proof {
        assert(lp_engine_wf(linear_program@));
        assert(assigned =~= with_initial_costs(old(linear_program)@));
    }
    match linear_program.preform_simplex() {
        SimplexResult::Finished => {},
        SimplexResult::Unbound => {
            return SimplexResult::Unbound;
        },
        SimplexResult::IterationComplete => {
            return SimplexResult::Error(SimplexError::IterationLimit);
        },
        SimplexResult::Error(error) => {
            return SimplexResult::Error(error);
        },
    }
    let ghost solved = linear_program@;
    proof {
        let n = choose|n: nat| reaches(assigned, solved, n);
        assert(reaches(with_initial_costs(old(linear_program)@), solved, n));
    }
    match linear_program.set_solution() {
        Ok(_) => {
            proof {
                assert forall|c: int|
                    0 <= c < linear_program@.relative_costs.a.len() implies !negative_cost_col(
                    linear_program@,
                    c,
                ) by {
                    assert(!negative_cost_col(solved, c));
                }
                assert forall|i: int, c: int|
                    0 <= i < linear_program@.tableau.len() && 0 <= c
                        < linear_program@.relative_costs.a.len() && zero_rel_cost(
                        linear_program@,
                        c,
                    ) && unit_entry(linear_program@, i, c) implies linear_program@.solution[c]
                    == linear_program@.tableau[i].b by {
                    assert(zero_rel_cost(solved, c));
                    assert(unit_entry(solved, i, c));
                }
                assert forall|i: int, j: int, c: int|
                    0 <= i < linear_program@.tableau.len() && 0 <= j
                        < linear_program@.tableau.len() && 0 <= c
                        < linear_program@.relative_costs.a.len() && zero_rel_cost(
                        linear_program@,
                        c,
                    ) && unit_entry(linear_program@, i, c) && unit_entry(
                        linear_program@,
                        j,
                        c,
                    ) implies i == j by {
                    assert(zero_rel_cost(solved, c));
                    assert(unit_entry(solved, i, c));
                    assert(unit_entry(solved, j, c));
                }
                assert forall|c: int|
                    0 <= c < linear_program@.relative_costs.a.len() && (forall|i: int|
                        0 <= i < linear_program@.tableau.len() ==> !(zero_rel_cost(
                            linear_program@,
                            c,
                        ) && unit_entry(linear_program@, i, c))) implies linear_program@.solution[c]
                    == crate::rational::ratio_zero() by {
                    assert forall|i: int|
                        0 <= i < solved.tableau.len() implies !(zero_rel_cost(solved, c)
                        && unit_entry(solved, i, c)) by {
                        if zero_rel_cost(solved, c) && unit_entry(solved, i, c) {
                            assert(zero_rel_cost(linear_program@, c));
                            assert(unit_entry(linear_program@, i, c));
                        }
                    }
                }
            }
            SimplexResult::Finished
        },
        Err(e) => {
            proof {
                let (c, i, j) = choose|c: int, i: int, j: int|
                    0 <= c < solved.relative_costs.a.len() && 0 <= i < solved.tableau.len() && 0
                        <= j < solved.tableau.len() && i != j && zero_rel_cost(solved, c)
                        && #[trigger] unit_entry(solved, i, c) && #[trigger] unit_entry(
                        solved,
                        j,
                        c,
                    );
                assert(zero_rel_cost(linear_program@, c) && unit_entry(linear_program@, i, c)
                    && unit_entry(linear_program@, j, c));
            }
            SimplexResult::Error(e)
        },
    }
}

} // verus!
