use simplex_tableau::rational::Rat;
use simplex_tableau::row_arithmetic::Row;
use simplex_tableau::row_arithmetic::SimplexError;
use simplex_tableau::row_arithmetic::SimplexResult;
use simplex_tableau::run;
use simplex_tableau::simplex::perform_checks;
use simplex_tableau::simplex::LinearProgram;

fn r(n: i32) -> Rat {
    Rat::from_int(n)
}

fn row(entries: Vec<i32>, constant: i32) -> Row {
    Row { a_ij: entries.into_iter().map(r).collect(), b_i: r(constant) }
}

enum LinearProgramResponse {
    LinearProgram(Row),
    Unbound(String),
    Error(String),
}

fn simplex_procedure(linear_program: &mut LinearProgram) -> LinearProgramResponse {
    match perform_checks(linear_program) {
        Ok(_) => (),
        Err(error) => return LinearProgramResponse::Error(error.message()),
    };

    match run(linear_program) {
        SimplexResult::Finished => (),
        SimplexResult::Unbound => {
            return LinearProgramResponse::Unbound(String::from(
                "Problem is unbound and the optimal solution is infinity",
            ))
        },
        SimplexResult::IterationComplete => {
            return LinearProgramResponse::Error(String::from(
                "Iteration complete, you should never get this though",
            ))
        },
        SimplexResult::Error(error) => return LinearProgramResponse::Error(error.message()),
    };

    let response_row = Row {
        a_ij: linear_program.solution.clone(),
        b_i: linear_program.relative_costs.b_i,
    };

    LinearProgramResponse::LinearProgram(response_row)
}

#[test]
fn test_all_checks_passed_has_optimal_solution() {
    let tableau = vec![row(vec![1, 0, 1, 1], 1), row(vec![0, 1, 2, 1], 1)];

    let mut linear_program = LinearProgram {
        tableau,
        costs: vec![r(0), r(0), r(1), r(2)],
        relative_costs: row(vec![0, 0, 0, 0], 0),
        solution: vec![r(1), r(1), r(0), r(0)],
    };

    match simplex_procedure(&mut linear_program) {
        LinearProgramResponse::LinearProgram(solution) => assert!(solution.b_i.equals(r(2))),
        LinearProgramResponse::Unbound(_) => assert!(false),
        LinearProgramResponse::Error(_) => assert!(false),
    };
}

#[test]
fn test_all_checks_passed_unbound() {
    let tableau = vec![row(vec![1, 0, 0, 1], 1), row(vec![0, 1, 0, 1], 1)];

    let mut linear_program = LinearProgram {
        tableau,
        costs: vec![r(0), r(0), r(1), r(2)],
        relative_costs: row(vec![0, 0, 0, 0], 0),
        solution: vec![r(1), r(1), r(0), r(0)],
    };

    match simplex_procedure(&mut linear_program) {
        LinearProgramResponse::LinearProgram(_) => assert!(false),
        LinearProgramResponse::Unbound(_) => assert!(true),
        LinearProgramResponse::Error(_) => assert!(false),
    };
}

#[test]
fn test_mismatched_row_length() {
    let tableau = vec![row(vec![1, 0, 0, 1], 1), row(vec![0, 1, 0], 1)];

    let mut linear_program = LinearProgram {
        tableau,
        costs: vec![r(0), r(0), r(1), r(2)],
        relative_costs: row(vec![0, 0, 0, 0], 0),
        solution: vec![r(1), r(1), r(0), r(0)],
    };

    match simplex_procedure(&mut linear_program) {
        LinearProgramResponse::LinearProgram(_) => assert!(false),
        LinearProgramResponse::Unbound(_) => assert!(false),
        LinearProgramResponse::Error(message) => {
            assert_eq!("Json passed did not have the same length of rows", message)
        },
    };
}

#[test]
fn test_number_of_rows_greater_than_columns() {
    let tableau = vec![row(vec![1], 1), row(vec![0], 1)];

    let mut linear_program = LinearProgram {
        tableau,
        costs: vec![r(0)],
        relative_costs: row(vec![0], 0),
        solution: vec![r(1)],
    };

    match simplex_procedure(&mut linear_program) {
        LinearProgramResponse::LinearProgram(_) => assert!(false),
        LinearProgramResponse::Unbound(_) => assert!(false),
        LinearProgramResponse::Error(message) => {
            assert_eq!("The passed linear program has more columns than rows", message)
        },
    };
}

#[test]
fn test_check_if_matrix_starts_with_identity() {
    let tableau = vec![
        Row { a_ij: vec![Rat::new(11, 10), r(0), r(1), r(1)], b_i: r(1) },
        row(vec![0, 1, 2, 1], 1),
    ];

    let mut linear_program = LinearProgram {
        tableau,
        costs: vec![r(0), r(0), r(1), r(2)],
        relative_costs: row(vec![0, 0, 0, 0], 0),
        solution: vec![r(1), r(1), r(0), r(0)],
    };

    match simplex_procedure(&mut linear_program) {
        LinearProgramResponse::LinearProgram(_) => assert!(false),
        LinearProgramResponse::Unbound(_) => assert!(false),
        LinearProgramResponse::Error(message) => {
            assert_eq!("The passed linear problem does not start with an identity", message)
        },
    };
}

#[test]
fn test_check_if_solution_is_feasible() {
    let tableau = vec![row(vec![1, 0, 1, 1], 1), row(vec![0, 1, 2, 1], 1)];

    let mut linear_program = LinearProgram {
        tableau,
        costs: vec![r(0), r(0), r(1), r(2)],
        relative_costs: row(vec![0, 0, 0, 0], 0),
        solution: vec![r(1), r(1), r(0), r(-1)],
    };

    match simplex_procedure(&mut linear_program) {
        LinearProgramResponse::LinearProgram(_) => assert!(false),
        LinearProgramResponse::Unbound(_) => assert!(false),
        LinearProgramResponse::Error(message) => {
            assert_eq!("The passed solution is not feasible", message)
        },
    };
}

#[test]
fn test_check_if_the_first_m_are_basic() {
    let tableau = vec![row(vec![1, 0, 1, 1], 1), row(vec![0, 1, 2, 1], 1)];

    let mut linear_program = LinearProgram {
        tableau,
        costs: vec![r(0), r(0), r(1), r(2)],
        relative_costs: row(vec![0, 0, 0, 0], 0),
        solution: vec![r(1), r(1), r(0), r(1)],
    };

    match simplex_procedure(&mut linear_program) {
        LinearProgramResponse::LinearProgram(_) => assert!(false),
        LinearProgramResponse::Unbound(_) => assert!(false),
        LinearProgramResponse::Error(message) => {
            assert_eq!("The passed solution is not basic or non-degenerate", message)
        },
    };
}

#[test]
fn test_check_if_b_and_solutions_are_same() {
    let tableau = vec![row(vec![1, 0, 1, 1], 1), row(vec![0, 1, 2, 1], 1)];

    let mut linear_program = LinearProgram {
        tableau,
        costs: vec![r(0), r(0), r(1), r(2)],
        relative_costs: row(vec![0, 0, 0, 0], 0),
        solution: vec![r(1), r(2), r(0), r(0)],
    };

    match simplex_procedure(&mut linear_program) {
        LinearProgramResponse::LinearProgram(_) => assert!(false),
        LinearProgramResponse::Unbound(_) => assert!(false),
        LinearProgramResponse::Error(message) => {
            assert_eq!("Vector b and solution do not align", message)
        },
    };
}

#[test]
fn admission_reports_column_count_before_identity() {
    // Two rows but one column: the row/column-count check and the
    // identity check both fail, and the count error is the one reported.
    let tableau = vec![row(vec![5], 1), row(vec![0], 1)];

    let mut linear_program = LinearProgram {
        tableau,
        costs: vec![r(0)],
        relative_costs: row(vec![0], 0),
        solution: vec![r(1)],
    };

    match simplex_procedure(&mut linear_program) {
        LinearProgramResponse::LinearProgram(_) => assert!(false),
        LinearProgramResponse::Unbound(_) => assert!(false),
        LinearProgramResponse::Error(message) => {
            assert_eq!("The passed linear program has more columns than rows", message)
        },
    };
}

#[test]
fn admission_rejects_an_empty_tableau() {
    let mut linear_program = LinearProgram {
        tableau: vec![],
        costs: vec![],
        relative_costs: row(vec![], 0),
        solution: vec![],
    };

    match perform_checks(&linear_program) {
        Ok(_) => assert!(false),
        Err(error) => assert_eq!(error, SimplexError::EmptyTableau),
    };
}

#[test]
fn optimal_solution_vector_is_extracted() {
    let tableau = vec![row(vec![1, 0, 1, 1], 1), row(vec![0, 1, 2, 1], 1)];

    let mut linear_program = LinearProgram {
        tableau,
        costs: vec![r(0), r(0), r(1), r(2)],
        relative_costs: row(vec![0, 0, 0, 0], 0),
        solution: vec![r(1), r(1), r(0), r(0)],
    };

    match simplex_procedure(&mut linear_program) {
        LinearProgramResponse::LinearProgram(solution) => {
            assert!(solution.a_ij[0].is_zero());
            assert!(solution.a_ij[1].is_zero());
            assert!(solution.a_ij[2].is_zero());
            assert!(solution.a_ij[3].equals(r(1)));
        },
        LinearProgramResponse::Unbound(_) => assert!(false),
        LinearProgramResponse::Error(_) => assert!(false),
    };
}

#[test]
fn degenerate_ties_still_finish() {
    // Both rows have the minimum ratio 1 on every candidate column, so
    // the classic ratio test alone cannot decide; the lexicographic rule
    // breaks the tie and the solve terminates with an optimum.
    let tableau = vec![row(vec![1, 0, 1, 1], 1), row(vec![0, 1, 1, 1], 1)];

    let mut linear_program = LinearProgram {
        tableau,
        costs: vec![r(0), r(0), r(1), r(1)],
        relative_costs: row(vec![0, 0, 0, 0], 0),
        solution: vec![r(1), r(1), r(0), r(0)],
    };

    match simplex_procedure(&mut linear_program) {
        LinearProgramResponse::LinearProgram(_) => assert!(true),
        LinearProgramResponse::Unbound(_) => assert!(false),
        LinearProgramResponse::Error(_) => assert!(false),
    };
}

#[test]
fn lexicographic_selection_reports_dependent_rows() {
    let tableau = vec![row(vec![1, 1], 1), row(vec![1, 1], 1)];

    let linear_program = LinearProgram {
        tableau,
        costs: vec![r(0), r(0)],
        relative_costs: row(vec![0, 0], 0),
        solution: vec![r(1), r(1)],
    };

    assert_eq!(
        linear_program.find_lexicographically_lowest_row(0),
        Err(SimplexError::LinearlyDependentRows)
    );
}

#[test]
fn lexicographic_selection_reports_no_positive_entry() {
    // Column 2 holds only a negative entry and a zero, so no row can
    // limit it and the search reports that no eligible row exists.
    let tableau = vec![row(vec![1, 0, -1], 1), row(vec![0, 1, 0], 1)];

    let linear_program = LinearProgram {
        tableau,
        costs: vec![r(0), r(0), r(0)],
        relative_costs: row(vec![0, 0, 0], 0),
        solution: vec![r(1), r(1), r(0)],
    };

    assert_eq!(
        linear_program.find_lexicographically_lowest_row(2),
        Err(SimplexError::NoPositiveEntry)
    );
    assert!(linear_program.find_lexicographically_lowest_row(0).is_ok());
}

#[test]
fn tie_break_winner_does_not_depend_on_order() {
    // Equal minimum ratios; the rows first differ at column 0, where the
    // first row's ratio is larger, so the first row loses both ways.
    let first = row(vec![2, 1, 2], 2);
    let second = row(vec![0, 1, 2], 2);

    let forward = simplex_tableau::pivot::compare_lexicographic_value_start(&first, &second, 2);
    let backward = simplex_tableau::pivot::compare_lexicographic_value_start(&second, &first, 2);
    assert_eq!(forward, Ok(true));
    assert_eq!(backward, Ok(false));
}

#[test]
fn extraction_rejects_an_ambiguous_basic_column() {
    // Column 0 has a unit entry in both rows while its relative cost is
    // zero: the basis does not partition the columns.
    let tableau = vec![row(vec![1, 0], 1), row(vec![1, 1], 1)];

    let mut linear_program = LinearProgram {
        tableau,
        costs: vec![r(0), r(0)],
        relative_costs: row(vec![0, 0], 0),
        solution: vec![r(1), r(1)],
    };

    match linear_program.set_solution() {
        Ok(_) => assert!(false),
        Err(error) => assert_eq!(error, SimplexError::AmbiguousBasicColumn),
    };
}

#[test]
fn cost_row_zeroes_basic_columns_and_negates_the_rest() {
    let tableau = vec![row(vec![1, 0, 1, 1], 1), row(vec![0, 1, 2, 1], 1)];

    let linear_program = LinearProgram {
        tableau,
        costs: vec![r(3), r(4), r(1), r(2)],
        relative_costs: row(vec![0, 0, 0, 0], 0),
        solution: vec![r(1), r(1), r(0), r(0)],
    };

    let costs = linear_program.calculate_costs().unwrap();
    assert!(costs.a_ij[0].is_zero());
    assert!(costs.a_ij[1].is_zero());
    assert!(costs.a_ij[2].equals(r(-1)));
    assert!(costs.a_ij[3].equals(r(-2)));
    assert!(costs.b_i.is_zero());
}

#[test]
fn iteration_can_be_driven_step_by_step() {
    let tableau = vec![row(vec![1, 0, 1, 1], 1), row(vec![0, 1, 2, 1], 1)];

    let mut linear_program = LinearProgram {
        tableau,
        costs: vec![r(0), r(0), r(1), r(2)],
        relative_costs: row(vec![0, 0, 0, 0], 0),
        solution: vec![r(1), r(1), r(0), r(0)],
    };
    assert!(perform_checks(&linear_program).is_ok());
    linear_program.relative_costs = linear_program.calculate_costs().unwrap();

    let mut outcomes = Vec::new();
    loop {
        match linear_program.simplex_iteration() {
            SimplexResult::IterationComplete => outcomes.push(true),
            other => {
                assert_eq!(other, SimplexResult::Finished);
                break;
            },
        }
        assert!(outcomes.len() < 10);
    }
    assert!(!outcomes.is_empty());
    assert!(linear_program.relative_costs.b_i.equals(r(2)));
}

#[test]
fn fractional_pivots_are_solved_exactly() {
    // The pivot on column 2 divides by 3, so the cost row passes through
    // thirds before landing on the exact optimum 1.
    let tableau = vec![row(vec![1, 0, 2], 2), row(vec![0, 1, 3], 3)];

    let mut linear_program = LinearProgram {
        tableau,
        costs: vec![r(0), r(0), r(1)],
        relative_costs: row(vec![0, 0, 0], 0),
        solution: vec![r(2), r(3), r(0)],
    };

    match simplex_procedure(&mut linear_program) {
        LinearProgramResponse::LinearProgram(solution) => {
            assert!(solution.b_i.equals(r(1)));
            assert!(solution.a_ij[0].is_zero());
            assert!(solution.a_ij[1].is_zero());
            assert!(solution.a_ij[2].equals(r(1)));
        },
        LinearProgramResponse::Unbound(_) => assert!(false),
        LinearProgramResponse::Error(_) => assert!(false),
    };
}

#[test]
fn positions_carry_their_indices() {
    let position = simplex_tableau::row_arithmetic::Position::new(3, 7);
    assert_eq!(position.row, 3);
    assert_eq!(position.column, 7);
}
