use simplex_tableau::rational::Rat;
use simplex_tableau::row_arithmetic::Row;
use simplex_tableau::row_arithmetic::SimplexError;
use simplex_tableau::solve_linear_equations::LinearSystem;
use simplex_tableau::solve_linear_equations::RowColumnResult;

fn r(n: i32) -> Rat {
    Rat::from_int(n)
}

fn row(entries: Vec<i32>, constant: i32) -> Row {
    Row { a_ij: entries.into_iter().map(r).collect(), b_i: r(constant) }
}

#[test]
fn diagonal_system_is_solved() {
    let mut system = LinearSystem::new(vec![row(vec![2, 0], 4), row(vec![0, 3], 9)]);
    assert!(system.solve_system_of_linear_equations().is_ok());
    assert!(system.equations[0].a_ij[0].is_one());
    assert!(system.equations[0].a_ij[1].is_zero());
    assert!(system.equations[0].b_i.equals(r(2)));
    assert!(system.equations[1].a_ij[0].is_zero());
    assert!(system.equations[1].a_ij[1].is_one());
    assert!(system.equations[1].b_i.equals(r(3)));
}

#[test]
fn coupled_system_is_reduced_to_echelon_form() {
    // x + y = 3, x - y = 1 has the unique solution x = 2, y = 1.
    let mut system = LinearSystem::new(vec![row(vec![1, 1], 3), row(vec![1, -1], 1)]);
    assert!(system.solve_system_of_linear_equations().is_ok());
    for equation in &system.equations {
        let ones = equation.a_ij.iter().filter(|x| x.is_one()).count();
        let zeros = equation.a_ij.iter().filter(|x| x.is_zero()).count();
        assert_eq!(ones, 1);
        assert_eq!(zeros, 1);
    }
}

#[test]
fn unusable_system_is_rejected() {
    let mut system = LinearSystem::new(vec![row(vec![0, 0], 1)]);
    assert_eq!(
        system.solve_system_of_linear_equations(),
        Err(SimplexError::NotReducible)
    );
}

#[test]
fn pivot_search_takes_the_first_fresh_nonzero_entry() {
    let system = LinearSystem::new(vec![row(vec![0, 5], 1), row(vec![7, 0], 2)]);
    match system.determine_column_and_row(&Vec::new()) {
        RowColumnResult::Found((found_row, found_column)) => {
            assert_eq!(found_row, 0);
            assert_eq!(found_column, 1);
        },
        RowColumnResult::NotFound => assert!(false),
    };
}

#[test]
fn empty_system_solves_trivially() {
    let mut system = LinearSystem::new(Vec::new());
    assert_eq!(system.solve_system_of_linear_equations(), Ok(true));
}
