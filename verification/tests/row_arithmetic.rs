use simplex_tableau::rational::Rat;
use simplex_tableau::row_arithmetic::reduce_row_till_column_zero;
use simplex_tableau::row_arithmetic::subtract_rows_setting_column_to_zero;
use simplex_tableau::row_arithmetic::Row;
use simplex_tableau::row_arithmetic::SimplexError;

fn r(n: i32) -> Rat {
    Rat::from_int(n)
}

#[test]
fn subtraction_correct_input_test() {
    let mut subtrahend = vec![r(1), r(0), r(0), r(0)];
    let minuend = vec![r(1), r(0), r(0), r(0)];
    let column = 0;

    let arithmetic_result = match subtract_rows_setting_column_to_zero(
        &mut subtrahend,
        &minuend,
        column,
    ) {
        Ok(_) => true,
        Err(_) => false,
    };

    let mut all_elements_zero = true;
    for element in subtrahend {
        if !element.is_zero() {
            all_elements_zero = false;
        }
    }

    assert!(all_elements_zero && arithmetic_result);
}

#[test]
fn subtraction_column_too_large() {
    let mut subtrahend = vec![r(1), r(0), r(0), r(0)];
    let minuend = vec![r(1), r(0), r(0), r(0)];
    let column = 4;

    let arithmetic_result = match subtract_rows_setting_column_to_zero(
        &mut subtrahend,
        &minuend,
        column,
    ) {
        Ok(_) => true,
        Err(_) => false,
    };

    assert!(!arithmetic_result);
}

#[test]
fn subtraction_arrays_not_same_size() {
    let mut subtrahend = vec![r(1), r(0), r(0), r(0)];
    let minuend = vec![r(1), r(0), r(0)];
    let column = 0;

    let arithmetic_result = match subtract_rows_setting_column_to_zero(
        &mut subtrahend,
        &minuend,
        column,
    ) {
        Ok(_) => true,
        Err(_) => false,
    };

    assert!(!arithmetic_result);
}

#[test]
fn reduction_correct_input() {
    let mut row = vec![r(3), r(2), r(2), r(1), r(5)];
    let column = 2;

    let arithmetic_result = match reduce_row_till_column_zero(&mut row, column) {
        Ok(_) => true,
        Err(_) => false,
    };

    assert!(arithmetic_result);
}

#[test]
fn reduction_column_too_large() {
    let mut row = vec![r(3), r(2), r(2), r(1), r(5)];
    let column = 4;

    let arithmetic_result = match reduce_row_till_column_zero(&mut row, column) {
        Ok(_) => true,
        Err(_) => false,
    };

    assert!(!arithmetic_result);
}

#[test]
fn subtraction_reports_exact_error_kinds() {
    let mut short = vec![r(1), r(2)];
    let longer = vec![r(1), r(2), r(3)];
    assert_eq!(
        subtract_rows_setting_column_to_zero(&mut short, &longer, 0),
        Err(SimplexError::LengthMismatch)
    );

    let mut lhs = vec![r(1), r(2)];
    let rhs = vec![r(1), r(2)];
    assert_eq!(
        subtract_rows_setting_column_to_zero(&mut lhs, &rhs, 2),
        Err(SimplexError::ColumnOutOfRange)
    );

    let mut target = vec![r(1), r(2)];
    let zero_pivot = vec![r(0), r(2)];
    assert_eq!(
        subtract_rows_setting_column_to_zero(&mut target, &zero_pivot, 0),
        Err(SimplexError::ZeroPivot)
    );
}

#[test]
fn subtraction_computes_the_linear_combination() {
    // Eliminating column 0 of [4, 6] against [2, 2] uses the multiplier
    // -(4 / 2) = -2, so position 1 becomes 6 - 2 * 2 = 2.
    let mut subtrahend = vec![r(4), r(6)];
    let minuend = vec![r(2), r(2)];
    assert!(subtract_rows_setting_column_to_zero(&mut subtrahend, &minuend, 0).is_ok());
    assert!(subtrahend[0].is_zero());
    assert!(subtrahend[1].equals(r(2)));
}

#[test]
fn reduce_row_updates_coefficients_and_constant() {
    // [4, 6 | 10] reduced against [2, 2 | 2] on column 0: multiplier -2,
    // coefficients become [0, 2] and the constant 10 - 2 * 2 = 6.
    let mut target = Row { a_ij: vec![r(4), r(6)], b_i: r(10) };
    let source = Row { a_ij: vec![r(2), r(2)], b_i: r(2) };
    assert!(target.reduce_row(&source, 0).is_ok());
    assert!(target.a_ij[0].is_zero());
    assert!(target.a_ij[1].equals(r(2)));
    assert!(target.b_i.equals(r(6)));
}

#[test]
fn reduce_row_till_column_one_scales_exactly() {
    let mut row = Row { a_ij: vec![r(2), r(4)], b_i: r(6) };
    assert!(row.reduce_row_till_column_one(0).is_ok());
    assert!(row.a_ij[0].is_one());
    assert!(row.a_ij[1].equals(r(2)));
    assert!(row.b_i.equals(r(3)));
}

#[test]
fn normalizing_twice_changes_nothing() {
    let mut row = Row { a_ij: vec![r(2), r(4), r(5)], b_i: r(6) };
    assert!(row.reduce_row_till_column_one(0).is_ok());
    let once: Vec<Rat> = row.a_ij.clone();
    let once_b = row.b_i;
    assert!(row.reduce_row_till_column_one(0).is_ok());
    for k in 0..once.len() {
        assert_eq!(row.a_ij[k].num, once[k].num);
        assert_eq!(row.a_ij[k].den, once[k].den);
    }
    assert_eq!(row.b_i.num, once_b.num);
    assert_eq!(row.b_i.den, once_b.den);
}

#[test]
fn normalize_reports_overflow_when_entries_leave_range() {
    // Dividing 2 by 3 / i32::MAX would need the numerator 2 * i32::MAX,
    // which does not fit back into an i32.
    let mut row = Row { a_ij: vec![Rat::new(3, i32::MAX), r(2)], b_i: r(1) };
    assert_eq!(row.reduce_row_till_column_one(0), Err(SimplexError::Overflow));
}

#[test]
fn rational_arithmetic_is_exact() {
    let half = Rat::new(1, 2);
    let third = Rat::new(1, 3);
    let sum = half.checked_add(third).unwrap();
    assert_eq!(sum.num, 5);
    assert_eq!(sum.den, 6);

    let product = half.checked_mul(third).unwrap();
    assert_eq!(product.num, 1);
    assert_eq!(product.den, 6);

    let quotient = half.checked_div(Rat::new(-3, 4)).unwrap();
    assert_eq!(quotient.num, -4);
    assert_eq!(quotient.den, 6);

    assert!(Rat::from_int(i32::MIN).checked_neg().is_none());
    assert!(Rat::new(2, 7).equals(Rat::new(4, 14)));
    assert!(Rat::new(-1, 3).lt(Rat::new(1, 4)));
    assert!(!Rat::new(1, 3).lt(Rat::new(1, 3)));
}

#[test]
fn error_messages_are_stable() {
    assert_eq!(
        SimplexError::LengthMismatch.message(),
        "Json passed did not have the same length of rows"
    );
    assert_eq!(
        SimplexError::TooManyColumns.message(),
        "The passed linear program has more columns than rows"
    );
    assert_eq!(SimplexError::LinearlyDependentRows.message(), "Rows are linearly dependent");
}

#[test]
fn quotient_comparisons_are_exact() {
    // 1/2 over 3/1 is 1/6; 1/3 over 2/1 is 1/6 as well: equal, not less.
    let n1 = Rat::new(1, 2);
    let d1 = Rat::from_int(3);
    let n2 = Rat::new(1, 3);
    let d2 = Rat::from_int(2);
    assert!(simplex_tableau::rational::quotient_eq(n1, d1, n2, d2));
    assert!(!simplex_tableau::rational::quotient_lt(n1, d1, n2, d2));
    // 1/2 over 3 is smaller than 1/3 over 1.
    assert!(simplex_tableau::rational::quotient_lt(n1, d1, n2, Rat::from_int(1)));
}

#[test]
fn checked_operations_report_overflow() {
    let big = Rat::from_int(i32::MAX);
    assert!(big.checked_add(Rat::from_int(1)).is_none());
    assert!(big.checked_mul(Rat::from_int(2)).is_none());
    assert!(big.checked_add(Rat::from_int(0)).is_some());
}
