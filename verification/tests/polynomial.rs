use polyroots::error::InvalidInput;
use polyroots::polynomial_object::{distinct_factors, PolyEquat};

#[test]
fn new_test_one() {
    // Sets up values to test the function
    let test_value: Vec<i32> = vec![1, 2, 3, 4, 5];
    let test_poly: PolyEquat = PolyEquat::new(test_value.clone());

    assert_eq!(test_poly.polynomial_coefficients[0], test_value[0]);
}

#[test]
fn new_test_two() {
    // Sets up values to test the function
    let test_value: Vec<i32> = vec![3, 4, 5, 6, 7, 8];
    let test_poly: PolyEquat = PolyEquat::new(test_value);

    assert_eq!(test_poly.polynomial_coefficients.len(), 6);
}

#[test]
fn new_keeps_every_coefficient() {
    let test_poly = PolyEquat::new(vec![1, -3, 5]);
    assert_eq!(test_poly.polynomial_coefficients, vec![1, -3, 5]);
}

#[test]
fn repeated_factors_are_kept_once() {
    assert_eq!(distinct_factors(&vec![2, 2, 2, 2, 3, 3]), vec![2, 3]);
    assert_eq!(distinct_factors(&vec![7]), vec![7]);
    assert_eq!(distinct_factors(&vec![]), Vec::<i32>::new());
    assert_eq!(distinct_factors(&vec![2, 3, 2, 2]), vec![2, 3, 2]);
}

#[test]
fn candidates_of_a_quadratic() {
    // 2x^2 - 3x - 9: constant term 9 -> {3}, leading coefficient 2 -> {2}
    let poly = PolyEquat::new(vec![2, -3, -9]);
    assert_eq!(poly.rational_candidates(), Ok(vec![(3, 2), (-3, 2)]));
}

#[test]
fn candidates_come_numerator_first() {
    // constant term 6 -> {2, 3}, leading coefficient 10 -> {2, 5}
    let poly = PolyEquat::new(vec![10, 0, 0, -6]);
    assert_eq!(
        poly.rational_candidates(),
        Ok(vec![(2, 2), (-2, 2), (2, 5), (-2, 5), (3, 2), (-3, 2), (3, 5), (-3, 5)])
    );
}

#[test]
fn candidates_with_unit_coefficients() {
    // x^2 - 1: both magnitudes are 1, whose factor list is [1]
    let poly = PolyEquat::new(vec![1, 0, -1]);
    assert_eq!(poly.rational_candidates(), Ok(vec![(1, 1), (-1, 1)]));
}

#[test]
fn candidates_use_each_prime_once() {
    // 8x - 144: 144 = 2^4 * 3^2, 8 = 2^3
    let poly = PolyEquat::new(vec![8, -144]);
    assert_eq!(poly.rational_candidates(), Ok(vec![(2, 2), (-2, 2), (3, 2), (-3, 2)]));
}

#[test]
fn candidates_of_a_constant() {
    // one coefficient is both the leading one and the constant term
    let poly = PolyEquat::new(vec![-6]);
    assert_eq!(
        poly.rational_candidates(),
        Ok(vec![(2, 2), (-2, 2), (2, 3), (-2, 3), (3, 2), (-3, 2), (3, 3), (-3, 3)])
    );
}

#[test]
fn candidates_of_the_smallest_coefficient() {
    let poly = PolyEquat::new(vec![i32::MIN, 5]);
    assert_eq!(poly.rational_candidates(), Ok(vec![(5, 2), (-5, 2)]));
    let poly = PolyEquat::new(vec![3, i32::MIN]);
    assert_eq!(poly.rational_candidates(), Ok(vec![(2, 3), (-2, 3)]));
}

#[test]
fn empty_polynomial_is_rejected() {
    let poly = PolyEquat::new(vec![]);
    assert_eq!(poly.rational_candidates(), Err(InvalidInput::EmptyCoefficients));
    assert_eq!(poly.rational_solve(&vec![]), Err(InvalidInput::EmptyCoefficients));
}

#[test]
fn zero_leading_coefficient_is_rejected() {
    let poly = PolyEquat::new(vec![0, 1, 2]);
    assert_eq!(poly.rational_candidates(), Err(InvalidInput::ZeroLeadingCoefficient));
    assert_eq!(poly.rational_solve(&vec![true, true]), Err(InvalidInput::ZeroLeadingCoefficient));
    let zero = PolyEquat::new(vec![0]);
    assert_eq!(zero.rational_candidates(), Err(InvalidInput::ZeroLeadingCoefficient));
}

#[test]
fn zero_constant_term_is_rejected() {
    let poly = PolyEquat::new(vec![1, 2, 0]);
    assert_eq!(poly.rational_candidates(), Err(InvalidInput::ZeroTrailingCoefficient));
    assert_eq!(poly.rational_solve(&vec![]), Err(InvalidInput::ZeroTrailingCoefficient));
}

#[test]
fn wrong_number_of_verdicts_is_rejected() {
    let poly = PolyEquat::new(vec![2, -3, -9]);
    assert_eq!(poly.rational_solve(&vec![true]), Err(InvalidInput::VerdictCountMismatch));
    assert_eq!(poly.rational_solve(&vec![]), Err(InvalidInput::VerdictCountMismatch));
    assert_eq!(
        poly.rational_solve(&vec![true, false, true]),
        Err(InvalidInput::VerdictCountMismatch)
    );
}

#[test]
fn accepted_candidates_keep_their_order() {
    let poly = PolyEquat::new(vec![10, 0, 0, -6]);
    let verdicts = vec![false, true, true, false, false, false, true, true];
    assert_eq!(poly.rational_solve(&verdicts), Ok(vec![(-2, 2), (2, 5), (3, 5), (-3, 5)]));
}

#[test]
fn no_verdict_no_root() {
    let poly = PolyEquat::new(vec![2, -3, -9]);
    assert_eq!(poly.rational_solve(&vec![false, false]), Ok(vec![]));
    assert_eq!(poly.rational_solve(&vec![true, true]), Ok(vec![(3, 2), (-3, 2)]));
    assert_eq!(poly.rational_solve(&vec![true, false]), Ok(vec![(3, 2)]));
}

#[test]
fn denominator_is_never_zero() {
    let mut leading: i32 = -12;
    while leading <= 12 {
        let mut trailing: i32 = -12;
        while trailing <= 12 {
            let poly = PolyEquat::new(vec![leading, 1, trailing]);
            if let Ok(pairs) = poly.rational_candidates() {
                assert!(!pairs.is_empty());
                for (numerator, denominator) in &pairs {
                    assert!(*denominator >= 1);
                    assert_ne!(*numerator, 0);
                    assert_eq!(leading % *denominator, 0);
                    assert_eq!(trailing % *numerator, 0);
                }
            } else {
                assert!(leading == 0 || trailing == 0);
            }
            trailing += 1;
        }
        leading += 1;
    }
}

#[test]
fn same_polynomial_same_answer() {
    let poly = PolyEquat::new(vec![12, 7, -30]);
    let first = poly.rational_candidates();
    let second = poly.rational_candidates();
    assert_eq!(first, second);
    let verdicts: Vec<bool> = first.unwrap().iter().map(|c| c.0 > 0).collect();
    assert_eq!(poly.rational_solve(&verdicts), poly.rational_solve(&verdicts));
}
