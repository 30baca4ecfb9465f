use polyroots::polynomial_object::PolyEquat;

#[test]
fn horner_test_one() {
    // Sets up values to test the function
    let test_value: Vec<i32> = vec![1, 2, 3, 4, 5];
    let test_poly: PolyEquat = PolyEquat::new(test_value);
    let test_value: i64 = 5;

    assert_eq!(PolyEquat::horner_eval_exact(&test_poly, test_value), Some(975));
}

#[test]
fn horner_test_two() {
    // Sets up values to test the function
    let test_value: Vec<i32> = vec![8, 6, 7, 5, 2, 0, 9];
    let test_poly: PolyEquat = PolyEquat::new(test_value);
    let test_value: i64 = 20;

    assert_eq!(PolyEquat::horner_eval_exact(&test_poly, test_value), Some(532360809));
}

#[test]
fn horner_test_three() {
    // Sets up values to test the function
    let test_value: Vec<i32> = vec![1, -3, 5];
    let test_poly: PolyEquat = PolyEquat::new(test_value);
    let test_value: i64 = 0;

    assert_eq!(PolyEquat::horner_eval_exact(&test_poly, test_value), Some(5));
}

#[test]
fn horner_test_four() {
    // Sets up values to test the function
    let test_value: Vec<i32> = vec![0];
    let test_poly: PolyEquat = PolyEquat::new(test_value);
    let test_value: i64 = 100;

    assert_eq!(PolyEquat::horner_eval_exact(&test_poly, test_value), Some(0));
}

#[test]
fn horner_test_five() {
    // Sets up values to test the function
    let test_value: Vec<i32> = vec![
        0, 0, 4, 0, 0, 0, 0, 0, 0, 0, 0, 0, 1, 0, 0, 0, 0, 0, 0, 2, 0, 0, 0, 0, 0, 0, 0, 0, 0, 0,
        1,
    ];
    let test_poly: PolyEquat = PolyEquat::new(test_value);
    let test_value: i64 = 1;

    assert_eq!(PolyEquat::horner_eval_exact(&test_poly, test_value), Some(8));
}

#[test]
fn no_coefficients_evaluate_to_zero() {
    let poly = PolyEquat::new(vec![]);
    assert_eq!(poly.horner_eval_exact(7), Some(0));
}

#[test]
fn evaluation_at_a_negative_point() {
    // 2x^3 - x + 4 at -3: -54 + 3 + 4
    let poly = PolyEquat::new(vec![2, 0, -1, 4]);
    assert_eq!(poly.horner_eval_exact(-3), Some(-47));
}

#[test]
fn evaluation_matches_the_sum_of_the_terms() {
    let coefficients: Vec<i32> = vec![3, -7, 0, 11, -2];
    let poly = PolyEquat::new(coefficients.clone());
    let mut x: i64 = -9;
    while x <= 9 {
        let mut sum: i64 = 0;
        let degree = coefficients.len() - 1;
        for (i, c) in coefficients.iter().enumerate() {
            sum += (*c as i64) * x.pow((degree - i) as u32);
        }
        assert_eq!(poly.horner_eval_exact(x), Some(sum));
        x += 1;
    }
}

#[test]
fn value_at_the_edge_of_the_range() {
    let poly = PolyEquat::new(vec![1, 0]);
    assert_eq!(poly.horner_eval_exact(i64::MAX), Some(i64::MAX));
    assert_eq!(poly.horner_eval_exact(i64::MIN), Some(i64::MIN));
    let above = PolyEquat::new(vec![1, 1]);
    assert_eq!(above.horner_eval_exact(i64::MAX), None);
    assert_eq!(above.horner_eval_exact(i64::MAX - 1), Some(i64::MAX));
}

#[test]
fn value_out_of_range_is_none() {
    // x^4 at 2^16 is 2^64; 55108 is the largest point whose fourth power fits
    let poly = PolyEquat::new(vec![1, 0, 0, 0, 0]);
    assert_eq!(poly.horner_eval_exact(65536), None);
    assert_eq!(poly.horner_eval_exact(55109), None);
    assert_eq!(poly.horner_eval_exact(55108), Some(9222710978872688896));
    assert_eq!(poly.horner_eval_exact(-55108), Some(9222710978872688896));
}

#[test]
fn accumulated_value_out_of_range_is_none() {
    // x^2 - 2^31 x at 2^32 is 2^63, one more than fits
    let poly = PolyEquat::new(vec![1, i32::MIN, 0]);
    assert_eq!(poly.horner_eval_exact(4_294_967_296), None);
    // x^2 at 3 * 10^9 fits, at 4 * 10^9 it does not
    let square = PolyEquat::new(vec![1, 0, 0]);
    assert_eq!(square.horner_eval_exact(3_000_000_000), Some(9_000_000_000_000_000_000));
    assert_eq!(square.horner_eval_exact(4_000_000_000), None);
}
