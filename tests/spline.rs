use spliny::{transpose, SplineCurve, SplineError};

/// Fixed-point unit of these tests: one is a billion.
const UNIT: f64 = 1e9;

fn fixed(v: &[f64]) -> Vec<i64> {
    v.iter().map(|x| (x * UNIT).round() as i64).collect()
}

fn from_fixed(v: &[i64]) -> Vec<f64> {
    v.iter().map(|&x| x as f64 / UNIT).collect()
}

fn curve<const K: usize, const N: usize>(t: &[f64], c: &[f64]) -> SplineCurve<K, N> {
    SplineCurve::new(fixed(t), fixed(c))
}

fn assert_close(expected: &[f64], got: &[f64], epsilon: f64) {
    assert_eq!(expected.len(), got.len());
    for (&a, &b) in expected.iter().zip(got.iter()) {
        assert!((a - b).abs() <= epsilon, "expected {}, got {}", a, b);
    }
}

#[test]
fn linear_bspline() {
    let x = vec![0.0, 0.2, 0.4, 0.6, 0.8, 1.0];
    let y = vec![0.0, 0.2, 0.4, 0.6, 0.8, 1.0];

    let s: SplineCurve<1, 1> = curve(&[0.0, 0.0, 1.0, 1.0], &[0.0, 1.0]);
    let yt = s.evaluate(&fixed(&x)).unwrap();
    assert_close(&y, &from_fixed(&yt), 1E-8);

    let ytx = s.evaluate(&fixed(&x)).unwrap();
    assert_close(&y, &from_fixed(&ytx), 1E-8);
}

#[test]
fn quadratic_bspline() {
    let x = [0.0, 0.5, 1.0, 1.4, 1.5, 1.6, 2.0, 2.5, 3.0];
    let y = [0.0, 0.125, 0.5, 0.74, 0.75, 0.74, 0.5, 0.125, 0.0];

    let s: SplineCurve<2, 1> = curve(
        &[0.0, 0.0, 0.0, 1.0, 2.0, 3.0, 3.0, 3.0],
        &[0.0, 0.0, 1.0, 0.0, 0.0],
    );
    let yt = s.evaluate(&fixed(&x)).unwrap();
    assert_close(&y, &from_fixed(&yt), 1E-8);
}

#[test]
fn cubic_bspline() {
    let x = vec![-2.0, -1.5, -1.0, -0.6, 0.0, 0.5, 1.5, 2.0];
    let y = vec![0.0, 0.125, 1.0, 2.488, 4.0, 2.875, 0.12500001, 0.0];

    let s: SplineCurve<3, 1> = curve(
        &[-2.0, -2.0, -2.0, -2.0, -1.0, 0.0, 1.0, 2.0, 2.0, 2.0, 2.0],
        &[0.0, 0.0, 0.0, 6.0, 0.0, 0.0, 0.0],
    );
    let yt = s.evaluate(&fixed(&x)).unwrap();
    assert_close(&y, &from_fixed(&yt), 1E-7);
}

#[test]
fn quartic_bspline() {
    let x = vec![0.0, 0.4, 1.0, 1.5, 2.0, 2.5, 3.0, 3.2, 4.1, 4.5, 5.0];
    let y = vec![
        0.0,
        0.0010666668,
        0.041666668,
        0.19791667,
        0.4583333,
        0.5989583,
        0.4583333,
        0.35206667,
        0.02733751,
        0.002604167,
        0.0,
    ];
    let s: SplineCurve<4, 1> = curve(
        &[0.0, 0.0, 0.0, 0.0, 0.0, 1.0, 2.0, 3.0, 4.0, 5.0, 5.0, 5.0, 5.0, 5.0],
        &[0.0, 0.0, 0.0, 0.0, 1.0, 0.0, 0.0, 0.0, 0.0],
    );
    let yt = s.evaluate(&fixed(&x)).unwrap();
    assert_close(&y, &from_fixed(&yt), 1E-7);

    let ytx = s.evaluate(&fixed(&x)).unwrap();
    assert_close(&y, &from_fixed(&ytx), 1E-7);
}

#[test]
fn exact_values_in_integer_units() {
    let s: SplineCurve<1, 1> = SplineCurve::new(vec![0, 0, 10, 10], vec![0, 10]);
    assert_eq!(s.evaluate(&[0, 3, 5, 10]), Ok(vec![0, 3, 5, 10]));
}

#[test]
fn blending_rounds_down() {
    let up: SplineCurve<1, 1> = SplineCurve::new(vec![0, 0, 3, 3], vec![0, 1]);
    assert_eq!(up.evaluate(&[1, 2]), Ok(vec![0, 0]));
    let down: SplineCurve<1, 1> = SplineCurve::new(vec![0, 0, 3, 3], vec![0, -1]);
    assert_eq!(down.evaluate(&[1, 2]), Ok(vec![-1, -1]));
}

#[test]
fn extreme_values_do_not_overflow() {
    let s: SplineCurve<1, 1> =
        SplineCurve::new(vec![i64::MIN, i64::MIN, i64::MAX, i64::MAX], vec![i64::MIN, i64::MAX]);
    assert_eq!(s.evaluate(&[i64::MIN, i64::MAX]), Ok(vec![i64::MIN, i64::MAX]));
    let mid = s.evaluate(&[0]).unwrap();
    assert!(mid[0] >= -1 && mid[0] <= 0);
}

#[test]
fn degree_zero_is_piecewise_constant() {
    let s: SplineCurve<0, 1> = SplineCurve::new(vec![0, 10, 20], vec![7, 9]);
    assert_eq!(s.evaluate(&[0, 5, 10, 15, 20]), Ok(vec![7, 7, 7, 9, 9]));
}

#[test]
fn same_input_same_output() {
    let s: SplineCurve<3, 1> = curve(
        &[-2.0, -2.0, -2.0, -2.0, -1.0, 0.0, 1.0, 2.0, 2.0, 2.0, 2.0],
        &[0.0, 0.0, 0.0, 6.0, 0.0, 0.0, 0.0],
    );
    let u = fixed(&[-1.7, -0.3, 0.9, 1.9]);
    assert_eq!(s.evaluate(&u), s.evaluate(&u));
}

#[test]
fn parameters_outside_domain_are_clamped() {
    let s: SplineCurve<2, 1> = curve(
        &[0.0, 0.0, 0.0, 1.0, 2.0, 3.0, 3.0, 3.0],
        &[1.0, 0.0, 1.0, 0.0, 2.0],
    );
    let inside = s.evaluate(&fixed(&[0.0, 3.0])).unwrap();
    let outside = s.evaluate(&fixed(&[-5.0, 7.5])).unwrap();
    assert_eq!(inside, outside);
    assert_eq!(inside, fixed(&[1.0, 2.0]));
}

#[test]
fn repeated_parameter_is_unsorted() {
    let s: SplineCurve<1, 1> = SplineCurve::new(vec![0, 0, 10, 10], vec![0, 10]);
    assert_eq!(s.evaluate(&[1, 2, 2, 3]), Err(SplineError::UnsortedInput));
}

#[test]
fn decreasing_parameter_is_unsorted() {
    let s: SplineCurve<1, 1> = SplineCurve::new(vec![0, 0, 10, 10], vec![0, 10]);
    assert_eq!(s.evaluate(&[5, 4]), Err(SplineError::UnsortedInput));
    assert_eq!(s.evaluate(&[1, 2, 9, 3]), Err(SplineError::UnsortedInput));
}

#[test]
fn output_has_dimension_values_per_parameter() {
    let s: SplineCurve<1, 2> = SplineCurve::new(vec![0, 0, 10, 10], vec![0, 10, 100, 50]);
    let v = s.evaluate(&[0, 2, 4, 10]).unwrap();
    assert_eq!(v.len(), 2 * 4);
    assert_eq!(v, vec![0, 100, 2, 90, 4, 80, 10, 50]);
    let three: SplineCurve<1, 3> = SplineCurve::new(vec![0, 0, 10, 10], vec![0, 10, 0, 20, 5, 5]);
    assert_eq!(three.evaluate(&[0, 5, 10]).unwrap().len(), 9);
}

#[test]
fn empty_parameters_give_empty_output() {
    let s: SplineCurve<1, 1> = SplineCurve::new(vec![0, 0, 10, 10], vec![0, 10]);
    assert_eq!(s.evaluate(&[]), Ok(vec![]));
}

#[test]
fn short_coefficients_are_refused() {
    let s: SplineCurve<2, 1> = curve(
        &[0.0, 0.0, 0.0, 1.0, 2.0, 3.0, 3.0, 3.0],
        &[0.0, 0.0, 1.0, 0.0],
    );
    assert_eq!(
        s.evaluate(&fixed(&[0.5, 1.0])),
        Err(SplineError::InsufficientCoefficients { expected: 5, actual: 4 })
    );
}

#[test]
fn coefficients_of_wrong_dimension_are_refused() {
    let s: SplineCurve<1, 2> = SplineCurve::new(vec![0, 0, 10, 10], vec![0, 10, 5]);
    assert_eq!(
        s.evaluate(&[1]),
        Err(SplineError::InsufficientCoefficients { expected: 4, actual: 3 })
    );
}

#[test]
fn too_few_knots_are_malformed() {
    let s: SplineCurve<2, 1> = SplineCurve::new(vec![0, 0, 1, 1, 1], vec![0, 1]);
    assert_eq!(s.evaluate(&[0]), Err(SplineError::MalformedCurve));
    let none: SplineCurve<1, 1> = SplineCurve::new(vec![], vec![]);
    assert_eq!(none.evaluate(&[0]), Err(SplineError::MalformedCurve));
}

#[test]
fn decreasing_knots_are_malformed() {
    let s: SplineCurve<1, 1> = SplineCurve::new(vec![0, 0, 5, 3, 10, 10], vec![0, 1, 2, 3]);
    assert_eq!(s.evaluate(&[4]), Err(SplineError::MalformedCurve));
}

#[test]
fn accessors_return_the_vectors() {
    let s: SplineCurve<1, 1> = SplineCurve::new(vec![0, 0, 10, 10], vec![3, 4]);
    assert_eq!(s.knots(), &[0, 0, 10, 10]);
    assert_eq!(s.coefficients(), &[3, 4]);
}

#[test]
fn transpose_splits_channels() {
    let cols = transpose(&[1, 2, 3, 4, 5, 6], 3);
    assert_eq!(cols, vec![vec![1, 4], vec![2, 5], vec![3, 6]]);
    let ragged = transpose(&[1, 2, 3, 4, 5], 2);
    assert_eq!(ragged, vec![vec![1, 3, 5], vec![2, 4]]);
    assert_eq!(transpose(&[], 2), vec![Vec::<i64>::new(), Vec::new()]);
}

#[test]
fn transpose_round_trip() {
    let s: SplineCurve<2, 2> = curve(
        &[0.0, 0.0, 0.0, 1.0, 2.0, 2.0, 2.0],
        &[0.0, 1.0, 3.0, 2.0, 0.0, 2.0, -1.0, 0.5],
    );
    let flat = s.evaluate(&fixed(&[0.0, 0.3, 0.9, 1.2, 2.0])).unwrap();
    let cols = transpose(&flat, 2);
    assert_eq!(cols.len(), 2);
    let mut back = Vec::new();
    for p in 0..cols[0].len() {
        for col in cols.iter() {
            back.push(col[p]);
        }
    }
    assert_eq!(back, flat);
}
