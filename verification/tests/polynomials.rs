use gkr::composed_polynomial::{ProductPoly, SumPoly};
use gkr::field::Fe;
use gkr::multilinear::{bind, divisible_by_pow2, has_variables, MultilinearPoly};
use gkr::univariate::UnivariatePoly;

fn fe(x: u64) -> Fe {
    Fe::from_u64(x)
}

fn fes(xs: &[u64]) -> Vec<Fe> {
    xs.iter().map(|x| Fe::from_u64(*x)).collect()
}

// f(x0, x1) = 1 + 2 * x0 + x1, with x0 the first variable.
fn plane() -> MultilinearPoly {
    MultilinearPoly::new(fes(&[1, 2, 3, 4]))
}

#[test]
fn evaluate_agrees_with_the_table_on_the_hypercube() {
    let poly = MultilinearPoly::new(fes(&[3, 1, 4, 1, 5, 9, 2, 6]));
    for i in 0..8u64 {
        let point = [fe((i >> 2) & 1), fe((i >> 1) & 1), fe(i & 1)];
        assert_eq!(poly.evaluate(&point), poly.evaluation[i as usize]);
    }
}

#[test]
fn evaluate_off_the_hypercube() {
    assert_eq!(plane().evaluate(&[fe(5), fe(7)]), fe(18));
    assert_eq!(MultilinearPoly::new(fes(&[3, 5])).evaluate(&[fe(2)]), fe(7));
    assert_eq!(MultilinearPoly::new(fes(&[9])).evaluate(&[]), fe(9));
    // 5 + r * (3 - 5) passes below zero.
    assert_eq!(
        MultilinearPoly::new(fes(&[5, 3])).evaluate(&[fe(4)]),
        fe(0).sub(fe(3))
    );
}

#[test]
fn partial_evaluate_binds_the_named_variable() {
    assert_eq!(
        plane().partial_evaluate(0, &fe(5)).evaluation,
        fes(&[11, 12])
    );
    assert_eq!(
        plane().partial_evaluate(1, &fe(7)).evaluation,
        fes(&[8, 10])
    );
    let cube = MultilinearPoly::new(fes(&[0, 1, 2, 3, 4, 5, 6, 7]));
    assert_eq!(
        cube.partial_evaluate(1, &fe(10)).evaluation,
        fes(&[20, 21, 24, 25])
    );
}

#[test]
fn multi_partial_evaluate_binds_the_leading_variables() {
    assert_eq!(
        plane().multi_partial_evaluate(&[fe(5)]).evaluation,
        fes(&[11, 12])
    );
    assert_eq!(
        plane().multi_partial_evaluate(&[fe(5), fe(7)]).evaluation,
        fes(&[18])
    );
    assert_eq!(
        plane().multi_partial_evaluate(&[]).evaluation,
        fes(&[1, 2, 3, 4])
    );
    // f = 4 * x0 + 2 * x1 + x2 with x0 = 10, x1 = 100.
    let cube = MultilinearPoly::new(fes(&[0, 1, 2, 3, 4, 5, 6, 7]));
    assert_eq!(
        cube.multi_partial_evaluate(&[fe(10), fe(100)]).evaluation,
        fes(&[240, 241])
    );
}

#[test]
fn bind_by_stride() {
    let table = fes(&[0, 1, 2, 3, 4, 5, 6, 7]);
    assert_eq!(bind(&table, 4, fe(10)), fes(&[40, 41, 42, 43]));
    assert_eq!(bind(&table, 2, fe(10)), fes(&[20, 21, 24, 25]));
    assert_eq!(bind(&table, 1, fe(10)), fes(&[10, 12, 14, 16]));
}

#[test]
fn scale_and_add() {
    assert_eq!(plane().scale(fe(3)).evaluation, fes(&[3, 6, 9, 12]));
    let other = MultilinearPoly::new(fes(&[10, 20, 30, 40]));
    assert_eq!(plane().add(&other).evaluation, fes(&[11, 22, 33, 44]));
}

#[test]
fn table_lengths_and_variable_counts() {
    assert!(has_variables(1, 0));
    assert!(has_variables(8, 3));
    assert!(!has_variables(8, 2));
    assert!(!has_variables(12, 3));
    assert!(!has_variables(0, 0));
    assert!(!has_variables(8, 200));
    assert!(divisible_by_pow2(24, 3));
    assert!(!divisible_by_pow2(24, 4));
    assert!(divisible_by_pow2(0, 70));
    assert!(divisible_by_pow2(5, 0));
}

#[test]
fn univariate_evaluate_add_and_multiply() {
    // 10 + 5x
    let line = UnivariatePoly::new(fes(&[10, 5]));
    assert_eq!(line.evaluate(fe(0)), fe(10));
    assert_eq!(line.evaluate(fe(1)), fe(15));
    assert_eq!(line.evaluate(fe(3)), fe(25));
    // 1 + 2x + 3x^2
    let parabola = UnivariatePoly::new(fes(&[1, 2, 3]));
    assert_eq!(parabola.evaluate(fe(4)), fe(57));
    assert_eq!(UnivariatePoly::new(vec![]).evaluate(fe(4)), fe(0));
    assert_eq!(parabola.add(&line).coefficient, fes(&[11, 7, 3]));
    assert_eq!(line.add(&parabola).coefficient, fes(&[11, 7, 3]));
    // (1 + 2x + 3x^2) * (2 + 5x) = 2 + 9x + 16x^2 + 15x^3
    assert_eq!(
        parabola.mul_linear(fe(2), fe(5)).coefficient,
        fes(&[2, 9, 16, 15])
    );
}

#[test]
fn product_and_sum_evaluate_factor_by_factor() {
    let first = ProductPoly::new(vec![fes(&[1, 2, 3, 4]), fes(&[5, 6, 7, 8])]);
    let second = ProductPoly::new(vec![fes(&[1, 0, 0, 1])]);
    assert_eq!(first.degree(), 2);
    assert_eq!(first.polys[1].evaluation, fes(&[5, 6, 7, 8]));
    // At (1, 0): 3 * 7 and 0.
    assert_eq!(first.evaluate(&[fe(1), fe(0)]), fe(21));
    // At (2, 3): (1 + 4 + 3) * (5 + 4 + 3) and 1 - 2 - 3 + 2 * 2 * 3.
    assert_eq!(first.evaluate(&[fe(2), fe(3)]), fe(96));
    assert_eq!(second.evaluate(&[fe(2), fe(3)]), fe(8));
    let sum = SumPoly::new(vec![first, second]);
    assert_eq!(sum.degree(), 2);
    assert_eq!(SumPoly::new(vec![]).degree(), 0);
    assert_eq!(sum.evaluate(&[fe(2), fe(3)]), fe(104));
    let bound = sum.bind(2, fe(2));
    assert_eq!(bound.polys[0].polys[0].evaluation, fes(&[5, 6]));
    assert_eq!(bound.evaluate(&[fe(3)]), fe(104));
}
