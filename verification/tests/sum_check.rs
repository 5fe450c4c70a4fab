use gkr::composed_polynomial::{ProductPoly, SumPoly};
use gkr::field::Fe;
use gkr::sum_check::{gkr_prove, gkr_verify, round_polynomial};
use gkr::transcript::Transcript;
use gkr::univariate::UnivariatePoly;

fn fe(x: u64) -> Fe {
    Fe::from_u64(x)
}

fn fes(xs: &[u64]) -> Vec<Fe> {
    xs.iter().map(|x| Fe::from_u64(*x)).collect()
}

// g * h + k with g = [1, 2, 3, 4], h = [5, 6, 7, 8], k = [1, 0, 0, 1];
// the sum over the square is 5 + 12 + 21 + 32 + 2 = 72.
fn sample() -> SumPoly {
    SumPoly::new(vec![
        ProductPoly::new(vec![fes(&[1, 2, 3, 4]), fes(&[5, 6, 7, 8])]),
        ProductPoly::new(vec![fes(&[1, 0, 0, 1])]),
    ])
}

#[test]
fn round_polynomial_sums_out_the_other_variables() {
    // At x0 = X: g = (1 + 2X, 2 + 2X), h = (5 + 2X, 6 + 2X), k = (1 - X, X).
    // (1 + 2X)(5 + 2X) + (2 + 2X)(6 + 2X) + 1 = 18 + 28X + 8X^2.
    let round = round_polynomial(&sample(), 2);
    assert_eq!(round.coefficient, fes(&[18, 28, 8]));
    assert_eq!(round.evaluate(fe(0)).add(round.evaluate(fe(1))), fe(72));
}

#[test]
fn verifier_accepts_the_prover() {
    let poly = sample();
    let mut prover_transcript = Transcript::new();
    let proof = gkr_prove(fe(72), &poly, &mut prover_transcript);
    assert_eq!(proof.proof_polynomials.len(), 2);
    assert_eq!(proof.random_challenges.len(), 2);

    let mut verifier_transcript = Transcript::new();
    let result = gkr_verify(&proof.proof_polynomials, fe(72), &mut verifier_transcript);
    assert!(result.verified);
    assert_eq!(result.random_challenges, proof.random_challenges);
    assert_eq!(
        result.final_claimed_sum,
        poly.evaluate(&result.random_challenges)
    );
    assert_eq!(
        prover_transcript.get_random_challenge(),
        verifier_transcript.get_random_challenge()
    );
}

#[test]
fn verifier_rejects_a_wrong_sum() {
    let poly = sample();
    let mut transcript = Transcript::new();
    let proof = gkr_prove(fe(71), &poly, &mut transcript);
    let mut transcript = Transcript::new();
    let result = gkr_verify(&proof.proof_polynomials, fe(71), &mut transcript);
    assert!(!result.verified);
    assert!(result.random_challenges.is_empty());
    assert_eq!(result.final_claimed_sum, fe(71));
}

#[test]
fn verifier_rejects_a_changed_round() {
    let poly = sample();
    let mut transcript = Transcript::new();
    let mut proof = gkr_prove(fe(72), &poly, &mut transcript);
    // Same values at 0 and 1 in sum, another polynomial: the next round fails.
    proof.proof_polynomials[0] = UnivariatePoly::new(fes(&[19, 26, 8]));
    let mut transcript = Transcript::new();
    let result = gkr_verify(&proof.proof_polynomials, fe(72), &mut transcript);
    assert!(!result.verified);
    assert_eq!(result.random_challenges.len(), 1);
}

#[test]
fn verifier_rejects_a_round_of_high_degree() {
    let mut transcript = Transcript::new();
    let rounds = vec![UnivariatePoly::new(fes(&[1, 1, 1, 1]))];
    let result = gkr_verify(&rounds, fe(5), &mut transcript);
    assert!(!result.verified);
    let mut transcript = Transcript::new();
    let rounds = vec![UnivariatePoly::new(fes(&[1, 1, 2]))];
    let result = gkr_verify(&rounds, fe(5), &mut transcript);
    assert!(result.verified);
    assert_eq!(
        result.final_claimed_sum,
        rounds[0].evaluate(result.random_challenges[0])
    );
}

#[test]
fn no_rounds_for_a_constant() {
    let poly = SumPoly::new(vec![ProductPoly::new(vec![fes(&[6]), fes(&[7])])]);
    let mut transcript = Transcript::new();
    let proof = gkr_prove(fe(42), &poly, &mut transcript);
    assert!(proof.proof_polynomials.is_empty());
    assert!(proof.random_challenges.is_empty());
    let mut transcript = Transcript::new();
    let result = gkr_verify(&proof.proof_polynomials, fe(42), &mut transcript);
    assert!(result.verified);
    assert_eq!(result.final_claimed_sum, fe(42));
}
