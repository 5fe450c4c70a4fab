use gkr::field::Fe;
use gkr::gkr_circuit::{Circuit, Layer, Operation};
use gkr::gkr_protocol::{
    add_mul_polynomials, check_layer, get_fbc_poly, get_merged_fbc_poly, get_verifier_claim,
    initiate_protocol, prove, verify, Checked, Proof,
};
use gkr::transcript::Transcript;
use gkr::multilinear::MultilinearPoly;
use gkr::univariate::UnivariatePoly;

fn fe(x: u64) -> Fe {
    Fe::from_u64(x)
}

fn fes(xs: &[u64]) -> Vec<Fe> {
    xs.iter().map(|x| Fe::from_u64(*x)).collect()
}

fn neg(x: u64) -> Fe {
    Fe::zero().sub(Fe::from_u64(x))
}

fn depth_three_circuit() -> Vec<Vec<Operation>> {
    vec![
        vec![
            Operation::Mul,
            Operation::Mul,
            Operation::Mul,
            Operation::Mul,
        ],
        vec![Operation::Add, Operation::Add],
        vec![Operation::Add],
    ]
}

fn depth_three_inputs() -> Vec<Fe> {
    fes(&[5, 2, 2, 4, 10, 0, 3, 3])
}

#[test]
fn it_add_polys_correctly() {
    let poly_a = &[fe(0), fe(2)];
    let poly_b = &[fe(0), fe(3)];

    let expected_poly = vec![fe(0), fe(3), fe(2), fe(5)];

    let result = add_mul_polynomials(poly_a, poly_b, Operation::Add);

    assert_eq!(result.evaluation, expected_poly);

    let poly_a = &[fe(0), fe(3)];
    let poly_b = &[fe(0), fe(0), fe(0), fe(2)];

    let expected_poly = vec![
        fe(0),
        fe(0),
        fe(0),
        fe(2),
        fe(3),
        fe(3),
        fe(3),
        fe(5),
    ];

    let result = add_mul_polynomials(poly_a, poly_b, Operation::Add);

    assert_eq!(result.evaluation, expected_poly);
}

#[test]
fn it_multiplies_polys_correctly() {
    let poly_a = &[fe(0), fe(2)];
    let poly_b = &[fe(0), fe(3)];

    let expected_poly = vec![fe(0), fe(0), fe(0), fe(6)];

    let result = add_mul_polynomials(poly_a, poly_b, Operation::Mul);

    assert_eq!(result.evaluation, expected_poly);

    let poly_a = &[fe(0), fe(3)];
    let poly_b = &[fe(0), fe(0), fe(0), fe(2)];

    let expected_poly = vec![
        fe(0),
        fe(0),
        fe(0),
        fe(0),
        fe(0),
        fe(0),
        fe(0),
        fe(6),
    ];

    let result = add_mul_polynomials(poly_a, poly_b, Operation::Mul);

    assert_eq!(result.evaluation, expected_poly);
}

#[test]
fn test_get_fbc_poly() {
    let r_c = fe(5);
    let layer = Layer::new(vec![Operation::Add]);
    let w_1_poly = &[fe(2), fe(12)];

    let fbc_poly = get_fbc_poly(r_c, &layer, w_1_poly, w_1_poly);

    // add_i is [0, 1, 0, 0, 0, 0, 0, 0]; with its first variable at 5 the
    // entry for the wires (0, 1) is 1 + 5 * (0 - 1).
    assert_eq!(fbc_poly.polys.len(), 2);
    assert_eq!(
        fbc_poly.polys[0].polys[0].evaluation,
        vec![fe(0), neg(4), fe(0), fe(0)]
    );
    assert_eq!(fbc_poly.polys[0].polys[1].evaluation, fes(&[4, 14, 14, 24]));
    assert_eq!(fbc_poly.polys[1].polys[0].evaluation, fes(&[0, 0, 0, 0]));
    assert_eq!(fbc_poly.polys[1].polys[1].evaluation, fes(&[4, 24, 24, 144]));
}

#[test]
fn test_get_merged_fbc_poly() {
    let layer = Layer::new(vec![Operation::Add, Operation::Mul]);
    let w = fes(&[1, 2, 3, 4]);
    let r_b = [fe(0)];
    let r_c = [fe(1)];

    let fbc_poly = get_merged_fbc_poly(&layer, &w, &w, &r_b, &r_c, fe(2), fe(3));

    // The add predicate is 1 at index 1 (gate 0, wires 0 and 1): it
    // stays where its selector variable is 0 and is scaled by alpha.
    let mut add_merged = fes(&[0; 16]);
    add_merged[1] = fe(2);
    // The mul predicate is 1 at index 16 + 2 * 4 + 3 (gate 1, wires 2 and 3): it
    // stays where its selector variable is 1 and is scaled by beta.
    let mut mul_merged = fes(&[0; 16]);
    mul_merged[11] = fe(3);
    assert_eq!(fbc_poly.polys.len(), 2);
    assert_eq!(fbc_poly.polys[0].polys[0].evaluation, add_merged);
    assert_eq!(fbc_poly.polys[1].polys[0].evaluation, mul_merged);
    assert_eq!(
        fbc_poly.polys[0].polys[1].evaluation,
        fes(&[2, 3, 4, 5, 3, 4, 5, 6, 4, 5, 6, 7, 5, 6, 7, 8])
    );
    assert_eq!(
        fbc_poly.polys[1].polys[1].evaluation,
        fes(&[1, 2, 3, 4, 2, 4, 6, 8, 3, 6, 9, 12, 4, 8, 12, 16])
    );
}

#[test]
fn merged_layer_polynomial_sums_to_the_merged_claim() {
    let layer = Layer::new(vec![Operation::Add, Operation::Mul]);
    let w = fes(&[1, 2, 3, 4]);
    let fbc_poly = get_merged_fbc_poly(&layer, &w, &w, &[fe(0)], &[fe(1)], fe(2), fe(3));
    let mut sum = fe(0);
    for product in fbc_poly.polys.iter() {
        for x in 0..16 {
            sum = sum.add(product.polys[0].evaluation[x].mul(product.polys[1].evaluation[x]));
        }
    }
    // The layer's values are [1 + 2, 3 * 4]: 2 * 3 + 3 * 12.
    assert_eq!(sum, fe(42));
}

#[test]
fn test_verify_invalid_proof() {
    let circuit_structure: Vec<Vec<Operation>> = depth_three_circuit();

    let inputs: Vec<Fe> = depth_three_inputs();

    let circuit = Circuit::new(circuit_structure);

    let dummy_proof_poly_1 = UnivariatePoly::new(vec![fe(10), fe(5)]);
    let dummy_proof_poly_2 = UnivariatePoly::new(vec![fe(10), fe(5)]);
    let dummy_proof_poly_3 = UnivariatePoly::new(vec![fe(10), fe(5)]);
    let dummy_proof_poly_4 = UnivariatePoly::new(vec![fe(10), fe(5)]);

    let invalid_proof = Proof {
        output_poly: MultilinearPoly::new(vec![fe(10)]),
        proof_polynomials: vec![
            vec![dummy_proof_poly_1, dummy_proof_poly_2],
            vec![dummy_proof_poly_3, dummy_proof_poly_4],
        ],
        claimed_evaluations: vec![(fe(10), fe(5)), (fe(1), fe(2))],
    };

    let is_verified = verify(invalid_proof, circuit, &inputs);

    assert_eq!(is_verified, false);
}

#[test]
fn single_output_is_padded_with_zero() {
    let mut circuit = Circuit::new(depth_three_circuit());
    let proof = prove(&mut circuit, &depth_three_inputs());

    // 5*2 + 2*4 + 10*0 + 3*3 = 27
    assert_eq!(proof.output_poly.evaluation.len(), 2);
    assert_eq!(proof.output_poly.evaluation[0], fe(27));
    assert_eq!(proof.output_poly.evaluation[1], fe(0));
}

#[test]
fn proof_has_one_sum_check_per_layer() {
    let mut circuit = Circuit::new(depth_three_circuit());
    let proof = prove(&mut circuit, &depth_three_inputs());

    assert_eq!(proof.proof_polynomials.len(), 3);
    assert_eq!(proof.claimed_evaluations.len(), 3);
    // Layer i reduces to a claim about 2^(i+1) values: 2 * (i + 1) rounds.
    assert_eq!(proof.proof_polynomials[0].len(), 2);
    assert_eq!(proof.proof_polynomials[1].len(), 4);
    assert_eq!(proof.proof_polynomials[2].len(), 6);
    for layer in proof.proof_polynomials.iter() {
        for round in layer.iter() {
            assert_eq!(round.coefficient.len(), 3);
        }
    }
}

#[test]
fn prove_leaves_the_circuit_unchanged() {
    let mut circuit = Circuit::new(depth_three_circuit());
    let before = circuit.clone();
    let _ = prove(&mut circuit, &depth_three_inputs());
    assert_eq!(circuit, before);
}

#[test]
fn proving_twice_gives_the_same_proof() {
    let mut circuit = Circuit::new(depth_three_circuit());
    let first = prove(&mut circuit, &depth_three_inputs());
    let second = prove(&mut circuit, &depth_three_inputs());
    assert_eq!(first, second);

    let other_inputs = fes(&[5, 2, 2, 4, 10, 0, 3, 4]);
    let third = prove(&mut circuit, &other_inputs);
    assert_ne!(first, third);
}

#[test]
fn first_round_polynomial_sums_to_the_opening_claim() {
    let mut circuit = Circuit::new(depth_three_circuit());
    let proof = prove(&mut circuit, &depth_three_inputs());

    let mut transcript = Transcript::new();
    let (claim, challenge) = initiate_protocol(&mut transcript, &proof.output_poly);
    // The output polynomial is 27 * (1 - x).
    assert_eq!(claim, fe(27).sub(fe(27).mul(challenge)));

    let round = &proof.proof_polynomials[0][0];
    assert_eq!(round.evaluate(fe(0)).add(round.evaluate(fe(1))), claim);
}

#[test]
fn output_layer_of_an_honest_proof_passes_its_check() {
    let mut circuit = Circuit::new(depth_three_circuit());
    let inputs = depth_three_inputs();
    let proof = prove(&mut circuit, &inputs);

    let mut transcript = Transcript::new();
    let (claim, challenge) = initiate_protocol(&mut transcript, &proof.output_poly);
    let at = Checked {
        claim,
        challenge,
        alpha: fe(0),
        beta: fe(0),
        previous: Vec::new(),
        last: Vec::new(),
    };
    let (o_1, o_2) = proof.claimed_evaluations[0];
    let next = check_layer(
        &circuit.layers[2],
        0,
        at,
        &mut transcript,
        &proof.proof_polynomials[0],
        o_1,
        o_2,
    );
    let next = next.expect("the output layer passes");
    assert_eq!(next.last.len(), 2);
    assert!(next.previous.is_empty());

    // The two claimed values are the values of the layer below, [18, 9], at
    // the two challenges: 18 + r * (9 - 18).
    let nine = fe(9);
    assert_eq!(o_1, fe(18).sub(nine.mul(next.last[0])));
    assert_eq!(o_2, fe(18).sub(nine.mul(next.last[1])));
}

#[test]
fn output_layer_rejects_a_changed_claim() {
    let mut circuit = Circuit::new(depth_three_circuit());
    let proof = prove(&mut circuit, &depth_three_inputs());

    let mut transcript = Transcript::new();
    let (claim, challenge) = initiate_protocol(&mut transcript, &proof.output_poly);
    let at = Checked {
        claim,
        challenge,
        alpha: fe(0),
        beta: fe(0),
        previous: Vec::new(),
        last: Vec::new(),
    };
    let (o_1, o_2) = proof.claimed_evaluations[0];
    let next = check_layer(
        &circuit.layers[2],
        0,
        at,
        &mut transcript,
        &proof.proof_polynomials[0],
        o_1.add(fe(1)),
        o_2,
    );
    assert!(next.is_none());
}

#[test]
fn verifier_claim_follows_the_layer_formulas() {
    // One addition gate: the add predicate is 1 at (a, b, c) = (0, 0, 1), so
    // at the point (r, x, y) it is (1 - r) * (1 - x) * y; the mul predicate is 0.
    let layer = Layer::new(vec![Operation::Add]);
    let r = fe(3);
    let x = fe(5);
    let y = fe(7);
    let a_r = fe(1).sub(r).mul(fe(1).sub(x)).mul(y);
    let o_1 = fe(11);
    let o_2 = fe(13);

    let mut transcript = Transcript::new();
    let (claim, next_claim, alpha, beta) =
        get_verifier_claim(&layer, r, &[x, y], o_1, o_2, &mut transcript, 0);
    assert_eq!(claim, a_r.mul(o_1.add(o_2)));
    assert_eq!(next_claim, alpha.mul(o_1).add(beta.mul(o_2)));
    assert_ne!(alpha, beta);

    let mut transcript = Transcript::new();
    let (claim, next_claim, alpha_again, beta_again) =
        get_verifier_claim(&layer, r, &[x, y], o_1, o_2, &mut transcript, 1);
    assert_eq!(alpha_again, alpha);
    assert_eq!(beta_again, beta);
    assert_eq!(claim, alpha.mul(a_r).mul(o_1.add(o_2)));
    assert_eq!(next_claim, alpha.mul(o_1).add(beta.mul(o_2)));
}

#[test]
fn verifier_claim_below_the_output_takes_the_starting_challenge() {
    // Two addition gates. At the selector value 1 and the wires (0, 1) the add
    // predicate is 0, so the expected value is 0 whatever alpha and beta are.
    let layer = Layer::new(vec![Operation::Add, Operation::Add]);
    let mut transcript = Transcript::new();
    let challenges = [fe(0), fe(0), fe(0), fe(1)];
    let (claim, next_claim, alpha, beta) =
        get_verifier_claim(&layer, fe(1), &challenges, fe(4), fe(6), &mut transcript, 1);
    assert_eq!(claim, fe(0));
    assert_eq!(next_claim, alpha.mul(fe(4)).add(beta.mul(fe(6))));

    // At the selector value 0 it is 1: alpha * 1 * (4 + 6).
    let mut transcript = Transcript::new();
    let (claim, _, alpha, _) =
        get_verifier_claim(&layer, fe(0), &challenges, fe(4), fe(6), &mut transcript, 1);
    assert_eq!(claim, alpha.mul(fe(10)));
}

#[test]
fn tampered_output_is_rejected() {
    let mut circuit = Circuit::new(depth_three_circuit());
    let inputs = depth_three_inputs();
    let mut proof = prove(&mut circuit, &inputs);
    proof.output_poly.evaluation[0] = proof.output_poly.evaluation[0].add(fe(1));
    assert_eq!(verify(proof, circuit, &inputs), false);
}

#[test]
fn tampered_round_polynomial_is_rejected() {
    let mut circuit = Circuit::new(depth_three_circuit());
    let inputs = depth_three_inputs();
    let mut proof = prove(&mut circuit, &inputs);
    let degree = proof.proof_polynomials[0][0].coefficient.len();
    let mut coefficient = proof.proof_polynomials[0][0].coefficient.clone();
    coefficient[0] = coefficient[0].add(fe(1));
    proof.proof_polynomials[0][0] = UnivariatePoly::new(coefficient);
    assert_eq!(proof.proof_polynomials[0][0].coefficient.len(), degree);
    assert_eq!(verify(proof, circuit, &inputs), false);
}

#[test]
fn every_tampered_round_polynomial_is_rejected() {
    let mut circuit = Circuit::new(depth_three_circuit());
    let inputs = depth_three_inputs();
    let honest = prove(&mut circuit, &inputs);
    for k in 0..honest.proof_polynomials.len() {
        for j in 0..honest.proof_polynomials[k].len() {
            let mut proof = honest.clone();
            let mut coefficient = proof.proof_polynomials[k][j].coefficient.clone();
            coefficient[1] = coefficient[1].add(fe(1));
            proof.proof_polynomials[k][j] = UnivariatePoly::new(coefficient);
            assert_eq!(verify(proof, circuit.clone(), &inputs), false);
        }
    }
}

#[test]
fn tampered_claimed_evaluation_is_rejected() {
    for k in 0..3 {
        let mut circuit = Circuit::new(depth_three_circuit());
        let inputs = depth_three_inputs();
        let mut proof = prove(&mut circuit, &inputs);
        let (o_1, o_2) = proof.claimed_evaluations[k];
        proof.claimed_evaluations[k] = (o_1, o_2.add(fe(1)));
        assert_eq!(verify(proof, circuit, &inputs), false);
    }
}

#[test]
fn proof_of_the_wrong_shape_is_rejected() {
    let mut circuit = Circuit::new(depth_three_circuit());
    let inputs = depth_three_inputs();

    let mut proof = prove(&mut circuit, &inputs);
    proof.proof_polynomials.pop();
    assert_eq!(verify(proof, circuit.clone(), &inputs), false);

    let mut proof = prove(&mut circuit, &inputs);
    proof.claimed_evaluations.push((fe(1), fe(2)));
    assert_eq!(verify(proof, circuit.clone(), &inputs), false);

    let mut proof = prove(&mut circuit, &inputs);
    proof.output_poly = MultilinearPoly::new(fes(&[27]));
    assert_eq!(verify(proof, circuit.clone(), &inputs), false);

    let mut proof = prove(&mut circuit, &inputs);
    proof.proof_polynomials[0].pop();
    assert_eq!(verify(proof, circuit, &inputs), false);
}

#[test]
fn proof_for_other_inputs_is_rejected() {
    let mut circuit = Circuit::new(depth_three_circuit());
    let proof = prove(&mut circuit, &depth_three_inputs());
    let other_inputs = fes(&[5, 2, 2, 4, 10, 0, 3, 4]);
    assert_eq!(verify(proof, circuit, &other_inputs), false);
}

#[test]
fn one_layer_circuit_is_checked() {
    let mut circuit = Circuit::new(vec![vec![Operation::Mul]]);
    let inputs = fes(&[6, 7]);
    let mut proof = prove(&mut circuit, &inputs);
    assert_eq!(proof.output_poly.evaluation, fes(&[42, 0]));
    assert_eq!(proof.proof_polynomials.len(), 1);
    proof.output_poly.evaluation[0] = fe(41);
    assert_eq!(verify(proof, circuit, &inputs), false);
}
