use gkr::field::Fe;
use gkr::gkr_circuit::{Circuit, Layer, Operation};

fn fes(xs: &[u64]) -> Vec<Fe> {
    xs.iter().map(|x| Fe::from_u64(*x)).collect()
}

#[test]
fn operations_apply() {
    assert_eq!(
        Operation::Add.apply(Fe::from_u64(2), Fe::from_u64(3)),
        Fe::from_u64(5)
    );
    assert_eq!(
        Operation::Mul.apply(Fe::from_u64(2), Fe::from_u64(3)),
        Fe::from_u64(6)
    );
}

#[test]
fn evaluate_gives_every_layer_from_the_inputs_up() {
    let circuit = Circuit::new(vec![
        vec![
            Operation::Mul,
            Operation::Mul,
            Operation::Mul,
            Operation::Mul,
        ],
        vec![Operation::Add, Operation::Add],
        vec![Operation::Add],
    ]);
    let values = circuit.evaluate(&fes(&[5, 2, 2, 4, 10, 0, 3, 3]));
    assert_eq!(
        values,
        vec![
            fes(&[5, 2, 2, 4, 10, 0, 3, 3]),
            fes(&[10, 8, 0, 9]),
            fes(&[18, 9]),
            fes(&[27]),
        ]
    );
}

#[test]
fn new_keeps_the_layers_in_order() {
    let circuit = Circuit::new(vec![
        vec![Operation::Mul, Operation::Add],
        vec![Operation::Add],
    ]);
    assert_eq!(circuit.layers.len(), 2);
    assert_eq!(circuit.layers[0].gates, vec![Operation::Mul, Operation::Add]);
    assert_eq!(circuit.layers[1].gates, vec![Operation::Add]);
}

#[test]
fn wiring_predicate_of_a_single_gate() {
    let layer = Layer::new(vec![Operation::Add]);
    assert_eq!(layer.wiring_len(), 8);
    assert_eq!(
        layer.get_add_mul_i(Operation::Add).evaluation,
        fes(&[0, 1, 0, 0, 0, 0, 0, 0])
    );
    assert_eq!(
        layer.get_add_mul_i(Operation::Mul).evaluation,
        fes(&[0; 8])
    );
}

#[test]
fn wiring_predicate_has_a_one_for_each_gate() {
    let layer = Layer::new(vec![Operation::Add, Operation::Mul]);
    let mut add = fes(&[0; 32]);
    add[1] = Fe::one();
    let mut mul = fes(&[0; 32]);
    mul[16 + 2 * 4 + 3] = Fe::one();
    assert_eq!(layer.get_add_mul_i(Operation::Add).evaluation, add);
    assert_eq!(layer.get_add_mul_i(Operation::Mul).evaluation, mul);

    let wide = Layer::new(vec![
        Operation::Mul,
        Operation::Mul,
        Operation::Add,
        Operation::Mul,
    ]);
    assert_eq!(wide.wiring_len(), 256);
    let table = wide.get_add_mul_i(Operation::Mul).evaluation;
    assert_eq!(table.len(), 256);
    let ones: Vec<usize> = (0..256).filter(|i| table[*i] == Fe::one()).collect();
    assert_eq!(ones, vec![1, 64 + 2 * 8 + 3, 3 * 64 + 6 * 8 + 7]);
    let table = wide.get_add_mul_i(Operation::Add).evaluation;
    let ones: Vec<usize> = (0..256).filter(|i| table[*i] == Fe::one()).collect();
    assert_eq!(ones, vec![2 * 64 + 4 * 8 + 5]);
}

#[test]
fn well_formed_circuits_halve_up_to_one_gate() {
    let add = Operation::Add;
    let mul = Operation::Mul;
    assert!(Circuit::new(vec![vec![add]]).is_well_formed());
    assert!(Circuit::new(vec![vec![mul, add], vec![add]]).is_well_formed());
    assert!(Circuit::new(vec![vec![mul; 4], vec![add; 2], vec![add]]).is_well_formed());
    assert!(!Circuit::new(vec![]).is_well_formed());
    assert!(!Circuit::new(vec![vec![add, add]]).is_well_formed());
    assert!(!Circuit::new(vec![vec![add; 3], vec![add]]).is_well_formed());
    assert!(!Circuit::new(vec![vec![add], vec![add, add]]).is_well_formed());
    assert!(!Circuit::new(vec![vec![add; 4], vec![add]]).is_well_formed());
    assert!(!Circuit::new(vec![vec![add, add], vec![]]).is_well_formed());
}
