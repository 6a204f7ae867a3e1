use plonky::circuit::{NUM_CONSTANTS, NUM_WIRES, QUOTIENT_POLYNOMIAL_DEGREE_MULTIPLIER};
use plonky::plonk_recursion::recursive_verification_circuit;

#[test]
fn recursive_bundle_shape() {
    let degree_pow = 5;
    let bundle = recursive_verification_circuit(degree_pow);
    assert_eq!(bundle.l_i().len(), degree_pow);
    assert_eq!(bundle.r_i().len(), degree_pow);
    assert_eq!(bundle.c_wires().len(), NUM_WIRES);
    assert_eq!(bundle.c_t().len(), QUOTIENT_POLYNOMIAL_DEGREE_MULTIPLIER);
    assert_eq!(bundle.c_z().index, NUM_WIRES);
    assert_eq!(bundle.l_i()[0].index, NUM_WIRES + 1 + QUOTIENT_POLYNOMIAL_DEGREE_MULTIPLIER);
    assert_eq!(bundle.r_i()[4].index, NUM_WIRES + 1 + QUOTIENT_POLYNOMIAL_DEGREE_MULTIPLIER + 9);
    assert_eq!(
        bundle.circuit.num_public_inputs,
        NUM_CONSTANTS + NUM_WIRES + 1 + QUOTIENT_POLYNOMIAL_DEGREE_MULTIPLIER + degree_pow + 1
    );
    assert_eq!(bundle.circuit.num_circuit_inputs, NUM_WIRES + 1 + QUOTIENT_POLYNOMIAL_DEGREE_MULTIPLIER + 2 * degree_pow);
    assert!(bundle.circuit().operations.is_empty());
}

#[test]
fn recursive_bundle_without_rounds() {
    let bundle = recursive_verification_circuit(0);
    assert!(bundle.l_i().is_empty());
    assert!(bundle.r_i().is_empty());
    assert_eq!(bundle.circuit.num_circuit_inputs, NUM_WIRES + 1 + QUOTIENT_POLYNOMIAL_DEGREE_MULTIPLIER);
}
