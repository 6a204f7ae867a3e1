use plonky::circuit::{CircuitBuilder, OpKind, PartialWitness, Target, Wire};
use plonky::field::Bls12Scalar;
use plonky::gates::arithmetic::ArithmeticGate;

fn s(n: u64) -> Bls12Scalar {
    Bls12Scalar::from_canonical_u64(n)
}

fn row(c0: u64, c1: u64) -> Vec<Bls12Scalar> {
    vec![s(1), s(0), s(0), s(1), s(c0), s(c1)]
}

#[test]
fn arithmetic_gate_residual() {
    // 3 * 5 * 7 + 2 * 11 = 127
    let wires = vec![s(5), s(7), s(11), s(127)];
    let r = ArithmeticGate::evaluate_unfiltered(&row(3, 2), &wires, &[], &[]);
    assert_eq!(r.len(), 1);
    assert!(r[0].is_zero());
    let wrong = vec![s(5), s(7), s(11), s(120)];
    let r = ArithmeticGate::evaluate_unfiltered(&row(3, 2), &wrong, &[], &[]);
    assert!(r[0].equals(s(7)));
}

#[test]
fn arithmetic_gate_generate_satisfies_constraint() {
    let gate = ArithmeticGate::new(2);
    let constants = vec![row(0, 0), row(0, 0), row(9, 4)];
    let mut witness = PartialWitness::new();
    witness.set_wire(Wire { gate: 2, input: 0 }, s(6));
    witness.set_wire(Wire { gate: 2, input: 1 }, s(10));
    witness.set_wire(Wire { gate: 2, input: 2 }, s(5));
    let generated = gate.generate(&constants, &witness).unwrap();
    let output = generated.get_wire(Wire { gate: 2, input: 3 }).unwrap();
    assert!(output.equals(s(9 * 6 * 10 + 4 * 5)));
    let wires = vec![s(6), s(10), s(5), output];
    let r = ArithmeticGate::evaluate_unfiltered(&constants[2], &wires, &[], &[]);
    assert!(r[0].is_zero());
}

#[test]
fn arithmetic_gate_generate_missing_dependency() {
    let gate = ArithmeticGate::new(0);
    let constants = vec![row(1, 1)];
    let mut witness = PartialWitness::new();
    witness.set_wire(Wire { gate: 0, input: 0 }, s(1));
    witness.set_wire(Wire { gate: 0, input: 2 }, s(1));
    assert!(gate.generate(&constants, &witness).is_none());
}

#[test]
fn arithmetic_gate_dependencies() {
    let gate = ArithmeticGate::new(4);
    let deps = gate.dependencies();
    assert!(deps == vec![
        Target::Wire(Wire { gate: 4, input: 0 }),
        Target::Wire(Wire { gate: 4, input: 1 }),
        Target::Wire(Wire { gate: 4, input: 2 }),
    ]);
    assert_eq!(ArithmeticGate::prefix(), vec![true, false, false, true]);
    assert_eq!(ArithmeticGate::name(), "ArithmeticGate");
}

#[test]
fn arithmetic_gate_recursive_records_operations() {
    let mut builder = CircuitBuilder::new();
    let constants = builder.add_public_inputs(6);
    let wires: Vec<Target> = (0..4).map(|i| Target::Wire(Wire { gate: 0, input: i })).collect();
    let r = ArithmeticGate::evaluate_unfiltered_recursively(&mut builder, &constants, &wires, &[], &[]);
    assert_eq!(r.len(), 1);
    let circuit = builder.build();
    // two products for the first term, one for the second, one sum, one difference
    assert_eq!(circuit.operations.len(), 5);
    assert!(r[0] == Target::Virtual(4));
    assert_eq!(circuit.num_public_inputs, 6);
    let kinds: Vec<OpKind> = circuit.operations.iter().map(|op| op.kind).collect();
    assert!(kinds == vec![OpKind::Mul, OpKind::Mul, OpKind::Mul, OpKind::Add, OpKind::Sub]);
    assert!(circuit.operations[0].lhs == constants[4] && circuit.operations[0].rhs == wires[0]);
    assert!(circuit.operations[1].lhs == Target::Virtual(0) && circuit.operations[1].rhs == wires[1]);
    assert!(circuit.operations[2].lhs == constants[5] && circuit.operations[2].rhs == wires[2]);
    assert!(circuit.operations[3].lhs == Target::Virtual(1) && circuit.operations[3].rhs == Target::Virtual(2));
    assert!(circuit.operations[4].lhs == Target::Virtual(3) && circuit.operations[4].rhs == wires[3]);
}

#[test]
fn witness_keeps_latest_assignment() {
    let mut witness = PartialWitness::new();
    let w = Wire { gate: 1, input: 1 };
    assert!(witness.get_wire(w).is_none());
    witness.set_wire(w, s(3));
    witness.set_wire(w, s(8));
    assert!(witness.get_wire(w).unwrap().equals(s(8)));
}

#[test]
fn native_and_symbolic_residuals_agree() {
    let mut builder = CircuitBuilder::new();
    let constants = builder.add_public_inputs(6);
    let wires: Vec<Target> = (0..4).map(|i| Target::Wire(Wire { gate: 0, input: i })).collect();
    let r = ArithmeticGate::evaluate_unfiltered_recursively(&mut builder, &constants, &wires, &[], &[]);
    let circuit = builder.build();
    let cases = [(3u64, 2u64, [5u64, 7, 11, 120]), (9, 4, [6, 10, 5, 560]), (0, 1, [1, 2, 3, 0])];
    for (c0, c1, values) in cases.iter() {
        let constant_values = row(*c0, *c1);
        let wire_values: Vec<Bls12Scalar> = values.iter().map(|v| s(*v)).collect();
        let mut witness = PartialWitness::new();
        for (i, v) in wire_values.iter().enumerate() {
            witness.set_wire(Wire { gate: 0, input: i }, *v);
        }
        let native = ArithmeticGate::evaluate_unfiltered(&constant_values, &wire_values, &[], &[]);
        let symbolic = circuit.evaluate(&constant_values, &witness, r[0]);
        assert!(symbolic.equals(native[0]));
    }
}
