//! The layout of a circuit that verifies another PLONK proof with a Halo
//! reduction: the inner proof's public openings and commitments as inputs.
use crate::circuit::{
    Circuit, CircuitBuilder, CircuitInput, NUM_CONSTANTS, NUM_WIRES,
    QUOTIENT_POLYNOMIAL_DEGREE_MULTIPLIER,
};
use vstd::prelude::*;

verus! {

pub struct RecursiveCircuit {
    /// A commitment to each wire polynomial.
    c_wires: Vec<CircuitInput>,
    /// A commitment to Z in the context of the permutation argument.
    c_z: CircuitInput,
    /// A commitment to the quotient polynomial.
    c_t: Vec<CircuitInput>,
    /// L_i in the Halo reduction.
    l_i: Vec<CircuitInput>,
    /// R_i in the Halo reduction.
    r_i: Vec<CircuitInput>,
    pub circuit: Circuit,
}

/// The number of public inputs that a verification circuit with `degree_pow`
/// reduction rounds allocates.
pub open spec fn recursive_public_inputs(degree_pow: nat) -> nat {
    (NUM_CONSTANTS + NUM_WIRES + 1 + QUOTIENT_POLYNOMIAL_DEGREE_MULTIPLIER + degree_pow + 1) as nat
}

/// The index of the first commitment of the Halo reduction.
pub open spec fn first_round_input() -> nat {
    (NUM_WIRES + 1 + QUOTIENT_POLYNOMIAL_DEGREE_MULTIPLIER) as nat
}

impl RecursiveCircuit {
    pub closed spec fn built(self) -> Circuit {
        self.circuit
    }

    pub closed spec fn wire_commitments(self) -> Seq<CircuitInput> {
        self.c_wires@
    }

    pub closed spec fn permutation_commitment(self) -> CircuitInput {
        self.c_z
    }

    pub closed spec fn quotient_commitments(self) -> Seq<CircuitInput> {
        self.c_t@
    }

    pub closed spec fn left_commitments(self) -> Seq<CircuitInput> {
        self.l_i@
    }

    pub closed spec fn right_commitments(self) -> Seq<CircuitInput> {
        self.r_i@
    }

    pub fn circuit(&self) -> (r: &Circuit)
        ensures
            *r == self.built(),
    {
        &self.circuit
    }

    pub fn c_wires(&self) -> (r: &Vec<CircuitInput>)
        ensures
            r@ == self.wire_commitments(),
    {
        &self.c_wires
    }

    pub fn c_z(&self) -> (r: CircuitInput)
        ensures
            r == self.permutation_commitment(),
    {
        self.c_z
    }

    pub fn c_t(&self) -> (r: &Vec<CircuitInput>)
        ensures
            r@ == self.quotient_commitments(),
    {
        &self.c_t
    }

    pub fn l_i(&self) -> (r: &Vec<CircuitInput>)
        ensures
            r@ == self.left_commitments(),
    {
        &self.l_i
    }

    pub fn r_i(&self) -> (r: &Vec<CircuitInput>)
        ensures
            r@ == self.right_commitments(),
    {
        &self.r_i
    }
}

/// Allocates the inputs that a verifier of an inner proof with `degree_pow`
/// reduction rounds reads, in a fixed order, and builds the circuit.
pub fn recursive_verification_circuit(degree_pow: usize) -> (r: RecursiveCircuit)
    requires
        2 * degree_pow + 64 <= usize::MAX,
    ensures
        r.wire_commitments().len() == NUM_WIRES,
        forall|i: int|
            0 <= i < NUM_WIRES ==> (#[trigger] r.wire_commitments()[i]).index == i,
        r.permutation_commitment().index == NUM_WIRES,
        r.quotient_commitments().len() == QUOTIENT_POLYNOMIAL_DEGREE_MULTIPLIER,
        forall|i: int|
            0 <= i < QUOTIENT_POLYNOMIAL_DEGREE_MULTIPLIER ==> (#[trigger] r.quotient_commitments()[i]).index
                == NUM_WIRES + 1 + i,
        r.left_commitments().len() == degree_pow,
        r.right_commitments().len() == degree_pow,
        forall|i: int|
            0 <= i < degree_pow ==> (#[trigger] r.left_commitments()[i]).index == first_round_input()
                + 2 * i,
        forall|i: int|
            0 <= i < degree_pow ==> (#[trigger] r.right_commitments()[i]).index == first_round_input()
                + 2 * i + 1,
        r.built().num_public_inputs == recursive_public_inputs(degree_pow as nat),
        r.built().num_circuit_inputs == first_round_input() + 2 * degree_pow,
        r.built().operations@.len() == 0,
{
    let mut builder = CircuitBuilder::new();

    let _inner_o_constants = builder.add_public_inputs(NUM_CONSTANTS);
    let _inner_o_wires = builder.add_public_inputs(NUM_WIRES);
    let _inner_o_z = builder.add_public_input();
    let _inner_o_t = builder.add_public_inputs(QUOTIENT_POLYNOMIAL_DEGREE_MULTIPLIER);
    let _inner_u = builder.add_public_inputs(degree_pow);
    let _inner_pi_hash = builder.add_public_input();

    // A commitment to each wire polynomial.
    let mut c_wires: Vec<CircuitInput> = Vec::new();
    for i in 0..NUM_WIRES
        invariant
            c_wires@.len() == i,
            builder.circuit_inputs() == i,
            builder.public_inputs() == recursive_public_inputs(degree_pow as nat),
            builder.ops().len() == 0,
            forall|k: int| 0 <= k < i ==> (#[trigger] c_wires@[k]).index == k,
    {
        c_wires.push(builder.add_circuit_input());
    }

    // A commitment to Z, the polynomial used in the permutation argument.
    let c_z = builder.add_circuit_input();

    // A commitment to t, the quotient polynomial, split into several degree-n polynomials.
    let mut c_t: Vec<CircuitInput> = Vec::new();
    for i in 0..QUOTIENT_POLYNOMIAL_DEGREE_MULTIPLIER
        invariant
            c_t@.len() == i,
            builder.circuit_inputs() == NUM_WIRES + 1 + i,
            builder.public_inputs() == recursive_public_inputs(degree_pow as nat),
            builder.ops().len() == 0,
            forall|k: int| 0 <= k < i ==> (#[trigger] c_t@[k]).index == NUM_WIRES + 1 + k,
    {
        c_t.push(builder.add_circuit_input());
    }

    let mut l_i: Vec<CircuitInput> = Vec::new();
    let mut r_i: Vec<CircuitInput> = Vec::new();
    for i in 0..degree_pow
        invariant
            2 * degree_pow + 64 <= usize::MAX,
            l_i@.len() == i,
            r_i@.len() == i,
            builder.circuit_inputs() == first_round_input() + 2 * i,
            builder.public_inputs() == recursive_public_inputs(degree_pow as nat),
            builder.ops().len() == 0,
            forall|k: int| 0 <= k < i ==> (#[trigger] l_i@[k]).index == first_round_input() + 2 * k,
            forall|k: int| 0 <= k < i ==> (#[trigger] r_i@[k]).index == first_round_input() + 2 * k + 1,
    {
        l_i.push(builder.add_circuit_input());
        r_i.push(builder.add_circuit_input());
    }

    let circuit = builder.build();
    RecursiveCircuit { c_wires, c_z, c_t, l_i, r_i, circuit }
}

} // verus!
