//! A gate computing `const_0 * multiplicand_0 * multiplicand_1 + const_1 * addend`.
use crate::circuit::{
    lookup, target_in, target_value, CircuitBuilder, PartialWitness, Target, Wire, fold_values,
    lemma_target_value_bound, OpKind, Operation,
};
use crate::field::{lemma_orders_large, scalar_order, Bls12Scalar};
use vstd::arithmetic::div_mod::{
    lemma_add_mod_noop, lemma_mod_add_multiples_vanish, lemma_mul_mod_noop_left,
    lemma_sub_mod_noop,
};
use vstd::prelude::*;

verus! {

/// The output that this gate's constants and inputs determine.
pub open spec fn arithmetic_output(c0: nat, c1: nat, m0: nat, m1: nat, addend: nat) -> nat {
    (c0 * m0 * m1 + c1 * addend) % scalar_order()
}

/// The constraint residual: zero exactly when `output` is the computed output.
pub open spec fn arithmetic_residual(
    c0: nat,
    c1: nat,
    m0: nat,
    m1: nat,
    addend: nat,
    output: nat,
) -> nat {
    ((c0 * m0 * m1 + c1 * addend - output) % (scalar_order() as int)) as nat
}

/// The residual as this gate computes it, one reduced operation at a time.
pub open spec fn stepwise_residual(
    c0: nat,
    c1: nat,
    m0: nat,
    m1: nat,
    addend: nat,
    output: nat,
) -> nat {
    let p = scalar_order();
    let product = (((c0 * m0) % p) * m1) % p;
    let sum = (product + (c1 * addend) % p) % p;
    ((sum + p - output) % (p as int)) as nat
}

proof fn lemma_stepwise_residual(c0: nat, c1: nat, m0: nat, m1: nat, addend: nat, output: nat)
    requires
        output < scalar_order(),
    ensures
        stepwise_residual(c0, c1, m0, m1, addend, output) == arithmetic_residual(
            c0,
            c1,
            m0,
            m1,
            addend,
            output,
        ),
{
    let p = scalar_order() as int;
    lemma_orders_large();
    let x = (c0 * m0 * m1) as int;
    let y = (c1 * addend) as int;
    lemma_mul_mod_noop_left((c0 * m0) as int, m1 as int, p);
    lemma_add_mod_noop(x, y, p);
    let sum = (x + y) % p;
    lemma_mod_add_multiples_vanish(sum - output, p);
    lemma_sub_mod_noop(x + y, output as int, p);
    vstd::arithmetic::div_mod::lemma_small_mod(output, p as nat);
}

/// The operations that recording this gate's residual appends after `n` earlier
/// ones: the two products of `const_0 * multiplicand_0 * multiplicand_1`, the
/// product `const_1 * addend`, their sum, and the difference with `output`.
pub open spec fn recorded_ops(n: nat, constants: Seq<Target>, wires: Seq<Target>) -> Seq<
    Operation,
> {
    seq![
        Operation { kind: OpKind::Mul, lhs: constants[4], rhs: wires[0] },
        Operation { kind: OpKind::Mul, lhs: Target::Virtual(n as usize), rhs: wires[1] },
        Operation { kind: OpKind::Mul, lhs: constants[5], rhs: wires[2] },
        Operation {
            kind: OpKind::Add,
            lhs: Target::Virtual((n + 1) as usize),
            rhs: Target::Virtual((n + 2) as usize),
        },
        Operation { kind: OpKind::Sub, lhs: Target::Virtual((n + 3) as usize), rhs: wires[3] },
    ]
}

/// A witness whose output was computed by this gate satisfies its constraint.
pub proof fn lemma_generated_output_satisfies(c0: nat, c1: nat, m0: nat, m1: nat, addend: nat)
    ensures
        arithmetic_residual(c0, c1, m0, m1, addend, arithmetic_output(c0, c1, m0, m1, addend))
            == 0,
{
    let p = scalar_order() as int;
    let x = (c0 * m0 * m1 + c1 * addend) as int;
    let out = arithmetic_output(c0, c1, m0, m1, addend);
    lemma_orders_large();
    assert(out == x % p);
    lemma_sub_mod_noop(x, x % p, p);
    vstd::arithmetic::div_mod::lemma_small_mod(0, p as nat);
    assert((x % p) - (x % p) == 0);
    vstd::arithmetic::div_mod::lemma_mod_twice(x, p);
    vstd::arithmetic::div_mod::lemma_mod_self_0(p);
}

/// `v` raised to the power `e`.
pub open spec fn power(v: int, e: nat) -> int
    decreases e,
{
    if e == 0 {
        1
    } else {
        v * power(v, (e - 1) as nat)
    }
}

/// The product of the variables raised to the exponents.
pub open spec fn monomial_value(vars: Seq<int>, exps: Seq<nat>) -> int
    decreases exps.len(),
{
    if exps.len() == 0 || vars.len() == 0 {
        1
    } else {
        power(vars[0], exps[0]) * monomial_value(vars.skip(1), exps.skip(1))
    }
}

/// The total degree of a monomial.
pub open spec fn monomial_degree(exps: Seq<nat>) -> nat
    decreases exps.len(),
{
    if exps.len() == 0 {
        0
    } else {
        exps[0] + monomial_degree(exps.skip(1))
    }
}

/// The sum of the terms, each a coefficient and a monomial.
pub open spec fn polynomial_value(terms: Seq<(int, Seq<nat>)>, vars: Seq<int>) -> int
    decreases terms.len(),
{
    if terms.len() == 0 {
        0
    } else {
        terms[0].0 * monomial_value(vars, terms[0].1) + polynomial_value(terms.skip(1), vars)
    }
}

/// The residual as a polynomial in `(const_0, const_1, multiplicand_0,
/// multiplicand_1, addend, output)`.
pub open spec fn arithmetic_residual_terms() -> Seq<(int, Seq<nat>)> {
    seq![
        (1int, seq![1nat, 0, 1, 1, 0, 0]),
        (1int, seq![0nat, 1, 0, 0, 1, 0]),
        (-1int, seq![0nat, 0, 0, 0, 0, 1]),
    ]
}

proof fn lemma_monomial_of_six(vars: Seq<int>, exps: Seq<nat>)
    requires
        vars.len() == 6,
        exps.len() == 6,
    ensures
        monomial_value(vars, exps) == power(vars[0], exps[0]) * (power(vars[1], exps[1]) * (
        power(vars[2], exps[2]) * (power(vars[3], exps[3]) * (power(vars[4], exps[4]) * (
        power(vars[5], exps[5]) * 1))))),
{
    reveal_with_fuel(monomial_value, 7);
    assert(vars.skip(1).skip(1).skip(1).skip(1).skip(1).skip(1).len() == 0);
}

/// The residual is a polynomial of total degree at most `ArithmeticGate::DEGREE`
/// in the row's constants and wires: its value is that polynomial's, reduced.
pub proof fn lemma_residual_degree(c0: nat, c1: nat, m0: nat, m1: nat, addend: nat, output: nat)
    ensures
        forall|k: int|
            0 <= k < arithmetic_residual_terms().len() ==> monomial_degree(
                #[trigger] arithmetic_residual_terms()[k].1,
            ) <= ArithmeticGate::DEGREE,
        arithmetic_residual(c0, c1, m0, m1, addend, output) == polynomial_value(
            arithmetic_residual_terms(),
            seq![c0 as int, c1 as int, m0 as int, m1 as int, addend as int, output as int],
        ) % (scalar_order() as int),
{
    let terms = arithmetic_residual_terms();
    let vars = seq![c0 as int, c1 as int, m0 as int, m1 as int, addend as int, output as int];
    reveal_with_fuel(monomial_degree, 7);
    reveal_with_fuel(polynomial_value, 4);
    assert(terms.skip(1).skip(1).skip(1).len() == 0);
    assert(terms[0].1 =~= seq![1nat, 0, 1, 1, 0, 0]);
    assert(terms[1].1 =~= seq![0nat, 1, 0, 0, 1, 0]);
    assert(terms[2].1 =~= seq![0nat, 0, 0, 0, 0, 1]);
    assert(vars[0] == c0 && vars[1] == c1 && vars[2] == m0 && vars[3] == m1 && vars[4] == addend
        && vars[5] == output);
    assert forall|v: int| power(v, 0) == 1 && #[trigger] power(v, 1) == v by {
        reveal_with_fuel(power, 2);
    }
    lemma_monomial_of_six(vars, terms[0].1);
    lemma_monomial_of_six(vars, terms[1].1);
    lemma_monomial_of_six(vars, terms[2].1);
    let mv0 = monomial_value(vars, terms[0].1);
    let mv1 = monomial_value(vars, terms[1].1);
    let mv2 = monomial_value(vars, terms[2].1);
    let (a, b, c, d, e, f) = (c0 as int, c1 as int, m0 as int, m1 as int, addend as int, output as int);
    assert(mv0 == a * (1 * (c * (d * (1 * (1 * 1))))));
    assert(mv1 == 1 * (b * (1 * (1 * (e * (1 * 1))))));
    assert(mv2 == 1 * (1 * (1 * (1 * (1 * (f * 1))))));
    assert(mv0 == c0 * m0 * m1 && mv1 == c1 * addend && mv2 == output) by (nonlinear_arith)
        requires
            mv0 == a * (1 * (c * (d * (1 * (1 * 1))))),
            mv1 == 1 * (b * (1 * (1 * (e * (1 * 1))))),
            mv2 == 1 * (1 * (1 * (1 * (1 * (f * 1))))),
            a == c0,
            b == c1,
            c == m0,
            d == m1,
            e == addend,
            f == output,
    ;
    let t1 = terms.skip(1);
    let t2 = t1.skip(1);
    assert(t1[0] == terms[1] && t2[0] == terms[2]);
    assert(t1[0].1 == terms[1].1 && t2[0].1 == terms[2].1);
    assert(polynomial_value(t2.skip(1), vars) == 0);
    assert(polynomial_value(t2, vars) == -1 * mv2);
    assert(polynomial_value(t1, vars) == mv1 + polynomial_value(t2, vars));
    assert(terms[0].0 == 1);
    assert(terms[0].0 * mv0 == mv0);
    assert(polynomial_value(terms, vars) == terms[0].0 * monomial_value(vars, terms[0].1)
        + polynomial_value(t1, vars));
    assert(polynomial_value(terms, vars) == mv0 + polynomial_value(t1, vars));
}

/// A gate which can be configured to perform various arithmetic. In particular, it computes
///
/// ```text
/// output := const_0 * multiplicand_0 * multiplicand_1 + const_1 * addend
/// ```
pub struct ArithmeticGate {
    pub index: usize,
}

impl ArithmeticGate {
    pub const WIRE_MULTIPLICAND_0: usize = 0;

    pub const WIRE_MULTIPLICAND_1: usize = 1;

    pub const WIRE_ADDEND: usize = 2;

    pub const WIRE_OUTPUT: usize = 3;

    /// The total degree of this gate's constraint polynomial.
    pub const DEGREE: usize = 3;

    /// The number of selector bits that precede this gate's own constants.
    pub const PREFIX_LEN: usize = 4;

    pub fn new(index: usize) -> (r: Self)
        ensures
            r.index == index,
    {
        ArithmeticGate { index }
    }

    pub fn name() -> (r: &'static str)
        ensures
            r@ == "ArithmeticGate"@,
    {
        "ArithmeticGate"
    }

    /// The selector bits written into the leading constants of this gate's row.
    pub fn prefix() -> (r: Vec<bool>)
        ensures
            r@ == seq![true, false, false, true],
    {
        let r = vec![true, false, false, true];
        assert(r@ =~= seq![true, false, false, true]);
        r
    }

    /// The constraint residuals for concrete row values.
    pub fn evaluate_unfiltered(
        local_constant_values: &[Bls12Scalar],
        local_wire_values: &[Bls12Scalar],
        _right_wire_values: &[Bls12Scalar],
        _below_wire_values: &[Bls12Scalar],
    ) -> (r: Vec<Bls12Scalar>)
        requires
            local_constant_values@.len() >= 6,
            local_wire_values@.len() >= 4,
            forall|i: int|
                0 <= i < local_constant_values@.len() ==> (#[trigger] local_constant_values@[i]).wf(),
            forall|i: int| 0 <= i < local_wire_values@.len() ==> (#[trigger] local_wire_values@[i]).wf(),
        ensures
            r@.len() == 1,
            r@[0].wf(),
            r@[0].value() == arithmetic_residual(
                local_constant_values@[4].value(),
                local_constant_values@[5].value(),
                local_wire_values@[0].value(),
                local_wire_values@[1].value(),
                local_wire_values@[2].value(),
                local_wire_values@[3].value(),
            ),
    {
        let const_0 = local_constant_values[Self::PREFIX_LEN];
        let const_1 = local_constant_values[Self::PREFIX_LEN + 1];
        let multiplicand_0 = local_wire_values[Self::WIRE_MULTIPLICAND_0];
        let multiplicand_1 = local_wire_values[Self::WIRE_MULTIPLICAND_1];
        let addend = local_wire_values[Self::WIRE_ADDEND];
        let output = local_wire_values[Self::WIRE_OUTPUT];
        let computed_output = const_0.mul(multiplicand_0).mul(multiplicand_1).add(
            const_1.mul(addend),
        );
        let residual = computed_output.sub(output);
        proof {
            lemma_stepwise_residual(
                const_0.value(),
                const_1.value(),
                multiplicand_0.value(),
                multiplicand_1.value(),
                addend.value(),
                output.value(),
            );
        }
        vec![residual]
    }

    /// The same residuals, recorded as arithmetic over targets of a circuit under
    /// construction.
    pub fn evaluate_unfiltered_recursively(
        builder: &mut CircuitBuilder,
        local_constant_values: &[Target],
        local_wire_values: &[Target],
        _right_wire_values: &[Target],
        _below_wire_values: &[Target],
    ) -> (r: Vec<Target>)
        requires
            local_constant_values@.len() >= 6,
            local_wire_values@.len() >= 4,
            old(builder).ops().len() + 8 <= usize::MAX,
            forall|i: int|
                0 <= i < local_constant_values@.len() ==> target_in(
                    old(builder).ops(),
                    #[trigger] local_constant_values@[i],
                ),
            forall|i: int|
                0 <= i < local_wire_values@.len() ==> target_in(
                    old(builder).ops(),
                    #[trigger] local_wire_values@[i],
                ),
        ensures
            old(builder).extends(*final(builder)),
            r@.len() == 1,
            final(builder).ops() == old(builder).ops() + recorded_ops(
                old(builder).ops().len(),
                local_constant_values@,
                local_wire_values@,
            ),
            r@[0] == Target::Virtual((old(builder).ops().len() + 4) as usize),
            target_in(final(builder).ops(), r@[0]),
            forall|env: spec_fn(Target) -> nat| #[trigger]
                target_value(final(builder).ops(), env, r@[0]) == arithmetic_residual(
                    target_value(old(builder).ops(), env, local_constant_values@[4]),
                    target_value(old(builder).ops(), env, local_constant_values@[5]),
                    target_value(old(builder).ops(), env, local_wire_values@[0]),
                    target_value(old(builder).ops(), env, local_wire_values@[1]),
                    target_value(old(builder).ops(), env, local_wire_values@[2]),
                    target_value(old(builder).ops(), env, local_wire_values@[3]),
                ),
    {
        let ghost ops0 = builder.ops();
        let const_0 = local_constant_values[Self::PREFIX_LEN];
        let const_1 = local_constant_values[Self::PREFIX_LEN + 1];
        let multiplicand_0 = local_wire_values[Self::WIRE_MULTIPLICAND_0];
        let multiplicand_1 = local_wire_values[Self::WIRE_MULTIPLICAND_1];
        let addend = local_wire_values[Self::WIRE_ADDEND];
        let output = local_wire_values[Self::WIRE_OUTPUT];
        let factors = [const_0, multiplicand_0, multiplicand_1];
        proof {
            assert(target_in(ops0, local_constant_values@[4]));
            assert(target_in(ops0, local_constant_values@[5]));
            assert(target_in(ops0, local_wire_values@[0]));
            assert(target_in(ops0, local_wire_values@[1]));
            assert(target_in(ops0, local_wire_values@[2]));
            assert(target_in(ops0, local_wire_values@[3]));
        }
        let product_term = builder.mul_many(&factors);
        let ghost ops1 = builder.ops();
        let addend_term = builder.mul(const_1, addend);
        let ghost ops2 = builder.ops();
        let terms = [product_term, addend_term];
        let computed_output = builder.add_many(&terms);
        let ghost ops3 = builder.ops();
        let residual = builder.sub(computed_output, output);
        proof {
            assert(factors@.take(1) =~= seq![const_0]);
            assert(terms@.take(1) =~= seq![product_term]);
            assert(builder.ops() =~= ops0 + recorded_ops(
                ops0.len(),
                local_constant_values@,
                local_wire_values@,
            ));
            assert forall|env: spec_fn(Target) -> nat| #[trigger]
                target_value(builder.ops(), env, residual) == arithmetic_residual(
                    target_value(ops0, env, local_constant_values@[4]),
                    target_value(ops0, env, local_constant_values@[5]),
                    target_value(ops0, env, local_wire_values@[0]),
                    target_value(ops0, env, local_wire_values@[1]),
                    target_value(ops0, env, local_wire_values@[2]),
                    target_value(ops0, env, local_wire_values@[3]),
                ) by {
                let c0 = target_value(ops0, env, const_0);
                let c1 = target_value(ops0, env, const_1);
                let m0 = target_value(ops0, env, multiplicand_0);
                let m1 = target_value(ops0, env, multiplicand_1);
                let ad = target_value(ops0, env, addend);
                let out = target_value(ops0, env, output);
                reveal_with_fuel(fold_values, 4);
                assert(factors@.drop_last().drop_last() =~= seq![const_0]);
                assert(factors@.drop_last() =~= seq![const_0, multiplicand_0]);
                assert(terms@.drop_last() =~= seq![product_term]);
                crate::circuit::lemma_target_value_prefix(ops0, ops1, env, const_1);
                crate::circuit::lemma_target_value_prefix(ops0, ops1, env, addend);
                crate::circuit::lemma_target_value_prefix(ops1, ops2, env, product_term);
                assert(ops0 =~= ops3.take(ops0.len() as int)) by {
                    assert(ops0 =~= ops1.take(ops0.len() as int));
                    assert(ops1 =~= ops2.take(ops1.len() as int));
                    assert(ops2 =~= ops3.take(ops2.len() as int));
                }
                crate::circuit::lemma_target_value_prefix(ops0, ops3, env, output);
                lemma_target_value_bound(ops0, env, output);
                lemma_stepwise_residual(c0, c1, m0, m1, ad, out);
            }
        }
        vec![residual]
    }

    /// The wires whose values this gate's witness generation reads.
    pub fn dependencies(&self) -> (r: Vec<Target>)
        ensures
            r@ == seq![
                Target::Wire(Wire { gate: self.index, input: 0 }),
                Target::Wire(Wire { gate: self.index, input: 1 }),
                Target::Wire(Wire { gate: self.index, input: 2 }),
            ],
    {
        let r = vec![
            Target::Wire(Wire { gate: self.index, input: Self::WIRE_MULTIPLICAND_0 }),
            Target::Wire(Wire { gate: self.index, input: Self::WIRE_MULTIPLICAND_1 }),
            Target::Wire(Wire { gate: self.index, input: Self::WIRE_ADDEND }),
        ];
        assert(r@ =~= seq![
            Target::Wire(Wire { gate: self.index, input: 0 }),
            Target::Wire(Wire { gate: self.index, input: 1 }),
            Target::Wire(Wire { gate: self.index, input: 2 }),
        ]);
        r
    }

    /// The output wire's value, computed from the dependency wires and the row's
    /// constants; `None` when a dependency has no value yet.
    pub fn generate(&self, constants: &[Vec<Bls12Scalar>], witness: &PartialWitness) -> (r: Option<
        PartialWitness,
    >)
        requires
            self.index < constants@.len(),
            constants@[self.index as int]@.len() >= 6,
            forall|i: int|
                0 <= i < constants@[self.index as int]@.len()
                    ==> (#[trigger] constants@[self.index as int]@[i]).wf(),
            witness.wf(),
        ensures
            r is Some <==> (lookup(witness.entries(), Wire { gate: self.index, input: 0 }) is Some
                && lookup(witness.entries(), Wire { gate: self.index, input: 1 }) is Some
                && lookup(witness.entries(), Wire { gate: self.index, input: 2 }) is Some),
            r matches Some(w) ==> w.wf() && w.entries().len() == 1 && w.entries()[0].0 == (Wire {
                gate: self.index,
                input: 3,
            }) && w.entries()[0].1.value() == arithmetic_output(
                constants@[self.index as int]@[4].value(),
                constants@[self.index as int]@[5].value(),
                lookup(witness.entries(), Wire { gate: self.index, input: 0 })->Some_0.value(),
                lookup(witness.entries(), Wire { gate: self.index, input: 1 })->Some_0.value(),
                lookup(witness.entries(), Wire { gate: self.index, input: 2 })->Some_0.value(),
            ),
    {
        let multiplicand_0_target = Wire { gate: self.index, input: Self::WIRE_MULTIPLICAND_0 };
        let multiplicand_1_target = Wire { gate: self.index, input: Self::WIRE_MULTIPLICAND_1 };
        let addend_target = Wire { gate: self.index, input: Self::WIRE_ADDEND };
        let output_target = Wire { gate: self.index, input: Self::WIRE_OUTPUT };

        let row = &constants[self.index];
        let const_0 = row[Self::PREFIX_LEN];
        let const_1 = row[Self::PREFIX_LEN + 1];

        let multiplicand_0 = match witness.get_wire(multiplicand_0_target) {
            Some(v) => v,
            None => {
                return None;
            },
        };
        let multiplicand_1 = match witness.get_wire(multiplicand_1_target) {
            Some(v) => v,
            None => {
                return None;
            },
        };
        let addend = match witness.get_wire(addend_target) {
            Some(v) => v,
            None => {
                return None;
            },
        };

        let output = const_0.mul(multiplicand_0).mul(multiplicand_1).add(const_1.mul(addend));
        proof {
            let p = scalar_order() as int;
            let c0 = const_0.value();
            let m0 = multiplicand_0.value();
            let m1 = multiplicand_1.value();
            let c1 = const_1.value();
            let ad = addend.value();
            lemma_mul_mod_noop_left((c0 * m0) as int, m1 as int, p);
            lemma_add_mod_noop((c0 * m0 * m1) as int, (c1 * ad) as int, p);
            vstd::arithmetic::div_mod::lemma_mod_twice((c0 * m0 * m1) as int, p);
        }

        let mut result = PartialWitness::new();
        result.set_wire(output_target, output);
        Some(result)
    }
}

} // verus!
