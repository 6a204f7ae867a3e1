//! The circuit under construction: symbolic targets, the arithmetic that a
//! builder records over them, and partial witnesses.
use crate::field::{scalar_order, Bls12Scalar};
use vstd::prelude::*;

verus! {

/// The number of wires in a gate's row.
pub const NUM_WIRES: usize = 11;

/// The number of constants in a gate's row.
pub const NUM_CONSTANTS: usize = 6;

/// The degree of the quotient polynomial, in multiples of the circuit's size.
pub const QUOTIENT_POLYNOMIAL_DEGREE_MULTIPLIER: usize = 16;

/// An input slot of a gate's row.
#[derive(Copy, Clone, PartialEq, Eq, Structural)]
pub struct Wire {
    pub gate: usize,
    pub input: usize,
}

/// An opaque commitment supplied to a circuit out of band.
#[derive(Copy, Clone, PartialEq, Eq, Structural)]
pub struct CircuitInput {
    pub index: usize,
}

/// A symbolic handle on a value of the circuit under construction.
#[derive(Copy, Clone, PartialEq, Eq, Structural)]
pub enum Target {
    PublicInput(usize),
    Wire(Wire),
    /// The result of the builder's operation with this index.
    Virtual(usize),
}

#[derive(Copy, Clone, PartialEq, Eq, Structural)]
pub enum OpKind {
    Add,
    Sub,
    Mul,
}

/// One recorded operation: its result is a new virtual target.
#[derive(Copy, Clone, PartialEq, Eq, Structural)]
pub struct Operation {
    pub kind: OpKind,
    pub lhs: Target,
    pub rhs: Target,
}

/// The modular result of one operation on reduced operands.
pub open spec fn apply_op(kind: OpKind, a: nat, b: nat) -> nat {
    match kind {
        OpKind::Add => (a + b) % scalar_order(),
        OpKind::Sub => ((a + scalar_order() - b) % (scalar_order() as int)) as nat,
        OpKind::Mul => (a * b) % scalar_order(),
    }
}

/// The value of an operand of operation `k`: an input's value is reduced, and a
/// virtual target counts only where it was recorded before `k`.
pub open spec fn operand_value(
    ops: Seq<Operation>,
    env: spec_fn(Target) -> nat,
    t: Target,
    k: nat,
) -> nat
    decreases k, 0nat,
{
    match t {
        Target::Virtual(j) => if j < k {
            op_value(ops, env, j as nat)
        } else {
            0
        },
        _ => env(t) % scalar_order(),
    }
}

/// The value of the result of operation `k` under an assignment of the inputs.
pub open spec fn op_value(ops: Seq<Operation>, env: spec_fn(Target) -> nat, k: nat) -> nat
    decreases k, 1nat,
{
    if k < ops.len() {
        let op = ops[k as int];
        apply_op(op.kind, operand_value(ops, env, op.lhs, k), operand_value(ops, env, op.rhs, k))
    } else {
        0
    }
}

/// The value of a target under an assignment of the inputs.
pub open spec fn target_value(ops: Seq<Operation>, env: spec_fn(Target) -> nat, t: Target) -> nat {
    operand_value(ops, env, t, ops.len())
}

/// The targets' values combined from the left by one operation.
pub open spec fn fold_values(ops: Seq<Operation>, env: spec_fn(Target) -> nat, ts: Seq<Target>, kind: OpKind) -> nat
    decreases ts.len(),
{
    if ts.len() <= 1 {
        if ts.len() == 1 {
            target_value(ops, env, ts[0])
        } else {
            0
        }
    } else {
        apply_op(kind, fold_values(ops, env, ts.drop_last(), kind), target_value(ops, env, ts.last()))
    }
}

/// The operations that folding `ts` records after `n` earlier ones: the first
/// combines the first two targets, each later one the previous result and the
/// next target.
pub open spec fn fold_ops(ts: Seq<Target>, kind: OpKind, n: nat) -> Seq<Operation> {
    Seq::new(
        (ts.len() - 1) as nat,
        |k: int|
            Operation {
                kind,
                lhs: if k == 0 {
                    ts[0]
                } else {
                    Target::Virtual((n + k - 1) as usize)
                },
                rhs: ts[k + 1],
            },
    )
}

/// The target that folding `ts` after `n` earlier operations returns.
pub open spec fn fold_result(ts: Seq<Target>, n: nat) -> Target {
    if ts.len() == 1 {
        ts[0]
    } else {
        Target::Virtual((n + ts.len() - 2) as usize)
    }
}

/// A target that names an input or an operation already recorded.
pub open spec fn target_in(ops: Seq<Operation>, t: Target) -> bool {
    match t {
        Target::Virtual(j) => j < ops.len(),
        _ => true,
    }
}

/// Every target's value is reduced.
pub proof fn lemma_target_value_bound(ops: Seq<Operation>, env: spec_fn(Target) -> nat, t: Target)
    ensures
        target_value(ops, env, t) < scalar_order(),
{
    if let Target::Virtual(j) = t {
        if j < ops.len() {
            let op = ops[j as int];
            match op.kind {
                OpKind::Sub => {
                    let a = operand_value(ops, env, op.lhs, j as nat);
                    let b = operand_value(ops, env, op.rhs, j as nat);
                    assert(((a + scalar_order() - b) % (scalar_order() as int)) < scalar_order());
                },
                _ => {},
            }
        }
    }
}

/// Recording more operations leaves the values of the earlier ones unchanged.
pub proof fn lemma_op_value_prefix(ops: Seq<Operation>, more: Seq<Operation>, env: spec_fn(Target) -> nat, k: nat)
    requires
        k < ops.len(),
        ops.len() <= more.len(),
        ops =~= more.take(ops.len() as int),
    ensures
        op_value(more, env, k) == op_value(ops, env, k),
    decreases k,
{
    assert(more[k as int] == ops[k as int]);
    let op = ops[k as int];
    if let Target::Virtual(j) = op.lhs {
        if j < k {
            lemma_op_value_prefix(ops, more, env, j as nat);
        }
    }
    if let Target::Virtual(j) = op.rhs {
        if j < k {
            lemma_op_value_prefix(ops, more, env, j as nat);
        }
    }
}

pub proof fn lemma_target_value_prefix(ops: Seq<Operation>, more: Seq<Operation>, env: spec_fn(Target) -> nat, t: Target)
    requires
        target_in(ops, t),
        ops.len() <= more.len(),
        ops =~= more.take(ops.len() as int),
    ensures
        target_value(more, env, t) == target_value(ops, env, t),
{
    if let Target::Virtual(j) = t {
        lemma_op_value_prefix(ops, more, env, j as nat);
    }
}

/// A finished circuit.
pub struct Circuit {
    pub num_public_inputs: usize,
    pub num_circuit_inputs: usize,
    pub operations: Vec<Operation>,
}

/// The assignment that public input values and a witness give to the inputs.
pub open spec fn input_env(public_inputs: Seq<Bls12Scalar>, witness: Seq<(Wire, Bls12Scalar)>) -> spec_fn(Target) -> nat {
    |t: Target|
        match t {
            Target::PublicInput(i) => if i < public_inputs.len() {
                public_inputs[i as int].value()
            } else {
                0
            },
            Target::Wire(w) => match lookup(witness, w) {
                Some(v) => v.value(),
                None => 0,
            },
            Target::Virtual(_) => 0,
        }
}

impl Circuit {
    /// The value of `t` when the public inputs and the witness's wires take the
    /// given values; an unassigned input counts as zero.
    pub fn evaluate(&self, public_inputs: &[Bls12Scalar], witness: &PartialWitness, t: Target) -> (r: Bls12Scalar)
        requires
            forall|i: int| 0 <= i < public_inputs@.len() ==> (#[trigger] public_inputs@[i]).wf(),
            witness.wf(),
        ensures
            r.wf(),
            r.value() == target_value(self.operations@, input_env(public_inputs@, witness.entries()), t),
    {
        let ghost env = input_env(public_inputs@, witness.entries());
        let ghost ops = self.operations@;
        let mut values: Vec<Bls12Scalar> = Vec::new();
        let n = self.operations.len();
        for k in 0..n
            invariant
                n == ops.len(),
                ops == self.operations@,
                env == input_env(public_inputs@, witness.entries()),
                forall|i: int| 0 <= i < public_inputs@.len() ==> (#[trigger] public_inputs@[i]).wf(),
                witness.wf(),
                values@.len() == k,
                forall|j: int| 0 <= j < k ==> (#[trigger] values@[j]).wf() && values@[j].value() == op_value(ops, env, j as nat),
        {
            let op = self.operations[k];
            let a = Self::operand(public_inputs, witness, &values, op.lhs);
            let b = Self::operand(public_inputs, witness, &values, op.rhs);
            let v = match op.kind {
                OpKind::Add => a.add(b),
                OpKind::Sub => a.sub(b),
                OpKind::Mul => a.mul(b),
            };
            values.push(v);
            proof {
                assert(values@[k as int].value() == op_value(ops, env, k as nat));
            }
        }
        Self::operand(public_inputs, witness, &values, t)
    }

    fn operand(public_inputs: &[Bls12Scalar], witness: &PartialWitness, values: &Vec<Bls12Scalar>, t: Target) -> (r: Bls12Scalar)
        requires
            forall|i: int| 0 <= i < public_inputs@.len() ==> (#[trigger] public_inputs@[i]).wf(),
            witness.wf(),
            forall|j: int| 0 <= j < values@.len() ==> (#[trigger] values@[j]).wf(),
        ensures
            r.wf(),
            t is Virtual ==> r.value() == (if t->Virtual_0 < values@.len() {
                values@[t->Virtual_0 as int].value()
            } else {
                0
            }),
            !(t is Virtual) ==> r.value() == input_env(public_inputs@, witness.entries())(t)
                % scalar_order(),
    {
        proof {
            crate::field::lemma_orders_large();
        }
        match t {
            Target::PublicInput(i) => {
                if i < public_inputs.len() {
                    proof {
                        vstd::arithmetic::div_mod::lemma_small_mod(public_inputs@[i as int].value(), scalar_order());
                        assert(input_env(public_inputs@, witness.entries())(t) == public_inputs@[i as int].value());
                    }
                    public_inputs[i]
                } else {
                    proof {
                        assert(input_env(public_inputs@, witness.entries())(t) == 0);
                        vstd::arithmetic::div_mod::lemma_small_mod(0, scalar_order());
                    }
                    Bls12Scalar::zero()
                }
            },
            Target::Wire(w) => match witness.get_wire(w) {
                Some(v) => {
                    proof {
                        vstd::arithmetic::div_mod::lemma_small_mod(v.value(), scalar_order());
                    }
                    v
                },
                None => {
                    proof {
                        assert(input_env(public_inputs@, witness.entries())(t) == 0);
                        vstd::arithmetic::div_mod::lemma_small_mod(0, scalar_order());
                    }
                    Bls12Scalar::zero()
                },
            },
            Target::Virtual(j) => {
                if j < values.len() {
                    values[j]
                } else {
                    Bls12Scalar::zero()
                }
            },
        }
    }
}

/// Allocates inputs and records arithmetic over targets.
pub struct CircuitBuilder {
    num_public_inputs: usize,
    num_circuit_inputs: usize,
    operations: Vec<Operation>,
}

impl CircuitBuilder {
    pub closed spec fn public_inputs(self) -> nat {
        self.num_public_inputs as nat
    }

    pub closed spec fn circuit_inputs(self) -> nat {
        self.num_circuit_inputs as nat
    }

    pub closed spec fn ops(self) -> Seq<Operation> {
        self.operations@
    }

    /// The builder's state after `self` that only appended to it.
    pub open spec fn extends(self, later: Self) -> bool {
        &&& self.ops().len() <= later.ops().len()
        &&& self.ops() =~= later.ops().take(self.ops().len() as int)
        &&& later.public_inputs() == self.public_inputs()
        &&& later.circuit_inputs() == self.circuit_inputs()
    }

    pub fn new() -> (r: Self)
        ensures
            r.public_inputs() == 0,
            r.circuit_inputs() == 0,
            r.ops().len() == 0,
    {
        CircuitBuilder { num_public_inputs: 0, num_circuit_inputs: 0, operations: Vec::new() }
    }

    pub fn add_public_input(&mut self) -> (r: Target)
        requires
            old(self).public_inputs() < usize::MAX,
        ensures
            r == Target::PublicInput(old(self).public_inputs() as usize),
            final(self).public_inputs() == old(self).public_inputs() + 1,
            final(self).circuit_inputs() == old(self).circuit_inputs(),
            final(self).ops() == old(self).ops(),
    {
        let t = Target::PublicInput(self.num_public_inputs);
        self.num_public_inputs = self.num_public_inputs + 1;
        t
    }

    /// `n` new public inputs, numbered on from those already allocated.
    pub fn add_public_inputs(&mut self, n: usize) -> (r: Vec<Target>)
        requires
            old(self).public_inputs() + n <= usize::MAX,
        ensures
            r@.len() == n,
            forall|i: int| 0 <= i < n ==> r@[i] == Target::PublicInput((old(self).public_inputs() + i) as usize),
            final(self).public_inputs() == old(self).public_inputs() + n,
            final(self).circuit_inputs() == old(self).circuit_inputs(),
            final(self).ops() == old(self).ops(),
    {
        let mut r: Vec<Target> = Vec::new();
        for i in 0..n
            invariant
                r@.len() == i,
                self.public_inputs() == old(self).public_inputs() + i,
                old(self).public_inputs() + n <= usize::MAX,
                self.circuit_inputs() == old(self).circuit_inputs(),
                self.ops() == old(self).ops(),
                forall|k: int| 0 <= k < i ==> r@[k] == Target::PublicInput((old(self).public_inputs() + k) as usize),
        {
            let t = self.add_public_input();
            r.push(t);
        }
        r
    }

    pub fn add_circuit_input(&mut self) -> (r: CircuitInput)
        requires
            old(self).circuit_inputs() < usize::MAX,
        ensures
            r == (CircuitInput { index: old(self).circuit_inputs() as usize }),
            final(self).circuit_inputs() == old(self).circuit_inputs() + 1,
            final(self).public_inputs() == old(self).public_inputs(),
            final(self).ops() == old(self).ops(),
    {
        let c = CircuitInput { index: self.num_circuit_inputs };
        self.num_circuit_inputs = self.num_circuit_inputs + 1;
        c
    }

    fn record(&mut self, kind: OpKind, lhs: Target, rhs: Target) -> (r: Target)
        requires
            old(self).ops().len() < usize::MAX,
        ensures
            r == Target::Virtual(old(self).ops().len() as usize),
            final(self).ops() == old(self).ops().push(Operation { kind, lhs, rhs }),
            final(self).public_inputs() == old(self).public_inputs(),
            final(self).circuit_inputs() == old(self).circuit_inputs(),
    {
        let k = self.operations.len();
        self.operations.push(Operation { kind, lhs, rhs });
        Target::Virtual(k)
    }

    pub fn add(&mut self, a: Target, b: Target) -> (r: Target)
        requires
            old(self).ops().len() < usize::MAX,
            target_in(old(self).ops(), a),
            target_in(old(self).ops(), b),
        ensures
            old(self).extends(*final(self)),
            final(self).ops().len() == old(self).ops().len() + 1,
            final(self).ops() == old(self).ops().push(Operation { kind: OpKind::Add, lhs: a, rhs: b }),
            r == Target::Virtual(old(self).ops().len() as usize),
            target_in(final(self).ops(), r),
            forall|env: spec_fn(Target) -> nat|
                #[trigger] target_value(final(self).ops(), env, r)
                    == (target_value(old(self).ops(), env, a) + target_value(old(self).ops(), env, b)) % scalar_order(),
    {
        self.op(OpKind::Add, a, b)
    }

    pub fn sub(&mut self, a: Target, b: Target) -> (r: Target)
        requires
            old(self).ops().len() < usize::MAX,
            target_in(old(self).ops(), a),
            target_in(old(self).ops(), b),
        ensures
            old(self).extends(*final(self)),
            final(self).ops().len() == old(self).ops().len() + 1,
            final(self).ops() == old(self).ops().push(Operation { kind: OpKind::Sub, lhs: a, rhs: b }),
            r == Target::Virtual(old(self).ops().len() as usize),
            target_in(final(self).ops(), r),
            forall|env: spec_fn(Target) -> nat|
                #[trigger] target_value(final(self).ops(), env, r)
                    == ((target_value(old(self).ops(), env, a) + scalar_order() - target_value(old(self).ops(), env, b)) % (scalar_order() as int)) as nat,
    {
        self.op(OpKind::Sub, a, b)
    }

    pub fn mul(&mut self, a: Target, b: Target) -> (r: Target)
        requires
            old(self).ops().len() < usize::MAX,
            target_in(old(self).ops(), a),
            target_in(old(self).ops(), b),
        ensures
            old(self).extends(*final(self)),
            final(self).ops().len() == old(self).ops().len() + 1,
            final(self).ops() == old(self).ops().push(Operation { kind: OpKind::Mul, lhs: a, rhs: b }),
            r == Target::Virtual(old(self).ops().len() as usize),
            target_in(final(self).ops(), r),
            forall|env: spec_fn(Target) -> nat|
                #[trigger] target_value(final(self).ops(), env, r)
                    == (target_value(old(self).ops(), env, a) * target_value(old(self).ops(), env, b)) % scalar_order(),
    {
        self.op(OpKind::Mul, a, b)
    }

    fn op(&mut self, kind: OpKind, a: Target, b: Target) -> (r: Target)
        requires
            old(self).ops().len() < usize::MAX,
            target_in(old(self).ops(), a),
            target_in(old(self).ops(), b),
        ensures
            old(self).extends(*final(self)),
            final(self).ops().len() == old(self).ops().len() + 1,
            final(self).ops() == old(self).ops().push(Operation { kind, lhs: a, rhs: b }),
            r == Target::Virtual(old(self).ops().len() as usize),
            target_in(final(self).ops(), r),
            forall|env: spec_fn(Target) -> nat|
                #[trigger] target_value(final(self).ops(), env, r)
                    == apply_op(kind, target_value(old(self).ops(), env, a), target_value(old(self).ops(), env, b)),
    {
        let ghost before = self.ops();
        let r = self.record(kind, a, b);
        proof {
            let after = self.ops();
            assert(before =~= after.take(before.len() as int));
            assert forall|env: spec_fn(Target) -> nat|
                #[trigger] target_value(after, env, r)
                    == apply_op(kind, target_value(before, env, a), target_value(before, env, b)) by {
                lemma_target_value_prefix(before, after, env, a);
                lemma_target_value_prefix(before, after, env, b);
                let k = before.len();
                assert(target_value(after, env, r) == op_value(after, env, k));
                match a {
                    Target::Virtual(j) => {
                        assert(operand_value(after, env, a, k) == op_value(after, env, j as nat));
                    },
                    _ => {},
                }
                match b {
                    Target::Virtual(j) => {
                        assert(operand_value(after, env, b, k) == op_value(after, env, j as nat));
                    },
                    _ => {},
                }
            }
        }
        r
    }

    /// The product of the targets, folded from the left.
    pub fn mul_many(&mut self, ts: &[Target]) -> (r: Target)
        requires
            ts@.len() >= 1,
            old(self).ops().len() + ts@.len() <= usize::MAX,
            forall|i: int| 0 <= i < ts@.len() ==> target_in(old(self).ops(), #[trigger] ts@[i]),
        ensures
            old(self).extends(*final(self)),
            final(self).ops().len() == old(self).ops().len() + ts@.len() - 1,
            target_in(final(self).ops(), r),
            forall|env: spec_fn(Target) -> nat|
                #[trigger] target_value(final(self).ops(), env, r)
                    == fold_values(old(self).ops(), env, ts@, OpKind::Mul),
            final(self).ops() == old(self).ops() + fold_ops(ts@, OpKind::Mul, old(self).ops().len()),
            r == fold_result(ts@, old(self).ops().len()),
    {
        self.fold(ts, OpKind::Mul)
    }

    /// The sum of the targets, folded from the left.
    pub fn add_many(&mut self, ts: &[Target]) -> (r: Target)
        requires
            ts@.len() >= 1,
            old(self).ops().len() + ts@.len() <= usize::MAX,
            forall|i: int| 0 <= i < ts@.len() ==> target_in(old(self).ops(), #[trigger] ts@[i]),
        ensures
            old(self).extends(*final(self)),
            final(self).ops().len() == old(self).ops().len() + ts@.len() - 1,
            target_in(final(self).ops(), r),
            forall|env: spec_fn(Target) -> nat|
                #[trigger] target_value(final(self).ops(), env, r)
                    == fold_values(old(self).ops(), env, ts@, OpKind::Add),
            final(self).ops() == old(self).ops() + fold_ops(ts@, OpKind::Add, old(self).ops().len()),
            r == fold_result(ts@, old(self).ops().len()),
    {
        self.fold(ts, OpKind::Add)
    }

    fn fold(&mut self, ts: &[Target], kind: OpKind) -> (r: Target)
        requires
            ts@.len() >= 1,
            old(self).ops().len() + ts@.len() <= usize::MAX,
            forall|i: int| 0 <= i < ts@.len() ==> target_in(old(self).ops(), #[trigger] ts@[i]),
        ensures
            old(self).extends(*final(self)),
            final(self).ops().len() == old(self).ops().len() + ts@.len() - 1,
            target_in(final(self).ops(), r),
            forall|env: spec_fn(Target) -> nat|
                #[trigger] target_value(final(self).ops(), env, r)
                    == fold_values(old(self).ops(), env, ts@, kind),
            final(self).ops() == old(self).ops() + fold_ops(ts@, kind, old(self).ops().len()),
            r == fold_result(ts@, old(self).ops().len()),
    {
        let ghost start = self.ops();
        let mut acc = ts[0];
        proof {
            assert(ts@.take(1).drop_last() =~= Seq::<Target>::empty());
            assert(start =~= start.take(start.len() as int));
            assert(fold_ops(ts@.take(1), kind, start.len()) =~= Seq::<Operation>::empty());
            assert(start + fold_ops(ts@.take(1), kind, start.len()) =~= start);
        }
        let n = ts.len();
        for i in 1..n
            invariant
                n == ts@.len(),
                start == old(self).ops(),
                old(self).extends(*self),
                self.ops().len() == start.len() + i - 1,
                self.ops() == start + fold_ops(ts@.take(i as int), kind, start.len()),
                acc == fold_result(ts@.take(i as int), start.len()),
                start.len() + n <= usize::MAX,
                forall|k: int| 0 <= k < ts@.len() ==> target_in(start, #[trigger] ts@[k]),
                target_in(self.ops(), acc),
                forall|env: spec_fn(Target) -> nat|
                    #[trigger] target_value(self.ops(), env, acc)
                        == fold_values(start, env, ts@.take(i as int), kind),
        {
            let ghost cur = self.ops();
            let t = ts[i];
            proof {
                if let Target::Virtual(j) = t {
                    assert(target_in(start, ts@[i as int]));
                }
            }
            let next = self.op(kind, acc, t);
            proof {
                assert(ts@.take(i + 1).drop_last() =~= ts@.take(i as int));
                assert(ts@.take(i + 1).last() == t);
                assert(self.ops() =~= start + fold_ops(ts@.take(i + 1), kind, start.len()));
                assert forall|env: spec_fn(Target) -> nat|
                    #[trigger] target_value(self.ops(), env, next)
                        == fold_values(start, env, ts@.take(i + 1), kind) by {
                    lemma_target_value_prefix(start, cur, env, t);
                }
            }
            acc = next;
        }
        proof {
            assert(ts@.take(n as int) =~= ts@);
        }
        acc
    }

    pub fn build(self) -> (r: Circuit)
        ensures
            r.num_public_inputs == self.public_inputs(),
            r.num_circuit_inputs == self.circuit_inputs(),
            r.operations@ == self.ops(),
    {
        Circuit {
            num_public_inputs: self.num_public_inputs,
            num_circuit_inputs: self.num_circuit_inputs,
            operations: self.operations,
        }
    }
}

/// Wire values known so far, the latest assignment of a wire first.
pub struct PartialWitness {
    entries: Vec<(Wire, Bls12Scalar)>,
}

/// The latest value assigned to `w`, if any.
pub open spec fn lookup(s: Seq<(Wire, Bls12Scalar)>, w: Wire) -> Option<Bls12Scalar>
    decreases s.len(),
{
    if s.len() == 0 {
        None
    } else if s.last().0 == w {
        Some(s.last().1)
    } else {
        lookup(s.drop_last(), w)
    }
}

impl PartialWitness {
    /// The assignments in the order they were made.
    pub closed spec fn entries(self) -> Seq<(Wire, Bls12Scalar)> {
        self.entries@
    }

    /// Every assigned value is canonical.
    pub open spec fn wf(self) -> bool {
        forall|i: int| 0 <= i < self.entries().len() ==> (#[trigger] self.entries()[i]).1.wf()
    }

    pub fn new() -> (r: Self)
        ensures
            r.entries() == Seq::<(Wire, Bls12Scalar)>::empty(),
            r.wf(),
    {
        PartialWitness { entries: Vec::new() }
    }

    pub fn get_wire(&self, w: Wire) -> (r: Option<Bls12Scalar>)
        requires
            self.wf(),
        ensures
            r == lookup(self.entries(), w),
            r matches Some(v) ==> v.wf(),
    {
        let mut i = self.entries.len();
        proof {
            assert(self.entries@.take(i as int) =~= self.entries@);
        }
        while i > 0
            invariant
                i <= self.entries@.len(),
                self.wf(),
                lookup(self.entries@, w) == lookup(self.entries@.take(i as int), w),
            decreases i,
        {
            let e = self.entries[i - 1];
            proof {
                assert(self.entries@.take(i as int).drop_last() =~= self.entries@.take(i - 1));
                assert(self.entries@.take(i as int).last() == e);
            }
            if e.0 == w {
                proof {
                    assert(self.entries()[i - 1].1.wf());
                }
                return Some(e.1);
            }
            i = i - 1;
        }
        proof {
            assert(self.entries@.take(0) =~= Seq::<(Wire, Bls12Scalar)>::empty());
        }
        None
    }

    pub fn set_wire(&mut self, w: Wire, v: Bls12Scalar)
        requires
            old(self).wf(),
            v.wf(),
        ensures
            final(self).entries() == old(self).entries().push((w, v)),
            final(self).wf(),
    {
        self.entries.push((w, v));
        proof {
            assert forall|i: int| 0 <= i < self.entries().len() implies (#[trigger] self.entries()[i]).1.wf() by {
                if i < old(self).entries().len() {
                    assert(self.entries()[i] == old(self).entries()[i]);
                }
            }
        }
    }
}

} // verus!
