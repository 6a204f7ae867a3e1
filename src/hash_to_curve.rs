//! Deterministic hashing to curve points, after the MapToGroup method of BLS.
use crate::curve::{curve_rhs, on_curve, AffinePoint, WeierstrassCurve};
use crate::field::{base_order, lemma_orders_large, sqrt_candidate, Bls12Base};
use vstd::arithmetic::div_mod::lemma_add_mod_noop;
use vstd::prelude::*;

verus! {

/// The value of `y` after an optional negation.
pub open spec fn signed_root(y: nat, negate: bool) -> nat {
    if negate {
        ((base_order() - y) % (base_order() as int)) as nat
    } else {
        y
    }
}

proof fn lemma_neg_square(y: nat)
    requires
        y < base_order(),
    ensures
        (signed_root(y, true) * signed_root(y, true)) % base_order() == (y * y) % base_order(),
{
    let p = base_order() as int;
    lemma_orders_large();
    if y == 0 {
        vstd::arithmetic::div_mod::lemma_mod_self_0(p);
    } else {
        vstd::arithmetic::div_mod::lemma_small_mod((p - y) as nat, p as nat);
        let n = p - y;
        assert(n * n == y * y + p * (p - 2 * y)) by (nonlinear_arith)
            requires
                n == p - y,
        ;
        vstd::arithmetic::div_mod::lemma_mod_multiples_vanish(p - 2 * y, (y * y) as int, p);
    }
}

/// One attempt of the map: the point with abscissa `x`, if the curve has one,
/// its ordinate negated when `y_neg` is set.
pub fn map_to_curve(curve: &WeierstrassCurve, x: Bls12Base, y_neg: bool) -> (r: Option<AffinePoint>)
    requires
        curve.wf(),
        x.wf(),
    ensures
        r is Some <==> (sqrt_candidate(curve_rhs(*curve, x.value())) * sqrt_candidate(
            curve_rhs(*curve, x.value()),
        )) % base_order() == curve_rhs(*curve, x.value()),
        r matches Some(pt) ==> !pt.zero && pt.x == x && pt.y.wf() && pt.y.value() == signed_root(
            sqrt_candidate(curve_rhs(*curve, x.value())),
            y_neg,
        ) && on_curve(*curve, pt),
{
    // We compute x^3 + a x + b, then check if it's a square in the field. If it is (which
    // occurs with a probability of ~0.5), we have found a point on the curve.
    let square_candidate = x.cube().add(curve.a.mul(x)).add(curve.b);
    proof {
        let p = base_order() as int;
        let xv = x.value() as int;
        lemma_orders_large();
        lemma_add_mod_noop(xv * xv * xv, curve.a.value() * xv, p);
        lemma_add_mod_noop(xv * xv * xv + curve.a.value() * xv, curve.b.value() as int, p);
        vstd::arithmetic::div_mod::lemma_small_mod(curve.b.value(), p as nat);
        assert(square_candidate.value() == curve_rhs(*curve, x.value()));
    }
    match square_candidate.square_root() {
        Some(y) => {
            let y = if y_neg {
                proof {
                    lemma_neg_square(y.value());
                }
                y.neg()
            } else {
                y
            };
            Some(AffinePoint::nonzero(x, y))
        },
        None => None,
    }
}

/// The curve has a point with abscissa `x`, as `map_to_curve` decides it.
pub open spec fn has_point(curve: WeierstrassCurve, x: nat) -> bool {
    (sqrt_candidate(curve_rhs(curve, x)) * sqrt_candidate(curve_rhs(curve, x))) % base_order()
        == curve_rhs(curve, x)
}

/// The point that one attempt builds from the sponge's outputs `out`.
pub open spec fn point_of(curve: WeierstrassCurve, out: Seq<Bls12Base>, pt: AffinePoint) -> bool {
    &&& !pt.zero
    &&& pt.x == out[0]
    &&& pt.y.value() == signed_root(
        sqrt_candidate(curve_rhs(curve, out[0].value())),
        out[1].value() % 2 == 1,
    )
}

/// `out` is what the sponge returned when fed `(seed, i)` for two outputs.
pub open spec fn sponge_attempt<S: Fn(Vec<Bls12Base>, usize, usize) -> Vec<Bls12Base>>(
    sponge: S,
    seed: Bls12Base,
    security_bits: usize,
    i: nat,
    out: Vec<Bls12Base>,
) -> bool {
    exists|inputs: Vec<Bls12Base>|
        #![trigger sponge.ensures((inputs, 2usize, security_bits), out)]
        inputs@.len() == 2 && inputs@[0] == seed && inputs@[1].value() == i && sponge.ensures(
            (inputs, 2usize, security_bits),
            out,
        )
}

/// `outs[i]` is the sponge's answer for counter `i`, with two canonical
/// elements, and every counter but the last gave no point.
pub open spec fn hash_trace<S: Fn(Vec<Bls12Base>, usize, usize) -> Vec<Bls12Base>>(
    sponge: S,
    curve: WeierstrassCurve,
    seed: Bls12Base,
    security_bits: usize,
    outs: Seq<Vec<Bls12Base>>,
) -> bool {
    forall|j: int|
        0 <= j < outs.len() ==> {
            &&& sponge_attempt(sponge, seed, security_bits, j as nat, #[trigger] outs[j])
            &&& outs[j]@.len() == 2
            &&& outs[j]@[0].wf()
            &&& outs[j]@[1].wf()
            &&& (j + 1 < outs.len() ==> !has_point(curve, outs[j]@[0].value()))
        }
}

/// `outs` is the sponge's answers for the counters tried, and `r` what they
/// give: the point of the last counter, the first whose first output is the
/// abscissa of a point, or `None` after all `2^32` counters fail.
pub open spec fn outcome_trace<S: Fn(Vec<Bls12Base>, usize, usize) -> Vec<Bls12Base>>(
    sponge: S,
    curve: WeierstrassCurve,
    seed: Bls12Base,
    security_bits: usize,
    r: Option<AffinePoint>,
    outs: Seq<Vec<Bls12Base>>,
) -> bool {
    &&& hash_trace(sponge, curve, seed, security_bits, outs)
    &&& 1 <= outs.len() <= u32::MAX as nat + 1
    &&& match r {
        Some(pt) => has_point(curve, outs.last()@[0].value()) && point_of(curve, outs.last()@, pt),
        None => outs.len() == u32::MAX as nat + 1 && !has_point(curve, outs.last()@[0].value()),
    }
}

/// The result of hashing `seed`, as some run of the sponge gives it.
pub open spec fn hash_outcome<S: Fn(Vec<Bls12Base>, usize, usize) -> Vec<Bls12Base>>(
    sponge: S,
    curve: WeierstrassCurve,
    seed: Bls12Base,
    security_bits: usize,
    r: Option<AffinePoint>,
) -> bool {
    exists|outs: Seq<Vec<Bls12Base>>|
        #[trigger] outcome_trace(sponge, curve, seed, security_bits, r, outs)
}

/// The sponge gives one answer for each input.
pub open spec fn deterministic<S: Fn(Vec<Bls12Base>, usize, usize) -> Vec<Bls12Base>>(
    sponge: S,
    security_bits: usize,
) -> bool {
    forall|i1: Vec<Bls12Base>, i2: Vec<Bls12Base>, o1: Vec<Bls12Base>, o2: Vec<Bls12Base>|
        #![trigger sponge.ensures((i1, 2usize, security_bits), o1), sponge.ensures((i2, 2usize, security_bits), o2)]
        i1@ == i2@ && sponge.ensures((i1, 2usize, security_bits), o1) && sponge.ensures(
            (i2, 2usize, security_bits),
            o2,
        ) ==> o1@ == o2@
}

proof fn lemma_traces_agree<S: Fn(Vec<Bls12Base>, usize, usize) -> Vec<Bls12Base>>(
    sponge: S,
    curve: WeierstrassCurve,
    seed: Bls12Base,
    security_bits: usize,
    t1: Seq<Vec<Bls12Base>>,
    t2: Seq<Vec<Bls12Base>>,
    j: int,
)
    requires
        deterministic(sponge, security_bits),
        hash_trace(sponge, curve, seed, security_bits, t1),
        hash_trace(sponge, curve, seed, security_bits, t2),
        0 <= j < t1.len(),
        j < t2.len(),
    ensures
        t1[j]@ == t2[j]@,
{
    assert(sponge_attempt(sponge, seed, security_bits, j as nat, t1[j]));
    assert(sponge_attempt(sponge, seed, security_bits, j as nat, t2[j]));
    let in1 = choose|inputs: Vec<Bls12Base>|
        inputs@.len() == 2 && inputs@[0] == seed && inputs@[1].value() == j && sponge.ensures(
            (inputs, 2usize, security_bits),
            t1[j],
        );
    let in2 = choose|inputs: Vec<Bls12Base>|
        inputs@.len() == 2 && inputs@[0] == seed && inputs@[1].value() == j && sponge.ensures(
            (inputs, 2usize, security_bits),
            t2[j],
        );
    in1@[1].lemma_value_determines(in2@[1]);
    assert(in1@ =~= in2@);
}

/// Hashing is deterministic: with a sponge that gives one answer for each
/// input, two hashes of one seed at one security level give one result.
pub proof fn lemma_hash_deterministic<S: Fn(Vec<Bls12Base>, usize, usize) -> Vec<Bls12Base>>(
    sponge: S,
    curve: WeierstrassCurve,
    seed: Bls12Base,
    security_bits: usize,
    r1: Option<AffinePoint>,
    r2: Option<AffinePoint>,
)
    requires
        deterministic(sponge, security_bits),
        hash_outcome(sponge, curve, seed, security_bits, r1),
        hash_outcome(sponge, curve, seed, security_bits, r2),
    ensures
        r1 == r2,
{
    let t1 = choose|outs: Seq<Vec<Bls12Base>>|
        outcome_trace(sponge, curve, seed, security_bits, r1, outs);
    let t2 = choose|outs: Seq<Vec<Bls12Base>>|
        outcome_trace(sponge, curve, seed, security_bits, r2, outs);
    let n1 = t1.len() as int;
    let n2 = t2.len() as int;
    if n1 < n2 {
        lemma_traces_agree(sponge, curve, seed, security_bits, t1, t2, n1 - 1);
        assert(!has_point(curve, t2[n1 - 1]@[0].value()));
    } else if n2 < n1 {
        lemma_traces_agree(sponge, curve, seed, security_bits, t1, t2, n2 - 1);
        assert(!has_point(curve, t1[n2 - 1]@[0].value()));
    } else {
        lemma_traces_agree(sponge, curve, seed, security_bits, t1, t2, n1 - 1);
        if let (Some(p1), Some(p2)) = (r1, r2) {
            p1.y.lemma_value_determines(p2.y);
        }
    }
}

/// Hashes `seed` to a point of `curve`: `sponge(inputs, outputs, security_bits)`
/// is the sponge hash, fed `(seed, i)` for a counter `i` from zero until its
/// first output is the abscissa of a point; its second output's parity picks
/// the sign of the ordinate. `None` only if every counter value fails.
pub fn hash_base_field_to_curve<S: Fn(Vec<Bls12Base>, usize, usize) -> Vec<Bls12Base>>(
    curve: &WeierstrassCurve,
    seed: Bls12Base,
    security_bits: usize,
    sponge: &S,
) -> (r: Option<AffinePoint>)
    requires
        curve.wf(),
        seed.wf(),
        forall|inputs: Vec<Bls12Base>, n: usize, bits: usize| #[trigger]
            sponge.requires((inputs, n, bits)),
        forall|inputs: Vec<Bls12Base>, n: usize, bits: usize, out: Vec<Bls12Base>|
            #[trigger] sponge.ensures((inputs, n, bits), out) ==> out@.len() == n && forall|k: int|
                0 <= k < n ==> (#[trigger] out@[k]).wf(),
    ensures
        hash_outcome(*sponge, *curve, seed, security_bits, r),
        r matches Some(pt) ==> !pt.zero && pt.x.wf() && pt.y.wf() && on_curve(*curve, pt),
{
    let mut i: u32 = 0;
    let ghost mut outs: Seq<Vec<Bls12Base>> = Seq::empty();
    loop
        invariant
            curve.wf(),
            seed.wf(),
            forall|inputs: Vec<Bls12Base>, n: usize, bits: usize| #[trigger]
                sponge.requires((inputs, n, bits)),
            forall|inputs: Vec<Bls12Base>, n: usize, bits: usize, out: Vec<Bls12Base>|
                #[trigger] sponge.ensures((inputs, n, bits), out) ==> out@.len() == n && forall|
                    k: int,
                | 0 <= k < n ==> (#[trigger] out@[k]).wf(),
            outs.len() == i,
            forall|j: int|
                0 <= j < outs.len() ==> {
                    &&& sponge_attempt(*sponge, seed, security_bits, j as nat, #[trigger] outs[j])
                    &&& outs[j]@.len() == 2
                    &&& outs[j]@[0].wf()
                    &&& outs[j]@[1].wf()
                    &&& !has_point(*curve, outs[j]@[0].value())
                },
        decreases u32::MAX - i,
    {
        // Let (x, y_neg) = H(seed, i).
        let counter = Bls12Base::from_canonical_u32(i);
        let inputs = vec![seed, counter];
        let ghost fed = inputs;
        let outputs = sponge(inputs, 2, security_bits);
        let x = outputs[0];
        let y_neg = outputs[1].is_odd();
        let attempt = map_to_curve(curve, x, y_neg);
        let ghost next = outs.push(outputs);
        proof {
            assert(fed@[0] == seed && fed@[1] == counter);
            assert(sponge_attempt(*sponge, seed, security_bits, i as nat, outputs));
            assert(outputs@[0].wf() && outputs@[1].wf());
            assert forall|j: int| 0 <= j < next.len() implies {
                &&& sponge_attempt(*sponge, seed, security_bits, j as nat, #[trigger] next[j])
                &&& next[j]@.len() == 2
                &&& next[j]@[0].wf()
                &&& next[j]@[1].wf()
                &&& (j + 1 < next.len() ==> !has_point(*curve, next[j]@[0].value()))
            } by {
                if j < outs.len() {
                    assert(next[j] == outs[j]);
                }
            }
            assert(hash_trace(*sponge, *curve, seed, security_bits, next));
            assert(next.last() == outputs);
        }
        if let Some(pt) = attempt {
            proof {
                assert(outcome_trace(*sponge, *curve, seed, security_bits, Some(pt), next));
            }
            return Some(pt);
        }
        if i == u32::MAX {
            proof {
                assert(outcome_trace(*sponge, *curve, seed, security_bits, None, next));
            }
            return None;
        }
        proof {
            outs = next;
        }
        i = i + 1;
    }
}

/// Hashes a small integer seed to a point of `curve`: the same as hashing the
/// seed taken as an element of the base field.
pub fn hash_u32_to_curve<S: Fn(Vec<Bls12Base>, usize, usize) -> Vec<Bls12Base>>(
    curve: &WeierstrassCurve,
    seed: u32,
    security_bits: usize,
    sponge: &S,
) -> (r: Option<AffinePoint>)
    requires
        curve.wf(),
        forall|inputs: Vec<Bls12Base>, n: usize, bits: usize| #[trigger]
            sponge.requires((inputs, n, bits)),
        forall|inputs: Vec<Bls12Base>, n: usize, bits: usize, out: Vec<Bls12Base>|
            #[trigger] sponge.ensures((inputs, n, bits), out) ==> out@.len() == n && forall|k: int|
                0 <= k < n ==> (#[trigger] out@[k]).wf(),
    ensures
        exists|s: Bls12Base|
            #![trigger hash_outcome(*sponge, *curve, s, security_bits, r)]
            s.wf() && s.value() == seed && hash_outcome(*sponge, *curve, s, security_bits, r),
        r matches Some(pt) ==> !pt.zero && pt.x.wf() && pt.y.wf() && on_curve(*curve, pt),
{
    let seed_f = Bls12Base::from_canonical_u32(seed);
    let r = hash_base_field_to_curve(curve, seed_f, security_bits, sponge);
    proof {
        assert(hash_outcome(*sponge, *curve, seed_f, security_bits, r));
    }
    r
}

} // verus!
