//! Short Weierstrass curves over the base field, and their affine points.
use crate::field::{base_order, Bls12Base};
use vstd::prelude::*;

verus! {

/// The curve `y^2 = x^3 + a*x + b`.
#[derive(Copy, Clone)]
pub struct WeierstrassCurve {
    pub a: Bls12Base,
    pub b: Bls12Base,
}

/// The right-hand side of the curve's equation at `x`.
pub open spec fn curve_rhs(curve: WeierstrassCurve, x: nat) -> nat {
    (x * x * x + curve.a.value() * x + curve.b.value()) % base_order()
}

/// A point in affine coordinates, or the point at infinity.
#[derive(Copy, Clone)]
pub struct AffinePoint {
    pub x: Bls12Base,
    pub y: Bls12Base,
    pub zero: bool,
}

/// The point lies on the curve (the point at infinity always does).
pub open spec fn on_curve(curve: WeierstrassCurve, p: AffinePoint) -> bool {
    p.zero || (p.y.value() * p.y.value()) % base_order() == curve_rhs(curve, p.x.value())
}

impl WeierstrassCurve {
    pub open spec fn wf(self) -> bool {
        self.a.wf() && self.b.wf()
    }

    /// The curve of the BLS12-381 group G1: `y^2 = x^3 + 4`.
    pub fn bls12_g1() -> (r: Self)
        ensures
            r.wf(),
            r.a.value() == 0,
            r.b.value() == 4,
    {
        WeierstrassCurve { a: Bls12Base::zero(), b: Bls12Base::from_canonical_u64(4) }
    }
}

impl AffinePoint {
    pub fn nonzero(x: Bls12Base, y: Bls12Base) -> (r: Self)
        ensures
            r.x == x,
            r.y == y,
            !r.zero,
    {
        AffinePoint { x, y, zero: false }
    }
}

} // verus!
