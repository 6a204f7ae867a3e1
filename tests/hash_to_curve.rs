use plonky::curve::WeierstrassCurve;
use plonky::field::Bls12Base;
use plonky::hash_to_curve::{hash_base_field_to_curve, hash_u32_to_curve, map_to_curve};

fn toy_sponge(inputs: Vec<Bls12Base>, outputs: usize, security_bits: usize) -> Vec<Bls12Base> {
    let mut state = Bls12Base::from_canonical_u64(security_bits as u64);
    let mut out = Vec::new();
    for x in inputs.iter() {
        state = state.mul(Bls12Base::from_canonical_u64(1000003)).add(*x);
    }
    for i in 0..outputs {
        state = state.cube().add(Bls12Base::from_canonical_u64(i as u64 + 7));
        out.push(state);
    }
    out
}

fn on_curve(x: Bls12Base, y: Bls12Base) -> bool {
    let rhs = x.cube().add(Bls12Base::from_canonical_u64(4));
    y.mul(y).equals(rhs)
}

#[test]
fn test_hash_u32_to_point() {
    let curve = WeierstrassCurve::bls12_g1();
    for i in 0..5 {
        let point = hash_u32_to_curve(&curve, i, 128, &toy_sponge).unwrap();
        assert!(!point.zero);
        assert!(on_curve(point.x, point.y));
    }
}

#[test]
fn hash_is_deterministic() {
    let curve = WeierstrassCurve::bls12_g1();
    let seed = Bls12Base::from_canonical_u64(42);
    let a = hash_base_field_to_curve(&curve, seed, 128, &toy_sponge).unwrap();
    let b = hash_base_field_to_curve(&curve, seed, 128, &toy_sponge).unwrap();
    assert!(a.x.equals(b.x) && a.y.equals(b.y));
}

#[test]
fn map_to_curve_accepts_and_rejects() {
    let curve = WeierstrassCurve::bls12_g1();
    // 0^3 + 4 = 4 is a square: the points (0, 2) and (0, -2).
    let p = map_to_curve(&curve, Bls12Base::zero(), false).unwrap();
    assert!(on_curve(p.x, p.y));
    let q = map_to_curve(&curve, Bls12Base::zero(), true).unwrap();
    assert!(q.y.equals(p.y.neg()));
    // 1^3 + 4 = 5 is not a square.
    assert!(map_to_curve(&curve, Bls12Base::one(), false).is_none());
}
