use num::BigUint;
use plonky::field::{mul_12_6, mul_6_6, sub_12x64, Bls12Base, Bls12Scalar};
use std::str::FromStr;

fn u64_slice_to_biguint(n: &[u64]) -> BigUint {
    let mut bytes_le = Vec::new();
    for n_i in n.iter() {
        for j in 0..8 {
            bytes_le.push((n_i >> (j * 8)) as u8);
        }
    }
    BigUint::from_bytes_le(&bytes_le)
}

fn biguint_to_limbs(n: &BigUint, len: usize) -> Vec<u64> {
    let mut limbs = n.to_u64_digits();
    limbs.resize(len, 0);
    limbs
}

fn base(limbs: [u64; 6]) -> Bls12Base {
    Bls12Base::from_canonical_limbs(limbs).unwrap()
}

fn scalar(limbs: [u64; 4]) -> Bls12Scalar {
    Bls12Scalar::from_canonical_limbs(limbs).unwrap()
}

#[test]
fn convert_single_u64() {
    let biguint = u64_slice_to_biguint(&[12379813738877118345]);
    assert_eq!(biguint, BigUint::from_str("12379813738877118345").unwrap());
}

#[test]
fn limb_biguint_round_trip() {
    let biguint = u64_slice_to_biguint(&[12379813738877118345]);
    assert_eq!(biguint_to_limbs(&biguint, 1), vec![12379813738877118345u64]);
}

#[test]
fn test_mul_6_6() {
    let a = [11111111u64, 22222222, 33333333, 44444444, 55555555, 66666666];
    let b = [77777777u64, 88888888, 99999999, 11111111, 22222222, 33333333];
    assert_eq!(
        u64_slice_to_biguint(&mul_6_6(a, b)),
        u64_slice_to_biguint(&a) * u64_slice_to_biguint(&b)
    );
}

#[test]
fn mul_6_6_of_largest_limbs() {
    let a = [u64::MAX; 6];
    assert_eq!(
        u64_slice_to_biguint(&mul_6_6(a, a)),
        u64_slice_to_biguint(&a) * u64_slice_to_biguint(&a)
    );
}

#[test]
fn mul_12_6_matches_big_integers() {
    let a = [u64::MAX, 1, 2, 3, 4, 5, 6, 7, 8, 9, 10, u64::MAX];
    let b = [u64::MAX, 77777777, 0, 11111111, 22222222, u64::MAX];
    assert_eq!(
        u64_slice_to_biguint(&mul_12_6(a, b)),
        u64_slice_to_biguint(&a) * u64_slice_to_biguint(&b)
    );
}

#[test]
fn sub_12x64_borrows_across_limbs() {
    let a = [0u64, 0, 0, 0, 0, 0, 0, 0, 0, 0, 0, 1];
    let b = [1u64, 0, 0, 0, 0, 0, 0, 0, 0, 0, 0, 0];
    let d = sub_12x64(a, b);
    assert_eq!(d, [u64::MAX, u64::MAX, u64::MAX, u64::MAX, u64::MAX, u64::MAX, u64::MAX, u64::MAX, u64::MAX, u64::MAX, u64::MAX, 0]);
}

#[test]
fn base_mul_matches_big_integers() {
    let order = u64_slice_to_biguint(&Bls12Base::order());
    let cases = [
        ([11111111u64, 22222222, 33333333, 44444444, 55555555, 66666666],
         [77777777u64, 88888888, 99999999, 11111111, 22222222, 33333333]),
        ([u64::MAX, u64::MAX, u64::MAX, u64::MAX, u64::MAX, 1873798617647539865],
         [u64::MAX, 5, u64::MAX, 7, u64::MAX, 1873798617647539865]),
        ([13402431016077863594u64, 2210141511517208575, 7435674573564081700, 7239337960414712511, 5412103778470702295, 1873798617647539866],
         [13402431016077863594u64, 2210141511517208575, 7435674573564081700, 7239337960414712511, 5412103778470702295, 1873798617647539866]),
    ];
    for (a, b) in cases.iter() {
        let product = base(*a).mul(base(*b));
        let expected = (u64_slice_to_biguint(a) * u64_slice_to_biguint(b)) % &order;
        assert_eq!(u64_slice_to_biguint(&product.to_canonical_limbs()), expected);
    }
}

#[test]
fn scalar_mul_matches_big_integers() {
    let order = u64_slice_to_biguint(&Bls12Scalar::order());
    let cases = [
        ([123456789123456789u64, 0, 0, 0], [987654321987654321u64, 0, 0, 0]),
        ([u64::MAX, u64::MAX, u64::MAX, 8353516859464449351], [3, u64::MAX, 9, 8353516859464449351]),
        ([18446744069414584320u64, 6034159408538082302, 3691218898639771653, 8353516859464449352],
         [18446744069414584320u64, 6034159408538082302, 3691218898639771653, 8353516859464449352]),
    ];
    for (a, b) in cases.iter() {
        let product = scalar(*a).mul(scalar(*b));
        let expected = (u64_slice_to_biguint(a) * u64_slice_to_biguint(b)) % &order;
        assert_eq!(u64_slice_to_biguint(&product.to_canonical_limbs()), expected);
    }
}

#[test]
fn small_product_is_exact() {
    let a = Bls12Base::from_canonical_u64(123456789123456789);
    let b = Bls12Base::from_canonical_u64(987654321987654321);
    assert_eq!(a.mul(b).to_canonical_limbs(), [14369616054794401669, 6609981190679600, 0, 0, 0, 0]);
}

#[test]
fn minus_one_squared_is_one() {
    let minus_one = Bls12Base::one().neg();
    assert!(minus_one.mul(minus_one).equals(Bls12Base::one()));
}

#[test]
fn add_wraps_at_order() {
    let minus_one = Bls12Scalar::one().neg();
    assert!(minus_one.add(Bls12Scalar::one()).is_zero());
    assert!(Bls12Scalar::zero().sub(Bls12Scalar::one()).equals(minus_one));
}

#[test]
fn ring_axioms_on_values() {
    let a = base([5, 6, 7, 8, 9, 10]);
    let b = Bls12Base::one().neg();
    let c = Bls12Base::from_canonical_u32(4000000000);
    assert!(a.add(b).equals(b.add(a)));
    assert!(a.add(b).add(c).equals(a.add(b.add(c))));
    assert!(a.mul(b.add(c)).equals(a.mul(b).add(a.mul(c))));
    assert!(a.mul(Bls12Base::one()).equals(a));
    assert!(a.add(a.neg()).is_zero());
}

#[test]
fn out_of_range_limbs_are_rejected() {
    assert!(Bls12Base::from_canonical_limbs(Bls12Base::order()).is_none());
    assert!(Bls12Scalar::from_canonical_limbs([u64::MAX; 4]).is_none());
}

#[test]
fn square_root_of_square() {
    let four = Bls12Base::from_canonical_u64(4);
    let y = four.square_root().unwrap();
    assert!(y.mul(y).equals(four));
    assert!(y.equals(Bls12Base::from_canonical_u64(2).neg()));
    let x = base([99, 98, 97, 96, 95, 94]);
    let sq = x.mul(x);
    let root = sq.square_root().unwrap();
    assert!(root.mul(root).equals(sq));
}

#[test]
fn square_root_of_non_residue() {
    assert!(Bls12Base::from_canonical_u64(2).square_root().is_none());
    assert!(Bls12Base::from_canonical_u64(5).square_root().is_none());
}

#[test]
fn parity() {
    assert!(Bls12Base::from_canonical_u64(7).is_odd());
    assert!(!Bls12Base::one().neg().is_odd());
}
