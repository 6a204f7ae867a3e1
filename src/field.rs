//! The two prime fields of the BLS12-381 construction, as fixed arrays of
//! little-endian limbs kept in canonical form.
use crate::limbs::{
    add_mod, barrett_reduce, lemma_pow_base_adds, lemma_value_injective, lemma_value_take, limb_base, mul_limbs, pow_base, sub_limbs, sub_mod,
    value,
};
use vstd::arithmetic::div_mod::{
    lemma_add_mod_noop, lemma_div_denominator, lemma_mod_breakdown, lemma_mul_mod_noop,
    lemma_small_mod,
};
use vstd::arithmetic::power::{lemma_pow0, lemma_pow1, lemma_pow_adds, pow};
use vstd::arithmetic::power2::{lemma2_to64, lemma2_to64_rest, lemma_pow2_unfold, pow2};
use vstd::prelude::*;

verus! {

/// The order of the base field.
pub open spec fn base_order() -> nat {
    13402431016077863595 + limb_base() * (2210141511517208575 + limb_base() * (7435674573564081700 + limb_base() * (7239337960414712511 + limb_base() * (5412103778470702295 + limb_base() * (1873798617647539866)))))
}

/// The order of the scalar field.
pub open spec fn scalar_order() -> nat {
    18446744069414584321 + limb_base() * (6034159408538082302 + limb_base() * (3691218898639771653 + limb_base() * (8353516859464449352)))
}

proof fn lemma_value_of_six(s: Seq<u64>)
    requires
        s.len() == 6,
    ensures
        value(s) == s[0] + limb_base() * (s[1] + limb_base() * (s[2] + limb_base() * (s[3]
            + limb_base() * (s[4] + limb_base() * s[5])))),
{
    reveal_with_fuel(value, 7);
    assert(s.skip(1).skip(1).skip(1).skip(1).skip(1).skip(1).len() == 0);
}

proof fn lemma_value_of_four(s: Seq<u64>)
    requires
        s.len() == 4,
    ensures
        value(s) == s[0] + limb_base() * (s[1] + limb_base() * (s[2] + limb_base() * s[3])),
{
    reveal_with_fuel(value, 5);
    assert(s.skip(1).skip(1).skip(1).skip(1).len() == 0);
}

/// An element of the BLS12 group's base field.
#[derive(Copy, Clone)]
pub struct Bls12Base {
    /// The limbs in little-endian form.
    limbs: [u64; 6],
}

/// An element of the BLS12 group's scalar field.
#[derive(Copy, Clone)]
pub struct Bls12Scalar {
    /// The limbs in little-endian form.
    limbs: [u64; 4],
}

/// The reduction constants of the field meet the conditions of Barrett reduction.
proof fn lemma_base_constants()
    ensures
        base_order() > 0,
        base_order() * base_order() <= pow_base(11) * 288230376151711744,
        2 * base_order() <= pow_base(6),
        17027978386419893992 + limb_base() * (5649138592172459777 + limb_base() * (3421924034565217767 + limb_base() * (11848418460761227941 + limb_base() * (4080332095855958760 + limb_base() * (2837504485842123031))))) == (pow_base(11) * 288230376151711744) / base_order(),
{
    reveal_with_fuel(pow_base, 12);
    let b = limb_base();
    let big = pow_base(11);
    let top = pow_base(6);
    assert(big == b * b * b * b * b * b * b * b * b * b * b);
    assert(top == b * b * b * b * b * b);
    let m = base_order();
    assert(m > 0 && m * m <= big * 288230376151711744 && 2 * m <= top && 17027978386419893992 + b * (5649138592172459777 + b * (3421924034565217767 + b * (11848418460761227941 + b * (4080332095855958760 + b * (2837504485842123031))))) == (big * 288230376151711744) / m)
        by (nonlinear_arith)
        requires
            b == 18446744073709551616,
            big == b * b * b * b * b * b * b * b * b * b * b,
            top == b * b * b * b * b * b,
            m == 13402431016077863595 + b * (2210141511517208575 + b * (7435674573564081700 + b * (7239337960414712511 + b * (5412103778470702295 + b * (1873798617647539866))))),
    ;
}

/// The reduction constants of the field meet the conditions of Barrett reduction.
proof fn lemma_scalar_constants()
    ensures
        scalar_order() > 0,
        scalar_order() * scalar_order() <= pow_base(7) * 4611686018427387904,
        2 * scalar_order() <= pow_base(4),
        5808762262936312036 + limb_base() * (15654811016218471260 + limb_base() * (1021603728894469044 + limb_base() * (10183805594867568095))) == (pow_base(7) * 4611686018427387904) / scalar_order(),
{
    reveal_with_fuel(pow_base, 8);
    let b = limb_base();
    let big = pow_base(7);
    let top = pow_base(4);
    assert(big == b * b * b * b * b * b * b);
    assert(top == b * b * b * b);
    let m = scalar_order();
    assert(m > 0 && m * m <= big * 4611686018427387904 && 2 * m <= top && 5808762262936312036 + b * (15654811016218471260 + b * (1021603728894469044 + b * (10183805594867568095))) == (big * 4611686018427387904) / m)
        by (nonlinear_arith)
        requires
            b == 18446744073709551616,
            big == b * b * b * b * b * b * b,
            top == b * b * b * b,
            m == 18446744069414584321 + b * (6034159408538082302 + b * (3691218898639771653 + b * (8353516859464449352))),
    ;
}

/// Both orders exceed a single limb.
pub proof fn lemma_orders_large()
    ensures
        base_order() > limb_base(),
        scalar_order() > limb_base(),
{
    let b = limb_base();
    assert(base_order() > b && scalar_order() > b) by (nonlinear_arith)
        requires
            b == 18446744073709551616,
            base_order() == 13402431016077863595 + b * (2210141511517208575 + b * (
            7435674573564081700 + b * (7239337960414712511 + b * (5412103778470702295 + b * (
            1873798617647539866))))),
            scalar_order() == 18446744069414584321 + b * (6034159408538082302 + b * (
            3691218898639771653 + b * (8353516859464449352))),
    ;
}

proof fn lemma_mul_strict(a: nat, b: nat, m: nat)
    requires
        a < m,
        b < m,
    ensures
        a * b < m * m,
{
    assert(a * b < m * m) by (nonlinear_arith)
        requires
            a < m,
            b < m,
    ;
}

proof fn lemma_mod_bound_nat(x: nat, m: nat)
    requires
        m > 0,
    ensures
        x % m < m,
{
}

/// The parity of a number is that of its lowest limb.
proof fn lemma_value_parity(s: Seq<u64>)
    requires
        s.len() > 0,
    ensures
        value(s) % 2 == s[0] % 2,
{
    let rest = value(s.skip(1));
    assert(value(s) == s[0] + limb_base() * rest);
    assert((s[0] + limb_base() * rest) % 2 == s[0] % 2) by (nonlinear_arith)
        requires
            limb_base() == 2 * 0x8000_0000_0000_0000,
    ;
}

/// The full product of two six-limb numbers.
pub fn mul_6_6(a: [u64; 6], b: [u64; 6]) -> (r: [u64; 12])
    ensures
        value(r@) == value(a@) * value(b@),
{
    let v = mul_limbs(&a, &b);
    limbs12(&v)
}

/// The full product of a twelve-limb number and a six-limb one.
pub fn mul_12_6(a: [u64; 12], b: [u64; 6]) -> (r: [u64; 18])
    ensures
        value(r@) == value(a@) * value(b@),
{
    let v = mul_limbs(&a, &b);
    let mut r = [0u64; 18];
    for i in 0..18
        invariant
            v@.len() == 18,
            forall|k: int| 0 <= k < i ==> r@[k] == v@[k],
    {
        r[i] = v[i];
    }
    assert(r@ =~= v@);
    r
}

/// The difference of two twelve-limb numbers, the first at least the second.
pub fn sub_12x64(a: [u64; 12], b: [u64; 12]) -> (r: [u64; 12])
    requires
        value(a@) >= value(b@),
    ensures
        value(r@) == value(a@) - value(b@),
{
    let (v, _borrow) = sub_limbs(&a, &b);
    limbs12(&v)
}

fn limbs12(v: &Vec<u64>) -> (r: [u64; 12])
    requires
        v@.len() == 12,
    ensures
        r@ == v@,
{
    let mut r = [0u64; 12];
    for i in 0..12
        invariant
            v@.len() == 12,
            forall|k: int| 0 <= k < i ==> r@[k] == v@[k],
    {
        r[i] = v[i];
    }
    assert(r@ =~= v@);
    r
}

fn limbs6(v: &Vec<u64>) -> (r: [u64; 6])
    requires
        v@.len() == 6,
    ensures
        r@ == v@,
{
    let mut r = [0u64; 6];
    for i in 0..6
        invariant
            v@.len() == 6,
            forall|k: int| 0 <= k < i ==> r@[k] == v@[k],
    {
        r[i] = v[i];
    }
    assert(r@ =~= v@);
    r
}

fn limbs4(v: &Vec<u64>) -> (r: [u64; 4])
    requires
        v@.len() == 4,
    ensures
        r@ == v@,
{
    let mut r = [0u64; 4];
    for i in 0..4
        invariant
            v@.len() == 4,
            forall|k: int| 0 <= k < i ==> r@[k] == v@[k],
    {
        r[i] = v[i];
    }
    assert(r@ =~= v@);
    r
}

impl Bls12Base {
    /// The integer that the limbs denote.
    pub closed spec fn value(self) -> nat {
        value(self.limbs@)
    }

    /// Canonical form: the value is below the field's order.
    pub open spec fn wf(self) -> bool {
        self.value() < base_order()
    }

    /// Two elements with one value are one element.
    pub proof fn lemma_value_determines(self, other: Self)
        requires
            self.value() == other.value(),
        ensures
            self == other,
    {
        lemma_value_injective(self.limbs@, other.limbs@);
        assert(self.limbs =~= other.limbs);
    }

    /// The order of the field, as little-endian limbs.
    pub fn order() -> (r: [u64; 6])
        ensures
            value(r@) == base_order(),
    {
        let r: [u64; 6] = [
            13402431016077863595,
            2210141511517208575,
            7435674573564081700,
            7239337960414712511,
            5412103778470702295,
            1873798617647539866,
        ];
        proof {
            lemma_value_of_six(r@);
        }
        r
    }

    /// The Barrett factor: the floor of `4^k / ORDER` with `k = 381`.
    fn barrett_factor() -> (r: [u64; 6])
        ensures
            value(r@) == (pow_base(11) * 288230376151711744) / base_order(),
    {
        let r: [u64; 6] = [
            17027978386419893992,
            5649138592172459777,
            3421924034565217767,
            11848418460761227941,
            4080332095855958760,
            2837504485842123031,
        ];
        proof {
            lemma_value_of_six(r@);
            lemma_base_constants();
        }
        r
    }

    pub fn zero() -> (r: Self)
        ensures
            r.wf(),
            r.value() == 0,
    {
        Self::from_canonical_u64(0)
    }

    pub fn one() -> (r: Self)
        ensures
            r.wf(),
            r.value() == 1,
    {
        Self::from_canonical_u64(1)
    }

    pub fn from_canonical_u32(n: u32) -> (r: Self)
        ensures
            r.wf(),
            r.value() == n,
    {
        Self::from_canonical_u64(n as u64)
    }

    pub fn from_canonical_u64(n: u64) -> (r: Self)
        ensures
            r.wf(),
            r.value() == n,
    {
        let mut limbs = [0u64; 6];
        limbs[0] = n;
        proof {
            lemma_value_of_six(limbs@);
        }
        Self { limbs }
    }

    /// The element with the given limbs, if they denote a number below the order.
    pub fn from_canonical_limbs(limbs: [u64; 6]) -> (r: Option<Self>)
        ensures
            r is Some <==> value(limbs@) < base_order(),
            r matches Some(x) ==> x.wf() && x.value() == value(limbs@),
    {
        let order = Self::order();
        let (_d, below) = sub_limbs(&limbs, &order);
        if below {
            Some(Self { limbs })
        } else {
            None
        }
    }

    /// The canonical limbs of the element.
    pub fn to_canonical_limbs(self) -> (r: [u64; 6])
        ensures
            value(r@) == self.value(),
    {
        self.limbs
    }

    pub fn is_zero(self) -> (r: bool)
        ensures
            r == (self.value() == 0),
    {
        self.equals(Self::zero())
    }

    /// Whether the canonical value is odd.
    pub fn is_odd(self) -> (r: bool)
        ensures
            r == (self.value() % 2 == 1),
    {
        proof {
            lemma_value_parity(self.limbs@);
        }
        self.limbs[0] % 2 == 1
    }

    pub fn equals(self, other: Self) -> (r: bool)
        ensures
            r == (self.value() == other.value()),
    {
        let (_d, lt) = sub_limbs(&self.limbs, &other.limbs);
        let (_e, gt) = sub_limbs(&other.limbs, &self.limbs);
        !lt && !gt
    }

    pub fn add(self, rhs: Self) -> (r: Self)
        requires
            self.wf(),
            rhs.wf(),
        ensures
            r.wf(),
            r.value() == (self.value() + rhs.value()) % base_order(),
    {
        let order = Self::order();
        let v = add_mod(&self.limbs, &rhs.limbs, &order);
        Self { limbs: limbs6(&v) }
    }

    pub fn sub(self, rhs: Self) -> (r: Self)
        requires
            self.wf(),
            rhs.wf(),
        ensures
            r.wf(),
            r.value() == (self.value() + base_order() - rhs.value()) % (base_order() as int),
    {
        let order = Self::order();
        let v = sub_mod(&self.limbs, &rhs.limbs, &order);
        Self { limbs: limbs6(&v) }
    }

    pub fn neg(self) -> (r: Self)
        requires
            self.wf(),
        ensures
            r.wf(),
            r.value() == (base_order() - self.value()) % (base_order() as int),
    {
        Self::zero().sub(self)
    }

    /// Modular multiplication: a widening product, then Barrett reduction.
    pub fn mul(self, rhs: Self) -> (r: Self)
        requires
            self.wf(),
            rhs.wf(),
        ensures
            r.wf(),
            r.value() == (self.value() * rhs.value()) % base_order(),
    {
        let order = Self::order();
        let factor = Self::barrett_factor();
        let product = mul_limbs(&self.limbs, &rhs.limbs);
        proof {
            lemma_value_of_six(order@);
            lemma_base_constants();
            lemma_mul_strict(self.value(), rhs.value(), base_order());
        }
        let v = barrett_reduce(&product, &order, &factor, 11, 288230376151711744, 64);
        proof {
            lemma_mod_bound_nat(self.value() * rhs.value(), base_order());
        }
        Self { limbs: limbs6(&v) }
    }
}

impl Bls12Scalar {
    /// The integer that the limbs denote.
    pub closed spec fn value(self) -> nat {
        value(self.limbs@)
    }

    /// Canonical form: the value is below the field's order.
    pub open spec fn wf(self) -> bool {
        self.value() < scalar_order()
    }

    /// The order of the field, as little-endian limbs.
    pub fn order() -> (r: [u64; 4])
        ensures
            value(r@) == scalar_order(),
    {
        let r: [u64; 4] = [
            18446744069414584321,
            6034159408538082302,
            3691218898639771653,
            8353516859464449352,
        ];
        proof {
            lemma_value_of_four(r@);
        }
        r
    }

    /// The Barrett factor: the floor of `4^k / ORDER` with `k = 255`.
    fn barrett_factor() -> (r: [u64; 4])
        ensures
            value(r@) == (pow_base(7) * 4611686018427387904) / scalar_order(),
    {
        let r: [u64; 4] = [
            5808762262936312036,
            15654811016218471260,
            1021603728894469044,
            10183805594867568095,
        ];
        proof {
            lemma_value_of_four(r@);
            lemma_scalar_constants();
        }
        r
    }

    pub fn zero() -> (r: Self)
        ensures
            r.wf(),
            r.value() == 0,
    {
        Self::from_canonical_u64(0)
    }

    pub fn one() -> (r: Self)
        ensures
            r.wf(),
            r.value() == 1,
    {
        Self::from_canonical_u64(1)
    }

    pub fn from_canonical_u32(n: u32) -> (r: Self)
        ensures
            r.wf(),
            r.value() == n,
    {
        Self::from_canonical_u64(n as u64)
    }

    pub fn from_canonical_u64(n: u64) -> (r: Self)
        ensures
            r.wf(),
            r.value() == n,
    {
        let mut limbs = [0u64; 4];
        limbs[0] = n;
        proof {
            lemma_value_of_four(limbs@);
        }
        Self { limbs }
    }

    /// The element with the given limbs, if they denote a number below the order.
    pub fn from_canonical_limbs(limbs: [u64; 4]) -> (r: Option<Self>)
        ensures
            r is Some <==> value(limbs@) < scalar_order(),
            r matches Some(x) ==> x.wf() && x.value() == value(limbs@),
    {
        let order = Self::order();
        let (_d, below) = sub_limbs(&limbs, &order);
        if below {
            Some(Self { limbs })
        } else {
            None
        }
    }

    /// The canonical limbs of the element.
    pub fn to_canonical_limbs(self) -> (r: [u64; 4])
        ensures
            value(r@) == self.value(),
    {
        self.limbs
    }

    pub fn is_zero(self) -> (r: bool)
        ensures
            r == (self.value() == 0),
    {
        self.equals(Self::zero())
    }

    /// Whether the canonical value is odd.
    pub fn is_odd(self) -> (r: bool)
        ensures
            r == (self.value() % 2 == 1),
    {
        proof {
            lemma_value_parity(self.limbs@);
        }
        self.limbs[0] % 2 == 1
    }

    pub fn equals(self, other: Self) -> (r: bool)
        ensures
            r == (self.value() == other.value()),
    {
        let (_d, lt) = sub_limbs(&self.limbs, &other.limbs);
        let (_e, gt) = sub_limbs(&other.limbs, &self.limbs);
        !lt && !gt
    }

    pub fn add(self, rhs: Self) -> (r: Self)
        requires
            self.wf(),
            rhs.wf(),
        ensures
            r.wf(),
            r.value() == (self.value() + rhs.value()) % scalar_order(),
    {
        let order = Self::order();
        let v = add_mod(&self.limbs, &rhs.limbs, &order);
        Self { limbs: limbs4(&v) }
    }

    pub fn sub(self, rhs: Self) -> (r: Self)
        requires
            self.wf(),
            rhs.wf(),
        ensures
            r.wf(),
            r.value() == (self.value() + scalar_order() - rhs.value()) % (scalar_order() as int),
    {
        let order = Self::order();
        let v = sub_mod(&self.limbs, &rhs.limbs, &order);
        Self { limbs: limbs4(&v) }
    }

    pub fn neg(self) -> (r: Self)
        requires
            self.wf(),
        ensures
            r.wf(),
            r.value() == (scalar_order() - self.value()) % (scalar_order() as int),
    {
        Self::zero().sub(self)
    }

    /// Modular multiplication: a widening product, then Barrett reduction.
    pub fn mul(self, rhs: Self) -> (r: Self)
        requires
            self.wf(),
            rhs.wf(),
        ensures
            r.wf(),
            r.value() == (self.value() * rhs.value()) % scalar_order(),
    {
        let order = Self::order();
        let factor = Self::barrett_factor();
        let product = mul_limbs(&self.limbs, &rhs.limbs);
        proof {
            lemma_value_of_four(order@);
            lemma_scalar_constants();
            lemma_mul_strict(self.value(), rhs.value(), scalar_order());
        }
        let v = barrett_reduce(&product, &order, &factor, 7, 4611686018427387904, 4);
        proof {
            lemma_mod_bound_nat(self.value() * rhs.value(), scalar_order());
        }
        Self { limbs: limbs4(&v) }
    }
}

/// The value whose square the square root tries: `v^((ORDER + 1) / 4)`, which
/// squares to `v` exactly when `v` is a square, as the order is 3 modulo 4.
pub open spec fn sqrt_candidate(v: nat) -> nat {
    (pow(v as int, ((base_order() + 1) / 4) as nat) % (base_order() as int)) as nat
}

proof fn lemma_mul_pow_mod(x: int, a: nat, b: nat, m: int)
    requires
        m > 0,
    ensures
        ((pow(x, a) % m) * (pow(x, b) % m)) % m == pow(x, a + b) % m,
{
    lemma_mul_mod_noop(pow(x, a), pow(x, b), m);
    lemma_pow_adds(x, a, b);
}

impl Bls12Base {
    /// `(ORDER + 1) / 4`, as limbs.
    fn sqrt_exponent() -> (r: [u64; 6])
        ensures
            value(r@) == (base_order() + 1) / 4,
    {
        let r: [u64; 6] = [
            17185665809301629611,
            552535377879302143,
            15693976698673184137,
            15644892545385841839,
            10576397981472451381,
            468449654411884966,
        ];
        proof {
            lemma_value_of_six(r@);
            let b = limb_base();
            assert(17185665809301629611 + limb_base() * (552535377879302143 + limb_base() * (15693976698673184137 + limb_base() * (15644892545385841839 + limb_base() * (10576397981472451381 + limb_base() * (468449654411884966))))) == (base_order() + 1) / 4) by (nonlinear_arith)
                requires
                    b == limb_base(),
                    b == 18446744073709551616,
                    base_order() == 13402431016077863595 + b * (2210141511517208575 + b * (7435674573564081700 + b * (7239337960414712511 + b * (5412103778470702295 + b * (1873798617647539866))))),
            ;
        }
        r
    }

    /// `self` raised to the power that the limbs of `e` denote, by squaring and
    /// multiplying from the lowest bit up.
    pub fn pow_limbs(self, e: [u64; 6]) -> (r: Self)
        requires
            self.wf(),
        ensures
            r.wf(),
            r.value() == pow(self.value() as int, value(e@)) % (base_order() as int),
    {
        let ghost x = self.value() as int;
        let ghost p = base_order() as int;
        let mut result = Self::one();
        let mut base = self;
        proof {
            lemma_orders_large();
            lemma_pow0(x);
            lemma_pow1(x);
            lemma_small_mod(self.value(), base_order());
            lemma_small_mod(1, base_order());
            assert(e@.take(0) =~= Seq::<u64>::empty());
            assert(value(e@.take(0)) == 0);
            assert(pow_base(0) == 1);
        }
        for w in 0..6
            invariant
                p == base_order(),
                p > limb_base(),
                x == self.value(),
                result.wf(),
                base.wf(),
                result.value() == pow(x, value(e@.take(w as int))) % p,
                base.value() == pow(x, pow_base(w as nat)) % p,
        {
            let mut limb = e[w];
            proof {
                assert(pow2(0) == 1) by {
                    lemma2_to64();
                }
                assert(pow_base(w as nat) * pow2(0) == pow_base(w as nat));
                assert((e@[w as int] as nat) % pow2(0) == 0);
                assert(pow_base(w as nat) * 0 == 0);
                assert(limb == (e@[w as int] as nat) / pow2(0));
            }
            for j in 0..64
                invariant
                    p == base_order(),
                    p > limb_base(),
                    x == self.value(),
                    w < 6,
                    result.wf(),
                    base.wf(),
                    result.value() == pow(x, (value(e@.take(w as int)) + pow_base(w as nat) * ((e@[w as int] as nat) % pow2(j as nat))) as nat) % p,
                    base.value() == pow(x, (pow_base(w as nat) * pow2(j as nat)) as nat) % p,
                    limb == (e@[w as int] as nat) / pow2(j as nat),
            {
                let ghost lo = value(e@.take(w as int));
                let ghost pw = pow_base(w as nat);
                let ghost ew = e@[w as int] as nat;
                let ghost pj = pow2(j as nat);
                proof {
                    vstd::arithmetic::power2::lemma_pow2_pos(j as nat);
                    lemma_pow2_unfold((j + 1) as nat);
                    lemma_mod_breakdown(ew as int, pj as int, 2);
                    lemma_div_denominator(ew as int, pj as int, 2);
                    assert(pow2((j + 1) as nat) == pj * 2);
                    assert(limb % 2 == (ew / pj) % 2);
                }
                if limb % 2 == 1 {
                    proof {
                        lemma_mul_pow_mod(x, (lo + pw * (ew % pj)) as nat, (pw * pj) as nat, p);
                        assert(lo + pw * (ew % (pj * 2)) == lo + pw * (ew % pj) + pw * pj) by (nonlinear_arith)
                            requires
                                ew % (pj * 2) == pj * ((ew / pj) % 2) + ew % pj,
                                (ew / pj) % 2 == 1,
                        ;
                    }
                    result = result.mul(base);
                } else {
                    proof {
                        assert(lo + pw * (ew % (pj * 2)) == lo + pw * (ew % pj)) by (nonlinear_arith)
                            requires
                                ew % (pj * 2) == pj * ((ew / pj) % 2) + ew % pj,
                                (ew / pj) % 2 == 0,
                        ;
                    }
                }
                proof {
                    lemma_mul_pow_mod(x, (pw * pj) as nat, (pw * pj) as nat, p);
                    assert(pw * pj + pw * pj == pw * (pj * 2)) by (nonlinear_arith);
                }
                base = base.mul(base);
                limb = limb / 2;
            }
            proof {
                lemma2_to64_rest();
                assert(pow2(64) == limb_base());
                lemma_small_mod(e@[w as int] as nat, pow2(64));
                lemma_value_take(e@, w as nat);
                lemma_pow_base_adds(w as nat, 1);
                assert(pow_base(1) == limb_base()) by {
                    reveal_with_fuel(pow_base, 2);
                }
                assert(pow_base(w as nat) * e@[w as int] == e@[w as int] * pow_base(w as nat)) by (nonlinear_arith);
            }
        }
        proof {
            assert(e@.take(6) =~= e@);
        }
        result
    }

    pub fn cube(self) -> (r: Self)
        requires
            self.wf(),
        ensures
            r.wf(),
            r.value() == (self.value() * self.value() * self.value()) % base_order(),
    {
        let r = self.mul(self).mul(self);
        proof {
            lemma_orders_large();
            vstd::arithmetic::div_mod::lemma_mul_mod_noop_left(
                (self.value() * self.value()) as int,
                self.value() as int,
                base_order() as int,
            );
        }
        r
    }

    /// A square root of `self`, if it has one.
    pub fn square_root(self) -> (r: Option<Self>)
        requires
            self.wf(),
        ensures
            r is Some <==> (sqrt_candidate(self.value()) * sqrt_candidate(self.value()))
                % base_order() == self.value(),
            r matches Some(y) ==> y.wf() && y.value() == sqrt_candidate(self.value()) && (
            y.value() * y.value()) % base_order() == self.value(),
    {
        let candidate = self.pow_limbs(Self::sqrt_exponent());
        if candidate.mul(candidate).equals(self) {
            Some(candidate)
        } else {
            None
        }
    }
}

proof fn lemma_ring_laws_mod(a: nat, b: nat, c: nat, m: nat)
    requires
        m > 1,
        a < m,
        b < m,
        c < m,
    ensures
        (a + b) % m == (b + a) % m,
        ((a + b) % m + c) % m == (a + (b + c) % m) % m,
        (a * ((b + c) % m)) % m == ((a * b) % m + (a * c) % m) % m,
        (a * 1) % m == a,
        (a + ((m - a) % (m as int)) as nat) % m == 0,
{
    let mi = m as int;
    lemma_add_mod_noop((a + b) as int, c as int, mi);
    lemma_add_mod_noop(a as int, (b + c) as int, mi);
    vstd::arithmetic::div_mod::lemma_mod_twice((a + b) as int, mi);
    vstd::arithmetic::div_mod::lemma_mod_twice((b + c) as int, mi);
    vstd::arithmetic::div_mod::lemma_small_mod(a, m);
    vstd::arithmetic::div_mod::lemma_small_mod(c, m);
    vstd::arithmetic::div_mod::lemma_small_mod(b, m);
    assert(((a + b) % m + c % m) % m == ((a + b) + c) % m);
    assert((a % m + (b + c) % m) % m == (a + (b + c)) % m);
    vstd::arithmetic::div_mod::lemma_mul_mod_noop_right(a as int, (b + c) as int, mi);
    lemma_add_mod_noop((a * b) as int, (a * c) as int, mi);
    assert(a * (b + c) == a * b + a * c) by (nonlinear_arith);
    if a == 0 {
        vstd::arithmetic::div_mod::lemma_mod_self_0(mi);
        lemma_small_mod(0, m);
    } else {
        lemma_small_mod((m - a) as nat, m);
        vstd::arithmetic::div_mod::lemma_mod_self_0(mi);
    }
}

/// The base field's operations obey the commutative-ring laws: addition
/// commutes and associates, multiplication distributes over addition, one is
/// neutral, and every element plus its negation is zero.
pub proof fn lemma_base_field_laws(a: Bls12Base, b: Bls12Base, c: Bls12Base)
    requires
        a.wf(),
        b.wf(),
        c.wf(),
    ensures
        (a.value() + b.value()) % base_order() == (b.value() + a.value()) % base_order(),
        ((a.value() + b.value()) % base_order() + c.value()) % base_order() == (a.value() + (
        b.value() + c.value()) % base_order()) % base_order(),
        (a.value() * ((b.value() + c.value()) % base_order())) % base_order() == ((a.value()
            * b.value()) % base_order() + (a.value() * c.value()) % base_order()) % base_order(),
        (a.value() * 1) % base_order() == a.value(),
        (a.value() + ((base_order() - a.value()) % (base_order() as int)) as nat) % base_order()
            == 0,
{
    lemma_orders_large();
    lemma_ring_laws_mod(a.value(), b.value(), c.value(), base_order());
}

/// The scalar field's operations obey the same commutative-ring laws.
pub proof fn lemma_scalar_field_laws(a: Bls12Scalar, b: Bls12Scalar, c: Bls12Scalar)
    requires
        a.wf(),
        b.wf(),
        c.wf(),
    ensures
        (a.value() + b.value()) % scalar_order() == (b.value() + a.value()) % scalar_order(),
        ((a.value() + b.value()) % scalar_order() + c.value()) % scalar_order() == (a.value() + (
        b.value() + c.value()) % scalar_order()) % scalar_order(),
        (a.value() * ((b.value() + c.value()) % scalar_order())) % scalar_order() == ((a.value()
            * b.value()) % scalar_order() + (a.value() * c.value()) % scalar_order())
            % scalar_order(),
        (a.value() * 1) % scalar_order() == a.value(),
        (a.value() + ((scalar_order() - a.value()) % (scalar_order() as int)) as nat)
            % scalar_order() == 0,
{
    lemma_orders_large();
    lemma_ring_laws_mod(a.value(), b.value(), c.value(), scalar_order());
}

} // verus!
