//! Little-endian multi-precision integers held as sequences of 64-bit limbs.
use vstd::arithmetic::div_mod::{lemma_fundamental_div_mod, lemma_fundamental_div_mod_converse};
use vstd::prelude::*;

verus! {

/// The radix of one limb.
pub open spec fn limb_base() -> nat {
    0x1_0000_0000_0000_0000
}

/// `limb_base()` raised to the power `k`.
pub open spec fn pow_base(k: nat) -> nat
    decreases k,
{
    if k == 0 {
        1
    } else {
        limb_base() * pow_base((k - 1) as nat)
    }
}

/// The integer denoted by little-endian limbs.
pub open spec fn value(s: Seq<u64>) -> nat
    decreases s.len(),
{
    if s.len() == 0 {
        0
    } else {
        s[0] as nat + limb_base() * value(s.skip(1))
    }
}

pub proof fn lemma_pow_base_pos(k: nat)
    ensures
        pow_base(k) > 0,
    decreases k,
{
    if k > 0 {
        lemma_pow_base_pos((k - 1) as nat);
        assert(limb_base() * pow_base((k - 1) as nat) > 0) by (nonlinear_arith)
            requires
                pow_base((k - 1) as nat) > 0,
        ;
    }
}

pub proof fn lemma_pow_base_adds(i: nat, j: nat)
    ensures
        pow_base(i + j) == pow_base(i) * pow_base(j),
    decreases i,
{
    if i == 0 {
        assert(pow_base(0) == 1);
    } else {
        lemma_pow_base_adds((i - 1) as nat, j);
        let a = pow_base((i - 1) as nat);
        let b = pow_base(j);
        assert(pow_base(i + j) == limb_base() * pow_base((i - 1 + j) as nat));
        assert(pow_base(i) == limb_base() * a);
        assert(limb_base() * (a * b) == (limb_base() * a) * b) by (nonlinear_arith);
    }
}

/// Adding the limb at position `j` to a prefix.
pub proof fn lemma_value_take(s: Seq<u64>, j: nat)
    requires
        j < s.len(),
    ensures
        value(s.take(j as int + 1)) == value(s.take(j as int)) + s[j as int] * pow_base(j),
    decreases j,
{
    if j == 0 {
        assert(s.take(1).skip(1) =~= Seq::<u64>::empty());
        assert(s.take(0) =~= Seq::<u64>::empty());
        assert(value(Seq::<u64>::empty()) == 0);
        assert(pow_base(0) == 1);
        assert(s.take(1)[0] == s[0]);
    } else {
        lemma_value_take(s.skip(1), (j - 1) as nat);
        assert(s.take(j as int + 1).skip(1) =~= s.skip(1).take(j as int));
        assert(s.take(j as int).skip(1) =~= s.skip(1).take(j - 1));
        let v1 = value(s.skip(1).take(j - 1));
        let x = s[j as int] as nat;
        let p = pow_base((j - 1) as nat);
        assert(pow_base(j) == limb_base() * p);
        assert(s.take(j as int + 1)[0] == s[0]);
        assert(s.take(j as int)[0] == s[0]);
        assert(limb_base() * (v1 + x * p) == limb_base() * v1 + x * (limb_base() * p))
            by (nonlinear_arith);
    }
}

/// The value after replacing the limb at position `k`.
pub proof fn lemma_value_update(s: Seq<u64>, k: nat, v: u64)
    requires
        k < s.len(),
    ensures
        value(s.update(k as int, v)) + s[k as int] * pow_base(k) == value(s) + v * pow_base(k),
    decreases k,
{
    let u = s.update(k as int, v);
    if k == 0 {
        assert(u.skip(1) =~= s.skip(1));
        assert(pow_base(0) == 1);
    } else {
        lemma_value_update(s.skip(1), (k - 1) as nat, v);
        assert(u.skip(1) =~= s.skip(1).update(k - 1, v));
        let p = pow_base((k - 1) as nat);
        assert(pow_base(k) == limb_base() * p);
        assert(u[0] == s[0]);
        let a = value(u.skip(1));
        let b = value(s.skip(1));
        assert(limb_base() * a + s[k as int] * (limb_base() * p) == limb_base() * b + v * (
        limb_base() * p)) by (nonlinear_arith)
            requires
                a + s[k as int] * p == b + v * p,
        ;
    }
}

/// Splitting a number into its low `k` limbs and the rest.
pub proof fn lemma_value_split(s: Seq<u64>, k: nat)
    requires
        k <= s.len(),
    ensures
        value(s) == value(s.take(k as int)) + pow_base(k) * value(s.skip(k as int)),
    decreases k,
{
    if k == 0 {
        assert(s.skip(0) =~= s);
        assert(s.take(0) =~= Seq::<u64>::empty());
        assert(value(s.take(0)) == 0);
        assert(pow_base(0) == 1);
    } else {
        lemma_value_split(s.skip(1), (k - 1) as nat);
        assert(s.take(k as int).skip(1) =~= s.skip(1).take(k - 1));
        assert(s.skip(1).skip(k - 1) =~= s.skip(k as int));
        let lo = value(s.skip(1).take(k - 1));
        let hi = value(s.skip(k as int));
        let p = pow_base((k - 1) as nat);
        assert(pow_base(k) == limb_base() * p);
        assert(s.take(k as int)[0] == s[0]);
        assert(limb_base() * (lo + p * hi) == limb_base() * lo + (limb_base() * p) * hi)
            by (nonlinear_arith);
    }
}

/// A number of `n` limbs is below `pow_base(n)`.
pub proof fn lemma_value_bound(s: Seq<u64>)
    ensures
        value(s) < pow_base(s.len()),
    decreases s.len(),
{
    if s.len() > 0 {
        lemma_value_bound(s.skip(1));
        let v = value(s.skip(1));
        let p = pow_base((s.len() - 1) as nat);
        assert(s[0] as nat + limb_base() * v < limb_base() * p) by (nonlinear_arith)
            requires
                v < p,
                s[0] < limb_base(),
        ;
    }
}

/// Limbs of one length denote one number each.
pub proof fn lemma_value_injective(s: Seq<u64>, t: Seq<u64>)
    requires
        s.len() == t.len(),
        value(s) == value(t),
    ensures
        s == t,
    decreases s.len(),
{
    if s.len() == 0 {
        assert(s =~= t);
    } else {
        let b = limb_base() as int;
        lemma_fundamental_div_mod_converse(value(s) as int, b, value(s.skip(1)) as int, s[0] as int);
        lemma_fundamental_div_mod_converse(value(t) as int, b, value(t.skip(1)) as int, t[0] as int);
        lemma_value_injective(s.skip(1), t.skip(1));
        assert forall|i: int| 0 <= i < s.len() implies s[i] == t[i] by {
            if i > 0 {
                assert(s[i] == s.skip(1)[i - 1]);
                assert(t[i] == t.skip(1)[i - 1]);
            }
        }
        assert(s =~= t);
    }
}

/// Limbs that are all zero denote zero.
pub proof fn lemma_value_zeros(s: Seq<u64>)
    requires
        forall|i: int| 0 <= i < s.len() ==> s[i] == 0,
    ensures
        value(s) == 0,
    decreases s.len(),
{
    if s.len() > 0 {
        lemma_value_zeros(s.skip(1));
    }
}

/// `n` zero limbs.
pub fn zeros(n: usize) -> (r: Vec<u64>)
    ensures
        r@.len() == n,
        forall|i: int| 0 <= i < n ==> r@[i] == 0,
{
    let mut r: Vec<u64> = Vec::new();
    for i in 0..n
        invariant
            r@.len() == i,
            forall|k: int| 0 <= k < i ==> r@[k] == 0,
    {
        r.push(0);
    }
    r
}

/// Schoolbook multiplication: every limb product is formed in 128 bits and its
/// high half carried into the next position.
pub fn mul_limbs(a: &[u64], b: &[u64]) -> (r: Vec<u64>)
    requires
        a@.len() + b@.len() <= usize::MAX,
    ensures
        r@.len() == a@.len() + b@.len(),
        value(r@) == value(a@) * value(b@),
{
    let n = a.len();
    let m = b.len();
    let mut acc = zeros(n + m);
    proof {
        lemma_value_zeros(acc@);
        assert(a@.take(0) =~= Seq::<u64>::empty());
        assert(value(a@.take(0)) == 0);
        assert(value(a@.take(0)) * value(b@) == 0);
    }
    for i in 0..n
        invariant
            n == a@.len(),
            m == b@.len(),
            n + m <= usize::MAX,
            acc@.len() == n + m,
            value(acc@) == value(a@.take(i as int)) * value(b@),
            forall|k: int| i + m <= k < n + m ==> acc@[k] == 0,
    {
        let ai = a[i];
        let mut carry: u64 = 0;
        proof {
            assert(b@.take(0) =~= Seq::<u64>::empty());
            assert(value(b@.take(0)) == 0);
            let z = value(b@.take(0));
            assert(ai * z * pow_base(i as nat) == 0) by (nonlinear_arith)
                requires
                    z == 0,
            ;
            assert(pow_base((i + 0) as nat) == pow_base(i as nat));
        }
        for j in 0..m
            invariant
                n == a@.len(),
                m == b@.len(),
                i < n,
                n + m <= usize::MAX,
                ai == a@[i as int],
                acc@.len() == n + m,
                value(acc@) + carry * pow_base((i + j) as nat) == value(a@.take(i as int)) * value(
                    b@,
                ) + ai * value(b@.take(j as int)) * pow_base(i as nat),
                forall|k: int| i + m <= k < n + m ==> acc@[k] == 0,
        {
            let bj = b[j];
            let old_limb = acc[i + j];
            assert((ai as u128) * (bj as u128) <= 0xffff_ffff_ffff_fffe_0000_0000_0000_0001u128)
                by (nonlinear_arith)
                requires
                    ai <= 0xffff_ffff_ffff_ffffu64,
                    bj <= 0xffff_ffff_ffff_ffffu64,
            ;
            let t: u128 = (ai as u128) * (bj as u128) + (old_limb as u128) + (carry as u128);
            let lo = (t % 0x1_0000_0000_0000_0000u128) as u64;
            let hi = (t / 0x1_0000_0000_0000_0000u128) as u64;
            proof {
                let p = pow_base((i + j) as nat);
                lemma_value_update(acc@, (i + j) as nat, lo);
                lemma_value_take(b@, j as nat);
                lemma_pow_base_adds(i as nat, j as nat);
                lemma_pow_base_adds((i + j) as nat, 1);
                assert(pow_base(1) == limb_base()) by {
                    reveal_with_fuel(pow_base, 2);
                }
                assert(t == lo + hi * limb_base());
                let a_old = value(acc@);
                let a_new = value(acc@.update((i + j) as int, lo));
                let x = value(a@.take(i as int)) * value(b@);
                let vb = value(b@.take(j as int));
                let pi = pow_base(i as nat);
                let pj = pow_base(j as nat);
                let pn = pow_base((i + j + 1) as nat);
                assert(lo * p + hi * pn == (ai * bj) * p + old_limb * p + carry * p)
                    by (nonlinear_arith)
                    requires
                        lo + hi * limb_base() == ai * bj + old_limb + carry,
                        pn == p * limb_base(),
                ;
                assert(ai * (vb + bj * pj) * pi == ai * vb * pi + (ai * bj) * p)
                    by (nonlinear_arith)
                    requires
                        p == pi * pj,
                ;
                assert(a_new + old_limb * p == a_old + lo * p);
            }
            acc.set(i + j, lo);
            carry = hi;
        }
        proof {
            assert(b@.take(m as int) =~= b@);
            lemma_value_update(acc@, (i + m) as nat, carry);
            lemma_value_take(a@, i as nat);
            let va = value(a@.take(i as int));
            assert((va + ai * pow_base(i as nat)) * value(b@) == va * value(b@) + ai * value(b@)
                * pow_base(i as nat)) by (nonlinear_arith);
        }
        acc.set(i + m, carry);
    }
    proof {
        assert(a@.take(n as int) =~= a@);
    }
    acc
}

/// Subtraction with a borrow rippling from the lowest limb upward: the result
/// is the difference modulo `pow_base(n)`, and the borrow tells whether `a < b`.
pub fn sub_limbs(a: &[u64], b: &[u64]) -> (r: (Vec<u64>, bool))
    requires
        a@.len() == b@.len(),
    ensures
        r.0@.len() == a@.len(),
        r.1 == (value(a@) < value(b@)),
        value(r.0@) + value(b@) == value(a@) + (if r.1 {
            pow_base(a@.len())
        } else {
            0
        }),
{
    let n = a.len();
    let mut r: Vec<u64> = Vec::new();
    let mut borrow = false;
    proof {
        assert(a@.take(0) =~= Seq::<u64>::empty());
        assert(b@.take(0) =~= Seq::<u64>::empty());
        assert(r@ =~= Seq::<u64>::empty());
        assert(value(Seq::<u64>::empty()) == 0);
    }
    for i in 0..n
        invariant
            n == a@.len(),
            n == b@.len(),
            r@.len() == i,
            value(r@) + value(b@.take(i as int)) == value(a@.take(i as int)) + (if borrow {
                pow_base(i as nat)
            } else {
                0
            }),
    {
        let ai = a[i] as u128;
        let bi = b[i] as u128 + (if borrow {
            1u128
        } else {
            0u128
        });
        let d: u64;
        let nb: bool;
        if ai >= bi {
            d = (ai - bi) as u64;
            nb = false;
        } else {
            d = (ai + 0x1_0000_0000_0000_0000u128 - bi) as u64;
            nb = true;
        }
        proof {
            let r2 = r@.push(d);
            assert(r2.take(i as int) =~= r@);
            assert(r2.take(i as int + 1) =~= r2);
            lemma_value_take(r2, i as nat);
            lemma_value_take(a@, i as nat);
            lemma_value_take(b@, i as nat);
            lemma_pow_base_adds(i as nat, 1);
            assert(pow_base(1) == limb_base()) by {
                reveal_with_fuel(pow_base, 2);
            }
            let p = pow_base(i as nat);
            assert((if nb { pow_base(i as nat + 1) } else { 0 }) == (if nb { 1nat } else { 0 })
                * limb_base() * p) by (nonlinear_arith)
                requires
                    pow_base(i as nat + 1) == p * limb_base(),
            ;
            assert((d + b@[i as int] as int - a@[i as int] as int) * p == ((if nb { 1int } else { 0 }) * limb_base() - (if borrow { 1int } else { 0 })) * p);
            assert((d + b@[i as int] as int - a@[i as int] as int) * p == d * p + b@[i as int] * p - a@[i as int] * p) by (nonlinear_arith);
            assert(((if nb { 1int } else { 0 }) * limb_base() - (if borrow { 1int } else { 0 })) * p == (if nb { 1int } else { 0 }) * limb_base() * p - (if borrow { 1int } else { 0 }) * p) by (nonlinear_arith);
        }
        r.push(d);
        borrow = nb;
    }
    proof {
        assert(a@.take(n as int) =~= a@);
        assert(b@.take(n as int) =~= b@);
        lemma_value_bound(r@);
        lemma_value_bound(a@);
        lemma_value_bound(b@);
    }
    (r, borrow)
}

/// The `n` limbs of `s` shifted down by the bits that `pc` counts, where
/// `pc * pr` is one limb: each result limb joins the high part of one limb to
/// the low part of the next.
pub open spec fn shifted(s: Seq<u64>, pc: nat, pr: nat, n: nat) -> Seq<u64> {
    Seq::new(n, |i: int| ((s[i] as nat / pc) + (s[i + 1] as nat % pc) * pr) as u64)
}

pub proof fn lemma_shifted(s: Seq<u64>, pc: nat, pr: nat, n: nat)
    requires
        pc > 0,
        pr > 0,
        pc * pr == limb_base(),
        s.len() >= n + 1,
        value(s) < pc * pow_base(n),
    ensures
        value(shifted(s, pc, pr, n)) == value(s) / pc,
    decreases n,
{
    let t = shifted(s, pc, pr, n);
    let v = value(s);
    let w = value(s.skip(1));
    let s0 = s[0] as nat;
    let s1 = s[1] as nat;
    let b = limb_base();
    lemma_fundamental_div_mod(v as int, pc as int);
    lemma_fundamental_div_mod(w as int, pc as int);
    lemma_fundamental_div_mod(s0 as int, pc as int);
    lemma_fundamental_div_mod(s1 as int, pc as int);
    if n == 0 {
        assert(t =~= Seq::<u64>::empty());
        assert(pow_base(0) == 1);
        assert(value(t) == 0);
        assert(pc * pow_base(0) == pc) by (nonlinear_arith)
            requires
                pow_base(0) == 1,
        ;
        lemma_fundamental_div_mod_converse(v as int, pc as int, 0, v as int);
    } else {
        let pn = pow_base((n - 1) as nat);
        assert(pow_base(n) == b * pn);
        let w2 = value(s.skip(1).skip(1));
        assert(w == s1 + b * w2);
        assert(v == s0 + b * w);
        // The low bits of the rest are those of its lowest limb.
        assert(w % pc == s1 % pc) by {
            let q1 = s1 / pc + pr * w2;
            assert(w == q1 * pc + s1 % pc) by (nonlinear_arith)
                requires
                    w == s1 + b * w2,
                    s1 == pc * (s1 / pc) + s1 % pc,
                    b == pc * pr,
                    q1 == s1 / pc + pr * w2,
            ;
            lemma_fundamental_div_mod_converse(w as int, pc as int, q1 as int, (s1 % pc) as int);
        }
        assert(w < pc * pn) by (nonlinear_arith)
            requires
                v == s0 + b * w,
                v < pc * (b * pn),
                b > 0,
        ;
        lemma_shifted(s.skip(1), pc, pr, (n - 1) as nat);
        assert(t.skip(1) =~= shifted(s.skip(1), pc, pr, (n - 1) as nat));
        let t0 = s0 / pc + (s1 % pc) * pr;
        assert(s0 / pc < pr) by (nonlinear_arith)
            requires
                s0 < b,
                b == pc * pr,
                pc > 0,
                s0 == pc * (s0 / pc) + s0 % pc,
                s0 % pc >= 0,
        ;
        let lo1 = s1 % pc;
        assert(lo1 * pr <= (pc - 1) * pr) by (nonlinear_arith)
            requires
                lo1 < pc,
                pr > 0,
        ;
        assert(t0 < b) by (nonlinear_arith)
            requires
                lo1 * pr <= (pc - 1) * pr,
                lo1 == s1 % pc,
                s0 / pc < pr,
                s1 % pc < pc,
                b == pc * pr,
                t0 == s0 / pc + (s1 % pc) * pr,
        ;
        assert(t[0] == t0);
        let q = t0 + b * (w / pc);
        assert(v == pc * q + s0 % pc) by (nonlinear_arith)
            requires
                v == s0 + b * w,
                b == pc * pr,
                w == pc * (w / pc) + w % pc,
                w % pc == s1 % pc,
                s0 == pc * (s0 / pc) + s0 % pc,
                q == s0 / pc + (s1 % pc) * pr + b * (w / pc),
        ;
        lemma_fundamental_div_mod_converse(v as int, pc as int, q as int, (s0 % pc) as int);
    }
}

/// The quotient estimate of Barrett reduction is the true quotient or one less.
pub proof fn lemma_barrett_quotient(x: int, m: int, f: int, r: int)
    requires
        m > 0,
        0 <= x < m * m,
        m * m <= r,
        f == r / m,
    ensures
        0 <= (x * f) / r,
        ((x * f) / r) * m <= x,
        x - ((x * f) / r) * m < 2 * m,
        (x * f) / r < m,
{
    let q = (x * f) / r;
    lemma_fundamental_div_mod(r, m);
    lemma_fundamental_div_mod(x * f, r);
    assert(f * m <= r && r - m < f * m) by (nonlinear_arith)
        requires
            r == m * f + r % m,
            0 <= r % m < m,
    ;
    assert(f >= 0) by (nonlinear_arith)
        requires
            f * m > r - m,
            r >= m * m,
            m > 0,
    ;
    assert(x * f >= 0) by (nonlinear_arith)
        requires
            x >= 0,
            f >= 0,
    ;
    assert(q >= 0) by (nonlinear_arith)
        requires
            x * f == r * q + (x * f) % r,
            0 <= (x * f) % r < r,
            x * f >= 0,
    ;
    assert(q * m <= x) by (nonlinear_arith)
        requires
            x * f == r * q + (x * f) % r,
            0 <= (x * f) % r,
            f * m <= r,
            x >= 0,
            m > 0,
            r > 0,
    ;
    assert(x - q * m < 2 * m) by (nonlinear_arith)
        requires
            x * f == r * q + (x * f) % r,
            (x * f) % r < r,
            r - m < f * m,
            x < r,
            x >= 0,
            m > 0,
            r > 0,
    ;
    assert(q < m) by (nonlinear_arith)
        requires
            q * m <= x,
            x < m * m,
            m > 0,
    ;
}

/// Dropping the `w` low limbs and then `c` more bits is one division.
pub proof fn lemma_div_split(a: nat, b: nat, p: nat, c: nat)
    requires
        a < p,
        c > 0,
    ensures
        (a + p * b) / (p * c) == b / c,
{
    lemma_fundamental_div_mod(b as int, c as int);
    let q = b / c;
    let rem = a + p * (b % c);
    assert(rem < p * c && a + p * b == q * (p * c) + rem) by (nonlinear_arith)
        requires
            a < p,
            b == c * q + b % c,
            0 <= b % c < c,
            rem == a + p * (b % c),
    ;
    lemma_fundamental_div_mod_converse((a + p * b) as int, (p * c) as int, q as int, rem as int);
}

/// Barrett reduction of a double-width `x` modulo `modulus`, with `factor` the
/// floor of `pow_base(sw) * pc` over the modulus: the quotient is estimated by
/// a product and a shift, and one conditional subtraction completes it.
pub fn barrett_reduce(
    x: &[u64],
    modulus: &[u64],
    factor: &[u64],
    sw: usize,
    pc: u64,
    pr: u64,
) -> (r: Vec<u64>)
    requires
        modulus@.len() >= 1,
        x@.len() == 2 * modulus@.len(),
        factor@.len() == modulus@.len(),
        3 * modulus@.len() <= usize::MAX,
        sw + modulus@.len() + 1 <= 3 * modulus@.len(),
        pc > 0,
        pr > 0,
        pc * pr == limb_base(),
        value(modulus@) > 0,
        value(factor@) == (pow_base(sw as nat) * (pc as nat)) / value(modulus@),
        value(modulus@) * value(modulus@) <= pow_base(sw as nat) * (pc as nat),
        2 * value(modulus@) <= pow_base(modulus@.len()),
        value(x@) < value(modulus@) * value(modulus@),
    ensures
        r@.len() == modulus@.len(),
        value(r@) == value(x@) % value(modulus@),
{
    let n = modulus.len();
    let ghost m = value(modulus@);
    let ghost big_r = pow_base(sw as nat) * (pc as nat);
    let xr = mul_limbs(x, factor);
    proof {
        lemma_pow_base_pos(sw as nat);
        lemma_barrett_quotient(value(x@) as int, m as int, value(factor@) as int, big_r as int);
    }
    let ghost qv: int = (value(x@) as int * value(factor@) as int) / (big_r as int);
    let ghost s = xr@.skip(sw as int);
    proof {
        lemma_value_split(xr@, sw as nat);
        lemma_value_bound(xr@.take(sw as int));
        lemma_div_split(value(xr@.take(sw as int)), value(s), pow_base(sw as nat), pc as nat);
        lemma_value_bound(modulus@);
        lemma_fundamental_div_mod(value(s) as int, pc as int);
        assert(value(s) < pc * pow_base(n as nat)) by (nonlinear_arith)
            requires
                value(s) == pc * (value(s) / pc as nat) + value(s) % (pc as nat),
                value(s) % (pc as nat) < pc,
                value(s) / (pc as nat) < pow_base(n as nat),
        ;
        lemma_shifted(s, pc as nat, pr as nat, n as nat);
    }
    let mut q: Vec<u64> = Vec::new();
    for i in 0..n
        invariant
            n == modulus@.len(),
            xr@.len() == 3 * n,
            3 * n <= usize::MAX,
            sw + n + 1 <= 3 * n,
            s == xr@.skip(sw as int),
            pc > 0,
            pr > 0,
            pc * pr == limb_base(),
            q@ == shifted(s, pc as nat, pr as nat, n as nat).take(i as int),
    {
        let lo = xr[sw + i];
        let hi = xr[sw + i + 1];
        let a = lo / pc;
        let b = hi % pc;
        proof {
            assert(a < pr) by (nonlinear_arith)
                requires
                    lo < limb_base(),
                    limb_base() == pc * pr,
                    pc > 0,
                    a == lo / pc,
            ;
            assert(b * pr <= (pc - 1) * pr) by (nonlinear_arith)
                requires
                    b < pc,
                    pr > 0,
            ;
            assert(a + b * pr < limb_base()) by (nonlinear_arith)
                requires
                    a < pr,
                    b * pr <= (pc - 1) * pr,
                    limb_base() == pc * pr,
            ;
        }
        q.push(a + b * pr);
        proof {
            assert(q@ =~= shifted(s, pc as nat, pr as nat, n as nat).take(i + 1));
        }
    }
    proof {
        assert(q@ =~= shifted(s, pc as nat, pr as nat, n as nat));
        assert(value(q@) == qv);
    }
    let qm = mul_limbs(&q, modulus);
    let (d, _borrow) = sub_limbs(x, &qm);
    proof {
        lemma_value_split(d@, n as nat);
        lemma_value_bound(d@.take(n as int));
        assert(value(d@) == value(x@) - qv * m);
        lemma_pow_base_pos(n as nat);
        assert(value(d@.skip(n as int)) == 0) by (nonlinear_arith)
            requires
                value(d@) == value(d@.take(n as int)) + pow_base(n as nat) * value(d@.skip(n as int)),
                value(d@) < pow_base(n as nat),
        ;
    }
    let mut low: Vec<u64> = Vec::new();
    for i in 0..n
        invariant
            n == modulus@.len(),
            d@.len() == 2 * n,
            low@ == d@.take(i as int),
    {
        low.push(d[i]);
        proof {
            assert(low@ =~= d@.take(i + 1));
        }
    }
    proof {
        assert(low@ =~= d@.take(n as int));
    }
    let (e, below) = sub_limbs(&low, modulus);
    proof {
        let lv = value(low@);
        assert(lv == value(x@) - qv * m);
        if below {
            lemma_fundamental_div_mod_converse(value(x@) as int, m as int, qv as int, lv as int);
        } else {
            assert(value(x@) == (qv + 1) * m + (lv - m)) by (nonlinear_arith)
                requires
                    lv == value(x@) - qv * m,
            ;
            lemma_fundamental_div_mod_converse(value(x@) as int, m as int, qv + 1, lv - m as int);
        }
    }
    if below {
        low
    } else {
        e
    }
}

/// Addition with a carry rippling upward: the result is the sum modulo
/// `pow_base(n)`, and the carry tells whether the sum reached it.
pub fn add_limbs(a: &[u64], b: &[u64]) -> (r: (Vec<u64>, bool))
    requires
        a@.len() == b@.len(),
    ensures
        r.0@.len() == a@.len(),
        value(r.0@) + (if r.1 {
            pow_base(a@.len())
        } else {
            0
        }) == value(a@) + value(b@),
{
    let n = a.len();
    let mut r: Vec<u64> = Vec::new();
    let mut carry = false;
    proof {
        assert(a@.take(0) =~= Seq::<u64>::empty());
        assert(b@.take(0) =~= Seq::<u64>::empty());
        assert(r@ =~= Seq::<u64>::empty());
        assert(value(Seq::<u64>::empty()) == 0);
    }
    for i in 0..n
        invariant
            n == a@.len(),
            n == b@.len(),
            r@.len() == i,
            value(r@) + (if carry {
                pow_base(i as nat)
            } else {
                0
            }) == value(a@.take(i as int)) + value(b@.take(i as int)),
    {
        let t: u128 = a[i] as u128 + b[i] as u128 + (if carry {
            1u128
        } else {
            0u128
        });
        let d: u64;
        let nc: bool;
        if t >= 0x1_0000_0000_0000_0000u128 {
            d = (t - 0x1_0000_0000_0000_0000u128) as u64;
            nc = true;
        } else {
            d = t as u64;
            nc = false;
        }
        proof {
            let r2 = r@.push(d);
            assert(r2.take(i as int) =~= r@);
            assert(r2.take(i as int + 1) =~= r2);
            lemma_value_take(r2, i as nat);
            lemma_value_take(a@, i as nat);
            lemma_value_take(b@, i as nat);
            lemma_pow_base_adds(i as nat, 1);
            assert(pow_base(1) == limb_base()) by {
                reveal_with_fuel(pow_base, 2);
            }
            let p = pow_base(i as nat);
            let ci: int = if carry { 1 } else { 0 };
            let co: int = if nc { 1 } else { 0 };
            assert(d + co * limb_base() == a@[i as int] + b@[i as int] + ci);
            assert(d * p + co * pow_base(i as nat + 1) == a@[i as int] * p + b@[i as int] * p + ci
                * p) by (nonlinear_arith)
                requires
                    d + co * limb_base() == a@[i as int] + b@[i as int] + ci,
                    pow_base(i as nat + 1) == p * limb_base(),
            ;
            assert((if carry { pow_base(i as nat) } else { 0 }) == ci * p);
            assert((if nc { pow_base(i as nat + 1) } else { 0 }) == co * pow_base(i as nat + 1));
        }
        r.push(d);
        carry = nc;
    }
    proof {
        assert(a@.take(n as int) =~= a@);
        assert(b@.take(n as int) =~= b@);
    }
    (r, carry)
}

/// Modular addition of two reduced numbers.
pub fn add_mod(a: &[u64], b: &[u64], m: &[u64]) -> (r: Vec<u64>)
    requires
        a@.len() == m@.len(),
        b@.len() == m@.len(),
        value(a@) < value(m@),
        value(b@) < value(m@),
    ensures
        r@.len() == m@.len(),
        value(r@) == (value(a@) + value(b@)) % value(m@),
{
    let (s, carry) = add_limbs(a, b);
    let (d, borrow) = sub_limbs(&s, m);
    proof {
        lemma_value_bound(m@);
        lemma_value_bound(s@);
        lemma_value_bound(d@);
        let mv = value(m@) as int;
        let sum: int = value(a@) as int + value(b@) as int;
        if carry || !borrow {
            lemma_fundamental_div_mod_converse(sum, mv, 1, sum - mv);
        } else {
            lemma_fundamental_div_mod_converse(sum, mv, 0, sum);
        }
    }
    if carry || !borrow {
        d
    } else {
        s
    }
}

/// Modular subtraction of two reduced numbers.
pub fn sub_mod(a: &[u64], b: &[u64], m: &[u64]) -> (r: Vec<u64>)
    requires
        a@.len() == m@.len(),
        b@.len() == m@.len(),
        value(a@) < value(m@),
        value(b@) < value(m@),
    ensures
        r@.len() == m@.len(),
        value(r@) == (value(a@) + value(m@) - value(b@)) % (value(m@) as int),
{
    let (d, borrow) = sub_limbs(a, b);
    proof {
        lemma_value_bound(m@);
        lemma_value_bound(d@);
    }
    if borrow {
        let (e, _carry) = add_limbs(&d, m);
        proof {
            lemma_value_bound(e@);
            let mv = value(m@) as int;
            let x = value(a@) + mv - value(b@);
            lemma_fundamental_div_mod_converse(x, mv, 0, x);
        }
        e
    } else {
        proof {
            let mv = value(m@) as int;
            let x = value(a@) + mv - value(b@);
            lemma_fundamental_div_mod_converse(x, mv, 1, x - mv);
        }
        d
    }
}

} // verus!
