//! Field arithmetic: canonical reduction of an arbitrary-precision integer
//! into `[0, m)` and the modular multiplicative inverse, computed by the
//! extended Euclidean algorithm.

use vstd::prelude::*;
use vstd::arithmetic::div_mod::{
    lemma_add_mod_noop, lemma_fundamental_div_mod, lemma_mod_bound, lemma_mod_multiples_basic,
    lemma_mod_multiples_vanish, lemma_mod_self_0, lemma_mod_twice, lemma_mul_mod_noop_left,
    lemma_mul_mod_noop_right, lemma_small_mod, lemma_sub_mod_noop,
};
use crate::bigint::{
    big_add, big_clone, big_div, big_eq, big_from_u128, big_mul, big_rem, big_sub, big_value,
};
use num_bigint::BigInt;

verus! {

/// Greatest common divisor, by the Euclidean recursion.
pub open spec fn gcd(a: nat, b: nat) -> nat
    decreases b,
{
    if b == 0 {
        a
    } else {
        gcd(b, a % b)
    }
}

/// `m` is prime: at least 2, with no divisor strictly between 1 and `m`.
pub open spec fn is_prime(m: int) -> bool {
    m >= 2 && forall|k: int| 2 <= k < m ==> #[trigger] (m % k) != 0
}

/// Some residue in `[0, m)` is a multiplicative inverse of `v` modulo `m`.
pub open spec fn has_inverse(v: int, m: int) -> bool {
    exists|i: int| 0 <= i < m && #[trigger] ((v * i) % m) == 1
}

/// The residue in `[0, m)` that inverts `v` modulo `m`; meaningful only when
/// `has_inverse(v, m)` holds, and unique in that case.
pub open spec fn inverse_of(v: int, m: int) -> int {
    choose|i: int| 0 <= i < m && #[trigger] ((v * i) % m) == 1
}

/// A multiple of a multiple of `d` is a multiple of `d`.
proof fn lemma_divides_mul(d: int, x: int, c: int)
    requires
        d > 0,
        x % d == 0,
    ensures
        (x * c) % d == 0,
{
    lemma_fundamental_div_mod(x, d);
    let k: int = x / d;
    assert(x * c == (k * c) * d) by (nonlinear_arith)
        requires
            x == d * k,
    ;
    lemma_mod_multiples_basic(k * c, d);
}

/// The sum of two multiples of `d` is a multiple of `d`.
proof fn lemma_divides_add(d: int, x: int, y: int)
    requires
        d > 0,
        x % d == 0,
        y % d == 0,
    ensures
        (x + y) % d == 0,
{
    lemma_add_mod_noop(x, y, d);
    lemma_small_mod(0nat, d as nat);
}

/// The difference of two multiples of `d` is a multiple of `d`.
proof fn lemma_divides_sub(d: int, x: int, y: int)
    requires
        d > 0,
        x % d == 0,
        y % d == 0,
    ensures
        (x - y) % d == 0,
{
    lemma_sub_mod_noop(x, y, d);
    lemma_small_mod(0nat, d as nat);
}

/// The gcd of two numbers, not both zero, is positive and divides both.
pub proof fn lemma_gcd_divides(a: nat, b: nat)
    requires
        a > 0 || b > 0,
    ensures
        gcd(a, b) > 0,
        a as int % (gcd(a, b) as int) == 0,
        b as int % (gcd(a, b) as int) == 0,
    decreases b,
{
    if b == 0 {
        lemma_mod_self_0(a as int);
        lemma_small_mod(0nat, a);
    } else {
        lemma_mod_bound(a as int, b as int);
        lemma_gcd_divides(b, a % b);
        let g: int = gcd(a, b) as int;
        lemma_fundamental_div_mod(a as int, b as int);
        lemma_divides_mul(g, b as int, a as int / b as int);
        assert((b as int) * (a as int / b as int) % g == 0);
        lemma_divides_add(g, (b as int) * (a as int / b as int), (a % b) as int);
    }
}

/// If `v` has a multiplicative inverse modulo `m`, then `v` and `m` are coprime.
pub proof fn lemma_inverse_implies_coprime(v: int, m: int, i: int)
    requires
        m > 1,
        0 <= v < m,
        (v * i) % m == 1,
    ensures
        gcd(v as nat, m as nat) == 1,
{
    lemma_gcd_divides(v as nat, m as nat);
    let g: int = gcd(v as nat, m as nat) as int;
    lemma_fundamental_div_mod(v * i, m);
    let k: int = (v * i) / m;
    lemma_divides_mul(g, v, i);
    lemma_divides_mul(g, m, k);
    lemma_divides_sub(g, v * i, m * k);
    assert(v * i - m * k == 1);
    if g >= 2 {
        lemma_small_mod(1nat, g as nat);
        assert(false);
    }
}

/// Without coprimality no multiplicative inverse exists.
pub proof fn lemma_no_inverse_when_not_coprime(v: int, m: int)
    requires
        m > 1,
        0 <= v < m,
        gcd(v as nat, m as nat) != 1,
    ensures
        !has_inverse(v, m),
{
    if has_inverse(v, m) {
        let i: int = choose|i: int| 0 <= i < m && #[trigger] ((v * i) % m) == 1;
        lemma_inverse_implies_coprime(v, m, i);
        assert(false);
    }
}

/// The multiplicative inverse modulo `m` is unique among residues in `[0, m)`.
pub proof fn lemma_inverse_unique(v: int, m: int, i1: int, i2: int)
    requires
        m > 1,
        0 <= i1 < m,
        0 <= i2 < m,
        (v * i1) % m == 1,
        (v * i2) % m == 1,
    ensures
        i1 == i2,
{
    lemma_small_mod(i1 as nat, m as nat);
    lemma_small_mod(i2 as nat, m as nat);
    lemma_mul_mod_noop_right(i1, v * i2, m);
    assert(i1 * 1 == i1);
    assert(i1 % m == (i1 * (v * i2)) % m);
    assert(i1 * (v * i2) == (v * i1) * i2) by (nonlinear_arith);
    lemma_mul_mod_noop_left(v * i1, i2, m);
    assert(1 * i2 == i2);
    assert((i1 * (v * i2)) % m == i2 % m);
}

/// Any witness of an inverse of `v` modulo `m` is the value `inverse_of` picks.
pub proof fn lemma_inverse_of_is(v: int, m: int, i: int)
    requires
        m > 1,
        0 <= i < m,
        (v * i) % m == 1,
    ensures
        has_inverse(v, m),
        inverse_of(v, m) == i,
{
    assert(has_inverse(v, m));
    let j: int = inverse_of(v, m);
    assert(0 <= j < m && (v * j) % m == 1);
    lemma_inverse_unique(v, m, i, j);
}

/// A non-zero residue modulo a prime is coprime with it.
pub proof fn lemma_prime_coprime(v: int, m: int)
    requires
        is_prime(m),
        1 <= v < m,
    ensures
        gcd(v as nat, m as nat) == 1,
{
    lemma_gcd_divides(v as nat, m as nat);
    let g: int = gcd(v as nat, m as nat) as int;
    lemma_fundamental_div_mod(v, g);
    let k: int = v / g;
    assert(g <= v) by (nonlinear_arith)
        requires
            g > 0,
            v >= 1,
            v == g * k,
    ;
    if g >= 2 {
        assert(m % g != 0);
        assert(false);
    }
}

/// Congruences are preserved by one step of the extended Euclidean algorithm.
proof fn lemma_euclid_step(vv: int, mm: int, a0: int, a1: int, b0: int, b1: int, qq: int)
    requires
        mm > 0,
        a0 % mm == (vv * b0) % mm,
        a1 % mm == (vv * b1) % mm,
    ensures
        (a0 - qq * a1) % mm == (vv * (b0 - qq * b1)) % mm,
{
    lemma_sub_mod_noop(a0, qq * a1, mm);
    lemma_mul_mod_noop_right(qq, a1, mm);
    lemma_mul_mod_noop_right(qq, vv * b1, mm);
    assert((qq * a1) % mm == (qq * (vv * b1)) % mm);
    assert(qq * (vv * b1) == vv * (qq * b1)) by (nonlinear_arith);
    lemma_sub_mod_noop(vv * b0, vv * (qq * b1), mm);
    assert(vv * (b0 - qq * b1) == vv * b0 - vv * (qq * b1)) by (nonlinear_arith);
}

/// Canonical residue: the unique value in `[0, m)` congruent to `v` modulo
/// `m`, also for negative `v`, where the host remainder would be negative.
pub fn modulus(v: &BigInt, m: &BigInt) -> (r: BigInt)
    requires
        big_value(*m) > 0,
    ensures
        big_value(r) == big_value(*v) % big_value(*m),
        0 <= big_value(r) < big_value(*m),
        big_value(r) % big_value(*m) == big_value(*v) % big_value(*m),
{
    let t = big_rem(v, m);
    let s = big_add(&t, m);
    let r = big_rem(&s, m);
    proof {
        let vv: int = big_value(*v);
        let mm: int = big_value(*m);
        let tt: int = big_value(t);
        lemma_mod_bound(vv, mm);
        if vv >= 0 {
            lemma_mod_twice(vv, mm);
            lemma_mod_multiples_vanish(1, tt, mm);
            assert(big_value(s) == mm * 1 + tt);
        } else {
            lemma_mod_bound(-vv, mm);
            lemma_fundamental_div_mod(-vv, mm);
            let k: int = (-vv) / mm;
            let w: int = (-vv) % mm;
            assert(big_value(s) == mm * (k + 1) + vv) by (nonlinear_arith)
                requires
                    -vv == mm * k + w,
                    big_value(s) == -w + mm,
            ;
            lemma_mod_multiples_vanish(k + 1, vv, mm);
        }
        lemma_mod_twice(vv, mm);
    }
    r
}

/// Modular multiplicative inverse of a residue `v` modulo `m`, by the
/// extended Euclidean algorithm. Returns `None` exactly when `v` and `m` are
/// not coprime (in particular for `v == 0`); for a prime `m` and a non-zero
/// residue the inverse therefore always exists.
pub fn mod_inverse(v: &BigInt, m: &BigInt) -> (r: Option<BigInt>)
    requires
        big_value(*m) > 1,
        0 <= big_value(*v) < big_value(*m),
    ensures
        match r {
            Some(inv) => {
                &&& 0 <= big_value(inv) < big_value(*m)
                &&& (big_value(*v) * big_value(inv)) % big_value(*m) == 1
                &&& gcd(big_value(*v) as nat, big_value(*m) as nat) == 1
            },
            None => gcd(big_value(*v) as nat, big_value(*m) as nat) != 1,
        },
        is_prime(big_value(*m)) && big_value(*v) != 0 ==> r is Some,
{
    let ghost vv: int = big_value(*v);
    let ghost mm: int = big_value(*m);
    let zero = big_from_u128(0);
    let one = big_from_u128(1);
    let mut r0 = big_clone(v);
    let mut r1 = big_clone(m);
    let mut s0 = big_from_u128(1);
    let mut s1 = big_from_u128(0);
    proof {
        lemma_mod_self_0(mm);
        lemma_small_mod(0nat, mm as nat);
        assert(vv * 1 == vv);
        assert(vv * 0 == 0);
    }
    while !big_eq(&r1, &zero)
        invariant
            big_value(*v) == vv,
            big_value(*m) == mm,
            mm > 1,
            big_value(zero) == 0,
            big_value(one) == 1,
            big_value(r0) >= 0,
            big_value(r1) >= 0,
            gcd(big_value(r0) as nat, big_value(r1) as nat) == gcd(vv as nat, mm as nat),
            big_value(r0) % mm == (vv * big_value(s0)) % mm,
            big_value(r1) % mm == (vv * big_value(s1)) % mm,
        decreases big_value(r1),
    {
        let quo = big_div(&r0, &r1);
        let t = big_mul(&quo, &r1);
        let r2 = big_sub(&r0, &t);
        let u = big_mul(&quo, &s1);
        let s2 = big_sub(&s0, &u);
        proof {
            let a0: int = big_value(r0);
            let a1: int = big_value(r1);
            let qq: int = big_value(quo);
            lemma_fundamental_div_mod(a0, a1);
            lemma_mod_bound(a0, a1);
            assert(qq * a1 == a1 * qq) by (nonlinear_arith);
            assert(big_value(r2) == a0 % a1);
            assert(gcd(a0 as nat, a1 as nat) == gcd(a1 as nat, (a0 % a1) as nat));
            lemma_euclid_step(vv, mm, a0, a1, big_value(s0), big_value(s1), qq);
        }
        r0 = r1;
        r1 = r2;
        s0 = s1;
        s1 = s2;
    }
    if big_eq(&r0, &one) {
        let inv = modulus(&s0, m);
        proof {
            assert(gcd(big_value(r0) as nat, 0nat) == big_value(r0) as nat);
            lemma_small_mod(1nat, mm as nat);
            assert((vv * big_value(s0)) % mm == 1);
            lemma_mul_mod_noop_right(vv, big_value(s0), mm);
        }
        Some(inv)
    } else {
        proof {
            assert(gcd(big_value(r0) as nat, 0nat) == big_value(r0) as nat);
            assert(gcd(vv as nat, mm as nat) != 1);
            if is_prime(mm) && vv != 0 {
                lemma_prime_coprime(vv, mm);
                assert(false);
            }
        }
        None
    }
}

} // verus!
