//! The Baby Jubjub curve engine: twisted Edwards point addition and
//! double-and-add scalar multiplication over the fixed 254-bit prime field.

use vstd::prelude::*;
use vstd::arithmetic::div_mod::{lemma_mod_bound, lemma_small_mod};
use crate::bigint::{
    big_add, big_clone, big_div, big_eq, big_from_u128, big_lt, big_mul, big_rem, big_sub,
    big_value,
};
use crate::field::{
    has_inverse, inverse_of, lemma_inverse_of_is, lemma_no_inverse_when_not_coprime, mod_inverse,
    modulus,
};
use num_bigint::BigInt;

verus! {

/// An affine point on the curve; the additive identity is `(0, 1)`.
pub struct Point {
    pub x: BigInt,
    pub y: BigInt,
}

impl View for Point {
    type V = (int, int);

    open spec fn view(&self) -> (int, int) {
        (big_value(self.x), big_value(self.y))
    }
}

impl Clone for Point {
    fn clone(&self) -> (r: Point)
        ensures
            r@ == self@,
    {
        Point { x: big_clone(&self.x), y: big_clone(&self.y) }
    }
}

/// Failures of the curve operations.
#[derive(Clone, Copy, PartialEq, Eq, Debug)]
pub enum CurveError {
    /// A denominator of the addition law reduced to a residue without a
    /// multiplicative inverse; valid points on this curve never produce it.
    NoInverseExists,
    /// A negative scalar was passed to scalar multiplication.
    InvalidScalar,
}

/// Numerator of the x-coordinate of the twisted Edwards sum.
pub open spec fn x_numerator(p1: (int, int), p2: (int, int)) -> int {
    p1.0 * p2.1 + p1.1 * p2.0
}

/// Denominator of the x-coordinate of the twisted Edwards sum.
pub open spec fn x_denominator(d: int, p1: (int, int), p2: (int, int)) -> int {
    1 + d * p1.0 * p2.0 * p1.1 * p2.1
}

/// Numerator of the y-coordinate of the twisted Edwards sum.
pub open spec fn y_numerator(a: int, p1: (int, int), p2: (int, int)) -> int {
    p1.1 * p2.1 - a * p1.0 * p2.0
}

/// Denominator of the y-coordinate of the twisted Edwards sum.
pub open spec fn y_denominator(d: int, p1: (int, int), p2: (int, int)) -> int {
    1 - d * p1.0 * p2.0 * p1.1 * p2.1
}

/// The twisted Edwards addition law over the field of `q`: both denominators
/// are reduced into `[0, q)` and inverted there; `None` when either reduced
/// denominator has no inverse.
pub open spec fn spec_add(a: int, d: int, q: int, p1: (int, int), p2: (int, int)) -> Option<
    (int, int),
> {
    let xd = x_denominator(d, p1, p2) % q;
    let yd = y_denominator(d, p1, p2) % q;
    if has_inverse(xd, q) && has_inverse(yd, q) {
        Some(
            (
                (x_numerator(p1, p2) * inverse_of(xd, q)) % q,
                (y_numerator(a, p1, p2) * inverse_of(yd, q)) % q,
            ),
        )
    } else {
        None
    }
}

/// One double-and-add pass over the low bits of `n`, exactly as the
/// multiplication loop walks them: on an odd bit the base is added to the
/// accumulator, then the base is doubled unconditionally and the scalar is
/// halved. `None` as soon as any of those additions fails.
pub open spec fn spec_mul_acc(
    a: int,
    d: int,
    q: int,
    acc: (int, int),
    base: (int, int),
    n: nat,
) -> Option<(int, int)>
    decreases n,
{
    if n == 0 {
        Some(acc)
    } else {
        let acc1 = if n % 2 == 1 {
            spec_add(a, d, q, acc, base)
        } else {
            Some(acc)
        };
        match acc1 {
            None => None,
            Some(acc2) => match spec_add(a, d, q, base, base) {
                None => None,
                Some(base2) => spec_mul_acc(a, d, q, acc2, base2, n / 2),
            },
        }
    }
}

/// Scalar multiplication `n * p` as the double-and-add loop computes it,
/// starting from the identity `(0, 1)`.
pub open spec fn spec_mul(a: int, d: int, q: int, p: (int, int), n: nat) -> Option<(int, int)> {
    spec_mul_acc(a, d, q, (0int, 1int), p, n)
}

/// A successful twisted Edwards sum has both coordinates in `[0, q)`.
pub proof fn lemma_add_range(a: int, d: int, q: int, p1: (int, int), p2: (int, int))
    requires
        q > 0,
        spec_add(a, d, q, p1, p2) is Some,
    ensures
        0 <= spec_add(a, d, q, p1, p2)->Some_0.0 < q,
        0 <= spec_add(a, d, q, p1, p2)->Some_0.1 < q,
{
    lemma_mod_bound(x_numerator(p1, p2) * inverse_of(x_denominator(d, p1, p2) % q, q), q);
    lemma_mod_bound(y_numerator(a, p1, p2) * inverse_of(y_denominator(d, p1, p2) % q, q), q);
}

/// Identity law: adding the identity `(0, 1)` on either side returns the
/// point unchanged, for any point with canonical coordinates.
pub proof fn lemma_add_identity(a: int, d: int, q: int, p: (int, int))
    requires
        q > 1,
        0 <= p.0 < q,
        0 <= p.1 < q,
    ensures
        spec_add(a, d, q, (0int, 1int), p) == Some(p),
        spec_add(a, d, q, p, (0int, 1int)) == Some(p),
{
    lemma_small_mod(1nat, q as nat);
    assert(1int * 1int == 1) by (nonlinear_arith);
    assert((1int * 1int) % q == 1);
    lemma_inverse_of_is(1, q, 1);
    lemma_small_mod(p.0 as nat, q as nat);
    lemma_small_mod(p.1 as nat, q as nat);
    let x0: int = p.0;
    let y0: int = p.1;
    assert(0int * y0 + 1int * x0 == x0) by (nonlinear_arith);
    assert(x_numerator((0int, 1int), p) == x0);
    assert(1 + d * 0 * x0 * 1 * y0 == 1) by (nonlinear_arith);
    assert(x_denominator(d, (0int, 1int), p) == 1);
    assert(1int * y0 - a * 0 * x0 == y0) by (nonlinear_arith);
    assert(y_numerator(a, (0int, 1int), p) == y0);
    assert(1 - d * 0 * x0 * 1 * y0 == 1) by (nonlinear_arith);
    assert(y_denominator(d, (0int, 1int), p) == 1);
    assert(x0 * 1int + y0 * 0int == x0) by (nonlinear_arith);
    assert(x_numerator(p, (0int, 1int)) == x0);
    assert(1 + d * x0 * 0 * y0 * 1 == 1) by (nonlinear_arith);
    assert(x_denominator(d, p, (0int, 1int)) == 1);
    assert(y0 * 1int - a * x0 * 0 == y0) by (nonlinear_arith);
    assert(y_numerator(a, p, (0int, 1int)) == y0);
    assert(1 - d * x0 * 0 * y0 * 1 == 1) by (nonlinear_arith);
    assert(y_denominator(d, p, (0int, 1int)) == 1);
    assert(x0 * 1int == x0) by (nonlinear_arith);
    assert(y0 * 1int == y0) by (nonlinear_arith);
    assert((x0 * 1) % q == x0);
    assert((y0 * 1) % q == y0);
}

/// Commutativity: the addition law is symmetric in its two points.
pub proof fn lemma_add_commutes(a: int, d: int, q: int, p1: (int, int), p2: (int, int))
    ensures
        spec_add(a, d, q, p1, p2) == spec_add(a, d, q, p2, p1),
{
    assert(p1.0 * p2.1 + p1.1 * p2.0 == p2.0 * p1.1 + p2.1 * p1.0) by (nonlinear_arith);
    assert(x_numerator(p1, p2) == x_numerator(p2, p1));
    assert(d * p1.0 * p2.0 * p1.1 * p2.1 == d * p2.0 * p1.0 * p2.1 * p1.1) by (nonlinear_arith);
    assert(x_denominator(d, p1, p2) == x_denominator(d, p2, p1));
    assert(y_denominator(d, p1, p2) == y_denominator(d, p2, p1));
    assert(p1.1 * p2.1 == p2.1 * p1.1) by (nonlinear_arith);
    assert(a * p1.0 * p2.0 == a * p2.0 * p1.0) by (nonlinear_arith);
    assert(y_numerator(a, p1, p2) == y_numerator(a, p2, p1));
}

/// Zero scalar: multiplying any point by zero yields the identity.
pub proof fn lemma_mul_zero(a: int, d: int, q: int, p: (int, int))
    ensures
        spec_mul(a, d, q, p, 0) == Some((0int, 1int)),
{
}

/// Doubling consistency: multiplying by the scalar two agrees with adding
/// the point to itself, whenever the multiplication succeeds.
pub proof fn lemma_mul_two(a: int, d: int, q: int, p: (int, int))
    requires
        q > 1,
        spec_mul(a, d, q, p, 2) is Some,
    ensures
        spec_add(a, d, q, p, p) is Some,
        spec_mul(a, d, q, p, 2) == spec_add(a, d, q, p, p),
{
    if spec_add(a, d, q, p, p) is None {
        assert(spec_mul_acc(a, d, q, (0int, 1int), p, 2) is None);
        assert(false);
    }
    let dbl = spec_add(a, d, q, p, p)->Some_0;
    lemma_add_range(a, d, q, p, p);
    assert(spec_mul_acc(a, d, q, (0int, 1int), p, 2) == spec_mul_acc(a, d, q, (0int, 1int), dbl, 1));
    lemma_add_identity(a, d, q, dbl);
    if spec_add(a, d, q, dbl, dbl) is None {
        assert(spec_mul_acc(a, d, q, (0int, 1int), dbl, 1) is None);
        assert(false);
    }
    let dd = spec_add(a, d, q, dbl, dbl)->Some_0;
    assert(spec_mul_acc(a, d, q, (0int, 1int), dbl, 1) == spec_mul_acc(a, d, q, dbl, dd, 0));
    assert(spec_mul_acc(a, d, q, dbl, dd, 0) == Some(dbl));
}

/// Scalar-multiplication consistency: multiplying by the scalar three agrees
/// with adding the point's double and the point, whenever the multiplication
/// succeeds, for any point with canonical coordinates.
pub proof fn lemma_mul_three(a: int, d: int, q: int, p: (int, int))
    requires
        q > 1,
        0 <= p.0 < q,
        0 <= p.1 < q,
        spec_mul(a, d, q, p, 3) is Some,
    ensures
        spec_add(a, d, q, p, p) is Some,
        spec_mul(a, d, q, p, 3) == spec_add(a, d, q, spec_add(a, d, q, p, p)->Some_0, p),
{
    lemma_add_identity(a, d, q, p);
    if spec_add(a, d, q, p, p) is None {
        assert(spec_mul_acc(a, d, q, (0int, 1int), p, 3) is None);
        assert(false);
    }
    let dbl = spec_add(a, d, q, p, p)->Some_0;
    assert(spec_mul_acc(a, d, q, (0int, 1int), p, 3) == spec_mul_acc(a, d, q, p, dbl, 1));
    if spec_add(a, d, q, p, dbl) is None {
        assert(spec_mul_acc(a, d, q, p, dbl, 1) is None);
        assert(false);
    }
    let sum = spec_add(a, d, q, p, dbl)->Some_0;
    if spec_add(a, d, q, dbl, dbl) is None {
        assert(spec_mul_acc(a, d, q, p, dbl, 1) is None);
        assert(false);
    }
    let dd = spec_add(a, d, q, dbl, dbl)->Some_0;
    assert(spec_mul_acc(a, d, q, p, dbl, 1) == spec_mul_acc(a, d, q, sum, dd, 0));
    assert(spec_mul_acc(a, d, q, sum, dd, 0) == Some(sum));
    lemma_add_commutes(a, d, q, p, dbl);
}

/// The engine: the two curve coefficients and the field prime, fixed at
/// construction and never mutated.
pub struct Babyjubjub {
    d: BigInt,
    a: BigInt,
    q: BigInt,
}

impl Babyjubjub {
    /// The twisted Edwards coefficient `a`.
    pub closed spec fn a_value(&self) -> int {
        big_value(self.a)
    }

    /// The twisted Edwards coefficient `d`.
    pub closed spec fn d_value(&self) -> int {
        big_value(self.d)
    }

    /// The field prime `q`.
    pub closed spec fn q_value(&self) -> int {
        big_value(self.q)
    }

    /// What the operations rely on: a modulus large enough to reduce into.
    pub open spec fn wf(&self) -> bool {
        self.q_value() > 1
    }

    /// An engine bound to the Baby Jubjub constants.
    pub fn new() -> (r: Babyjubjub)
        ensures
            r.wf(),
            r.a_value() == 168700,
            r.d_value() == 168696,
            r.q_value()
                == 21888242871839275222246405745257275088548364400416034343698204186575808495617int,
    {
        let two64 = big_from_u128(18446744073709551616);
        let two128 = big_mul(&two64, &two64);
        let hi = big_from_u128(64323764613183177041862057485226039389);
        let lo = big_from_u128(53438638232309528389504892708671455233);
        let hi_shifted = big_mul(&hi, &two128);
        let q = big_add(&hi_shifted, &lo);
        let a = big_from_u128(168700);
        let d = big_from_u128(168696);
        Babyjubjub { d, a, q }
    }

    /// Twisted Edwards point addition; every coordinate of the sum is the
    /// canonical residue in `[0, q)`. Fails exactly when a reduced
    /// denominator of the addition law has no inverse modulo `q`.
    pub fn add(&self, p: &Point, q: &Point) -> (r: Result<Point, CurveError>)
        requires
            self.wf(),
        ensures
            match r {
                Ok(pt) => {
                    &&& spec_add(self.a_value(), self.d_value(), self.q_value(), p@, q@)
                        == Some(pt@)
                    &&& 0 <= pt@.0 < self.q_value()
                    &&& 0 <= pt@.1 < self.q_value()
                },
                Err(e) => {
                    &&& e == CurveError::NoInverseExists
                    &&& spec_add(self.a_value(), self.d_value(), self.q_value(), p@, q@) is None
                },
            },
    {
        let one = big_from_u128(1);
        let x_num = big_add(&big_mul(&p.x, &q.y), &big_mul(&p.y, &q.x));
        let dxy = big_mul(&big_mul(&big_mul(&big_mul(&self.d, &p.x), &q.x), &p.y), &q.y);
        let x_den = big_add(&one, &dxy);
        let xd_red = modulus(&x_den, &self.q);
        match mod_inverse(&xd_red, &self.q) {
            None => {
                proof {
                    lemma_no_inverse_when_not_coprime(big_value(xd_red), self.q_value());
                }
                Err(CurveError::NoInverseExists)
            },
            Some(x_inv) => {
                let y_num = big_sub(&big_mul(&p.y, &q.y), &big_mul(&big_mul(&self.a, &p.x), &q.x));
                let y_den = big_sub(&one, &dxy);
                let yd_red = modulus(&y_den, &self.q);
                match mod_inverse(&yd_red, &self.q) {
                    None => {
                        proof {
                            lemma_no_inverse_when_not_coprime(big_value(yd_red), self.q_value());
                        }
                        Err(CurveError::NoInverseExists)
                    },
                    Some(y_inv) => {
                        let rx = modulus(&big_mul(&x_num, &x_inv), &self.q);
                        let ry = modulus(&big_mul(&y_num, &y_inv), &self.q);
                        proof {
                            lemma_inverse_of_is(
                                big_value(xd_red),
                                self.q_value(),
                                big_value(x_inv),
                            );
                            lemma_inverse_of_is(
                                big_value(yd_red),
                                self.q_value(),
                                big_value(y_inv),
                            );
                        }
                        Ok(Point { x: rx, y: ry })
                    },
                }
            },
        }
    }

    /// Scalar multiplication by double-and-add over the scalar's bits, low
    /// bit first; the zero scalar yields the identity `(0, 1)` and a negative
    /// scalar is rejected.
    pub fn mul_scalar(&self, p: Point, n: BigInt) -> (r: Result<Point, CurveError>)
        requires
            self.wf(),
        ensures
            big_value(n) < 0 ==> (r matches Err(e) && e == CurveError::InvalidScalar),
            big_value(n) >= 0 ==> match r {
                Ok(pt) => spec_mul(
                    self.a_value(),
                    self.d_value(),
                    self.q_value(),
                    p@,
                    big_value(n) as nat,
                ) == Some(pt@),
                Err(e) => {
                    &&& e == CurveError::NoInverseExists
                    &&& spec_mul(
                        self.a_value(),
                        self.d_value(),
                        self.q_value(),
                        p@,
                        big_value(n) as nat,
                    ) is None
                },
            },
            big_value(n) == 0 ==> (r matches Ok(pt) && pt@ == (0int, 1int)),
    {
        let ghost av: int = self.a_value();
        let ghost dv: int = self.d_value();
        let ghost qv: int = self.q_value();
        let ghost p0: (int, int) = p@;
        let ghost n0: int = big_value(n);
        let zero = big_from_u128(0);
        if big_lt(&n, &zero) {
            return Err(CurveError::InvalidScalar);
        }
        let one = big_from_u128(1);
        let two = big_from_u128(2);
        let mut acc = Point { x: big_from_u128(0), y: big_from_u128(1) };
        let mut exp = p;
        let mut rem = n;
        while !big_eq(&rem, &zero)
            invariant
                self.wf(),
                av == self.a_value(),
                dv == self.d_value(),
                qv == self.q_value(),
                big_value(zero) == 0,
                big_value(one) == 1,
                big_value(two) == 2,
                n0 >= 0,
                n0 == big_value(n),
                p0 == p@,
                big_value(rem) >= 0,
                spec_mul_acc(av, dv, qv, acc@, exp@, big_value(rem) as nat) == spec_mul(
                    av,
                    dv,
                    qv,
                    p0,
                    n0 as nat,
                ),
            decreases big_value(rem),
        {
            let ghost rem0: int = big_value(rem);
            let ghost acc0: (int, int) = acc@;
            let ghost exp0: (int, int) = exp@;
            let parity = big_rem(&rem, &two);
            let odd = big_eq(&parity, &one);
            proof {
                lemma_mod_bound(rem0, 2);
            }
            if odd {
                match self.add(&acc, &exp) {
                    Ok(np) => {
                        acc = np;
                    },
                    Err(e) => {
                        proof {
                            assert(spec_mul_acc(av, dv, qv, acc0, exp0, rem0 as nat) is None);
                            if n0 == 0 {
                                assert(spec_mul_acc(av, dv, qv, (0int, 1int), p0, 0nat) == Some(
                                    (0int, 1int),
                                ));
                                assert(false);
                            }
                        }
                        return Err(e);
                    },
                }
            }
            match self.add(&exp, &exp) {
                Ok(ne) => {
                    exp = ne;
                },
                Err(e) => {
                    proof {
                        assert(spec_mul_acc(av, dv, qv, acc0, exp0, rem0 as nat) is None);
                        if n0 == 0 {
                            assert(spec_mul_acc(av, dv, qv, (0int, 1int), p0, 0nat) == Some(
                                (0int, 1int),
                            ));
                            assert(false);
                        }
                    }
                    return Err(e);
                },
            }
            let rem2 = big_div(&rem, &two);
            rem = rem2;
            proof {
                assert(rem0 / 2 < rem0) by (nonlinear_arith)
                    requires
                        rem0 > 0,
                ;
                assert(spec_mul_acc(av, dv, qv, acc@, exp@, (rem0 / 2) as nat) == spec_mul_acc(
                    av,
                    dv,
                    qv,
                    acc0,
                    exp0,
                    rem0 as nat,
                ));
            }
        }
        proof {
            assert(spec_mul_acc(av, dv, qv, acc@, exp@, 0nat) == Some(acc@));
            if n0 == 0 {
                assert(spec_mul_acc(av, dv, qv, (0int, 1int), p0, 0nat) == Some((0int, 1int)));
            }
        }
        Ok(acc)
    }
}

} // verus!
