//! The quadratic extension of the Goldilocks field by a square root of seven.

use crate::felt;
use crate::felt::Felt;
use core::ops::{Add, Mul, Neg, Sub};
use vstd::arithmetic::power2::pow2;
use vstd::prelude::*;
use vstd::std_specs::cmp::{PartialEqSpec, PartialEqSpecImpl};
use vstd::std_specs::ops::{AddSpecImpl, MulSpecImpl, NegSpecImpl, SubSpecImpl};

verus! {

// THE RING
// ================================================================================================

/// An element `c0 + c1 * X` of the extension, with `X * X = 7`.
pub struct Quad {
    pub c0: int,
    pub c1: int,
}

/// The element with the given coefficients, each reduced.
pub open spec fn quad(c0: int, c1: int) -> Quad {
    Quad { c0: felt::reduced(c0), c1: felt::reduced(c1) }
}

/// An element of the base field.
pub open spec fn base(x: int) -> Quad {
    quad(x, 0)
}

impl Quad {
    /// Whether both coefficients are canonical representatives.
    pub open spec fn wf(self) -> bool {
        0 <= self.c0 < felt::order() && 0 <= self.c1 < felt::order()
    }

    pub open spec fn plus(self, other: Quad) -> Quad {
        quad(self.c0 + other.c0, self.c1 + other.c1)
    }

    pub open spec fn minus(self, other: Quad) -> Quad {
        quad(self.c0 - other.c0, self.c1 - other.c1)
    }

    pub open spec fn negated(self) -> Quad {
        quad(-self.c0, -self.c1)
    }

    pub open spec fn times(self, other: Quad) -> Quad {
        quad(
            self.c0 * other.c0 + 7 * (self.c1 * other.c1),
            self.c0 * other.c1 + self.c1 * other.c0,
        )
    }
}

/// Results are elements of the extension.
pub proof fn lemma_wf(a: Quad, b: Quad)
    ensures
        a.plus(b).wf(),
        a.minus(b).wf(),
        a.times(b).wf(),
        a.negated().wf(),
{
}

/// An element is given by its coefficients.
pub proof fn lemma_quad(a: Quad)
    requires
        a.wf(),
    ensures
        a == quad(a.c0, a.c1),
{
    vstd::arithmetic::div_mod::lemma_small_mod(a.c0 as nat, felt::order() as nat);
    vstd::arithmetic::div_mod::lemma_small_mod(a.c1 as nat, felt::order() as nat);
}

/// Coefficients may be reduced at any point.
pub proof fn lemma_lift(a0: int, a1: int, b0: int, b1: int)
    ensures
        quad(a0, a1).plus(quad(b0, b1)) == quad(a0 + b0, a1 + b1),
        quad(a0, a1).minus(quad(b0, b1)) == quad(a0 - b0, a1 - b1),
        quad(a0, a1).negated() == quad(-a0, -a1),
        quad(a0, a1).times(quad(b0, b1)) == quad(a0 * b0 + 7 * (a1 * b1), a0 * b1 + a1 * b0),
{
    let (r0, r1): (int, int) = (felt::reduced(a0), felt::reduced(a1));
    let (s0, s1): (int, int) = (felt::reduced(b0), felt::reduced(b1));
    felt::lemma_reduce_operands(a0, b0);
    felt::lemma_reduce_operands(a1, b1);
    felt::lemma_reduce_operands(a0, b1);
    felt::lemma_reduce_operands(a1, b0);
    felt::lemma_reduce_operands(0, a0);
    felt::lemma_reduce_operands(0, a1);
    felt::lemma_reduce_operands(7, r1 * s1);
    felt::lemma_reduce_operands(7, a1 * b1);
    felt::lemma_reduce_operands(r0 * s0, 7 * (r1 * s1));
    felt::lemma_reduce_operands(a0 * b0, 7 * (a1 * b1));
    felt::lemma_reduce_operands(r0 * s1, r1 * s0);
    felt::lemma_reduce_operands(a0 * b1, a1 * b0);
}

/// Addition is commutative and associative, with zero as its neutral element.
pub proof fn lemma_add(a: Quad, b: Quad, c: Quad)
    requires
        a.wf(),
        b.wf(),
        c.wf(),
    ensures
        a.plus(b) == b.plus(a),
        a.plus(b).plus(c) == a.plus(b.plus(c)),
        a.plus(base(0)) == a,
        base(0).plus(a) == a,
{
    lemma_quad(a);
    lemma_quad(b);
    lemma_quad(c);
    lemma_lift(a.c0 + b.c0, a.c1 + b.c1, c.c0, c.c1);
    lemma_lift(a.c0, a.c1, b.c0 + c.c0, b.c1 + c.c1);
    lemma_lift(a.c0, a.c1, 0, 0);
    lemma_lift(0, 0, a.c0, a.c1);
}

/// Subtraction undoes addition.
pub proof fn lemma_sub(a: Quad, b: Quad)
    requires
        a.wf(),
        b.wf(),
    ensures
        a.minus(b) == a.plus(b.negated()),
        a.plus(b.negated()).plus(b) == a,
        a.minus(b).plus(b) == a,
        a.plus(b).minus(b) == a,
        a.minus(a) == base(0),
        a.plus(a.negated()) == base(0),
        a.negated().negated() == a,
{
    lemma_quad(a);
    lemma_quad(b);
    lemma_lift(b.c0, b.c1, 0, 0);
    lemma_lift(a.c0, a.c1, 0, 0);
    lemma_lift(-a.c0, -a.c1, 0, 0);
    lemma_lift(a.c0, a.c1, -b.c0, -b.c1);
    lemma_lift(a.c0, a.c1, -a.c0, -a.c1);
    lemma_lift(a.c0 - b.c0, a.c1 - b.c1, b.c0, b.c1);
    lemma_lift(a.c0 + b.c0, a.c1 + b.c1, b.c0, b.c1);
}

/// Multiplication is commutative, with one as its neutral element.
pub proof fn lemma_mul(a: Quad, b: Quad)
    requires
        a.wf(),
        b.wf(),
    ensures
        a.times(b) == b.times(a),
        a.times(base(1)) == a,
        base(1).times(a) == a,
        a.times(base(0)) == base(0),
        base(0).times(a) == base(0),
        a.negated().times(b) == a.times(b).negated(),
        a.times(b.negated()) == a.times(b).negated(),
{
    lemma_quad(a);
    lemma_quad(b);
    lemma_lift(a.c0, a.c1, 1, 0);
    lemma_lift(1, 0, a.c0, a.c1);
    lemma_lift(a.c0, a.c1, 0, 0);
    lemma_lift(0, 0, a.c0, a.c1);
    let (a0, a1): (int, int) = (a.c0, a.c1);
    let (b0, b1): (int, int) = (b.c0, b.c1);
    assert(a0 * b0 == b0 * a0) by (nonlinear_arith);
    assert(a1 * b1 == b1 * a1) by (nonlinear_arith);
    assert(a0 * b1 == b1 * a0) by (nonlinear_arith);
    assert(a1 * b0 == b0 * a1) by (nonlinear_arith);
    lemma_lift(-a0, -a1, b0, b1);
    lemma_lift(a0, a1, -b0, -b1);
    lemma_lift(b0, b1, 0, 0);
    lemma_lift(a0 * b0 + 7 * (a1 * b1), a0 * b1 + a1 * b0, 0, 0);
    assert((-a0) * b0 == -(a0 * b0)) by (nonlinear_arith);
    assert((-a1) * b1 == -(a1 * b1)) by (nonlinear_arith);
    assert((-a0) * b1 == -(a0 * b1)) by (nonlinear_arith);
    assert((-a1) * b0 == -(a1 * b0)) by (nonlinear_arith);
    assert(a0 * (-b0) == -(a0 * b0)) by (nonlinear_arith);
    assert(a1 * (-b1) == -(a1 * b1)) by (nonlinear_arith);
    assert(a0 * (-b1) == -(a0 * b1)) by (nonlinear_arith);
    assert(a1 * (-b0) == -(a1 * b0)) by (nonlinear_arith);
}

/// Multiplication is associative.
pub proof fn lemma_mul_assoc(a: Quad, b: Quad, c: Quad)
    requires
        a.wf(),
        b.wf(),
        c.wf(),
    ensures
        a.times(b).times(c) == a.times(b.times(c)),
{
    lemma_quad(a);
    lemma_quad(c);
    let (a0, a1): (int, int) = (a.c0, a.c1);
    let (b0, b1): (int, int) = (b.c0, b.c1);
    let (c0, c1): (int, int) = (c.c0, c.c1);
    lemma_lift(a0 * b0 + 7 * (a1 * b1), a0 * b1 + a1 * b0, c0, c1);
    lemma_lift(a0, a1, b0 * c0 + 7 * (b1 * c1), b0 * c1 + b1 * c0);
    lemma_products(a0, b0, a1, b1, c0);
    lemma_products(a0, b0, a1, b1, c1);
    lemma_products(a0, b1, a1, b0, c0);
    lemma_products(a0, b1, a1, b0, c1);
    lemma_factors(a0, b0, c0, b1, c1);
    lemma_factors(a0, b0, c1, b1, c0);
    lemma_factors(a1, b0, c0, b1, c1);
    lemma_factors(a1, b0, c1, b1, c0);
}

/// A sum of two products, times a factor.
proof fn lemma_products(x: int, y: int, u: int, v: int, f: int)
    ensures
        (x * y + 7 * (u * v)) * f == x * (y * f) + 7 * (u * (v * f)),
        (x * y + u * v) * f == x * (y * f) + u * (v * f),
{
    assert((x * y) * f == x * (y * f)) by (nonlinear_arith);
    assert((u * v) * f == u * (v * f)) by (nonlinear_arith);
    let p: int = x * y;
    let q: int = u * v;
    assert((p + 7 * q) * f == p * f + 7 * (q * f)) by (nonlinear_arith);
    assert((p + q) * f == p * f + q * f) by (nonlinear_arith);
}

/// A factor times a sum of two products.
proof fn lemma_factors(f: int, x: int, y: int, u: int, v: int)
    ensures
        f * (x * y + 7 * (u * v)) == f * (x * y) + 7 * (f * (u * v)),
        f * (x * y + u * v) == f * (x * y) + f * (u * v),
{
    let p: int = x * y;
    let q: int = u * v;
    assert(f * (p + 7 * q) == f * p + 7 * (f * q)) by (nonlinear_arith);
    assert(f * (p + q) == f * p + f * q) by (nonlinear_arith);
}

/// Multiplication distributes over addition and subtraction.
pub proof fn lemma_distribute(a: Quad, b: Quad, c: Quad)
    requires
        a.wf(),
        b.wf(),
        c.wf(),
    ensures
        a.times(b.plus(c)) == a.times(b).plus(a.times(c)),
        b.plus(c).times(a) == b.times(a).plus(c.times(a)),
        a.times(b.minus(c)) == a.times(b).minus(a.times(c)),
        b.minus(c).times(a) == b.times(a).minus(c.times(a)),
{
    lemma_quad(a);
    let (a0, a1): (int, int) = (a.c0, a.c1);
    let (b0, b1): (int, int) = (b.c0, b.c1);
    let (c0, c1): (int, int) = (c.c0, c.c1);
    lemma_lift(a0, a1, b0 + c0, b1 + c1);
    lemma_lift(a0, a1, b0 - c0, b1 - c1);
    lemma_lift(
        a0 * b0 + 7 * (a1 * b1),
        a0 * b1 + a1 * b0,
        a0 * c0 + 7 * (a1 * c1),
        a0 * c1 + a1 * c0,
    );
    assert(a0 * (b0 + c0) == a0 * b0 + a0 * c0) by (nonlinear_arith);
    assert(a1 * (b1 + c1) == a1 * b1 + a1 * c1) by (nonlinear_arith);
    assert(a0 * (b1 + c1) == a0 * b1 + a0 * c1) by (nonlinear_arith);
    assert(a1 * (b0 + c0) == a1 * b0 + a1 * c0) by (nonlinear_arith);
    assert(a0 * (b0 - c0) == a0 * b0 - a0 * c0) by (nonlinear_arith);
    assert(a1 * (b1 - c1) == a1 * b1 - a1 * c1) by (nonlinear_arith);
    assert(a0 * (b1 - c1) == a0 * b1 - a0 * c1) by (nonlinear_arith);
    assert(a1 * (b0 - c0) == a1 * b0 - a1 * c0) by (nonlinear_arith);
    lemma_mul(a, b);
    lemma_mul(a, c);
    lemma_mul(a, b.plus(c));
    lemma_mul(a, b.minus(c));
}

/// Arithmetic in the base field is arithmetic in the extension.
pub proof fn lemma_base(a: int, b: int)
    ensures
        base(a).plus(base(b)) == base(a + b),
        base(a).minus(base(b)) == base(a - b),
        base(a).times(base(b)) == base(a * b),
        base(a).negated() == base(-a),
        base(felt::reduced(a)) == base(a),
        base(a).wf(),
{
    lemma_lift(a, 0, b, 0);
    felt::lemma_reduce_operands(a, b);
}

/// An element squared the given number of times.
pub open spec fn squared(a: Quad, times: nat) -> Quad
    decreases times,
{
    if times == 0 {
        a
    } else {
        squared(a.times(a), (times - 1) as nat)
    }
}

/// Two to the given power.
pub open spec fn two_power(n: nat) -> Quad
    decreases n,
{
    if n == 0 {
        base(1)
    } else {
        base(2).times(two_power((n - 1) as nat))
    }
}

/// Squares and powers of two are elements of the extension.
pub proof fn lemma_powers_wf(a: Quad, n: nat)
    requires
        a.wf(),
    ensures
        squared(a, n).wf(),
        two_power(n).wf(),
    decreases n,
{
    if n > 0 {
        lemma_powers_wf(a.times(a), (n - 1) as nat);
    }
}

/// Squaring once more multiplies the result with itself.
pub proof fn lemma_squared_step(a: Quad, n: nat)
    ensures
        squared(a, n + 1) == squared(a, n).times(squared(a, n)),
    decreases n,
{
    if n == 0 {
        assert(squared(a.times(a), 0) == a.times(a));
    } else {
        lemma_squared_step(a.times(a), (n - 1) as nat);
    }
}

// ELEMENTS
// ================================================================================================

/// An element of the quadratic extension.
#[derive(Clone, Copy, Debug)]
pub struct QuadFelt {
    /// The coefficient in the base field.
    pub c0: Felt,
    /// The coefficient of the square root of seven.
    pub c1: Felt,
}

impl View for QuadFelt {
    type V = Quad;

    open spec fn view(&self) -> Quad {
        Quad { c0: self.c0@, c1: self.c1@ }
    }
}

/// The element whose coefficients are canonical and congruent to the given ones.
pub open spec fn quad_felt(q: Quad) -> QuadFelt {
    QuadFelt { c0: felt::felt(q.c0), c1: felt::felt(q.c1) }
}

/// The element with given coefficients has them.
pub proof fn lemma_quad_felt(q: Quad)
    requires
        q.wf(),
    ensures
        quad_felt(q)@ == q,
{
    lemma_quad(q);
}

impl QuadFelt {
    /// The element with the given coefficients.
    pub fn new(c0: Felt, c1: Felt) -> (r: QuadFelt)
        ensures
            r.c0 == c0,
            r.c1 == c1,
            r@ == (Quad { c0: c0@, c1: c1@ }),
    {
        QuadFelt { c0, c1 }
    }

    /// The additive identity.
    pub fn zero() -> (r: QuadFelt)
        ensures
            r == quad_felt(base(0)),
            r@ == base(0),
    {
        QuadFelt { c0: Felt::zero(), c1: Felt::zero() }
    }

    /// The multiplicative identity.
    pub fn one() -> (r: QuadFelt)
        ensures
            r == quad_felt(base(1)),
            r@ == base(1),
    {
        QuadFelt { c0: Felt::one(), c1: Felt::zero() }
    }

    /// An element of the base field.
    pub fn from_base(x: Felt) -> (r: QuadFelt)
        ensures
            r@ == base(x@),
    {
        proof {
            felt::lemma_reduce_operands(x.value as int, 0);
        }
        QuadFelt { c0: x, c1: Felt::zero() }
    }

    /// The product of this element with itself.
    pub fn square(&self) -> (r: QuadFelt)
        ensures
            r@ == self@.times(self@),
            r == quad_felt(self@.times(self@)),
    {
        *self * *self
    }

    /// This element squared the given number of times.
    pub fn exp_power_of_2(&self, power_log: usize) -> (r: QuadFelt)
        ensures
            r@ == squared(self@, power_log as nat),
    {
        let mut r: QuadFelt = *self;
        for i in 0..power_log
            invariant
                squared(r@, (power_log - i) as nat) == squared(self@, power_log as nat),
        {
            r = r.square();
        }
        r
    }

    /// The element that gives `self` when it is added to itself.
    pub fn halve(&self) -> (r: QuadFelt)
        ensures
            r@.plus(r@) == self@,
            base(2).times(r@) == self@,
    {
        let r: QuadFelt = QuadFelt { c0: self.c0.halve(), c1: self.c1.halve() };
        proof {
            let (x, y): (int, int) = (r.c0@, r.c1@);
            lemma_quad(r@);
            lemma_lift(2, 0, x, y);
            assert(2 * x + 7 * (0 * y) == x + x);
            assert(2 * y + 0 * x == y + y);
        }
        r
    }

    /// This element divided by two to the given power.
    pub fn div_2exp(&self, exponent: usize) -> (r: QuadFelt)
        ensures
            two_power(exponent as nat).times(r@) == self@,
    {
        let mut r: QuadFelt = *self;
        proof {
            lemma_mul(r@, r@);
        }
        for i in 0..exponent
            invariant
                two_power(i as nat).times(r@) == self@,
        {
            let half: QuadFelt = r.halve();
            proof {
                lemma_powers_wf(r@, i as nat);
                lemma_base(2, 0);
                lemma_mul(base(2), two_power(i as nat));
                lemma_mul_assoc(two_power(i as nat), base(2), half@);
            }
            r = half;
        }
        r
    }

    /// Whether this is the additive identity.
    pub fn is_zero(&self) -> (r: bool)
        ensures
            r == (self@ == base(0)),
    {
        self.c0.is_zero() && self.c1.is_zero()
    }
}

impl Default for QuadFelt {
    /// The additive identity.
    fn default() -> (r: QuadFelt)
        ensures
            r == quad_felt(base(0)),
            r@ == base(0),
    {
        QuadFelt::zero()
    }
}

impl PartialEqSpecImpl for QuadFelt {
    open spec fn obeys_eq_spec() -> bool {
        true
    }

    open spec fn eq_spec(&self, other: &QuadFelt) -> bool {
        self@ == other@
    }
}

impl PartialEq for QuadFelt {
    fn eq(&self, other: &QuadFelt) -> (r: bool) {
        self.c0 == other.c0 && self.c1 == other.c1
    }
}

impl Eq for QuadFelt {

}

impl AddSpecImpl for QuadFelt {
    open spec fn obeys_add_spec() -> bool {
        true
    }

    open spec fn add_req(self, rhs: QuadFelt) -> bool {
        true
    }

    open spec fn add_spec(self, rhs: QuadFelt) -> QuadFelt {
        quad_felt(self@.plus(rhs@))
    }
}

impl Add for QuadFelt {
    type Output = QuadFelt;

    fn add(self, rhs: QuadFelt) -> (r: QuadFelt)
        ensures
            r@ == self@.plus(rhs@),
    {
        proof {
            felt::lemma_reduce_operands(self.c0@ + rhs.c0@, 0);
            felt::lemma_reduce_operands(self.c1@ + rhs.c1@, 0);
        }
        QuadFelt { c0: self.c0 + rhs.c0, c1: self.c1 + rhs.c1 }
    }
}

impl SubSpecImpl for QuadFelt {
    open spec fn obeys_sub_spec() -> bool {
        true
    }

    open spec fn sub_req(self, rhs: QuadFelt) -> bool {
        true
    }

    open spec fn sub_spec(self, rhs: QuadFelt) -> QuadFelt {
        quad_felt(self@.minus(rhs@))
    }
}

impl Sub for QuadFelt {
    type Output = QuadFelt;

    fn sub(self, rhs: QuadFelt) -> (r: QuadFelt)
        ensures
            r@ == self@.minus(rhs@),
    {
        proof {
            felt::lemma_reduce_operands(self.c0@ - rhs.c0@, 0);
            felt::lemma_reduce_operands(self.c1@ - rhs.c1@, 0);
        }
        QuadFelt { c0: self.c0 - rhs.c0, c1: self.c1 - rhs.c1 }
    }
}

impl SubSpecImpl<Felt> for QuadFelt {
    open spec fn obeys_sub_spec() -> bool {
        true
    }

    open spec fn sub_req(self, rhs: Felt) -> bool {
        true
    }

    open spec fn sub_spec(self, rhs: Felt) -> QuadFelt {
        quad_felt(self@.minus(base(rhs@)))
    }
}

impl Sub<Felt> for QuadFelt {
    type Output = QuadFelt;

    fn sub(self, rhs: Felt) -> (r: QuadFelt)
        ensures
            r@ == self@.minus(base(rhs@)),
    {
        self - QuadFelt::from_base(rhs)
    }
}

impl NegSpecImpl for QuadFelt {
    open spec fn obeys_neg_spec() -> bool {
        true
    }

    open spec fn neg_req(self) -> bool {
        true
    }

    open spec fn neg_spec(self) -> QuadFelt {
        quad_felt(self@.negated())
    }
}

impl Neg for QuadFelt {
    type Output = QuadFelt;

    fn neg(self) -> (r: QuadFelt)
        ensures
            r@ == self@.negated(),
    {
        proof {
            felt::lemma_reduce_operands(-self.c0@, 0);
            felt::lemma_reduce_operands(-self.c1@, 0);
        }
        QuadFelt { c0: self.c0.neg(), c1: self.c1.neg() }
    }
}

impl MulSpecImpl for QuadFelt {
    open spec fn obeys_mul_spec() -> bool {
        true
    }

    open spec fn mul_req(self, rhs: QuadFelt) -> bool {
        true
    }

    open spec fn mul_spec(self, rhs: QuadFelt) -> QuadFelt {
        quad_felt(self@.times(rhs@))
    }
}

impl Mul for QuadFelt {
    type Output = QuadFelt;

    fn mul(self, rhs: QuadFelt) -> (r: QuadFelt)
        ensures
            r@ == self@.times(rhs@),
    {
        proof {
            let (a0, a1): (int, int) = (self.c0@, self.c1@);
            let (b0, b1): (int, int) = (rhs.c0@, rhs.c1@);
            felt::lemma_reduce_operands(7, a1 * b1);
            felt::lemma_reduce_operands(a0 * b0, 7 * (a1 * b1));
            felt::lemma_reduce_operands(a0 * b1, a1 * b0);
            felt::lemma_reduce_operands(a0 * b0 + 7 * (a1 * b1), 0);
            felt::lemma_reduce_operands(a0 * b1 + a1 * b0, 0);
        }
        QuadFelt {
            c0: self.c0 * rhs.c0 + Felt::new(7) * (self.c1 * rhs.c1),
            c1: self.c0 * rhs.c1 + self.c1 * rhs.c0,
        }
    }
}

impl MulSpecImpl<Felt> for QuadFelt {
    open spec fn obeys_mul_spec() -> bool {
        true
    }

    open spec fn mul_req(self, rhs: Felt) -> bool {
        true
    }

    open spec fn mul_spec(self, rhs: Felt) -> QuadFelt {
        quad_felt(self@.times(base(rhs@)))
    }
}

impl Mul<Felt> for QuadFelt {
    type Output = QuadFelt;

    fn mul(self, rhs: Felt) -> (r: QuadFelt)
        ensures
            r@ == self@.times(base(rhs@)),
    {
        self * QuadFelt::from_base(rhs)
    }
}

// LAWS
// ================================================================================================

/// Elements of the extension are computed with as polynomials in `X` whose coefficients are reduced
/// modulo `2^64 - 2^32 + 1`, with `X * X = 7`.
pub proof fn law_extension(a: Quad, b: Quad, x: int, y: int)
    ensures
        a.plus(b).c0 == (a.c0 + b.c0) % 0xFFFF_FFFF_0000_0001,
        a.plus(b).c1 == (a.c1 + b.c1) % 0xFFFF_FFFF_0000_0001,
        a.minus(b).c0 == (a.c0 - b.c0) % 0xFFFF_FFFF_0000_0001,
        a.minus(b).c1 == (a.c1 - b.c1) % 0xFFFF_FFFF_0000_0001,
        a.negated().c0 == (-a.c0) % 0xFFFF_FFFF_0000_0001,
        a.negated().c1 == (-a.c1) % 0xFFFF_FFFF_0000_0001,
        a.times(b).c0 == (a.c0 * b.c0 + 7 * (a.c1 * b.c1)) % 0xFFFF_FFFF_0000_0001,
        a.times(b).c1 == (a.c0 * b.c1 + a.c1 * b.c0) % 0xFFFF_FFFF_0000_0001,
        quad(x, y).c0 == x % 0xFFFF_FFFF_0000_0001,
        quad(x, y).c1 == y % 0xFFFF_FFFF_0000_0001,
        base(x).c0 == x % 0xFFFF_FFFF_0000_0001,
        base(x).c1 == 0,
        a.wf() <==> 0 <= a.c0 <= 0xFFFF_FFFF_0000_0000 && 0 <= a.c1 <= 0xFFFF_FFFF_0000_0000,
{
}

/// The coefficients of an element are those that its representatives stand for, and elements are
/// the same where both coefficients are.
pub proof fn law_coefficients(a: QuadFelt, b: QuadFelt, q: Quad)
    ensures
        a@.c0 == a.c0.value as int % 0xFFFF_FFFF_0000_0001,
        a@.c1 == a.c1.value as int % 0xFFFF_FFFF_0000_0001,
        PartialEqSpec::eq_spec(&a, &b) <==> (a.c0.value - b.c0.value) % 0xFFFF_FFFF_0000_0001 == 0
            && (a.c1.value - b.c1.value) % 0xFFFF_FFFF_0000_0001 == 0,
        quad_felt(q).c0.value as int == q.c0 % 0xFFFF_FFFF_0000_0001,
        quad_felt(q).c1.value as int == q.c1 % 0xFFFF_FFFF_0000_0001,
{
}

/// Squaring no times changes nothing, and squaring once more multiplies the result with itself.
pub proof fn law_squared(a: Quad, n: nat)
    ensures
        squared(a, 0) == a,
        squared(a, n + 1) == squared(a, n).times(squared(a, n)),
{
    lemma_squared_step(a, n);
}

/// Two to a power in the extension is the element of the integer power.
pub proof fn law_two_power(n: nat)
    ensures
        two_power(n).c0 == pow2(n) as int % 0xFFFF_FFFF_0000_0001,
        two_power(n).c1 == 0,
        two_power(n) == base(pow2(n) as int),
    decreases n,
{
    vstd::arithmetic::power2::lemma2_to64();
    if n > 0 {
        let m: nat = (n - 1) as nat;
        law_two_power(m);
        vstd::arithmetic::power2::lemma_pow2_unfold(n);
        lemma_base(2, pow2(m) as int);
    }
}

} // verus!
