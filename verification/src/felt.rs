//! Elements of the Goldilocks field, the integers modulo `2^64 - 2^32 + 1`.

use core::ops::{Add, Mul, Neg, Sub};
use vstd::prelude::*;
use vstd::std_specs::cmp::{PartialEqSpec, PartialEqSpecImpl};
use vstd::std_specs::ops::{
    AddSpec, AddSpecImpl, MulSpec, MulSpecImpl, NegSpec, NegSpecImpl, SubSpec, SubSpecImpl,
};

verus! {

/// The order of the field as an integer.
pub open spec fn order() -> int {
    0xFFFF_FFFF_0000_0001
}

/// The canonical representative of an integer modulo the order of the field.
pub open spec fn reduced(x: int) -> int {
    x % order()
}

/// Integers that differ by a multiple of the order are congruent.
pub proof fn lemma_congruent(a: int, b: int, k: int)
    requires
        a == b + k * order(),
    ensures
        reduced(a) == reduced(b),
{
    vstd::arithmetic::div_mod::lemma_mod_multiples_vanish(k, b, order());
    assert(order() * k + b == b + k * order()) by (nonlinear_arith);
}

/// Sums, differences and products may be reduced at any point.
pub proof fn lemma_reduce_operands(a: int, b: int)
    ensures
        reduced(reduced(a) + reduced(b)) == reduced(a + b),
        reduced(reduced(a) - reduced(b)) == reduced(a - b),
        reduced(reduced(a) * reduced(b)) == reduced(a * b),
        reduced(a + reduced(b)) == reduced(a + b),
        reduced(reduced(a) + b) == reduced(a + b),
        reduced(a - reduced(b)) == reduced(a - b),
        reduced(reduced(a) - b) == reduced(a - b),
        reduced(a * reduced(b)) == reduced(a * b),
        reduced(reduced(a) * b) == reduced(a * b),
        reduced(reduced(a)) == reduced(a),
        0 <= reduced(a) < order(),
{
    vstd::arithmetic::div_mod::lemma_add_mod_noop(a, b, order());
    vstd::arithmetic::div_mod::lemma_sub_mod_noop(a, b, order());
    vstd::arithmetic::div_mod::lemma_mul_mod_noop(a, b, order());
    vstd::arithmetic::div_mod::lemma_mul_mod_noop_right(a, b, order());
    vstd::arithmetic::div_mod::lemma_mul_mod_noop_left(a, b, order());
}

/// An element of the Goldilocks field.
///
/// Any `u64` represents the element that it is congruent to, so an element below `2^32 - 1` has
/// two representations. Equality and the view go by the canonical one.
#[derive(Clone, Copy, Debug)]
pub struct Felt {
    /// A representative of the element, not necessarily the canonical one.
    pub value: u64,
}

impl View for Felt {
    type V = int;

    /// The canonical representative, in `0..ORDER`.
    open spec fn view(&self) -> int {
        reduced(self.value as int)
    }
}

/// The field element whose canonical representative is congruent to `x`.
pub open spec fn felt(x: int) -> Felt {
    Felt { value: reduced(x) as u64 }
}

impl Felt {
    /// The order of the field, `2^64 - 2^32 + 1`.
    pub const ORDER: u64 = 0xFFFF_FFFF_0000_0001;

    /// The additive identity.
    pub fn zero() -> (r: Felt)
        ensures
            r == felt(0),
            r@ == 0,
    {
        Felt { value: 0 }
    }

    /// The multiplicative identity.
    pub fn one() -> (r: Felt)
        ensures
            r == felt(1),
            r@ == 1,
    {
        Felt { value: 1 }
    }

    /// The sum of the multiplicative identity with itself.
    pub fn two() -> (r: Felt)
        ensures
            r == felt(2),
            r@ == 2,
    {
        Felt { value: 2 }
    }

    /// The additive inverse of the multiplicative identity.
    pub fn neg_one() -> (r: Felt)
        ensures
            r == felt(-1),
            r@ == order() - 1,
    {
        Felt { value: 0xFFFF_FFFF_0000_0000 }
    }

    /// The field element that `value` is congruent to, in its canonical representation.
    pub fn new(value: u64) -> (r: Felt)
        ensures
            r == felt(value as int),
            r@ == reduced(value as int),
    {
        let r: Felt = Felt { value };
        Felt { value: r.as_canonical_u64() }
    }

    /// The field element that `value` represents, with `value` kept as its representation.
    pub fn new_unchecked(value: u64) -> (r: Felt)
        ensures
            r.value == value,
            r@ == reduced(value as int),
    {
        Felt { value }
    }

    /// The canonical representative of this element, which lies in `0..ORDER`.
    pub fn as_canonical_u64(&self) -> (r: u64)
        ensures
            r == self@,
            r < Self::ORDER,
    {
        if self.value >= Self::ORDER {
            self.value - Self::ORDER
        } else {
            self.value
        }
    }

    /// The element that gives `self` when it is added to itself.
    pub fn halve(&self) -> (r: Felt)
        ensures
            reduced(r@ + r@) == self@,
            r == felt(r@),
    {
        let x: u64 = self.as_canonical_u64();
        if x % 2 == 0 {
            Felt { value: x / 2 }
        } else {
            Felt { value: x / 2 + 0x7FFF_FFFF_8000_0001 }
        }
    }

    /// The product of this element with itself.
    pub fn square(&self) -> (r: Felt)
        ensures
            r == felt(self@ * self@),
            r@ == reduced(self@ * self@),
    {
        *self * *self
    }

    /// The multiplicative inverse of this element.
    pub fn inverse(&self) -> (r: Felt)
        requires
            self@ != 0,
        ensures
            reduced(self@ * r@) == 1,
            r == felt(r@),
    {
        Felt { value: goldilocks_inverse(self.as_canonical_u64()) }
    }

    /// The multiplicative inverse of this element, or `None` for zero, which has none.
    pub fn try_inverse(&self) -> (r: Option<Felt>)
        ensures
            r is None <==> self@ == 0,
            r matches Some(x) ==> reduced(self@ * x@) == 1 && x == felt(x@),
    {
        if self.is_zero() {
            None
        } else {
            Some(self.inverse())
        }
    }

    /// Whether this is the additive identity.
    pub fn is_zero(&self) -> (r: bool)
        ensures
            r == (self@ == 0),
    {
        self.as_canonical_u64() == 0
    }
}

/// The inverse of a field element, from `p3_field::Field::inverse` on `p3_goldilocks::Goldilocks`.
///
/// It claims that the outside function returns a canonical representative whose product with the
/// argument is congruent to one. The outside function panics on zero.
#[verifier::external_body]
fn goldilocks_inverse(x: u64) -> (r: u64)
    requires
        reduced(x as int) != 0,
    ensures
        r < Felt::ORDER,
        reduced(x * r) == 1,
{
    let inverse = p3_field::Field::inverse(&p3_goldilocks::Goldilocks::new(x));
    p3_field::PrimeField64::as_canonical_u64(&inverse)
}

impl Default for Felt {
    /// The additive identity.
    fn default() -> (r: Felt)
        ensures
            r == felt(0),
            r@ == 0,
    {
        Felt::zero()
    }
}

impl PartialEqSpecImpl for Felt {
    open spec fn obeys_eq_spec() -> bool {
        true
    }

    open spec fn eq_spec(&self, other: &Felt) -> bool {
        self@ == other@
    }
}

impl PartialEq for Felt {
    /// Two representations of the same field element are equal.
    fn eq(&self, other: &Felt) -> (r: bool) {
        self.as_canonical_u64() == other.as_canonical_u64()
    }
}

impl Eq for Felt {

}

impl AddSpecImpl for Felt {
    open spec fn obeys_add_spec() -> bool {
        true
    }

    open spec fn add_req(self, rhs: Felt) -> bool {
        true
    }

    open spec fn add_spec(self, rhs: Felt) -> Felt {
        felt(self@ + rhs@)
    }
}

impl Add for Felt {
    type Output = Felt;

    fn add(self, rhs: Felt) -> (r: Felt)
        ensures
            r@ == reduced(self@ + rhs@),
    {
        let sum: u128 = self.as_canonical_u64() as u128 + rhs.as_canonical_u64() as u128;
        Felt { value: (sum % (Felt::ORDER as u128)) as u64 }
    }
}

impl SubSpecImpl for Felt {
    open spec fn obeys_sub_spec() -> bool {
        true
    }

    open spec fn sub_req(self, rhs: Felt) -> bool {
        true
    }

    open spec fn sub_spec(self, rhs: Felt) -> Felt {
        felt(self@ - rhs@)
    }
}

impl Sub for Felt {
    type Output = Felt;

    fn sub(self, rhs: Felt) -> (r: Felt)
        ensures
            r@ == reduced(self@ - rhs@),
    {
        let a: u64 = self.as_canonical_u64();
        let b: u64 = rhs.as_canonical_u64();
        if a >= b {
            Felt { value: a - b }
        } else {
            Felt { value: a + (Felt::ORDER - b) }
        }
    }
}

impl NegSpecImpl for Felt {
    open spec fn obeys_neg_spec() -> bool {
        true
    }

    open spec fn neg_req(self) -> bool {
        true
    }

    open spec fn neg_spec(self) -> Felt {
        felt(-self@)
    }
}

impl Neg for Felt {
    type Output = Felt;

    fn neg(self) -> (r: Felt)
        ensures
            r@ == reduced(-self@),
    {
        Felt::zero() - self
    }
}

impl MulSpecImpl for Felt {
    open spec fn obeys_mul_spec() -> bool {
        true
    }

    open spec fn mul_req(self, rhs: Felt) -> bool {
        true
    }

    open spec fn mul_spec(self, rhs: Felt) -> Felt {
        felt(self@ * rhs@)
    }
}

impl Mul for Felt {
    type Output = Felt;

    fn mul(self, rhs: Felt) -> (r: Felt)
        ensures
            r@ == reduced(self@ * rhs@),
    {
        let a: u64 = self.as_canonical_u64();
        let b: u64 = rhs.as_canonical_u64();
        assert(0 <= a * b <= u64::MAX * u64::MAX) by (nonlinear_arith)
            requires
                a <= u64::MAX,
                b <= u64::MAX,
        ;
        let product: u128 = a as u128 * b as u128;
        Felt { value: (product % (Felt::ORDER as u128)) as u64 }
    }
}

// LAWS
// ================================================================================================

/// The canonical representative of an integer is the only one from zero up to `2^64 - 2^32` that
/// differs from it by a multiple of `2^64 - 2^32 + 1`.
pub proof fn law_reduced(x: int, y: int)
    ensures
        0 <= reduced(x) <= 0xFFFF_FFFF_0000_0000,
        (x - reduced(x)) % 0xFFFF_FFFF_0000_0001 == 0,
        0 <= y <= 0xFFFF_FFFF_0000_0000 && (x - y) % 0xFFFF_FFFF_0000_0001 == 0 ==> y == reduced(
            x,
        ),
{
}

/// Elements are the same where their representatives differ by a multiple of `2^64 - 2^32 + 1`, and
/// the element of an integer is represented by the remainder of that integer.
pub proof fn law_representatives(a: Felt, b: Felt, x: int)
    ensures
        a@ == a.value as int % 0xFFFF_FFFF_0000_0001,
        PartialEqSpec::eq_spec(&a, &b) <==> (a.value - b.value) % 0xFFFF_FFFF_0000_0001 == 0,
        felt(x).value as int == x % 0xFFFF_FFFF_0000_0001,
        felt(x)@ == x % 0xFFFF_FFFF_0000_0001,
{
}

/// Sums, differences, negations and products of elements are those of their representatives, modulo
/// `2^64 - 2^32 + 1`.
pub proof fn law_arithmetic(a: Felt, b: Felt)
    ensures
        AddSpec::add_spec(a, b).value as int == (a.value + b.value) % 0xFFFF_FFFF_0000_0001,
        SubSpec::sub_spec(a, b).value as int == (a.value - b.value) % 0xFFFF_FFFF_0000_0001,
        NegSpec::neg_spec(a).value as int == (-(a.value as int)) % 0xFFFF_FFFF_0000_0001,
        MulSpec::mul_spec(a, b).value as int == (a.value * b.value) % 0xFFFF_FFFF_0000_0001,
{
    lemma_reduce_operands(a.value as int, b.value as int);
    lemma_reduce_operands(0, a.value as int);
}

} // verus!
