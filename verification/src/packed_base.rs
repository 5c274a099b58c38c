//! Arithmetic of packed elements with single ones, and sums and products of packed elements.

use crate::coset;
use crate::felt;
use crate::felt::Felt;
use crate::packed_felt;
use crate::packed_felt::{PackedFelt, WIDTH};
use crate::quad;
use core::ops::{Add, AddAssign, Div, DivAssign, Mul, MulAssign, Sub, SubAssign};
use vstd::prelude::*;
use vstd::std_specs::ops::{
    AddSpec, AddSpecImpl, DivSpecImpl, MulSpec, MulSpecImpl, NegSpec, SubSpec, SubSpecImpl,
};

verus! {

/// The same element in both lanes.
pub open spec fn broadcasted(x: Felt) -> PackedFelt {
    PackedFelt([x, x])
}

/// Broadcasting gives the same element in both lanes.
pub proof fn lemma_broadcasted(p: PackedFelt, x: Felt)
    requires
        p.0@ == seq![x, x],
    ensures
        p == broadcasted(x),
{
    assert(p.0 =~= broadcasted(x).0);
}

impl AddSpecImpl<Felt> for PackedFelt {
    open spec fn obeys_add_spec() -> bool {
        true
    }

    open spec fn add_req(self, rhs: Felt) -> bool {
        true
    }

    open spec fn add_spec(self, rhs: Felt) -> PackedFelt {
        AddSpec::add_spec(self, broadcasted(rhs))
    }
}

impl Add<Felt> for PackedFelt {
    type Output = PackedFelt;

    /// The sum of each lane with the element.
    fn add(self, rhs: Felt) -> (r: PackedFelt)
        ensures
            forall|i: int| 0 <= i < WIDTH ==> #[trigger] r@[i] == felt::reduced(self@[i] + rhs@),
    {
        let other: PackedFelt = PackedFelt::broadcast(rhs);
        proof {
            lemma_broadcasted(other, rhs);
        }
        self + other
    }
}

impl SubSpecImpl<Felt> for PackedFelt {
    open spec fn obeys_sub_spec() -> bool {
        true
    }

    open spec fn sub_req(self, rhs: Felt) -> bool {
        true
    }

    open spec fn sub_spec(self, rhs: Felt) -> PackedFelt {
        SubSpec::sub_spec(self, broadcasted(rhs))
    }
}

impl Sub<Felt> for PackedFelt {
    type Output = PackedFelt;

    /// The difference of each lane and the element.
    fn sub(self, rhs: Felt) -> (r: PackedFelt)
        ensures
            forall|i: int| 0 <= i < WIDTH ==> #[trigger] r@[i] == felt::reduced(self@[i] - rhs@),
    {
        let other: PackedFelt = PackedFelt::broadcast(rhs);
        proof {
            lemma_broadcasted(other, rhs);
        }
        self - other
    }
}

impl MulSpecImpl<Felt> for PackedFelt {
    open spec fn obeys_mul_spec() -> bool {
        true
    }

    open spec fn mul_req(self, rhs: Felt) -> bool {
        true
    }

    open spec fn mul_spec(self, rhs: Felt) -> PackedFelt {
        MulSpec::mul_spec(self, broadcasted(rhs))
    }
}

impl Mul<Felt> for PackedFelt {
    type Output = PackedFelt;

    /// The product of each lane with the element.
    fn mul(self, rhs: Felt) -> (r: PackedFelt)
        ensures
            forall|i: int| 0 <= i < WIDTH ==> #[trigger] r@[i] == felt::reduced(self@[i] * rhs@),
    {
        let other: PackedFelt = PackedFelt::broadcast(rhs);
        proof {
            lemma_broadcasted(other, rhs);
        }
        self * other
    }
}

impl DivSpecImpl<Felt> for PackedFelt {
    open spec fn obeys_div_spec() -> bool {
        false
    }

    open spec fn div_req(self, rhs: Felt) -> bool {
        rhs@ != 0
    }

    open spec fn div_spec(self, rhs: Felt) -> PackedFelt {
        arbitrary()
    }
}

impl Div<Felt> for PackedFelt {
    type Output = PackedFelt;

    /// The quotient of each lane and the element, which must not be zero.
    fn div(self, rhs: Felt) -> (r: PackedFelt)
        ensures
            forall|i: int| 0 <= i < WIDTH ==> felt::reduced(#[trigger] r@[i] * rhs@) == self@[i],
    {
        let inverse: Felt = rhs.inverse();
        let r: PackedFelt = self * inverse;
        proof {
            assert forall|i: int| 0 <= i < WIDTH implies felt::reduced(#[trigger] r@[i] * rhs@)
                == self@[i] by {
                let (a, b, c): (int, int, int) = (self@[i], inverse@, rhs@);
                assert(r@[i] == felt::reduced(a * b));
                felt::lemma_reduce_operands(a * b, c);
                assert((a * b) * c == a * (c * b)) by (nonlinear_arith);
                felt::lemma_reduce_operands(a, c * b);
                felt::lemma_reduce_operands(self.0[i].value as int, 0);
            }
        }
        r
    }
}

impl AddSpecImpl<PackedFelt> for Felt {
    open spec fn obeys_add_spec() -> bool {
        true
    }

    open spec fn add_req(self, rhs: PackedFelt) -> bool {
        true
    }

    open spec fn add_spec(self, rhs: PackedFelt) -> PackedFelt {
        AddSpec::add_spec(broadcasted(self), rhs)
    }
}

impl Add<PackedFelt> for Felt {
    type Output = PackedFelt;

    fn add(self, rhs: PackedFelt) -> (r: PackedFelt)
        ensures
            forall|i: int| 0 <= i < WIDTH ==> #[trigger] r@[i] == felt::reduced(self@ + rhs@[i]),
    {
        let this: PackedFelt = PackedFelt::broadcast(self);
        proof {
            lemma_broadcasted(this, self);
        }
        this + rhs
    }
}

impl SubSpecImpl<PackedFelt> for Felt {
    open spec fn obeys_sub_spec() -> bool {
        true
    }

    open spec fn sub_req(self, rhs: PackedFelt) -> bool {
        true
    }

    open spec fn sub_spec(self, rhs: PackedFelt) -> PackedFelt {
        SubSpec::sub_spec(broadcasted(self), rhs)
    }
}

impl Sub<PackedFelt> for Felt {
    type Output = PackedFelt;

    fn sub(self, rhs: PackedFelt) -> (r: PackedFelt)
        ensures
            forall|i: int| 0 <= i < WIDTH ==> #[trigger] r@[i] == felt::reduced(self@ - rhs@[i]),
    {
        let this: PackedFelt = PackedFelt::broadcast(self);
        proof {
            lemma_broadcasted(this, self);
        }
        this - rhs
    }
}

impl MulSpecImpl<PackedFelt> for Felt {
    open spec fn obeys_mul_spec() -> bool {
        true
    }

    open spec fn mul_req(self, rhs: PackedFelt) -> bool {
        true
    }

    open spec fn mul_spec(self, rhs: PackedFelt) -> PackedFelt {
        MulSpec::mul_spec(broadcasted(self), rhs)
    }
}

impl Mul<PackedFelt> for Felt {
    type Output = PackedFelt;

    fn mul(self, rhs: PackedFelt) -> (r: PackedFelt)
        ensures
            forall|i: int| 0 <= i < WIDTH ==> #[trigger] r@[i] == felt::reduced(self@ * rhs@[i]),
    {
        let this: PackedFelt = PackedFelt::broadcast(self);
        proof {
            lemma_broadcasted(this, self);
        }
        this * rhs
    }
}

impl AddAssign for PackedFelt {
    fn add_assign(&mut self, rhs: PackedFelt)
        ensures
            *final(self) == AddSpec::add_spec(*old(self), rhs),
            forall|i: int|
                0 <= i < WIDTH ==> #[trigger] final(self)@[i] == felt::reduced(
                    old(self)@[i] + rhs@[i],
                ),
    {
        *self = *self + rhs;
    }
}

impl SubAssign for PackedFelt {
    fn sub_assign(&mut self, rhs: PackedFelt)
        ensures
            *final(self) == SubSpec::sub_spec(*old(self), rhs),
            forall|i: int|
                0 <= i < WIDTH ==> #[trigger] final(self)@[i] == felt::reduced(
                    old(self)@[i] - rhs@[i],
                ),
    {
        *self = *self - rhs;
    }
}

impl MulAssign for PackedFelt {
    fn mul_assign(&mut self, rhs: PackedFelt)
        ensures
            *final(self) == MulSpec::mul_spec(*old(self), rhs),
            forall|i: int|
                0 <= i < WIDTH ==> #[trigger] final(self)@[i] == felt::reduced(
                    old(self)@[i] * rhs@[i],
                ),
    {
        *self = *self * rhs;
    }
}

impl AddAssign<Felt> for PackedFelt {
    fn add_assign(&mut self, rhs: Felt)
        ensures
            *final(self) == AddSpec::add_spec(*old(self), rhs),
            forall|i: int|
                0 <= i < WIDTH ==> #[trigger] final(self)@[i] == felt::reduced(
                    old(self)@[i] + rhs@,
                ),
    {
        *self = *self + rhs;
    }
}

impl SubAssign<Felt> for PackedFelt {
    fn sub_assign(&mut self, rhs: Felt)
        ensures
            *final(self) == SubSpec::sub_spec(*old(self), rhs),
            forall|i: int|
                0 <= i < WIDTH ==> #[trigger] final(self)@[i] == felt::reduced(
                    old(self)@[i] - rhs@,
                ),
    {
        *self = *self - rhs;
    }
}

impl MulAssign<Felt> for PackedFelt {
    fn mul_assign(&mut self, rhs: Felt)
        ensures
            *final(self) == MulSpec::mul_spec(*old(self), rhs),
            forall|i: int|
                0 <= i < WIDTH ==> #[trigger] final(self)@[i] == felt::reduced(
                    old(self)@[i] * rhs@,
                ),
    {
        *self = *self * rhs;
    }
}

impl DivAssign<Felt> for PackedFelt {
    fn div_assign(&mut self, rhs: Felt)
        requires
            rhs@ != 0,
        ensures
            forall|i: int|
                0 <= i < WIDTH ==> felt::reduced(#[trigger] final(self)@[i] * rhs@) == old(
                    self,
                )@[i],
    {
        *self = *self / rhs;
    }
}

/// The sum of one lane of all values.
pub open spec fn lane_total(values: Seq<PackedFelt>, lane: int) -> int
    decreases values.len(),
{
    if values.len() == 0 {
        0
    } else {
        felt::reduced(lane_total(values.drop_last(), lane) + values.last()@[lane])
    }
}

/// The product of one lane of all values.
pub open spec fn lane_factor(values: Seq<PackedFelt>, lane: int) -> int
    decreases values.len(),
{
    if values.len() == 0 {
        1
    } else {
        felt::reduced(lane_factor(values.drop_last(), lane) * values.last()@[lane])
    }
}

/// The sum of all elements.
pub open spec fn base_total(values: Seq<Felt>) -> int
    decreases values.len(),
{
    if values.len() == 0 {
        0
    } else {
        felt::reduced(base_total(values.drop_last()) + values.last()@)
    }
}

/// The product of all elements.
pub open spec fn base_factor(values: Seq<Felt>) -> int
    decreases values.len(),
{
    if values.len() == 0 {
        1
    } else {
        felt::reduced(base_factor(values.drop_last()) * values.last()@)
    }
}

/// The seventh root of a field element, from `p3_field::exponentiation::exp_10540996611094048183`
/// on `p3_goldilocks::Goldilocks`.
///
/// It claims that the result is the argument raised to the power in the name of the outside
/// function, and that its seventh power is the argument.
#[verifier::external_body]
fn goldilocks_seventh_root(x: u64) -> (r: u64)
    ensures
        r < Felt::ORDER,
        quad::base(r as int) == coset::power(quad::base(x as int), 10540996611094048183),
        coset::power(quad::base(r as int), 7) == quad::base(x as int),
{
    let x = p3_goldilocks::Goldilocks::new(x);
    let root = p3_field::exponentiation::exp_10540996611094048183(x);
    p3_field::PrimeField64::as_canonical_u64(&root)
}

impl PackedFelt {
    /// The sum of all values, lane by lane.
    pub fn sum(values: &[PackedFelt]) -> (r: PackedFelt)
        ensures
            forall|i: int| 0 <= i < WIDTH ==> #[trigger] r@[i] == lane_total(values@, i),
    {
        let mut r: PackedFelt = PackedFelt::zero();
        for n in 0..values.len()
            invariant
                forall|i: int|
                    0 <= i < WIDTH ==> #[trigger] r@[i] == lane_total(values@.take(n as int), i),
        {
            proof {
                assert(values@.take(n + 1).drop_last() =~= values@.take(n as int));
            }
            r = r + values[n];
        }
        assert(values@.take(values@.len() as int) =~= values@);
        r
    }

    /// The product of all values, lane by lane.
    pub fn product(values: &[PackedFelt]) -> (r: PackedFelt)
        ensures
            forall|i: int| 0 <= i < WIDTH ==> #[trigger] r@[i] == lane_factor(values@, i),
    {
        let mut r: PackedFelt = PackedFelt::one();
        for n in 0..values.len()
            invariant
                forall|i: int|
                    0 <= i < WIDTH ==> #[trigger] r@[i] == lane_factor(values@.take(n as int), i),
        {
            proof {
                assert(values@.take(n + 1).drop_last() =~= values@.take(n as int));
            }
            r = r * values[n];
        }
        assert(values@.take(values@.len() as int) =~= values@);
        r
    }

    /// The sum of single elements, in both lanes.
    pub fn sum_base(values: &[Felt]) -> (r: PackedFelt)
        ensures
            forall|i: int| 0 <= i < WIDTH ==> #[trigger] r@[i] == base_total(values@),
    {
        let mut sum: Felt = Felt::zero();
        for n in 0..values.len()
            invariant
                sum@ == base_total(values@.take(n as int)),
        {
            proof {
                assert(values@.take(n + 1).drop_last() =~= values@.take(n as int));
            }
            sum = sum + values[n];
        }
        assert(values@.take(values@.len() as int) =~= values@);
        PackedFelt::broadcast(sum)
    }

    /// The product of single elements, in both lanes.
    pub fn product_base(values: &[Felt]) -> (r: PackedFelt)
        ensures
            forall|i: int| 0 <= i < WIDTH ==> #[trigger] r@[i] == base_factor(values@),
    {
        let mut product: Felt = Felt::one();
        for n in 0..values.len()
            invariant
                product@ == base_factor(values@.take(n as int)),
        {
            proof {
                assert(values@.take(n + 1).drop_last() =~= values@.take(n as int));
            }
            product = product * values[n];
        }
        assert(values@.take(values@.len() as int) =~= values@);
        PackedFelt::broadcast(product)
    }

    /// The seventh root of each element, which is its power with the inverse of seven as exponent.
    pub fn injective_exp_root_n(&self) -> (r: PackedFelt)
        ensures
            forall|i: int|
                0 <= i < WIDTH ==> coset::power(quad::base(#[trigger] r@[i]), 7) == quad::base(
                    self@[i],
                ) && quad::base(r@[i]) == coset::power(
                    quad::base(self@[i]),
                    10540996611094048183,
                ),
    {
        let r0: u64 = goldilocks_seventh_root(self.0[0].as_canonical_u64());
        let r1: u64 = goldilocks_seventh_root(self.0[1].as_canonical_u64());
        PackedFelt([Felt::new(r0), Felt::new(r1)])
    }
}

/// Packed elements are added, subtracted, negated and multiplied as the single elements in their
/// lanes are.
pub proof fn law_packed_matches_single(a: PackedFelt, b: PackedFelt, i: int)
    requires
        0 <= i < WIDTH,
    ensures
        AddSpec::add_spec(a, b)@[i] == AddSpec::add_spec(a.0[i], b.0[i])@,
        SubSpec::sub_spec(a, b)@[i] == SubSpec::sub_spec(a.0[i], b.0[i])@,
        NegSpec::neg_spec(a)@[i] == NegSpec::neg_spec(a.0[i])@,
        MulSpec::mul_spec(a, b)@[i] == MulSpec::mul_spec(a.0[i], b.0[i])@,
{
    let (x, y): (u64, u64) = (a.0[i].value, b.0[i].value);
    packed_felt::lemma_lane_sum(x, y);
    packed_felt::lemma_lane_difference(x, y);
    packed_felt::lemma_lane_negation(x);
    packed_felt::lemma_lane_product(x, y);
    felt::lemma_reduce_operands(x as int, y as int);
    felt::lemma_reduce_operands(0, x as int);
    felt::lemma_reduce_operands(x as int + y as int, 0);
    felt::lemma_reduce_operands(x as int - y as int, 0);
    felt::lemma_reduce_operands(-(x as int), 0);
    felt::lemma_reduce_operands(x * y, 0);
}

/// The same element in both lanes.
pub proof fn law_broadcasted(x: Felt)
    ensures
        broadcasted(x).0@ == seq![x, x],
        broadcasted(x)@ == seq![x@, x@],
{
}

/// Packed elements are added to single ones, subtracted and multiplied as the single elements in
/// their lanes are, whichever of the two comes first.
pub proof fn law_mixed_matches_single(a: PackedFelt, b: Felt, i: int)
    requires
        0 <= i < WIDTH,
    ensures
        AddSpec::add_spec(a, b)@[i] == AddSpec::add_spec(a.0[i], b)@,
        SubSpec::sub_spec(a, b)@[i] == SubSpec::sub_spec(a.0[i], b)@,
        MulSpec::mul_spec(a, b)@[i] == MulSpec::mul_spec(a.0[i], b)@,
        AddSpec::add_spec(b, a)@[i] == AddSpec::add_spec(b, a.0[i])@,
        SubSpec::sub_spec(b, a)@[i] == SubSpec::sub_spec(b, a.0[i])@,
        MulSpec::mul_spec(b, a)@[i] == MulSpec::mul_spec(b, a.0[i])@,
{
    law_packed_matches_single(a, broadcasted(b), i);
    law_packed_matches_single(broadcasted(b), a, i);
}

/// Packed elements are added, subtracted, negated and multiplied lane by lane.
pub proof fn law_packed_lanes(a: PackedFelt, b: PackedFelt, i: int)
    requires
        0 <= i < WIDTH,
    ensures
        AddSpec::add_spec(a, b)@[i] == felt::reduced(a@[i] + b@[i]),
        SubSpec::sub_spec(a, b)@[i] == felt::reduced(a@[i] - b@[i]),
        NegSpec::neg_spec(a)@[i] == felt::reduced(-a@[i]),
        MulSpec::mul_spec(a, b)@[i] == felt::reduced(a@[i] * b@[i]),
{
    let (x, y): (u64, u64) = (a.0[i].value, b.0[i].value);
    assert(i == 0 || i == 1);
    packed_felt::lemma_lane_sum(x, y);
    packed_felt::lemma_lane_difference(x, y);
    packed_felt::lemma_lane_negation(x);
    packed_felt::lemma_lane_product(x, y);
    felt::lemma_reduce_operands(x as int, y as int);
    felt::lemma_reduce_operands(0, x as int);
    assert(AddSpec::add_spec(a, b)@[i] == felt::reduced(packed_felt::lane_sum(x, y) as int));
    assert(SubSpec::sub_spec(a, b)@[i] == felt::reduced(
        packed_felt::lane_difference(x, y) as int,
    ));
    assert(NegSpec::neg_spec(a)@[i] == felt::reduced(packed_felt::lane_negation(x) as int));
    assert(MulSpec::mul_spec(a, b)@[i] == felt::reduced(packed_felt::lane_product(x, y) as int));
}

/// Packed elements are added to single ones, subtracted and multiplied lane by lane.
pub proof fn law_mixed_lanes(a: PackedFelt, b: Felt, i: int)
    requires
        0 <= i < WIDTH,
    ensures
        AddSpec::add_spec(a, b)@[i] == felt::reduced(a@[i] + b@),
        SubSpec::sub_spec(a, b)@[i] == felt::reduced(a@[i] - b@),
        MulSpec::mul_spec(a, b)@[i] == felt::reduced(a@[i] * b@),
        AddSpec::add_spec(b, a)@[i] == felt::reduced(b@ + a@[i]),
        SubSpec::sub_spec(b, a)@[i] == felt::reduced(b@ - a@[i]),
        MulSpec::mul_spec(b, a)@[i] == felt::reduced(b@ * a@[i]),
{
    law_packed_lanes(a, broadcasted(b), i);
    law_packed_lanes(broadcasted(b), a, i);
}

/// A lane of a sum of no values is zero, and one more value adds its lane to it. A lane of a product
/// of no values is one, and one more value multiplies it with its lane.
pub proof fn law_lane_totals(values: Seq<PackedFelt>, v: PackedFelt, lane: int)
    ensures
        lane_total(seq![], lane) == 0,
        lane_total(values.push(v), lane) == felt::reduced(lane_total(values, lane) + v@[lane]),
        lane_factor(seq![], lane) == 1,
        lane_factor(values.push(v), lane) == felt::reduced(lane_factor(values, lane) * v@[lane]),
{
    assert(values.push(v).drop_last() =~= values);
}

/// A sum of no elements is zero, and one more element is added to it. A product of no elements is
/// one, and one more element is multiplied with it.
pub proof fn law_base_totals(values: Seq<Felt>, v: Felt)
    ensures
        base_total(seq![]) == 0,
        base_total(values.push(v)) == felt::reduced(base_total(values) + v@),
        base_factor(seq![]) == 1,
        base_factor(values.push(v)) == felt::reduced(base_factor(values) * v@),
{
    assert(values.push(v).drop_last() =~= values);
}

/// The sum of two lists of values is the sum of their sums, and the product the product of their
/// products, in each lane.
pub proof fn law_lane_concat(a: Seq<PackedFelt>, b: Seq<PackedFelt>, lane: int)
    ensures
        lane_total(a + b, lane) == felt::reduced(lane_total(a, lane) + lane_total(b, lane)),
        lane_factor(a + b, lane) == felt::reduced(lane_factor(a, lane) * lane_factor(b, lane)),
    decreases b.len(),
{
    let (s, t): (int, int) = (lane_total(a, lane), lane_factor(a, lane));
    if b.len() == 0 {
        assert(a + b =~= a);
        assert(t * 1 == t);
        lemma_totals_reduced(a, lane);
    } else {
        let front: Seq<PackedFelt> = b.drop_last();
        let (u, v): (int, int) = (lane_total(front, lane), lane_factor(front, lane));
        let x: int = b.last()@[lane];
        assert((a + b).drop_last() =~= a + front);
        law_lane_concat(a, front, lane);
        felt::lemma_reduce_operands(s + u, x);
        felt::lemma_reduce_operands(s, u + x);
        felt::lemma_reduce_operands(t * v, x);
        felt::lemma_reduce_operands(t, v * x);
        assert((t * v) * x == t * (v * x)) by (nonlinear_arith);
    }
}

/// Sums and products are canonical representatives.
proof fn lemma_totals_reduced(values: Seq<PackedFelt>, lane: int)
    ensures
        felt::reduced(lane_total(values, lane)) == lane_total(values, lane),
        felt::reduced(lane_factor(values, lane)) == lane_factor(values, lane),
{
    if values.len() > 0 {
        let front: Seq<PackedFelt> = values.drop_last();
        let x: int = values.last()@[lane];
        felt::lemma_reduce_operands(lane_total(front, lane) + x, 0);
        felt::lemma_reduce_operands(lane_factor(front, lane) * x, 0);
    }
}

} // verus!
