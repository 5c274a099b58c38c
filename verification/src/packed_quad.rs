//! Elements of the extension side by side, with their coefficients packed.

use crate::felt;
use crate::felt::Felt;
use crate::packed_base;
use crate::packed_felt::{PackedFelt, WIDTH};
use crate::quad;
use crate::quad::{Quad, QuadFelt};
use core::ops::{Add, Mul};
use vstd::prelude::*;
use vstd::std_specs::convert::FromSpecImpl;
use vstd::std_specs::ops::{AddSpec, AddSpecImpl, MulSpec, MulSpecImpl};

verus! {

/// Two elements of the extension that are computed with at once.
#[derive(Clone, Copy, Debug, PartialEq, Eq)]
pub struct PackedQuadFelt {
    /// The coefficients in the base field.
    pub c0: PackedFelt,
    /// The coefficients of the square root of seven.
    pub c1: PackedFelt,
}

impl View for PackedQuadFelt {
    type V = Seq<Quad>;

    /// The elements in the two lanes.
    open spec fn view(&self) -> Seq<Quad> {
        Seq::new(WIDTH as nat, |i: int| Quad { c0: self.c0@[i], c1: self.c1@[i] })
    }
}

impl PackedQuadFelt {
    /// The element in a lane.
    pub open spec fn lane(&self, i: int) -> QuadFelt {
        QuadFelt { c0: self.c0.0[i], c1: self.c1.0[i] }
    }

    /// The packed elements with the given packed coefficients.
    pub fn new(c0: PackedFelt, c1: PackedFelt) -> (r: PackedQuadFelt)
        ensures
            r.c0 == c0,
            r.c1 == c1,
    {
        PackedQuadFelt { c0, c1 }
    }

    /// The packed elements with zero in both lanes.
    pub fn zero() -> (r: PackedQuadFelt)
        ensures
            forall|i: int| 0 <= i < WIDTH ==> #[trigger] r@[i] == quad::base(0),
    {
        PackedQuadFelt { c0: PackedFelt::zero(), c1: PackedFelt::zero() }
    }

    /// The packed elements whose lanes are the two elements of a slice.
    pub fn from_ext_slice(slice: &[QuadFelt]) -> (r: PackedQuadFelt)
        requires
            slice@.len() == WIDTH,
        ensures
            forall|i: int| 0 <= i < WIDTH ==> #[trigger] r.lane(i) == slice@[i],
            forall|i: int| 0 <= i < WIDTH ==> #[trigger] r@[i] == slice@[i]@,
    {
        PackedQuadFelt {
            c0: PackedFelt([slice[0].c0, slice[1].c0]),
            c1: PackedFelt([slice[0].c1, slice[1].c1]),
        }
    }

    /// The element in a lane.
    pub fn extract(&self, lane: usize) -> (r: QuadFelt)
        requires
            lane < WIDTH,
        ensures
            r == self.lane(lane as int),
            r@ == self@[lane as int],
    {
        QuadFelt { c0: self.c0.0[lane], c1: self.c1.0[lane] }
    }
}

impl FromSpecImpl<PackedFelt> for PackedQuadFelt {
    open spec fn obeys_from_spec() -> bool {
        false
    }

    open spec fn from_spec(x: PackedFelt) -> PackedQuadFelt {
        arbitrary()
    }
}

impl From<PackedFelt> for PackedQuadFelt {
    /// The packed elements of the base field.
    fn from(x: PackedFelt) -> (r: PackedQuadFelt)
        ensures
            r.c0 == x,
            forall|i: int| 0 <= i < WIDTH ==> #[trigger] r@[i] == quad::base(x@[i]),
    {
        let r: PackedQuadFelt = PackedQuadFelt { c0: x, c1: PackedFelt::zero() };
        proof {
            assert forall|i: int| 0 <= i < WIDTH implies #[trigger] r@[i] == quad::base(x@[i]) by {
                quad::lemma_quad(r@[i]);
            }
        }
        r
    }
}

impl FromSpecImpl<QuadFelt> for PackedQuadFelt {
    open spec fn obeys_from_spec() -> bool {
        false
    }

    open spec fn from_spec(x: QuadFelt) -> PackedQuadFelt {
        arbitrary()
    }
}

impl From<QuadFelt> for PackedQuadFelt {
    /// The same element in both lanes.
    fn from(x: QuadFelt) -> (r: PackedQuadFelt)
        ensures
            forall|i: int| 0 <= i < WIDTH ==> #[trigger] r.lane(i) == x,
            forall|i: int| 0 <= i < WIDTH ==> #[trigger] r@[i] == x@,
    {
        PackedQuadFelt { c0: PackedFelt::broadcast(x.c0), c1: PackedFelt::broadcast(x.c1) }
    }
}

impl AddSpecImpl for PackedQuadFelt {
    open spec fn obeys_add_spec() -> bool {
        true
    }

    open spec fn add_req(self, rhs: PackedQuadFelt) -> bool {
        true
    }

    open spec fn add_spec(self, rhs: PackedQuadFelt) -> PackedQuadFelt {
        PackedQuadFelt {
            c0: AddSpec::add_spec(self.c0, rhs.c0),
            c1: AddSpec::add_spec(self.c1, rhs.c1),
        }
    }
}

impl Add for PackedQuadFelt {
    type Output = PackedQuadFelt;

    /// The sums of the elements in each lane.
    fn add(self, rhs: PackedQuadFelt) -> (r: PackedQuadFelt)
        ensures
            forall|i: int| 0 <= i < WIDTH ==> #[trigger] r@[i] == self@[i].plus(rhs@[i]),
    {
        PackedQuadFelt { c0: self.c0 + rhs.c0, c1: self.c1 + rhs.c1 }
    }
}

/// The packed coefficient of the base field in the product of packed elements with a single one.
pub open spec fn product_c0(a: PackedQuadFelt, b: QuadFelt) -> PackedFelt {
    let seven: Felt = felt::felt(7);
    AddSpec::add_spec(
        MulSpec::mul_spec(a.c0, b.c0),
        MulSpec::mul_spec(MulSpec::mul_spec(a.c1, b.c1), seven),
    )
}

/// The packed coefficient of the square root of seven in the product of packed elements with a
/// single one.
pub open spec fn product_c1(a: PackedQuadFelt, b: QuadFelt) -> PackedFelt {
    AddSpec::add_spec(MulSpec::mul_spec(a.c0, b.c1), MulSpec::mul_spec(a.c1, b.c0))
}

impl MulSpecImpl<QuadFelt> for PackedQuadFelt {
    open spec fn obeys_mul_spec() -> bool {
        true
    }

    open spec fn mul_req(self, rhs: QuadFelt) -> bool {
        true
    }

    open spec fn mul_spec(self, rhs: QuadFelt) -> PackedQuadFelt {
        PackedQuadFelt { c0: product_c0(self, rhs), c1: product_c1(self, rhs) }
    }
}

impl Mul<QuadFelt> for PackedQuadFelt {
    type Output = PackedQuadFelt;

    /// The product of the element in each lane with a single one.
    fn mul(self, rhs: QuadFelt) -> (r: PackedQuadFelt)
        ensures
            forall|i: int| 0 <= i < WIDTH ==> #[trigger] r@[i] == self@[i].times(rhs@),
    {
        let high: PackedFelt = self.c1 * rhs.c1;
        let r: PackedQuadFelt = PackedQuadFelt {
            c0: self.c0 * rhs.c0 + high * Felt::new(7),
            c1: self.c0 * rhs.c1 + self.c1 * rhs.c0,
        };
        proof {
            assert forall|i: int| 0 <= i < WIDTH implies #[trigger] r@[i] == self@[i].times(rhs@) by {
                let (a0, a1): (int, int) = (self.c0@[i], self.c1@[i]);
                let (b0, b1): (int, int) = (rhs.c0@, rhs.c1@);
                assert(high@[i] == felt::reduced(a1 * b1));
                felt::lemma_reduce_operands(a1 * b1, 7);
                felt::lemma_reduce_operands(a0 * b0, 7 * (a1 * b1));
                felt::lemma_reduce_operands(a0 * b1, a1 * b0);
            }
        }
        r
    }
}

// COLUMNS
// ================================================================================================

/// Packing of rows of extension elements by columns, and unpacking.
pub trait PackedFieldExtensionExt: Sized {
    /// The element in a lane.
    spec fn ext_lane(&self, i: int) -> QuadFelt;

    /// Packs the columns of as many rows as there are lanes: lane `i` of the result for a column is
    /// the element of row `i` in that column.
    fn pack_ext_columns<const N: usize>(rows: &[[QuadFelt; N]]) -> (r: [Self; N])
        requires
            rows@.len() == WIDTH,
        ensures
            forall|col: int, i: int|
                0 <= col < N && 0 <= i < WIDTH ==> (#[trigger] r[col].ext_lane(i)) == rows@[i][col],
    ;

    /// Writes the elements in the lanes to the front of a slice, as far as it goes.
    fn to_ext_slice(&self, out: &mut [QuadFelt])
        ensures
            final(out)@.len() == old(out)@.len(),
            forall|i: int|
                0 <= i < final(out)@.len() ==> #[trigger] final(out)@[i] == if i < WIDTH {
                    self.ext_lane(i)
                } else {
                    old(out)@[i]
                },
    ;
}

impl PackedFieldExtensionExt for PackedQuadFelt {
    open spec fn ext_lane(&self, i: int) -> QuadFelt {
        self.lane(i)
    }

    fn pack_ext_columns<const N: usize>(rows: &[[QuadFelt; N]]) -> (r: [PackedQuadFelt; N]) {
        let mut r: [PackedQuadFelt; N] = [PackedQuadFelt::zero(); N];
        for col in 0..N
            invariant
                rows@.len() == WIDTH,
                forall|c: int, i: int|
                    0 <= c < col && 0 <= i < WIDTH ==> (#[trigger] r[c].ext_lane(i))
                        == rows@[i][c],
        {
            let col_elems: [QuadFelt; 2] = [rows[0][col], rows[1][col]];
            let packed: PackedQuadFelt = PackedQuadFelt::from_ext_slice(col_elems.as_slice());
            proof {
                assert(packed.lane(0) == col_elems[0]);
                assert(packed.lane(1) == col_elems[1]);
            }
            r[col] = packed;
        }
        r
    }

    fn to_ext_slice(&self, out: &mut [QuadFelt]) {
        let n: usize = if out.len() < WIDTH {
            out.len()
        } else {
            WIDTH
        };
        for lane in 0..n
            invariant
                out@.len() == old(out)@.len(),
                n <= out@.len(),
                n <= WIDTH,
                forall|i: int|
                    0 <= i < out@.len() ==> #[trigger] out@[i] == if i < lane {
                        self.lane(i)
                    } else {
                        old(out)@[i]
                    },
        {
            out[lane] = self.extract(lane);
        }
    }
}

// LAWS
// ================================================================================================

/// The element in a lane has the coefficients that are in this lane of the packed coefficients.
pub proof fn law_lanes(p: PackedQuadFelt, i: int)
    requires
        0 <= i < 2,
    ensures
        p@.len() == 2,
        p@[i] == (Quad { c0: p.c0.0[i]@, c1: p.c1.0[i]@ }),
        p.lane(i).c0 == p.c0.0[i],
        p.lane(i).c1 == p.c1.0[i],
        p.ext_lane(i).c0 == p.c0.0[i],
        p.ext_lane(i).c1 == p.c1.0[i],
{
    assert(i == 0 || i == 1);
}

/// Packed elements of the extension are added as the elements in their lanes are.
pub proof fn law_packed_sum(a: PackedQuadFelt, b: PackedQuadFelt, i: int)
    requires
        0 <= i < WIDTH,
    ensures
        AddSpec::add_spec(a, b)@[i] == a@[i].plus(b@[i]),
{
    packed_base::law_packed_lanes(a.c0, b.c0, i);
    packed_base::law_packed_lanes(a.c1, b.c1, i);
}

} // verus!
