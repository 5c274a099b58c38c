//! The folding of constraints into a single value, on packed values.
//!
//! [`ProverConstraintFolder`] multiplies each constraint with its power of the challenge `alpha` as
//! soon as it is given, and adds the product to a running sum.

use crate::barycentric;
use crate::felt::Felt;
use crate::packed_felt::{PackedFelt, WIDTH};
use crate::packed_quad::PackedQuadFelt;
use crate::quad;
use crate::quad::{Quad, QuadFelt};
use vstd::prelude::*;

verus! {

/// The conversion of a value into its own type, from `core::convert::From::from`.
///
/// It claims that the value is returned unchanged.
pub assume_specification<Same>[ <Same as core::convert::From<Same>>::from ](t: Same) -> (r: Same)
    ensures
        r == t,
;

/// The conversion of an array into a vector, from `From<[T; N]>` for `Vec<T>`.
///
/// It claims that the items of the array are moved into the vector in their order.
pub assume_specification<Item, const N: usize>[ <Vec<Item> as core::convert::From<
    [Item; N],
>>::from ](items: [Item; N]) -> (r: Vec<Item>)
    ensures
        r@ == items@,
;

// MODEL
// ================================================================================================

/// The powers of alpha for the base constraints, from their coefficients.
pub open spec fn base_powers(coefficients: Seq<Vec<Felt>>) -> Seq<Quad> {
    Seq::new(
        coefficients[0]@.len(),
        |j: int| Quad { c0: coefficients[0]@[j]@, c1: coefficients[1]@[j]@ },
    )
}

/// The terms that constraints in the base field add to the sum in a lane: each constraint times its
/// power of alpha, where the first one gets the power with index `start`.
pub open spec fn base_terms(
    powers: Seq<Quad>,
    start: nat,
    constraints: Seq<PackedFelt>,
    lane: int,
) -> Seq<Quad> {
    Seq::new(
        constraints.len(),
        |j: int| quad::base(constraints[j]@[lane]).times(powers[start + j]),
    )
}

/// The power of alpha for base constraint number `j` is the element whose coefficients are entry `j`
/// of both lists of coefficients.
pub proof fn law_base_powers(coefficients: Seq<Vec<Felt>>, j: int)
    requires
        0 <= j < coefficients[0]@.len(),
    ensures
        base_powers(coefficients).len() == coefficients[0]@.len(),
        base_powers(coefficients)[j].c0 == coefficients[0]@[j]@,
        base_powers(coefficients)[j].c1 == coefficients[1]@[j]@,
{
}

/// Each constraint adds a term of its own: its value in the lane times the power of alpha that is
/// as far from the first one as the constraint is from the first constraint.
pub proof fn law_base_terms(
    powers: Seq<Quad>,
    start: nat,
    constraints: Seq<PackedFelt>,
    lane: int,
    j: int,
)
    requires
        0 <= j < constraints.len(),
    ensures
        base_terms(powers, start, constraints, lane).len() == constraints.len(),
        base_terms(powers, start, constraints, lane)[j] == quad::base(
            constraints[j]@[lane],
        ).times(powers[start + j]),
{
}

/// Nothing is added where there are no terms, and one more term is added to what there was.
pub proof fn law_accumulated_push(acc: Quad, terms: Seq<Quad>, term: Quad)
    ensures
        accumulated(acc, seq![]) == acc,
        accumulated(acc, terms.push(term)) == accumulated(acc, terms).plus(term),
{
    assert(terms.push(term).drop_last() =~= terms);
}

/// A sum to which terms are added one after the other.
pub open spec fn accumulated(acc: Quad, terms: Seq<Quad>) -> Quad
    decreases terms.len(),
{
    if terms.len() == 0 {
        acc
    } else {
        accumulated(acc, terms.drop_last()).plus(terms.last())
    }
}

/// Adding terms one after the other adds their sum: constraints that are given together are folded
/// like constraints that are given one by one.
pub proof fn law_accumulated(acc: Quad, terms: Seq<Quad>)
    requires
        acc.wf(),
        barycentric::all_wf(terms),
    ensures
        accumulated(acc, terms) == acc.plus(barycentric::total(terms)),
        accumulated(acc, terms).wf(),
    decreases terms.len(),
{
    if terms.len() == 0 {
        quad::lemma_add(acc, acc, acc);
    } else {
        law_accumulated(acc, terms.drop_last());
        barycentric::lemma_total_wf(terms.drop_last());
        quad::lemma_add(acc, barycentric::total(terms.drop_last()), terms.last());
    }
}

/// The folding of all constraints, those in the base field and those in the extension, is the sum
/// of all their terms.
pub proof fn law_folded(base_terms: Seq<Quad>, ext_terms: Seq<Quad>)
    requires
        barycentric::all_wf(base_terms),
        barycentric::all_wf(ext_terms),
    ensures
        accumulated(quad::base(0), base_terms).plus(accumulated(quad::base(0), ext_terms))
            == barycentric::total(base_terms + ext_terms),
{
    let zero: Quad = quad::base(0);
    let (a, b): (Quad, Quad) = (barycentric::total(base_terms), barycentric::total(ext_terms));
    quad::lemma_base(0, 0);
    barycentric::lemma_total_wf(base_terms);
    barycentric::lemma_total_wf(ext_terms);
    law_accumulated(zero, base_terms);
    law_accumulated(zero, ext_terms);
    quad::lemma_add(a, a, a);
    quad::lemma_add(b, b, b);
    barycentric::lemma_total_concat(base_terms, ext_terms);
}

// INPUTS
// ================================================================================================

/// Two adjacent rows of a trace.
#[derive(Clone, Copy, Debug)]
pub struct RowWindow<'a, Cell> {
    pub current: &'a [Cell],
    pub next: &'a [Cell],
}

/// A window on a trace without columns.
#[derive(Clone, Copy, Debug)]
pub struct EmptyWindow {}

/// The values of the selectors.
#[derive(Clone, Copy, Debug)]
pub struct Selectors {
    pub is_first_row: PackedFelt,
    pub is_last_row: PackedFelt,
    pub is_transition: PackedFelt,
}

// FOLDER
// ================================================================================================

/// Folds constraints, with two points of the domain side by side.
///
/// Each constraint is multiplied with its power of alpha as soon as it is given, and added to
/// `base_acc` if it is one in the base field, or to `ext_acc` if it is one in the extension.
pub struct ProverConstraintFolder<'a> {
    /// Two rows of the main trace.
    pub main: RowWindow<'a, PackedFelt>,
    /// Two rows of the auxiliary trace.
    pub aux: RowWindow<'a, PackedQuadFelt>,
    /// Randomness for the auxiliary trace.
    pub packed_randomness: &'a [PackedQuadFelt],
    /// Public values.
    pub public_values: &'a [Felt],
    /// Values of the periodic columns.
    pub periodic_values: &'a [PackedFelt],
    /// Values of the permutation argument.
    pub permutation_values: &'a [PackedQuadFelt],
    /// Values of the selectors.
    pub selectors: Selectors,
    /// The coefficients of the powers of alpha for the base constraints, in the order in which the
    /// constraints are given: `base_alpha_powers[d][j]` is coefficient `d` of power `j`.
    pub base_alpha_powers: &'a [Vec<Felt>],
    /// The powers of alpha for the extension constraints, in the order in which they are given.
    pub ext_alpha_powers: &'a [QuadFelt],
    /// The sum of the base constraints so far.
    pub base_acc: PackedQuadFelt,
    /// The sum of the extension constraints so far.
    pub ext_acc: PackedQuadFelt,
    /// The index of the next base constraint.
    pub base_constraint_index: usize,
    /// The index of the next extension constraint.
    pub ext_constraint_index: usize,
    /// The number of all constraints.
    pub constraint_count: usize,
}

impl<'a> ProverConstraintFolder<'a> {
    /// The number of base constraints for which both coefficients of the power of alpha are there.
    pub open spec fn num_base_powers(&self) -> nat {
        let powers: Seq<Vec<Felt>> = self.base_alpha_powers@;
        if powers.len() < 2 {
            0
        } else if powers[0]@.len() <= powers[1]@.len() {
            powers[0]@.len()
        } else {
            powers[1]@.len()
        }
    }

    /// Whether a base constraint has a power of alpha is a matter of both its coefficients.
    pub proof fn law_num_base_powers(&self, index: nat)
        ensures
            index < self.num_base_powers() <==> self.base_alpha_powers@.len() >= 2 && index
                < self.base_alpha_powers@[0]@.len() && index < self.base_alpha_powers@[1]@.len(),
    {
    }

    /// The result of the folding.
    ///
    /// All constraints that were announced have been given.
    pub fn finalize_constraints(self) -> (r: PackedQuadFelt)
        requires
            self.base_constraint_index + self.ext_constraint_index == self.constraint_count,
            self.base_constraint_index == if self.base_alpha_powers@.len() == 0 {
                0
            } else {
                self.base_alpha_powers@[0]@.len()
            },
            self.ext_constraint_index == self.ext_alpha_powers@.len(),
        ensures
            forall|i: int|
                0 <= i < WIDTH ==> #[trigger] r@[i] == self.base_acc@[i].plus(self.ext_acc@[i]),
    {
        self.base_acc + self.ext_acc
    }

    /// Two rows of the main trace.
    pub fn main(&self) -> (r: RowWindow<'a, PackedFelt>)
        ensures
            r == self.main,
    {
        self.main
    }

    /// There is no preprocessed trace.
    pub fn preprocessed(&self) -> (r: EmptyWindow)
        ensures
            r == (EmptyWindow {  }),
    {
        EmptyWindow {  }
    }

    /// The selector of the first row.
    pub fn is_first_row(&self) -> (r: PackedFelt)
        ensures
            r == self.selectors.is_first_row,
    {
        self.selectors.is_first_row
    }

    /// The selector of the last row.
    pub fn is_last_row(&self) -> (r: PackedFelt)
        ensures
            r == self.selectors.is_last_row,
    {
        self.selectors.is_last_row
    }

    /// The selector of the rows that have a next one. Only windows of two rows are supported.
    pub fn is_transition_window(&self, size: usize) -> (r: PackedFelt)
        requires
            size == 2,
        ensures
            r == self.selectors.is_transition,
    {
        self.selectors.is_transition
    }

    /// The product of a constraint in the base field with the power of alpha with the given index.
    fn base_term(&self, val: PackedFelt, idx: usize) -> (r: PackedQuadFelt)
        requires
            idx < self.num_base_powers(),
        ensures
            forall|i: int|
                0 <= i < WIDTH ==> #[trigger] r@[i] == quad::base(val@[i]).times(
                    base_powers(self.base_alpha_powers@)[idx as int],
                ),
            forall|i: int|
                0 <= i < WIDTH ==> #[trigger] r@[i] == quad::base(val@[i]).times(
                    (Quad {
                        c0: self.base_alpha_powers@[0]@[idx as int]@,
                        c1: self.base_alpha_powers@[1]@[idx as int]@,
                    }),
                ),
    {
        let a0: Felt = self.base_alpha_powers[0][idx];
        let a1: Felt = self.base_alpha_powers[1][idx];
        let r: PackedQuadFelt = PackedQuadFelt::new(val * a0, val * a1);
        proof {
            assert forall|i: int| 0 <= i < WIDTH implies #[trigger] r@[i] == quad::base(
                val@[i],
            ).times(base_powers(self.base_alpha_powers@)[idx as int]) by {
                let v: int = val@[i];
                quad::lemma_lift(v, 0, a0@, a1@);
                quad::lemma_quad(Quad { c0: a0@, c1: a1@ });
                assert(0 * a1@ == 0 && 0 * a0@ == 0);
                assert(v * a0@ + 7 * 0 == v * a0@);
            }
        }
        r
    }

    /// Gives a constraint in the base field.
    pub fn assert_zero<I: Into<PackedFelt>>(&mut self, x: I)
        requires
            old(self).base_constraint_index < old(self).num_base_powers(),
        ensures
            exists|val: PackedFelt| #[trigger]
                call_ensures(I::into, (x,), val) && forall|i: int|
                    0 <= i < WIDTH ==> #[trigger] final(self).base_acc@[i] == old(
                        self,
                    ).base_acc@[i].plus(
                        quad::base(val@[i]).times(
                            base_powers(old(self).base_alpha_powers@)[old(
                                self,
                            ).base_constraint_index as int],
                        ),
                    ) && final(self).base_acc@[i] == old(self).base_acc@[i].plus(
                        quad::base(val@[i]).times(
                            (Quad {
                                c0: old(self).base_alpha_powers@[0]@[old(
                                    self,
                                ).base_constraint_index as int]@,
                                c1: old(self).base_alpha_powers@[1]@[old(
                                    self,
                                ).base_constraint_index as int]@,
                            }),
                        ),
                    ),
            *final(self) == (ProverConstraintFolder {
                base_acc: final(self).base_acc,
                base_constraint_index: (old(self).base_constraint_index + 1) as usize,
                ..*old(self)
            }),
    {
        let val: PackedFelt = x.into();
        let idx: usize = self.base_constraint_index;
        let delta: PackedQuadFelt = self.base_term(val, idx);
        assert(idx < self.base_alpha_powers@[0].len());
        self.base_acc = self.base_acc + delta;
        self.base_constraint_index = idx + 1;
        assert(call_ensures(I::into, (x,), val));
    }

    /// Gives several constraints in the base field.
    pub fn assert_zeros<const N: usize, I: Into<PackedFelt>>(&mut self, array: [I; N])
        requires
            N > 0 ==> old(self).base_constraint_index + N <= old(self).num_base_powers(),
        ensures
            exists|vals: Seq<PackedFelt>|
                #![trigger vals.len()]
                vals.len() == N && (forall|j: int|
                    0 <= j < N ==> call_ensures(I::into, (array[j],), #[trigger] vals[j])) && (
                forall|i: int|
                    0 <= i < WIDTH ==> #[trigger] final(self).base_acc@[i] == old(
                        self,
                    ).base_acc@[i].plus(
                        barycentric::total(
                            base_terms(
                                base_powers(old(self).base_alpha_powers@),
                                old(self).base_constraint_index as nat,
                                vals,
                                i,
                            ),
                        ),
                    ) && final(self).base_acc@[i] == old(self).base_acc@[i].plus(
                        barycentric::total(
                            Seq::new(
                                N as nat,
                                |j: int|
                                    quad::base(vals[j]@[i]).times(
                                        (Quad {
                                            c0: old(self).base_alpha_powers@[0]@[old(
                                                self,
                                            ).base_constraint_index + j]@,
                                            c1: old(self).base_alpha_powers@[1]@[old(
                                                self,
                                            ).base_constraint_index + j]@,
                                        }),
                                    ),
                            ),
                        ),
                    )),
            *final(self) == (ProverConstraintFolder {
                base_acc: final(self).base_acc,
                base_constraint_index: (old(self).base_constraint_index + N) as usize,
                ..*old(self)
            }),
    {
        let idx: usize = self.base_constraint_index;
        let mut delta: PackedQuadFelt = PackedQuadFelt::zero();
        let ghost mut vals: Seq<PackedFelt> = seq![];
        let ghost powers: Seq<Quad> = base_powers(self.base_alpha_powers@);
        let items: Vec<I> = Vec::from(array);
        let mut j: usize = 0;
        for x in iter: items.into_iter()
            invariant
                iter.seq() == array@,
                j == iter.index(),
                *self == *old(self),
                idx == self.base_constraint_index,
                N > 0 ==> idx + N <= self.num_base_powers(),
                powers == base_powers(self.base_alpha_powers@),
                vals.len() == j,
                forall|k: int|
                    0 <= k < j ==> call_ensures(I::into, (array[k],), #[trigger] vals[k]),
                forall|i: int|
                    0 <= i < WIDTH ==> #[trigger] delta@[i] == barycentric::total(
                        base_terms(powers, idx as nat, vals, i),
                    ),
        {
            assert(idx + j < self.base_alpha_powers@[0].len());
            let val: PackedFelt = x.into();
            let term: PackedQuadFelt = self.base_term(val, idx + j);
            let ghost before: Seq<PackedFelt> = vals;
            let ghost sum: PackedQuadFelt = delta;
            delta = delta + term;
            proof {
                vals = vals.push(val);
                assert(call_ensures(I::into, (array[j as int],), vals[j as int]));
                assert forall|i: int| 0 <= i < WIDTH implies #[trigger] delta@[i]
                    == barycentric::total(base_terms(powers, idx as nat, vals, i)) by {
                    assert(base_terms(powers, idx as nat, vals, i).drop_last() =~= base_terms(
                        powers,
                        idx as nat,
                        before,
                        i,
                    ));
                    assert(sum@[i] == barycentric::total(
                        base_terms(powers, idx as nat, before, i),
                    ));
                }
            }
            j = j + 1;
        }
        assert(N > 0 ==> idx + N <= self.base_alpha_powers@[0].len());
        self.base_acc = self.base_acc + delta;
        self.base_constraint_index = idx + N;
        proof {
            assert(vals.len() == N);
            assert forall|i: int| 0 <= i < WIDTH implies #[trigger] base_terms(
                powers,
                idx as nat,
                vals,
                i,
            ) == Seq::new(
                N as nat,
                |j: int|
                    quad::base(vals[j]@[i]).times(
                        (Quad {
                            c0: old(self).base_alpha_powers@[0]@[idx + j]@,
                            c1: old(self).base_alpha_powers@[1]@[idx + j]@,
                        }),
                    ),
            ) by {
                assert(base_terms(powers, idx as nat, vals, i) =~= Seq::new(
                    N as nat,
                    |j: int|
                        quad::base(vals[j]@[i]).times(
                            (Quad {
                                c0: old(self).base_alpha_powers@[0]@[idx + j]@,
                                c1: old(self).base_alpha_powers@[1]@[idx + j]@,
                            }),
                        ),
                ));
            }
        }
    }

    /// The public values.
    pub fn public_values(&self) -> (r: &'a [Felt])
        ensures
            r == self.public_values,
    {
        self.public_values
    }

    /// Gives a constraint in the extension.
    pub fn assert_zero_ext<I: Into<PackedQuadFelt>>(&mut self, x: I)
        requires
            old(self).ext_constraint_index < old(self).ext_alpha_powers@.len(),
        ensures
            exists|val: PackedQuadFelt| #[trigger]
                call_ensures(I::into, (x,), val) && forall|i: int|
                    0 <= i < WIDTH ==> #[trigger] final(self).ext_acc@[i] == old(
                        self,
                    ).ext_acc@[i].plus(
                        val@[i].times(
                            old(self).ext_alpha_powers@[old(
                                self,
                            ).ext_constraint_index as int]@,
                        ),
                    ),
            *final(self) == (ProverConstraintFolder {
                ext_acc: final(self).ext_acc,
                ext_constraint_index: (old(self).ext_constraint_index + 1) as usize,
                ..*old(self)
            }),
    {
        let val: PackedQuadFelt = x.into();
        let idx: usize = self.ext_constraint_index;
        self.ext_acc = self.ext_acc + val * self.ext_alpha_powers[idx];
        self.ext_constraint_index = idx + 1;
        assert(call_ensures(I::into, (x,), val));
    }

    /// Two rows of the auxiliary trace.
    pub fn permutation(&self) -> (r: RowWindow<'a, PackedQuadFelt>)
        ensures
            r == self.aux,
    {
        self.aux
    }

    /// The randomness for the auxiliary trace.
    pub fn permutation_randomness(&self) -> (r: &'a [PackedQuadFelt])
        ensures
            r == self.packed_randomness,
    {
        self.packed_randomness
    }

    /// The values of the permutation argument.
    pub fn permutation_values(&self) -> (r: &'a [PackedQuadFelt])
        ensures
            r == self.permutation_values,
    {
        self.permutation_values
    }

    /// The values of the periodic columns.
    pub fn periodic_values(&self) -> (r: &'a [PackedFelt])
        ensures
            r == self.periodic_values,
    {
        self.periodic_values
    }
}

} // verus!
