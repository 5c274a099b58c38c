//! Horner folds.

use crate::barycentric;
use crate::coset;
use crate::felt;
use crate::felt::Felt;
use crate::quad;
use crate::quad::{Quad, QuadFelt};
use core::ops::{Add, Mul};
use vstd::arithmetic::power::pow;
use vstd::prelude::*;
use vstd::std_specs::iter::IteratorSpec;
use vstd::std_specs::ops::{AddSpec, MulSpec};

verus! {

/// `((acc * x + v_0) * x + v_1) * x + ... + v_(n - 1)`.
pub open spec fn horner_fold<Acc, Val, X>(acc: Acc, x: X, vals: Seq<Val>) -> Acc where
    Acc: Mul<X, Output = Acc> + Add<Val, Output = Acc>,

    decreases vals.len(),
{
    if vals.len() == 0 {
        acc
    } else {
        horner_fold(acc.mul_spec(x).add_spec(vals[0]), x, vals.drop_first())
    }
}

/// Whether the multiplications and additions of a Horner fold can all be done. Those of machine
/// integers cannot where they overflow.
pub open spec fn fold_admitted<Acc, Val, X>(acc: Acc, x: X, vals: Seq<Val>) -> bool where
    Acc: Mul<X, Output = Acc> + Add<Val, Output = Acc>,

    decreases vals.len(),
{
    if vals.len() == 0 {
        true
    } else {
        let product: Acc = acc.mul_spec(x);
        &&& acc.mul_req(x)
        &&& product.add_req(vals[0])
        &&& fold_admitted(product.add_spec(vals[0]), x, vals.drop_first())
    }
}

/// Whether all multiplications and additions can be done, as those of field elements can.
pub open spec fn is_total<Acc, Val, X>() -> bool where
    Acc: Mul<X, Output = Acc> + Add<Val, Output = Acc>,
 {
    &&& forall|a: Acc, b: X| #[trigger] a.mul_req(b)
    &&& forall|a: Acc, b: Val| #[trigger] a.add_req(b)
}

/// Where all multiplications and additions can be done, so can those of any fold.
proof fn lemma_total_fold<Acc, Val, X>(acc: Acc, x: X, vals: Seq<Val>) where
    Acc: Mul<X, Output = Acc> + Add<Val, Output = Acc>,

    requires
        is_total::<Acc, Val, X>(),
    ensures
        fold_admitted(acc, x, vals),
    decreases vals.len(),
{
    if vals.len() > 0 {
        lemma_total_fold(acc.mul_spec(x).add_spec(vals[0]), x, vals.drop_first());
    }
}

/// The fold of two lists one after the other is the fold of the second, started with the fold of the
/// first. It can be done where both can.
pub proof fn law_horner_concat<Acc, Val, X>(acc: Acc, x: X, a: Seq<Val>, b: Seq<Val>) where
    Acc: Mul<X, Output = Acc> + Add<Val, Output = Acc>,

    ensures
        horner_fold(acc, x, a + b) == horner_fold(horner_fold(acc, x, a), x, b),
        fold_admitted(acc, x, a + b) <==> fold_admitted(acc, x, a) && fold_admitted(
            horner_fold(acc, x, a),
            x,
            b,
        ),
    decreases a.len(),
{
    if a.len() == 0 {
        assert(a + b =~= b);
    } else {
        assert((a + b).drop_first() =~= a.drop_first() + b);
        law_horner_concat(acc.mul_spec(x).add_spec(a[0]), x, a.drop_first(), b);
    }
}

/// A fold over no values leaves the accumulator as it is, and one more value at the end is added to
/// the fold so far times `x`. This can be done where the fold so far, the multiplication and the
/// addition can.
pub proof fn law_horner_push<Acc, Val, X>(acc: Acc, x: X, vals: Seq<Val>, val: Val) where
    Acc: Mul<X, Output = Acc> + Add<Val, Output = Acc>,

    ensures
        horner_fold(acc, x, Seq::<Val>::empty()) == acc,
        horner_fold(acc, x, vals.push(val)) == horner_fold(acc, x, vals).mul_spec(x).add_spec(val),
        fold_admitted(acc, x, Seq::<Val>::empty()),
        fold_admitted(acc, x, vals.push(val)) <==> fold_admitted(acc, x, vals) && horner_fold(
            acc,
            x,
            vals,
        ).mul_req(x) && horner_fold(acc, x, vals).mul_spec(x).add_req(val),
    decreases vals.len(),
{
    let all: Seq<Val> = vals.push(val);
    if vals.len() == 0 {
        let next: Acc = acc.mul_spec(x).add_spec(val);
        assert(all.drop_first() =~= Seq::<Val>::empty());
        assert(horner_fold(next, x, all.drop_first()) == next);
        assert(fold_admitted(next, x, all.drop_first()));
    } else {
        assert(all.drop_first() =~= vals.drop_first().push(val));
        law_horner_push(acc.mul_spec(x).add_spec(vals[0]), x, vals.drop_first(), val);
    }
}

/// Horner fold with an explicit accumulator.
///
/// Computes `acc * x^n + v_0 * x^(n - 1) + v_1 * x^(n - 2) + ... + v_(n - 1)`, where `n` is the
/// number of values. The first value gets the highest power of `x`: for the value of a polynomial,
/// pass its coefficients from the highest degree to the lowest.
pub fn horner_acc<Acc, Val, X, I>(acc: Acc, x: X, vals: I) -> (r: Acc) where
    I: Iterator<Item = Val>,
    Acc: Mul<X, Output = Acc> + Add<Val, Output = Acc>,
    X: Clone,

    requires
        vals.obeys_prophetic_iter_laws(),
        vals.decrease() is Some,
        is_total::<Acc, Val, X>() || fold_admitted(acc, x, vals.remaining()),
        Acc::obeys_mul_spec(),
        Acc::obeys_add_spec(),
        forall|a: X, b: X| #[trigger] cloned(a, b) ==> a == b,
    ensures
        r == horner_fold(acc, x, vals.remaining()),
{
    let mut vals: I = vals;
    let mut acc: Acc = acc;
    proof {
        if is_total::<Acc, Val, X>() {
            lemma_total_fold(acc, x, vals.remaining());
        }
    }
    let ghost whole: Acc = horner_fold(acc, x, vals.remaining());
    loop
        invariant_except_break
            horner_fold(acc, x, vals.remaining()) == whole,
            fold_admitted(acc, x, vals.remaining()),
        invariant
            vals.obeys_prophetic_iter_laws(),
            vals.decrease() is Some,
            Acc::obeys_mul_spec(),
            Acc::obeys_add_spec(),
            forall|a: X, b: X| #[trigger] cloned(a, b) ==> a == b,
        ensures
            acc == whole,
        decreases vals.decrease()->0,
    {
        match vals.next() {
            Some(val) => {
                let factor: X = x.clone();
                assert(cloned(x, factor));
                acc = acc * factor + val;
            },
            None => {
                break;
            },
        }
    }
    acc
}

/// Horner fold that starts from the default value, which is zero for field elements.
///
/// See [`horner_acc`] for the order of the values.
pub fn horner<Acc, Val, X, I>(x: X, vals: I) -> (r: Acc) where
    I: Iterator<Item = Val>,
    Acc: Default + Mul<X, Output = Acc> + Add<Val, Output = Acc>,
    X: Clone,

    requires
        vals.obeys_prophetic_iter_laws(),
        vals.decrease() is Some,
        is_total::<Acc, Val, X>() || forall|zero: Acc| #[trigger]
            call_ensures(Acc::default, (), zero) ==> fold_admitted(zero, x, vals.remaining()),
        Acc::obeys_mul_spec(),
        Acc::obeys_add_spec(),
        forall|a: X, b: X| #[trigger] cloned(a, b) ==> a == b,
    ensures
        exists|zero: Acc| #[trigger]
            call_ensures(Acc::default, (), zero) && r == horner_fold(zero, x, vals.remaining()),
{
    horner_acc(Acc::default(), x, vals)
}

/// Appending the coefficient of the highest power.
proof fn lemma_value_push(coeffs: Seq<Quad>, c: Quad, x: Quad)
    requires
        barycentric::all_wf(coeffs),
        c.wf(),
        x.wf(),
    ensures
        barycentric::value_at(coeffs.push(c), x) == barycentric::value_at(coeffs, x).plus(
            coset::power(x, coeffs.len()).times(c),
        ),
    decreases coeffs.len(),
{
    let all: Seq<Quad> = coeffs.push(c);
    if coeffs.len() == 0 {
        assert(all.drop_first() =~= seq![]);
        assert(barycentric::value_at(all.drop_first(), x) == quad::base(0));
        quad::lemma_mul(x, c);
        quad::lemma_mul(c, x);
        quad::lemma_add(c, c, c);
    } else {
        let rest: Seq<Quad> = coeffs.drop_first();
        let p: Quad = coset::power(x, rest.len());
        let v: Quad = barycentric::value_at(rest, x);
        assert(all.drop_first() =~= rest.push(c));
        lemma_value_push(rest, c, x);
        barycentric::lemma_value_wf(rest, x);
        coset::lemma_power_wf(x, rest.len());
        quad::lemma_distribute(x, v, p.times(c));
        quad::lemma_mul_assoc(x, p, c);
        quad::lemma_add(coeffs[0], x.times(v), x.times(p).times(c));
    }
}

/// `((acc * x + v_0) * x + v_1) * x + ... + v_(n - 1)` in the extension.
pub open spec fn ring_fold(acc: Quad, x: Quad, vals: Seq<Quad>) -> Quad
    decreases vals.len(),
{
    if vals.len() == 0 {
        acc
    } else {
        ring_fold(acc.times(x).plus(vals[0]), x, vals.drop_first())
    }
}

/// A fold is the accumulator times the highest power, plus the value of the polynomial whose
/// coefficients are the values, from the highest degree to the lowest.
proof fn lemma_ring_fold(acc: Quad, x: Quad, vals: Seq<Quad>)
    requires
        acc.wf(),
        x.wf(),
        barycentric::all_wf(vals),
    ensures
        ring_fold(acc, x, vals) == coset::power(x, vals.len()).times(acc).plus(
            barycentric::value_at(vals.reverse(), x),
        ),
    decreases vals.len(),
{
    if vals.len() == 0 {
        assert(vals.reverse() =~= seq![]);
        quad::lemma_mul(acc, acc);
        quad::lemma_add(acc, acc, acc);
    } else {
        let rest: Seq<Quad> = vals.drop_first();
        let first: Quad = vals[0];
        let coeffs: Seq<Quad> = rest.reverse();
        let p: Quad = coset::power(x, rest.len());
        lemma_ring_fold(acc.times(x).plus(first), x, rest);
        assert(vals.reverse() =~= coeffs.push(first));
        lemma_value_push(coeffs, first, x);
        let v: Quad = barycentric::value_at(coeffs, x);
        barycentric::lemma_value_wf(coeffs, x);
        coset::lemma_power_wf(x, rest.len());
        // p * (acc * x + first) + v == (x * p) * acc + (v + p * first)
        quad::lemma_distribute(p, acc.times(x), first);
        quad::lemma_mul(acc, x);
        quad::lemma_mul_assoc(p, x, acc);
        quad::lemma_mul(p, x);
        quad::lemma_add(x.times(p).times(acc), p.times(first), v);
        quad::lemma_add(p.times(first), v, v);
    }
}

/// The elements of a list of extension elements.
pub open spec fn elements(vals: Seq<QuadFelt>) -> Seq<Quad> {
    Seq::new(vals.len(), |i: int| vals[i]@)
}

/// A Horner fold over the extension is the accumulator times the highest power, plus the value of
/// the polynomial whose coefficients are the values, from the highest degree to the lowest.
pub proof fn law_horner(acc: QuadFelt, x: QuadFelt, vals: Seq<QuadFelt>)
    ensures
        horner_fold(acc, x, vals)@ == coset::power(x@, vals.len()).times(acc@).plus(
            barycentric::value_at(elements(vals).reverse(), x@),
        ),
{
    lemma_extension_fold(acc, x, vals);
    lemma_ring_fold(acc@, x@, elements(vals));
}

proof fn lemma_extension_fold(acc: QuadFelt, x: QuadFelt, vals: Seq<QuadFelt>)
    ensures
        horner_fold(acc, x, vals)@ == ring_fold(acc@, x@, elements(vals)),
    decreases vals.len(),
{
    if vals.len() > 0 {
        let product: QuadFelt = acc.mul_spec(x);
        quad::lemma_quad_felt(acc@.times(x@));
        quad::lemma_quad_felt(product@.plus(vals[0]@));
        lemma_extension_fold(product.add_spec(vals[0]), x, vals.drop_first());
        assert(elements(vals).drop_first() =~= elements(vals.drop_first()));
    }
}

/// A Horner fold over the base field is the accumulator times the highest power, plus the value of
/// the polynomial whose coefficients are the values, from the highest degree to the lowest.
pub proof fn law_horner_base(acc: Felt, x: Felt, vals: Seq<Felt>)
    ensures
        quad::base(horner_fold(acc, x, vals)@) == coset::power(
            quad::base(x@),
            vals.len(),
        ).times(quad::base(acc@)).plus(
            barycentric::value_at(coset::embedded(vals).reverse(), quad::base(x@)),
        ),
{
    lemma_base_fold(acc, x, vals);
    lemma_ring_fold(quad::base(acc@), quad::base(x@), coset::embedded(vals));
}

proof fn lemma_base_fold(acc: Felt, x: Felt, vals: Seq<Felt>)
    ensures
        quad::base(horner_fold(acc, x, vals)@) == ring_fold(
            quad::base(acc@),
            quad::base(x@),
            coset::embedded(vals),
        ),
    decreases vals.len(),
{
    if vals.len() > 0 {
        let product: Felt = acc.mul_spec(x);
        let next: Felt = product.add_spec(vals[0]);
        felt::lemma_reduce_operands(acc@ * x@, 0);
        felt::lemma_reduce_operands(product@ + vals[0]@, 0);
        quad::lemma_base(acc@, x@);
        quad::lemma_base(acc@ * x@, 0);
        quad::lemma_base(product@, vals[0]@);
        quad::lemma_base(product@ + vals[0]@, 0);
        lemma_base_fold(next, x, vals.drop_first());
        assert(coset::embedded(vals).drop_first() =~= coset::embedded(vals.drop_first()));
    }
}

/// The integer `v_0 * x^(n - 1) + v_1 * x^(n - 2) + ... + v_(n - 1)`.
pub open spec fn integer_value(vals: Seq<u64>, x: int) -> int
    decreases vals.len(),
{
    if vals.len() == 0 {
        0
    } else {
        vals[0] * pow(x, (vals.len() - 1) as nat) + integer_value(vals.drop_first(), x)
    }
}

/// A Horner fold over machine integers that does not overflow is the accumulator times the highest
/// power, plus each value times its power.
pub proof fn law_horner_integers(acc: u64, x: u64, vals: Seq<u64>)
    requires
        fold_admitted(acc, x, vals),
    ensures
        horner_fold(acc, x, vals) == acc * pow(x as int, vals.len()) + integer_value(
            vals,
            x as int,
        ),
    decreases vals.len(),
{
    vstd::arithmetic::power::lemma_pow0(x as int);
    if vals.len() == 0 {
        assert(acc * 1 == acc);
    } else {
        let n: nat = (vals.len() - 1) as nat;
        let p: int = pow(x as int, n);
        let next: u64 = acc.mul_spec(x).add_spec(vals[0]);
        law_horner_integers(next, x, vals.drop_first());
        vstd::arithmetic::power::lemma_pow_adds(x as int, 1, n);
        vstd::arithmetic::power::lemma_pow1(x as int);
        assert(next == acc * x + vals[0]);
        assert((acc * x + vals[0]) * p == acc * (x * p) + vals[0] * p) by (nonlinear_arith);
    }
}

/// A polynomial without coefficients is zero everywhere, and one more coefficient adds its product
/// with the power of `x` that is as high as there are coefficients before it.
pub proof fn law_value_push(coeffs: Seq<Quad>, c: Quad, x: Quad)
    requires
        barycentric::all_wf(coeffs),
        c.wf(),
        x.wf(),
    ensures
        barycentric::value_at(seq![], x) == quad::base(0),
        barycentric::value_at(coeffs.push(c), x) == barycentric::value_at(coeffs, x).plus(
            coset::power(x, coeffs.len()).times(c),
        ),
{
    lemma_value_push(coeffs, c, x);
}

/// The elements of a list are those of its entries.
pub proof fn law_elements(vals: Seq<QuadFelt>, i: int)
    requires
        0 <= i < vals.len(),
    ensures
        elements(vals).len() == vals.len(),
        elements(vals)[i] == vals[i]@,
{
}

/// The integer that values stand for is zero where there are none, and one more value at the end
/// multiplies the integer with `x` before the value is added.
pub proof fn law_integer_value(vals: Seq<u64>, val: u64, x: int)
    ensures
        integer_value(seq![], x) == 0,
        integer_value(vals.push(val), x) == integer_value(vals, x) * x + val,
    decreases vals.len(),
{
    let all: Seq<u64> = vals.push(val);
    vstd::arithmetic::power::lemma_pow0(x);
    if vals.len() == 0 {
        assert(all.drop_first() =~= seq![]);
        assert(integer_value(all.drop_first(), x) == 0);
        assert(val * 1 == val);
        assert(0 * x == 0);
    } else {
        let n: nat = (vals.len() - 1) as nat;
        let (p, v): (int, int) = (pow(x, n), integer_value(vals.drop_first(), x));
        assert(all.drop_first() =~= vals.drop_first().push(val));
        law_integer_value(vals.drop_first(), val, x);
        vstd::arithmetic::power::lemma_pow_adds(x, 1, n);
        vstd::arithmetic::power::lemma_pow1(x);
        let first: int = vals[0] as int;
        assert(first * (x * p) + (v * x + val) == (first * p + v) * x + val) by (nonlinear_arith);
    }
}

} // verus!
