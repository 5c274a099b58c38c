//! Barycentric interpolation on cosets of two-adic groups, with lifting.
//!
//! A polynomial `f` of degree below `d`, sampled at the points `x_i` of a coset of size `d`, has at
//! `z` the value `s(z) * sum(w_i(z) * f(x_i))`, with the weights `w_i(z) = x_i / (z - x_i)` and the
//! scaling `s(z) = ((z / x_0)^d - 1) / d`.
//!
//! In bit-reversed order the points come in adjacent pairs `x, -x`, whose squares are the points of
//! a coset of half the size. A polynomial on that coset has the same value at both points of a
//! pair, so its weights are the sums of adjacent weights on the larger one.

use crate::felt;
use crate::quad;
use crate::quad::Quad;
use vstd::arithmetic::power2::pow2;
use vstd::prelude::*;

verus! {

// SUMS
// ================================================================================================

/// Whether all entries are elements of the extension.
pub open spec fn all_wf(s: Seq<Quad>) -> bool {
    forall|i: int| 0 <= i < s.len() ==> (#[trigger] s[i]).wf()
}

/// The sum of all entries.
pub open spec fn total(s: Seq<Quad>) -> Quad
    decreases s.len(),
{
    if s.len() == 0 {
        quad::base(0)
    } else {
        total(s.drop_last()).plus(s.last())
    }
}

/// The sum of the products of corresponding entries, as far as `a` goes.
pub open spec fn dot(a: Seq<Quad>, b: Seq<Quad>) -> Quad {
    total(Seq::new(a.len(), |i: int| a[i].times(b[i])))
}

/// Every entry times the same factor.
pub open spec fn scaled(a: Quad, s: Seq<Quad>) -> Seq<Quad> {
    Seq::new(s.len(), |i: int| a.times(s[i]))
}

/// The sums of `chunk` adjacent entries each.
pub open spec fn chunk_sums(s: Seq<Quad>, chunk: nat) -> Seq<Quad> {
    Seq::new(
        s.len() / chunk,
        |i: int| total(s.subrange(chunk * i, chunk * i + chunk)),
    )
}

/// A sum of no entries is zero, and one more entry is added to it.
pub proof fn law_total(s: Seq<Quad>, x: Quad)
    ensures
        total(seq![]) == quad::base(0),
        total(s.push(x)) == total(s).plus(x),
{
    assert(s.push(x).drop_last() =~= s);
}

/// A sum of products starts from zero, and one more factor adds its product with the entry of the
/// other list at the same place.
pub proof fn law_dot(a: Seq<Quad>, b: Seq<Quad>, x: Quad)
    ensures
        dot(seq![], b) == quad::base(0),
        dot(a.push(x), b) == dot(a, b).plus(x.times(b[a.len() as int])),
{
    let none: Seq<Quad> = seq![];
    let more: Seq<Quad> = a.push(x);
    let terms: Seq<Quad> = Seq::new(a.len(), |i: int| a[i].times(b[i]));
    assert(Seq::new(none.len(), |i: int| none[i].times(b[i])) =~= seq![]);
    assert(Seq::new(more.len(), |i: int| more[i].times(b[i])) =~= terms.push(
        x.times(b[a.len() as int]),
    ));
    law_total(terms, x.times(b[a.len() as int]));
}

/// A list of factors is scaled entry by entry, and the weight of each point is the point times the
/// inverse of its difference.
pub proof fn law_entries(a: Quad, s: Seq<Quad>, points: Seq<Quad>, quotients: Seq<Quad>, i: int)
    ensures
        scaled(a, s).len() == s.len(),
        0 <= i < s.len() ==> scaled(a, s)[i] == a.times(s[i]),
        weights(points, quotients).len() == points.len(),
        0 <= i < points.len() ==> weights(points, quotients)[i] == points[i].times(quotients[i]),
{
}

/// Each chunk has its own sum: a chunk sum is the sum of those entries that come after as many
/// entries as there are in the chunks before it.
pub proof fn law_chunk_sums(s: Seq<Quad>, chunk: nat, i: int, entries: Seq<Quad>)
    requires
        chunk > 0,
        0 <= i < s.len() / chunk,
        entries.len() == chunk,
        forall|q: int| 0 <= q < chunk ==> #[trigger] entries[q] == s[chunk * i + q],
    ensures
        chunk_sums(s, chunk).len() == s.len() / chunk,
        chunk_sums(s, chunk)[i] == total(entries),
{
    lemma_chunk_bounds(s.len(), chunk, i);
    assert(s.subrange(chunk * i, chunk * i + chunk) =~= entries);
}

/// All entries are elements of the extension where each coefficient is a canonical representative.
pub proof fn law_all_wf(s: Seq<Quad>)
    ensures
        all_wf(s) <==> forall|i: int|
            0 <= i < s.len() ==> 0 <= (#[trigger] s[i]).c0 <= 0xFFFF_FFFF_0000_0000 && 0
                <= s[i].c1 <= 0xFFFF_FFFF_0000_0000,
{
    if all_wf(s) {
        assert forall|i: int| 0 <= i < s.len() implies 0 <= (#[trigger] s[i]).c0
            <= 0xFFFF_FFFF_0000_0000 && 0 <= s[i].c1 <= 0xFFFF_FFFF_0000_0000 by {
            assert(s[i].wf());
        }
    }
}

/// A list holds the inverses of the differences of `z` to the points where each of its entries times
/// the difference of `z` to the point at the same place is one.
pub proof fn law_are_quotients(quotients: Seq<Quad>, points: Seq<Quad>, z: Quad)
    requires
        quotients.len() == points.len(),
        all_wf(quotients),
    ensures
        are_quotients(quotients, points, z) <==> forall|i: int|
            0 <= i < points.len() ==> (#[trigger] quotients[i]).times(z.minus(points[i]))
                == quad::base(1),
{
}

/// A sum is an element of the extension.
pub proof fn lemma_total_wf(s: Seq<Quad>)
    ensures
        total(s).wf(),
    decreases s.len(),
{
}

/// The sum of two lists is the sum of their sums.
pub proof fn lemma_total_concat(a: Seq<Quad>, b: Seq<Quad>)
    requires
        all_wf(a),
        all_wf(b),
    ensures
        total(a + b) == total(a).plus(total(b)),
    decreases b.len(),
{
    lemma_total_wf(a);
    if b.len() == 0 {
        assert(a + b =~= a);
        quad::lemma_add(total(a), total(a), total(a));
    } else {
        let front: Seq<Quad> = b.drop_last();
        assert((a + b).drop_last() =~= a + front);
        lemma_total_concat(a, front);
        lemma_total_wf(front);
        quad::lemma_add(total(a), total(front), b.last());
    }
}

/// A common factor can be taken out of a sum.
pub proof fn lemma_total_scaled(a: Quad, s: Seq<Quad>)
    requires
        a.wf(),
        all_wf(s),
    ensures
        total(scaled(a, s)) == a.times(total(s)),
    decreases s.len(),
{
    if s.len() == 0 {
        quad::lemma_mul(a, a);
    } else {
        let front: Seq<Quad> = s.drop_last();
        assert(scaled(a, s).drop_last() =~= scaled(a, front));
        lemma_total_scaled(a, front);
        lemma_total_wf(front);
        quad::lemma_distribute(a, total(front), s.last());
    }
}

/// Chunk sums of chunk sums are the sums of larger chunks.
pub proof fn lemma_chunks_compose(s: Seq<Quad>, a: nat, b: nat)
    requires
        all_wf(s),
        a > 0,
        b > 0,
    ensures
        chunk_sums(chunk_sums(s, a), b) == chunk_sums(s, a * b),
{
    let inner: Seq<Quad> = chunk_sums(s, a);
    let outer: Seq<Quad> = chunk_sums(inner, b);
    assert(a * b > 0) by (nonlinear_arith)
        requires
            a > 0,
            b > 0,
    ;
    vstd::arithmetic::div_mod::lemma_div_denominator(s.len() as int, a as int, b as int);
    assert forall|i: int| 0 <= i < outer.len() implies #[trigger] outer[i] == chunk_sums(
        s,
        a * b,
    )[i] by {
        lemma_chunk_bounds(inner.len(), b, i);
        lemma_chunk_bounds(s.len(), a * b, i);
        assert((a * b) * i == a * (b * i)) by (nonlinear_arith);
        assert((a * b) * i + a * b == a * (b * i) + a * b);
        assert(a * (b * i + b) == a * (b * i) + a * b) by (nonlinear_arith);
        lemma_chunk_run(s, a, (b * i) as nat, b);
    }
    assert(outer =~= chunk_sums(s, a * b));
}

/// A chunk lies within the list.
pub proof fn lemma_chunk_bounds(len: nat, chunk: nat, i: int)
    requires
        chunk > 0,
        0 <= i < len / chunk,
    ensures
        0 <= chunk * i,
        chunk * i + chunk <= len,
{
    vstd::arithmetic::div_mod::lemma_fundamental_div_mod(len as int, chunk as int);
    assert(0 <= chunk * i) by (nonlinear_arith)
        requires
            0 <= i,
            chunk > 0,
    ;
    assert(chunk * i + chunk <= chunk * (len / chunk)) by (nonlinear_arith)
        requires
            i + 1 <= len / chunk,
            chunk > 0,
    ;
}

/// The sum of `n` chunk sums in a row is the sum over all their entries.
proof fn lemma_chunk_run(s: Seq<Quad>, a: nat, start: nat, n: nat)
    requires
        all_wf(s),
        a > 0,
        a * (start + n) <= s.len(),
        start + n <= s.len() / a,
    ensures
        total(chunk_sums(s, a).subrange(start as int, (start + n) as int)) == total(
            s.subrange((a * start) as int, (a * (start + n)) as int),
        ),
    decreases n,
{
    let sums: Seq<Quad> = chunk_sums(s, a);
    if n == 0 {
        assert(sums.subrange(start as int, start as int) =~= seq![]);
        assert(s.subrange((a * start) as int, (a * start) as int) =~= seq![]);
    } else {
        let m: nat = (n - 1) as nat;
        let mid: int = (a * (start + m)) as int;
        let end: int = (a * (start + n)) as int;
        assert(a * (start + n) == a * (start + m) + a) by (nonlinear_arith)
            requires
                n == m + 1,
        ;
        assert(a * start <= a * (start + m)) by (nonlinear_arith);
        lemma_chunk_run(s, a, start, m);
        assert(sums.subrange(start as int, (start + n) as int).drop_last() =~= sums.subrange(
            start as int,
            (start + m) as int,
        ));
        let head: Seq<Quad> = s.subrange((a * start) as int, mid);
        let tail: Seq<Quad> = s.subrange(mid, end);
        assert(s.subrange((a * start) as int, end) =~= head + tail);
        lemma_total_concat(head, tail);
        assert(sums[(start + m) as int] == total(tail));
    }
}

/// Chunks of one entry are the entries.
pub proof fn lemma_chunks_of_one(s: Seq<Quad>)
    requires
        all_wf(s),
    ensures
        chunk_sums(s, 1) == s,
{
    assert(s.len() / 1 == s.len());
    assert forall|i: int| 0 <= i < s.len() implies #[trigger] chunk_sums(s, 1)[i] == s[i] by {
        let one: Seq<Quad> = s.subrange(1 * i, 1 * i + 1);
        assert(chunk_sums(s, 1)[i] == total(one));
        assert(total(one.drop_last()) == quad::base(0));
        assert(one.last() == s[i]);
        quad::lemma_add(s[i], s[i], s[i]);
    }
    assert(chunk_sums(s, 1) =~= s);
}

/// A factor of all entries is a factor of their chunk sums.
pub proof fn lemma_chunks_scaled(a: Quad, s: Seq<Quad>, chunk: nat)
    requires
        a.wf(),
        all_wf(s),
        chunk > 0,
    ensures
        chunk_sums(scaled(a, s), chunk) == scaled(a, chunk_sums(s, chunk)),
{
    let left: Seq<Quad> = chunk_sums(scaled(a, s), chunk);
    let right: Seq<Quad> = scaled(a, chunk_sums(s, chunk));
    assert forall|i: int| 0 <= i < left.len() implies #[trigger] left[i] == right[i] by {
        lemma_chunk_bounds(s.len(), chunk, i);
        let part: Seq<Quad> = s.subrange(chunk * i, chunk * i + chunk);
        assert(scaled(a, s).subrange(chunk * i, chunk * i + chunk) =~= scaled(a, part));
        lemma_total_scaled(a, part);
    }
    assert(left =~= right);
}

/// Chunk sums are elements of the extension.
pub proof fn lemma_chunks_wf(s: Seq<Quad>, chunk: nat)
    requires
        chunk > 0,
    ensures
        all_wf(chunk_sums(s, chunk)),
{
    assert forall|i: int| 0 <= i < chunk_sums(s, chunk).len() implies (#[trigger] chunk_sums(
        s,
        chunk,
    )[i]).wf() by {
        lemma_total_wf(s.subrange(chunk * i, chunk * i + chunk));
    }
}

/// A factor of all entries of the first list is a factor of the sum of products.
pub proof fn lemma_dot_scaled(a: Quad, s: Seq<Quad>, v: Seq<Quad>)
    requires
        a.wf(),
        all_wf(s),
        all_wf(v),
        s.len() <= v.len(),
    ensures
        dot(scaled(a, s), v) == a.times(dot(s, v)),
{
    let terms: Seq<Quad> = Seq::new(s.len(), |i: int| s[i].times(v[i]));
    let left: Seq<Quad> = Seq::new(s.len(), |i: int| scaled(a, s)[i].times(v[i]));
    assert forall|i: int| 0 <= i < s.len() implies #[trigger] left[i] == scaled(a, terms)[i] by {
        quad::lemma_mul_assoc(a, s[i], v[i]);
    }
    assert(left =~= scaled(a, terms));
    lemma_total_scaled(a, terms);
}

// POLYNOMIALS
// ================================================================================================

/// The value at `x` of the polynomial with the given coefficients, the lowest one first.
pub open spec fn value_at(coeffs: Seq<Quad>, x: Quad) -> Quad
    decreases coeffs.len(),
{
    if coeffs.len() == 0 {
        quad::base(0)
    } else {
        coeffs[0].plus(x.times(value_at(coeffs.drop_first(), x)))
    }
}

/// The coefficients of even powers.
pub open spec fn evens(coeffs: Seq<Quad>) -> Seq<Quad> {
    Seq::new((coeffs.len() + 1) / 2, |i: int| coeffs[2 * i])
}

/// The coefficients of odd powers.
pub open spec fn odds(coeffs: Seq<Quad>) -> Seq<Quad> {
    Seq::new(coeffs.len() / 2, |i: int| coeffs[2 * i + 1])
}

/// The coefficients of `a + z * b`, for lists of the same length.
pub open spec fn combined(a: Seq<Quad>, z: Quad, b: Seq<Quad>) -> Seq<Quad> {
    Seq::new(a.len(), |i: int| a[i].plus(z.times(b[i])))
}

/// A value is an element of the extension.
pub proof fn lemma_value_wf(coeffs: Seq<Quad>, x: Quad)
    ensures
        value_at(coeffs, x).wf(),
{
}

/// A polynomial is made of an even and an odd part.
pub proof fn lemma_even_odd(coeffs: Seq<Quad>, x: Quad)
    requires
        all_wf(coeffs),
        x.wf(),
    ensures
        value_at(coeffs, x) == value_at(evens(coeffs), x.times(x)).plus(
            x.times(value_at(odds(coeffs), x.times(x))),
        ),
    decreases coeffs.len(),
{
    let y: Quad = x.times(x);
    if coeffs.len() == 0 {
        quad::lemma_mul(x, x);
        quad::lemma_add(quad::base(0), x, x);
    } else {
        let rest: Seq<Quad> = coeffs.drop_first();
        let first: Quad = coeffs[0];
        let e: Quad = value_at(evens(rest), y);
        let o: Quad = value_at(odds(rest), y);
        lemma_value_wf(evens(rest), y);
        lemma_value_wf(odds(rest), y);
        lemma_even_odd(rest, x);
        assert(evens(coeffs).drop_first() =~= odds(rest));
        assert(odds(coeffs) =~= evens(rest));
        // first + x * (e + x * o) == (first + y * o) + x * e
        quad::lemma_distribute(x, e, x.times(o));
        quad::lemma_mul_assoc(x, x, o);
        quad::lemma_add(x.times(e), y.times(o), first);
        quad::lemma_add(first, y.times(o), x.times(e));
    }
}

/// The value of a combination is the combination of the values.
pub proof fn lemma_combined(a: Seq<Quad>, z: Quad, b: Seq<Quad>, y: Quad)
    requires
        all_wf(a),
        all_wf(b),
        a.len() == b.len(),
        z.wf(),
        y.wf(),
    ensures
        value_at(combined(a, z, b), y) == value_at(a, y).plus(z.times(value_at(b, y))),
    decreases a.len(),
{
    if a.len() == 0 {
        quad::lemma_mul(z, z);
        quad::lemma_add(quad::base(0), z, z);
    } else {
        let (a0, b0): (Quad, Quad) = (a[0], b[0]);
        let u: Quad = value_at(a.drop_first(), y);
        let v: Quad = value_at(b.drop_first(), y);
        lemma_value_wf(a.drop_first(), y);
        lemma_value_wf(b.drop_first(), y);
        assert(combined(a, z, b).drop_first() =~= combined(a.drop_first(), z, b.drop_first()));
        lemma_combined(a.drop_first(), z, b.drop_first(), y);
        // (a0 + z * b0) + y * (u + z * v) == (a0 + y * u) + z * (b0 + y * v)
        quad::lemma_distribute(y, u, z.times(v));
        quad::lemma_distribute(z, b0, y.times(v));
        lemma_left_commute(y, z, v);
        lemma_add_exchange(a0, z.times(b0), y.times(u), z.times(y.times(v)));
    }
}

/// The coefficients of `f(X * X)`: those of `f`, with zeros between them.
pub open spec fn lifted(coeffs: Seq<Quad>) -> Seq<Quad> {
    Seq::new(
        2 * coeffs.len(),
        |i: int|
            if i % 2 == 0 {
                coeffs[i / 2]
            } else {
                quad::base(0)
            },
    )
}

/// The coefficients of `f(X^(2^t))`.
pub open spec fn lifted_times(coeffs: Seq<Quad>, t: nat) -> Seq<Quad>
    decreases t,
{
    if t == 0 {
        coeffs
    } else {
        lifted(lifted_times(coeffs, (t - 1) as nat))
    }
}

/// The value at `x` of a polynomial lifted `t` times is the value of the polynomial at `x` squared
/// `t` times. So it is the same at `x` and at `-x`, if it is lifted at all.
pub proof fn law_lift(coeffs: Seq<Quad>, x: Quad, t: nat)
    requires
        all_wf(coeffs),
        x.wf(),
    ensures
        value_at(lifted_times(coeffs, t), x) == value_at(coeffs, quad::squared(x, t)),
        all_wf(lifted_times(coeffs, t)),
    decreases t,
{
    if t > 0 {
        let inner: Seq<Quad> = lifted_times(coeffs, (t - 1) as nat);
        let y: Quad = x.times(x);
        law_lift(coeffs, y, (t - 1) as nat);
        quad::lemma_base(0, 0);
        assert(all_wf(lifted(inner)));
        lemma_even_odd(lifted(inner), x);
        assert(evens(lifted(inner)) =~= inner);
        lemma_value_zeros(odds(lifted(inner)), y);
        quad::lemma_mul(x, x);
        lemma_value_wf(inner, y);
        let v: Quad = value_at(inner, y);
        quad::lemma_add(v, v, v);
    }
}

/// A polynomial whose coefficients are all zero is zero everywhere.
proof fn lemma_value_zeros(coeffs: Seq<Quad>, x: Quad)
    requires
        forall|i: int| 0 <= i < coeffs.len() ==> #[trigger] coeffs[i] == quad::base(0),
        x.wf(),
    ensures
        value_at(coeffs, x) == quad::base(0),
    decreases coeffs.len(),
{
    if coeffs.len() > 0 {
        lemma_value_zeros(coeffs.drop_first(), x);
        quad::lemma_mul(x, x);
        quad::lemma_base(0, 0);
    }
}

// ALGEBRA
// ================================================================================================

/// Factors may change places.
pub proof fn lemma_left_commute(a: Quad, b: Quad, c: Quad)
    requires
        a.wf(),
        b.wf(),
        c.wf(),
    ensures
        a.times(b.times(c)) == b.times(a.times(c)),
{
    quad::lemma_mul_assoc(a, b, c);
    quad::lemma_mul_assoc(b, a, c);
    quad::lemma_mul(a, b);
}

/// Summands may change places.
pub proof fn lemma_add_exchange(a: Quad, b: Quad, c: Quad, d: Quad)
    requires
        a.wf(),
        b.wf(),
        c.wf(),
        d.wf(),
    ensures
        a.plus(b).plus(c.plus(d)) == a.plus(c).plus(b.plus(d)),
{
    quad::lemma_add(a, b, c.plus(d));
    quad::lemma_add(b, c, d);
    quad::lemma_add(c, b, d);
    quad::lemma_add(a, c, b.plus(d));
}

/// The product of two products may be taken in another order.
pub proof fn lemma_mul_exchange(a: Quad, b: Quad, c: Quad, d: Quad)
    requires
        a.wf(),
        b.wf(),
        c.wf(),
        d.wf(),
    ensures
        a.times(b).times(c.times(d)) == a.times(c).times(b.times(d)),
{
    quad::lemma_mul_assoc(a, b, c.times(d));
    lemma_left_commute(b, c, d);
    quad::lemma_mul_assoc(a, c, b.times(d));
}

/// `(z + x) * (e + y) - (z - x) * (e - y) == 2 * (z * y + x * e)`.
proof fn lemma_cross(z: Quad, x: Quad, e: Quad, y: Quad)
    requires
        z.wf(),
        x.wf(),
        e.wf(),
        y.wf(),
    ensures
        z.plus(x).times(e.plus(y)).minus(z.minus(x).times(e.minus(y))) == quad::base(2).times(
            z.times(y).plus(x.times(e)),
        ),
{
    let (z0, z1, x0, x1): (int, int, int, int) = (z.c0, z.c1, x.c0, x.c1);
    let (e0, e1, y0, y1): (int, int, int, int) = (e.c0, e.c1, y.c0, y.c1);
    quad::lemma_lift(z0 + x0, z1 + x1, e0 + y0, e1 + y1);
    quad::lemma_lift(z0 - x0, z1 - x1, e0 - y0, e1 - y1);
    let p0: int = (z0 + x0) * (e0 + y0) + 7 * ((z1 + x1) * (e1 + y1));
    let p1: int = (z0 + x0) * (e1 + y1) + (z1 + x1) * (e0 + y0);
    let m0: int = (z0 - x0) * (e0 - y0) + 7 * ((z1 - x1) * (e1 - y1));
    let m1: int = (z0 - x0) * (e1 - y1) + (z1 - x1) * (e0 - y0);
    quad::lemma_lift(p0, p1, m0, m1);
    let (r0, r1): (int, int) = (z0 * y0 + 7 * (z1 * y1), z0 * y1 + z1 * y0);
    let (s0, s1): (int, int) = (x0 * e0 + 7 * (x1 * e1), x0 * e1 + x1 * e0);
    quad::lemma_lift(r0, r1, s0, s1);
    quad::lemma_lift(2, 0, r0 + s0, r1 + s1);
    lemma_cross_int(z0, x0, e0, y0);
    lemma_cross_int(z1, x1, e1, y1);
    lemma_cross_int(z0, x0, e1, y1);
    lemma_cross_int(z1, x1, e0, y0);
    assert(0 * (r1 + s1) == 0 && 0 * (r0 + s0) == 0);
}

proof fn lemma_cross_int(z: int, x: int, e: int, y: int)
    ensures
        (z + x) * (e + y) - (z - x) * (e - y) == 2 * (z * y + x * e),
{
    assert((z + x) * (e + y) == z * e + z * y + x * e + x * y) by (nonlinear_arith);
    assert((z - x) * (e - y) == z * e - z * y - x * e + x * y) by (nonlinear_arith);
}

/// The terms of a pair of points `x, -x`, with the inverses `q` and `r` of their differences to
/// `z`, add up to twice the term of `x * x` for the polynomial that combines both parts.
#[verifier::spinoff_prover]
proof fn lemma_pair(z: Quad, x: Quad, q: Quad, r: Quad, e: Quad, o: Quad)
    requires
        z.wf(),
        x.wf(),
        q.wf(),
        r.wf(),
        e.wf(),
        o.wf(),
        q.times(z.minus(x)) == quad::base(1),
        r.times(z.minus(x.negated())) == quad::base(1),
    ensures
        ({
            let n: Quad = x.negated();
            x.times(q).times(e.plus(x.times(o))).plus(n.times(r).times(e.plus(n.times(o))))
                == quad::base(2).times(
                x.times(x).times(q.times(r)).times(e.plus(z.times(o))),
            )
        }),
        q.times(r).times(z.times(z).minus(x.times(x))) == quad::base(1),
{
    let n: Quad = x.negated();
    let (plus, minus): (Quad, Quad) = (z.plus(x), z.minus(x));
    let p: Quad = q.times(r);
    let u: Quad = x.times(p);
    let y: Quad = x.times(o);
    let one: Quad = quad::base(1);
    quad::lemma_sub(z, n);
    quad::lemma_sub(x, x);
    assert(z.minus(n) == plus);
    // q == p * (z + x) and r == p * (z - x)
    quad::lemma_mul_assoc(q, r, plus);
    quad::lemma_mul(q, r);
    quad::lemma_mul_assoc(r, q, minus);
    quad::lemma_mul(r, q);
    assert(p.times(plus) == q);
    assert(p.times(minus) == r);
    // x * q == u * (z + x) and -x * r == -(u * (z - x))
    quad::lemma_mul_assoc(x, p, plus);
    quad::lemma_mul_assoc(x, p, minus);
    quad::lemma_mul(x, r);
    quad::lemma_mul(x, o);
    let (a, b): (Quad, Quad) = (e.plus(y), e.minus(y));
    quad::lemma_sub(e, y);
    assert(e.plus(n.times(o)) == b);
    quad::lemma_mul_assoc(u, plus, a);
    quad::lemma_mul_assoc(u, minus, b);
    quad::lemma_mul(u.times(minus), b);
    quad::lemma_sub(u.times(plus).times(a), u.times(minus).times(b));
    quad::lemma_distribute(u, plus.times(a), minus.times(b));
    lemma_cross(z, x, e, y);
    // u * (2 * (z * y + x * e)) == 2 * ((x * x * p) * (e + z * o))
    let inner: Quad = z.times(y).plus(x.times(e));
    let sum: Quad = e.plus(z.times(o));
    lemma_left_commute(z, x, o);
    quad::lemma_distribute(x, e, z.times(o));
    quad::lemma_add(x.times(e), z.times(y), z);
    assert(inner == x.times(sum));
    quad::lemma_base(2, 0);
    lemma_left_commute(u, quad::base(2), inner);
    quad::lemma_mul_assoc(u, x, sum);
    quad::lemma_mul(x, p);
    quad::lemma_mul_assoc(p, x, x);
    quad::lemma_mul(p, x.times(x));
    assert(u.times(x) == x.times(x).times(p));
    // (q * r) * (z * z - x * x) == (q * (z - x)) * (r * (z + x))
    lemma_mul_exchange(q, r, minus, plus);
    quad::lemma_base(1, 1);
    lemma_difference_of_squares(z, x);
}

/// `(z - x) * (z + x) == z * z - x * x`.
proof fn lemma_difference_of_squares(z: Quad, x: Quad)
    requires
        z.wf(),
        x.wf(),
    ensures
        z.minus(x).times(z.plus(x)) == z.times(z).minus(x.times(x)),
{
    let (a, b, c): (Quad, Quad, Quad) = (z.times(z), x.times(x), z.times(x));
    let sum: Quad = z.plus(x);
    assert(z.minus(x).times(sum) == z.times(sum).minus(x.times(sum))) by {
        quad::lemma_distribute(sum, z, x);
    }
    assert(z.times(sum) == a.plus(c)) by {
        quad::lemma_distribute(z, z, x);
    }
    assert(x.times(sum) == c.plus(b)) by {
        quad::lemma_distribute(x, z, x);
        quad::lemma_mul(z, x);
    }
    lemma_common_summand(a, b, c);
}

/// `(a + c) - (c + b) == a - b`.
proof fn lemma_common_summand(a: Quad, b: Quad, c: Quad)
    ensures
        a.plus(c).minus(c.plus(b)) == a.minus(b),
{
    quad::lemma_lift(a.c0 + c.c0, a.c1 + c.c1, c.c0 + b.c0, c.c1 + b.c1);
}

// COSETS
// ================================================================================================

/// The squares of the first points of adjacent pairs.
pub open spec fn squares(points: Seq<Quad>) -> Seq<Quad> {
    Seq::new(points.len() / 2, |i: int| points[2 * i].times(points[2 * i]))
}

/// The products of adjacent pairs.
pub open spec fn pair_products(s: Seq<Quad>) -> Seq<Quad> {
    Seq::new(s.len() / 2, |i: int| s[2 * i].times(s[2 * i + 1]))
}

/// Whether the `2^log_size` points are arranged as a coset in bit-reversed order: they come in
/// adjacent pairs `x, -x`, and so do their squares, down to a single point.
pub open spec fn is_folding(points: Seq<Quad>, log_size: nat) -> bool
    decreases log_size,
{
    &&& points.len() == pow2(log_size)
    &&& all_wf(points)
    &&& log_size > 0 ==> {
        &&& forall|i: int|
            0 <= i < points.len() / 2 ==> points[2 * i + 1] == (#[trigger] points[2
                * i]).negated()
        &&& is_folding(squares(points), (log_size - 1) as nat)
    }
}

/// Whether `quotients` holds the inverses of the differences of `z` to the points.
pub open spec fn are_quotients(quotients: Seq<Quad>, points: Seq<Quad>, z: Quad) -> bool {
    &&& quotients.len() == points.len()
    &&& forall|i: int|
        0 <= i < points.len() ==> (#[trigger] quotients[i]).wf() && quotients[i].times(
            z.minus(points[i]),
        ) == quad::base(1)
}

/// The barycentric weights, from the points and the inverses of their differences to `z`.
pub open spec fn weights(points: Seq<Quad>, quotients: Seq<Quad>) -> Seq<Quad> {
    Seq::new(points.len(), |i: int| points[i].times(quotients[i]))
}

/// The values of a polynomial at the given points.
pub open spec fn values_at(coeffs: Seq<Quad>, points: Seq<Quad>) -> Seq<Quad> {
    Seq::new(points.len(), |i: int| value_at(coeffs, points[i]))
}

/// What the weighted sum of values has to be divided by: `2^k * x_0^(2^k)`.
pub open spec fn denominator(first: Quad, log_size: nat) -> Quad {
    quad::two_power(log_size).times(quad::squared(first, log_size))
}

/// The inverses of the differences of `z * z` to the squares of the points are the products of the
/// inverses of the differences of `z` to the points of each pair.
pub proof fn law_fold_quotients(points: Seq<Quad>, quotients: Seq<Quad>, z: Quad, k: nat)
    requires
        k > 0,
        is_folding(points, k),
        are_quotients(quotients, points, z),
        z.wf(),
    ensures
        are_quotients(pair_products(quotients), squares(points), z.times(z)),
{
    let folded: Seq<Quad> = pair_products(quotients);
    assert forall|i: int| 0 <= i < squares(points).len() implies (#[trigger] folded[i]).wf()
        && folded[i].times(z.times(z).minus(squares(points)[i])) == quad::base(1) by {
        let x: Quad = points[2 * i];
        assert(points[2 * i + 1] == x.negated());
        assert(quotients[2 * i].wf() && quotients[2 * i + 1].wf());
        quad::lemma_base(0, 0);
        lemma_pair(z, x, quotients[2 * i], quotients[2 * i + 1], quad::base(0), quad::base(0));
    }
}

/// Adjacent weights for `z` add up to twice the weights for `z * z` on the squares of the points.
pub proof fn law_fold_weights(points: Seq<Quad>, quotients: Seq<Quad>, z: Quad, k: nat)
    requires
        k > 0,
        is_folding(points, k),
        are_quotients(quotients, points, z),
        z.wf(),
    ensures
        chunk_sums(weights(points, quotients), 2) == scaled(
            quad::base(2),
            weights(squares(points), pair_products(quotients)),
        ),
{
    let w: Seq<Quad> = weights(points, quotients);
    let sums: Seq<Quad> = chunk_sums(w, 2);
    let folded: Seq<Quad> = scaled(
        quad::base(2),
        weights(squares(points), pair_products(quotients)),
    );
    let (one, zero): (Quad, Quad) = (quad::base(1), quad::base(0));
    quad::lemma_base(1, 0);
    quad::lemma_base(0, 0);
    assert forall|i: int| 0 <= i < sums.len() implies #[trigger] sums[i] == folded[i] by {
        let x: Quad = points[2 * i];
        let n: Quad = x.negated();
        assert(points[2 * i + 1] == n);
        let (q, r): (Quad, Quad) = (quotients[2 * i], quotients[2 * i + 1]);
        assert(q.wf() && r.wf());
        lemma_pair(z, x, q, r, one, zero);
        quad::lemma_mul(x, x);
        quad::lemma_mul(n, n);
        quad::lemma_mul(z, z);
        quad::lemma_add(one, one, one);
        quad::lemma_mul(x.times(q), one);
        quad::lemma_mul(n.times(r), one);
        quad::lemma_mul(x.times(x).times(q.times(r)), one);
        lemma_total_of_two(w, i);
    }
    assert(sums =~= folded);
}

/// The sum of a chunk of two entries.
proof fn lemma_total_of_two(s: Seq<Quad>, i: int)
    requires
        all_wf(s),
        0 <= i < s.len() / 2,
    ensures
        total(s.subrange(2 * i, 2 * i + 2)) == s[2 * i].plus(s[2 * i + 1]),
{
    let two: Seq<Quad> = s.subrange(2 * i, 2 * i + 2);
    let one: Seq<Quad> = two.drop_last();
    assert(total(one.drop_last()) == quad::base(0));
    assert(one.last() == s[2 * i]);
    assert(total(one) == quad::base(0).plus(s[2 * i]));
    quad::lemma_add(s[2 * i], s[2 * i], s[2 * i]);
}

/// The terms of a pair of points, for the values of a polynomial.
proof fn lemma_term_pair(coeffs: Seq<Quad>, z: Quad, x: Quad, q: Quad, r: Quad)
    requires
        coeffs.len() % 2 == 0,
        all_wf(coeffs),
        z.wf(),
        x.wf(),
        q.wf(),
        r.wf(),
        q.times(z.minus(x)) == quad::base(1),
        r.times(z.minus(x.negated())) == quad::base(1),
    ensures
        ({
            let n: Quad = x.negated();
            let half: Seq<Quad> = combined(evens(coeffs), z, odds(coeffs));
            x.times(q).times(value_at(coeffs, x)).plus(n.times(r).times(value_at(coeffs, n)))
                == quad::base(2).times(
                x.times(x).times(q.times(r)).times(value_at(half, x.times(x))),
            )
        }),
{
    let n: Quad = x.negated();
    let y: Quad = x.times(x);
    let e: Quad = value_at(evens(coeffs), y);
    let o: Quad = value_at(odds(coeffs), y);
    lemma_value_wf(evens(coeffs), y);
    lemma_value_wf(odds(coeffs), y);
    lemma_even_odd(coeffs, x);
    lemma_even_odd(coeffs, n);
    quad::lemma_mul(x, n);
    quad::lemma_mul(x, x);
    quad::lemma_sub(y, y);
    assert(n.times(n) == y);
    lemma_combined(evens(coeffs), z, odds(coeffs), y);
    lemma_pair(z, x, q, r, e, o);
}

/// The weighted sum of the values of a polynomial is twice that of the combination of its parts
/// on the squares of the points.
#[verifier::spinoff_prover]
proof fn lemma_fold_sum(
    coeffs: Seq<Quad>,
    points: Seq<Quad>,
    quotients: Seq<Quad>,
    z: Quad,
    k: nat,
)
    requires
        k > 0,
        coeffs.len() == pow2(k),
        all_wf(coeffs),
        is_folding(points, k),
        are_quotients(quotients, points, z),
        z.wf(),
    ensures
        ({
            let half: Seq<Quad> = combined(evens(coeffs), z, odds(coeffs));
            dot(weights(points, quotients), values_at(coeffs, points)) == quad::base(2).times(
                dot(
                    weights(squares(points), pair_products(quotients)),
                    values_at(half, squares(points)),
                ),
            )
        }),
{
    let half: Seq<Quad> = combined(evens(coeffs), z, odds(coeffs));
    let w: Seq<Quad> = weights(points, quotients);
    let v: Seq<Quad> = values_at(coeffs, points);
    let terms: Seq<Quad> = Seq::new(w.len(), |i: int| w[i].times(v[i]));
    let w2: Seq<Quad> = weights(squares(points), pair_products(quotients));
    let v2: Seq<Quad> = values_at(half, squares(points));
    let terms2: Seq<Quad> = Seq::new(w2.len(), |i: int| w2[i].times(v2[i]));
    vstd::arithmetic::power2::lemma_pow2_unfold(k);
    assert forall|i: int| 0 <= i < terms2.len() implies #[trigger] chunk_sums(terms, 2)[i]
        == scaled(quad::base(2), terms2)[i] by {
        let x: Quad = points[2 * i];
        assert(points[2 * i + 1] == x.negated());
        assert(quotients[2 * i].wf() && quotients[2 * i + 1].wf());
        lemma_term_pair(coeffs, z, x, quotients[2 * i], quotients[2 * i + 1]);
        lemma_total_of_two(terms, i);
        assert(chunk_sums(terms, 2)[i] == total(terms.subrange(2 * i, 2 * i + 2)));
    }
    assert(chunk_sums(terms, 2) =~= scaled(quad::base(2), terms2));
    lemma_chunk_run(terms, 2, 0, terms2.len());
    assert(chunk_sums(terms, 2).subrange(0, terms2.len() as int) =~= chunk_sums(terms, 2));
    assert(terms.subrange(0, terms.len() as int) =~= terms);
    quad::lemma_base(2, 0);
    lemma_total_scaled(quad::base(2), terms2);
}

/// For a polynomial with as many coefficients as there are points, the weighted sum of its values
/// at the points, times `z^(2^k) - x_0^(2^k)`, is `2^k * x_0^(2^k)` times its value at `z`.
#[verifier::spinoff_prover]
proof fn lemma_interpolate(
    coeffs: Seq<Quad>,
    points: Seq<Quad>,
    quotients: Seq<Quad>,
    z: Quad,
    k: nat,
)
    requires
        coeffs.len() == pow2(k),
        all_wf(coeffs),
        is_folding(points, k),
        are_quotients(quotients, points, z),
        z.wf(),
    ensures
        quad::squared(z, k).minus(quad::squared(points[0], k)).times(
            dot(weights(points, quotients), values_at(coeffs, points)),
        ) == denominator(points[0], k).times(value_at(coeffs, z)),
    decreases k,
{
    let first: Quad = points[0];
    let w: Seq<Quad> = weights(points, quotients);
    let v: Seq<Quad> = values_at(coeffs, points);
    vstd::arithmetic::power2::lemma2_to64();
    if k == 0 {
        let q: Quad = quotients[0];
        let c: Quad = coeffs[0];
        assert(q.wf());
        let zero: Quad = quad::base(0);
        quad::lemma_base(0, 0);
        quad::lemma_base(1, 0);
        assert(value_at(coeffs.drop_first(), z) == zero);
        assert(value_at(coeffs.drop_first(), first) == zero);
        quad::lemma_mul(z, z);
        quad::lemma_mul(first, first);
        quad::lemma_add(c, c, c);
        let terms: Seq<Quad> = Seq::new(w.len(), |i: int| w[i].times(v[i]));
        assert(total(terms.drop_last()) == zero);
        let term: Quad = first.times(q).times(c);
        quad::lemma_add(term, term, term);
        assert(dot(w, v) == term);
        // (z - x) * ((x * q) * c) == x * c
        let d: Quad = z.minus(first);
        quad::lemma_mul_assoc(d, first.times(q), c);
        lemma_left_commute(d, first, q);
        quad::lemma_mul(d, q);
        quad::lemma_mul(first, first);
    } else {
        let half: Seq<Quad> = combined(evens(coeffs), z, odds(coeffs));
        let y: Quad = z.times(z);
        let two: Quad = quad::base(2);
        let m: nat = (k - 1) as nat;
        vstd::arithmetic::power2::lemma_pow2_unfold(k);
        vstd::arithmetic::power2::lemma_pow2_pos(m);
        lemma_fold_sum(coeffs, points, quotients, z, k);
        law_fold_quotients(points, quotients, z, k);
        let points2: Seq<Quad> = squares(points);
        let quotients2: Seq<Quad> = pair_products(quotients);
        lemma_interpolate(half, points2, quotients2, y, m);
        lemma_combined(evens(coeffs), z, odds(coeffs), y);
        lemma_even_odd(coeffs, z);
        // d * (2 * s) == 2 * (d * s) == 2 * (denominator(x * x, k - 1) * f)
        let inner: Seq<Quad> = Seq::new(
            points2.len(),
            |i: int| weights(points2, quotients2)[i].times(values_at(half, points2)[i]),
        );
        let sum: Quad = dot(weights(points2, quotients2), values_at(half, points2));
        lemma_total_wf(inner);
        let d: Quad = quad::squared(z, k).minus(quad::squared(first, k));
        quad::lemma_base(2, 0);
        lemma_left_commute(d, two, sum);
        let g: Quad = quad::squared(first, k);
        let f: Quad = value_at(coeffs, z);
        quad::lemma_powers_wf(first, k);
        quad::lemma_powers_wf(first, m);
        lemma_value_wf(coeffs, z);
        quad::lemma_mul_assoc(two, quad::two_power(m).times(g), f);
        quad::lemma_mul_assoc(two, quad::two_power(m), g);
    }
}

/// The weighted sum for a polynomial on the points squared `t` times, whose weights are sums of
/// `2^t` adjacent weights.
#[verifier::spinoff_prover]
proof fn lemma_interpolate_lifted(
    coeffs: Seq<Quad>,
    points: Seq<Quad>,
    quotients: Seq<Quad>,
    z: Quad,
    k: nat,
    t: nat,
    values: Seq<Quad>,
)
    requires
        t <= k,
        coeffs.len() == pow2((k - t) as nat),
        all_wf(coeffs),
        is_folding(points, k),
        are_quotients(quotients, points, z),
        z.wf(),
        values == values_at(coeffs, lifted_points(points, t)),
    ensures
        quad::squared(z, k).minus(quad::squared(points[0], k)).times(
            dot(chunk_sums(weights(points, quotients), pow2(t)), values),
        ) == denominator(points[0], k).times(value_at(coeffs, quad::squared(z, t))),
    decreases t,
{
    let w: Seq<Quad> = weights(points, quotients);
    vstd::arithmetic::power2::lemma2_to64();
    vstd::arithmetic::power2::lemma_pow2_pos(k);
    assert forall|i: int| 0 <= i < w.len() implies (#[trigger] w[i]).wf() by {
        quad::lemma_wf(points[i], quotients[i]);
    }
    if t == 0 {
        lemma_chunks_of_one(w);
        assert(lifted_points(points, 0) =~= points);
        lemma_interpolate(coeffs, points, quotients, z, k);
    } else {
        let m: nat = (k - 1) as nat;
        let u: nat = (t - 1) as nat;
        let two: Quad = quad::base(2);
        let points2: Seq<Quad> = squares(points);
        let quotients2: Seq<Quad> = pair_products(quotients);
        let w2: Seq<Quad> = weights(points2, quotients2);
        let y: Quad = z.times(z);
        vstd::arithmetic::power2::lemma_pow2_unfold(k);
        vstd::arithmetic::power2::lemma_pow2_unfold(t);
        vstd::arithmetic::power2::lemma_pow2_pos(m);
        vstd::arithmetic::power2::lemma_pow2_pos(u);
        law_fold_quotients(points, quotients, z, k);
        law_fold_weights(points, quotients, z, k);
        lemma_lifted_points(points, t);
        lemma_interpolate_lifted(coeffs, points2, quotients2, y, m, u, values);
        // The sums of 2^t weights are twice the sums of 2^(t - 1) weights of the squares.
        lemma_chunks_compose(w, 2, pow2(u));
        assert forall|i: int| 0 <= i < w2.len() implies (#[trigger] w2[i]).wf() by {
            quad::lemma_wf(points2[i], quotients2[i]);
        }
        quad::lemma_base(2, 0);
        lemma_chunks_scaled(two, w2, pow2(u));
        let sums: Seq<Quad> = chunk_sums(w2, pow2(u));
        lemma_chunks_wf(w2, pow2(u));
        assert forall|i: int| 0 <= i < values.len() implies (#[trigger] values[i]).wf() by {
            lemma_value_wf(coeffs, lifted_points(points, t)[i]);
        }
        lemma_dot_scaled(two, sums, values);
        // d * (2 * s) == 2 * (d * s) == 2 * (denominator(x * x, k - 1) * f)
        let first: Quad = points[0];
        let sum: Quad = dot(sums, values);
        lemma_total_wf(Seq::new(sums.len(), |i: int| sums[i].times(values[i])));
        let d: Quad = quad::squared(z, k).minus(quad::squared(first, k));
        lemma_left_commute(d, two, sum);
        let g: Quad = quad::squared(first, k);
        let f: Quad = value_at(coeffs, quad::squared(z, t));
        quad::lemma_powers_wf(first, k);
        quad::lemma_powers_wf(first, m);
        lemma_value_wf(coeffs, quad::squared(z, t));
        quad::lemma_mul_assoc(two, quad::two_power(m).times(g), f);
        quad::lemma_mul_assoc(two, quad::two_power(m), g);
    }
}

/// The points of the coset that the points lead to when they are squared `t` times: the first of
/// every `2^t` adjacent ones.
pub open spec fn lifted_points(points: Seq<Quad>, t: nat) -> Seq<Quad> {
    Seq::new(points.len() / pow2(t), |i: int| quad::squared(points[pow2(t) * i], t))
}

/// Squaring the points once leaves one squaring less to do.
proof fn lemma_lifted_points(points: Seq<Quad>, t: nat)
    requires
        t > 0,
    ensures
        lifted_points(points, t) == lifted_points(squares(points), (t - 1) as nat),
{
    let u: nat = (t - 1) as nat;
    let p: nat = pow2(u);
    vstd::arithmetic::power2::lemma_pow2_unfold(t);
    vstd::arithmetic::power2::lemma_pow2_pos(u);
    vstd::arithmetic::div_mod::lemma_div_denominator(points.len() as int, 2, p as int);
    let left: Seq<Quad> = lifted_points(points, t);
    let right: Seq<Quad> = lifted_points(squares(points), u);
    assert forall|i: int| 0 <= i < left.len() implies #[trigger] left[i] == right[i] by {
        assert((2 * p) * i == 2 * (p * i)) by (nonlinear_arith);
        lemma_chunk_bounds((points.len() / 2) as nat, p, i);
        assert(squares(points)[p * i] == points[2 * (p * i)].times(points[2 * (p * i)]));
    }
    assert(left =~= right);
}

// INTERPOLATION
// ================================================================================================

/// The inverse of two to the given power.
pub open spec fn half_power(n: nat) -> Quad
    decreases n,
{
    if n == 0 {
        quad::base(1)
    } else {
        quad::base(0x7FFF_FFFF_8000_0001).times(half_power((n - 1) as nat))
    }
}

/// Two to a power has an inverse.
pub proof fn lemma_half_power(n: nat)
    ensures
        quad::two_power(n).times(half_power(n)) == quad::base(1),
        half_power(n).wf(),
    decreases n,
{
    let (two, half): (Quad, Quad) = (quad::base(2), quad::base(0x7FFF_FFFF_8000_0001));
    let one: Quad = quad::base(1);
    quad::lemma_base(1, 1);
    quad::lemma_mul(one, one);
    if n > 0 {
        let m: nat = (n - 1) as nat;
        quad::lemma_base(2, 0x7FFF_FFFF_8000_0001);
        quad::lemma_base(0x7FFF_FFFF_8000_0001, 0);
        felt::lemma_congruent(2int * 0x7FFF_FFFF_8000_0001int, 1, 1);
        lemma_half_power(m);
        quad::lemma_powers_wf(one, m);
        lemma_mul_exchange(two, quad::two_power(m), half, half_power(m));
    }
}

/// Squares of a product are products of squares.
proof fn lemma_squared_product(a: Quad, b: Quad, n: nat)
    requires
        a.wf(),
        b.wf(),
    ensures
        quad::squared(a.times(b), n) == quad::squared(a, n).times(quad::squared(b, n)),
    decreases n,
{
    if n > 0 {
        lemma_mul_exchange(a, b, a, b);
        lemma_squared_product(a.times(a), b.times(b), (n - 1) as nat);
    }
}

proof fn lemma_squared_one(n: nat)
    ensures
        quad::squared(quad::base(1), n) == quad::base(1),
    decreases n,
{
    if n > 0 {
        quad::lemma_base(1, 1);
        lemma_squared_one((n - 1) as nat);
    }
}

/// Whether `scaling` is `((z / x)^(2^k) - 1) / 2^k`, with the inverse of `x` given.
pub open spec fn is_scaling(scaling: Quad, z: Quad, x_inverse: Quad, k: nat) -> bool {
    quad::two_power(k).times(scaling) == quad::squared(z.times(x_inverse), k).minus(
        quad::base(1),
    )
}

/// Barycentric evaluation gives the value of the polynomial.
///
/// The points form a coset of size `2^k` in bit-reversed order, `quotients` holds the inverses of
/// their differences to `z`, and `scaling` is the barycentric scaling at `z`. The polynomial has
/// `2^(k - t)` coefficients and is given by its values at the points squared `t` times. Then the
/// sum of these values, weighted with the sums of `2^t` adjacent weights and scaled, is the value
/// of the polynomial at `z` squared `t` times.
pub proof fn law_barycentric(
    coeffs: Seq<Quad>,
    points: Seq<Quad>,
    quotients: Seq<Quad>,
    z: Quad,
    k: nat,
    t: nat,
    first_inverse: Quad,
    scaling: Quad,
)
    requires
        t <= k,
        coeffs.len() == pow2((k - t) as nat),
        all_wf(coeffs),
        is_folding(points, k),
        are_quotients(quotients, points, z),
        z.wf(),
        first_inverse.wf(),
        points[0].times(first_inverse) == quad::base(1),
        scaling.wf(),
        is_scaling(scaling, z, first_inverse, k),
    ensures
        scaling.times(
            dot(
                chunk_sums(weights(points, quotients), pow2(t)),
                values_at(coeffs, lifted_points(points, t)),
            ),
        ) == value_at(coeffs, quad::squared(z, t)),
{
    let first: Quad = points[0];
    let values: Seq<Quad> = values_at(coeffs, lifted_points(points, t));
    let sums: Seq<Quad> = chunk_sums(weights(points, quotients), pow2(t));
    vstd::arithmetic::power2::lemma_pow2_pos(k);
    quad::lemma_powers_wf(z, k);
    quad::lemma_powers_wf(first, k);
    quad::lemma_powers_wf(first_inverse, k);
    lemma_half_power(k);
    lemma_value_wf(coeffs, quad::squared(z, t));
    lemma_total_wf(Seq::new(sums.len(), |i: int| sums[i].times(values[i])));
    lemma_interpolate_lifted(coeffs, points, quotients, z, k, t, values);
    lemma_squared_product(first, first_inverse, k);
    lemma_squared_one(k);
    lemma_squared_product(z, first_inverse, k);
    lemma_scale(
        quad::two_power(k),
        half_power(k),
        quad::squared(z, k),
        quad::squared(first, k),
        quad::squared(first_inverse, k),
        scaling,
        dot(sums, values),
        value_at(coeffs, quad::squared(z, t)),
    );
}

/// Dividing by `two * g`, whose factors have the inverses `half` and `h`.
#[verifier::spinoff_prover]
proof fn lemma_scale(
    two: Quad,
    half: Quad,
    p: Quad,
    g: Quad,
    h: Quad,
    scaling: Quad,
    sum: Quad,
    f: Quad,
)
    requires
        two.wf() && half.wf() && p.wf() && g.wf() && h.wf(),
        scaling.wf() && sum.wf() && f.wf(),
        two.times(half) == quad::base(1),
        g.times(h) == quad::base(1),
        two.times(scaling) == p.times(h).minus(quad::base(1)),
        p.minus(g).times(sum) == two.times(g).times(f),
    ensures
        scaling.times(sum) == f,
{
    let one: Quad = quad::base(1);
    let d: Quad = two.times(g);
    quad::lemma_base(1, 1);
    // d * scaling == g * (p * h - 1) == p - g
    lemma_left_commute(g, p, h);
    quad::lemma_mul(p, one);
    quad::lemma_mul(g, one);
    quad::lemma_distribute(g, p.times(h), one);
    quad::lemma_mul(two, g);
    quad::lemma_mul_assoc(g, two, scaling);
    assert(d.times(scaling) == p.minus(g));
    quad::lemma_mul_assoc(d, scaling, sum);
    lemma_mul_exchange(two, g, half, h);
    lemma_cancel(d, half.times(h), scaling.times(sum), f);
}

/// A factor with an inverse can be cancelled.
proof fn lemma_cancel(d: Quad, inverse: Quad, a: Quad, b: Quad)
    requires
        d.wf(),
        inverse.wf(),
        a.wf(),
        b.wf(),
        d.times(inverse) == quad::base(1),
        d.times(a) == d.times(b),
    ensures
        a == b,
{
    quad::lemma_mul(d, inverse);
    quad::lemma_mul_assoc(inverse, d, a);
    quad::lemma_mul_assoc(inverse, d, b);
    quad::lemma_mul(a, b);
    quad::lemma_mul(b, a);
}

/// Half to a power is the inverse of two to that power.
pub proof fn law_half_power(n: nat, x: Quad)
    requires
        x.wf(),
    ensures
        quad::base(pow2(n) as int).times(half_power(n)) == quad::base(1),
        quad::base(pow2(n) as int).times(x) == quad::base(1) ==> x == half_power(n),
{
    lemma_half_power(n);
    quad::law_two_power(n);
    quad::lemma_base(pow2(n) as int, 0);
    if quad::base(pow2(n) as int).times(x) == quad::base(1) {
        lemma_cancel(quad::base(pow2(n) as int), half_power(n), x, half_power(n));
    }
}

} // verus!
