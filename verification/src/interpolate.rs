//! Evaluation of committed polynomials at a pair of points outside of their domain.
//!
//! Openings are always at `z` and `h * z`, the points that belong to a row and to the one that
//! follows it. [`PointQuotients`] holds the inverses of the differences of both to all points of
//! the domain, from which the barycentric weights for matrices of all heights are derived.

use crate::barycentric;
use crate::coset;
use crate::felt;
use crate::felt::Felt;
use crate::matrix;
use crate::matrix::{RowList, RowMajorMatrix};
use crate::quad;
use crate::quad::{Quad, QuadFelt};
use p3_field::extension::BinomialExtensionField;
use p3_field::{BasedVectorSpace, PrimeField64};
use p3_goldilocks::Goldilocks;
use p3_util::linear_map::LinearMap;
use std::collections::BTreeSet;
use vstd::arithmetic::power2::pow2;
use vstd::prelude::*;
use vstd::std_specs::btree::spec_btree_keys_iter;
use vstd::std_specs::cmp::OrdSpec;
use vstd::std_specs::iter::IteratorSpec;

verus! {

// OUTSIDE FUNCTIONS
// ================================================================================================

/// The inverses of elements of the extension, from `p3_field::batch_multiplicative_inverse`.
///
/// It claims that each result times its argument is one. The outside function panics if any of the
/// elements is zero.
#[verifier::external_body]
fn batch_multiplicative_inverse(values: &Vec<QuadFelt>) -> (r: Vec<QuadFelt>)
    requires
        forall|i: int| 0 <= i < values@.len() ==> (#[trigger] values@[i])@ != quad::base(0),
    ensures
        r@.len() == values@.len(),
        forall|i: int|
            0 <= i < r@.len() ==> (#[trigger] r@[i])@.times(values@[i]@) == quad::base(1),
{
    let felt = |x: Felt| Goldilocks::new(x.value);
    let ext = |x: &QuadFelt| BinomialExtensionField::<_, 2>::new([felt(x.c0), felt(x.c1)]);
    let outside: Vec<_> = values.iter().map(ext).collect();
    let back = |x: Goldilocks| Felt { value: x.as_canonical_u64() };
    let pair = |x: BinomialExtensionField<Goldilocks, 2>| {
        let c: &[Goldilocks] = x.as_basis_coefficients_slice();
        QuadFelt { c0: back(c[0]), c1: back(c[1]) }
    };
    p3_field::batch_multiplicative_inverse(&outside).into_iter().map(pair).collect()
}

/// `p3_util::linear_map::LinearMap`, a map that searches its keys one after the other.
#[verifier::external_type_specification]
#[verifier::external_body]
#[verifier::reject_recursive_types(K)]
#[verifier::reject_recursive_types(V)]
pub struct ExLinearMap<K, V>(LinearMap<K, V>);

/// What a map from degrees holds.
pub uninterp spec fn degree_entries(m: LinearMap<usize, usize>) -> Map<usize, usize>;

/// A new map, from `p3_util::linear_map::LinearMap::new`.
///
/// It claims that the map has no entries.
#[verifier::external_body]
fn degree_map_new() -> (r: LinearMap<usize, usize>)
    ensures
        degree_entries(r).dom() == Set::<usize>::empty(),
{
    LinearMap::new()
}

/// Gives a key its value, with `p3_util::linear_map::LinearMap::insert`.
///
/// It claims that the key then has this value, that all other keys keep theirs, and that the value
/// that the key had is returned.
#[verifier::external_body]
fn degree_map_insert(m: &mut LinearMap<usize, usize>, key: usize, value: usize) -> (r: Option<
    usize,
>)
    ensures
        degree_entries(*final(m)) == degree_entries(*old(m)).insert(key, value),
        r == (if degree_entries(*old(m)).dom().contains(key) {
            Some(degree_entries(*old(m))[key])
        } else {
            None
        }),
{
    m.insert(key, value)
}

/// The value of a key, from `p3_util::linear_map::LinearMap::get`.
///
/// It claims that this is the value that the key was given, if there is one.
#[verifier::external_body]
fn degree_map_get(m: &LinearMap<usize, usize>, key: usize) -> (r: Option<usize>)
    ensures
        r == (if degree_entries(*m).dom().contains(key) {
            Some(degree_entries(*m)[key])
        } else {
            None
        }),
{
    m.get(&key).copied()
}

// POINT QUOTIENTS
// ================================================================================================

/// The inverses `1 / (z - x)` and `1 / (h * z - x)` for all points `x` of a domain.
///
/// The points to open at are always `z` and `h * z`, those of a row and of the row after it.
pub struct PointQuotients {
    /// The points `z` and `h * z`.
    pub points: [QuadFelt; 2],
    /// The inverses of the differences of both points to each point of the domain.
    pub point_quotient: Vec<[QuadFelt; 2]>,
}

/// Whether each point of a domain is `h` times the point `2^log_blowup` steps before it. The domain
/// is given in bit-reversed order.
pub open spec fn is_stepping(points: Seq<Quad>, h: Quad, log_n: nat, log_blowup: nat) -> bool {
    forall|j: int|
        0 <= j < points.len() ==> #[trigger] points[j] == points[coset::shifted_index(
            j as nat,
            log_n,
            pow2(log_blowup),
        ) as int].times(h)
}

/// A difference is zero only between equal elements.
proof fn lemma_nonzero_difference(a: Quad, b: Quad)
    requires
        a.wf(),
        b.wf(),
        a != b,
    ensures
        a.minus(b) != quad::base(0),
{
    quad::lemma_sub(a, b);
    quad::lemma_base(0, 0);
    quad::lemma_add(b, b, b);
}

/// `1 / (h * z - x)` from `1 / (z - y)`, where `x == h * y`.
proof fn lemma_stepped_quotient(z: Quad, y: Quad, h: Quad, q: Quad, r: Quad)
    requires
        z.wf() && y.wf() && h.wf() && q.wf() && r.wf(),
        q.times(z.minus(y)) == quad::base(1),
        r.times(h) == q,
    ensures
        r.times(z.times(h).minus(y.times(h))) == quad::base(1),
{
    quad::lemma_distribute(h, z, y);
    quad::lemma_mul(z.minus(y), h);
    quad::lemma_mul_assoc(r, h, z.minus(y));
}

impl PointQuotients {
    /// The table for openings at `z` and `h * z`.
    ///
    /// The points of the domain are in bit-reversed order, and each of them is `h` times the one
    /// `2^log_blowup` steps before it. Neither `z` nor `h * z` is one of them.
    #[verifier::spinoff_prover]
    pub fn from_z_and_hz(
        z: QuadFelt,
        h: Felt,
        log_blowup: u8,
        coset_points: &[Felt],
    ) -> (r: PointQuotients)
        requires
            coset::is_power_of_two(coset_points@.len()),
            pow2(log_blowup as nat) <= coset_points@.len(),
            forall|i: int|
                0 <= i < coset_points@.len() ==> z@ != quad::base((#[trigger] coset_points@[i])@),
            h@ != 0,
        ensures
            r.points[0] == z,
            r.points[1]@ == z@.times(quad::base(h@)),
            r.point_quotient@.len() == coset_points@.len(),
            barycentric::are_quotients(
                matrix::lane(r.point_quotient@, 0),
                coset::embedded(coset_points@),
                z@,
            ),
            forall|j: int|
                0 <= j < coset_points@.len() ==> (#[trigger] r.point_quotient@[j])[0]@.times(
                    z@.minus(quad::base(coset_points@[j]@)),
                ) == quad::base(1),
            forall|log_n: nat, j: int|
                coset_points@.len() == pow2(log_n) && 0 <= j < coset_points@.len()
                    && quad::base(coset_points@[j]@) == quad::base(
                    coset_points@[#[trigger] coset::shifted_index(
                        j as nat,
                        log_n,
                        pow2(log_blowup as nat),
                    ) as int]@,
                ).times(quad::base(h@)) ==> (#[trigger] r.point_quotient@[j])[1]@.times(
                    z@.times(quad::base(h@)).minus(quad::base(coset_points@[j]@)),
                ) == quad::base(1),
            forall|log_n: nat, j: int|
                coset_points@.len() == pow2(log_n) && 0 <= j < coset_points@.len() ==> (
                #[trigger] r.point_quotient@[j][1])@.times(quad::base(h@))
                    == r.point_quotient@[#[trigger] coset::shifted_index(
                    j as nat,
                    log_n,
                    pow2(log_blowup as nat),
                ) as int][0]@,
            forall|log_n: nat|
                coset_points@.len() == #[trigger] pow2(log_n) && is_stepping(
                    coset::embedded(coset_points@),
                    quad::base(h@),
                    log_n,
                    log_blowup as nat,
                ) ==> barycentric::are_quotients(
                    matrix::lane(r.point_quotient@, 1),
                    coset::embedded(coset_points@),
                    z@.times(quad::base(h@)),
                ),
    {
        let n: usize = coset_points.len();
        let log_n: usize = p3_util::log2_strict_usize(n);
        let ghost points: Seq<Quad> = coset::embedded(coset_points@);
        proof {
            lemma_log_bound(n, log_n as nat);
            lemma_log_bound_le(n, log_blowup as nat);
            vstd::bits::lemma_usize_shl_is_mul(1, log_blowup as usize);
            vstd::arithmetic::power2::lemma_pow2_pos(log_blowup as nat);
        }
        let blowup: usize = 1usize << (log_blowup as usize);

        // The inverses of all differences to z are computed together.
        let mut diffs: Vec<QuadFelt> = Vec::new();
        for i in 0..n
            invariant
                n == coset_points@.len(),
                diffs@.len() == i,
                forall|k: int| 0 <= k < n ==> z@ != quad::base((#[trigger] coset_points@[k])@),
                forall|k: int|
                    0 <= k < i ==> (#[trigger] diffs@[k])@ == z@.minus(
                        quad::base(coset_points@[k]@),
                    ) && diffs@[k]@ != quad::base(0),
        {
            proof {
                quad::lemma_base(coset_points@[i as int]@, 0);
                assert(z@ != quad::base(coset_points@[i as int]@));
                lemma_nonzero_difference(z@, quad::base(coset_points@[i as int]@));
            }
            diffs.push(z - coset_points[i]);
        }
        let inv_z: Vec<QuadFelt> = batch_multiplicative_inverse(&diffs);

        // The inverse of h * z - x is that of z - y, divided by h, for the point y that is one step
        // of the trace before x.
        let h_inv: Felt = h.inverse();
        let ghost shift: Quad = quad::base(h@);
        let mut point_quotient: Vec<[QuadFelt; 2]> = Vec::new();
        for j in 0..n
            invariant
                n == coset_points@.len(),
                n == pow2(log_n as nat),
                log_n < usize::BITS,
                n <= usize::MAX,
                1 <= blowup <= n,
                blowup == pow2(log_blowup as nat),
                inv_z@.len() == n,
                point_quotient@.len() == j,
                felt::reduced(h@ * h_inv@) == 1,
                shift == quad::base(h@),
                forall|k: int|
                    0 <= k < j ==> (#[trigger] point_quotient@[k])[0] == inv_z@[k]
                        && point_quotient@[k][1]@.times(shift) == inv_z@[coset::shifted_index(
                        k as nat,
                        log_n as nat,
                        blowup as nat,
                    ) as int]@,
        {
            proof {
                vstd::arithmetic::power2::lemma2_to64();
                coset::lemma_reversed_bound(j as nat, log_n as nat);
            }
            let std_idx: usize = p3_util::reverse_bits_len(j, log_n);
            let std_idx_shifted: usize = if std_idx >= blowup {
                std_idx - blowup
            } else {
                std_idx + (n - blowup)
            };
            proof {
                lemma_step_back(std_idx as nat, n as nat, blowup as nat);
                coset::lemma_reversed_bound(std_idx_shifted as nat, log_n as nat);
            }
            let perm_j: usize = p3_util::reverse_bits_len(std_idx_shifted, log_n);
            let inv_hz: QuadFelt = inv_z[perm_j] * h_inv;
            proof {
                let (q, i): (Quad, Quad) = (inv_z@[perm_j as int]@, quad::base(h_inv@));
                quad::lemma_base(h@, h_inv@);
                quad::lemma_base(h_inv@, 0);
                quad::lemma_base(h@ * h_inv@, 0);
                quad::lemma_mul_assoc(q, i, shift);
                quad::lemma_mul(i, shift);
                quad::lemma_mul(q, q);
            }
            point_quotient.push([inv_z[j], inv_hz]);
        }
        let r: PointQuotients = PointQuotients { points: [z, z * h], point_quotient };
        proof {
            let first: Seq<Quad> = matrix::lane(r.point_quotient@, 0);
            let second: Seq<Quad> = matrix::lane(r.point_quotient@, 1);
            let hz: Quad = z@.times(shift);
            assert forall|i: int| 0 <= i < points.len() implies (#[trigger] first[i]).wf()
                && first[i].times(z@.minus(points[i])) == quad::base(1) by {
                assert(r.point_quotient@[i][0] == inv_z@[i]);
                assert(diffs@[i]@ == z@.minus(quad::base(coset_points@[i]@)));
            }
            assert forall|k: nat, j: int| n == pow2(k) && 0 <= j < n implies (
            #[trigger] r.point_quotient@[j][1])@.times(quad::base(h@))
                == r.point_quotient@[#[trigger] coset::shifted_index(
                j as nat,
                k,
                pow2(log_blowup as nat),
            ) as int][0]@ by {
                lemma_log_unique(k, log_n as nat);
                lemma_shifted_bound(j as nat, k, pow2(log_blowup as nat));
                assert(r.point_quotient@[j][0] == inv_z@[j]);
            }
            assert forall|j: int| 0 <= j < n implies (#[trigger] r.point_quotient@[j])[0]@.times(
                z@.minus(quad::base(coset_points@[j]@)),
            ) == quad::base(1) by {
                assert(first[j].times(z@.minus(points[j])) == quad::base(1));
            }
            assert forall|k: nat, j: int|
                n == pow2(k) && 0 <= j < n && quad::base(coset_points@[j]@) == quad::base(
                    coset_points@[#[trigger] coset::shifted_index(
                        j as nat,
                        k,
                        pow2(log_blowup as nat),
                    ) as int]@,
                ).times(quad::base(h@)) implies (#[trigger] r.point_quotient@[j])[1]@.times(
                z@.times(quad::base(h@)).minus(quad::base(coset_points@[j]@)),
            ) == quad::base(1) by {
                lemma_log_unique(k, log_n as nat);
                let i: int = coset::shifted_index(j as nat, k, blowup as nat) as int;
                lemma_shifted_bound(j as nat, k, blowup as nat);
                assert(first[i].times(z@.minus(points[i])) == quad::base(1));
                assert(r.point_quotient@[i][0] == inv_z@[i]);
                assert(r.point_quotient@[j][1]@.times(shift) == inv_z@[i]@);
                quad::lemma_base(h@, 0);
                quad::lemma_base(coset_points@[i]@, 0);
                lemma_stepped_quotient(z@, points[i], shift, first[i], second[j]);
            }
            assert forall|k: nat|
                n == #[trigger] pow2(k) && is_stepping(
                    points,
                    shift,
                    k,
                    log_blowup as nat,
                ) implies barycentric::are_quotients(second, points, hz) by {
                lemma_log_unique(k, log_n as nat);
                assert forall|j: int| 0 <= j < points.len() implies (#[trigger] second[j]).wf()
                    && second[j].times(hz.minus(points[j])) == quad::base(1) by {
                    let i: int = coset::shifted_index(j as nat, k, blowup as nat) as int;
                    lemma_shifted_bound(j as nat, k, blowup as nat);
                    assert(points[j] == points[i].times(shift));
                    assert(first[i].times(z@.minus(points[i])) == quad::base(1));
                    assert(r.point_quotient@[i][0] == inv_z@[i]);
                    assert(r.point_quotient@[j][1]@.times(shift) == inv_z@[i]@);
                    quad::lemma_base(h@, 0);
                    quad::lemma_base(coset_points@[i]@, 0);
                    lemma_stepped_quotient(z@, points[i], shift, first[i], second[j]);
                }
            }
        }
        r
    }
}

/// The index of a point lies within the domain.
proof fn lemma_shifted_bound(j: nat, log_n: nat, blowup: nat)
    ensures
        coset::shifted_index(j, log_n, blowup) < pow2(log_n),
{
    coset::lemma_reversed_bound(
        ((coset::reversed(j, log_n) + pow2(log_n) - blowup) % pow2(log_n) as int) as nat,
        log_n,
    );
}

/// Going back `blowup` steps around a cycle.
proof fn lemma_step_back(i: nat, n: nat, blowup: nat)
    requires
        i < n,
        1 <= blowup <= n,
    ensures
        i >= blowup ==> (i + n - blowup) % n as int == i - blowup,
        i < blowup ==> (i + n - blowup) % n as int == i + n - blowup,
{
    if i >= blowup {
        vstd::arithmetic::div_mod::lemma_mod_add_multiples_vanish(i - blowup, n as int);
        vstd::arithmetic::div_mod::lemma_small_mod((i - blowup) as nat, n);
    } else {
        vstd::arithmetic::div_mod::lemma_small_mod((i + n - blowup) as nat, n);
    }
}

/// A power of two tells its exponent.
proof fn lemma_log_unique(a: nat, b: nat)
    requires
        pow2(a) == pow2(b),
    ensures
        a == b,
{
    if a < b {
        vstd::arithmetic::power2::lemma_pow2_strictly_increases(a, b);
    }
    if b < a {
        vstd::arithmetic::power2::lemma_pow2_strictly_increases(b, a);
    }
}

/// The exponent of a power of two is less than the number of bits.
proof fn lemma_log_bound(n: usize, log_n: nat)
    requires
        n == pow2(log_n),
    ensures
        log_n < usize::BITS,
{
    lemma_log_bound_le(n, log_n);
}

proof fn lemma_log_bound_le(n: usize, k: nat)
    requires
        pow2(k) <= n,
    ensures
        k < usize::BITS,
{
    vstd::arithmetic::power2::lemma2_to64();
    vstd::arithmetic::power2::lemma2_to64_rest();
    if k >= usize::BITS {
        if k > usize::BITS {
            vstd::arithmetic::power2::lemma_pow2_strictly_increases(usize::BITS as nat, k);
        }
        assert(pow2(usize::BITS as nat) <= n);
    }
}

// EVALUATION
// ================================================================================================

/// The inverse of an element, where it has one.
pub open spec fn inverse(a: Quad) -> Quad {
    choose|b: Quad| b.wf() && a.times(b) == quad::base(1)
}

/// There is only one inverse.
proof fn lemma_inverse(a: Quad, b: Quad)
    requires
        a.wf(),
        b.wf(),
        a.times(b) == quad::base(1),
    ensures
        inverse(a) == b,
{
    let c: Quad = inverse(a);
    assert(c.wf() && a.times(c) == quad::base(1));
    quad::lemma_mul(a, b);
    quad::lemma_mul_assoc(b, a, c);
    quad::lemma_mul(b, c);
    quad::lemma_mul(c, b);
}

/// The barycentric scaling `((z / x)^(2^k) - 1) / 2^k`.
pub open spec fn scaling(z: Quad, x: Quad, k: nat) -> Quad {
    quad::squared(z.times(inverse(x)), k).minus(quad::base(1)).times(barycentric::half_power(k))
}

/// The barycentric evaluation of a column of values, for a domain of `2^k` points: the sum of the
/// values, weighted with the sums of as many adjacent weights as the domain is larger than the
/// number `degree` of values that count, and scaled.
pub open spec fn lifted_eval(
    z: Quad,
    points: Seq<Quad>,
    quotients: Seq<Quad>,
    k: nat,
    degree: nat,
    column: Seq<Quad>,
) -> Quad {
    scaling(z, points[0], k).times(
        barycentric::dot(
            barycentric::chunk_sums(
                barycentric::weights(points, quotients),
                pow2(k) / degree,
            ),
            column,
        ),
    )
}

/// The matrices of all groups, one after the other.
pub open spec fn flattened(groups: Seq<Vec<&RowMajorMatrix>>) -> Seq<RowMajorMatrix>
    decreases groups.len(),
{
    if groups.len() == 0 {
        seq![]
    } else {
        flattened(groups.drop_last()) + Seq::new(
            groups.last()@.len(),
            |i: int| *groups.last()@[i],
        )
    }
}

/// The number of rows of a matrix that determine its columns: its height without the blowup.
pub open spec fn degree(m: RowMajorMatrix, log_blowup: nat) -> nat {
    m.rows() / pow2(log_blowup)
}

/// Whether a matrix can be evaluated on a domain of `d` points: its degree is a power of two that
/// is no larger.
pub open spec fn fits(m: RowMajorMatrix, log_blowup: nat, d: nat) -> bool {
    &&& m.wf()
    &&& coset::is_power_of_two(degree(m, log_blowup))
    &&& degree(m, log_blowup) <= d
}

/// The matrices of all groups come one after the other: matrix `m` of group `g` stands `m` places
/// after the first one of its group, which comes after all matrices of the groups before it.
///
/// `starts` holds the place of the first matrix of each group, and the number of all matrices.
pub proof fn law_flattened(
    groups: Seq<Vec<&RowMajorMatrix>>,
    starts: Seq<int>,
    g: int,
    m: int,
)
    requires
        groups.len() < starts.len(),
        starts[0] == 0,
        forall|q: int|
            0 <= q < groups.len() ==> starts[q + 1] == starts[q] + (#[trigger] groups[q])@.len(),
    ensures
        flattened(groups).len() == starts[groups.len() as int],
        0 <= g < groups.len() && 0 <= m < groups[g]@.len() ==> 0 <= starts[g] + m < flattened(
            groups,
        ).len() && flattened(groups)[starts[g] + m] == *groups[g]@[m],
    decreases groups.len(),
{
    if groups.len() > 0 {
        let front: Seq<Vec<&RowMajorMatrix>> = groups.drop_last();
        assert forall|q: int| 0 <= q < front.len() implies starts[q + 1] == starts[q] + (
        #[trigger] front[q])@.len() by {
            assert(front[q] == groups[q]);
        }
        law_flattened(front, starts, g, m);
        assert(groups[groups.len() - 1] == groups.last());
    }
}

/// The matrices of a group lie among all matrices.
proof fn lemma_group_bounds(groups: Seq<Vec<&RowMajorMatrix>>, starts: Seq<int>, g: int)
    requires
        groups.len() < starts.len(),
        starts[0] == 0,
        0 <= g < groups.len(),
        forall|q: int|
            0 <= q < groups.len() ==> starts[q + 1] == starts[q] + (#[trigger] groups[q])@.len(),
    ensures
        0 <= starts[g],
        starts[g] + groups[g]@.len() <= flattened(groups).len(),
    decreases groups.len(),
{
    let front: Seq<Vec<&RowMajorMatrix>> = groups.drop_last();
    assert forall|q: int| 0 <= q < front.len() implies starts[q + 1] == starts[q] + (
    #[trigger] front[q])@.len() by {
        assert(front[q] == groups[q]);
    }
    law_flattened(groups, starts, 0, 0);
    if g < front.len() {
        lemma_group_bounds(front, starts, g);
    } else {
        law_flattened(front, starts, 0, 0);
        assert(groups[g] == groups.last());
    }
}

/// The degree of a matrix is the number of its rows, divided by two as often as the blowup says, and
/// a matrix can be evaluated where that is a power of two that is no larger than the domain.
pub proof fn law_degree(m: RowMajorMatrix, log_blowup: nat, d: nat)
    ensures
        degree(m, log_blowup) == m.values@.len() / m.width as nat / pow2(log_blowup),
        fits(m, log_blowup, d) <==> m.wf() && degree(m, log_blowup) <= d && exists|k: nat|
            degree(m, log_blowup) == #[trigger] pow2(k),
{
}

/// An element that has an inverse has no other one.
pub proof fn law_inverse(a: Quad, b: Quad)
    requires
        a.wf(),
        b.wf(),
        a.times(b) == quad::base(1),
    ensures
        inverse(a) == b,
{
    lemma_inverse(a, b);
}

/// The barycentric scaling times `2^k` is `(z / x)^(2^k) - 1`, and is the only element with that
/// product.
pub proof fn law_scaling(z: Quad, x: Quad, x_inverse: Quad, k: nat, s: Quad)
    requires
        z.wf(),
        x.wf(),
        x_inverse.wf(),
        s.wf(),
        x.times(x_inverse) == quad::base(1),
    ensures
        quad::base(pow2(k) as int).times(scaling(z, x, k)) == coset::power(
            z.times(x_inverse),
            pow2(k),
        ).minus(quad::base(1)),
        quad::base(pow2(k) as int).times(s) == coset::power(z.times(x_inverse), pow2(k)).minus(
            quad::base(1),
        ) ==> s == scaling(z, x, k),
{
    let t: Quad = quad::squared(z.times(x_inverse), k).minus(quad::base(1));
    lemma_inverse(x, x_inverse);
    lemma_scaling(z, x, x_inverse, k);
    quad::law_two_power(k);
    coset::lemma_power_squared(z.times(x_inverse), k);
    if quad::two_power(k).times(s) == t {
        lemma_divided(t, s, k);
    }
}

/// The evaluation of a column is the scaling at `z` times the sum over all chunks of weights: the sum
/// of the products `x / (z - x)` of the points `x` of a chunk, times the value of the column for that
/// chunk.
///
/// The points are a domain of `2^k` points that is divided into as many chunks as there are values
/// that count.
pub proof fn law_evaluation_sum(
    z: Quad,
    points: Seq<Quad>,
    quotients: Seq<Quad>,
    k: nat,
    degree: nat,
    column: Seq<Quad>,
    first_inverse: Quad,
    s: Quad,
    sums: Seq<Quad>,
    chunk: nat,
)
    requires
        z.wf(),
        points.len() == pow2(k),
        points[0].wf(),
        first_inverse.wf(),
        s.wf(),
        points[0].times(first_inverse) == quad::base(1),
        quad::base(pow2(k) as int).times(s) == coset::power(
            z.times(first_inverse),
            pow2(k),
        ).minus(quad::base(1)),
        chunk > 0,
        degree > 0,
        chunk * degree == pow2(k),
        sums.len() == degree,
        forall|i: int|
            0 <= i < degree ==> #[trigger] sums[i] == barycentric::total(
                Seq::new(
                    chunk,
                    |q: int| points[chunk * i + q].times(quotients[chunk * i + q]),
                ),
            ),
    ensures
        lifted_eval(z, points, quotients, k, degree, column) == s.times(
            barycentric::total(Seq::new(degree, |i: int| sums[i].times(column[i]))),
        ),
{
    let all: Seq<Quad> = barycentric::weights(points, quotients);
    law_scaling(z, points[0], first_inverse, k, s);
    vstd::arithmetic::div_mod::lemma_div_multiples_vanish(chunk as int, degree as int);
    vstd::arithmetic::div_mod::lemma_div_multiples_vanish(degree as int, chunk as int);
    assert(degree * chunk == chunk * degree) by (nonlinear_arith);
    assert(pow2(k) / degree == chunk && pow2(k) / chunk == degree);
    assert(barycentric::chunk_sums(all, chunk) =~= sums) by {
        assert forall|i: int| 0 <= i < degree implies #[trigger] barycentric::chunk_sums(
            all,
            chunk,
        )[i] == sums[i] by {
            let entries: Seq<Quad> = Seq::new(
                chunk,
                |q: int| points[chunk * i + q].times(quotients[chunk * i + q]),
            );
            barycentric::lemma_chunk_bounds(all.len(), chunk, i);
            barycentric::law_chunk_sums(all, chunk, i, entries);
            assert(sums[i] == barycentric::total(entries));
        }
    }
}

/// The points of a domain step by `h` where each of them is `h` times the one that comes
/// `2^log_blowup` steps before it.
pub proof fn law_is_stepping(points: Seq<Quad>, h: Quad, log_n: nat, log_blowup: nat)
    ensures
        is_stepping(points, h, log_n, log_blowup) <==> forall|j: int|
            0 <= j < points.len() ==> points[#[trigger] coset::shifted_index(
                j as nat,
                log_n,
                pow2(log_blowup),
            ) as int].times(h) == points[j],
{
    if is_stepping(points, h, log_n, log_blowup) {
        assert forall|j: int| 0 <= j < points.len() implies points[
            #[trigger] coset::shifted_index(j as nat, log_n, pow2(log_blowup)) as int
        ].times(h) == points[j] by {
            assert(points[j] == points[j]);
        }
    }
}

/// Evaluating a column that holds the values of a polynomial gives the value of that polynomial.
///
/// The points are a domain of size `2^k` in bit-reversed order, made of pairs `x, -x` on all
/// levels, and `quotients` holds the inverses of their differences to `z`. The polynomial has
/// `2^(k - t)` coefficients, and the column starts with its values at the points squared `t` times.
/// The result is its value at `z` squared `t` times, which is the value at `z` of the polynomial
/// lifted to the whole domain.
#[verifier::spinoff_prover]
pub proof fn law_lifted_eval(
    coeffs: Seq<Quad>,
    points: Seq<Quad>,
    quotients: Seq<Quad>,
    z: Quad,
    k: nat,
    t: nat,
    column: Seq<Quad>,
    first_inverse: Quad,
)
    requires
        t <= k,
        coeffs.len() == pow2((k - t) as nat),
        barycentric::all_wf(coeffs),
        barycentric::is_folding(points, k),
        barycentric::are_quotients(quotients, points, z),
        z.wf(),
        first_inverse.wf(),
        points[0].times(first_inverse) == quad::base(1),
        column.len() >= pow2((k - t) as nat),
        forall|i: int|
            0 <= i < pow2((k - t) as nat) ==> #[trigger] column[i] == barycentric::value_at(
                coeffs,
                quad::squared(points[pow2(t) * i], t),
            ),
    ensures
        lifted_eval(z, points, quotients, k, pow2((k - t) as nat), column)
            == barycentric::value_at(coeffs, quad::squared(z, t)),
{
    let n: nat = pow2((k - t) as nat);
    let s: Quad = scaling(z, points[0], k);
    let values: Seq<Quad> = barycentric::values_at(coeffs, barycentric::lifted_points(points, t));
    let sums: Seq<Quad> = barycentric::chunk_sums(
        barycentric::weights(points, quotients),
        pow2(t),
    );
    vstd::arithmetic::power2::lemma_pow2_pos(k);
    vstd::arithmetic::power2::lemma_pow2_pos(t);
    vstd::arithmetic::power2::lemma_pow2_pos((k - t) as nat);
    vstd::arithmetic::power2::lemma_pow2_adds((k - t) as nat, t);
    vstd::arithmetic::div_mod::lemma_div_multiples_vanish(n as int, pow2(t) as int);
    vstd::arithmetic::div_mod::lemma_div_multiples_vanish(pow2(t) as int, n as int);
    assert(pow2(t) * n == n * pow2(t)) by (nonlinear_arith);
    assert(pow2(k) / n == pow2(t) && pow2(k) / pow2(t) == n);
    assert(points[0].wf());
    lemma_inverse(points[0], first_inverse);
    lemma_scaling(z, points[0], first_inverse, k);
    barycentric::law_barycentric(coeffs, points, quotients, z, k, t, first_inverse, s);
    assert(Seq::new(sums.len(), |i: int| sums[i].times(values[i])) =~= Seq::new(
        sums.len(),
        |i: int| sums[i].times(column[i]),
    )) by {
        assert forall|i: int| 0 <= i < n implies #[trigger] values[i] == column[i] by {}
    }
}

/// A coset in bit-reversed order is a domain on which the quotients for `h * z` can be derived from
/// those for `z`, where `h` is the generator to the power `2^log_blowup`, and its first points are
/// a domain for the evaluation.
pub proof fn law_coset_domain(shift: Quad, w: Quad, bits: nat, log_blowup: nat)
    requires
        shift.wf(),
        coset::is_root(w, bits),
        log_blowup <= bits,
    ensures
        is_stepping(coset::coset(shift, w, bits), quad::squared(w, log_blowup), bits, log_blowup),
        barycentric::is_folding(
            coset::coset(shift, w, bits).take(pow2((bits - log_blowup) as nat) as int),
            (bits - log_blowup) as nat,
        ),
        coset::coset(shift, w, bits)[0] == shift,
{
    let points: Seq<Quad> = coset::coset(shift, w, bits);
    let h: Quad = quad::squared(w, log_blowup);
    assert forall|j: int| 0 <= j < points.len() implies #[trigger] points[j]
        == points[coset::shifted_index(j as nat, bits, pow2(log_blowup)) as int].times(h) by {
        coset::law_coset_shift(shift, w, bits, log_blowup, j as nat);
    }
    coset::law_coset_prefix(shift, w, bits, log_blowup);
    coset::law_coset_folds(shift, h, (bits - log_blowup) as nat);
    vstd::arithmetic::power2::lemma_pow2_pos(bits);
    coset::lemma_reversed_zero(bits);
    assert(coset::power(w, 0) == quad::base(1));
    quad::lemma_mul(shift, w);
}

/// On a coset in bit-reversed order, with the inverses of the differences of its points to `z`, the
/// evaluation of a column that holds the values of a polynomial gives the value of the polynomial.
///
/// The coset has `2^bits` points, and the domain that counts is `2^log_blowup` times smaller. The
/// polynomial is another `2^t` times smaller, and the result is its value at `z` squared `t` times.
#[verifier::spinoff_prover]
pub proof fn law_evaluation_on_coset(
    coeffs: Seq<Quad>,
    shift: Quad,
    shift_inverse: Quad,
    w: Quad,
    bits: nat,
    log_blowup: nat,
    t: nat,
    quotients: Seq<Quad>,
    z: Quad,
    column: Seq<Quad>,
)
    requires
        shift.wf(),
        shift_inverse.wf(),
        shift.times(shift_inverse) == quad::base(1),
        coset::is_root(w, bits),
        log_blowup + t <= bits,
        coeffs.len() == pow2((bits - log_blowup - t) as nat),
        barycentric::all_wf(coeffs),
        z.wf(),
        barycentric::are_quotients(quotients, coset::coset(shift, w, bits), z),
        column.len() >= coeffs.len(),
        forall|i: int|
            0 <= i < coeffs.len() ==> #[trigger] column[i] == barycentric::value_at(
                coeffs,
                quad::squared(coset::coset(shift, w, bits)[pow2(t) * i], t),
            ),
    ensures
        lifted_eval(
            z,
            coset::coset(shift, w, bits).take(pow2((bits - log_blowup) as nat) as int),
            quotients.take(pow2((bits - log_blowup) as nat) as int),
            (bits - log_blowup) as nat,
            pow2((bits - log_blowup - t) as nat),
            column,
        ) == barycentric::value_at(coeffs, quad::squared(z, t)),
{
    let k: nat = (bits - log_blowup) as nat;
    let n: nat = pow2((k - t) as nat);
    let points: Seq<Quad> = coset::coset(shift, w, bits);
    let domain: Seq<Quad> = points.take(pow2(k) as int);
    law_coset_domain(shift, w, bits, log_blowup);
    if k < bits {
        vstd::arithmetic::power2::lemma_pow2_strictly_increases(k, bits);
    }
    vstd::arithmetic::power2::lemma_pow2_pos(k);
    vstd::arithmetic::power2::lemma_pow2_pos(t);
    vstd::arithmetic::power2::lemma_pow2_adds((k - t) as nat, t);
    assert forall|i: int| 0 <= i < pow2((k - t) as nat) implies #[trigger] column[i]
        == barycentric::value_at(coeffs, quad::squared(domain[pow2(t) * i], t)) by {
        let p: int = pow2(t) as int;
        assert(0 <= p * i < n * p) by (nonlinear_arith)
            requires
                0 <= i < n,
                0 < p,
        ;
        assert(domain[pow2(t) * i] == points[pow2(t) * i]);
    }
    law_lifted_eval(
        coeffs,
        domain,
        quotients.take(pow2(k) as int),
        z,
        k,
        t,
        column,
        shift_inverse,
    );
}

/// The scaling for `z * z` on the squares of the points is twice the scaling for `z`.
pub proof fn law_fold_scaling(z: Quad, x: Quad, x_inverse: Quad, k: nat)
    requires
        k > 0,
        z.wf(),
        x.wf(),
        x_inverse.wf(),
        x.times(x_inverse) == quad::base(1),
    ensures
        scaling(z.times(z), x.times(x), (k - 1) as nat) == quad::base(2).times(scaling(z, x, k)),
{
    let m: nat = (k - 1) as nat;
    let two: Quad = quad::base(2);
    let half: Quad = quad::base(0x7FFF_FFFF_8000_0001);
    let a: Quad = quad::squared(z.times(x_inverse), k).minus(quad::base(1));
    lemma_inverse(x, x_inverse);
    barycentric::lemma_mul_exchange(x, x, x_inverse, x_inverse);
    quad::lemma_base(1, 1);
    lemma_inverse(x.times(x), x_inverse.times(x_inverse));
    barycentric::lemma_mul_exchange(z, z, x_inverse, x_inverse);
    barycentric::lemma_half_power(m);
    quad::lemma_base(2, 0x7FFF_FFFF_8000_0001);
    quad::lemma_base(0x7FFF_FFFF_8000_0001, 0);
    felt::lemma_congruent(2int * 0x7FFF_FFFF_8000_0001int, 1, 1);
    // 2 * (a * (half * h)) == a * h
    let h: Quad = barycentric::half_power(m);
    barycentric::lemma_half_power(k);
    barycentric::lemma_left_commute(two, a, half.times(h));
    quad::lemma_mul_assoc(two, half, h);
    quad::lemma_mul(h, h);
}

/// The scaling is what it has to be for the interpolation.
proof fn lemma_scaling(z: Quad, x: Quad, x_inverse: Quad, k: nat)
    requires
        z.wf(),
        x.wf(),
        x_inverse.wf(),
        x.times(x_inverse) == quad::base(1),
    ensures
        barycentric::is_scaling(scaling(z, x, k), z, x_inverse, k),
        scaling(z, x, k).wf(),
{
    lemma_inverse(x, x_inverse);
    let a: Quad = quad::squared(z.times(x_inverse), k).minus(quad::base(1));
    quad::lemma_powers_wf(z.times(x_inverse), k);
    barycentric::lemma_half_power(k);
    barycentric::lemma_left_commute(quad::two_power(k), a, barycentric::half_power(k));
    quad::lemma_mul(a, a);
}

/// One power of two divides another that is no smaller.
proof fn lemma_power_quotient(a: nat, b: nat)
    requires
        coset::is_power_of_two(a),
        coset::is_power_of_two(b),
        b <= a,
    ensures
        0 < b,
        0 < a / b,
        (a / b) * b == a,
        a / (a / b) == b,
{
    let m: nat = choose|m: nat| a == #[trigger] pow2(m);
    let n: nat = choose|n: nat| b == #[trigger] pow2(n);
    if m < n {
        vstd::arithmetic::power2::lemma_pow2_strictly_increases(m, n);
    }
    let q: nat = pow2((m - n) as nat);
    vstd::arithmetic::power2::lemma_pow2_pos(n);
    vstd::arithmetic::power2::lemma_pow2_pos((m - n) as nat);
    vstd::arithmetic::power2::lemma_pow2_adds((m - n) as nat, n);
    vstd::arithmetic::div_mod::lemma_div_multiples_vanish(q as int, b as int);
    vstd::arithmetic::div_mod::lemma_div_multiples_vanish(b as int, q as int);
    assert(b * q == q * b) by (nonlinear_arith);
}

/// Chunks of chunks, for powers of two that divide one another.
proof fn lemma_quotient_chain(d: nat, a: nat, b: nat)
    requires
        coset::is_power_of_two(d),
        coset::is_power_of_two(a),
        coset::is_power_of_two(b),
        b <= a <= d,
    ensures
        (d / a) * (a / b) == d / b,
{
    lemma_power_quotient(d, a);
    lemma_power_quotient(a, b);
    let (x, y): (nat, nat) = (d / a, a / b);
    assert((x * y) * b == x * (y * b)) by (nonlinear_arith);
    vstd::arithmetic::div_mod::lemma_div_multiples_vanish((x * y) as int, b as int);
    assert(b * (x * y) == (x * y) * b) by (nonlinear_arith);
}

/// The division by a power of two is the multiplication with its inverse.
proof fn lemma_divided(t: Quad, s: Quad, k: nat)
    requires
        t.wf(),
        s.wf(),
        quad::two_power(k).times(s) == t,
    ensures
        s == t.times(barycentric::half_power(k)),
{
    let (two, half): (Quad, Quad) = (quad::two_power(k), barycentric::half_power(k));
    barycentric::lemma_half_power(k);
    quad::lemma_powers_wf(t, k);
    quad::lemma_mul(two, s);
    quad::lemma_mul_assoc(s, two, half);
    quad::lemma_mul(s, s);
}

/// Whether a list is in strictly descending order.
pub open spec fn is_descending(s: Seq<usize>) -> bool {
    forall|i: int, j: int| 0 <= i < j < s.len() ==> s[i] > s[j]
}

/// The elements of a set, from the largest to the smallest.
fn descending(set: &BTreeSet<usize>) -> (r: Vec<usize>)
    ensures
        is_descending(r@),
        forall|y: usize| #[trigger] r@.contains(y) <==> set@.contains(y),
{
    let mut ascending: Vec<usize> = Vec::new();
    for x in iter: set.iter()
        invariant
            iter.seq() == spec_btree_keys_iter(set).remaining(),
            ascending@.len() == iter.index(),
            forall|i: int| 0 <= i < ascending@.len() ==> ascending@[i] == *iter.seq()[i],
    {
        ascending.push(*x);
    }
    proof {
        let keys: Seq<&usize> = spec_btree_keys_iter(set).remaining();
        assert(vstd::laws_cmp::obeys_cmp::<&usize>());
        assert forall|i: int, j: int| 0 <= i < j < ascending@.len() implies ascending@[i]
            < ascending@[j] by {
            assert(OrdSpec::cmp_spec(&keys[i], &keys[j]) is Less);
            assert(OrdSpec::cmp_spec(&ascending@[i], &ascending@[j]) is Less);
        }
        assert(keys.unref() =~= ascending@);
    }
    let n: usize = ascending.len();
    let mut r: Vec<usize> = Vec::new();
    for i in 0..n
        invariant
            n == ascending@.len(),
            r@.len() == i,
            forall|k: int| 0 <= k < i ==> r@[k] == ascending@[n - 1 - k],
    {
        r.push(ascending[n - 1 - i]);
    }
    proof {
        assert forall|y: usize| #[trigger] r@.contains(y) <==> set@.contains(y) by {
            assert(ascending@.contains(y) <==> ascending@.to_set().contains(y));
            if r@.contains(y) {
                let k: int = choose|k: int| 0 <= k < r@.len() && r@[k] == y;
                assert(ascending@[n - 1 - k] == y);
            }
            if ascending@.contains(y) {
                let k: int = choose|k: int| 0 <= k < ascending@.len() && ascending@[k] == y;
                assert(r@[n - 1 - k] == y);
            }
        }
    }
    r
}

/// The matrices of all groups, one after the other.
fn flatten<'a>(groups: &[Vec<&'a RowMajorMatrix>]) -> (r: Vec<&'a RowMajorMatrix>)
    ensures
        r@.len() == flattened(groups@).len(),
        forall|i: int| 0 <= i < r@.len() ==> *(#[trigger] r@[i]) == flattened(groups@)[i],
{
    let mut r: Vec<&'a RowMajorMatrix> = Vec::new();
    proof {
        assert(groups@.take(0) =~= seq![]);
    }
    for g in 0..groups.len()
        invariant
            r@.len() == flattened(groups@.take(g as int)).len(),
            forall|i: int|
                0 <= i < r@.len() ==> *(#[trigger] r@[i]) == flattened(groups@.take(g as int))[i],
    {
        let group: &Vec<&'a RowMajorMatrix> = &groups[g];
        let ghost before: Seq<RowMajorMatrix> = flattened(groups@.take(g as int));
        let ghost added: Seq<RowMajorMatrix> = Seq::new(group@.len(), |i: int| *group@[i]);
        for i in 0..group.len()
            invariant
                r@.len() == before.len() + i,
                added == Seq::new(group@.len(), |i: int| *group@[i]),
                forall|k: int| 0 <= k < r@.len() ==> *(#[trigger] r@[k]) == (before + added)[k],
        {
            r.push(group[i]);
        }
        proof {
            assert(groups@.take(g + 1).drop_last() =~= groups@.take(g as int));
            assert(groups@.take(g + 1).last() == groups@[g as int]);
        }
    }
    proof {
        assert(groups@.take(groups@.len() as int) =~= groups@);
    }
    r
}

/// The sums of adjacent weights, in both lanes.
fn fold_weights(prev: &Vec<[QuadFelt; 2]>, chunk_size: usize) -> (r: Vec<[QuadFelt; 2]>)
    requires
        chunk_size > 0,
    ensures
        r@.len() == prev@.len() / chunk_size as nat,
        forall|j: int|
            0 <= j < 2 ==> #[trigger] matrix::lane(r@, j) == barycentric::chunk_sums(
                matrix::lane(prev@, j),
                chunk_size as nat,
            ),
{
    let len: usize = prev.len();
    let n: usize = len / chunk_size;
    let mut r: Vec<[QuadFelt; 2]> = Vec::new();
    for i in 0..n
        invariant
            chunk_size > 0,
            len == prev@.len(),
            n == prev@.len() / chunk_size as nat,
            r@.len() == i,
            forall|j: int, k: int|
                0 <= j < 2 && 0 <= k < i ==> (#[trigger] r@[k][j])@ == barycentric::total(
                    matrix::lane(prev@, j).subrange(
                        chunk_size * k,
                        chunk_size * k + chunk_size,
                    ),
                ),
    {
        proof {
            barycentric::lemma_chunk_bounds(prev@.len(), chunk_size as nat, i as int);
        }
        let start: usize = chunk_size * i;
        let ghost first: Seq<Quad> = matrix::lane(prev@, 0);
        let ghost second: Seq<Quad> = matrix::lane(prev@, 1);
        let mut sum0: QuadFelt = QuadFelt::zero();
        let mut sum1: QuadFelt = QuadFelt::zero();
        for c in 0..chunk_size
            invariant
                len == prev@.len(),
                start + chunk_size <= len,
                first == matrix::lane(prev@, 0),
                second == matrix::lane(prev@, 1),
                sum0@ == barycentric::total(first.subrange(start as int, start + c)),
                sum1@ == barycentric::total(second.subrange(start as int, start + c)),
        {
            let weights: [QuadFelt; 2] = prev[start + c];
            proof {
                assert(first.subrange(start as int, start + c + 1).drop_last() =~= first.subrange(
                    start as int,
                    start + c,
                ));
                assert(second.subrange(start as int, start + c + 1).drop_last()
                    =~= second.subrange(start as int, start + c));
            }
            sum0 = sum0 + weights[0];
            sum1 = sum1 + weights[1];
        }
        r.push([sum0, sum1]);
    }
    assert forall|j: int| 0 <= j < 2 implies #[trigger] matrix::lane(r@, j)
        == barycentric::chunk_sums(matrix::lane(prev@, j), chunk_size as nat) by {
        assert(matrix::lane(r@, j) =~= barycentric::chunk_sums(
            matrix::lane(prev@, j),
            chunk_size as nat,
        )) by {
            assert forall|i: int| 0 <= i < r@.len() implies #[trigger] matrix::lane(r@, j)[i]
                == barycentric::chunk_sums(matrix::lane(prev@, j), chunk_size as nat)[i] by {
                assert(r@[i][j]@ == matrix::lane(r@, j)[i]);
            }
        }
    }
    r
}

/// The weights for a domain of `d` points, folded down to the given degree.
pub open spec fn folded_weights(top: Seq<Quad>, degree: nat) -> Seq<Quad> {
    barycentric::chunk_sums(top, top.len() / degree)
}

/// The barycentric weights for all given degrees, each derived from those of the degree before it.
fn weights_by_degree(top: Vec<[QuadFelt; 2]>, degrees: &Vec<usize>) -> (r: Vec<Vec<[QuadFelt; 2]>>)
    requires
        is_descending(degrees@),
        degrees@.len() > 0,
        degrees@[0] == top@.len(),
        forall|i: int|
            0 <= i < degrees@.len() ==> coset::is_power_of_two((#[trigger] degrees@[i]) as nat),
    ensures
        r@.len() == degrees@.len(),
        forall|i: int, j: int|
            0 <= i < r@.len() && 0 <= j < 2 ==> #[trigger] matrix::lane(r@[i]@, j)
                == folded_weights(matrix::lane(top@, j), degrees@[i] as nat),
        forall|i: int| 0 <= i < r@.len() ==> (#[trigger] r@[i])@.len() == degrees@[i],
{
    let ghost d: nat = top@.len();
    let ghost lanes: Seq<Seq<Quad>> = seq![matrix::lane(top@, 0), matrix::lane(top@, 1)];
    let mut r: Vec<Vec<[QuadFelt; 2]>> = Vec::new();
    proof {
        assert(coset::is_power_of_two(degrees@[0] as nat));
        lemma_power_quotient(d, d);
        vstd::arithmetic::div_mod::lemma_div_by_self(d as int);
        barycentric::lemma_chunks_of_one(lanes[0]);
        barycentric::lemma_chunks_of_one(lanes[1]);
    }
    r.push(top);
    for i in 1..degrees.len()
        invariant
            r@.len() == i,
            is_descending(degrees@),
            degrees@[0] == d,
            lanes.len() == 2,
            forall|j: int|
                0 <= j < 2 ==> (#[trigger] lanes[j]).len() == d && barycentric::all_wf(lanes[j]),
            forall|k: int|
                0 <= k < degrees@.len() ==> coset::is_power_of_two((#[trigger] degrees@[k]) as nat),
            forall|k: int, j: int|
                0 <= k < i && 0 <= j < 2 ==> #[trigger] matrix::lane(r@[k]@, j) == folded_weights(
                    lanes[j],
                    degrees@[k] as nat,
                ),
            forall|k: int| 0 <= k < i ==> (#[trigger] r@[k])@.len() == degrees@[k],
    {
        let next_degree: usize = degrees[i];
        let prev: &Vec<[QuadFelt; 2]> = &r[i - 1];
        let ghost a: nat = degrees@[i - 1] as nat;
        let ghost b: nat = next_degree as nat;
        proof {
            assert(coset::is_power_of_two(degrees@[i - 1] as nat));
            assert(coset::is_power_of_two(degrees@[i as int] as nat));
            assert(coset::is_power_of_two(degrees@[0] as nat));
            assert(a <= d);
            lemma_power_quotient(a, b);
            lemma_power_quotient(d, a);
            lemma_quotient_chain(d, a, b);
        }
        let next: Vec<[QuadFelt; 2]> = fold_weights(prev, prev.len() / next_degree);
        proof {
            assert forall|j: int| 0 <= j < 2 implies #[trigger] matrix::lane(next@, j)
                == folded_weights(lanes[j], b) by {
                assert(matrix::lane(r@[i - 1]@, j) == folded_weights(lanes[j], a));
                barycentric::lemma_chunks_compose(lanes[j], d / a, a / b);
            }
        }
        r.push(next);
    }
    r
}

/// The scaling at a point, with the inverse of the first point of the domain given.
fn barycentric_scaling(point: QuadFelt, shift: Felt, shift_inverse: Felt, log_d: usize) -> (r:
    QuadFelt)
    requires
        felt::reduced(shift@ * shift_inverse@) == 1,
    ensures
        r@ == scaling(point@, quad::base(shift@), log_d as nat),
{
    let z_over_shift: QuadFelt = point * shift_inverse;
    let t: QuadFelt = z_over_shift.exp_power_of_2(log_d) - QuadFelt::one();
    let r: QuadFelt = t.div_2exp(log_d);
    proof {
        let (x, i): (Quad, Quad) = (quad::base(shift@), quad::base(shift_inverse@));
        quad::lemma_base(shift@, shift_inverse@);
        quad::lemma_base(shift_inverse@, 0);
        quad::lemma_base(shift@ * shift_inverse@, 0);
        assert(x.times(i) == quad::base(1));
        lemma_inverse(x, i);
        lemma_divided(t@, r@, log_d as nat);
    }
    r
}

impl PointQuotients {
    /// The values of all matrix columns at both points, lifted to the height of each matrix.
    ///
    /// A matrix whose degree is `2^t` times smaller than the domain is evaluated at the points
    /// squared `t` times. The result has a row for each matrix, in the order of the groups and of
    /// the matrices within them. In the contract, `starts` stands for the index of the first row of
    /// each group, followed by the number of all rows.
    #[verifier::spinoff_prover]
    pub fn batch_eval_lifted(
        &self,
        matrices_groups: &[Vec<&RowMajorMatrix>],
        coset_points: &[Felt],
        log_blowup: u8,
    ) -> (r: RowList)
        requires
            log_blowup < usize::BITS,
            coset_points@.len() > 0,
            coset_points@[0]@ != 0,
            coset::is_power_of_two(coset_points@.len() / pow2(log_blowup as nat)),
            self.point_quotient@.len() >= coset_points@.len() / pow2(log_blowup as nat),
            forall|i: int|
                0 <= i < flattened(matrices_groups@).len() ==> fits(
                    #[trigger] flattened(matrices_groups@)[i],
                    log_blowup as nat,
                    coset_points@.len() / pow2(log_blowup as nat),
                ),
            exists|i: int|
                0 <= i < flattened(matrices_groups@).len() && degree(
                    #[trigger] flattened(matrices_groups@)[i],
                    log_blowup as nat,
                ) == coset_points@.len() / pow2(log_blowup as nat),
        ensures
            r@.len() == flattened(matrices_groups@).len(),
            forall|i: int|
                0 <= i < r@.len() ==> (#[trigger] r@[i]).len() == flattened(
                    matrices_groups@,
                )[i].width,
            forall|k: nat, i: int, col: int, j: int|
                coset_points@.len() / pow2(log_blowup as nat) == pow2(k) && 0 <= i < r@.len()
                    && 0 <= col < r@[i].len() && 0 <= j < 2 ==> (#[trigger] r@[i][col][j])@
                    == #[trigger] lifted_eval(
                    self.points[j]@,
                    coset::embedded(coset_points@).take(pow2(k) as int),
                    matrix::lane(self.point_quotient@, j).take(pow2(k) as int),
                    k,
                    degree(flattened(matrices_groups@)[i], log_blowup as nat),
                    flattened(matrices_groups@)[i].column(col),
                ),
            forall|starts: Seq<int>|
                #![trigger starts.len()]
                starts.len() == matrices_groups@.len() + 1 && starts[0] == 0 && (forall|g: int|
                    0 <= g < matrices_groups@.len() ==> starts[g + 1] == starts[g] + (
                    #[trigger] matrices_groups@[g])@.len()) ==> r@.len()
                    == starts[matrices_groups@.len() as int],
            forall|starts: Seq<int>, g: int|
                #![trigger starts.len(), matrices_groups@[g]]
                starts.len() == matrices_groups@.len() + 1 && starts[0] == 0 && (forall|q: int|
                    0 <= q < matrices_groups@.len() ==> starts[q + 1] == starts[q] + (
                    #[trigger] matrices_groups@[q])@.len()) && 0 <= g < matrices_groups@.len()
                    ==> starts[g] + matrices_groups@[g]@.len() <= r@.len(),
            forall|starts: Seq<int>, g: int, m: int, row: int|
                #![trigger starts.len(), matrices_groups@[g]@[m], r@[row]]
                starts.len() == matrices_groups@.len() + 1 && starts[0] == 0 && (forall|q: int|
                    0 <= q < matrices_groups@.len() ==> starts[q + 1] == starts[q] + (
                    #[trigger] matrices_groups@[q])@.len()) && 0 <= g < matrices_groups@.len() && 0
                    <= m < matrices_groups@[g]@.len() && row == starts[g] + m
                    ==> r@[row].len() == matrices_groups@[g]@[m].width,
            forall|
                starts: Seq<int>,
                g: int,
                m: int,
                row: int,
                k: nat,
                col: int,
                j: int,
            |
                #![trigger starts.len(), matrices_groups@[g]@[m], r@[row][col][j], pow2(k)]
                starts.len() == matrices_groups@.len() + 1 && starts[0] == 0 && (forall|q: int|
                    0 <= q < matrices_groups@.len() ==> starts[q + 1] == starts[q] + (
                    #[trigger] matrices_groups@[q])@.len()) && 0 <= g < matrices_groups@.len() && 0
                    <= m < matrices_groups@[g]@.len() && row == starts[g] + m
                    && coset_points@.len() / pow2(log_blowup as nat) == pow2(k) && 0 <= col
                    < r@[row].len() && 0 <= j < 2 ==> r@[row][col][j]@ == lifted_eval(
                    self.points[j]@,
                    coset::embedded(coset_points@).take(pow2(k) as int),
                    matrix::lane(self.point_quotient@, j).take(pow2(k) as int),
                    k,
                    degree(*matrices_groups@[g]@[m], log_blowup as nat),
                    matrices_groups@[g]@[m].column(col),
                ),
    {
        let r: RowList = self.evaluate_all(matrices_groups, coset_points, log_blowup);
        proof {
            assert forall|starts: Seq<int>|
                #![trigger starts.len()]
                starts.len() == matrices_groups@.len() + 1 && starts[0] == 0 && (forall|g: int|
                    0 <= g < matrices_groups@.len() ==> starts[g + 1] == starts[g] + (
                    #[trigger] matrices_groups@[g])@.len()) implies r@.len()
                == starts[matrices_groups@.len() as int] by {
                law_flattened(matrices_groups@, starts, 0, 0);
            }
            assert forall|starts: Seq<int>, g: int|
                #![trigger starts.len(), matrices_groups@[g]]
                starts.len() == matrices_groups@.len() + 1 && starts[0] == 0 && (forall|q: int|
                    0 <= q < matrices_groups@.len() ==> starts[q + 1] == starts[q] + (
                    #[trigger] matrices_groups@[q])@.len()) && 0 <= g < matrices_groups@.len()
                    implies starts[g] + matrices_groups@[g]@.len() <= r@.len() by {
                lemma_group_bounds(matrices_groups@, starts, g);
            }
            assert forall|starts: Seq<int>, g: int, m: int, row: int|
                #![trigger starts.len(), matrices_groups@[g]@[m], r@[row]]
                starts.len() == matrices_groups@.len() + 1 && starts[0] == 0 && (forall|q: int|
                    0 <= q < matrices_groups@.len() ==> starts[q + 1] == starts[q] + (
                    #[trigger] matrices_groups@[q])@.len()) && 0 <= g < matrices_groups@.len() && 0
                    <= m < matrices_groups@[g]@.len() && row == starts[g] + m
                    implies r@[row].len() == matrices_groups@[g]@[m].width by {
                law_flattened(matrices_groups@, starts, g, m);
            }
            assert forall|
                starts: Seq<int>,
                g: int,
                m: int,
                row: int,
                k: nat,
                col: int,
                j: int,
            |
                #![trigger starts.len(), matrices_groups@[g]@[m], r@[row][col][j], pow2(k)]
                starts.len() == matrices_groups@.len() + 1 && starts[0] == 0 && (forall|q: int|
                    0 <= q < matrices_groups@.len() ==> starts[q + 1] == starts[q] + (
                    #[trigger] matrices_groups@[q])@.len()) && 0 <= g < matrices_groups@.len() && 0
                    <= m < matrices_groups@[g]@.len() && row == starts[g] + m
                    && coset_points@.len() / pow2(log_blowup as nat) == pow2(k) && 0 <= col
                    < r@[row].len() && 0 <= j < 2 implies r@[row][col][j]@ == lifted_eval(
                self.points[j]@,
                coset::embedded(coset_points@).take(pow2(k) as int),
                matrix::lane(self.point_quotient@, j).take(pow2(k) as int),
                k,
                degree(*matrices_groups@[g]@[m], log_blowup as nat),
                matrices_groups@[g]@[m].column(col),
            ) by {
                law_flattened(matrices_groups@, starts, g, m);
                assert(r@[row][col][j]@ == lifted_eval(
                    self.points[j]@,
                    coset::embedded(coset_points@).take(pow2(k) as int),
                    matrix::lane(self.point_quotient@, j).take(pow2(k) as int),
                    k,
                    degree(flattened(matrices_groups@)[row], log_blowup as nat),
                    flattened(matrices_groups@)[row].column(col),
                ));
            }
        }
        r
    }

    /// The values of all matrix columns at both points, with a row for each matrix of the groups.
    #[verifier::spinoff_prover]
    fn evaluate_all(
        &self,
        matrices_groups: &[Vec<&RowMajorMatrix>],
        coset_points: &[Felt],
        log_blowup: u8,
    ) -> (r: RowList)
        requires
            log_blowup < usize::BITS,
            coset_points@.len() > 0,
            coset_points@[0]@ != 0,
            coset::is_power_of_two(coset_points@.len() / pow2(log_blowup as nat)),
            self.point_quotient@.len() >= coset_points@.len() / pow2(log_blowup as nat),
            forall|i: int|
                0 <= i < flattened(matrices_groups@).len() ==> fits(
                    #[trigger] flattened(matrices_groups@)[i],
                    log_blowup as nat,
                    coset_points@.len() / pow2(log_blowup as nat),
                ),
            exists|i: int|
                0 <= i < flattened(matrices_groups@).len() && degree(
                    #[trigger] flattened(matrices_groups@)[i],
                    log_blowup as nat,
                ) == coset_points@.len() / pow2(log_blowup as nat),
        ensures
            r@.len() == flattened(matrices_groups@).len(),
            forall|i: int|
                0 <= i < r@.len() ==> (#[trigger] r@[i]).len() == flattened(
                    matrices_groups@,
                )[i].width,
            forall|k: nat, i: int, col: int, j: int|
                coset_points@.len() / pow2(log_blowup as nat) == pow2(k) && 0 <= i < r@.len()
                    && 0 <= col < r@[i].len() && 0 <= j < 2 ==> (#[trigger] r@[i][col][j])@
                    == #[trigger] lifted_eval(
                    self.points[j]@,
                    coset::embedded(coset_points@).take(pow2(k) as int),
                    matrix::lane(self.point_quotient@, j).take(pow2(k) as int),
                    k,
                    degree(flattened(matrices_groups@)[i], log_blowup as nat),
                    flattened(matrices_groups@)[i].column(col),
                ),
    {
        let n: usize = coset_points.len();
        proof {
            vstd::bits::lemma_usize_shr_is_div(n, log_blowup as usize);
            vstd::arithmetic::power2::lemma_pow2_pos(log_blowup as nat);
        }
        let d: usize = n >> (log_blowup as usize);
        let log_d: usize = p3_util::log2_strict_usize(d);
        proof {
            vstd::arithmetic::power2::lemma_pow2_pos(log_d as nat);
            vstd::arithmetic::div_mod::lemma_div_is_ordered_by_denominator(
                n as int,
                1,
                pow2(log_blowup as nat) as int,
            );
        }
        let shift: Felt = coset_points[0];
        let shift_inverse: Felt = shift.inverse();
        let s0: QuadFelt = barycentric_scaling(self.points[0], shift, shift_inverse, log_d);
        let s1: QuadFelt = barycentric_scaling(self.points[1], shift, shift_inverse, log_d);

        let matrices: Vec<&RowMajorMatrix> = flatten(matrices_groups);
        let ghost all: Seq<RowMajorMatrix> = flattened(matrices_groups@);
        let mut used_degrees: BTreeSet<usize> = BTreeSet::new();
        for i in 0..matrices.len()
            invariant
                log_blowup < usize::BITS,
                matrices@.len() == all.len(),
                forall|k: int| 0 <= k < all.len() ==> *(#[trigger] matrices@[k]) == all[k],
                forall|k: int|
                    0 <= k < all.len() ==> fits(#[trigger] all[k], log_blowup as nat, d as nat),
                forall|y: usize| #[trigger]
                    used_degrees@.contains(y) ==> coset::is_power_of_two(y as nat) && y <= d,
                forall|k: int|
                    0 <= k < i ==> used_degrees@.contains(
                        #[trigger] degree(all[k], log_blowup as nat) as usize,
                    ),
        {
            let m: &RowMajorMatrix = matrices[i];
            assert(fits(all[i as int], log_blowup as nat, d as nat));
            let height: usize = m.height();
            proof {
                vstd::bits::lemma_usize_shr_is_div(height, log_blowup as usize);
            }
            used_degrees.insert(height >> (log_blowup as usize));
        }
        let degrees: Vec<usize> = descending(&used_degrees);
        proof {
            assert forall|k: int| 0 <= k < degrees@.len() implies coset::is_power_of_two(
                (#[trigger] degrees@[k]) as nat,
            ) && degrees@[k] <= d by {
                assert(degrees@.contains(degrees@[k]));
                assert(used_degrees@.contains(degrees@[k]));
            }
            assert forall|k: int| 0 <= k < all.len() implies degrees@.contains(
                #[trigger] degree(all[k], log_blowup as nat) as usize,
            ) by {
                assert(used_degrees@.contains(degree(all[k], log_blowup as nat) as usize));
            }
        }
        proof {
            let w: int = choose|i: int|
                0 <= i < all.len() && degree(#[trigger] all[i], log_blowup as nat) == d;
            assert(degrees@.contains(degree(all[w], log_blowup as nat) as usize));
            let q: int = choose|q: int| 0 <= q < degrees@.len() && degrees@[q] == d;
            assert(degrees@[0] <= d);
            assert(q > 0 ==> degrees@[0] > degrees@[q]);
            assert(degrees@[0] == d);
        }
        let top: Vec<[QuadFelt; 2]> = self.top_weights(coset_points, d);
        let weights: Vec<Vec<[QuadFelt; 2]>> = weights_by_degree(top, &degrees);
        let ghost points: Seq<Quad> = coset::embedded(coset_points@).take(d as int);
        let ghost lanes: Seq<Seq<Quad>> = seq![
            matrix::lane(self.point_quotient@, 0).take(d as int),
            matrix::lane(self.point_quotient@, 1).take(d as int),
        ];

        let mut index: LinearMap<usize, usize> = degree_map_new();
        for i in 0..degrees.len()
            invariant
                is_descending(degrees@),
                forall|k: int|
                    0 <= k < i ==> degree_entries(index).dom().contains(#[trigger] degrees@[k])
                        && degree_entries(index)[degrees@[k]] == k,
        {
            degree_map_insert(&mut index, degrees[i], i);
        }

        let mut rows: Vec<Vec<[QuadFelt; 2]>> = Vec::new();
        for i in 0..matrices.len()
            invariant
                log_blowup < usize::BITS,
                d == pow2(log_d as nat),
                d > 0,
                matrices@.len() == all.len(),
                forall|k: int| 0 <= k < all.len() ==> *(#[trigger] matrices@[k]) == all[k],
                forall|k: int|
                    0 <= k < all.len() ==> fits(#[trigger] all[k], log_blowup as nat, d as nat),
                forall|k: int|
                    0 <= k < all.len() ==> degrees@.contains(
                        #[trigger] degree(all[k], log_blowup as nat) as usize,
                    ),
                forall|k: int|
                    0 <= k < degrees@.len() ==> degree_entries(index).dom().contains(
                        #[trigger] degrees@[k],
                    ) && degree_entries(index)[degrees@[k]] == k,
                weights@.len() == degrees@.len(),
                points.len() == d,
                points[0] == quad::base(shift@),
                lanes.len() == 2,
                forall|k: int, j: int|
                    0 <= k < weights@.len() && 0 <= j < 2 ==> #[trigger] matrix::lane(
                        weights@[k]@,
                        j,
                    ) == barycentric::chunk_sums(
                        barycentric::weights(points, lanes[j]),
                        d as nat / degrees@[k] as nat,
                    ),
                forall|k: int|
                    0 <= k < weights@.len() ==> (#[trigger] weights@[k])@.len() == degrees@[k],
                s0@ == scaling(self.points[0]@, points[0], log_d as nat),
                s1@ == scaling(self.points[1]@, points[0], log_d as nat),
                rows@.len() == i,
                forall|k: int| 0 <= k < i ==> (#[trigger] rows@[k])@.len() == all[k].width,
                forall|k: int, col: int, j: int|
                    0 <= k < i && 0 <= col < all[k].width && 0 <= j < 2 ==> (
                    #[trigger] rows@[k]@[col][j])@ == lifted_eval(
                        self.points[j]@,
                        points,
                        lanes[j],
                        log_d as nat,
                        degree(all[k], log_blowup as nat),
                        all[k].column(col),
                    ),
        {
            let m: &RowMajorMatrix = matrices[i];
            assert(fits(all[i as int], log_blowup as nat, d as nat));
            let height: usize = m.height();
            proof {
                vstd::bits::lemma_usize_shr_is_div(height, log_blowup as usize);
                vstd::arithmetic::power2::lemma_pow2_pos(log_blowup as nat);
                vstd::arithmetic::div_mod::lemma_div_is_ordered_by_denominator(
                    height as int,
                    1,
                    pow2(log_blowup as nat) as int,
                );
            }
            let x: usize = height >> (log_blowup as usize);
            let ghost at: int = choose|q: int| 0 <= q < degrees@.len() && degrees@[q] == x;
            assert(degrees@.contains(degree(all[i as int], log_blowup as nat) as usize));
            assert(degrees@[at] == x);
            // The weights of all degrees have been computed.
            let slot: usize = match degree_map_get(&index, x) {
                Some(slot) => slot,
                None => vstd::pervasive::unreached(),
            };
            let sums: Vec<[QuadFelt; 2]> = matrix::columnwise_dot_product_batched(
                m,
                &weights[slot],
            );
            let mut row: Vec<[QuadFelt; 2]> = Vec::new();
            for col in 0..sums.len()
                invariant
                    sums@.len() == m.width,
                    row@.len() == col,
                    forall|c: int, j: int|
                        0 <= c < m.width && 0 <= j < 2 ==> (#[trigger] sums@[c][j])@
                            == barycentric::dot(
                            matrix::lane(weights@[slot as int]@, j),
                            m.column(c),
                        ),
                    forall|c: int|
                        0 <= c < col ==> (#[trigger] row@[c])[0]@ == s0@.times(sums@[c][0]@)
                            && row@[c][1]@ == s1@.times(sums@[c][1]@),
            {
                let pair: [QuadFelt; 2] = sums[col];
                row.push([s0 * pair[0], s1 * pair[1]]);
            }
            proof {
                assert forall|col: int, j: int| 0 <= col < m.width && 0 <= j < 2 implies (
                #[trigger] row@[col][j])@ == lifted_eval(
                    self.points[j]@,
                    points,
                    lanes[j],
                    log_d as nat,
                    degree(all[i as int], log_blowup as nat),
                    all[i as int].column(col),
                ) by {
                    assert(j == 0 || j == 1);
                    assert(row@[col][0]@ == s0@.times(sums@[col][0]@));
                    assert(row@[col][1]@ == s1@.times(sums@[col][1]@));
                    assert(matrix::lane(weights@[slot as int]@, j) == barycentric::chunk_sums(
                        barycentric::weights(points, lanes[j]),
                        d as nat / degrees@[slot as int] as nat,
                    ));
                    assert(sums@[col][j]@ == barycentric::dot(
                        matrix::lane(weights@[slot as int]@, j),
                        m.column(col),
                    ));
                }
            }
            rows.push(row);
        }
        let r: RowList = RowList::from_rows(rows);
        proof {
            assert forall|k: nat, i: int, col: int, j: int|
                coset_points@.len() / pow2(log_blowup as nat) == pow2(k) && 0 <= i < r@.len()
                    && 0 <= col < r@[i].len() && 0 <= j < 2 implies (#[trigger] r@[i][col][j])@
                == #[trigger] lifted_eval(
                self.points[j]@,
                coset::embedded(coset_points@).take(pow2(k) as int),
                matrix::lane(self.point_quotient@, j).take(pow2(k) as int),
                k,
                degree(flattened(matrices_groups@)[i], log_blowup as nat),
                flattened(matrices_groups@)[i].column(col),
            ) by {
                lemma_log_unique(k, log_d as nat);
                assert(r@[i] == rows@[i]@);
                assert(rows@[i]@[col][j]@ == r@[i][col][j]@);
                assert(j == 0 || j == 1);
            }
        }
        r
    }

    /// The barycentric weights for the first `d` points, in both lanes.
    fn top_weights(&self, coset_points: &[Felt], d: usize) -> (r: Vec<[QuadFelt; 2]>)
        requires
            d <= coset_points@.len(),
            d <= self.point_quotient@.len(),
        ensures
            r@.len() == d,
            forall|j: int|
                0 <= j < 2 ==> #[trigger] matrix::lane(r@, j) == barycentric::weights(
                    coset::embedded(coset_points@).take(d as int),
                    matrix::lane(self.point_quotient@, j).take(d as int),
                ),
    {
        let mut r: Vec<[QuadFelt; 2]> = Vec::new();
        for i in 0..d
            invariant
                d <= coset_points@.len(),
                d <= self.point_quotient@.len(),
                r@.len() == i,
                forall|k: int, j: int|
                    0 <= k < i && 0 <= j < 2 ==> (#[trigger] r@[k][j])@ == quad::base(
                        coset_points@[k]@,
                    ).times(self.point_quotient@[k][j]@),
        {
            let x: Felt = coset_points[i];
            let invs: [QuadFelt; 2] = self.point_quotient[i];
            proof {
                quad::lemma_base(x@, 0);
                quad::lemma_mul(quad::base(x@), invs[0]@);
                quad::lemma_mul(quad::base(x@), invs[1]@);
            }
            r.push([invs[0] * x, invs[1] * x]);
        }
        proof {
            assert forall|j: int| 0 <= j < 2 implies #[trigger] matrix::lane(r@, j)
                == barycentric::weights(
                coset::embedded(coset_points@).take(d as int),
                matrix::lane(self.point_quotient@, j).take(d as int),
            ) by {
                let right: Seq<Quad> = barycentric::weights(
                    coset::embedded(coset_points@).take(d as int),
                    matrix::lane(self.point_quotient@, j).take(d as int),
                );
                assert forall|i: int| 0 <= i < d implies #[trigger] matrix::lane(r@, j)[i]
                    == right[i] by {
                    assert(r@[i][j]@ == matrix::lane(r@, j)[i]);
                }
                assert(matrix::lane(r@, j) =~= right);
            }
        }
        r
    }
}

} // verus!
