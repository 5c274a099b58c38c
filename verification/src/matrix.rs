//! Matrices over the field, and lists of rows of different lengths.

use crate::barycentric;
use crate::felt::Felt;
use crate::quad;
use crate::quad::{Quad, QuadFelt};
use p3_field::extension::BinomialExtensionField;
use p3_field::{BasedVectorSpace, FieldArray, PrimeField64};
use p3_goldilocks::Goldilocks;
use p3_matrix::Matrix;
use vstd::prelude::*;

verus! {

/// A matrix whose rows are stored one after the other.
#[derive(Clone, Debug)]
pub struct RowMajorMatrix {
    pub values: Vec<Felt>,
    pub width: usize,
}

impl RowMajorMatrix {
    /// The values fill a whole number of rows.
    pub open spec fn wf(&self) -> bool {
        &&& self.width > 0
        &&& self.values@.len() % self.width as nat == 0
    }

    /// The number of rows.
    pub open spec fn rows(&self) -> nat {
        self.values@.len() / self.width as nat
    }

    /// The value in the given row and column.
    pub open spec fn cell(&self, row: int, col: int) -> int {
        self.values@[row * self.width + col]@
    }

    /// The values of a column, as elements of the extension.
    pub open spec fn column(&self, col: int) -> Seq<Quad> {
        Seq::new(self.rows(), |row: int| quad::base(self.cell(row, col)))
    }

    /// The matrix with the given values in rows of the given width.
    pub fn new(values: Vec<Felt>, width: usize) -> (r: RowMajorMatrix)
        requires
            width > 0,
            values@.len() % width as nat == 0,
        ensures
            r.values == values,
            r.width == width,
            r.wf(),
    {
        RowMajorMatrix { values, width }
    }

    /// The number of rows.
    pub fn height(&self) -> (r: usize)
        requires
            self.width > 0,
        ensures
            r == self.rows(),
    {
        self.values.len() / self.width
    }

    /// The number of columns.
    pub fn width(&self) -> (r: usize)
        ensures
            r == self.width,
    {
        self.width
    }
}

/// One of the two elements of each entry.
pub open spec fn lane(entries: Seq<[QuadFelt; 2]>, j: int) -> Seq<Quad> {
    Seq::new(entries.len(), |i: int| entries[i][j]@)
}

/// The element of the extension with the given coefficients.
pub open spec fn element(c: [u64; 2]) -> Quad {
    quad::quad(c[0] as int, c[1] as int)
}

/// One of the two elements of each entry, given by their coefficients.
pub open spec fn element_lane(entries: Seq<[[u64; 2]; 2]>, j: int) -> Seq<Quad> {
    Seq::new(entries.len(), |i: int| element(entries[i][j]))
}

/// A column of values that are stored row by row.
pub open spec fn value_column(values: Seq<u64>, width: nat, col: int) -> Seq<Quad> {
    Seq::new(values.len() / width, |row: int| quad::base(values[row * width + col] as int))
}

/// The sums of the values of each column, weighted with both lanes of the weights, from
/// `p3_matrix::Matrix::columnwise_dot_product_batched` on the Goldilocks field and its quadratic
/// extension. All elements are given by their coefficients.
///
/// It claims that entry `j` of the result for column `col` is the sum of the products of weight `j`
/// of each row with the value of the column in that row, over the rows that have a weight.
#[verifier::external_body]
fn goldilocks_columnwise_dot_product(
    values: Vec<u64>,
    width: usize,
    weights: Vec<[[u64; 2]; 2]>,
) -> (r: Vec<[[u64; 2]; 2]>)
    requires
        width > 0,
        values@.len() % width as nat == 0,
        weights@.len() <= values@.len() / width as nat,
    ensures
        r@.len() == width,
        forall|col: int, j: int|
            0 <= col < width && 0 <= j < 2 ==> element(#[trigger] r@[col][j]) == barycentric::dot(
                element_lane(weights@, j),
                value_column(values@, width as nat, col),
            ),
{
    let values = values.into_iter().map(Goldilocks::new).collect();
    let matrix = p3_matrix::dense::RowMajorMatrix::new(values, width);
    let ext = |c: [u64; 2]| BinomialExtensionField::<_, 2>::new(c.map(Goldilocks::new));
    let vs: Vec<_> = weights.into_iter().map(|w| FieldArray(w.map(ext))).collect();
    let back = |x: BinomialExtensionField<Goldilocks, 2>| {
        let c: &[Goldilocks] = x.as_basis_coefficients_slice();
        [c[0].as_canonical_u64(), c[1].as_canonical_u64()]
    };
    matrix.columnwise_dot_product_batched(&vs).into_iter().map(|r| r.0.map(back)).collect()
}

/// The coefficients of an element.
fn coefficients(x: QuadFelt) -> (r: [u64; 2])
    ensures
        element(r) == x@,
{
    let r: [u64; 2] = [x.c0.as_canonical_u64(), x.c1.as_canonical_u64()];
    proof {
        quad::lemma_quad(x@);
    }
    r
}

/// The element with the given coefficients.
fn from_coefficients(c: [u64; 2]) -> (r: QuadFelt)
    ensures
        r@ == element(c),
{
    QuadFelt::new(Felt::new(c[0]), Felt::new(c[1]))
}

/// The sums of the values of each column, weighted with both lanes of the weights, over the rows
/// that have a weight.
pub fn columnwise_dot_product_batched(
    matrix: &RowMajorMatrix,
    weights: &Vec<[QuadFelt; 2]>,
) -> (r: Vec<[QuadFelt; 2]>)
    requires
        matrix.wf(),
        weights@.len() <= matrix.rows(),
    ensures
        r@.len() == matrix.width,
        forall|col: int, j: int|
            0 <= col < matrix.width && 0 <= j < 2 ==> (#[trigger] r@[col][j])@ == barycentric::dot(
                lane(weights@, j),
                matrix.column(col),
            ),
{
    let mut values: Vec<u64> = Vec::new();
    for i in 0..matrix.values.len()
        invariant
            values@.len() == i,
            forall|k: int| 0 <= k < i ==> (#[trigger] values@[k]) == matrix.values@[k]@,
    {
        values.push(matrix.values[i].as_canonical_u64());
    }
    let mut coeffs: Vec<[[u64; 2]; 2]> = Vec::new();
    for i in 0..weights.len()
        invariant
            coeffs@.len() == i,
            forall|k: int, j: int|
                0 <= k < i && 0 <= j < 2 ==> element(#[trigger] coeffs@[k][j]) == weights@[k][j]@,
    {
        let w: [QuadFelt; 2] = weights[i];
        coeffs.push([coefficients(w[0]), coefficients(w[1])]);
    }
    let ghost values_seq: Seq<u64> = values@;
    let ghost coeffs_seq: Seq<[[u64; 2]; 2]> = coeffs@;
    let sums: Vec<[[u64; 2]; 2]> = goldilocks_columnwise_dot_product(values, matrix.width, coeffs);
    let mut r: Vec<[QuadFelt; 2]> = Vec::new();
    for col in 0..sums.len()
        invariant
            r@.len() == col,
            forall|k: int, j: int|
                0 <= k < col && 0 <= j < 2 ==> (#[trigger] r@[k][j])@ == element(sums@[k][j]),
    {
        let s: [[u64; 2]; 2] = sums[col];
        r.push([from_coefficients(s[0]), from_coefficients(s[1])]);
    }
    proof {
        assert forall|col: int, j: int| 0 <= col < matrix.width && 0 <= j < 2 implies (
        #[trigger] r@[col][j])@ == barycentric::dot(lane(weights@, j), matrix.column(col)) by {
            assert(element(sums@[col][j]) == r@[col][j]@);
            assert(element_lane(coeffs_seq, j) =~= lane(weights@, j)) by {
                assert forall|i: int| 0 <= i < coeffs_seq.len() implies #[trigger] element_lane(
                    coeffs_seq,
                    j,
                )[i] == lane(weights@, j)[i] by {
                    assert(element(coeffs_seq[i][j]) == weights@[i][j]@);
                }
            }
            let left: Seq<Quad> = value_column(values_seq, matrix.width as nat, col);
            let right: Seq<Quad> = matrix.column(col);
            assert forall|row: int| 0 <= row < left.len() implies #[trigger] left[row]
                == right[row] by {
                lemma_cell_bound(values_seq.len(), matrix.width as nat, row, col);
            }
            assert(left =~= right);
        }
    }
    r
}

/// A cell lies within the values.
proof fn lemma_cell_bound(len: nat, width: nat, row: int, col: int)
    requires
        0 <= row < len / width,
        0 <= col < width,
    ensures
        0 <= row * width + col < len,
{
    barycentric::lemma_chunk_bounds(len, width, row);
    assert(row * width == width * row) by (nonlinear_arith);
}

/// A list of rows of different lengths.
pub struct RowList {
    rows: Vec<Vec<[QuadFelt; 2]>>,
}

impl View for RowList {
    type V = Seq<Seq<[QuadFelt; 2]>>;

    closed spec fn view(&self) -> Seq<Seq<[QuadFelt; 2]>> {
        Seq::new(self.rows@.len(), |i: int| self.rows@[i]@)
    }
}

impl RowList {
    /// The list of the given rows.
    pub fn from_rows(rows: Vec<Vec<[QuadFelt; 2]>>) -> (r: RowList)
        ensures
            r@.len() == rows@.len(),
            forall|i: int| 0 <= i < rows@.len() ==> #[trigger] r@[i] == rows@[i]@,
    {
        RowList { rows }
    }

    /// The number of rows.
    pub fn num_rows(&self) -> (r: usize)
        ensures
            r == self@.len(),
    {
        self.rows.len()
    }

    /// The row with the given index.
    pub fn row(&self, i: usize) -> (r: &[[QuadFelt; 2]])
        requires
            i < self@.len(),
        ensures
            r@ == self@[i as int],
    {
        self.rows[i].as_slice()
    }

    /// All rows, one after the other.
    pub fn iter_rows(&self) -> (r: Vec<&[[QuadFelt; 2]]>)
        ensures
            r@.len() == self@.len(),
            forall|i: int| 0 <= i < r@.len() ==> (#[trigger] r@[i])@ == self@[i],
    {
        let mut r: Vec<&[[QuadFelt; 2]]> = Vec::new();
        for i in 0..self.rows.len()
            invariant
                r@.len() == i,
                forall|k: int| 0 <= k < i ==> (#[trigger] r@[k])@ == self@[k],
        {
            r.push(self.row(i));
        }
        r
    }
}

// LAWS
// ================================================================================================

/// The values of a matrix fill its rows one after the other: the value in a row and a column stands
/// as many places after the start of the row as there are columns before it.
pub proof fn law_cells(m: RowMajorMatrix, row: int, col: int)
    requires
        m.wf(),
        0 <= row < m.values@.len() / m.width as nat,
        0 <= col < m.width,
    ensures
        m.rows() * m.width == m.values@.len(),
        0 <= row * m.width + col < m.values@.len(),
        m.cell(row, col) == m.values@[row * m.width + col]@,
        m.column(col).len() == m.values@.len() / m.width as nat,
        m.column(col)[row] == quad::base(m.values@[row * m.width + col]@),
{
    lemma_cell_bound(m.values@.len(), m.width as nat, row, col);
    vstd::arithmetic::div_mod::lemma_fundamental_div_mod(
        m.values@.len() as int,
        m.width as int,
    );
    let (q, w): (int, int) = (m.rows() as int, m.width as int);
    assert(q * w == w * q) by (nonlinear_arith);
}

/// A matrix is valid where its values fill a number of rows that are not empty, and that number is
/// the number of its rows.
pub proof fn law_rows(m: RowMajorMatrix)
    ensures
        m.wf() <==> m.width > 0 && m.values@.len() % m.width as nat == 0,
        m.width > 0 ==> m.rows() == m.values@.len() / m.width as nat,
{
}

/// Lane `j` of a list of pairs holds entry `j` of each of them.
pub proof fn law_lane(entries: Seq<[QuadFelt; 2]>, coeffs: Seq<[[u64; 2]; 2]>, i: int, j: int)
    requires
        0 <= j < 2,
    ensures
        lane(entries, j).len() == entries.len(),
        0 <= i < entries.len() ==> lane(entries, j)[i] == entries[i][j]@,
        element_lane(coeffs, j).len() == coeffs.len(),
        0 <= i < coeffs.len() ==> element_lane(coeffs, j)[i] == (Quad {
            c0: coeffs[i][j][0] as int % 0xFFFF_FFFF_0000_0001,
            c1: coeffs[i][j][1] as int % 0xFFFF_FFFF_0000_0001,
        }),
{
}

/// An element of the extension has the given coefficients, and a column of values that are stored
/// row by row holds every value that is a whole number of rows after its first one.
pub proof fn law_plain_values(c: [u64; 2], values: Seq<u64>, width: nat, row: int, col: int)
    requires
        width > 0,
        0 <= row < values.len() / width,
        0 <= col < width,
    ensures
        element(c).c0 == c[0] as int % 0xFFFF_FFFF_0000_0001,
        element(c).c1 == c[1] as int % 0xFFFF_FFFF_0000_0001,
        value_column(values, width, col).len() == values.len() / width,
        value_column(values, width, col)[row] == quad::base(values[row * width + col] as int),
{
}

} // verus!
