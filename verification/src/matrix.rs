//! Dense matrices over the field, which `nalgebra` stores and multiplies.
use crate::field::{modulus, values, FieldElement};
use crate::sums::sum_to;
use ark_bls12_377::Fq;
use ark_ff::{BigInt, PrimeField};
use nalgebra::{DMatrix, DVector};
use vstd::prelude::*;

verus! {

/// The entry in row `i` and column `j` of the matrix with `nrows` rows whose
/// columns, one after another, are `data`.
pub open spec fn column_major_entry(data: Seq<FieldElement>, nrows: nat, i: int, j: int) -> nat
    recommends
        0 <= i < nrows,
        0 <= j,
        (j + 1) * nrows <= data.len(),
{
    data[j * nrows + i]@
}

/// A rectangular array of field elements, which `nalgebra` stores.
#[verifier::external_body]
pub struct Matrix {
    inner: DMatrix<Fq>,
}

/// The rows of a matrix, each the representatives of its entries.
pub uninterp spec fn matrix_rows(m: Matrix) -> Seq<Seq<nat>>;

/// The number of columns of a matrix.
pub uninterp spec fn matrix_width(m: Matrix) -> nat;

impl Matrix {
    /// The number of rows.
    pub open spec fn rows(&self) -> nat {
        matrix_rows(*self).len()
    }

    /// The number of columns.
    pub open spec fn cols(&self) -> nat {
        matrix_width(*self)
    }

    /// The entry in row `i` and column `j`.
    pub open spec fn entry(&self, i: int, j: int) -> nat {
        matrix_rows(*self)[i][j]
    }

    /// The matrix of the given shape whose columns, one after another, are `data`;
    /// `None` where `data` does not fill that shape.
    pub fn from_column_major(nrows: usize, ncols: usize, data: Vec<FieldElement>) -> (r: Option<
        Matrix,
    >)
        ensures
            r.is_some() <==> data@.len() == nrows * ncols,
            r.is_some() ==> r.unwrap().rows() == nrows && r.unwrap().cols() == ncols,
            r.is_some() ==> forall|i: int, j: int|
                0 <= i < nrows && 0 <= j < ncols ==> #[trigger] r.unwrap().entry(i, j)
                    == column_major_entry(data@, nrows as nat, i, j),
    {
        let len = data.len();
        match nrows.checked_mul(ncols) {
            Some(size) => {
                if size == len {
                    Some(dmatrix_from_columns(nrows, ncols, &data))
                } else {
                    None
                }
            },
            None => None,
        }
    }

    /// The number of rows.
    pub fn nrows(&self) -> (n: usize)
        ensures
            n == self.rows(),
    {
        dmatrix_nrows(self)
    }

    /// The number of columns.
    pub fn ncols(&self) -> (n: usize)
        ensures
            n == self.cols(),
    {
        dmatrix_ncols(self)
    }
}

/// `DMatrix::from_iterator`, which fills the matrix column by column and
/// panics where the iterator runs short: the matrix has the given shape, and
/// its entry `(i, j)` is item `j * nrows + i`.
#[verifier::external_body]
fn dmatrix_from_columns(nrows: usize, ncols: usize, data: &Vec<FieldElement>) -> (m: Matrix)
    requires
        data@.len() == nrows * ncols,
    ensures
        matrix_rows(m).len() == nrows,
        matrix_width(m) == ncols,
        forall|i: int, j: int|
            0 <= i < nrows && 0 <= j < ncols ==> #[trigger] matrix_rows(m)[i][j]
                == column_major_entry(data@, nrows as nat, i, j),
{
    let items = data.iter().map(|e| Fq::from_bigint(BigInt::new(e.limbs)).unwrap());
    Matrix { inner: DMatrix::from_iterator(nrows, ncols, items) }
}

/// `DMatrix::nrows`: the number of rows.
#[verifier::external_body]
fn dmatrix_nrows(m: &Matrix) -> (n: usize)
    ensures
        n == matrix_rows(*m).len(),
{
    m.inner.nrows()
}

/// `DMatrix::ncols`: the number of columns.
#[verifier::external_body]
fn dmatrix_ncols(m: &Matrix) -> (n: usize)
    ensures
        n == matrix_width(*m),
{
    m.inner.ncols()
}

/// Entry `i` of the product of `m` with the vector `x`.
pub open spec fn row_dot(m: Matrix, i: int, x: Seq<nat>) -> nat {
    (sum_to(|k: int| (m.entry(i, k) * x[k]) as int, m.cols()) % (modulus() as int)) as nat
}

/// The product of `m` with the vector `x`.
pub open spec fn product(m: Matrix, x: Seq<nat>) -> Seq<nat> {
    Seq::new(m.rows(), |i: int| row_dot(m, i, x))
}

/// `*` of a `DMatrix` and a `DVector` over `Fq`, which panics unless the
/// vector is as long as the matrix is wide: entry `i` of the result is the
/// sum over `k` of entry `(i, k)` times `x[k]`, in the field.
#[verifier::external_body]
pub(crate) fn mat_vec_product(m: &Matrix, x: &Vec<FieldElement>) -> (y: Vec<FieldElement>)
    requires
        x@.len() == m.cols(),
    ensures
        values(y@) == product(*m, values(x@)),
{
    let v = DVector::from_iterator(
        x.len(),
        x.iter().map(|e| Fq::from_bigint(BigInt::new(e.limbs)).unwrap()),
    );
    (&m.inner * v).iter().map(|e| FieldElement { limbs: e.into_bigint().0 }).collect()
}

} // verus!
