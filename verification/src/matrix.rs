//! Trusted surface over the `matrixlab` crate's CSR sparse matrix, which
//! carries the materialized adjacency matrix of the expanded relation.
//! `matrixlab` indexes rows and columns starting at 1; every contract
//! here is stated in those 1-based coordinates.
//!
//! The contracts speak only of the element list a matrix was created
//! from ([`sm_entries`]) and of its dimensions ([`sm_dims`]). Nothing
//! here reads the crate's internal row-pointer array back: in this
//! version its constructor fills the slots of an empty row with the
//! start of the previous row instead of its end, so after any gap the
//! array attributes elements to the wrong rows, and `get`, `get_rows`
//! and the element iterator all mis-read such a matrix. Callers that
//! need the CSR arrays compute them in verified code from the element
//! list instead (see [`crate::export`]).
use matrixlab::matrix::sparse::{Element, Matrix};
use vstd::prelude::*;

verus! {

/// The materialized adjacency matrix: a matrixlab CSR sparse matrix held
/// opaquely (Verus sees it only through [`sm_entries`] and [`sm_dims`]).
#[verifier::external_body]
pub struct SparseCsr {
    inner: Matrix<usize>,
}

/// The elements the matrix was created from, as `(row, column, value)`
/// triples in row-major order (1-based coordinates).
pub uninterp spec fn sm_entries(m: SparseCsr) -> Seq<(usize, usize, usize)>;

/// The `(rows, columns)` dimensions the matrix was created with.
pub uninterp spec fn sm_dims(m: SparseCsr) -> (usize, usize);

/// Strictly increasing in row-major (row, then column) order; in
/// particular no two entries share a cell.
pub open spec fn row_major_sorted(s: Seq<(usize, usize, usize)>) -> bool {
    forall|x: int, y: int|
        0 <= x < y < s.len() ==> ((#[trigger] s[x]).0 < (#[trigger] s[y]).0 || (s[x].0 == s[y].0
            && s[x].1 < s[y].1))
}

/// Relies on matrixlab's `Matrix::new`: building a CSR matrix from
/// distinct, in-bounds, 1-based elements succeeds — the bounds check
/// passes, no duplicate is found, and no row index can underflow the
/// 1-based row walk — and the matrix then holds exactly those elements,
/// sorted by row and then column, with the given dimensions. Sorting a
/// list that is already in row-major order (its cell keys distinct)
/// leaves it unchanged, so such a list is stored as given.
#[verifier::external_body]
pub(crate) fn sparse_from_triples(
    num_rows: usize,
    num_cols: usize,
    triples: &Vec<(usize, usize, usize)>,
) -> (r: SparseCsr)
    requires
        forall|x: int|
            0 <= x < triples@.len() ==> 1 <= (#[trigger] triples@[x]).0 && triples@[x].0 <= num_rows
                && 1 <= triples@[x].1 && triples@[x].1 <= num_cols,
        forall|x: int, y: int|
            0 <= x < y < triples@.len() ==> !((#[trigger] triples@[x]).0 == (
            #[trigger] triples@[y]).0 && triples@[x].1 == triples@[y].1),
    ensures
        sm_dims(r) == (num_rows, num_cols),
        sm_entries(r).to_multiset() == triples@.to_multiset(),
        row_major_sorted(sm_entries(r)),
        row_major_sorted(triples@) ==> sm_entries(r) == triples@,
{
    let points: Vec<Element<usize>> = triples.iter().map(|&(i, j, w)| Element::new(i, j, w)).collect();
    SparseCsr { inner: Matrix::new(num_rows, num_cols, points).unwrap() }
}

} // verus!
