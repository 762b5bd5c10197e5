//! An adaptive-indexing columnar store with run-length cracking.
//!
//! Instead of building a full index up front, the store incrementally
//! reorganizes a column in place around the equality queries it receives,
//! amortizing index construction across the query workload.  A cracked
//! column keeps a working copy of its values, a row-indirection array for
//! tuple reconstruction, run-length markers over spans of equal values,
//! and an ordered index of previously used partition boundaries.

use vstd::prelude::*;

pub mod column;
pub mod cracker_index;
pub mod engine;
pub mod laws;
pub mod load_person_csv;
pub mod overswap_rle_compression;
pub mod rows;
pub mod runs;
pub mod table;
pub mod underswap_rle_compression;

verus! {

/// Errors reported by table operations.  Precondition violations and
/// column-name lookup misses are explicit errors; a query that merely
/// matches no rows is not an error.
#[derive(Clone, Copy, Debug, PartialEq, Eq, Structural)]
pub enum TableError {
    /// A batch insert supplied arrays of differing lengths, or missed a column.
    LengthMismatch,
    /// A named column does not exist in the table.
    NoSuchColumn,
    /// A column with the given name already exists.
    DuplicateColumn,
    /// The cracked column was already designated.
    AlreadyCracked,
    /// Rows cannot be inserted once the cracked column is designated.
    InsertAfterCrack,
    /// Columns cannot be added after rows have been inserted.
    ColumnAfterInsert,
    /// A supplied row index is out of bounds.
    IndexOutOfBounds,
    /// A selection was issued before a cracked column was designated.
    NotCracked,
    /// A supplied reordering is not a permutation of the row indices.
    NotAPermutation,
}

/// One-based node identifiers shifted down to zero-based indices.
pub fn indicise(v: Vec<i64>) -> (r: Vec<i64>)
    requires
        forall|i: int| 0 <= i < v@.len() ==> v@[i] > i64::MIN,
    ensures
        r@.len() == v@.len(),
        forall|i: int| 0 <= i < v@.len() ==> r@[i] == v@[i] - 1,
{
    let mut r: Vec<i64> = Vec::new();
    let mut k: usize = 0;
    while k < v.len()
        invariant
            k <= v@.len(),
            forall|i: int| 0 <= i < v@.len() ==> v@[i] > i64::MIN,
            r@.len() == k as int,
            forall|i: int| 0 <= i < k ==> r@[i] == v@[i] - 1,
        decreases v@.len() - k,
    {
        r.push(v[k] - 1);
        k = k + 1;
    }
    r
}

} // verus!
