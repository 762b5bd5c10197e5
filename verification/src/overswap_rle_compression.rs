//! Overswap run-length cracking: the table variant whose unequal-length
//! run swaps move the whole scanned run at once, with an extra padding
//! swap, or an overlap-sized swap when the run overlaps its target range.

use vstd::prelude::*;
use crate::column::IntCol;
use crate::engine::RunMergeStrategy;
use crate::rows::gather;
use crate::table::TableCore;
use crate::table::batch_n;
use crate::table::batch_ok;
use crate::table::col_empty;
use crate::table::col_empty_but_v;
use crate::table::is_permutation;
use crate::table::count_eq;
use crate::table::first_match;
use crate::table::build_adjacency;
use crate::table::select_post;
use crate::TableError;

verus! {

/// A cracked table using the overswap run-merge strategy.
pub struct OverswapRLETable {
    pub core: TableCore,
}

impl OverswapRLETable {
    /// A fresh table: no columns, no rows, nothing designated.
    pub fn new() -> (r: OverswapRLETable)
        ensures
            r.core.wf(),
            r.core.count == 0,
            r.core.columns@.len() == 0,
            col_empty(r.core.crk_col),
    {
        OverswapRLETable { core: TableCore::new() }
    }

    /// Add empty columns under the given names.
    pub fn new_columns(&mut self, col_names: Vec<&str>) -> (r: Result<(), TableError>)
        requires
            old(self).core.wf(),
        ensures
            final(self).core.wf(),
            r is Err ==> *final(self) == *old(self),
            r is Ok ==> final(self).core.count == old(self).core.count && final(
                self).core.columns@.len() == old(self).core.columns@.len() + col_names@.len(),
            r is Ok ==> forall|k: int|
                0 <= k < col_names@.len() ==> final(self).core.columns@[old(
                    self).core.columns@.len() + k].0@ == col_names@[k]@,
            r is Err ==> old(self).core.count > 0 || (exists|a: int, b: int|
                0 <= a < b < col_names@.len() && col_names@[a]@ == col_names@[b]@) || (exists|
                a: int,
                j: int,
            |
                0 <= a < col_names@.len() && 0 <= j < old(self).core.columns@.len()
                    && col_names@[a]@ == old(self).core.columns@[j].0@),
    {
        self.core.new_columns(col_names)
    }

    /// Designate the named column as the cracked column.
    pub fn set_crk_col(&mut self, col_name: &str) -> (r: Result<(), TableError>)
        requires
            old(self).core.wf(),
        ensures
            final(self).core.wf(),
            r is Err ==> *final(self) == *old(self),
            match r {
                Ok(()) => ({
                    let pre = old(self).core;
                    let post = final(self).core;
                    &&& pre.has_col(col_name@)
                    &&& pre.crk_col.v@.len() == 0
                    &&& post.cracked()
                    &&& post.count == pre.count
                    &&& post.columns == pre.columns
                    &&& post.crk_col.v@ == pre.col_vals(col_name@)
                    &&& post.crk_col.crk@ == pre.col_vals(col_name@)
                    &&& post.crk_col.crk_idx.entries@.len() == 0
                    &&& (forall|i: int|
                        0 <= i < post.count ==> (post.crk_col.base_idx@[i] as int) == i
                            && post.crk_col.run_lengths@[i] == 1usize)
                }),
                Err(TableError::NoSuchColumn) => !old(self).core.has_col(col_name@),
                Err(TableError::AlreadyCracked) => old(self).core.has_col(col_name@) && old(
                    self).core.crk_col.v@.len() > 0,
                Err(_) => false,
            },
    {
        self.core.set_crk_col(col_name)
    }

    /// Append one batch of rows, one equal-length array per column.
    pub fn insert(&mut self, new_values: &Vec<(String, Vec<i64>)>) -> (r: Result<
        (),
        TableError,
    >)
        requires
            old(self).core.wf(),
        ensures
            final(self).core.wf(),
            r is Err ==> *final(self) == *old(self),
            r is Ok ==> forall|i: int|
                0 <= i < old(self).core.columns@.len() ==> {
                    let m = first_match(new_values@, (#[trigger] old(self).core.columns@[i]).0@);
                    &&& m >= 0
                    &&& final(self).core.columns@[i].0 == old(self).core.columns@[i].0
                    &&& final(self).core.columns@[i].1.v@ == old(self).core.columns@[i].1.v@
                        + new_values@[m].1@
                    &&& final(self).core.count as int == old(self).core.count as int
                        + new_values@[m].1@.len()
                },
            r is Ok ==> old(self).core.crk_col.v@.len() == 0 && final(self).core.crk_col
                == old(self).core.crk_col,
            r is Err ==> !col_empty(old(self).core.crk_col) || !batch_ok(
                old(self).core.columns@,
                new_values@,
            ) || old(self).core.count as int + batch_n(old(self).core.columns@, new_values@)
                > usize::MAX,
    {
        self.core.insert(new_values)
    }

    /// Borrow the named column.
    pub fn get_col(&self, col: &str) -> (r: Result<&IntCol, TableError>)
        requires
            self.core.wf(),
        ensures
            match r {
                Ok(c) => self.core.has_col(col@) && *c == self.core.columns@[self.core.col_of(
                    col@,
                )].1,
                Err(TableError::NoSuchColumn) => !self.core.has_col(col@),
                Err(_) => false,
            },
    {
        self.core.get_col(col)
    }

    /// The values of the named column at the given row indices.
    pub fn get_values(&self, indices: &Vec<usize>, col: &str) -> (r: Result<Vec<i64>, TableError>)
        requires
            self.core.wf(),
        ensures
            match r {
                Ok(vs) => self.core.has_col(col@) && (forall|k: int|
                    0 <= k < indices@.len() ==> (indices@[k] as int) < self.core.count as int)
                    && vs@ == gather(self.core.col_vals(col@), indices@),
                Err(TableError::NoSuchColumn) => !self.core.has_col(col@),
                Err(TableError::IndexOutOfBounds) => self.core.has_col(col@) && exists|k: int|
                    0 <= k < indices@.len() && (indices@[k] as int) >= self.core.count as int,
                Err(_) => false,
            },
    {
        self.core.get_values(indices, col)
    }

    /// A new table holding every column's values at the given row indices.
    pub fn get_indices(&self, indices: &Vec<usize>) -> (r: Result<OverswapRLETable, TableError>)
        requires
            self.core.wf(),
        ensures
            r is Err ==> r == Err::<Self, TableError>(TableError::IndexOutOfBounds)
                && exists|k: int|
                0 <= k < indices@.len() && (indices@[k] as int) >= self.core.count as int,
            r is Ok ==> {
                let t = r->Ok_0;
                &&& (forall|k: int|
                    0 <= k < indices@.len() ==> (indices@[k] as int) < self.core.count as int)
                &&& t.core.wf()
                &&& t.core.count as int == indices@.len()
                &&& col_empty_but_v(t.core.crk_col)
                &&& (self.core.crk_col.v@.len() > 0 ==> t.core.crk_col.v@ == gather(
                    self.core.crk_col.v@,
                    indices@,
                ))
                &&& (self.core.crk_col.v@.len() == 0 ==> t.core.crk_col.v@.len() == 0)
                &&& t.core.columns@.len() == self.core.columns@.len()
                &&& forall|i: int|
                    0 <= i < self.core.columns@.len() ==> (#[trigger] t.core.columns@[i]).0
                        == self.core.columns@[i].0 && t.core.columns@[i].1.v@ == gather(
                        self.core.columns@[i].1.v@,
                        indices@,
                    )
            },
    {
        match self.core.get_indices(indices) {
            Ok(t) => Ok(OverswapRLETable { core: t }),
            Err(e) => Err(e),
        }
    }

    /// Rebuild every column under a permutation of the rows and clear the
    /// cracked state.
    pub fn rearrange(&mut self, indices: &Vec<usize>) -> (r: Result<(), TableError>)
        requires
            old(self).core.wf(),
        ensures
            final(self).core.wf(),
            r is Err ==> *final(self) == *old(self),
            r is Ok ==> final(self).core.count == old(self).core.count && final(
                self).core.uncracked() && forall|i: int|
                0 <= i < old(self).core.columns@.len() ==> (#[trigger] final(self).core.columns@[
                    i]).0 == old(self).core.columns@[i].0 && final(self).core.columns@[i].1.v@
                    == gather(old(self).core.columns@[i].1.v@, indices@),
            r is Err ==> !is_permutation(indices@, old(self).core.count as int),
            is_permutation(indices@, old(self).core.count as int) ==> r is Ok,
    {
        self.core.rearrange(indices)
    }

    /// Equality selection with overswap run-length cracking: return the
    /// named sibling column's values of the rows whose cracked value
    /// equals `x`, as one multiset, reorganizing the working array.  An
    /// absent pivot returns an empty result, though the scan still
    /// partitions its seeded interval and records the pivot's boundaries;
    /// the logical rows never change.
    pub fn cracker_select_specific(&mut self, x: i64, col: &str) -> (r: Result<
        Vec<i64>,
        TableError,
    >)
        requires
            old(self).core.wf(),
            x < i64::MAX,
        ensures
            select_post(old(self).core, final(self).core, x, col@, r),
    {
        self.core.cracker_select_specific(x, col, RunMergeStrategy::Overswap)
    }

    /// Count, by a full scan, the values of a named column equal to `eq`.
    pub fn count_col_eq(&self, col: &str, eq: i64) -> (r: Result<i64, TableError>)
        requires
            self.core.wf(),
            self.core.count <= i64::MAX as usize,
        ensures
            match r {
                Ok(c) => self.core.has_col(col@) && c as int == count_eq(
                    self.core.col_vals(col@),
                    eq,
                ),
                Err(TableError::NoSuchColumn) => !self.core.has_col(col@),
                Err(_) => false,
            },
    {
        self.core.count_col_eq(col, eq)
    }
}

/// An adjacency list built from two equal-length arrays of adjacent
/// nodes: a two-column table, cracked on the named column.
pub fn from_adjacency_vectors(src_node: Vec<i64>, dst_node: Vec<i64>, crk: &str) -> (r: Result<
    OverswapRLETable,
    TableError,
>)
    ensures
        r is Ok ==> {
            let t = r->Ok_0;
            &&& src_node@.len() == dst_node@.len()
            &&& t.core.wf()
            &&& t.core.cracked()
            &&& t.core.count as int == src_node@.len()
            &&& t.core.has_col("src"@)
            &&& t.core.has_col("dst"@)
            &&& t.core.col_vals("src"@) == src_node@
            &&& t.core.col_vals("dst"@) == dst_node@
            &&& t.core.crk_col.v@ == t.core.col_vals(crk@)
            &&& t.core.crk_col.crk@ == t.core.col_vals(crk@)
            &&& t.core.crk_col.crk_idx.entries@.len() == 0
            &&& (forall|i: int|
                0 <= i < t.core.count ==> (t.core.crk_col.base_idx@[i] as int) == i
                    && t.core.crk_col.run_lengths@[i] == 1usize)
        },
        src_node@.len() == dst_node@.len() && (crk@ == "src"@ || crk@ == "dst"@) ==> r is Ok,
{
    let t = build_adjacency(src_node, dst_node, crk)?;
    Ok(OverswapRLETable { core: t })
}

} // verus!
