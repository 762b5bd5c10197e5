//! The table: one cracked column plus any number of plain sibling columns
//! sharing row alignment.  Rows are appended in equal-length batches, one
//! column is designated as the cracked column, and equality selections
//! over the cracked column return sibling values of the matching rows
//! through the base-index indirection, leaving the siblings untouched.

use vstd::prelude::*;
use vstd::multiset::Multiset;
use crate::column::IntCol;
use crate::cracker_index::CrackerIndex;
use crate::engine::RunMergeStrategy;
use crate::engine::col_ok;
use crate::engine::crack_select;
use crate::runs::is_run;
use crate::rows::eq_vals;
use crate::rows::gather;
use crate::rows::lemma_gather_eq_vals;
use crate::rows::lemma_gather_index;
use crate::rows::lemma_rows_surjective;
use crate::runs::lemma_runs_singletons;
use crate::TableError;

verus! {

/// How many entries of `vals` equal `y`.
pub open spec fn count_eq(vals: Seq<i64>, y: i64) -> int
    decreases vals.len(),
{
    if vals.len() == 0 {
        0
    } else {
        count_eq(vals.drop_last(), y) + if vals.last() == y {
            1int
        } else {
            0int
        }
    }
}

/// First batch entry carrying the given column name, or -1.
pub open spec fn first_match(batch: Seq<(String, Vec<i64>)>, name: Seq<char>) -> int
    decreases batch.len(),
{
    if batch.len() == 0 {
        -1
    } else if batch[0].0@ == name {
        0
    } else {
        let r = first_match(batch.drop_first(), name);
        if r < 0 {
            -1
        } else {
            r + 1
        }
    }
}

/// The batch supplies an array for every column, all of one length.
pub open spec fn batch_ok(cols: Seq<(String, IntCol)>, batch: Seq<(String, Vec<i64>)>) -> bool {
    forall|i: int|
        0 <= i < cols.len() ==> {
            let m = first_match(batch, (#[trigger] cols[i]).0@);
            &&& m >= 0
            &&& batch[m].1@.len() == batch[first_match(batch, cols[0].0@)].1@.len()
        }
}

/// The common length of the batch arrays (zero without columns).
pub open spec fn batch_n(cols: Seq<(String, IntCol)>, batch: Seq<(String, Vec<i64>)>) -> int {
    if cols.len() == 0 {
        0
    } else {
        batch[first_match(batch, cols[0].0@)].1@.len() as int
    }
}

/// The indices name every row below `n` exactly once.
pub open spec fn is_permutation(indices: Seq<usize>, n: int) -> bool {
    &&& indices.len() == n
    &&& forall|i: int| 0 <= i < indices.len() ==> (indices[i] as int) < n
    &&& forall|a: int, b: int| 0 <= a < b < indices.len() ==> indices[a] != indices[b]
}

/// A column that carries no cracked state at all.
pub open spec fn col_empty(c: IntCol) -> bool {
    &&& c.v@.len() == 0
    &&& c.crk@.len() == 0
    &&& c.base_idx@.len() == 0
    &&& c.run_lengths@.len() == 0
    &&& c.crk_idx.entries@.len() == 0
}

/// A name that appears at a position is the name's unique column.
proof fn lemma_col_unique(t: TableCore, name: Seq<char>, i: int)
    requires
        forall|a: int, b: int|
            0 <= a < b < t.columns@.len() ==> t.columns@[a].0@ != t.columns@[b].0@,
        0 <= i < t.columns@.len(),
        t.columns@[i].0@ == name,
    ensures
        t.has_col(name),
        t.col_of(name) == i,
{
    assert(t.has_col(name));
    let j = t.col_of(name);
    assert(0 <= j < t.columns@.len() && t.columns@[j].0@ == name);
    if j < i {
        assert(t.columns@[j].0@ != t.columns@[i].0@);
    }
    if i < j {
        assert(t.columns@[i].0@ != t.columns@[j].0@);
    }
}

/// A wholly empty column value.
fn empty_col() -> (c: IntCol)
    ensures
        col_empty(c),
{
    IntCol {
        v: Vec::new(),
        crk: Vec::new(),
        crk_idx: CrackerIndex::new(),
        base_idx: Vec::new(),
        run_lengths: Vec::new(),
    }
}

/// Shared core of the cracked tables: the row count, the cracked column,
/// and the named sibling columns.
pub struct TableCore {
    pub count: usize,
    pub crk_col: IntCol,
    pub columns: Vec<(String, IntCol)>,
}

impl TableCore {
    /// Every sibling column holds one value per row under a name used
    /// once, and the cracked column is either not yet designated or in a
    /// well-formed cracked state over all rows.
    pub open spec fn wf(self) -> bool {
        &&& forall|i: int|
            0 <= i < self.columns@.len() ==> (#[trigger] self.columns@[i]).1.v@.len()
                == self.count as int
        &&& forall|i: int, j: int|
            0 <= i < j < self.columns@.len() ==> self.columns@[i].0@ != self.columns@[j].0@
        &&& (self.uncracked() || self.cracked())
    }

    /// The cracked column has not been designated (or was cleared by a
    /// full reorder); at most the plain values may be present.
    pub open spec fn uncracked(self) -> bool {
        &&& self.crk_col.crk@.len() == 0
        &&& self.crk_col.base_idx@.len() == 0
        &&& self.crk_col.run_lengths@.len() == 0
        &&& self.crk_col.crk_idx.entries@.len() == 0
        &&& (self.crk_col.v@.len() == 0 || self.crk_col.v@.len() == self.count as int)
    }

    /// The cracked column was designated and its working state is valid.
    pub open spec fn cracked(self) -> bool {
        &&& self.crk_col.v@.len() == self.count as int
        &&& self.crk_col.crk@.len() == self.count as int
        &&& col_ok(self.crk_col)
    }

    /// Some column carries this name.
    pub open spec fn has_col(self, name: Seq<char>) -> bool {
        exists|i: int| 0 <= i < self.columns@.len() && self.columns@[i].0@ == name
    }

    /// The index of the column carrying this name.
    pub open spec fn col_of(self, name: Seq<char>) -> int {
        choose|i: int| 0 <= i < self.columns@.len() && self.columns@[i].0@ == name
    }

    /// The plain values of the column carrying this name.
    pub open spec fn col_vals(self, name: Seq<char>) -> Seq<i64> {
        self.columns@[self.col_of(name)].1.v@
    }

    /// A fresh table: no columns, no rows, nothing designated.
    pub fn new() -> (r: TableCore)
        ensures
            r.wf(),
            r.count == 0,
            r.columns@.len() == 0,
            col_empty(r.crk_col),
    {
        TableCore { count: 0, crk_col: empty_col(), columns: Vec::new() }
    }

    /// Position of the column with the given name, if any.
    fn find_col(&self, name: &str) -> (r: Option<usize>)
        ensures
            match r {
                Some(i) => i < self.columns@.len() && self.columns@[i as int].0@ == name@,
                None => forall|j: int|
                    0 <= j < self.columns@.len() ==> self.columns@[j].0@ != name@,
            },
    {
        let key: String = name.to_owned();
        let mut i: usize = 0;
        while i < self.columns.len()
            invariant
                i <= self.columns@.len(),
                key@ == name@,
                forall|j: int| 0 <= j < i ==> self.columns@[j].0@ != name@,
            decreases self.columns@.len() - i,
        {
            if self.columns[i].0 == key {
                return Some(i);
            }
            i = i + 1;
        }
        None
    }

    /// Add empty columns under the given names.  Fails, leaving the table
    /// unchanged, if a name is already taken or repeated, or if rows have
    /// already been inserted.
    pub fn new_columns(&mut self, col_names: Vec<&str>) -> (r: Result<(), TableError>)
        requires
            old(self).wf(),
        ensures
            final(self).wf(),
            r is Err ==> *final(self) == *old(self),
            r is Ok ==> final(self).count == old(self).count && final(self).crk_col == old(
                self).crk_col && final(self).columns@.len() == old(self).columns@.len()
                + col_names@.len(),
            r is Ok ==> forall|k: int|
                0 <= k < old(self).columns@.len() ==> final(self).columns@[k] == old(
                    self).columns@[k],
            r is Ok ==> forall|k: int|
                0 <= k < col_names@.len() ==> final(self).columns@[old(self).columns@.len() + k].0@
                    == col_names@[k]@ && final(self).columns@[old(self).columns@.len()
                    + k].1.v@.len() == 0,
            r is Err ==> old(self).count > 0 || (exists|a: int, b: int|
                0 <= a < b < col_names@.len() && col_names@[a]@ == col_names@[b]@) || (exists|
                a: int,
                j: int,
            |
                0 <= a < col_names@.len() && 0 <= j < old(self).columns@.len() && col_names@[a]@
                    == old(self).columns@[j].0@),
    {
        if self.count > 0 {
            return Err(TableError::ColumnAfterInsert);
        }
        // validate every new name against the existing ones and against
        // the earlier new names, before changing anything
        let mut k: usize = 0;
        while k < col_names.len()
            invariant
                *self == *old(self),
                self.wf(),
                self.count == 0,
                k <= col_names@.len(),
                forall|a: int, j: int|
                    0 <= a < k && 0 <= j < self.columns@.len() ==> (#[trigger] self.columns@[
                        j]).0@ != (#[trigger] col_names@[a])@,
                forall|a: int, b: int| 0 <= a < b < k ==> col_names@[a]@ != col_names@[b]@,
            decreases col_names@.len() - k,
        {
            match self.find_col(col_names[k]) {
                Some(j) => {
                    proof {
                        assert(0 <= k < col_names@.len() && 0 <= j < self.columns@.len()
                            && col_names@[k as int]@ == self.columns@[j as int].0@);
                    }
                    return Err(TableError::DuplicateColumn);
                },
                None => {},
            }
            let mut b: usize = 0;
            while b < k
                invariant
                    *self == *old(self),
                    self.wf(),
                    b <= k < col_names@.len(),
                    forall|a: int| 0 <= a < b ==> col_names@[a]@ != col_names@[k as int]@,
                decreases k - b,
            {
                let sa: String = col_names[b].to_owned();
                let sb: String = col_names[k].to_owned();
                if sa == sb {
                    proof {
                        assert(0 <= b < k && col_names@[b as int]@ == col_names@[k as int]@);
                    }
                    return Err(TableError::DuplicateColumn);
                }
                b = b + 1;
            }
            k = k + 1;
        }
        let ghost pre = *self;
        let mut k2: usize = 0;
        while k2 < col_names.len()
            invariant
                k2 <= col_names@.len(),
                self.count == pre.count,
                self.crk_col == pre.crk_col,
                self.columns@.len() == pre.columns@.len() + k2 as int,
                forall|j: int| 0 <= j < pre.columns@.len() ==> self.columns@[j] == pre.columns@[j],
                forall|a: int|
                    0 <= a < k2 ==> self.columns@[pre.columns@.len() + a].0@ == col_names@[a]@
                        && col_empty(self.columns@[pre.columns@.len() + a].1),
                forall|a: int, j: int|
                    0 <= a < col_names@.len() && 0 <= j < pre.columns@.len() ==> (
                    #[trigger] pre.columns@[j]).0@ != (#[trigger] col_names@[a])@,
                forall|a: int, b: int| 0 <= a < b < col_names@.len() ==> col_names@[a]@
                    != col_names@[b]@,
                forall|j: int|
                    0 <= j < self.columns@.len() ==> (#[trigger] self.columns@[j]).1.v@.len()
                        == 0,
                forall|a: int, b: int|
                    0 <= a < b < self.columns@.len() ==> self.columns@[a].0@ != self.columns@[
                        b].0@,
                pre.wf(),
                pre.count == 0,
            decreases col_names@.len() - k2,
        {
            let name: String = col_names[k2].to_owned();
            let fresh: IntCol = empty_col();
            let ghost before = self.columns@;
            self.columns.push((name, fresh));
            proof {
                let n0 = pre.columns@.len() as int;
                assert forall|a: int, b: int|
                    0 <= a < b < self.columns@.len() implies self.columns@[a].0@ != self.columns@[
                    b].0@ by {
                    if b < before.len() {
                        assert(self.columns@[a] == before[a] && self.columns@[b] == before[b]);
                    } else {
                        assert(self.columns@[b].0@ == col_names@[k2 as int]@);
                        if a < n0 {
                            assert(self.columns@[a] == pre.columns@[a]);
                            assert(pre.columns@[a].0@ != col_names@[k2 as int]@);
                        } else {
                            let c = a - n0;
                            assert(self.columns@[a] == before[a]);
                            assert(before[pre.columns@.len() + c].0@ == col_names@[c]@);
                            assert(col_names@[c]@ != col_names@[k2 as int]@);
                        }
                    }
                }
            }
            k2 = k2 + 1;
        }
        Ok(())
    }

    /// Designate the named column as the cracked column: snapshot its
    /// values into the working copy, give every slot its own row index and
    /// a run of one, and start from an empty boundary index.  Fails if the
    /// name is unknown or a cracked column is already in place.
    pub fn set_crk_col(&mut self, col_name: &str) -> (r: Result<(), TableError>)
        requires
            old(self).wf(),
        ensures
            final(self).wf(),
            r is Err ==> *final(self) == *old(self),
            match r {
                Ok(()) => old(self).has_col(col_name@) && old(self).crk_col.v@.len() == 0
                    && final(self).cracked() && final(self).count == old(self).count && final(
                    self).columns == old(self).columns && final(self).crk_col.v@ == old(
                    self).col_vals(col_name@) && final(self).crk_col.crk@ == old(self).col_vals(
                    col_name@,
                ) && final(self).crk_col.crk_idx.entries@.len() == 0 && (forall|i: int|
                    0 <= i < final(self).count ==> (final(self).crk_col.base_idx@[i] as int) == i
                        && final(self).crk_col.run_lengths@[i] == 1usize),
                Err(TableError::NoSuchColumn) => !old(self).has_col(col_name@),
                Err(TableError::AlreadyCracked) => old(self).has_col(col_name@) && old(
                    self).crk_col.v@.len() > 0,
                Err(_) => false,
            },
    {
        let ci = match self.find_col(col_name) {
            Some(i) => i,
            None => {
                return Err(TableError::NoSuchColumn);
            },
        };
        if self.crk_col.v.len() > 0 {
            return Err(TableError::AlreadyCracked);
        }
        proof {
            lemma_col_unique(*self, col_name@, ci as int);
        }
        let src: &IntCol = &self.columns[ci].1;
        let m = src.v.len();
        self.crk_col.v = src.v.clone();
        self.crk_col.crk = src.v.clone();
        self.crk_col.crk_idx = CrackerIndex::new();
        let mut base: Vec<usize> = Vec::new();
        let mut rl: Vec<usize> = Vec::new();
        let mut i: usize = 0;
        while i < m
            invariant
                i <= m,
                base@.len() == i as int,
                rl@.len() == i as int,
                forall|j: int| 0 <= j < i ==> base@[j] == j,
                forall|j: int| 0 <= j < i ==> rl@[j] == 1usize,
            decreases m - i,
        {
            base.push(i);
            rl.push(1);
            i = i + 1;
        }
        self.crk_col.base_idx = base;
        self.crk_col.run_lengths = rl;
        proof {
            lemma_runs_singletons(self.crk_col.crk@, self.crk_col.run_lengths@, 0,
                self.crk_col.crk@.len() as int);
            assert(col_ok(self.crk_col));
        }
        Ok(())
    }

    /// Append one batch of rows: the batch supplies one array per column,
    /// all of equal length, and the row count grows by that length.  Fails
    /// without changing the table if the cracked column is already
    /// designated, if a column is missed, or if the lengths differ.
    pub fn insert(&mut self, new_values: &Vec<(String, Vec<i64>)>) -> (r: Result<
        (),
        TableError,
    >)
        requires
            old(self).wf(),
        ensures
            final(self).wf(),
            r is Err ==> *final(self) == *old(self),
            r is Ok ==> old(self).crk_col.v@.len() == 0 && final(self).crk_col == old(
                self).crk_col && final(self).columns@.len() == old(self).columns@.len(),
            r is Ok ==> forall|i: int|
                0 <= i < old(self).columns@.len() ==> {
                    let m = first_match(new_values@, (#[trigger] old(self).columns@[i]).0@);
                    &&& m >= 0
                    &&& final(self).columns@[i].0 == old(self).columns@[i].0
                    &&& final(self).columns@[i].1.v@ == old(self).columns@[i].1.v@ + new_values@[
                        m].1@
                    &&& final(self).count as int == old(self).count as int + new_values@[m].1@.len()
                },
            r is Ok && old(self).columns@.len() == 0 ==> final(self).count == old(self).count,
            r is Err ==> !col_empty(old(self).crk_col) || !batch_ok(
                old(self).columns@,
                new_values@,
            ) || old(self).count as int + batch_n(old(self).columns@, new_values@) > usize::MAX,
    {
        if self.crk_col.v.len() > 0 || self.crk_col.crk.len() > 0 || self.crk_col.base_idx.len()
            > 0 || self.crk_col.run_lengths.len() > 0 || self.crk_col.crk_idx.entries.len() > 0 {
            return Err(TableError::InsertAfterCrack);
        }
        // find each column's batch entry and check the lengths agree
        let mut n_new: usize = 0;
        let mut i: usize = 0;
        let ghost cols = self.columns@;
        while i < self.columns.len()
            invariant
                *self == *old(self),
                self.wf(),
                old(self).crk_col.v@.len() == 0,
                i <= cols.len(),
                cols == self.columns@,
                forall|j: int|
                    0 <= j < i ==> {
                        let m = first_match(new_values@, (#[trigger] cols[j]).0@);
                        m >= 0 && new_values@[m].1@.len() == n_new as int
                    },
                i > 0 ==> n_new as int <= usize::MAX,
            decreases cols.len() - i,
        {
            let m = match find_batch(new_values, &self.columns[i].0) {
                Some(m) => m,
                None => {
                    proof {
                        assert(first_match(new_values@, cols[i as int].0@) < 0);
                        assert(!batch_ok(cols, new_values@));
                    }
                    return Err(TableError::LengthMismatch);
                },
            };
            let len_m = new_values[m].1.len();
            if i == 0 {
                n_new = len_m;
            } else if len_m != n_new {
                proof {
                    let m0 = first_match(new_values@, cols[0].0@);
                    assert(new_values@[m0].1@.len() == n_new as int);
                    assert(!batch_ok(cols, new_values@));
                }
                return Err(TableError::LengthMismatch);
            }
            i = i + 1;
        }
        if self.columns.len() == 0 {
            return Ok(());
        }
        if n_new > usize::MAX - self.count {
            proof {
                let m0 = first_match(new_values@, self.columns@[0].0@);
                assert(new_values@[m0].1@.len() == n_new as int);
            }
            return Err(TableError::LengthMismatch);
        }
        let ghost pre = *self;
        let mut k: usize = 0;
        while k < self.columns.len()
            invariant
                k <= self.columns@.len(),
                self.columns@.len() == pre.columns@.len(),
                self.count == pre.count,
                self.crk_col == pre.crk_col,
                pre.wf(),
                pre.crk_col.v@.len() == 0,
                pre.count as int + n_new as int <= usize::MAX,
                forall|j: int|
                    0 <= j < pre.columns@.len() ==> {
                        let m = first_match(new_values@, (#[trigger] pre.columns@[j]).0@);
                        m >= 0 && new_values@[m].1@.len() == n_new as int
                    },
                forall|j: int|
                    0 <= j < pre.columns@.len() ==> (#[trigger] self.columns@[j]).0 == pre.columns@[
                        j].0 && self.columns@[j].1.crk@ == pre.columns@[j].1.crk@
                        && self.columns@[j].1.base_idx@ == pre.columns@[j].1.base_idx@
                        && self.columns@[j].1.run_lengths@ == pre.columns@[j].1.run_lengths@
                        && self.columns@[j].1.crk_idx == pre.columns@[j].1.crk_idx,
                forall|j: int|
                    0 <= j < k ==> {
                        let m = first_match(new_values@, (#[trigger] pre.columns@[j]).0@);
                        self.columns@[j].1.v@ == pre.columns@[j].1.v@ + new_values@[m].1@
                    },
                forall|j: int|
                    k <= j < pre.columns@.len() ==> (#[trigger] self.columns@[j]).1.v@
                        == pre.columns@[j].1.v@,
            decreases self.columns@.len() - k,
        {
            let m = match find_batch(new_values, &self.columns[k].0) {
                Some(m) => m,
                None => {
                    proof {
                        assert(false);
                    }
                    return Err(TableError::LengthMismatch);
                },
            };
            let mut add: Vec<i64> = new_values[m].1.clone();
            self.columns[k].1.v.append(&mut add);
            k = k + 1;
        }
        self.count = self.count + n_new;
        proof {
            assert forall|i: int| 0 <= i < self.columns@.len() implies (#[trigger] self.columns@[
                i]).1.v@.len() == self.count as int by {
                let m = first_match(new_values@, pre.columns@[i].0@);
                assert(self.columns@[i].1.v@ == pre.columns@[i].1.v@ + new_values@[m].1@);
            }
            assert forall|i: int, j: int|
                0 <= i < j < self.columns@.len() implies self.columns@[i].0@ != self.columns@[
                j].0@ by {
                assert(self.columns@[i].0 == pre.columns@[i].0 && self.columns@[j].0
                    == pre.columns@[j].0);
                assert(pre.columns@[i].0@ != pre.columns@[j].0@);
            }
        }
        Ok(())
    }

    /// Borrow the named column.  A missing name is an explicit error,
    /// never a default.
    pub fn get_col(&self, col: &str) -> (r: Result<&IntCol, TableError>)
        requires
            self.wf(),
        ensures
            match r {
                Ok(c) => self.has_col(col@) && *c == self.columns@[self.col_of(col@)].1,
                Err(TableError::NoSuchColumn) => !self.has_col(col@),
                Err(_) => false,
            },
    {
        match self.find_col(col) {
            Some(i) => {
                proof {
                    lemma_col_unique(*self, col@, i as int);
                }
                Ok(&self.columns[i].1)
            },
            None => Err(TableError::NoSuchColumn),
        }
    }

    /// The values of the named column at the given row indices, in order.
    pub fn get_values(&self, indices: &Vec<usize>, col: &str) -> (r: Result<Vec<i64>, TableError>)
        requires
            self.wf(),
        ensures
            match r {
                Ok(vs) => self.has_col(col@) && (forall|k: int|
                    0 <= k < indices@.len() ==> (indices@[k] as int) < self.count as int) && vs@
                    == gather(self.col_vals(col@), indices@),
                Err(TableError::NoSuchColumn) => !self.has_col(col@),
                Err(TableError::IndexOutOfBounds) => self.has_col(col@) && exists|k: int|
                    0 <= k < indices@.len() && (indices@[k] as int) >= self.count as int,
                Err(_) => false,
            },
    {
        let ci = match self.find_col(col) {
            Some(i) => i,
            None => {
                return Err(TableError::NoSuchColumn);
            },
        };
        proof {
            lemma_col_unique(*self, col@, ci as int);
        }
        let mut buf: Vec<i64> = Vec::new();
        let mut k: usize = 0;
        while k < indices.len()
            invariant
                k <= indices@.len(),
                self.wf(),
                self.has_col(col@),
                self.col_of(col@) == ci as int,
                (ci as int) < self.columns@.len(),
                self.columns@[ci as int].1.v@.len() == self.count as int,
                forall|j: int| 0 <= j < k ==> (indices@[j] as int) < self.count as int,
                buf@.len() == k as int,
                forall|j: int|
                    0 <= j < k ==> buf@[j] == self.columns@[ci as int].1.v@[indices@[j] as int],
            decreases indices@.len() - k,
        {
            let idx = indices[k];
            if idx >= self.count {
                return Err(TableError::IndexOutOfBounds);
            }
            buf.push(self.columns[ci].1.v[idx]);
            k = k + 1;
        }
        proof {
            lemma_gather_index(self.col_vals(col@), indices@);
            assert(buf@ =~= gather(self.col_vals(col@), indices@));
        }
        Ok(buf)
    }

    /// A new table holding, for every column, the values at the given row
    /// indices; the new table has no designated cracked column.
    pub fn get_indices(&self, indices: &Vec<usize>) -> (r: Result<TableCore, TableError>)
        requires
            self.wf(),
        ensures
            match r {
                Ok(t) => {
                    &&& (forall|k: int|
                        0 <= k < indices@.len() ==> (indices@[k] as int) < self.count as int)
                    &&& t.wf()
                    &&& t.count as int == indices@.len()
                    &&& col_empty_but_v(t.crk_col)
                    &&& (self.crk_col.v@.len() > 0 ==> t.crk_col.v@ == gather(
                        self.crk_col.v@,
                        indices@,
                    ))
                    &&& (self.crk_col.v@.len() == 0 ==> t.crk_col.v@.len() == 0)
                    &&& t.columns@.len() == self.columns@.len()
                    &&& forall|i: int|
                        0 <= i < self.columns@.len() ==> (#[trigger] t.columns@[i]).0 == self
                            .columns@[i].0 && t.columns@[i].1.v@ == gather(
                            self.columns@[i].1.v@,
                            indices@,
                        )
                },
                Err(TableError::IndexOutOfBounds) => exists|k: int|
                    0 <= k < indices@.len() && (indices@[k] as int) >= self.count as int,
                Err(_) => false,
            },
    {
        // validate the indices once, up front
        let mut k: usize = 0;
        while k < indices.len()
            invariant
                k <= indices@.len(),
                forall|j: int| 0 <= j < k ==> (indices@[j] as int) < self.count as int,
            decreases indices@.len() - k,
        {
            if indices[k] >= self.count {
                return Err(TableError::IndexOutOfBounds);
            }
            k = k + 1;
        }
        let mut selection: Vec<(String, IntCol)> = Vec::new();
        let mut i: usize = 0;
        while i < self.columns.len()
            invariant
                i <= self.columns@.len(),
                self.wf(),
                forall|j: int| 0 <= j < indices@.len() ==> (indices@[j] as int) < self.count as int,
                selection@.len() == i as int,
                forall|j: int|
                    0 <= j < i ==> (#[trigger] selection@[j]).0 == self.columns@[j].0
                        && selection@[j].1.v@ == gather(self.columns@[j].1.v@, indices@)
                        && col_empty_but_v(selection@[j].1),
            decreases self.columns@.len() - i,
        {
            let vals = gather_vec(&self.columns[i].1.v, indices);
            let mut fresh: IntCol = empty_col();
            fresh.v = vals;
            let name: String = self.columns[i].0.clone();
            proof {
                assert(name@ == self.columns@[i as int].0@);
            }
            selection.push((name, fresh));
            i = i + 1;
        }
        let mut t = TableCore::new();
        t.columns = selection;
        t.count = indices.len();
        if self.crk_col.v.len() > 0 {
            t.crk_col.v = gather_vec(&self.crk_col.v, indices);
            proof {
                lemma_gather_index(self.crk_col.v@, indices@);
            }
        }
        proof {
            assert forall|j: int| 0 <= j < t.columns@.len() implies (#[trigger] t.columns@[
                j]).1.v@.len() == t.count as int by {
                lemma_gather_index(self.columns@[j].1.v@, indices@);
            }
            assert forall|a: int, b: int|
                0 <= a < b < t.columns@.len() implies t.columns@[a].0@ != t.columns@[b].0@ by {
                assert(t.columns@[a].0 == self.columns@[a].0 && t.columns@[b].0 == self.columns@[
                    b].0);
                assert(self.columns@[a].0@ != self.columns@[b].0@);
            }
        }
        Ok(t)
    }

    /// Rebuild every column under the given permutation of the rows and
    /// clear the cracked state; designation can then happen afresh.  Fails
    /// without changing the table if the indices are not a permutation.
    pub fn rearrange(&mut self, indices: &Vec<usize>) -> (r: Result<(), TableError>)
        requires
            old(self).wf(),
        ensures
            final(self).wf(),
            r is Err ==> *final(self) == *old(self),
            match r {
                Ok(()) => {
                    &&& indices@.len() == old(self).count as int
                    &&& final(self).count == old(self).count
                    &&& final(self).uncracked()
                    &&& final(self).columns@.len() == old(self).columns@.len()
                    &&& forall|i: int|
                        0 <= i < old(self).columns@.len() ==> (#[trigger] final(self).columns@[
                            i]).0 == old(self).columns@[i].0 && final(self).columns@[i].1.v@
                            == gather(old(self).columns@[i].1.v@, indices@)
                },
                Err(TableError::NotAPermutation) => !is_permutation(
                    indices@,
                    old(self).count as int,
                ),
                Err(_) => false,
            },
            is_permutation(indices@, old(self).count as int) ==> r is Ok,
    {
        if indices.len() != self.count {
            return Err(TableError::NotAPermutation);
        }
        let mut seen: Vec<bool> = Vec::new();
        let mut k: usize = 0;
        while k < self.count
            invariant
                *self == *old(self),
                self.wf(),
                k <= self.count,
                seen@.len() == k as int,
                forall|j: int| 0 <= j < k ==> seen@[j] == false,
            decreases self.count - k,
        {
            seen.push(false);
            k = k + 1;
        }
        let mut k2: usize = 0;
        while k2 < indices.len()
            invariant
                *self == *old(self),
                self.wf(),
                k2 <= indices@.len(),
                indices@.len() == self.count as int,
                seen@.len() == self.count as int,
                forall|j: int| 0 <= j < k2 ==> (indices@[j] as int) < self.count as int,
                forall|j: int|
                    0 <= j < seen@.len() ==> (seen@[j] == (exists|a: int|
                        0 <= a < k2 && indices@[a] as int == j)),
                forall|a: int, b: int| 0 <= a < b < k2 ==> indices@[a] != indices@[b],
            decreases indices@.len() - k2,
        {
            let idx = indices[k2];
            if idx >= self.count {
                proof {
                    assert((indices@[k2 as int] as int) >= self.count as int);
                }
                return Err(TableError::NotAPermutation);
            }
            if seen[idx] {
                proof {
                    let a = choose|a: int| 0 <= a < k2 && indices@[a] as int == idx as int;
                    assert(indices@[a] == indices@[k2 as int]);
                }
                return Err(TableError::NotAPermutation);
            }
            proof {
                assert(!(exists|a: int| 0 <= a < k2 && indices@[a] as int == idx as int));
            }
            seen[idx] = true;
            proof {
                assert forall|j: int|
                    0 <= j < seen@.len() implies (seen@[j] == (exists|a: int|
                        0 <= a < k2 + 1 && indices@[a] as int == j)) by {
                    if j == idx as int {
                        assert(indices@[k2 as int] as int == j);
                    }
                }
                assert forall|a: int, b: int|
                    0 <= a < b < k2 + 1 implies indices@[a] != indices@[b] by {
                    if b == k2 as int && indices@[a] == indices@[b] {
                        assert(indices@[a] as int == idx as int);
                    }
                }
            }
            k2 = k2 + 1;
        }
        let mut i: usize = 0;
        let ghost pre = *self;
        while i < self.columns.len()
            invariant
                i <= self.columns@.len(),
                self.count == pre.count,
                self.crk_col == pre.crk_col,
                self.columns@.len() == pre.columns@.len(),
                indices@.len() == pre.count as int,
                forall|j: int| 0 <= j < indices@.len() ==> (indices@[j] as int) < pre.count as int,
                forall|j: int|
                    0 <= j < pre.columns@.len() ==> (#[trigger] pre.columns@[j]).1.v@.len()
                        == pre.count as int,
                forall|j: int, l: int|
                    0 <= j < l < pre.columns@.len() ==> pre.columns@[j].0@ != pre.columns@[l].0@,
                forall|j: int|
                    i <= j < pre.columns@.len() ==> #[trigger] self.columns@[j] == pre.columns@[j],
                forall|j: int|
                    0 <= j < i ==> (#[trigger] self.columns@[j]).0 == pre.columns@[j].0
                        && self.columns@[j].1.v@ == gather(pre.columns@[j].1.v@, indices@)
                        && col_empty_but_v(self.columns@[j].1),
            decreases self.columns@.len() - i,
        {
            let vals = gather_vec(&self.columns[i].1.v, indices);
            let mut fresh: IntCol = empty_col();
            fresh.v = vals;
            let name: String = self.columns[i].0.clone();
            proof {
                assert(name@ == pre.columns@[i as int].0@);
            }
            self.columns[i] = (name, fresh);
            i = i + 1;
        }
        self.crk_col = empty_col();
        proof {
            assert forall|j: int| 0 <= j < self.columns@.len() implies (#[trigger] self.columns@[
                j]).1.v@.len() == self.count as int by {
                lemma_gather_index(pre.columns@[j].1.v@, indices@);
            }
            assert forall|a: int, b: int|
                0 <= a < b < self.columns@.len() implies self.columns@[a].0@ != self.columns@[
                b].0@ by {
                assert(self.columns@[a].0 == pre.columns@[a].0 && self.columns@[b].0
                    == pre.columns@[b].0);
                assert(pre.columns@[a].0@ != pre.columns@[b].0@);
            }
        }
        Ok(())
    }

    /// Count, by a full scan, how many values of the named column equal
    /// the given value.  No cracking happens.
    pub fn count_col_eq(&self, col: &str, eq: i64) -> (r: Result<i64, TableError>)
        requires
            self.wf(),
            self.count <= i64::MAX as usize,
        ensures
            match r {
                Ok(c) => self.has_col(col@) && c as int == count_eq(self.col_vals(col@), eq),
                Err(TableError::NoSuchColumn) => !self.has_col(col@),
                Err(_) => false,
            },
    {
        let ci = match self.find_col(col) {
            Some(i) => i,
            None => {
                return Err(TableError::NoSuchColumn);
            },
        };
        proof {
            lemma_col_unique(*self, col@, ci as int);
        }
        let vs = &self.columns[ci].1.v;
        let mut total: i64 = 0;
        let mut k: usize = 0;
        while k < vs.len()
            invariant
                k <= vs@.len(),
                vs@.len() <= i64::MAX as int,
                vs@ == self.col_vals(col@),
                0 <= total as int <= k as int,
                total as int == count_eq(vs@.take(k as int), eq),
            decreases vs@.len() - k,
        {
            proof {
                assert(vs@.take(k as int + 1).drop_last() =~= vs@.take(k as int));
                assert(vs@.take(k as int + 1).last() == vs@[k as int]);
            }
            if vs[k] == eq {
                total = total + 1;
            }
            k = k + 1;
        }
        proof {
            assert(vs@.take(vs@.len() as int) =~= vs@);
        }
        Ok(total)
    }

    /// Equality selection: crack the working array around `x` under the
    /// given run-merge strategy, then gather the named sibling column's
    /// values at the matching rows, in the order the partition left them.
    /// The multiset of returned values is exactly the sibling values of
    /// the rows whose cracked-column value equals `x`.  A pivot absent
    /// from the column returns an empty result; the scan still partitions
    /// its seeded interval around the pivot and records its boundaries,
    /// so the working order may change even then — only the logical rows
    /// (original values, sibling columns, row count) never do.
    pub fn cracker_select_specific(
        &mut self,
        x: i64,
        col: &str,
        strategy: RunMergeStrategy,
    ) -> (r: Result<Vec<i64>, TableError>)
        requires
            old(self).wf(),
            x < i64::MAX,
        ensures
            select_post(*old(self), *final(self), x, col@, r),
    {
        let ci = match self.find_col(col) {
            Some(i) => i,
            None => {
                return Err(TableError::NoSuchColumn);
            },
        };
        proof {
            lemma_col_unique(*self, col@, ci as int);
        }
        if self.crk_col.crk.len() != self.count || self.crk_col.v.len() != self.count
            || self.count == 0 {
            if self.count == 0 {
                // an empty table matches nothing, cracked or not
                proof {
                    broadcast use vstd::seq_lib::group_to_multiset_ensures;

                    assert(self.crk_col.v@.len() == 0) by {
                        if !self.uncracked() {
                            assert(self.cracked());
                        }
                    }
                    let m = Seq::<i64>::empty().to_multiset();
                    vstd::multiset::lemma_multiset_empty_len::<i64>(m);
                    assert(m =~= Multiset::<i64>::empty());
                }
                return Ok(Vec::new());
            }
            return Err(TableError::NotCracked);
        }
        let ghost pre = *self;
        let sel = crack_select(&mut self.crk_col, x, strategy);
        let lo = sel.0;
        let h = sel.1;
        let mut buf: Vec<i64> = Vec::new();
        let mut k: usize = lo;
        while k < h
            invariant
                lo <= k <= h,
                h <= self.crk_col.base_idx@.len(),
                self.columns@ == pre.columns@,
                (ci as int) < self.columns@.len(),
                self.columns@[ci as int].1.v@.len() == self.count as int,
                self.crk_col.base_idx@.len() == self.count as int,
                forall|j: int|
                    0 <= j < self.crk_col.base_idx@.len() ==> (self.crk_col.base_idx@[j] as int)
                        < self.count as int,
                buf@.len() == k as int - lo as int,
                forall|j: int|
                    0 <= j < buf@.len() ==> buf@[j] == self.columns@[ci as int].1.v@[(
                    self.crk_col.base_idx@[lo as int + j] as int)],
            decreases h - k,
        {
            let row = self.crk_col.base_idx[k];
            buf.push(self.columns[ci].1.v[row]);
            k = k + 1;
        }
        proof {
            let vv = self.crk_col.v@;
            let cc = self.columns@[ci as int].1.v@;
            let rows = self.crk_col.base_idx@.subrange(lo as int, h as int);
            assert forall|a: int, b: int| 0 <= a < b < rows.len() implies rows[a] != rows[b] by {
                assert(self.crk_col.base_idx@[lo + a] != self.crk_col.base_idx@[lo + b]);
            }
            assert forall|a: int| 0 <= a < rows.len() implies (rows[a] as int) < vv.len()
                && vv[rows[a] as int] == x by {
                assert(self.crk_col.crk@[lo + a] == x);
                assert(self.crk_col.crk@[lo + a] == vv[self.crk_col.base_idx@[lo + a] as int]);
            }
            assert forall|rr: int| 0 <= rr < vv.len() && vv[rr] == x implies exists|a: int|
                0 <= a < rows.len() && (rows[a] as int) == rr by {
                lemma_rows_surjective(self.crk_col.base_idx@, vv.len() as int, rr);
                let i0 = choose|i0: int|
                    0 <= i0 < self.crk_col.base_idx@.len() && (self.crk_col.base_idx@[i0] as int)
                        == rr;
                assert(self.crk_col.crk@[i0] == vv[rr]);
                assert(lo as int <= i0 < h as int);
                assert(0 <= i0 - lo < rows.len() && (rows[i0 - lo] as int) == rr);
            }
            lemma_gather_eq_vals(vv, cc, rows, x);
            lemma_gather_index(cc, rows);
            assert(buf@ =~= gather(cc, rows));
            assert(self.col_vals(col@) == cc);
            assert(buf@.to_multiset() =~= eq_vals(vv, cc, x));
            if h > lo {
                let n = buf@.len() as int;
                assert(lo as int + n == h as int);
                assert(is_run(self.crk_col.crk@, self.crk_col.run_lengths@, lo as int, lo as int
                    + n));
                assert(select_isolated(self.crk_col, x, n));
            }
        }
        Ok(buf)
    }
}

/// What an equality selection guarantees: the sibling columns and the row
/// count are untouched, the original values of the cracked column are
/// untouched, and on success the returned values carry exactly the
/// multiset of sibling values of the rows whose cracked value equals the
/// pivot.
pub open spec fn select_post(
    pre: TableCore,
    post: TableCore,
    x: i64,
    name: Seq<char>,
    r: Result<Vec<i64>, TableError>,
) -> bool {
    &&& post.wf() || !pre.wf()
    &&& post.count == pre.count
    &&& post.columns == pre.columns
    &&& post.crk_col.v == pre.crk_col.v
    &&& post.crk_col.crk@.len() == pre.crk_col.crk@.len()
    &&& (pre.cracked() ==> post.cracked())
    &&& match r {
        Ok(vals) => pre.has_col(name) && (pre.cracked() || pre.count == 0)
            && vals@.to_multiset() == eq_vals(pre.crk_col.v@, pre.col_vals(name), x) && (
        vals@.len() > 0 ==> select_isolated(post.crk_col, x, vals@.len() as int)),
        Err(TableError::NoSuchColumn) => !pre.has_col(name) && post == pre,
        Err(TableError::NotCracked) => pre.has_col(name) && !pre.cracked() && pre.count > 0
            && post == pre,
        Err(_) => false,
    }
}

/// The matching rows of a selection that found `n` matches stand isolated
/// in the working array: at some position the pivot's values form one
/// contiguous recorded run with its length marked at both ends, nothing
/// outside it equals the pivot, and the boundary index maps the pivot to
/// the run's start and its successor to the slot past the run's end.
pub open spec fn select_isolated(c: IntCol, x: i64, n: int) -> bool {
    exists|p: int|
        {
            &&& 0 <= p
            &&& p + n <= c.crk@.len()
            &&& c.crk_idx.has_key(x)
            &&& c.crk_idx.pos_for(x) == p
            &&& c.crk_idx.has_key((x + 1) as i64)
            &&& c.crk_idx.pos_for((x + 1) as i64) == p + n
            &&& #[trigger] is_run(c.crk@, c.run_lengths@, p, p + n)
            &&& (forall|i: int| p <= i < p + n ==> c.crk@[i] == x)
            &&& (forall|i: int| 0 <= i < c.crk@.len() && !(p <= i < p + n) ==> c.crk@[i] != x)
        }
}

/// Values of a column at the given row indices, as a fresh array.
fn gather_vec(vs: &Vec<i64>, indices: &Vec<usize>) -> (r: Vec<i64>)
    requires
        forall|k: int| 0 <= k < indices@.len() ==> (indices@[k] as int) < vs@.len(),
    ensures
        r@ == gather(vs@, indices@),
{
    let mut buf: Vec<i64> = Vec::new();
    let mut k: usize = 0;
    while k < indices.len()
        invariant
            k <= indices@.len(),
            forall|j: int| 0 <= j < indices@.len() ==> (indices@[j] as int) < vs@.len(),
            buf@.len() == k as int,
            forall|j: int| 0 <= j < k ==> buf@[j] == vs@[indices@[j] as int],
        decreases indices@.len() - k,
    {
        buf.push(vs[indices[k]]);
        k = k + 1;
    }
    proof {
        lemma_gather_index(vs@, indices@);
        assert(buf@ =~= gather(vs@, indices@));
    }
    buf
}

/// A column holding plain values only: no cracked state.
pub open spec fn col_empty_but_v(c: IntCol) -> bool {
    &&& c.crk@.len() == 0
    &&& c.base_idx@.len() == 0
    &&& c.run_lengths@.len() == 0
    &&& c.crk_idx.entries@.len() == 0
}

/// First batch entry carrying the given name, if any.
fn find_batch(batch: &Vec<(String, Vec<i64>)>, name: &String) -> (r: Option<usize>)
    ensures
        match r {
            Some(m) => (m as int) == first_match(batch@, name@) && (m as int) < batch@.len()
                && batch@[m as int].0@ == name@,
            None => first_match(batch@, name@) < 0,
        },
{
    let mut m: usize = 0;
    while m < batch.len()
        invariant
            m <= batch@.len(),
            forall|j: int| 0 <= j < m ==> batch@[j].0@ != name@,
        decreases batch@.len() - m,
    {
        if batch[m].0 == *name {
            proof {
                lemma_first_match_at(batch@, name@, m as int);
            }
            return Some(m);
        }
        m = m + 1;
    }
    proof {
        lemma_first_match_none(batch@, name@);
    }
    None
}

/// A hit preceded only by misses is the first match.
proof fn lemma_first_match_at(batch: Seq<(String, Vec<i64>)>, name: Seq<char>, m: int)
    requires
        0 <= m < batch.len(),
        forall|j: int| 0 <= j < m ==> batch[j].0@ != name,
        batch[m].0@ == name,
    ensures
        first_match(batch, name) == m,
    decreases m,
{
    if m > 0 {
        lemma_first_match_at(batch.drop_first(), name, m - 1);
    }
}

/// All misses means no match.
proof fn lemma_first_match_none(batch: Seq<(String, Vec<i64>)>, name: Seq<char>)
    requires
        forall|j: int| 0 <= j < batch.len() ==> batch[j].0@ != name,
    ensures
        first_match(batch, name) < 0,
    decreases batch.len(),
{
    if batch.len() > 0 {
        lemma_first_match_none(batch.drop_first(), name);
    }
}

/// Build the two-column adjacency table and designate its cracked column.
pub fn build_adjacency(src_node: Vec<i64>, dst_node: Vec<i64>, crk: &str) -> (r: Result<
    TableCore,
    TableError,
>)
    ensures
        r is Ok ==> {
            let t = r->Ok_0;
            &&& src_node@.len() == dst_node@.len()
            &&& t.wf()
            &&& t.cracked()
            &&& t.count as int == src_node@.len()
            &&& t.has_col("src"@)
            &&& t.has_col("dst"@)
            &&& t.col_vals("src"@) == src_node@
            &&& t.col_vals("dst"@) == dst_node@
            &&& t.crk_col.v@ == t.col_vals(crk@)
            &&& t.crk_col.crk@ == t.col_vals(crk@)
            &&& t.crk_col.crk_idx.entries@.len() == 0
            &&& (forall|i: int|
                0 <= i < t.count ==> (t.crk_col.base_idx@[i] as int) == i
                    && t.crk_col.run_lengths@[i] == 1usize)
        },
        src_node@.len() == dst_node@.len() && (crk@ == "src"@ || crk@ == "dst"@) ==> r is Ok,
{
    proof {
        reveal_strlit("src");
        reveal_strlit("dst");
        assert("src"@ != "dst"@) by {
            if "src"@ == "dst"@ {
                assert("src"@[0] == "dst"@[0]);
            }
        }
    }
    if src_node.len() != dst_node.len() {
        return Err(TableError::LengthMismatch);
    }
    let mut t = TableCore::new();
    let mut names: Vec<&str> = Vec::new();
    names.push("src");
    names.push("dst");
    let ghost ns = names@;
    let r1 = t.new_columns(names);
    proof {
        assert(ns[0]@ == "src"@ && ns[1]@ == "dst"@);
        assert(r1 is Ok);
        let n0: int = 0;
        assert(t.columns@[n0 + 0].0@ == ns[0]@ && t.columns@[n0 + 1].0@ == ns[1]@);
    }
    if r1.is_err() {
        return Err(TableError::DuplicateColumn);
    }
    let mut batch: Vec<(String, Vec<i64>)> = Vec::new();
    let sn: String = "src".to_owned();
    let dn: String = "dst".to_owned();
    batch.push((sn, src_node));
    batch.push((dn, dst_node));
    proof {
        assert(first_match(batch@, "src"@) == 0);
        assert(batch@.drop_first()[0].0@ == "dst"@);
        assert(first_match(batch@.drop_first(), "dst"@) == 0);
        assert(first_match(batch@, "dst"@) == 1);
        assert(t.columns@[0].0@ == "src"@ && t.columns@[1].0@ == "dst"@);
        assert(batch_ok(t.columns@, batch@));
    }
    let r2 = t.insert(&batch);
    proof {
        assert(r2 is Ok);
    }
    if r2.is_err() {
        return Err(TableError::LengthMismatch);
    }
    let r3 = t.set_crk_col(crk);
    match r3 {
        Ok(()) => Ok(t),
        Err(e) => {
            proof {
                if crk@ == "src"@ || crk@ == "dst"@ {
                    assert(t.has_col(crk@));
                    assert(t.crk_col.v@.len() == 0);
                    assert(false);
                }
            }
            Err(e)
        },
    }
}

} // verus!
