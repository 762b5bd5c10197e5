//! Columns.  An `IntCol` holds the insertion-ordered values of one column
//! and, once the column is designated as the cracked column of a table,
//! a working copy that is partitioned in place, a base-index array mapping
//! each working slot back to its original row, run-length markers, and the
//! pivot boundary index.

use vstd::prelude::*;
use crate::cracker_index::CrackerIndex;

verus! {

/// Common behaviour of a column of values.
pub trait Column {
    type Item;

    /// The insertion-ordered values the column holds.
    spec fn values(&self) -> Seq<Self::Item>;

    /// The column holds plain values only: any derived working state
    /// (such as a cracked copy) is absent.
    spec fn plain(&self) -> bool;

    /// A column with no values and no working state.
    fn empty() -> (r: Self) where Self: core::marker::Sized
        ensures
            r.values() == Seq::<Self::Item>::empty(),
            r.plain(),
    ;

    /// Rebuild the column so that its new row `i` holds the value of old
    /// row `indices[i]`, clearing any derived working state.
    fn rearrange(&mut self, indices: &Vec<usize>)
        requires
            forall|i: int|
                0 <= i < indices@.len() ==> (indices@[i] as int) < old(self).values().len(),
        ensures
            final(self).values().len() == indices@.len(),
            forall|i: int|
                0 <= i < indices@.len() ==> final(self).values()[i] == old(self).values()[(
                indices@[i] as int)],
            final(self).plain(),
    ;

    /// The value at a row.
    fn at(self, idx: usize) -> (r: Self::Item) where Self: core::marker::Sized
        requires
            (idx as int) < self.values().len(),
        ensures
            r == self.values()[idx as int],
    ;

    /// Move all values out of `values` onto the end of the column,
    /// touching nothing but the plain values.
    fn append(&mut self, values: &mut Vec<Self::Item>)
        ensures
            final(self).values() == old(self).values() + old(values)@,
            final(values)@.len() == 0,
            final(self).plain() == old(self).plain(),
    ;
}

/// A column of 64-bit integers, with the cracked working state.
pub struct IntCol {
    /// Insertion-ordered values, immutable between reorderings.
    pub v: Vec<i64>,
    /// Working copy: same multiset as `v`, partitioned in place.
    pub crk: Vec<i64>,
    /// Pivot boundary index over `crk`.
    pub crk_idx: CrackerIndex,
    /// For each working slot, the original row its value came from.
    pub base_idx: Vec<usize>,
    /// Run-length markers at the ends of each recorded run of `crk`.
    pub run_lengths: Vec<usize>,
}

impl IntCol {
    /// Exchange `l` consecutive slots starting at `a` with `l` consecutive
    /// slots starting at `b`, across the working, base-index and run-length
    /// arrays simultaneously.  The ranges must be disjoint, in either
    /// order; this is the bounds-checked replacement for a raw memory swap.
    pub fn swap_range(&mut self, l: usize, a: usize, b: usize)
        requires
            a + l <= b || b + l <= a,
            a + l <= old(self).crk@.len(),
            b + l <= old(self).crk@.len(),
            old(self).base_idx@.len() == old(self).crk@.len(),
            old(self).run_lengths@.len() == old(self).crk@.len(),
    ensures
            final(self).v == old(self).v,
            final(self).crk_idx == old(self).crk_idx,
            final(self).crk@.len() == old(self).crk@.len(),
            final(self).base_idx@.len() == old(self).crk@.len(),
            final(self).run_lengths@.len() == old(self).crk@.len(),
            forall|i: int|
                a <= i < a + l ==> final(self).crk@[i] == old(self).crk@[i + b - a]
                    && final(self).base_idx@[i] == old(self).base_idx@[i + b - a]
                    && final(self).run_lengths@[i] == old(self).run_lengths@[i + b - a],
            forall|i: int|
                b <= i < b + l ==> final(self).crk@[i] == old(self).crk@[i + a - b]
                    && final(self).base_idx@[i] == old(self).base_idx@[i + a - b]
                    && final(self).run_lengths@[i] == old(self).run_lengths@[i + a - b],
            forall|i: int|
                0 <= i < old(self).crk@.len() && !(a <= i < a + l) && !(b <= i < b + l)
                    ==> final(self).crk@[i] == old(self).crk@[i] && final(self).base_idx@[i]
                    == old(self).base_idx@[i] && final(self).run_lengths@[i] == old(
                    self).run_lengths@[i],
    {
        let n = self.crk.len();
        assert(n as int == self.crk@.len());
        let mut i: usize = 0;
        while i < l
            invariant
                i <= l,
                a + l <= b || b + l <= a,
                a + l <= self.crk@.len(),
                b + l <= self.crk@.len(),
                self.crk@.len() <= usize::MAX,
                self.base_idx@.len() == self.crk@.len(),
                self.run_lengths@.len() == self.crk@.len(),
                self.crk@.len() == old(self).crk@.len(),
                self.v == old(self).v,
                self.crk_idx == old(self).crk_idx,
                forall|j: int|
                    a <= j < a + i ==> self.crk@[j] == old(self).crk@[j + b - a]
                        && self.base_idx@[j] == old(self).base_idx@[j + b - a]
                        && self.run_lengths@[j] == old(self).run_lengths@[j + b - a],
                forall|j: int|
                    b <= j < b + i ==> self.crk@[j] == old(self).crk@[j + a - b]
                        && self.base_idx@[j] == old(self).base_idx@[j + a - b]
                        && self.run_lengths@[j] == old(self).run_lengths@[j + a - b],
                forall|j: int|
                    0 <= j < self.crk@.len() && !(a <= j < a + i) && !(b <= j < b + i)
                        ==> self.crk@[j] == old(self).crk@[j] && self.base_idx@[j] == old(
                        self).base_idx@[j] && self.run_lengths@[j] == old(self).run_lengths@[j],
            decreases l - i,
        {
            let t1 = self.crk[a + i];
            self.crk[a + i] = self.crk[b + i];
            self.crk[b + i] = t1;
            let t2 = self.base_idx[a + i];
            self.base_idx[a + i] = self.base_idx[b + i];
            self.base_idx[b + i] = t2;
            let t3 = self.run_lengths[a + i];
            self.run_lengths[a + i] = self.run_lengths[b + i];
            self.run_lengths[b + i] = t3;
            i = i + 1;
        }
    }
}

impl Column for IntCol {
    type Item = i64;

    open spec fn values(&self) -> Seq<i64> {
        self.v@
    }

    open spec fn plain(&self) -> bool {
        &&& self.crk@.len() == 0
        &&& self.base_idx@.len() == 0
        &&& self.run_lengths@.len() == 0
        &&& self.crk_idx.entries@.len() == 0
    }

    fn empty() -> (r: IntCol) {
        IntCol {
            v: Vec::new(),
            crk: Vec::new(),
            crk_idx: CrackerIndex::new(),
            base_idx: Vec::new(),
            run_lengths: Vec::new(),
        }
    }

    fn rearrange(&mut self, indices: &Vec<usize>) {
        let mut replacement: Vec<i64> = Vec::new();
        let mut i: usize = 0;
        while i < indices.len()
            invariant
                i <= indices@.len(),
                self.v == old(self).v,
                forall|j: int|
                    0 <= j < indices@.len() ==> (indices@[j] as int) < self.v@.len(),
                replacement@.len() == i as int,
                forall|j: int|
                    0 <= j < i ==> replacement@[j] == self.v@[indices@[j] as int],
            decreases indices@.len() - i,
        {
            replacement.push(self.v[indices[i]]);
            i = i + 1;
        }
        self.v = replacement;
        self.crk = Vec::new();
        self.crk_idx = CrackerIndex::new();
        self.base_idx = Vec::new();
        self.run_lengths = Vec::new();
    }

    fn at(self, idx: usize) -> (r: i64) {
        self.v[idx]
    }

    fn append(&mut self, values: &mut Vec<i64>) {
        self.v.append(values);
    }
}

} // verus!
