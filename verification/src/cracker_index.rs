//! The pivot boundary index: an ordered map from previously queried pivot
//! values to partition boundary positions in the working array.  Lookups
//! find the boundary of the greatest stored key at or below a probe, or of
//! the smallest stored key at or above it, by binary search over a sorted
//! array of entries.

use vstd::prelude::*;

verus! {

/// Ordered map from pivot value to a position in the working array.
#[derive(Clone)]
pub struct CrackerIndex {
    pub entries: Vec<(i64, usize)>,
}

impl CrackerIndex {
    /// Entries are strictly ordered by key.
    pub open spec fn sorted(self) -> bool {
        forall|i: int, j: int|
            0 <= i < j < self.entries@.len() ==> self.entries@[i].0 < self.entries@[j].0
    }

    /// Some entry stores the given key.
    pub open spec fn has_key(self, k: i64) -> bool {
        exists|i: int| 0 <= i < self.entries@.len() && self.entries@[i].0 == k
    }

    /// The position stored for the given key.
    pub open spec fn pos_for(self, k: i64) -> int {
        let i = choose|i: int| 0 <= i < self.entries@.len() && self.entries@[i].0 == k;
        self.entries@[i].1 as int
    }

    /// An empty index: no boundary is known yet.
    pub fn new() -> (r: CrackerIndex)
        ensures
            r.entries@.len() == 0,
            r.sorted(),
    {
        CrackerIndex { entries: Vec::new() }
    }

    /// First entry whose key is at least `k`.
    fn search_ge(&self, k: i64) -> (idx: usize)
        requires
            self.sorted(),
        ensures
            idx <= self.entries@.len(),
            forall|i: int| 0 <= i < idx ==> self.entries@[i].0 < k,
            forall|i: int| idx <= i < self.entries@.len() ==> self.entries@[i].0 >= k,
    {
        let mut lo: usize = 0;
        let mut hi: usize = self.entries.len();
        while lo < hi
            invariant
                lo <= hi <= self.entries@.len(),
                self.sorted(),
                forall|i: int| 0 <= i < lo ==> self.entries@[i].0 < k,
                forall|i: int| hi <= i < self.entries@.len() ==> self.entries@[i].0 >= k,
            decreases hi - lo,
        {
            let mid = lo + (hi - lo) / 2;
            if self.entries[mid].0 < k {
                lo = mid + 1;
            } else {
                hi = mid;
            }
        }
        lo
    }

    /// First entry whose key is above `k`.
    fn search_gt(&self, k: i64) -> (idx: usize)
        requires
            self.sorted(),
        ensures
            idx <= self.entries@.len(),
            forall|i: int| 0 <= i < idx ==> self.entries@[i].0 <= k,
            forall|i: int| idx <= i < self.entries@.len() ==> self.entries@[i].0 > k,
    {
        let mut lo: usize = 0;
        let mut hi: usize = self.entries.len();
        while lo < hi
            invariant
                lo <= hi <= self.entries@.len(),
                self.sorted(),
                forall|i: int| 0 <= i < lo ==> self.entries@[i].0 <= k,
                forall|i: int| hi <= i < self.entries@.len() ==> self.entries@[i].0 > k,
            decreases hi - lo,
        {
            let mid = lo + (hi - lo) / 2;
            if self.entries[mid].0 <= k {
                lo = mid + 1;
            } else {
                hi = mid;
            }
        }
        lo
    }

    /// Boundary of the greatest stored key at or below `k`, if any.
    pub fn lower_bound(&self, k: i64) -> (r: Option<usize>)
        requires
            self.sorted(),
        ensures
            match r {
                None => forall|i: int| 0 <= i < self.entries@.len() ==> self.entries@[i].0 > k,
                Some(p) => exists|i: int|
                    0 <= i < self.entries@.len() && self.entries@[i].0 <= k
                        && self.entries@[i].1 == p && (forall|j: int|
                        0 <= j < self.entries@.len() && self.entries@[j].0 <= k
                            ==> self.entries@[j].0 <= self.entries@[i].0),
            },
    {
        let idx = self.search_gt(k);
        if idx == 0 {
            None
        } else {
            let e = self.entries[idx - 1];
            proof {
                let es = self.entries@;
                assert forall|j: int|
                    0 <= j < es.len() && (#[trigger] es[j]).0 <= k implies es[j].0 <= es[idx
                    - 1].0 by {
                    if j > idx - 1 {
                        assert(es[j].0 > k);
                    }
                }
            }
            Some(e.1)
        }
    }

    /// Boundary of the smallest stored key at or above `k`, if any.
    pub fn upper_bound(&self, k: i64) -> (r: Option<usize>)
        requires
            self.sorted(),
        ensures
            match r {
                None => forall|i: int| 0 <= i < self.entries@.len() ==> self.entries@[i].0 < k,
                Some(p) => exists|i: int|
                    0 <= i < self.entries@.len() && self.entries@[i].0 >= k
                        && self.entries@[i].1 == p && (forall|j: int|
                        0 <= j < self.entries@.len() && self.entries@[j].0 >= k
                            ==> self.entries@[j].0 >= self.entries@[i].0),
            },
    {
        let idx = self.search_ge(k);
        if idx == self.entries.len() {
            None
        } else {
            let e = self.entries[idx];
            proof {
                let es = self.entries@;
                assert forall|j: int|
                    0 <= j < es.len() && (#[trigger] es[j]).0 >= k implies es[j].0 >= es[
                    idx as int].0 by {
                    if j < idx {
                        assert(es[j].0 < k);
                    }
                }
            }
            Some(e.1)
        }
    }

    /// With strictly ordered entries, an entry's key determines it: the
    /// stored position for that key is the entry's own.
    pub proof fn lemma_pos_for(self, k: i64, i: int)
        requires
            self.sorted(),
            0 <= i < self.entries@.len(),
            self.entries@[i].0 == k,
        ensures
            self.has_key(k),
            self.pos_for(k) == self.entries@[i].1 as int,
    {
        assert(self.has_key(k));
        let j = choose|j: int| 0 <= j < self.entries@.len() && self.entries@[j].0 == k;
        if j < i {
            assert(self.entries@[j].0 < self.entries@[i].0);
        }
        if i < j {
            assert(self.entries@[i].0 < self.entries@[j].0);
        }
    }

    /// Record or overwrite the boundary for `k`.
    pub fn insert(&mut self, k: i64, p: usize)
        requires
            old(self).sorted(),
        ensures
            final(self).sorted(),
            ({
                let post = final(self).entries@;
                let pre = old(self).entries@;
                // every entry afterwards is the new one, or carries a key
                // other than `k` and was already present
                &&& forall|i: int|
                    0 <= i < post.len() ==> (post[i] == (k, p) || (post[i].0 != k && exists|j: int|
                        0 <= j < pre.len() && pre[j] == post[i]))
                // every entry with another key survives
                &&& forall|j: int|
                    0 <= j < pre.len() && pre[j].0 != k ==> exists|i: int|
                        0 <= i < post.len() && post[i] == pre[j]
                // the new boundary is recorded
                &&& exists|i: int| 0 <= i < post.len() && post[i] == (k, p)
            }),
    {
        let idx = self.search_ge(k);
        let ghost pre = self.entries@;
        if idx < self.entries.len() && self.entries[idx].0 == k {
            self.entries[idx] = (k, p);
            proof {
                assert(final(self).entries@ =~= pre.update(idx as int, (k, p)));
                assert forall|j: int|
                    0 <= j < pre.len() && pre[j].0 != k implies exists|i: int|
                    0 <= i < self.entries@.len() && self.entries@[i] == pre[j] by {
                    assert(self.entries@[j] == pre[j]);
                }
            }
        } else {
            self.entries.insert(idx, (k, p));
            proof {
                let post = self.entries@;
                assert forall|i: int, j: int|
                    0 <= i < j < post.len() implies post[i].0 < post[j].0 by {
                    if j < idx {
                        assert(post[i] == pre[i] && post[j] == pre[j]);
                    } else if i > idx {
                        assert(post[i] == pre[i - 1] && post[j] == pre[j - 1]);
                    } else if i == idx && j > idx {
                        assert(post[j] == pre[j - 1] && pre[j - 1].0 >= k && pre[j - 1].0 != k);
                    } else if j == idx && i < idx {
                        assert(post[i] == pre[i] && pre[i].0 < k);
                    } else if i < idx && j > idx {
                        assert(post[i] == pre[i] && post[j] == pre[j - 1]);
                        assert(pre[i].0 < k && pre[j - 1].0 >= k && pre[j - 1].0 != k);
                    }
                }
                assert(post[idx as int] == (k, p));
                assert forall|i: int|
                    0 <= i < post.len() && i != idx implies post[i].0 != k && exists|j: int|
                    0 <= j < pre.len() && pre[j] == post[i] by {
                    if i < idx {
                        assert(pre[i] == post[i] && pre[i].0 < k);
                    } else {
                        assert(pre[i - 1] == post[i] && pre[i - 1].0 >= k && pre[i - 1].0 != k);
                    }
                }
                assert forall|j: int|
                    0 <= j < pre.len() && pre[j].0 != k implies exists|i: int|
                    0 <= i < post.len() && post[i] == pre[j] by {
                    if j < idx {
                        assert(post[j] == pre[j]);
                    } else {
                        assert(post[j + 1] == pre[j]);
                    }
                }
            }
        }
    }
}

} // verus!
