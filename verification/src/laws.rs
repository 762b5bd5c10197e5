//! Laws of the cracking engine, stated over the specification model and
//! proved once and for all: what every sequence of equality selections
//! preserves, and how the two run-merge strategies relate.

use vstd::prelude::*;
use crate::column::IntCol;
use crate::engine::col_ok;
use crate::engine::key_split;
use crate::rows::lemma_aligned_multiset;
use crate::table::TableCore;
use crate::table::select_post;
use crate::TableError;

verus! {

/// Multiset preservation: in every well-formed cracked state — so after
/// any sequence of selections, each of which preserves well-formedness —
/// the working array carries exactly the multiset of the original values.
pub proof fn lemma_multiset_preservation(c: IntCol)
    requires
        col_ok(c),
    ensures
        c.crk@.to_multiset() == c.v@.to_multiset(),
{
    lemma_aligned_multiset(c.crk@, c.v@, c.base_idx@);
    assert(c.crk@.to_multiset() =~= c.v@.to_multiset());
}

/// Row alignment: in every well-formed cracked state, each working slot
/// holds the original value of the row its base index names.
pub proof fn lemma_row_alignment(c: IntCol, i: int)
    requires
        col_ok(c),
        0 <= i < c.crk@.len(),
    ensures
        (c.base_idx@[i] as int) < c.v@.len(),
        c.crk@[i] == c.v@[c.base_idx@[i] as int],
{
}

/// Boundary invariant: every pivot ever recorded in the boundary index
/// splits the working array — everything before its position is below the
/// pivot, everything from it on is at or above it — in every well-formed
/// cracked state.
pub proof fn lemma_boundary_invariant(c: IntCol, i: int)
    requires
        col_ok(c),
        0 <= i < c.crk_idx.entries@.len(),
    ensures
        key_split(c.crk@, c.crk_idx.entries@[i].0, c.crk_idx.entries@[i].1 as int),
{
}

/// Idempotence: two selections of the same pivot in a row return the same
/// result set, because a selection reorders only the working array and
/// leaves the original values and the sibling columns unchanged.  A
/// successful selection also leaves the table cracked with its columns in
/// place, so the repeat selection is owed success in the first place.
pub proof fn lemma_select_idempotent(
    t1: TableCore,
    t2: TableCore,
    t3: TableCore,
    x: i64,
    name: Seq<char>,
    r1: Vec<i64>,
    r2: Vec<i64>,
)
    requires
        select_post(t1, t2, x, name, Ok(r1)),
        select_post(t2, t3, x, name, Ok(r2)),
    ensures
        r1@.to_multiset() == r2@.to_multiset(),
        t2.cracked() || t2.count == 0,
        t2.has_col(name),
{
    assert(t2.crk_col.v@ == t1.crk_col.v@);
    assert(t2.col_vals(name) == t1.col_vals(name));
}

/// Cross-variant equivalence: the underswap and the overswap engine,
/// given the same rows and the same query, return the same result set.
/// Both satisfy one selection contract, which fixes the result multiset
/// from the inputs alone, independent of the strategy.
pub proof fn lemma_cross_variant_equivalence(
    pre1: TableCore,
    post1: TableCore,
    pre2: TableCore,
    post2: TableCore,
    x: i64,
    name: Seq<char>,
    r1: Vec<i64>,
    r2: Vec<i64>,
)
    requires
        pre1.crk_col.v@ == pre2.crk_col.v@,
        pre1.columns == pre2.columns,
        select_post(pre1, post1, x, name, Ok(r1)),
        select_post(pre2, post2, x, name, Ok(r2)),
    ensures
        r1@.to_multiset() == r2@.to_multiset(),
{
    assert(pre1.col_vals(name) == pre2.col_vals(name));
}

/// Selections do not change what any later selection of any pivot will
/// return: the result multiset is a function of the original values and
/// the sibling columns only, which every selection leaves untouched.
pub proof fn lemma_select_stable(
    t1: TableCore,
    t2: TableCore,
    x: i64,
    name: Seq<char>,
    r: Result<Vec<i64>, TableError>,
    y: i64,
    name2: Seq<char>,
)
    requires
        select_post(t1, t2, x, name, r),
    ensures
        t2.crk_col.v@ == t1.crk_col.v@,
        t2.col_vals(name2) == t1.col_vals(name2),
        t2.count == t1.count,
{
}

} // verus!
