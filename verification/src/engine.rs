//! The partition/select engine: equality selection with run-length
//! cracking.  Given a pivot, the engine narrows a search interval through
//! the pivot boundary index, tightens it over whole runs, three-way
//! partitions the interval in place around the pivot, and records the new
//! boundaries back into the index.  Two run-merge strategies implement the
//! unequal-length run swap: underswap moves the shorter run and leaves the
//! longer one split; overswap moves the whole run at once, using an extra
//! padding swap or an overlap-sized swap.

use vstd::prelude::*;
use crate::column::IntCol;
use crate::cracker_index::CrackerIndex;
use crate::rows::row_aligned;
use crate::rows::rows_distinct;
use crate::rows::rows_in_bounds;
use crate::runs::is_cut;
use crate::runs::is_run;
use crate::runs::lemma_cut_between;
use crate::runs::lemma_run_to_runs;
use crate::runs::lemma_cut_concat;
use crate::runs::lemma_cut_frame;
use crate::runs::lemma_runs_concat;
use crate::runs::lemma_runs_cut_split;
use crate::runs::lemma_runs_first;
use crate::runs::lemma_runs_last;
use crate::runs::lemma_runs_shift;
use crate::runs::lemma_runs_to_cut;
use crate::runs::runs_between;

verus! {

/// How the engine swaps runs of unequal length.
#[derive(Clone, Copy, PartialEq, Eq, Structural)]
pub enum RunMergeStrategy {
    /// Swap the shorter length; the longer run is left split, revisited.
    Underswap,
    /// Move the whole run at once, with a padding or overlap-sized swap.
    Overswap,
}

/// The index position `p` splits the working array for key `k`: everything
/// before `p` is below `k`, everything from `p` on is at or above `k`.
pub open spec fn key_split(crk: Seq<i64>, k: i64, p: int) -> bool {
    &&& 0 <= p <= crk.len()
    &&& forall|i: int| 0 <= i < p ==> crk[i] < k
    &&& forall|i: int| p <= i < crk.len() ==> crk[i] >= k
}

/// Every entry of the boundary index records a valid split whose position
/// lies on the chain of recorded run starts.
pub open spec fn index_ok(idx: CrackerIndex, crk: Seq<i64>, rl: Seq<usize>) -> bool {
    forall|i: int|
        0 <= i < idx.entries@.len() ==> key_split(crk, (#[trigger] idx.entries@[i]).0,
            idx.entries@[i].1 as int) && is_cut(rl, 0, idx.entries@[i].1 as int)
}

/// Well-formed cracked state of a column: the three working arrays share
/// one length with the original values, the base index is a permutation of
/// the rows, each working slot holds its row's original value, the working
/// array is covered by recorded runs, and the boundary index is valid.
pub open spec fn col_ok(c: IntCol) -> bool {
    &&& c.crk@.len() == c.v@.len()
    &&& c.base_idx@.len() == c.v@.len()
    &&& c.run_lengths@.len() == c.v@.len()
    &&& rows_in_bounds(c.base_idx@, c.v@.len() as int)
    &&& rows_distinct(c.base_idx@)
    &&& row_aligned(c.crk@, c.v@, c.base_idx@)
    &&& runs_between(c.crk@, c.run_lengths@, 0, c.v@.len() as int)
    &&& c.crk_idx.sorted()
    &&& index_ok(c.crk_idx, c.crk@, c.run_lengths@)
}

/// Split one recorded run into two at `m`, rewriting the four markers that
/// become run ends.
fn split_run(col: &mut IntCol, s: usize, m: usize, e: usize)
    requires
        is_run(old(col).crk@, old(col).run_lengths@, s as int, e as int),
        s < m < e,
    ensures
        final(col).v == old(col).v,
        final(col).crk == old(col).crk,
        final(col).base_idx == old(col).base_idx,
        final(col).crk_idx == old(col).crk_idx,
        final(col).run_lengths@.len() == old(col).run_lengths@.len(),
        forall|i: int|
            0 <= i < old(col).run_lengths@.len() && !(s <= i < e) ==> final(col).run_lengths@[i]
                == old(col).run_lengths@[i],
        is_run(final(col).crk@, final(col).run_lengths@, s as int, m as int),
        is_run(final(col).crk@, final(col).run_lengths@, m as int, e as int),
{
    col.run_lengths[s] = m - s;
    col.run_lengths[m - 1] = m - s;
    col.run_lengths[m] = e - m;
    col.run_lengths[e - 1] = e - m;
}

/// Overwrite the end markers of a span of one repeated value, making it a
/// single recorded run.
fn fuse_span(col: &mut IntCol, s: usize, e: usize)
    requires
        old(col).run_lengths@.len() == old(col).crk@.len(),
        s < e <= old(col).crk@.len(),
        forall|j: int| s <= j < e ==> old(col).crk@[j] == old(col).crk@[s as int],
    ensures
        final(col).v == old(col).v,
        final(col).crk == old(col).crk,
        final(col).base_idx == old(col).base_idx,
        final(col).crk_idx == old(col).crk_idx,
        final(col).run_lengths@.len() == old(col).run_lengths@.len(),
        forall|i: int|
            0 <= i < old(col).run_lengths@.len() && !(s <= i < e) ==> final(col).run_lengths@[i]
                == old(col).run_lengths@[i],
        is_run(final(col).crk@, final(col).run_lengths@, s as int, e as int),
{
    col.run_lengths[s] = e - s;
    col.run_lengths[e - 1] = e - s;
}

/// Swap two disjoint spans, each covered by whole recorded runs; the runs
/// move intact, so both spans stay covered and every other position is
/// untouched.
fn swap_spans(
    col: &mut IntCol,
    a: usize,
    b: usize,
    l: usize,
    Ghost(gl): Ghost<int>,
    Ghost(gh1): Ghost<int>,
)
    requires
        a + l <= b,
        b + l <= old(col).crk@.len(),
        rows_ok(*old(col)),
        gl <= a as int,
        b + l <= gh1 <= old(col).crk@.len(),
        keys_split_outside(*old(col), gl, gh1),
        runs_between(old(col).crk@, old(col).run_lengths@, a as int, a + l),
        runs_between(old(col).crk@, old(col).run_lengths@, b as int, b + l),
    ensures
        rows_ok(*final(col)),
        keys_split_outside(*final(col), gl, gh1),
        final(col).v == old(col).v,
        final(col).crk_idx == old(col).crk_idx,
        final(col).crk@.len() == old(col).crk@.len(),
        final(col).base_idx@.len() == old(col).crk@.len(),
        final(col).run_lengths@.len() == old(col).crk@.len(),
        forall|i: int|
            a <= i < a + l ==> final(col).crk@[i] == old(col).crk@[i + b - a] && final(
            col).base_idx@[i] == old(col).base_idx@[i + b - a] && final(col).run_lengths@[i]
                == old(col).run_lengths@[i + b - a],
        forall|i: int|
            b <= i < b + l ==> final(col).crk@[i] == old(col).crk@[i + a - b] && final(
            col).base_idx@[i] == old(col).base_idx@[i + a - b] && final(col).run_lengths@[i]
                == old(col).run_lengths@[i + a - b],
        forall|i: int|
            0 <= i < old(col).crk@.len() && !(a <= i < a + l) && !(b <= i < b + l) ==> final(
            col).crk@[i] == old(col).crk@[i] && final(col).base_idx@[i] == old(col).base_idx@[i]
                && final(col).run_lengths@[i] == old(col).run_lengths@[i],
        runs_between(final(col).crk@, final(col).run_lengths@, a as int, a + l),
        runs_between(final(col).crk@, final(col).run_lengths@, b as int, b + l),
{
    let ghost c0 = *col;
    col.swap_range(l, a, b);
    proof {
        lemma_runs_shift(
            c0.crk@,
            c0.run_lengths@,
            col.crk@,
            col.run_lengths@,
            b as int,
            b + l,
            a - b,
        );
        lemma_runs_shift(
            c0.crk@,
            c0.run_lengths@,
            col.crk@,
            col.run_lengths@,
            a as int,
            a + l,
            b - a,
        );
        lemma_swap_rows(c0.crk@, c0.base_idx@, col.crk@, col.base_idx@, col.v@, a as int,
            b as int, l as int);
        lemma_swap_index(c0, *col, a as int, b as int, l as int, gl, gh1);
    }
}

/// A swap of two disjoint spans keeps the base index a permutation and
/// keeps every working slot aligned with its row's original value.
pub proof fn lemma_swap_rows(
    crk1: Seq<i64>,
    base1: Seq<usize>,
    crk2: Seq<i64>,
    base2: Seq<usize>,
    v: Seq<i64>,
    a: int,
    b: int,
    l: int,
)
    requires
        0 <= a,
        0 <= l,
        a + l <= b,
        b + l <= crk1.len(),
        crk2.len() == crk1.len(),
        base1.len() == crk1.len(),
        base2.len() == crk1.len(),
        forall|i: int| a <= i < a + l ==> crk2[i] == crk1[i + b - a] && base2[i] == base1[i + b - a],
        forall|i: int| b <= i < b + l ==> crk2[i] == crk1[i + a - b] && base2[i] == base1[i + a - b],
        forall|i: int|
            0 <= i < crk1.len() && !(a <= i < a + l) && !(b <= i < b + l) ==> crk2[i] == crk1[i]
                && base2[i] == base1[i],
        rows_in_bounds(base1, v.len() as int),
        rows_distinct(base1),
        row_aligned(crk1, v, base1),
    ensures
        rows_in_bounds(base2, v.len() as int),
        rows_distinct(base2),
        row_aligned(crk2, v, base2),
{
    assert forall|i: int| 0 <= i < base2.len() implies (#[trigger] base2[i] as int) < v.len() by {
        let oi: int = if a <= i < a + l {
            i + b - a
        } else if b <= i < b + l {
            i + a - b
        } else {
            i
        };
        assert(base2[i] == base1[oi]);
    }
    assert forall|i: int, j: int| 0 <= i < j < base2.len() implies base2[i] != base2[j] by {
        let oi: int = if a <= i < a + l {
            i + b - a
        } else if b <= i < b + l {
            i + a - b
        } else {
            i
        };
        let oj: int = if a <= j < a + l {
            j + b - a
        } else if b <= j < b + l {
            j + a - b
        } else {
            j
        };
        assert(base2[i] == base1[oi] && base2[j] == base1[oj]);
        assert(oi != oj);
        if oi < oj {
            assert(base1[oi] != base1[oj]);
        } else {
            assert(base1[oj] != base1[oi]);
        }
    }
    assert forall|i: int| 0 <= i < crk2.len() implies (base2[i] as int) < v.len() && #[trigger]
        crk2[i] == v[base2[i] as int] by {
        let oi: int = if a <= i < a + l {
            i + b - a
        } else if b <= i < b + l {
            i + a - b
        } else {
            i
        };
        assert(crk2[i] == crk1[oi] && base2[i] == base1[oi]);
        assert(crk1[oi] == v[base1[oi] as int]);
    }
}

/// A swap of two disjoint spans that both lie between an entry's split
/// position side keeps the split valid: values only move within the region
/// on one side of the split.
pub proof fn lemma_swap_key_split(
    crk1: Seq<i64>,
    crk2: Seq<i64>,
    a: int,
    b: int,
    l: int,
    k: i64,
    p: int,
)
    requires
        0 <= a,
        0 <= l,
        a + l <= b,
        b + l <= crk1.len(),
        crk2.len() == crk1.len(),
        forall|i: int| a <= i < a + l ==> crk2[i] == crk1[i + b - a],
        forall|i: int| b <= i < b + l ==> crk2[i] == crk1[i + a - b],
        forall|i: int|
            0 <= i < crk1.len() && !(a <= i < a + l) && !(b <= i < b + l) ==> crk2[i] == crk1[i],
        key_split(crk1, k, p),
        p <= a || p >= b + l,
    ensures
        key_split(crk2, k, p),
{
    assert forall|i: int| 0 <= i < p implies #[trigger] crk2[i] < k by {
        let oi: int = if a <= i < a + l {
            i + b - a
        } else if b <= i < b + l {
            i + a - b
        } else {
            i
        };
        assert(crk2[i] == crk1[oi]);
    }
    assert forall|i: int| p <= i < crk2.len() implies #[trigger] crk2[i] >= k by {
        let oi: int = if a <= i < a + l {
            i + b - a
        } else if b <= i < b + l {
            i + a - b
        } else {
            i
        };
        assert(crk2[i] == crk1[oi]);
    }
}

/// The rows bookkeeping of a cracked column: equal lengths, a base index
/// that is a permutation of the rows, and alignment of working values with
/// the original values.
pub open spec fn rows_ok(c: IntCol) -> bool {
    &&& c.crk@.len() == c.v@.len()
    &&& c.base_idx@.len() == c.v@.len()
    &&& c.run_lengths@.len() == c.v@.len()
    &&& rows_in_bounds(c.base_idx@, c.v@.len() as int)
    &&& rows_distinct(c.base_idx@)
    &&& row_aligned(c.crk@, c.v@, c.base_idx@)
}

/// `c2` differs from `c1` only inside the span `a..b`; values, boundary
/// index and array lengths are untouched.
pub open spec fn step_frame(c1: IntCol, c2: IntCol, a: int, b: int) -> bool {
    &&& c2.v == c1.v
    &&& c2.crk_idx == c1.crk_idx
    &&& c2.crk@.len() == c1.crk@.len()
    &&& c2.base_idx@.len() == c1.base_idx@.len()
    &&& c2.run_lengths@.len() == c1.run_lengths@.len()
    &&& forall|i: int|
        0 <= i < c1.crk@.len() && !(a <= i < b) ==> c2.crk@[i] == c1.crk@[i] && c2.base_idx@[i]
            == c1.base_idx@[i] && c2.run_lengths@[i] == c1.run_lengths@[i]
}

/// Framing composes: two changes confined to a span stay confined to it.
pub proof fn lemma_frame_trans(c0: IntCol, c1: IntCol, c2: IntCol, a: int, b: int)
    requires
        step_frame(c0, c1, a, b),
        step_frame(c1, c2, a, b),
    ensures
        step_frame(c0, c2, a, b),
{
    assert forall|i: int|
        0 <= i < c0.crk@.len() && !(a <= i < b) implies c2.crk@[i] == c0.crk@[i] && c2.base_idx@[
            i] == c0.base_idx@[i] && #[trigger] c2.run_lengths@[i] == c0.run_lengths@[i] by {
        assert(c1.crk@[i] == c0.crk@[i] && c1.base_idx@[i] == c0.base_idx@[i]
            && c1.run_lengths@[i] == c0.run_lengths@[i]);
        assert(c2.crk@[i] == c1.crk@[i] && c2.base_idx@[i] == c1.base_idx@[i]
            && c2.run_lengths@[i] == c1.run_lengths@[i]);
    }
}

/// Every boundary-index entry splits the working array validly, and its
/// position stays out of the open region `gl..gh1` that a select is
/// currently reorganizing.
pub open spec fn keys_split_outside(c: IntCol, gl: int, gh1: int) -> bool {
    forall|i: int|
        0 <= i < c.crk_idx.entries@.len() ==> key_split(c.crk@, (#[trigger] c.crk_idx.entries@[
            i]).0, c.crk_idx.entries@[i].1 as int) && (c.crk_idx.entries@[i].1 as int <= gl
            || c.crk_idx.entries@[i].1 as int >= gh1)
}

/// One swap of disjoint spans inside the active region keeps every index
/// entry's split valid.
proof fn lemma_swap_index(c1: IntCol, c2: IntCol, a: int, b: int, l: int, gl: int, gh1: int)
    requires
        0 <= a,
        0 <= l,
        a + l <= b,
        b + l <= c1.crk@.len(),
        c2.crk@.len() == c1.crk@.len(),
        c2.crk_idx == c1.crk_idx,
        gl <= a,
        b + l <= gh1,
        forall|i: int| a <= i < a + l ==> c2.crk@[i] == c1.crk@[i + b - a],
        forall|i: int| b <= i < b + l ==> c2.crk@[i] == c1.crk@[i + a - b],
        forall|i: int|
            0 <= i < c1.crk@.len() && !(a <= i < a + l) && !(b <= i < b + l) ==> c2.crk@[i]
                == c1.crk@[i],
        keys_split_outside(c1, gl, gh1),
    ensures
        keys_split_outside(c2, gl, gh1),
{
    assert forall|i: int| 0 <= i < c2.crk_idx.entries@.len() implies key_split(c2.crk@, (
    #[trigger] c2.crk_idx.entries@[i]).0, c2.crk_idx.entries@[i].1 as int) && (c2.crk_idx.entries@[
        i].1 as int <= gl || c2.crk_idx.entries@[i].1 as int >= gh1) by {
        let k = c1.crk_idx.entries@[i].0;
        let p = c1.crk_idx.entries@[i].1 as int;
        assert(key_split(c1.crk@, k, p));
        lemma_swap_key_split(c1.crk@, c2.crk@, a, b, l, k, p);
    }
}

/// Advance the low boundary over whole runs of values below the pivot,
/// lazily fusing adjacent equal-valued runs as it goes.  Returns the new
/// boundary; everything passed over is below the pivot.
fn tighten_low(col: &mut IntCol, p0: usize, hi: usize, x: i64) -> (p: usize)
    requires
        old(col).run_lengths@.len() == old(col).crk@.len(),
        p0 <= hi,
        hi <= old(col).crk@.len(),
        runs_between(old(col).crk@, old(col).run_lengths@, p0 as int, hi as int),
    ensures
        p0 <= p <= hi,
        final(col).v == old(col).v,
        final(col).crk == old(col).crk,
        final(col).base_idx == old(col).base_idx,
        final(col).crk_idx == old(col).crk_idx,
        final(col).run_lengths@.len() == old(col).run_lengths@.len(),
        forall|i: int|
            0 <= i < old(col).run_lengths@.len() && !(p0 <= i < p) ==> final(col).run_lengths@[i]
                == old(col).run_lengths@[i],
        runs_between(final(col).crk@, final(col).run_lengths@, p0 as int, p as int),
        runs_between(final(col).crk@, final(col).run_lengths@, p as int, hi as int),
        forall|i: int| p0 <= i < p ==> final(col).crk@[i] < x,
        (p as int) + 1 >= hi as int || final(col).crk@[p as int] >= x,
    {
    let ghost c0 = *col;
    let n = col.crk.len();
    assert(n as int == col.crk@.len());
    let mut p: usize = p0;
    while hi - p > 1 && col.crk[p] < x
        invariant
            p0 <= p <= hi,
            hi <= n,
            n as int == col.crk@.len(),
            col.v == c0.v,
            col.crk == c0.crk,
            col.base_idx == c0.base_idx,
            col.crk_idx == c0.crk_idx,
            col.run_lengths@.len() == col.crk@.len(),
            forall|i: int|
                0 <= i < col.run_lengths@.len() && !(p0 <= i < p) ==> col.run_lengths@[i]
                    == c0.run_lengths@[i],
            runs_between(col.crk@, col.run_lengths@, p0 as int, p as int),
            runs_between(col.crk@, col.run_lengths@, p as int, hi as int),
            forall|i: int| p0 <= i < p ==> col.crk@[i] < x,
        decreases hi - p,
    {
        proof {
            lemma_runs_first(col.crk@, col.run_lengths@, p as int, hi as int);
        }
        let mut rl: usize = col.run_lengths[p];
        proof {
            assert(runs_between(col.crk@, col.run_lengths@, p as int, (p + rl) as int)) by {
                assert(is_run(col.crk@, col.run_lengths@, p as int, p + col.run_lengths@[p as int]));
                assert(runs_between(col.crk@, col.run_lengths@, (p + rl) as int, (p + rl) as int));
            }
        }
        loop
            invariant
                p0 <= p,
                p + 1 < hi,
                hi <= n,
                n as int == col.crk@.len(),
                col.v == c0.v,
                col.crk == c0.crk,
                col.base_idx == c0.base_idx,
                col.crk_idx == c0.crk_idx,
                col.run_lengths@.len() == col.crk@.len(),
                forall|i: int|
                    0 <= i < col.run_lengths@.len() && !(p0 <= i < p) ==> col.run_lengths@[i]
                        == c0.run_lengths@[i],
                runs_between(col.crk@, col.run_lengths@, p0 as int, p as int),
                1 <= rl,
                p + rl <= hi,
                runs_between(col.crk@, col.run_lengths@, p as int, (p + rl) as int),
                runs_between(col.crk@, col.run_lengths@, (p + rl) as int, hi as int),
                forall|j: int| p <= j < p + rl ==> col.crk@[j] == col.crk@[p as int],
                forall|i: int| p0 <= i < p ==> col.crk@[i] < x,
            decreases hi - (p + rl),
        {
            if !(p + rl <= hi - 1) {
                break;
            }
            if !(col.crk[p + rl] == col.crk[p]) {
                break;
            }
            proof {
                lemma_runs_first(col.crk@, col.run_lengths@, (p + rl) as int, hi as int);
            }
            let inc = col.run_lengths[p + rl];
            if !(p + rl + inc < hi - 1) {
                break;
            }
            proof {
                let m = (p + rl) as int;
                let e = (p + rl + inc) as int;
                assert(runs_between(col.crk@, col.run_lengths@, m, e)) by {
                    assert(is_run(col.crk@, col.run_lengths@, m, m + col.run_lengths@[m]));
                    assert(runs_between(col.crk@, col.run_lengths@, e, e));
                }
                lemma_runs_concat(col.crk@, col.run_lengths@, p as int, m, e);
            }
            rl = rl + inc;
        }
        let ghost c1 = *col;
        fuse_span(col, p, p + rl);
        proof {
            lemma_runs_shift(c1.crk@, c1.run_lengths@, col.crk@, col.run_lengths@, p0 as int,
                p as int, 0);
            lemma_runs_shift(c1.crk@, c1.run_lengths@, col.crk@, col.run_lengths@, (p + rl) as int,
                hi as int, 0);
            assert(runs_between(col.crk@, col.run_lengths@, p as int, (p + rl) as int)) by {
                assert(is_run(col.crk@, col.run_lengths@, p as int, (p + rl) as int));
                assert(runs_between(col.crk@, col.run_lengths@, (p + rl) as int, (p + rl) as int));
            }
            lemma_runs_concat(col.crk@, col.run_lengths@, p0 as int, p as int, (p + rl) as int);
        }
        p = p + rl;
    }
    p
}

/// Retreat the high boundary over whole runs of values above the pivot,
/// lazily fusing adjacent equal-valued runs as it goes.  Boundaries are
/// carried as cuts: `h` is the position after the highest unresolved slot.
fn tighten_high(col: &mut IntCol, lo: usize, h0: usize, x: i64) -> (h: usize)
    requires
        old(col).run_lengths@.len() == old(col).crk@.len(),
        lo <= h0,
        h0 <= old(col).crk@.len(),
        runs_between(old(col).crk@, old(col).run_lengths@, lo as int, h0 as int),
    ensures
        lo <= h <= h0,
        final(col).v == old(col).v,
        final(col).crk == old(col).crk,
        final(col).base_idx == old(col).base_idx,
        final(col).crk_idx == old(col).crk_idx,
        final(col).run_lengths@.len() == old(col).run_lengths@.len(),
        forall|i: int|
            0 <= i < old(col).run_lengths@.len() && !(h <= i < h0) ==> final(col).run_lengths@[i]
                == old(col).run_lengths@[i],
        runs_between(final(col).crk@, final(col).run_lengths@, lo as int, h as int),
        runs_between(final(col).crk@, final(col).run_lengths@, h as int, h0 as int),
        forall|i: int| h <= i < h0 ==> final(col).crk@[i] > x,
        h <= lo + 1 || final(col).crk@[h - 1] <= x,
    {
    let ghost c0 = *col;
    let n = col.crk.len();
    assert(n as int == col.crk@.len());
    let mut h: usize = h0;
    while h - lo > 1 && col.crk[h - 1] > x
        invariant
            lo <= h <= h0,
            h0 <= n,
            n as int == col.crk@.len(),
            col.v == c0.v,
            col.crk == c0.crk,
            col.base_idx == c0.base_idx,
            col.crk_idx == c0.crk_idx,
            col.run_lengths@.len() == col.crk@.len(),
            forall|i: int|
                0 <= i < col.run_lengths@.len() && !(h <= i < h0) ==> col.run_lengths@[i]
                    == c0.run_lengths@[i],
            runs_between(col.crk@, col.run_lengths@, lo as int, h as int),
            runs_between(col.crk@, col.run_lengths@, h as int, h0 as int),
            forall|i: int| h <= i < h0 ==> col.crk@[i] > x,
        decreases h,
    {
        proof {
            lemma_runs_last(col.crk@, col.run_lengths@, lo as int, h as int);
        }
        let mut rl: usize = col.run_lengths[h - 1];
        proof {
            assert(forall|j: int|
                h - rl <= j < h ==> #[trigger] col.crk@[j] == col.crk@[h - 1]);
        }
        loop
            invariant
                lo + 1 < h <= h0,
                h0 <= n,
                n as int == col.crk@.len(),
                col.v == c0.v,
                col.crk == c0.crk,
                col.base_idx == c0.base_idx,
                col.crk_idx == c0.crk_idx,
                col.run_lengths@.len() == col.crk@.len(),
                forall|i: int|
                    0 <= i < col.run_lengths@.len() && !(h <= i < h0) ==> col.run_lengths@[i]
                        == c0.run_lengths@[i],
                runs_between(col.crk@, col.run_lengths@, h as int, h0 as int),
                forall|i: int| h <= i < h0 ==> col.crk@[i] > x,
                1 <= rl,
                rl <= h - lo,
                runs_between(col.crk@, col.run_lengths@, lo as int, (h - rl) as int),
                forall|j: int| h - rl <= j < h ==> #[trigger] col.crk@[j] == col.crk@[h - 1],
            decreases h - rl,
        {
            let s = h - rl;
            if !(s > lo) {
                break;
            }
            if !(col.crk[s - 1] == col.crk[h - 1]) {
                break;
            }
            proof {
                lemma_runs_last(col.crk@, col.run_lengths@, lo as int, s as int);
            }
            let inc = col.run_lengths[s - 1];
            if !(s - inc > lo) {
                break;
            }
            rl = rl + inc;
        }
        let ghost c1 = *col;
        fuse_span(col, h - rl, h);
        proof {
            lemma_runs_shift(c1.crk@, c1.run_lengths@, col.crk@, col.run_lengths@, lo as int, (h
                - rl) as int, 0);
            lemma_runs_shift(c1.crk@, c1.run_lengths@, col.crk@, col.run_lengths@, h as int,
                h0 as int, 0);
            assert(runs_between(col.crk@, col.run_lengths@, (h - rl) as int, h as int)) by {
                assert(is_run(col.crk@, col.run_lengths@, (h - rl) as int, h as int));
                assert(runs_between(col.crk@, col.run_lengths@, h as int, h as int));
            }
            lemma_runs_concat(col.crk@, col.run_lengths@, (h - rl) as int, h as int, h0 as int);
        }
        h = h - rl;
    }
    h
}

/// Splits of two keys are ordered with the keys.
pub proof fn lemma_key_split_order(crk: Seq<i64>, k1: i64, p1: int, k2: i64, p2: int)
    requires
        key_split(crk, k1, p1),
        key_split(crk, k2, p2),
        k1 <= k2,
    ensures
        p1 <= p2,
{
    if p1 > p2 {
        assert(crk[p2] >= k2);
        assert(crk[p2] < k1);
    }
}

/// Scan step for a run below the pivot: move it next to the low boundary,
/// swapping it against the equal-valued zone `lo..itr`.  Both strategies
/// share this step.  Returns the new low boundary and scan cursor; the
/// zone keeps holding exactly the pivot value, and everything newly behind
/// the low boundary is below the pivot.
#[verifier::rlimit(100)]
fn less_step(
    col: &mut IntCol,
    lo: usize,
    itr: usize,
    h: usize,
    x: i64,
    Ghost(gl): Ghost<int>,
    Ghost(gh1): Ghost<int>,
) -> (r: (usize, usize))
    requires
        rows_ok(*old(col)),
        lo <= itr < h,
        h <= old(col).crk@.len(),
        gl <= lo,
        h as int <= gh1 <= old(col).crk@.len(),
        runs_between(old(col).crk@, old(col).run_lengths@, lo as int, itr as int),
        forall|i: int| lo <= i < itr ==> old(col).crk@[i] == x,
        runs_between(old(col).crk@, old(col).run_lengths@, itr as int, h as int),
        old(col).crk@[itr as int] < x,
        keys_split_outside(*old(col), gl, gh1),
    ensures
        ({
            let lo2 = r.0;
            let itr2 = r.1;
            &&& lo <= lo2 <= itr2 <= h
            &&& itr < itr2
            &&& rows_ok(*final(col))
            &&& step_frame(*old(col), *final(col), lo as int, itr2 as int)
            &&& runs_between(final(col).crk@, final(col).run_lengths@, lo as int, lo2 as int)
            &&& (forall|i: int| lo <= i < lo2 ==> final(col).crk@[i] < x)
            &&& runs_between(final(col).crk@, final(col).run_lengths@, lo2 as int, itr2 as int)
            &&& (forall|i: int| lo2 <= i < itr2 ==> final(col).crk@[i] == x)
            &&& runs_between(final(col).crk@, final(col).run_lengths@, itr2 as int, h as int)
            &&& keys_split_outside(*final(col), gl, gh1)
        }),
{
    proof {
        lemma_runs_first(col.crk@, col.run_lengths@, itr as int, h as int);
    }
    let zlen = itr - lo;
    let rlen = col.run_lengths[itr];
    let e = itr + rlen;
    if zlen == 0 {
        proof {
            assert(runs_between(col.crk@, col.run_lengths@, lo as int, e as int)) by {
                assert(is_run(col.crk@, col.run_lengths@, itr as int, e as int));
                assert(runs_between(col.crk@, col.run_lengths@, e as int, e as int));
            }
            assert(runs_between(col.crk@, col.run_lengths@, e as int, e as int));
        }
        return (e, e);
    }
    let ghost c0 = *col;
    fuse_span(col, lo, itr);
    proof {
        lemma_runs_shift(c0.crk@, c0.run_lengths@, col.crk@, col.run_lengths@, itr as int,
            h as int, 0);
    }
    if rlen < zlen {
        let ghost cf = *col;
        split_run(col, lo, lo + rlen, itr);
        proof {
            lemma_runs_shift(cf.crk@, cf.run_lengths@, col.crk@, col.run_lengths@, itr as int,
                h as int, 0);
            lemma_runs_first(col.crk@, col.run_lengths@, itr as int, h as int);
            lemma_run_to_runs(col.crk@, col.run_lengths@, lo as int, (lo + rlen) as int);
            lemma_run_to_runs(col.crk@, col.run_lengths@, (lo + rlen) as int, itr as int);
            lemma_run_to_runs(col.crk@, col.run_lengths@, itr as int, e as int);
        }
        let ghost c1 = *col;
        swap_spans(col, lo, itr, rlen, Ghost(gl), Ghost(gh1));
        proof {
            // remaining zone piece lo+rlen..itr is untouched by the swap
            lemma_runs_shift(c1.crk@, c1.run_lengths@, col.crk@, col.run_lengths@, (lo
                + rlen) as int, itr as int, 0);
            lemma_runs_shift(c1.crk@, c1.run_lengths@, col.crk@, col.run_lengths@, (e) as int,
                h as int, 0);
            lemma_runs_concat(col.crk@, col.run_lengths@, (lo + rlen) as int, itr as int, e as int);
        }
        return (lo + rlen, e);
    } else if rlen > zlen {
        let ghost cf = *col;
        proof {
            lemma_runs_first(cf.crk@, cf.run_lengths@, itr as int, h as int);
        }
        split_run(col, itr, e - zlen, e);
        proof {
            lemma_runs_shift(cf.crk@, cf.run_lengths@, col.crk@, col.run_lengths@, e as int,
                h as int, 0);
            assert(forall|j: int|
                lo <= j < itr ==> col.crk@[j] == cf.crk@[j] && #[trigger] col.run_lengths@[j]
                    == cf.run_lengths@[j]);
            assert(is_run(col.crk@, col.run_lengths@, lo as int, itr as int));
            lemma_run_to_runs(col.crk@, col.run_lengths@, lo as int, itr as int);
            lemma_run_to_runs(col.crk@, col.run_lengths@, itr as int, (e - zlen) as int);
            lemma_run_to_runs(col.crk@, col.run_lengths@, (e - zlen) as int, e as int);
        }
        let ghost c1 = *col;
        swap_spans(col, lo, e - zlen, zlen, Ghost(gl), Ghost(gh1));
        proof {
            // the leading part of the run, lo..itr after the swap, and the
            // untouched itr..e-zlen part, are all below the pivot
            lemma_runs_shift(c1.crk@, c1.run_lengths@, col.crk@, col.run_lengths@, itr as int, (e
                - zlen) as int, 0);
            lemma_runs_concat(col.crk@, col.run_lengths@, lo as int, itr as int, (e - zlen) as int);
            lemma_runs_shift(c1.crk@, c1.run_lengths@, col.crk@, col.run_lengths@, e as int,
                h as int, 0);
        }
        return (e - zlen, e);
    } else {
        proof {
            lemma_runs_first(col.crk@, col.run_lengths@, itr as int, h as int);
            assert(is_run(col.crk@, col.run_lengths@, lo as int, itr as int));
            lemma_run_to_runs(col.crk@, col.run_lengths@, lo as int, itr as int);
            lemma_run_to_runs(col.crk@, col.run_lengths@, itr as int, e as int);
        }
        let ghost c1 = *col;
        swap_spans(col, lo, itr, rlen, Ghost(gl), Ghost(gh1));
        proof {
            lemma_runs_shift(c1.crk@, c1.run_lengths@, col.crk@, col.run_lengths@, e as int,
                h as int, 0);
        }
        return (itr, e);
    }
}

/// Underswap scan step for a run above the pivot: swap the shorter of the
/// run and the run at the high boundary; the longer run is left split, to
/// be revisited.  Returns the new high boundary; everything from it on up
/// to the old boundary is above the pivot.
#[verifier::rlimit(60)]
fn gt_step_under(
    col: &mut IntCol,
    itr: usize,
    h: usize,
    x: i64,
    Ghost(gl): Ghost<int>,
    Ghost(gh1): Ghost<int>,
) -> (h2: usize)
    requires
        rows_ok(*old(col)),
        itr < h,
        h <= old(col).crk@.len(),
        gl <= itr,
        h as int <= gh1 <= old(col).crk@.len(),
        runs_between(old(col).crk@, old(col).run_lengths@, itr as int, h as int),
        old(col).crk@[itr as int] > x,
        keys_split_outside(*old(col), gl, gh1),
    ensures
        itr <= h2 < h,
        rows_ok(*final(col)),
        step_frame(*old(col), *final(col), itr as int, h as int),
        runs_between(final(col).crk@, final(col).run_lengths@, itr as int, h2 as int),
        runs_between(final(col).crk@, final(col).run_lengths@, h2 as int, h as int),
        forall|i: int| h2 <= i < h ==> final(col).crk@[i] > x,
        keys_split_outside(*final(col), gl, gh1),
{
    proof {
        lemma_runs_first(col.crk@, col.run_lengths@, itr as int, h as int);
        lemma_runs_last(col.crk@, col.run_lengths@, itr as int, h as int);
    }
    let rlen = col.run_lengths[itr];
    let e = itr + rlen;
    let hlen = col.run_lengths[h - 1];
    let s = h - hlen;
    if e == h {
        proof {
            assert(runs_between(col.crk@, col.run_lengths@, itr as int, itr as int));
            assert(runs_between(col.crk@, col.run_lengths@, itr as int, h as int));
        }
        return itr;
    }
    proof {
        // the scanned run and the boundary run are distinct: the chain from
        // the end of the scanned run reaches the boundary run's start
        if itr == s as int {
            assert(is_run(col.crk@, col.run_lengths@, itr as int, e as int));
            assert(is_run(col.crk@, col.run_lengths@, s as int, h as int));
            assert(col.run_lengths@[itr as int] as int == e - itr);
            assert(col.run_lengths@[itr as int] as int == h - itr);
        }
        assert(itr < s);
        if itr as int + rlen > s as int {
            lemma_runs_first(col.crk@, col.run_lengths@, itr as int, s as int);
        }
        assert(e <= s);
    }
    if rlen == hlen {
        proof {
            lemma_run_to_runs(col.crk@, col.run_lengths@, itr as int, e as int);
            lemma_run_to_runs(col.crk@, col.run_lengths@, s as int, h as int);
        }
        let ghost c1 = *col;
        swap_spans(col, itr, s, rlen, Ghost(gl), Ghost(gh1));
        proof {
            lemma_runs_cut_split(c1.crk@, c1.run_lengths@, itr as int, e as int, s as int);
            lemma_runs_shift(c1.crk@, c1.run_lengths@, col.crk@, col.run_lengths@, e as int,
                s as int, 0);
            lemma_runs_concat(col.crk@, col.run_lengths@, itr as int, e as int, s as int);
        }
        s
    } else if rlen < hlen {
        split_run(col, s, h - rlen, h);
        proof {
            // the split wrote only inside s..h; everything below is intact
            lemma_runs_shift(old(col).crk@, old(col).run_lengths@, col.crk@, col.run_lengths@,
                itr as int, s as int, 0);
            assert(forall|j: int|
                itr <= j < e ==> col.crk@[j] == old(col).crk@[j] && #[trigger] col.run_lengths@[j]
                    == old(col).run_lengths@[j]);
            assert(is_run(col.crk@, col.run_lengths@, itr as int, e as int));
            lemma_run_to_runs(col.crk@, col.run_lengths@, itr as int, e as int);
            lemma_run_to_runs(col.crk@, col.run_lengths@, (h - rlen) as int, h as int);
        }
        let ghost c1 = *col;
        swap_spans(col, itr, h - rlen, rlen, Ghost(gl), Ghost(gh1));
        proof {
            lemma_runs_cut_split(c1.crk@, c1.run_lengths@, itr as int, e as int, s as int);
            lemma_runs_shift(c1.crk@, c1.run_lengths@, col.crk@, col.run_lengths@, e as int,
                s as int, 0);
            // the shortened boundary run s..h-rlen is untouched by the swap
            assert(forall|j: int|
                s <= j < h - rlen ==> col.crk@[j] == c1.crk@[j] && #[trigger] col.run_lengths@[j]
                    == c1.run_lengths@[j]);
            assert(is_run(col.crk@, col.run_lengths@, s as int, (h - rlen) as int));
            lemma_run_to_runs(col.crk@, col.run_lengths@, s as int, (h - rlen) as int);
            lemma_runs_concat(col.crk@, col.run_lengths@, itr as int, e as int, s as int);
            lemma_runs_concat(col.crk@, col.run_lengths@, itr as int, s as int, (h - rlen) as int);
        }
        h - rlen
    } else {
        proof {
            // peel the scanned run off the chain up to the boundary run
            lemma_run_to_runs(old(col).crk@, old(col).run_lengths@, itr as int, e as int);
            lemma_runs_cut_split(old(col).crk@, old(col).run_lengths@, itr as int, e as int,
                s as int);
        }
        split_run(col, itr, itr + hlen, e);
        proof {
            lemma_runs_shift(old(col).crk@, old(col).run_lengths@, col.crk@, col.run_lengths@,
                e as int, s as int, 0);
            assert(forall|j: int|
                s <= j < h ==> col.crk@[j] == old(col).crk@[j] && #[trigger] col.run_lengths@[j]
                    == old(col).run_lengths@[j]);
            assert(is_run(col.crk@, col.run_lengths@, s as int, h as int));
            lemma_run_to_runs(col.crk@, col.run_lengths@, itr as int, (itr + hlen) as int);
            lemma_run_to_runs(col.crk@, col.run_lengths@, s as int, h as int);
        }
        let ghost c1 = *col;
        swap_spans(col, itr, s, hlen, Ghost(gl), Ghost(gh1));
        proof {
            // the tail of the split run and the untouched middle chain
            assert(forall|j: int|
                itr + hlen <= j < e ==> col.crk@[j] == c1.crk@[j] && #[trigger] col.run_lengths@[
                    j] == c1.run_lengths@[j]);
            assert(is_run(col.crk@, col.run_lengths@, (itr + hlen) as int, e as int));
            lemma_run_to_runs(col.crk@, col.run_lengths@, (itr + hlen) as int, e as int);
            lemma_runs_shift(c1.crk@, c1.run_lengths@, col.crk@, col.run_lengths@, e as int,
                s as int, 0);
            lemma_runs_concat(col.crk@, col.run_lengths@, (itr + hlen) as int, e as int, s as int);
            lemma_runs_concat(col.crk@, col.run_lengths@, itr as int, (itr + hlen) as int,
                s as int);
        }
        s
    }
}

/// Make `target` a boundary between recorded runs of the chain `e..s`,
/// splitting the run that straddles it if there is one.  Values are not
/// moved; only run-length markers change.
fn align_cut(col: &mut IntCol, e: usize, target: usize, s: usize) -> (r: ())
    requires
        old(col).run_lengths@.len() == old(col).crk@.len(),
        e <= target <= s,
        s <= old(col).crk@.len(),
        runs_between(old(col).crk@, old(col).run_lengths@, e as int, s as int),
    ensures
        final(col).v == old(col).v,
        final(col).crk == old(col).crk,
        final(col).base_idx == old(col).base_idx,
        final(col).crk_idx == old(col).crk_idx,
        final(col).run_lengths@.len() == old(col).run_lengths@.len(),
        forall|i: int|
            0 <= i < old(col).run_lengths@.len() && !(e <= i < s) ==> final(col).run_lengths@[i]
                == old(col).run_lengths@[i],
        runs_between(final(col).crk@, final(col).run_lengths@, e as int, target as int),
        runs_between(final(col).crk@, final(col).run_lengths@, target as int, s as int),
{
    let mut cur: usize = e;
    proof {
        assert(runs_between(col.crk@, col.run_lengths@, e as int, e as int));
    }
    while cur != target
        invariant
            e <= cur <= target <= s,
            s <= col.crk@.len(),
            col.v == old(col).v,
            col.crk == old(col).crk,
            col.base_idx == old(col).base_idx,
            col.crk_idx == old(col).crk_idx,
            col.run_lengths@.len() == col.crk@.len(),
            col.run_lengths@.len() == old(col).run_lengths@.len(),
            forall|i: int|
                0 <= i < col.run_lengths@.len() && !(e <= i < s) ==> col.run_lengths@[i]
                    == old(col).run_lengths@[i],
            runs_between(col.crk@, col.run_lengths@, e as int, cur as int),
            runs_between(col.crk@, col.run_lengths@, cur as int, s as int),
        decreases target - cur,
    {
        proof {
            lemma_runs_first(col.crk@, col.run_lengths@, cur as int, s as int);
        }
        let step = col.run_lengths[cur];
        let nxt = cur + step;
        if nxt <= target {
            proof {
                lemma_run_to_runs(col.crk@, col.run_lengths@, cur as int, nxt as int);
                lemma_runs_concat(col.crk@, col.run_lengths@, e as int, cur as int, nxt as int);
            }
            cur = nxt;
        } else {
            let ghost cm = *col;
            split_run(col, cur, target, nxt);
            proof {
                lemma_runs_shift(cm.crk@, cm.run_lengths@, col.crk@, col.run_lengths@, e as int,
                    cur as int, 0);
                lemma_runs_shift(cm.crk@, cm.run_lengths@, col.crk@, col.run_lengths@, nxt as int,
                    s as int, 0);
                lemma_run_to_runs(col.crk@, col.run_lengths@, cur as int, target as int);
                lemma_run_to_runs(col.crk@, col.run_lengths@, target as int, nxt as int);
                lemma_runs_concat(col.crk@, col.run_lengths@, e as int, cur as int, target as int);
                lemma_runs_concat(col.crk@, col.run_lengths@, target as int, nxt as int, s as int);
            }
            return ();
        }
    }
}

/// Overswap scan step for a run above the pivot: move the whole run to the
/// high boundary at once.  If the run and its target range overlap, one
/// swap sized to the part outside the overlap suffices; otherwise the run
/// is swapped against the boundary run and a padding range below it, the
/// padding being aligned to run boundaries first.
#[verifier::rlimit(100)]
fn gt_step_over(
    col: &mut IntCol,
    itr: usize,
    h: usize,
    x: i64,
    Ghost(gl): Ghost<int>,
    Ghost(gh1): Ghost<int>,
) -> (h2: usize)
    requires
        rows_ok(*old(col)),
        itr < h,
        h <= old(col).crk@.len(),
        gl <= itr,
        h as int <= gh1 <= old(col).crk@.len(),
        runs_between(old(col).crk@, old(col).run_lengths@, itr as int, h as int),
        old(col).crk@[itr as int] > x,
        itr + 1 < h ==> old(col).crk@[h - 1] <= x,
        keys_split_outside(*old(col), gl, gh1),
    ensures
        itr <= h2 <= h,
        rows_ok(*final(col)),
        step_frame(*old(col), *final(col), itr as int, h as int),
        runs_between(final(col).crk@, final(col).run_lengths@, itr as int, h2 as int),
        runs_between(final(col).crk@, final(col).run_lengths@, h2 as int, h as int),
        forall|i: int| h2 <= i < h ==> final(col).crk@[i] > x,
        h2 == h ==> final(col).crk@[itr as int] <= x,
        keys_split_outside(*final(col), gl, gh1),
{
    proof {
        lemma_runs_first(col.crk@, col.run_lengths@, itr as int, h as int);
        lemma_runs_last(col.crk@, col.run_lengths@, itr as int, h as int);
    }
    let rlen = col.run_lengths[itr];
    let e = itr + rlen;
    let hlen = col.run_lengths[h - 1];
    let s = h - hlen;
    if e == h {
        proof {
            assert(runs_between(col.crk@, col.run_lengths@, itr as int, itr as int));
            assert(runs_between(col.crk@, col.run_lengths@, itr as int, h as int));
        }
        return itr;
    }
    proof {
        if itr == s as int {
            assert(col.run_lengths@[itr as int] as int == e - itr);
            assert(col.run_lengths@[itr as int] as int == h - itr);
        }
        assert(itr < s);
        if itr as int + rlen > s as int {
            lemma_runs_first(col.crk@, col.run_lengths@, itr as int, s as int);
        }
        assert(e <= s);
    }
    if rlen == hlen {
        proof {
            lemma_run_to_runs(col.crk@, col.run_lengths@, itr as int, e as int);
            lemma_run_to_runs(col.crk@, col.run_lengths@, s as int, h as int);
        }
        let ghost c1 = *col;
        swap_spans(col, itr, s, rlen, Ghost(gl), Ghost(gh1));
        proof {
            lemma_runs_cut_split(c1.crk@, c1.run_lengths@, itr as int, e as int, s as int);
            lemma_runs_shift(c1.crk@, c1.run_lengths@, col.crk@, col.run_lengths@, e as int,
                s as int, 0);
            lemma_runs_concat(col.crk@, col.run_lengths@, itr as int, e as int, s as int);
        }
        s
    } else if rlen > hlen {
        over_step_long(col, itr, e, s, h, x, Ghost(gl), Ghost(gh1))
    } else {
        over_step_short(col, itr, e, s, h, x, Ghost(gl), Ghost(gh1))
    }
}

/// Overswap step when the scanned run is longer than the boundary run:
/// the whole run moves to the high boundary, through one overlap-sized
/// swap or through a head swap plus an aligned padding swap.
#[verifier::rlimit(100)]
fn over_step_long(
    col: &mut IntCol,
    itr: usize,
    e: usize,
    s: usize,
    h: usize,
    x: i64,
    Ghost(gl): Ghost<int>,
    Ghost(gh1): Ghost<int>,
) -> (h2: usize)
    requires
        rows_ok(*old(col)),
        itr < e <= s < h,
        h <= old(col).crk@.len(),
        gl <= itr,
        h as int <= gh1 <= old(col).crk@.len(),
        is_run(old(col).crk@, old(col).run_lengths@, itr as int, e as int),
        runs_between(old(col).crk@, old(col).run_lengths@, e as int, s as int),
        is_run(old(col).crk@, old(col).run_lengths@, s as int, h as int),
        old(col).crk@[itr as int] > x,
        e - itr > h - s,
        keys_split_outside(*old(col), gl, gh1),
    ensures
        itr <= h2 < h,
        rows_ok(*final(col)),
        step_frame(*old(col), *final(col), itr as int, h as int),
        runs_between(final(col).crk@, final(col).run_lengths@, itr as int, h2 as int),
        runs_between(final(col).crk@, final(col).run_lengths@, h2 as int, h as int),
        forall|i: int| h2 <= i < h ==> final(col).crk@[i] > x,
        keys_split_outside(*final(col), gl, gh1),
{
    let rlen = e - itr;
    let hlen = h - s;
    proof {
        lemma_run_to_runs(col.crk@, col.run_lengths@, itr as int, e as int);
        lemma_run_to_runs(col.crk@, col.run_lengths@, s as int, h as int);
        lemma_runs_concat(col.crk@, col.run_lengths@, e as int, s as int, h as int);
        lemma_runs_concat(col.crk@, col.run_lengths@, itr as int, e as int, s as int);
    }
    if e > h - rlen {
        // the run's target range overlaps the run itself: swap only the
        // part of the run that the chain after it can fill
        let k = h - e;
        let ghost c0 = *col;
        split_run(col, itr, itr + k, e);
        proof {
            lemma_runs_shift(c0.crk@, c0.run_lengths@, col.crk@, col.run_lengths@, e as int,
                h as int, 0);
            lemma_run_to_runs(col.crk@, col.run_lengths@, itr as int, (itr + k) as int);
            lemma_run_to_runs(col.crk@, col.run_lengths@, (itr + k) as int, e as int);
        }
        let ghost c1 = *col;
        swap_spans(col, itr, e, k, Ghost(gl), Ghost(gh1));
        proof {
        }
        let ghost c2 = *col;
        fuse_span(col, itr + k, h);
        proof {
            lemma_runs_shift(c2.crk@, c2.run_lengths@, col.crk@, col.run_lengths@, itr as int,
                (itr + k) as int, 0);
            lemma_run_to_runs(col.crk@, col.run_lengths@, (itr + k) as int, h as int);
        }
        itr + k
    } else {
        over_step_long_pad(col, itr, e, s, h, x, Ghost(gl), Ghost(gh1))
    }
}

/// Overswap padding step for a long scanned run without overlap: align a
/// run boundary at the low edge of the target range, then swap the run's
/// head against the boundary run and its tail against the padding below.
#[verifier::rlimit(100)]
#[verifier::spinoff_prover]
fn over_step_long_pad(
    col: &mut IntCol,
    itr: usize,
    e: usize,
    s: usize,
    h: usize,
    x: i64,
    Ghost(gl): Ghost<int>,
    Ghost(gh1): Ghost<int>,
) -> (h2: usize)
    requires
        rows_ok(*old(col)),
        itr < e <= s < h,
        h <= old(col).crk@.len(),
        gl <= itr,
        h as int <= gh1 <= old(col).crk@.len(),
        is_run(old(col).crk@, old(col).run_lengths@, itr as int, e as int),
        runs_between(old(col).crk@, old(col).run_lengths@, e as int, s as int),
        is_run(old(col).crk@, old(col).run_lengths@, s as int, h as int),
        old(col).crk@[itr as int] > x,
        e - itr > h - s,
        e <= h - (e - itr),
    keys_split_outside(*old(col), gl, gh1),
    ensures
        itr <= h2 < h,
        rows_ok(*final(col)),
        step_frame(*old(col), *final(col), itr as int, h as int),
        runs_between(final(col).crk@, final(col).run_lengths@, itr as int, h2 as int),
        runs_between(final(col).crk@, final(col).run_lengths@, h2 as int, h as int),
        forall|i: int| h2 <= i < h ==> final(col).crk@[i] > x,
        keys_split_outside(*final(col), gl, gh1),
{
    let rlen = e - itr;
    let hlen = h - s;
    // no overlap: align a run boundary at the low edge of the target
    // range, then swap the run's head against the boundary run and
    // its tail against the padding below it
    let target = h - rlen;
    proof {
        lemma_run_to_runs(col.crk@, col.run_lengths@, itr as int, e as int);
        lemma_runs_cut_split(col.crk@, col.run_lengths@, itr as int, e as int, s as int);
    }
    let ghost c0 = *col;
    align_cut(col, e, target, s);
    proof {
        assert(is_run(col.crk@, col.run_lengths@, itr as int, e as int));
        assert(is_run(col.crk@, col.run_lengths@, s as int, h as int));
    }
    let ghost ca = *col;
    split_run(col, itr, itr + hlen, e);
    proof {
        lemma_runs_shift(ca.crk@, ca.run_lengths@, col.crk@, col.run_lengths@, e as int,
            target as int, 0);
        lemma_runs_shift(ca.crk@, ca.run_lengths@, col.crk@, col.run_lengths@,
            target as int, s as int, 0);
        assert(is_run(col.crk@, col.run_lengths@, s as int, h as int));
        lemma_run_to_runs(col.crk@, col.run_lengths@, itr as int, (itr + hlen) as int);
        lemma_run_to_runs(col.crk@, col.run_lengths@, s as int, h as int);
    }
    let ghost c1 = *col;
    swap_spans(col, itr, s, hlen, Ghost(gl), Ghost(gh1));
    proof {
        assert(forall|j: int|
            itr + hlen <= j < e ==> col.crk@[j] == c1.crk@[j]
                && #[trigger] col.run_lengths@[j] == c1.run_lengths@[j]);
        assert(is_run(col.crk@, col.run_lengths@, (itr + hlen) as int, e as int));
        lemma_run_to_runs(col.crk@, col.run_lengths@, (itr + hlen) as int, e as int);
        lemma_runs_shift(c1.crk@, c1.run_lengths@, col.crk@, col.run_lengths@, e as int,
            target as int, 0);
        lemma_runs_shift(c1.crk@, c1.run_lengths@, col.crk@, col.run_lengths@,
            target as int, s as int, 0);
    }
    let ghost c2 = *col;
    swap_spans(col, itr + hlen, target, rlen - hlen, Ghost(gl), Ghost(gh1));
    proof {
        lemma_runs_shift(c2.crk@, c2.run_lengths@, col.crk@, col.run_lengths@, itr as int,
            (itr + hlen) as int, 0);
        lemma_runs_shift(c2.crk@, c2.run_lengths@, col.crk@, col.run_lengths@, e as int,
            target as int, 0);
        lemma_runs_shift(c2.crk@, c2.run_lengths@, col.crk@, col.run_lengths@, s as int,
            h as int, 0);
    }
    let ghost c3 = *col;
    fuse_span(col, target, h);
    proof {
        lemma_runs_shift(c3.crk@, c3.run_lengths@, col.crk@, col.run_lengths@, itr as int,
            (itr + hlen) as int, 0);
        lemma_runs_shift(c3.crk@, c3.run_lengths@, col.crk@, col.run_lengths@, (itr
            + hlen) as int, e as int, 0);
        lemma_runs_shift(c3.crk@, c3.run_lengths@, col.crk@, col.run_lengths@, e as int,
            target as int, 0);
        lemma_run_to_runs(col.crk@, col.run_lengths@, target as int, h as int);
        lemma_runs_concat(col.crk@, col.run_lengths@, itr as int, (itr + hlen) as int,
            e as int);
        lemma_runs_concat(col.crk@, col.run_lengths@, itr as int, e as int, target as int);
    }
    target

}

/// Overswap step when the boundary run is longer than the scanned run:
/// the boundary run's value is brought down to the cursor, through one
/// overlap-sized swap that leaves the boundary in place, or through a
/// tail swap plus an aligned padding swap that retreats it.
#[verifier::rlimit(100)]
fn over_step_short(
    col: &mut IntCol,
    itr: usize,
    e: usize,
    s: usize,
    h: usize,
    x: i64,
    Ghost(gl): Ghost<int>,
    Ghost(gh1): Ghost<int>,
) -> (h2: usize)
    requires
        rows_ok(*old(col)),
        itr < e <= s < h,
        h <= old(col).crk@.len(),
        gl <= itr,
        h as int <= gh1 <= old(col).crk@.len(),
        is_run(old(col).crk@, old(col).run_lengths@, itr as int, e as int),
        runs_between(old(col).crk@, old(col).run_lengths@, e as int, s as int),
        is_run(old(col).crk@, old(col).run_lengths@, s as int, h as int),
        old(col).crk@[itr as int] > x,
        old(col).crk@[h - 1] <= x,
        e - itr < h - s,
        keys_split_outside(*old(col), gl, gh1),
    ensures
        itr <= h2 <= h,
        rows_ok(*final(col)),
        step_frame(*old(col), *final(col), itr as int, h as int),
        runs_between(final(col).crk@, final(col).run_lengths@, itr as int, h2 as int),
        runs_between(final(col).crk@, final(col).run_lengths@, h2 as int, h as int),
        forall|i: int| h2 <= i < h ==> final(col).crk@[i] > x,
        h2 == h ==> final(col).crk@[itr as int] <= x,
        keys_split_outside(*final(col), gl, gh1),
{
    let rlen = e - itr;
    let hlen = h - s;
    proof {
        lemma_run_to_runs(col.crk@, col.run_lengths@, itr as int, e as int);
        lemma_run_to_runs(col.crk@, col.run_lengths@, s as int, h as int);
        lemma_runs_concat(col.crk@, col.run_lengths@, e as int, s as int, h as int);
        lemma_runs_concat(col.crk@, col.run_lengths@, itr as int, e as int, s as int);
    }
    if itr + hlen > s {
        // the boundary run's target range overlaps it: swap the whole
        // chain between cursor and boundary run against its tail
        let k = s - itr;
        let ghost c0 = *col;
        split_run(col, s, h - k, h);
        proof {
            lemma_runs_shift(c0.crk@, c0.run_lengths@, col.crk@, col.run_lengths@, itr as int,
                s as int, 0);
            lemma_run_to_runs(col.crk@, col.run_lengths@, (h - k) as int, h as int);
        }
        let ghost c1 = *col;
        swap_spans(col, itr, h - k, k, Ghost(gl), Ghost(gh1));
        proof {
            assert(forall|j: int|
                s <= j < h - k ==> col.crk@[j] == c1.crk@[j] && #[trigger] col.run_lengths@[j]
                    == c1.run_lengths@[j]);
            assert(is_run(col.crk@, col.run_lengths@, s as int, (h - k) as int));
            lemma_run_to_runs(col.crk@, col.run_lengths@, s as int, (h - k) as int);
            lemma_runs_concat(col.crk@, col.run_lengths@, itr as int, s as int, (h - k) as int);
            lemma_runs_concat(col.crk@, col.run_lengths@, itr as int, (h - k) as int, h as int);
            assert(runs_between(col.crk@, col.run_lengths@, h as int, h as int));
            // the value now at the cursor is the boundary run's value
            assert(col.crk@[itr as int] == c1.crk@[(h - k) as int + itr - itr - (h - k)
                + h - k]) by {
                assert(col.crk@[itr as int] == c1.crk@[itr + (h - k) - itr]);
            }
            assert(c1.crk@[(h - k) as int] == c1.crk@[h - 1]);
        }
        h
    } else {
        over_step_short_pad(col, itr, e, s, h, x, Ghost(gl), Ghost(gh1))
    }
}

/// Overswap padding step for a long boundary run without overlap: align a
/// run boundary at the high edge of the padding range, swap the scanned
/// run against the boundary run's tail and the padding against its head.
#[verifier::rlimit(100)]
#[verifier::spinoff_prover]
fn over_step_short_pad(
    col: &mut IntCol,
    itr: usize,
    e: usize,
    s: usize,
    h: usize,
    x: i64,
    Ghost(gl): Ghost<int>,
    Ghost(gh1): Ghost<int>,
) -> (h2: usize)
    requires
        rows_ok(*old(col)),
        itr < e <= s < h,
        h <= old(col).crk@.len(),
        gl <= itr,
        h as int <= gh1 <= old(col).crk@.len(),
        is_run(old(col).crk@, old(col).run_lengths@, itr as int, e as int),
        runs_between(old(col).crk@, old(col).run_lengths@, e as int, s as int),
        is_run(old(col).crk@, old(col).run_lengths@, s as int, h as int),
        old(col).crk@[itr as int] > x,
        e - itr < h - s,
        itr + (h - s) <= s,
    keys_split_outside(*old(col), gl, gh1),
    ensures
        itr <= h2 < h,
        rows_ok(*final(col)),
        step_frame(*old(col), *final(col), itr as int, h as int),
        runs_between(final(col).crk@, final(col).run_lengths@, itr as int, h2 as int),
        runs_between(final(col).crk@, final(col).run_lengths@, h2 as int, h as int),
        forall|i: int| h2 <= i < h ==> final(col).crk@[i] > x,
        keys_split_outside(*final(col), gl, gh1),
{
    let rlen = e - itr;
    let hlen = h - s;
    // no overlap: align a run boundary at the high edge of the
    // padding range, swap the run against the boundary run's tail
    // and the padding against its head
    let target = itr + hlen;
    proof {
        lemma_run_to_runs(col.crk@, col.run_lengths@, itr as int, e as int);
        lemma_runs_cut_split(col.crk@, col.run_lengths@, itr as int, e as int, s as int);
    }
    align_cut(col, e, target, s);
    proof {
        assert(is_run(col.crk@, col.run_lengths@, itr as int, e as int));
        assert(is_run(col.crk@, col.run_lengths@, s as int, h as int));
    }
    let ghost ca = *col;
    split_run(col, s, h - rlen, h);
    proof {
        lemma_runs_shift(ca.crk@, ca.run_lengths@, col.crk@, col.run_lengths@, e as int,
            target as int, 0);
        lemma_runs_shift(ca.crk@, ca.run_lengths@, col.crk@, col.run_lengths@,
            target as int, s as int, 0);
        assert(is_run(col.crk@, col.run_lengths@, itr as int, e as int));
        lemma_run_to_runs(col.crk@, col.run_lengths@, itr as int, e as int);
        lemma_run_to_runs(col.crk@, col.run_lengths@, (h - rlen) as int, h as int);
        lemma_run_to_runs(col.crk@, col.run_lengths@, s as int, (h - rlen) as int);
    }
    let ghost c1 = *col;
    swap_spans(col, itr, h - rlen, rlen, Ghost(gl), Ghost(gh1));
    proof {
        lemma_runs_shift(c1.crk@, c1.run_lengths@, col.crk@, col.run_lengths@, e as int,
            target as int, 0);
        lemma_runs_shift(c1.crk@, c1.run_lengths@, col.crk@, col.run_lengths@,
            target as int, s as int, 0);
        assert(forall|j: int|
            s <= j < h - rlen ==> col.crk@[j] == c1.crk@[j]
                && #[trigger] col.run_lengths@[j] == c1.run_lengths@[j]);
        assert(is_run(col.crk@, col.run_lengths@, s as int, (h - rlen) as int));
        lemma_run_to_runs(col.crk@, col.run_lengths@, s as int, (h - rlen) as int);
    }
    let ghost c2 = *col;
    swap_spans(col, e, s, hlen - rlen, Ghost(gl), Ghost(gh1));
    proof {
        lemma_runs_shift(c2.crk@, c2.run_lengths@, col.crk@, col.run_lengths@, itr as int,
            e as int, 0);
        lemma_runs_shift(c2.crk@, c2.run_lengths@, col.crk@, col.run_lengths@,
            target as int, s as int, 0);
        lemma_runs_shift(c2.crk@, c2.run_lengths@, col.crk@, col.run_lengths@, (h
            - rlen) as int, h as int, 0);
        lemma_runs_concat(col.crk@, col.run_lengths@, itr as int, e as int, target as int);
        lemma_runs_concat(col.crk@, col.run_lengths@, itr as int, target as int, s as int);
        lemma_runs_concat(col.crk@, col.run_lengths@, itr as int, s as int, (h
            - rlen) as int);
    }
    h - rlen

}


/// After a select has reorganized the region `gl..gh1` of a well-formed
/// column back into whole recorded runs, the whole column is well formed
/// again: the pieces outside the region are untouched, and every boundary
/// entry's position is reachable again as a cut from the start.
proof fn lemma_region_ok(c0: IntCol, c: IntCol, gl: int, gh1: int)
    requires
        col_ok(c0),
        c.v == c0.v,
        c.crk_idx == c0.crk_idx,
        c.crk@.len() == c0.crk@.len(),
        c.base_idx@.len() == c0.base_idx@.len(),
        c.run_lengths@.len() == c0.run_lengths@.len(),
        forall|i: int|
            0 <= i < c0.crk@.len() && !(gl <= i < gh1) ==> c.crk@[i] == c0.crk@[i] && c.base_idx@[
                i] == c0.base_idx@[i] && c.run_lengths@[i] == c0.run_lengths@[i],
        0 <= gl <= gh1 <= c0.crk@.len(),
        rows_ok(c),
        runs_between(c.crk@, c.run_lengths@, gl, gh1),
        keys_split_outside(c, gl, gh1),
        is_cut(c0.run_lengths@, 0, gl),
        is_cut(c0.run_lengths@, 0, gh1),
    ensures
        col_ok(c),
        runs_between(c.crk@, c.run_lengths@, 0, gl),
        runs_between(c.crk@, c.run_lengths@, gh1, c.crk@.len() as int),
        is_cut(c.run_lengths@, 0, gl),
{
    let n = c0.crk@.len() as int;
    lemma_runs_cut_split(c0.crk@, c0.run_lengths@, 0, gl, n);
    lemma_cut_between(c0.run_lengths@, 0, gl, gh1);
    lemma_runs_cut_split(c0.crk@, c0.run_lengths@, gl, gh1, n);
    lemma_runs_shift(c0.crk@, c0.run_lengths@, c.crk@, c.run_lengths@, 0, gl, 0);
    lemma_runs_shift(c0.crk@, c0.run_lengths@, c.crk@, c.run_lengths@, gh1, n, 0);
    lemma_runs_concat(c.crk@, c.run_lengths@, 0, gl, gh1);
    lemma_runs_concat(c.crk@, c.run_lengths@, 0, gh1, n);
    lemma_cut_frame(c0.run_lengths@, c.run_lengths@, 0, gl);
    lemma_runs_to_cut(c.crk@, c.run_lengths@, gl, gh1);
    lemma_cut_concat(c.run_lengths@, 0, gl, gh1);
    let es = c.crk_idx.entries@;
    assert forall|i: int| 0 <= i < es.len() implies key_split(c.crk@, (#[trigger] es[i]).0,
        es[i].1 as int) && is_cut(c.run_lengths@, 0, es[i].1 as int) by {
        let p = es[i].1 as int;
        assert(key_split(c.crk@, es[i].0, p) && (p <= gl || p >= gh1));
        assert(is_cut(c0.run_lengths@, 0, p));
        if p <= gl {
            lemma_cut_frame(c0.run_lengths@, c.run_lengths@, 0, p);
        } else {
            lemma_cut_between(c0.run_lengths@, 0, gh1, p);
            lemma_cut_frame(c0.run_lengths@, c.run_lengths@, gh1, p);
            lemma_cut_concat(c.run_lengths@, 0, gh1, p);
        }
    }
}

/// One scan move over a run below the pivot: relocate it next to the low
/// boundary and re-tighten the low boundary over whole runs.  The whole
/// scan state is carried: the four chain pieces between the seeded cuts,
/// their value zones, the boundary entries, and the rows bookkeeping.
#[verifier::rlimit(100)]
fn scan_less(
    col: &mut IntCol,
    lo: usize,
    itr: usize,
    h: usize,
    x: i64,
    Ghost(gl): Ghost<int>,
    Ghost(gh1): Ghost<int>,
) -> (r: (usize, usize))
    requires
        rows_ok(*old(col)),
        0 <= gl <= lo as int,
        lo <= itr < h,
        h as int <= gh1 <= old(col).crk@.len(),
        runs_between(old(col).crk@, old(col).run_lengths@, gl, lo as int),
        runs_between(old(col).crk@, old(col).run_lengths@, lo as int, itr as int),
        runs_between(old(col).crk@, old(col).run_lengths@, itr as int, h as int),
        runs_between(old(col).crk@, old(col).run_lengths@, h as int, gh1),
        forall|i: int| gl <= i < lo as int ==> old(col).crk@[i] < x,
        forall|i: int| lo as int <= i < itr as int ==> old(col).crk@[i] == x,
        forall|i: int| h as int <= i < gh1 ==> old(col).crk@[i] > x,
        old(col).crk@[itr as int] < x,
        keys_split_outside(*old(col), gl, gh1),
    ensures
        ({
            let lo2 = r.0;
            let itr2 = r.1;
            &&& lo <= lo2 <= itr2 <= h
            &&& itr < itr2
            &&& rows_ok(*final(col))
            &&& step_frame(*old(col), *final(col), gl, gh1)
            &&& runs_between(final(col).crk@, final(col).run_lengths@, gl, lo2 as int)
            &&& runs_between(final(col).crk@, final(col).run_lengths@, lo2 as int, itr2 as int)
            &&& runs_between(final(col).crk@, final(col).run_lengths@, itr2 as int, h as int)
            &&& runs_between(final(col).crk@, final(col).run_lengths@, h as int, gh1)
            &&& (forall|i: int| gl <= i < lo2 as int ==> final(col).crk@[i] < x)
            &&& (forall|i: int| lo2 as int <= i < itr2 as int ==> final(col).crk@[i] == x)
            &&& (forall|i: int| h as int <= i < gh1 ==> final(col).crk@[i] > x)
            &&& (final(col).crk@[h - 1] <= x || final(col).crk@[h - 1] == old(col).crk@[h - 1])
            &&& keys_split_outside(*final(col), gl, gh1)
        }),
{
    let st = less_step(col, lo, itr, h, x, Ghost(gl), Ghost(gh1));
    let lo2 = st.0;
    let itr2 = st.1;
    let ghost cq = *col;
    proof {
        lemma_runs_shift(old(col).crk@, old(col).run_lengths@, col.crk@, col.run_lengths@, gl,
            lo as int, 0);
        lemma_runs_shift(old(col).crk@, old(col).run_lengths@, col.crk@, col.run_lengths@,
            h as int, gh1, 0);
        lemma_runs_concat(col.crk@, col.run_lengths@, gl, lo as int, lo2 as int);
        lemma_runs_concat(col.crk@, col.run_lengths@, lo2 as int, itr2 as int, h as int);
    }
    let lo3 = tighten_low(col, lo2, h, x);
    proof {
        lemma_runs_shift(cq.crk@, cq.run_lengths@, col.crk@, col.run_lengths@, gl, lo2 as int, 0);
        lemma_runs_shift(cq.crk@, cq.run_lengths@, col.crk@, col.run_lengths@, h as int, gh1, 0);
        lemma_runs_concat(col.crk@, col.run_lengths@, gl, lo2 as int, lo3 as int);
        if itr2 > lo2 {
            // the zone holds the pivot value, so the tighten stopped at
            // once and wrote nothing
            assert(cq.crk@[lo2 as int] == x);
            assert(lo3 == lo2);
            lemma_runs_shift(cq.crk@, cq.run_lengths@, col.crk@, col.run_lengths@, lo2 as int,
                itr2 as int, 0);
            lemma_runs_shift(cq.crk@, cq.run_lengths@, col.crk@, col.run_lengths@, itr2 as int,
                h as int, 0);
        }
    }
    if itr2 < lo3 {
        (lo3, lo3)
    } else {
        (lo3, itr2)
    }
}

/// One scan move over a run above the pivot: relocate it toward the high
/// boundary under the given strategy and re-tighten the high boundary.
/// When the boundary does not move, the value at the scan cursor has been
/// lowered to the pivot or below, so the scan still progresses.
#[verifier::rlimit(100)]
fn scan_greater(
    col: &mut IntCol,
    lo: usize,
    itr: usize,
    h: usize,
    x: i64,
    strategy: RunMergeStrategy,
    Ghost(gl): Ghost<int>,
    Ghost(gh1): Ghost<int>,
) -> (h3: usize)
    requires
        rows_ok(*old(col)),
        0 <= gl <= lo as int,
        lo <= itr < h,
        h as int <= gh1 <= old(col).crk@.len(),
        runs_between(old(col).crk@, old(col).run_lengths@, gl, lo as int),
        runs_between(old(col).crk@, old(col).run_lengths@, lo as int, itr as int),
        runs_between(old(col).crk@, old(col).run_lengths@, itr as int, h as int),
        runs_between(old(col).crk@, old(col).run_lengths@, h as int, gh1),
        forall|i: int| gl <= i < lo as int ==> old(col).crk@[i] < x,
        forall|i: int| lo as int <= i < itr as int ==> old(col).crk@[i] == x,
        forall|i: int| h as int <= i < gh1 ==> old(col).crk@[i] > x,
        old(col).crk@[itr as int] > x,
        h - lo > 1 ==> old(col).crk@[h - 1] <= x,
        keys_split_outside(*old(col), gl, gh1),
    ensures
        itr <= h3 <= h,
        h3 == h ==> final(col).crk@[itr as int] <= x,
        rows_ok(*final(col)),
        step_frame(*old(col), *final(col), gl, gh1),
        runs_between(final(col).crk@, final(col).run_lengths@, gl, lo as int),
        runs_between(final(col).crk@, final(col).run_lengths@, lo as int, itr as int),
        runs_between(final(col).crk@, final(col).run_lengths@, itr as int, h3 as int),
        runs_between(final(col).crk@, final(col).run_lengths@, h3 as int, gh1),
        forall|i: int| gl <= i < lo as int ==> final(col).crk@[i] < x,
        forall|i: int| lo as int <= i < itr as int ==> final(col).crk@[i] == x,
        forall|i: int| h3 as int <= i < gh1 ==> final(col).crk@[i] > x,
        h3 - lo > 1 ==> final(col).crk@[h3 - 1] <= x,
        keys_split_outside(*final(col), gl, gh1),
{
    proof {
        if itr + 1 < h {
            assert(h - lo > 1);
        }
    }
    let h2 = match strategy {
        RunMergeStrategy::Underswap => gt_step_under(col, itr, h, x, Ghost(gl), Ghost(gh1)),
        RunMergeStrategy::Overswap => gt_step_over(col, itr, h, x, Ghost(gl), Ghost(gh1)),
    };
    proof {
        lemma_runs_shift(old(col).crk@, old(col).run_lengths@, col.crk@, col.run_lengths@, gl,
            lo as int, 0);
        lemma_runs_shift(old(col).crk@, old(col).run_lengths@, col.crk@, col.run_lengths@,
            lo as int, itr as int, 0);
        lemma_runs_shift(old(col).crk@, old(col).run_lengths@, col.crk@, col.run_lengths@,
            h as int, gh1, 0);
        lemma_runs_concat(col.crk@, col.run_lengths@, h2 as int, h as int, gh1);
        lemma_runs_concat(col.crk@, col.run_lengths@, lo as int, itr as int, h2 as int);
    }
    let ghost cq = *col;
    let h3 = tighten_high(col, lo, h2, x);
    proof {
        lemma_runs_shift(cq.crk@, cq.run_lengths@, col.crk@, col.run_lengths@, gl, lo as int, 0);
        lemma_runs_shift(cq.crk@, cq.run_lengths@, col.crk@, col.run_lengths@, h2 as int, gh1, 0);
        // the high tighten cannot pass the pivot-valued zone
        if h3 < itr {
            assert(col.crk@[itr - 1] == x);
            assert(col.crk@[itr - 1] > x);
        }
        assert(h3 >= itr);
        lemma_runs_shift(cq.crk@, cq.run_lengths@, col.crk@, col.run_lengths@, lo as int,
            itr as int, 0);
        lemma_runs_to_cut(col.crk@, col.run_lengths@, lo as int, itr as int);
        lemma_runs_cut_split(col.crk@, col.run_lengths@, lo as int, itr as int, h3 as int);
        lemma_runs_concat(col.crk@, col.run_lengths@, h3 as int, h2 as int, gh1);
        if h3 == h {
            assert(h2 == h);
            assert(col.crk@[itr as int] == cq.crk@[itr as int]);
        }
    }
    h3
}

/// Consequences of seeding a select from the boundary index: every entry
/// position stays clear of the open region between the seeded cuts, both
/// seeded positions are cuts with valid splits, values below the low seed
/// are below the pivot and values from the high seed on are above it.
proof fn lemma_seed(c: IntCol, x: i64, lb: Option<usize>, ub: Option<usize>, gl: usize, gh1: usize)
    requires
        col_ok(c),
        x < i64::MAX,
        match lb {
            None => forall|i: int|
                0 <= i < c.crk_idx.entries@.len() ==> c.crk_idx.entries@[i].0 > x,
            Some(p) => exists|i: int|
                0 <= i < c.crk_idx.entries@.len() && c.crk_idx.entries@[i].0 <= x
                    && c.crk_idx.entries@[i].1 == p && (forall|j: int|
                    0 <= j < c.crk_idx.entries@.len() && c.crk_idx.entries@[j].0 <= x
                        ==> c.crk_idx.entries@[j].0 <= c.crk_idx.entries@[i].0),
        },
        match ub {
            None => forall|i: int|
                0 <= i < c.crk_idx.entries@.len() ==> c.crk_idx.entries@[i].0 < x + 1,
            Some(p) => exists|i: int|
                0 <= i < c.crk_idx.entries@.len() && c.crk_idx.entries@[i].0 >= x + 1
                    && c.crk_idx.entries@[i].1 == p && (forall|j: int|
                    0 <= j < c.crk_idx.entries@.len() && c.crk_idx.entries@[j].0 >= x + 1
                        ==> c.crk_idx.entries@[j].0 >= c.crk_idx.entries@[i].0),
        },
        gl as int == (match lb {
            Some(p) => p as int,
            None => 0,
        }),
        gh1 as int == (match ub {
            Some(p) => p as int,
            None => c.crk@.len() as int,
        }),
    ensures
        gl as int <= c.crk@.len(),
        gh1 as int <= c.crk@.len(),
        keys_split_outside(c, gl as int, gh1 as int),
        is_cut(c.run_lengths@, 0, gl as int),
        is_cut(c.run_lengths@, 0, gh1 as int),
        forall|i: int| 0 <= i < gl as int ==> c.crk@[i] < x,
        forall|i: int| gh1 as int <= i < c.crk@.len() ==> c.crk@[i] > x,
        gl <= gh1 ==> runs_between(c.crk@, c.run_lengths@, gl as int, gh1 as int),
{
    let es = c.crk_idx.entries@;
    let n = c.crk@.len() as int;
    if lb is Some {
        let il = choose|i: int|
            0 <= i < es.len() && es[i].0 <= x && es[i].1 == lb->Some_0 && (forall|j: int|
                0 <= j < es.len() && es[j].0 <= x ==> es[j].0 <= es[i].0);
        assert(key_split(c.crk@, es[il].0, gl as int));
        assert(is_cut(c.run_lengths@, 0, gl as int));
        assert forall|i: int| 0 <= i < gl as int implies c.crk@[i] < x by {
            assert(c.crk@[i] < es[il].0);
        }
    } else {
        assert(is_cut(c.run_lengths@, 0, 0));
    }
    if ub is Some {
        let ih = choose|i: int|
            0 <= i < es.len() && es[i].0 >= x + 1 && es[i].1 == ub->Some_0 && (forall|j: int|
                0 <= j < es.len() && es[j].0 >= x + 1 ==> es[j].0 >= es[i].0);
        assert(key_split(c.crk@, es[ih].0, gh1 as int));
        assert(is_cut(c.run_lengths@, 0, gh1 as int));
        assert forall|i: int| gh1 as int <= i < n implies c.crk@[i] > x by {
            assert(c.crk@[i] >= es[ih].0);
        }
    } else {
        lemma_runs_to_cut(c.crk@, c.run_lengths@, 0, n);
    }
    assert forall|i: int| 0 <= i < es.len() implies (#[trigger] es[i]).1 as int <= gl as int
        || es[i].1 as int >= gh1 as int by {
        let k2 = es[i].0;
        let p2 = es[i].1 as int;
        assert(key_split(c.crk@, k2, p2));
        if k2 <= x {
            let il = choose|i: int|
                0 <= i < es.len() && es[i].0 <= x && es[i].1 == lb->Some_0 && (forall|j: int|
                    0 <= j < es.len() && es[j].0 <= x ==> es[j].0 <= es[i].0);
            assert(k2 <= es[il].0);
            lemma_key_split_order(c.crk@, k2, p2, es[il].0, gl as int);
        } else {
            assert(k2 >= x + 1);
            let ih = choose|i: int|
                0 <= i < es.len() && es[i].0 >= x + 1 && es[i].1 == ub->Some_0 && (forall|j: int|
                    0 <= j < es.len() && es[j].0 >= x + 1 ==> es[j].0 >= es[i].0);
            assert(es[ih].0 <= k2);
            lemma_key_split_order(c.crk@, es[ih].0, gh1 as int, k2, p2);
        }
    }
    if gl <= gh1 {
        lemma_runs_cut_split(c.crk@, c.run_lengths@, 0, gl as int, n);
        lemma_cut_between(c.run_lengths@, 0, gl as int, gh1 as int);
        lemma_runs_cut_split(c.crk@, c.run_lengths@, gl as int, gh1 as int, n);
    }
}

/// Finalize a select that found matches: fuse the matching zone into one
/// recorded run and record the two new boundaries into the index.
#[verifier::rlimit(100)]
fn finalize_select(
    col: &mut IntCol,
    lo: usize,
    h: usize,
    x: i64,
    Ghost(gl): Ghost<int>,
    Ghost(gh1): Ghost<int>,
    Ghost(c0): Ghost<IntCol>,
)
    requires
        col_ok(c0),
        x < i64::MAX,
        old(col).v == c0.v,
        old(col).crk_idx == c0.crk_idx,
        old(col).crk@.len() == c0.crk@.len(),
        old(col).base_idx@.len() == c0.base_idx@.len(),
        old(col).run_lengths@.len() == c0.run_lengths@.len(),
        forall|i: int|
            0 <= i < c0.crk@.len() && !(gl <= i < gh1) ==> old(col).crk@[i] == c0.crk@[i] && old(
                col).base_idx@[i] == c0.base_idx@[i] && old(col).run_lengths@[i]
                == c0.run_lengths@[i],
        0 <= gl <= lo as int,
        lo < h,
        h as int <= gh1 <= c0.crk@.len(),
        rows_ok(*old(col)),
        keys_split_outside(*old(col), gl, gh1),
        is_cut(c0.run_lengths@, 0, gl),
        is_cut(c0.run_lengths@, 0, gh1),
        runs_between(old(col).crk@, old(col).run_lengths@, gl, lo as int),
        runs_between(old(col).crk@, old(col).run_lengths@, lo as int, h as int),
        runs_between(old(col).crk@, old(col).run_lengths@, h as int, gh1),
        forall|i: int| 0 <= i < lo as int ==> old(col).crk@[i] < x,
        forall|i: int| lo as int <= i < h as int ==> old(col).crk@[i] == x,
        forall|i: int| h as int <= i < c0.crk@.len() ==> old(col).crk@[i] > x,
    ensures
        col_ok(*final(col)),
        final(col).v == old(col).v,
        final(col).crk == old(col).crk,
        final(col).crk@.len() == old(col).crk@.len(),
        is_run(final(col).crk@, final(col).run_lengths@, lo as int, h as int),
        final(col).crk_idx.has_key(x),
        final(col).crk_idx.pos_for(x) == lo as int,
        final(col).crk_idx.has_key((x + 1) as i64),
        final(col).crk_idx.pos_for((x + 1) as i64) == h as int,
{
    let ghost cf = *col;
    fuse_span(col, lo, h);
    proof {
        lemma_runs_shift(cf.crk@, cf.run_lengths@, col.crk@, col.run_lengths@, gl, lo as int, 0);
        lemma_runs_shift(cf.crk@, cf.run_lengths@, col.crk@, col.run_lengths@, h as int, gh1, 0);
        lemma_run_to_runs(col.crk@, col.run_lengths@, lo as int, h as int);
        lemma_runs_concat(col.crk@, col.run_lengths@, gl, lo as int, h as int);
        lemma_runs_concat(col.crk@, col.run_lengths@, gl, h as int, gh1);
        lemma_region_ok(c0, *col, gl, gh1);
        // the two new boundaries are valid splits at cuts
        lemma_runs_to_cut(col.crk@, col.run_lengths@, gl, lo as int);
        lemma_cut_concat(col.run_lengths@, 0, gl, lo as int);
        lemma_run_to_runs(col.crk@, col.run_lengths@, lo as int, h as int);
        lemma_cut_concat(col.run_lengths@, 0, lo as int, h as int);
        assert(key_split(col.crk@, x, lo as int));
        assert(key_split(col.crk@, (x + 1) as i64, h as int));
    }
    let ghost ci = *col;
    col.crk_idx.insert(x, lo);
    proof {
        assert(col.crk == ci.crk && col.run_lengths == ci.run_lengths);
        let pre = ci.crk_idx.entries@;
        let post = col.crk_idx.entries@;
        assert forall|i: int| 0 <= i < post.len() implies key_split(col.crk@, (
        #[trigger] post[i]).0, post[i].1 as int) && is_cut(col.run_lengths@, 0,
            post[i].1 as int) by {
            if post[i] == (x, lo) {
                assert(key_split(col.crk@, x, lo as int));
            } else {
                let j = choose|j: int| 0 <= j < pre.len() && pre[j] == post[i];
                assert(key_split(col.crk@, pre[j].0, pre[j].1 as int));
            }
        }
    }
    let ghost ci2 = *col;
    col.crk_idx.insert(x + 1, h);
    proof {
        assert(col.crk == ci2.crk && col.run_lengths == ci2.run_lengths);
        let pre = ci2.crk_idx.entries@;
        let post = col.crk_idx.entries@;
        assert forall|i: int| 0 <= i < post.len() implies key_split(col.crk@, (
        #[trigger] post[i]).0, post[i].1 as int) && is_cut(col.run_lengths@, 0,
            post[i].1 as int) by {
            if post[i] == ((x + 1) as i64, h) {
                assert(key_split(col.crk@, (x + 1) as i64, h as int));
            } else {
                let j = choose|j: int| 0 <= j < pre.len() && pre[j] == post[i];
                assert(key_split(col.crk@, pre[j].0, pre[j].1 as int));
            }
        }
        // surface the two recorded boundaries: the entry for the pivot
        // survives the insert of its successor, which is a different key
        let j1 = choose|j: int| 0 <= j < pre.len() && pre[j] == (x, lo);
        assert(pre[j1].0 != (x + 1) as i64);
        let i1 = choose|i: int| 0 <= i < post.len() && post[i] == pre[j1];
        col.crk_idx.lemma_pos_for(x, i1);
        let i2 = choose|i: int| 0 <= i < post.len() && post[i] == ((x + 1) as i64, h);
        col.crk_idx.lemma_pos_for((x + 1) as i64, i2);
    }
}

/// Equality selection with run-length cracking over the working array of a
/// cracked column.  The boundary index narrows the search interval, the
/// interval is tightened over whole runs, then three-way partitioned in
/// place around the pivot, and the two new boundaries are recorded.
/// Returns the half-open interval of working positions that hold the
/// pivot; afterwards those positions, and no others, hold it, as one
/// recorded run whose boundaries the index maps under the pivot and its
/// successor.  A pivot absent from the column yields an empty interval;
/// the scan still partitions the seeded interval around it.
#[verifier::rlimit(100)]
pub fn crack_select(col: &mut IntCol, x: i64, strategy: RunMergeStrategy) -> (r: (usize, usize))
    requires
        col_ok(*old(col)),
        x < i64::MAX,
    ensures
        col_ok(*final(col)),
        final(col).v == old(col).v,
        final(col).crk@.len() == old(col).crk@.len(),
        r.0 <= r.1 <= final(col).crk@.len(),
        forall|i: int| r.0 <= i < r.1 ==> final(col).crk@[i] == x,
        forall|i: int|
            0 <= i < final(col).crk@.len() && !(r.0 <= i < r.1) ==> final(col).crk@[i] != x,
        r.0 < r.1 ==> is_run(final(col).crk@, final(col).run_lengths@, r.0 as int, r.1 as int),
        r.0 < r.1 ==> final(col).crk_idx.has_key(x) && final(col).crk_idx.pos_for(x)
            == r.0 as int && final(col).crk_idx.has_key((x + 1) as i64) && final(
        col).crk_idx.pos_for((x + 1) as i64) == r.1 as int,
{
    let n = col.crk.len();
    let lb = col.crk_idx.lower_bound(x);
    let gl: usize = match lb {
        Some(p) => p,
        None => 0,
    };
    let ub = col.crk_idx.upper_bound(x + 1);
    let gh1: usize = match ub {
        Some(p) => p,
        None => n,
    };
    let ghost c0 = *col;
    proof {
        lemma_seed(c0, x, lb, ub, gl, gh1);
    }
    if gl >= gh1 {
        return (gl, gl);
    }
    let lo0 = tighten_low(col, gl, gh1, x);
    proof {
        lemma_runs_concat(col.crk@, col.run_lengths@, gl as int, lo0 as int, gh1 as int);
    }
    if lo0 == gh1 {
        proof {
            lemma_region_ok(c0, *col, gl as int, gh1 as int);
        }
        return (lo0, lo0);
    }
    let ghost ct = *col;
    let h0 = tighten_high(col, lo0, gh1, x);
    proof {
        // the low piece is untouched by the high tighten
        lemma_runs_shift(ct.crk@, ct.run_lengths@, col.crk@, col.run_lengths@, gl as int,
            lo0 as int, 0);
        assert(forall|i: int|
            0 <= i < col.crk@.len() && !(gl as int <= i < gh1 as int) ==> col.crk@[i] == c0.crk@[
                i] && col.base_idx@[i] == c0.base_idx@[i] && #[trigger] col.run_lengths@[i]
                == c0.run_lengths@[i]);
    }
    if h0 == lo0 + 1 {
        let hit = col.crk[lo0] == x;
        if hit {
            // a single matching slot still gets its boundaries recorded
            finalize_select(col, lo0, h0, x, Ghost(gl as int), Ghost(gh1 as int), Ghost(c0));
            return (lo0, h0);
        } else {
            proof {
                lemma_runs_concat(col.crk@, col.run_lengths@, gl as int, lo0 as int, h0 as int);
                lemma_runs_concat(col.crk@, col.run_lengths@, gl as int, h0 as int, gh1 as int);
                lemma_region_ok(c0, *col, gl as int, gh1 as int);
            }
            return (lo0, lo0);
        }
    }
    let mut lo = lo0;
    let mut h = h0;
    let mut itr = lo0;
    proof {
        assert(step_frame(c0, *col, gl as int, gh1 as int));
        assert(runs_between(col.crk@, col.run_lengths@, lo0 as int, lo0 as int));
    }
    while itr < h
        invariant
            col_ok(c0),
            x < i64::MAX,
            n as int == col.crk@.len(),
            gl <= lo <= itr <= h,
            h <= gh1 <= n,
            col.v == c0.v,
            col.crk_idx == c0.crk_idx,
            rows_ok(*col),
            col.crk@.len() == c0.crk@.len(),
            col.base_idx@.len() == c0.base_idx@.len(),
            col.run_lengths@.len() == c0.run_lengths@.len(),
            step_frame(c0, *col, gl as int, gh1 as int),
            keys_split_outside(*col, gl as int, gh1 as int),
            runs_between(col.crk@, col.run_lengths@, gl as int, lo as int),
            runs_between(col.crk@, col.run_lengths@, lo as int, itr as int),
            runs_between(col.crk@, col.run_lengths@, itr as int, h as int),
            runs_between(col.crk@, col.run_lengths@, h as int, gh1 as int),
            forall|i: int| gl as int <= i < lo as int ==> col.crk@[i] < x,
            forall|i: int| lo as int <= i < itr as int ==> col.crk@[i] == x,
            forall|i: int| h as int <= i < gh1 as int ==> col.crk@[i] > x,
            itr < h && h - lo > 1 ==> col.crk@[h - 1] <= x,
        decreases h - itr, (if itr < h && col.crk@[itr as int] > x {
            1int
        } else {
            0int
        }),
    {
        proof {
            lemma_runs_first(col.crk@, col.run_lengths@, itr as int, h as int);
        }
        let rl_itr = col.run_lengths[itr];
        let cv = col.crk[itr];
        if cv == x {
            proof {
                lemma_run_to_runs(col.crk@, col.run_lengths@, itr as int, (itr + rl_itr) as int);
                lemma_runs_concat(col.crk@, col.run_lengths@, lo as int, itr as int, (itr
                    + rl_itr) as int);
            }
            itr = itr + rl_itr;
        } else if cv < x {
            let ghost cp = *col;
            let st = scan_less(col, lo, itr, h, x, Ghost(gl as int), Ghost(gh1 as int));
            proof {
                lemma_frame_trans(c0, cp, *col, gl as int, gh1 as int);
            }
            lo = st.0;
            itr = st.1;
        } else {
            let ghost cp = *col;
            let h3 = scan_greater(col, lo, itr, h, x, strategy, Ghost(gl as int), Ghost(
                gh1 as int));
            proof {
                lemma_frame_trans(c0, cp, *col, gl as int, gh1 as int);
            }
            h = h3;
        }
    }
    if lo == h {
        proof {
            lemma_runs_concat(col.crk@, col.run_lengths@, gl as int, lo as int, h as int);
            lemma_runs_concat(col.crk@, col.run_lengths@, gl as int, h as int, gh1 as int);
            lemma_region_ok(c0, *col, gl as int, gh1 as int);
        }
        return (lo, lo);
    }
    proof {
        assert forall|i: int| 0 <= i < lo as int implies col.crk@[i] < x by {
            if i < gl as int {
                assert(col.crk@[i] == c0.crk@[i]);
            }
        }
        assert forall|i: int| h as int <= i < n as int implies col.crk@[i] > x by {
            if i >= gh1 as int {
                assert(col.crk@[i] == c0.crk@[i]);
            }
        }
    }
    finalize_select(col, lo, h, x, Ghost(gl as int), Ghost(gh1 as int), Ghost(c0));
    (lo, h)
}


} // verus!
