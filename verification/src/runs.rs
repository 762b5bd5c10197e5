//! Run-length segmentation: the working array of a cracked column is kept
//! covered by a chain of recorded runs.  A recorded run is a span of equal
//! values whose length is stored in the run-length array at both ends of
//! the span; interior positions of a run carry no meaning.  All partition
//! steps of the engine preserve this coverage.

use vstd::prelude::*;

verus! {

/// Positions `s..e` hold one repeated value and the run-length markers at
/// both ends of the span record its length.
pub open spec fn is_run(crk: Seq<i64>, rl: Seq<usize>, s: int, e: int) -> bool {
    &&& 0 <= s < e <= crk.len()
    &&& rl.len() == crk.len()
    &&& rl[s] as int == e - s
    &&& rl[e - 1] as int == e - s
    &&& forall|j: int| s <= j < e ==> crk[j] == crk[s]
}

/// The span `a..b` is exactly covered by a chain of recorded runs, each
/// starting where the previous one ended.
pub open spec fn runs_between(crk: Seq<i64>, rl: Seq<usize>, a: int, b: int) -> bool
    decreases b - a,
{
    if a >= b {
        a == b
    } else if a < 0 || rl.len() != crk.len() || a >= rl.len() || rl[a] < 1 || a + rl[a] > b {
        false
    } else {
        is_run(crk, rl, a, a + rl[a]) && runs_between(crk, rl, a + rl[a], b)
    }
}

/// Position `p` lies on the chain of run starts that begins at `a`.
pub open spec fn is_cut(rl: Seq<usize>, a: int, p: int) -> bool
    decreases p - a,
{
    if a >= p {
        a == p
    } else if a < 0 || a >= rl.len() || rl[a] < 1 || a + rl[a] > p {
        false
    } else {
        is_cut(rl, a + rl[a], p)
    }
}

/// A single recorded run is a chain of one run.
pub proof fn lemma_run_to_runs(crk: Seq<i64>, rl: Seq<usize>, s: int, e: int)
    requires
        is_run(crk, rl, s, e),
    ensures
        runs_between(crk, rl, s, e),
        is_cut(rl, s, e),
{
    assert(runs_between(crk, rl, e, e));
    assert(is_cut(rl, e, e));
}

/// An array whose run-length markers are all one is covered by runs of
/// one slot each: the freshly initialized state of a cracked column.
pub proof fn lemma_runs_singletons(crk: Seq<i64>, rl: Seq<usize>, a: int, b: int)
    requires
        rl.len() == crk.len(),
        0 <= a <= b <= crk.len(),
        forall|i: int| a <= i < b ==> rl[i] == 1,
    ensures
        runs_between(crk, rl, a, b),
    decreases b - a,
{
    if a < b {
        lemma_runs_singletons(crk, rl, a + 1, b);
        assert(is_run(crk, rl, a, a + 1));
    }
}

/// Chains of runs concatenate.
pub proof fn lemma_runs_concat(crk: Seq<i64>, rl: Seq<usize>, a: int, m: int, b: int)
    requires
        runs_between(crk, rl, a, m),
        runs_between(crk, rl, m, b),
    ensures
        runs_between(crk, rl, a, b),
    decreases m - a,
{
    if a < m {
        lemma_runs_concat(crk, rl, a + rl[a], m, b);
    }
}

/// A chain of runs is unaffected by changes outside its span, and moves
/// intact when its span is copied by a fixed offset.
pub proof fn lemma_runs_shift(
    crk1: Seq<i64>,
    rl1: Seq<usize>,
    crk2: Seq<i64>,
    rl2: Seq<usize>,
    a: int,
    b: int,
    d: int,
)
    requires
        runs_between(crk1, rl1, a, b),
        crk2.len() == rl2.len(),
        0 <= a + d,
        b + d <= crk2.len(),
        forall|i: int| a + d <= i < b + d ==> crk2[i] == crk1[i - d] && rl2[i] == rl1[i - d],
    ensures
        runs_between(crk2, rl2, a + d, b + d),
    decreases b - a,
{
    if a < b {
        lemma_runs_shift(crk1, rl1, crk2, rl2, a + rl1[a], b, d);
        let e2 = a + d + rl2[a + d];
        assert(rl2[a + d] == rl1[a]);
        assert(rl2[e2 - 1] == rl1[e2 - 1 - d]);
        assert forall|j: int| a + d <= j < e2 implies #[trigger] crk2[j] == crk2[a + d] by {
            assert(crk2[j] == crk1[j - d]);
        }
        assert(is_run(crk2, rl2, a + d, e2));
    }
}

/// The ends of a chain of runs are linked by the cut relation.
pub proof fn lemma_runs_to_cut(crk: Seq<i64>, rl: Seq<usize>, a: int, b: int)
    requires
        runs_between(crk, rl, a, b),
    ensures
        is_cut(rl, a, b),
    decreases b - a,
{
    if a < b {
        lemma_runs_to_cut(crk, rl, a + rl[a], b);
    }
}

/// Cuts concatenate.
pub proof fn lemma_cut_concat(rl: Seq<usize>, a: int, m: int, b: int)
    requires
        is_cut(rl, a, m),
        is_cut(rl, m, b),
    ensures
        is_cut(rl, a, b),
    decreases m - a,
{
    if a < m {
        lemma_cut_concat(rl, a + rl[a], m, b);
    }
}

/// A cut is unaffected by changes outside the span it crosses.
pub proof fn lemma_cut_frame(rl1: Seq<usize>, rl2: Seq<usize>, a: int, p: int)
    requires
        is_cut(rl1, a, p),
        p <= rl2.len(),
        forall|i: int| a <= i < p ==> rl2[i] == rl1[i],
    ensures
        is_cut(rl2, a, p),
    decreases p - a,
{
    if a < p {
        lemma_cut_frame(rl1, rl2, a + rl1[a], p);
    }
}

/// Two cuts reached from the same start are themselves linked.
pub proof fn lemma_cut_between(rl: Seq<usize>, a: int, p: int, q: int)
    requires
        is_cut(rl, a, p),
        is_cut(rl, a, q),
        p <= q,
    ensures
        is_cut(rl, p, q),
    decreases p - a,
{
    if a < p {
        lemma_cut_between(rl, a + rl[a], p, q);
    }
}

/// A chain of runs splits at any cut that lies within it.
pub proof fn lemma_runs_cut_split(crk: Seq<i64>, rl: Seq<usize>, a: int, p: int, b: int)
    requires
        runs_between(crk, rl, a, b),
        is_cut(rl, a, p),
        p <= b,
    ensures
        runs_between(crk, rl, a, p),
        runs_between(crk, rl, p, b),
    decreases p - a,
{
    if a < p {
        lemma_runs_cut_split(crk, rl, a + rl[a], p, b);
    }
}

/// A nonempty chain of runs ends in a run whose start is given by the
/// run-length marker at the last position of the span.
pub proof fn lemma_runs_last(crk: Seq<i64>, rl: Seq<usize>, a: int, b: int)
    requires
        runs_between(crk, rl, a, b),
        a < b,
    ensures
        1 <= rl[b - 1] as int <= b - a,
        is_run(crk, rl, b - rl[b - 1], b),
        runs_between(crk, rl, a, b - rl[b - 1]),
        is_cut(rl, a, b - rl[b - 1]),
    decreases b - a,
{
    let m = a + rl[a];
    if m == b {
        assert(runs_between(crk, rl, a, a));
        lemma_runs_to_cut(crk, rl, a, a);
    } else {
        lemma_runs_last(crk, rl, m, b);
        let s = b - rl[b - 1];
        assert(runs_between(crk, rl, m, s));
        assert(runs_between(crk, rl, a, s)) by {
            assert(runs_between(crk, rl, a, m)) by {
                assert(is_run(crk, rl, a, m));
                assert(runs_between(crk, rl, m, m));
            }
            lemma_runs_concat(crk, rl, a, m, s);
        }
        lemma_runs_to_cut(crk, rl, a, s);
    }
}

/// Every position within a chain of runs is covered by a run of the chain:
/// the value there is repeated across a whole recorded run.  Used to relate
/// a position inspected by the engine to the run that contains it.
pub proof fn lemma_runs_first(crk: Seq<i64>, rl: Seq<usize>, a: int, b: int)
    requires
        runs_between(crk, rl, a, b),
        a < b,
    ensures
        1 <= rl[a] as int <= b - a,
        is_run(crk, rl, a, a + rl[a]),
        runs_between(crk, rl, a + rl[a], b),
        is_cut(rl, a, a + rl[a]),
{
    let m = a + rl[a];
    assert(is_cut(rl, m, m));
}

} // verus!
