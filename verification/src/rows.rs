//! Row indirection and result gathering.  The working array of a cracked
//! column is a permutation of the original values; the base-index array
//! records, for each working slot, the original row it came from.  A
//! selection gathers sibling-column values at those rows.

use vstd::prelude::*;
use vstd::multiset::Multiset;
use vstd::seq_lib::group_to_multiset_ensures;
use vstd::set_lib::lemma_len_subset;
use vstd::set_lib::lemma_int_range;
use vstd::set_lib::set_int_range;

verus! {

/// Every entry of `base` names a row below `n`.
pub open spec fn rows_in_bounds(base: Seq<usize>, n: int) -> bool {
    forall|i: int| 0 <= i < base.len() ==> (base[i] as int) < n
}

/// No row is named twice.
pub open spec fn rows_distinct(base: Seq<usize>) -> bool {
    forall|i: int, j: int| 0 <= i < j < base.len() ==> base[i] != base[j]
}

/// Each working slot holds the original value of the row it is mapped to.
pub open spec fn row_aligned(crk: Seq<i64>, v: Seq<i64>, base: Seq<usize>) -> bool {
    &&& base.len() == crk.len()
    &&& forall|i: int|
        0 <= i < crk.len() ==> (base[i] as int) < v.len() && crk[i] == v[base[i] as int]
}

/// The values of `col` at the given rows, in the given order.
pub open spec fn gather(col: Seq<i64>, rows: Seq<usize>) -> Seq<i64>
    decreases rows.len(),
{
    if rows.len() == 0 {
        Seq::empty()
    } else {
        gather(col, rows.drop_last()).push(col[rows.last() as int])
    }
}

/// The multiset of values of `cc` at the rows whose `vv` value equals `x`.
/// This is the reference answer of an equality selection: row `r` matches
/// when `vv[r] == x`, and contributes the sibling value `cc[r]`.
pub open spec fn eq_vals(vv: Seq<i64>, cc: Seq<i64>, x: i64) -> Multiset<i64>
    decreases vv.len(),
{
    if vv.len() == 0 {
        Multiset::empty()
    } else {
        let rest = eq_vals(vv.drop_last(), cc, x);
        if vv.last() == x {
            rest.insert(cc[vv.len() - 1])
        } else {
            rest
        }
    }
}

/// Gathered values correspond to rows pointwise.
pub proof fn lemma_gather_index(col: Seq<i64>, rows: Seq<usize>)
    ensures
        gather(col, rows).len() == rows.len(),
        forall|i: int|
            0 <= i < rows.len() ==> gather(col, rows)[i] == col[rows[i] as int],
    decreases rows.len(),
{
    if rows.len() > 0 {
        lemma_gather_index(col, rows.drop_last());
    }
}

/// Removing one named row removes exactly its value from the gathered multiset.
pub proof fn lemma_gather_remove(col: Seq<i64>, rows: Seq<usize>, k: int)
    requires
        0 <= k < rows.len(),
    ensures
        gather(col, rows).to_multiset() =~= gather(col, rows.remove(k)).to_multiset().insert(
            col[rows[k] as int],
        ),
    decreases rows.len(),
{
    broadcast use group_to_multiset_ensures;

    if k == rows.len() - 1 {
        assert(rows.remove(k) =~= rows.drop_last());
    } else {
        let rest = rows.drop_last();
        lemma_gather_remove(col, rest, k);
        assert(rows.remove(k).drop_last() =~= rest.remove(k));
        assert(rows.remove(k).last() == rows.last());
    }
}

/// A distinct family of rows below `n` with `n` members reaches every row.
pub proof fn lemma_rows_surjective(base: Seq<usize>, n: int, r: int)
    requires
        base.len() == n,
        rows_in_bounds(base, n),
        rows_distinct(base),
        0 <= r < n,
    ensures
        exists|i: int| 0 <= i < base.len() && (base[i] as int) == r,
{
    broadcast use vstd::set::group_set_axioms;

    let ints = base.map_values(|u: usize| u as int);
    assert forall|i: int, j: int| 0 <= i < ints.len() && 0 <= j < ints.len() && i != j
        implies ints[i] != ints[j] by {
        if i < j {
            assert(base[i] != base[j]);
        } else {
            assert(base[j] != base[i]);
        }
    }
    assert(ints.no_duplicates());
    ints.unique_seq_to_set();
    let s = ints.to_set();
    let t = set_int_range(0, n);
    lemma_int_range(0, n);
    assert forall|y: int| s.contains(y) implies t.contains(y) by {
        assert(ints.contains(y));
        let i = choose|i: int| 0 <= i < ints.len() && ints[i] == y;
        assert((base[i] as int) < n);
    }
    if !s.contains(r) {
        assert(s.subset_of(t.remove(r)));
        lemma_len_subset(s, t.remove(r));
        assert(t.remove(r).len() == n - 1);
        assert(false);
    }
    assert(ints.contains(r));
    let i = choose|i: int| 0 <= i < ints.len() && ints[i] == r;
    assert((base[i] as int) == r);
}

/// The gathered values of a distinct, complete family of matching rows are
/// exactly the reference answer of the equality selection.
pub proof fn lemma_gather_eq_vals(vv: Seq<i64>, cc: Seq<i64>, rows: Seq<usize>, x: i64)
    requires
        vv.len() <= cc.len(),
        rows_distinct(rows),
        forall|i: int|
            0 <= i < rows.len() ==> (rows[i] as int) < vv.len() && vv[rows[i] as int] == x,
        forall|r: int|
            0 <= r < vv.len() && vv[r] == x ==> exists|i: int|
                0 <= i < rows.len() && (rows[i] as int) == r,
    ensures
        gather(cc, rows).to_multiset() =~= eq_vals(vv, cc, x),
    decreases vv.len(),
{
    broadcast use group_to_multiset_ensures;

    let n = vv.len() as int;
    if n == 0 {
        if rows.len() > 0 {
            assert((rows[0] as int) < 0);
        }
        assert(rows.len() == 0);
    } else {
        let vv2 = vv.drop_last();
        if vv.last() == x {
            assert(vv[n - 1] == x);
            let k = choose|k: int| 0 <= k < rows.len() && (rows[k] as int) == n - 1;
            let rows2 = rows.remove(k);
            assert forall|i: int| 0 <= i < rows2.len() implies (rows2[i] as int) < vv2.len()
                && vv2[rows2[i] as int] == x by {
                let j: int = if i < k {
                    i
                } else {
                    i + 1
                };
                assert(rows2[i] == rows[j]);
                assert(rows[j] != rows[k]);
            }
            assert forall|r: int| 0 <= r < vv2.len() && vv2[r] == x implies exists|i: int|
                0 <= i < rows2.len() && (rows2[i] as int) == r by {
                assert(vv[r] == x);
                let j = choose|j: int| 0 <= j < rows.len() && (rows[j] as int) == r;
                assert(j != k);
                if j < k {
                    assert(0 <= j < rows2.len() && (rows2[j] as int) == r);
                } else {
                    assert(0 <= j - 1 < rows2.len() && (rows2[j - 1] as int) == r);
                }
            }
            lemma_gather_eq_vals(vv2, cc, rows2, x);
            lemma_gather_remove(cc, rows, k);
            assert(eq_vals(vv2, cc, x) =~= gather(cc, rows2).to_multiset());
        } else {
            assert forall|i: int| 0 <= i < rows.len() implies (rows[i] as int) < vv2.len()
                && vv2[rows[i] as int] == x by {
                assert(vv[rows[i] as int] == x);
                assert((rows[i] as int) != n - 1);
            }
            assert forall|r: int| 0 <= r < vv2.len() && vv2[r] == x implies exists|i: int|
                0 <= i < rows.len() && (rows[i] as int) == r by {
                assert(vv[r] == x);
            }
            lemma_gather_eq_vals(vv2, cc, rows, x);
        }
    }
}

/// Aligned working values over a distinct, complete row family carry the
/// same multiset as the original values.
pub proof fn lemma_aligned_multiset(crk: Seq<i64>, v: Seq<i64>, base: Seq<usize>)
    requires
        crk.len() == v.len(),
        base.len() == v.len(),
        rows_in_bounds(base, v.len() as int),
        rows_distinct(base),
        row_aligned(crk, v, base),
    ensures
        crk.to_multiset() =~= v.to_multiset(),
    decreases v.len(),
{
    broadcast use group_to_multiset_ensures;

    let n = v.len() as int;
    if n > 0 {
        lemma_rows_surjective(base, n, n - 1);
        let k = choose|k: int| 0 <= k < base.len() && (base[k] as int) == n - 1;
        let base2 = base.remove(k);
        let crk2 = crk.remove(k);
        let v2 = v.drop_last();
        assert forall|i: int| 0 <= i < base2.len() implies (base2[i] as int) < n - 1 by {
            let j: int = if i < k {
                i
            } else {
                i + 1
            };
            assert(base2[i] == base[j]);
            assert(base[j] != base[k]);
        }
        assert forall|i: int| 0 <= i < crk2.len() implies (base2[i] as int) < v2.len()
            && crk2[i] == v2[base2[i] as int] by {
            let j: int = if i < k {
                i
            } else {
                i + 1
            };
            assert(crk2[i] == crk[j] && base2[i] == base[j]);
            assert(crk[j] == v[base[j] as int]);
        }
        lemma_aligned_multiset(crk2, v2, base2);
        assert(crk.contains(crk[k]));
        assert(crk.to_multiset() =~= crk2.to_multiset().insert(crk[k]));
        assert(v =~= v2.push(v.last()));
        assert(v.to_multiset() =~= v2.to_multiset().insert(v.last()));
        assert((base[k] as int) < v.len() && crk[k] == v[base[k] as int]);
        assert(crk[k] == v[n - 1]);
    }
}

} // verus!
