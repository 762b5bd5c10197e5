// Scenario and property tests for the run-length cracking tables.

use rle_cracking::overswap_rle_compression;
use rle_cracking::overswap_rle_compression::OverswapRLETable;
use rle_cracking::underswap_rle_compression;
use rle_cracking::underswap_rle_compression::UnderswapRLETable;
use rle_cracking::column::Column;
use rle_cracking::column::IntCol;
use rle_cracking::cracker_index::CrackerIndex;
use rle_cracking::load_person_csv;
use rle_cracking::table::TableCore;
use rle_cracking::TableError;

fn sorted(mut v: Vec<i64>) -> Vec<i64> {
    v.sort();
    v
}

#[test]
fn select_adjacency_scenario_underswap() {
    // rows src=[1,2,1,3,2], dst=[10,20,30,40,50], cracked on src
    let src = vec![1, 2, 1, 3, 2];
    let dst = vec![10, 20, 30, 40, 50];
    let mut t = underswap_rle_compression::from_adjacency_vectors(src, dst, "src").unwrap();
    let r1 = t.cracker_select_specific(1, "dst").unwrap();
    assert_eq!(sorted(r1), vec![10, 30]);
    let r2 = t.cracker_select_specific(2, "dst").unwrap();
    assert_eq!(sorted(r2), vec![20, 50]);
    let r3 = t.cracker_select_specific(1, "dst").unwrap();
    assert_eq!(sorted(r3), vec![10, 30]);
}

#[test]
fn select_adjacency_scenario_overswap() {
    let src = vec![1, 2, 1, 3, 2];
    let dst = vec![10, 20, 30, 40, 50];
    let mut t = overswap_rle_compression::from_adjacency_vectors(src, dst, "src").unwrap();
    let r1 = t.cracker_select_specific(1, "dst").unwrap();
    assert_eq!(sorted(r1), vec![10, 30]);
    let r2 = t.cracker_select_specific(2, "dst").unwrap();
    assert_eq!(sorted(r2), vec![20, 50]);
    let r3 = t.cracker_select_specific(1, "dst").unwrap();
    assert_eq!(sorted(r3), vec![10, 30]);
}

#[test]
fn select_absent_value_returns_empty() {
    let src = vec![1, 2, 1, 3, 2];
    let dst = vec![10, 20, 30, 40, 50];
    let mut t = underswap_rle_compression::from_adjacency_vectors(src, dst, "src").unwrap();
    let r = t.cracker_select_specific(99, "dst").unwrap();
    assert!(r.is_empty());
    assert_eq!(t.core.count, 5);
    let mut o = overswap_rle_compression::from_adjacency_vectors(
        vec![1, 2, 1, 3, 2],
        vec![10, 20, 30, 40, 50],
        "src",
    )
    .unwrap();
    let r2 = o.cracker_select_specific(99, "dst").unwrap();
    assert!(r2.is_empty());
    assert_eq!(o.core.count, 5);
}

#[test]
fn insert_unequal_batches_fails_without_mutation() {
    let mut t = UnderswapRLETable::new();
    t.new_columns(vec!["src", "dst"]).unwrap();
    let bad = vec![
        ("src".to_string(), vec![1, 2]),
        ("dst".to_string(), vec![10, 20, 30]),
    ];
    assert_eq!(t.insert(&bad), Err(TableError::LengthMismatch));
    assert_eq!(t.core.count, 0);
    let good = vec![
        ("src".to_string(), vec![1, 2]),
        ("dst".to_string(), vec![10, 20]),
    ];
    t.insert(&good).unwrap();
    assert_eq!(t.core.count, 2);
}

#[test]
fn cross_variant_results_agree() {
    let src = vec![
        21, 27, 25, 16, 7, 18, 13, 17, 14, 5, 28, 17, 22, 10, 11, 17, 28, 28, 3, 15, 9, 21, 23,
        28, 12, 22, 28, 8, 10, 19, 4, 28, 1, 22, 21, 25, 25, 13, 21, 24, 16, 21, 28, 1, 5, 25, 25,
        30, 22, 26, 24, 29, 25, 6, 20, 25, 28, 2,
    ];
    let dst = vec![
        3, 25, 22, 10, 25, 1, 28, 14, 17, 29, 11, 1, 23, 16, 28, 24, 8, 30, 21, 10, 25, 25, 22,
        19, 28, 28, 12, 28, 15, 28, 21, 16, 18, 24, 4, 28, 26, 20, 2, 17, 28, 5, 22, 17, 21, 7, 6,
        28, 25, 25, 22, 5, 9, 25, 13, 21, 13, 21,
    ];
    let mut u =
        underswap_rle_compression::from_adjacency_vectors(src.clone(), dst.clone(), "src")
            .unwrap();
    let mut o =
        overswap_rle_compression::from_adjacency_vectors(src.clone(), dst.clone(), "src").unwrap();
    let queries = vec![10, 28, 25, 1, 17, 28, 10, 30, 99, 21, 22, 5, 25, 28, 16, 2, 13];
    for q in queries {
        let ru = u.cracker_select_specific(q, "dst").unwrap();
        let ro = o.cracker_select_specific(q, "dst").unwrap();
        assert_eq!(sorted(ru), sorted(ro), "results differ for query {}", q);
    }
}

#[test]
fn working_array_keeps_multiset_and_alignment() {
    let src = vec![5, 3, 5, 8, 1, 3, 5, 9, 2, 5];
    let dst = vec![0, 1, 2, 3, 4, 5, 6, 7, 8, 9];
    let mut t = underswap_rle_compression::from_adjacency_vectors(src.clone(), dst, "src").unwrap();
    for q in [5, 3, 9, 1, 4, 8] {
        t.cracker_select_specific(q, "dst").unwrap();
        // multiset preservation: the working copy is a permutation of the
        // original values
        let mut w = t.core.crk_col.crk.clone();
        let mut v = t.core.crk_col.v.clone();
        w.sort();
        v.sort();
        assert_eq!(w, v);
        // row alignment through the base index
        for i in 0..t.core.count {
            let row = t.core.crk_col.base_idx[i];
            assert_eq!(t.core.crk_col.crk[i], t.core.crk_col.v[row]);
        }
    }
}

#[test]
fn selected_pivot_forms_one_marked_run() {
    let src = vec![5, 3, 5, 8, 1, 3, 5, 9, 2, 5];
    let dst = vec![0, 1, 2, 3, 4, 5, 6, 7, 8, 9];
    let mut t = overswap_rle_compression::from_adjacency_vectors(src, dst, "src").unwrap();
    t.cracker_select_specific(5, "dst").unwrap();
    let crk = &t.core.crk_col.crk;
    let rls = &t.core.crk_col.run_lengths;
    let positions: Vec<usize> = (0..crk.len()).filter(|&i| crk[i] == 5).collect();
    assert_eq!(positions.len(), 4);
    let a = positions[0];
    let b = positions[positions.len() - 1];
    // contiguous span, with the run length recorded at both ends
    assert_eq!(b - a + 1, positions.len());
    assert_eq!(rls[a], positions.len());
    assert_eq!(rls[b], positions.len());
}

#[test]
fn boundary_index_splits_working_array() {
    let src = vec![7, 1, 7, 3, 9, 1, 4, 7, 2, 6];
    let dst = vec![0; 10];
    let mut t = underswap_rle_compression::from_adjacency_vectors(src, dst, "src").unwrap();
    for q in [7, 3, 1, 9] {
        t.cracker_select_specific(q, "dst").unwrap();
        for e in t.core.crk_col.crk_idx.entries.iter() {
            let (k, p) = *e;
            for i in 0..p {
                assert!(t.core.crk_col.crk[i] < k);
            }
            for i in p..t.core.count {
                assert!(t.core.crk_col.crk[i] >= k);
            }
        }
    }
}

#[test]
fn count_col_eq_counts_exactly() {
    let src = vec![4, 4, 2, 4, 1];
    let dst = vec![9, 9, 9, 8, 8];
    let t = underswap_rle_compression::from_adjacency_vectors(src, dst, "src").unwrap();
    assert_eq!(t.count_col_eq("src", 4), Ok(3));
    assert_eq!(t.count_col_eq("dst", 9), Ok(3));
    assert_eq!(t.count_col_eq("dst", 7), Ok(0));
    assert_eq!(t.count_col_eq("nope", 1), Err(TableError::NoSuchColumn));
}

#[test]
fn get_values_gathers_rows_in_order() {
    let src = vec![4, 4, 2, 4, 1];
    let dst = vec![9, 7, 5, 8, 6];
    let t = underswap_rle_compression::from_adjacency_vectors(src, dst, "src").unwrap();
    let vals = t.get_values(&vec![4, 2, 0], "dst").unwrap();
    assert_eq!(vals, vec![6, 5, 9]);
    assert_eq!(
        t.get_values(&vec![5], "dst"),
        Err(TableError::IndexOutOfBounds)
    );
    assert_eq!(
        t.get_values(&vec![0], "other"),
        Err(TableError::NoSuchColumn)
    );
}

#[test]
fn get_indices_builds_sub_table() {
    let src = vec![4, 4, 2, 4, 1];
    let dst = vec![9, 7, 5, 8, 6];
    let t = underswap_rle_compression::from_adjacency_vectors(src, dst, "src").unwrap();
    let sub = t.get_indices(&vec![1, 3]).unwrap();
    assert_eq!(sub.core.count, 2);
    let col = sub.get_col("dst").unwrap();
    assert_eq!(col.v, vec![7, 8]);
    let col2 = sub.get_col("src").unwrap();
    assert_eq!(col2.v, vec![4, 4]);
}

#[test]
fn rearrange_reorders_and_clears_cracked_state() {
    let src = vec![4, 4, 2, 4, 1];
    let dst = vec![9, 7, 5, 8, 6];
    let mut t = underswap_rle_compression::from_adjacency_vectors(src, dst, "src").unwrap();
    t.cracker_select_specific(4, "dst").unwrap();
    t.rearrange(&vec![4, 3, 2, 1, 0]).unwrap();
    let col = t.get_col("dst").unwrap();
    assert_eq!(col.v, vec![6, 8, 5, 7, 9]);
    assert!(t.core.crk_col.crk.is_empty());
    // not a permutation: rejected without change
    assert_eq!(
        t.rearrange(&vec![0, 0, 1, 2, 3]),
        Err(TableError::NotAPermutation)
    );
    assert_eq!(t.get_col("dst").unwrap().v, vec![6, 8, 5, 7, 9]);
    // after a reorder the cracked column can be designated afresh
    t.set_crk_col("src").unwrap();
    let r = t.cracker_select_specific(4, "dst").unwrap();
    assert_eq!(sorted(r), vec![7, 8, 9]);
}

#[test]
fn error_paths_are_explicit() {
    let mut t = UnderswapRLETable::new();
    t.new_columns(vec!["src", "dst"]).unwrap();
    assert_eq!(
        t.new_columns(vec!["src"]),
        Err(TableError::DuplicateColumn)
    );
    assert_eq!(
        t.new_columns(vec!["a", "a"]),
        Err(TableError::DuplicateColumn)
    );
    assert_eq!(t.set_crk_col("missing"), Err(TableError::NoSuchColumn));
    let batch = vec![
        ("src".to_string(), vec![1]),
        ("dst".to_string(), vec![2]),
    ];
    t.insert(&batch).unwrap();
    assert_eq!(t.new_columns(vec!["late"]), Err(TableError::ColumnAfterInsert));
    // selecting before designation is an explicit error
    let mut t2 = UnderswapRLETable::new();
    t2.new_columns(vec!["src", "dst"]).unwrap();
    t2.insert(&batch).unwrap();
    assert_eq!(
        t2.cracker_select_specific(1, "dst"),
        Err(TableError::NotCracked)
    );
    t2.set_crk_col("src").unwrap();
    assert_eq!(t2.set_crk_col("src"), Err(TableError::AlreadyCracked));
    // a batch that misses a column is rejected
    let mut t3 = OverswapRLETable::new();
    t3.new_columns(vec!["src", "dst"]).unwrap();
    let missing = vec![("src".to_string(), vec![1])];
    assert_eq!(t3.insert(&missing), Err(TableError::LengthMismatch));
}

#[test]
fn adjacency_builder_checks_inputs() {
    assert!(matches!(
        underswap_rle_compression::from_adjacency_vectors(vec![1], vec![1, 2], "src"),
        Err(TableError::LengthMismatch)
    ));
    assert!(matches!(
        overswap_rle_compression::from_adjacency_vectors(vec![1], vec![2], "zzz"),
        Err(TableError::NoSuchColumn)
    ));
}

#[test]
fn empty_table_selects_nothing() {
    let mut t =
        underswap_rle_compression::from_adjacency_vectors(Vec::new(), Vec::new(), "src").unwrap();
    let r = t.cracker_select_specific(7, "dst").unwrap();
    assert!(r.is_empty());
    assert_eq!(t.core.count, 0);
}

#[test]
fn duplicate_heavy_column_cracks_correctly() {
    // every value equal: one query isolates the whole array as one run
    let src = vec![6; 12];
    let dst: Vec<i64> = (0..12).collect();
    let mut t = underswap_rle_compression::from_adjacency_vectors(src, dst, "src").unwrap();
    let r = t.cracker_select_specific(6, "dst").unwrap();
    assert_eq!(sorted(r), (0..12).collect::<Vec<i64>>());
    let none = t.cracker_select_specific(5, "dst").unwrap();
    assert!(none.is_empty());
}

#[test]
fn cracker_index_bounds() {
    let mut idx = CrackerIndex::new();
    assert_eq!(idx.lower_bound(5), None);
    assert_eq!(idx.upper_bound(5), None);
    idx.insert(3, 10);
    idx.insert(8, 40);
    idx.insert(5, 20);
    assert_eq!(idx.lower_bound(4), Some(10));
    assert_eq!(idx.lower_bound(5), Some(20));
    assert_eq!(idx.lower_bound(2), None);
    assert_eq!(idx.upper_bound(6), Some(40));
    assert_eq!(idx.upper_bound(5), Some(20));
    assert_eq!(idx.upper_bound(9), None);
    idx.insert(5, 25);
    assert_eq!(idx.lower_bound(5), Some(25));
}

#[test]
fn select_records_pivot_boundaries() {
    // after a selection, the index maps the pivot to the run's start and
    // its successor to the slot past the run's end — also when only a
    // single slot matches
    let src = vec![9, 4, 7, 4, 2];
    let dst = vec![0, 1, 2, 3, 4];
    let mut t = underswap_rle_compression::from_adjacency_vectors(src, dst, "src").unwrap();
    let r = t.cracker_select_specific(4, "dst").unwrap();
    assert_eq!(r.len(), 2);
    let lo = *t
        .core
        .crk_col
        .crk_idx
        .entries
        .iter()
        .find(|e| e.0 == 4)
        .map(|e| &e.1)
        .unwrap();
    let hi = *t
        .core
        .crk_col
        .crk_idx
        .entries
        .iter()
        .find(|e| e.0 == 5)
        .map(|e| &e.1)
        .unwrap();
    assert_eq!(hi - lo, 2);
    assert!(t.core.crk_col.crk[lo..hi].iter().all(|&v| v == 4));
    let single = t.cracker_select_specific(7, "dst").unwrap();
    assert_eq!(single, vec![2]);
    let lo7 = *t
        .core
        .crk_col
        .crk_idx
        .entries
        .iter()
        .find(|e| e.0 == 7)
        .map(|e| &e.1)
        .unwrap();
    let hi7 = *t
        .core
        .crk_col
        .crk_idx
        .entries
        .iter()
        .find(|e| e.0 == 8)
        .map(|e| &e.1)
        .unwrap();
    assert_eq!(hi7 - lo7, 1);
    assert_eq!(t.core.crk_col.crk[lo7], 7);
}

#[test]
fn swap_range_swaps_all_three_arrays() {
    let mut c = IntCol {
        v: vec![0, 1, 2, 3, 4, 5],
        crk: vec![0, 1, 2, 3, 4, 5],
        crk_idx: CrackerIndex::new(),
        base_idx: vec![0, 1, 2, 3, 4, 5],
        run_lengths: vec![1, 1, 1, 1, 1, 1],
    };
    c.run_lengths = vec![9, 8, 7, 6, 5, 4];
    c.swap_range(2, 0, 4);
    assert_eq!(c.crk, vec![4, 5, 2, 3, 0, 1]);
    assert_eq!(c.base_idx, vec![4, 5, 2, 3, 0, 1]);
    assert_eq!(c.run_lengths, vec![5, 4, 7, 6, 9, 8]);
    assert_eq!(c.v, vec![0, 1, 2, 3, 4, 5]);
    // the higher range may also come first
    c.swap_range(2, 4, 0);
    assert_eq!(c.crk, vec![0, 1, 2, 3, 4, 5]);
}

#[test]
fn column_trait_round_trip() {
    let mut c: IntCol = Column::empty();
    let mut vals = vec![3, 1, 4];
    c.append(&mut vals);
    assert!(vals.is_empty());
    c.rearrange(&vec![2, 0, 1]);
    assert_eq!(c.v, vec![4, 3, 1]);
    assert_eq!(c.at(0), 4);
}

#[test]
fn data_paths_are_assembled() {
    let root = load_person_csv::social_network_sf1();
    assert_eq!(
        load_person_csv::nodes(root),
        format!("{}{}", root, "/person_0_0.csv")
    );
    assert_eq!(
        load_person_csv::edges(root),
        format!("{}{}", root, "/person_knows_person_0_0.csv")
    );
    assert!(load_person_csv::social_network_sf10().ends_with("sf10"));
}

#[test]
fn table_core_builds_directly() {
    let mut t = TableCore::new();
    t.new_columns(vec!["k", "v"]).unwrap();
    let batch = vec![
        ("k".to_string(), vec![2, 2, 1]),
        ("v".to_string(), vec![7, 8, 9]),
    ];
    t.insert(&batch).unwrap();
    t.set_crk_col("k").unwrap();
    let r = t
        .cracker_select_specific(2, "v", rle_cracking::engine::RunMergeStrategy::Underswap)
        .unwrap();
    assert_eq!(sorted(r), vec![7, 8]);
}
