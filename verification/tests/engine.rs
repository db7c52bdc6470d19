//! The comparison pipeline end to end: alignment, change resolution, and
//! aggregation of the records by side.

use dpdcmpexcel::compares::{ChangeTag, CmpRslt, Comparison};
use dpdcmpexcel::diffops::Algorithm;
use dpdcmpexcel::sorting::SortVec;

fn rows(data: &[&[&str]]) -> Vec<Vec<String>> {
    data.iter().map(|r| r.iter().map(|c| c.to_string()).collect()).collect()
}

fn run_tables(
    alg: Algorithm,
    src: &Vec<Vec<String>>,
    tgt: &Vec<Vec<String>>,
    ignore_num: bool,
) -> (Vec<CmpRslt>, Vec<CmpRslt>) {
    Comparison::run(alg, src, tgt, "Sheet1", "src.xlsx", "tgt.xlsx", ignore_num)
        .unwrap()
        .get_data()
}

#[test]
fn one_changed_row_yields_one_delete_and_one_insert() {
    let src = rows(&[&["1", "Alice", "30"], &["2", "Bob", "25"]]);
    let tgt = rows(&[&["1", "Alice", "30"], &["2", "Bob", "26"]]);
    let (removed, added) = run_tables(Algorithm::Myers, &src, &tgt, false);

    assert_eq!(removed.len(), 1);
    assert!(removed[0].issrc);
    assert_eq!(removed[0].tag, ChangeTag::Delete);
    assert_eq!(removed[0].index, 1);
    assert_eq!(removed[0].data, vec!["Bob".to_string(), "25".to_string()]);
    assert_eq!(removed[0].file, "src.xlsx".to_string());
    assert_eq!(removed[0].sheet, "Sheet1".to_string());

    assert_eq!(added.len(), 1);
    assert!(!added[0].issrc);
    assert_eq!(added[0].tag, ChangeTag::Insert);
    assert_eq!(added[0].index, 1);
    assert_eq!(added[0].data, vec!["Bob".to_string(), "26".to_string()]);
    assert_eq!(added[0].file, "tgt.xlsx".to_string());
}

#[test]
fn comparing_a_table_with_itself_yields_no_records() {
    let table = rows(&[&["1", "Alice", "30"], &["2", "Bob", "25"], &["3", "Eve", "41"]]);
    for alg in [Algorithm::Myers, Algorithm::Patience, Algorithm::Lcs] {
        let (removed, added) = run_tables(alg, &table, &table, false);
        assert!(removed.is_empty());
        assert!(added.is_empty());
    }
}

#[test]
fn key_sorted_tables_in_different_order_are_equal() {
    let mut a = rows(&[&["2", "Bob", "25"], &["1", "Alice", "30"]]);
    let mut b = rows(&[&["1", "Alice", "30"], &["2", "Bob", "25"]]);
    a.sort_by_col(0).unwrap();
    b.sort_by_col(0).unwrap();
    let (removed, added) = run_tables(Algorithm::Myers, &a, &b, false);
    assert!(removed.is_empty());
    assert!(added.is_empty());
}

#[test]
fn width_filtered_row_never_reaches_a_record() {
    let mut a = rows(&[&["1", "a", "b"], &["2", "x"], &["3", "c", "d"]]);
    let b = rows(&[&["1", "a", "b"], &["3", "c", "d"]]);
    a.filter_col(3).unwrap();
    assert_eq!(a, b);
    let (removed, added) = run_tables(Algorithm::Myers, &a, &b, false);
    assert!(removed.is_empty());
    assert!(added.is_empty());
}

#[test]
fn swapping_the_inputs_swaps_the_two_groups() {
    let a = rows(&[&["1", "Alice", "30"], &["2", "Bob", "25"]]);
    let b = rows(&[&["1", "Alice", "30"], &["2", "Bob", "26"]]);
    let (removed_ab, added_ab) = run_tables(Algorithm::Myers, &a, &b, false);
    let (removed_ba, added_ba) = run_tables(Algorithm::Myers, &b, &a, false);
    assert_eq!(removed_ab.len(), added_ba.len());
    assert_eq!(added_ab.len(), removed_ba.len());
    for (r, s) in removed_ab.iter().zip(added_ba.iter()) {
        assert_eq!(r.data, s.data);
        assert_eq!(r.index, s.index);
        assert!(r.issrc && !s.issrc);
    }
    for (r, s) in added_ab.iter().zip(removed_ba.iter()) {
        assert_eq!(r.data, s.data);
        assert_eq!(r.index, s.index);
        assert!(!r.issrc && s.issrc);
    }
}

#[test]
fn ignore_numbering_hides_a_renumbered_column() {
    let a = rows(&[&["1", "10", "Alice"], &["2", "11", "Bob"]]);
    let b = rows(&[&["1", "20", "Alice"], &["2", "21", "Bob"]]);
    let (removed, added) = run_tables(Algorithm::Myers, &a, &b, true);
    assert!(removed.is_empty());
    assert!(added.is_empty());
    let (removed2, added2) = run_tables(Algorithm::Myers, &a, &b, false);
    assert!(!removed2.is_empty());
    assert!(!added2.is_empty());
}

#[test]
fn ignore_numbering_keeps_non_numeric_tokens() {
    let a = rows(&[&["1", "x10", "Alice"]]);
    let b = rows(&[&["1", "x20", "Alice"]]);
    let (removed, added) = run_tables(Algorithm::Myers, &a, &b, true);
    assert_eq!(removed.len(), 1);
    assert_eq!(added.len(), 1);
    assert_eq!(removed[0].data, vec!["x10".to_string(), "Alice".to_string()]);
}

#[test]
fn inserted_rows_are_attributed_to_the_target() {
    let a = rows(&[&["1", "Alice"]]);
    let b = rows(&[&["1", "Alice"], &["2", "Bob"], &["3", "Eve"]]);
    let (removed, added) = run_tables(Algorithm::Myers, &a, &b, false);
    assert!(removed.is_empty());
    assert_eq!(added.len(), 2);
    assert_eq!(added[0].index, 1);
    assert_eq!(added[0].data, vec!["Bob".to_string()]);
    assert_eq!(added[1].index, 2);
    assert_eq!(added[1].data, vec!["Eve".to_string()]);
    for rec in &added {
        assert!(!rec.issrc);
        assert_eq!(rec.tag, ChangeTag::Insert);
    }
}

#[test]
fn duplicate_rows_keep_their_own_side() {
    // two equal rows on both sides plus one extra: provenance must come
    // from the opcode side, not from value lookup
    let a = rows(&[&["1", "same"], &["2", "same"], &["3", "same"]]);
    let b = rows(&[&["1", "same"], &["2", "same"]]);
    let (removed, added) = run_tables(Algorithm::Myers, &a, &b, false);
    assert!(added.is_empty());
    assert_eq!(removed.len(), 1);
    assert!(removed[0].issrc);
    assert_eq!(removed[0].file, "src.xlsx".to_string());
}

#[test]
fn get_data_partitions_without_reordering() {
    let mk = |issrc: bool, index: usize, cell: &str| CmpRslt {
        issrc,
        tag: if issrc { ChangeTag::Delete } else { ChangeTag::Insert },
        index,
        file: "f".to_string(),
        sheet: "s".to_string(),
        data: vec![cell.to_string()],
    };
    let comp = Comparison(vec![
        mk(false, 0, "a"),
        mk(true, 1, "b"),
        mk(false, 2, "c"),
        mk(true, 3, "d"),
    ]);
    let (removed, added) = comp.get_data();
    let removed_cells: Vec<String> = removed.iter().map(|r| r.data[0].clone()).collect();
    let added_cells: Vec<String> = added.iter().map(|r| r.data[0].clone()).collect();
    assert_eq!(removed_cells, vec!["b".to_string(), "d".to_string()]);
    assert_eq!(added_cells, vec!["a".to_string(), "c".to_string()]);
    assert_eq!(removed[0].index, 1);
    assert_eq!(added[0].index, 0);
}

#[test]
fn algorithm_selection_by_index() {
    assert_eq!(Algorithm::from_index(0).unwrap(), Algorithm::Myers);
    assert_eq!(Algorithm::from_index(1).unwrap(), Algorithm::Patience);
    assert_eq!(Algorithm::from_index(2).unwrap(), Algorithm::Lcs);
    assert!(Algorithm::from_index(3).is_err());
    assert!(Algorithm::from_index(99).is_err());
}

#[test]
fn default_comparison_is_empty() {
    let comp = Comparison::default();
    assert!(comp.0.is_empty());
    let rec = CmpRslt::default();
    assert!(!rec.issrc);
    assert_eq!(rec.tag, ChangeTag::Delete);
    assert_eq!(rec.index, 0);
    assert!(rec.data.is_empty());
}
