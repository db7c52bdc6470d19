//! The table layer: grid normalization, width filtering, key sorting, file
//! validation, and the error type.

use dpdcmpexcel::compares::{CmpData, SizeTable};
use dpdcmpexcel::deserializer::{deserialize_data_excel, validate, Cell, TypeTable};
use dpdcmpexcel::errors::DpdError;
use dpdcmpexcel::sorting::{max_row_width, SortVec};
use dpdcmpexcel::textops::{is_numeric, str_eq, str_lex_le};
use dpdcmpexcel::{run_without_ui, thick_row, Identic, LimitedVec, Targets};

fn rows(data: &[&[&str]]) -> Vec<Vec<String>> {
    data.iter().map(|r| r.iter().map(|c| c.to_string()).collect()).collect()
}

#[test]
fn cells_render_to_their_canonical_text() {
    let grid = vec![vec![
        Cell::Text("abc".to_string()),
        Cell::Int(42),
        Cell::Int(-7),
        Cell::Bool(true),
        Cell::Bool(false),
        Cell::Float("3.5".to_string()),
        Cell::DateTime("44927".to_string()),
        Cell::Error("#DIV/0!".to_string()),
    ]];
    let out = deserialize_data_excel(&grid);
    assert_eq!(
        out,
        rows(&[&["abc", "42", "-7", "true", "false", "3.5", "44927", "#DIV/0!"]])
    );
}

#[test]
fn empty_cells_contribute_no_token_and_empty_rows_are_dropped() {
    let grid = vec![
        vec![Cell::Text("a".to_string()), Cell::Empty, Cell::Text("b".to_string())],
        vec![Cell::Empty, Cell::Empty],
        vec![],
        vec![Cell::Int(5)],
    ];
    let out = deserialize_data_excel(&grid);
    assert_eq!(out, rows(&[&["a", "b"], &["5"]]));
}

#[test]
fn filter_keeps_exactly_the_rows_of_the_width() {
    let mut t = rows(&[&["a", "b", "c"], &["d"], &["e", "f", "g"], &["h", "i"]]);
    t.filter_col(3).unwrap();
    assert_eq!(t, rows(&[&["a", "b", "c"], &["e", "f", "g"]]));
    for row in &t {
        assert_eq!(row.len(), 3);
    }
}

#[test]
fn sort_is_case_insensitive() {
    let mut t = rows(&[&["B", "1"], &["a", "2"]]);
    t.sort_by_col(0).unwrap();
    assert_eq!(t, rows(&[&["a", "2"], &["B", "1"]]));
}

#[test]
fn sort_is_stable_for_equal_keys() {
    let mut t = rows(&[&["k", "first"], &["K", "second"], &["a", "third"]]);
    t.sort_by_col(0).unwrap();
    assert_eq!(t, rows(&[&["a", "third"], &["k", "first"], &["K", "second"]]));
}

#[test]
fn sorting_twice_gives_the_same_order() {
    let mut once = rows(&[&["b", "1"], &["A", "2"], &["c", "3"], &["a", "4"]]);
    once.sort_by_col(0).unwrap();
    let mut twice = once.clone();
    twice.sort_by_col(0).unwrap();
    assert_eq!(once, twice);
}

#[test]
fn sort_rejects_a_column_out_of_bounds() {
    let mut t = rows(&[&["a", "b"], &["c"]]);
    let before = t.clone();
    let err = t.sort_by_col(1).unwrap_err();
    assert!(matches!(err, DpdError::Validation(_)));
    assert_eq!(t, before);
}

#[test]
fn validate_accepts_spreadsheets_and_csv() {
    match validate("report.xlsx").unwrap() {
        TypeTable::Excel(p) => assert_eq!(p, "report.xlsx".to_string()),
        TypeTable::Csv(_) => panic!("xlsx classified as csv"),
    }
    assert!(matches!(validate("a.xlsm").unwrap(), TypeTable::Excel(_)));
    assert!(matches!(validate("a.xlsb").unwrap(), TypeTable::Excel(_)));
    assert!(matches!(validate("dir/a.xls").unwrap(), TypeTable::Excel(_)));
    match validate("dir/data.csv").unwrap() {
        TypeTable::Csv(p) => assert_eq!(p, "dir/data.csv".to_string()),
        TypeTable::Excel(_) => panic!("csv classified as excel"),
    }
    assert!(matches!(validate("archive.tar.xls").unwrap(), TypeTable::Excel(_)));
}

#[test]
fn validate_rejects_other_names() {
    assert!(matches!(validate("noext").unwrap_err(), DpdError::Validation(_)));
    assert!(matches!(validate("notes.txt").unwrap_err(), DpdError::Validation(_)));
    assert!(matches!(validate(".xls").unwrap_err(), DpdError::Validation(_)));
    assert!(matches!(validate("dir.xlsx/file").unwrap_err(), DpdError::Validation(_)));
    assert!(matches!(validate("file.").unwrap_err(), DpdError::Validation(_)));
}

#[test]
fn error_messages_name_their_kind() {
    assert_eq!(
        DpdError::Validation("bad input".to_string()).message(),
        "Validation error: bad input".to_string()
    );
    assert_eq!(
        DpdError::Processing("failed".to_string()).message(),
        "Processing error: failed".to_string()
    );
    assert_eq!(DpdError::Io("gone".to_string()).message(), "IO error: gone".to_string());
    assert_eq!(DpdError::Unknown.message(), "Unknown error".to_string());
}

#[test]
fn cmpdata_selects_only_known_sheets() {
    let mut data = CmpData::default();
    data.file = "book.xlsx".to_string();
    data.sheets = vec!["First".to_string(), "Second".to_string()];
    assert!(data.has_sheet("Second"));
    assert!(!data.has_sheet("Third"));

    let grid = vec![vec![Cell::Int(1), Cell::Text("x".to_string())]];
    let err = data
        .set_selected_data("Third", &grid, SizeTable { h: 1, w: 2 })
        .unwrap_err();
    assert!(matches!(err, DpdError::Validation(_)));
    assert!(data.selected_data.is_empty());

    data.set_selected_data("First", &grid, SizeTable { h: 1, w: 2 }).unwrap();
    assert_eq!(data.selected_data, rows(&[&["1", "x"]]));
    assert_eq!(data.size.h, 1);
    assert_eq!(data.size.w, 2);
}

#[test]
fn cmpdata_filter_sort_and_close() {
    let mut data = CmpData::default();
    data.selected_data = rows(&[&["b", "2"], &["a", "1"], &["only"]]);
    data.size = SizeTable { h: 3, w: 2 };
    data.filter(None).unwrap();
    assert!(data.is_filtered);
    assert_eq!(data.selected_data, rows(&[&["b", "2"], &["a", "1"]]));
    data.sort(Some(0)).unwrap();
    assert_eq!(data.selected_data, rows(&[&["a", "1"], &["b", "2"]]));
    data.close();
    assert!(data.selected_data.is_empty());
    assert!(data.sheets.is_empty());
    assert_eq!(data.file, String::new());
    assert_eq!(data.size.h, 0);
    assert!(!data.has_header);
    assert!(!data.is_filtered);
}

#[test]
fn size_table_comes_from_a_pair() {
    let s = SizeTable::from((4, 7));
    assert_eq!(s.h, 4);
    assert_eq!(s.w, 7);
    let d = SizeTable::default();
    assert_eq!(d.h, 0);
    assert_eq!(d.w, 0);
}

#[test]
fn identic_keeps_the_agreeing_cells() {
    let a: Vec<String> = vec!["x".to_string(), "y".to_string(), "z".to_string()];
    let b: Vec<String> = vec!["x".to_string(), "q".to_string(), "z".to_string(), "extra".to_string()];
    assert_eq!(a.get_identic(&b), vec!["x".to_string(), "z".to_string()]);
    let empty: Vec<String> = Vec::new();
    assert_eq!(empty.get_identic(&a), empty);
}

#[test]
fn text_helpers_behave() {
    assert!(str_eq("abc", "abc"));
    assert!(!str_eq("abc", "abd"));
    assert!(!str_eq("abc", "ab"));
    assert!(str_lex_le("abc", "abd"));
    assert!(str_lex_le("ab", "abc"));
    assert!(!str_lex_le("b", "abc"));
    assert!(str_lex_le("", "a"));
    assert!(is_numeric("0123456789"));
    assert!(!is_numeric(""));
    assert!(!is_numeric("12a"));
}

#[test]
fn run_without_ui_reports_a_processing_error() {
    let err = run_without_ui("a.xlsx".to_string(), "b.xlsx".to_string()).unwrap_err();
    match err {
        DpdError::Processing(m) => {
            assert_eq!(m, "todo! run_without_ui implementation a.xlsxb.xlsx".to_string())
        },
        _ => panic!("expected a processing error"),
    }
}

#[test]
fn max_row_width_finds_the_widest_row() {
    assert_eq!(max_row_width(&rows(&[&["a"], &["b", "c", "d"], &["e", "f"]])), 3);
    let empty: Vec<Vec<String>> = Vec::new();
    assert_eq!(max_row_width(&empty), 0);
}

#[test]
fn small_display_helpers() {
    assert!(thick_row(0));
    assert!(!thick_row(1));
    assert!(thick_row(12));
    let lv = LimitedVec(vec!["a".to_string()]);
    assert_eq!(lv.0.len(), 1);
    assert_eq!(Targets::default(), Targets::Source);
    assert!(Targets::Source != Targets::Target);
}
