use dinosaur::format::Format;
use dinosaur::search::Direction;
use dinosaur::selection::{CellInput, CellSel, SelectionState};
use dinosaur::table::TableModel;
use dinosaur::viewer::{goto_target, next_top_row, parse_row_number, rows_to_draw, Finder, NavKeys};
use std::sync::atomic::AtomicU64;

const CSV: &[u8] = b"id,name\n1,apple\n2,Banana\n3,cherry\n4,banana split\n";

fn model(data: &[u8], format: Format) -> TableModel {
    TableModel::with_format(data, format, &AtomicU64::new(0))
}

#[test]
fn model_reads_headers_and_rows() {
    let mut m = model(CSV, Format::Csv);
    assert_eq!(m.headers().clone(), vec!["Column 1".to_string(), "Column 2".to_string()]);
    assert_eq!(m.first_data_line(), 0);
    assert_eq!(m.data_rows(CSV), 5);
    assert_eq!(m.row(CSV, 2), vec!["2".to_string(), "Banana".to_string()]);
    // A second read comes from the cache and is the same.
    assert_eq!(m.row(CSV, 2), vec!["2".to_string(), "Banana".to_string()]);
    assert_eq!(m.row(CSV, 99), vec!["".to_string()]);
}

#[test]
fn cache_is_transparent_past_its_limit() {
    let mut data = Vec::new();
    for i in 0..5000 {
        data.extend_from_slice(format!("{i}\n").as_bytes());
    }
    let mut m = model(&data, Format::Txt);
    for r in 0..5000u64 {
        assert_eq!(m.row(&data, r), vec![r.to_string()]);
    }
    assert_eq!(m.row(&data, 17), vec!["17".to_string()]);
}

#[test]
fn load_picks_the_format_from_the_path() {
    let m = TableModel::load(b"{\"k\":1}\n", "rows.jsonl", &AtomicU64::new(0));
    assert_eq!(m.format(), Format::Ndjson);
    assert_eq!(m.headers().clone(), vec!["k".to_string()]);
    let m = TableModel::load(b"", "empty.csv", &AtomicU64::new(0));
    assert_eq!(m.data_rows(b""), 0);
}

#[test]
fn search_forward_and_wrap() {
    let m = model(CSV, Format::Csv);
    assert_eq!(m.search_rows(CSV, b"banana", None, Direction::Forward, true), Some((2, false)));
    assert_eq!(m.search_rows(CSV, b"banana", Some(2), Direction::Forward, true), Some((4, false)));
    assert_eq!(m.search_rows(CSV, b"banana", Some(4), Direction::Forward, true), Some((2, true)));
    assert_eq!(m.search_rows(CSV, b"banana", None, Direction::Forward, false), Some((4, false)));
    assert_eq!(m.search_rows(CSV, b"kiwi", None, Direction::Forward, true), None);
    assert_eq!(m.search_rows(CSV, b"", None, Direction::Forward, true), None);
}

#[test]
fn search_backward_and_wrap() {
    let m = model(CSV, Format::Csv);
    assert_eq!(m.search_rows(CSV, b"banana", None, Direction::Backward, true), Some((4, false)));
    assert_eq!(m.search_rows(CSV, b"banana", Some(4), Direction::Backward, true), Some((2, false)));
    assert_eq!(m.search_rows(CSV, b"banana", Some(2), Direction::Backward, true), Some((4, true)));
    assert_eq!(m.search_rows(CSV, b"apple", Some(1), Direction::Backward, true), Some((1, true)));
}

#[test]
fn copy_selection_as_tsv() {
    let mut m = model(CSV, Format::Csv);
    assert_eq!(m.selection_to_tsv(CSV, None, 2), None);
    let sel = CellSel { anchor: (2, 1), focus: (1, 0) };
    assert_eq!(m.selection_to_tsv(CSV, Some(sel), 2), Some("1\tapple\n2\tBanana".to_string()));
    let wide = CellSel { anchor: (3, 1), focus: (3, 5) };
    assert_eq!(m.selection_to_tsv(CSV, Some(wide), 2), Some("cherry".to_string()));
    let outside = CellSel { anchor: (0, 4), focus: (1, 5) };
    assert_eq!(m.selection_to_tsv(CSV, Some(outside), 2), Some("\n".to_string()));
    let single = CellSel::single(4, 1);
    assert_eq!(m.selection_to_tsv(CSV, Some(single), 2), Some("banana split".to_string()));
}

#[test]
fn cell_selection_geometry() {
    let s = CellSel { anchor: (5, 3), focus: (2, 7) };
    assert_eq!(s.row_range(), 2..=5);
    assert_eq!(s.col_range(), 3..=7);
    assert_eq!(s.row_bounds(), (2, 5));
    assert_eq!(s.col_bounds(), (3, 7));
    assert!(s.contains(2, 3));
    assert!(s.contains(5, 7));
    assert!(!s.contains(6, 3));
    assert!(!s.contains(3, 2));
    let one = CellSel::single(4, 1);
    assert!(one.contains(4, 1));
    assert!(!one.contains(4, 2));
    assert_eq!(one.anchor, (4, 1));
    assert_eq!(one.focus, (4, 1));
}

fn input() -> CellInput {
    CellInput {
        drag_started: false,
        clicked: false,
        secondary_clicked: false,
        shift: false,
        primary_down: false,
        pointer_inside: false,
    }
}

#[test]
fn selection_follows_clicks_and_drags() {
    let mut st = SelectionState::new();
    st.cell_event(3, 1, CellInput { clicked: true, ..input() });
    assert!(st.selecting);
    let s = st.sel.unwrap();
    assert_eq!((s.anchor, s.focus), ((3, 1), (3, 1)));
    st.cell_event(5, 2, CellInput { primary_down: true, pointer_inside: true, ..input() });
    let s = st.sel.unwrap();
    assert_eq!((s.anchor, s.focus), ((3, 1), (5, 2)));
    st.end_drag(false);
    assert!(!st.selecting);
    st.cell_event(7, 0, CellInput { primary_down: true, pointer_inside: true, ..input() });
    assert_eq!(st.sel.unwrap().focus, (5, 2));
    st.cell_event(1, 1, CellInput { clicked: true, shift: true, ..input() });
    let s = st.sel.unwrap();
    assert_eq!((s.anchor, s.focus), ((3, 1), (1, 1)));
    // A right-click inside the selection keeps it; outside it selects the cell.
    st.cell_event(2, 1, CellInput { secondary_clicked: true, ..input() });
    assert_eq!(st.sel.unwrap().anchor, (3, 1));
    st.cell_event(9, 9, CellInput { secondary_clicked: true, ..input() });
    let s = st.sel.unwrap();
    assert_eq!((s.anchor, s.focus), ((9, 9), (9, 9)));
}

#[test]
fn shift_click_with_nothing_selected_selects_the_cell() {
    let mut st = SelectionState::new();
    st.cell_event(4, 4, CellInput { clicked: true, shift: true, ..input() });
    let s = st.sel.unwrap();
    assert_eq!((s.anchor, s.focus), ((4, 4), (4, 4)));
    assert!(!st.selecting);
}

fn keys() -> NavKeys {
    NavKeys { page_down: false, page_up: false, home: false, end: false, arrow_down: false, arrow_up: false }
}

#[test]
fn top_row_navigation() {
    assert_eq!(next_top_row(10, 100, 20, 0, keys(), false, None), 10);
    assert_eq!(next_top_row(10, 100, 20, 3, keys(), false, None), 7);
    assert_eq!(next_top_row(10, 100, 20, -500, keys(), false, None), 80);
    assert_eq!(next_top_row(10, 100, 20, 0, NavKeys { page_down: true, ..keys() }, false, None), 30);
    assert_eq!(next_top_row(10, 100, 20, 0, NavKeys { page_up: true, ..keys() }, false, None), 0);
    assert_eq!(next_top_row(10, 100, 20, 0, NavKeys { arrow_down: true, ..keys() }, false, None), 11);
    assert_eq!(next_top_row(10, 100, 20, 0, NavKeys { arrow_up: true, ..keys() }, false, None), 9);
    assert_eq!(next_top_row(10, 100, 20, 0, NavKeys { end: true, ..keys() }, false, None), 80);
    assert_eq!(next_top_row(10, 100, 20, 0, NavKeys { home: true, ..keys() }, false, None), 0);
    assert_eq!(next_top_row(10, 100, 20, 0, NavKeys { page_down: true, ..keys() }, true, None), 10);
    assert_eq!(next_top_row(10, 100, 20, 0, NavKeys { end: true, ..keys() }, false, Some(42)), 42);
    assert_eq!(next_top_row(10, 100, 20, 0, keys(), false, Some(95)), 80);
    assert_eq!(next_top_row(0, 5, 20, 0, NavKeys { page_down: true, ..keys() }, false, None), 0);
}

#[test]
fn find_bar_reports_matches() {
    let m = model(CSV, Format::Csv);
    let mut f = Finder::new();
    assert_eq!(f.find(&m, CSV, Direction::Forward), None);
    assert_eq!(f.status, "");
    f.query = "BANANA".to_string();
    assert_eq!(f.find(&m, CSV, Direction::Forward), Some(2));
    assert_eq!(f.status, "Row 3");
    assert_eq!(f.find(&m, CSV, Direction::Forward), Some(4));
    assert_eq!(f.status, "Row 5");
    assert_eq!(f.find(&m, CSV, Direction::Forward), Some(2));
    assert_eq!(f.status, "Row 3 (wrapped)");
    f.case_sensitive = true;
    f.restart();
    assert_eq!(f.last_match, None);
    assert_eq!(f.find(&m, CSV, Direction::Forward), None);
    assert_eq!(f.status, "No match");
    f.query = "banana".to_string();
    assert_eq!(f.find(&m, CSV, Direction::Backward), Some(4));
    assert_eq!(f.last_match, Some(4));
}

#[test]
fn goto_row_is_one_based_and_clamped() {
    assert_eq!(goto_target(1, 10), 0);
    assert_eq!(goto_target(0, 10), 0);
    assert_eq!(goto_target(5, 10), 4);
    assert_eq!(goto_target(500, 10), 9);
    assert_eq!(goto_target(3, 0), 0);
}

#[test]
fn typed_row_numbers_are_read_like_trim_then_parse() {
    assert_eq!(parse_row_number("12"), Some(12));
    assert_eq!(parse_row_number("  +7\t"), Some(7));
    assert_eq!(parse_row_number("007"), Some(7));
    assert_eq!(parse_row_number("\u{3000}5\u{2003}\n"), Some(5));
    assert_eq!(parse_row_number("18446744073709551615"), Some(u64::MAX));
    assert_eq!(parse_row_number("18446744073709551616"), None);
    assert_eq!(parse_row_number("99999999999999999999x"), None);
    assert_eq!(parse_row_number(""), None);
    assert_eq!(parse_row_number("   "), None);
    assert_eq!(parse_row_number("+"), None);
    assert_eq!(parse_row_number("-1"), None);
    assert_eq!(parse_row_number("1 2"), None);
    assert_eq!(parse_row_number("row 3"), None);
    for text in ["42", " 9 ", "+0", "abc", "\u{a0}31\u{85}", "1e3"] {
        assert_eq!(parse_row_number(text), text.trim().parse::<u64>().ok());
    }
}

#[test]
fn shown_row_number_goes_back_to_its_row() {
    let rows = 1000u64;
    for r in [0u64, 9, 99, 999] {
        let shown = (r + 1).to_string();
        assert_eq!(parse_row_number(&shown).map(|n| goto_target(n, rows)), Some(r));
    }
}

#[test]
fn only_a_screenful_of_rows_is_drawn() {
    assert_eq!(rows_to_draw(0, 1000, 20), 22);
    assert_eq!(rows_to_draw(980, 1000, 20), 20);
    assert_eq!(rows_to_draw(995, 1000, 20), 5);
    assert_eq!(rows_to_draw(0, 7, 20), 7);
    assert_eq!(rows_to_draw(3, 7, 20), 4);
    assert_eq!(rows_to_draw(0, 0, 1), 0);
}
