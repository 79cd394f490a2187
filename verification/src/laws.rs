//! Properties that hold across the library's functions.

use vstd::prelude::*;
use crate::bytes::NEWLINE;
use crate::format::{column_names, data_row, format_for_extension, header_row, Format};
use crate::lines::{
    has_unterminated_tail, lemma_line_start, lemma_line_start_order, lemma_next_newline, lemma_nl_in_bound,
    lemma_nl_in_none, lemma_nl_in_split, lemma_span_bounds, line_count, line_of_offset, line_span, line_start,
    line_text, next_newline, nl_in,
};
use crate::search::{first_match, last_match, matches_at, Direction};
use crate::selection::{after_context, after_drag, after_press, CellInput, CellSel, SelectionState};
use crate::table::{cell_at, offset_row, row_offset, search_outcome, sat_sub, tsv_line};
use crate::text::{decimal, digit_char, group_thousands, lossy_text, lower_ascii};
use crate::selection::min_of;
use crate::viewer::{NavKeys, all_digits, digits_value, is_white_space, top_after, trim_back, trim_front, typed_number, window_rows};

verus! {

// ---------------------------------------------------------------------------
// Line index
// ---------------------------------------------------------------------------

/// Every line of the bytes is a run without line feeds that ends at a line
/// feed or at the end of the bytes, and the next line begins right after
/// that line feed.
pub proof fn law_lines_partition(s: Seq<u8>, k: nat)
    requires
        k < line_count(s),
    ensures
        ({
            let (a, b) = line_span(s, k as int);
            &&& 0 <= a <= b <= s.len()
            &&& forall|j: int| a <= j < b ==> s[j] != NEWLINE
            &&& (b == s.len() || s[b] == NEWLINE)
            &&& k + 1 < line_count(s) ==> line_span(s, k + 1int).0 == b + 1
        }),
{
    lemma_nl_in_bound(s, 0, s.len() as int);
    lemma_line_start(s, k);
    let a = line_start(s, k);
    lemma_next_newline(s, a);
}

/// Every byte offset of a line, from its start to its line feed or, for an
/// unterminated last line, to the end of the bytes, is mapped back to that
/// line; in particular the start of line `k` maps back to `k`.
pub proof fn law_offset_of_line_maps_back(s: Seq<u8>, k: nat, o: int)
    requires
        k < line_count(s),
        line_span(s, k as int).0 <= o <= line_span(s, k as int).1,
    ensures
        line_of_offset(s, o) == k,
{
    lemma_nl_in_bound(s, 0, s.len() as int);
    lemma_line_start(s, k);
    let a = line_start(s, k);
    lemma_next_newline(s, a);
    let b = next_newline(s, a);
    lemma_nl_in_none(s, a, o);
    lemma_nl_in_split(s, 0, a, o);
    if o >= s.len() {
        // an offset at the end of the bytes lies in the last line, which no
        // line feed ends: all line feeds come before it
        assert(nl_in(s, 0, s.len() as int) == k);
    }
}

/// A line's start offset is read back as that line: the index's two
/// look-ups undo each other.
pub proof fn law_line_start_round_trip(s: Seq<u8>, k: nat)
    requires
        k < line_count(s),
    ensures
        line_of_offset(s, line_span(s, k as int).0) == k,
{
    lemma_span_bounds(s, k as int);
    law_offset_of_line_maps_back(s, k, line_span(s, k as int).0);
}

/// Lines start in increasing order.
pub proof fn law_line_starts_increase(s: Seq<u8>, j: nat, k: nat)
    requires
        j < k < line_count(s),
    ensures
        line_span(s, j as int).0 < line_span(s, k as int).0,
{
    lemma_nl_in_bound(s, 0, s.len() as int);
    lemma_line_start(s, j);
    lemma_line_start(s, k);
    lemma_line_start_order(s, line_start(s, j), j, line_start(s, k), k);
}

/// The text of a line never holds a line feed.
pub proof fn law_line_text_has_no_newline(s: Seq<u8>, line: int)
    ensures
        forall|j: int| 0 <= j < line_text(s, line).len() ==> line_text(s, line)[j] != NEWLINE,
{
    lemma_span_bounds(s, line);
    if 0 <= line < line_count(s) {
        law_lines_partition(s, line as nat);
    }
}

// ---------------------------------------------------------------------------
// Formats
// ---------------------------------------------------------------------------

/// The format chosen for an extension does not depend on the case of its
/// letters.
pub proof fn law_extension_case_insensitive(e: Seq<char>)
    ensures
        format_for_extension(Some(e)) == format_for_extension(Some(lower_ascii(e))),
{
    assert(lower_ascii(lower_ascii(e)) =~= lower_ascii(e));
}

/// A delimited file always has at least one column, named `Column 1`.
pub proof fn law_delimited_headers_nonempty(format: Format, first: Seq<u8>)
    requires
        format == Format::Csv || format == Format::Tsv,
    ensures
        header_row(format, first).len() >= 1,
        header_row(format, first)[0] == "Column "@ + decimal(1),
{
}

/// Column `i` (counted from 0) of a delimited file is named `Column {i + 1}`.
pub proof fn law_column_names(n: nat, i: int)
    requires
        0 <= i < n,
    ensures
        column_names(n).len() == n,
        column_names(n)[i] == "Column "@ + decimal((i + 1) as nat),
{
}

/// Outside JSON lines the column names play no part in reading a row, and a
/// row of a text file is its line, decoded, as one cell.
pub proof fn law_rows_ignore_headers(format: Format, h1: Seq<Seq<char>>, h2: Seq<Seq<char>>, bytes: Seq<u8>)
    requires
        format != Format::Ndjson,
    ensures
        data_row(format, h1, bytes) == data_row(format, h2, bytes),
        format == Format::Txt ==> data_row(format, h1, bytes) == seq![lossy_text(bytes)],
{
}

// ---------------------------------------------------------------------------
// Numbers
// ---------------------------------------------------------------------------

/// `g` is split by commas into groups of three characters counted from the
/// right, the first group of one to three: a comma stands exactly where a
/// multiple of four characters, itself included, remain.
pub open spec fn grouped_by_threes(g: Seq<char>) -> bool {
    &&& g.len() % 4 != 0
    &&& forall|j: int| 0 <= j < g.len() ==> (#[trigger] g[j] == ',' <==> (g.len() - j) % 4 == 0)
}

/// Digit grouping puts the commas between groups of three digits counted
/// from the right, the leading group holding one to three digits, with no
/// comma at either end.
pub proof fn law_grouping_by_threes(n: nat)
    ensures
        grouped_by_threes(group_thousands(decimal(n))),
{
    lemma_decimal_has_no_comma(n);
    lemma_decimal_not_empty(n);
    lemma_grouped_by_threes(decimal(n));
}

proof fn lemma_decimal_not_empty(n: nat)
    ensures
        decimal(n).len() > 0,
    decreases n,
{
    if n >= 10 {
        lemma_decimal_not_empty(n / 10);
    }
}

proof fn lemma_grouped_by_threes(d: Seq<char>)
    requires
        d.len() > 0,
        forall|j: int| 0 <= j < d.len() ==> d[j] != ',',
    ensures
        grouped_by_threes(group_thousands(d)),
    decreases d.len(),
{
    if d.len() > 3 {
        let a = d.subrange(0, d.len() - 3);
        let b = d.subrange(d.len() - 3, d.len() as int);
        lemma_grouped_by_threes(a);
        let ga = group_thousands(a);
        let g = group_thousands(d);
        assert(g == ga + seq![','] + b);
        let m = ga.len() as int;
        assert(g.len() == m + 4);
        assert forall|j: int| 0 <= j < g.len() implies (#[trigger] g[j] == ',' <==> (g.len() - j) % 4 == 0) by {
            if j < m {
                assert(g[j] == ga[j]);
                assert((m + 4 - j) % 4 == (m - j) % 4);
            } else if j == m {
                assert(g[j] == ',');
            } else {
                assert(g[j] == b[j - m - 1]);
                assert(b[j - m - 1] == d[d.len() - 3 + (j - m - 1)]);
            }
        }
    }
}

/// `d` without its commas.
pub open spec fn strip_commas(d: Seq<char>) -> Seq<char> {
    d.filter(|c: char| c != ',')
}

/// Grouping the digits of a number adds nothing but commas: removing them
/// gives the decimal digits back.
pub proof fn law_grouping_keeps_digits(n: nat)
    ensures
        strip_commas(group_thousands(decimal(n))) == decimal(n),
{
    lemma_decimal_has_no_comma(n);
    lemma_strip_grouped(decimal(n));
}

proof fn lemma_decimal_has_no_comma(n: nat)
    ensures
        forall|j: int| 0 <= j < decimal(n).len() ==> decimal(n)[j] != ',',
    decreases n,
{
    let d = (n % 10) as nat;
    assert(digit_char(d) as u32 == 48 + d);
    assert(',' as u32 == 44);
    assert(digit_char(d) != ',');
    if n >= 10 {
        lemma_decimal_has_no_comma(n / 10);
        assert(decimal(n) == decimal(n / 10).push(digit_char(d)));
    } else {
        assert(d == n);
    }
}

proof fn lemma_strip_plain(d: Seq<char>)
    requires
        forall|j: int| 0 <= j < d.len() ==> d[j] != ',',
    ensures
        strip_commas(d) == d,
    decreases d.len(),
{
    reveal_with_fuel(Seq::filter, 1);
    if d.len() > 0 {
        lemma_strip_plain(d.drop_last());
        assert(d.drop_last().push(d.last()) =~= d);
    }
}

proof fn lemma_strip_grouped(d: Seq<char>)
    requires
        forall|j: int| 0 <= j < d.len() ==> d[j] != ',',
    ensures
        strip_commas(group_thousands(d)) == d,
    decreases d.len(),
{
    if d.len() <= 3 {
        lemma_strip_plain(d);
    } else {
        let a = d.subrange(0, d.len() - 3);
        let b = d.subrange(d.len() - 3, d.len() as int);
        lemma_strip_grouped(a);
        lemma_strip_plain(b);
        Seq::filter_distributes_over_add(group_thousands(a), seq![','], |c: char| c != ',');
        Seq::filter_distributes_over_add(group_thousands(a) + seq![','], b, |c: char| c != ',');
        reveal_with_fuel(Seq::filter, 2);
        assert(strip_commas(seq![',']) =~= Seq::<char>::empty());
        assert(a + b =~= d);
    }
}

// ---------------------------------------------------------------------------
// Search
// ---------------------------------------------------------------------------

/// Some occurrence at or after `from` is the earliest one.
proof fn lemma_earliest_exists(hay: Seq<u8>, needle: Seq<u8>, from: int, ci: bool, q: int)
    requires
        from <= q,
        matches_at(hay, needle, q, ci),
    ensures
        exists|p: int| from <= p && matches_at(hay, needle, p, ci)
            && forall|r: int| from <= r < p ==> !matches_at(hay, needle, r, ci),
    decreases q - from,
{
    if exists|r: int| from <= r < q && matches_at(hay, needle, r, ci) {
        let r = choose|r: int| from <= r < q && matches_at(hay, needle, r, ci);
        lemma_earliest_exists(hay, needle, from, ci, r);
    } else {
        assert(forall|r: int| from <= r < q ==> !matches_at(hay, needle, r, ci));
    }
}

/// Some occurrence ending at or before `end` is the latest one.
proof fn lemma_latest_exists(hay: Seq<u8>, needle: Seq<u8>, end: int, ci: bool, q: int)
    requires
        q + needle.len() <= end,
        matches_at(hay, needle, q, ci),
    ensures
        exists|p: int| p + needle.len() <= end && matches_at(hay, needle, p, ci)
            && forall|r: int| p < r && r + needle.len() <= end ==> !matches_at(hay, needle, r, ci),
    decreases end - q,
{
    if exists|r: int| q < r && r + needle.len() <= end && matches_at(hay, needle, r, ci) {
        let r = choose|r: int| q < r && r + needle.len() <= end && matches_at(hay, needle, r, ci);
        lemma_latest_exists(hay, needle, end, ci, r);
    } else {
        assert(forall|r: int| q < r && r + needle.len() <= end ==> !matches_at(hay, needle, r, ci));
    }
}

proof fn lemma_first_match_sound(hay: Seq<u8>, needle: Seq<u8>, from: int, ci: bool)
    ensures
        first_match(hay, needle, from, ci) matches Some(p) ==> from <= p && matches_at(hay, needle, p, ci),
{
    if first_match(hay, needle, from, ci) is Some {
        let q = choose|p: int| from <= p && matches_at(hay, needle, p, ci);
        lemma_earliest_exists(hay, needle, from, ci, q);
    }
}

proof fn lemma_last_match_sound(hay: Seq<u8>, needle: Seq<u8>, end: int, ci: bool)
    ensures
        last_match(hay, needle, end, ci) matches Some(p) ==> p + needle.len() <= end && matches_at(hay, needle, p, ci),
{
    if last_match(hay, needle, end, ci) is Some {
        let q = choose|p: int| p + needle.len() <= end && matches_at(hay, needle, p, ci);
        lemma_latest_exists(hay, needle, end, ci, q);
    }
}

/// An occurrence at or after `from` makes the forward search succeed, at it
/// or before it.
proof fn lemma_first_match_reaches(hay: Seq<u8>, needle: Seq<u8>, from: int, ci: bool, w: int)
    requires
        needle.len() > 0,
        from <= w,
        matches_at(hay, needle, w, ci),
    ensures
        first_match(hay, needle, from, ci) matches Some(p) && p <= w,
{
    lemma_earliest_exists(hay, needle, from, ci, w);
    let c = choose|p: int| from <= p && matches_at(hay, needle, p, ci)
        && forall|q: int| from <= q < p ==> !matches_at(hay, needle, q, ci);
    if w < c {
        assert(!matches_at(hay, needle, w, ci));
    }
}

/// An occurrence ending at or before `end` makes the backward search
/// succeed, at it or after it.
proof fn lemma_last_match_reaches(hay: Seq<u8>, needle: Seq<u8>, end: int, ci: bool, w: int)
    requires
        needle.len() > 0,
        w + needle.len() <= end,
        matches_at(hay, needle, w, ci),
    ensures
        last_match(hay, needle, end, ci) matches Some(q) && w <= q,
{
    lemma_latest_exists(hay, needle, end, ci, w);
    let c = choose|p: int| p + needle.len() <= end && matches_at(hay, needle, p, ci)
        && forall|q: int| p < q && q + needle.len() <= end ==> !matches_at(hay, needle, q, ci);
    if c < w {
        assert(!matches_at(hay, needle, w, ci));
    }
}

/// Searching the whole bytes forward from the start and backward from the
/// end agree: both find an occurrence or neither does, and the first one
/// found forward comes no later than the last one found backward.
pub proof fn law_forward_and_backward_agree(hay: Seq<u8>, needle: Seq<u8>, ci: bool)
    ensures
        first_match(hay, needle, 0, ci) is Some <==> last_match(hay, needle, hay.len() as int, ci) is Some,
        first_match(hay, needle, 0, ci) matches Some(p) ==> last_match(hay, needle, hay.len() as int, ci) matches Some(q)
            && p <= q,
{
    if needle.len() > 0 {
        lemma_first_match_sound(hay, needle, 0, ci);
        lemma_last_match_sound(hay, needle, hay.len() as int, ci);
        if let Some(p) = first_match(hay, needle, 0, ci) {
            lemma_last_match_reaches(hay, needle, hay.len() as int, ci, p);
        }
        if let Some(q) = last_match(hay, needle, hay.len() as int, ci) {
            lemma_first_match_reaches(hay, needle, 0, ci, q);
        }
    }
}

/// With no previous match, a forward search finds the row of the earliest
/// occurrence from the start of the first data row on, and does not count
/// as wrapped; with no occurrence at all it finds nothing.
#[verifier::spinoff_prover]
pub proof fn law_first_forward_search_from_top(data: Seq<u8>, first_data_line: nat, needle: Seq<u8>, ci: bool)
    requires
        needle.len() > 0,
        line_count(data) > first_data_line,
    ensures
        search_outcome(data, first_data_line, needle, None, Direction::Forward, ci) == match first_match(
            data, needle, row_offset(data, first_data_line, 0), ci) {
            Some(p) => Some((offset_row(data, first_data_line, p), false)),
            None => None,
        },
{
    reveal(search_outcome);
    assert(sat_sub(line_count(data) as int, first_data_line as int) > 0);
}

/// After a match in row `a`, a forward search finds the earliest occurrence
/// from the start of row `a + 1` on, without wrapping, whenever there is one.
#[verifier::spinoff_prover]
pub proof fn law_next_forward_match(data: Seq<u8>, first_data_line: nat, needle: Seq<u8>, a: u64, ci: bool)
    requires
        needle.len() > 0,
        a + 1 + first_data_line < line_count(data),
        first_match(data, needle, row_offset(data, first_data_line, a + 1), ci) is Some,
    ensures
        search_outcome(data, first_data_line, needle, Some(a), Direction::Forward, ci) == Some((
            offset_row(data, first_data_line, first_match(data, needle, row_offset(data, first_data_line, a + 1), ci)->0),
            false,
        )),
{
    reveal(search_outcome);
}

/// With no previous match, a backward search finds the row of the last
/// occurrence in the bytes, and does not count as wrapped; with no
/// occurrence at all it finds nothing.
#[verifier::spinoff_prover]
pub proof fn law_first_backward_search_from_end(data: Seq<u8>, first_data_line: nat, needle: Seq<u8>, ci: bool)
    requires
        needle.len() > 0,
        line_count(data) > first_data_line,
    ensures
        search_outcome(data, first_data_line, needle, None, Direction::Backward, ci) == match last_match(
            data, needle, data.len() as int, ci) {
            Some(p) => Some((offset_row(data, first_data_line, p), false)),
            None => None,
        },
{
    reveal(search_outcome);
}

/// A search that finds a row finds it where the needle occurs: some
/// occurrence lies in that row.
pub proof fn law_found_row_holds_match(data: Seq<u8>, first_data_line: nat, needle: Seq<u8>, anchor: Option<u64>,
    dir: Direction, ci: bool)
    ensures
        search_outcome(data, first_data_line, needle, anchor, dir, ci) matches Some((row, w)) ==> exists|p: int|
            matches_at(data, needle, p, ci) && offset_row(data, first_data_line, p) == row,
{
    reveal(search_outcome);
    let fdl = first_data_line;
    let start_row = match anchor { Some(a) => a + 1, None => 0 };
    let from = row_offset(data, fdl, start_row);
    let top = row_offset(data, fdl, 0);
    let end = match anchor { Some(a) => row_offset(data, fdl, a as int), None => data.len() as int };
    lemma_first_match_sound(data, needle, from, ci);
    lemma_first_match_sound(data, needle, top, ci);
    lemma_last_match_sound(data, needle, end, ci);
    lemma_last_match_sound(data, needle, data.len() as int, ci);
    match search_outcome(data, fdl, needle, anchor, dir, ci) {
        Some((row, w)) => {
            match dir {
                Direction::Forward => {
                    let total = sat_sub(line_count(data) as int, fdl as int);
                    if start_row < total && first_match(data, needle, from, ci) is Some {
                        let p = first_match(data, needle, from, ci)->0;
                        assert(matches_at(data, needle, p, ci) && offset_row(data, fdl, p) == row);
                    } else {
                        let p = first_match(data, needle, top, ci)->0;
                        assert(matches_at(data, needle, p, ci) && offset_row(data, fdl, p) == row);
                    }
                },
                Direction::Backward => {
                    if last_match(data, needle, end, ci) is Some {
                        let p = last_match(data, needle, end, ci)->0;
                        assert(matches_at(data, needle, p, ci) && offset_row(data, fdl, p) == row);
                    } else {
                        let p = last_match(data, needle, data.len() as int, ci)->0;
                        assert(matches_at(data, needle, p, ci) && offset_row(data, fdl, p) == row);
                    }
                },
            }
        },
        None => {},
    }
}

/// In a file without header line, a search finds a row whenever the needle
/// occurs anywhere in the bytes (it wraps around once).
pub proof fn law_search_finds_any_occurrence(data: Seq<u8>, needle: Seq<u8>, anchor: Option<u64>, dir: Direction,
    ci: bool, p: int)
    requires
        needle.len() > 0,
        matches_at(data, needle, p, ci),
    ensures
        search_outcome(data, 0, needle, anchor, dir, ci) is Some,
{
    reveal(search_outcome);
    lemma_nl_in_bound(data, 0, data.len() as int);
    assert(data.len() > 0);
    if line_count(data) == 0 {
        assert(nl_in(data, 0, data.len() as int) == 0);
        assert(!has_unterminated_tail(data));
        assert(data.last() == NEWLINE);
        assert(nl_in(data, 0, data.len() as int) == nl_in(data, 0, data.len() - 1) + 1);
        assert(false);
    }
    lemma_line_start(data, 0);
    assert(row_offset(data, 0, 0) == 0);
    assert(exists|q: int| 0 <= q && matches_at(data, needle, q, ci));
    assert(exists|q: int| q + needle.len() <= data.len() && matches_at(data, needle, q, ci));
}

// ---------------------------------------------------------------------------
// Selection and scrolling
// ---------------------------------------------------------------------------

/// A selection covers the same cells whichever of its two corners is the
/// anchor.
pub proof fn law_selection_corners_symmetric(s: CellSel, row: int, col: int)
    ensures
        s.covers(row, col) == (CellSel { anchor: s.focus, focus: s.anchor }).covers(row, col),
{
}

/// A single-cell selection covers exactly that cell.
pub proof fn law_single_covers_only_its_cell(r: u64, c: usize, row: int, col: int)
    ensures
        (CellSel { anchor: (r, c), focus: (r, c) }).covers(row, col) <==> (row == r && col == c),
{
}

/// Copying a single cell that the table has gives exactly that cell's text.
pub proof fn law_copy_single_cell(cells: Seq<Seq<char>>, r: u64, c: usize, ncols: int)
    requires
        c < ncols,
    ensures
        tsv_line(cells, CellSel { anchor: (r, c), focus: (r, c) }, ncols) == cell_at(cells, c as int),
{
    let s = CellSel { anchor: (r, c), focus: (r, c) };
    let parts = Seq::new(1, |k: int| cell_at(cells, c + k));
    assert(parts.len() == 1);
    assert(parts[0] == cell_at(cells, c as int));
}

/// Cell `(row, col)` lies between the two corners of `s`, row-wise and
/// column-wise.
pub open spec fn between_corners(s: CellSel, row: int, col: int) -> bool {
    &&& (s.anchor.0 <= row <= s.focus.0 || s.focus.0 <= row <= s.anchor.0)
    &&& (s.anchor.1 <= col <= s.focus.1 || s.focus.1 <= col <= s.anchor.1)
}

/// The selection state after the pointer did `ev` on cell `(row, col)`.
pub open spec fn state_after(st: SelectionState, row: u64, col: usize, ev: CellInput) -> SelectionState {
    after_context(after_drag(after_press(st, (row, col), ev), (row, col), ev), (row, col), ev)
}

/// After a right-click on a cell, that cell is selected: the selection's
/// rectangle holds it.
pub proof fn law_right_click_leaves_cell_selected(st: SelectionState, row: u64, col: usize, ev: CellInput)
    requires
        ev.secondary_clicked,
    ensures
        state_after(st, row, col, ev).sel matches Some(s) && between_corners(s, row as int, col as int),
{
}

/// A plain right-click on a cell outside the selection selects just that
/// cell; one on a cell inside the selection leaves the selection as it is.
pub proof fn law_right_click_outside_selects_only_it(st: SelectionState, row: u64, col: usize, ev: CellInput)
    requires
        ev.secondary_clicked,
        !ev.drag_started,
        !ev.clicked,
        !ev.primary_down,
    ensures
        (st.sel matches Some(s) && between_corners(s, row as int, col as int)) ==> state_after(st, row, col, ev) == st,
        !(st.sel matches Some(s) && between_corners(s, row as int, col as int)) ==> state_after(st, row, col, ev).sel
            == Some(CellSel { anchor: (row, col), focus: (row, col) }),
        state_after(st, row, col, ev).selecting == st.selecting,
{
}

/// A drag that starts on a cell selects exactly that cell and begins a
/// drag-select, whatever else the pointer and keys did.
pub proof fn law_drag_start_selects_cell(st: SelectionState, row: u64, col: usize, ev: CellInput)
    requires
        ev.drag_started,
    ensures
        state_after(st, row, col, ev).sel == Some(CellSel { anchor: (row, col), focus: (row, col) }),
        state_after(st, row, col, ev).selecting,
{
}

/// While a drag-select is under way, the pointer held over a cell moves the
/// selection's focus there and keeps its anchor.
pub proof fn law_drag_moves_focus(st: SelectionState, row: u64, col: usize, ev: CellInput)
    requires
        st.selecting,
        st.sel is Some,
        ev.primary_down,
        ev.pointer_inside,
        !ev.drag_started,
        !ev.clicked,
        !ev.secondary_clicked,
    ensures
        state_after(st, row, col, ev).sel == Some(CellSel { anchor: st.sel->0.anchor, focus: (row, col) }),
        state_after(st, row, col, ev).selecting,
{
}

/// `t` kept within `0..=m`.
pub open spec fn clamped(t: int, m: int) -> int {
    if t < 0 { 0 } else if t > m { m } else { t }
}

/// While a text field has focus, navigation keys do nothing: with no jump
/// pending, only the wheel moves the view, by its steps, kept within the
/// rows that can be shown at the top.
pub proof fn law_typing_ignores_keys(top: int, total_rows: int, visible_full: int, wheel_steps: int, keys: NavKeys)
    ensures
        top_after(top, total_rows, visible_full, wheel_steps, keys, true, None) == clamped(top - wheel_steps,
            if total_rows > visible_full { total_rows - visible_full } else { 0 }),
{
}

/// The wheel moves the view by its steps (up for a positive count) whether
/// or not a text field has focus.
pub proof fn law_wheel_scrolls(top: int, total_rows: int, visible_full: int, wheel_steps: int, typing: bool)
    ensures
        top_after(top, total_rows, visible_full, wheel_steps,
            NavKeys { page_down: false, page_up: false, home: false, end: false, arrow_down: false, arrow_up: false },
            typing, None) == clamped(top - wheel_steps,
            if total_rows > visible_full { total_rows - visible_full } else { 0 }),
{
}

/// Outside a text field, End shows the last screenful and Home (without
/// End) the first row.
pub proof fn law_home_and_end(top: int, total_rows: int, visible_full: int, wheel_steps: int, keys: NavKeys)
    requires
        0 <= total_rows,
    ensures
        keys.end ==> top_after(top, total_rows, visible_full, wheel_steps, keys, false, None)
            == (if total_rows > visible_full { total_rows - visible_full } else { 0 }),
        keys.home && !keys.end ==> top_after(top, total_rows, visible_full, wheel_steps, keys, false, None) == 0,
{
}

/// The top row always stays within the rows that can be shown at the top.
pub proof fn law_top_row_in_range(top: int, total_rows: int, visible_full: int, wheel_steps: int,
    keys: crate::viewer::NavKeys, typing: bool, scroll_to: Option<usize>)
    ensures
        0 <= top_after(top, total_rows, visible_full, wheel_steps, keys, typing, scroll_to) <= sat_sub(total_rows, visible_full),
{
}

/// A jump to a row that can be shown at the top lands exactly on it.
pub proof fn law_jump_lands_on_row(top: int, total_rows: int, visible_full: int, wheel_steps: int,
    keys: crate::viewer::NavKeys, typing: bool, r: usize)
    requires
        r <= sat_sub(total_rows, visible_full),
    ensures
        top_after(top, total_rows, visible_full, wheel_steps, keys, typing, Some(r)) == r,
{
}

/// Only a screenful of rows is ever laid out and parsed, and from any top row
/// that the navigation gives, those rows fill the view: every row that fits
/// is drawn and none past the last row.
pub proof fn law_view_is_filled(top: int, total_rows: int, visible_full: int, wheel_steps: int,
    keys: crate::viewer::NavKeys, typing: bool, scroll_to: Option<usize>)
    requires
        0 <= total_rows,
        0 <= visible_full,
    ensures
        ({
            let t = top_after(top, total_rows, visible_full, wheel_steps, keys, typing, scroll_to);
            let n = window_rows(t, total_rows, visible_full);
            &&& n <= visible_full + 2
            &&& t + n <= total_rows
            &&& n >= min_of(visible_full, total_rows)
        }),
{
}

/// The decimal digits of `n` read back as `n`.
proof fn lemma_decimal_reads_back(n: nat)
    ensures
        decimal(n).len() > 0,
        all_digits(decimal(n)),
        digits_value(decimal(n)) == n,
    decreases n,
{
    let d = (n % 10) as nat;
    assert(digit_char(d) as u32 == 48 + d);
    assert((digit_char(d) as nat - 48) as nat == d);
    if n >= 10 {
        lemma_decimal_reads_back(n / 10);
        assert(n == (n / 10) * 10 + d);
        let e = decimal(n / 10);
        assert(decimal(n) == e.push(digit_char(d)));
        assert(decimal(n).drop_last() =~= e);
        assert(decimal(n).last() == digit_char(d));
        assert(digits_value(decimal(n)) == digits_value(e) * 10 + (digit_char(d) as nat - 48) as nat);
        assert forall|j: int| 0 <= j < decimal(n).len() implies '0' <= #[trigger] decimal(n)[j] <= '9' by {
            if j < e.len() {
                assert(decimal(n)[j] == e[j]);
            }
        }
    } else {
        let one = seq![digit_char(n)];
        assert(d == n);
        assert(one.drop_last() =~= Seq::<char>::empty());
        assert(digits_value(one.drop_last()) == 0);
        assert(one.last() == digit_char(n));
        assert(digits_value(one) == (digit_char(n) as nat - 48) as nat);
    }
}

/// The row number shown beside a row (counted from 1), typed into "Go to",
/// takes the view to that row.
pub proof fn law_goto_shown_row_number(r: u64, rows: u64)
    requires
        r < rows,
    ensures
        typed_number(decimal((r + 1) as nat)) == Some((r + 1) as nat),
        min_of(sat_sub((r + 1) as int, 1), sat_sub(rows as int, 1)) == r,
{
    let d = decimal((r + 1) as nat);
    lemma_decimal_reads_back((r + 1) as nat);
    assert('0' <= d[0] <= '9');
    assert('0' <= d.last() <= '9');
    assert(!is_white_space(d[0]));
    assert(!is_white_space(d.last()));
    assert(trim_front(d) == d);
    assert(trim_back(d) == d);
}

} // verus!
