//! The data behind the table view of one opened file: its line index, format,
//! column headers and a cache of parsed rows, with search and copy-out.

use vstd::prelude::*;
use std::collections::HashMap;
use std::sync::atomic::AtomicU64;
use crate::format::{data_row, header_row, headers, parse_row, Format};
use crate::lines::{line_count, line_of_offset, line_span, line_text, LineIndex, DEFAULT_SAMPLE};
use crate::search::{find_bwd, find_fwd, first_match, last_match, Direction};
use crate::selection::CellSel;
use crate::text::push_char;

verus! {

broadcast use vstd::std_specs::hash::group_hash_axioms;

/// Parsed rows kept before the cache is emptied.
pub const CACHE_LIMIT: usize = 4096;

/// Cells of data row `row` of a file: the physical line `row + first_data_line`
/// parsed in `format` under `headers`.
pub open spec fn row_cells(data: Seq<u8>, format: Format, headers: Seq<Seq<char>>, first_data_line: nat, row: int) -> Seq<Seq<char>> {
    data_row(format, headers, line_text(data, row + first_data_line))
}

/// `a - b`, or 0 when `b > a`.
pub open spec fn sat_sub(a: int, b: int) -> int {
    if a > b { a - b } else { 0 }
}

/// An opened file, ready to be shown as a table.
pub struct TableModel {
    index: LineIndex,
    format: Format,
    headers: Vec<String>,
    /// First physical line number that contains data (1 if there is a header).
    first_data_line: u64,
    /// Cache of parsed rows keyed by data-row number.
    cache: HashMap<u64, Vec<String>>,
}

impl TableModel {
    /// The line index.
    pub closed spec fn spec_index(&self) -> LineIndex {
        self.index
    }

    /// The format.
    pub closed spec fn spec_format(&self) -> Format {
        self.format
    }

    /// The column headers.
    pub closed spec fn spec_headers(&self) -> Seq<Seq<char>> {
        self.headers.deep_view()
    }

    /// The first physical line holding data.
    pub closed spec fn spec_first_data_line(&self) -> nat {
        self.first_data_line as nat
    }

    /// The cached rows: data-row number to its cells.
    pub closed spec fn spec_cache(&self) -> Map<u64, Seq<Seq<char>>> {
        Map::new(|r: u64| self.cache@.contains_key(r), |r: u64| self.cache@[r].deep_view())
    }

    /// Number of cached rows.
    pub closed spec fn cache_size(&self) -> nat {
        self.cache@.len()
    }

    /// Cells of data row `row` under this model.
    pub open spec fn cells_of(&self, data: Seq<u8>, row: int) -> Seq<Seq<char>> {
        row_cells(data, self.spec_format(), self.spec_headers(), self.spec_first_data_line(), row)
    }

    /// Number of data rows of `data`.
    pub open spec fn rows_of(&self, data: Seq<u8>) -> int {
        sat_sub(line_count(data) as int, self.spec_first_data_line() as int)
    }

    /// The model describes `data`: its index was built over `data`, data
    /// starts at the first line (no format has a header line), every cached
    /// row holds the cells that parsing that row gives, and the cache holds
    /// at most one row more than its limit.
    pub closed spec fn models(&self, data: Seq<u8>) -> bool {
        &&& self.index.indexes(data)
        &&& self.first_data_line == 0
        &&& self.cache@.len() <= CACHE_LIMIT + 1
        &&& forall|r: u64| #[trigger] self.cache@.contains_key(r) ==> self.cache@[r].deep_view()
            == row_cells(data, self.format, self.headers.deep_view(), self.first_data_line as nat, r as int)
    }

    /// Data starts at the first physical line: every line is a data row.
    pub proof fn lemma_first_data_line(&self, data: Seq<u8>)
        requires
            self.models(data),
        ensures
            self.spec_first_data_line() == 0,
            self.rows_of(data) == line_count(data),
    {
    }

    /// The row cache of a model never holds more than `CACHE_LIMIT + 1` rows,
    /// and every row it holds has the cells that parsing that row gives.
    pub proof fn lemma_cache_bounded(&self, data: Seq<u8>)
        requires
            self.models(data),
        ensures
            self.cache_size() <= CACHE_LIMIT + 1,
            forall|r: u64| #[trigger] self.spec_cache().contains_key(r) ==> self.spec_cache()[r] == self.cells_of(data, r as int),
    {
    }

    /// Index `data`, pick the format from `path` and read the headers from
    /// the first line.
    pub fn load(data: &[u8], path: &str, progress: &AtomicU64) -> (m: TableModel)
        ensures
            m.models(data@),
            m.spec_headers() == header_row(m.spec_format(), line_text(data@, 0)),
            m.spec_first_data_line() == 0,
            m.spec_index().line_total() == line_count(data@),
            m.spec_index().sampling() == DEFAULT_SAMPLE,
            m.spec_cache() == Map::<u64, Seq<Seq<char>>>::empty(),
            m.spec_format() == Format::Ndjson ==> m.spec_headers().no_duplicates(),
            m.spec_format() == Format::Txt || exists|e: Seq<char>|
                crate::format::extension_in_path(path@, e) && m.spec_format() == crate::format::format_for_extension(Some(e)),
            (forall|j: int| 0 <= j < path@.len() ==> path@[j] != '.') ==> m.spec_format() == Format::Txt,
            crate::format::slash_path(path@) ==> m.spec_format()
                == crate::format::format_for_extension(crate::format::name_extension(crate::format::file_part(path@))),
            crate::format::drive_path(path@) ==> m.spec_format()
                == crate::format::format_for_extension(crate::format::name_extension(crate::format::windows_name(path@))),
    {
        let format = Format::from_path(path);
        TableModel::with_format(data, format, progress)
    }

    /// Index `data` and read the headers of a file of format `format` from
    /// its first line.
    pub fn with_format(data: &[u8], format: Format, progress: &AtomicU64) -> (m: TableModel)
        ensures
            m.models(data@),
            m.spec_format() == format,
            m.spec_headers() == header_row(format, line_text(data@, 0)),
            m.spec_first_data_line() == 0,
            m.spec_index().line_total() == line_count(data@),
            m.spec_index().sampling() == DEFAULT_SAMPLE,
            m.spec_cache() == Map::<u64, Seq<Seq<char>>>::empty(),
            m.spec_format() == Format::Ndjson ==> m.spec_headers().no_duplicates(),
    {
        let index = LineIndex::build(data, DEFAULT_SAMPLE, progress);
        let first_line = index.line_bytes(data, 0);
        let headers = headers(format, first_line);
        let first_data_line: u64 = if format.has_header() && index.line_count() > 0 { 1 } else { 0 };
        let m = TableModel { index, format, headers, first_data_line, cache: HashMap::new() };
        proof {
            assert(m.spec_cache() =~= Map::<u64, Seq<Seq<char>>>::empty());
        }
        m
    }

    /// The line index.
    pub fn index(&self) -> (i: &LineIndex)
        ensures
            *i == self.spec_index(),
    {
        &self.index
    }

    /// The format.
    pub fn format(&self) -> (f: Format)
        ensures
            f == self.spec_format(),
    {
        self.format
    }

    /// The column headers.
    pub fn headers(&self) -> (h: &Vec<String>)
        ensures
            h.deep_view() == self.spec_headers(),
    {
        &self.headers
    }

    /// First physical line that holds data.
    pub fn first_data_line(&self) -> (l: u64)
        ensures
            l == self.spec_first_data_line(),
    {
        self.first_data_line
    }

    /// Number of data rows.
    pub fn data_rows(&self, data: &[u8]) -> (n: u64)
        requires
            self.models(data@),
        ensures
            n == self.rows_of(data@),
    {
        proof {
            self.index.lemma_counts(data@);
        }
        self.index.line_count().saturating_sub(self.first_data_line)
    }

    /// Fetch (and cache) the parsed cells for data row `row`.
    pub fn row(&mut self, data: &[u8], row: u64) -> (cells: Vec<String>)
        requires
            old(self).models(data@),
        ensures
            final(self).models(data@),
            final(self).spec_index() == old(self).spec_index(),
            final(self).spec_format() == old(self).spec_format(),
            final(self).spec_headers() == old(self).spec_headers(),
            final(self).spec_first_data_line() == old(self).spec_first_data_line(),
            cells.deep_view() == old(self).cells_of(data@, row as int),
            final(self).spec_cache() == if old(self).spec_cache().contains_key(row) {
                old(self).spec_cache()
            } else if old(self).cache_size() > CACHE_LIMIT {
                Map::<u64, Seq<Seq<char>>>::empty().insert(row, cells.deep_view())
            } else {
                old(self).spec_cache().insert(row, cells.deep_view())
            },
            final(self).spec_cache().contains_key(row),
            final(self).spec_cache()[row] == cells.deep_view(),
            final(self).cache_size() <= CACHE_LIMIT + 1,
    {
        match self.cache.get(&row) {
            Some(hit) => {
                let cells = hit.clone();
                proof {
                    assert(self.cache@.contains_key(row));
                    assert forall|i: int| 0 <= i < cells.len() implies #[trigger] cells@[i] == hit@[i] by {
                        assert(cloned::<String>(hit@[i], cells@[i]));
                    }
                    assert(cells.deep_view() =~= hit.deep_view());
                    assert(old(self).spec_cache().contains_key(row));
                }
                return cells;
            },
            None => {},
        }
        let ghost before = self.cache@;
        proof {
            assert(!old(self).spec_cache().contains_key(row));
        }
        let full = self.cache.len() > CACHE_LIMIT;
        if full {
            self.cache.clear();
        }
        let physical = row + self.first_data_line;
        let bytes = self.index.line_bytes(data, physical);
        let cells = parse_row(self.format, self.headers.as_slice(), bytes);
        let kept = cells.clone();
        proof {
            assert forall|i: int| 0 <= i < cells.len() implies #[trigger] kept@[i] == cells@[i] by {
                assert(cloned::<String>(cells@[i], kept@[i]));
            }
            assert(kept.deep_view() =~= cells.deep_view());
        }
        self.cache.insert(row, kept);
        proof {
            if full {
                assert(self.spec_cache() =~= Map::<u64, Seq<Seq<char>>>::empty().insert(row, cells.deep_view()));
            } else {
                assert(!before.contains_key(row));
                assert(self.cache@.len() == before.len() + 1);
                assert(self.spec_cache() =~= old(self).spec_cache().insert(row, cells.deep_view()));
            }
        }
        cells
    }
}


/// Byte offset where data row `r` begins.
pub open spec fn row_offset(data: Seq<u8>, first_data_line: nat, r: int) -> int {
    line_span(data, r + first_data_line).0
}

/// Data row that holds byte offset `o`.
pub open spec fn offset_row(data: Seq<u8>, first_data_line: nat, o: int) -> int {
    sat_sub(line_of_offset(data, o), first_data_line as int)
}

/// Result of searching for `needle` from the row after `anchor` (forward) or
/// before it (backward), wrapping around the end or start of the file once:
/// the row of the match found and whether the search wrapped past `anchor`.
#[verifier::opaque]
pub open spec fn search_outcome(data: Seq<u8>, first_data_line: nat, needle: Seq<u8>, anchor: Option<u64>,
    dir: Direction, ci: bool) -> Option<(int, bool)>
{
    let total = sat_sub(line_count(data) as int, first_data_line as int);
    if total == 0 || needle.len() == 0 {
        None
    } else {
        match dir {
            Direction::Forward => {
                let start_row = match anchor { Some(a) => a + 1, None => 0 };
                let first_try = if start_row < total {
                    first_match(data, needle, row_offset(data, first_data_line, start_row), ci)
                } else {
                    None
                };
                match first_try {
                    Some(p) => Some((offset_row(data, first_data_line, p), false)),
                    None => match first_match(data, needle, row_offset(data, first_data_line, 0), ci) {
                        Some(p) => {
                            let row = offset_row(data, first_data_line, p);
                            Some((row, match anchor { Some(a) => row <= a, None => false }))
                        },
                        None => None,
                    },
                }
            },
            Direction::Backward => {
                let end = match anchor {
                    Some(a) => row_offset(data, first_data_line, a as int),
                    None => data.len() as int,
                };
                match last_match(data, needle, end, ci) {
                    Some(p) => Some((offset_row(data, first_data_line, p), false)),
                    None => match last_match(data, needle, data.len() as int, ci) {
                        Some(p) => {
                            let row = offset_row(data, first_data_line, p);
                            Some((row, match anchor { Some(a) => row >= a, None => false }))
                        },
                        None => None,
                    },
                }
            },
        }
    }
}

/// A search result as mathematical integers.
pub open spec fn outcome_of(r: Option<(u64, bool)>) -> Option<(int, bool)> {
    match r {
        Some((row, wrapped)) => Some((row as int, wrapped)),
        None => None,
    }
}

impl TableModel {
    fn row_to_offset(&self, data: &[u8], r: u64) -> (o: usize)
        requires
            self.models(data@),
            r + self.first_data_line <= u64::MAX,
        ensures
            o == row_offset(data@, self.spec_first_data_line(), r as int),
            o <= data.len(),
    {
        proof {
            crate::lines::lemma_span_bounds(data@, r + self.first_data_line);
        }
        self.index.line_start(data, r + self.first_data_line)
    }

    fn off_to_row(&self, data: &[u8], o: usize) -> (r: u64)
        requires
            self.models(data@),
        ensures
            r == offset_row(data@, self.spec_first_data_line(), o as int),
    {
        self.index.line_at_offset(data, o).saturating_sub(self.first_data_line)
    }

    /// Locate the next/previous data row matching `needle`, starting relative
    /// to `anchor` (the previously matched row). Returns `(row, wrapped)` where
    /// `wrapped` indicates the search wrapped around the end/start of the file.
    pub fn search_rows(&self, data: &[u8], needle: &[u8], anchor: Option<u64>, dir: Direction, ci: bool) -> (r: Option<(u64, bool)>)
        requires
            self.models(data@),
            dir == Direction::Forward ==> (anchor matches Some(a) ==> a < u64::MAX),
        ensures
            outcome_of(r) == search_outcome(data@, self.spec_first_data_line(), needle@, anchor, dir, ci),
    {
        reveal(search_outcome);
        let total = self.data_rows(data);
        if total == 0 || needle.len() == 0 {
            return None;
        }
        proof {
            self.index.lemma_counts(data@);
        }
        match dir {
            Direction::Forward => {
                let start_row: u64 = match anchor { Some(a) => a + 1, None => 0 };
                if start_row < total {
                    let from = self.row_to_offset(data, start_row);
                    if let Some(p) = find_fwd(data, needle, from, ci) {
                        return Some((self.off_to_row(data, p), false));
                    }
                }
                let top = self.row_to_offset(data, 0);
                if let Some(p) = find_fwd(data, needle, top, ci) {
                    let row = self.off_to_row(data, p);
                    let wrapped = match anchor { Some(a) => row <= a, None => false };
                    return Some((row, wrapped));
                }
                None
            },
            Direction::Backward => {
                let end: usize = match anchor {
                    Some(a) => self.row_to_offset(data, a),
                    None => data.len(),
                };
                if let Some(p) = find_bwd(data, needle, end, ci) {
                    return Some((self.off_to_row(data, p), false));
                }
                if let Some(p) = find_bwd(data, needle, data.len(), ci) {
                    let row = self.off_to_row(data, p);
                    let wrapped = match anchor { Some(a) => row >= a, None => false };
                    return Some((row, wrapped));
                }
                None
            },
        }
    }
}


/// `parts` joined with `sep` between consecutive parts.
pub open spec fn join_with(parts: Seq<Seq<char>>, sep: char) -> Seq<char>
    decreases parts.len(),
{
    if parts.len() == 0 {
        seq![]
    } else if parts.len() == 1 {
        parts[0]
    } else {
        join_with(parts.drop_last(), sep) + seq![sep] + parts.last()
    }
}

proof fn lemma_join_push(parts: Seq<Seq<char>>, sep: char, x: Seq<char>)
    ensures
        join_with(parts.push(x), sep) == if parts.len() == 0 { x } else { join_with(parts, sep) + seq![sep] + x },
{
    assert(parts.push(x).drop_last() =~= parts);
}

/// Cell `c` of a row, empty past its last cell.
pub open spec fn cell_at(cells: Seq<Seq<char>>, c: int) -> Seq<char> {
    if 0 <= c < cells.len() { cells[c] } else { seq![] }
}

/// Last selected column that the table has (`ncols` columns).
pub open spec fn last_shown_col(sel: CellSel, ncols: int) -> int {
    if sel.cols().1 < ncols { sel.cols().1 } else { ncols - 1 }
}

/// One row of a copied selection: its selected cells that lie within the
/// `ncols` columns, separated by tabs.
pub open spec fn tsv_line(cells: Seq<Seq<char>>, sel: CellSel, ncols: int) -> Seq<char> {
    let lo = sel.cols().0;
    let hi = last_shown_col(sel, ncols);
    join_with(Seq::new(if hi >= lo { (hi - lo + 1) as nat } else { 0 }, |k: int| cell_at(cells, lo + k)), '\t')
}

impl TableModel {
    /// The rows `lo..=lo + k - 1` of a selection as tab-separated lines.
    pub open spec fn tsv_lines(&self, data: Seq<u8>, sel: CellSel, ncols: int, k: nat) -> Seq<Seq<char>> {
        Seq::new(k, |i: int| tsv_line(self.cells_of(data, sel.rows().0 + i), sel, ncols))
    }

    /// A selection as text: one tab-separated line per selected row.
    pub open spec fn tsv_text(&self, data: Seq<u8>, sel: CellSel, ncols: int) -> Seq<char> {
        join_with(self.tsv_lines(data, sel, ncols, (sel.rows().1 - sel.rows().0 + 1) as nat), '\n')
    }

    fn tsv_row(cells: &Vec<String>, sel: CellSel, ncols: usize) -> (line: String)
        ensures
            line@ == tsv_line(cells.deep_view(), sel, ncols as int),
    {
        let (lo, hi) = sel.col_bounds();
        let mut line = String::new();
        let ghost mut parts: Seq<Seq<char>> = seq![];
        let mut c: usize = lo;
        loop
            invariant_except_break
                parts.len() == if c < ncols { c - lo } else if ncols > lo { ncols - lo } else { 0 },
            invariant
                lo == sel.cols().0,
                hi == sel.cols().1,
                lo <= c <= hi,
                forall|k: int| 0 <= k < parts.len() ==> #[trigger] parts[k] == cell_at(cells.deep_view(), lo + k),
                line@ == join_with(parts, '\t'),
            ensures
                parts.len() == if last_shown_col(sel, ncols as int) >= lo { last_shown_col(sel, ncols as int) - lo + 1 } else { 0 },
                forall|k: int| 0 <= k < parts.len() ==> #[trigger] parts[k] == cell_at(cells.deep_view(), lo + k),
                line@ == join_with(parts, '\t'),
            decreases hi - c,
        {
            if c < ncols {
                let cell = if c < cells.len() {
                    cells[c].clone()
                } else {
                    String::new()
                };
                if c > lo {
                    push_char(&mut line, '\t');
                }
                line.append(cell.as_str());
                proof {
                    lemma_join_push(parts, '\t', cell_at(cells.deep_view(), c as int));
                    parts = parts.push(cell_at(cells.deep_view(), c as int));
                }
            }
            if c == hi {
                break;
            }
            c = c + 1;
        }
        proof {
            let n = parts.len();
            assert(parts =~= Seq::new(n, |k: int| cell_at(cells.deep_view(), lo + k)));
        }
        line
    }

    /// Serialize the cell selection as tab-separated rows (TSV), suitable for
    /// pasting into a spreadsheet. Returns `None` if nothing is selected.
    pub fn selection_to_tsv(&mut self, data: &[u8], sel: Option<CellSel>, ncols: usize) -> (text: Option<String>)
        requires
            old(self).models(data@),
        ensures
            final(self).models(data@),
            final(self).spec_index() == old(self).spec_index(),
            final(self).spec_format() == old(self).spec_format(),
            final(self).spec_headers() == old(self).spec_headers(),
            final(self).spec_first_data_line() == old(self).spec_first_data_line(),
            match sel {
                Some(s) => text matches Some(t) && t@ == old(self).tsv_text(data@, s, ncols as int),
                None => text is None && *final(self) == *old(self),
            },
            final(self).cache_size() <= CACHE_LIMIT + 1,
    {
        let sel = match sel {
            Some(s) => s,
            None => return None,
        };
        let (lo, hi) = sel.row_bounds();
        let ghost first = *old(self);
        let mut out = String::new();
        let mut r: u64 = lo;
        loop
            invariant_except_break
                out@ == join_with(first.tsv_lines(data@, sel, ncols as int, (r - lo) as nat), '\n'),
            invariant
                self.models(data@),
                self.spec_index() == first.spec_index(),
                self.spec_format() == first.spec_format(),
                self.spec_headers() == first.spec_headers(),
                self.spec_first_data_line() == first.spec_first_data_line(),
                lo == sel.rows().0,
                hi == sel.rows().1,
                first.spec_first_data_line() == 0,
                lo <= r <= hi,
            ensures
                self.models(data@),
                self.spec_index() == first.spec_index(),
                self.spec_format() == first.spec_format(),
                self.spec_headers() == first.spec_headers(),
                self.spec_first_data_line() == first.spec_first_data_line(),
                out@ == join_with(first.tsv_lines(data@, sel, ncols as int, (hi - lo + 1) as nat), '\n'),
            decreases hi - r,
        {
            let cells = self.row(data, r);
            let line = TableModel::tsv_row(&cells, sel, ncols);
            if r > lo {
                push_char(&mut out, '\n');
            }
            out.append(line.as_str());
            proof {
                let prev = first.tsv_lines(data@, sel, ncols as int, (r - lo) as nat);
                lemma_join_push(prev, '\n', line@);
                assert(first.tsv_lines(data@, sel, ncols as int, (r - lo + 1) as nat) =~= prev.push(line@));
            }
            if r == hi {
                break;
            }
            r = r + 1;
        }
        Some(out)
    }
}

} // verus!
