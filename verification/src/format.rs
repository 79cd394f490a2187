//! File-format detection and per-line parsing.
//!
//! Only the rows being shown are ever parsed, so the cost of parsing is
//! bounded by the number of visible rows rather than by the size of the file.

use vstd::prelude::*;
use crate::text::{
    ascii_lower, decimal, decimal_digits, decode_lossy, lossy_text, lower_ascii, push_chars,
};

verus! {

/// Kind of data a file holds, chosen from its extension.
#[derive(Clone, Copy, PartialEq, Eq, Debug, Structural)]
pub enum Format {
    /// Comma-separated values; every line is data.
    Csv,
    /// Tab-separated values; every line is data.
    Tsv,
    /// Newline-delimited JSON (one JSON object per line).
    Ndjson,
    /// Plain text, one column per line.
    Txt,
}

/// The format of a file whose extension is `ext` (compared ignoring ASCII case).
pub open spec fn format_for_extension(ext: Option<Seq<char>>) -> Format {
    match ext {
        Some(e) => {
            let l = lower_ascii(e);
            if l == seq!['c', 's', 'v'] {
                Format::Csv
            } else if l == seq!['t', 's', 'v'] {
                Format::Tsv
            } else if l == seq!['j', 's', 'o', 'n'] || l == seq!['n', 'd', 'j', 's', 'o', 'n']
                || l == seq!['j', 's', 'o', 'n', 'l'] {
                Format::Ndjson
            } else {
                Format::Txt
            }
        },
        None => Format::Txt,
    }
}

/// `e` can be the extension of path `p`: it follows a `.` somewhere in `p`
/// and holds no `.` itself.
pub open spec fn extension_in_path(p: Seq<char>, e: Seq<char>) -> bool {
    &&& forall|j: int| 0 <= j < e.len() ==> e[j] != '.'
    &&& exists|i: int| 0 <= i && i + 1 + e.len() <= p.len() && p[i] == '.' && #[trigger] p.subrange(i + 1, i + 1 + e.len()) == e
}

/// Index of the last `c` in `s`, or `-1` when there is none.
pub open spec fn last_index(s: Seq<char>, c: char) -> int
    decreases s.len(),
{
    if s.len() == 0 {
        -1
    } else if s.last() == c {
        s.len() - 1
    } else {
        last_index(s.drop_last(), c)
    }
}

/// `p` without the `/` characters at its end.
pub open spec fn trim_end_slashes(p: Seq<char>) -> Seq<char>
    decreases p.len(),
{
    if p.len() > 0 && p.last() == '/' {
        trim_end_slashes(p.drop_last())
    } else {
        p
    }
}

/// The last component of `p` read with `/` as the separator: the text after
/// the last `/` once the `/` characters at its end are dropped (all of it
/// when it has no `/`).
pub open spec fn file_part(p: Seq<char>) -> Seq<char> {
    let q = trim_end_slashes(p);
    q.subrange(last_index(q, '/') + 1, q.len() as int)
}

/// `p` reads the same on every platform, with `/` as its only separator: it
/// holds no `\` and no `:` and does not begin with `//` (so no platform
/// reads a drive, a share or a device prefix in it), and its last component
/// (see [`file_part`]; separators at the end are ignored) is a file name:
/// not empty, not `.` and not `..`.
pub open spec fn slash_path(p: Seq<char>) -> bool {
    &&& forall|j: int| 0 <= j < p.len() ==> p[j] != '\\' && p[j] != ':'
    &&& !(p.len() >= 2 && p[0] == '/' && p[1] == '/')
    &&& file_part(p).len() > 0
    &&& file_part(p) != seq!['.']
    &&& file_part(p) != seq!['.', '.']
}

/// Index of the last `/` or `\` in `s`, or `-1` when there is none.
pub open spec fn last_separator(s: Seq<char>) -> int
    decreases s.len(),
{
    if s.len() == 0 {
        -1
    } else if s.last() == '/' || s.last() == '\\' {
        s.len() - 1
    } else {
        last_separator(s.drop_last())
    }
}

/// The text of `p` after its last `/` or `\`: its file name when both
/// count as separators.
pub open spec fn windows_name(p: Seq<char>) -> Seq<char> {
    p.subrange(last_separator(p) + 1, p.len() as int)
}

/// `p` is a path from a drive's root, `X:\...` with `X` an ASCII letter,
/// whose file name (see [`windows_name`]) has a `.` after its first
/// character and is not `..`. On Windows that name is its last component;
/// elsewhere the last component is a longer text ending in that name, so
/// its final `.` is the same one; either way the extension is the same.
pub open spec fn drive_path(p: Seq<char>) -> bool {
    &&& p.len() >= 3
    &&& (('A' <= p[0] && p[0] <= 'Z') || ('a' <= p[0] && p[0] <= 'z'))
    &&& p[1] == ':'
    &&& p[2] == '\\'
    &&& last_index(windows_name(p), '.') > 0
    &&& windows_name(p) != seq!['.', '.']
}

/// Extension of the file name `name` as `std` documents it: the text after
/// its final `.`; none when it has no `.` or its only `.` is its first
/// character.
pub open spec fn name_extension(name: Seq<char>) -> Option<Seq<char>> {
    let i = last_index(name, '.');
    if i > 0 {
        Some(name.subrange(i + 1, name.len() as int))
    } else {
        None
    }
}

/// `std::path::Path::extension` of `path`, as text. How a path splits into
/// components depends on the platform (which characters separate them and
/// which prefixes it knows), so the result is not named. The contract states
/// what holds on every platform: an extension is text that follows a `.` of
/// the path and holds no `.`, so a path without a `.` has none; and for a
/// path whose only separator is `/` (see [`slash_path`]) the file name is
/// its last component, the text after the last `/` once trailing `/` are
/// dropped, whose extension is the text after its final `.` unless that `.`
/// is its first character. Likewise a path from a drive's root, `X:\...`
/// (see [`drive_path`]), whose file name after the last `/` or `\` has a `.`
/// after its first character: on every platform its extension is the text
/// after that name's final `.`. For other paths with `\`, `:` or a leading
/// `//`, or whose last component is `.` or `..`, which `.` the extension
/// follows is left unsaid.
#[verifier::external_body]
fn path_extension(path: &str) -> (r: Option<String>)
    ensures
        r matches Some(e) ==> extension_in_path(path@, e@),
        (forall|j: int| 0 <= j < path@.len() ==> path@[j] != '.') ==> r is None,
        slash_path(path@) ==> r.deep_view() == name_extension(file_part(path@)),
        drive_path(path@) ==> r.deep_view() == name_extension(windows_name(path@)),
{
    std::path::Path::new(path).extension().and_then(|e| e.to_str()).map(|e| e.to_string())
}

/// `s` equals `word` once its ASCII letters are put in lower case.
fn is_word(s: &str, word: &[char]) -> (b: bool)
    ensures
        b == (lower_ascii(s@) == word@),
{
    let n = s.unicode_len();
    if n != word.len() {
        return false;
    }
    let mut i: usize = 0;
    while i < n
        invariant
            n == s@.len(),
            n == word@.len(),
            i <= n,
            forall|j: int| 0 <= j < i ==> ascii_lower(s@[j]) == word@[j],
        decreases n - i,
    {
        let c = s.get_char(i);
        let l = if 'A' <= c && c <= 'Z' { ((c as u32) + 32) as u8 as char } else { c };
        proof {
            if 'A' <= c && c <= 'Z' {
                assert((((c as u32) + 32) as u8 as char) == ascii_lower(c));
            }
        }
        if l != word[i] {
            proof {
                assert(lower_ascii(s@)[i as int] != word@[i as int]);
            }
            return false;
        }
        i = i + 1;
    }
    proof {
        assert(lower_ascii(s@) =~= word@);
    }
    true
}

impl Format {
    /// The format for a file extension, compared ignoring ASCII case:
    /// `csv`, `tsv`, `json`/`ndjson`/`jsonl`, anything else (or none) is text.
    pub fn from_extension(ext: Option<&str>) -> (f: Format)
        ensures
            f == format_for_extension(ext.deep_view()),
    {
        match ext {
            Some(e) => {
                if is_word(e, &['c', 's', 'v']) {
                    Format::Csv
                } else if is_word(e, &['t', 's', 'v']) {
                    Format::Tsv
                } else if is_word(e, &['j', 's', 'o', 'n']) || is_word(e, &['n', 'd', 'j', 's', 'o', 'n'])
                    || is_word(e, &['j', 's', 'o', 'n', 'l']) {
                    Format::Ndjson
                } else {
                    Format::Txt
                }
            },
            None => Format::Txt,
        }
    }

    /// The format of the file at `path`, chosen from its extension; text
    /// when the path has no `.` at all. For a path whose only separator is
    /// `/`, the extension is that of its last component (trailing `/`
    /// ignored): the text after its final `.` (unless that `.` is its first
    /// character). The same holds of a path from a drive's root, `X:\...`,
    /// whose file name after the last `/` or `\` has a `.` after its first
    /// character.
    pub fn from_path(path: &str) -> (f: Format)
        ensures
            f == Format::Txt || exists|e: Seq<char>| extension_in_path(path@, e) && f == format_for_extension(Some(e)),
            (forall|j: int| 0 <= j < path@.len() ==> path@[j] != '.') ==> f == Format::Txt,
            slash_path(path@) ==> f == format_for_extension(name_extension(file_part(path@))),
            drive_path(path@) ==> f == format_for_extension(name_extension(windows_name(path@))),
    {
        let ext = path_extension(path);
        match ext {
            Some(e) => {
                let f = Format::from_extension(Some(e.as_str()));
                proof {
                    assert(extension_in_path(path@, e@));
                }
                f
            },
            None => Format::Txt,
        }
    }

    /// Name of the format shown in the status bar.
    pub fn label(self) -> (s: &'static str)
        ensures
            s@ == match self {
                Format::Csv => "CSV"@,
                Format::Tsv => "TSV"@,
                Format::Ndjson => "JSON (lines)"@,
                Format::Txt => "Text"@,
            },
    {
        match self {
            Format::Csv => "CSV",
            Format::Tsv => "TSV",
            Format::Ndjson => "JSON (lines)",
            Format::Txt => "Text",
        }
    }

    /// Field separator of the delimited formats: tab for TSV, comma otherwise.
    pub fn delimiter(self) -> (d: u8)
        ensures
            d == (if self == Format::Tsv { 0x09u8 } else { 0x2cu8 }),
    {
        match self {
            Format::Tsv => 0x09u8,
            _ => 0x2cu8,
        }
    }

    /// Whether the first physical line is a header that should not be shown as
    /// a data row. No format treats the first line as a header; every physical
    /// line is shown as data.
    pub fn has_header(self) -> (b: bool)
        ensures
            !b,
    {
        false
    }
}


// ---------------------------------------------------------------------------
// Delimited lines
// ---------------------------------------------------------------------------

/// Fields of the first record that the `csv` crate reads from `bytes` with
/// field separator `delimiter`, no header row and records of any length;
/// `None` when it reads no record or the record is not valid UTF-8.
pub uninterp spec fn csv_first_record(bytes: Seq<u8>, delimiter: u8) -> Option<Seq<Seq<char>>>;

/// `csv::ReaderBuilder` (given delimiter, `has_headers(false)`,
/// `flexible(true)`) over `bytes`, then the first item of `records()`: its
/// fields as strings when it is a record, `None` when it is absent or an
/// error. Quoting and escaping follow the crate, so the result is named.
/// A record the crate reads has at least one field: its reader skips empty
/// lines, and any other line starts a field that the record then ends.
#[verifier::external_body]
fn read_first_record(bytes: &[u8], delimiter: u8) -> (r: Option<Vec<String>>)
    ensures
        r.deep_view() == csv_first_record(bytes@, delimiter),
        r matches Some(fields) ==> fields.len() > 0,
{
    let mut reader = csv::ReaderBuilder::new()
        .delimiter(delimiter)
        .has_headers(false)
        .flexible(true)
        .from_reader(bytes);
    match reader.records().next() {
        Some(Ok(record)) => Some(record.iter().map(|f| f.to_string()).collect()),
        _ => None,
    }
}

/// Cells of a delimited line `bytes` whose first record reads as `record`:
/// its fields, or the whole line as one cell when no record was read.
pub open spec fn record_cells(record: Option<Seq<Seq<char>>>, bytes: Seq<u8>) -> Seq<Seq<char>> {
    match record {
        Some(fields) => fields,
        None => seq![lossy_text(bytes)],
    }
}

/// Cells of a delimited line: the fields of its first record, or the whole
/// line as one cell when no record can be read.
pub open spec fn delimited_cells(bytes: Seq<u8>, delimiter: u8) -> Seq<Seq<char>> {
    record_cells(csv_first_record(bytes, delimiter), bytes)
}

/// Cells of the delimited line `bytes` given what reading its first record
/// gave: the record's fields, or the line decoded as one cell.
pub fn cells_from_record(record: Option<Vec<String>>, bytes: &[u8]) -> (cells: Vec<String>)
    ensures
        cells.deep_view() == record_cells(record.deep_view(), bytes@),
{
    match record {
        Some(fields) => fields,
        None => {
            let line = decode_lossy(bytes);
            let cells = vec![line];
            proof {
                assert(cells.deep_view() =~= seq![lossy_text(bytes@)]);
            }
            cells
        },
    }
}

/// Split a single delimited line into fields, honouring quoted values.
pub fn parse_delimited(bytes: &[u8], delim: u8) -> (cells: Vec<String>)
    ensures
        cells.deep_view() == delimited_cells(bytes@, delim),
        cells.len() > 0,
{
    let record = read_first_record(bytes, delim);
    proof {
        if record is Some {
            assert(record.deep_view()->0.len() == record->0.len());
        }
    }
    let cells = cells_from_record(record, bytes);
    proof {
        assert(cells.deep_view().len() == cells.len());
    }
    cells
}

/// `Column {i}` for `i` in `1..=max(n, 1)`.
pub open spec fn column_names(n: nat) -> Seq<Seq<char>> {
    let count = if n > 0 { n } else { 1 };
    Seq::new(count, |i: int| "Column "@ + decimal((i + 1) as nat))
}

/// Generic column names for a delimited file whose first line has
/// `field_count` fields: `Column 1`, `Column 2`, ..., at least one.
pub fn column_headers(field_count: usize) -> (names: Vec<String>)
    ensures
        names.deep_view() == column_names(field_count as nat),
{
    let n: usize = if field_count > 1 { field_count } else { 1 };
    let mut names: Vec<String> = Vec::new();
    let mut i: usize = 0;
    while i < n
        invariant
            n == if field_count > 0 { field_count } else { 1 },
            i <= n,
            names.len() == i,
            forall|k: int| 0 <= k < i ==> (#[trigger] names@[k])@ == "Column "@ + decimal((k + 1) as nat),
        decreases n - i,
    {
        let mut name = String::new();
        name.append("Column ");
        let digits = decimal_digits((i + 1) as u64);
        push_chars(&mut name, &digits);
        names.push(name);
        i = i + 1;
    }
    proof {
        assert(names.deep_view() =~= column_names(field_count as nat));
    }
    names
}

// ---------------------------------------------------------------------------
// JSON lines
// ---------------------------------------------------------------------------

/// A member value of a JSON object, as shown in a cell.
pub enum JsonCell {
    /// A JSON string: its text, without quotes or escapes.
    Text(String),
    /// Any other JSON value: its compact JSON text.
    Json(String),
}

/// A line of a JSON-lines file, as read by `serde_json`.
pub enum JsonLine {
    /// A JSON object: its members in the order the parser keeps them.
    Object(Vec<(String, JsonCell)>),
    /// Any other JSON value: its compact JSON text.
    Value(String),
    /// Not valid JSON.
    Invalid,
}

/// Mathematical form of [`JsonCell`].
pub enum CellModel {
    Text(Seq<char>),
    Json(Seq<char>),
}

/// Mathematical form of [`JsonLine`].
pub enum LineModel {
    Object(Seq<(Seq<char>, CellModel)>),
    Value(Seq<char>),
    Invalid,
}

impl JsonCell {
    pub open spec fn model(&self) -> CellModel {
        match self {
            JsonCell::Text(s) => CellModel::Text(s@),
            JsonCell::Json(s) => CellModel::Json(s@),
        }
    }
}

/// Mathematical form of an object member.
pub open spec fn member_model(m: (String, JsonCell)) -> (Seq<char>, CellModel) {
    (m.0@, m.1.model())
}

impl JsonLine {
    pub open spec fn model(&self) -> LineModel {
        match self {
            JsonLine::Object(members) => LineModel::Object(members@.map_values(|m: (String, JsonCell)| member_model(m))),
            JsonLine::Value(s) => LineModel::Value(s@),
            JsonLine::Invalid => LineModel::Invalid,
        }
    }
}

/// No two members of `members` have the same name.
pub open spec fn distinct_names(members: Seq<(Seq<char>, CellModel)>) -> bool {
    forall|i: int, j: int| 0 <= i < j < members.len() ==> members[i].0 != members[j].0
}

/// How `serde_json` reads `bytes` as one JSON value (members of an object in
/// the order of its map, member strings unescaped, other values rendered as
/// compact JSON).
pub uninterp spec fn json_reading(bytes: Seq<u8>) -> LineModel;

/// `serde_json::from_slice::<serde_json::Value>`, with the value converted:
/// an object becomes its members (a string member as its text, any other
/// member as its `to_string()` JSON text), any other value its
/// `to_string()` JSON text, a parse error `Invalid`. The parser is named,
/// not stated. An object's members come from the crate's map (a `BTreeMap`
/// here), which holds each key once, so no two members share a name.
#[verifier::external_body]
fn read_json_line(bytes: &[u8]) -> (line: JsonLine)
    ensures
        line.model() == json_reading(bytes@),
        line.model() matches LineModel::Object(members) ==> distinct_names(members),
{
    match serde_json::from_slice::<serde_json::Value>(bytes) {
        Ok(serde_json::Value::Object(map)) => JsonLine::Object(map.into_iter().map(|(k, v)| match v {
            serde_json::Value::String(s) => (k, JsonCell::Text(s)),
            other => (k, JsonCell::Json(other.to_string())),
        }).collect()),
        Ok(other) => JsonLine::Value(other.to_string()),
        Err(_) => JsonLine::Invalid,
    }
}

/// Column names of a JSON-lines file from its first line: the keys of an
/// object, or a single `value` column.
pub open spec fn json_header_names(line: LineModel) -> Seq<Seq<char>> {
    match line {
        LineModel::Object(members) => members.map_values(|m: (Seq<char>, CellModel)| m.0),
        _ => seq!["value"@],
    }
}

/// Column names for a JSON-lines file whose first line reads as `line`.
pub fn json_headers(line: &JsonLine) -> (names: Vec<String>)
    ensures
        names.deep_view() == json_header_names(line.model()),
{
    match line {
        JsonLine::Object(members) => {
            let mut names: Vec<String> = Vec::new();
            let mut i: usize = 0;
            while i < members.len()
                invariant
                    i <= members.len(),
                    names.len() == i,
                    forall|k: int| 0 <= k < i ==> (#[trigger] names@[k])@ == members@[k].0@,
                decreases members.len() - i,
            {
                names.push(members[i].0.clone());
                i = i + 1;
            }
            proof {
                assert(names.deep_view() =~= json_header_names(line.model()));
            }
            names
        },
        _ => {
            let names = vec!["value".to_owned()];
            proof {
                assert(names.deep_view() =~= json_header_names(line.model()));
            }
            names
        },
    }
}

/// The first member of `members` named `key`.
pub open spec fn member_named(members: Seq<(Seq<char>, CellModel)>, key: Seq<char>) -> Option<CellModel>
    decreases members.len(),
{
    if members.len() == 0 {
        None
    } else if members[0].0 == key {
        Some(members[0].1)
    } else {
        member_named(members.drop_first(), key)
    }
}

/// Text of a cell: a JSON string's text, other values' JSON text, and an
/// empty cell for a missing member.
pub open spec fn cell_text(c: Option<CellModel>) -> Seq<char> {
    match c {
        Some(CellModel::Text(t)) => t,
        Some(CellModel::Json(t)) => t,
        None => Seq::empty(),
    }
}

/// Cells of a JSON line under columns `headers`: for an object the member of
/// each column's name; for another value its JSON text as one cell; for
/// invalid JSON the raw line as one cell.
pub open spec fn json_row(headers: Seq<Seq<char>>, line: LineModel, raw: Seq<u8>) -> Seq<Seq<char>> {
    match line {
        LineModel::Object(members) => headers.map_values(|h: Seq<char>| cell_text(member_named(members, h))),
        LineModel::Value(t) => seq![t],
        LineModel::Invalid => seq![lossy_text(raw)],
    }
}

/// The cell under column `key` of an object line.
fn member_cell(members: &Vec<(String, JsonCell)>, key: &String) -> (cell: String)
    ensures
        cell@ == cell_text(member_named(members@.map_values(|m: (String, JsonCell)| member_model(m)), key@)),
{
    let ghost all = members@.map_values(|m: (String, JsonCell)| member_model(m));
    proof {
        assert(all.subrange(0, all.len() as int) =~= all);
    }
    let mut i: usize = 0;
    while i < members.len()
        invariant
            i <= members.len(),
            all == members@.map_values(|m: (String, JsonCell)| member_model(m)),
            member_named(all, key@) == member_named(all.subrange(i as int, all.len() as int), key@),
        decreases members.len() - i,
    {
        let ghost rest = all.subrange(i as int, all.len() as int);
        proof {
            assert(rest[0] == member_model(members@[i as int]));
            assert(rest.drop_first() =~= all.subrange(i + 1, all.len() as int));
        }
        if members[i].0 == *key {
            return match &members[i].1 {
                JsonCell::Text(t) => t.clone(),
                JsonCell::Json(t) => t.clone(),
            };
        }
        i = i + 1;
    }
    proof {
        assert(all.subrange(i as int, all.len() as int).len() == 0);
    }
    String::new()
}

/// Cells of a JSON line under columns `headers`; `raw` is the line's bytes,
/// shown as one cell when the line is not valid JSON.
pub fn json_cells(headers: &[String], line: &JsonLine, raw: &[u8]) -> (cells: Vec<String>)
    ensures
        cells.deep_view() == json_row(headers.deep_view(), line.model(), raw@),
{
    match line {
        JsonLine::Object(members) => {
            let mut cells: Vec<String> = Vec::new();
            let mut i: usize = 0;
            while i < headers.len()
                invariant
                    i <= headers.len(),
                    cells.len() == i,
                    forall|k: int| 0 <= k < i ==> (#[trigger] cells@[k])@ == cell_text(member_named(
                        members@.map_values(|m: (String, JsonCell)| member_model(m)), headers@[k]@)),
                decreases headers.len() - i,
            {
                let c = member_cell(members, &headers[i]);
                cells.push(c);
                i = i + 1;
            }
            proof {
                assert(cells.deep_view() =~= json_row(headers.deep_view(), line.model(), raw@));
            }
            cells
        },
        JsonLine::Value(t) => {
            let cells = vec![t.clone()];
            proof {
                assert(cells.deep_view() =~= json_row(headers.deep_view(), line.model(), raw@));
            }
            cells
        },
        JsonLine::Invalid => {
            let cells = vec![decode_lossy(raw)];
            proof {
                assert(cells.deep_view() =~= json_row(headers.deep_view(), line.model(), raw@));
            }
            cells
        },
    }
}

// ---------------------------------------------------------------------------
// Headers and rows of any format
// ---------------------------------------------------------------------------

/// Column headers of a file of format `format` whose first line is `first`.
pub open spec fn header_row(format: Format, first: Seq<u8>) -> Seq<Seq<char>> {
    match format {
        Format::Csv | Format::Tsv => column_names(delimited_cells(first, if format == Format::Tsv { 0x09u8 } else { 0x2cu8 }).len()),
        Format::Ndjson => json_header_names(json_reading(first)),
        Format::Txt => seq!["line"@],
    }
}

/// Cells of data line `bytes` of a file of format `format` with columns `headers`.
pub open spec fn data_row(format: Format, headers: Seq<Seq<char>>, bytes: Seq<u8>) -> Seq<Seq<char>> {
    match format {
        Format::Csv | Format::Tsv => delimited_cells(bytes, if format == Format::Tsv { 0x09u8 } else { 0x2cu8 }),
        Format::Ndjson => json_row(headers, json_reading(bytes), bytes),
        Format::Txt => seq![lossy_text(bytes)],
    }
}

/// Compute the column headers for a file given its format and first line.
pub fn headers(format: Format, first_line: &[u8]) -> (names: Vec<String>)
    ensures
        names.deep_view() == header_row(format, first_line@),
        format == Format::Ndjson ==> names.deep_view().no_duplicates(),
{
    match format {
        Format::Csv | Format::Tsv => {
            let fields = parse_delimited(first_line, format.delimiter());
            column_headers(fields.len())
        },
        Format::Ndjson => {
            let line = read_json_line(first_line);
            let names = json_headers(&line);
            proof {
                let v = names.deep_view();
                if let LineModel::Object(members) = line.model() {
                    assert forall|i: int, j: int| 0 <= i < v.len() && 0 <= j < v.len() && i != j implies v[i] != v[j] by {
                        if i < j {
                            assert(members[i].0 != members[j].0);
                        } else {
                            assert(members[j].0 != members[i].0);
                        }
                    }
                }
            }
            names
        },
        Format::Txt => {
            let names = vec!["line".to_owned()];
            proof {
                assert(names.deep_view() =~= header_row(format, first_line@));
            }
            names
        },
    }
}

/// Parse a single data line into cells aligned with `headers`.
pub fn parse_row(format: Format, headers: &[String], bytes: &[u8]) -> (cells: Vec<String>)
    ensures
        cells.deep_view() == data_row(format, headers.deep_view(), bytes@),
        format != Format::Ndjson ==> cells.len() > 0,
{
    match format {
        Format::Csv | Format::Tsv => parse_delimited(bytes, format.delimiter()),
        Format::Ndjson => {
            let line = read_json_line(bytes);
            json_cells(headers, &line, bytes)
        },
        Format::Txt => {
            let cells = vec![decode_lossy(bytes)];
            proof {
                assert(cells.deep_view() =~= data_row(format, headers.deep_view(), bytes@));
            }
            cells
        },
    }
}


} // verus!
