use dinosaur::format::{
    cells_from_record, column_headers, headers, json_cells, json_headers, parse_delimited, parse_row, Format, JsonCell, JsonLine,
};

fn strings(v: &[&str]) -> Vec<String> {
    v.iter().map(|s| s.to_string()).collect()
}

#[test]
fn format_from_path_uses_the_extension() {
    assert_eq!(Format::from_path("data/table.csv"), Format::Csv);
    assert_eq!(Format::from_path("TABLE.CSV"), Format::Csv);
    assert_eq!(Format::from_path("x.tsv"), Format::Tsv);
    assert_eq!(Format::from_path("x.Json"), Format::Ndjson);
    assert_eq!(Format::from_path("x.ndjson"), Format::Ndjson);
    assert_eq!(Format::from_path("x.jsonl"), Format::Ndjson);
    assert_eq!(Format::from_path("x.txt"), Format::Txt);
    assert_eq!(Format::from_path("x.log"), Format::Txt);
    assert_eq!(Format::from_path("noext"), Format::Txt);
    assert_eq!(Format::from_path(".csv"), Format::Txt);
    assert_eq!(Format::from_path("archive.csv.gz"), Format::Txt);
}

#[test]
fn format_from_extension_ignores_case() {
    assert_eq!(Format::from_extension(Some("cSv")), Format::Csv);
    assert_eq!(Format::from_extension(Some("TSV")), Format::Tsv);
    assert_eq!(Format::from_extension(Some("JSONL")), Format::Ndjson);
    assert_eq!(Format::from_extension(Some("csvx")), Format::Txt);
    assert_eq!(Format::from_extension(Some("")), Format::Txt);
    assert_eq!(Format::from_extension(None), Format::Txt);
}

#[test]
fn labels_delimiters_and_header_flags() {
    assert_eq!(Format::Csv.label(), "CSV");
    assert_eq!(Format::Tsv.label(), "TSV");
    assert_eq!(Format::Ndjson.label(), "JSON (lines)");
    assert_eq!(Format::Txt.label(), "Text");
    assert_eq!(Format::Tsv.delimiter(), b'\t');
    assert_eq!(Format::Csv.delimiter(), b',');
    assert_eq!(Format::Txt.delimiter(), b',');
    for f in [Format::Csv, Format::Tsv, Format::Ndjson, Format::Txt] {
        assert!(!f.has_header());
    }
}

#[test]
fn delimited_lines_honour_quotes() {
    assert_eq!(parse_delimited(b"a,\"b,c\",d", b','), strings(&["a", "b,c", "d"]));
    assert_eq!(parse_delimited(b"a\t\"x\"\"y\"\tz", b'\t'), strings(&["a", "x\"y", "z"]));
    assert_eq!(parse_delimited(b"a,b\tc", b'\t'), strings(&["a,b", "c"]));
    assert_eq!(parse_delimited(b"", b','), strings(&[""]));
}

#[test]
fn delimited_line_that_is_not_utf8_is_one_cell() {
    assert_eq!(parse_delimited(b"ab\xffc,d", b','), vec!["ab\u{fffd}c,d".to_string()]);
}

#[test]
fn column_headers_are_numbered_from_one() {
    assert_eq!(column_headers(0), strings(&["Column 1"]));
    assert_eq!(column_headers(1), strings(&["Column 1"]));
    assert_eq!(column_headers(3), strings(&["Column 1", "Column 2", "Column 3"]));
    assert_eq!(column_headers(12)[11], "Column 12");
}

#[test]
fn headers_per_format() {
    assert_eq!(headers(Format::Csv, b"a,b,c"), strings(&["Column 1", "Column 2", "Column 3"]));
    assert_eq!(headers(Format::Tsv, b"a\tb"), strings(&["Column 1", "Column 2"]));
    assert_eq!(headers(Format::Csv, b""), strings(&["Column 1"]));
    assert_eq!(headers(Format::Ndjson, b"{\"b\":1,\"a\":\"x\"}"), strings(&["a", "b"]));
    assert_eq!(headers(Format::Ndjson, b"[1,2]"), strings(&["value"]));
    assert_eq!(headers(Format::Ndjson, b"not json"), strings(&["value"]));
    assert_eq!(headers(Format::Ndjson, b"{}"), Vec::<String>::new());
    assert_eq!(headers(Format::Txt, b"anything"), strings(&["line"]));
}

#[test]
fn rows_per_format() {
    let cols = strings(&["a", "b", "c"]);
    assert_eq!(parse_row(Format::Csv, &cols, b"1,2"), strings(&["1", "2"]));
    assert_eq!(parse_row(Format::Tsv, &cols, b"1\t2\t3"), strings(&["1", "2", "3"]));
    assert_eq!(
        parse_row(Format::Ndjson, &cols, b"{\"a\":\"x\",\"b\":1.5,\"d\":true,\"c\":null}"),
        strings(&["x", "1.5", "null"])
    );
    assert_eq!(parse_row(Format::Ndjson, &cols, b"{\"a\":{\"k\":[1,2]}}"), strings(&["{\"k\":[1,2]}", "", ""]));
    assert_eq!(parse_row(Format::Ndjson, &cols, b"\"hi\""), strings(&["\"hi\""]));
    assert_eq!(parse_row(Format::Ndjson, &cols, b"{oops"), strings(&["{oops"]));
    assert_eq!(parse_row(Format::Txt, &cols, b"plain, text"), strings(&["plain, text"]));
}

#[test]
fn json_members_keep_strings_unquoted_and_render_other_values() {
    let cols = strings(&["k", "n", "s"]);
    assert_eq!(
        parse_row(Format::Ndjson, &cols, b"{\"s\":\"a\\\"b\",\"n\":[1, 2 ,3],\"k\":\"v\"}"),
        strings(&["v", "[1,2,3]", "a\"b"])
    );
    assert_eq!(parse_row(Format::Ndjson, &cols, b"  true "), strings(&["true"]));
    assert_eq!(parse_row(Format::Ndjson, &cols, b"{"), strings(&["{"]));
}

#[test]
fn json_cells_follow_the_headers() {
    let cols = strings(&["b", "missing", "a"]);
    let line = JsonLine::Object(vec![
        ("a".to_string(), JsonCell::Text("alpha".to_string())),
        ("b".to_string(), JsonCell::Json("[1]".to_string())),
    ]);
    assert_eq!(json_cells(&cols, &line, b"ignored"), strings(&["[1]", "", "alpha"]));
    assert_eq!(json_cells(&cols, &JsonLine::Value("3".to_string()), b"3"), strings(&["3"]));
    assert_eq!(json_cells(&cols, &JsonLine::Invalid, b"raw line"), strings(&["raw line"]));
    assert_eq!(json_headers(&line), strings(&["a", "b"]));
    assert_eq!(json_headers(&JsonLine::Invalid), strings(&["value"]));
}

#[test]
fn bare_file_names_use_the_text_after_the_last_dot() {
    assert_eq!(Format::from_path("r.csv"), Format::Csv);
    assert_eq!(Format::from_path("a.b.tsv"), Format::Tsv);
    assert_eq!(Format::from_path("x.csv."), Format::Txt);
    assert_eq!(Format::from_path(".jsonl"), Format::Txt);
    assert_eq!(Format::from_path("..json"), Format::Ndjson);
    assert_eq!(Format::from_path(".."), Format::Txt);
}

#[test]
fn paths_with_directories_use_the_last_component() {
    assert_eq!(Format::from_path("a/b.JSONL"), Format::Ndjson);
    assert_eq!(Format::from_path("/tmp/data/x.tsv"), Format::Tsv);
    assert_eq!(Format::from_path("dir.csv/notes"), Format::Txt);
    assert_eq!(Format::from_path("a.b/c.d/e.csv"), Format::Csv);
    assert_eq!(Format::from_path("/data/.csv"), Format::Txt);
    assert_eq!(Format::from_path("./rows.ndjson"), Format::Ndjson);
}

#[test]
fn cells_from_a_record_or_the_whole_line() {
    let fields = vec!["a".to_string(), "b".to_string()];
    assert_eq!(cells_from_record(Some(fields.clone()), b"ignored"), fields);
    assert_eq!(cells_from_record(None, b"x\xff"), vec!["x\u{fffd}".to_string()]);
}

#[test]
fn rows_outside_json_ignore_the_headers() {
    let a = strings(&["x"]);
    let b = strings(&["p", "q", "r"]);
    for f in [Format::Csv, Format::Tsv, Format::Txt] {
        assert_eq!(parse_row(f, &a, b"1,2\t3"), parse_row(f, &b, b"1,2\t3"));
    }
    assert_eq!(parse_row(Format::Txt, &a, b"a\xffb"), vec!["a\u{fffd}b".to_string()]);
}

#[test]
fn trailing_slashes_do_not_hide_the_extension() {
    assert_eq!(Format::from_path("dir/x.csv/"), Format::Csv);
    assert_eq!(Format::from_path("x.tsv//"), Format::Tsv);
    assert_eq!(Format::from_path("/"), Format::Txt);
}

#[test]
fn json_headers_are_distinct_and_delimited_rows_never_empty() {
    let h = headers(Format::Ndjson, b"{\"b\":1,\"a\":2,\"b\":3}");
    assert_eq!(h, strings(&["a", "b"]));
    for bytes in [&b""[..], b"\r", b",", b"\"", b"x\ry"] {
        assert!(!parse_delimited(bytes, b',').is_empty());
        assert!(!parse_row(Format::Tsv, &[], bytes).is_empty());
    }
}

#[test]
fn drive_paths_use_the_file_name_after_the_last_separator() {
    assert_eq!(Format::from_path("C:\\Users\\me\\data.csv"), Format::Csv);
    assert_eq!(Format::from_path("d:\\logs\\rows.JSONL"), Format::Ndjson);
    assert_eq!(Format::from_path("C:\\dir.tsv\\notes.txt"), Format::Txt);
    assert_eq!(Format::from_path("C:\\mixed/dir\\x.tsv"), Format::Tsv);
}
