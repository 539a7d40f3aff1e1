use deglob::names::{format_names, split_names};
use deglob::number::{decimal_bytes, parse_decimal};
use deglob::record::{globs_from_rows, parse_for_globs, parse_record, report_line, Extent, GlobRecord, IngestError};

fn row(fields: &[&str]) -> Vec<String> {
    fields.iter().map(|f| f.to_string()).collect()
}

fn glob_row(value: &str, start: &str, end: &str) -> Vec<String> {
    row(&[
        "use_glob", "file_name", "src/a.rs", "file_line", "3", "value", value, "extent_start_bytes", start,
        "extent_end_bytes", end,
    ])
}

fn strings(v: &[&str]) -> Vec<String> {
    v.iter().map(|s| s.to_string()).collect()
}

#[test]
fn one_name_is_verbatim() {
    assert_eq!(format_names(&strings(&["x"])), "x");
}

#[test]
fn several_names_are_braced() {
    assert_eq!(format_names(&strings(&["x", "y"])), "{x, y}");
    assert_eq!(format_names(&strings(&["c", "a", "b"])), "{c, a, b}");
}

#[test]
fn names_split_at_commas() {
    assert_eq!(split_names("HashMap,HashSet"), strings(&["HashMap", "HashSet"]));
    assert_eq!(split_names("x"), strings(&["x"]));
    assert_eq!(split_names(""), strings(&[""]));
    assert_eq!(split_names("a,,b,"), strings(&["a", "", "b", ""]));
}

#[test]
fn decimals_parse() {
    assert_eq!(parse_decimal("0"), Some(0));
    assert_eq!(parse_decimal("1203"), Some(1203));
    assert_eq!(parse_decimal(""), None);
    assert_eq!(parse_decimal("12a"), None);
    assert_eq!(parse_decimal("-1"), None);
    assert_eq!(parse_decimal("99999999999999999999999"), None);
}

#[test]
fn decimals_render() {
    assert_eq!(decimal_bytes(0), b"0".to_vec());
    assert_eq!(decimal_bytes(7), b"7".to_vec());
    assert_eq!(decimal_bytes(1203), b"1203".to_vec());
}

#[test]
fn complete_row_gives_record() {
    let g = parse_record(&glob_row("HashMap,HashSet", "21", "22")).unwrap().unwrap();
    assert_eq!(g.file, "src/a.rs");
    assert_eq!(g.line, Some(3));
    assert_eq!((g.start, g.end), (21, 22));
    assert_eq!(g.extent, Extent::Exact);
    assert_eq!(g.names, strings(&["HashMap", "HashSet"]));
}

#[test]
fn other_kinds_are_passed_over() {
    assert!(parse_record(&row(&["use", "file_name", "a.rs"])).unwrap().is_none());
    assert!(parse_record(&row(&[])).unwrap().is_none());
    assert!(parse_record(&row(&["typedef", "dangling"])).unwrap().is_none());
}

#[test]
fn dangling_key_is_fatal() {
    let mut r = glob_row("x", "1", "2");
    r.push("extra_key".to_string());
    assert_eq!(parse_record(&r).err(), Some(IngestError::UnterminatedPair));
}

#[test]
fn missing_field_is_passed_over() {
    let r = row(&["use_glob", "file_name", "a.rs", "value", "x", "extent_start_bytes", "1", "extent_end_bytes", "2"]);
    assert!(parse_record(&r).unwrap().is_none());
}

#[test]
fn bad_number_is_fatal() {
    assert_eq!(parse_record(&glob_row("x", "1x", "2")).err(), Some(IngestError::BadNumber));
    assert_eq!(parse_record(&glob_row("x", "1", "")).err(), Some(IngestError::BadNumber));
}

#[test]
fn malformed_glob_rows_are_passed_over() {
    assert!(parse_record(&glob_row("x", "5", "2")).unwrap().is_none());
    assert!(parse_record(&glob_row("", "1", "2")).unwrap().is_none());
    assert!(parse_record(&glob_row("a,,b", "1", "2")).unwrap().is_none());
}

#[test]
fn later_pair_overrides_earlier() {
    let mut r = glob_row("x", "1", "2");
    r.push("value".to_string());
    r.push("y,z".to_string());
    let g = parse_record(&r).unwrap().unwrap();
    assert_eq!(g.names, strings(&["y", "z"]));
}

#[test]
fn rows_keep_order_and_skip_unreadable() {
    let rows = vec![
        Some(glob_row("a", "1", "2")),
        None,
        Some(row(&["other", "k", "v"])),
        Some(glob_row("b,c", "3", "4")),
    ];
    let gs = globs_from_rows(&rows).unwrap();
    assert_eq!(gs.len(), 2);
    assert_eq!(gs[0].names, strings(&["a"]));
    assert_eq!(gs[1].names, strings(&["b", "c"]));
}

#[test]
fn first_fatal_row_stops_reading() {
    let rows = vec![Some(glob_row("a", "1", "2")), Some(glob_row("b", "x", "4")), Some(row(&["use_glob", "k"]))];
    assert_eq!(globs_from_rows(&rows).err(), Some(IngestError::BadNumber));
}

#[test]
fn csv_dump_is_read() {
    let data = b"use_glob,file_name,src/a.rs,file_line,3,value,\"HashMap,HashSet\",extent_start_bytes,21,extent_end_bytes,22\n\
                 typedef,name,T\n\
                 use_glob,file_name,src/b.rs,file_line,9,value,io,extent_start_bytes,4,extent_end_bytes,5\n";
    let gs = parse_for_globs(data).unwrap();
    assert_eq!(gs.len(), 2);
    assert_eq!(gs[0].file, "src/a.rs");
    assert_eq!(gs[0].names, strings(&["HashMap", "HashSet"]));
    assert_eq!((gs[0].start, gs[0].end), (21, 22));
    assert_eq!(gs[1].file, "src/b.rs");
    assert_eq!(gs[1].line, Some(9));
}

#[test]
fn csv_row_with_bad_text_is_skipped() {
    let mut data = b"use_glob,file_name,a\xff.rs,file_line,1,value,x,extent_start_bytes,0,extent_end_bytes,1\n".to_vec();
    data.extend_from_slice(b"use_glob,file_name,b.rs,file_line,2,value,y,extent_start_bytes,0,extent_end_bytes,1\n");
    let gs = parse_for_globs(&data).unwrap();
    assert_eq!(gs.len(), 1);
    assert_eq!(gs[0].file, "b.rs");
}

#[test]
fn csv_dump_with_fatal_row_fails() {
    let data = b"use_glob,file_name,a.rs,file_line,1,value,x,extent_start_bytes,0,extent_end_bytes\n";
    assert_eq!(parse_for_globs(data).err(), Some(IngestError::UnterminatedPair));
}

#[test]
fn report_lines() {
    let g = GlobRecord { file: "src/a.rs".to_string(), line: Some(3), start: 21, end: 22, extent: Extent::Exact, names: strings(&["HashMap", "HashSet"]) };
    assert_eq!(String::from_utf8(report_line(&g)).unwrap(), "src/a.rs:3 -> '{HashMap, HashSet}'");
    let g = GlobRecord { file: "b.rs".to_string(), line: None, start: 0, end: 1, extent: Extent::Exact, names: strings(&["io"]) };
    assert_eq!(String::from_utf8(report_line(&g)).unwrap(), "b.rs -> 'io'");
}

#[test]
fn well_formedness_of_records() {
    let g = GlobRecord { file: "a.rs".to_string(), line: None, start: 1, end: 2, extent: Extent::Exact, names: strings(&["x"]) };
    assert!(g.is_well_formed());
    let g = GlobRecord { file: "a.rs".to_string(), line: None, start: 3, end: 2, extent: Extent::Coarse, names: strings(&["x"]) };
    assert!(!g.is_well_formed());
    let g = GlobRecord { file: "a.rs".to_string(), line: None, start: 1, end: 2, extent: Extent::Exact, names: vec![] };
    assert!(!g.is_well_formed());
    let g = GlobRecord { file: "a.rs".to_string(), line: None, start: 1, end: 2, extent: Extent::Exact, names: strings(&["x", ""]) };
    assert!(!g.is_well_formed());
}
