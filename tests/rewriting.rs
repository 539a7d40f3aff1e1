use deglob::patch::PatchError;
use deglob::plan::{exact_change, resolved_change, rewrite_file};
use deglob::record::{parse_for_globs, Extent, GlobRecord};

fn with_extent(file: &str, start: usize, end: usize, extent: Extent, names: &[&str]) -> GlobRecord {
    GlobRecord {
        file: file.to_string(),
        line: Some(1),
        start,
        end,
        extent,
        names: names.iter().map(|s| s.to_string()).collect(),
    }
}

fn record(file: &str, start: usize, end: usize, names: &[&str]) -> GlobRecord {
    with_extent(file, start, end, Extent::Exact, names)
}

fn span(file: &str, start: usize, end: usize, names: &[&str]) -> GlobRecord {
    with_extent(file, start, end, Extent::Coarse, names)
}

#[test]
fn end_to_end_rewrite() {
    let content = b"use std::collections::*;\n";
    let recs = vec![record("a.rs", 22, 23, &["HashMap", "HashSet"])];
    let w = rewrite_file(content, &recs, "a.rs").unwrap();
    assert_eq!(w.content, b"use std::collections::{HashMap, HashSet};\n".to_vec());
    assert!(w.skipped.is_empty());
}

#[test]
fn coarse_span_is_narrowed() {
    let content = b"use std::collections::*;\n";
    let c = resolved_change(content, &span("a.rs", 0, 24, &["HashMap"])).unwrap();
    assert_eq!((c.start, c.end), (22, 23));
    assert_eq!(c.text, b"HashMap".to_vec());
    let w = rewrite_file(content, &vec![span("a.rs", 0, 24, &["HashMap"])], "a.rs").unwrap();
    assert_eq!(w.content, b"use std::collections::HashMap;\n".to_vec());
}

#[test]
fn drifted_span_is_skipped() {
    let content = b"use a::B;\nuse c::*;\n";
    let recs = vec![span("x.rs", 0, 9, &["B"]), span("x.rs", 10, 19, &["D", "E"])];
    let w = rewrite_file(content, &recs, "x.rs").unwrap();
    assert_eq!(w.content, b"use a::B;\nuse c::{D, E};\n".to_vec());
    assert_eq!(w.skipped, vec![0]);
}

#[test]
fn other_files_are_ignored() {
    let content = b"use c::*;\n";
    let recs = vec![record("y.rs", 0, 100, &["Q"]), record("x.rs", 7, 8, &["D"])];
    let w = rewrite_file(content, &recs, "x.rs").unwrap();
    assert_eq!(w.content, b"use c::D;\n".to_vec());
}

#[test]
fn span_past_end_is_fatal() {
    let content = b"use c::*;\n";
    let recs = vec![record("x.rs", 7, 8, &["D"]), record("x.rs", 7, 40, &["E"])];
    assert_eq!(rewrite_file(content, &recs, "x.rs").err(), Some(PatchError::OutOfBounds));
}

#[test]
fn colliding_records_are_fatal() {
    let content = b"use c::*;\n";
    let recs = vec![record("x.rs", 7, 8, &["D"]), record("x.rs", 0, 9, &["E"])];
    assert_eq!(rewrite_file(content, &recs, "x.rs").err(), Some(PatchError::Overlap));
}

#[test]
fn exact_range_is_replaced_whole() {
    let content = b"*ab";
    let c = exact_change(&record("x.rs", 0, 3, &["Q"]));
    assert_eq!((c.start, c.end), (0, 3));
    assert_eq!(c.text, b"Q".to_vec());
    let w = rewrite_file(content, &vec![record("x.rs", 0, 3, &["Q"])], "x.rs").unwrap();
    assert_eq!(w.content, b"Q".to_vec());
    let w = rewrite_file(content, &vec![span("x.rs", 0, 3, &["Q"])], "x.rs").unwrap();
    assert_eq!(w.content, b"Qab".to_vec());
}

#[test]
fn exact_range_without_wildcard_is_replaced() {
    let content = b"use a::B;\n";
    let w = rewrite_file(content, &vec![record("x.rs", 7, 8, &["C", "D"])], "x.rs").unwrap();
    assert_eq!(w.content, b"use a::{C, D};\n".to_vec());
    assert!(w.skipped.is_empty());
}

#[test]
fn csv_records_replace_their_range() {
    let data = b"use_glob,file_name,x.rs,file_line,1,value,\"HashMap,HashSet\",extent_start_bytes,22,extent_end_bytes,23\n";
    let recs = parse_for_globs(data).unwrap();
    let w = rewrite_file(b"use std::collections::*;\n", &recs, "x.rs").unwrap();
    assert_eq!(w.content, b"use std::collections::{HashMap, HashSet};\n".to_vec());
}
