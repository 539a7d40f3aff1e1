use deglob::extent::resolve_extent;
use deglob::patch::{apply, Change, PatchError};

fn change(start: usize, end: usize, text: &str) -> Change {
    Change { start, end, text: text.as_bytes().to_vec() }
}

#[test]
fn empty_change_set_is_identity() {
    let content = b"use std::io::*;\nfn main() {}\n";
    assert_eq!(apply(content, &vec![]).unwrap(), content.to_vec());
    assert_eq!(apply(b"", &vec![]).unwrap(), Vec::<u8>::new());
}

#[test]
fn single_change_replaces_wildcard() {
    let content = b"use std::collections::*;\n";
    let out = apply(content, &vec![change(22, 23, "{HashMap, HashSet}")]).unwrap();
    assert_eq!(out, b"use std::collections::{HashMap, HashSet};\n".to_vec());
}

#[test]
fn changes_in_any_order_give_same_output() {
    let content = b"use a::*;\nuse b::*;\nuse c::*;\n";
    let a = change(7, 8, "X");
    let b = change(17, 18, "{Y, Z}");
    let c = change(27, 28, "W");
    let one = apply(content, &vec![change(7, 8, "X"), change(17, 18, "{Y, Z}"), change(27, 28, "W")]).unwrap();
    let two = apply(content, &vec![c, a, b]).unwrap();
    assert_eq!(one, two);
    assert_eq!(one, b"use a::X;\nuse b::{Y, Z};\nuse c::W;\n".to_vec());
}

#[test]
fn bytes_outside_changes_are_kept_in_order() {
    let content = b"0123456789";
    let out = apply(content, &vec![change(6, 8, ""), change(2, 3, "abc")]).unwrap();
    assert_eq!(out, b"01abc34589".to_vec());
    // each untouched byte is found at its offset plus the growth of earlier changes
    assert_eq!(out[0], b'0');
    assert_eq!(out[5], b'3');
    assert_eq!(out[9], b'9');
}

#[test]
fn output_length_follows_changes() {
    let content = b"abcdefghij";
    let out = apply(content, &vec![change(0, 4, "x"), change(5, 5, "yy"), change(9, 10, "zzz")]).unwrap();
    assert_eq!(out.len(), 10 - 4 + 1 + 2 - 1 + 3);
    assert_eq!(out, b"xeyyfghizzz".to_vec());
}

#[test]
fn overlapping_changes_are_refused() {
    let content = b"0123456789";
    let r = apply(content, &vec![change(0, 5, "a"), change(3, 8, "b")]);
    assert_eq!(r, Err(PatchError::Overlap));
}

#[test]
fn changes_at_same_start_are_refused() {
    let content = b"0123456789";
    assert_eq!(apply(content, &vec![change(4, 4, "a"), change(4, 4, "b")]), Err(PatchError::Overlap));
    assert_eq!(apply(content, &vec![change(4, 4, "a"), change(4, 6, "b")]), Err(PatchError::Overlap));
}

#[test]
fn adjacent_changes_are_accepted() {
    let content = b"0123456789";
    let out = apply(content, &vec![change(3, 5, "b"), change(0, 3, "a"), change(5, 5, "c")]).unwrap();
    assert_eq!(out, b"abc56789".to_vec());
}

#[test]
fn out_of_bounds_changes_are_refused() {
    let content = b"0123";
    assert_eq!(apply(content, &vec![change(2, 5, "a")]), Err(PatchError::OutOfBounds));
    assert_eq!(apply(content, &vec![change(3, 2, "a")]), Err(PatchError::OutOfBounds));
    assert_eq!(apply(content, &vec![change(0, 2, "a"), change(1, 9, "b")]), Err(PatchError::OutOfBounds));
    assert_eq!(apply(content, &vec![change(4, 4, "!")]).unwrap(), b"0123!".to_vec());
}

#[test]
fn extent_resolves_to_wildcard() {
    assert_eq!(resolve_extent(100, b"use foo::*;"), Some(109));
    assert_eq!(resolve_extent(0, b"*"), Some(0));
    assert_eq!(resolve_extent(5, b"a*b*"), Some(6));
}

#[test]
fn extent_without_wildcard_is_not_found() {
    assert_eq!(resolve_extent(100, b"use foo::Bar;"), None);
    assert_eq!(resolve_extent(0, b""), None);
}
