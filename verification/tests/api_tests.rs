use editor::api::{api_listing, derives_text, entries_of_source, join, signature_text, ApiEntry};

#[test]
fn joins_with_separator() {
    let parts = vec![String::from("a"), String::from("b"), String::from("c")];
    assert_eq!(join(&parts, ", "), "a, b, c");
    assert_eq!(join(&vec![], ", "), "");
}

#[test]
fn derive_attribute() {
    assert_eq!(derives_text(&vec![]), "");
    assert_eq!(derives_text(&vec![String::from("Debug"), String::from("Clone")]), "#[derive(Debug, Clone)]");
}

#[test]
fn signatures() {
    assert_eq!(signature_text("insert", "", "& mut self , text : & str", ""), "pub fn insert(& mut self , text : & str)");
    assert_eq!(signature_text("new", "", "", "-> Self"), "pub fn new()-> Self");
}

#[test]
fn listing_lines() {
    let entries = vec![
        ApiEntry { sig: String::from("pub fn a()"), derives: vec![], docs: vec![String::from(" Does a.")] },
        ApiEntry { sig: String::from("pub fn b()"), derives: vec![String::from("Debug")], docs: vec![] },
    ];
    let text = api_listing(&entries);
    assert_eq!(
        text,
        "// Copyright (C) 2026 xhdlphzr\n// SPDX-License-Identifier: AGPL-3.0-or-later\n\nSIG: pub fn a()\nDOC:  Does a.\n\nSIG: pub fn b()\nDERIVES: #[derive(Debug)]\n"
    );
}

#[test]
fn source_entries_keep_public_free_and_inherent_functions() {
    let src = r#"
/// Adds one.
/// Really.
#[derive(Clone)]
pub fn inc<T>(x: u32) -> u32 { x + 1 }
fn hidden() {}
struct S;
impl S {
    /// Makes one.
    pub fn new() -> Self { S }
    fn private(&self) {}
}
impl Clone for S {
    fn clone(&self) -> Self { S }
}
pub trait T { fn t(&self); }
"#;
    let v = entries_of_source(src).expect("the source parses");
    assert_eq!(v.len(), 2);
    assert_eq!(v[0].sig, "pub fn inc< T >(x : u32)-> u32");
    assert_eq!(v[0].derives, vec!["Clone".to_string()]);
    assert_eq!(v[0].docs, vec![" Adds one.".to_string(), " Really.".to_string()]);
    assert_eq!(v[1].sig, "pub fn new()-> Self");
    assert!(v[1].derives.is_empty());
    assert_eq!(v[1].docs, vec![" Makes one.".to_string()]);
    let listing = api_listing(&v);
    assert!(listing.contains("SIG: pub fn inc< T >(x : u32)-> u32\nDERIVES: #[derive(Clone)]\nDOC:  Adds one.  Really.\n"));
}

#[test]
fn source_that_does_not_parse_gives_nothing() {
    assert!(entries_of_source("fn (").is_none());
    assert_eq!(entries_of_source("").map(|v| v.len()), Some(0));
}
