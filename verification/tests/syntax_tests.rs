use editor::edit::Range;
use editor::syntax::{
    byte_to_char, char_boundary, char_to_byte, collect_all, collect_symbols, parent_function, rename_target, retain_overlapping,
    source_offset_to_position, style_for_capture, HighlightStyle, Language, NameData, NodeData, NodeInfo, SymbolKind,
};
use editor::syntax::{all_symbols_in, highlights_in, node_at, node_chain, parent_function_at, parse_source, rename_at, symbols_in};

fn info(kind: &str, named: bool, start: usize, end: usize, name: Option<(&str, usize, usize)>) -> NodeInfo {
    NodeInfo {
        kind: String::from(kind),
        named,
        start_byte: start,
        end_byte: end,
        row: 0,
        column: start,
        name: name.map(|(t, s, e)| NameData { text: String::from(t), start_byte: s, end_byte: e }),
    }
}

fn leaf(i: NodeInfo) -> NodeData {
    NodeData { info: i, children: vec![] }
}

/// The tree of `fn a() {}\nfn b() { let x = 1; }` as plain data.
fn sample_tree() -> NodeData {
    let fa = NodeData {
        info: info("function_item", true, 0, 9, Some(("a", 3, 4))),
        children: vec![leaf(info("fn", false, 0, 2, None)), leaf(info("identifier", true, 3, 4, None))],
    };
    let let_x = leaf(info("let_declaration", true, 19, 29, None));
    let fb = NodeData {
        info: info("function_item", true, 10, 31, Some(("b", 13, 14))),
        children: vec![leaf(info("identifier", true, 13, 14, None)), let_x],
    };
    NodeData { info: info("source_file", true, 0, 31, None), children: vec![fa, fb] }
}

#[test]
fn test_offset_to_position() {
    let s = "abc\ndef";
    assert_eq!(source_offset_to_position(s, 0), (0, 0));
    assert_eq!(source_offset_to_position(s, 4), (1, 0));
}

#[test]
fn test_char_byte_roundtrip() {
    let s = "héllo\nwörld";
    for i in 0..12 {
        let b = char_to_byte(s, i);
        let c = byte_to_char(s, b);
        assert_eq!(c, i, "roundtrip failed at {i}");
    }
}

#[test]
fn char_to_byte_counts_utf8_bytes() {
    let s = "héllo";
    assert_eq!(char_to_byte(s, 0), 0);
    assert_eq!(char_to_byte(s, 2), 3);
    assert_eq!(char_to_byte(s, 99), 6);
    assert_eq!(byte_to_char(s, 3), 2);
    assert_eq!(byte_to_char(s, 99), 5);
}

#[test]
fn position_counts_newline_with_its_line() {
    let s = "ab\nc😀d";
    assert_eq!(source_offset_to_position(s, 2), (0, 2));
    assert_eq!(source_offset_to_position(s, 5), (1, 3));
    assert_eq!(source_offset_to_position(s, 6), (1, 4));
    assert_eq!(source_offset_to_position("abc", 3), (0, 3));
    assert_eq!(source_offset_to_position("abc\ndef", 7), (1, 3));
    assert_eq!(source_offset_to_position("abc\ndef", 99), (1, 3));
    assert_eq!(source_offset_to_position("abc\n", 4), (1, 0));
}

#[test]
fn language_names() {
    assert_eq!(Language::Rust.name(), "rust");
    assert_eq!(Language::Cpp.name(), "cpp");
    assert_eq!(Language::JavaScript.name(), "javascript");
    assert_eq!(Language::TypeScript.name(), "typescript");
    assert_eq!(Language::Python.name(), "python");
}

#[test]
fn symbol_kinds_of_node_kinds() {
    assert_eq!(SymbolKind::from_node_kind("function_item"), SymbolKind::Function);
    assert_eq!(SymbolKind::from_node_kind("function_signature_item"), SymbolKind::Function);
    assert_eq!(SymbolKind::from_node_kind("struct_item"), SymbolKind::Struct);
    assert_eq!(SymbolKind::from_node_kind("let_declaration"), SymbolKind::Variable);
    assert_eq!(SymbolKind::from_node_kind("macro_definition"), SymbolKind::Macro);
    assert_eq!(SymbolKind::from_node_kind("identifier"), SymbolKind::Unknown);
}

#[test]
fn style_builders() {
    let s = HighlightStyle::new().fg(0x123456).bold(true).italic(true);
    assert_eq!(s, HighlightStyle { fg: Some(0x123456), bold: true, italic: true });
    assert_eq!(HighlightStyle::default(), HighlightStyle::new());
}

#[test]
fn capture_styles() {
    assert_eq!(style_for_capture("function").unwrap().fg, Some(0xDCDCAA));
    assert_eq!(style_for_capture("fn").unwrap().fg, Some(0x569CD6));
    let c = style_for_capture("comment").unwrap();
    assert!(c.italic);
    assert_eq!(c.fg, Some(0x6A9955));
    assert!(style_for_capture("punctuation").is_none());
}

#[test]
fn highlight_ranges_overlapping_a_range() {
    let st = HighlightStyle::new();
    let all = vec![(Range::new(0, 2), st), (Range::new(2, 5), st), (Range::new(5, 8), st)];
    let kept = retain_overlapping(all, &Range::new(2, 5));
    assert_eq!(kept.len(), 1);
    assert_eq!(kept[0].0, Range::new(2, 5));
}

#[test]
fn symbols_are_collected_in_document_order() {
    let t = sample_tree();
    let fns = collect_symbols(&t, SymbolKind::Function);
    assert_eq!(fns.len(), 2);
    assert_eq!(fns[0].name, "a");
    assert_eq!(fns[0].byte_range, 0..9);
    assert_eq!(fns[1].name, "b");
    let all = collect_all(&t);
    assert_eq!(all.len(), 2);
    assert!(collect_symbols(&t, SymbolKind::Variable).is_empty());
}

#[test]
fn innermost_function_of_a_chain() {
    let chain = vec![
        info("integer_literal", true, 27, 28, None),
        info("let_declaration", true, 19, 29, None),
        info("function_item", true, 10, 31, Some(("b", 13, 14))),
        info("source_file", true, 0, 31, None),
    ];
    let f = parent_function(&chain).unwrap();
    assert_eq!(f.name, "b");
    assert_eq!(f.kind, SymbolKind::Function);
    assert_eq!(f.byte_range, 10..31);
    let nameless = vec![info("function_signature_item", true, 0, 5, None)];
    assert_eq!(parent_function(&nameless).unwrap().name, "<unknown>");
    assert!(parent_function(&vec![info("source_file", true, 0, 1, None)]).is_none());
}

#[test]
fn rename_ranges_are_in_characters() {
    let src = "fn é_name() {}";
    let id = info("identifier", true, 3, 10, None);
    let (r, t) = rename_target(src, &id, "new").unwrap();
    assert_eq!(r, Range::new(3, 9));
    assert_eq!(t, "new");
    let f = info("function_item", true, 0, 15, Some(("é_name", 3, 10)));
    assert_eq!(rename_target(src, &f, "x").unwrap().0, Range::new(3, 9));
    let other = info("block", true, 12, 14, None);
    assert!(rename_target(src, &other, "x").is_none());
}

#[test]
fn char_boundaries() {
    let s = "héllo";
    assert!(char_boundary(s, 0));
    assert!(char_boundary(s, 1));
    assert!(!char_boundary(s, 2));
    assert!(char_boundary(s, 3));
    assert!(char_boundary(s, 6));
    assert!(char_boundary(s, 99));
    assert!(char_boundary("", 0));
}

#[test]
fn test_ast() {
    let root = parse_source(Language::Rust, "fn main() {}");
    assert!(root.is_some());
    assert_eq!(root.unwrap().info.kind, "source_file");
}

#[test]
fn test_symbols() {
    let v = symbols_in(Language::Rust, "fn a() {}\nfn b() {}", SymbolKind::Function);
    assert_eq!(v.len(), 2);
    assert_eq!(v[0].name, "a");
    assert_eq!(v[1].name, "b");
    assert_eq!(v[1].line, 1);
}

#[test]
fn test_parent_function() {
    let src = "fn outer() { let x = 1; fn inner() {} }";
    let pos = src.find("x").unwrap();
    let parent = parent_function_at(Language::Rust, src, pos);
    assert!(parent.is_some());
    assert_eq!(parent.unwrap().name, "outer");
    let inner_pos = src.find("inner()").unwrap() + 6;
    let inner_parent = parent_function_at(Language::Rust, src, inner_pos);
    assert!(inner_parent.is_some());
    assert_eq!(inner_parent.unwrap().name, "inner");
}

#[test]
fn test_rename_symbol() {
    let src = "fn old_name() {}";
    let pos = src.find("old_name").unwrap();
    let rename = rename_at(Language::Rust, src, pos, "new_name");
    assert!(rename.is_some());
    let (range, new_text) = rename.unwrap();
    assert_eq!(range.start, pos);
    assert_eq!(range.end, pos + "old_name".len());
    assert_eq!(new_text, "new_name");
}

#[test]
fn test_get_node_at_position() {
    let src = "fn main() { 42 }";
    let pos = src.find("42").unwrap();
    let node = node_at(Language::Rust, src, pos);
    assert!(node.is_some());
    assert_eq!(node.unwrap().kind, "integer_literal");
}

#[test]
fn parsed_tree_holds_every_node() {
    let root = parse_source(Language::Python, "def f():\n    return 1\n").unwrap();
    assert_eq!(root.info.kind, "module");
    assert_eq!(root.children.len(), 1);
    assert_eq!(root.children[0].info.kind, "function_definition");
    assert!(all_symbols_in(Language::Python, "def f():\n    return 1\n").is_empty());
    let all = all_symbols_in(Language::Rust, "struct S;\nfn f() {}");
    assert_eq!(all.len(), 2);
    assert_eq!(all[0].name, "S");
    assert_eq!(all[0].kind, SymbolKind::Struct);
    assert_eq!(all[1].name, "f");
    assert_eq!(all[1].kind, SymbolKind::Function);
}

#[test]
fn node_chain_runs_to_the_root() {
    let src = "fn main() { 42 }";
    let chain = node_chain(Language::Rust, src, src.find("42").unwrap());
    assert_eq!(chain[0].kind, "integer_literal");
    assert_eq!(chain.last().unwrap().kind, "source_file");
}

#[test]
fn rename_of_non_ascii_name_counts_characters() {
    let src = "fn héllo() {}";
    let (range, text) = rename_at(Language::Rust, src, 3, "x").unwrap();
    assert_eq!(range, Range::new(3, 8));
    assert_eq!(text, "x");
}

#[test]
fn test_highlight_ranges() {
    let src = "fn main() { let x = 42; }";
    let ranges = retain_overlapping(highlights_in(Language::Rust, src), &Range::new(0, src.len()));
    assert!(!ranges.is_empty());
    assert!(ranges.iter().any(|(_, style)| style.fg.is_some()));
}

#[test]
fn highlight_ranges_count_characters() {
    let src = "fn héllo() {}";
    let hs = highlights_in(Language::Rust, src);
    assert!(hs.iter().all(|(r, _)| r.start <= r.end && r.end <= src.chars().count()));
    assert!(hs.iter().any(|(r, _)| *r == Range::new(0, 2)));
}
