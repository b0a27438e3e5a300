//! Syntax analysis: languages, symbol kinds, highlight styles and symbols; parsing with
//! tree-sitter into plain trees, the symbols, enclosing function and rename target they
//! give, the highlight captures and their colours; and the conversions between
//! character offsets, byte offsets and line positions in a source text.

use vstd::prelude::*;
use tree_sitter::StreamingIterator;
use vstd::utf8::{encode_utf8, encode_scalar};
use crate::edit::{Range, byte_len, str_byte_len};
use crate::lsp::{utf16_len, lemma_utf16_len_append, lemma_utf16_le_bytes};
use crate::text::{str_eq, chars_of, min_int, newline_count, line_of, line_starts, lemma_line_starts, lemma_newline_count_le_len, lemma_newline_count_prefix, lemma_encode_utf8_append, lemma_encode_utf8_len, lemma_slice_bytes_bound};

verus! {

/// Languages that can be parsed and highlighted.
#[derive(Debug, Clone, Copy, PartialEq, Eq, Hash, Structural)]
pub enum Language {
    Rust,
    C,
    Cpp,
    Go,
    Html,
    Css,
    JavaScript,
    TypeScript,
    Python,
}

/// The lower-case name of a language.
pub open spec fn language_name(l: Language) -> Seq<char> {
    match l {
        Language::Rust => "rust"@,
        Language::C => "c"@,
        Language::Cpp => "cpp"@,
        Language::Go => "go"@,
        Language::Html => "html"@,
        Language::Css => "css"@,
        Language::JavaScript => "javascript"@,
        Language::TypeScript => "typescript"@,
        Language::Python => "python"@,
    }
}

impl Language {
    /// The lower-case name of the language, such as `rust` or `python`.
    pub fn name(&self) -> (s: &'static str)
        ensures
            s@ == language_name(*self),
    {
        match self {
            Language::Rust => "rust",
            Language::C => "c",
            Language::Cpp => "cpp",
            Language::Go => "go",
            Language::Html => "html",
            Language::Css => "css",
            Language::JavaScript => "javascript",
            Language::TypeScript => "typescript",
            Language::Python => "python",
        }
    }
}

/// What a symbol of the syntax tree is.
#[derive(Debug, Clone, Copy, PartialEq, Eq, Hash, Structural)]
pub enum SymbolKind {
    Function,
    Struct,
    Enum,
    Trait,
    Impl,
    Module,
    TypeAlias,
    Const,
    Static,
    Variable,
    Macro,
    Unknown,
}

/// The symbol kind of a syntax node kind.
pub open spec fn kind_of_node(kind: Seq<char>) -> SymbolKind {
    if kind == "function_item"@ || kind == "function_signature_item"@ {
        SymbolKind::Function
    } else if kind == "struct_item"@ {
        SymbolKind::Struct
    } else if kind == "enum_item"@ {
        SymbolKind::Enum
    } else if kind == "trait_item"@ {
        SymbolKind::Trait
    } else if kind == "impl_item"@ {
        SymbolKind::Impl
    } else if kind == "mod_item"@ {
        SymbolKind::Module
    } else if kind == "type_item"@ {
        SymbolKind::TypeAlias
    } else if kind == "const_item"@ {
        SymbolKind::Const
    } else if kind == "static_item"@ {
        SymbolKind::Static
    } else if kind == "let_declaration"@ {
        SymbolKind::Variable
    } else if kind == "macro_definition"@ {
        SymbolKind::Macro
    } else {
        SymbolKind::Unknown
    }
}


/// Every symbol kind but `Unknown` is the kind of some syntax node kind: no kind of
/// symbol is lost when listing symbols.
pub proof fn law_every_symbol_kind_has_a_node_kind(sk: SymbolKind)
    requires
        sk != SymbolKind::Unknown,
    ensures
        exists|k: Seq<char>| kind_of_node(k) == sk,
{
    reveal_strlit("function_item");
    reveal_strlit("function_signature_item");
    reveal_strlit("struct_item");
    reveal_strlit("enum_item");
    reveal_strlit("trait_item");
    reveal_strlit("impl_item");
    reveal_strlit("mod_item");
    reveal_strlit("type_item");
    reveal_strlit("const_item");
    reveal_strlit("static_item");
    reveal_strlit("let_declaration");
    reveal_strlit("macro_definition");
    match sk {
        SymbolKind::Function => {  assert(kind_of_node("function_item"@) == SymbolKind::Function); },
        SymbolKind::Struct => { assert("struct_item"@.len() != "function_item"@.len()); assert("struct_item"@.len() != "function_signature_item"@.len()); assert(kind_of_node("struct_item"@) == SymbolKind::Struct); },
        SymbolKind::Enum => { assert("enum_item"@.len() != "function_item"@.len()); assert("enum_item"@.len() != "function_signature_item"@.len()); assert("enum_item"@.len() != "struct_item"@.len()); assert(kind_of_node("enum_item"@) == SymbolKind::Enum); },
        SymbolKind::Trait => { assert("trait_item"@.len() != "function_item"@.len()); assert("trait_item"@.len() != "function_signature_item"@.len()); assert("trait_item"@.len() != "struct_item"@.len()); assert("trait_item"@.len() != "enum_item"@.len()); assert(kind_of_node("trait_item"@) == SymbolKind::Trait); },
        SymbolKind::Impl => { assert("impl_item"@.len() != "function_item"@.len()); assert("impl_item"@.len() != "function_signature_item"@.len()); assert("impl_item"@.len() != "struct_item"@.len()); assert("impl_item"@[0] != "enum_item"@[0]); assert("impl_item"@.len() != "trait_item"@.len()); assert(kind_of_node("impl_item"@) == SymbolKind::Impl); },
        SymbolKind::Module => { assert("mod_item"@.len() != "function_item"@.len()); assert("mod_item"@.len() != "function_signature_item"@.len()); assert("mod_item"@.len() != "struct_item"@.len()); assert("mod_item"@.len() != "enum_item"@.len()); assert("mod_item"@.len() != "trait_item"@.len()); assert("mod_item"@.len() != "impl_item"@.len()); assert(kind_of_node("mod_item"@) == SymbolKind::Module); },
        SymbolKind::TypeAlias => { assert("type_item"@.len() != "function_item"@.len()); assert("type_item"@.len() != "function_signature_item"@.len()); assert("type_item"@.len() != "struct_item"@.len()); assert("type_item"@[0] != "enum_item"@[0]); assert("type_item"@.len() != "trait_item"@.len()); assert("type_item"@[0] != "impl_item"@[0]); assert("type_item"@.len() != "mod_item"@.len()); assert(kind_of_node("type_item"@) == SymbolKind::TypeAlias); },
        SymbolKind::Const => { assert("const_item"@.len() != "function_item"@.len()); assert("const_item"@.len() != "function_signature_item"@.len()); assert("const_item"@.len() != "struct_item"@.len()); assert("const_item"@.len() != "enum_item"@.len()); assert("const_item"@[0] != "trait_item"@[0]); assert("const_item"@.len() != "impl_item"@.len()); assert("const_item"@.len() != "mod_item"@.len()); assert("const_item"@.len() != "type_item"@.len()); assert(kind_of_node("const_item"@) == SymbolKind::Const); },
        SymbolKind::Static => { assert("static_item"@.len() != "function_item"@.len()); assert("static_item"@.len() != "function_signature_item"@.len()); assert("static_item"@[2] != "struct_item"@[2]); assert("static_item"@.len() != "enum_item"@.len()); assert("static_item"@.len() != "trait_item"@.len()); assert("static_item"@.len() != "impl_item"@.len()); assert("static_item"@.len() != "mod_item"@.len()); assert("static_item"@.len() != "type_item"@.len()); assert("static_item"@.len() != "const_item"@.len()); assert(kind_of_node("static_item"@) == SymbolKind::Static); },
        SymbolKind::Variable => { assert("let_declaration"@.len() != "function_item"@.len()); assert("let_declaration"@.len() != "function_signature_item"@.len()); assert("let_declaration"@.len() != "struct_item"@.len()); assert("let_declaration"@.len() != "enum_item"@.len()); assert("let_declaration"@.len() != "trait_item"@.len()); assert("let_declaration"@.len() != "impl_item"@.len()); assert("let_declaration"@.len() != "mod_item"@.len()); assert("let_declaration"@.len() != "type_item"@.len()); assert("let_declaration"@.len() != "const_item"@.len()); assert("let_declaration"@.len() != "static_item"@.len()); assert(kind_of_node("let_declaration"@) == SymbolKind::Variable); },
        SymbolKind::Macro => { assert("macro_definition"@.len() != "function_item"@.len()); assert("macro_definition"@.len() != "function_signature_item"@.len()); assert("macro_definition"@.len() != "struct_item"@.len()); assert("macro_definition"@.len() != "enum_item"@.len()); assert("macro_definition"@.len() != "trait_item"@.len()); assert("macro_definition"@.len() != "impl_item"@.len()); assert("macro_definition"@.len() != "mod_item"@.len()); assert("macro_definition"@.len() != "type_item"@.len()); assert("macro_definition"@.len() != "const_item"@.len()); assert("macro_definition"@.len() != "static_item"@.len()); assert("macro_definition"@.len() != "let_declaration"@.len()); assert(kind_of_node("macro_definition"@) == SymbolKind::Macro); },
        SymbolKind::Unknown => {},
    }
}

/// The syntax node kind of the item that declares a symbol of kind `sk` (the plain
/// function item for functions).
pub open spec fn item_kind_of(sk: SymbolKind) -> Seq<char> {
    match sk {
        SymbolKind::Function => "function_item"@,
        SymbolKind::Struct => "struct_item"@,
        SymbolKind::Enum => "enum_item"@,
        SymbolKind::Trait => "trait_item"@,
        SymbolKind::Impl => "impl_item"@,
        SymbolKind::Module => "mod_item"@,
        SymbolKind::TypeAlias => "type_item"@,
        SymbolKind::Const => "const_item"@,
        SymbolKind::Static => "static_item"@,
        SymbolKind::Variable => "let_declaration"@,
        SymbolKind::Macro => "macro_definition"@,
        SymbolKind::Unknown => Seq::empty(),
    }
}

/// The item that declares a symbol of each kind is listed under that kind: an `enum`
/// item gives an enum, a `struct` item a struct, and so on for every kind but `Unknown`.
pub proof fn law_item_kinds_give_their_symbol_kind(sk: SymbolKind)
    requires
        sk != SymbolKind::Unknown,
    ensures
        kind_of_node(item_kind_of(sk)) == sk,
{
    reveal_strlit("function_item");
    reveal_strlit("function_signature_item");
    reveal_strlit("struct_item");
    reveal_strlit("enum_item");
    reveal_strlit("trait_item");
    reveal_strlit("impl_item");
    reveal_strlit("mod_item");
    reveal_strlit("type_item");
    reveal_strlit("const_item");
    reveal_strlit("static_item");
    reveal_strlit("let_declaration");
    reveal_strlit("macro_definition");
    match sk {
        SymbolKind::Function => {  assert(kind_of_node(item_kind_of(sk)) == SymbolKind::Function); },
        SymbolKind::Struct => { assert("struct_item"@.len() != "function_item"@.len()); assert("struct_item"@.len() != "function_signature_item"@.len()); assert(kind_of_node(item_kind_of(sk)) == SymbolKind::Struct); },
        SymbolKind::Enum => { assert("enum_item"@.len() != "function_item"@.len()); assert("enum_item"@.len() != "function_signature_item"@.len()); assert("enum_item"@.len() != "struct_item"@.len()); assert(kind_of_node(item_kind_of(sk)) == SymbolKind::Enum); },
        SymbolKind::Trait => { assert("trait_item"@.len() != "function_item"@.len()); assert("trait_item"@.len() != "function_signature_item"@.len()); assert("trait_item"@.len() != "struct_item"@.len()); assert("trait_item"@.len() != "enum_item"@.len()); assert(kind_of_node(item_kind_of(sk)) == SymbolKind::Trait); },
        SymbolKind::Impl => { assert("impl_item"@.len() != "function_item"@.len()); assert("impl_item"@.len() != "function_signature_item"@.len()); assert("impl_item"@.len() != "struct_item"@.len()); assert("impl_item"@[0] != "enum_item"@[0]); assert("impl_item"@.len() != "trait_item"@.len()); assert(kind_of_node(item_kind_of(sk)) == SymbolKind::Impl); },
        SymbolKind::Module => { assert("mod_item"@.len() != "function_item"@.len()); assert("mod_item"@.len() != "function_signature_item"@.len()); assert("mod_item"@.len() != "struct_item"@.len()); assert("mod_item"@.len() != "enum_item"@.len()); assert("mod_item"@.len() != "trait_item"@.len()); assert("mod_item"@.len() != "impl_item"@.len()); assert(kind_of_node(item_kind_of(sk)) == SymbolKind::Module); },
        SymbolKind::TypeAlias => { assert("type_item"@.len() != "function_item"@.len()); assert("type_item"@.len() != "function_signature_item"@.len()); assert("type_item"@.len() != "struct_item"@.len()); assert("type_item"@[0] != "enum_item"@[0]); assert("type_item"@.len() != "trait_item"@.len()); assert("type_item"@[0] != "impl_item"@[0]); assert("type_item"@.len() != "mod_item"@.len()); assert(kind_of_node(item_kind_of(sk)) == SymbolKind::TypeAlias); },
        SymbolKind::Const => { assert("const_item"@.len() != "function_item"@.len()); assert("const_item"@.len() != "function_signature_item"@.len()); assert("const_item"@.len() != "struct_item"@.len()); assert("const_item"@.len() != "enum_item"@.len()); assert("const_item"@[0] != "trait_item"@[0]); assert("const_item"@.len() != "impl_item"@.len()); assert("const_item"@.len() != "mod_item"@.len()); assert("const_item"@.len() != "type_item"@.len()); assert(kind_of_node(item_kind_of(sk)) == SymbolKind::Const); },
        SymbolKind::Static => { assert("static_item"@.len() != "function_item"@.len()); assert("static_item"@.len() != "function_signature_item"@.len()); assert("static_item"@[2] != "struct_item"@[2]); assert("static_item"@.len() != "enum_item"@.len()); assert("static_item"@.len() != "trait_item"@.len()); assert("static_item"@.len() != "impl_item"@.len()); assert("static_item"@.len() != "mod_item"@.len()); assert("static_item"@.len() != "type_item"@.len()); assert("static_item"@.len() != "const_item"@.len()); assert(kind_of_node(item_kind_of(sk)) == SymbolKind::Static); },
        SymbolKind::Variable => { assert("let_declaration"@.len() != "function_item"@.len()); assert("let_declaration"@.len() != "function_signature_item"@.len()); assert("let_declaration"@.len() != "struct_item"@.len()); assert("let_declaration"@.len() != "enum_item"@.len()); assert("let_declaration"@.len() != "trait_item"@.len()); assert("let_declaration"@.len() != "impl_item"@.len()); assert("let_declaration"@.len() != "mod_item"@.len()); assert("let_declaration"@.len() != "type_item"@.len()); assert("let_declaration"@.len() != "const_item"@.len()); assert("let_declaration"@.len() != "static_item"@.len()); assert(kind_of_node(item_kind_of(sk)) == SymbolKind::Variable); },
        SymbolKind::Macro => { assert("macro_definition"@.len() != "function_item"@.len()); assert("macro_definition"@.len() != "function_signature_item"@.len()); assert("macro_definition"@.len() != "struct_item"@.len()); assert("macro_definition"@.len() != "enum_item"@.len()); assert("macro_definition"@.len() != "trait_item"@.len()); assert("macro_definition"@.len() != "impl_item"@.len()); assert("macro_definition"@.len() != "mod_item"@.len()); assert("macro_definition"@.len() != "type_item"@.len()); assert("macro_definition"@.len() != "const_item"@.len()); assert("macro_definition"@.len() != "static_item"@.len()); assert("macro_definition"@.len() != "let_declaration"@.len()); assert(kind_of_node(item_kind_of(sk)) == SymbolKind::Macro); },
        SymbolKind::Unknown => {},
    }
}

/// Different syntax node kinds name different symbol kinds, except the two kinds of
/// function item: no two item kinds are merged into one symbol kind.
pub proof fn law_node_kinds_distinct(a: Seq<char>, b: Seq<char>)
    requires
        kind_of_node(a) == kind_of_node(b),
        kind_of_node(a) != SymbolKind::Unknown,
        kind_of_node(a) != SymbolKind::Function,
    ensures
        a == b,
{
}

impl SymbolKind {
    /// The symbol kind of a syntax node kind; `Unknown` for a kind that names no symbol.
    pub fn from_node_kind(kind: &str) -> (k: Self)
        ensures
            k == kind_of_node(kind@),
    {
        if str_eq(kind, "function_item") || str_eq(kind, "function_signature_item") {
            SymbolKind::Function
        } else if str_eq(kind, "struct_item") {
            SymbolKind::Struct
        } else if str_eq(kind, "enum_item") {
            SymbolKind::Enum
        } else if str_eq(kind, "trait_item") {
            SymbolKind::Trait
        } else if str_eq(kind, "impl_item") {
            SymbolKind::Impl
        } else if str_eq(kind, "mod_item") {
            SymbolKind::Module
        } else if str_eq(kind, "type_item") {
            SymbolKind::TypeAlias
        } else if str_eq(kind, "const_item") {
            SymbolKind::Const
        } else if str_eq(kind, "static_item") {
            SymbolKind::Static
        } else if str_eq(kind, "let_declaration") {
            SymbolKind::Variable
        } else if str_eq(kind, "macro_definition") {
            SymbolKind::Macro
        } else {
            SymbolKind::Unknown
        }
    }
}

/// How highlighted text is drawn: an optional colour (packed `0xRRGGBB`), bold and
/// italic.
#[derive(Debug, Clone, Copy, PartialEq, Eq, Structural)]
pub struct HighlightStyle {
    pub fg: Option<u32>,
    pub bold: bool,
    pub italic: bool,
}

impl HighlightStyle {
    /// The plain style: no colour, not bold, not italic.
    pub fn new() -> (s: Self)
        ensures
            s == (HighlightStyle { fg: None, bold: false, italic: false }),
    {
        HighlightStyle { fg: None, bold: false, italic: false }
    }

    /// This style with colour `c`.
    pub fn fg(self, c: u32) -> (s: Self)
        ensures
            s == (HighlightStyle { fg: Some(c), ..self }),
    {
        HighlightStyle { fg: Some(c), ..self }
    }

    /// This style, bold or not.
    pub fn bold(self, b: bool) -> (s: Self)
        ensures
            s == (HighlightStyle { bold: b, ..self }),
    {
        HighlightStyle { bold: b, ..self }
    }

    /// This style, italic or not.
    pub fn italic(self, i: bool) -> (s: Self)
        ensures
            s == (HighlightStyle { italic: i, ..self }),
    {
        HighlightStyle { italic: i, ..self }
    }
}

impl Default for HighlightStyle {
    fn default() -> (s: Self)
        ensures
            s == (HighlightStyle { fg: None, bold: false, italic: false }),
    {
        HighlightStyle::new()
    }
}

/// A named item of the syntax tree: its name, kind, byte range, and the line and
/// column where it starts.
#[derive(Debug)]
pub struct Symbol {
    pub name: String,
    pub kind: SymbolKind,
    pub byte_range: std::ops::Range<usize>,
    pub line: usize,
    pub column: usize,
}

impl Clone for Symbol {
    fn clone(&self) -> (s: Self)
        ensures
            s.name@ == self.name@,
            s.kind == self.kind,
            s.byte_range == self.byte_range,
            s.line == self.line,
            s.column == self.column,
    {
        Symbol {
            name: self.name.clone(),
            kind: self.kind,
            byte_range: std::ops::Range { start: self.byte_range.start, end: self.byte_range.end },
            line: self.line,
            column: self.column,
        }
    }
}

/// The name child of a syntax node: its text and byte range.
#[derive(Debug, Clone)]
pub struct NameData {
    pub text: String,
    pub start_byte: usize,
    pub end_byte: usize,
}

/// What the symbol logic reads of a syntax node: its kind, whether it is named, its
/// byte range, where it starts (row and column), and its name child if it has one.
#[derive(Debug, Clone)]
pub struct NodeInfo {
    pub kind: String,
    pub named: bool,
    pub start_byte: usize,
    pub end_byte: usize,
    pub row: usize,
    pub column: usize,
    pub name: Option<NameData>,
}

/// A syntax tree as plain data: a node and its children in order.
#[derive(Debug)]
pub struct NodeData {
    pub info: NodeInfo,
    pub children: Vec<NodeData>,
}

/// A symbol as plain values: name, kind, byte range, line and column.
pub open spec fn symbol_view(s: Symbol) -> (Seq<char>, SymbolKind, usize, usize, usize, usize) {
    (s.name@, s.kind, s.byte_range.start, s.byte_range.end, s.line, s.column)
}

/// The symbols of a list, as plain values.
pub open spec fn symbol_views(v: Seq<Symbol>) -> Seq<(Seq<char>, SymbolKind, usize, usize, usize, usize)> {
    v.map_values(|s: Symbol| symbol_view(s))
}

/// Whether a node of symbol kind `nk` is collected: of kind `want` when one is given,
/// else of any kind but `Unknown`.
pub open spec fn wanted(nk: SymbolKind, want: Option<SymbolKind>) -> bool {
    match want {
        Some(k) => nk == k,
        None => nk != SymbolKind::Unknown,
    }
}

/// The symbol a node itself gives: when it is named, wanted, and has a name child.
pub open spec fn own_symbol(i: NodeInfo, want: Option<SymbolKind>) -> Seq<(Seq<char>, SymbolKind, usize, usize, usize, usize)> {
    let nk = kind_of_node(i.kind@);
    if wanted(nk, want) && i.named && i.name is Some {
        seq![(i.name.unwrap().text@, nk, i.start_byte, i.end_byte, i.row, i.column)]
    } else {
        Seq::empty()
    }
}

/// The symbols of a tree in document order: the node's own, then those of each child.
pub open spec fn tree_symbols(n: NodeData, want: Option<SymbolKind>) -> Seq<(Seq<char>, SymbolKind, usize, usize, usize, usize)>
    decreases n, 1int,
{
    own_symbol(n.info, want) + child_symbols(n, want).flatten()
}

/// The symbols of each child of `n`, one list per child.
pub open spec fn child_symbols(n: NodeData, want: Option<SymbolKind>) -> Seq<Seq<(Seq<char>, SymbolKind, usize, usize, usize, usize)>>
    decreases n, 0int,
{
    Seq::new(n.children@.len(), |i: int| {
        if 0 <= i < n.children@.len() {
            proof {
                assert(decreases_to!(n => n.children));
                assert(decreases_to!(n.children => n.children@));
            }
            tree_symbols(n.children@[i], want)
        } else {
            Seq::empty()
        }
    })
}

/// Appends to `out` the symbols of the tree `node` that `want` selects, in document
/// order.
fn collect(node: &NodeData, want: Option<SymbolKind>, out: &mut Vec<Symbol>)
    ensures
        symbol_views(final(out)@) == symbol_views(old(out)@) + tree_symbols(*node, want),
    decreases node,
{
    let nk = SymbolKind::from_node_kind(node.info.kind.as_str());
    let hit = match want {
        Some(k) => nk == k,
        None => !(nk == SymbolKind::Unknown),
    };
    let ghost before = symbol_views(out@);
    if hit && node.info.named {
        match &node.info.name {
            Some(nn) => {
                out.push(Symbol {
                    name: nn.text.clone(),
                    kind: nk,
                    byte_range: std::ops::Range { start: node.info.start_byte, end: node.info.end_byte },
                    line: node.info.row,
                    column: node.info.column,
                });
            },
            None => {},
        }
    }
    assert(symbol_views(out@) =~= before + own_symbol(node.info, want));
    let ghost mid = symbol_views(out@);
    let ghost parts = child_symbols(*node, want);
    let mut i: usize = 0;
    assert(parts.take(0) =~= Seq::<Seq<(Seq<char>, SymbolKind, usize, usize, usize, usize)>>::empty());
    while i < node.children.len()
        invariant
            i <= node.children.len(),
            parts.len() == node.children@.len(),
            forall|k: int| 0 <= k < parts.len() ==> #[trigger] parts[k] == tree_symbols(node.children@[k], want),
            symbol_views(out@) == mid + parts.take(i as int).flatten(),
        decreases node.children.len() - i,
    {
        proof {
            assert(decreases_to!(*node => node.children));
            assert(decreases_to!(node.children => node.children@));
        }
        collect(&node.children[i], want, out);
        proof {
            assert(parts.take(i + 1) =~= parts.take(i as int).push(parts[i as int]));
            parts.take(i as int).lemma_flatten_push(parts[i as int]);
        }
        i = i + 1;
    }
    assert(parts.take(i as int) =~= parts);
    assert(tree_symbols(*node, want) == own_symbol(node.info, want) + parts.flatten());
}

/// The symbols of kind `kind` in the tree `root`, in document order: named nodes of
/// that kind with a name child.
pub fn collect_symbols(root: &NodeData, kind: SymbolKind) -> (v: Vec<Symbol>)
    ensures
        symbol_views(v@) == tree_symbols(*root, Some(kind)),
{
    let mut out: Vec<Symbol> = Vec::new();
    assert(symbol_views(out@) =~= Seq::empty());
    collect(root, Some(kind), &mut out);
    assert(symbol_views(out@) =~= tree_symbols(*root, Some(kind)));
    out
}

/// All symbols in the tree `root`, in document order: named nodes whose kind names a
/// symbol and that have a name child.
pub fn collect_all(root: &NodeData) -> (v: Vec<Symbol>)
    ensures
        symbol_views(v@) == tree_symbols(*root, None),
{
    let mut out: Vec<Symbol> = Vec::new();
    assert(symbol_views(out@) =~= Seq::empty());
    collect(root, None, &mut out);
    assert(symbol_views(out@) =~= tree_symbols(*root, None));
    out
}

/// The index of the first node of `chain` whose kind is a function, if any.
pub open spec fn first_function(chain: Seq<NodeInfo>) -> Option<int>
    decreases chain.len(),
{
    if chain.len() == 0 {
        None
    } else if kind_of_node(chain[0].kind@) == SymbolKind::Function {
        Some(0)
    } else {
        match first_function(chain.drop_first()) {
            Some(j) => Some(j + 1),
            None => None,
        }
    }
}

/// The text of a node's name child, or `<unknown>` when it has none.
pub open spec fn name_or_unknown(i: NodeInfo) -> Seq<char> {
    match i.name {
        Some(nd) => nd.text@,
        None => "<unknown>"@,
    }
}

/// The innermost function around a position, given `chain`: the node at the position
/// followed by its ancestors up to the root.
pub fn parent_function(chain: &Vec<NodeInfo>) -> (r: Option<Symbol>)
    ensures
        match first_function(chain@) {
            Some(j) => r matches Some(s) && symbol_view(s) == (name_or_unknown(chain@[j]), SymbolKind::Function,
                chain@[j].start_byte, chain@[j].end_byte, chain@[j].row, chain@[j].column),
            None => r is None,
        },
{
    let mut i: usize = 0;
    assert(chain@.skip(0) =~= chain@);
    while i < chain.len()
        invariant
            i <= chain.len(),
            first_function(chain@) == match first_function(chain@.skip(i as int)) {
                Some(j) => Some(j + i),
                None => None::<int>,
            },
        decreases chain.len() - i,
    {
        let node = &chain[i];
        assert(chain@.skip(i as int)[0] == chain@[i as int]);
        if SymbolKind::from_node_kind(node.kind.as_str()) == SymbolKind::Function {
            let name = match &node.name {
                Some(nd) => nd.text.clone(),
                None => String::from_str("<unknown>"),
            };
            return Some(Symbol {
                name,
                kind: SymbolKind::Function,
                byte_range: std::ops::Range { start: node.start_byte, end: node.end_byte },
                line: node.row,
                column: node.column,
            });
        }
        assert(chain@.skip(i as int).drop_first() =~= chain@.skip(i + 1));
        i = i + 1;
    }
    None
}

/// The byte range to rename for the node at a position: the node itself when it is an
/// identifier, else its name child, if it has one.
pub open spec fn rename_bytes(node: NodeInfo) -> Option<(usize, usize)> {
    if node.kind@ == "identifier"@ {
        Some((node.start_byte, node.end_byte))
    } else {
        match node.name {
            Some(nd) => Some((nd.start_byte, nd.end_byte)),
            None => None,
        }
    }
}

/// The byte range to rename for the node at a position, if any.
pub fn rename_span(node: &NodeInfo) -> (r: Option<(usize, usize)>)
    ensures
        r == rename_bytes(*node),
{
    if str_eq(node.kind.as_str(), "identifier") {
        Some((node.start_byte, node.end_byte))
    } else {
        match &node.name {
            Some(nd) => Some((nd.start_byte, nd.end_byte)),
            None => None,
        }
    }
}

/// The character range of the name to rename at `node` in `source`, with `new_name`;
/// none when the node has nothing to rename.
pub fn rename_target(source: &str, node: &NodeInfo, new_name: &str) -> (r: Option<(Range, String)>)
    requires
        rename_bytes(*node) matches Some((s, e)) ==> s <= e && on_char_boundary(source@, s as int) && on_char_boundary(source@, e as int),
    ensures
        match rename_bytes(*node) {
            Some((s, e)) => r matches Some((rg, t)) && t@ == new_name@
                && byte_len(source@.take(rg.start as int)) == min_int(s as int, byte_len(source@) as int)
                && byte_len(source@.take(rg.end as int)) == min_int(e as int, byte_len(source@) as int)
                && rg.start <= rg.end && rg.end <= source@.len(),
            None => r is None,
        },
{
    match rename_span(node) {
        Some((s, e)) => {
            let a = byte_to_char(source, s);
            let b = byte_to_char(source, e);
            proof {
                if a > b {
                    lemma_byte_len_prefix_mono(source@, b as int, a as int);
                }
            }
            Some((Range::new(a, b), String::from_str(new_name)))
        },
        None => None,
    }
}

/// Whether a query capture names a keyword: all keywords share one style.
pub open spec fn is_keyword_capture(name: Seq<char>) -> bool {
    name == "keyword"@ ||
        name == "fn"@ ||
        name == "let"@ ||
        name == "mut"@ ||
        name == "self"@ ||
        name == "super"@ ||
        name == "crate"@ ||
        name == "if"@ ||
        name == "else"@ ||
        name == "while"@ ||
        name == "for"@ ||
        name == "loop"@ ||
        name == "match"@ ||
        name == "return"@ ||
        name == "use"@ ||
        name == "mod"@ ||
        name == "pub"@ ||
        name == "struct"@ ||
        name == "enum"@ ||
        name == "trait"@ ||
        name == "impl"@ ||
        name == "where"@ ||
        name == "as"@ ||
        name == "in"@
}

/// The style of text captured under `name` by a highlight query (dark theme colours),
/// if the capture is highlighted.
pub open spec fn capture_style(name: Seq<char>) -> Option<HighlightStyle> {
    let plain = HighlightStyle { fg: None, bold: false, italic: false };
    if name == "function"@ {
        Some(HighlightStyle { fg: Some(0xDCDCAAu32), ..plain })
    } else if name == "type"@ {
        Some(HighlightStyle { fg: Some(0x4EC9B0u32), ..plain })
    } else if name == "variable"@ {
        Some(HighlightStyle { fg: Some(0x9CDCFEu32), ..plain })
    } else if name == "macro"@ || name == "attribute"@ {
        Some(HighlightStyle { fg: Some(0xC8C8C8u32), ..plain })
    } else if name == "string"@ {
        Some(HighlightStyle { fg: Some(0xCE9178u32), ..plain })
    } else if name == "number"@ {
        Some(HighlightStyle { fg: Some(0xB5CEA8u32), ..plain })
    } else if name == "comment"@ {
        Some(HighlightStyle { fg: Some(0x6A9955u32), bold: false, italic: true })
    } else if is_keyword_capture(name) {
        Some(HighlightStyle { fg: Some(0x569CD6u32), ..plain })
    } else {
        None
    }
}


/// The colours of the highlight theme.
pub open spec fn theme_colours() -> Seq<u32> {
    seq![0xDCDCAAu32, 0x4EC9B0u32, 0x9CDCFEu32, 0xC8C8C8u32, 0xCE9178u32, 0xB5CEA8u32, 0x6A9955u32, 0x569CD6u32]
}

/// One capture name of each colour of the theme, in the theme's order.
pub open spec fn theme_captures() -> Seq<Seq<char>> {
    seq!["function"@, "type"@, "variable"@, "macro"@, "string"@, "number"@, "comment"@, "keyword"@]
}

/// Text captured under `name` is highlighted in colour `c`.
pub open spec fn has_colour(name: Seq<char>, c: u32) -> bool {
    capture_style(name) is Some && capture_style(name)->0.fg == Some(c)
}

/// A style of the theme: a theme colour, not bold, and italic exactly for comments'
/// colour.
pub open spec fn in_theme(st: HighlightStyle) -> bool {
    &&& st.fg is Some
    &&& theme_colours().contains(st.fg->0)
    &&& !st.bold
    &&& (st.italic <==> st.fg->0 == 0x6A9955u32)
}

/// Every colour of the theme is given to some capture name (strings are highlighted in
/// the string colour, comments in the comment colour, and so on), and every style given to a
/// capture is a theme colour, never bold, and italic exactly for comments' colour: no
/// kind of capture the theme colours is left unhighlighted.
pub proof fn law_theme_colours_all_used()
    ensures
        forall|i: int| #![trigger theme_colours()[i]] 0 <= i < theme_colours().len() ==>
            exists|name: Seq<char>| #[trigger] has_colour(name, theme_colours()[i]),
        forall|i: int| 0 <= i < theme_colours().len() ==> has_colour(#[trigger] theme_captures()[i], theme_colours()[i]),
        forall|name: Seq<char>| #[trigger] capture_style(name) is Some ==> in_theme(capture_style(name)->0),
{
    reveal_strlit("function");
    reveal_strlit("type");
    reveal_strlit("variable");
    reveal_strlit("macro");
    reveal_strlit("attribute");
    reveal_strlit("string");
    reveal_strlit("number");
    reveal_strlit("comment");
    reveal_strlit("keyword");
     assert(capture_style("function"@) matches Some(st) && st.fg == Some(0xDCDCAAu32));
    assert("type"@.len() != "function"@.len()); assert(capture_style("type"@) matches Some(st) && st.fg == Some(0x4EC9B0u32));
    assert("variable"@[0] != "function"@[0]); assert("variable"@.len() != "type"@.len()); assert(capture_style("variable"@) matches Some(st) && st.fg == Some(0x9CDCFEu32));
    assert("macro"@.len() != "function"@.len()); assert("macro"@.len() != "type"@.len()); assert("macro"@.len() != "variable"@.len()); assert(capture_style("macro"@) matches Some(st) && st.fg == Some(0xC8C8C8u32));
    assert("string"@.len() != "function"@.len()); assert("string"@.len() != "type"@.len()); assert("string"@.len() != "variable"@.len()); assert("string"@.len() != "macro"@.len()); assert("string"@.len() != "attribute"@.len()); assert(capture_style("string"@) matches Some(st) && st.fg == Some(0xCE9178u32));
    assert("number"@.len() != "function"@.len()); assert("number"@.len() != "type"@.len()); assert("number"@.len() != "variable"@.len()); assert("number"@.len() != "macro"@.len()); assert("number"@.len() != "attribute"@.len()); assert("number"@[0] != "string"@[0]); assert(capture_style("number"@) matches Some(st) && st.fg == Some(0xB5CEA8u32));
    assert("comment"@.len() != "function"@.len()); assert("comment"@.len() != "type"@.len()); assert("comment"@.len() != "variable"@.len()); assert("comment"@.len() != "macro"@.len()); assert("comment"@.len() != "attribute"@.len()); assert("comment"@.len() != "string"@.len()); assert("comment"@.len() != "number"@.len()); assert(capture_style("comment"@) matches Some(st) && st.fg == Some(0x6A9955u32));
    assert("keyword"@.len() != "function"@.len()); assert("keyword"@.len() != "type"@.len()); assert("keyword"@.len() != "variable"@.len()); assert("keyword"@.len() != "macro"@.len()); assert("keyword"@.len() != "attribute"@.len()); assert("keyword"@.len() != "string"@.len()); assert("keyword"@.len() != "number"@.len()); assert("keyword"@[0] != "comment"@[0]); assert(capture_style("keyword"@) matches Some(st) && st.fg == Some(0x569CD6u32));
    assert forall|i: int| #![trigger theme_colours()[i]] 0 <= i < theme_colours().len() implies
        exists|name: Seq<char>| #[trigger] has_colour(name, theme_colours()[i]) by {
        if i == 0 { assert(has_colour("function"@, theme_colours()[i])); }
        else if i == 1 { assert(has_colour("type"@, theme_colours()[i])); }
        else if i == 2 { assert(has_colour("variable"@, theme_colours()[i])); }
        else if i == 3 { assert(has_colour("macro"@, theme_colours()[i])); }
        else if i == 4 { assert(has_colour("string"@, theme_colours()[i])); }
        else if i == 5 { assert(has_colour("number"@, theme_colours()[i])); }
        else if i == 6 { assert(has_colour("comment"@, theme_colours()[i])); }
        else { assert(has_colour("keyword"@, theme_colours()[i])); }
    }
    assert forall|i: int| 0 <= i < theme_colours().len() implies has_colour(#[trigger] theme_captures()[i], theme_colours()[i]) by {
        if i == 0 { assert(has_colour("function"@, theme_colours()[i])); }
        else if i == 1 { assert(has_colour("type"@, theme_colours()[i])); }
        else if i == 2 { assert(has_colour("variable"@, theme_colours()[i])); }
        else if i == 3 { assert(has_colour("macro"@, theme_colours()[i])); }
        else if i == 4 { assert(has_colour("string"@, theme_colours()[i])); }
        else if i == 5 { assert(has_colour("number"@, theme_colours()[i])); }
        else if i == 6 { assert(has_colour("comment"@, theme_colours()[i])); }
        else { assert(has_colour("keyword"@, theme_colours()[i])); }
    }
    assert forall|name: Seq<char>| #[trigger] capture_style(name) is Some implies in_theme(capture_style(name)->0) by {
        let st = capture_style(name)->0;
        let c = st.fg->0;
        if c == 0xDCDCAAu32 { assert(theme_colours()[0] == c); }
        if c == 0x4EC9B0u32 { assert(theme_colours()[1] == c); }
        if c == 0x9CDCFEu32 { assert(theme_colours()[2] == c); }
        if c == 0xC8C8C8u32 { assert(theme_colours()[3] == c); }
        if c == 0xCE9178u32 { assert(theme_colours()[4] == c); }
        if c == 0xB5CEA8u32 { assert(theme_colours()[5] == c); }
        if c == 0x6A9955u32 { assert(theme_colours()[6] == c); }
        if c == 0x569CD6u32 { assert(theme_colours()[7] == c); }
    }
}

/// The style of text captured under `name` by a highlight query, if it is highlighted.
pub fn style_for_capture(name: &str) -> (r: Option<HighlightStyle>)
    ensures
        r == capture_style(name@),
{
    if str_eq(name, "function") {
        Some(HighlightStyle::new().fg(0xDCDCAA))
    } else if str_eq(name, "type") {
        Some(HighlightStyle::new().fg(0x4EC9B0))
    } else if str_eq(name, "variable") {
        Some(HighlightStyle::new().fg(0x9CDCFE))
    } else if str_eq(name, "macro") || str_eq(name, "attribute") {
        Some(HighlightStyle::new().fg(0xC8C8C8))
    } else if str_eq(name, "string") {
        Some(HighlightStyle::new().fg(0xCE9178))
    } else if str_eq(name, "number") {
        Some(HighlightStyle::new().fg(0xB5CEA8))
    } else if str_eq(name, "comment") {
        Some(HighlightStyle::new().fg(0x6A9955).italic(true))
    } else if str_eq(name, "keyword") ||
            str_eq(name, "fn") ||
            str_eq(name, "let") ||
            str_eq(name, "mut") ||
            str_eq(name, "self") ||
            str_eq(name, "super") ||
            str_eq(name, "crate") ||
            str_eq(name, "if") ||
            str_eq(name, "else") ||
            str_eq(name, "while") ||
            str_eq(name, "for") ||
            str_eq(name, "loop") ||
            str_eq(name, "match") ||
            str_eq(name, "return") ||
            str_eq(name, "use") ||
            str_eq(name, "mod") ||
            str_eq(name, "pub") ||
            str_eq(name, "struct") ||
            str_eq(name, "enum") ||
            str_eq(name, "trait") ||
            str_eq(name, "impl") ||
            str_eq(name, "where") ||
            str_eq(name, "as") ||
            str_eq(name, "in") {
        Some(HighlightStyle::new().fg(0x569CD6))
    } else {
        None
    }
}

/// Number of UTF-8 bytes of character `c`.
pub open spec fn utf8_width(c: char) -> nat {
    encode_utf8(seq![c]).len()
}

/// A prefix one character longer takes that character's UTF-8 bytes more.
proof fn lemma_byte_len_step(t: Seq<char>, k: int)
    requires
        0 <= k < t.len(),
    ensures
        byte_len(t.take(k + 1)) == byte_len(t.take(k)) + utf8_width(t[k]),
        1 <= utf8_width(t[k]) <= 4,
{
    assert(t.take(k + 1) =~= t.take(k) + seq![t[k]]);
    lemma_encode_utf8_append(t.take(k), seq![t[k]]);
    let one = seq![t[k]];
    assert(one.drop_first() =~= Seq::<char>::empty());
    assert(encode_utf8(one.drop_first()) =~= Seq::<u8>::empty());
    assert(encode_utf8(one) =~= encode_scalar(t[k] as u32));
}

/// Prefixes of a text take more bytes the longer they are, and at most the whole text.
proof fn lemma_byte_len_prefix_mono(t: Seq<char>, j: int, k: int)
    requires
        0 <= j <= k <= t.len(),
    ensures
        byte_len(t.take(j)) + (k - j) <= byte_len(t.take(k)),
        byte_len(t.take(k)) <= byte_len(t),
    decreases k - j,
{
    lemma_slice_bytes_bound(t, 0, k);
    assert(t.subrange(0, k) =~= t.take(k));
    if j < k {
        lemma_byte_len_step(t, k - 1);
        lemma_byte_len_prefix_mono(t, j, k - 1);
    }
}

/// The UTF-8 width of a character, computed from its code point.
fn char_width(c: char) -> (w: usize)
    ensures
        w == utf8_width(c),
{
    proof {
        let one = seq![c];
        assert(one.drop_first() =~= Seq::<char>::empty());
        assert(encode_utf8(one.drop_first()) =~= Seq::<u8>::empty());
        assert(encode_utf8(one) =~= encode_scalar(c as u32));
    }
    let u = c as u32;
    if u < 0x80 {
        1
    } else if u < 0x800 {
        2
    } else if u < 0x10000 {
        3
    } else {
        4
    }
}

/// The byte offset of character offset `co` in `t`, clamped to the end of the text.
pub open spec fn byte_of_char(t: Seq<char>, co: int) -> int {
    byte_len(t.take(min_int(co, t.len() as int))) as int
}

/// Converts a character offset to a byte offset in `source`; offsets past the end give
/// the byte length.
pub fn char_to_byte(source: &str, char_offset: usize) -> (b: usize)
    ensures
        b as int == byte_of_char(source@, char_offset as int),
{
    let _total = str_byte_len(source);
    let chars = chars_of(source);
    let n = chars.len();
    let c = if char_offset < n { char_offset } else { n };
    let mut acc: usize = 0;
    let mut i: usize = 0;
    while i < c
        invariant
            i <= c <= n,
            chars@ == source@,
            n == source@.len(),
            byte_len(source@) <= usize::MAX,
            acc == byte_len(source@.take(i as int)),
        decreases c - i,
    {
        proof {
            lemma_byte_len_step(source@, i as int);
            lemma_byte_len_prefix_mono(source@, i + 1, i + 1);
        }
        let w = char_width(chars[i]);
        acc = acc + w;
        i = i + 1;
    }
    acc
}

/// Whether byte offset `b`, clamped to the byte length, is where a character of `t`
/// starts (or the end).
pub open spec fn on_char_boundary(t: Seq<char>, b: int) -> bool {
    exists|k: int| 0 <= k <= t.len() && byte_len(#[trigger] t.take(k)) == min_int(b, byte_len(t) as int)
}

/// Whether byte offset `byte_offset` of `source`, clamped to its byte length, is where a
/// character starts (or the end).
pub fn char_boundary(source: &str, byte_offset: usize) -> (b: bool)
    ensures
        b == on_char_boundary(source@, byte_offset as int),
{
    let total = str_byte_len(source);
    let ghost t = source@;
    let bo = if byte_offset < total { byte_offset } else { total };
    let chars = chars_of(source);
    let n = chars.len();
    let mut acc: usize = 0;
    let mut i: usize = 0;
    while i < n && acc < bo
        invariant
            i <= n,
            chars@ == t,
            t == source@,
            n == t.len(),
            total == byte_len(t),
            bo <= total,
            bo as int == min_int(byte_offset as int, byte_len(t) as int),
            acc == byte_len(t.take(i as int)),
            acc <= bo,
            forall|k: int| 0 <= k < i ==> byte_len(#[trigger] t.take(k)) < bo,
        decreases n - i,
    {
        proof {
            lemma_byte_len_step(t, i as int);
            lemma_byte_len_prefix_mono(t, i + 1, i + 1);
        }
        let w = char_width(chars[i]);
        if acc + w > bo {
            proof {
                assert forall|k: int| 0 <= k <= t.len() implies byte_len(#[trigger] t.take(k)) != bo by {
                    if k <= i {
                        if k < i {
                            lemma_byte_len_prefix_mono(t, k, i as int);
                        }
                    } else {
                        lemma_byte_len_prefix_mono(t, i + 1, k);
                    }
                }
                assert(bo as int == min_int(byte_offset as int, byte_len(t) as int));
                assert(!on_char_boundary(source@, byte_offset as int));
            }
            return false;
        }
        acc = acc + w;
        i = i + 1;
    }
    proof {
        if acc == bo {
            assert(byte_len(t.take(i as int)) == min_int(byte_offset as int, byte_len(t) as int));
        } else {
            assert(i == n);
            assert(t.take(n as int) =~= t);
            assert(false);
        }
    }
    acc == bo
}

/// Converts a byte offset, clamped to the byte length, to the number of characters
/// before it; the offset must fall on a character boundary.
pub fn byte_to_char(source: &str, byte_offset: usize) -> (c: usize)
    requires
        on_char_boundary(source@, byte_offset as int),
    ensures
        c <= source@.len(),
        byte_len(source@.take(c as int)) == min_int(byte_offset as int, byte_len(source@) as int),
{
    let _total = str_byte_len(source);
    let ghost t = source@;
    let chars = chars_of(source);
    let n = chars.len();
    let ghost bo = min_int(byte_offset as int, byte_len(t) as int);
    let ghost k = choose|k: int| 0 <= k <= t.len() && byte_len(#[trigger] t.take(k)) == bo;
    let mut acc: usize = 0;
    let mut i: usize = 0;
    while i < n && acc < byte_offset
        invariant
            i <= n,
            chars@ == t,
            t == source@,
            n == t.len(),
            byte_len(t) <= usize::MAX,
            acc == byte_len(t.take(i as int)),
            0 <= k <= t.len(),
            byte_len(t.take(k)) == bo,
            bo == min_int(byte_offset as int, byte_len(t) as int),
            i <= k,
        decreases n - i,
    {
        proof {
            lemma_byte_len_step(t, i as int);
            lemma_byte_len_prefix_mono(t, i + 1, i + 1);
            if i + 1 > k {
                assert(i == k);
                lemma_byte_len_prefix_mono(t, i as int, n as int);
                assert(t.take(n as int) =~= t);
            }
        }
        let w = char_width(chars[i]);
        acc = acc + w;
        i = i + 1;
    }
    proof {
        if i < k {
            lemma_byte_len_prefix_mono(t, i as int, k);
            if i == n {
                assert(false);
            }
        }
        if i == n {
            assert(t.take(n as int) =~= t);
        }
    }
    i
}

/// Line and UTF-16 column of character offset `co` (clamped to the text) in `t`,
/// counting the newline as the last character of its line; the end of the text is
/// after the last character of the last line.
pub open spec fn source_position(t: Seq<char>, co: int) -> (int, int) {
    let c = min_int(co, t.len() as int);
    let l = line_of(t, c);
    (l, utf16_len(t.subrange(line_starts(t)[l], c)))
}

/// Converts a character offset of `source` to an LSP position (line, UTF-16 column).
pub fn source_offset_to_position(source: &str, char_offset: usize) -> (r: (usize, usize))
    ensures
        (r.0 as int, r.1 as int) == source_position(source@, char_offset as int),
{
    let _bytes = str_byte_len(source);
    let ghost t = source@;
    let chars = chars_of(source);
    let n = chars.len();
    proof {
        lemma_line_starts(t);
        lemma_newline_count_le_len(t);
        lemma_encode_utf8_len(t);
    }
    let co = if char_offset < n { char_offset } else { n };
    let mut line: usize = 0;
    let mut start: usize = 0;
    let mut i: usize = 0;
    assert(t.take(0) =~= Seq::<char>::empty());
    while i < co
        invariant
            i <= co <= n,
            chars@ == t,
            n == t.len(),
            line == newline_count(t.take(i as int)),
            line < line_starts(t).len(),
            start == line_starts(t)[line as int],
            start <= i,
            line_starts(t).len() == newline_count(t) + 1,
            newline_count(t) <= t.len(),
            forall|k: int, o: int|
                0 <= k < line_starts(t).len() && 0 <= o <= t.len() ==> (#[trigger] line_starts(t)[k] <= o
                    <==> k <= #[trigger] newline_count(t.take(o))),
        decreases co - i,
    {
        assert(t.take(i + 1).drop_last() =~= t.take(i as int));
        proof {
            lemma_newline_count_prefix(t, i + 1);
        }
        if chars[i] == '\n' {
            assert(line_starts(t)[line + 1] <= i + 1);
            assert(!(line_starts(t)[line + 1] <= i));
            line = line + 1;
            start = i + 1;
        }
        i = i + 1;
    }
    let mut col: usize = 0;
    let mut j: usize = start;
    assert(t.subrange(start as int, start as int) =~= Seq::<char>::empty());
    while j < co
        invariant
            start <= j <= co <= n,
            chars@ == t,
            n == t.len(),
            byte_len(t) <= usize::MAX,
            col == utf16_len(t.subrange(start as int, j as int)),
        decreases co - j,
    {
        proof {
            lemma_slice_bytes_bound(t, start as int, j + 1);
            lemma_utf16_le_bytes(t.subrange(start as int, j + 1));
            assert(t.subrange(start as int, j + 1) =~= t.subrange(start as int, j as int) + seq![t[j as int]]);
            lemma_utf16_len_append(t.subrange(start as int, j as int), seq![t[j as int]]);
            let one = seq![t[j as int]];
            assert(one.drop_last() =~= Seq::<char>::empty());
            assert(utf16_len(one.drop_last()) == 0);
        }
        let c = chars[j];
        if c as u32 >= 0x10000 {
            col = col + 2;
        } else {
            col = col + 1;
        }
        j = j + 1;
    }
    (line, col)
}

/// The highlight ranges that overlap `range`: those ending after its start and
/// starting before its end, in their order.
pub open spec fn overlapping(all: Seq<(Range, HighlightStyle)>, range: Range) -> Seq<(Range, HighlightStyle)>
    decreases all.len(),
{
    if all.len() == 0 {
        Seq::empty()
    } else {
        let rest = overlapping(all.drop_last(), range);
        let r = all.last().0;
        if r.end > range.start && r.start < range.end { rest.push(all.last()) } else { rest }
    }
}

/// Keeps the highlight ranges that overlap `range`, in their order.
pub fn retain_overlapping(all: Vec<(Range, HighlightStyle)>, range: &Range) -> (v: Vec<(Range, HighlightStyle)>)
    ensures
        v@ == overlapping(all@, *range),
{
    let mut v: Vec<(Range, HighlightStyle)> = Vec::new();
    let mut i: usize = 0;
    while i < all.len()
        invariant
            i <= all.len(),
            v@ == overlapping(all@.take(i as int), *range),
        decreases all.len() - i,
    {
        assert(all@.take(i + 1).drop_last() =~= all@.take(i as int));
        let item = all[i];
        if item.0.end > range.start && item.0.start < range.end {
            v.push(item);
        }
        i = i + 1;
    }
    assert(all@.take(i as int) =~= all@);
    v
}

/// Converting a character offset within the text to a byte offset lands on a character
/// boundary, and converting that byte offset back gives the character offset again.
pub proof fn law_char_byte_roundtrip(t: Seq<char>, co: int, back: int)
    requires
        0 <= co <= t.len(),
        0 <= back <= t.len(),
        byte_len(t.take(back)) == min_int(byte_of_char(t, co), byte_len(t) as int),
    ensures
        on_char_boundary(t, byte_of_char(t, co)),
        back == co,
{
    lemma_byte_len_prefix_mono(t, co, co);
    assert(byte_of_char(t, co) == byte_len(t.take(co)));
    assert(byte_len(t.take(co)) == min_int(byte_of_char(t, co), byte_len(t) as int));
    if back < co {
        lemma_byte_len_prefix_mono(t, back, co);
    } else if back > co {
        lemma_byte_len_prefix_mono(t, co, back);
    }
}


/// `tree_sitter::Parser`, set to a grammar.
#[verifier::external_type_specification]
#[verifier::external_body]
pub struct ExTsParser(tree_sitter::Parser);

/// `tree_sitter::Node`, a node of a parsed tree.
#[verifier::external_type_specification]
#[verifier::external_body]
pub struct ExTsNode<'a>(tree_sitter::Node<'a>);

/// A tree-sitter parser set to the grammar of `language` (one grammar crate per
/// language); none when tree-sitter refuses the grammar.
#[verifier::external_body]
fn ts_parser(language: Language) -> Option<tree_sitter::Parser> {
    let grammar: tree_sitter::Language = match language {
        Language::Rust => tree_sitter_rust::LANGUAGE.into(),
        Language::C => tree_sitter_c::LANGUAGE.into(),
        Language::Cpp => tree_sitter_cpp::LANGUAGE.into(),
        Language::Go => tree_sitter_go::LANGUAGE.into(),
        Language::Html => tree_sitter_html::LANGUAGE.into(),
        Language::Css => tree_sitter_css::LANGUAGE.into(),
        Language::JavaScript => tree_sitter_javascript::LANGUAGE.into(),
        Language::TypeScript => tree_sitter_typescript::LANGUAGE_TYPESCRIPT.into(),
        Language::Python => tree_sitter_python::LANGUAGE.into(),
    };
    let mut parser = tree_sitter::Parser::new();
    parser.set_language(&grammar).ok().map(|_| parser)
}

/// What the symbol logic reads of a tree-sitter node, field for field: its kind,
/// whether it is named, its byte range, its start (row, column) and its `name` child.
#[verifier::external_body]
fn node_info_of(node: tree_sitter::Node, source: &str) -> NodeInfo {
    let name = node.child_by_field_name("name").map(|nn| NameData {
        text: source[nn.byte_range()].to_string(),
        start_byte: nn.start_byte(),
        end_byte: nn.end_byte(),
    });
    let p = node.start_position();
    NodeInfo { kind: node.kind().to_string(), named: node.is_named(), start_byte: node.start_byte(),
        end_byte: node.end_byte(), row: p.row, column: p.column, name }
}

/// A tree-sitter subtree copied node for node into `NodeData`.
#[verifier::external_body]
fn node_data_of(node: tree_sitter::Node, source: &str) -> NodeData {
    let mut cursor = node.walk();
    let children = node.children(&mut cursor).map(|c| node_data_of(c, source)).collect();
    NodeData { info: node_info_of(node, source), children }
}

/// The tree that tree-sitter parses from `source` with the grammar of `language`, as
/// plain data; none when the parser cannot be set up or gives no tree.
pub uninterp spec fn parsed_source(language: Language, source: Seq<char>) -> Option<NodeData>;

/// `tree_sitter::Parser::parse` of `source` with the grammar of `language`, the tree
/// copied into `NodeData`. The tree is the one named by `parsed_source`: tree-sitter's
/// parse depends on the grammar and the text alone.
#[verifier::external_body]
fn ts_parse(language: Language, source: &str) -> (r: Option<NodeData>)
    ensures
        r == parsed_source(language, source@),
{
    let mut parser = ts_parser(language)?;
    let tree = parser.parse(source, None)?;
    Some(node_data_of(tree.root_node(), source))
}

/// The innermost node that tree-sitter finds at byte `byte` of `source` (parsed with
/// the grammar of `language`) and then its ancestors, innermost first; empty when there
/// is no tree.
pub uninterp spec fn node_chain_at(language: Language, source: Seq<char>, byte: usize) -> Seq<NodeInfo>;

/// Parses `source` with tree-sitter, takes `descendant_for_byte_range(byte, byte)` of
/// the root and walks up with `parent`, copying each node. The chain is the one named
/// by `node_chain_at`: it depends on the grammar, the text and the byte alone.
#[verifier::external_body]
fn ts_node_chain(language: Language, source: &str, byte: usize) -> (v: Vec<NodeInfo>)
    ensures
        v@ == node_chain_at(language, source@, byte),
{
    let mut out = Vec::new();
    let Some(mut parser) = ts_parser(language) else { return out; };
    let Some(tree) = parser.parse(source, None) else { return out; };
    let mut cur = tree.root_node().descendant_for_byte_range(byte, byte);
    while let Some(n) = cur { out.push(node_info_of(n, source)); cur = n.parent(); }
    out
}

/// Parses `source` as `language` into a plain tree.
pub fn parse_source(language: Language, source: &str) -> (r: Option<NodeData>)
    ensures
        r == parsed_source(language, source@),
{
    ts_parse(language, source)
}

/// The symbols of kind `kind` in `source`, parsed as `language`, in document order;
/// none when there is no tree.
pub fn symbols_in(language: Language, source: &str, kind: SymbolKind) -> (v: Vec<Symbol>)
    ensures
        match parsed_source(language, source@) {
            Some(root) => symbol_views(v@) == tree_symbols(root, Some(kind)),
            None => v@.len() == 0,
        },
{
    match ts_parse(language, source) {
        Some(root) => collect_symbols(&root, kind),
        None => Vec::new(),
    }
}

/// All symbols in `source`, parsed as `language`, in document order.
pub fn all_symbols_in(language: Language, source: &str) -> (v: Vec<Symbol>)
    ensures
        match parsed_source(language, source@) {
            Some(root) => symbol_views(v@) == tree_symbols(root, None),
            None => v@.len() == 0,
        },
{
    match ts_parse(language, source) {
        Some(root) => collect_all(&root),
        None => Vec::new(),
    }
}

/// The nodes at character offset `char_offset` of `source`: the innermost node there
/// and its ancestors, innermost first.
pub fn node_chain(language: Language, source: &str, char_offset: usize) -> (v: Vec<NodeInfo>)
    ensures
        v@ == node_chain_at(language, source@, byte_of_char(source@, char_offset as int) as usize),
{
    let b = char_to_byte(source, char_offset);
    ts_node_chain(language, source, b)
}

/// The innermost node at character offset `char_offset` of `source`.
pub fn node_at(language: Language, source: &str, char_offset: usize) -> (r: Option<NodeInfo>)
    ensures
        ({
            let chain = node_chain_at(language, source@, byte_of_char(source@, char_offset as int) as usize);
            if chain.len() > 0 { r == Some(chain[0]) } else { r is None }
        }),
{
    let mut chain = node_chain(language, source, char_offset);
    if chain.len() > 0 {
        Some(chain.remove(0))
    } else {
        None
    }
}

/// The innermost function around character offset `char_offset` of `source`.
pub fn parent_function_at(language: Language, source: &str, char_offset: usize) -> (r: Option<Symbol>)
    ensures
        ({
            let chain = node_chain_at(language, source@, byte_of_char(source@, char_offset as int) as usize);
            match first_function(chain) {
                Some(j) => r matches Some(s) && symbol_view(s) == (name_or_unknown(chain[j]), SymbolKind::Function,
                    chain[j].start_byte, chain[j].end_byte, chain[j].row, chain[j].column),
                None => r is None,
            }
        }),
{
    let chain = node_chain(language, source, char_offset);
    parent_function(&chain)
}

/// The bytes of the name to rename for the chain of nodes `chain`: those of its first
/// node, when they are in order and fall on character boundaries of `source`.
pub open spec fn renamable_bytes(chain: Seq<NodeInfo>, source: Seq<char>) -> Option<(usize, usize)> {
    if chain.len() > 0 {
        match rename_bytes(chain[0]) {
            Some((s, e)) => if s <= e && on_char_boundary(source, s as int) && on_char_boundary(source, e as int) {
                Some((s, e))
            } else {
                None
            },
            None => None,
        }
    } else {
        None
    }
}

/// The range of the name at character offset `char_offset` of `source` and the new
/// name for it: the node there when it is an identifier, else its name child. None
/// when there is no such name, or when its bytes do not fall on character boundaries.
pub fn rename_at(language: Language, source: &str, char_offset: usize, new_name: &str) -> (r: Option<(Range, String)>)
    ensures
        match renamable_bytes(node_chain_at(language, source@, byte_of_char(source@, char_offset as int) as usize), source@) {
            Some((s, e)) => r matches Some((rg, t)) && t@ == new_name@
                && byte_len(source@.take(rg.start as int)) == min_int(s as int, byte_len(source@) as int)
                && byte_len(source@.take(rg.end as int)) == min_int(e as int, byte_len(source@) as int)
                && rg.start <= rg.end && rg.end <= source@.len(),
            None => r is None,
        },
{
    let node = match node_at(language, source, char_offset) {
        Some(n) => n,
        None => { return None; },
    };
    match rename_span(&node) {
        Some((s, e)) => {
            if s <= e && char_boundary(source, s) && char_boundary(source, e) {
                rename_target(source, &node, new_name)
            } else {
                None
            }
        },
        None => None,
    }
}


/// `tree_sitter::Query`, a compiled highlight query.
#[verifier::external_type_specification]
#[verifier::external_body]
pub struct ExTsQuery(tree_sitter::Query);

/// The highlight query of `language` compiled by `tree_sitter::Query::new`: the query
/// shipped with its grammar crate (C++ uses C's, TypeScript JavaScript's); none when
/// it does not compile.
#[verifier::external_body]
fn ts_query(language: Language) -> Option<tree_sitter::Query> {
    let (grammar, text): (tree_sitter::Language, &str) = match language {
        Language::Rust => (tree_sitter_rust::LANGUAGE.into(), tree_sitter_rust::HIGHLIGHTS_QUERY),
        Language::C => (tree_sitter_c::LANGUAGE.into(), tree_sitter_c::HIGHLIGHT_QUERY),
        Language::Cpp => (tree_sitter_cpp::LANGUAGE.into(), tree_sitter_c::HIGHLIGHT_QUERY),
        Language::Go => (tree_sitter_go::LANGUAGE.into(), tree_sitter_go::HIGHLIGHTS_QUERY),
        Language::Html => (tree_sitter_html::LANGUAGE.into(), tree_sitter_html::HIGHLIGHTS_QUERY),
        Language::Css => (tree_sitter_css::LANGUAGE.into(), tree_sitter_css::HIGHLIGHTS_QUERY),
        Language::JavaScript => (tree_sitter_javascript::LANGUAGE.into(), tree_sitter_javascript::HIGHLIGHT_QUERY),
        Language::TypeScript => (tree_sitter_typescript::LANGUAGE_TYPESCRIPT.into(), tree_sitter_javascript::HIGHLIGHT_QUERY),
        Language::Python => (tree_sitter_python::LANGUAGE.into(), tree_sitter_python::HIGHLIGHTS_QUERY),
    };
    tree_sitter::Query::new(&grammar, text).ok()
}

/// The captures that the highlight query of `language` matches in `source` parsed with
/// tree-sitter, in the order the matches come: each capture's byte range and name.
pub uninterp spec fn highlight_captures(language: Language, source: Seq<char>) -> Seq<(usize, usize, Seq<char>)>;

/// The captures of a run, as plain values.
pub open spec fn captures_view(v: Seq<(usize, usize, String)>) -> Seq<(usize, usize, Seq<char>)> {
    v.map_values(|c: (usize, usize, String)| (c.0, c.1, c.2@))
}

/// Parses `source`, runs the highlight query with a `QueryCursor` over the root and
/// copies each capture of each match (its node's byte range and its capture name). The
/// result is the one named by `highlight_captures`.
#[verifier::external_body]
fn ts_captures(language: Language, source: &str) -> (v: Vec<(usize, usize, String)>)
    ensures
        captures_view(v@) == highlight_captures(language, source@),
{
    let mut out = Vec::new();
    let (Some(mut parser), Some(query)) = (ts_parser(language), ts_query(language)) else { return out; };
    let Some(tree) = parser.parse(source, None) else { return out; };
    let mut cursor = tree_sitter::QueryCursor::new();
    let mut matches = cursor.matches(&query, tree.root_node(), source.as_bytes());
    while let Some(m) = matches.next() {
        for c in m.captures() {
            out.push((c.node.start_byte(), c.node.end_byte(), query.capture_names()[c.index as usize].to_string()));
        }
    }
    out
}

/// The captures that get a style, with their byte ranges: those whose name has a style
/// and whose bytes are in order and fall on character boundaries of `source`.
pub open spec fn styled_captures(caps: Seq<(usize, usize, Seq<char>)>, source: Seq<char>) -> Seq<(usize, usize, HighlightStyle)>
    decreases caps.len(),
{
    if caps.len() == 0 {
        Seq::empty()
    } else {
        let rest = styled_captures(caps.drop_last(), source);
        let c = caps.last();
        match capture_style(c.2) {
            Some(st) => if c.0 <= c.1 && on_char_boundary(source, c.0 as int) && on_char_boundary(source, c.1 as int) {
                rest.push((c.0, c.1, st))
            } else {
                rest
            },
            None => rest,
        }
    }
}

/// `r` is the character range of the bytes `s..e` of `source`.
pub open spec fn chars_of_bytes(source: Seq<char>, r: Range, s: usize, e: usize) -> bool {
    &&& r.start <= r.end <= source.len()
    &&& byte_len(source.take(r.start as int)) == min_int(s as int, byte_len(source) as int)
    &&& byte_len(source.take(r.end as int)) == min_int(e as int, byte_len(source) as int)
}

/// The highlighted character ranges of `source`, parsed as `language`, with their
/// styles, in the order the query matches them.
pub fn highlights_in(language: Language, source: &str) -> (v: Vec<(Range, HighlightStyle)>)
    ensures
        ({
            let hs = styled_captures(highlight_captures(language, source@), source@);
            &&& v@.len() == hs.len()
            &&& forall|i: int| 0 <= i < v@.len() ==> v@[i].1 == hs[i].2 && chars_of_bytes(source@, (#[trigger] v@[i]).0, hs[i].0, hs[i].1)
        }),
{
    let caps = ts_captures(language, source);
    let ghost cv = captures_view(caps@);
    let mut v: Vec<(Range, HighlightStyle)> = Vec::new();
    let mut i: usize = 0;
    assert(cv.take(0) =~= Seq::<(usize, usize, Seq<char>)>::empty());
    while i < caps.len()
        invariant
            cv == captures_view(caps@),
            cv.len() == caps@.len(),
            i <= caps@.len(),
            ({
                let hs = styled_captures(cv.take(i as int), source@);
                &&& v@.len() == hs.len()
                &&& forall|k: int| 0 <= k < v@.len() ==> v@[k].1 == hs[k].2 && chars_of_bytes(source@, (#[trigger] v@[k]).0, hs[k].0, hs[k].1)
            }),
        decreases caps.len() - i,
    {
        proof {
            assert(cv.take(i + 1).drop_last() =~= cv.take(i as int));
            assert(cv.take(i + 1).last() == cv[i as int]);
            assert(cv[i as int] == (caps@[i as int].0, caps@[i as int].1, caps@[i as int].2@));
        }
        let s = caps[i].0;
        let e = caps[i].1;
        match style_for_capture(caps[i].2.as_str()) {
            Some(st) => {
                if s <= e && char_boundary(source, s) && char_boundary(source, e) {
                    let a = byte_to_char(source, s);
                    let b = byte_to_char(source, e);
                    proof {
                        if a > b {
                            lemma_byte_len_prefix_mono(source@, b as int, a as int);
                        }
                    }
                    v.push((Range { start: a, end: b }, st));
                }
            },
            None => {},
        }
        i = i + 1;
    }
    assert(cv.take(i as int) =~= cv);
    v
}

} // verus!
