//! The API listing of a crate's sources: the public free functions and public methods
//! of inherent impls read from a parsed source file, and the text of the listing (for
//! each such function its signature, derives and documentation, one labelled line
//! each, after a licence header).

use vstd::prelude::*;
use quote::ToTokens;
use crate::text::str_eq;

verus! {

/// The strings of `parts` joined with `sep` between neighbours.
pub open spec fn join_with(parts: Seq<Seq<char>>, sep: Seq<char>) -> Seq<char>
    decreases parts.len(),
{
    if parts.len() == 0 {
        Seq::empty()
    } else if parts.len() == 1 {
        parts[0]
    } else {
        join_with(parts.drop_last(), sep) + sep + parts.last()
    }
}

/// The characters of each string of `v`.
pub open spec fn views(v: Seq<String>) -> Seq<Seq<char>> {
    v.map_values(|s: String| s@)
}

/// Joins the strings of `parts` with `sep` between neighbours.
pub fn join(parts: &Vec<String>, sep: &str) -> (r: String)
    ensures
        r@ == join_with(views(parts@), sep@),
{
    let mut r = String::new();
    let mut i: usize = 0;
    while i < parts.len()
        invariant
            i <= parts.len(),
            r@ == join_with(views(parts@.take(i as int)), sep@),
        decreases parts.len() - i,
    {
        proof {
            assert(views(parts@.take(i + 1)).drop_last() =~= views(parts@.take(i as int)));
            assert(views(parts@.take(i + 1)).last() == parts@[i as int]@);
            if i == 0 {
                assert(views(parts@.take(0)) =~= Seq::<Seq<char>>::empty());
            }
        }
        if i > 0 {
            r.append(sep);
        }
        r.append(parts[i].as_str());
        proof {
            if i == 0 {
                assert(r@ =~= parts@[0]@);
            }
        }
        i = i + 1;
    }
    assert(parts@.take(i as int) =~= parts@);
    r
}

/// The derive attribute listing `paths`, or nothing when there are none.
pub open spec fn derive_attr(paths: Seq<Seq<char>>) -> Seq<char> {
    if paths.len() == 0 {
        Seq::empty()
    } else {
        "#[derive("@ + join_with(paths, ", "@) + ")]"@
    }
}

/// The derive attribute listing `paths`, or the empty string when there are none.
pub fn derives_text(paths: &Vec<String>) -> (r: String)
    ensures
        r@ == derive_attr(views(paths@)),
{
    if paths.len() == 0 {
        proof {
            assert(views(paths@).len() == 0);
        }
        return String::new();
    }
    let mut r = String::new();
    r.append("#[derive(");
    let j = join(paths, ", ");
    r.append(j.as_str());
    r.append(")]");
    r
}

/// The signature line of a public function from its name, generics, parameters and
/// return type as written.
pub open spec fn signature(ident: Seq<char>, generics: Seq<char>, inputs: Seq<char>, ret: Seq<char>) -> Seq<char> {
    "pub fn "@ + ident + generics + "("@ + inputs + ")"@ + ret
}

/// The signature of a public function from its name, generics, parameters and return
/// type as written.
pub fn signature_text(ident: &str, generics: &str, inputs: &str, ret: &str) -> (r: String)
    ensures
        r@ == signature(ident@, generics@, inputs@, ret@),
{
    let mut r = String::new();
    r.append("pub fn ");
    r.append(ident);
    r.append(generics);
    r.append("(");
    r.append(inputs);
    r.append(")");
    r.append(ret);
    r
}

/// One public function of the listing: its signature, the paths of its derives and its
/// documentation lines.
pub struct ApiEntry {
    pub sig: String,
    pub derives: Vec<String>,
    pub docs: Vec<String>,
}

/// The lines of one entry: `SIG:`, then `DERIVES:` and `DOC:` when they are not empty
/// (the documentation lines joined with spaces), then an empty line.
pub open spec fn entry_lines(e: ApiEntry) -> Seq<Seq<char>> {
    let d = derive_attr(views(e.derives@));
    let doc = join_with(views(e.docs@), " "@);
    seq!["SIG: "@ + e.sig@]
        + (if d.len() > 0 { seq!["DERIVES: "@ + d] } else { Seq::empty() })
        + (if doc.len() > 0 { seq!["DOC: "@ + doc] } else { Seq::empty() })
        + seq![Seq::<char>::empty()]
}

/// The lines of all entries, in order.
pub open spec fn all_lines(es: Seq<ApiEntry>) -> Seq<Seq<char>>
    decreases es.len(),
{
    if es.len() == 0 {
        Seq::empty()
    } else {
        all_lines(es.drop_last()) + entry_lines(es.last())
    }
}

/// The licence header that starts the listing.
pub open spec fn listing_header() -> Seq<char> {
    "// Copyright (C) 2026 xhdlphzr\n// SPDX-License-Identifier: AGPL-3.0-or-later\n\n"@
}

/// The whole listing: the header, then the lines of all entries joined with newlines.
pub open spec fn listing(es: Seq<ApiEntry>) -> Seq<char> {
    listing_header() + join_with(all_lines(es), "\n"@)
}

/// Appends `s` as a new string to `v`.
fn push_line(v: &mut Vec<String>, s: String)
    ensures
        views(final(v)@) == views(old(v)@).push(s@),
{
    let ghost before = views(v@);
    v.push(s);
    assert(views(v@) =~= before.push(s@));
}

/// A new string holding `a` followed by `b`.
fn concat(a: &str, b: &str) -> (r: String)
    ensures
        r@ == a@ + b@,
{
    let mut r = String::new();
    r.append(a);
    r.append(b);
    r
}

/// The lines of one entry.
fn entry_lines_of(e: &ApiEntry) -> (v: Vec<String>)
    ensures
        views(v@) == entry_lines(*e),
{
    let mut v: Vec<String> = Vec::new();
    push_line(&mut v, concat("SIG: ", e.sig.as_str()));
    let d = derives_text(&e.derives);
    if !d.as_str().is_empty() {
        push_line(&mut v, concat("DERIVES: ", d.as_str()));
    }
    let doc = join(&e.docs, " ");
    if !doc.as_str().is_empty() {
        push_line(&mut v, concat("DOC: ", doc.as_str()));
    }
    push_line(&mut v, String::new());
    proof {
        assert(views(v@) =~= entry_lines(*e));
    }
    v
}

/// The listing of `entries`.
pub fn api_listing(entries: &Vec<ApiEntry>) -> (r: String)
    ensures
        r@ == listing(entries@),
{
    let mut lines: Vec<String> = Vec::new();
    let mut i: usize = 0;
    assert(views(lines@) =~= all_lines(entries@.take(0)));
    while i < entries.len()
        invariant
            i <= entries.len(),
            views(lines@) == all_lines(entries@.take(i as int)),
        decreases entries.len() - i,
    {
        let el = entry_lines_of(&entries[i]);
        let mut k: usize = 0;
        let ghost before = views(lines@);
        while k < el.len()
            invariant
                k <= el.len(),
                views(lines@) == before + views(el@).take(k as int),
            decreases el.len() - k,
        {
            let s = el[k].clone();
            push_line(&mut lines, s);
            assert(views(el@).take(k + 1) =~= views(el@).take(k as int).push(el@[k as int]@));
            k = k + 1;
        }
        assert(views(el@).take(k as int) =~= views(el@));
        assert(entries@.take(i + 1).drop_last() =~= entries@.take(i as int));
        i = i + 1;
    }
    assert(entries@.take(i as int) =~= entries@);
    let body = join(&lines, "\n");
    let mut r = String::new();
    r.append("// Copyright (C) 2026 xhdlphzr\n// SPDX-License-Identifier: AGPL-3.0-or-later\n\n");
    r.append(body.as_str());
    r
}


/// An attribute of a function as plain values: its path as written, the text of a doc
/// comment (a name-value attribute whose value is a string literal), and the paths
/// listed in its parentheses when they parse as a comma-separated list of paths.
pub struct SourceAttr {
    pub path: String,
    pub doc: Option<String>,
    pub derive_paths: Option<Vec<String>>,
}

/// A function of a source file as plain values: whether it is `pub`, its name, its
/// generics, parameters and return type as written, and its attributes.
pub struct SourceFn {
    pub is_pub: bool,
    pub ident: String,
    pub generics: String,
    pub inputs: String,
    pub output: String,
    pub attrs: Vec<SourceAttr>,
}

/// A top-level item of a source file: a free function, an impl block (whether it
/// implements a trait, and its members), or something else.
pub enum SourceItem {
    Fn(SourceFn),
    Impl(bool, Vec<SourceItem>),
    Other,
}

/// `syn::File`, a parsed source file.
#[verifier::external_type_specification]
#[verifier::external_body]
pub struct ExSynFile(syn::File);

/// `syn::Item`, a top-level item.
#[verifier::external_type_specification]
#[verifier::external_body]
pub struct ExSynItem(syn::Item);

/// `syn::ImplItem`, a member of an impl block.
#[verifier::external_type_specification]
#[verifier::external_body]
pub struct ExSynImplItem(syn::ImplItem);

/// `syn::Visibility`.
#[verifier::external_type_specification]
#[verifier::external_body]
pub struct ExSynVisibility(syn::Visibility);

/// `syn::Signature`.
#[verifier::external_type_specification]
#[verifier::external_body]
pub struct ExSynSignature(syn::Signature);

/// `syn::Attribute`.
#[verifier::external_type_specification]
#[verifier::external_body]
pub struct ExSynAttribute(syn::Attribute);

/// A `syn` attribute copied into plain values; the paths are read with
/// `parse_args_with` over `Punctuated<Path, Comma>` and printed with `ToTokens`.
#[verifier::external_body]
fn source_attr(a: &syn::Attribute) -> SourceAttr {
    let doc = match &a.meta {
        syn::Meta::NameValue(nv) => match &nv.value {
            syn::Expr::Lit(syn::ExprLit { lit: syn::Lit::Str(s), .. }) => Some(s.value()),
            _ => None,
        },
        _ => None,
    };
    let parser = syn::punctuated::Punctuated::<syn::Path, syn::token::Comma>::parse_terminated;
    let derive_paths = a.parse_args_with(parser).ok().map(|ps| ps.iter().map(|p| p.to_token_stream().to_string()).collect());
    SourceAttr { path: a.path().to_token_stream().to_string(), doc, derive_paths }
}

/// A `syn` function copied into plain values, its parts printed with `ToTokens`.
#[verifier::external_body]
fn source_fn(vis: &syn::Visibility, sig: &syn::Signature, attrs: &[syn::Attribute]) -> SourceFn {
    SourceFn {
        is_pub: matches!(vis, syn::Visibility::Public(_)),
        ident: sig.ident.to_string(),
        generics: sig.generics.to_token_stream().to_string(),
        inputs: sig.inputs.to_token_stream().to_string(),
        output: sig.output.to_token_stream().to_string(),
        attrs: attrs.iter().map(source_attr).collect(),
    }
}

/// A member of an impl block, variant for variant.
#[verifier::external_body]
fn impl_member(m: &syn::ImplItem) -> SourceItem {
    match m {
        syn::ImplItem::Fn(f) => SourceItem::Fn(source_fn(&f.vis, &f.sig, &f.attrs)),
        _ => SourceItem::Other,
    }
}

/// A top-level item, variant for variant.
#[verifier::external_body]
fn source_item(item: &syn::Item) -> SourceItem {
    match item {
        syn::Item::Fn(f) => SourceItem::Fn(source_fn(&f.vis, &f.sig, &f.attrs)),
        syn::Item::Impl(imp) => SourceItem::Impl(imp.trait_.is_some(), imp.items.iter().map(impl_member).collect()),
        _ => SourceItem::Other,
    }
}

/// What `syn::parse_file` reads from `content`: its top-level items as plain values, or
/// nothing when the text does not parse.
pub uninterp spec fn parsed_source_items(content: Seq<char>) -> Option<Seq<SourceItem>>;

/// `syn::parse_file` on `content`, each top-level item copied into a `SourceItem`. The
/// items are those named by `parsed_source_items`: they depend on the text alone.
#[verifier::external_body]
fn parse_source_items(content: &str) -> (r: Option<Vec<SourceItem>>)
    ensures
        match r {
            Some(v) => parsed_source_items(content@) == Some(v@),
            None => parsed_source_items(content@) is None,
        },
{
    let file: syn::File = syn::parse_file(content).ok()?;
    Some(file.items.iter().map(source_item).collect())
}

/// The doc comment texts among `attrs`, in order: the attributes with path `doc`
/// that hold a string.
pub open spec fn docs_of(attrs: Seq<SourceAttr>) -> Seq<Seq<char>>
    decreases attrs.len(),
{
    if attrs.len() == 0 {
        Seq::empty()
    } else {
        let rest = docs_of(attrs.drop_last());
        let a = attrs.last();
        match a.doc {
            Some(d) => if a.path@ == "doc"@ { rest.push(d@) } else { rest },
            None => rest,
        }
    }
}

/// The derived paths among `attrs`, in order: those listed by the attributes with path
/// `derive` whose arguments parse as paths.
pub open spec fn derives_of(attrs: Seq<SourceAttr>) -> Seq<Seq<char>>
    decreases attrs.len(),
{
    if attrs.len() == 0 {
        Seq::empty()
    } else {
        let rest = derives_of(attrs.drop_last());
        let a = attrs.last();
        match a.derive_paths {
            Some(ps) => if a.path@ == "derive"@ { rest + views(ps@) } else { rest },
            None => rest,
        }
    }
}

/// An entry as plain values: its signature, derives and documentation lines.
pub open spec fn entry_view(e: ApiEntry) -> (Seq<char>, Seq<Seq<char>>, Seq<Seq<char>>) {
    (e.sig@, views(e.derives@), views(e.docs@))
}

/// Entries as plain values.
pub open spec fn entries_view(v: Seq<ApiEntry>) -> Seq<(Seq<char>, Seq<Seq<char>>, Seq<Seq<char>>)> {
    v.map_values(|e: ApiEntry| entry_view(e))
}

/// The entry of a function: its signature line, derives and documentation.
pub open spec fn fn_entry(f: SourceFn) -> (Seq<char>, Seq<Seq<char>>, Seq<Seq<char>>) {
    (signature(f.ident@, f.generics@, f.inputs@, f.output@), derives_of(f.attrs@), docs_of(f.attrs@))
}

/// The entries of the public methods among the members `ms` of an impl, in order.
pub open spec fn member_entries(ms: Seq<SourceItem>) -> Seq<(Seq<char>, Seq<Seq<char>>, Seq<Seq<char>>)>
    decreases ms.len(),
{
    if ms.len() == 0 {
        Seq::empty()
    } else {
        let rest = member_entries(ms.drop_last());
        match ms.last() {
            SourceItem::Fn(f) => if f.is_pub { rest.push(fn_entry(f)) } else { rest },
            _ => rest,
        }
    }
}

/// The entries of an item: a public free function, or the public methods of an impl
/// that implements no trait.
pub open spec fn item_entries(it: SourceItem) -> Seq<(Seq<char>, Seq<Seq<char>>, Seq<Seq<char>>)> {
    match it {
        SourceItem::Fn(f) => if f.is_pub { seq![fn_entry(f)] } else { Seq::empty() },
        SourceItem::Impl(has_trait, ms) => if has_trait { Seq::empty() } else { member_entries(ms@) },
        SourceItem::Other => Seq::empty(),
    }
}

/// The entries of the items of a file, in order.
pub open spec fn api_entries_spec(items: Seq<SourceItem>) -> Seq<(Seq<char>, Seq<Seq<char>>, Seq<Seq<char>>)>
    decreases items.len(),
{
    if items.len() == 0 {
        Seq::empty()
    } else {
        api_entries_spec(items.drop_last()) + item_entries(items.last())
    }
}

/// Copies of the strings of `v`.
fn copy_strings(v: &Vec<String>) -> (r: Vec<String>)
    ensures
        views(r@) == views(v@),
{
    let mut r: Vec<String> = Vec::new();
    let mut i: usize = 0;
    while i < v.len()
        invariant
            i <= v.len(),
            views(r@) == views(v@.take(i as int)),
        decreases v.len() - i,
    {
        let ghost before = views(r@);
        r.push(v[i].clone());
        assert(views(r@) =~= before.push(v@[i as int]@));
        assert(views(v@.take(i + 1)) =~= views(v@.take(i as int)).push(v@[i as int]@));
        i = i + 1;
    }
    assert(v@.take(i as int) =~= v@);
    r
}

/// The entry of a function.
fn entry_of(f: &SourceFn) -> (e: ApiEntry)
    ensures
        entry_view(e) == fn_entry(*f),
{
    proof {
        reveal_strlit("doc");
        reveal_strlit("derive");
    }
    let sig = signature_text(f.ident.as_str(), f.generics.as_str(), f.inputs.as_str(), f.output.as_str());
    let mut derives: Vec<String> = Vec::new();
    let mut docs: Vec<String> = Vec::new();
    let mut i: usize = 0;
    assert(f.attrs@.take(0) =~= Seq::<SourceAttr>::empty());
    while i < f.attrs.len()
        invariant
            i <= f.attrs@.len(),
            views(derives@) == derives_of(f.attrs@.take(i as int)),
            views(docs@) == docs_of(f.attrs@.take(i as int)),
        decreases f.attrs.len() - i,
    {
        let a = &f.attrs[i];
        proof {
            assert(f.attrs@.take(i + 1).drop_last() =~= f.attrs@.take(i as int));
            assert(f.attrs@.take(i + 1).last() == *a);
        }
        if str_eq(a.path.as_str(), "doc") {
            match &a.doc {
                Some(d) => {
                    let ghost before = views(docs@);
                    docs.push(d.clone());
                    assert(views(docs@) =~= before.push(d@));
                },
                None => {},
            }
        }
        if str_eq(a.path.as_str(), "derive") {
            match &a.derive_paths {
                Some(ps) => {
                    let mut k: usize = 0;
                    let ghost before = views(derives@);
                    while k < ps.len()
                        invariant
                            k <= ps@.len(),
                            views(derives@) == before + views(ps@.take(k as int)),
                        decreases ps.len() - k,
                    {
                        let ghost b2 = views(derives@);
                        derives.push(ps[k].clone());
                        assert(views(derives@) =~= b2.push(ps@[k as int]@));
                        assert(views(ps@.take(k + 1)) =~= views(ps@.take(k as int)).push(ps@[k as int]@));
                        k = k + 1;
                    }
                    assert(ps@.take(k as int) =~= ps@);
                },
                None => {},
            }
        }
        i = i + 1;
    }
    assert(f.attrs@.take(i as int) =~= f.attrs@);
    ApiEntry { sig, derives, docs }
}

/// Appends the entry of `f` to `out`.
fn push_entry(out: &mut Vec<ApiEntry>, f: &SourceFn)
    ensures
        entries_view(final(out)@) == entries_view(old(out)@).push(fn_entry(*f)),
{
    let ghost before = entries_view(out@);
    let e = entry_of(f);
    out.push(e);
    assert(entries_view(out@) =~= before.push(fn_entry(*f)));
}

/// The entries of the public free functions and of the public methods of impls that
/// implement no trait, in the order of the file.
pub fn api_entries(items: &Vec<SourceItem>) -> (v: Vec<ApiEntry>)
    ensures
        entries_view(v@) == api_entries_spec(items@),
{
    let mut out: Vec<ApiEntry> = Vec::new();
    let mut i: usize = 0;
    assert(items@.take(0) =~= Seq::<SourceItem>::empty());
    assert(entries_view(out@) =~= Seq::empty());
    while i < items.len()
        invariant
            i <= items@.len(),
            entries_view(out@) == api_entries_spec(items@.take(i as int)),
        decreases items.len() - i,
    {
        proof {
            assert(items@.take(i + 1).drop_last() =~= items@.take(i as int));
            assert(items@.take(i + 1).last() == items@[i as int]);
        }
        let ghost before = entries_view(out@);
        match &items[i] {
            SourceItem::Fn(f) => {
                if f.is_pub {
                    push_entry(&mut out, f);
                }
                assert(entries_view(out@) =~= before + item_entries(items@[i as int]));
            },
            SourceItem::Impl(has_trait, ms) => {
                if !*has_trait {
                    let mut k: usize = 0;
                    assert(ms@.take(0) =~= Seq::<SourceItem>::empty());
                    assert(before + member_entries(ms@.take(0)) =~= before);
                    while k < ms.len()
                        invariant
                            k <= ms@.len(),
                            entries_view(out@) == before + member_entries(ms@.take(k as int)),
                        decreases ms.len() - k,
                    {
                        proof {
                            assert(ms@.take(k + 1).drop_last() =~= ms@.take(k as int));
                            assert(ms@.take(k + 1).last() == ms@[k as int]);
                        }
                        match &ms[k] {
                            SourceItem::Fn(f) => {
                                if f.is_pub {
                                    push_entry(&mut out, f);
                                }
                            },
                            _ => {},
                        }
                        k = k + 1;
                    }
                    assert(ms@.take(k as int) =~= ms@);
                }
                assert(entries_view(out@) =~= before + item_entries(items@[i as int]));
            },
            SourceItem::Other => {
                assert(entries_view(out@) =~= before + item_entries(items@[i as int]));
            },
        }
        i = i + 1;
    }
    assert(items@.take(i as int) =~= items@);
    out
}

/// The entries of a source file: none when it does not parse, else those of its
/// public free functions and of the public methods of its impls that implement no
/// trait, in order.
pub fn entries_of_source(content: &str) -> (r: Option<Vec<ApiEntry>>)
    ensures
        match parsed_source_items(content@) {
            Some(items) => r matches Some(v) && entries_view(v@) == api_entries_spec(items),
            None => r is None,
        },
{
    match parse_source_items(content) {
        Some(items) => Some(api_entries(&items)),
        None => None,
    }
}

} // verus!
