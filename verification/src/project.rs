//! Project state: the file tree of a project, the Git status data shown for it, and the
//! open document's file and unsaved-changes flag.

use vstd::prelude::*;
use crate::text::{chars_of, str_eq};

verus! {

/// The extension of a path as `std::path::Path::extension` gives it: the part of the
/// final component after its last `.`, when there is one that does not start it.
pub uninterp spec fn path_extension(path: Seq<char>) -> Option<Seq<char>>;

/// The lowercase form of a string as `str::to_lowercase` gives it by the Unicode case
/// mapping.
pub uninterp spec fn unicode_lowercase(s: Seq<char>) -> Seq<char>;

/// Whether every character of `s` is ASCII.
pub open spec fn all_ascii(s: Seq<char>) -> bool {
    forall|i: int| 0 <= i < s.len() ==> (#[trigger] s[i] as int) < 0x80
}

/// `s` with the ASCII capital letters turned into small ones.
pub open spec fn ascii_lowercase(s: Seq<char>) -> Seq<char> {
    s.map_values(|c: char| if 'A' <= c <= 'Z' { ((c as int) + 32) as char } else { c })
}

/// The lowercase form of `s`: for ASCII text the ASCII mapping, else the Unicode one.
pub open spec fn lowercase(s: Seq<char>) -> Seq<char> {
    if all_ascii(s) { ascii_lowercase(s) } else { unicode_lowercase(s) }
}

/// The characters held by an optional string.
pub open spec fn opt_str_view(o: Option<String>) -> Option<Seq<char>> {
    match o {
        Some(s) => Some(s@),
        None => None,
    }
}

/// `std::path::Path::extension`, read as a string: the result is the named extension
/// of `path`.
#[verifier::external_body]
fn extension_of(path: &str) -> (r: Option<String>)
    ensures
        opt_str_view(r) == path_extension(path@),
{
    match std::path::Path::new(path).extension() {
        Some(e) => match e.to_str() {
            Some(s) => Some(String::from(s)),
            None => None,
        },
        None => None,
    }
}

/// `str::to_lowercase`: on ASCII text it lowers the capital letters A to Z and keeps
/// every other character; on other text the result is the named Unicode lowercase form.
#[verifier::external_body]
pub(crate) fn to_lowercase(s: &str) -> (r: String)
    ensures
        r@ == if all_ascii(s@) { ascii_lowercase(s@) } else { unicode_lowercase(s@) },
{
    s.to_lowercase()
}

/// `a` comes strictly before `b` in lexicographic order of code points.
pub open spec fn lex_lt(a: Seq<char>, b: Seq<char>) -> bool
    decreases a.len(),
{
    if a.len() == 0 {
        b.len() > 0
    } else if b.len() == 0 {
        false
    } else if a[0] != b[0] {
        (a[0] as int) < (b[0] as int)
    } else {
        lex_lt(a.drop_first(), b.drop_first())
    }
}

/// Lexicographic order is irreflexive and asymmetric.
proof fn lemma_lex_lt_asym(a: Seq<char>, b: Seq<char>)
    ensures
        !lex_lt(a, a),
        lex_lt(a, b) ==> !lex_lt(b, a),
    decreases a.len(),
{
    if a.len() > 0 {
        lemma_lex_lt_asym(a.drop_first(), if b.len() > 0 { b.drop_first() } else { b });
    }
}

/// Lexicographic order is transitive.
proof fn lemma_lex_lt_trans(a: Seq<char>, b: Seq<char>, c: Seq<char>)
    ensures
        lex_lt(a, b) && lex_lt(b, c) ==> lex_lt(a, c),
    decreases a.len(),
{
    if a.len() > 0 && b.len() > 0 && c.len() > 0 {
        lemma_lex_lt_trans(a.drop_first(), b.drop_first(), c.drop_first());
    }
}

/// Two different sequences are ordered one way or the other.
proof fn lemma_lex_lt_total(a: Seq<char>, b: Seq<char>)
    ensures
        a != b ==> lex_lt(a, b) || lex_lt(b, a),
    decreases a.len(),
{
    if a.len() > 0 && b.len() > 0 {
        lemma_lex_lt_total(a.drop_first(), b.drop_first());
        if a[0] != b[0] {
            assert((a[0] as int) != (b[0] as int));
        }
        if a[0] == b[0] && a.drop_first() == b.drop_first() {
            assert(a =~= seq![a[0]] + a.drop_first());
            assert(b =~= seq![b[0]] + b.drop_first());
        }
    } else if a.len() == 0 && b.len() == 0 {
        assert(a =~= b);
    }
}

/// Lexicographic order is irreflexive, transitive and total.
pub proof fn lemma_lex_lt_order(a: Seq<char>, b: Seq<char>, c: Seq<char>)
    ensures
        !lex_lt(a, a),
        lex_lt(a, b) ==> !lex_lt(b, a),
        lex_lt(a, b) && lex_lt(b, c) ==> lex_lt(a, c),
        a != b ==> lex_lt(a, b) || lex_lt(b, a),
{
    lemma_lex_lt_asym(a, b);
    lemma_lex_lt_trans(a, b, c);
    lemma_lex_lt_total(a, b);
}

/// The order of the tree's listing: directories before files, then names compared in
/// lowercase.
pub open spec fn key_before(a_dir: bool, a_key: Seq<char>, b_dir: bool, b_key: Seq<char>) -> bool {
    (a_dir && !b_dir) || (a_dir == b_dir && lex_lt(a_key, b_key))
}

/// `a` is listed before `b`.
pub open spec fn node_before(a: FileNode, b: FileNode) -> bool {
    key_before(a.is_dir, lowercase(a.name@), b.is_dir, lowercase(b.name@))
}

/// `key_before` is a strict weak order: irreflexive, asymmetric, transitive, and
/// "not after" is transitive and composes with "before".
proof fn lemma_key_order(ad: bool, ak: Seq<char>, bd: bool, bk: Seq<char>, cd: bool, ck: Seq<char>)
    ensures
        !key_before(ad, ak, ad, ak),
        key_before(ad, ak, bd, bk) ==> !key_before(bd, bk, ad, ak),
        key_before(ad, ak, bd, bk) && key_before(bd, bk, cd, ck) ==> key_before(ad, ak, cd, ck),
        !key_before(bd, bk, ad, ak) && key_before(bd, bk, cd, ck) ==> key_before(ad, ak, cd, ck),
        key_before(ad, ak, bd, bk) && !key_before(cd, ck, bd, bk) ==> key_before(ad, ak, cd, ck),
        !key_before(bd, bk, ad, ak) && !key_before(cd, ck, bd, bk) ==> !key_before(cd, ck, ad, ak),
{
    lemma_lex_lt_order(ak, bk, ck);
    lemma_lex_lt_order(bk, ck, ak);
    lemma_lex_lt_order(ck, ak, bk);
    lemma_lex_lt_order(ak, ck, bk);
    lemma_lex_lt_order(bk, ak, ck);
    lemma_lex_lt_order(ck, bk, ak);
}

/// A file or directory of a project tree.
#[derive(Debug)]
pub struct FileNode {
    pub name: String,
    pub path: String,
    pub is_dir: bool,
    pub children: Vec<FileNode>,
    pub size: Option<u64>,
    pub extension: Option<String>,
}

/// The entry data of two nodes agree: name, path, kind, size and extension.
pub open spec fn same_entry(a: FileNode, b: FileNode) -> bool {
    &&& a.name@ == b.name@
    &&& a.path@ == b.path@
    &&& a.is_dir == b.is_dir
    &&& a.size == b.size
    &&& opt_str_view(a.extension) == opt_str_view(b.extension)
}

/// `p` lists, for each position of `new`, the index in `old` it was taken from: each
/// old index once, positions in listing order, and entries that are equal in that
/// order keep their old relative order.
pub open spec fn listing_order(p: Seq<int>, new: Seq<FileNode>, old: Seq<FileNode>) -> bool {
    &&& p.len() == old.len()
    &&& new.len() == old.len()
    &&& forall|i: int| 0 <= i < p.len() ==> 0 <= #[trigger] p[i] < old.len()
    &&& forall|i: int, j: int| 0 <= i < j < p.len() ==> p[i] != p[j]
    &&& forall|i: int, j: int| 0 <= i < j < new.len() ==> !node_before(new[j], new[i])
    &&& forall|i: int, j: int| 0 <= i < j < new.len() && !node_before(new[i], new[j]) ==> p[i] < p[j]
}

/// `new` is `old` with every directory's children listed in order, at every depth:
/// directories first, then by lowercase name, ties in their old order.
pub open spec fn sorted_copy(new: FileNode, old: FileNode) -> bool
    decreases old,
{
    &&& same_entry(new, old)
    &&& exists|p: Seq<int>|
        #[trigger] listing_order(p, new.children@, old.children@) && forall|i: int|
            0 <= i < p.len() ==> 0 <= p[i] < old.children@.len() && {
                proof {
                    assert(decreases_to!(old => old.children));
                    assert(decreases_to!(old.children => old.children@));
                }
                sorted_copy(#[trigger] new.children@[i], old.children@[p[i]])
            }
}

/// `b` is a copy of the tree `a`: the same entries at every depth.
pub open spec fn same_tree(a: FileNode, b: FileNode) -> bool
    decreases a,
{
    &&& same_entry(b, a)
    &&& b.children@.len() == a.children@.len()
    &&& forall|i: int| 0 <= i < a.children@.len() ==> {
        proof {
            assert(decreases_to!(a => a.children));
            assert(decreases_to!(a.children => a.children@));
        }
        same_tree(#[trigger] a.children@[i], b.children@[i])
    }
}

/// A copy of an optional string.
fn copy_opt(o: &Option<String>) -> (r: Option<String>)
    ensures
        opt_str_view(r) == opt_str_view(*o),
{
    match o {
        Some(s) => Some(s.clone()),
        None => None,
    }
}

impl Clone for FileNode {
    /// A copy of the whole tree.
    fn clone(&self) -> (c: Self)
        ensures
            same_tree(*self, c),
        decreases *self,
    {
        let mut children: Vec<FileNode> = Vec::new();
        let mut i: usize = 0;
        while i < self.children.len()
            invariant
                i <= self.children.len(),
                children@.len() == i,
                forall|k: int| 0 <= k < i ==> same_tree(self.children@[k], #[trigger] children@[k]),
            decreases self.children.len() - i,
        {
            proof {
                assert(decreases_to!(*self => self.children));
                assert(decreases_to!(self.children => self.children@));
            }
            let c = self.children[i].clone();
            children.push(c);
            i = i + 1;
        }
        FileNode {
            name: self.name.clone(),
            path: self.path.clone(),
            is_dir: self.is_dir,
            children,
            size: self.size,
            extension: copy_opt(&self.extension),
        }
    }
}

/// Whether `(ad, ak)` comes before `(bd, bk)` in the listing order.
fn key_before_exec(ad: bool, ak: &Vec<char>, bd: bool, bk: &Vec<char>) -> (r: bool)
    ensures
        r == key_before(ad, ak@, bd, bk@),
{
    if ad != bd {
        return ad;
    }
    let mut i: usize = 0;
    assert(ak@.skip(0) =~= ak@);
    assert(bk@.skip(0) =~= bk@);
    while i < ak.len() && i < bk.len() && ak[i] == bk[i]
        invariant
            i <= ak.len(),
            i <= bk.len(),
            lex_lt(ak@, bk@) == lex_lt(ak@.skip(i as int), bk@.skip(i as int)),
        decreases ak.len() - i,
    {
        assert(ak@.skip(i as int).drop_first() =~= ak@.skip(i + 1));
        assert(bk@.skip(i as int).drop_first() =~= bk@.skip(i + 1));
        i = i + 1;
    }
    if i == ak.len() {
        i < bk.len()
    } else if i == bk.len() {
        false
    } else {
        assert(ak@.skip(i as int)[0] == ak@[i as int]);
        assert(bk@.skip(i as int)[0] == bk@[i as int]);
        ak[i] < bk[i]
    }
}

impl FileNode {
    /// A directory node with no children yet.
    pub fn dir(name: &str, path: String) -> (n: Self)
        ensures
            n.name@ == name@,
            n.path@ == path@,
            n.is_dir,
            n.children@.len() == 0,
            n.size is None,
            n.extension is None,
    {
        FileNode {
            name: String::from_str(name),
            path,
            is_dir: true,
            children: Vec::new(),
            size: None,
            extension: None,
        }
    }

    /// A file node; its extension is the extension of `path`.
    pub fn file(name: &str, path: String) -> (n: Self)
        ensures
            n.name@ == name@,
            n.path@ == path@,
            !n.is_dir,
            n.children@.len() == 0,
            n.size is None,
            opt_str_view(n.extension) == path_extension(path@),
    {
        let extension = extension_of(path.as_str());
        FileNode {
            name: String::from_str(name),
            path,
            is_dir: false,
            children: Vec::new(),
            size: None,
            extension,
        }
    }

    /// Appends `c` to the children.
    pub fn add_child(&mut self, c: FileNode)
        ensures
            same_entry(*final(self), *old(self)),
            final(self).children@ == old(self).children@.push(c),
    {
        self.children.push(c);
    }

    /// Sorts the children of every directory of the tree: directories first, then by
    /// name compared in lowercase; the sort is stable.
    pub fn sort_children(&mut self)
        ensures
            sorted_copy(*final(self), *old(self)),
        decreases *old(self),
    {
        let ghost old_node: FileNode = *self;
        let mut rest: Vec<FileNode> = Vec::new();
        std::mem::swap(&mut rest, &mut self.children);
        let ghost oldc = rest@;
        let n = rest.len();
        let mut sorted: Vec<FileNode> = Vec::new();
        let mut keys: Vec<Vec<char>> = Vec::new();
        let ghost mut p: Seq<int> = Seq::empty();
        assert(oldc.take(n as int) =~= oldc);
        while rest.len() > 0
            invariant
                oldc == old_node.children@,
                oldc.len() == n,
                rest@ == oldc.take(rest.len() as int),
                sorted.len() + rest.len() == n,
                keys.len() == sorted.len(),
                p.len() == sorted.len(),
                forall|i: int| 0 <= i < keys.len() ==> (#[trigger] keys@[i])@ == lowercase(sorted@[i].name@),
                forall|i: int| 0 <= i < p.len() ==> rest.len() <= #[trigger] p[i] < n,
                forall|i: int, j: int| 0 <= i < j < p.len() ==> p[i] != p[j],
                forall|i: int, j: int| 0 <= i < j < sorted.len() ==> !node_before(sorted@[j], sorted@[i]),
                forall|i: int, j: int| 0 <= i < j < sorted.len() && !node_before(sorted@[i], sorted@[j]) ==> p[i] < p[j],
                forall|i: int| 0 <= i < sorted.len() ==> sorted_copy(#[trigger] sorted@[i], oldc[p[i]]),
                decreases_to!(old_node => old_node.children),
                decreases_to!(old_node.children => old_node.children@),
                same_entry(*self, old_node),
                old_node == *old(self),
            decreases rest.len(),
        {
            let k = rest.len() - 1;
            let mut c = rest.pop().unwrap();
            assert(c == oldc[k as int]);
            assert(rest@ =~= oldc.take(k as int));
            proof {
                assert(decreases_to!(old_node.children@ => old_node.children@[k as int]));
            }
            c.sort_children();
            let low = to_lowercase(c.name.as_str());
            let key = chars_of(low.as_str());
            let mut pos: usize = 0;
            while pos < sorted.len() && key_before_exec(sorted[pos].is_dir, &keys[pos], c.is_dir, &key)
                invariant
                    pos <= sorted.len(),
                    keys.len() == sorted.len(),
                    forall|i: int| 0 <= i < pos ==> node_before(sorted@[i], c),
                    forall|i: int| 0 <= i < keys.len() ==> (#[trigger] keys@[i])@ == lowercase(sorted@[i].name@),
                    key@ == lowercase(c.name@),
                decreases sorted.len() - pos,
            {
                pos = pos + 1;
            }
            proof {
                assert forall|i: int| pos <= i < sorted.len() implies !node_before(sorted@[i], c) by {
                    let a = sorted@[pos as int];
                    let b = sorted@[i];
                    assert(!node_before(a, c));
                    if i > pos {
                        assert(!node_before(b, a));
                    }
                    lemma_key_order(c.is_dir, lowercase(c.name@), a.is_dir, lowercase(a.name@), b.is_dir, lowercase(b.name@));
                }
            }
            let ghost before_sorted = sorted@;
            let ghost before_keys = keys@;
            let ghost before_p = p;
            sorted.insert(pos, c);
            keys.insert(pos, key);
            proof {
                p = p.insert(pos as int, k as int);
                assert forall|i: int, j: int| 0 <= i < j < sorted.len() implies !node_before(sorted@[j], sorted@[i]) by {
                    if j == pos {
                        lemma_key_order(sorted@[i].is_dir, lowercase(sorted@[i].name@), c.is_dir, lowercase(c.name@), c.is_dir, lowercase(c.name@));
                    }
                }
                assert forall|i: int| 0 <= i < keys.len() implies (#[trigger] keys@[i])@ == lowercase(sorted@[i].name@) by {
                    if i > pos {
                        assert(keys@[i] == before_keys[i - 1]);
                        assert(sorted@[i] == before_sorted[i - 1]);
                    }
                }
            }
        }
        self.children = sorted;
        proof {
            assert(listing_order(p, self.children@, oldc));
        }
    }
}

/// A node just made for component `name` at `full`: a directory, or a file with its
/// extension and `size`, without children.
pub open spec fn new_leaf(c: FileNode, name: Seq<char>, full: Seq<char>, is_dir: bool, size: Option<u64>) -> bool {
    &&& c.name@ == name
    &&& c.path@ == full
    &&& c.is_dir == is_dir
    &&& c.children@.len() == 0
    &&& if is_dir {
        c.size is None && c.extension is None
    } else {
        c.size == size && opt_str_view(c.extension) == path_extension(full)
    }
}

/// The index of the first directory named `name` among `cs`, if there is one.
pub open spec fn first_dir_named(cs: Seq<FileNode>, name: Seq<char>) -> Option<int>
    decreases cs.len(),
{
    if cs.len() == 0 {
        None
    } else if cs[0].is_dir && cs[0].name@ == name {
        Some(0)
    } else {
        match first_dir_named(cs.drop_first(), name) {
            Some(i) => Some(i + 1),
            None => None,
        }
    }
}

/// `new` is the list of children `old` after inserting the entry at the relative path
/// `comps` (its full path `full`): a last component is appended as a new node; an
/// earlier one descends into the first directory of that name, or into a new
/// directory (recorded with the full path of the entry) appended for it.
pub open spec fn inserted_children(
    new: Seq<FileNode>,
    old: Seq<FileNode>,
    comps: Seq<Seq<char>>,
    full: Seq<char>,
    is_dir: bool,
    size: Option<u64>,
) -> bool
    decreases comps.len(),
{
    if comps.len() == 0 {
        new == old
    } else if comps.len() == 1 {
        &&& new.len() == old.len() + 1
        &&& new.drop_last() == old
        &&& new_leaf(new.last(), comps[0], full, is_dir, size)
    } else {
        match first_dir_named(old, comps[0]) {
            Some(i) => {
                &&& new.len() == old.len()
                &&& 0 <= i < old.len()
                &&& forall|j: int| 0 <= j < old.len() && j != i ==> new[j] == old[j]
                &&& same_entry(new[i], old[i])
                &&& inserted_children(new[i].children@, old[i].children@, comps.drop_first(), full, is_dir, size)
            },
            None => {
                &&& new.len() == old.len() + 1
                &&& new.drop_last() == old
                &&& new.last().name@ == comps[0]
                &&& new.last().path@ == full
                &&& new.last().is_dir
                &&& new.last().size is None
                &&& new.last().extension is None
                &&& inserted_children(new.last().children@, Seq::empty(), comps.drop_first(), full, is_dir, size)
            },
        }
    }
}

/// `first_dir_named` finds `k` when the child at `k` is a directory of that name and
/// none before it is.
proof fn lemma_first_dir_named(cs: Seq<FileNode>, name: Seq<char>, k: int)
    requires
        0 <= k <= cs.len(),
        forall|j: int| 0 <= j < k ==> !(cs[j].is_dir && cs[j].name@ == name),
        k < cs.len() ==> cs[k].is_dir && cs[k].name@ == name,
    ensures
        first_dir_named(cs, name) == if k < cs.len() { Some(k) } else { None::<int> },
    decreases cs.len(),
{
    if cs.len() > 0 && k > 0 {
        assert forall|j: int| 0 <= j < k - 1 implies !(cs.drop_first()[j].is_dir && cs.drop_first()[j].name@ == name) by {
            assert(cs.drop_first()[j] == cs[j + 1]);
        }
        lemma_first_dir_named(cs.drop_first(), name, k - 1);
    }
}

/// The status flags of one file that a Git status listing reports.
#[derive(Debug, Clone, Copy, PartialEq, Eq, Structural)]
pub struct StatusFlags {
    pub index_new: bool,
    pub wt_new: bool,
    pub index_deleted: bool,
    pub wt_deleted: bool,
    pub index_renamed: bool,
    pub wt_renamed: bool,
    pub conflicted: bool,
    pub ignored: bool,
}

/// The word shown for a file's status: the first that applies of new, deleted,
/// renamed, conflicted and ignored, else modified.
pub open spec fn status_word(f: StatusFlags) -> Seq<char> {
    if f.index_new || f.wt_new {
        "new"@
    } else if f.index_deleted || f.wt_deleted {
        "deleted"@
    } else if f.index_renamed || f.wt_renamed {
        "renamed"@
    } else if f.conflicted {
        "conflicted"@
    } else if f.ignored {
        "ignored"@
    } else {
        "modified"@
    }
}

impl StatusFlags {
    /// The word shown for this status.
    pub fn label(&self) -> (s: String)
        ensures
            s@ == status_word(*self),
    {
        if self.index_new || self.wt_new {
            String::from_str("new")
        } else if self.index_deleted || self.wt_deleted {
            String::from_str("deleted")
        } else if self.index_renamed || self.wt_renamed {
            String::from_str("renamed")
        } else if self.conflicted {
            String::from_str("conflicted")
        } else if self.ignored {
            String::from_str("ignored")
        } else {
            String::from_str("modified")
        }
    }

    /// Whether the file was renamed, in the index or in the working tree; only then
    /// does its entry carry the old path.
    pub fn is_renamed(&self) -> (b: bool)
        ensures
            b == (self.index_renamed || self.wt_renamed),
    {
        self.index_renamed || self.wt_renamed
    }
}

/// The Git status of one file.
#[derive(Debug, Clone)]
pub struct StatusEntry {
    pub path: String,
    pub status: String,
    pub old_path: Option<String>,
}

impl StatusEntry {
    /// The entry of a file at `path` with status `flags`; the old path is kept only
    /// for a rename.
    pub fn from_flags(path: String, flags: StatusFlags, old_path: Option<String>) -> (e: Self)
        ensures
            e.path@ == path@,
            e.status@ == status_word(flags),
            opt_str_view(e.old_path) == if flags.index_renamed || flags.wt_renamed { opt_str_view(old_path) } else { None },
    {
        let status = flags.label();
        let old = if flags.is_renamed() { old_path } else { None };
        StatusEntry { path, status, old_path: old }
    }
}

/// The Git status of a repository: the branch, one entry per changed file, and
/// whether there is none.
#[derive(Debug, Clone)]
pub struct GitStatus {
    pub branch: String,
    pub entries: Vec<StatusEntry>,
    pub is_clean: bool,
}

impl GitStatus {
    /// The status of branch `branch` (`HEAD` when there is no branch name) with
    /// `entries`; it is clean when there are no entries.
    pub fn from_entries(branch: Option<String>, entries: Vec<StatusEntry>) -> (g: Self)
        ensures
            g.branch@ == match branch { Some(b) => b@, None => "HEAD"@ },
            g.entries@ == entries@,
            g.is_clean == (entries@.len() == 0),
    {
        let b = match branch {
            Some(b) => b,
            None => String::from_str("HEAD"),
        };
        let is_clean = entries.len() == 0;
        GitStatus { branch: b, entries, is_clean }
    }
}

/// The parent of a path as `std::path::Path::parent` gives it: the path without its
/// final component, or none for a root or an empty path.
pub uninterp spec fn path_parent(path: Seq<char>) -> Option<Seq<char>>;

/// `std::path::Path::parent`, read as a string: the result is the named parent of
/// `path`.
#[verifier::external_body]
fn parent_of(path: &str) -> (r: Option<String>)
    ensures
        opt_str_view(r) == path_parent(path@),
{
    match std::path::Path::new(path).parent() {
        Some(p) => match p.to_str() {
            Some(s) => Some(String::from(s)),
            None => None,
        },
        None => None,
    }
}

/// The next step of the upward search for a Git repository.
#[derive(Debug)]
pub enum GitRootStep {
    /// The directory holds `.git`: it is the repository root.
    Found(String),
    /// Look in this parent directory next.
    Next(String),
    /// There is no parent left: the path is not in a repository.
    NotFound,
}

/// The open document's file and whether it has unsaved changes.
#[derive(Debug)]
pub struct ProjectManager {
    pub current_file: Option<String>,
    pub is_dirty: bool,
}

impl ProjectManager {
    /// A manager with no file open and nothing unsaved.
    pub fn new() -> (pm: Self)
        ensures
            pm.current_file is None,
            !pm.is_dirty,
    {
        ProjectManager { current_file: None, is_dirty: false }
    }

    /// Records that the document has unsaved changes.
    pub fn mark_dirty(&mut self)
        ensures
            final(self).is_dirty,
            final(self).current_file == old(self).current_file,
    {
        self.is_dirty = true;
    }

    /// Records that the document has no unsaved changes.
    pub fn mark_clean(&mut self)
        ensures
            !final(self).is_dirty,
            final(self).current_file == old(self).current_file,
    {
        self.is_dirty = false;
    }

    /// Makes `path` the open file, with nothing unsaved (after opening or saving it).
    pub fn set_current_file(&mut self, path: String)
        ensures
            opt_str_view(final(self).current_file) == Some(path@),
            !final(self).is_dirty,
    {
        self.current_file = Some(path);
        self.is_dirty = false;
    }

    /// Inserts into the tree `n` the entry at relative path `comps[from..]`, whose full
    /// path is `full`: a directory, or a file of `size` bytes when that is known.
    pub fn ins(&self, n: &mut FileNode, comps: &Vec<String>, from: usize, full: &str, is_dir: bool, size: Option<u64>)
        requires
            from <= comps.len(),
        ensures
            same_entry(*final(n), *old(n)),
            inserted_children(final(n).children@, old(n).children@, comps@.skip(from as int).map_values(|c: String| c@), full@, is_dir, size),
        decreases comps.len() - from,
    {
        let ghost cs = comps@.skip(from as int).map_values(|c: String| c@);
        if from >= comps.len() {
            assert(cs.len() == 0);
            return;
        }
        assert(cs[0] == comps@[from as int]@);
        let nm = comps[from].as_str();
        if from + 1 == comps.len() {
            if is_dir {
                n.add_child(FileNode::dir(nm, String::from_str(full)));
            } else {
                let mut f = FileNode::file(nm, String::from_str(full));
                f.size = size;
                n.add_child(f);
            }
            proof {
                assert(cs.len() == 1);
                assert(final(n).children@.drop_last() =~= old(n).children@);
                assert(new_leaf(final(n).children@.last(), cs[0], full@, is_dir, size));
            }
        } else {
            assert(cs.len() >= 2);
            assert(cs.drop_first() =~= comps@.skip(from + 1).map_values(|c: String| c@));
            let mut i: usize = 0;
            let mut found = false;
            while i < n.children.len() && !found
                invariant
                    i <= n.children.len(),
                    n.children@ == old(n).children@,
                    found ==> i < n.children.len() && n.children@[i as int].is_dir && n.children@[i as int].name@ == nm@,
                    forall|j: int| 0 <= j < i ==> !(n.children@[j].is_dir && n.children@[j].name@ == nm@),
                decreases n.children.len() - i + if found { 0int } else { 1int },
            {
                if n.children[i].is_dir && str_eq(n.children[i].name.as_str(), nm) {
                    found = true;
                } else {
                    i = i + 1;
                }
            }
            proof {
                lemma_first_dir_named(old(n).children@, nm@, i as int);
            }
            if found {
                let ghost before = n.children@;
                let mut ch = n.children.remove(i);
                self.ins(&mut ch, comps, from + 1, full, is_dir, size);
                n.children.insert(i, ch);
                proof {
                    assert forall|j: int| 0 <= j < before.len() && j != i implies n.children@[j] == before[j] by {
                        if j < i {
                        } else {
                        }
                    }
                    assert(first_dir_named(old(n).children@, cs[0]) == Some(i as int));
                    assert(n.children@[i as int] == ch);
                    assert(inserted_children(n.children@, old(n).children@, cs, full@, is_dir, size));
                }
            } else {
                let mut d = FileNode::dir(nm, String::from_str(full));
                assert(d.children@ =~= Seq::<FileNode>::empty());
                self.ins(&mut d, comps, from + 1, full, is_dir, size);
                n.add_child(d);
                proof {
                    assert(first_dir_named(old(n).children@, cs[0]) is None);
                    assert(n.children@.drop_last() =~= old(n).children@);
                    assert(inserted_children(n.children@, old(n).children@, cs, full@, is_dir, size));
                }
            }
        }
    }

    /// One step of the upward search for a Git repository, at directory `dir`, given
    /// whether `dir` holds a `.git` directory: found here, go on with the parent, or
    /// stop at the top.
    pub fn git_root_step(dir: &str, has_git: bool) -> (s: GitRootStep)
        ensures
            has_git ==> (s matches GitRootStep::Found(d) && d@ == dir@),
            !has_git && path_parent(dir@) is None ==> s is NotFound,
            !has_git && path_parent(dir@) is Some ==> (s matches GitRootStep::Next(q) && Some(q@) == path_parent(dir@)),
    {
        if has_git {
            GitRootStep::Found(String::from_str(dir))
        } else {
            match parent_of(dir) {
                Some(p) => GitRootStep::Next(p),
                None => GitRootStep::NotFound,
            }
        }
    }
}

/// The repository root found by walking up from `dir` at most `n` parents: the first
/// of `dir`, its parent, its parent's parent, ... for which `has_git` holds.
pub open spec fn git_root_within(dir: Seq<char>, has_git: spec_fn(Seq<char>) -> bool, n: nat) -> Option<Seq<char>>
    decreases n,
{
    if has_git(dir) {
        Some(dir)
    } else if n == 0 {
        None
    } else {
        match path_parent(dir) {
            Some(p) => git_root_within(p, has_git, (n - 1) as nat),
            None => None,
        }
    }
}

/// Walking with `git_root_step` finds the first ancestor holding `.git`: a step that
/// finds `dir` ends the walk with `dir`, one that finds no parent ends it with nothing,
/// and one that goes to the parent leaves the rest of the walk to the parent.
pub proof fn law_git_root_walk(dir: Seq<char>, has_git: spec_fn(Seq<char>) -> bool, n: nat)
    ensures
        has_git(dir) ==> git_root_within(dir, has_git, n + 1) == Some(dir),
        !has_git(dir) && path_parent(dir) is None ==> git_root_within(dir, has_git, n + 1) is None,
        !has_git(dir) && path_parent(dir) is Some ==> git_root_within(dir, has_git, n + 1) == git_root_within(path_parent(dir)->0, has_git, n),
{
}

impl Default for ProjectManager {
    fn default() -> (pm: Self)
        ensures
            pm.current_file is None,
            !pm.is_dirty,
    {
        ProjectManager::new()
    }
}

} // verus!
