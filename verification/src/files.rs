//! The tree of Markdown files under a folder.
//!
//! Reading a folder is left to the caller, which hands over one
//! [`ScannedEntry`] for each entry it read; the library decides which entries
//! belong to the tree and in which order.

use crate::files::order::entry_key;
use crate::files::sort::{lemma_with_key_contains, sort_entries, sorted, with_key};
use crate::text::opt_string_view;
use vstd::prelude::*;

pub mod names;
pub mod order;
pub mod sort;

verus! {

/// A folder with its entries, or a Markdown file.
#[derive(Debug, PartialEq, Eq)]
pub enum FileEntry {
    Dir { name: String, children: Vec<FileEntry> },
    File { path: String, name: String },
}

/// What was read of one folder entry: its path, its file name if that is
/// valid UTF-8, and, for a folder, the tree built from its own entries.
pub struct ScannedEntry {
    pub path: String,
    pub name: Option<String>,
    pub children: Option<Vec<FileEntry>>,
}

/// What `std::path::Path::parent` gives for the path written as `path`: the
/// path without its final component.
pub uninterp spec fn std_path_parent(path: Seq<char>) -> Option<Seq<char>>;

/// `std::path::Path::parent` of the path written as `path`, as text.  A
/// parent is a prefix of the path, so the text conversion loses nothing.
#[verifier::external_body]
fn path_parent(path: &str) -> (parent: Option<String>)
    ensures
        opt_string_view(parent) == std_path_parent(path@),
{
    match std::path::Path::new(path).parent() {
        Some(p) => Some(p.to_string_lossy().into_owned()),
        None => None,
    }
}

/// What `std::path::Path::file_name` gives for the path written as `path`:
/// its final component, unless that is `..` or there is none.
pub uninterp spec fn std_path_file_name(path: Seq<char>) -> Option<Seq<char>>;

/// What `std::path::Path::join` gives for the paths written as `base` and `name`.
pub uninterp spec fn std_path_join(base: Seq<char>, name: Seq<char>) -> Seq<char>;

/// `std::path::Path::file_name` of the path written as `path`, as text.  The
/// name is a part of the path, so the text conversion loses nothing.
#[verifier::external_body]
fn path_file_name(path: &str) -> (name: Option<String>)
    ensures
        opt_string_view(name) == std_path_file_name(path@),
{
    match std::path::Path::new(path).file_name() {
        Some(n) => Some(n.to_string_lossy().into_owned()),
        None => None,
    }
}

/// `std::path::Path::join` of the paths written as `base` and `name`, as
/// text.  Joining text paths gives text, so the conversion loses nothing.
#[verifier::external_body]
fn path_join(base: &str, name: &str) -> (joined: String)
    ensures
        joined@ == std_path_join(base@, name@),
{
    std::path::Path::new(base).join(name).to_string_lossy().into_owned()
}

/// The file opened for a command-line path to a file: its name in the
/// listed folder `dir`, or the path itself where it has no file name.
pub open spec fn opened_file_path_spec(path: Seq<char>, dir: Seq<char>) -> Seq<char> {
    match std_path_file_name(path) {
        Some(name) => std_path_join(dir, name),
        None => path,
    }
}

/// The file opened for a command-line path to a file, listed in `dir`.
pub fn opened_file_path(path: &str, dir: &str) -> (opened: String)
    ensures
        opened@ == opened_file_path_spec(path@, dir@),
{
    match path_file_name(path) {
        Some(name) => path_join(dir, name.as_str()),
        None => String::from_str(path),
    }
}

/// The folder whose tree is shown for the command-line path: the path itself
/// for a folder; for a file, its parent, or `.` where the parent is empty.
pub open spec fn listing_dir_spec(path: Seq<char>, is_dir: bool) -> Seq<char> {
    if is_dir {
        path
    } else {
        match std_path_parent(path) {
            Some(p) => if p.len() > 0 {
                p
            } else {
                "."@
            },
            None => "."@,
        }
    }
}

/// The folder whose tree is shown for the command-line path.
pub fn listing_dir(path: &str, is_dir: bool) -> (dir: String)
    ensures
        dir@ == listing_dir_spec(path@, is_dir),
{
    if is_dir {
        return String::from_str(path);
    }
    match path_parent(path) {
        Some(p) => {
            if p.as_str().is_empty() {
                String::from_str(".")
            } else {
                p
            }
        },
        None => String::from_str("."),
    }
}

/// A file name with the extension `md`, as `Path::extension` finds it: the
/// text after the final `.`, where that `.` is not the first character.
pub open spec fn is_markdown_name_spec(name: Seq<char>) -> bool {
    name.len() > 3 && name.subrange(name.len() - 3, name.len() as int) == seq!['.', 'm', 'd']
}

/// The position of the last `.` in a file name.
pub open spec fn last_dot(name: Seq<char>) -> Option<int>
    decreases name.len(),
{
    if name.len() == 0 {
        None
    } else if name.last() == '.' {
        Some(name.len() - 1)
    } else {
        last_dot(name.drop_last())
    }
}

/// The extension of a file name as the documentation of `Path::extension`
/// defines it: none if there is no `.`, none if the name begins with `.` and
/// has no other `.`, and otherwise the text after the final `.`.
pub open spec fn documented_extension(name: Seq<char>) -> Option<Seq<char>> {
    match last_dot(name) {
        None => None,
        Some(i) => if i == 0 {
            None
        } else {
            Some(name.subrange(i + 1, name.len() as int))
        },
    }
}

proof fn lemma_last_dot(name: Seq<char>)
    ensures
        last_dot(name) matches Some(i) ==> {
            &&& 0 <= i < name.len()
            &&& name[i] == '.'
            &&& forall|j: int| i < j < name.len() ==> name[j] != '.'
        },
        last_dot(name) is None ==> forall|j: int| 0 <= j < name.len() ==> name[j] != '.',
    decreases name.len(),
{
    if name.len() > 0 {
        let rest = name.drop_last();
        lemma_last_dot(rest);
        assert forall|j: int| 0 <= j < rest.len() implies rest[j] == name[j] by {}
        if name.last() != '.' {
            if let Some(i) = last_dot(rest) {
                assert forall|j: int| i < j < name.len() implies name[j] != '.' by {
                    if j < rest.len() {
                        assert(rest[j] == name[j]);
                    }
                }
            } else {
                assert forall|j: int| 0 <= j < name.len() implies name[j] != '.' by {
                    if j < rest.len() {
                        assert(rest[j] == name[j]);
                    }
                }
            }
        }
    }
}

/// A name is a Markdown file name exactly when its documented extension is `md`.
pub proof fn lemma_markdown_name_is_md_extension(name: Seq<char>)
    ensures
        is_markdown_name_spec(name) <==> documented_extension(name) == Some(seq!['m', 'd']),
{
    lemma_last_dot(name);
    let n = name.len() as int;
    if is_markdown_name_spec(name) {
        let tail = name.subrange(n - 3, n);
        assert(tail[0] == '.' && tail[1] == 'm' && tail[2] == 'd');
        assert(name[n - 3] == '.');
        assert(name[n - 2] == 'm' && name[n - 1] == 'd');
        assert(last_dot(name) == Some(n - 3));
        assert(name.subrange(n - 2, n) =~= seq!['m', 'd']);
    }
    if documented_extension(name) == Some(seq!['m', 'd']) {
        let i = last_dot(name).unwrap();
        let ext = name.subrange(i + 1, n);
        assert(ext.len() == 2);
        assert(i == n - 3);
        assert(name[n - 2] == ext[0] && name[n - 1] == ext[1]);
        assert(name.subrange(n - 3, n) =~= seq!['.', 'm', 'd']);
    }
}

/// Whether a file name has the extension `md`.
pub fn is_markdown_name(name: &str) -> (r: bool)
    ensures
        r == is_markdown_name_spec(name@),
{
    let n = name.unicode_len();
    if n <= 3 {
        return false;
    }
    let r = name.get_char(n - 3) == '.' && name.get_char(n - 2) == 'm' && name.get_char(n - 1) == 'd';
    let ghost tail = name@.subrange(n - 3, n as int);
    assert(r ==> tail =~= seq!['.', 'm', 'd']);
    assert(tail == seq!['.', 'm', 'd'] ==> (tail[0] == '.' && tail[1] == 'm' && tail[2] == 'd'));
    r
}

/// The tree entry for what was read: a folder that holds at least one entry,
/// or a Markdown file; nothing for anything else or for a name that is not UTF-8.
pub open spec fn classify(e: ScannedEntry) -> Option<FileEntry> {
    match e.name {
        None => None,
        Some(name) => match e.children {
            Some(children) => if children.len() > 0 {
                Some(FileEntry::Dir { name, children })
            } else {
                None
            },
            None => if is_markdown_name_spec(name@) {
                Some(FileEntry::File { path: e.path, name })
            } else {
                None
            },
        },
    }
}

/// Decides what one folder entry becomes in the tree.
pub fn classify_entry(entry: ScannedEntry) -> (r: Option<FileEntry>)
    ensures
        r == classify(entry),
{
    let ScannedEntry { path, name, children } = entry;
    let name = match name {
        Some(name) => name,
        None => return None,
    };
    match children {
        Some(children) => {
            if children.len() > 0 {
                Some(FileEntry::Dir { name, children })
            } else {
                None
            }
        },
        None => {
            if is_markdown_name(name.as_str()) {
                Some(FileEntry::File { path, name })
            } else {
                None
            }
        },
    }
}

/// The tree entries of what was read, in the order read.
pub open spec fn classified(entries: Seq<ScannedEntry>) -> Seq<FileEntry> {
    entries.filter_map(|e: ScannedEntry| classify(e))
}

/// A read folder whose own tree is not empty is kept as a folder with its
/// name and exactly that tree, and a read file with a Markdown name is kept
/// as a file with its path and name, whatever stands around them.
pub proof fn lemma_classified_keeps(entries: Seq<ScannedEntry>, i: int)
    requires
        0 <= i < entries.len(),
    ensures
        entries[i].name is Some && entries[i].children is Some && entries[i].children->0@.len() > 0
            ==> classified(entries).contains(
            FileEntry::Dir { name: entries[i].name->0, children: entries[i].children->0 },
        ),
        entries[i].name is Some && entries[i].children is None && is_markdown_name_spec(
            entries[i].name->0@,
        ) ==> classified(entries).contains(
            FileEntry::File { path: entries[i].path, name: entries[i].name->0 },
        ),
    decreases entries.len(),
{
    let rest = entries.drop_last();
    if i < entries.len() - 1 {
        assert(rest[i] == entries[i]);
        lemma_classified_keeps(rest, i);
        if let Some(t) = classify(entries[i]) {
            if classified(rest).contains(t) {
                let w = choose|w: int| 0 <= w < classified(rest).len() && classified(rest)[w] == t;
                assert(classified(entries)[w] == t);
            }
        }
    } else {
        if let Some(t) = classify(entries.last()) {
            assert(classified(entries) == classified(rest) + seq![t]);
            assert(classified(entries)[classified(entries).len() - 1] == t);
        }
    }
}

/// Everything kept from what was read is a folder that holds something or
/// a file with a Markdown name.
pub proof fn lemma_classified_only_keeps(entries: Seq<ScannedEntry>, x: FileEntry)
    requires
        classified(entries).contains(x),
    ensures
        x matches FileEntry::Dir { children, .. } ==> children@.len() > 0,
        x matches FileEntry::File { name, .. } ==> is_markdown_name_spec(name@),
{
    let f = |e: ScannedEntry| classify(e);
    entries.lemma_filter_map_contains(f, x);
    let t = choose|t: ScannedEntry| entries.contains(t) && f(t) == Some(x);
    assert(classify(t) == Some(x));
}

/// A tree in which every folder holds at least one entry, down to the files.
pub open spec fn well_formed_tree(tree: Seq<FileEntry>) -> bool
    decreases tree, 1int,
{
    forall|i: int| 0 <= i < tree.len() ==> well_formed_entry(#[trigger] tree[i])
}

pub open spec fn well_formed_entry(e: FileEntry) -> bool
    decreases e, 0int,
{
    match e {
        FileEntry::Dir { children, .. } => children@.len() > 0 && well_formed_tree(children@),
        FileEntry::File { .. } => true,
    }
}

/// The folders that were read hold well-formed trees.
pub open spec fn scanned_well_formed(entries: Seq<ScannedEntry>) -> bool {
    forall|i: int|
        0 <= i < entries.len() ==> match (#[trigger] entries[i]).children {
            Some(c) => well_formed_tree(c@),
            None => true,
        }
}

/// A tree sorted at every depth: each level in the order of
/// `compare_entries`, and so is every folder's own tree.
pub open spec fn sorted_tree(tree: Seq<FileEntry>) -> bool
    decreases tree, 1int,
{
    &&& sorted(tree)
    &&& forall|i: int| 0 <= i < tree.len() ==> sorted_entry(#[trigger] tree[i])
}

pub open spec fn sorted_entry(e: FileEntry) -> bool
    decreases e, 0int,
{
    match e {
        FileEntry::Dir { children, .. } => sorted_tree(children@),
        FileEntry::File { .. } => true,
    }
}

/// A tree whose files, at every depth, have Markdown names.
pub open spec fn markdown_tree(tree: Seq<FileEntry>) -> bool
    decreases tree, 1int,
{
    forall|i: int| 0 <= i < tree.len() ==> markdown_entry(#[trigger] tree[i])
}

pub open spec fn markdown_entry(e: FileEntry) -> bool
    decreases e, 0int,
{
    match e {
        FileEntry::Dir { children, .. } => markdown_tree(children@),
        FileEntry::File { name, .. } => is_markdown_name_spec(name@),
    }
}

/// The folders that were read hold trees sorted at every depth.
pub open spec fn scanned_sorted(entries: Seq<ScannedEntry>) -> bool {
    forall|i: int|
        0 <= i < entries.len() ==> match (#[trigger] entries[i]).children {
            Some(c) => sorted_tree(c@),
            None => true,
        }
}

/// The folders that were read hold only Markdown files at every depth.
pub open spec fn scanned_markdown(entries: Seq<ScannedEntry>) -> bool {
    forall|i: int|
        0 <= i < entries.len() ==> match (#[trigger] entries[i]).children {
            Some(c) => markdown_tree(c@),
            None => true,
        }
}

/// Builds a folder's tree from what was read of its entries: the entries
/// that [`classify`] keeps, folders first, then by name, entries that
/// compare equal in the order read.
pub fn assemble_tree(entries: Vec<ScannedEntry>) -> (tree: Vec<FileEntry>)
    ensures
        sorted(tree@),
        forall|k: (bool, Seq<u8>)| #[trigger] with_key(tree@, k) == with_key(classified(entries@), k),
        scanned_well_formed(entries@) ==> well_formed_tree(tree@),
        scanned_sorted(entries@) ==> sorted_tree(tree@),
        scanned_markdown(entries@) ==> markdown_tree(tree@),
        forall|i: int|
            0 <= i < entries@.len() && (#[trigger] entries@[i]).name is Some
                && entries@[i].children is Some && entries@[i].children->0@.len() > 0
                ==> tree@.contains(
                FileEntry::Dir { name: entries@[i].name->0, children: entries@[i].children->0 },
            ),
        forall|i: int|
            0 <= i < entries@.len() && (#[trigger] entries@[i]).name is Some
                && entries@[i].children is None && is_markdown_name_spec(entries@[i].name->0@)
                ==> tree@.contains(FileEntry::File { path: entries@[i].path, name: entries@[i].name->0 }),
        forall|j: int|
            0 <= j < tree@.len() ==> ((#[trigger] tree@[j]) matches FileEntry::Dir { children, .. }
                ==> children@.len() > 0),
        forall|j: int|
            0 <= j < tree@.len() ==> ((#[trigger] tree@[j]) matches FileEntry::File { name, .. }
                ==> is_markdown_name_spec(name@)),
{
    let ghost s = entries@;
    let mut input = entries;
    let total = input.len();
    let mut kept: Vec<FileEntry> = Vec::new();
    let mut n: usize = 0;
    let ghost f = |e: ScannedEntry| classify(e);
    assert(s.skip(0) =~= s);
    assert(s.take(0).filter_map(f) =~= Seq::<FileEntry>::empty());
    while input.len() > 0
        invariant
            n <= s.len(),
            s.len() == total,
            input@ == s.skip(n as int),
            f == (|e: ScannedEntry| classify(e)),
            kept@ == s.take(n as int).filter_map(f),
            scanned_well_formed(s)
                ==> forall|i: int| 0 <= i < kept@.len() ==> well_formed_entry(#[trigger] kept@[i]),
            scanned_sorted(s)
                ==> forall|i: int| 0 <= i < kept@.len() ==> sorted_entry(#[trigger] kept@[i]),
            scanned_markdown(s)
                ==> forall|i: int| 0 <= i < kept@.len() ==> markdown_entry(#[trigger] kept@[i]),
        decreases input@.len(),
    {
        assert(input@.len() == s.len() - n);
        let e = input.remove(0);
        assert(e == s[n as int]);
        assert(s.take(n + 1).drop_last() =~= s.take(n as int));
        assert(s.take(n + 1).last() == e);
        let ghost before = kept@;
        match classify_entry(e) {
            Some(t) => {
                kept.push(t);
                assert(kept@ =~= before + seq![t]);
            },
            None => {},
        }
        assert(input@ =~= s.skip(n + 1));
        n = n + 1;
    }
    assert(s.take(n as int) =~= s);
    let ghost all_kept = kept@;
    let tree = sort_entries(kept);
    proof {
        if scanned_well_formed(s) {
            assert forall|i: int| 0 <= i < tree@.len() implies well_formed_entry(#[trigger] tree@[i]) by {
                let w = choose|w: int| 0 <= w < all_kept.len() && all_kept[w] == tree@[i];
                assert(well_formed_entry(all_kept[w]));
            }
        }
        if scanned_sorted(s) {
            assert forall|i: int| 0 <= i < tree@.len() implies sorted_entry(#[trigger] tree@[i]) by {
                let w = choose|w: int| 0 <= w < all_kept.len() && all_kept[w] == tree@[i];
                assert(sorted_entry(all_kept[w]));
            }
        }
        if scanned_markdown(s) {
            assert forall|i: int| 0 <= i < tree@.len() implies markdown_entry(#[trigger] tree@[i]) by {
                let w = choose|w: int| 0 <= w < all_kept.len() && all_kept[w] == tree@[i];
                assert(markdown_entry(all_kept[w]));
            }
        }
        assert(all_kept == classified(s));
        assert forall|i: int|
            0 <= i < s.len() && (#[trigger] s[i]).name is Some && s[i].children is Some
                && s[i].children->0@.len() > 0 implies tree@.contains(
            FileEntry::Dir { name: s[i].name->0, children: s[i].children->0 },
        ) by {
            let x = FileEntry::Dir { name: s[i].name->0, children: s[i].children->0 };
            lemma_classified_keeps(s, i);
            lemma_with_key_contains(all_kept, entry_key(x), x);
            lemma_with_key_contains(tree@, entry_key(x), x);
        }
        assert forall|i: int|
            0 <= i < s.len() && (#[trigger] s[i]).name is Some && s[i].children is None
                && is_markdown_name_spec(s[i].name->0@) implies tree@.contains(
            FileEntry::File { path: s[i].path, name: s[i].name->0 },
        ) by {
            let x = FileEntry::File { path: s[i].path, name: s[i].name->0 };
            lemma_classified_keeps(s, i);
            lemma_with_key_contains(all_kept, entry_key(x), x);
            lemma_with_key_contains(tree@, entry_key(x), x);
        }
        assert forall|j: int| 0 <= j < tree@.len() implies {
            &&& ((#[trigger] tree@[j]) matches FileEntry::Dir { children, .. } ==> children@.len() > 0)
            &&& (tree@[j] matches FileEntry::File { name, .. } ==> is_markdown_name_spec(name@))
        } by {
            let x = tree@[j];
            let w = choose|w: int| 0 <= w < all_kept.len() && all_kept[w] == x;
            assert(all_kept.contains(x));
            lemma_classified_only_keeps(s, x);
        }
    }
    tree
}

/// The path of the first file directly in `tree`.
pub open spec fn first_file_here(tree: Seq<FileEntry>) -> Option<Seq<char>>
    decreases tree.len(),
{
    if tree.len() == 0 {
        None
    } else {
        match tree[0] {
            FileEntry::File { path, .. } => Some(path@),
            FileEntry::Dir { .. } => first_file_here(tree.drop_first()),
        }
    }
}

/// The Markdown file to open first: the first file directly in `tree`, or
/// else the first one found in its folders, taken in order.
pub open spec fn first_markdown_in(tree: Seq<FileEntry>) -> Option<Seq<char>>
    decreases tree, 1int,
{
    match first_file_here(tree) {
        Some(p) => Some(p),
        None => first_in_dirs(tree),
    }
}

/// The first file found in the folders of `tree`, taken in order.
pub open spec fn first_in_dirs(tree: Seq<FileEntry>) -> Option<Seq<char>>
    decreases tree, 0int,
{
    if tree.len() == 0 {
        None
    } else {
        match tree[0] {
            FileEntry::Dir { children, .. } => match first_markdown_in(children@) {
                Some(p) => Some(p),
                None => first_in_dirs(tree.drop_first()),
            },
            FileEntry::File { .. } => first_in_dirs(tree.drop_first()),
        }
    }
}

/// The path of the Markdown file to open first in `tree`.
pub fn first_markdown(tree: &[FileEntry]) -> (r: Option<String>)
    ensures
        match r {
            Some(p) => first_markdown_in(tree@) == Some(p@),
            None => first_markdown_in(tree@) is None,
        },
    decreases tree@, 1int,
{
    let mut i: usize = 0;
    assert(tree@.skip(0) =~= tree@);
    while i < tree.len()
        invariant
            i <= tree@.len(),
            first_file_here(tree@) == first_file_here(tree@.skip(i as int)),
        decreases tree@.len() - i,
    {
        assert(tree@.skip(i as int)[0] == tree@[i as int]);
        assert(tree@.skip(i as int).drop_first() =~= tree@.skip(i + 1));
        match &tree[i] {
            FileEntry::File { path, .. } => {
                return Some(path.clone());
            },
            FileEntry::Dir { .. } => {},
        }
        i = i + 1;
    }
    assert(tree@.skip(i as int) =~= Seq::<FileEntry>::empty());
    first_in_folders(tree)
}

/// The first file found in the folders of `tree`, taken in order.
fn first_in_folders(tree: &[FileEntry]) -> (r: Option<String>)
    ensures
        match r {
            Some(p) => first_in_dirs(tree@) == Some(p@),
            None => first_in_dirs(tree@) is None,
        },
    decreases tree@, 0int,
{
    let mut i: usize = 0;
    assert(tree@.skip(0) =~= tree@);
    while i < tree.len()
        invariant
            i <= tree@.len(),
            first_in_dirs(tree@) == first_in_dirs(tree@.skip(i as int)),
        decreases tree@.len() - i,
    {
        assert(tree@.skip(i as int)[0] == tree@[i as int]);
        assert(tree@.skip(i as int).drop_first() =~= tree@.skip(i + 1));
        match &tree[i] {
            FileEntry::Dir { children, .. } => {
                assert(decreases_to!(tree@ => tree@[i as int]));
                let found = first_markdown(children.as_slice());
                if found.is_some() {
                    return found;
                }
            },
            FileEntry::File { .. } => {},
        }
        i = i + 1;
    }
    assert(tree@.skip(i as int) =~= Seq::<FileEntry>::empty());
    None
}


/// `tree` holds, at any depth, a file with path `p`.
pub open spec fn tree_contains_file(tree: Seq<FileEntry>, p: Seq<char>) -> bool
    decreases tree, 1int,
{
    tree.len() > 0 && (entry_contains_file(tree[0], p) || tree_contains_file(tree.drop_first(), p))
}

pub open spec fn entry_contains_file(e: FileEntry, p: Seq<char>) -> bool
    decreases e, 0int,
{
    match e {
        FileEntry::File { path, .. } => path@ == p,
        FileEntry::Dir { children, .. } => tree_contains_file(children@, p),
    }
}

/// `tree` holds a file at some depth.
pub open spec fn tree_has_file(tree: Seq<FileEntry>) -> bool
    decreases tree, 1int,
{
    tree.len() > 0 && (entry_has_file(tree[0]) || tree_has_file(tree.drop_first()))
}

pub open spec fn entry_has_file(e: FileEntry) -> bool
    decreases e, 0int,
{
    match e {
        FileEntry::File { .. } => true,
        FileEntry::Dir { children, .. } => tree_has_file(children@),
    }
}

proof fn lemma_tree_has_file_exists(tree: Seq<FileEntry>)
    ensures
        tree_has_file(tree) <==> exists|i: int| 0 <= i < tree.len() && entry_has_file(#[trigger] tree[i]),
    decreases tree.len(),
{
    if tree.len() > 0 {
        lemma_tree_has_file_exists(tree.drop_first());
        if exists|i: int| 0 <= i < tree.len() && entry_has_file(#[trigger] tree[i]) {
            let i = choose|i: int| 0 <= i < tree.len() && entry_has_file(#[trigger] tree[i]);
            if i > 0 {
                assert(tree.drop_first()[i - 1] == tree[i]);
            }
        }
        if tree_has_file(tree.drop_first()) {
            let i = choose|i: int| 0 <= i < tree.drop_first().len() && entry_has_file(#[trigger] tree.drop_first()[i]);
            assert(tree[i + 1] == tree.drop_first()[i]);
        }
    }
}

proof fn lemma_contains_has(tree: Seq<FileEntry>, p: Seq<char>)
    requires
        tree_contains_file(tree, p),
    ensures
        tree_has_file(tree),
    decreases tree, 1int,
{
    if entry_contains_file(tree[0], p) {
        lemma_entry_contains_has(tree[0], p);
    } else {
        lemma_contains_has(tree.drop_first(), p);
    }
}

proof fn lemma_entry_contains_has(e: FileEntry, p: Seq<char>)
    requires
        entry_contains_file(e, p),
    ensures
        entry_has_file(e),
    decreases e, 0int,
{
    match e {
        FileEntry::Dir { children, .. } => {
            lemma_contains_has(children@, p);
        },
        FileEntry::File { .. } => {},
    }
}

proof fn lemma_first_file_here(tree: Seq<FileEntry>)
    ensures
        first_file_here(tree) matches Some(p) ==> tree_contains_file(tree, p),
        first_file_here(tree) is None ==> forall|i: int| 0 <= i < tree.len() ==> (#[trigger] tree[i]) is Dir,
    decreases tree.len(),
{
    if tree.len() > 0 {
        lemma_first_file_here(tree.drop_first());
        match tree[0] {
            FileEntry::File { path, .. } => {
                assert(entry_contains_file(tree[0], path@));
                assert(tree_contains_file(tree, path@));
            },
            FileEntry::Dir { .. } => {
                if let Some(p) = first_file_here(tree) {
                    assert(tree_contains_file(tree.drop_first(), p));
                    assert(tree_contains_file(tree, p));
                }
            },
        }
        if first_file_here(tree) is None {
            assert forall|i: int| 0 <= i < tree.len() implies (#[trigger] tree[i]) is Dir by {
                if i > 0 {
                    assert(tree[i] == tree.drop_first()[i - 1]);
                }
            }
        }
    }
}

proof fn lemma_first_in_dirs(tree: Seq<FileEntry>)
    ensures
        first_in_dirs(tree) matches Some(p) ==> tree_contains_file(tree, p),
        first_in_dirs(tree) is None <==> forall|i: int|
            0 <= i < tree.len() && (#[trigger] tree[i]) is Dir ==> !entry_has_file(tree[i]),
    decreases tree, 0int,
{
    if tree.len() > 0 {
        lemma_first_in_dirs(tree.drop_first());
        let rest = tree.drop_first();
        assert forall|i: int| 0 < i < tree.len() implies tree[i] == #[trigger] rest[i - 1] by {}
        match tree[0] {
            FileEntry::Dir { children, .. } => {
                lemma_first_markdown_in(children@);
                if let Some(p) = first_markdown_in(children@) {
                    assert(entry_contains_file(tree[0], p));
                } else if let Some(p) = first_in_dirs(rest) {
                    assert(tree_contains_file(rest, p));
                }
                if first_in_dirs(tree) is None {
                    assert forall|i: int| 0 <= i < tree.len() && (#[trigger] tree[i]) is Dir implies !entry_has_file(tree[i]) by {
                        if i > 0 {
                            assert(rest[i - 1] == tree[i]);
                        }
                    }
                } else if first_markdown_in(children@) is None {
                    let i = choose|i: int| 0 <= i < rest.len() && (#[trigger] rest[i]) is Dir && entry_has_file(rest[i]);
                    assert(tree[i + 1] == rest[i]);
                }
            },
            FileEntry::File { .. } => {
                if let Some(p) = first_in_dirs(rest) {
                    assert(tree_contains_file(rest, p));
                }
                if first_in_dirs(tree) is None {
                    assert forall|i: int| 0 <= i < tree.len() && (#[trigger] tree[i]) is Dir implies !entry_has_file(tree[i]) by {
                        if i > 0 {
                            assert(rest[i - 1] == tree[i]);
                        }
                    }
                } else {
                    let i = choose|i: int| 0 <= i < rest.len() && (#[trigger] rest[i]) is Dir && entry_has_file(rest[i]);
                    assert(tree[i + 1] == rest[i]);
                }
            },
        }
    }
}

/// What [`first_markdown`] finds is a file of the tree, and it finds one
/// whenever the tree holds any file at all.
pub proof fn lemma_first_markdown_in(tree: Seq<FileEntry>)
    ensures
        first_markdown_in(tree) matches Some(p) ==> tree_contains_file(tree, p),
        first_markdown_in(tree) is None <==> !tree_has_file(tree),
    decreases tree, 1int,
{
    lemma_first_file_here(tree);
    lemma_first_in_dirs(tree);
    lemma_tree_has_file_exists(tree);
    match first_file_here(tree) {
        Some(p) => {
            lemma_contains_has(tree, p);
        },
        None => {
            if tree_has_file(tree) {
                let i = choose|i: int| 0 <= i < tree.len() && entry_has_file(#[trigger] tree[i]);
                assert(tree[i] is Dir);
            }
        },
    }
}

/// When the top level of the tree holds a file, the file opened first is the
/// first file of the top level, in tree order, whatever the folders hold.
pub proof fn lemma_first_markdown_takes_first_top_file(tree: Seq<FileEntry>, i: int)
    requires
        0 <= i < tree.len(),
        tree[i] is File,
        forall|j: int| 0 <= j < i ==> (#[trigger] tree[j]) is Dir,
    ensures
        first_markdown_in(tree) == Some(tree[i]->File_path@),
{
    lemma_first_file_here_at(tree, i);
}

proof fn lemma_first_file_here_at(tree: Seq<FileEntry>, i: int)
    requires
        0 <= i < tree.len(),
        tree[i] is File,
        forall|j: int| 0 <= j < i ==> (#[trigger] tree[j]) is Dir,
    ensures
        first_file_here(tree) == Some(tree[i]->File_path@),
    decreases i,
{
    if i > 0 {
        let rest = tree.drop_first();
        assert(tree[0] is Dir);
        assert forall|j: int| 0 <= j < i - 1 implies (#[trigger] rest[j]) is Dir by {
            assert(rest[j] == tree[j + 1]);
        }
        assert(rest[i - 1] == tree[i]);
        lemma_first_file_here_at(rest, i - 1);
    }
}

/// When the top level holds only folders, the file opened first is the one
/// opened first in the first folder that holds any file at all.
pub proof fn lemma_first_markdown_in_first_nonempty_folder(tree: Seq<FileEntry>, i: int)
    requires
        0 <= i < tree.len(),
        forall|j: int| 0 <= j < tree.len() ==> (#[trigger] tree[j]) is Dir,
        tree_has_file(tree[i]->Dir_children@),
        forall|j: int| 0 <= j < i ==> !tree_has_file((#[trigger] tree[j])->Dir_children@),
    ensures
        first_markdown_in(tree) == first_markdown_in(tree[i]->Dir_children@),
        first_markdown_in(tree) is Some,
{
    lemma_first_file_here(tree);
    lemma_no_top_file(tree);
    lemma_first_in_dirs_at(tree, i);
    lemma_first_markdown_in(tree[i]->Dir_children@);
}

proof fn lemma_no_top_file(tree: Seq<FileEntry>)
    requires
        forall|j: int| 0 <= j < tree.len() ==> (#[trigger] tree[j]) is Dir,
    ensures
        first_file_here(tree) is None,
    decreases tree.len(),
{
    if tree.len() > 0 {
        let rest = tree.drop_first();
        assert forall|j: int| 0 <= j < rest.len() implies (#[trigger] rest[j]) is Dir by {
            assert(rest[j] == tree[j + 1]);
        }
        assert(tree[0] is Dir);
        lemma_no_top_file(rest);
    }
}

proof fn lemma_first_in_dirs_at(tree: Seq<FileEntry>, i: int)
    requires
        0 <= i < tree.len(),
        tree[i] is Dir,
        tree_has_file(tree[i]->Dir_children@),
        forall|j: int| 0 <= j < i ==> !entry_has_file(#[trigger] tree[j]),
    ensures
        first_in_dirs(tree) == first_markdown_in(tree[i]->Dir_children@),
    decreases i,
{
    lemma_first_markdown_in(tree[i]->Dir_children@);
    if i > 0 {
        let rest = tree.drop_first();
        assert(!entry_has_file(tree[0]));
        match tree[0] {
            FileEntry::Dir { children, .. } => {
                lemma_first_markdown_in(children@);
            },
            FileEntry::File { .. } => {},
        }
        assert forall|j: int| 0 <= j < i - 1 implies !entry_has_file(#[trigger] rest[j]) by {
            assert(rest[j] == tree[j + 1]);
        }
        assert(rest[i - 1] == tree[i]);
        lemma_first_in_dirs_at(rest, i - 1);
    }
}

proof fn lemma_well_formed_has_file(tree: Seq<FileEntry>)
    requires
        well_formed_tree(tree),
    ensures
        tree_has_file(tree) <==> tree.len() > 0,
    decreases tree, 1int,
{
    if tree.len() > 0 {
        lemma_well_formed_entry_has_file(tree[0]);
    }
}

proof fn lemma_well_formed_entry_has_file(e: FileEntry)
    requires
        well_formed_entry(e),
    ensures
        entry_has_file(e),
    decreases e, 0int,
{
    match e {
        FileEntry::Dir { children, .. } => {
            lemma_well_formed_has_file(children@);
        },
        FileEntry::File { .. } => {},
    }
}

/// In a tree where every folder holds something, a Markdown file to open is
/// found exactly when the tree is not empty.
pub proof fn lemma_first_markdown_well_formed(tree: Seq<FileEntry>)
    requires
        well_formed_tree(tree),
    ensures
        first_markdown_in(tree) is Some <==> tree.len() > 0,
{
    lemma_first_markdown_in(tree);
    lemma_well_formed_has_file(tree);
}

} // verus!
