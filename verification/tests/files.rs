use md_viewer::files::order::compare_entries;
use md_viewer::files::{
    assemble_tree, classify_entry, first_markdown, is_markdown_name, listing_dir, opened_file_path,
    FileEntry,
    ScannedEntry,
};
use std::cmp::Ordering;

fn dir(name: &str, children: Vec<FileEntry>) -> FileEntry {
    FileEntry::Dir { name: name.to_string(), children }
}

fn file(path: &str, name: &str) -> FileEntry {
    FileEntry::File { path: path.to_string(), name: name.to_string() }
}

fn scanned_file(path: &str, name: &str) -> ScannedEntry {
    ScannedEntry { path: path.to_string(), name: Some(name.to_string()), children: None }
}

fn scanned_dir(path: &str, name: &str, children: Vec<FileEntry>) -> ScannedEntry {
    ScannedEntry { path: path.to_string(), name: Some(name.to_string()), children: Some(children) }
}

#[test]
fn markdown_names() {
    assert!(is_markdown_name("notes.md"));
    assert!(is_markdown_name("a.b.md"));
    assert!(is_markdown_name("..md"));
    assert!(is_markdown_name(".x.md"));
    assert!(!is_markdown_name(".md"));
    assert!(!is_markdown_name("md"));
    assert!(!is_markdown_name("notes.MD"));
    assert!(!is_markdown_name("notes.mdx"));
    assert!(!is_markdown_name("notes.txt"));
    assert!(!is_markdown_name("notes."));
    assert!(is_markdown_name("日本語.md"));
}

#[test]
fn folders_come_before_files() {
    assert_eq!(compare_entries(&dir("z", vec![]), &file("a.md", "a.md")), Ordering::Less);
    assert_eq!(compare_entries(&file("a.md", "a.md"), &dir("z", vec![])), Ordering::Greater);
}

#[test]
fn entries_of_one_kind_compare_by_name_bytes() {
    assert_eq!(compare_entries(&file("x/a.md", "a.md"), &file("y/b.md", "b.md")), Ordering::Less);
    assert_eq!(compare_entries(&file("x/b.md", "b.md"), &file("y/a.md", "a.md")), Ordering::Greater);
    assert_eq!(compare_entries(&file("x/a.md", "a.md"), &file("y/a.md", "a.md")), Ordering::Equal);
    assert_eq!(compare_entries(&dir("B", vec![]), &dir("a", vec![])), Ordering::Less);
    assert_eq!(compare_entries(&dir("ab", vec![]), &dir("a", vec![])), Ordering::Greater);
    assert_eq!(compare_entries(&dir("é", vec![]), &dir("z", vec![])), Ordering::Greater);
}

#[test]
fn classify_keeps_markdown_files_and_nonempty_folders() {
    assert_eq!(classify_entry(scanned_file("d/x.md", "x.md")), Some(file("d/x.md", "x.md")));
    assert_eq!(classify_entry(scanned_file("d/x.txt", "x.txt")), None);
    assert_eq!(classify_entry(scanned_dir("d/e", "e", vec![])), None);
    assert_eq!(
        classify_entry(scanned_dir("d/e", "e", vec![file("d/e/y.md", "y.md")])),
        Some(dir("e", vec![file("d/e/y.md", "y.md")]))
    );
    assert_eq!(
        classify_entry(ScannedEntry { path: "d/?.md".to_string(), name: None, children: None }),
        None
    );
    assert_eq!(classify_entry(scanned_dir("d/notes.md", "notes.md", vec![])), None);
}

#[test]
fn assemble_filters_and_sorts() {
    let tree = assemble_tree(vec![
        scanned_file("r/b.md", "b.md"),
        scanned_file("r/image.png", "image.png"),
        scanned_dir("r/zeta", "zeta", vec![file("r/zeta/z.md", "z.md")]),
        scanned_file("r/a.md", "a.md"),
        scanned_dir("r/empty", "empty", vec![]),
        scanned_dir("r/alpha", "alpha", vec![file("r/alpha/q.md", "q.md")]),
    ]);
    assert_eq!(
        tree,
        vec![
            dir("alpha", vec![file("r/alpha/q.md", "q.md")]),
            dir("zeta", vec![file("r/zeta/z.md", "z.md")]),
            file("r/a.md", "a.md"),
            file("r/b.md", "b.md"),
        ]
    );
}

#[test]
fn assemble_keeps_equal_entries_in_order_read() {
    let tree = assemble_tree(vec![
        scanned_file("second/x.md", "x.md"),
        scanned_file("first/a.md", "a.md"),
        scanned_file("third/x.md", "x.md"),
    ]);
    assert_eq!(
        tree,
        vec![file("first/a.md", "a.md"), file("second/x.md", "x.md"), file("third/x.md", "x.md")]
    );
}

#[test]
fn assemble_of_nothing_is_empty() {
    assert_eq!(assemble_tree(Vec::new()), Vec::<FileEntry>::new());
}

#[test]
fn first_markdown_prefers_files_at_the_top() {
    let tree = vec![dir("d", vec![file("d/inner.md", "inner.md")]), file("top.md", "top.md")];
    assert_eq!(first_markdown(&tree), Some("top.md".to_string()));
}

#[test]
fn first_markdown_searches_folders_in_order() {
    let tree = vec![
        dir("a", vec![dir("b", vec![file("a/b/deep.md", "deep.md")])]),
        dir("c", vec![file("c/x.md", "x.md")]),
    ];
    assert_eq!(first_markdown(&tree), Some("a/b/deep.md".to_string()));
}

#[test]
fn first_markdown_of_empty_tree_is_none() {
    assert_eq!(first_markdown(&[]), None);
    assert_eq!(first_markdown(&[dir("empty", vec![])]), None);
}

#[test]
fn listing_dir_of_paths() {
    assert_eq!(listing_dir("docs", true), "docs");
    assert_eq!(listing_dir("docs/readme.md", false), "docs");
    assert_eq!(listing_dir("readme.md", false), ".");
    assert_eq!(listing_dir("/", false), ".");
    assert_eq!(listing_dir("/readme.md", false), "/");
}

#[test]
fn comparing_the_other_way_round_reverses() {
    let entries = [dir("a", vec![]), dir("b", vec![]), file("x/a", "a"), file("y/c", "c"), file("z/c", "c")];
    for a in &entries {
        for b in &entries {
            assert_eq!(compare_entries(a, b), compare_entries(b, a).reverse());
        }
    }
}

#[test]
fn assembled_nonempty_tree_has_a_first_markdown() {
    let inner = assemble_tree(vec![scanned_file("r/d/n.md", "n.md")]);
    let tree = assemble_tree(vec![
        scanned_dir("r/d", "d", inner),
        scanned_file("r/skip.txt", "skip.txt"),
    ]);
    assert_eq!(first_markdown(&tree), Some("r/d/n.md".to_string()));
}

#[test]
fn opened_file_path_of_paths() {
    assert_eq!(opened_file_path("docs/readme.md", "docs"), "docs/readme.md");
    assert_eq!(opened_file_path("readme.md", "."), "./readme.md");
    assert_eq!(opened_file_path("..", "."), "..");
}

#[test]
fn nested_trees_are_sorted_at_every_depth() {
    let inner = assemble_tree(vec![
        scanned_file("r/d/z.md", "z.md"),
        scanned_dir("r/d/e", "e", assemble_tree(vec![scanned_file("r/d/e/b.md", "b.md"), scanned_file("r/d/e/a.md", "a.md")])),
        scanned_file("r/d/a.md", "a.md"),
    ]);
    assert_eq!(
        inner,
        vec![
            dir("e", vec![file("r/d/e/a.md", "a.md"), file("r/d/e/b.md", "b.md")]),
            file("r/d/a.md", "a.md"),
            file("r/d/z.md", "z.md"),
        ]
    );
}
