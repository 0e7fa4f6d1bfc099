use md_viewer::files::FileEntry;
use md_viewer::viewer::MarkdownViewer;

fn viewer() -> MarkdownViewer {
    MarkdownViewer {
        content: "old".to_string(),
        tree: Vec::new(),
        current_path: "old.md".to_string(),
        generation: 0,
    }
}

fn one_file_tree() -> Vec<FileEntry> {
    vec![FileEntry::File { path: "new.md".to_string(), name: "new.md".to_string() }]
}

#[test]
fn next_generation_counts_up() {
    let mut v = viewer();
    assert_eq!(v.next_generation(), 1);
    assert_eq!(v.next_generation(), 2);
    assert_eq!(v.generation, 2);
    assert!(v.is_current(2));
    assert!(!v.is_current(1));
}

#[test]
fn latest_folder_load_is_applied() {
    let mut v = viewer();
    let g = v.next_generation();
    let applied =
        v.apply_folder(g, one_file_tree(), Some(("new.md".to_string(), "# New".to_string())));
    assert!(applied);
    assert_eq!(v.content, "# New");
    assert_eq!(v.current_path, "new.md");
    assert_eq!(v.tree, one_file_tree());
    assert_eq!(v.generation, g);
}

#[test]
fn folder_without_markdown_clears_the_view() {
    let mut v = viewer();
    let g = v.next_generation();
    assert!(v.apply_folder(g, Vec::new(), None));
    assert_eq!(v.content, "");
    assert_eq!(v.current_path, "");
    assert!(v.tree.is_empty());
}

#[test]
fn superseded_folder_load_is_ignored() {
    let mut v = viewer();
    let first = v.next_generation();
    let _second = v.next_generation();
    let applied =
        v.apply_folder(first, one_file_tree(), Some(("new.md".to_string(), "# New".to_string())));
    assert!(!applied);
    assert_eq!(v.content, "old");
    assert_eq!(v.current_path, "old.md");
    assert!(v.tree.is_empty());
}

#[test]
fn file_loads_apply_only_when_latest() {
    let mut v = viewer();
    let first = v.next_generation();
    let second = v.next_generation();
    assert!(!v.apply_file(first, "a.md".to_string(), "A".to_string()));
    assert_eq!(v.content, "old");
    assert!(v.apply_file(second, "b.md".to_string(), "B".to_string()));
    assert_eq!(v.content, "B");
    assert_eq!(v.current_path, "b.md");
}
