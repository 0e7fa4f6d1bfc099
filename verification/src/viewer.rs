//! The state of the viewer window and how loads that finish update it.
//!
//! Opening a folder or a file starts a load in the background and hands it a
//! new generation number; when the load finishes, its result is applied only
//! if no other load was started since.

use crate::files::FileEntry;
use vstd::prelude::*;

verus! {

/// The viewer's state: the text shown, the file tree, the path of the file
/// shown, and the generation of the latest load.
pub struct MarkdownViewer {
    pub content: String,
    pub tree: Vec<FileEntry>,
    pub current_path: String,
    pub generation: u64,
}

/// The mathematical value of a [`MarkdownViewer`].
pub struct ViewerState {
    pub content: Seq<char>,
    pub tree: Seq<FileEntry>,
    pub current_path: Seq<char>,
    pub generation: u64,
}

impl View for MarkdownViewer {
    type V = ViewerState;

    open spec fn view(&self) -> ViewerState {
        ViewerState {
            content: self.content@,
            tree: self.tree@,
            current_path: self.current_path@,
            generation: self.generation,
        }
    }
}

pub open spec fn selected_view(selected: Option<(String, String)>) -> Option<(Seq<char>, Seq<char>)> {
    match selected {
        Some((path, content)) => Some((path@, content@)),
        None => None,
    }
}

/// The state after a new load is started.
pub open spec fn started(s: ViewerState) -> ViewerState {
    ViewerState { generation: (s.generation + 1) as u64, ..s }
}

/// The state after a folder load of generation `generation` finishes with
/// `tree` and the file `selected` in it (its path and text), if any.
pub open spec fn folder_applied(
    s: ViewerState,
    generation: u64,
    tree: Seq<FileEntry>,
    selected: Option<(Seq<char>, Seq<char>)>,
) -> ViewerState {
    if generation != s.generation {
        s
    } else {
        match selected {
            Some((path, content)) => ViewerState { content, tree, current_path: path, ..s },
            None => ViewerState {
                content: Seq::empty(),
                tree,
                current_path: Seq::empty(),
                ..s
            },
        }
    }
}

/// The state after a file load of generation `generation` finishes with
/// the text `content` of the file at `path`.
pub open spec fn file_applied(
    s: ViewerState,
    generation: u64,
    path: Seq<char>,
    content: Seq<char>,
) -> ViewerState {
    if generation != s.generation {
        s
    } else {
        ViewerState { content, current_path: path, ..s }
    }
}

impl MarkdownViewer {
    /// Starts a new load: the generation moves on by one and is returned.
    pub fn next_generation(&mut self) -> (generation: u64)
        requires
            old(self).generation < u64::MAX,
        ensures
            final(self)@ == started(old(self)@),
            generation == final(self).generation,
            generation == old(self).generation + 1,
            final(self).tree@ == old(self).tree@,
            final(self).content@ == old(self).content@,
            final(self).current_path@ == old(self).current_path@,
    {
        self.generation = self.generation + 1;
        self.generation
    }

    /// Whether a load of generation `generation` is the latest one.
    pub fn is_current(&self, generation: u64) -> (r: bool)
        ensures
            r == (generation == self.generation),
    {
        generation == self.generation
    }

    /// A folder load finished: unless a later load was started, the tree is
    /// replaced and the selected file is shown, or nothing if there is none.
    /// Returns whether the state changed.
    pub fn apply_folder(
        &mut self,
        generation: u64,
        tree: Vec<FileEntry>,
        selected: Option<(String, String)>,
    ) -> (applied: bool)
        ensures
            applied == (generation == old(self).generation),
            final(self)@ == folder_applied(old(self)@, generation, tree@, selected_view(selected)),
            applied ==> final(self).tree@ == tree@,
            applied ==> final(self).content@ == (match selected {
                Some((_, content)) => content@,
                None => Seq::<char>::empty(),
            }),
            applied ==> final(self).current_path@ == (match selected {
                Some((path, _)) => path@,
                None => Seq::<char>::empty(),
            }),
            !applied ==> final(self)@ == old(self)@,
            final(self).generation == old(self).generation,
    {
        if generation != self.generation {
            return false;
        }
        self.tree = tree;
        match selected {
            Some((path, content)) => {
                self.content = content;
                self.current_path = path;
            },
            None => {
                self.content = String::new();
                self.current_path = String::new();
            },
        }
        true
    }

    /// A file load finished: unless a later load was started, its text is
    /// shown.  Returns whether the state changed.
    pub fn apply_file(&mut self, generation: u64, path: String, content: String) -> (applied: bool)
        ensures
            applied == (generation == old(self).generation),
            final(self)@ == file_applied(old(self)@, generation, path@, content@),
            applied ==> final(self).content@ == content@ && final(self).current_path@ == path@,
            final(self).tree@ == old(self).tree@,
            !applied ==> final(self)@ == old(self)@,
            final(self).generation == old(self).generation,
    {
        if generation != self.generation {
            return false;
        }
        self.content = content;
        self.current_path = path;
        true
    }
}

/// Starting a load makes the generation of every earlier load stale.
pub proof fn lemma_started_supersedes(s: ViewerState, earlier: u64)
    requires
        earlier <= s.generation,
        s.generation < u64::MAX,
    ensures
        earlier < started(s).generation,
{
}

/// The result of a load that was superseded by a later one changes nothing,
/// whether it is a folder or a file.
pub proof fn lemma_stale_load_ignored(
    s: ViewerState,
    generation: u64,
    tree: Seq<FileEntry>,
    selected: Option<(Seq<char>, Seq<char>)>,
    path: Seq<char>,
    content: Seq<char>,
)
    requires
        generation < s.generation,
    ensures
        folder_applied(s, generation, tree, selected) == s,
        file_applied(s, generation, path, content) == s,
{
}

/// A folder load of the current generation always replaces the tree with
/// the loaded one, selected file or not; it shows the selected file's text
/// and path, and clears both when no file was selected.
pub proof fn lemma_current_folder_load_replaces_tree(
    s: ViewerState,
    tree: Seq<FileEntry>,
    selected: Option<(Seq<char>, Seq<char>)>,
)
    ensures
        folder_applied(s, s.generation, tree, selected).tree == tree,
        folder_applied(s, s.generation, tree, selected).content == (match selected {
            Some((_, content)) => content,
            None => Seq::<char>::empty(),
        }),
        folder_applied(s, s.generation, tree, selected).current_path == (match selected {
            Some((path, _)) => path,
            None => Seq::<char>::empty(),
        }),
        folder_applied(s, s.generation, tree, selected).generation == s.generation,
{
}

/// A file load of the current generation shows that file's text and path
/// and leaves the tree as it was.
pub proof fn lemma_current_file_load_shows_file(s: ViewerState, path: Seq<char>, content: Seq<char>)
    ensures
        file_applied(s, s.generation, path, content).content == content,
        file_applied(s, s.generation, path, content).current_path == path,
        file_applied(s, s.generation, path, content).tree == s.tree,
        file_applied(s, s.generation, path, content).generation == s.generation,
{
}

/// Applying a finished load does not change the generation, so a load
/// started before it stays the latest until the next one starts.
pub proof fn lemma_apply_keeps_generation(
    s: ViewerState,
    generation: u64,
    tree: Seq<FileEntry>,
    selected: Option<(Seq<char>, Seq<char>)>,
    path: Seq<char>,
    content: Seq<char>,
)
    ensures
        folder_applied(s, generation, tree, selected).generation == s.generation,
        file_applied(s, generation, path, content).generation == s.generation,
{
}

} // verus!
