//! A Markdown viewer's core: the file tree of a folder of Markdown files,
//! the display blocks built from a CommonMark document, and the
//! state transitions of the viewer window.

pub mod files;
pub mod markdown;
pub mod text;
pub mod viewer;
