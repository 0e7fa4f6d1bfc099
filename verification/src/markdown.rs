//! Markdown: the display model, the CommonMark document it is built from,
//! how the one is built from the other, and the rendering decisions.

pub mod ast;
pub mod model;
pub mod parser;
pub mod render;
