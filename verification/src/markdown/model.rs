//! The display model: lines of styled text and the blocks they form.

pub use crate::text::opt_string_view;
use vstd::prelude::*;

verus! {

/// Nesting deeper than this is not shown; a marker line stands in its place.
pub const MAX_NESTING_DEPTH: usize = 64;

/// The emphasis carried by a run of text.  The default (all `false`) is plain text.
#[derive(Clone, Copy, Debug, PartialEq, Eq, Structural)]
pub struct TextStyle {
    pub bold: bool,
    pub italic: bool,
    pub underline: bool,
}

/// A styled byte range `start..end` of a line's UTF-8 text.
#[derive(Clone, Copy, Debug, PartialEq, Eq, Structural)]
pub struct Highlight {
    pub start: usize,
    pub end: usize,
    pub style: TextStyle,
}

/// One line of display text.
#[derive(Debug, PartialEq, Eq)]
pub struct Line {
    pub text: String,
    pub highlights: Vec<Highlight>,
    pub heading_level: Option<u8>,
    pub list_marker: Option<String>,
    pub indent_level: usize,
}

/// A display block.
#[derive(Debug, PartialEq, Eq)]
pub enum Block {
    Text(Line),
    Code(String, usize),
    Table(Vec<(bool, Vec<Line>)>, usize),
    Quote(Vec<Block>, usize),
    Rule(usize),
}

/// The mathematical value of a [`Line`].
pub struct LineView {
    pub text: Seq<char>,
    pub highlights: Seq<Highlight>,
    pub heading_level: Option<u8>,
    pub list_marker: Option<Seq<char>>,
    pub indent_level: usize,
}

/// The mathematical value of a [`Block`].
pub enum BlockView {
    Text(LineView),
    Code(Seq<char>, usize),
    Table(Seq<(bool, Seq<LineView>)>, usize),
    Quote(Seq<BlockView>, usize),
    Rule(usize),
}

pub open spec fn plain_style() -> TextStyle {
    TextStyle { bold: false, italic: false, underline: false }
}

pub open spec fn line_view(l: Line) -> LineView {
    LineView {
        text: l.text@,
        highlights: l.highlights@,
        heading_level: l.heading_level,
        list_marker: opt_string_view(l.list_marker),
        indent_level: l.indent_level,
    }
}

pub open spec fn line_views(s: Seq<Line>) -> Seq<LineView> {
    s.map_values(|l: Line| line_view(l))
}

pub open spec fn row_view(r: (bool, Vec<Line>)) -> (bool, Seq<LineView>) {
    (r.0, line_views(r.1@))
}

pub open spec fn row_views(s: Seq<(bool, Vec<Line>)>) -> Seq<(bool, Seq<LineView>)> {
    s.map_values(|r: (bool, Vec<Line>)| row_view(r))
}

pub open spec fn block_view(b: Block) -> BlockView
    decreases b,
{
    match b {
        Block::Text(l) => BlockView::Text(line_view(l)),
        Block::Code(c, i) => BlockView::Code(c@, i),
        Block::Table(rows, i) => BlockView::Table(row_views(rows@), i),
        Block::Quote(bs, i) => BlockView::Quote(block_views(bs@), i),
        Block::Rule(i) => BlockView::Rule(i),
    }
}

pub open spec fn block_views(s: Seq<Block>) -> Seq<BlockView>
    decreases s,
{
    if s.len() == 0 {
        Seq::empty()
    } else {
        block_views(s.drop_last()).push(block_view(s.last()))
    }
}

impl View for Line {
    type V = LineView;

    open spec fn view(&self) -> LineView {
        line_view(*self)
    }
}

impl View for Block {
    type V = BlockView;

    open spec fn view(&self) -> BlockView {
        block_view(*self)
    }
}

/// Appending one block appends its view.
pub proof fn lemma_block_views_push(s: Seq<Block>, b: Block)
    ensures
        block_views(s.push(b)) == block_views(s).push(block_view(b)),
{
    assert(s.push(b).drop_last() =~= s);
}

} // verus!
