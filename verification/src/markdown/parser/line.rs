//! Lines of text: a heading, a paragraph or a table cell, with its list marker.

use crate::markdown::ast::{node_tree, DocNode};
use crate::markdown::model::{
    block_view, block_views, lemma_block_views_push, line_view, opt_string_view, plain_style,
    Block, BlockView, Line, LineView, TextStyle,
};
use crate::text::{byte_len, lemma_byte_len_empty, lemma_prefix_is_char_boundary};
use vstd::utf8::{encode_utf8, is_char_boundary};
use crate::markdown::parser::inline::{
    at_char_start, collect_inline, highlights_well_placed, inline_pieces,
    lemma_pieces_highlights_at_char_starts, lemma_pieces_highlights_well_placed,
    pieces_highlights, pieces_text,
};
use comrak::nodes::AstNode;
use vstd::prelude::*;

verus! {

/// The text shown where nesting goes too deep.
pub open spec fn nesting_limit_text() -> Seq<char> {
    "…（ネストが深すぎるため以下省略）"@
}

/// The line that stands in for content nested too deeply.
pub open spec fn nesting_limit_view(indent_level: usize) -> BlockView {
    BlockView::Text(
        LineView {
            text: nesting_limit_text(),
            highlights: Seq::empty(),
            heading_level: None,
            list_marker: None,
            indent_level,
        },
    )
}

/// A line that holds nothing but a list marker.
pub open spec fn marker_only_view(marker: Seq<char>, indent_level: usize) -> LineView {
    LineView {
        text: Seq::empty(),
        highlights: Seq::empty(),
        heading_level: None,
        list_marker: Some(marker),
        indent_level,
    }
}

/// The line made of the inline content of `node`, in plain style from the
/// start of the line.
pub open spec fn text_line(
    node: DocNode,
    heading_level: Option<u8>,
    list_marker: Option<Seq<char>>,
    indent_level: usize,
) -> LineView {
    let pieces = inline_pieces(node, plain_style(), 0);
    LineView {
        text: pieces_text(pieces),
        highlights: pieces_highlights(pieces, 0),
        heading_level,
        list_marker,
        indent_level,
    }
}

/// The text line of `node`, kept only if it has text or a list marker.
pub open spec fn text_line_blocks(
    node: DocNode,
    heading_level: Option<u8>,
    list_marker: Option<Seq<char>>,
    indent_level: usize,
) -> Seq<BlockView> {
    let line = text_line(node, heading_level, list_marker, indent_level);
    if line.text.len() > 0 || list_marker is Some {
        seq![BlockView::Text(line)]
    } else {
        Seq::empty()
    }
}

/// The line that stands in for content nested too deeply.
pub fn nesting_limit_block(indent_level: usize) -> (b: Block)
    ensures
        block_view(b) == nesting_limit_view(indent_level),
{
    let b = Block::Text(
        Line {
            text: String::from_str("…（ネストが深すぎるため以下省略）"),
            highlights: Vec::new(),
            heading_level: None,
            list_marker: None,
            indent_level,
        },
    );
    assert(block_view(b) =~~= nesting_limit_view(indent_level));
    b
}

/// A line that holds nothing but a list marker.
pub fn marker_only_line(marker: String, indent_level: usize) -> (l: Line)
    ensures
        line_view(l) == marker_only_view(marker@, indent_level),
{
    let l = Line {
        text: String::new(),
        highlights: Vec::new(),
        heading_level: None,
        list_marker: Some(marker),
        indent_level,
    };
    assert(line_view(l) =~~= marker_only_view(marker@, indent_level));
    l
}

/// The line made of the inline content of `node`.
pub fn collect_text_line<'a>(
    node: &'a AstNode<'a>,
    heading_level: Option<u8>,
    list_marker: Option<String>,
    indent_level: usize,
) -> (l: Line)
    ensures
        line_view(l) == text_line(
            node_tree(node),
            heading_level,
            opt_string_view(list_marker),
            indent_level,
        ),
{
    let mut text = String::new();
    let mut highlights = Vec::new();
    collect_inline(node, &mut text, &mut highlights, TextStyle { bold: false, italic: false, underline: false }, 0);
    let ghost pieces = inline_pieces(node_tree(node), plain_style(), 0);
    assert(text@ =~= pieces_text(pieces));
    proof { lemma_byte_len_empty(); }
    assert(highlights@ =~= pieces_highlights(pieces, 0));
    let l = Line { text, highlights, heading_level, list_marker, indent_level };
    assert(line_view(l) =~~= text_line(
        node_tree(node),
        heading_level,
        opt_string_view(list_marker),
        indent_level,
    ));
    l
}

/// Appends the text line of `node` to `out`, if it has text or a list marker.
pub fn push_text_line<'a>(
    node: &'a AstNode<'a>,
    heading_level: Option<u8>,
    list_marker: Option<String>,
    indent_level: usize,
    out: &mut Vec<Block>,
)
    ensures
        block_views(final(out)@) == block_views(old(out)@) + text_line_blocks(
            node_tree(node),
            heading_level,
            opt_string_view(list_marker),
            indent_level,
        ),
{
    let line = collect_text_line(node, heading_level, list_marker, indent_level);
    if !line.text.as_str().is_empty() || line.list_marker.is_some() {
        let b = Block::Text(line);
        proof { lemma_block_views_push(out@, b); }
        out.push(b);
    }
    assert(block_views(out@) =~= block_views(old(out)@) + text_line_blocks(
        node_tree(node),
        heading_level,
        opt_string_view(list_marker),
        indent_level,
    ));
}

/// Both ends of every highlight of `line` fall where a character of its
/// UTF-8 text begins or where the text ends.
pub open spec fn highlights_on_char_boundaries(line: LineView) -> bool {
    forall|i: int|
        0 <= i < line.highlights.len() ==> {
            &&& is_char_boundary(encode_utf8(line.text), (#[trigger] line.highlights[i]).start as int)
            &&& is_char_boundary(encode_utf8(line.text), line.highlights[i].end as int)
        }
}

/// Every highlight of a line marks a byte range of its text whose ends fall
/// where characters begin or the text ends, the ranges come one after
/// another without overlap, and none is in plain style.
pub proof fn lemma_text_line_highlights(
    node: DocNode,
    heading_level: Option<u8>,
    list_marker: Option<Seq<char>>,
    indent_level: usize,
)
    requires
        byte_len(text_line(node, heading_level, list_marker, indent_level).text) <= usize::MAX,
    ensures
        highlights_well_placed(
            text_line(node, heading_level, list_marker, indent_level).highlights,
            0,
            byte_len(text_line(node, heading_level, list_marker, indent_level).text) as int,
        ),
        highlights_on_char_boundaries(text_line(node, heading_level, list_marker, indent_level)),
{
    let pieces = inline_pieces(node, plain_style(), 0);
    let line = text_line(node, heading_level, list_marker, indent_level);
    let text = line.text;
    lemma_pieces_highlights_well_placed(pieces, 0);
    lemma_pieces_highlights_at_char_starts(pieces);
    assert forall|i: int| 0 <= i < line.highlights.len() implies {
        &&& is_char_boundary(encode_utf8(line.text), (#[trigger] line.highlights[i]).start as int)
        &&& is_char_boundary(encode_utf8(line.text), line.highlights[i].end as int)
    } by {
        let h = line.highlights[i];
        assert(at_char_start(text, h.start as int));
        assert(at_char_start(text, h.end as int));
        let ks = choose|k: int| 0 <= k <= text.len() && h.start == byte_len(#[trigger] text.take(k));
        let ke = choose|k: int| 0 <= k <= text.len() && h.end == byte_len(#[trigger] text.take(k));
        assert(text =~= text.take(ks) + text.skip(ks));
        assert(text =~= text.take(ke) + text.skip(ke));
        lemma_prefix_is_char_boundary(text.take(ks), text.skip(ks));
        lemma_prefix_is_char_boundary(text.take(ke), text.skip(ke));
    }
}

} // verus!
