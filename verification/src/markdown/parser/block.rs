//! Block-level content: headings, paragraphs, lists, code, tables, quotes, rules.

use crate::markdown::ast::{block_kind, list_info, node_children, node_tree, BlockKind, BlockKindView, DocNode};
use crate::markdown::model::{
    block_views, lemma_block_views_push, line_views, plain_style, row_views, Block, BlockView, Line,
    LineView, MAX_NESTING_DEPTH,
};
use crate::markdown::parser::inline::{inline_pieces, pieces_highlights, pieces_text};
use crate::markdown::parser::markdown_blocks;
use crate::markdown::parser::line::{
    collect_text_line, nesting_limit_block, nesting_limit_view, push_text_line, text_line,
    text_line_blocks,
};
use crate::markdown::parser::list::{list_blocks, parse_list};
use crate::text::{strip_final_newline, without_final_newline};
use comrak::nodes::AstNode;
use vstd::prelude::*;

verus! {

/// The display blocks of one block node at the given indent and nesting depth.
pub open spec fn block_blocks(node: DocNode, indent_level: usize, depth: int) -> Seq<BlockView>
    decreases node, 1int,
{
    if depth > MAX_NESTING_DEPTH {
        seq![nesting_limit_view(indent_level)]
    } else {
        match node.block {
            BlockKindView::Heading(level) => text_line_blocks(node, Some(level), None, indent_level),
            BlockKindView::Paragraph => text_line_blocks(node, None, None, indent_level),
            BlockKindView::List => match node.list {
                Some(l) => list_blocks(node, l, indent_level, depth),
                None => Seq::empty(),
            },
            BlockKindView::CodeBlock(literal) => seq![
                BlockView::Code(without_final_newline(literal), indent_level),
            ],
            BlockKindView::Table => seq![BlockView::Table(table_rows(node.children), indent_level)],
            BlockKindView::BlockQuote => seq![
                BlockView::Quote(sibling_blocks(node.children, depth + 1), indent_level),
            ],
            BlockKindView::ThematicBreak => seq![BlockView::Rule(indent_level)],
            _ => Seq::empty(),
        }
    }
}

/// The blocks of sibling block nodes, each at indent 0: the content of a
/// block quote or of the document.
pub open spec fn sibling_blocks(children: Seq<DocNode>, depth: int) -> Seq<BlockView>
    decreases children, 0int,
{
    if children.len() == 0 {
        Seq::empty()
    } else {
        sibling_blocks(children.drop_last(), depth) + block_blocks(children.last(), 0, depth)
    }
}

/// The line of a heading's inline content, with the given level, marker and indent.
pub open spec fn heading_line(
    node: DocNode,
    level: u8,
    list_marker: Option<Seq<char>>,
    indent_level: usize,
) -> LineView {
    LineView {
        text: pieces_text(inline_pieces(node, plain_style(), 0)),
        highlights: pieces_highlights(inline_pieces(node, plain_style(), 0), 0),
        heading_level: Some(level),
        list_marker,
        indent_level,
    }
}

/// A heading of level `level` with text gives exactly one line: its text,
/// shown as a heading of that same level, at the indent it stands at and
/// without a marker; a heading without text gives nothing.
pub proof fn lemma_heading_keeps_level(node: DocNode, level: u8, indent_level: usize, depth: int)
    requires
        node.block == BlockKindView::Heading(level),
        depth <= MAX_NESTING_DEPTH,
    ensures
        pieces_text(inline_pieces(node, plain_style(), 0)).len() > 0 ==> block_blocks(
            node,
            indent_level,
            depth,
        ) == seq![BlockView::Text(heading_line(node, level, None, indent_level))],
        pieces_text(inline_pieces(node, plain_style(), 0)).len() == 0 ==> block_blocks(
            node,
            indent_level,
            depth,
        ) == Seq::<BlockView>::empty(),
{
}

/// A paragraph with text gives exactly one line: its text, not a heading,
/// without a marker, at the indent it stands at; a paragraph without text
/// gives nothing.
pub proof fn lemma_paragraph_line(node: DocNode, indent_level: usize, depth: int)
    requires
        node.block == BlockKindView::Paragraph,
        depth <= MAX_NESTING_DEPTH,
    ensures
        pieces_text(inline_pieces(node, plain_style(), 0)).len() > 0 ==> block_blocks(
            node,
            indent_level,
            depth,
        ) == seq![
            BlockView::Text(
                LineView {
                    text: pieces_text(inline_pieces(node, plain_style(), 0)),
                    highlights: pieces_highlights(inline_pieces(node, plain_style(), 0), 0),
                    heading_level: None,
                    list_marker: None,
                    indent_level,
                },
            ),
        ],
        pieces_text(inline_pieces(node, plain_style(), 0)).len() == 0 ==> block_blocks(
            node,
            indent_level,
            depth,
        ) == Seq::<BlockView>::empty(),
{
}

/// The blocks of siblings side by side are those of each part in turn.
pub proof fn lemma_sibling_blocks_append(a: Seq<DocNode>, b: Seq<DocNode>, depth: int)
    ensures
        sibling_blocks(a + b, depth) == sibling_blocks(a, depth) + sibling_blocks(b, depth),
    decreases b.len(),
{
    if b.len() == 0 {
        assert(a + b =~= a);
        assert(sibling_blocks(b, depth) =~= Seq::<BlockView>::empty());
        assert(sibling_blocks(a, depth) + sibling_blocks(b, depth) =~= sibling_blocks(a, depth));
    } else {
        assert((a + b).drop_last() =~= a + b.drop_last());
        assert((a + b).last() == b.last());
        lemma_sibling_blocks_append(a, b.drop_last(), depth);
        assert(sibling_blocks(a + b, depth) =~= sibling_blocks(a, depth) + sibling_blocks(b, depth));
    }
}

/// The blocks of siblings are those before the `i`-th, then the `i`-th's own
/// at indent 0, then those after it.
pub proof fn lemma_sibling_blocks_split(children: Seq<DocNode>, i: int, depth: int)
    requires
        0 <= i < children.len(),
    ensures
        sibling_blocks(children, depth) == sibling_blocks(children.take(i), depth) + block_blocks(
            children[i],
            0,
            depth,
        ) + sibling_blocks(children.skip(i + 1), depth),
{
    let one = seq![children[i]];
    assert(children =~= children.take(i) + one + children.skip(i + 1));
    lemma_sibling_blocks_append(children.take(i) + one, children.skip(i + 1), depth);
    lemma_sibling_blocks_append(children.take(i), one, depth);
    assert(one.drop_last() =~= Seq::<DocNode>::empty());
    assert(sibling_blocks(one.drop_last(), depth) =~= Seq::<BlockView>::empty());
    assert(sibling_blocks(one, depth) =~= block_blocks(children[i], 0, depth));
}

/// A heading of level `level` with text among sibling blocks (of the
/// document or of a block quote) shows right after the blocks of the
/// siblings before it, as one line at indent 0 with that same level.
pub proof fn lemma_sibling_heading_keeps_level(children: Seq<DocNode>, i: int, level: u8, depth: int)
    requires
        0 <= i < children.len(),
        depth <= MAX_NESTING_DEPTH,
        children[i].block == BlockKindView::Heading(level),
        pieces_text(inline_pieces(children[i], plain_style(), 0)).len() > 0,
    ensures
        sibling_blocks(children, depth)[sibling_blocks(children.take(i), depth).len() as int]
            == BlockView::Text(heading_line(children[i], level, None, 0)),
{
    lemma_sibling_blocks_split(children, i, depth);
    lemma_heading_keeps_level(children[i], level, 0, depth);
    let before = sibling_blocks(children.take(i), depth);
    let mine = block_blocks(children[i], 0, depth);
    let after = sibling_blocks(children.skip(i + 1), depth);
    assert((before + mine + after)[before.len() as int] == mine[0]);
}

/// A top-level heading of level `level` with text shows in the document's
/// blocks, right after the blocks of what comes before it, as one line at
/// indent 0 with that same level.
pub proof fn lemma_document_heading_keeps_level(doc: DocNode, i: int, level: u8)
    requires
        0 <= i < doc.children.len(),
        doc.children[i].block == BlockKindView::Heading(level),
        pieces_text(inline_pieces(doc.children[i], plain_style(), 0)).len() > 0,
    ensures
        markdown_blocks(doc)[sibling_blocks(doc.children.take(i), 0).len() as int] == BlockView::Text(
            heading_line(doc.children[i], level, None, 0),
        ),
{
    lemma_sibling_heading_keeps_level(doc.children, i, level, 0);
}

/// A code block gives one code block at its indent, holding its text less
/// the one newline that ends it; a thematic break gives one rule; a table
/// gives one table and a block quote one quote, each at the indent it
/// stands at, the quote's content starting again at indent 0.
pub proof fn lemma_single_block_kinds(node: DocNode, indent_level: usize, depth: int)
    requires
        depth <= MAX_NESTING_DEPTH,
    ensures
        node.block matches BlockKindView::CodeBlock(literal) ==> {
            &&& block_blocks(node, indent_level, depth).len() == 1
            &&& block_blocks(node, indent_level, depth)[0] matches BlockView::Code(code, i)
            &&& i == indent_level
            &&& (code.push('\n') == literal || (code == literal && (literal.len() == 0
                || literal.last() != '\n')))
        },
        node.block is ThematicBreak ==> block_blocks(node, indent_level, depth) == seq![
            BlockView::Rule(indent_level),
        ],
        node.block is Table ==> block_blocks(node, indent_level, depth) == seq![
            BlockView::Table(table_rows(node.children), indent_level),
        ],
        node.block is BlockQuote ==> block_blocks(node, indent_level, depth) == seq![
            BlockView::Quote(sibling_blocks(node.children, depth + 1), indent_level),
        ],
{
    if let BlockKindView::CodeBlock(literal) = node.block {
        if literal.len() > 0 && literal.last() == '\n' {
            assert(literal.drop_last().push('\n') =~= literal);
        }
    }
}

/// The cells of a table row: one line for each cell node.
pub open spec fn table_cells(cells: Seq<DocNode>) -> Seq<LineView>
    decreases cells.len(),
{
    if cells.len() == 0 {
        Seq::empty()
    } else {
        let rest = table_cells(cells.drop_last());
        if cells.last().block is TableCell {
            rest.push(text_line(cells.last(), None, None, 0))
        } else {
            rest
        }
    }
}

/// The rows of a table: for each row node, its header flag and its cells.
pub open spec fn table_rows(rows: Seq<DocNode>) -> Seq<(bool, Seq<LineView>)>
    decreases rows.len(),
{
    if rows.len() == 0 {
        Seq::empty()
    } else {
        let rest = table_rows(rows.drop_last());
        match rows.last().block {
            BlockKindView::TableRow(is_header) => rest.push(
                (is_header, table_cells(rows.last().children)),
            ),
            _ => rest,
        }
    }
}

/// Appends the display blocks of `node` to `out`.
pub fn parse_block<'a>(node: &'a AstNode<'a>, indent_level: usize, depth: usize, out: &mut Vec<Block>)
    requires
        depth <= MAX_NESTING_DEPTH + 1,
        indent_level <= depth,
    ensures
        block_views(final(out)@) == block_views(old(out)@) + block_blocks(
            node_tree(node),
            indent_level,
            depth as int,
        ),
    decreases node_tree(node), 1int,
{
    let ghost out0 = out@;
    if depth > MAX_NESTING_DEPTH {
        let b = nesting_limit_block(indent_level);
        proof { lemma_block_views_push(out@, b); }
        out.push(b);
        assert(block_views(out@) =~= block_views(out0) + block_blocks(node_tree(node), indent_level, depth as int));
        return;
    }
    match block_kind(node) {
        BlockKind::Heading(level) => {
            push_text_line(node, Some(level), None, indent_level, out);
        },
        BlockKind::Paragraph => {
            push_text_line(node, None, None, indent_level, out);
        },
        BlockKind::List => {
            match list_info(node) {
                Some(list) => {
                    parse_list(node, list, indent_level, depth, out);
                },
                None => {
                    assert(block_views(out@) =~= block_views(out0) + Seq::<BlockView>::empty());
                },
            }
        },
        BlockKind::CodeBlock(literal) => {
            push_code(&literal, indent_level, out);
        },
        BlockKind::Table => {
            push_table(node, indent_level, out);
        },
        BlockKind::BlockQuote => {
            push_quote(node, indent_level, depth, out);
        },
        BlockKind::ThematicBreak => {
            let b = Block::Rule(indent_level);
            proof { lemma_block_views_push(out@, b); }
            out.push(b);
            assert(block_views(out@) =~= block_views(out0) + block_blocks(node_tree(node), indent_level, depth as int));
        },
        _ => {
            assert(block_views(out@) =~= block_views(out0) + Seq::<BlockView>::empty());
        },
    }
}

/// Appends a code block, without the final newline of its literal.
fn push_code(literal: &String, indent_level: usize, out: &mut Vec<Block>)
    ensures
        block_views(final(out)@) == block_views(old(out)@).push(
            BlockView::Code(without_final_newline(literal@), indent_level),
        ),
{
    let code = strip_final_newline(literal.as_str());
    let b = Block::Code(code, indent_level);
    proof { lemma_block_views_push(out@, b); }
    out.push(b);
}

/// The cells of one table row node.
fn table_row_cells<'a>(row: &'a AstNode<'a>) -> (cells: Vec<Line>)
    ensures
        line_views(cells@) == table_cells(node_tree(row).children),
{
    let children = node_children(row);
    let ghost cs = node_tree(row).children;
    let mut cells: Vec<Line> = Vec::new();
    for i in 0..children.len()
        invariant
            cs == node_tree(row).children,
            children@.len() == cs.len(),
            forall|j: int| 0 <= j < children@.len() ==> node_tree(#[trigger] children@[j]) == cs[j],
            line_views(cells@) == table_cells(cs.take(i as int)),
    {
        assert(node_tree(children@[i as int]) == cs[i as int]);
        assert(cs.take(i + 1).drop_last() =~= cs.take(i as int));
        assert(cs.take(i + 1).last() == cs[i as int]);
        match block_kind(children[i]) {
            BlockKind::TableCell => {
                let cell = collect_text_line(children[i], None, None, 0);
                cells.push(cell);
                assert(line_views(cells@) =~= table_cells(cs.take(i + 1)));
            },
            _ => {},
        }
    }
    assert(cs.take(children.len() as int) =~= cs);
    cells
}

/// Appends a table: its rows with their header flags and cells.
fn push_table<'a>(node: &'a AstNode<'a>, indent_level: usize, out: &mut Vec<Block>)
    ensures
        block_views(final(out)@) == block_views(old(out)@).push(
            BlockView::Table(table_rows(node_tree(node).children), indent_level),
        ),
{
    let children = node_children(node);
    let ghost rs = node_tree(node).children;
    let mut rows: Vec<(bool, Vec<Line>)> = Vec::new();
    for i in 0..children.len()
        invariant
            rs == node_tree(node).children,
            children@.len() == rs.len(),
            forall|j: int| 0 <= j < children@.len() ==> node_tree(#[trigger] children@[j]) == rs[j],
            row_views(rows@) == table_rows(rs.take(i as int)),
    {
        assert(node_tree(children@[i as int]) == rs[i as int]);
        assert(rs.take(i + 1).drop_last() =~= rs.take(i as int));
        assert(rs.take(i + 1).last() == rs[i as int]);
        match block_kind(children[i]) {
            BlockKind::TableRow(is_header) => {
                let cells = table_row_cells(children[i]);
                rows.push((is_header, cells));
                assert(row_views(rows@) =~= table_rows(rs.take(i + 1)));
            },
            _ => {},
        }
    }
    assert(rs.take(children.len() as int) =~= rs);
    let b = Block::Table(rows, indent_level);
    proof { lemma_block_views_push(out@, b); }
    out.push(b);
}

/// Appends a block quote holding the blocks of its children.
fn push_quote<'a>(node: &'a AstNode<'a>, indent_level: usize, depth: usize, out: &mut Vec<Block>)
    requires
        depth <= MAX_NESTING_DEPTH,
    ensures
        block_views(final(out)@) == block_views(old(out)@).push(
            BlockView::Quote(sibling_blocks(node_tree(node).children, depth + 1), indent_level),
        ),
    decreases node_tree(node), 0int,
{
    let children = node_children(node);
    let ghost cs = node_tree(node).children;
    let mut blocks: Vec<Block> = Vec::new();
    assert(block_views(blocks@) =~= sibling_blocks(cs.take(0), depth + 1));
    for i in 0..children.len()
        invariant
            depth <= MAX_NESTING_DEPTH,
            cs == node_tree(node).children,
            children@.len() == cs.len(),
            forall|j: int| 0 <= j < children@.len() ==> node_tree(#[trigger] children@[j]) == cs[j],
            block_views(blocks@) == sibling_blocks(cs.take(i as int), depth + 1),
    {
        assert(node_tree(children@[i as int]) == cs[i as int]);
        assert(cs.take(i + 1).drop_last() =~= cs.take(i as int));
        assert(cs.take(i + 1).last() == cs[i as int]);
        assert(decreases_to!(node_tree(node) => node_tree(node).children));
        assert(decreases_to!(node_tree(node).children => cs[i as int]));
        parse_block(children[i], 0, depth + 1, &mut blocks);
    }
    assert(cs.take(children.len() as int) =~= cs);
    let b = Block::Quote(blocks, indent_level);
    proof { lemma_block_views_push(out@, b); }
    out.push(b);
}

} // verus!
