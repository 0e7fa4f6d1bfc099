//! Lists: items with their bullet or number markers.

use crate::markdown::ast::{block_kind, node_children, node_tree, BlockKind, BlockKindView, DocNode, ListInfo};
use crate::markdown::model::{
    block_views, lemma_block_views_push, opt_string_view, Block, BlockView, MAX_NESTING_DEPTH,
};
use crate::markdown::parser::block::{block_blocks, heading_line, parse_block};
use crate::markdown::parser::line::{
    marker_only_line, marker_only_view, nesting_limit_block, nesting_limit_view, push_text_line,
    text_line_blocks,
};
use crate::text::{decimal, push_decimal};
use comrak::nodes::AstNode;
use vstd::prelude::*;

verus! {

/// The marker of the item numbered `ordinal`: `• ` in a bullet list,
/// the number and its delimiter and a space in an ordered one.
pub open spec fn list_marker_text(list: ListInfo, ordinal: int) -> Seq<char> {
    if list.ordered {
        decimal(ordinal as nat) + (if list.paren {
            ")"@
        } else {
            "."@
        }) + " "@
    } else {
        "• "@
    }
}

/// A bullet item is marked `•` and a space; an ordered item by its number
/// in decimal, then `.` (or `)` where the list uses it) and a space.
pub proof fn lemma_list_marker_shape(list: ListInfo, n: nat)
    ensures
        !list.ordered ==> list_marker_text(list, n as int) == seq!['•', ' '],
        list.ordered && !list.paren ==> list_marker_text(list, n as int) == decimal(n) + seq!['.', ' '],
        list.ordered && list.paren ==> list_marker_text(list, n as int) == decimal(n) + seq![')', ' '],
{
    reveal_strlit("• ");
    reveal_strlit(".");
    reveal_strlit(")");
    reveal_strlit(" ");
    assert(decimal(n) + "."@ + " "@ =~= decimal(n) + seq!['.', ' ']);
    assert(decimal(n) + ")"@ + " "@ =~= decimal(n) + seq![')', ' ']);
    assert("• "@ =~= seq!['•', ' ']);
}

/// The item at position `k` of a list (counting from 0) is numbered
/// `start + k`: its blocks follow those of the items before it, with that
/// number's marker.
pub proof fn lemma_item_numbered_by_position(
    items: Seq<DocNode>,
    list: ListInfo,
    indent_level: usize,
    depth: int,
    k: int,
)
    requires
        0 <= k < items.len(),
    ensures
        items_blocks(items.take(k + 1), list, indent_level, depth) == items_blocks(
            items.take(k),
            list,
            indent_level,
            depth,
        ) + item_blocks(items[k], list_marker_text(list, list.start + k), indent_level, depth),
{
    assert(items.take(k + 1).drop_last() =~= items.take(k));
    assert(items.take(k + 1).last() == items[k]);
}

/// The blocks of the first `k` items of a list begin the blocks of the whole list.
pub proof fn lemma_items_blocks_prefix(
    items: Seq<DocNode>,
    list: ListInfo,
    indent_level: usize,
    depth: int,
    k: int,
)
    requires
        0 <= k <= items.len(),
    ensures
        items_blocks(items.take(k), list, indent_level, depth).len() <= items_blocks(
            items,
            list,
            indent_level,
            depth,
        ).len(),
        forall|i: int|
            0 <= i < items_blocks(items.take(k), list, indent_level, depth).len() ==> items_blocks(
                items,
                list,
                indent_level,
                depth,
            )[i] == #[trigger] items_blocks(items.take(k), list, indent_level, depth)[i],
    decreases items.len() - k,
{
    if k == items.len() {
        assert(items.take(k) =~= items);
    } else {
        lemma_item_numbered_by_position(items, list, indent_level, depth, k);
        lemma_items_blocks_prefix(items, list, indent_level, depth, k + 1);
        let a = items_blocks(items.take(k), list, indent_level, depth);
        let b = item_blocks(items[k], list_marker_text(list, list.start + k), indent_level, depth);
        assert forall|i: int| 0 <= i < a.len() implies items_blocks(items, list, indent_level, depth)[i]
            == #[trigger] a[i] by {
            assert((a + b)[i] == a[i]);
        }
    }
}

/// A list nested in an item is shown one indent deeper than the item: its
/// first block is the marker line of its first item, numbered from the
/// list's start.
pub proof fn lemma_nested_list_one_deeper(
    child: DocNode,
    list: ListInfo,
    marker: Option<Seq<char>>,
    indent_level: usize,
    depth: int,
)
    requires
        child.block == BlockKindView::List,
        child.list == Some(list),
        child.children.len() > 0,
        depth + 1 <= MAX_NESTING_DEPTH,
        indent_level < usize::MAX,
    ensures
        item_child_step(child, marker, indent_level, depth).0.len() >= 1,
        item_child_step(child, marker, indent_level, depth).0[0] matches BlockView::Text(line)
            && line.indent_level == indent_level + 1
            && line.list_marker == Some(list_marker_text(list, list.start as int)),
        item_child_step(child, marker, indent_level, depth).1 == marker,
{
    let inner = (indent_level + 1) as usize;
    let items = child.children;
    assert(item_child_step(child, marker, indent_level, depth).0 == block_blocks(child, inner, depth + 1));
    assert(block_blocks(child, inner, depth + 1) == list_blocks(child, list, inner, depth + 1));
    assert(list_blocks(child, list, inner, depth + 1) == items_blocks(items, list, inner, depth + 1));
    lemma_item_numbered_by_position(items, list, inner, depth + 1, 0);
    lemma_items_blocks_prefix(items, list, inner, depth + 1, 1);
    lemma_item_starts_with_marker(items[0], list_marker_text(list, list.start as int), inner, depth + 1);
    assert(items.take(0) =~= Seq::<DocNode>::empty());
    let first = item_blocks(items[0], list_marker_text(list, list.start as int), inner, depth + 1);
    assert(items_blocks(items.take(1), list, inner, depth + 1) =~= Seq::<BlockView>::empty() + first);
    assert(items_blocks(items.take(1), list, inner, depth + 1)[0] == first[0]);
}

/// The blocks of a list node: its items, numbered from the list's start.
pub open spec fn list_blocks(node: DocNode, list: ListInfo, indent_level: usize, depth: int) -> Seq<BlockView>
    decreases node, 0int,
{
    if depth > MAX_NESTING_DEPTH {
        seq![nesting_limit_view(indent_level)]
    } else {
        items_blocks(node.children, list, indent_level, depth)
    }
}

/// The blocks of the first `items.len()` items of a list.
pub open spec fn items_blocks(items: Seq<DocNode>, list: ListInfo, indent_level: usize, depth: int) -> Seq<BlockView>
    decreases items, 0int,
{
    if items.len() == 0 {
        Seq::empty()
    } else {
        items_blocks(items.drop_last(), list, indent_level, depth) + item_blocks(
            items.last(),
            list_marker_text(list, list.start + items.len() - 1),
            indent_level,
            depth,
        )
    }
}

/// Whether an item begins with a heading or a paragraph, which then carries the marker.
pub open spec fn starts_with_text(children: Seq<DocNode>) -> bool {
    children.len() > 0 && (children[0].block is Heading || children[0].block is Paragraph)
}

/// The blocks of one item: the marker goes on its first line if that is a
/// heading or a paragraph, and on a line of its own otherwise.
pub open spec fn item_blocks(item: DocNode, marker: Seq<char>, indent_level: usize, depth: int) -> Seq<BlockView>
    decreases item, 0int,
{
    if starts_with_text(item.children) {
        item_children_blocks(item.children, Some(marker), indent_level, depth)
    } else {
        seq![BlockView::Text(marker_only_view(marker, indent_level))] + item_children_blocks(
            item.children,
            None,
            indent_level,
            depth,
        )
    }
}

/// The blocks of one child of an item, and the marker still to be placed after it.
pub open spec fn item_child_step(
    child: DocNode,
    marker: Option<Seq<char>>,
    indent_level: usize,
    depth: int,
) -> (Seq<BlockView>, Option<Seq<char>>)
    decreases child, 2int,
{
    match child.block {
        BlockKindView::Heading(level) if marker is Some => (
            text_line_blocks(child, Some(level), marker, indent_level),
            None,
        ),
        BlockKindView::Paragraph if marker is Some => (
            text_line_blocks(child, None, marker, indent_level),
            None,
        ),
        BlockKindView::List => (block_blocks(child, (indent_level + 1) as usize, depth + 1), marker),
        _ => (block_blocks(child, indent_level, depth + 1), marker),
    }
}

/// An item's marker is only ever used up: after any child it is the marker
/// from before or none, never a new one, and it is never placed once gone;
/// a child that uses it up gives exactly one line, which carries it.
pub proof fn lemma_item_marker_only_used_up(
    child: DocNode,
    marker: Option<Seq<char>>,
    indent_level: usize,
    depth: int,
)
    ensures
        item_child_step(child, marker, indent_level, depth).1 == marker || item_child_step(
            child,
            marker,
            indent_level,
            depth,
        ).1 is None,
        marker is None ==> item_child_step(child, marker, indent_level, depth).1 is None,
        marker is Some && item_child_step(child, marker, indent_level, depth).1 is None ==> {
            let blocks = item_child_step(child, marker, indent_level, depth).0;
            &&& blocks.len() == 1
            &&& blocks[0] matches BlockView::Text(line) && line.list_marker == marker
        },
{
}

/// A heading that takes an item's marker gives exactly one line: its text,
/// shown as a heading of its own level, carrying the marker at the item's
/// indent; the marker is then used up.
pub proof fn lemma_item_heading_keeps_level(
    child: DocNode,
    level: u8,
    marker: Seq<char>,
    indent_level: usize,
    depth: int,
)
    requires
        child.block == BlockKindView::Heading(level),
    ensures
        item_child_step(child, Some(marker), indent_level, depth) == (
            seq![BlockView::Text(heading_line(child, level, Some(marker), indent_level))],
            None::<Seq<char>>,
        ),
{
}

/// An item's first block is always a line carrying its marker at the item's
/// indent: its leading heading or paragraph, or else a line of its own.
pub proof fn lemma_item_starts_with_marker(item: DocNode, marker: Seq<char>, indent_level: usize, depth: int)
    ensures
        item_blocks(item, marker, indent_level, depth).len() >= 1,
        item_blocks(item, marker, indent_level, depth)[0] matches BlockView::Text(line)
            && line.list_marker == Some(marker) && line.indent_level == indent_level,
{
    let cs = item.children;
    if starts_with_text(cs) {
        let step = item_child_step(cs[0], Some(marker), indent_level, depth);
        let rest = item_children_blocks(cs.drop_first(), step.1, indent_level, depth);
        assert(item_children_blocks(cs, Some(marker), indent_level, depth) == step.0 + rest);
        assert(step.0.len() == 1);
        assert((step.0 + rest)[0] == step.0[0]);
    } else {
        let first = seq![BlockView::Text(marker_only_view(marker, indent_level))];
        let rest = item_children_blocks(cs, None, indent_level, depth);
        assert((first + rest)[0] == first[0]);
    }
}

/// The blocks of the children of an item, the marker going to the first text line.
pub open spec fn item_children_blocks(
    children: Seq<DocNode>,
    marker: Option<Seq<char>>,
    indent_level: usize,
    depth: int,
) -> Seq<BlockView>
    decreases children, 0int,
{
    if children.len() == 0 {
        Seq::empty()
    } else {
        let step = item_child_step(children[0], marker, indent_level, depth);
        step.0 + item_children_blocks(children.drop_first(), step.1, indent_level, depth)
    }
}

/// Appends the items of a list node.
pub fn parse_list<'a>(node: &'a AstNode<'a>, list: ListInfo, indent_level: usize, depth: usize, out: &mut Vec<Block>)
    requires
        depth <= MAX_NESTING_DEPTH + 1,
        indent_level <= depth,
    ensures
        block_views(final(out)@) == block_views(old(out)@) + list_blocks(
            node_tree(node),
            list,
            indent_level,
            depth as int,
        ),
    decreases node_tree(node), 0int,
{
    let ghost out0 = out@;
    if depth > MAX_NESTING_DEPTH {
        let b = nesting_limit_block(indent_level);
        proof { lemma_block_views_push(out@, b); }
        out.push(b);
        assert(block_views(out@) =~= block_views(out0) + list_blocks(node_tree(node), list, indent_level, depth as int));
        return;
    }
    let items = node_children(node);
    let ghost cs = node_tree(node).children;
    let mut ordinal: u128 = list.start as u128;
    assert(block_views(out@) =~= block_views(out0) + items_blocks(cs.take(0), list, indent_level, depth as int));
    for i in 0..items.len()
        invariant
            depth <= MAX_NESTING_DEPTH,
            indent_level <= depth,
            cs == node_tree(node).children,
            items@.len() == cs.len(),
            forall|j: int| 0 <= j < items@.len() ==> node_tree(#[trigger] items@[j]) == cs[j],
            ordinal == (if list.ordered { list.start + i } else { list.start as int }),
            block_views(out@) == block_views(out0) + items_blocks(cs.take(i as int), list, indent_level, depth as int),
    {
        assert(node_tree(items@[i as int]) == cs[i as int]);
        assert(cs.take(i + 1).drop_last() =~= cs.take(i as int));
        assert(cs.take(i + 1).last() == cs[i as int]);
        assert(decreases_to!(node_tree(node) => node_tree(node).children));
        assert(decreases_to!(node_tree(node).children => cs[i as int]));
        let marker_text = next_marker(&list, &mut ordinal);
        assert(marker_text@ == list_marker_text(list, list.start + cs.take(i + 1).len() - 1));
        process_item(items[i], marker_text, indent_level, depth, out);
    }
    assert(cs.take(items.len() as int) =~= cs);
}

/// The marker for the item numbered `ordinal`; in an ordered list the
/// number then moves on by one.
fn next_marker(list: &ListInfo, ordinal: &mut u128) -> (marker: String)
    requires
        *old(ordinal) < u128::MAX,
    ensures
        marker@ == list_marker_text(*list, *old(ordinal) as int),
        *final(ordinal) == (if list.ordered { *old(ordinal) + 1 } else { *old(ordinal) as int }),
{
    if list.ordered {
        let mut marker = String::new();
        push_decimal(&mut marker, *ordinal);
        if list.paren {
            marker.append(")");
        } else {
            marker.append(".");
        }
        marker.append(" ");
        *ordinal = *ordinal + 1;
        assert(marker@ =~= list_marker_text(*list, *old(ordinal) as int));
        marker
    } else {
        String::from_str("• ")
    }
}

/// Appends the blocks of one list item, with its marker.
#[verifier::spinoff_prover]
#[verifier::rlimit(30)]
fn process_item<'a>(item: &'a AstNode<'a>, marker_text: String, indent_level: usize, depth: usize, out: &mut Vec<Block>)
    requires
        depth <= MAX_NESTING_DEPTH,
        indent_level <= depth,
    ensures
        block_views(final(out)@) == block_views(old(out)@) + item_blocks(
            node_tree(item),
            marker_text@,
            indent_level,
            depth as int,
        ),
    decreases node_tree(item), 0int,
{
    let ghost out0 = out@;
    let children = node_children(item);
    let ghost cs = node_tree(item).children;
    let mut text_first = false;
    if children.len() > 0 {
        assert(node_tree(children@[0]) == cs[0]);
        match block_kind(children[0]) {
            BlockKind::Heading(_) => { text_first = true; },
            BlockKind::Paragraph => { text_first = true; },
            _ => {},
        }
    }
    assert(text_first == starts_with_text(cs));
    let ghost m0 = marker_text@;
    let mut marker: Option<String> = if text_first {
        Some(marker_text)
    } else {
        let b = Block::Text(marker_only_line(marker_text, indent_level));
        proof { lemma_block_views_push(out@, b); }
        out.push(b);
        None
    };
    let ghost out1 = out@;
    assert(cs.skip(0) =~= cs);
    for i in 0..children.len()
        invariant
            depth <= MAX_NESTING_DEPTH,
            indent_level <= depth,
            cs == node_tree(item).children,
            children@.len() == cs.len(),
            forall|j: int| 0 <= j < children@.len() ==> node_tree(#[trigger] children@[j]) == cs[j],
            block_views(out@) + item_children_blocks(cs.skip(i as int), opt_string_view(marker), indent_level, depth as int)
                == block_views(out1) + item_children_blocks(cs, if text_first { Some(m0) } else { None }, indent_level, depth as int),
    {
        assert(node_tree(children@[i as int]) == cs[i as int]);
        assert(cs.skip(i as int).drop_first() =~= cs.skip(i + 1));
        assert(cs.skip(i as int)[0] == cs[i as int]);
        assert(decreases_to!(node_tree(item) => node_tree(item).children));
        assert(decreases_to!(node_tree(item).children => cs[i as int]));
        let ghost before = out@;
        let ghost m = opt_string_view(marker);
        process_item_block(children[i], &mut marker, indent_level, depth, out);
        let ghost step = item_child_step(cs[i as int], m, indent_level, depth as int);
        assert(block_views(out@) == block_views(before) + step.0);
        assert(block_views(before) + item_children_blocks(cs.skip(i as int), m, indent_level, depth as int)
            =~= block_views(out@) + item_children_blocks(cs.skip(i + 1), opt_string_view(marker), indent_level, depth as int));
    }
    assert(cs.skip(children.len() as int) =~= Seq::<crate::markdown::ast::DocNode>::empty());
    assert(block_views(out@) =~= block_views(out0) + item_blocks(node_tree(item), m0, indent_level, depth as int));
}

/// Appends the blocks of one child of an item; the first heading or
/// paragraph takes the marker, if it is still to be placed.
fn process_item_block<'a>(
    block: &'a AstNode<'a>,
    marker: &mut Option<String>,
    indent_level: usize,
    depth: usize,
    out: &mut Vec<Block>,
)
    requires
        depth <= MAX_NESTING_DEPTH,
        indent_level <= depth,
    ensures
        block_views(final(out)@) == block_views(old(out)@) + item_child_step(
            node_tree(block),
            opt_string_view(*old(marker)),
            indent_level,
            depth as int,
        ).0,
        opt_string_view(*final(marker)) == item_child_step(
            node_tree(block),
            opt_string_view(*old(marker)),
            indent_level,
            depth as int,
        ).1,
        opt_string_view(*final(marker)) == opt_string_view(*old(marker)) || *final(marker) is None,
    decreases node_tree(block), 2int,
{
    proof {
        lemma_item_marker_only_used_up(node_tree(block), opt_string_view(*marker), indent_level, depth as int);
    }
    match block_kind(block) {
        BlockKind::Heading(level) => {
            if marker.is_some() {
                let m = marker.take();
                push_text_line(block, Some(level), m, indent_level, out);
            } else {
                parse_block(block, indent_level, depth + 1, out);
            }
        },
        BlockKind::Paragraph => {
            if marker.is_some() {
                let m = marker.take();
                push_text_line(block, None, m, indent_level, out);
            } else {
                parse_block(block, indent_level, depth + 1, out);
            }
        },
        BlockKind::List => {
            parse_block(block, indent_level + 1, depth + 1, out);
        },
        _ => {
            parse_block(block, indent_level, depth + 1, out);
        },
    }
}

} // verus!
