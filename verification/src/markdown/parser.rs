//! Building display blocks from a CommonMark document.

use crate::markdown::ast::{commonmark_document, node_children, node_tree, parse_commonmark, DocNode};
use crate::markdown::model::{block_views, Block, BlockView};
use comrak::nodes::AstNode;
use typed_arena::Arena;
use vstd::prelude::*;

pub mod block;
pub mod inline;
pub mod line;
pub mod list;

use block::{parse_block, sibling_blocks};

verus! {

/// The display blocks of a document: those of its top-level blocks, in order.
pub open spec fn markdown_blocks(doc: DocNode) -> Seq<BlockView> {
    sibling_blocks(doc.children, 0)
}

/// The display blocks of the document whose root is `root`.
pub fn document_blocks<'a>(root: &'a AstNode<'a>) -> (blocks: Vec<Block>)
    ensures
        block_views(blocks@) == markdown_blocks(node_tree(root)),
{
    let children = node_children(root);
    let ghost cs = node_tree(root).children;
    let mut result: Vec<Block> = Vec::new();
    assert(block_views(result@) =~= sibling_blocks(cs.take(0), 0));
    for i in 0..children.len()
        invariant
            cs == node_tree(root).children,
            children@.len() == cs.len(),
            forall|j: int| 0 <= j < children@.len() ==> node_tree(#[trigger] children@[j]) == cs[j],
            block_views(result@) == sibling_blocks(cs.take(i as int), 0),
    {
        assert(node_tree(children@[i as int]) == cs[i as int]);
        assert(cs.take(i + 1).drop_last() =~= cs.take(i as int));
        assert(cs.take(i + 1).last() == cs[i as int]);
        parse_block(children[i], 0, 0, &mut result);
    }
    assert(cs.take(children.len() as int) =~= cs);
    result
}

/// Parses `content` as CommonMark (with tables) and turns it into
/// display blocks.
pub fn parse_markdown(content: &str) -> (blocks: Vec<Block>)
    ensures
        block_views(blocks@) == markdown_blocks(commonmark_document(content@)),
{
    let arena = Arena::new();
    let root = parse_commonmark(&arena, content);
    document_blocks(root)
}

} // verus!
