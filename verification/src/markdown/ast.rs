//! The CommonMark document as comrak parses it.
//!
//! comrak builds the document as a tree of nodes in an arena.  The library
//! walks that tree itself; the trusted items below are the only places where
//! comrak is called, and each of them reads one thing from one node.  What a
//! node holds is modelled by [`DocNode`], a plain tree that the name
//! [`node_tree`] gives to each comrak node.

use comrak::arena_tree::Node;
use comrak::nodes::{Ast, AstNode, ListDelimType, ListType, NodeValue};
use comrak::{parse_document, Options};
use std::cell::RefCell;
use typed_arena::Arena;
use vstd::prelude::*;

verus! {

/// `typed_arena::Arena`, in which comrak allocates the nodes of a document.
#[verifier::external_type_specification]
#[verifier::external_body]
#[verifier::reject_recursive_types(T)]
pub struct ExArena<T>(Arena<T>);

/// comrak's tree node, `comrak::arena_tree::Node`.
#[verifier::external_type_specification]
#[verifier::external_body]
#[verifier::reject_recursive_types(T)]
pub struct ExNode<'a, T: 'a>(Node<'a, T>);

/// `std::cell::RefCell`, which holds the data of a comrak node.
#[verifier::external_type_specification]
#[verifier::external_body]
#[verifier::reject_recursive_types(T)]
pub struct ExRefCell<T: ?Sized>(RefCell<T>);

/// comrak's `Ast`, the data of a node.
#[verifier::external_type_specification]
#[verifier::external_body]
pub struct ExAst(Ast);

/// `typed_arena::Arena::new`, which comrak's `Arena` is: an empty arena.
/// Nothing is stated of the value; it is only handed to the parser.
pub assume_specification<T>[ Arena::<T>::new ]() -> Arena<T>;

/// The block-level kind of a node, as far as the display blocks tell kinds apart.
pub enum BlockKind {
    Heading(u8),
    Paragraph,
    List,
    CodeBlock(String),
    Table,
    TableRow(bool),
    TableCell,
    BlockQuote,
    ThematicBreak,
    Other,
}

/// The inline kind of a node, as far as the display blocks tell kinds apart.
pub enum InlineKind {
    Text(String),
    Strong,
    Emph,
    Link,
    Image,
    SoftBreak,
    LineBreak,
    Code(String),
    Other,
}

/// The mathematical value of a [`BlockKind`].
pub enum BlockKindView {
    Heading(u8),
    Paragraph,
    List,
    CodeBlock(Seq<char>),
    Table,
    TableRow(bool),
    TableCell,
    BlockQuote,
    ThematicBreak,
    Other,
}

/// The mathematical value of an [`InlineKind`].
pub enum InlineKindView {
    Text(Seq<char>),
    Strong,
    Emph,
    Link,
    Image,
    SoftBreak,
    LineBreak,
    Code(Seq<char>),
    Other,
}

/// What a list node says of its markers.
#[derive(Clone, Copy, Debug, PartialEq, Eq, Structural)]
pub struct ListInfo {
    /// Numbered (`1.`) rather than bulleted (`-`).
    pub ordered: bool,
    /// The number is followed by `)` rather than `.`.
    pub paren: bool,
    /// The number of the first item.
    pub start: usize,
}

/// A node of a CommonMark document: its kinds, its list data and its children.
pub struct DocNode {
    pub block: BlockKindView,
    pub inline: InlineKindView,
    pub list: Option<ListInfo>,
    pub children: Seq<DocNode>,
}

impl View for BlockKind {
    type V = BlockKindView;

    open spec fn view(&self) -> BlockKindView {
        match self {
            BlockKind::Heading(l) => BlockKindView::Heading(*l),
            BlockKind::Paragraph => BlockKindView::Paragraph,
            BlockKind::List => BlockKindView::List,
            BlockKind::CodeBlock(s) => BlockKindView::CodeBlock(s@),
            BlockKind::Table => BlockKindView::Table,
            BlockKind::TableRow(h) => BlockKindView::TableRow(*h),
            BlockKind::TableCell => BlockKindView::TableCell,
            BlockKind::BlockQuote => BlockKindView::BlockQuote,
            BlockKind::ThematicBreak => BlockKindView::ThematicBreak,
            BlockKind::Other => BlockKindView::Other,
        }
    }
}

impl View for InlineKind {
    type V = InlineKindView;

    open spec fn view(&self) -> InlineKindView {
        match self {
            InlineKind::Text(s) => InlineKindView::Text(s@),
            InlineKind::Strong => InlineKindView::Strong,
            InlineKind::Emph => InlineKindView::Emph,
            InlineKind::Link => InlineKindView::Link,
            InlineKind::Image => InlineKindView::Image,
            InlineKind::SoftBreak => InlineKindView::SoftBreak,
            InlineKind::LineBreak => InlineKindView::LineBreak,
            InlineKind::Code(s) => InlineKindView::Code(s@),
            InlineKind::Other => InlineKindView::Other,
        }
    }
}

/// The subtree that a comrak node holds, as a plain value.
pub uninterp spec fn node_tree(node: &AstNode) -> DocNode;

/// The document that comrak's `parse_document` builds from the given text,
/// with the table extension on and all other options at their defaults.
pub uninterp spec fn commonmark_document(content: Seq<char>) -> DocNode;

/// comrak's `parse_document`, with the table extension on: the root of the
/// document tree, allocated in `arena`.  The parse is a function of the text
/// alone, so its tree is named by [`commonmark_document`].
#[verifier::external_body]
pub(crate) fn parse_commonmark<'a>(arena: &'a Arena<AstNode<'a>>, content: &str) -> (root: &'a AstNode<'a>)
    ensures
        node_tree(root) == commonmark_document(content@),
{
    let mut options = Options::default();
    options.extension.table = true;
    parse_document(arena, content, &options)
}

/// comrak's `Node::children`: the children of a node, first to last.
#[verifier::external_body]
pub(crate) fn node_children<'a>(node: &'a AstNode<'a>) -> (children: Vec<&'a AstNode<'a>>)
    ensures
        children@.len() == node_tree(node).children.len(),
        forall|i: int|
            0 <= i < children@.len() ==> node_tree(#[trigger] children@[i]) == node_tree(
                node,
            ).children[i],
{
    node.children().collect()
}

/// The block-level kind of a node's `NodeValue`, with a heading's level, a
/// code block's literal and a table row's header flag.
#[verifier::external_body]
pub(crate) fn block_kind(node: &AstNode) -> (kind: BlockKind)
    ensures
        kind@ == node_tree(node).block,
{
    match &node.data.borrow().value {
        NodeValue::Heading(h) => BlockKind::Heading(h.level),
        NodeValue::Paragraph => BlockKind::Paragraph,
        NodeValue::List(_) => BlockKind::List,
        NodeValue::CodeBlock(c) => BlockKind::CodeBlock(c.literal.clone()),
        NodeValue::Table(_) => BlockKind::Table,
        NodeValue::TableRow(h) => BlockKind::TableRow(*h),
        NodeValue::TableCell => BlockKind::TableCell,
        NodeValue::BlockQuote => BlockKind::BlockQuote,
        NodeValue::ThematicBreak => BlockKind::ThematicBreak,
        _ => BlockKind::Other,
    }
}

/// The inline kind of a node's `NodeValue`, with the literal of a text or
/// code span.
#[verifier::external_body]
pub(crate) fn inline_kind(node: &AstNode) -> (kind: InlineKind)
    ensures
        kind@ == node_tree(node).inline,
{
    match &node.data.borrow().value {
        NodeValue::Text(t) => InlineKind::Text(t.to_string()),
        NodeValue::Strong => InlineKind::Strong,
        NodeValue::Emph => InlineKind::Emph,
        NodeValue::Link(_) => InlineKind::Link,
        NodeValue::Image(_) => InlineKind::Image,
        NodeValue::SoftBreak => InlineKind::SoftBreak,
        NodeValue::LineBreak => InlineKind::LineBreak,
        NodeValue::Code(c) => InlineKind::Code(c.literal.clone()),
        _ => InlineKind::Other,
    }
}

/// The `NodeList` of a list node (`None` for any other node): its type, its
/// delimiter and its start number.
#[verifier::external_body]
pub(crate) fn list_info(node: &AstNode) -> (info: Option<ListInfo>)
    ensures
        info == node_tree(node).list,
{
    match &node.data.borrow().value {
        NodeValue::List(l) => Some(ListInfo {
            ordered: matches!(l.list_type, ListType::Ordered),
            paren: matches!(l.delimiter, ListDelimType::Paren),
            start: l.start,
        }),
        _ => None,
    }
}

} // verus!
