//! Inline content: the styled runs of text under a heading, paragraph or cell.

use crate::markdown::ast::{inline_kind, node_children, node_tree, DocNode, InlineKind, InlineKindView};
use crate::markdown::model::{plain_style, Highlight, TextStyle, MAX_NESTING_DEPTH};
use crate::text::{byte_len, lemma_byte_len_append};
use comrak::nodes::AstNode;
use vstd::prelude::*;
use vstd::utf8::encode_utf8;

verus! {

/// A run of text and the style it is shown in.
pub struct Piece {
    pub text: Seq<char>,
    pub style: TextStyle,
}

pub open spec fn bolded(style: TextStyle) -> TextStyle {
    TextStyle { bold: true, ..style }
}

pub open spec fn italicised(style: TextStyle) -> TextStyle {
    TextStyle { italic: true, ..style }
}

pub open spec fn underlined(style: TextStyle) -> TextStyle {
    TextStyle { underline: true, ..style }
}

/// `style` in bold.
pub fn bold_style(style: TextStyle) -> (r: TextStyle)
    ensures
        r == bolded(style),
        r.bold,
        r.italic == style.italic,
        r.underline == style.underline,
{
    TextStyle { bold: true, ..style }
}

/// `style` in italics.
pub fn italic_style(style: TextStyle) -> (r: TextStyle)
    ensures
        r == italicised(style),
        r.italic,
        r.bold == style.bold,
        r.underline == style.underline,
{
    TextStyle { italic: true, ..style }
}

/// `style` underlined, as a link is shown.
pub fn link_style(style: TextStyle) -> (r: TextStyle)
    ensures
        r == underlined(style),
        r.underline,
        r.bold == style.bold,
        r.italic == style.italic,
{
    TextStyle { underline: true, ..style }
}

pub open spec fn piece(text: Seq<char>, style: TextStyle) -> Piece {
    Piece { text, style }
}

/// The runs of text that the children of `node` give, in `style`, at nesting
/// `depth`; past the nesting limit, a single ellipsis.
pub open spec fn inline_pieces(node: DocNode, style: TextStyle, depth: int) -> Seq<Piece>
    decreases node, 1int,
{
    if depth > MAX_NESTING_DEPTH {
        seq![piece("…"@, style)]
    } else {
        children_pieces(node.children, style, depth)
    }
}

/// The runs of text of a sequence of sibling inline nodes, one after another.
pub open spec fn children_pieces(children: Seq<DocNode>, style: TextStyle, depth: int) -> Seq<Piece>
    decreases children, 0int,
{
    if children.len() == 0 {
        Seq::empty()
    } else {
        children_pieces(children.drop_last(), style, depth) + child_pieces(
            children.last(),
            style,
            depth,
        )
    }
}

/// The runs of text of one inline node: text and code spans as they are,
/// line breaks as a space, strong, emphasised and linked content in bold,
/// italic and underlined style, an image as `[image: ` its description `]`,
/// and any other node by its content.
pub open spec fn child_pieces(child: DocNode, style: TextStyle, depth: int) -> Seq<Piece>
    decreases child, 2int,
{
    match child.inline {
        InlineKindView::Text(t) => seq![piece(t, style)],
        InlineKindView::Strong => inline_pieces(child, bolded(style), depth + 1),
        InlineKindView::Emph => inline_pieces(child, italicised(style), depth + 1),
        InlineKindView::Link => inline_pieces(child, underlined(style), depth + 1),
        InlineKindView::Image => seq![piece("[image: "@, style)] + inline_pieces(
            child,
            style,
            depth + 1,
        ) + seq![piece("]"@, style)],
        InlineKindView::SoftBreak => seq![piece(" "@, style)],
        InlineKindView::LineBreak => seq![piece(" "@, style)],
        InlineKindView::Code(c) => seq![piece(c, style)],
        InlineKindView::Other => inline_pieces(child, style, depth + 1),
    }
}

/// `s` shows every emphasis that `base` shows, and maybe more.
pub open spec fn keeps_style(base: TextStyle, s: TextStyle) -> bool {
    &&& base.bold ==> s.bold
    &&& base.italic ==> s.italic
    &&& base.underline ==> s.underline
}

/// Every run of a node's inline content keeps the style it was laid out in:
/// markup nested inside other markup only ever adds emphasis.
pub proof fn lemma_inline_pieces_keep_style(node: DocNode, style: TextStyle, depth: int)
    ensures
        forall|i: int|
            0 <= i < inline_pieces(node, style, depth).len() ==> keeps_style(
                style,
                (#[trigger] inline_pieces(node, style, depth)[i]).style,
            ),
    decreases node, 1int,
{
    if depth <= MAX_NESTING_DEPTH {
        assert(inline_pieces(node, style, depth) == children_pieces(node.children, style, depth));
        lemma_children_pieces_keep_style(node.children, style, depth);
    } else {
        assert(inline_pieces(node, style, depth)[0].style == style);
    }
}

/// Every run of a sequence of sibling inline nodes keeps their style.
pub proof fn lemma_children_pieces_keep_style(children: Seq<DocNode>, style: TextStyle, depth: int)
    ensures
        forall|i: int|
            0 <= i < children_pieces(children, style, depth).len() ==> keeps_style(
                style,
                (#[trigger] children_pieces(children, style, depth)[i]).style,
            ),
    decreases children, 0int,
{
    if children.len() > 0 {
        let a = children_pieces(children.drop_last(), style, depth);
        let b = child_pieces(children.last(), style, depth);
        lemma_children_pieces_keep_style(children.drop_last(), style, depth);
        lemma_child_pieces_keep_style(children.last(), style, depth);
        assert forall|i: int| 0 <= i < (a + b).len() implies keeps_style(style, (#[trigger] (a + b)[i]).style) by {
            if i < a.len() {
                assert((a + b)[i] == a[i]);
            } else {
                assert((a + b)[i] == b[i - a.len()]);
            }
        }
    }
}

/// Every run of one inline node keeps the style around it; strong, emphasised
/// and linked content is moreover bold, italic and underlined.
pub proof fn lemma_child_pieces_keep_style(child: DocNode, style: TextStyle, depth: int)
    ensures
        forall|i: int|
            0 <= i < child_pieces(child, style, depth).len() ==> keeps_style(
                style,
                (#[trigger] child_pieces(child, style, depth)[i]).style,
            ),
        child.inline is Strong ==> forall|i: int|
            0 <= i < child_pieces(child, style, depth).len()
                ==> (#[trigger] child_pieces(child, style, depth)[i]).style.bold,
        child.inline is Emph ==> forall|i: int|
            0 <= i < child_pieces(child, style, depth).len()
                ==> (#[trigger] child_pieces(child, style, depth)[i]).style.italic,
        child.inline is Link ==> forall|i: int|
            0 <= i < child_pieces(child, style, depth).len()
                ==> (#[trigger] child_pieces(child, style, depth)[i]).style.underline,
    decreases child, 2int,
{
    match child.inline {
        InlineKindView::Strong => {
            let inner = inline_pieces(child, bolded(style), depth + 1);
            assert(child_pieces(child, style, depth) == inner);
            lemma_inline_pieces_keep_style(child, bolded(style), depth + 1);
            assert forall|i: int| 0 <= i < inner.len() implies keeps_style(style, (#[trigger] inner[i]).style)
                && inner[i].style.bold by {
                assert(keeps_style(bolded(style), inner[i].style));
            }
        },
        InlineKindView::Emph => {
            let inner = inline_pieces(child, italicised(style), depth + 1);
            assert(child_pieces(child, style, depth) == inner);
            lemma_inline_pieces_keep_style(child, italicised(style), depth + 1);
            assert forall|i: int| 0 <= i < inner.len() implies keeps_style(style, (#[trigger] inner[i]).style)
                && inner[i].style.italic by {
                assert(keeps_style(italicised(style), inner[i].style));
            }
        },
        InlineKindView::Link => {
            let inner = inline_pieces(child, underlined(style), depth + 1);
            assert(child_pieces(child, style, depth) == inner);
            lemma_inline_pieces_keep_style(child, underlined(style), depth + 1);
            assert forall|i: int| 0 <= i < inner.len() implies keeps_style(style, (#[trigger] inner[i]).style)
                && inner[i].style.underline by {
                assert(keeps_style(underlined(style), inner[i].style));
            }
        },
        InlineKindView::Image => {
            let a = seq![piece("[image: "@, style)];
            let b = inline_pieces(child, style, depth + 1);
            let c = seq![piece("]"@, style)];
            lemma_inline_pieces_keep_style(child, style, depth + 1);
            assert forall|i: int| 0 <= i < (a + b + c).len() implies keeps_style(
                style,
                (#[trigger] (a + b + c)[i]).style,
            ) by {
                if i < a.len() {
                    assert((a + b + c)[i] == a[i]);
                } else if i < a.len() + b.len() {
                    assert((a + b + c)[i] == b[i - a.len()]);
                } else {
                    assert((a + b + c)[i] == c[i - a.len() - b.len()]);
                }
            }
        },
        InlineKindView::Other => {
            assert(child_pieces(child, style, depth) == inline_pieces(child, style, depth + 1));
            lemma_inline_pieces_keep_style(child, style, depth + 1);
        },
        _ => {
            assert(child_pieces(child, style, depth).len() == 1);
            assert(child_pieces(child, style, depth)[0].style == style);
        },
    }
}

/// The text of a sequence of runs.
pub open spec fn pieces_text(pieces: Seq<Piece>) -> Seq<char>
    decreases pieces.len(),
{
    if pieces.len() == 0 {
        Seq::empty()
    } else {
        pieces_text(pieces.drop_last()) + pieces.last().text
    }
}

/// The highlight of one run that starts `offset` bytes into the line: its
/// byte range, unless the run is plain.
pub open spec fn piece_highlights(p: Piece, offset: int) -> Seq<Highlight> {
    if p.style != plain_style() {
        seq![
            Highlight {
                start: offset as usize,
                end: (offset + byte_len(p.text)) as usize,
                style: p.style,
            },
        ]
    } else {
        Seq::empty()
    }
}

/// The highlights of a sequence of runs laid out from byte `offset` on.
pub open spec fn pieces_highlights(pieces: Seq<Piece>, offset: int) -> Seq<Highlight>
    decreases pieces.len(),
{
    if pieces.len() == 0 {
        Seq::empty()
    } else {
        pieces_highlights(pieces.drop_last(), offset) + piece_highlights(
            pieces.last(),
            offset + byte_len(pieces_text(pieces.drop_last())),
        )
    }
}

pub proof fn lemma_pieces_append(a: Seq<Piece>, b: Seq<Piece>, offset: int)
    ensures
        pieces_text(a + b) == pieces_text(a) + pieces_text(b),
        pieces_highlights(a + b, offset) == pieces_highlights(a, offset) + pieces_highlights(
            b,
            offset + byte_len(pieces_text(a)),
        ),
    decreases b.len(),
{
    if b.len() == 0 {
        assert(a + b =~= a);
        assert(pieces_text(a) + pieces_text(b) =~= pieces_text(a));
        assert(pieces_highlights(a, offset) + pieces_highlights(b, offset + byte_len(pieces_text(a)))
            =~= pieces_highlights(a, offset));
    } else {
        let ab = a + b;
        assert(ab.drop_last() =~= a + b.drop_last());
        assert(ab.last() == b.last());
        lemma_pieces_append(a, b.drop_last(), offset);
        lemma_byte_len_append(pieces_text(a), pieces_text(b.drop_last()));
        assert(pieces_text(ab) =~= pieces_text(a) + pieces_text(b));
        assert(pieces_highlights(ab, offset) =~= pieces_highlights(a, offset) + pieces_highlights(
            b,
            offset + byte_len(pieces_text(a)),
        ));
    }
}

pub proof fn lemma_single_piece(p: Piece, offset: int)
    ensures
        pieces_text(seq![p]) == p.text,
        pieces_highlights(seq![p], offset) == piece_highlights(p, offset),
{
    let s = seq![p];
    assert(s.drop_last() =~= Seq::<Piece>::empty());
    assert(s.last() == p);
    assert(pieces_text(s.drop_last()) =~= Seq::<char>::empty());
    assert(byte_len(Seq::<char>::empty()) == 0) by {
        assert(encode_utf8(Seq::<char>::empty()) =~= Seq::<u8>::empty());
    }
    assert(pieces_text(s) =~= p.text);
    assert(pieces_highlights(s.drop_last(), offset) =~= Seq::<Highlight>::empty());
    assert(offset + byte_len(pieces_text(s.drop_last())) == offset);
    assert(pieces_highlights(s, offset) =~= piece_highlights(p, offset));
}

pub open spec fn plain(style: TextStyle) -> bool {
    style == plain_style()
}

/// Appends `content` to `text` and, unless `style` is plain, its byte range
/// to `highlights`.
pub fn push_highlighted(
    text: &mut String,
    highlights: &mut Vec<Highlight>,
    style: TextStyle,
    content: &str,
)
    ensures
        final(text)@ == old(text)@ + content@,
        final(highlights)@ == old(highlights)@ + piece_highlights(
            piece(content@, style),
            byte_len(old(text)@) as int,
        ),
{
    let start = text.as_str().len();
    text.append(content);
    let end = text.as_str().len();
    proof {
        lemma_byte_len_append(old(text)@, content@);
    }
    if style.bold || style.italic || style.underline {
        highlights.push(Highlight { start, end, style });
    }
    assert(highlights@ =~= old(highlights)@ + piece_highlights(
        piece(content@, style),
        byte_len(old(text)@) as int,
    ));
}

/// Appends the runs of `pieces` to `text` and `highlights`.
pub open spec fn appended_text(text: Seq<char>, pieces: Seq<Piece>) -> Seq<char> {
    text + pieces_text(pieces)
}

pub open spec fn appended_highlights(
    highlights: Seq<Highlight>,
    text: Seq<char>,
    pieces: Seq<Piece>,
) -> Seq<Highlight> {
    highlights + pieces_highlights(pieces, byte_len(text) as int)
}

proof fn lemma_push_piece(
    text0: Seq<char>,
    hl0: Seq<Highlight>,
    before: Seq<Piece>,
    p: Piece,
)
    ensures
        appended_text(text0, before) + p.text == appended_text(text0, before + seq![p]),
        appended_highlights(hl0, text0, before) + piece_highlights(
            p,
            byte_len(appended_text(text0, before)) as int,
        ) == appended_highlights(hl0, text0, before + seq![p]),
{
    lemma_pieces_append(before, seq![p], byte_len(text0) as int);
    lemma_single_piece(p, (byte_len(text0) + byte_len(pieces_text(before))) as int);
    lemma_byte_len_append(text0, pieces_text(before));
}

proof fn lemma_append_pieces(
    text0: Seq<char>,
    hl0: Seq<Highlight>,
    before: Seq<Piece>,
    more: Seq<Piece>,
)
    ensures
        appended_text(appended_text(text0, before), more) == appended_text(text0, before + more),
        appended_highlights(
            appended_highlights(hl0, text0, before),
            appended_text(text0, before),
            more,
        ) == appended_highlights(hl0, text0, before + more),
{
    lemma_pieces_append(before, more, byte_len(text0) as int);
    lemma_byte_len_append(text0, pieces_text(before));
}

/// Appends the inline content of `node`'s children in `style`.
pub fn collect_inline<'a>(
    node: &'a AstNode<'a>,
    text: &mut String,
    highlights: &mut Vec<Highlight>,
    style: TextStyle,
    depth: usize,
)
    requires
        depth <= MAX_NESTING_DEPTH + 1,
    ensures
        final(text)@ == appended_text(old(text)@, inline_pieces(node_tree(node), style, depth as int)),
        final(highlights)@ == appended_highlights(
            old(highlights)@,
            old(text)@,
            inline_pieces(node_tree(node), style, depth as int),
        ),
    decreases node_tree(node), 1int,
{
    let ghost text0 = text@;
    let ghost hl0 = highlights@;
    if depth > MAX_NESTING_DEPTH {
        push_highlighted(text, highlights, style, "…");
        proof {
            lemma_push_piece(text0, hl0, Seq::empty(), piece("…"@, style));
            assert(Seq::<Piece>::empty() + seq![piece("…"@, style)] =~= seq![piece("…"@, style)]);
            assert(pieces_text(Seq::<Piece>::empty()) =~= Seq::<char>::empty());
            assert(appended_text(text0, Seq::empty()) =~= text0);
        }
        return;
    }
    let children = node_children(node);
    let ghost cs = node_tree(node).children;
    assert(cs.take(0) =~= Seq::<DocNode>::empty());
    assert(appended_text(text0, Seq::empty()) =~= text0);
    assert(appended_highlights(hl0, text0, Seq::empty()) =~= hl0);
    for i in 0..children.len()
        invariant
            depth <= MAX_NESTING_DEPTH,
            cs == node_tree(node).children,
            children@.len() == cs.len(),
            forall|j: int| 0 <= j < children@.len() ==> node_tree(#[trigger] children@[j]) == cs[j],
            text@ == appended_text(text0, children_pieces(cs.take(i as int), style, depth as int)),
            highlights@ == appended_highlights(
                hl0,
                text0,
                children_pieces(cs.take(i as int), style, depth as int),
            ),
    {
        let ghost before = children_pieces(cs.take(i as int), style, depth as int);
        let ghost child = cs[i as int];
        assert(node_tree(children@[i as int]) == child);
        assert(decreases_to!(node_tree(node) => node_tree(node).children));
        assert(decreases_to!(node_tree(node).children => child));
        collect_child(children[i], text, highlights, style, depth);
        proof {
            let mine = child_pieces(child, style, depth as int);
            lemma_append_pieces(text0, hl0, before, mine);
            assert(cs.take(i + 1).drop_last() =~= cs.take(i as int));
            assert(cs.take(i + 1).last() == child);
        }
    }
    assert(cs.take(children.len() as int) =~= cs);
}

/// Appends the inline content of one node.
fn collect_child<'a>(
    child: &'a AstNode<'a>,
    text: &mut String,
    highlights: &mut Vec<Highlight>,
    style: TextStyle,
    depth: usize,
)
    requires
        depth <= MAX_NESTING_DEPTH,
    ensures
        final(text)@ == appended_text(old(text)@, child_pieces(node_tree(child), style, depth as int)),
        final(highlights)@ == appended_highlights(
            old(highlights)@,
            old(text)@,
            child_pieces(node_tree(child), style, depth as int),
        ),
    decreases node_tree(child), 3int,
{
    let ghost text0 = text@;
    let ghost hl0 = highlights@;
    let kind = inline_kind(child);
    match kind {
        InlineKind::Text(t) => {
            push_highlighted(text, highlights, style, t.as_str());
            proof { lemma_push_piece(text0, hl0, Seq::empty(), piece(t@, style)); }
        },
        InlineKind::Strong => {
            collect_inline(child, text, highlights, bold_style(style), depth + 1);
        },
        InlineKind::Emph => {
            collect_inline(child, text, highlights, italic_style(style), depth + 1);
        },
        InlineKind::Link => {
            collect_inline(child, text, highlights, link_style(style), depth + 1);
        },
        InlineKind::Image => {
            push_image(child, text, highlights, style, depth + 1);
        },
        InlineKind::SoftBreak => {
            push_highlighted(text, highlights, style, " ");
            proof { lemma_push_piece(text0, hl0, Seq::empty(), piece(" "@, style)); }
        },
        InlineKind::LineBreak => {
            push_highlighted(text, highlights, style, " ");
            proof { lemma_push_piece(text0, hl0, Seq::empty(), piece(" "@, style)); }
        },
        InlineKind::Code(c) => {
            push_highlighted(text, highlights, style, c.as_str());
            proof { lemma_push_piece(text0, hl0, Seq::empty(), piece(c@, style)); }
        },
        InlineKind::Other => {
            collect_inline(child, text, highlights, style, depth + 1);
        },
    }
    proof {
        assert(appended_text(text0, Seq::empty()) =~= text0);
        assert(appended_highlights(hl0, text0, Seq::empty()) =~= hl0);
    }
}

/// Appends an image: `[image: `, its description, `]`.
fn push_image<'a>(
    child: &'a AstNode<'a>,
    text: &mut String,
    highlights: &mut Vec<Highlight>,
    style: TextStyle,
    depth: usize,
)
    requires
        depth <= MAX_NESTING_DEPTH + 1,
    ensures
        final(text)@ == appended_text(
            old(text)@,
            seq![piece("[image: "@, style)] + inline_pieces(node_tree(child), style, depth as int)
                + seq![piece("]"@, style)],
        ),
        final(highlights)@ == appended_highlights(
            old(highlights)@,
            old(text)@,
            seq![piece("[image: "@, style)] + inline_pieces(node_tree(child), style, depth as int)
                + seq![piece("]"@, style)],
        ),
    decreases node_tree(child), 2int,
{
    let ghost text0 = text@;
    let ghost hl0 = highlights@;
    let ghost open_p = piece("[image: "@, style);
    let ghost close_p = piece("]"@, style);
    push_highlighted(text, highlights, style, "[image: ");
    proof {
        lemma_push_piece(text0, hl0, Seq::empty(), open_p);
        assert(Seq::<Piece>::empty() + seq![open_p] =~= seq![open_p]);
        assert(appended_text(text0, Seq::empty()) =~= text0);
        assert(appended_highlights(hl0, text0, Seq::empty()) =~= hl0);
    }
    collect_inline(child, text, highlights, style, depth);
    let ghost inner = inline_pieces(node_tree(child), style, depth as int);
    proof {
        lemma_append_pieces(text0, hl0, seq![open_p], inner);
    }
    push_highlighted(text, highlights, style, "]");
    proof {
        lemma_push_piece(text0, hl0, seq![open_p] + inner, close_p);
    }
}

/// The text of a node's inline content does not depend on the style it is
/// laid out in: markup changes how text is shown, never what it says.
pub proof fn lemma_inline_text_ignores_style(node: DocNode, s1: TextStyle, s2: TextStyle, depth: int)
    ensures
        pieces_text(inline_pieces(node, s1, depth)) == pieces_text(inline_pieces(node, s2, depth)),
    decreases node, 1int,
{
    if depth <= MAX_NESTING_DEPTH {
        assert(inline_pieces(node, s1, depth) == children_pieces(node.children, s1, depth));
        assert(inline_pieces(node, s2, depth) == children_pieces(node.children, s2, depth));
        lemma_children_text_ignores_style(node.children, s1, s2, depth);
    } else {
        lemma_single_piece(piece("…"@, s1), 0);
        lemma_single_piece(piece("…"@, s2), 0);
    }
}

/// The text of sibling inline nodes does not depend on their style.
pub proof fn lemma_children_text_ignores_style(children: Seq<DocNode>, s1: TextStyle, s2: TextStyle, depth: int)
    ensures
        pieces_text(children_pieces(children, s1, depth)) == pieces_text(
            children_pieces(children, s2, depth),
        ),
    decreases children, 0int,
{
    if children.len() > 0 {
        lemma_children_text_ignores_style(children.drop_last(), s1, s2, depth);
        lemma_child_text(children.last(), s1, depth);
        lemma_child_text(children.last(), s2, depth);
        lemma_inline_text_ignores_style(children.last(), s1, s2, depth + 1);
        lemma_inline_text_ignores_style(children.last(), s1, plain_style(), depth + 1);
        lemma_inline_text_ignores_style(children.last(), s2, plain_style(), depth + 1);
        lemma_pieces_append(
            children_pieces(children.drop_last(), s1, depth),
            child_pieces(children.last(), s1, depth),
            0,
        );
        lemma_pieces_append(
            children_pieces(children.drop_last(), s2, depth),
            child_pieces(children.last(), s2, depth),
            0,
        );
    }
}

/// The text of one inline node: a text or code span as it is, a line break
/// as one space, an image as `[image: `, its description and `]`, and
/// strong, emphasised, linked or any other content as the text of what it
/// holds.
pub proof fn lemma_child_text(child: DocNode, style: TextStyle, depth: int)
    ensures
        child.inline matches InlineKindView::Text(t) ==> pieces_text(child_pieces(child, style, depth)) == t,
        child.inline matches InlineKindView::Code(c) ==> pieces_text(child_pieces(child, style, depth)) == c,
        child.inline is SoftBreak || child.inline is LineBreak ==> pieces_text(
            child_pieces(child, style, depth),
        ) == seq![' '],
        child.inline is Image ==> pieces_text(child_pieces(child, style, depth)) == seq![
            '[',
            'i',
            'm',
            'a',
            'g',
            'e',
            ':',
            ' ',
        ] + pieces_text(inline_pieces(child, style, depth + 1)) + seq![']'],
        child.inline is Strong || child.inline is Emph || child.inline is Link || child.inline is Other
            ==> pieces_text(child_pieces(child, style, depth)) == pieces_text(
            inline_pieces(child, plain_style(), depth + 1),
        ),
    decreases child, 2int,
{
    reveal_strlit("[image: ");
    reveal_strlit("]");
    reveal_strlit(" ");
    match child.inline {
        InlineKindView::Text(t) => {
            lemma_single_piece(piece(t, style), 0);
        },
        InlineKindView::Code(c) => {
            lemma_single_piece(piece(c, style), 0);
        },
        InlineKindView::SoftBreak => {
            lemma_single_piece(piece(" "@, style), 0);
        },
        InlineKindView::LineBreak => {
            lemma_single_piece(piece(" "@, style), 0);
        },
        InlineKindView::Image => {
            let a = seq![piece("[image: "@, style)];
            let b = inline_pieces(child, style, depth + 1);
            let c = seq![piece("]"@, style)];
            lemma_pieces_append(a + b, c, 0);
            lemma_pieces_append(a, b, 0);
            lemma_single_piece(piece("[image: "@, style), 0);
            lemma_single_piece(piece("]"@, style), 0);
            assert("[image: "@ =~= seq!['[', 'i', 'm', 'a', 'g', 'e', ':', ' ']);
            assert("]"@ =~= seq![']']);
        },
        InlineKindView::Strong => {
            lemma_inline_text_ignores_style(child, bolded(style), plain_style(), depth + 1);
        },
        InlineKindView::Emph => {
            lemma_inline_text_ignores_style(child, italicised(style), plain_style(), depth + 1);
        },
        InlineKindView::Link => {
            lemma_inline_text_ignores_style(child, underlined(style), plain_style(), depth + 1);
        },
        InlineKindView::Other => {
            lemma_inline_text_ignores_style(child, style, plain_style(), depth + 1);
        },
    }
}

/// Every run that is not plain gets a highlight of its own: exactly its byte
/// range, where the runs before it end, in its style.
pub proof fn lemma_every_styled_piece_highlighted(pieces: Seq<Piece>, offset: int, k: int)
    requires
        0 <= k < pieces.len(),
        pieces[k].style != plain_style(),
    ensures
        pieces_highlights(pieces, offset).contains(
            Highlight {
                start: (offset + byte_len(pieces_text(pieces.take(k)))) as usize,
                end: (offset + byte_len(pieces_text(pieces.take(k))) + byte_len(pieces[k].text)) as usize,
                style: pieces[k].style,
            },
        ),
    decreases pieces.len(),
{
    let prefix = pieces.drop_last();
    let hs0 = pieces_highlights(prefix, offset);
    let hs1 = piece_highlights(pieces.last(), offset + byte_len(pieces_text(prefix)));
    let hs = pieces_highlights(pieces, offset);
    assert(hs == hs0 + hs1);
    if k == pieces.len() - 1 {
        assert(pieces.take(k) =~= prefix);
        assert(hs[hs0.len() as int] == hs1[0]);
    } else {
        assert(prefix[k] == pieces[k]);
        assert(prefix.take(k) =~= pieces.take(k));
        lemma_every_styled_piece_highlighted(prefix, offset, k);
        let h = choose|j: int| 0 <= j < hs0.len() && hs0[j] == Highlight {
            start: (offset + byte_len(pieces_text(pieces.take(k)))) as usize,
            end: (offset + byte_len(pieces_text(pieces.take(k))) + byte_len(pieces[k].text)) as usize,
            style: pieces[k].style,
        };
        assert(hs[h] == hs0[h]);
    }
}

/// Each highlight of a sequence of runs is shown in the style of one of the
/// runs, so a highlight keeps every emphasis that all the runs keep.
pub proof fn lemma_highlight_styles_from_pieces(pieces: Seq<Piece>, offset: int, base: TextStyle)
    ensures
        forall|i: int|
            0 <= i < pieces_highlights(pieces, offset).len() ==> exists|k: int|
                0 <= k < pieces.len() && (#[trigger] pieces_highlights(pieces, offset)[i]).style
                    == pieces[k].style,
        (forall|k: int| 0 <= k < pieces.len() ==> keeps_style(base, (#[trigger] pieces[k]).style))
            ==> forall|i: int|
            0 <= i < pieces_highlights(pieces, offset).len() ==> keeps_style(
                base,
                (#[trigger] pieces_highlights(pieces, offset)[i]).style,
            ),
    decreases pieces.len(),
{
    if pieces.len() > 0 {
        let prefix = pieces.drop_last();
        lemma_highlight_styles_from_pieces(prefix, offset, base);
        let hs0 = pieces_highlights(prefix, offset);
        let hs1 = piece_highlights(pieces.last(), offset + byte_len(pieces_text(prefix)));
        let hs = pieces_highlights(pieces, offset);
        assert(hs == hs0 + hs1);
        assert forall|i: int| 0 <= i < hs.len() implies exists|k: int|
            0 <= k < pieces.len() && (#[trigger] hs[i]).style == pieces[k].style by {
            if i < hs0.len() {
                assert(hs[i] == hs0[i]);
                let k = choose|k: int| 0 <= k < prefix.len() && hs0[i].style == prefix[k].style;
                assert(pieces[k] == prefix[k]);
            } else {
                assert(hs[i] == hs1[i - hs0.len()]);
                assert(hs[i].style == pieces[pieces.len() - 1].style);
            }
        }
        if forall|k: int| 0 <= k < pieces.len() ==> keeps_style(base, (#[trigger] pieces[k]).style) {
            assert forall|i: int| 0 <= i < hs.len() implies keeps_style(base, (#[trigger] hs[i]).style) by {
                let k = choose|k: int| 0 <= k < pieces.len() && hs[i].style == pieces[k].style;
                assert(keeps_style(base, pieces[k].style));
            }
        }
    }
}

/// Highlights that lie within the byte range `lo..hi`, one after another
/// without overlap, each in a style other than plain.
pub open spec fn highlights_well_placed(hs: Seq<Highlight>, lo: int, hi: int) -> bool {
    &&& forall|i: int| 0 <= i < hs.len() ==> lo <= (#[trigger] hs[i]).start <= hs[i].end <= hi
    &&& forall|i: int, j: int| 0 <= i < j < hs.len() ==> (#[trigger] hs[i]).end <= (#[trigger] hs[j]).start
    &&& forall|i: int| 0 <= i < hs.len() ==> (#[trigger] hs[i]).style != plain_style()
}

/// The highlights of runs laid out from `offset` cover parts of those runs'
/// bytes, in order, each in a style other than plain.
pub proof fn lemma_pieces_highlights_well_placed(pieces: Seq<Piece>, offset: int)
    requires
        0 <= offset,
        offset + byte_len(pieces_text(pieces)) <= usize::MAX,
    ensures
        highlights_well_placed(
            pieces_highlights(pieces, offset),
            offset,
            offset + byte_len(pieces_text(pieces)),
        ),
    decreases pieces.len(),
{
    if pieces.len() > 0 {
        let prefix = pieces.drop_last();
        let last = pieces.last();
        lemma_byte_len_append(pieces_text(prefix), last.text);
        lemma_pieces_highlights_well_placed(prefix, offset);
        let mid = offset + byte_len(pieces_text(prefix));
        let hs0 = pieces_highlights(prefix, offset);
        let hs1 = piece_highlights(last, mid);
        let hs = pieces_highlights(pieces, offset);
        assert(hs == hs0 + hs1);
        assert forall|i: int| 0 <= i < hs.len() implies offset <= (#[trigger] hs[i]).start <= hs[i].end
            <= offset + byte_len(pieces_text(pieces)) by {
            if i >= hs0.len() {
                assert(hs[i] == hs1[i - hs0.len()]);
            } else {
                assert(hs[i] == hs0[i]);
            }
        }
        assert forall|i: int, j: int| 0 <= i < j < hs.len() implies (#[trigger] hs[i]).end <= (
        #[trigger] hs[j]).start by {
            if j >= hs0.len() {
                assert(hs[j] == hs1[j - hs0.len()]);
                if i < hs0.len() {
                    assert(hs[i] == hs0[i]);
                } else {
                    assert(hs[i] == hs1[i - hs0.len()]);
                }
            } else {
                assert(hs[i] == hs0[i]);
                assert(hs[j] == hs0[j]);
            }
        }
        assert forall|i: int| 0 <= i < hs.len() implies (#[trigger] hs[i]).style != plain_style() by {
            if i >= hs0.len() {
                assert(hs[i] == hs1[i - hs0.len()]);
            } else {
                assert(hs[i] == hs0[i]);
            }
        }
    }
}

/// `byte` is the byte length of a prefix of `text`: the bytes of `text`
/// begin a character, or end, there.
pub open spec fn at_char_start(text: Seq<char>, byte: int) -> bool {
    exists|k: int| 0 <= k <= text.len() && byte == byte_len(#[trigger] text.take(k))
}

/// Each highlight of runs laid out from the start of a line begins and ends
/// where a character of the line's text begins or the text ends.
pub proof fn lemma_pieces_highlights_at_char_starts(pieces: Seq<Piece>)
    requires
        byte_len(pieces_text(pieces)) <= usize::MAX,
    ensures
        forall|i: int|
            0 <= i < pieces_highlights(pieces, 0).len() ==> at_char_start(
                pieces_text(pieces),
                (#[trigger] pieces_highlights(pieces, 0)[i]).start as int,
            ) && at_char_start(pieces_text(pieces), pieces_highlights(pieces, 0)[i].end as int),
    decreases pieces.len(),
{
    if pieces.len() > 0 {
        let prefix = pieces.drop_last();
        let last = pieces.last();
        let p = pieces_text(prefix);
        let text = pieces_text(pieces);
        assert(text == p + last.text);
        lemma_byte_len_append(p, last.text);
        lemma_pieces_highlights_at_char_starts(prefix);
        let hs0 = pieces_highlights(prefix, 0);
        let hs1 = piece_highlights(last, byte_len(p) as int);
        let hs = pieces_highlights(pieces, 0);
        assert(hs == hs0 + hs1);
        assert(text.take(p.len() as int) =~= p);
        assert(text.take(text.len() as int) =~= text);
        assert forall|i: int| 0 <= i < hs.len() implies at_char_start(text, (#[trigger] hs[i]).start as int)
            && at_char_start(text, hs[i].end as int) by {
            if i >= hs0.len() {
                assert(hs[i] == hs1[i - hs0.len()]);
                assert(hs[i].start == byte_len(text.take(p.len() as int)));
                assert(hs[i].end == byte_len(text.take(text.len() as int)));
            } else {
                assert(hs[i] == hs0[i]);
                let ks = choose|k: int| 0 <= k <= p.len() && hs0[i].start == byte_len(#[trigger] p.take(k));
                let ke = choose|k: int| 0 <= k <= p.len() && hs0[i].end == byte_len(#[trigger] p.take(k));
                assert(text.take(ks) =~= p.take(ks));
                assert(text.take(ke) =~= p.take(ke));
            }
        }
    }
}

} // verus!
