use md_viewer::markdown::model::{Block, Highlight, Line, TextStyle, MAX_NESTING_DEPTH};
use comrak::{parse_document, Arena, Options};
use md_viewer::markdown::parser::{document_blocks, parse_markdown};
use md_viewer::markdown::render::{heading_scale, HeadingScale};

const PLAIN: TextStyle = TextStyle { bold: false, italic: false, underline: false };
const BOLD: TextStyle = TextStyle { bold: true, italic: false, underline: false };
const ITALIC: TextStyle = TextStyle { bold: false, italic: true, underline: false };
const UNDERLINE: TextStyle = TextStyle { bold: false, italic: false, underline: true };

fn text(line: &str) -> Line {
    Line {
        text: line.to_string(),
        highlights: Vec::new(),
        heading_level: None,
        list_marker: None,
        indent_level: 0,
    }
}

fn marked(line: &str, marker: &str, indent: usize) -> Line {
    Line {
        text: line.to_string(),
        highlights: Vec::new(),
        heading_level: None,
        list_marker: Some(marker.to_string()),
        indent_level: indent,
    }
}

#[test]
fn heading_and_paragraph() {
    let blocks = parse_markdown("# Title\n\nHello world\n");
    assert_eq!(
        blocks,
        vec![
            Block::Text(Line { heading_level: Some(1), ..text("Title") }),
            Block::Text(text("Hello world")),
        ]
    );
}

#[test]
fn strong_emphasis_and_link_are_highlighted() {
    let blocks = parse_markdown("Hello **world** and *you* at [home](https://x)\n");
    let expected = Line {
        highlights: vec![
            Highlight { start: 6, end: 11, style: BOLD },
            Highlight { start: 16, end: 19, style: ITALIC },
            Highlight { start: 23, end: 27, style: UNDERLINE },
        ],
        ..text("Hello world and you at home")
    };
    assert_eq!(blocks, vec![Block::Text(expected)]);
}

#[test]
fn nested_styles_combine() {
    let blocks = parse_markdown("***both***\n");
    let both = TextStyle { bold: true, italic: true, underline: false };
    assert_eq!(
        blocks,
        vec![Block::Text(Line {
            highlights: vec![Highlight { start: 0, end: 4, style: both }],
            ..text("both")
        })]
    );
}

#[test]
fn highlight_ranges_are_utf8_byte_offsets() {
    let blocks = parse_markdown("é **ü**\n");
    assert_eq!(
        blocks,
        vec![Block::Text(Line {
            highlights: vec![Highlight { start: 3, end: 5, style: BOLD }],
            ..text("é ü")
        })]
    );
}

#[test]
fn plain_text_has_no_highlights() {
    let blocks = parse_markdown("just `code` here\nnext line\n");
    assert_eq!(blocks, vec![Block::Text(text("just code here next line"))]);
    assert_ne!(PLAIN, BOLD);
}

#[test]
fn image_shows_its_description() {
    let blocks = parse_markdown("![a cat](cat.png)\n");
    assert_eq!(blocks, vec![Block::Text(text("[image: a cat]"))]);
}

#[test]
fn bullet_list_markers() {
    let blocks = parse_markdown("- one\n- two\n");
    assert_eq!(
        blocks,
        vec![
            Block::Text(marked("one", "• ", 0)),
            Block::Text(marked("two", "• ", 0)),
        ]
    );
}

#[test]
fn ordered_list_counts_from_its_start() {
    let blocks = parse_markdown("3. three\n4. four\n5. five\n");
    assert_eq!(
        blocks,
        vec![
            Block::Text(marked("three", "3. ", 0)),
            Block::Text(marked("four", "4. ", 0)),
            Block::Text(marked("five", "5. ", 0)),
        ]
    );
}

#[test]
fn ordered_list_with_paren_delimiter() {
    let blocks = parse_markdown("9) nine\n10) ten\n");
    assert_eq!(
        blocks,
        vec![
            Block::Text(marked("nine", "9) ", 0)),
            Block::Text(marked("ten", "10) ", 0)),
        ]
    );
}

#[test]
fn nested_list_is_indented() {
    let blocks = parse_markdown("- a\n  - b\n- c\n");
    assert_eq!(
        blocks,
        vec![
            Block::Text(marked("a", "• ", 0)),
            Block::Text(marked("b", "• ", 1)),
            Block::Text(marked("c", "• ", 0)),
        ]
    );
}

#[test]
fn item_without_leading_text_gets_a_marker_line() {
    let blocks = parse_markdown("1. ```\n   code\n   ```\n");
    assert_eq!(
        blocks,
        vec![
            Block::Text(marked("", "1. ", 0)),
            Block::Code("code".to_string(), 0),
        ]
    );
}

#[test]
fn heading_in_list_item_keeps_marker_and_level() {
    let blocks = parse_markdown("- ## Head\n");
    assert_eq!(
        blocks,
        vec![Block::Text(Line { heading_level: Some(2), ..marked("Head", "• ", 0) })]
    );
}

#[test]
fn code_block_loses_one_final_newline() {
    let blocks = parse_markdown("```\nfn main() {}\n\n```\n");
    assert_eq!(blocks, vec![Block::Code("fn main() {}\n".to_string(), 0)]);
}

#[test]
fn table_rows_and_cells() {
    let blocks = parse_markdown("| a | b |\n|---|---|\n| 1 | **2** |\n");
    let two = Line {
        highlights: vec![Highlight { start: 0, end: 1, style: BOLD }],
        ..text("2")
    };
    assert_eq!(
        blocks,
        vec![Block::Table(
            vec![(true, vec![text("a"), text("b")]), (false, vec![text("1"), two])],
            0
        )]
    );
}

#[test]
fn block_quote_holds_its_blocks() {
    let blocks = parse_markdown("> quoted\n>\n> - item\n");
    assert_eq!(
        blocks,
        vec![Block::Quote(
            vec![Block::Text(text("quoted")), Block::Text(marked("item", "• ", 0))],
            0
        )]
    );
}

#[test]
fn thematic_break_is_a_rule() {
    let blocks = parse_markdown("a\n\n***\n\nb\n");
    assert_eq!(
        blocks,
        vec![Block::Text(text("a")), Block::Rule(0), Block::Text(text("b"))]
    );
}

#[test]
fn html_block_is_dropped() {
    let blocks = parse_markdown("<div>\nx\n</div>\n\nafter\n");
    assert_eq!(blocks, vec![Block::Text(text("after"))]);
}

#[test]
fn empty_document_has_no_blocks() {
    assert_eq!(parse_markdown(""), Vec::<Block>::new());
}

#[test]
fn deep_quotes_stop_at_the_nesting_limit() {
    let depth = MAX_NESTING_DEPTH + 3;
    let source = format!("{} deep\n", ">".repeat(depth));
    let blocks = parse_markdown(&source);
    let mut current = &blocks;
    let mut levels = 0;
    loop {
        assert_eq!(current.len(), 1);
        match &current[0] {
            Block::Quote(inner, _) => {
                levels += 1;
                current = inner;
            }
            Block::Text(line) => {
                assert_eq!(line.text, "…（ネストが深すぎるため以下省略）");
                break;
            }
            other => panic!("unexpected block {other:?}"),
        }
    }
    assert_eq!(levels, MAX_NESTING_DEPTH + 1);
}

#[test]
fn deep_images_stop_at_the_nesting_limit() {
    let depth = MAX_NESTING_DEPTH + 5;
    let source = format!("{}x{}\n", "![".repeat(depth), "](u)".repeat(depth));
    let blocks = parse_markdown(&source);
    let kept = MAX_NESTING_DEPTH + 1;
    let expected = format!("{}…{}", "[image: ".repeat(kept), "]".repeat(kept));
    assert_eq!(blocks, vec![Block::Text(text(&expected))]);
}

#[test]
fn heading_scales() {
    assert_eq!(heading_scale(Some(1)), HeadingScale::Largest);
    assert_eq!(heading_scale(Some(2)), HeadingScale::Largest);
    assert_eq!(heading_scale(Some(3)), HeadingScale::Larger);
    assert_eq!(heading_scale(Some(4)), HeadingScale::Larger);
    assert_eq!(heading_scale(Some(5)), HeadingScale::Large);
    assert_eq!(heading_scale(Some(6)), HeadingScale::Large);
    assert_eq!(heading_scale(Some(7)), HeadingScale::Normal);
    assert_eq!(heading_scale(None), HeadingScale::Normal);
}

#[test]
fn document_blocks_of_a_parsed_root() {
    let arena = Arena::new();
    let mut options = Options::default();
    options.extension.table = true;
    let root = parse_document(&arena, "- a\n\n---\n", &options);
    assert_eq!(
        document_blocks(root),
        vec![Block::Text(marked("a", "• ", 0)), Block::Rule(0)]
    );
}

#[test]
fn highlights_lie_within_the_line_text() {
    let blocks = parse_markdown("ä *ö* **ü** [ß](u) `x` plain\n");
    for block in &blocks {
        if let Block::Text(line) = block {
            let mut last_end = 0;
            for h in &line.highlights {
                assert!(last_end <= h.start && h.start <= h.end && h.end <= line.text.len());
                assert_ne!(h.style, PLAIN);
                last_end = h.end;
            }
            assert_eq!(line.highlights.len(), 3);
        } else {
            panic!("unexpected block {block:?}");
        }
    }
}

#[test]
fn item_marker_goes_to_the_first_line_only() {
    let blocks = parse_markdown("1. first\n\n   second\n");
    assert_eq!(
        blocks,
        vec![Block::Text(marked("first", "1. ", 0)), Block::Text(text("second"))]
    );
}

#[test]
fn highlight_ends_fall_on_char_boundaries() {
    let blocks = parse_markdown("日本 **語の** テキスト *ü*\n");
    for block in &blocks {
        if let Block::Text(line) = block {
            for h in &line.highlights {
                assert!(line.text.is_char_boundary(h.start));
                assert!(line.text.is_char_boundary(h.end));
            }
            assert_eq!(line.highlights.len(), 2);
        }
    }
}
