//! The steps of the block parser, one at a time.
use markdown::block_level_parser::{scan_atx_title_end, Parser};
use markdown::scanner::html::HtmlBlockEnd;
use markdown::types::{Block, BlockKind, HeadingLevel};

fn spans(parser: &Parser) -> Vec<(usize, usize)> {
    parser.tree.nodes.iter().map(|node| (node.item.begin, node.item.end)).collect()
}

#[test]
fn new_parser_has_an_empty_tree() {
    let parser = Parser::new("abc");
    assert_eq!(parser.text, "abc");
    assert_eq!(parser.bytes, b"abc");
    assert!(parser.tree.nodes.is_empty());
    assert_eq!(parser.tree.current, None);
}

#[test]
fn parse_line_takes_one_line_with_its_ending() {
    let mut parser = Parser::new("ab\r\ncd");
    assert_eq!(parser.parse_line(0), 4);
    assert_eq!(parser.parse_line(4), 6);
    assert_eq!(parser.parse_line(6), 6);
    assert_eq!(spans(&parser), vec![(0, 3), (4, 5)]);
    assert!(matches!(parser.tree.nodes[0].item.kind, BlockKind::Text));
    assert_eq!(parser.tree.nodes[0].next, Some(1));
    assert_eq!(parser.tree.current, Some(1));
}

#[test]
fn parse_thematic_break_takes_the_given_length() {
    let mut parser = Parser::new(" ***\nx");
    assert_eq!(parser.parse_thematic_break(1, 4), 5);
    assert_eq!(spans(&parser), vec![(1, 4)]);
    assert!(matches!(parser.tree.nodes[0].item.kind, BlockKind::ThematicBreak));
}

#[test]
fn parse_atx_heading_trims_its_title() {
    let mut parser = Parser::new("## ab ## \nx");
    assert_eq!(parser.parse_atx_heading(0, HeadingLevel::H2), 10);
    assert_eq!(spans(&parser), vec![(0, 9), (3, 4)]);
    assert_eq!(parser.tree.current, Some(0));
    assert!(parser.tree.ancestors.is_empty());
}

#[test]
fn parse_atx_heading_detaches_an_empty_title() {
    let mut parser = Parser::new("# #\n");
    assert_eq!(parser.parse_atx_heading(0, HeadingLevel::H1), 4);
    assert_eq!(parser.tree.nodes.len(), 2);
    assert_eq!(parser.tree.nodes[0].child, None);
    assert_eq!(spans(&parser), vec![(0, 3), (2, 1)]);
}

#[test]
fn atx_title_ends_before_its_closing_sequence() {
    assert_eq!(scan_atx_title_end(b"abc # ", 0, 6), 3);
    assert_eq!(scan_atx_title_end(b"abc# ", 0, 5), 4);
    assert_eq!(scan_atx_title_end(b"abc ##", 0, 6), 3);
    assert_eq!(scan_atx_title_end(b"## ", 0, 3), 0);
    assert_eq!(scan_atx_title_end(b"a \\#", 0, 4), 4);
    assert_eq!(scan_atx_title_end(b"x abc", 2, 5), 5);
    assert_eq!(scan_atx_title_end(b"", 0, 0), 0);
}

#[test]
fn parse_paragraph_stops_at_a_blank_line() {
    let mut parser = Parser::new("a\n b\n\nc");
    assert_eq!(parser.parse_setext_heading_or_paragraph(0, 0), 5);
    assert!(matches!(parser.tree.nodes[0].item.kind, BlockKind::Paragraph));
    assert_eq!(spans(&parser), vec![(0, 4), (0, 1), (3, 3)]);
}

#[test]
fn parse_paragraph_turns_into_a_heading() {
    let mut parser = Parser::new("a \n---\nc");
    assert_eq!(parser.parse_setext_heading_or_paragraph(0, 0), 7);
    assert!(matches!(parser.tree.nodes[0].item.kind, BlockKind::Heading(HeadingLevel::H2)));
    assert_eq!(spans(&parser), vec![(0, 6), (0, 0)]);
}

#[test]
fn parse_indented_code_block_cuts_its_blank_tail() {
    let mut parser = Parser::new("    a\n\nb");
    assert_eq!(parser.parse_indented_code_block(0, 0), 7);
    assert!(matches!(parser.tree.nodes[0].item.kind, BlockKind::IndentedCodeBlock));
    assert_eq!(spans(&parser), vec![(0, 6), (4, 5), (6, 6)]);
    assert_eq!(parser.tree.nodes[1].next, None);
}

#[test]
fn parse_fenced_code_block_ends_after_its_closing_fence() {
    let mut parser = Parser::new(" ```\n a\n```\nb");
    assert_eq!(parser.parse_fenced_code_block(0, 1, 3, b'`', 0), 12);
    assert!(matches!(parser.tree.nodes[0].item.kind, BlockKind::FencedCodeBlock("")));
    assert_eq!(spans(&parser), vec![(1, 11), (6, 7)]);
}

#[test]
fn parse_html_block_ends_with_its_marker() {
    let mut parser = Parser::new("<!--\na-->\nb");
    assert_eq!(parser.parse_html_block_until_marker(0, HtmlBlockEnd::Comment, 0), 10);
    assert_eq!(spans(&parser), vec![(0, 4), (5, 9)]);
    assert!(matches!(parser.tree.nodes[1].item.kind, BlockKind::Html));
}

#[test]
fn parse_html_block_ends_before_a_blank_line() {
    let mut parser = Parser::new("<div>\na\n\nb");
    assert_eq!(parser.parse_html_block_until_blank(0, 0), 8);
    assert_eq!(spans(&parser), vec![(0, 5), (6, 7)]);
}

#[test]
fn parse_leaf_picks_the_block() {
    let mut parser = Parser::new("\n# a\nb");
    assert_eq!(parser.parse_leaf(0, 0), 1);
    assert!(parser.tree.nodes.is_empty());
    assert_eq!(parser.parse_leaf(1, 0), 5);
    assert!(matches!(parser.tree.nodes[0].item.kind, BlockKind::Heading(HeadingLevel::H1)));
    assert_eq!(parser.parse_leaf(5, 0), 6);
    assert!(matches!(parser.tree.nodes[2].item.kind, BlockKind::Paragraph));
    assert_eq!(parser.parse_leaf(6, 0), 6);
}

#[test]
fn quotes_open_and_close() {
    let mut parser = Parser::new("> > a\nb");
    assert_eq!(parser.open_quotes(0), 4);
    assert_eq!(parser.tree.ancestors, vec![0, 1]);
    assert_eq!(parser.tree.current, None);
    assert_eq!(parser.parse_leaf(4, 2), 7);
    parser.close_quotes(1, 6);
    assert_eq!(parser.tree.ancestors, vec![0]);
    assert_eq!(parser.tree.current, Some(1));
    parser.close_quotes(0, 6);
    assert!(parser.tree.ancestors.is_empty());
    assert_eq!(spans(&parser), vec![(0, 6), (2, 6), (4, 6), (4, 5), (6, 6)]);
}

#[test]
fn parse_block_closes_and_opens_quotes() {
    let mut parser = Parser::new("> a\n\n> b");
    assert_eq!(parser.parse_block(0), 4);
    assert_eq!(parser.tree.ancestors, vec![0]);
    assert_eq!(parser.parse_block(4), 5);
    assert!(parser.tree.ancestors.is_empty());
    assert_eq!(parser.parse_block(5), 8);
    assert_eq!(parser.tree.ancestors, vec![3]);
    assert_eq!(parser.tree.nodes[0].item.end, 3);
    assert_eq!(parser.tree.nodes[0].next, Some(3));
}

#[test]
fn the_steps_on_the_tree() {
    let mut parser = Parser::new("abcdef");
    parser.open(Block { begin: 0, end: 0, kind: BlockKind::Paragraph });
    assert_eq!(parser.tree.ancestors, vec![0]);
    parser.append_leaf(Block { begin: 0, end: 2, kind: BlockKind::Text });
    parser.append_leaf(Block { begin: 3, end: 5, kind: BlockKind::Text });
    parser.set_leaf_end(4);
    assert_eq!(parser.tree.nodes[2].item.end, 4);
    parser.retag(BlockKind::Heading(HeadingLevel::H3));
    assert!(matches!(parser.tree.nodes[0].item.kind, BlockKind::Heading(HeadingLevel::H3)));
    parser.truncate_after(1);
    assert_eq!(parser.tree.nodes[1].next, None);
    assert_eq!(parser.tree.current, Some(1));
    parser.close(5);
    assert_eq!(parser.tree.nodes[0].item.end, 5);
    assert_eq!(parser.tree.current, Some(0));
    parser.open(Block { begin: 6, end: 0, kind: BlockKind::BlockQuote });
    parser.append_leaf(Block { begin: 6, end: 6, kind: BlockKind::Text });
    parser.detach_and_close(6);
    assert_eq!(parser.tree.nodes[3].child, None);
    assert_eq!(parser.tree.nodes[3].item.end, 6);
    assert_eq!(parser.tree.nodes[0].next, Some(3));
    assert!(parser.tree.ancestors.is_empty());
}
