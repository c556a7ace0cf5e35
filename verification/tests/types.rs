//! Heading levels and the block tree of small documents.
use markdown::block_level_parser::parse;
use markdown::tree::Tree;
use markdown::types::{Block, BlockKind, HeadingLevel, InvalidHeadingLevel};

#[test]
fn heading_level_from_its_number() {
    assert!(matches!(HeadingLevel::try_from(1), Ok(HeadingLevel::H1)));
    assert!(matches!(HeadingLevel::try_from(2), Ok(HeadingLevel::H2)));
    assert!(matches!(HeadingLevel::try_from(3), Ok(HeadingLevel::H3)));
    assert!(matches!(HeadingLevel::try_from(4), Ok(HeadingLevel::H4)));
    assert!(matches!(HeadingLevel::try_from(5), Ok(HeadingLevel::H5)));
    assert!(matches!(HeadingLevel::try_from(6), Ok(HeadingLevel::H6)));
}

#[test]
fn heading_level_refuses_other_numbers() {
    assert!(matches!(HeadingLevel::try_from(0), Err(InvalidHeadingLevel(0))));
    assert!(matches!(HeadingLevel::try_from(7), Err(InvalidHeadingLevel(7))));
    assert!(matches!(HeadingLevel::try_from(usize::MAX), Err(InvalidHeadingLevel(usize::MAX))));
}

#[test]
fn heading_level_to_its_number() {
    assert_eq!(HeadingLevel::H1.to_usize(), 1);
    assert_eq!(HeadingLevel::H4.to_usize(), 4);
    assert_eq!(HeadingLevel::H6.to_usize(), 6);
}

#[test]
fn tree_of_a_heading() {
    let tree = parse("# ab\n");
    assert_eq!(tree.current, Some(0));
    assert!(tree.ancestors.is_empty());
    assert_eq!(tree.nodes.len(), 2);
    assert!(matches!(tree.nodes[0].item.kind, BlockKind::Heading(HeadingLevel::H1)));
    assert_eq!(tree.nodes[0].item.begin, 0);
    assert_eq!(tree.nodes[0].item.end, 4);
    assert_eq!(tree.nodes[0].child, Some(1));
    assert_eq!(tree.nodes[0].next, None);
    assert!(matches!(tree.nodes[1].item.kind, BlockKind::Text));
    assert_eq!(tree.nodes[1].item.begin, 2);
    assert_eq!(tree.nodes[1].item.end, 3);
}

#[test]
fn tree_of_an_empty_heading_keeps_the_node_out_of_reach() {
    let tree = parse("#\nx");
    assert_eq!(tree.nodes.len(), 4);
    assert!(matches!(tree.nodes[0].item.kind, BlockKind::Heading(HeadingLevel::H1)));
    assert_eq!(tree.nodes[0].child, None);
    assert_eq!(tree.nodes[0].next, Some(2));
    assert!(matches!(tree.nodes[2].item.kind, BlockKind::Paragraph));
    assert_eq!(tree.nodes[2].child, Some(3));
}

#[test]
fn tree_of_a_paragraph_turned_heading() {
    let tree: Tree<Block> = Tree::from("ab \n==\ncd");
    assert!(matches!(tree.nodes[0].item.kind, BlockKind::Heading(HeadingLevel::H1)));
    assert_eq!(tree.nodes[0].item.begin, 0);
    assert_eq!(tree.nodes[0].item.end, 6);
    assert_eq!(tree.nodes[1].item.begin, 0);
    assert_eq!(tree.nodes[1].item.end, 1);
    assert_eq!(tree.nodes[0].next, Some(2));
    assert!(matches!(tree.nodes[2].item.kind, BlockKind::Paragraph));
    assert_eq!(tree.nodes[3].item.begin, 7);
    assert_eq!(tree.nodes[3].item.end, 8);
}

#[test]
fn tree_of_indented_code_cuts_its_blank_tail() {
    let tree = parse("    a\n\n    \nb");
    assert!(matches!(tree.nodes[0].item.kind, BlockKind::IndentedCodeBlock));
    assert_eq!(tree.nodes[0].child, Some(1));
    assert_eq!(tree.nodes[1].item.begin, 4);
    assert_eq!(tree.nodes[1].item.end, 5);
    assert_eq!(tree.nodes[1].next, None);
    assert_eq!(tree.nodes[0].item.end, 11);
    assert!(matches!(tree.nodes[2].item.kind, BlockKind::Text));
    assert_eq!(tree.nodes[2].next, Some(3));
    assert_eq!(tree.nodes[0].next, Some(4));
    assert!(matches!(tree.nodes[4].item.kind, BlockKind::Paragraph));
}

#[test]
fn tree_of_a_fenced_code_block_holds_its_info() {
    let tree = parse("``` rust  x  \na\n```\n");
    assert!(matches!(tree.nodes[0].item.kind, BlockKind::FencedCodeBlock("rust  x")));
    assert_eq!(tree.nodes[0].item.begin, 0);
    assert_eq!(tree.nodes[0].item.end, 19);
    assert_eq!(tree.nodes[1].item.begin, 14);
    assert_eq!(tree.nodes[1].item.end, 15);
}

#[test]
fn tree_of_a_block_quote() {
    let tree = parse("> a\n\n***");
    assert!(matches!(tree.nodes[0].item.kind, BlockKind::BlockQuote));
    assert_eq!(tree.nodes[0].item.begin, 0);
    assert_eq!(tree.nodes[0].item.end, 3);
    assert!(matches!(tree.nodes[1].item.kind, BlockKind::Paragraph));
    assert_eq!(tree.nodes[1].item.begin, 2);
    assert_eq!(tree.nodes[1].item.end, 3);
    assert_eq!(tree.nodes[2].item.begin, 2);
    assert_eq!(tree.nodes[2].item.end, 2);
    assert!(matches!(tree.nodes[3].item.kind, BlockKind::ThematicBreak));
    assert_eq!(tree.nodes[3].item.begin, 5);
    assert_eq!(tree.nodes[3].item.end, 7);
}

#[test]
fn tree_of_an_empty_text() {
    let tree = parse("");
    assert!(tree.nodes.is_empty());
    assert_eq!(tree.current, None);
}

#[test]
fn tree_of_nested_block_quotes_has_their_spans() {
    let tree = parse("> a\n> > b\nc\n\nd");
    assert!(matches!(tree.nodes[0].item.kind, BlockKind::BlockQuote));
    assert_eq!((tree.nodes[0].item.begin, tree.nodes[0].item.end), (0, 11));
    assert!(matches!(tree.nodes[1].item.kind, BlockKind::Paragraph));
    assert_eq!((tree.nodes[1].item.begin, tree.nodes[1].item.end), (2, 3));
    assert!(matches!(tree.nodes[3].item.kind, BlockKind::BlockQuote));
    assert_eq!((tree.nodes[3].item.begin, tree.nodes[3].item.end), (6, 11));
    assert!(matches!(tree.nodes[4].item.kind, BlockKind::Paragraph));
    assert_eq!((tree.nodes[4].item.begin, tree.nodes[4].item.end), (8, 11));
    assert_eq!((tree.nodes[5].item.begin, tree.nodes[5].item.end), (8, 9));
    assert_eq!((tree.nodes[6].item.begin, tree.nodes[6].item.end), (10, 10));
    assert_eq!(tree.nodes[0].next, Some(7));
    assert!(matches!(tree.nodes[7].item.kind, BlockKind::Paragraph));
    assert_eq!((tree.nodes[7].item.begin, tree.nodes[7].item.end), (13, 13));
}

#[test]
fn tree_of_html_lines() {
    let tree = parse(" <p>\nx\n");
    assert_eq!(tree.nodes.len(), 2);
    assert!(matches!(tree.nodes[0].item.kind, BlockKind::Html));
    assert_eq!((tree.nodes[0].item.begin, tree.nodes[0].item.end), (0, 4));
    assert!(matches!(tree.nodes[1].item.kind, BlockKind::Html));
    assert_eq!((tree.nodes[1].item.begin, tree.nodes[1].item.end), (5, 6));
    assert_eq!(tree.nodes[0].next, Some(1));
}
