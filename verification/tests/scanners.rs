//! The scanners, each on inputs that it accepts and on inputs that it refuses.
use markdown::scanner::container::{scan_block_quote_marker, scan_container_markers};
use markdown::scanner::html::{
    contains, scan_attribute, scan_attribute_value, scan_html_block_type_1_to_5,
    scan_html_block_type_6, scan_html_block_type_7, starts_with, HtmlBlockEnd,
};
use markdown::scanner::interrupt::{scan_continuation, scan_paragraph_interrupt, Continuation};
use markdown::scanner::leaf::{
    scan_atx_heading, scan_closing_code_fence, scan_opening_code_fence, scan_setext_heading,
    scan_thematic_break,
};
use markdown::scanner::line::{
    parse_indent, parse_indent_0_to_4, parse_non_line_ending_whitespaces, parse_spaces,
    parse_spaces_or_tabs, scan_blank_line, scan_indent, scan_indent_4, scan_line_ending,
    skip_line,
};
use markdown::text::{
    is_line_ending, is_non_line_ending_whitespaces, skip_run, skip_run_back, slice, to_lower,
    ByteClass,
};
use markdown::types::HeadingLevel;

#[test]
fn line_ending_of_each_kind() {
    assert_eq!(scan_line_ending(b"a\nb", 1), Some(1));
    assert_eq!(scan_line_ending(b"a\r\nb", 1), Some(2));
    assert_eq!(scan_line_ending(b"a\rb", 1), Some(1));
    assert_eq!(scan_line_ending(b"a\r", 1), Some(1));
    assert_eq!(scan_line_ending(b"a", 1), Some(0));
    assert_eq!(scan_line_ending(b"a", 7), Some(0));
    assert_eq!(scan_line_ending(b"ab", 1), None);
    assert_eq!(scan_line_ending(b"a b", 1), None);
}

#[test]
fn line_ending_bytes() {
    assert!(is_line_ending(b'\n'));
    assert!(is_line_ending(b'\r'));
    assert!(!is_line_ending(b' '));
    assert!(!is_line_ending(0x0b));
}

#[test]
fn white_space_within_a_line() {
    assert!(is_non_line_ending_whitespaces(b' '));
    assert!(is_non_line_ending_whitespaces(b'\t'));
    assert!(is_non_line_ending_whitespaces(0x0b));
    assert!(is_non_line_ending_whitespaces(0x0c));
    assert!(!is_non_line_ending_whitespaces(b'\n'));
    assert!(!is_non_line_ending_whitespaces(b'\r'));
    assert!(!is_non_line_ending_whitespaces(b'a'));
}

#[test]
fn blank_line_with_its_length() {
    assert_eq!(scan_blank_line(b"\n", 0), Some(1));
    assert_eq!(scan_blank_line(b"  \t\x0b\x0c\r\nx", 0), Some(7));
    assert_eq!(scan_blank_line(b"   ", 0), Some(3));
    assert_eq!(scan_blank_line(b"", 0), Some(0));
    assert_eq!(scan_blank_line(b"a  \n", 1), Some(3));
    assert_eq!(scan_blank_line(b"  a\n", 0), None);
}

#[test]
fn indent_counts_columns_up_to_four() {
    assert_eq!(scan_indent(b"x", 0), 0);
    assert_eq!(scan_indent(b"   x", 0), 3);
    assert_eq!(scan_indent(b"    x", 0), 4);
    assert_eq!(scan_indent(b"       x", 0), 4);
    assert_eq!(scan_indent(b"\tx", 0), 4);
    assert_eq!(scan_indent(b" \tx", 0), 4);
    assert_eq!(scan_indent(b"   \tx", 0), 4);
    assert_eq!(scan_indent(b"  ", 0), 2);
    assert_eq!(scan_indent(b"", 0), 0);
    assert!(scan_indent_4(b"\t", 0));
    assert!(scan_indent_4(b" \t", 0));
    assert!(!scan_indent_4(b"   a", 0));
}

#[test]
fn indent_is_skipped_by_columns() {
    assert_eq!(parse_indent_0_to_4(b"      x", 0), 4);
    assert_eq!(parse_indent_0_to_4(b"  x", 0), 2);
    assert_eq!(parse_indent_0_to_4(b"\t\tx", 0), 1);
    assert_eq!(parse_indent_0_to_4(b" \tx", 0), 2);
    assert_eq!(parse_indent_0_to_4(b"   \t x", 0), 4);
    assert_eq!(parse_indent(b"    x", 0, 2), 2);
    assert_eq!(parse_indent(b"\tx", 0, 3), 0);
    assert_eq!(parse_indent(b" \tx", 0, 3), 1);
    assert_eq!(parse_indent(b"  x", 0, 0), 0);
}

#[test]
fn runs_of_white_space_are_skipped() {
    assert_eq!(parse_spaces(b"  \t a", 0), 2);
    assert_eq!(parse_spaces_or_tabs(b"  \t a", 0), 4);
    assert_eq!(parse_spaces_or_tabs(b"  \t\x0ba", 0), 3);
    assert_eq!(parse_non_line_ending_whitespaces(b"  \t\x0b\x0c\na", 0), 5);
    assert_eq!(parse_spaces(b"ab", 5), 5);
}

#[test]
fn line_is_skipped_with_its_ending() {
    assert_eq!(skip_line(b"ab\ncd", 0), 3);
    assert_eq!(skip_line(b"ab\r\ncd", 1), 4);
    assert_eq!(skip_line(b"ab\rcd", 0), 3);
    assert_eq!(skip_line(b"ab", 0), 2);
    assert_eq!(skip_line(b"ab\n", 2), 3);
}

#[test]
fn runs_forward_and_backward() {
    assert_eq!(skip_run(b"aaab", ByteClass::Exactly(b'a'), 0), 3);
    assert_eq!(skip_run(b"aaab", ByteClass::Exactly(b'a'), 3), 3);
    assert_eq!(skip_run(b"ab1-c", ByteClass::Alphanumeric, 0), 3);
    assert_eq!(skip_run(b"ab\ncd", ByteClass::LineContent, 0), 2);
    assert_eq!(skip_run_back(b"abc  ", ByteClass::Space, 0, 5), 3);
    assert_eq!(skip_run_back(b"     ", ByteClass::Space, 2, 5), 2);
    assert_eq!(skip_run_back(b"abc", ByteClass::Space, 0, 3), 3);
}

#[test]
fn lower_case_of_letters_only() {
    assert_eq!(to_lower(b'A'), b'a');
    assert_eq!(to_lower(b'Z'), b'z');
    assert_eq!(to_lower(b'a'), b'a');
    assert_eq!(to_lower(b'['), b'[');
    assert_eq!(to_lower(b'@'), b'@');
}

#[test]
fn slice_cuts_between_edges() {
    assert_eq!(slice("h\u{e9}llo w\u{f6}rld", 0, 6), "h\u{e9}llo");
    assert_eq!(slice("h\u{e9}llo w\u{f6}rld", 7, 13), "w\u{f6}rld");
    assert_eq!(slice("abc", 1, 1), "");
}

#[test]
fn atx_heading_levels() {
    assert_eq!(scan_atx_heading(b"# a", 0), Some(HeadingLevel::H1));
    assert_eq!(scan_atx_heading(b"###### a", 0), Some(HeadingLevel::H6));
    assert_eq!(scan_atx_heading(b"####### a", 0), None);
    assert_eq!(scan_atx_heading(b"   ## a", 0), Some(HeadingLevel::H2));
    assert_eq!(scan_atx_heading(b"    ## a", 0), None);
    assert_eq!(scan_atx_heading(b"#a", 0), None);
    assert_eq!(scan_atx_heading(b"#", 0), Some(HeadingLevel::H1));
    assert_eq!(scan_atx_heading(b"##\n", 0), Some(HeadingLevel::H2));
    assert_eq!(scan_atx_heading(b"#\ta", 0), Some(HeadingLevel::H1));
    assert_eq!(scan_atx_heading(b"a", 0), None);
    assert_eq!(scan_atx_heading(b"", 0), None);
    assert_eq!(scan_atx_heading(b"x # a", 2), Some(HeadingLevel::H1));
}

#[test]
fn setext_underlines() {
    assert_eq!(scan_setext_heading(b"===\n", 0), Some((4, HeadingLevel::H1)));
    assert_eq!(scan_setext_heading(b"---", 0), Some((3, HeadingLevel::H2)));
    assert_eq!(scan_setext_heading(b"=  \r\nx", 0), Some((5, HeadingLevel::H1)));
    assert_eq!(scan_setext_heading(b"== =\n", 0), None);
    assert_eq!(scan_setext_heading(b"=-\n", 0), None);
    assert_eq!(scan_setext_heading(b"***\n", 0), None);
    assert_eq!(scan_setext_heading(b"", 0), None);
}

#[test]
fn thematic_breaks() {
    assert_eq!(scan_thematic_break(b"***\n", 0), Some(4));
    assert_eq!(scan_thematic_break(b"---", 0), Some(3));
    assert_eq!(scan_thematic_break(b"___\r\n", 0), Some(5));
    assert_eq!(scan_thematic_break(b"***\r", 0), Some(4));
    assert_eq!(scan_thematic_break(b" - - -", 0), Some(6));
    assert_eq!(scan_thematic_break(b"   * * *  \n", 0), Some(11));
    assert_eq!(scan_thematic_break(b"*\t*\t*\n", 0), Some(6));
    assert_eq!(scan_thematic_break(b"    ***\n", 0), None);
    assert_eq!(scan_thematic_break(b"**\n", 0), None);
    assert_eq!(scan_thematic_break(b"*-*\n", 0), None);
    assert_eq!(scan_thematic_break(b"*** a\n", 0), None);
    assert_eq!(scan_thematic_break(b"+++\n", 0), None);
    assert_eq!(scan_thematic_break(b"   \n", 0), None);
    assert_eq!(scan_thematic_break(b"", 0), None);
}

#[test]
fn block_quote_markers() {
    assert_eq!(scan_block_quote_marker(b"> a", 0), Some(2));
    assert_eq!(scan_block_quote_marker(b">a", 0), Some(1));
    assert_eq!(scan_block_quote_marker(b">", 0), Some(1));
    assert_eq!(scan_block_quote_marker(b"   >  a", 0), Some(5));
    assert_eq!(scan_block_quote_marker(b"    > a", 0), None);
    assert_eq!(scan_block_quote_marker(b"a", 0), None);
    assert_eq!(scan_block_quote_marker(b"", 0), None);
}

#[test]
fn container_markers_are_counted_in_order() {
    assert_eq!(scan_container_markers(b"> > a", 0, 2), (2, 4));
    assert_eq!(scan_container_markers(b"> > a", 0, 1), (1, 2));
    assert_eq!(scan_container_markers(b"> a", 0, 2), (1, 2));
    assert_eq!(scan_container_markers(b"a", 0, 2), (0, 0));
    assert_eq!(scan_container_markers(b"> a", 0, 0), (0, 0));
    assert_eq!(scan_container_markers(b">>a", 0, 3), (2, 2));
}

#[test]
fn opening_code_fences() {
    assert_eq!(scan_opening_code_fence(b"```\n", 0), Some((3, b'`')));
    assert_eq!(scan_opening_code_fence(b"~~~~ rust\n", 0), Some((4, b'~')));
    assert_eq!(scan_opening_code_fence(b"```rust\n", 0), Some((3, b'`')));
    assert_eq!(scan_opening_code_fence(b"``` a`b\n", 0), None);
    assert_eq!(scan_opening_code_fence(b"```\na`b\n", 0), Some((3, b'`')));
    assert_eq!(scan_opening_code_fence(b"~~~ a`b\n", 0), Some((3, b'~')));
    assert_eq!(scan_opening_code_fence(b"``\n", 0), None);
    assert_eq!(scan_opening_code_fence(b"~~`\n", 0), None);
    assert_eq!(scan_opening_code_fence(b"abc", 0), None);
    assert_eq!(scan_opening_code_fence(b"", 0), None);
}

#[test]
fn closing_code_fences() {
    assert_eq!(scan_closing_code_fence(b"```\n", 0, b'`', 3), Some(4));
    assert_eq!(scan_closing_code_fence(b"`````", 0, b'`', 3), Some(5));
    assert_eq!(scan_closing_code_fence(b"```\r\n", 0, b'`', 3), Some(5));
    assert_eq!(scan_closing_code_fence(b"```\n", 0, b'`', 4), None);
    assert_eq!(scan_closing_code_fence(b"~~~\n", 0, b'`', 3), None);
    assert_eq!(scan_closing_code_fence(b"``` a\n", 0, b'`', 3), None);
}

#[test]
fn html_openers_that_name_their_end() {
    assert_eq!(scan_html_block_type_1_to_5(b"<pre>", 0), Some(HtmlBlockEnd::Pre));
    assert_eq!(scan_html_block_type_1_to_5(b"<PRE class", 0), Some(HtmlBlockEnd::Pre));
    assert_eq!(scan_html_block_type_1_to_5(b"<pre", 0), Some(HtmlBlockEnd::Pre));
    assert_eq!(scan_html_block_type_1_to_5(b"<pre\n", 0), Some(HtmlBlockEnd::Pre));
    assert_eq!(scan_html_block_type_1_to_5(b"<pref>", 0), None);
    assert_eq!(scan_html_block_type_1_to_5(b"<style>", 0), Some(HtmlBlockEnd::Style));
    assert_eq!(scan_html_block_type_1_to_5(b"<Script src", 0), Some(HtmlBlockEnd::Script));
    assert_eq!(scan_html_block_type_1_to_5(b"<textarea>", 0), Some(HtmlBlockEnd::Textarea));
    assert_eq!(scan_html_block_type_1_to_5(b"<!-- a", 0), Some(HtmlBlockEnd::Comment));
    assert_eq!(scan_html_block_type_1_to_5(b"<?php", 0), Some(HtmlBlockEnd::Instruction));
    assert_eq!(scan_html_block_type_1_to_5(b"<![CDATA[x", 0), Some(HtmlBlockEnd::CData));
    assert_eq!(scan_html_block_type_1_to_5(b"<!DOCTYPE html>", 0), Some(HtmlBlockEnd::Declaration));
    assert_eq!(scan_html_block_type_1_to_5(b"<!1", 0), None);
    assert_eq!(scan_html_block_type_1_to_5(b"<!", 0), None);
    assert_eq!(scan_html_block_type_1_to_5(b"<div>", 0), None);
    assert_eq!(scan_html_block_type_1_to_5(b"pre", 0), None);
    assert_eq!(scan_html_block_type_1_to_5(b"", 0), None);
}

#[test]
fn html_closing_markers() {
    assert_eq!(HtmlBlockEnd::Pre.marker_str(), "</pre>");
    assert_eq!(HtmlBlockEnd::Style.marker_str(), "</style>");
    assert_eq!(HtmlBlockEnd::Script.marker_str(), "</script>");
    assert_eq!(HtmlBlockEnd::Textarea.marker_str(), "</textarea>");
    assert_eq!(HtmlBlockEnd::Comment.marker_str(), "-->");
    assert_eq!(HtmlBlockEnd::Instruction.marker_str(), "?>");
    assert_eq!(HtmlBlockEnd::CData.marker_str(), "]]>");
    assert_eq!(HtmlBlockEnd::Declaration.marker_str(), ">");
}

#[test]
fn html_openers_by_tag_name() {
    assert!(scan_html_block_type_6(b"<div>", 0));
    assert!(scan_html_block_type_6(b"</div>", 0));
    assert!(scan_html_block_type_6(b"<DIV class", 0));
    assert!(scan_html_block_type_6(b"<p>", 0));
    assert!(scan_html_block_type_6(b"<address", 0));
    assert!(scan_html_block_type_6(b"<ul\n", 0));
    assert!(scan_html_block_type_6(b"<h6/>", 0));
    assert!(scan_html_block_type_6(b"<source>", 0));
    assert!(!scan_html_block_type_6(b"<path>", 0));
    assert!(!scan_html_block_type_6(b"<divx>", 0));
    assert!(!scan_html_block_type_6(b"<span>", 0));
    assert!(!scan_html_block_type_6(b"<>", 0));
    assert!(!scan_html_block_type_6(b"</", 0));
    assert!(!scan_html_block_type_6(b"div", 0));
    assert!(!scan_html_block_type_6(b"", 0));
}

#[test]
fn html_lone_tags() {
    assert!(scan_html_block_type_7(b"<a>", 0));
    assert!(scan_html_block_type_7(b"<a>  \n", 0));
    assert!(scan_html_block_type_7(b"<a href=x>", 0));
    assert!(scan_html_block_type_7(b"<a href=\"x y\" b='c' d>\n", 0));
    assert!(scan_html_block_type_7(b"<a href=\"x\" />", 0));
    assert!(scan_html_block_type_7(b"<br/>", 0));
    assert!(scan_html_block_type_7(b"</a>", 0));
    assert!(scan_html_block_type_7(b"</a  >\n", 0));
    assert!(!scan_html_block_type_7(b"<a> b", 0));
    assert!(!scan_html_block_type_7(b"</a href>", 0));
    assert!(!scan_html_block_type_7(b"</a/>", 0));
    assert!(!scan_html_block_type_7(b"<a", 0));
    assert!(!scan_html_block_type_7(b"<a href=\"x>", 0));
    assert!(!scan_html_block_type_7(b"<a href=>", 0));
    assert!(!scan_html_block_type_7(b"<>", 0));
    assert!(!scan_html_block_type_7(b"a", 0));
}

#[test]
fn attributes_with_and_without_value() {
    assert_eq!(scan_attribute(b"href=\"x\"", 0), Some(8));
    assert_eq!(scan_attribute(b"href='x y'>", 0), Some(10));
    assert_eq!(scan_attribute(b"a = b>", 0), Some(5));
    assert_eq!(scan_attribute(b"a=b c", 0), Some(3));
    assert_eq!(scan_attribute(b"disabled>", 0), Some(8));
    assert_eq!(scan_attribute(b"_a:b.c-d=1", 0), Some(10));
    assert_eq!(scan_attribute(b"a=", 0), Some(1));
    assert_eq!(scan_attribute(b"a=\"x", 0), Some(1));
    assert_eq!(scan_attribute(b"a=\"x\ny\"", 0), Some(1));
    assert_eq!(scan_attribute(b"1a", 0), None);
    assert_eq!(scan_attribute(b"-a", 0), None);
    assert_eq!(scan_attribute(b"", 0), None);
    assert_eq!(scan_attribute_value(b"\"x\" ", 0), Some(3));
    assert_eq!(scan_attribute_value(b"x<", 0), Some(1));
    assert_eq!(scan_attribute_value(b"<", 0), None);
}

#[test]
fn patterns_in_the_text() {
    assert!(starts_with(b"abc", 1, b"bc", false));
    assert!(!starts_with(b"abc", 1, b"BC", false));
    assert!(starts_with(b"aBc", 1, b"bc", true));
    assert!(!starts_with(b"abc", 2, b"cd", false));
    assert!(starts_with(b"abc", 3, b"", false));
    assert!(!starts_with(b"abc", 4, b"", false));
    assert!(contains(b"a-->b", 0, 5, b"-->"));
    assert!(!contains(b"a-->b", 0, 3, b"-->"));
    assert!(!contains(b"a-->b", 2, 5, b"-->"));
    assert!(contains(b"abc", 1, 1, b""));
}

#[test]
fn what_interrupts_a_paragraph() {
    assert!(scan_paragraph_interrupt(b"\n", 0));
    assert!(scan_paragraph_interrupt(b"", 0));
    assert!(scan_paragraph_interrupt(b"***\n", 0));
    assert!(scan_paragraph_interrupt(b"# a\n", 0));
    assert!(scan_paragraph_interrupt(b"```\n", 0));
    assert!(scan_paragraph_interrupt(b"<pre>\n", 0));
    assert!(scan_paragraph_interrupt(b"<div>\n", 0));
    assert!(scan_paragraph_interrupt(b"> a\n", 0));
    assert!(!scan_paragraph_interrupt(b"<a>\n", 0));
    assert!(!scan_paragraph_interrupt(b"abc\n", 0));
    assert!(!scan_paragraph_interrupt(b"===\n", 0));
}

#[test]
fn what_the_next_line_does_to_a_paragraph() {
    assert!(matches!(
        scan_continuation(b"a\n===\n", 2, 0),
        Continuation::Underline { level: HeadingLevel::H1, next: 6 }
    ));
    assert!(matches!(
        scan_continuation(b"a\n  ---", 2, 0),
        Continuation::Underline { level: HeadingLevel::H2, next: 7 }
    ));
    assert!(matches!(scan_continuation(b"a\n\nb", 2, 0), Continuation::Interrupt));
    assert!(matches!(scan_continuation(b"a\n", 2, 0), Continuation::Interrupt));
    assert!(matches!(scan_continuation(b"a\n***\n", 2, 0), Continuation::Interrupt));
    assert!(matches!(scan_continuation(b"a\nb\n", 2, 0), Continuation::Continue { from: 2 }));
    assert!(matches!(scan_continuation(b"a\n    # b\n", 2, 0), Continuation::Continue { from: 2 }));
    assert!(matches!(scan_continuation(b"> a\n> b\n", 4, 1), Continuation::Continue { from: 6 }));
    assert!(matches!(scan_continuation(b"> a\nb\n", 4, 1), Continuation::Continue { from: 4 }));
    assert!(matches!(scan_continuation(b"> a\n===\n", 4, 1), Continuation::Continue { from: 4 }));
    assert!(matches!(
        scan_continuation(b"> a\n> ===\n", 4, 1),
        Continuation::Underline { level: HeadingLevel::H1, next: 10 }
    ));
    assert!(matches!(scan_continuation(b"> a\n# b\n", 4, 1), Continuation::Interrupt));
    assert!(matches!(scan_continuation(b"> a\n> > b\n", 4, 1), Continuation::Interrupt));
}
