//! What ends a paragraph when it starts a line.
use crate::scanner::container::{
    block_quote_marker_len, container_markers, scan_block_quote_marker, scan_container_markers,
};
use crate::scanner::html::{
    html_block_end, is_html_block_6, scan_html_block_type_1_to_5, scan_html_block_type_6,
};
use crate::scanner::leaf::{
    atx_heading_level, opening_code_fence, scan_atx_heading, scan_opening_code_fence,
    scan_setext_heading, scan_thematic_break, setext_underline, thematic_break_len,
};
use crate::scanner::line::{
    blank_line_len, indent, lemma_line_ending_len, line_ending_len, parse_spaces, scan_blank_line,
    scan_indent, scan_line_ending,
};
use crate::text::{lemma_len_fits, lemma_run_end, run_end, ByteClass};
use crate::types::heading::HeadingLevel;
use vstd::prelude::*;

verus! {

/// Whether what starts at `index` ends a paragraph: a line ending, a
/// thematic break, an ATX heading, an opening code fence, the opener of an
/// HTML block other than a lone tag, or a block quote marker.
pub open spec fn is_paragraph_interrupt(text: Seq<u8>, index: int) -> bool {
    ||| line_ending_len(text, index).is_some()
    ||| thematic_break_len(text, index).is_some()
    ||| atx_heading_level(text, index).is_some()
    ||| opening_code_fence(text, index).is_some()
    ||| html_block_end(text, index).is_some()
    ||| is_html_block_6(text, index)
    ||| block_quote_marker_len(text, index).is_some()
}

/// Tells whether what starts at `index` ends a paragraph.
pub fn scan_paragraph_interrupt(text: &[u8], index: usize) -> (r: bool)
    ensures
        r == is_paragraph_interrupt(text@, index as int),
{
    scan_line_ending(text, index).is_some() || scan_thematic_break(text, index).is_some()
        || scan_atx_heading(text, index).is_some() || scan_opening_code_fence(
        text,
        index,
    ).is_some() || scan_html_block_type_1_to_5(text, index).is_some() || scan_html_block_type_6(
        text,
        index,
    ) || scan_block_quote_marker(text, index).is_some()
}

/// What the line after a line of a paragraph does to the paragraph. The
/// places in the text are of the type `I`.
pub enum Continuation<I> {
    /// It underlines the paragraph, which so becomes a heading.
    Underline { level: HeadingLevel, next: I },
    /// It ends the paragraph, and belongs to what follows.
    Interrupt,
    /// It is another line of the paragraph, from the given index on.
    Continue { from: I },
}

/// Whether an executable answer says the same as a specified one.
pub open spec fn same_continuation(found: Continuation<usize>, wanted: Continuation<int>) -> bool {
    match (found, wanted) {
        (
            Continuation::Underline { level, next },
            Continuation::Underline { level: wanted_level, next: wanted_next },
        ) => level == wanted_level && next == wanted_next,
        (Continuation::Interrupt, Continuation::Interrupt) => true,
        (Continuation::Continue { from }, Continuation::Continue { from: wanted_from }) => from
            == wanted_from,
        _ => false,
    }
}

/// What the line that starts at `line` does to a paragraph inside `depth`
/// block quotes. A blank line and the end of the text end it. A line
/// indented by 4 columns goes on with it. Else a setext underline makes it a
/// heading, if the line has the markers of all the block quotes; what would
/// start another block ends it; and any other line goes on with it, also
/// where markers of block quotes are missing.
pub open spec fn continuation(text: Seq<u8>, line: int, depth: nat) -> Continuation<int> {
    let markers = container_markers(text, line, depth);
    let content = markers.1;
    let start = run_end(text, ByteClass::Space, content);
    if line >= text.len() || blank_line_len(text, content).is_some() {
        Continuation::Interrupt
    } else if indent(text, content) == 4 {
        Continuation::Continue { from: content }
    } else if markers.0 == depth && setext_underline(text, start).is_some() {
        Continuation::Underline {
            level: setext_underline(text, start).unwrap().1,
            next: start + setext_underline(text, start).unwrap().0,
        }
    } else if is_paragraph_interrupt(text, start) {
        Continuation::Interrupt
    } else {
        Continuation::Continue { from: content }
    }
}

/// A setext underline ends within the text, where its line ends.
pub proof fn lemma_setext_underline(text: Seq<u8>, index: int)
    ensures
        match setext_underline(text, index) {
            Some(found) => 1 <= found.0 && index + found.0 <= text.len() && index + found.0
                == crate::scanner::line::next_line(text, index),
            None => true,
        },
{
    if setext_underline(text, index).is_some() {
        let byte = text[index];
        let end = run_end(text, ByteClass::Exactly(byte), index);
        let blank = run_end(text, ByteClass::Blank, end);
        lemma_run_end(text, ByteClass::Exactly(byte), index);
        lemma_run_end(text, ByteClass::Blank, end);
        lemma_line_ending_len(text, blank);
        crate::text::lemma_run_end_within(
            text,
            ByteClass::Exactly(byte),
            ByteClass::LineContent,
            index,
        );
        crate::text::lemma_run_end_within(text, ByteClass::Blank, ByteClass::LineContent, end);
        crate::scanner::line::lemma_line_end(text, index);
        if blank < text.len() {
            crate::text::lemma_run_end_is(text, ByteClass::LineContent, blank, blank);
        } else {
            lemma_run_end(text, ByteClass::LineContent, blank);
        }
    }
}

/// Tells what the line that starts at `line` does to a paragraph inside
/// `depth` block quotes.
pub fn scan_continuation(text: &[u8], line: usize, depth: usize) -> (r: Continuation<usize>)
    ensures
        same_continuation(r, continuation(text@, line as int, depth as nat)),
{
    if line >= text.len() {
        return Continuation::Interrupt;
    }
    let (matched, content) = scan_container_markers(text, line, depth);
    if scan_blank_line(text, content).is_some() {
        return Continuation::Interrupt;
    }
    if scan_indent(text, content) == 4 {
        return Continuation::Continue { from: content };
    }
    let start = parse_spaces(text, content);
    if matched == depth {
        proof {
            lemma_len_fits(text);
            lemma_setext_underline(text@, start as int);
        }
        match scan_setext_heading(text, start) {
            Some((length, level)) => {
                return Continuation::Underline { level, next: start + length };
            },
            None => {},
        }
    }
    if scan_paragraph_interrupt(text, start) {
        Continuation::Interrupt
    } else {
        Continuation::Continue { from: content }
    }
}

} // verus!
