//! The spans of a document: every stretch of text that the grammar marks
//! lies within the input, is not empty, and starts and ends where the
//! input may be cut.
use crate::grammar::{
    atx_heading, atx_title_end, blocks, code_lines, continues_code, document, fence_lines,
    html_lines_until_blank, html_lines_until_marker, leaf, lemma_indent_within_line,
    lemma_line_content, lemma_quote_openers, line_marks, paragraph, paragraph_lines, quote_openers,
};
use crate::marks::Mark;
use crate::scanner::container::{
    block_quote_marker_len, container_markers, lemma_block_quote_marker_len,
    lemma_container_markers,
};
use crate::scanner::html::{html_block_end, is_html_block_6, is_html_block_7, HtmlBlockEnd};
use crate::scanner::interrupt::{continuation, lemma_setext_underline, Continuation};
use crate::scanner::leaf::{
    atx_heading_level, closing_code_fence_len, lemma_atx_heading_level, lemma_opening_code_fence,
    lemma_thematic_break_len, opening_code_fence, thematic_break_len,
};
use crate::scanner::line::{
    blank_line_len, indent, indent_end, lemma_indent_end_from, lemma_line_end,
    lemma_line_ending_len, line_end, next_line,
};
use crate::text::{
    is_edge, lemma_run_end, lemma_run_end_within, lemma_run_start, run_end, run_start, ByteClass,
};
use crate::types::heading::HeadingLevel;
use crate::types::tag::TagView;
use vstd::prelude::*;

verus! {

/// Whether `index` is the start of the text, its end, or the place after an
/// ASCII byte.
pub open spec fn anchor(text: Seq<u8>, index: int) -> bool {
    0 <= index <= text.len() && (index == 0 || index == text.len() || text[index - 1] < 0x80)
}

/// Whether the bytes are a stretch of the text.
pub open spec fn is_slice(text: Seq<u8>, part: Seq<u8>) -> bool {
    exists|begin: int, end: int|
        0 <= begin <= end <= text.len() && #[trigger] text.subrange(begin, end) == part
}

/// Whether the info string of the tag, if it has one, is a stretch of the text.
pub open spec fn tag_ok(text: Seq<u8>, tag: TagView) -> bool {
    match tag {
        TagView::FencedCodeBlock(info) => is_slice(text, info),
        _ => true,
    }
}

/// Whether the stretch of text that a mark names lies within the text and
/// is not empty; whether that of a `Text` or an `Html` starts and ends at
/// an edge; and whether the info string of a tag is a stretch of the text.
pub open spec fn mark_ok(text: Seq<u8>, mark: Mark) -> bool {
    match mark {
        Mark::Text { begin, end } => 0 <= begin <= end < text.len() && is_edge(text, begin)
            && is_edge(text, end + 1),
        Mark::Html { begin, end } => 0 <= begin <= end < text.len() && is_edge(text, begin)
            && is_edge(text, end + 1),
        Mark::Begin(tag) => tag_ok(text, tag),
        Mark::End { tag, begin, end } => tag_ok(text, tag) && 0 <= begin <= end < text.len(),
        Mark::ThematicBreak { begin, end } => 0 <= begin <= end < text.len(),
    }
}

/// Whether all the marks are in order.
pub open spec fn spans_ok(text: Seq<u8>, marks: Seq<Mark>) -> bool {
    forall|k: int| 0 <= k < marks.len() ==> mark_ok(text, #[trigger] marks[k])
}

/// Marks in order, one sequence after another, are in order.
pub proof fn lemma_spans_concat(text: Seq<u8>, a: Seq<Mark>, b: Seq<Mark>)
    requires
        spans_ok(text, a),
        spans_ok(text, b),
    ensures
        spans_ok(text, a + b),
{
    assert forall|k: int| 0 <= k < (a + b).len() implies mark_ok(text, #[trigger] (a + b)[k]) by {
        if k < a.len() {
            assert((a + b)[k] == a[k]);
        } else {
            assert((a + b)[k] == b[k - a.len()]);
        }
    }
}

/// A run of ASCII bytes that starts at an anchor ends at one.
pub proof fn lemma_run_anchor(text: Seq<u8>, class: ByteClass, index: int)
    requires
        anchor(text, index),
        forall|byte: u8| class.holds(byte) ==> byte < 0x80,
    ensures
        anchor(text, run_end(text, class, index)),
{
    lemma_run_end(text, class, index);
    let end = run_end(text, class, index);
    if index < end {
        assert(class.holds(text[end - 1]));
    }
}

/// The start of a line is an anchor, and so is the end of its content an edge.
pub proof fn lemma_next_line_anchor(text: Seq<u8>, index: int)
    requires
        0 <= index <= text.len(),
    ensures
        anchor(text, next_line(text, index)),
        is_edge(text, line_end(text, index)),
        index <= line_end(text, index) <= next_line(text, index) <= text.len(),
{
    lemma_line_end(text, index);
    lemma_run_end(text, ByteClass::LineContent, index);
    lemma_line_ending_len(text, line_end(text, index));
}

/// After the markers of block quotes comes an anchor.
pub proof fn lemma_markers_anchor(text: Seq<u8>, index: int, depth: nat)
    requires
        anchor(text, index),
    ensures
        anchor(text, container_markers(text, index, depth).1),
    decreases depth,
{
    if depth > 0 {
        lemma_block_quote_marker_len(text, index);
        match block_quote_marker_len(text, index) {
            Some(length) => {
                lemma_markers_anchor(text, index + length, (depth - 1) as nat);
            },
            None => {},
        }
    }
}

/// After the markers of the block quotes that open comes an anchor.
pub proof fn lemma_openers_anchor(text: Seq<u8>, index: int)
    requires
        anchor(text, index),
    ensures
        anchor(text, quote_openers(text, index).1),
    decreases text.len() - index,
{
    lemma_block_quote_marker_len(text, index);
    match block_quote_marker_len(text, index) {
        Some(length) => {
            lemma_openers_anchor(text, index + length);
        },
        None => {},
    }
}

/// After an indent comes an anchor.
pub proof fn lemma_indent_anchor(text: Seq<u8>, index: int, limit: int)
    requires
        anchor(text, index),
    ensures
        anchor(text, indent_end(text, index, limit)),
{
    lemma_indent_end_from(text, index, 0, limit);
    lemma_run_end(text, ByteClass::SpaceOrTab, index);
    let end = indent_end(text, index, limit);
    if index < end {
        assert(ByteClass::SpaceOrTab.holds(text[end - 1]));
    }
}

/// A line taken as text from an anchor on is in order.
pub proof fn lemma_line_marks_spans(text: Seq<u8>, index: int)
    requires
        anchor(text, index),
    ensures
        spans_ok(text, line_marks(text, index)),
{
    lemma_next_line_anchor(text, index);
    lemma_line_end(text, index);
}

/// A blank line ends where its line ends.
pub proof fn lemma_blank_line_len(text: Seq<u8>, index: int)
    requires
        0 <= index <= text.len(),
    ensures
        match blank_line_len(text, index) {
            Some(length) => index + length == next_line(text, index),
            None => true,
        },
{
    let end = run_end(text, ByteClass::Blank, index);
    lemma_run_end(text, ByteClass::Blank, index);
    lemma_run_end_within(text, ByteClass::Blank, ByteClass::LineContent, index);
    lemma_line_ending_len(text, end);
    lemma_run_end(text, ByteClass::LineContent, end);
}

/// The spans of an ATX heading are in order.
pub proof fn lemma_atx_spans(text: Seq<u8>, index: int, level: HeadingLevel)
    requires
        atx_heading_level(text, index) == Some(level),
        run_end(text, ByteClass::Space, index) == index,
        0 <= index,
    ensures
        spans_ok(text, atx_heading(text, index, level).marks),
        anchor(text, atx_heading(text, index, level).next),
        index < atx_heading(text, index, level).next,
{
    lemma_atx_heading_level(text, index);
    let after = index + level.number();
    let begin = run_end(text, ByteClass::Blank, after);
    lemma_run_end(text, ByteClass::Exactly(0x23), index);
    assert(ByteClass::Exactly(0x23).holds(text[after - 1]));
    assert(anchor(text, after));
    lemma_run_anchor(text, ByteClass::Blank, after);
    lemma_run_end(text, ByteClass::Blank, after);
    lemma_next_line_anchor(text, begin);
    let end = line_end(text, begin);
    let content = run_start(text, ByteClass::SpaceOrTab, begin, end);
    let before_closing = run_start(text, ByteClass::Exactly(0x23), begin, content);
    let trimmed = run_start(text, ByteClass::SpaceOrTab, begin, before_closing);
    lemma_run_start(text, ByteClass::SpaceOrTab, begin, end);
    lemma_run_start(text, ByteClass::Exactly(0x23), begin, content);
    lemma_run_start(text, ByteClass::SpaceOrTab, begin, before_closing);
    let title = atx_title_end(text, begin, end);
    if begin < title {
        if title == trimmed && trimmed != before_closing {
            assert(ByteClass::SpaceOrTab.holds(text[trimmed]));
        } else if content < end {
            assert(ByteClass::SpaceOrTab.holds(text[content]));
        }
        assert(is_edge(text, title));
    }
}

/// The spans of the lines of a paragraph are in order.
pub proof fn lemma_paragraph_lines_spans(text: Seq<u8>, index: int, depth: nat)
    requires
        anchor(text, index),
        blank_line_len(text, index).is_none(),
    ensures
        spans_ok(text, paragraph_lines(text, index, depth).marks),
        tag_ok(text, paragraph_lines(text, index, depth).tag),
        anchor(text, paragraph_lines(text, index, depth).next),
        index < paragraph_lines(text, index, depth).next,
    decreases text.len() - index,
{
    let begin = run_end(text, ByteClass::SpaceOrTab, index);
    let end = line_end(text, begin);
    let line = next_line(text, begin);
    lemma_line_content(text, index);
    lemma_run_anchor(text, ByteClass::SpaceOrTab, index);
    lemma_next_line_anchor(text, begin);
    lemma_run_start(text, ByteClass::Blank, begin, end);
    lemma_markers_anchor(text, line, depth);
    lemma_container_markers(text, line, depth);
    let content = container_markers(text, line, depth).1;
    let start = run_end(text, ByteClass::Space, content);
    lemma_run_end(text, ByteClass::Space, content);
    lemma_setext_underline(text, start);
    lemma_next_line_anchor(text, start);
    let cut = run_start(text, ByteClass::Blank, begin, end);
    if cut < end {
        assert(ByteClass::Blank.holds(text[cut]));
    }
    assert(is_edge(text, cut));
    match continuation(text, line, depth) {
        Continuation::Continue { from } => {
            if index < from <= text.len() {
                lemma_paragraph_lines_spans(text, from, depth);
                lemma_spans_concat(
                    text,
                    seq![Mark::Text { begin, end: line - 1 }],
                    paragraph_lines(text, from, depth).marks,
                );
            }
        },
        _ => {},
    }
}

/// The spans of the lines of an indented code block are in order.
pub proof fn lemma_code_lines_spans(text: Seq<u8>, index: int, depth: nat)
    requires
        anchor(text, index),
    ensures
        spans_ok(text, code_lines(text, index, depth).marks),
        0 <= code_lines(text, index, depth).kept <= code_lines(text, index, depth).marks.len(),
        anchor(text, code_lines(text, index, depth).next),
        index <= code_lines(text, index, depth).next,
        index < text.len() ==> index < code_lines(text, index, depth).next,
    decreases text.len() - index,
{
    let begin = indent_end(text, index, 4);
    let line = next_line(text, begin);
    lemma_indent_anchor(text, index, 4);
    lemma_indent_within_line(text, index, 4);
    lemma_line_marks_spans(text, begin);
    lemma_next_line_anchor(text, begin);
    lemma_line_end(text, index);
    lemma_markers_anchor(text, line, depth);
    let from = container_markers(text, line, depth).1;
    if continues_code(text, line, depth) && index < from <= text.len() {
        lemma_code_lines_spans(text, from, depth);
        lemma_spans_concat(text, line_marks(text, begin), code_lines(text, from, depth).marks);
    }
}

/// The spans of the lines of a fenced code block are in order.
pub proof fn lemma_fence_lines_spans(
    text: Seq<u8>,
    line: int,
    width: int,
    count: int,
    byte: u8,
    depth: nat,
)
    requires
        anchor(text, line),
    ensures
        spans_ok(text, fence_lines(text, line, width, count, byte, depth).marks),
        anchor(text, fence_lines(text, line, width, count, byte, depth).next),
        line <= fence_lines(text, line, width, count, byte, depth).next,
    decreases text.len() - line,
{
    let content = container_markers(text, line, depth).1;
    lemma_markers_anchor(text, line, depth);
    lemma_container_markers(text, line, depth);
    let fence = run_end(text, ByteClass::Space, content);
    lemma_run_end(text, ByteClass::Space, content);
    let begin = indent_end(text, content, width);
    lemma_indent_anchor(text, content, width);
    lemma_indent_within_line(text, content, width);
    let after = next_line(text, begin);
    lemma_next_line_anchor(text, begin);
    lemma_line_marks_spans(text, begin);
    let run = run_end(text, ByteClass::Exactly(byte), fence);
    lemma_run_end(text, ByteClass::Exactly(byte), fence);
    lemma_line_ending_len(text, run);
    if line >= text.len() || container_markers(text, line, depth).0 < depth {
    } else if fence - content < 4 && closing_code_fence_len(text, fence, byte, count).is_some() {
    } else if line < after <= text.len() {
        lemma_fence_lines_spans(text, after, width, count, byte, depth);
        lemma_spans_concat(
            text,
            line_marks(text, begin),
            fence_lines(text, after, width, count, byte, depth).marks,
        );
    }
}

/// The spans of the lines of an HTML block that ends with a marker are in order.
pub proof fn lemma_html_until_marker_spans(
    text: Seq<u8>,
    index: int,
    end: HtmlBlockEnd,
    depth: nat,
)
    requires
        anchor(text, index),
        index < text.len(),
    ensures
        spans_ok(text, html_lines_until_marker(text, index, end, depth).marks),
        anchor(text, html_lines_until_marker(text, index, end, depth).next),
        index < html_lines_until_marker(text, index, end, depth).next,
    decreases text.len() - index,
{
    let line = next_line(text, index);
    lemma_next_line_anchor(text, index);
    lemma_line_end(text, index);
    lemma_markers_anchor(text, line, depth);
    let markers = container_markers(text, line, depth);
    if crate::scanner::html::occurs_within(text, index, line, end.marker()) || line >= text.len()
        || markers.0 < depth || !(index < markers.1 < text.len()) {
    } else {
        lemma_html_until_marker_spans(text, markers.1, end, depth);
        lemma_spans_concat(
            text,
            seq![Mark::Html { begin: index, end: line - 1 }],
            html_lines_until_marker(text, markers.1, end, depth).marks,
        );
    }
}

/// The spans of the lines of an HTML block that ends before a blank line are in order.
pub proof fn lemma_html_until_blank_spans(text: Seq<u8>, index: int, depth: nat)
    requires
        anchor(text, index),
        index < text.len(),
    ensures
        spans_ok(text, html_lines_until_blank(text, index, depth).marks),
        anchor(text, html_lines_until_blank(text, index, depth).next),
        index < html_lines_until_blank(text, index, depth).next,
    decreases text.len() - index,
{
    let line = next_line(text, index);
    lemma_next_line_anchor(text, index);
    lemma_line_end(text, index);
    lemma_markers_anchor(text, line, depth);
    let markers = container_markers(text, line, depth);
    if line >= text.len() || markers.0 < depth || blank_line_len(text, markers.1).is_some() || !(
    index < markers.1 < text.len()) {
    } else {
        lemma_html_until_blank_spans(text, markers.1, depth);
        lemma_spans_concat(
            text,
            seq![Mark::Html { begin: index, end: line - 1 }],
            html_lines_until_blank(text, markers.1, depth).marks,
        );
    }
}

/// The spans of a block are in order, and the block ends at an anchor
/// after its start.
pub proof fn lemma_leaf_spans(text: Seq<u8>, index: int, depth: nat)
    requires
        anchor(text, index),
    ensures
        spans_ok(text, leaf(text, index, depth).marks),
        anchor(text, leaf(text, index, depth).next),
        index <= leaf(text, index, depth).next,
        index < text.len() ==> index < leaf(text, index, depth).next,
{
    let start = run_end(text, ByteClass::Space, index);
    lemma_run_anchor(text, ByteClass::Space, index);
    lemma_run_end(text, ByteClass::Space, index);
    lemma_blank_line_len(text, index);
    lemma_next_line_anchor(text, index);
    lemma_line_end(text, index);
    if blank_line_len(text, index).is_some() {
    } else if indent(text, index) == 4 {
        lemma_code_lines_spans(text, index, depth);
        let lines = code_lines(text, index, depth);
        assert(spans_ok(text, lines.marks.take(lines.kept))) by {
            assert forall|k: int| 0 <= k < lines.marks.take(lines.kept).len() implies mark_ok(
                text,
                #[trigger] lines.marks.take(lines.kept)[k],
            ) by {
                assert(lines.marks.take(lines.kept)[k] == lines.marks[k]);
            }
        }
        lemma_line_content(text, index);
    } else {
        lemma_line_content(text, index);
        crate::text::lemma_run_end_from_inside(text, ByteClass::Space, index, start);
        lemma_next_line_anchor(text, start);
        if thematic_break_len(text, start).is_some() {
            lemma_thematic_break_len(text, start);
        } else if atx_heading_level(text, start).is_some() {
            lemma_atx_spans(text, start, atx_heading_level(text, start).unwrap());
        } else if opening_code_fence(text, start).is_some() {
            let found = opening_code_fence(text, start).unwrap();
            lemma_opening_code_fence(text, start);
            let from = crate::grammar::info_begin(text, start, found.0);
            let to = crate::grammar::info_end(text, start, found.0);
            lemma_run_end(text, ByteClass::Blank, start + found.0);
            lemma_next_line_anchor(text, from);
            lemma_run_start(text, ByteClass::Blank, from, line_end(text, from));
            assert(is_slice(text, text.subrange(from, to)));
            lemma_fence_lines_spans(
                text,
                next_line(text, start),
                start - index,
                found.0,
                found.1,
                depth,
            );
            lemma_line_end(text, start);
        } else if html_block_end(text, start).is_some() {
            lemma_html_until_marker_spans(
                text,
                index,
                html_block_end(text, start).unwrap(),
                depth,
            );
        } else if is_html_block_6(text, start) || is_html_block_7(text, start) {
            lemma_html_until_blank_spans(text, index, depth);
        } else {
            lemma_paragraph_lines_spans(text, start, depth);
        }
    }
}

/// The block quotes that close leave marks in order, if they start before they end.
pub proof fn lemma_ends_spans(text: Seq<u8>, open: Seq<int>, keep: int, end: int)
    requires
        end < text.len(),
        forall|j: int| 0 <= j < open.len() ==> 0 <= #[trigger] open[j] <= end,
    ensures
        spans_ok(text, crate::grammar::ends(open, keep, end)),
    decreases open.len(),
{
    if !(open.len() == 0 || keep >= open.len()) {
        assert(0 <= open[open.len() - 1] <= end);
        assert forall|j: int| 0 <= j < open.drop_last().len() implies 0
            <= #[trigger] open.drop_last()[j] <= end by {
            assert(open.drop_last()[j] == open[j]);
        }
        lemma_ends_spans(text, open.drop_last(), keep, end);
        lemma_spans_concat(
            text,
            seq![Mark::End { tag: TagView::BlockQuote, begin: open.last(), end }],
            crate::grammar::ends(open.drop_last(), keep, end),
        );
    }
}

/// The spans of the blocks from an anchor on are in order.
pub proof fn lemma_blocks_spans(text: Seq<u8>, index: int, open: Seq<int>)
    requires
        anchor(text, index),
        forall|j: int| 0 <= j < open.len() ==> 0 <= #[trigger] open[j] < index,
    ensures
        spans_ok(text, blocks(text, index, open)),
    decreases text.len() - index,
{
    if index < text.len() {
        let markers = container_markers(text, index, open.len());
        lemma_markers_anchor(text, index, open.len());
        lemma_container_markers(text, index, open.len());
        let openers = quote_openers(text, markers.1);
        lemma_openers_anchor(text, markers.1);
        lemma_quote_openers(text, markers.1);
        let inside = open.take(markers.0) + openers.0;
        let step = leaf(text, openers.1, inside.len());
        lemma_leaf_spans(text, openers.1, inside.len());
        lemma_ends_spans(text, open, markers.0, index - 1);
        let head = crate::grammar::ends(open, markers.0, index - 1) + crate::grammar::begins(
            openers.0.len() as int,
        );
        lemma_spans_concat(text, head, step.marks);
        assert forall|j: int| 0 <= j < inside.len() implies 0 <= #[trigger] inside[j]
            < step.next by {
            if j < markers.0 {
                assert(inside[j] == open[j]);
            } else {
                assert(inside[j] == openers.0[j - markers.0]);
            }
        }
        if index < step.next <= text.len() {
            lemma_blocks_spans(text, step.next, inside);
            lemma_spans_concat(text, head + step.marks, blocks(text, step.next, inside));
        } else {
            lemma_ends_spans(text, inside, 0, text.len() - 1);
            lemma_spans_concat(
                text,
                head + step.marks,
                crate::grammar::ends(inside, 0, text.len() - 1),
            );
        }
    } else {
        lemma_ends_spans(text, open, 0, index - 1);
    }
}

/// Every stretch of text that a document marks lies within the text, is
/// not empty, and starts and ends at an edge where it is taken out of the text.
pub proof fn lemma_document_spans(text: Seq<u8>)
    ensures
        spans_ok(text, document(text)),
{
    lemma_blocks_spans(text, 0, Seq::empty());
}

/// The bytes of the stretches of text that the marks name, one after another.
pub open spec fn text_of(text: Seq<u8>, marks: Seq<Mark>) -> Seq<u8>
    decreases marks.len(),
{
    if marks.len() == 0 {
        Seq::empty()
    } else {
        (match marks[0] {
            Mark::Text { begin, end } => text.subrange(begin, end + 1),
            _ => Seq::empty(),
        }) + text_of(text, marks.skip(1))
    }
}

/// Whether each line of the paragraph after the one whose content starts
/// at `index` has its text from its very start: no marker of a block quote,
/// no space and no tab stands before it.
pub open spec fn lines_flush(text: Seq<u8>, index: int, depth: nat) -> bool
    decreases text.len() - index,
{
    let line = next_line(text, run_end(text, ByteClass::SpaceOrTab, index));
    match continuation(text, line, depth) {
        Continuation::Continue { from } => index < from <= text.len() && run_end(
            text,
            ByteClass::SpaceOrTab,
            from,
        ) == line && lines_flush(text, from, depth),
        _ => true,
    }
}

/// Where the text of the last line of the paragraph ends, when the next of
/// its lines has its content from `index` on.
pub open spec fn lines_end(text: Seq<u8>, index: int, depth: nat) -> int
    decreases text.len() - index,
{
    let begin = run_end(text, ByteClass::SpaceOrTab, index);
    let line = next_line(text, begin);
    match continuation(text, line, depth) {
        Continuation::Underline { level, next } => run_start(
            text,
            ByteClass::Blank,
            begin,
            line_end(text, begin),
        ),
        Continuation::Interrupt => line_end(text, begin),
        Continuation::Continue { from } => if index < from <= text.len() {
            lines_end(text, from, depth)
        } else {
            line_end(text, begin)
        },
    }
}

/// Where no line of a paragraph after the first starts with a marker of a
/// block quote, a space or a tab, the text of its lines, joined, is the
/// input from the first byte of the paragraph to the last byte of its last
/// line: all its lines with their line endings, but for the line ending of
/// the last, and before an underline its white space.
pub proof fn lemma_paragraph_text(text: Seq<u8>, index: int, depth: nat)
    requires
        anchor(text, index),
        blank_line_len(text, index).is_none(),
        lines_flush(text, index, depth),
    ensures
        run_end(text, ByteClass::SpaceOrTab, index) < lines_end(text, index, depth) <= text.len(),
        text_of(text, paragraph_lines(text, index, depth).marks) == text.subrange(
            run_end(text, ByteClass::SpaceOrTab, index),
            lines_end(text, index, depth),
        ),
    decreases text.len() - index,
{
    let begin = run_end(text, ByteClass::SpaceOrTab, index);
    let end = line_end(text, begin);
    let line = next_line(text, begin);
    lemma_line_content(text, index);
    lemma_next_line_anchor(text, begin);
    lemma_run_start(text, ByteClass::Blank, begin, end);
    lemma_markers_anchor(text, line, depth);
    let marks = paragraph_lines(text, index, depth).marks;
    assert(text_of(text, Seq::<Mark>::empty()) =~= Seq::<u8>::empty());
    match continuation(text, line, depth) {
        Continuation::Continue { from } => {
            lemma_paragraph_text(text, from, depth);
            let rest = paragraph_lines(text, from, depth).marks;
            assert(marks.skip(1) =~= rest);
            assert(text.subrange(begin, line) + text.subrange(line, lines_end(text, from, depth))
                =~= text.subrange(begin, lines_end(text, index, depth)));
        },
        _ => {
            assert(marks.skip(1) =~= Seq::<Mark>::empty());
            assert(text_of(text, marks) =~= text.subrange(
                begin,
                lines_end(text, index, depth),
            ));
        },
    }
}

} // verus!
