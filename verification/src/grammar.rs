//! The grammar of blocks: which marks a text leaves, line by line. This is
//! the meaning of a document; the parser is proved to build a tree whose
//! walk leaves exactly these marks.
use crate::marks::Mark;
use crate::scanner::container::{block_quote_marker_len, container_markers};
use crate::scanner::html::{
    html_block_end, is_html_block_6, is_html_block_7, occurs_within, HtmlBlockEnd,
};
use crate::scanner::interrupt::{continuation, Continuation};
use crate::scanner::leaf::{
    atx_heading_level, closing_code_fence_len, opening_code_fence, thematic_break_len,
};
use crate::scanner::line::{
    blank_line_len, indent, indent_end, lemma_indent_end_from, lemma_line_end,
    lemma_line_end_from_inside, lemma_line_ending_len, line_end, next_line,
};
use crate::text::{
    lemma_run_end, lemma_run_end_within, lemma_run_start_after, run_end, run_start, ByteClass,
};
use crate::types::heading::HeadingLevel;
use crate::types::tag::TagView;
use vstd::prelude::*;

verus! {

/// The marks of a stretch of the text, and the index at which the next
/// stretch starts.
pub struct Step {
    pub marks: Seq<Mark>,
    pub next: int,
}

/// The lines of a paragraph, what it turned out to be, and where it ends.
pub struct Lines {
    pub marks: Seq<Mark>,
    pub tag: TagView,
    pub next: int,
}

/// The lines of an indented code block, how many of them are kept when the
/// blank lines at its end are dropped, and where it ends.
pub struct CodeLines {
    pub marks: Seq<Mark>,
    pub kept: int,
    pub next: int,
}

/// The `End` marks of the block quotes that close when of those that
/// start with the bytes `open` only the first `keep` stay open; they end
/// with the byte `end`, and the innermost closes first.
pub open spec fn ends(open: Seq<int>, keep: int, end: int) -> Seq<Mark>
    decreases open.len(),
{
    if open.len() == 0 || keep >= open.len() {
        Seq::empty()
    } else {
        seq![Mark::End { tag: TagView::BlockQuote, begin: open.last(), end }] + ends(
            open.drop_last(),
            keep,
            end,
        )
    }
}

/// The `Begin` marks of `count` block quotes.
pub open spec fn begins(count: int) -> Seq<Mark> {
    Seq::new(
        if count > 0 {
            count as nat
        } else {
            0
        },
        |k: int| Mark::Begin(TagView::BlockQuote),
    )
}

/// Where the block quotes start that open from `index` on, one marker
/// after the other, and the index after the last marker.
pub open spec fn quote_openers(text: Seq<u8>, index: int) -> (Seq<int>, int)
    decreases text.len() - index,
{
    match block_quote_marker_len(text, index) {
        Some(length) => if length > 0 && index + length <= text.len() {
            let rest = quote_openers(text, index + length);
            (seq![index] + rest.0, rest.1)
        } else {
            (Seq::empty(), index)
        },
        None => (Seq::empty(), index),
    }
}

/// The marks of one line taken as text from `index` to the start of the
/// next line, line ending included; none at the end of the text.
pub open spec fn line_marks(text: Seq<u8>, index: int) -> Seq<Mark> {
    if index < text.len() {
        seq![Mark::Text { begin: index, end: next_line(text, index) - 1 }]
    } else {
        Seq::empty()
    }
}

/// Where the title of an ATX heading ends, when it starts at `begin` and
/// its line ends at `end`: white space at the end goes, then a run of `#`
/// if white space stands before it or the title holds nothing else, then
/// the white space before that run.
pub open spec fn atx_title_end(text: Seq<u8>, begin: int, end: int) -> int {
    let content = run_start(text, ByteClass::SpaceOrTab, begin, end);
    let before_closing = run_start(text, ByteClass::Exactly(0x23), begin, content);
    let trimmed = run_start(text, ByteClass::SpaceOrTab, begin, before_closing);
    if before_closing <= begin {
        begin
    } else if trimmed != before_closing {
        trimmed
    } else {
        content
    }
}

/// The ATX heading that starts at `index` with its first `#`.
pub open spec fn atx_heading(text: Seq<u8>, index: int, level: HeadingLevel) -> Step {
    let begin = run_end(text, ByteClass::Blank, index + level.number());
    let end = atx_title_end(text, begin, line_end(text, begin));
    let tag = TagView::Heading(level);
    Step {
        marks: seq![Mark::Begin(tag)] + (if begin < end {
            seq![Mark::Text { begin, end: end - 1 }]
        } else {
            Seq::empty()
        }) + seq![Mark::End { tag, begin: index, end: next_line(text, begin) - 1 }],
        next: next_line(text, begin),
    }
}

/// The lines of the paragraph whose next line has its content from `index`
/// on. Each line is text from its first byte that is no space or tab to its
/// end, line ending included; the last line loses its line ending, and
/// before an underline its white space too.
pub open spec fn paragraph_lines(text: Seq<u8>, index: int, depth: nat) -> Lines
    decreases text.len() - index,
{
    let begin = run_end(text, ByteClass::SpaceOrTab, index);
    let end = line_end(text, begin);
    let line = next_line(text, begin);
    match continuation(text, line, depth) {
        Continuation::Underline { level, next } => Lines {
            marks: seq![
                Mark::Text { begin, end: run_start(text, ByteClass::Blank, begin, end) - 1 },
            ],
            tag: TagView::Heading(level),
            next,
        },
        Continuation::Interrupt => Lines {
            marks: seq![Mark::Text { begin, end: end - 1 }],
            tag: TagView::Paragraph,
            next: line,
        },
        Continuation::Continue { from } => if index < from <= text.len() {
            let rest = paragraph_lines(text, from, depth);
            Lines {
                marks: seq![Mark::Text { begin, end: line - 1 }] + rest.marks,
                tag: rest.tag,
                next: rest.next,
            }
        } else {
            Lines {
                marks: seq![Mark::Text { begin, end: end - 1 }],
                tag: TagView::Paragraph,
                next: line,
            }
        },
    }
}

/// The paragraph or setext heading that starts at `index`.
pub open spec fn paragraph(text: Seq<u8>, index: int, depth: nat) -> Step {
    let lines = paragraph_lines(text, index, depth);
    Step {
        marks: seq![Mark::Begin(lines.tag)] + lines.marks + seq![
            Mark::End { tag: lines.tag, begin: index, end: lines.next - 1 },
        ],
        next: lines.next,
    }
}

/// Whether the line that starts at `line` goes on with an indented code
/// block inside `depth` block quotes: it has the markers of all of them,
/// and is indented by 4 columns or blank.
pub open spec fn continues_code(text: Seq<u8>, line: int, depth: nat) -> bool {
    let markers = container_markers(text, line, depth);
    &&& line < text.len()
    &&& markers.0 == depth
    &&& (indent(text, markers.1) == 4 || blank_line_len(text, markers.1).is_some())
}

/// The lines of the indented code block whose next line has its content
/// from `index` on. Each line is text from after its first 4 columns of
/// indent to its end, line ending included.
pub open spec fn code_lines(text: Seq<u8>, index: int, depth: nat) -> CodeLines
    decreases text.len() - index,
{
    let begin = indent_end(text, index, 4);
    let line = next_line(text, begin);
    let marks = line_marks(text, begin);
    let own = if blank_line_len(text, index).is_some() {
        0
    } else {
        marks.len() as int
    };
    let from = container_markers(text, line, depth).1;
    if continues_code(text, line, depth) && index < from <= text.len() {
        let rest = code_lines(text, from, depth);
        CodeLines {
            marks: marks + rest.marks,
            kept: if rest.kept > 0 {
                marks.len() + rest.kept
            } else {
                own
            },
            next: rest.next,
        }
    } else {
        CodeLines { marks, kept: own, next: line }
    }
}

/// The indented code block that starts at `index`.
pub open spec fn indented_code(text: Seq<u8>, index: int, depth: nat) -> Step {
    let lines = code_lines(text, index, depth);
    Step {
        marks: seq![Mark::Begin(TagView::IndentedCodeBlock)] + lines.marks.take(lines.kept) + seq![
            Mark::End { tag: TagView::IndentedCodeBlock, begin: index, end: lines.next - 1 },
        ],
        next: lines.next,
    }
}

/// Where the info string of a code fence starts, when the fence is `count` bytes long.
pub open spec fn info_begin(text: Seq<u8>, index: int, count: int) -> int {
    run_end(text, ByteClass::Blank, index + count)
}

/// Where the info string of a code fence ends.
pub open spec fn info_end(text: Seq<u8>, index: int, count: int) -> int {
    let begin = info_begin(text, index, count);
    run_start(text, ByteClass::Blank, begin, line_end(text, begin))
}

/// The lines of a fenced code block from the line that starts at `line`
/// on. The block ends at the end of the text, before a line that lacks a
/// marker of the `depth` block quotes, and with a closing fence indented by
/// at most 3 spaces. Any other line is text from after at most `width`
/// columns of indent to its end, line ending included.
pub open spec fn fence_lines(
    text: Seq<u8>,
    line: int,
    width: int,
    count: int,
    byte: u8,
    depth: nat,
) -> Step
    decreases text.len() - line,
{
    let markers = container_markers(text, line, depth);
    let content = markers.1;
    let fence = run_end(text, ByteClass::Space, content);
    let begin = indent_end(text, content, width);
    let after = next_line(text, begin);
    if line >= text.len() || markers.0 < depth {
        Step { marks: Seq::empty(), next: line }
    } else if fence - content < 4 && closing_code_fence_len(text, fence, byte, count).is_some() {
        Step {
            marks: Seq::empty(),
            next: fence + closing_code_fence_len(text, fence, byte, count).unwrap(),
        }
    } else if line < after <= text.len() {
        let rest = fence_lines(text, after, width, count, byte, depth);
        Step { marks: line_marks(text, begin) + rest.marks, next: rest.next }
    } else {
        Step { marks: line_marks(text, begin), next: after }
    }
}

/// The fenced code block whose fence of `count` times `byte` opens at
/// `index`, on a line whose content starts at `content`.
pub open spec fn fenced_code(
    text: Seq<u8>,
    content: int,
    index: int,
    count: int,
    byte: u8,
    depth: nat,
) -> Step {
    let tag = TagView::FencedCodeBlock(
        text.subrange(info_begin(text, index, count), info_end(text, index, count)),
    );
    let lines = fence_lines(text, next_line(text, index), index - content, count, byte, depth);
    Step {
        marks: seq![Mark::Begin(tag)] + lines.marks + seq![
            Mark::End { tag, begin: index, end: lines.next - 1 },
        ],
        next: lines.next,
    }
}

/// The lines of an HTML block from the line whose content starts at
/// `index` on, each with its line ending, up to and including the line that
/// holds the closing marker. The block also ends at the end of the text and
/// before a line that lacks a marker of the `depth` block quotes.
pub open spec fn html_lines_until_marker(
    text: Seq<u8>,
    index: int,
    end: HtmlBlockEnd,
    depth: nat,
) -> Step
    decreases text.len() - index,
{
    let line = next_line(text, index);
    let marks = seq![Mark::Html { begin: index, end: line - 1 }];
    let markers = container_markers(text, line, depth);
    if occurs_within(text, index, line, end.marker()) || line >= text.len() || markers.0 < depth
        || !(index < markers.1 < text.len()) {
        Step { marks, next: line }
    } else {
        let rest = html_lines_until_marker(text, markers.1, end, depth);
        Step { marks: marks + rest.marks, next: rest.next }
    }
}

/// The lines of an HTML block from the line whose content starts at
/// `index` on, each with its line ending, up to a blank line, which is not
/// part of it. The block also ends at the end of the text and before a line
/// that lacks a marker of the `depth` block quotes.
pub open spec fn html_lines_until_blank(text: Seq<u8>, index: int, depth: nat) -> Step
    decreases text.len() - index,
{
    let line = next_line(text, index);
    let marks = seq![Mark::Html { begin: index, end: line - 1 }];
    let markers = container_markers(text, line, depth);
    if line >= text.len() || markers.0 < depth || blank_line_len(text, markers.1).is_some() || !(
    index < markers.1 < text.len()) {
        Step { marks, next: line }
    } else {
        let rest = html_lines_until_blank(text, markers.1, depth);
        Step { marks: marks + rest.marks, next: rest.next }
    }
}

/// The block that starts on the line whose content starts at `index`,
/// inside `depth` block quotes. A blank line leaves no mark. A line indented
/// by 4 columns starts an indented code block. Else, after its spaces, the
/// first of these that fits decides: a thematic break, an ATX heading, a
/// fenced code block, an HTML block; and what is none of them starts a
/// paragraph.
pub open spec fn leaf(text: Seq<u8>, index: int, depth: nat) -> Step {
    let start = run_end(text, ByteClass::Space, index);
    if blank_line_len(text, index).is_some() {
        Step { marks: Seq::empty(), next: index + blank_line_len(text, index).unwrap() }
    } else if indent(text, index) == 4 {
        indented_code(text, index, depth)
    } else if thematic_break_len(text, start).is_some() {
        Step {
            marks: seq![
                Mark::ThematicBreak {
                    begin: start,
                    end: start + thematic_break_len(text, start).unwrap() - 1,
                },
            ],
            next: start + thematic_break_len(text, start).unwrap(),
        }
    } else if atx_heading_level(text, start).is_some() {
        atx_heading(text, start, atx_heading_level(text, start).unwrap())
    } else if opening_code_fence(text, start).is_some() {
        fenced_code(
            text,
            index,
            start,
            opening_code_fence(text, start).unwrap().0,
            opening_code_fence(text, start).unwrap().1,
            depth,
        )
    } else if html_block_end(text, start).is_some() {
        html_lines_until_marker(text, index, html_block_end(text, start).unwrap(), depth)
    } else if is_html_block_6(text, start) || is_html_block_7(text, start) {
        html_lines_until_blank(text, index, depth)
    } else {
        paragraph(text, start, depth)
    }
}

/// The marks of the text from the line that starts at `index` on, inside
/// the open block quotes that start with the bytes `open`. A line first
/// closes the block quotes whose marker it lacks, then opens one for each
/// further marker, and then starts a block. At the end of the text all open
/// block quotes close. A block quote ends with the last byte before the
/// line that closes it.
pub open spec fn blocks(text: Seq<u8>, index: int, open: Seq<int>) -> Seq<Mark>
    decreases text.len() - index,
{
    if index < 0 || index >= text.len() {
        ends(open, 0, index - 1)
    } else {
        let markers = container_markers(text, index, open.len());
        let openers = quote_openers(text, markers.1);
        let inside = open.take(markers.0) + openers.0;
        let step = leaf(text, openers.1, inside.len());
        if index < step.next <= text.len() {
            ends(open, markers.0, index - 1) + begins(openers.0.len() as int) + step.marks
                + blocks(text, step.next, inside)
        } else {
            ends(open, markers.0, index - 1) + begins(openers.0.len() as int) + step.marks + ends(
                inside,
                0,
                text.len() - 1,
            )
        }
    }
}

/// The marks of a whole text.
pub open spec fn document(text: Seq<u8>) -> Seq<Mark> {
    blocks(text, 0, Seq::empty())
}

/// A line that is not blank has content: after its spaces and tabs stands
/// a byte before the line's end, and the line, cut back over white space
/// from its end, still holds that byte.
pub proof fn lemma_line_content(text: Seq<u8>, index: int)
    requires
        0 <= index,
        blank_line_len(text, index).is_none(),
    ensures
        index <= run_end(text, ByteClass::SpaceOrTab, index) < line_end(text, index) <= text.len(),
        line_end(text, run_end(text, ByteClass::SpaceOrTab, index)) == line_end(text, index),
        next_line(text, run_end(text, ByteClass::SpaceOrTab, index)) == next_line(text, index),
        run_end(text, ByteClass::SpaceOrTab, index) < run_start(
            text,
            ByteClass::Blank,
            run_end(text, ByteClass::SpaceOrTab, index),
            line_end(text, index),
        ),
        blank_line_len(text, run_end(text, ByteClass::SpaceOrTab, index)).is_none(),
        blank_line_len(text, run_end(text, ByteClass::Space, index)).is_none(),
        run_end(text, ByteClass::Space, index) < text.len(),
        index < next_line(text, index) <= text.len(),
{
    let begin = run_end(text, ByteClass::SpaceOrTab, index);
    let blank = run_end(text, ByteClass::Blank, index);
    lemma_run_end(text, ByteClass::Blank, index);
    lemma_line_ending_len(text, blank);
    lemma_run_end_within(text, ByteClass::SpaceOrTab, ByteClass::Blank, index);
    lemma_run_end_within(text, ByteClass::Space, ByteClass::Blank, index);
    lemma_run_end_within(text, ByteClass::SpaceOrTab, ByteClass::LineContent, index);
    lemma_run_end_within(text, ByteClass::Blank, ByteClass::LineContent, index);
    lemma_run_end(text, ByteClass::LineContent, blank);
    lemma_run_end(text, ByteClass::LineContent, blank + 1);
    lemma_run_end(text, ByteClass::SpaceOrTab, index);
    lemma_run_end(text, ByteClass::Space, index);
    lemma_line_end(text, index);
    lemma_run_start_after(text, ByteClass::Blank, begin, line_end(text, index), blank);
}

/// The indent of a line, as far as it is skipped, stays within the line.
pub proof fn lemma_indent_within_line(text: Seq<u8>, index: int, limit: int)
    requires
        0 <= index <= text.len(),
    ensures
        index <= indent_end(text, index, limit) <= line_end(text, index),
        line_end(text, indent_end(text, index, limit)) == line_end(text, index),
        next_line(text, indent_end(text, index, limit)) == next_line(text, index),
        blank_line_len(text, index).is_none() ==> indent_end(text, index, limit) < text.len(),
{
    lemma_indent_end_from(text, index, 0, limit);
    lemma_run_end_within(text, ByteClass::SpaceOrTab, ByteClass::LineContent, index);
    lemma_line_end_from_inside(text, index, indent_end(text, index, limit));
    if blank_line_len(text, index).is_none() {
        lemma_line_content(text, index);
    }
}

/// The marks of block quotes that close, one more at a time.
pub proof fn lemma_ends_step(open: Seq<int>, keep: int, end: int)
    requires
        0 <= keep < open.len(),
    ensures
        ends(open, keep, end) == seq![
            Mark::End { tag: TagView::BlockQuote, begin: open.last(), end },
        ] + ends(open.drop_last(), keep, end),
        ends(open, open.len() as int, end) == Seq::<Mark>::empty(),
{
}

/// The marks of block quotes that open, one more at a time.
pub proof fn lemma_begins_step(count: int)
    requires
        count >= 0,
    ensures
        begins(count + 1) == begins(count) + seq![Mark::Begin(TagView::BlockQuote)],
        begins(0) == Seq::<Mark>::empty(),
{
    assert(begins(count + 1) =~= begins(count) + seq![Mark::Begin(TagView::BlockQuote)]);
    assert(begins(0) =~= Seq::<Mark>::empty());
}

/// The markers of the block quotes that open on a line end within the
/// line, and each of these block quotes starts on the line before that end.
pub proof fn lemma_quote_openers(text: Seq<u8>, index: int)
    requires
        0 <= index <= text.len(),
    ensures
        index <= quote_openers(text, index).1 <= text.len(),
        line_end(text, quote_openers(text, index).1) == line_end(text, index),
        forall|k: int|
            0 <= k < quote_openers(text, index).0.len() ==> index <= #[trigger] quote_openers(
                text,
                index,
            ).0[k] < quote_openers(text, index).1,
    decreases text.len() - index,
{
    crate::scanner::container::lemma_block_quote_marker_len(text, index);
    match block_quote_marker_len(text, index) {
        Some(length) => {
            lemma_quote_openers(text, index + length);
        },
        None => {},
    }
}

} // verus!
