//! The nesting of a document: in the marks that the grammar gives, every
//! `Begin` is closed by an `End` with the same tag, and the pairs are nested.
use crate::grammar::{
    atx_heading, begins, blocks, code_lines, continues_code, document, ends, fence_lines,
    html_lines_until_blank, html_lines_until_marker, leaf, paragraph_lines, quote_openers,
};
use crate::marks::{
    events_of, lemma_events_of_concat, lemma_events_of_skip, lemma_nesting_concat,
    lemma_nesting_single, nesting, well_nested, Mark,
};
use crate::scanner::container::{container_markers, lemma_container_markers};
use crate::scanner::html::{html_block_end, is_html_block_6, is_html_block_7, HtmlBlockEnd};
use crate::scanner::interrupt::{continuation, Continuation};
use crate::scanner::leaf::{atx_heading_level, opening_code_fence, thematic_break_len};
use crate::scanner::line::{blank_line_len, indent, indent_end, next_line};
use crate::text::{run_end, ByteClass};
use crate::types::event::EventView;
use crate::types::tag::TagView;
use vstd::prelude::*;

verus! {

/// Whether the mark is that of a leaf: neither a `Begin` nor an `End`.
pub open spec fn is_leaf_mark(mark: Mark) -> bool {
    match mark {
        Mark::Begin(_) => false,
        Mark::End { .. } => false,
        _ => true,
    }
}

/// Whether all the marks are those of leaves.
pub open spec fn all_leaves(marks: Seq<Mark>) -> bool {
    forall|k: int| 0 <= k < marks.len() ==> is_leaf_mark(#[trigger] marks[k])
}

/// As many block quotes as given, one inside the other.
pub open spec fn quotes(count: int) -> Seq<TagView> {
    Seq::new(
        if count > 0 {
            count as nat
        } else {
            0
        },
        |k: int| TagView::BlockQuote,
    )
}

/// The marks of leaves open and close nothing.
pub proof fn lemma_leaves_neutral(text: Seq<u8>, marks: Seq<Mark>, open: Seq<TagView>)
    requires
        all_leaves(marks),
    ensures
        nesting(events_of(text, marks), open) == Some(open),
    decreases marks.len(),
{
    if marks.len() > 0 {
        lemma_events_of_skip(text, marks);
        assert(is_leaf_mark(marks[0]));
        assert forall|k: int| 0 <= k < marks.skip(1).len() implies is_leaf_mark(
            #[trigger] marks.skip(1)[k],
        ) by {
            assert(marks.skip(1)[k] == marks[k + 1]);
        }
        lemma_leaves_neutral(text, marks.skip(1), open);
    } else {
        assert(events_of(text, marks).len() == 0);
    }
}

/// A container around the marks of leaves opens and closes itself, and nothing else.
pub proof fn lemma_container_neutral(
    text: Seq<u8>,
    tag: TagView,
    inner: Seq<Mark>,
    last: Mark,
    open: Seq<TagView>,
)
    requires
        all_leaves(inner),
        crate::marks::event_of(text, last) == EventView::End(tag),
    ensures
        nesting(events_of(text, seq![Mark::Begin(tag)] + inner + seq![last]), open) == Some(open),
{
    let begin = seq![Mark::Begin(tag)];
    let end = seq![last];
    lemma_events_of_concat(text, begin + inner, end);
    lemma_events_of_concat(text, begin, inner);
    lemma_nesting_concat(
        events_of(text, begin) + events_of(text, inner),
        events_of(text, end),
        open,
    );
    lemma_nesting_concat(events_of(text, begin), events_of(text, inner), open);
    lemma_nesting_single(events_of(text, begin), open);
    lemma_leaves_neutral(text, inner, open.push(tag));
    lemma_nesting_single(events_of(text, end), open.push(tag));
    assert(open.push(tag).drop_last() =~= open);
}

/// The lines of a paragraph are leaves.
pub proof fn lemma_paragraph_lines_leaves(text: Seq<u8>, index: int, depth: nat)
    ensures
        all_leaves(paragraph_lines(text, index, depth).marks),
    decreases text.len() - index,
{
    let line = next_line(text, run_end(text, ByteClass::SpaceOrTab, index));
    match continuation(text, line, depth) {
        Continuation::Continue { from } => {
            if index < from <= text.len() {
                lemma_paragraph_lines_leaves(text, from, depth);
            }
        },
        _ => {},
    }
}

/// The lines of an indented code block are leaves, and of them some are kept.
pub proof fn lemma_code_lines_leaves(text: Seq<u8>, index: int, depth: nat)
    ensures
        all_leaves(code_lines(text, index, depth).marks),
        0 <= code_lines(text, index, depth).kept <= code_lines(text, index, depth).marks.len(),
    decreases text.len() - index,
{
    let line = next_line(text, indent_end(text, index, 4));
    let from = container_markers(text, line, depth).1;
    if continues_code(text, line, depth) && index < from <= text.len() {
        lemma_code_lines_leaves(text, from, depth);
    }
}

/// The lines of a fenced code block are leaves.
pub proof fn lemma_fence_lines_leaves(
    text: Seq<u8>,
    line: int,
    width: int,
    count: int,
    byte: u8,
    depth: nat,
)
    ensures
        all_leaves(fence_lines(text, line, width, count, byte, depth).marks),
    decreases text.len() - line,
{
    let content = container_markers(text, line, depth).1;
    let after = next_line(text, indent_end(text, content, width));
    if line < after <= text.len() {
        lemma_fence_lines_leaves(text, after, width, count, byte, depth);
    }
}

/// The lines of an HTML block that ends with a marker are leaves.
pub proof fn lemma_html_until_marker_leaves(
    text: Seq<u8>,
    index: int,
    end: HtmlBlockEnd,
    depth: nat,
)
    ensures
        all_leaves(html_lines_until_marker(text, index, end, depth).marks),
    decreases text.len() - index,
{
    let markers = container_markers(text, next_line(text, index), depth);
    if index < markers.1 < text.len() {
        lemma_html_until_marker_leaves(text, markers.1, end, depth);
    }
}

/// The lines of an HTML block that ends before a blank line are leaves.
pub proof fn lemma_html_until_blank_leaves(text: Seq<u8>, index: int, depth: nat)
    ensures
        all_leaves(html_lines_until_blank(text, index, depth).marks),
    decreases text.len() - index,
{
    let markers = container_markers(text, next_line(text, index), depth);
    if index < markers.1 < text.len() {
        lemma_html_until_blank_leaves(text, markers.1, depth);
    }
}

/// A block opens and closes itself at most, and nothing else.
pub proof fn lemma_leaf_neutral(text: Seq<u8>, index: int, depth: nat, open: Seq<TagView>)
    ensures
        nesting(events_of(text, leaf(text, index, depth).marks), open) == Some(open),
{
    let start = run_end(text, ByteClass::Space, index);
    if blank_line_len(text, index).is_some() {
        lemma_leaves_neutral(text, Seq::empty(), open);
    } else if indent(text, index) == 4 {
        lemma_code_lines_leaves(text, index, depth);
        let lines = code_lines(text, index, depth);
        assert forall|k: int| 0 <= k < lines.marks.take(lines.kept).len() implies is_leaf_mark(
            #[trigger] lines.marks.take(lines.kept)[k],
        ) by {
            assert(lines.marks.take(lines.kept)[k] == lines.marks[k]);
        }
        lemma_container_neutral(
            text,
            TagView::IndentedCodeBlock,
            lines.marks.take(lines.kept),
            Mark::End { tag: TagView::IndentedCodeBlock, begin: index, end: lines.next - 1 },
            open,
        );
    } else if thematic_break_len(text, start).is_some() {
        lemma_leaves_neutral(text, leaf(text, index, depth).marks, open);
    } else if atx_heading_level(text, start).is_some() {
        let level = atx_heading_level(text, start).unwrap();
        let step = atx_heading(text, start, level);
        let inner = step.marks.subrange(1, step.marks.len() - 1);
        assert(all_leaves(inner));
        assert(step.marks =~= seq![Mark::Begin(TagView::Heading(level))] + inner + seq![
            step.marks.last(),
        ]);
        lemma_container_neutral(text, TagView::Heading(level), inner, step.marks.last(), open);
    } else if opening_code_fence(text, start).is_some() {
        let found = opening_code_fence(text, start).unwrap();
        let tag = TagView::FencedCodeBlock(
            text.subrange(
                crate::grammar::info_begin(text, start, found.0),
                crate::grammar::info_end(text, start, found.0),
            ),
        );
        let lines = fence_lines(
            text,
            next_line(text, start),
            start - index,
            found.0,
            found.1,
            depth,
        );
        lemma_fence_lines_leaves(
            text,
            next_line(text, start),
            start - index,
            found.0,
            found.1,
            depth,
        );
        lemma_container_neutral(
            text,
            tag,
            lines.marks,
            Mark::End { tag, begin: start, end: lines.next - 1 },
            open,
        );
    } else if html_block_end(text, start).is_some() {
        lemma_html_until_marker_leaves(
            text,
            index,
            html_block_end(text, start).unwrap(),
            depth,
        );
        lemma_leaves_neutral(
            text,
            html_lines_until_marker(text, index, html_block_end(text, start).unwrap(), depth).marks,
            open,
        );
    } else if is_html_block_6(text, start) || is_html_block_7(text, start) {
        lemma_html_until_blank_leaves(text, index, depth);
        lemma_leaves_neutral(text, html_lines_until_blank(text, index, depth).marks, open);
    } else {
        let lines = paragraph_lines(text, start, depth);
        lemma_paragraph_lines_leaves(text, start, depth);
        lemma_container_neutral(
            text,
            lines.tag,
            lines.marks,
            Mark::End { tag: lines.tag, begin: start, end: lines.next - 1 },
            open,
        );
    }
}

/// Block quotes that close leave those outside them open.
pub proof fn lemma_ends_nesting(text: Seq<u8>, open: Seq<int>, keep: int, end: int)
    requires
        0 <= keep <= open.len(),
    ensures
        nesting(events_of(text, ends(open, keep, end)), quotes(open.len() as int)) == Some(
            quotes(keep),
        ),
    decreases open.len(),
{
    if open.len() == 0 || keep >= open.len() {
        assert(events_of(text, ends(open, keep, end)).len() == 0);
    } else {
        lemma_events_of_skip(text, ends(open, keep, end));
        assert(ends(open, keep, end).skip(1) =~= ends(open.drop_last(), keep, end));
        assert(quotes(open.len() as int).drop_last() =~= quotes(open.len() - 1));
        lemma_ends_nesting(text, open.drop_last(), keep, end);
    }
}

/// Block quotes that open come to lie inside those that are open.
pub proof fn lemma_begins_nesting(text: Seq<u8>, count: int, have: int)
    requires
        0 <= count,
        0 <= have,
    ensures
        nesting(events_of(text, begins(count)), quotes(have)) == Some(quotes(have + count)),
    decreases count,
{
    if count > 0 {
        lemma_events_of_skip(text, begins(count));
        assert(begins(count).skip(1) =~= begins(count - 1));
        assert(quotes(have).push(TagView::BlockQuote) =~= quotes(have + 1));
        lemma_begins_nesting(text, count - 1, have + 1);
    } else {
        assert(events_of(text, begins(count)).len() == 0);
    }
}

/// The blocks from a line on close the block quotes that are open, and
/// all that they open themselves.
pub proof fn lemma_blocks_nesting(text: Seq<u8>, index: int, open: Seq<int>)
    ensures
        nesting(events_of(text, blocks(text, index, open)), quotes(open.len() as int)) == Some(
            Seq::<TagView>::empty(),
        ),
    decreases text.len() - index,
{
    assert(quotes(0) =~= Seq::<TagView>::empty());
    if index < 0 || index >= text.len() {
        lemma_ends_nesting(text, open, 0, index - 1);
    } else {
        let markers = container_markers(text, index, open.len());
        lemma_container_markers(text, index, open.len());
        let openers = quote_openers(text, markers.1);
        let inside = open.take(markers.0) + openers.0;
        let step = leaf(text, openers.1, inside.len());
        let a = ends(open, markers.0, index - 1);
        let b = begins(openers.0.len() as int);
        let rest = if index < step.next <= text.len() {
            blocks(text, step.next, inside)
        } else {
            ends(inside, 0, text.len() - 1)
        };
        lemma_ends_nesting(text, open, markers.0, index - 1);
        lemma_begins_nesting(text, openers.0.len() as int, markers.0);
        lemma_leaf_neutral(text, openers.1, inside.len(), quotes(inside.len() as int));
        if index < step.next <= text.len() {
            lemma_blocks_nesting(text, step.next, inside);
        } else {
            lemma_ends_nesting(text, inside, 0, text.len() - 1);
        }
        assert(blocks(text, index, open) == a + b + step.marks + rest);
        lemma_events_of_concat(text, a + b + step.marks, rest);
        lemma_events_of_concat(text, a + b, step.marks);
        lemma_events_of_concat(text, a, b);
        lemma_nesting_concat(
            events_of(text, a + b + step.marks),
            events_of(text, rest),
            quotes(open.len() as int),
        );
        lemma_nesting_concat(
            events_of(text, a + b),
            events_of(text, step.marks),
            quotes(open.len() as int),
        );
        lemma_nesting_concat(events_of(text, a), events_of(text, b), quotes(open.len() as int));
    }
}

/// The events of every document are well nested: every `Begin` is closed
/// by exactly one `End` with the same tag, after the events of the blocks
/// inside it.
pub proof fn lemma_document_well_nested(text: Seq<u8>)
    ensures
        well_nested(events_of(text, document(text))),
{
    assert(quotes(0) =~= Seq::<TagView>::empty());
    lemma_blocks_nesting(text, 0, Seq::empty());
}

} // verus!
