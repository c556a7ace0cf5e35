//! HTML from events: each event adds its piece of HTML to a string.
use crate::parser::Parser;
use crate::text::{is_edge, lemma_encode_concat, lemma_run_end, run_end, skip_run, slice, ByteClass};
use crate::types::event::{Event, EventView};
use crate::types::heading::HeadingLevel;
use crate::types::tag::{Tag, TagView};
use vstd::prelude::*;
use vstd::string::{StringExecFns, StringSliceAdditionalSpecFns};
use vstd::utf8::encode_utf8;

verus! {

/// What stands for a byte of text in HTML: an entity for `"`, `&`, `<` and
/// `>`, and the byte itself for any other.
pub open spec fn escape_byte(byte: u8) -> Seq<u8> {
    if byte == 0x22 {
        "&quot;".spec_bytes()
    } else if byte == 0x26 {
        "&amp;".spec_bytes()
    } else if byte == 0x3c {
        "&lt;".spec_bytes()
    } else if byte == 0x3e {
        "&gt;".spec_bytes()
    } else {
        seq![byte]
    }
}

/// What stands for the first `count` bytes of a text in HTML.
pub open spec fn escaped_prefix(bytes: Seq<u8>, count: int) -> Seq<u8>
    decreases count,
{
    if count <= 0 {
        Seq::empty()
    } else {
        escaped_prefix(bytes, count - 1) + escape_byte(bytes[count - 1])
    }
}

/// What stands for a text in HTML.
pub open spec fn escaped(bytes: Seq<u8>) -> Seq<u8> {
    escaped_prefix(bytes, bytes.len() as int)
}

/// The language that an info string names: what stands before its first space.
pub open spec fn language(info: Seq<u8>) -> Seq<u8> {
    info.subrange(0, run_end(info, ByteClass::Except(0x20), 0))
}

/// The tag that opens a heading of the given level.
pub open spec fn heading_open(level: HeadingLevel) -> &'static str {
    match level {
        HeadingLevel::H1 => "<h1>",
        HeadingLevel::H2 => "<h2>",
        HeadingLevel::H3 => "<h3>",
        HeadingLevel::H4 => "<h4>",
        HeadingLevel::H5 => "<h5>",
        HeadingLevel::H6 => "<h6>",
    }
}

/// The tag that closes a heading of the given level, with the line feed after it.
pub open spec fn heading_close(level: HeadingLevel) -> &'static str {
    match level {
        HeadingLevel::H1 => "</h1>\n",
        HeadingLevel::H2 => "</h2>\n",
        HeadingLevel::H3 => "</h3>\n",
        HeadingLevel::H4 => "</h4>\n",
        HeadingLevel::H5 => "</h5>\n",
        HeadingLevel::H6 => "</h6>\n",
    }
}

/// The HTML that opens a container.
pub open spec fn begin_html(tag: TagView) -> Seq<u8> {
    match tag {
        TagView::BlockQuote => "<blockquote>\n".spec_bytes(),
        TagView::FencedCodeBlock(info) => if language(info).len() == 0 {
            "<pre><code>".spec_bytes()
        } else {
            "<pre><code class=\"language-".spec_bytes() + language(info) + "\">".spec_bytes()
        },
        TagView::Heading(level) => heading_open(level).spec_bytes(),
        TagView::IndentedCodeBlock => "<pre><code>".spec_bytes(),
        TagView::Paragraph => "<p>".spec_bytes(),
    }
}

/// The HTML that closes a container.
pub open spec fn end_html(tag: TagView) -> Seq<u8> {
    match tag {
        TagView::BlockQuote => "</blockquote>\n".spec_bytes(),
        TagView::FencedCodeBlock(_) => "</code></pre>\n".spec_bytes(),
        TagView::Heading(level) => heading_close(level).spec_bytes(),
        TagView::IndentedCodeBlock => "</code></pre>\n".spec_bytes(),
        TagView::Paragraph => "</p>\n".spec_bytes(),
    }
}

/// The HTML of one event: the tags of a container, HTML as it is, text
/// with its entities, and a rule for a thematic break.
pub open spec fn rendered(event: EventView) -> Seq<u8> {
    match event {
        EventView::Begin(tag) => begin_html(tag),
        EventView::End(tag) => end_html(tag),
        EventView::Html(bytes) => bytes,
        EventView::Text(bytes) => escaped(bytes),
        EventView::ThematicBreak => "<hr />\n".spec_bytes(),
    }
}

/// The HTML of a sequence of events.
pub open spec fn html_of(events: Seq<EventView>) -> Seq<u8>
    decreases events.len(),
{
    if events.len() == 0 {
        Seq::empty()
    } else {
        html_of(events.drop_last()) + rendered(events.last())
    }
}

/// A stretch of bytes that HTML takes as they are stands for itself.
pub proof fn lemma_escaped_run(bytes: Seq<u8>, from: int, to: int)
    requires
        0 <= from <= to <= bytes.len(),
        forall|k: int| from <= k < to ==> ByteClass::Unescaped.holds(#[trigger] bytes[k]),
    ensures
        escaped_prefix(bytes, to) == escaped_prefix(bytes, from) + bytes.subrange(from, to),
    decreases to - from,
{
    if from < to {
        lemma_escaped_run(bytes, from, to - 1);
        assert(ByteClass::Unescaped.holds(bytes[to - 1]));
        assert(bytes.subrange(from, to) =~= bytes.subrange(from, to - 1) + seq![bytes[to - 1]]);
        assert(escaped_prefix(bytes, to) =~= escaped_prefix(bytes, from) + bytes.subrange(
            from,
            to,
        ));
    } else {
        assert(escaped_prefix(bytes, from) + bytes.subrange(from, to) =~= escaped_prefix(
            bytes,
            from,
        ));
    }
}

/// Adds a string to the end of another.
pub fn push_str(writer: &mut String, piece: &str)
    ensures
        encode_utf8(final(writer)@) == encode_utf8(old(writer)@) + piece.spec_bytes(),
{
    proof {
        lemma_encode_concat(writer@, piece@);
    }
    writer.append(piece);
}

/// Adds a text to the string, with entities in place of `"`, `&`, `<` and `>`.
pub fn push_text(writer: &mut String, value: &str)
    ensures
        encode_utf8(final(writer)@) == encode_utf8(old(writer)@) + escaped(value.spec_bytes()),
{
    let bytes = value.as_bytes();
    let ghost start = encode_utf8(writer@);
    let mut i: usize = 0;
    proof {
        assert(start + escaped_prefix(bytes@, 0) =~= start);
    }
    while i < bytes.len()
        invariant
            bytes@ == value.spec_bytes(),
            i <= bytes@.len(),
            is_edge(bytes@, i as int),
            encode_utf8(writer@) == start + escaped_prefix(bytes@, i as int),
        decreases bytes@.len() - i,
    {
        let plain = skip_run(bytes, ByteClass::Unescaped, i);
        proof {
            lemma_run_end(bytes@, ByteClass::Unescaped, i as int);
            lemma_escaped_run(bytes@, i as int, plain as int);
            if plain < bytes@.len() {
                assert(!ByteClass::Unescaped.holds(bytes@[plain as int]));
            }
        }
        if i < plain {
            push_str(writer, slice(value, i, plain));
        }
        proof {
            assert(encode_utf8(writer@) =~= start + escaped_prefix(bytes@, plain as int));
        }
        if plain < bytes.len() {
            let byte = bytes[plain];
            let entity = if byte == 0x22 {
                "&quot;"
            } else if byte == 0x26 {
                "&amp;"
            } else if byte == 0x3c {
                "&lt;"
            } else {
                "&gt;"
            };
            push_str(writer, entity);
            proof {
                assert(encode_utf8(writer@) =~= start + escaped_prefix(bytes@, plain + 1));
            }
            i = plain + 1;
        } else {
            i = plain;
        }
    }
}

/// Adds the HTML that opens a container to the string.
pub fn push_begin<'a>(writer: &mut String, tag: Tag<'a>)
    ensures
        encode_utf8(final(writer)@) == encode_utf8(old(writer)@) + begin_html(tag@),
{
    match tag {
        Tag::BlockQuote => {
            push_str(writer, "<blockquote>\n");
        },
        Tag::FencedCodeBlock(info) => {
            let bytes = info.as_bytes();
            let end = skip_run(bytes, ByteClass::Except(0x20), 0);
            if end == 0 {
                push_str(writer, "<pre><code>");
            } else {
                proof {
                    lemma_run_end(bytes@, ByteClass::Except(0x20), 0);
                    if end < bytes@.len() {
                        assert(!ByteClass::Except(0x20).holds(bytes@[end as int]));
                    }
                }
                let ghost start = encode_utf8(writer@);
                push_str(writer, "<pre><code class=\"language-");
                push_str(writer, slice(info, 0, end));
                push_str(writer, "\">");
                proof {
                    assert(encode_utf8(writer@) =~= start + begin_html(tag@));
                }
            }
        },
        Tag::Heading(level) => {
            let open = match level {
                HeadingLevel::H1 => "<h1>",
                HeadingLevel::H2 => "<h2>",
                HeadingLevel::H3 => "<h3>",
                HeadingLevel::H4 => "<h4>",
                HeadingLevel::H5 => "<h5>",
                HeadingLevel::H6 => "<h6>",
            };
            push_str(writer, open);
        },
        Tag::IndentedCodeBlock => {
            push_str(writer, "<pre><code>");
        },
        Tag::Paragraph => {
            push_str(writer, "<p>");
        },
    }
}

/// Adds the HTML that closes a container to the string.
pub fn push_end<'a>(writer: &mut String, tag: Tag<'a>)
    ensures
        encode_utf8(final(writer)@) == encode_utf8(old(writer)@) + end_html(tag@),
{
    match tag {
        Tag::BlockQuote => {
            push_str(writer, "</blockquote>\n");
        },
        Tag::FencedCodeBlock(_) => {
            push_str(writer, "</code></pre>\n");
        },
        Tag::Heading(level) => {
            let close = match level {
                HeadingLevel::H1 => "</h1>\n",
                HeadingLevel::H2 => "</h2>\n",
                HeadingLevel::H3 => "</h3>\n",
                HeadingLevel::H4 => "</h4>\n",
                HeadingLevel::H5 => "</h5>\n",
                HeadingLevel::H6 => "</h6>\n",
            };
            push_str(writer, close);
        },
        Tag::IndentedCodeBlock => {
            push_str(writer, "</code></pre>\n");
        },
        Tag::Paragraph => {
            push_str(writer, "</p>\n");
        },
    }
}

/// Adds the HTML of one event to the string.
pub fn push_event<'a>(writer: &mut String, event: Event<'a>)
    ensures
        encode_utf8(final(writer)@) == encode_utf8(old(writer)@) + rendered(event@),
{
    match event {
        Event::Begin(tag) => {
            push_begin(writer, tag);
        },
        Event::End(tag) => {
            push_end(writer, tag);
        },
        Event::Html(value) => {
            push_str(writer, value);
        },
        Event::Text(value) => {
            push_text(writer, value);
        },
        Event::ThematicBreak => {
            push_str(writer, "<hr />\n");
        },
    }
}

/// Adds the HTML of all the events that the parser still gives out to the string.
pub fn push_html<'a>(writer: &mut String, parser: Parser<'a>)
    requires
        parser.wf(),
    ensures
        encode_utf8(final(writer)@) == encode_utf8(old(writer)@) + html_of(parser.events()),
{
    let mut parser = parser;
    let ghost all = parser.events();
    let ghost start = encode_utf8(writer@);
    let ghost mut count: int = 0;
    proof {
        assert(all.skip(0) =~= all);
        assert(start + html_of(all.take(0)) =~= start);
    }
    loop
        invariant
            parser.wf(),
            0 <= count <= all.len(),
            parser.events() == all.skip(count),
            encode_utf8(writer@) == start + html_of(all.take(count)),
        ensures
            encode_utf8(writer@) == start + html_of(all),
        decreases all.len() - count,
    {
        let ghost before = parser.events();
        match parser.next() {
            Some(event) => {
                proof {
                    assert(before.len() > 0);
                    assert(event@ == before[0]);
                    assert(all.take(count + 1).drop_last() =~= all.take(count));
                    assert(all.take(count + 1).last() == all[count]);
                    assert(parser.events() =~= all.skip(count + 1));
                }
                let ghost sofar = encode_utf8(writer@);
                push_event(writer, event);
                proof {
                    assert(encode_utf8(writer@) =~= start + html_of(all.take(count + 1)));
                    count = count + 1;
                }
            },
            None => {
                proof {
                    assert(before.len() == 0);
                    assert(all.take(count) =~= all);
                }
                break ;
            },
        }
    }
}

} // verus!
