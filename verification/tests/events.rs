//! The event stream of whole documents.
use markdown::parser::Parser;
use markdown::types::{Event, HeadingLevel, Tag};

fn events(text: &str) -> Vec<Event<'_>> {
    let mut parser = Parser::new(text);
    let mut events = Vec::new();
    while let Some(event) = parser.next() {
        events.push(event);
    }
    events
}

#[test]
fn paragraphs_separated_by_blank_line() {
    assert_eq!(
        events("abc\ndef\nghi\n\njkl"),
        vec![
            Event::Begin(Tag::Paragraph),
            Event::Text("abc\n"),
            Event::Text("def\n"),
            Event::Text("ghi"),
            Event::End(Tag::Paragraph),
            Event::Begin(Tag::Paragraph),
            Event::Text("jkl"),
            Event::End(Tag::Paragraph),
        ]
    );
}

#[test]
fn atx_heading_with_closing_sequence_and_trailing_newline() {
    assert_eq!(
        events("## abc # \n"),
        vec![
            Event::Begin(Tag::Heading(HeadingLevel::H2)),
            Event::Text("abc"),
            Event::End(Tag::Heading(HeadingLevel::H2)),
        ]
    );
}

#[test]
fn thematic_breaks_in_three_styles() {
    assert_eq!(
        events("***\n---\n___"),
        vec![Event::ThematicBreak, Event::ThematicBreak, Event::ThematicBreak]
    );
}

#[test]
fn paragraph_interrupted_by_thematic_break() {
    assert_eq!(
        events("Foo\n***\nbar"),
        vec![
            Event::Begin(Tag::Paragraph),
            Event::Text("Foo"),
            Event::End(Tag::Paragraph),
            Event::ThematicBreak,
            Event::Begin(Tag::Paragraph),
            Event::Text("bar"),
            Event::End(Tag::Paragraph),
        ]
    );
}

#[test]
fn atx_heading_with_empty_title_and_closing_sequence() {
    assert_eq!(
        events("## ##"),
        vec![
            Event::Begin(Tag::Heading(HeadingLevel::H2)),
            Event::End(Tag::Heading(HeadingLevel::H2)),
        ]
    );
}

#[test]
fn seven_hashes_are_no_heading() {
    assert_eq!(
        events("####### abc"),
        vec![
            Event::Begin(Tag::Paragraph),
            Event::Text("####### abc"),
            Event::End(Tag::Paragraph),
        ]
    );
}

#[test]
fn empty_text_gives_no_event() {
    assert_eq!(events(""), vec![]);
}

#[test]
fn parser_stays_at_its_end() {
    let mut parser = Parser::new("a");
    assert_eq!(parser.next(), Some(Event::Begin(Tag::Paragraph)));
    assert_eq!(parser.next(), Some(Event::Text("a")));
    assert_eq!(parser.next(), Some(Event::End(Tag::Paragraph)));
    assert_eq!(parser.next(), None);
    assert_eq!(parser.next(), None);
}

#[test]
fn same_input_gives_same_events() {
    let text = "> # a\n> b\n\n```rust\nlet x;\n```\n";
    assert_eq!(events(text), events(text));
}

const SAMPLES: [&str; 8] = [
    "",
    "abc\ndef\n\n# h #\n***\n",
    "> a\n> > b\nc\n\n> d\n",
    ">     code\n> ```rust x\n> let a = \"<\";\n> ```\n",
    "    a\n\n    b\n\n\nc\n===\n",
    "<div>\n<b>\n\n<!-- x\ny -->\n<p>\n",
    "a\r\nb\rc\n> ~~~\n> d",
    "> > > \u{e9}\n> \u{3042}\n\n\t\u{1f600}\n",
];

#[test]
fn every_begin_has_its_end() {
    for text in SAMPLES {
        let mut open = Vec::new();
        for event in events(text) {
            match event {
                Event::Begin(tag) => open.push(tag),
                Event::End(tag) => assert_eq!(open.pop(), Some(tag)),
                _ => {}
            }
        }
        assert!(open.is_empty());
    }
}

#[test]
fn slices_are_taken_from_the_input() {
    for text in SAMPLES {
        for event in events(text) {
            match event {
                Event::Text(slice) | Event::Html(slice) => {
                    assert!(!slice.is_empty());
                    assert!(text.contains(slice));
                }
                Event::Begin(Tag::FencedCodeBlock(info)) | Event::End(Tag::FencedCodeBlock(info)) => {
                    assert!(text.contains(info));
                }
                _ => {}
            }
        }
    }
}

fn text_of(text: &str) -> String {
    let mut joined = String::new();
    for event in events(text) {
        if let Event::Text(slice) = event {
            joined.push_str(slice);
        }
    }
    joined
}

#[test]
fn lines_of_a_paragraph_join_to_its_input() {
    assert_eq!(text_of("aaa\nbbb\nccc"), "aaa\nbbb\nccc");
    assert_eq!(text_of("aaa\r\nbbb\rccc\n"), "aaa\r\nbbb\rccc");
    assert_eq!(text_of("aaa\nbbb  \n===\n"), "aaa\nbbb");
}

#[test]
fn lines_of_a_paragraph_lose_what_stands_before_them() {
    assert_eq!(text_of("  aaa\n bbb"), "aaa\nbbb");
    assert_eq!(text_of("> aaa\n> bbb"), "aaa\nbbb");
}

#[test]
fn fenced_code_block_in_block_quote() {
    assert_eq!(
        events("> ```rust x\n> a\n> ```\n"),
        vec![
            Event::Begin(Tag::BlockQuote),
            Event::Begin(Tag::FencedCodeBlock("rust x")),
            Event::Text("a\n"),
            Event::End(Tag::FencedCodeBlock("rust x")),
            Event::End(Tag::BlockQuote),
        ]
    );
}

#[test]
fn html_block_gives_one_event_for_each_line() {
    assert_eq!(
        events("<div>\n  <p>\n</div>\n\n    code\n"),
        vec![
            Event::Html("<div>\n"),
            Event::Html("  <p>\n"),
            Event::Html("</div>\n"),
            Event::Begin(Tag::IndentedCodeBlock),
            Event::Text("code\n"),
            Event::End(Tag::IndentedCodeBlock),
        ]
    );
}
