//! All short texts over a small alphabet: the parser reads each of them,
//! and what it gives out is in order.
use markdown::html::push_html;
use markdown::parser::Parser;
use markdown::types::Event;

const ALPHABET: [char; 12] = ['a', ' ', '\n', '>', '#', '`', '-', '=', '\t', '<', '\r', '\u{e9}'];

fn check(text: &str) {
    let mut parser = Parser::new(text);
    let mut open = Vec::new();
    let mut count = 0;
    while let Some(event) = parser.next() {
        count += 1;
        match event {
            Event::Begin(tag) => open.push(tag),
            Event::End(tag) => assert_eq!(open.pop(), Some(tag), "in {:?}", text),
            Event::Text(slice) | Event::Html(slice) => {
                assert!(!slice.is_empty(), "in {:?}", text);
                assert!(text.contains(slice), "in {:?}", text);
                assert!(match event {
                    Event::Text(_) => !open.is_empty(),
                    _ => true,
                });
            }
            Event::ThematicBreak => {}
        }
    }
    assert!(open.is_empty(), "in {:?}", text);
    assert_eq!(parser.next(), None);
    let blank = text.chars().all(|c| c == ' ' || c == '\n' || c == '\t' || c == '\r');
    assert_eq!(count == 0, blank, "in {:?}", text);
    let mut buffer = String::new();
    push_html(&mut buffer, Parser::new(text));
    assert_eq!(buffer.is_empty(), blank, "in {:?}", text);
}

fn extend(text: &mut String, left: usize) {
    check(text);
    if left == 0 {
        return;
    }
    for c in ALPHABET {
        text.push(c);
        extend(text, left - 1);
        text.pop();
    }
}

#[test]
fn all_texts_of_four_characters_at_most() {
    let mut text = String::new();
    extend(&mut text, 4);
}

#[test]
fn longer_texts_made_of_lines() {
    let lines = ["> a", ">", "    b", "```", "# c", "", "===", "<p>", "d", "\t", ">> e"];
    let mut text = String::new();
    for first in lines {
        for second in lines {
            for third in lines {
                for ending in ["\n", "\r\n", "\r"] {
                    text.clear();
                    text.push_str(first);
                    text.push_str(ending);
                    text.push_str(second);
                    text.push_str(ending);
                    text.push_str(third);
                    check(&text);
                    text.push_str(ending);
                    check(&text);
                }
            }
        }
    }
}
