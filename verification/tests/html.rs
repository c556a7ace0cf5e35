//! The HTML of single events.
use markdown::html::{push_begin, push_end, push_event, push_str, push_text};
use markdown::types::{Event, HeadingLevel, Tag};

fn render(event: Event) -> String {
    let mut buffer = String::from("x");
    push_event(&mut buffer, event);
    buffer
}

#[test]
fn containers_open() {
    assert_eq!(render(Event::Begin(Tag::Paragraph)), "x<p>");
    assert_eq!(render(Event::Begin(Tag::BlockQuote)), "x<blockquote>\n");
    assert_eq!(render(Event::Begin(Tag::IndentedCodeBlock)), "x<pre><code>");
    assert_eq!(render(Event::Begin(Tag::FencedCodeBlock(""))), "x<pre><code>");
    assert_eq!(render(Event::Begin(Tag::Heading(HeadingLevel::H1))), "x<h1>");
    assert_eq!(render(Event::Begin(Tag::Heading(HeadingLevel::H2))), "x<h2>");
    assert_eq!(render(Event::Begin(Tag::Heading(HeadingLevel::H3))), "x<h3>");
    assert_eq!(render(Event::Begin(Tag::Heading(HeadingLevel::H4))), "x<h4>");
    assert_eq!(render(Event::Begin(Tag::Heading(HeadingLevel::H5))), "x<h5>");
    assert_eq!(render(Event::Begin(Tag::Heading(HeadingLevel::H6))), "x<h6>");
}

#[test]
fn containers_close() {
    assert_eq!(render(Event::End(Tag::Paragraph)), "x</p>\n");
    assert_eq!(render(Event::End(Tag::BlockQuote)), "x</blockquote>\n");
    assert_eq!(render(Event::End(Tag::IndentedCodeBlock)), "x</code></pre>\n");
    assert_eq!(render(Event::End(Tag::FencedCodeBlock("rust"))), "x</code></pre>\n");
    assert_eq!(render(Event::End(Tag::Heading(HeadingLevel::H1))), "x</h1>\n");
    assert_eq!(render(Event::End(Tag::Heading(HeadingLevel::H6))), "x</h6>\n");
}

#[test]
fn language_is_the_first_word_of_the_info_string() {
    assert_eq!(
        render(Event::Begin(Tag::FencedCodeBlock("rust"))),
        "x<pre><code class=\"language-rust\">"
    );
    assert_eq!(
        render(Event::Begin(Tag::FencedCodeBlock("rust no_run  x"))),
        "x<pre><code class=\"language-rust\">"
    );
    assert_eq!(render(Event::Begin(Tag::FencedCodeBlock(" rust"))), "x<pre><code>");
    assert_eq!(
        render(Event::Begin(Tag::FencedCodeBlock("\u{e9}t\u{e9} x"))),
        "x<pre><code class=\"language-\u{e9}t\u{e9}\">"
    );
}

#[test]
fn leaves() {
    assert_eq!(render(Event::ThematicBreak), "x<hr />\n");
    assert_eq!(render(Event::Html("<b>&\"</b>\n")), "x<b>&\"</b>\n");
    assert_eq!(render(Event::Text("<b>&\"</b>\n")), "x&lt;b&gt;&amp;&quot;&lt;/b&gt;\n");
    assert_eq!(render(Event::Text("")), "x");
    assert_eq!(render(Event::Text("plain")), "xplain");
    assert_eq!(render(Event::Text("'\u{e9}'")), "x'\u{e9}'");
    assert_eq!(render(Event::Text("\u{1f600}<\u{3042}>")), "x\u{1f600}&lt;\u{3042}&gt;");
}

#[test]
fn pieces_are_added_at_the_end() {
    let mut buffer = String::from("a");
    push_str(&mut buffer, "b<");
    push_text(&mut buffer, "c<");
    push_begin(&mut buffer, Tag::Paragraph);
    push_end(&mut buffer, Tag::Paragraph);
    assert_eq!(buffer, "ab<c&lt;<p></p>\n");
}
