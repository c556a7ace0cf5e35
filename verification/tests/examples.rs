//! CommonMark examples on thematic breaks, ATX headings and paragraphs,
//! from Markdown to HTML.
use markdown::html::push_html;
use markdown::parser::Parser;

fn assert_parse(a: &str, b: &str) {
    let parser = Parser::new(a);
    let mut buffer = String::new();
    push_html(&mut buffer, parser);
    assert_eq!(&buffer, b);
}

#[test]
fn parse_example_043() {
    assert_parse(
        "***\n---\n___\n",
        "<hr />\n<hr />\n<hr />\n",
    );
}

#[test]
fn parse_example_044() {
    assert_parse(
        "+++\n",
        "<p>+++</p>\n",
    );
}

#[test]
fn parse_example_045() {
    assert_parse(
        "===\n",
        "<p>===</p>\n",
    );
}

#[test]
fn parse_example_046() {
    assert_parse(
        "--\n**\n__\n",
        "<p>--\n**\n__</p>\n",
    );
}

#[test]
fn parse_example_047() {
    assert_parse(
        " ***\n  ***\n   ***\n",
        "<hr />\n<hr />\n<hr />\n",
    );
}

#[test]
fn parse_example_049() {
    assert_parse(
        "Foo\n    ***\n",
        "<p>Foo\n***</p>\n",
    );
}

#[test]
fn parse_example_050() {
    assert_parse(
        "_____________________________________\n",
        "<hr />\n",
    );
}

#[test]
fn parse_example_051() {
    assert_parse(
        " - - -\n",
        "<hr />\n",
    );
}

#[test]
fn parse_example_052() {
    assert_parse(
        " **  * ** * ** * **\n",
        "<hr />\n",
    );
}

#[test]
fn parse_example_053() {
    assert_parse(
        "-     -      -      -\n",
        "<hr />\n",
    );
}

#[test]
fn parse_example_054() {
    assert_parse(
        "- - - -    \n",
        "<hr />\n",
    );
}

#[test]
fn parse_example_055() {
    assert_parse(
        "_ _ _ _ a\n\na------\n\n---a---\n",
        "<p>_ _ _ _ a</p>\n<p>a------</p>\n<p>---a---</p>\n",
    );
}

#[test]
fn parse_example_058() {
    assert_parse(
        "Foo\n***\nbar\n",
        "<p>Foo</p>\n<hr />\n<p>bar</p>\n",
    );
}

#[test]
fn parse_example_062() {
    assert_parse(
        "# foo\n## foo\n### foo\n#### foo\n##### foo\n###### foo\n",
        "<h1>foo</h1>\n<h2>foo</h2>\n<h3>foo</h3>\n<h4>foo</h4>\n<h5>foo</h5>\n<h6>foo</h6>\n",
    );
}

#[test]
fn parse_example_063() {
    assert_parse(
        "####### foo\n",
        "<p>####### foo</p>\n",
    );
}

#[test]
fn parse_example_064() {
    assert_parse(
        "#5 bolt\n\n#hashtag\n",
        "<p>#5 bolt</p>\n<p>#hashtag</p>\n",
    );
}

#[test]
fn parse_example_067() {
    assert_parse(
        "#                  foo                     \n",
        "<h1>foo</h1>\n",
    );
}

#[test]
fn parse_example_068() {
    assert_parse(
        " ### foo\n  ## foo\n   # foo\n",
        "<h3>foo</h3>\n<h2>foo</h2>\n<h1>foo</h1>\n",
    );
}

#[test]
fn parse_example_070() {
    assert_parse(
        "foo\n    # bar\n",
        "<p>foo\n# bar</p>\n",
    );
}

#[test]
fn parse_example_071() {
    assert_parse(
        "## foo ##\n  ###   bar    ###\n",
        "<h2>foo</h2>\n<h3>bar</h3>\n",
    );
}

#[test]
fn parse_example_072() {
    assert_parse(
        "# foo ##################################\n##### foo ##\n",
        "<h1>foo</h1>\n<h5>foo</h5>\n",
    );
}

#[test]
fn parse_example_073() {
    assert_parse(
        "### foo ###     \n",
        "<h3>foo</h3>\n",
    );
}

#[test]
fn parse_example_074() {
    assert_parse(
        "### foo ### b\n",
        "<h3>foo ### b</h3>\n",
    );
}

#[test]
fn parse_example_077() {
    assert_parse(
        "****\n## foo\n****\n",
        "<hr />\n<h2>foo</h2>\n<hr />\n",
    );
}

#[test]
fn parse_example_078() {
    assert_parse(
        "Foo bar\n# baz\nBar foo\n",
        "<p>Foo bar</p>\n<h1>baz</h1>\n<p>Bar foo</p>\n",
    );
}

#[test]
fn parse_example_079() {
    assert_parse(
        "## \n#\n### ###\n",
        "<h2></h2>\n<h1></h1>\n<h3></h3>\n",
    );
}

#[test]
fn parse_example_219() {
    assert_parse(
        "aaa\n\nbbb\n",
        "<p>aaa</p>\n<p>bbb</p>\n",
    );
}

#[test]
fn parse_example_220() {
    assert_parse(
        "aaa\nbbb\n\nccc\nddd\n",
        "<p>aaa\nbbb</p>\n<p>ccc\nddd</p>\n",
    );
}

#[test]
fn parse_example_221() {
    assert_parse(
        "aaa\n\n\nbbb\n",
        "<p>aaa</p>\n<p>bbb</p>\n",
    );
}

#[test]
fn parse_example_222() {
    assert_parse(
        "  aaa\n bbb\n",
        "<p>aaa\nbbb</p>\n",
    );
}

#[test]
fn parse_example_223() {
    assert_parse(
        "aaa\n             bbb\n                                       ccc\n",
        "<p>aaa\nbbb\nccc</p>\n",
    );
}
