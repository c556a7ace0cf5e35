//! Documents with block quotes, code blocks, HTML blocks and setext
//! headings, from Markdown to HTML.
use markdown::html::push_html;
use markdown::parser::Parser;

fn html(text: &str) -> String {
    let mut buffer = String::new();
    push_html(&mut buffer, Parser::new(text));
    buffer
}

#[test]
fn block_quote_with_heading_and_paragraph() {
    assert_eq!(
        html("> # Foo\n> bar\n> baz\n"),
        "<blockquote>\n<h1>Foo</h1>\n<p>bar\nbaz</p>\n</blockquote>\n"
    );
}

#[test]
fn block_quote_marker_without_space() {
    assert_eq!(
        html("># Foo\n>bar\n> baz\n"),
        "<blockquote>\n<h1>Foo</h1>\n<p>bar\nbaz</p>\n</blockquote>\n"
    );
}

#[test]
fn block_quote_marker_indented() {
    assert_eq!(
        html("   > # Foo\n   > bar\n > baz\n"),
        "<blockquote>\n<h1>Foo</h1>\n<p>bar\nbaz</p>\n</blockquote>\n"
    );
}

#[test]
fn block_quote_marker_indented_too_far_is_code() {
    assert_eq!(
        html("    > # Foo\n    > bar\n    > baz\n"),
        "<pre><code>&gt; # Foo\n&gt; bar\n&gt; baz\n</code></pre>\n"
    );
}

#[test]
fn paragraph_in_block_quote_goes_on_lazily() {
    assert_eq!(
        html("> # Foo\n> bar\nbaz\n"),
        "<blockquote>\n<h1>Foo</h1>\n<p>bar\nbaz</p>\n</blockquote>\n"
    );
    assert_eq!(html("> bar\nbaz\n> foo\n"), "<blockquote>\n<p>bar\nbaz\nfoo</p>\n</blockquote>\n");
}

#[test]
fn lazy_line_is_no_underline() {
    assert_eq!(html("> foo\n---\n"), "<blockquote>\n<p>foo</p>\n</blockquote>\n<hr />\n");
    assert_eq!(html("> foo\n===\n"), "<blockquote>\n<p>foo\n===</p>\n</blockquote>\n");
}

#[test]
fn code_in_block_quote_does_not_go_on_lazily() {
    assert_eq!(
        html(">     foo\n    bar\n"),
        "<blockquote>\n<pre><code>foo\n</code></pre>\n</blockquote>\n<pre><code>bar\n</code></pre>\n"
    );
    assert_eq!(
        html("> ```\nfoo\n```\n"),
        "<blockquote>\n<pre><code></code></pre>\n</blockquote>\n<p>foo</p>\n<pre><code></code></pre>\n"
    );
}

#[test]
fn empty_block_quotes() {
    assert_eq!(html(">\n"), "<blockquote>\n</blockquote>\n");
    assert_eq!(html(">\n>  \n> \n"), "<blockquote>\n</blockquote>\n");
    assert_eq!(html(">"), "<blockquote>\n</blockquote>\n");
}

#[test]
fn block_quote_with_blank_lines_at_its_ends() {
    assert_eq!(html(">\n> foo\n>  \n"), "<blockquote>\n<p>foo</p>\n</blockquote>\n");
}

#[test]
fn blank_line_separates_block_quotes() {
    assert_eq!(
        html("> foo\n\n> bar\n"),
        "<blockquote>\n<p>foo</p>\n</blockquote>\n<blockquote>\n<p>bar</p>\n</blockquote>\n"
    );
}

#[test]
fn block_quote_holds_two_paragraphs() {
    assert_eq!(html("> foo\n>\n> bar\n"), "<blockquote>\n<p>foo</p>\n<p>bar</p>\n</blockquote>\n");
}

#[test]
fn block_quote_interrupts_paragraph() {
    assert_eq!(html("foo\n> bar\n"), "<p>foo</p>\n<blockquote>\n<p>bar</p>\n</blockquote>\n");
}

#[test]
fn block_quote_between_thematic_breaks() {
    assert_eq!(
        html("> aaa\n***\n> bbb\n"),
        "<blockquote>\n<p>aaa</p>\n</blockquote>\n<hr />\n<blockquote>\n<p>bbb</p>\n</blockquote>\n"
    );
}

#[test]
fn nested_block_quotes() {
    assert_eq!(
        html("> > > foo\nbar\n"),
        "<blockquote>\n<blockquote>\n<blockquote>\n<p>foo\nbar</p>\n</blockquote>\n</blockquote>\n</blockquote>\n"
    );
    assert_eq!(
        html(">>> foo\n> bar\n>>baz\n"),
        "<blockquote>\n<blockquote>\n<blockquote>\n<p>foo\nbar\nbaz</p>\n</blockquote>\n</blockquote>\n</blockquote>\n"
    );
    assert_eq!(
        html("> a\n> > b\n> c\n"),
        "<blockquote>\n<p>a</p>\n<blockquote>\n<p>b\nc</p>\n</blockquote>\n</blockquote>\n"
    );
    assert_eq!(
        html("> > a\n>\n> b\n"),
        "<blockquote>\n<blockquote>\n<p>a</p>\n</blockquote>\n<p>b</p>\n</blockquote>\n"
    );
}

#[test]
fn indented_code_in_block_quote_needs_five_columns() {
    assert_eq!(
        html(">     code\n\n>    not code\n"),
        "<blockquote>\n<pre><code>code\n</code></pre>\n</blockquote>\n<blockquote>\n<p>not code</p>\n</blockquote>\n"
    );
}

#[test]
fn indented_code_block() {
    assert_eq!(
        html("    a simple\n      indented code block\n"),
        "<pre><code>a simple\n  indented code block\n</code></pre>\n"
    );
}

#[test]
fn indented_code_is_taken_as_it_is() {
    assert_eq!(
        html("    <a/>\n    *hi*\n\n    - one\n"),
        "<pre><code>&lt;a/&gt;\n*hi*\n\n- one\n</code></pre>\n"
    );
}

#[test]
fn indented_code_keeps_blank_lines_inside() {
    assert_eq!(
        html("    chunk1\n\n    chunk2\n  \n \n \n    chunk3\n"),
        "<pre><code>chunk1\n\nchunk2\n\n\n\nchunk3\n</code></pre>\n"
    );
    assert_eq!(
        html("    chunk1\n      \n      chunk2\n"),
        "<pre><code>chunk1\n  \n  chunk2\n</code></pre>\n"
    );
}

#[test]
fn indented_code_drops_blank_lines_at_its_end() {
    assert_eq!(html("    foo  \n\n  \n"), "<pre><code>foo  \n</code></pre>\n");
    assert_eq!(html("    foo\n\n\nbar\n"), "<pre><code>foo\n</code></pre>\n<p>bar</p>\n");
}

#[test]
fn indented_code_with_tabs() {
    assert_eq!(html("\tfoo\tbaz\t\tbim\n"), "<pre><code>foo\tbaz\t\tbim\n</code></pre>\n");
    assert_eq!(html("  \tfoo\tbaz\t\tbim\n"), "<pre><code>foo\tbaz\t\tbim\n</code></pre>\n");
    assert_eq!(html("    a\ta\n    ὐ\ta\n"), "<pre><code>a\ta\nὐ\ta\n</code></pre>\n");
    assert_eq!(html(" \tfoo\n"), "<pre><code>foo\n</code></pre>\n");
}

#[test]
fn indented_line_goes_on_with_paragraph() {
    assert_eq!(html("Foo\n    bar\n"), "<p>Foo\nbar</p>\n");
}

#[test]
fn indented_code_follows_other_blocks_at_once() {
    assert_eq!(
        html("# Heading\n    foo\nHeading\n------\n    foo\n----\n"),
        "<h1>Heading</h1>\n<pre><code>foo\n</code></pre>\n<h2>Heading</h2>\n<pre><code>foo\n</code></pre>\n<hr />\n"
    );
}

#[test]
fn indented_code_without_line_ending() {
    assert_eq!(html("    foo"), "<pre><code>foo</code></pre>\n");
}

#[test]
fn fenced_code_blocks() {
    assert_eq!(html("```\n<\n >\n```\n"), "<pre><code>&lt;\n &gt;\n</code></pre>\n");
    assert_eq!(html("~~~\n<\n >\n~~~\n"), "<pre><code>&lt;\n &gt;\n</code></pre>\n");
}

#[test]
fn fence_needs_three_bytes() {
    assert_eq!(html("``\nfoo\n``\n"), "<p>``\nfoo\n``</p>\n");
}

#[test]
fn fence_is_closed_by_its_own_byte() {
    assert_eq!(html("```\naaa\n~~~\n```\n"), "<pre><code>aaa\n~~~\n</code></pre>\n");
    assert_eq!(html("~~~\naaa\n```\n~~~\n"), "<pre><code>aaa\n```\n</code></pre>\n");
}

#[test]
fn fence_is_closed_by_as_many_bytes_at_least() {
    assert_eq!(html("````\naaa\n```\n``````\n"), "<pre><code>aaa\n```\n</code></pre>\n");
    assert_eq!(html("~~~~\naaa\n~~~\n~~~~\n"), "<pre><code>aaa\n~~~\n</code></pre>\n");
}

#[test]
fn fence_left_open_ends_with_the_text() {
    assert_eq!(html("```\n"), "<pre><code></code></pre>\n");
    assert_eq!(html("`````\n\n```\naaa\n"), "<pre><code>\n```\naaa\n</code></pre>\n");
    assert_eq!(html("```\nabc"), "<pre><code>abc</code></pre>\n");
}

#[test]
fn fence_left_open_ends_with_its_block_quote() {
    assert_eq!(
        html("> ```\n> aaa\n\nbbb\n"),
        "<blockquote>\n<pre><code>aaa\n</code></pre>\n</blockquote>\n<p>bbb</p>\n"
    );
}

#[test]
fn fenced_code_may_hold_blank_lines_only() {
    assert_eq!(html("```\n\n  \n```\n"), "<pre><code>\n  \n</code></pre>\n");
    assert_eq!(html("```\n```\n"), "<pre><code></code></pre>\n");
}

#[test]
fn fence_indent_is_taken_from_its_lines() {
    assert_eq!(html(" ```\n aaa\naaa\n```\n"), "<pre><code>aaa\naaa\n</code></pre>\n");
    assert_eq!(
        html("  ```\naaa\n  aaa\naaa\n  ```\n"),
        "<pre><code>aaa\naaa\naaa\n</code></pre>\n"
    );
    assert_eq!(
        html("   ```\n   aaa\n    aaa\n  aaa\n   ```\n"),
        "<pre><code>aaa\n aaa\naaa\n</code></pre>\n"
    );
}

#[test]
fn fence_indented_too_far_is_code() {
    assert_eq!(html("    ```\n    aaa\n    ```\n"), "<pre><code>```\naaa\n```\n</code></pre>\n");
}

#[test]
fn closing_fence_may_be_indented_by_three_spaces() {
    assert_eq!(html("```\naaa\n  ```\n"), "<pre><code>aaa\n</code></pre>\n");
    assert_eq!(html("   ```\naaa\n  ```\n"), "<pre><code>aaa\n</code></pre>\n");
    assert_eq!(html("```\naaa\n    ```\n"), "<pre><code>aaa\n    ```\n</code></pre>\n");
}

#[test]
fn fence_may_not_hold_spaces() {
    assert_eq!(html("~~~~~~\naaa\n~~~ ~~\n"), "<pre><code>aaa\n~~~ ~~\n</code></pre>\n");
}

#[test]
fn fenced_code_interrupts_paragraph() {
    assert_eq!(html("foo\n```\nbar\n```\nbaz\n"), "<p>foo</p>\n<pre><code>bar\n</code></pre>\n<p>baz</p>\n");
}

#[test]
fn fenced_code_between_headings() {
    assert_eq!(
        html("foo\n---\n~~~\nbar\n~~~\n# baz\n"),
        "<h2>foo</h2>\n<pre><code>bar\n</code></pre>\n<h1>baz</h1>\n"
    );
}

#[test]
fn info_string_names_the_language() {
    assert_eq!(
        html("```ruby\ndef foo(x)\n  return 3\nend\n```\n"),
        "<pre><code class=\"language-ruby\">def foo(x)\n  return 3\nend\n</code></pre>\n"
    );
    assert_eq!(
        html("~~~~    ruby startline=3 $%@#$\ndef foo(x)\n  return 3\nend\n~~~~~~~\n"),
        "<pre><code class=\"language-ruby\">def foo(x)\n  return 3\nend\n</code></pre>\n"
    );
    assert_eq!(html("````;\n````\n"), "<pre><code class=\"language-;\"></code></pre>\n");
    assert_eq!(
        html("~~~ aa ``` ~~~\nfoo\n~~~\n"),
        "<pre><code class=\"language-aa\">foo\n</code></pre>\n"
    );
}

#[test]
fn closing_fence_has_no_info_string() {
    assert_eq!(html("```\n``` aaa\n```\n"), "<pre><code>``` aaa\n</code></pre>\n");
}

#[test]
fn setext_headings() {
    assert_eq!(html("Foo\n===\n"), "<h1>Foo</h1>\n");
    assert_eq!(html("Foo\n---\n"), "<h2>Foo</h2>\n");
    assert_eq!(html("Foo\n-------------------------\n\nFoo\n=\n"), "<h2>Foo</h2>\n<h1>Foo</h1>\n");
}

#[test]
fn setext_heading_of_several_lines() {
    assert_eq!(html("Foo\nbar\n===\n"), "<h1>Foo\nbar</h1>\n");
}

#[test]
fn setext_heading_loses_white_space_at_its_ends() {
    assert_eq!(html("  Foo bar  \t\n  ===\n"), "<h1>Foo bar</h1>\n");
    assert_eq!(html("Foo\r\n===\r\n"), "<h1>Foo</h1>\n");
}

#[test]
fn setext_underline_may_be_indented_by_three_spaces() {
    assert_eq!(
        html("   Foo\n---\n\n  Foo\n-----\n\n  Foo\n  ===\n"),
        "<h2>Foo</h2>\n<h2>Foo</h2>\n<h1>Foo</h1>\n"
    );
    assert_eq!(html("Foo\n   ----      \n"), "<h2>Foo</h2>\n");
    assert_eq!(html("Foo\n    ---\n"), "<p>Foo\n---</p>\n");
}

#[test]
fn setext_underline_may_not_hold_spaces() {
    assert_eq!(html("Foo\n= =\n\nFoo\n--- -\n"), "<p>Foo\n= =</p>\n<p>Foo</p>\n<hr />\n");
}

#[test]
fn setext_underline_needs_a_paragraph() {
    assert_eq!(html("\n====\n"), "<p>====</p>\n");
    assert_eq!(html("---\n---\n"), "<hr />\n<hr />\n");
    assert_eq!(html("    foo\n---\n"), "<pre><code>foo\n</code></pre>\n<hr />\n");
    assert_eq!(html("> foo\n-----\n"), "<blockquote>\n<p>foo</p>\n</blockquote>\n<hr />\n");
}

#[test]
fn setext_heading_between_paragraphs() {
    assert_eq!(
        html("Foo\n\nbar\n---\nbaz\n"),
        "<p>Foo</p>\n<h2>bar</h2>\n<p>baz</p>\n"
    );
    assert_eq!(html("Foo\nbar\n\n---\n\nbaz\n"), "<p>Foo\nbar</p>\n<hr />\n<p>baz</p>\n");
    assert_eq!(html("Foo\nbar\n* * *\nbaz\n"), "<p>Foo\nbar</p>\n<hr />\n<p>baz</p>\n");
}

#[test]
fn thematic_break_after_paragraph_needs_another_marker() {
    assert_eq!(html("Foo\n***\nbar\n"), "<p>Foo</p>\n<hr />\n<p>bar</p>\n");
    assert_eq!(html("Foo\n---\nbar\n"), "<h2>Foo</h2>\n<p>bar</p>\n");
}

#[test]
fn html_block_by_tag_name_ends_at_blank_line() {
    assert_eq!(html("<div>\n*hello*\n</div>\n\nfoo\n"), "<div>\n*hello*\n</div>\n<p>foo</p>\n");
    assert_eq!(html(" <div>\n  *hello*\n         <foo><a>\n"), " <div>\n  *hello*\n         <foo><a>\n");
    assert_eq!(html("</div>\n*foo*\n"), "</div>\n*foo*\n");
    assert_eq!(html("<DIV CLASS=\"foo\">\n\nbar\n"), "<DIV CLASS=\"foo\">\n<p>bar</p>\n");
}

#[test]
fn html_block_by_tag_name_interrupts_paragraph() {
    assert_eq!(html("Foo\n<div>\nbar\n</div>\n"), "<p>Foo</p>\n<div>\nbar\n</div>\n");
}

#[test]
fn html_block_of_a_lone_tag() {
    assert_eq!(html("<a href=\"foo\">\n*bar*\n</a>\n"), "<a href=\"foo\">\n*bar*\n</a>\n");
    assert_eq!(html("<Warning>\n*bar*\n</Warning>\n"), "<Warning>\n*bar*\n</Warning>\n");
    assert_eq!(html("</ins>\n*bar*\n"), "</ins>\n*bar*\n");
    assert_eq!(html("<del>\n\nfoo\n"), "<del>\n<p>foo</p>\n");
}

#[test]
fn lone_tag_does_not_interrupt_paragraph() {
    assert_eq!(html("Foo\n<a href=\"bar\">\nbaz\n"), "<p>Foo\n&lt;a href=&quot;bar&quot;&gt;\nbaz</p>\n");
}

#[test]
fn tag_with_text_after_it_is_no_block() {
    assert_eq!(html("<del>foo</del>\n"), "<p>&lt;del&gt;foo&lt;/del&gt;</p>\n");
}

#[test]
fn html_block_with_its_own_end() {
    assert_eq!(
        html("<pre language=\"haskell\"><code>\nimport Text.HTML.TagSoup\n\nmain :: IO ()\n</code></pre>\nokay\n"),
        "<pre language=\"haskell\"><code>\nimport Text.HTML.TagSoup\n\nmain :: IO ()\n</code></pre>\n<p>okay</p>\n"
    );
    assert_eq!(
        html("<script type=\"text/javascript\">\n// JavaScript example\n\ndocument.write(\"x\");\n</script>\nokay\n"),
        "<script type=\"text/javascript\">\n// JavaScript example\n\ndocument.write(\"x\");\n</script>\n<p>okay</p>\n"
    );
    assert_eq!(
        html("<style\n  type=\"text/css\">\n\nfoo\n"),
        "<style\n  type=\"text/css\">\n\nfoo\n"
    );
}

#[test]
fn html_block_may_end_on_its_first_line() {
    assert_eq!(html("<style>p{color:red;}</style>\n*foo*\n"), "<style>p{color:red;}</style>\n<p>*foo*</p>\n");
    assert_eq!(html("<!-- foo -->*bar*\n*baz*\n"), "<!-- foo -->*bar*\n<p>*baz*</p>\n");
}

#[test]
fn html_comment_instruction_declaration_and_cdata() {
    assert_eq!(html("<!-- Foo\n\nbar\n   baz -->\nokay\n"), "<!-- Foo\n\nbar\n   baz -->\n<p>okay</p>\n");
    assert_eq!(html("<?php\n\n  echo '>';\n\n?>\nokay\n"), "<?php\n\n  echo '>';\n\n?>\n<p>okay</p>\n");
    assert_eq!(html("<!DOCTYPE html>\n"), "<!DOCTYPE html>\n");
    assert_eq!(
        html("<![CDATA[\nfunction matchwo(a,b)\n{\n  return 1;\n}\n]]>\nokay\n"),
        "<![CDATA[\nfunction matchwo(a,b)\n{\n  return 1;\n}\n]]>\n<p>okay</p>\n"
    );
}

#[test]
fn html_block_indented_too_far_is_code() {
    assert_eq!(
        html("  <!-- foo -->\n\n    <!-- foo -->\n"),
        "  <!-- foo -->\n<pre><code>&lt;!-- foo --&gt;\n</code></pre>\n"
    );
}

#[test]
fn html_block_in_block_quote_ends_with_it() {
    assert_eq!(
        html("> <div>\n> foo\n\nbar\n"),
        "<blockquote>\n<div>\nfoo\n</blockquote>\n<p>bar</p>\n"
    );
}

#[test]
fn line_endings_of_each_kind() {
    assert_eq!(html("a\r\nb\r\n"), "<p>a\r\nb</p>\n");
    assert_eq!(html("a\rb\r"), "<p>a\rb</p>\n");
    assert_eq!(html("***\r\n---\r___"), "<hr />\n<hr />\n<hr />\n");
    assert_eq!(html("# a\r\nb\r\n\r\nc"), "<h1>a</h1>\n<p>b</p>\n<p>c</p>\n");
    assert_eq!(html("    a\r\n    b\r\n"), "<pre><code>a\r\nb\r\n</code></pre>\n");
}

#[test]
fn text_without_line_ending_at_its_end() {
    assert_eq!(html("abc"), "<p>abc</p>\n");
    assert_eq!(html("# abc"), "<h1>abc</h1>\n");
    assert_eq!(html("abc\n==="), "<h1>abc</h1>\n");
    assert_eq!(html("> abc"), "<blockquote>\n<p>abc</p>\n</blockquote>\n");
}

#[test]
fn blank_text_gives_nothing() {
    assert_eq!(html(""), "");
    assert_eq!(html("\n"), "");
    assert_eq!(html("  \n\n \t\n"), "");
    assert_eq!(html("   "), "");
}

#[test]
fn text_outside_ascii_passes_through() {
    assert_eq!(html("h\u{e9}llo\n> w\u{f6}rld \u{1f600}\n"), "<p>h\u{e9}llo</p>\n<blockquote>\n<p>w\u{f6}rld \u{1f600}</p>\n</blockquote>\n");
    assert_eq!(html("# \u{3042}\u{3044} #\n"), "<h1>\u{3042}\u{3044}</h1>\n");
    assert_eq!(html("``` \u{e9}\n\u{e9}\n```\n"), "<pre><code class=\"language-\u{e9}\">\u{e9}\n</code></pre>\n");
}

#[test]
fn text_is_escaped() {
    assert_eq!(html("a < b & c > d \"e\"\n"), "<p>a &lt; b &amp; c &gt; d &quot;e&quot;</p>\n");
    assert_eq!(html("# <&>\n"), "<h1>&lt;&amp;&gt;</h1>\n");
}
