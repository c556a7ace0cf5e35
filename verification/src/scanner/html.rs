//! The openers of HTML blocks, and the attributes of a tag.
use crate::scanner::line::{blank_line_len, same_length, scan_blank_line};
use crate::text::{
    is_letter, is_letter_byte, is_whitespace, is_whitespace_byte, lemma_len_fits, lemma_run_end,
    lower_byte, run_end, skip_run, to_lower, ByteClass,
};
use vstd::prelude::*;
use vstd::string::StringSliceAdditionalSpecFns;

verus! {

/// Whether the pattern stands in the text at `index`, byte for byte.
pub open spec fn occurs_at(text: Seq<u8>, index: int, pattern: Seq<u8>) -> bool {
    &&& 0 <= index
    &&& index + pattern.len() <= text.len()
    &&& forall|k: int| 0 <= k < pattern.len() ==> text[index + k] == #[trigger] pattern[k]
}

/// Whether the pattern, given in lower case, stands in the text at `index`
/// when the case of ASCII letters is left aside.
pub open spec fn occurs_at_ignoring_case(text: Seq<u8>, index: int, pattern: Seq<u8>) -> bool {
    &&& 0 <= index
    &&& index + pattern.len() <= text.len()
    &&& forall|k: int|
        0 <= k < pattern.len() ==> lower_byte(text[index + k]) == #[trigger] pattern[k]
}

/// Whether the pattern stands somewhere in the text between `from` and `to`.
pub open spec fn occurs_within(text: Seq<u8>, from: int, to: int, pattern: Seq<u8>) -> bool {
    exists|k: int| from <= k && k + pattern.len() <= to && #[trigger] occurs_at(text, k, pattern)
}

/// Tells whether the pattern stands in the text at `index`; with
/// `ignore_case`, the pattern is in lower case and matches upper case too.
pub fn starts_with(text: &[u8], index: usize, pattern: &[u8], ignore_case: bool) -> (r: bool)
    ensures
        r == if ignore_case {
            occurs_at_ignoring_case(text@, index as int, pattern@)
        } else {
            occurs_at(text@, index as int, pattern@)
        },
{
    if index > text.len() || pattern.len() > text.len() - index {
        return false;
    }
    proof {
        lemma_len_fits(text);
    }
    let mut k: usize = 0;
    while k < pattern.len()
        invariant
            k <= pattern@.len(),
            index + pattern@.len() <= text@.len(),
            text@.len() <= usize::MAX,
            forall|j: int|
                0 <= j < k ==> (if ignore_case {
                    lower_byte(text@[index + j])
                } else {
                    text@[index + j]
                }) == #[trigger] pattern@[j],
        decreases pattern@.len() - k,
    {
        let byte = if ignore_case {
            to_lower(text[index + k])
        } else {
            text[index + k]
        };
        if byte != pattern[k] {
            return false;
        }
        k += 1;
    }
    true
}

/// Tells whether the pattern stands somewhere in the text between `from` and `to`.
pub fn contains(text: &[u8], from: usize, to: usize, pattern: &[u8]) -> (r: bool)
    requires
        to <= text@.len(),
    ensures
        r == occurs_within(text@, from as int, to as int, pattern@),
{
    if from > to || pattern.len() > to - from {
        return false;
    }
    let last = to - pattern.len();
    let mut k: usize = from;
    while k <= last
        invariant
            from <= k <= last + 1,
            last + pattern@.len() == to,
            to <= text@.len(),
            forall|j: int| from <= j < k ==> !#[trigger] occurs_at(text@, j, pattern@),
        decreases last + 1 - k,
    {
        if starts_with(text, k, pattern, false) {
            return true;
        }
        k += 1;
    }
    false
}

/// How an HTML block that starts with a given opener ends: by the marker
/// that closes it.
#[derive(Clone, Copy, Debug, PartialEq, Eq, Structural)]
pub enum HtmlBlockEnd {
    Pre,
    Style,
    Script,
    Textarea,
    Comment,
    Instruction,
    CData,
    Declaration,
}

impl HtmlBlockEnd {
    /// What follows `<` in the opener.
    pub open spec fn opener(self) -> Seq<u8> {
        match self {
            HtmlBlockEnd::Pre => "pre".spec_bytes(),
            HtmlBlockEnd::Style => "style".spec_bytes(),
            HtmlBlockEnd::Script => "script".spec_bytes(),
            HtmlBlockEnd::Textarea => "textarea".spec_bytes(),
            HtmlBlockEnd::Comment => "!--".spec_bytes(),
            HtmlBlockEnd::Instruction => "?".spec_bytes(),
            HtmlBlockEnd::CData => "![CDATA[".spec_bytes(),
            HtmlBlockEnd::Declaration => "!".spec_bytes(),
        }
    }

    /// The marker that closes the block.
    pub open spec fn marker(self) -> Seq<u8> {
        match self {
            HtmlBlockEnd::Pre => "</pre>".spec_bytes(),
            HtmlBlockEnd::Style => "</style>".spec_bytes(),
            HtmlBlockEnd::Script => "</script>".spec_bytes(),
            HtmlBlockEnd::Textarea => "</textarea>".spec_bytes(),
            HtmlBlockEnd::Comment => "-->".spec_bytes(),
            HtmlBlockEnd::Instruction => "?>".spec_bytes(),
            HtmlBlockEnd::CData => "]]>".spec_bytes(),
            HtmlBlockEnd::Declaration => ">".spec_bytes(),
        }
    }

    /// Whether the opener is the name of a tag, which may be in either case
    /// and must end where the name ends.
    pub open spec fn is_tag(self) -> bool {
        match self {
            HtmlBlockEnd::Pre => true,
            HtmlBlockEnd::Style => true,
            HtmlBlockEnd::Script => true,
            HtmlBlockEnd::Textarea => true,
            _ => false,
        }
    }

    /// Whether this opener stands in the text at `index`, which is the place after `<`.
    pub open spec fn opens(self, text: Seq<u8>, index: int) -> bool {
        let end = index + self.opener().len();
        if self.is_tag() {
            occurs_at_ignoring_case(text, index, self.opener()) && (end >= text.len()
                || is_whitespace_byte(text[end]) || text[end] == 0x3e)
        } else if self == HtmlBlockEnd::Declaration {
            occurs_at(text, index, self.opener()) && end < text.len() && is_letter_byte(text[end])
        } else {
            occurs_at(text, index, self.opener())
        }
    }

    /// Gives what follows `<` in the opener.
    pub fn opener_str(self) -> (r: &'static str)
        ensures
            r.spec_bytes() == self.opener(),
    {
        match self {
            HtmlBlockEnd::Pre => "pre",
            HtmlBlockEnd::Style => "style",
            HtmlBlockEnd::Script => "script",
            HtmlBlockEnd::Textarea => "textarea",
            HtmlBlockEnd::Comment => "!--",
            HtmlBlockEnd::Instruction => "?",
            HtmlBlockEnd::CData => "![CDATA[",
            HtmlBlockEnd::Declaration => "!",
        }
    }

    /// Gives the marker that closes the block.
    pub fn marker_str(self) -> (r: &'static str)
        ensures
            r.spec_bytes() == self.marker(),
    {
        match self {
            HtmlBlockEnd::Pre => "</pre>",
            HtmlBlockEnd::Style => "</style>",
            HtmlBlockEnd::Script => "</script>",
            HtmlBlockEnd::Textarea => "</textarea>",
            HtmlBlockEnd::Comment => "-->",
            HtmlBlockEnd::Instruction => "?>",
            HtmlBlockEnd::CData => "]]>",
            HtmlBlockEnd::Declaration => ">",
        }
    }

    /// Tells whether this opener stands in the text at `index`, the place after `<`.
    pub fn scan_opener(self, text: &[u8], index: usize) -> (r: bool)
        ensures
            r == self.opens(text@, index as int),
    {
        let opener = self.opener_str().as_bytes();
        let is_tag = match self {
            HtmlBlockEnd::Pre => true,
            HtmlBlockEnd::Style => true,
            HtmlBlockEnd::Script => true,
            HtmlBlockEnd::Textarea => true,
            _ => false,
        };
        if !starts_with(text, index, opener, is_tag) {
            return false;
        }
        proof {
            lemma_len_fits(text);
        }
        let end = index + opener.len();
        if is_tag {
            end >= text.len() || is_whitespace(text[end]) || text[end] == 0x3e
        } else {
            match self {
                HtmlBlockEnd::Declaration => end < text.len() && is_letter(text[end]),
                _ => true,
            }
        }
    }
}

/// How the HTML block that opens at `index` ends, for the openers that name
/// their own closing marker: `<pre`, `<style`, `<script` and `<textarea` in
/// either case, followed by white space, `>` or the end of the text; `<!--`;
/// `<?`; `<![CDATA[`; and `<!` followed by a letter.
pub open spec fn html_block_end(text: Seq<u8>, index: int) -> Option<HtmlBlockEnd> {
    if !(0 <= index < text.len() && text[index] == 0x3c) {
        None
    } else if HtmlBlockEnd::Pre.opens(text, index + 1) {
        Some(HtmlBlockEnd::Pre)
    } else if HtmlBlockEnd::Style.opens(text, index + 1) {
        Some(HtmlBlockEnd::Style)
    } else if HtmlBlockEnd::Script.opens(text, index + 1) {
        Some(HtmlBlockEnd::Script)
    } else if HtmlBlockEnd::Textarea.opens(text, index + 1) {
        Some(HtmlBlockEnd::Textarea)
    } else if HtmlBlockEnd::Comment.opens(text, index + 1) {
        Some(HtmlBlockEnd::Comment)
    } else if HtmlBlockEnd::Instruction.opens(text, index + 1) {
        Some(HtmlBlockEnd::Instruction)
    } else if HtmlBlockEnd::CData.opens(text, index + 1) {
        Some(HtmlBlockEnd::CData)
    } else if HtmlBlockEnd::Declaration.opens(text, index + 1) {
        Some(HtmlBlockEnd::Declaration)
    } else {
        None
    }
}

/// Looks at `index` for the opener of an HTML block that names its own
/// closing marker, and returns how the block ends.
pub fn scan_html_block_type_1_to_5(text: &[u8], index: usize) -> (r: Option<HtmlBlockEnd>)
    ensures
        r == html_block_end(text@, index as int),
{
    if index >= text.len() || text[index] != 0x3c {
        return None;
    }
    let after = index + 1;
    if HtmlBlockEnd::Pre.scan_opener(text, after) {
        Some(HtmlBlockEnd::Pre)
    } else if HtmlBlockEnd::Style.scan_opener(text, after) {
        Some(HtmlBlockEnd::Style)
    } else if HtmlBlockEnd::Script.scan_opener(text, after) {
        Some(HtmlBlockEnd::Script)
    } else if HtmlBlockEnd::Textarea.scan_opener(text, after) {
        Some(HtmlBlockEnd::Textarea)
    } else if HtmlBlockEnd::Comment.scan_opener(text, after) {
        Some(HtmlBlockEnd::Comment)
    } else if HtmlBlockEnd::Instruction.scan_opener(text, after) {
        Some(HtmlBlockEnd::Instruction)
    } else if HtmlBlockEnd::CData.scan_opener(text, after) {
        Some(HtmlBlockEnd::CData)
    } else if HtmlBlockEnd::Declaration.scan_opener(text, after) {
        Some(HtmlBlockEnd::Declaration)
    } else {
        None
    }
}

/// The number of tag names that open an HTML block wherever they stand.
pub const BLOCK_TAG_COUNT: usize = 62;

/// The names of the tags that open an HTML block, in lower case and in
/// alphabetical order.
pub open spec fn block_tag_name(k: int) -> Seq<u8> {
    block_tag_str(k).spec_bytes()
}

/// The names of the tags that open an HTML block, as strings.
pub open spec fn block_tag_str(k: int) -> &'static str {
    if k == 0 {
        "address"
    } else if k == 1 {
        "article"
    } else if k == 2 {
        "aside"
    } else if k == 3 {
        "base"
    } else if k == 4 {
        "basefont"
    } else if k == 5 {
        "blockquote"
    } else if k == 6 {
        "body"
    } else if k == 7 {
        "caption"
    } else if k == 8 {
        "center"
    } else if k == 9 {
        "col"
    } else if k == 10 {
        "colgroup"
    } else if k == 11 {
        "dd"
    } else if k == 12 {
        "details"
    } else if k == 13 {
        "dialog"
    } else if k == 14 {
        "dir"
    } else if k == 15 {
        "div"
    } else if k == 16 {
        "dl"
    } else if k == 17 {
        "dt"
    } else if k == 18 {
        "fieldset"
    } else if k == 19 {
        "figcaption"
    } else if k == 20 {
        "figure"
    } else if k == 21 {
        "footer"
    } else if k == 22 {
        "form"
    } else if k == 23 {
        "frame"
    } else if k == 24 {
        "frameset"
    } else if k == 25 {
        "h1"
    } else if k == 26 {
        "h2"
    } else if k == 27 {
        "h3"
    } else if k == 28 {
        "h4"
    } else if k == 29 {
        "h5"
    } else if k == 30 {
        "h6"
    } else if k == 31 {
        "head"
    } else if k == 32 {
        "header"
    } else if k == 33 {
        "hr"
    } else if k == 34 {
        "html"
    } else if k == 35 {
        "iframe"
    } else if k == 36 {
        "legend"
    } else if k == 37 {
        "li"
    } else if k == 38 {
        "link"
    } else if k == 39 {
        "main"
    } else if k == 40 {
        "menu"
    } else if k == 41 {
        "menuitem"
    } else if k == 42 {
        "nav"
    } else if k == 43 {
        "noframes"
    } else if k == 44 {
        "ol"
    } else if k == 45 {
        "optgroup"
    } else if k == 46 {
        "option"
    } else if k == 47 {
        "p"
    } else if k == 48 {
        "param"
    } else if k == 49 {
        "section"
    } else if k == 50 {
        "source"
    } else if k == 51 {
        "summary"
    } else if k == 52 {
        "table"
    } else if k == 53 {
        "tbody"
    } else if k == 54 {
        "td"
    } else if k == 55 {
        "tfoot"
    } else if k == 56 {
        "th"
    } else if k == 57 {
        "thead"
    } else if k == 58 {
        "title"
    } else if k == 59 {
        "tr"
    } else if k == 60 {
        "track"
    } else {
        "ul"
    }
}

/// Gives the name of the tag with the given number.
pub fn block_tag(k: usize) -> (r: &'static str)
    requires
        k < BLOCK_TAG_COUNT,
    ensures
        r.spec_bytes() == block_tag_name(k as int),
{
    match k {
        0 => "address",
        1 => "article",
        2 => "aside",
        3 => "base",
        4 => "basefont",
        5 => "blockquote",
        6 => "body",
        7 => "caption",
        8 => "center",
        9 => "col",
        10 => "colgroup",
        11 => "dd",
        12 => "details",
        13 => "dialog",
        14 => "dir",
        15 => "div",
        16 => "dl",
        17 => "dt",
        18 => "fieldset",
        19 => "figcaption",
        20 => "figure",
        21 => "footer",
        22 => "form",
        23 => "frame",
        24 => "frameset",
        25 => "h1",
        26 => "h2",
        27 => "h3",
        28 => "h4",
        29 => "h5",
        30 => "h6",
        31 => "head",
        32 => "header",
        33 => "hr",
        34 => "html",
        35 => "iframe",
        36 => "legend",
        37 => "li",
        38 => "link",
        39 => "main",
        40 => "menu",
        41 => "menuitem",
        42 => "nav",
        43 => "noframes",
        44 => "ol",
        45 => "optgroup",
        46 => "option",
        47 => "p",
        48 => "param",
        49 => "section",
        50 => "source",
        51 => "summary",
        52 => "table",
        53 => "tbody",
        54 => "td",
        55 => "tfoot",
        56 => "th",
        57 => "thead",
        58 => "title",
        59 => "tr",
        60 => "track",
        _ => "ul",
    }
}

/// Whether the text from `from` up to `to` is the name with the given number, in either case.
pub open spec fn is_block_tag_at(text: Seq<u8>, from: int, to: int, k: int) -> bool {
    to - from == block_tag_name(k).len() && occurs_at_ignoring_case(text, from, block_tag_name(k))
}

/// Whether the text from `from` up to `to` is one of the names, in either case.
pub open spec fn is_block_tag(text: Seq<u8>, from: int, to: int) -> bool {
    exists|k: int| 0 <= k < BLOCK_TAG_COUNT && #[trigger] is_block_tag_at(text, from, to, k)
}

/// Where the name of the tag that opens at `index` starts: after `<`, or after `</`.
pub open spec fn tag_name_start(text: Seq<u8>, index: int) -> int {
    if index + 1 < text.len() && text[index + 1] == 0x2f {
        index + 2
    } else {
        index + 1
    }
}

/// Whether at `index` stands `<` or `</` and then, as the whole run of
/// letters and digits, one of the names of the tags that open an HTML block.
pub open spec fn is_html_block_6(text: Seq<u8>, index: int) -> bool {
    &&& 0 <= index < text.len()
    &&& text[index] == 0x3c
    &&& is_block_tag(
        text,
        tag_name_start(text, index),
        run_end(text, ByteClass::Alphanumeric, tag_name_start(text, index)),
    )
}

/// Looks at `index` for a tag that opens an HTML block by its name.
pub fn scan_html_block_type_6(text: &[u8], index: usize) -> (r: bool)
    ensures
        r == is_html_block_6(text@, index as int),
{
    if index >= text.len() || text[index] != 0x3c {
        return false;
    }
    let start = if index + 1 < text.len() && text[index + 1] == 0x2f {
        index + 2
    } else {
        index + 1
    };
    let end = skip_run(text, ByteClass::Alphanumeric, start);
    let mut k: usize = 0;
    while k < BLOCK_TAG_COUNT
        invariant
            k <= BLOCK_TAG_COUNT,
            start <= end,
            index < text@.len(),
            text@[index as int] == 0x3c,
            start == tag_name_start(text@, index as int),
            end == run_end(text@, ByteClass::Alphanumeric, start as int),
            forall|j: int|
                0 <= j < k ==> !#[trigger] is_block_tag_at(text@, start as int, end as int, j),
        decreases BLOCK_TAG_COUNT - k,
    {
        let name = block_tag(k).as_bytes();
        if name.len() == end - start && starts_with(text, start, name, true) {
            assert(is_block_tag_at(text@, start as int, end as int, k as int));
            return true;
        }
        k += 1;
    }
    false
}

/// Whether an attribute's name may start with the byte: a letter, `_` or `:`.
pub open spec fn is_attribute_start(byte: u8) -> bool {
    is_letter_byte(byte) || byte == 0x5f || byte == 0x3a
}

/// Where the attribute value that starts at `index` ends: after its closing
/// quote, if it starts with `"` or `'` and the same quote follows on the
/// line; else after its bytes without quotes, if there is one at least.
pub open spec fn attribute_value_end(text: Seq<u8>, index: int) -> Option<int> {
    if 0 <= index < text.len() && (text[index] == 0x22 || text[index] == 0x27) {
        let close = run_end(text, ByteClass::LineContentExcept(text[index]), index + 1);
        if close < text.len() && text[close] == text[index] {
            Some(close + 1)
        } else {
            None
        }
    } else {
        let end = run_end(text, ByteClass::UnquotedValue, index);
        if 0 <= index < end {
            Some(end)
        } else {
            None
        }
    }
}

/// The length of the attribute that starts at `index`: its name, and with
/// it `=` and a value, with white space around the `=` or without, where a
/// value follows.
pub open spec fn attribute_len(text: Seq<u8>, index: int) -> Option<int> {
    if 0 <= index < text.len() && is_attribute_start(text[index]) {
        let name_end = run_end(text, ByteClass::AttributeName, index + 1);
        let equals = run_end(text, ByteClass::Blank, name_end);
        if equals < text.len() && text[equals] == 0x3d {
            match attribute_value_end(text, run_end(text, ByteClass::Blank, equals + 1)) {
                Some(end) => Some(end - index),
                None => Some(name_end - index),
            }
        } else {
            Some(name_end - index)
        }
    } else {
        None
    }
}

/// Where the attributes that start at `index` end, each of them after white space.
pub open spec fn attributes_end(text: Seq<u8>, index: int) -> int
    decreases text.len() - index,
{
    let start = run_end(text, ByteClass::Blank, index);
    if index < start {
        match attribute_len(text, start) {
            Some(length) => if length > 0 && start + length <= text.len() {
                attributes_end(text, start + length)
            } else {
                index
            },
            None => index,
        }
    } else {
        index
    }
}

/// Whether at `index` stands a whole tag with only white space after it on
/// the line: `<`, a name of letters and digits, attributes, white space, `/`
/// if any, and `>`; or `</`, a name, white space and `>`.
pub open spec fn is_html_block_7(text: Seq<u8>, index: int) -> bool {
    let closing = index + 1 < text.len() && text[index + 1] == 0x2f;
    let start = tag_name_start(text, index);
    let name_end = run_end(text, ByteClass::Alphanumeric, start);
    let attributes = if closing {
        name_end
    } else {
        attributes_end(text, name_end)
    };
    let gap = run_end(text, ByteClass::Blank, attributes);
    let last = if !closing && gap < text.len() && text[gap] == 0x2f {
        gap + 1
    } else {
        gap
    };
    &&& 0 <= index < text.len()
    &&& text[index] == 0x3c
    &&& start < name_end
    &&& last < text.len()
    &&& text[last] == 0x3e
    &&& blank_line_len(text, last + 1).is_some()
}

/// An attribute is at least one byte long and lies within the text.
pub proof fn lemma_attribute_len(text: Seq<u8>, index: int)
    ensures
        match attribute_len(text, index) {
            Some(length) => 1 <= length && index + length <= text.len(),
            None => true,
        },
{
    if 0 <= index < text.len() && is_attribute_start(text[index]) {
        let name_end = run_end(text, ByteClass::AttributeName, index + 1);
        lemma_run_end(text, ByteClass::AttributeName, index + 1);
        let equals = run_end(text, ByteClass::Blank, name_end);
        lemma_run_end(text, ByteClass::Blank, name_end);
        if equals < text.len() && text[equals] == 0x3d {
            let value = run_end(text, ByteClass::Blank, equals + 1);
            lemma_run_end(text, ByteClass::Blank, equals + 1);
            if 0 <= value < text.len() && (text[value] == 0x22 || text[value] == 0x27) {
                lemma_run_end(text, ByteClass::LineContentExcept(text[value]), value + 1);
            } else {
                lemma_run_end(text, ByteClass::UnquotedValue, value);
            }
        }
    }
}

/// Looks for the value of an attribute at `index` and returns the index after it.
pub fn scan_attribute_value(text: &[u8], index: usize) -> (r: Option<usize>)
    ensures
        same_length(r, attribute_value_end(text@, index as int)),
{
    if index < text.len() && (text[index] == 0x22 || text[index] == 0x27) {
        let quote = text[index];
        let close = skip_run(text, ByteClass::LineContentExcept(quote), index + 1);
        if close < text.len() && text[close] == quote {
            Some(close + 1)
        } else {
            None
        }
    } else {
        let end = skip_run(text, ByteClass::UnquotedValue, index);
        if index < end {
            Some(end)
        } else {
            None
        }
    }
}

/// Looks for an attribute at `index` and returns its length.
pub fn scan_attribute(text: &[u8], index: usize) -> (r: Option<usize>)
    ensures
        same_length(r, attribute_len(text@, index as int)),
{
    if index >= text.len() {
        return None;
    }
    let first = text[index];
    if !(is_letter(first) || first == 0x5f || first == 0x3a) {
        return None;
    }
    let name_end = skip_run(text, ByteClass::AttributeName, index + 1);
    let equals = skip_run(text, ByteClass::Blank, name_end);
    proof {
        lemma_attribute_len(text@, index as int);
    }
    if equals < text.len() && text[equals] == 0x3d {
        let value = skip_run(text, ByteClass::Blank, equals + 1);
        match scan_attribute_value(text, value) {
            Some(end) => Some(end - index),
            None => Some(name_end - index),
        }
    } else {
        Some(name_end - index)
    }
}

/// Returns the index after the attributes that start at `index`.
pub fn parse_attributes(text: &[u8], index: usize) -> (r: usize)
    ensures
        r == attributes_end(text@, index as int),
        index <= r,
        index <= text@.len() ==> r <= text@.len(),
{
    let mut i: usize = index;
    loop
        invariant
            index <= i,
            index <= text@.len() ==> i <= text@.len(),
            attributes_end(text@, i as int) == attributes_end(text@, index as int),
        ensures
            index <= i,
            index <= text@.len() ==> i <= text@.len(),
            i == attributes_end(text@, index as int),
        decreases text@.len() - i,
    {
        let start = skip_run(text, ByteClass::Blank, i);
        if start == i {
            break ;
        }
        proof {
            lemma_len_fits(text);
            lemma_attribute_len(text@, start as int);
        }
        match scan_attribute(text, start) {
            Some(length) => {
                i = start + length;
            },
            None => {
                break ;
            },
        }
    }
    i
}

/// Looks at `index` for a whole tag that has the rest of its line to itself.
pub fn scan_html_block_type_7(text: &[u8], index: usize) -> (r: bool)
    ensures
        r == is_html_block_7(text@, index as int),
{
    if index >= text.len() || text[index] != 0x3c {
        return false;
    }
    let closing = index + 1 < text.len() && text[index + 1] == 0x2f;
    let start = if closing {
        index + 2
    } else {
        index + 1
    };
    let name_end = skip_run(text, ByteClass::Alphanumeric, start);
    if name_end == start {
        return false;
    }
    let attributes = if closing {
        name_end
    } else {
        parse_attributes(text, name_end)
    };
    let gap = skip_run(text, ByteClass::Blank, attributes);
    let last = if !closing && gap < text.len() && text[gap] == 0x2f {
        gap + 1
    } else {
        gap
    };
    if last >= text.len() || text[last] != 0x3e {
        return false;
    }
    scan_blank_line(text, last + 1).is_some()
}

} // verus!
