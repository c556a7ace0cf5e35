//! The openers of leaf blocks: thematic breaks, headings and code fences.
use crate::scanner::line::{
    blank_line_len, lemma_line_end, lemma_line_ending_len, lemma_run_within_line, line_end,
    line_ending_len, next_line, same_length, scan_blank_line, scan_line_ending,
};
use crate::text::{lemma_run_end, lemma_run_end_is, run_end, skip_run, ByteClass};
use crate::types::heading::HeadingLevel;
use vstd::prelude::*;

verus! {

/// How often the byte occurs in the text from `from` up to `to`.
pub open spec fn count_byte(text: Seq<u8>, byte: u8, from: int, to: int) -> int
    decreases to - from,
{
    if from >= to || to > text.len() || from < 0 {
        0
    } else {
        count_byte(text, byte, from, to - 1) + if text[to - 1] == byte {
            1int
        } else {
            0int
        }
    }
}

/// The bytes a thematic break may be drawn with: `*`, `-` and `_`.
pub open spec fn is_break_marker(byte: u8) -> bool {
    byte == 0x2a || byte == 0x2d || byte == 0x5f
}

/// Whether the text from `from` up to `to` holds the marker three times or
/// more and besides it only spaces and tabs.
pub open spec fn is_break_line(text: Seq<u8>, marker: u8, from: int, to: int) -> bool {
    &&& forall|k: int|
        from <= k < to ==> #[trigger] text[k] == marker || text[k] == 0x20 || text[k] == 0x09
    &&& count_byte(text, marker, from, to) >= 3
}

/// The length of the thematic break that starts at `index`, its line ending
/// included: after at most 3 spaces, the line holds one marker three times
/// or more, and besides it only spaces and tabs.
pub open spec fn thematic_break_len(text: Seq<u8>, index: int) -> Option<int> {
    let start = run_end(text, ByteClass::Space, index);
    let first = run_end(text, ByteClass::SpaceOrTab, start);
    if 0 <= index && start - index < 4 && first < text.len() && is_break_marker(text[first])
        && is_break_line(text, text[first], start, line_end(text, start)) {
        Some(next_line(text, index) - index)
    } else {
        None
    }
}

/// The level of the ATX heading that starts at `index`: after at most 3
/// spaces stand 1 to 6 `#`, and after them white space or the end of the text.
pub open spec fn atx_heading_level(text: Seq<u8>, index: int) -> Option<HeadingLevel> {
    let start = run_end(text, ByteClass::Space, index);
    let end = run_end(text, ByteClass::Exactly(0x23), start);
    if 0 <= index && start - index < 4 && (end >= text.len() || crate::text::is_whitespace_byte(
        text[end],
    )) {
        HeadingLevel::of_number(end - start)
    } else {
        None
    }
}

/// The setext underline that starts at `index`: a run of `=` for a heading
/// of level 1, or of `-` for level 2, with only white space after it on the
/// line. The length includes the line ending.
pub open spec fn setext_underline(text: Seq<u8>, index: int) -> Option<(int, HeadingLevel)> {
    if 0 <= index < text.len() && (text[index] == 0x3d || text[index] == 0x2d) {
        let end = run_end(text, ByteClass::Exactly(text[index]), index);
        match blank_line_len(text, end) {
            Some(length) => Some(
                (
                    end - index + length,
                    if text[index] == 0x3d {
                        HeadingLevel::H1
                    } else {
                        HeadingLevel::H2
                    },
                ),
            ),
            None => None,
        }
    } else {
        None
    }
}

/// The code fence that opens at `index`: a run of three or more backticks or
/// tildes, given by its length and its byte. After a run of backticks the
/// line must hold no further backtick.
pub open spec fn opening_code_fence(text: Seq<u8>, index: int) -> Option<(int, u8)> {
    if 0 <= index < text.len() && (text[index] == 0x60 || text[index] == 0x7e) {
        let byte = text[index];
        let end = run_end(text, ByteClass::Exactly(byte), index);
        let stop = run_end(text, ByteClass::LineContentExcept(0x60), end);
        if end - index >= 3 && (byte == 0x7e || stop >= text.len() || text[stop] != 0x60) {
            Some((end - index, byte))
        } else {
            None
        }
    } else {
        None
    }
}

/// The length of the code fence that closes at `index`, its line ending
/// included: a run of at least `count` times `byte`, and then the line's end.
pub open spec fn closing_code_fence_len(text: Seq<u8>, index: int, byte: u8, count: int) -> Option<
    int,
> {
    let end = run_end(text, ByteClass::Exactly(byte), index);
    if 0 <= index && end - index >= count {
        match line_ending_len(text, end) {
            Some(length) => Some(end - index + length),
            None => None,
        }
    } else {
        None
    }
}

/// A count is not negative, and not more than the bytes counted over.
pub proof fn lemma_count_byte_bounds(text: Seq<u8>, byte: u8, from: int, to: int)
    ensures
        0 <= count_byte(text, byte, from, to),
        from <= to ==> count_byte(text, byte, from, to) <= to - from,
    decreases to - from,
{
    if !(from >= to || to > text.len() || from < 0) {
        lemma_count_byte_bounds(text, byte, from, to - 1);
    }
}

/// A thematic break is at least 3 bytes long and ends where its line ends.
pub proof fn lemma_thematic_break_len(text: Seq<u8>, index: int)
    ensures
        match thematic_break_len(text, index) {
            Some(length) => 3 <= length && index + length == next_line(text, index) && index
                + length <= text.len(),
            None => true,
        },
{
    if thematic_break_len(text, index).is_some() {
        let start = run_end(text, ByteClass::Space, index);
        lemma_run_end(text, ByteClass::Space, index);
        lemma_run_within_line(text, ByteClass::Space, index);
        lemma_line_end(text, index);
        lemma_line_end(text, start);
        lemma_count_byte_bounds(
            text,
            text[run_end(text, ByteClass::SpaceOrTab, start)],
            start,
            line_end(text, start),
        );
    }
}

/// Looks for a thematic break at `index` and returns its length, line ending included.
pub fn scan_thematic_break(text: &[u8], index: usize) -> (r: Option<usize>)
    ensures
        same_length(r, thematic_break_len(text@, index as int)),
{
    let start = skip_run(text, ByteClass::Space, index);
    if start - index >= 4 {
        return None;
    }
    let first = skip_run(text, ByteClass::SpaceOrTab, start);
    if first >= text.len() {
        return None;
    }
    let marker = text[first];
    if !(marker == 0x2a || marker == 0x2d || marker == 0x5f) {
        return None;
    }
    let mut i: usize = start;
    let mut count: usize = 0;
    while i < text.len() && (text[i] == marker || text[i] == 0x20 || text[i] == 0x09)
        invariant
            start <= i <= text@.len(),
            count == count_byte(text@, marker, start as int, i as int),
            count <= i - start,
            forall|k: int|
                start <= k < i ==> #[trigger] text@[k] == marker || text@[k] == 0x20 || text@[k]
                    == 0x09,
        decreases text@.len() - i,
    {
        if text[i] == marker {
            count += 1;
        }
        i += 1;
    }
    proof {
        lemma_run_end(text@, ByteClass::Space, index as int);
        lemma_run_within_line(text@, ByteClass::Space, index as int);
        lemma_line_end(text@, start as int);
        lemma_line_ending_len(text@, i as int);
        if line_ending_len(text@, i as int).is_some() {
            lemma_run_end_is(text@, ByteClass::LineContent, start as int, i as int);
        }
    }
    match scan_line_ending(text, i) {
        Some(length) => {
            if count >= 3 {
                Some(i - index + length)
            } else {
                None
            }
        },
        None => None,
    }
}

/// Looks for an ATX heading at `index` and returns its level.
pub fn scan_atx_heading(text: &[u8], index: usize) -> (r: Option<HeadingLevel>)
    ensures
        r == atx_heading_level(text@, index as int),
{
    let start = skip_run(text, ByteClass::Space, index);
    if start - index >= 4 {
        return None;
    }
    let end = skip_run(text, ByteClass::Exactly(0x23), start);
    if end >= text.len() || crate::text::is_whitespace(text[end]) {
        match HeadingLevel::try_from(end - start) {
            Ok(level) => Some(level),
            Err(_) => None,
        }
    } else {
        None
    }
}

/// Looks for a setext underline at `index` and returns its length, line
/// ending included, and the level of the heading it makes.
pub fn scan_setext_heading(text: &[u8], index: usize) -> (r: Option<(usize, HeadingLevel)>)
    ensures
        match (r, setext_underline(text@, index as int)) {
            (Some(found), Some(wanted)) => found.0 == wanted.0 && found.1 == wanted.1,
            (None, None) => true,
            _ => false,
        },
{
    if index >= text.len() {
        return None;
    }
    let byte = text[index];
    if byte != 0x3d && byte != 0x2d {
        return None;
    }
    let end = skip_run(text, ByteClass::Exactly(byte), index);
    proof {
        lemma_run_end(text@, ByteClass::Blank, end as int);
        lemma_line_ending_len(text@, run_end(text@, ByteClass::Blank, end as int));
    }
    match scan_blank_line(text, end) {
        Some(length) => {
            let level = if byte == 0x3d {
                HeadingLevel::H1
            } else {
                HeadingLevel::H2
            };
            Some((end - index + length, level))
        },
        None => None,
    }
}

/// Looks for an opening code fence at `index` and returns the length of its
/// run and the byte it is made of.
pub fn scan_opening_code_fence(text: &[u8], index: usize) -> (r: Option<(usize, u8)>)
    ensures
        match (r, opening_code_fence(text@, index as int)) {
            (Some(found), Some(wanted)) => found.0 == wanted.0 && found.1 == wanted.1,
            (None, None) => true,
            _ => false,
        },
{
    if index >= text.len() {
        return None;
    }
    let byte = text[index];
    if byte != 0x60 && byte != 0x7e {
        return None;
    }
    let end = skip_run(text, ByteClass::Exactly(byte), index);
    if end - index < 3 {
        return None;
    }
    if byte == 0x60 {
        let stop = skip_run(text, ByteClass::LineContentExcept(0x60), end);
        if stop < text.len() && text[stop] == 0x60 {
            return None;
        }
    }
    Some((end - index, byte))
}

/// Looks for a closing code fence of at least `opening_count` times `byte`
/// at `index`, and returns its length, line ending included.
pub fn scan_closing_code_fence(text: &[u8], index: usize, byte: u8, opening_count: usize) -> (r:
    Option<usize>)
    ensures
        same_length(r, closing_code_fence_len(text@, index as int, byte, opening_count as int)),
{
    let end = skip_run(text, ByteClass::Exactly(byte), index);
    if end - index < opening_count {
        return None;
    }
    proof {
        crate::text::lemma_len_fits(text);
        lemma_line_ending_len(text@, end as int);
    }
    match scan_line_ending(text, end) {
        Some(length) => Some(end - index + length),
        None => None,
    }
}

/// An ATX heading starts with as many `#` as its level says.
pub proof fn lemma_atx_heading_level(text: Seq<u8>, index: int)
    ensures
        match atx_heading_level(text, index) {
            Some(level) => {
                let start = run_end(text, ByteClass::Space, index);
                &&& start + level.number() == run_end(text, ByteClass::Exactly(0x23), start)
                &&& start < start + level.number() <= text.len()
                &&& text[start] == 0x23
            },
            None => true,
        },
{
    let start = run_end(text, ByteClass::Space, index);
    lemma_run_end(text, ByteClass::Space, index);
    lemma_run_end(text, ByteClass::Exactly(0x23), start);
}

/// A closing code fence ends within the text, where its line ends.
pub proof fn lemma_closing_code_fence_len(text: Seq<u8>, index: int, byte: u8, count: int)
    requires
        count > 0,
    ensures
        match closing_code_fence_len(text, index, byte, count) {
            Some(length) => index < index + length <= text.len(),
            None => true,
        },
{
    let end = run_end(text, ByteClass::Exactly(byte), index);
    lemma_run_end(text, ByteClass::Exactly(byte), index);
    lemma_line_ending_len(text, end);
}

/// An opening code fence is made of three bytes or more, all of them
/// backticks or all of them tildes, and lies within its line.
pub proof fn lemma_opening_code_fence(text: Seq<u8>, index: int)
    ensures
        match opening_code_fence(text, index) {
            Some(found) => {
                &&& 3 <= found.0
                &&& index + found.0 <= text.len()
                &&& found.1 == 0x60 || found.1 == 0x7e
                &&& forall|k: int| index <= k < index + found.0 ==> #[trigger] text[k] == found.1
                &&& line_end(text, index + found.0) == line_end(text, index)
            },
            None => true,
        },
{
    if opening_code_fence(text, index).is_some() {
        let byte = text[index];
        lemma_run_end(text, ByteClass::Exactly(byte), index);
        crate::text::lemma_run_end_within(
            text,
            ByteClass::Exactly(byte),
            ByteClass::LineContent,
            index,
        );
    }
}

} // verus!
