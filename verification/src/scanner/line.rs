//! Lines: where they end, whether they are blank, and how far they are indented.
use crate::text::{lemma_len_fits, lemma_run_end, run_end, skip_run, ByteClass};
use vstd::prelude::*;

verus! {

/// Whether an executable length says the same as a specified one.
pub open spec fn same_length(found: Option<usize>, wanted: Option<int>) -> bool {
    match (found, wanted) {
        (Some(a), Some(b)) => a as int == b,
        (None, None) => true,
        _ => false,
    }
}

/// The length of the line ending that starts at `index`: 1 for a line feed,
/// 2 for a carriage return with a line feed, 1 for a carriage return alone,
/// 0 at the end of the text. Any other byte is no line ending.
pub open spec fn line_ending_len(text: Seq<u8>, index: int) -> Option<int> {
    if index >= text.len() {
        Some(0)
    } else if index < 0 {
        None
    } else if text[index] == 0x0a {
        Some(1)
    } else if text[index] == 0x0d {
        if index + 1 < text.len() && text[index + 1] == 0x0a {
            Some(2)
        } else {
            Some(1)
        }
    } else {
        None
    }
}

/// The index of the first line-ending byte at or after `index`, or the length of the text.
pub open spec fn line_end(text: Seq<u8>, index: int) -> int {
    run_end(text, ByteClass::LineContent, index)
}

/// The index at which the line after the one that holds `index` starts.
pub open spec fn next_line(text: Seq<u8>, index: int) -> int {
    let end = line_end(text, index);
    match line_ending_len(text, end) {
        Some(length) => end + length,
        None => end,
    }
}

/// The length of the rest of a line that holds only white space, its line
/// ending included; `None` if anything else stands before the line's end.
pub open spec fn blank_line_len(text: Seq<u8>, index: int) -> Option<int> {
    let end = run_end(text, ByteClass::Blank, index);
    match line_ending_len(text, end) {
        Some(length) => Some(end - index + length),
        None => None,
    }
}

/// The column that the white space from `index` on reaches, when it starts
/// in `column`, counted up to 4: a space is one column, and a tab goes to
/// the next multiple of 4.
pub open spec fn indent_from(text: Seq<u8>, index: int, column: int) -> int
    decreases text.len() - index,
{
    if column >= 4 {
        4
    } else if 0 <= index < text.len() && text[index] == 0x20 {
        indent_from(text, index + 1, column + 1)
    } else if 0 <= index < text.len() && text[index] == 0x09 {
        4
    } else if column < 0 {
        0
    } else {
        column
    }
}

/// The indent of the line content that starts at `index`, from 0 to 4.
pub open spec fn indent(text: Seq<u8>, index: int) -> int {
    indent_from(text, index, 0)
}

/// The column to which a tab leads from `column`.
pub open spec fn tab_stop(column: int) -> int {
    column + 4 - column % 4
}

/// The index after the white space that fills at most `limit` columns,
/// from `index` on and starting in `column`.
pub open spec fn indent_end_from(text: Seq<u8>, index: int, column: int, limit: int) -> int
    decreases text.len() - index,
{
    if 0 <= index < text.len() && 0 <= column && text[index] == 0x20 && column + 1 <= limit {
        indent_end_from(text, index + 1, column + 1, limit)
    } else if 0 <= index < text.len() && 0 <= column && text[index] == 0x09 && tab_stop(column)
        <= limit {
        indent_end_from(text, index + 1, tab_stop(column), limit)
    } else {
        index
    }
}

/// The index after the indent of at most `limit` columns that starts at `index`.
pub open spec fn indent_end(text: Seq<u8>, index: int, limit: int) -> int {
    indent_end_from(text, index, 0, limit)
}

/// A line ending is at most 2 bytes long and lies within the text.
pub proof fn lemma_line_ending_len(text: Seq<u8>, index: int)
    ensures
        match line_ending_len(text, index) {
            Some(length) => 0 <= length <= 2 && (index <= text.len() ==> index + length
                <= text.len()) && (length == 0 <==> index >= text.len()),
            None => 0 <= index < text.len() ==> ByteClass::LineContent.holds(text[index]),
        },
{
}

/// A line ends at or after each of its bytes and within the text, and at its
/// end stands a line ending.
pub proof fn lemma_line_end(text: Seq<u8>, index: int)
    ensures
        index <= line_end(text, index),
        index <= text.len() ==> line_end(text, index) <= text.len(),
        0 <= index ==> line_ending_len(text, line_end(text, index)).is_some(),
        index <= line_end(text, index) <= next_line(text, index),
        index <= text.len() ==> next_line(text, index) <= text.len(),
        0 <= index < text.len() ==> index < next_line(text, index),
        forall|k: int|
            0 <= index <= k < line_end(text, index) ==> ByteClass::LineContent.holds(
                #[trigger] text[k],
            ),
{
    lemma_run_end(text, ByteClass::LineContent, index);
    lemma_line_ending_len(text, line_end(text, index));
}

/// All places of one line have the same line end.
pub proof fn lemma_line_end_from_inside(text: Seq<u8>, index: int, inside: int)
    requires
        0 <= index <= inside <= line_end(text, index),
    ensures
        line_end(text, inside) == line_end(text, index),
        next_line(text, inside) == next_line(text, index),
{
    crate::text::lemma_run_end_from_inside(text, ByteClass::LineContent, index, inside);
}

/// A run of bytes that do not end a line stays within the line.
pub proof fn lemma_run_within_line(text: Seq<u8>, class: ByteClass, index: int)
    requires
        0 <= index,
        forall|byte: u8| class.holds(byte) ==> ByteClass::LineContent.holds(byte),
    ensures
        run_end(text, class, index) <= line_end(text, index),
        line_end(text, run_end(text, class, index)) == line_end(text, index),
        next_line(text, run_end(text, class, index)) == next_line(text, index),
    decreases text.len() - index,
{
    lemma_run_end(text, ByteClass::LineContent, index);
    if index < text.len() && class.holds(text[index]) {
        lemma_run_within_line(text, class, index + 1);
    }
}

/// The indent is between 0 and 4.
pub proof fn lemma_indent_from(text: Seq<u8>, index: int, column: int)
    ensures
        0 <= indent_from(text, index, column) <= 4,
        0 <= column ==> column <= indent_from(text, index, column) || indent_from(
            text,
            index,
            column,
        ) == 4,
    decreases text.len() - index,
{
    if column < 4 && 0 <= index < text.len() && text[index] == 0x20 {
        lemma_indent_from(text, index + 1, column + 1);
    }
}

/// The end of an indent lies at or after its start, within the line, and all
/// bytes up to it are spaces or tabs.
pub proof fn lemma_indent_end_from(text: Seq<u8>, index: int, column: int, limit: int)
    ensures
        index <= indent_end_from(text, index, column, limit),
        0 <= index ==> indent_end_from(text, index, column, limit) <= run_end(
            text,
            ByteClass::SpaceOrTab,
            index,
        ),
        index <= text.len() ==> indent_end_from(text, index, column, limit) <= text.len(),
    decreases text.len() - index,
{
    lemma_run_end(text, ByteClass::SpaceOrTab, index);
    if 0 <= index < text.len() && 0 <= column && text[index] == 0x20 && column + 1 <= limit {
        lemma_indent_end_from(text, index + 1, column + 1, limit);
    } else if 0 <= index < text.len() && 0 <= column && text[index] == 0x09 && tab_stop(column)
        <= limit {
        lemma_indent_end_from(text, index + 1, tab_stop(column), limit);
    }
}

/// Looks for a line ending at `index` and returns its length.
pub fn scan_line_ending(text: &[u8], index: usize) -> (r: Option<usize>)
    ensures
        same_length(r, line_ending_len(text@, index as int)),
{
    if index >= text.len() {
        return Some(0);
    }
    let byte = text[index];
    if byte == 0x0a {
        Some(1)
    } else if byte == 0x0d {
        if index + 1 < text.len() && text[index + 1] == 0x0a {
            Some(2)
        } else {
            Some(1)
        }
    } else {
        None
    }
}

/// Looks for a blank line at `index` and returns its length, line ending included.
pub fn scan_blank_line(text: &[u8], index: usize) -> (r: Option<usize>)
    ensures
        same_length(r, blank_line_len(text@, index as int)),
{
    let new_index = parse_non_line_ending_whitespaces(text, index);
    proof {
        lemma_len_fits(text);
        lemma_line_ending_len(text@, new_index as int);
    }
    match scan_line_ending(text, new_index) {
        Some(length) => Some(new_index - index + length),
        None => None,
    }
}

/// Returns the index after the spaces and tabs that start at `index`.
pub fn parse_spaces_or_tabs(text: &[u8], index: usize) -> (r: usize)
    ensures
        r == run_end(text@, ByteClass::SpaceOrTab, index as int),
        index <= r,
        index <= text@.len() ==> r <= text@.len(),
{
    skip_run(text, ByteClass::SpaceOrTab, index)
}

/// Returns the index after the spaces that start at `index`.
pub fn parse_spaces(text: &[u8], index: usize) -> (r: usize)
    ensures
        r == run_end(text@, ByteClass::Space, index as int),
        index <= r,
        index <= text@.len() ==> r <= text@.len(),
{
    skip_run(text, ByteClass::Space, index)
}

/// Returns the index after the white space within the line that starts at `index`.
pub fn parse_non_line_ending_whitespaces(text: &[u8], index: usize) -> (r: usize)
    ensures
        r == run_end(text@, ByteClass::Blank, index as int),
        index <= r,
        index <= text@.len() ==> r <= text@.len(),
{
    skip_run(text, ByteClass::Blank, index)
}

/// Returns the index at which the next line starts.
pub fn skip_line(text: &[u8], index: usize) -> (r: usize)
    ensures
        r == next_line(text@, index as int),
        index <= r,
        index <= text@.len() ==> r <= text@.len(),
        index < text@.len() ==> index < r,
{
    let end = skip_run(text, ByteClass::LineContent, index);
    proof {
        lemma_len_fits(text);
        lemma_line_end(text@, index as int);
        lemma_line_ending_len(text@, end as int);
    }
    match scan_line_ending(text, end) {
        Some(length) => end + length,
        None => end,
    }
}

/// Measures the indent at `index`, counted up to 4.
pub fn scan_indent(text: &[u8], index: usize) -> (r: usize)
    ensures
        r == indent(text@, index as int),
        r <= 4,
{
    let mut i: usize = index;
    let mut column: usize = 0;
    proof {
        lemma_indent_from(text@, index as int, 0);
    }
    while column < 4 && i < text.len() && text[i] == 0x20
        invariant
            index <= i,
            column <= 4,
            indent_from(text@, i as int, column as int) == indent(text@, index as int),
        decreases text@.len() - i,
    {
        i += 1;
        column += 1;
    }
    if column < 4 && i < text.len() && text[i] == 0x09 {
        4
    } else {
        column
    }
}

/// Tells whether the indent at `index` is of 4 columns.
pub fn scan_indent_4(text: &[u8], index: usize) -> (r: bool)
    ensures
        r == (indent(text@, index as int) == 4),
{
    scan_indent(text, index) == 4
}

/// Returns the index after the indent of at most `limit` columns that starts at `index`.
pub fn parse_indent(text: &[u8], index: usize, limit: usize) -> (r: usize)
    ensures
        r == indent_end(text@, index as int, limit as int),
        index <= r,
        index <= text@.len() ==> r <= text@.len(),
{
    let mut i: usize = index;
    let mut column: usize = 0;
    proof {
        lemma_indent_end_from(text@, index as int, 0, limit as int);
    }
    loop
        invariant
            index <= i,
            index <= text@.len() ==> i <= text@.len(),
            column <= limit,
            indent_end_from(text@, i as int, column as int, limit as int) == indent_end(
                text@,
                index as int,
                limit as int,
            ),
        ensures
            i == indent_end(text@, index as int, limit as int),
        decreases text@.len() - i,
    {
        if i >= text.len() {
            break ;
        }
        let byte = text[i];
        if byte == 0x20 && column < limit {
            column += 1;
        } else if byte == 0x09 && limit - column >= 4 - column % 4 {
            column += 4 - column % 4;
        } else {
            break ;
        }
        i += 1;
    }
    i
}

/// Returns the index after the indent of at most 4 columns that starts at `index`.
pub fn parse_indent_0_to_4(text: &[u8], index: usize) -> (r: usize)
    ensures
        r == indent_end(text@, index as int, 4),
        index <= r,
        index <= text@.len() ==> r <= text@.len(),
{
    parse_indent(text, index, 4)
}

} // verus!
