//! Bytes of the input: the classes of byte the grammar tells apart, runs of
//! bytes of one class, and the places where the input may be cut into slices.
use vstd::prelude::*;
use vstd::string::StringSliceAdditionalSpecFns;
use vstd::utf8::{is_char_boundary, valid_utf8};

verus! {

/// A set of bytes that the grammar treats alike.
#[derive(Clone, Copy, Debug, PartialEq, Eq, Structural)]
pub enum ByteClass {
    /// The space, 0x20.
    Space,
    /// The space and the tab.
    SpaceOrTab,
    /// White space that does not end a line: tab, vertical tab, form feed, space.
    Blank,
    /// Any byte but line feed and carriage return.
    LineContent,
    /// One given byte.
    Exactly(u8),
    /// ASCII letters and digits.
    Alphanumeric,
    /// What may follow the first byte of an attribute's name.
    AttributeName,
    /// What an attribute's value without quotes is made of.
    UnquotedValue,
    /// Any byte of a line but the given one.
    LineContentExcept(u8),
    /// Any byte but the given one.
    Except(u8),
    /// Any byte that HTML takes as it is: all but `"`, `&`, `<` and `>`.
    Unescaped,
}

pub open spec fn is_line_ending_byte(byte: u8) -> bool {
    byte == 0x0a || byte == 0x0d
}

pub open spec fn is_blank_byte(byte: u8) -> bool {
    byte == 0x09 || byte == 0x0b || byte == 0x0c || byte == 0x20
}

pub open spec fn is_whitespace_byte(byte: u8) -> bool {
    0x09 <= byte <= 0x0d || byte == 0x20
}

pub open spec fn is_letter_byte(byte: u8) -> bool {
    0x41 <= byte <= 0x5a || 0x61 <= byte <= 0x7a
}

pub open spec fn is_alphanumeric_byte(byte: u8) -> bool {
    is_letter_byte(byte) || 0x30 <= byte <= 0x39
}

/// The lower-case form of an ASCII letter; any other byte stays as it is.
pub open spec fn lower_byte(byte: u8) -> u8 {
    if 0x41 <= byte <= 0x5a {
        (byte + 0x20) as u8
    } else {
        byte
    }
}

impl ByteClass {
    /// Whether the byte belongs to the class.
    pub open spec fn holds(self, byte: u8) -> bool {
        match self {
            ByteClass::Space => byte == 0x20,
            ByteClass::SpaceOrTab => byte == 0x20 || byte == 0x09,
            ByteClass::Blank => is_blank_byte(byte),
            ByteClass::LineContent => !is_line_ending_byte(byte),
            ByteClass::Exactly(wanted) => byte == wanted,
            ByteClass::Alphanumeric => is_alphanumeric_byte(byte),
            ByteClass::AttributeName => is_alphanumeric_byte(byte) || byte == 0x5f || byte == 0x3a
                || byte == 0x2e || byte == 0x2d,
            ByteClass::UnquotedValue => !is_whitespace_byte(byte) && byte != 0x3d && byte != 0x3c
                && byte != 0x3e && byte != 0x60,
            ByteClass::LineContentExcept(other) => byte != other && !is_line_ending_byte(byte),
            ByteClass::Except(other) => byte != other,
            ByteClass::Unescaped => byte != 0x22 && byte != 0x26 && byte != 0x3c && byte != 0x3e,
        }
    }

    /// Tells whether the byte belongs to the class.
    pub fn contains(self, byte: u8) -> (r: bool)
        ensures
            r == self.holds(byte),
    {
        match self {
            ByteClass::Space => byte == 0x20,
            ByteClass::SpaceOrTab => byte == 0x20 || byte == 0x09,
            ByteClass::Blank => is_non_line_ending_whitespaces(byte),
            ByteClass::LineContent => !is_line_ending(byte),
            ByteClass::Exactly(wanted) => byte == wanted,
            ByteClass::Alphanumeric => is_alphanumeric(byte),
            ByteClass::AttributeName => is_alphanumeric(byte) || byte == 0x5f || byte == 0x3a
                || byte == 0x2e || byte == 0x2d,
            ByteClass::UnquotedValue => !is_whitespace(byte) && byte != 0x3d && byte != 0x3c
                && byte != 0x3e && byte != 0x60,
            ByteClass::LineContentExcept(other) => byte != other && !is_line_ending(byte),
            ByteClass::Except(other) => byte != other,
            ByteClass::Unescaped => byte != 0x22 && byte != 0x26 && byte != 0x3c && byte != 0x3e,
        }
    }
}

/// Tells whether the byte is a line feed or a carriage return.
pub fn is_line_ending(byte: u8) -> (r: bool)
    ensures
        r == is_line_ending_byte(byte),
{
    byte == 0x0a || byte == 0x0d
}

/// Tells whether the byte is white space that does not end a line.
pub fn is_non_line_ending_whitespaces(byte: u8) -> (r: bool)
    ensures
        r == is_blank_byte(byte),
{
    byte == 0x09 || byte == 0x0b || byte == 0x0c || byte == 0x20
}

/// Tells whether the byte is white space of any kind.
pub fn is_whitespace(byte: u8) -> (r: bool)
    ensures
        r == is_whitespace_byte(byte),
{
    (0x09 <= byte && byte <= 0x0d) || byte == 0x20
}

/// Tells whether the byte is an ASCII letter.
pub fn is_letter(byte: u8) -> (r: bool)
    ensures
        r == is_letter_byte(byte),
{
    (0x41 <= byte && byte <= 0x5a) || (0x61 <= byte && byte <= 0x7a)
}

/// Tells whether the byte is an ASCII letter or digit.
pub fn is_alphanumeric(byte: u8) -> (r: bool)
    ensures
        r == is_alphanumeric_byte(byte),
{
    is_letter(byte) || (0x30 <= byte && byte <= 0x39)
}

/// Gives the lower-case form of an ASCII letter, and any other byte unchanged.
pub fn to_lower(byte: u8) -> (r: u8)
    ensures
        r == lower_byte(byte),
{
    if 0x41 <= byte && byte <= 0x5a {
        byte + 0x20
    } else {
        byte
    }
}

/// Where the run of bytes of the class that starts at `index` ends: the index
/// of the first byte at or after `index` that is not of the class, or the
/// length of the text if there is none.
pub open spec fn run_end(text: Seq<u8>, class: ByteClass, index: int) -> int
    decreases text.len() - index,
{
    if 0 <= index < text.len() && class.holds(text[index]) {
        run_end(text, class, index + 1)
    } else {
        index
    }
}

/// A run ends at or after its start and within the text, all its bytes are of
/// the class, and the byte that follows it, if any, is not.
pub proof fn lemma_run_end(text: Seq<u8>, class: ByteClass, index: int)
    ensures
        index <= run_end(text, class, index),
        index <= text.len() ==> run_end(text, class, index) <= text.len(),
        forall|k: int|
            0 <= index <= k < run_end(text, class, index) ==> class.holds(#[trigger] text[k]),
        0 <= index && run_end(text, class, index) < text.len() ==> !class.holds(
            text[run_end(text, class, index)],
        ),
    decreases text.len() - index,
{
    if 0 <= index < text.len() && class.holds(text[index]) {
        lemma_run_end(text, class, index + 1);
    }
}

/// The end of a run is the one place from which all bytes back to the start
/// are of the class while the byte there is not.
pub proof fn lemma_run_end_is(text: Seq<u8>, class: ByteClass, index: int, end: int)
    requires
        0 <= index <= end <= text.len(),
        forall|k: int| index <= k < end ==> class.holds(#[trigger] text[k]),
        end < text.len() ==> !class.holds(text[end]),
    ensures
        run_end(text, class, index) == end,
    decreases end - index,
{
    if index < end {
        lemma_run_end_is(text, class, index + 1, end);
    }
}

/// A run that is entered in its middle ends where the whole run ends.
pub proof fn lemma_run_end_from_inside(text: Seq<u8>, class: ByteClass, index: int, inside: int)
    requires
        0 <= index <= inside <= run_end(text, class, index),
    ensures
        run_end(text, class, inside) == run_end(text, class, index),
{
    lemma_run_end(text, class, index);
    if inside <= text.len() {
        lemma_run_end_is(text, class, inside, run_end(text, class, index));
    }
}

/// The length of a slice fits a machine integer.
pub proof fn lemma_len_fits(text: &[u8])
    ensures
        text@.len() <= usize::MAX,
{
    assert(vstd::slice::spec_slice_len(text) == text@.len());
}

/// Skips the bytes of the class from `index` on, and returns the index after them.
pub fn skip_run(text: &[u8], class: ByteClass, index: usize) -> (end: usize)
    ensures
        end == run_end(text@, class, index as int),
        index <= end,
        index <= text@.len() ==> end <= text@.len(),
{
    let mut i: usize = index;
    proof {
        lemma_run_end(text@, class, index as int);
    }
    while i < text.len() && class.contains(text[i])
        invariant
            index <= i,
            index <= text@.len() ==> i <= text@.len(),
            run_end(text@, class, i as int) == run_end(text@, class, index as int),
        decreases text@.len() - i,
    {
        i += 1;
    }
    i
}

/// Whether the text may be cut at `index` without splitting a character: at
/// its two ends, and before or after any ASCII byte.
pub open spec fn is_edge(text: Seq<u8>, index: int) -> bool {
    0 <= index <= text.len() && (index == 0 || index == text.len() || text[index - 1] < 0x80
        || text[index] < 0x80)
}

/// In well-formed UTF-8 every edge is a character boundary.
pub proof fn lemma_edge_is_char_boundary(text: Seq<u8>, index: int)
    requires
        valid_utf8(text),
        is_edge(text, index),
    ensures
        is_char_boundary(text, index),
{
    vstd::utf8::is_char_boundary_start_end_of_seq(text);
    if 0 < index < text.len() {
        vstd::utf8::is_char_boundary_iff_not_is_continuation_byte(text, index);
        if text[index] >= 0x80 {
            // The byte before is ASCII, so a character starts there and ends there.
            vstd::utf8::is_char_boundary_iff_not_is_continuation_byte(text, index - 1);
            vstd::utf8::valid_utf8_split(text, index - 1);
            let tail = text.subrange(index - 1, text.len() as int);
            assert(tail[0] == text[index - 1]);
            assert(vstd::utf8::length_of_first_scalar(tail) == 1);
            let rest = vstd::utf8::pop_first_scalar(tail);
            assert(rest =~= text.subrange(index, text.len() as int));
            assert(valid_utf8(rest));
            vstd::utf8::is_char_boundary_start_end_of_seq(rest);
            vstd::utf8::is_char_boundary_iff_not_is_continuation_byte(rest, 0);
            assert(rest[0] == text[index]);
        }
    }
}

/// The bytes of a string are well-formed UTF-8.
pub proof fn lemma_str_bytes_valid(text: &str)
    ensures
        valid_utf8(text.spec_bytes()),
{
    vstd::utf8::encode_utf8_valid_utf8(text@);
}

/// Cuts the string at two edges and returns what lies between them.
pub fn slice<'a>(text: &'a str, begin: usize, end: usize) -> (r: &'a str)
    requires
        begin <= end <= text.spec_bytes().len(),
        is_edge(text.spec_bytes(), begin as int),
        is_edge(text.spec_bytes(), end as int),
    ensures
        r.spec_bytes() == text.spec_bytes().subrange(begin as int, end as int),
{
    proof {
        lemma_str_bytes_valid(text);
        lemma_edge_is_char_boundary(text.spec_bytes(), begin as int);
        lemma_edge_is_char_boundary(text.spec_bytes(), end as int);
    }
    let (head, _) = text.split_at(end);
    proof {
        lemma_str_bytes_valid(head);
        vstd::utf8::is_char_boundary_start_end_of_seq(head.spec_bytes());
        if begin < end {
            vstd::utf8::is_char_boundary_iff_not_is_continuation_byte(
                text.spec_bytes(),
                begin as int,
            );
            vstd::utf8::is_char_boundary_iff_not_is_continuation_byte(
                head.spec_bytes(),
                begin as int,
            );
        }
    }
    let (_, tail) = head.split_at(begin);
    tail
}

/// Where the run of bytes of the class that ends before `to` starts, when it
/// may not start before `from`.
pub open spec fn run_start(text: Seq<u8>, class: ByteClass, from: int, to: int) -> int
    decreases to - from,
{
    if from < to <= text.len() && 0 < to && class.holds(text[to - 1]) {
        run_start(text, class, from, to - 1)
    } else {
        to
    }
}

/// A run that is followed back starts between the bound and its end, all
/// its bytes are of the class, and the byte before it, if the bound admits
/// it, is not.
pub proof fn lemma_run_start(text: Seq<u8>, class: ByteClass, from: int, to: int)
    requires
        0 <= from <= to <= text.len(),
    ensures
        from <= run_start(text, class, from, to) <= to,
        forall|k: int|
            run_start(text, class, from, to) <= k < to ==> class.holds(#[trigger] text[k]),
        from < run_start(text, class, from, to) ==> !class.holds(
            text[run_start(text, class, from, to) - 1],
        ),
    decreases to - from,
{
    if from < to && class.holds(text[to - 1]) {
        lemma_run_start(text, class, from, to - 1);
    }
}

/// A run that is followed back does not pass a byte that is not of the class.
pub proof fn lemma_run_start_after(text: Seq<u8>, class: ByteClass, from: int, to: int, k: int)
    requires
        0 <= from <= k < to <= text.len(),
        !class.holds(text[k]),
    ensures
        k < run_start(text, class, from, to),
    decreases to - from,
{
    if class.holds(text[to - 1]) {
        lemma_run_start_after(text, class, from, to - 1, k);
    }
}

/// A run of bytes of a class lies within the run of any wider class.
pub proof fn lemma_run_end_within(text: Seq<u8>, narrow: ByteClass, wide: ByteClass, index: int)
    requires
        0 <= index,
        forall|byte: u8| narrow.holds(byte) ==> wide.holds(byte),
    ensures
        run_end(text, narrow, index) <= run_end(text, wide, index),
        run_end(text, wide, run_end(text, narrow, index)) == run_end(text, wide, index),
    decreases text.len() - index,
{
    lemma_run_end(text, wide, index);
    if index < text.len() && narrow.holds(text[index]) {
        lemma_run_end_within(text, narrow, wide, index + 1);
    }
}

/// Goes back from `to` over the bytes of the class, not further than
/// `from`, and returns the index at which they start.
pub fn skip_run_back(text: &[u8], class: ByteClass, from: usize, to: usize) -> (start: usize)
    requires
        from <= to <= text@.len(),
    ensures
        start == run_start(text@, class, from as int, to as int),
        from <= start <= to,
{
    let mut i: usize = to;
    while from < i && class.contains(text[i - 1])
        invariant
            from <= i <= to,
            to <= text@.len(),
            run_start(text@, class, from as int, i as int) == run_start(
                text@,
                class,
                from as int,
                to as int,
            ),
        decreases i - from,
    {
        i -= 1;
    }
    i
}

/// The bytes of two sequences of characters, one after the other.
pub proof fn lemma_encode_concat(a: Seq<char>, b: Seq<char>)
    ensures
        vstd::utf8::encode_utf8(a + b) == vstd::utf8::encode_utf8(a) + vstd::utf8::encode_utf8(b),
    decreases a.len(),
{
    if a.len() == 0 {
        assert(a + b =~= b);
        assert(vstd::utf8::encode_utf8(a) =~= Seq::<u8>::empty());
        assert(vstd::utf8::encode_utf8(a) + vstd::utf8::encode_utf8(b) =~= vstd::utf8::encode_utf8(
            b,
        ));
    } else {
        assert((a + b).drop_first() =~= a.drop_first() + b);
        lemma_encode_concat(a.drop_first(), b);
        assert(vstd::utf8::encode_utf8(a + b) =~= vstd::utf8::encode_utf8(a)
            + vstd::utf8::encode_utf8(b));
    }
}

} // verus!
