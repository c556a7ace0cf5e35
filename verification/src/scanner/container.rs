//! Block quotes: their marker, and how many open ones a line continues.
use crate::scanner::line::same_length;
use crate::text::{lemma_run_end, run_end, skip_run, ByteClass};
use vstd::prelude::*;

verus! {

/// The length of the block quote marker that starts at `index`: at most 3
/// spaces, then `>`, and one space after it if there is one.
pub open spec fn block_quote_marker_len(text: Seq<u8>, index: int) -> Option<int> {
    let start = run_end(text, ByteClass::Space, index);
    if 0 <= index && start - index < 4 && start < text.len() && text[start] == 0x3e {
        if start + 1 < text.len() && text[start + 1] == 0x20 {
            Some(start - index + 2)
        } else {
            Some(start - index + 1)
        }
    } else {
        None
    }
}

/// How many of `depth` open block quotes find their marker from `index` on,
/// one after the other, and the index after the last marker found.
pub open spec fn container_markers(text: Seq<u8>, index: int, depth: nat) -> (int, int)
    decreases depth,
{
    if depth == 0 {
        (0, index)
    } else {
        match block_quote_marker_len(text, index) {
            Some(length) => {
                let rest = container_markers(text, index + length, (depth - 1) as nat);
                (rest.0 + 1, rest.1)
            },
            None => (0, index),
        }
    }
}

/// A block quote marker is 1 to 5 bytes long, lies within the text, and ends
/// with `>` or a space.
pub proof fn lemma_block_quote_marker_len(text: Seq<u8>, index: int)
    ensures
        match block_quote_marker_len(text, index) {
            Some(length) => 1 <= length <= 5 && 0 <= index && index + length <= text.len() && (
            text[index + length - 1] == 0x3e || text[index + length - 1] == 0x20)
                && crate::scanner::line::line_end(text, index + length)
                == crate::scanner::line::line_end(text, index),
            None => true,
        },
{
    lemma_run_end(text, ByteClass::Space, index);
    if block_quote_marker_len(text, index).is_some() {
        let length = block_quote_marker_len(text, index).unwrap();
        crate::scanner::line::lemma_line_end(text, index);
        assert forall|k: int| index <= k < index + length implies ByteClass::LineContent.holds(
            #[trigger] text[k],
        ) by {}
        let end = crate::scanner::line::line_end(text, index);
        if end < index + length {
            crate::text::lemma_run_end(text, ByteClass::LineContent, index);
            assert(false);
        }
        crate::scanner::line::lemma_line_end_from_inside(text, index, index + length);
    }
}

/// The markers found number at most `depth`, and the index after them lies
/// at or after the start, within the text.
pub proof fn lemma_container_markers(text: Seq<u8>, index: int, depth: nat)
    ensures
        0 <= container_markers(text, index, depth).0 <= depth,
        index <= container_markers(text, index, depth).1,
        container_markers(text, index, depth).0 > 0 ==> index < container_markers(
            text,
            index,
            depth,
        ).1,
        index <= text.len() ==> container_markers(text, index, depth).1 <= text.len(),
        0 <= index ==> crate::scanner::line::line_end(text, container_markers(text, index, depth).1)
            == crate::scanner::line::line_end(text, index),
    decreases depth,
{
    if depth > 0 {
        lemma_block_quote_marker_len(text, index);
        match block_quote_marker_len(text, index) {
            Some(length) => {
                lemma_container_markers(text, index + length, (depth - 1) as nat);
            },
            None => {},
        }
    }
}

/// Looks for a block quote marker at `index` and returns its length.
pub fn scan_block_quote_marker(text: &[u8], index: usize) -> (r: Option<usize>)
    ensures
        same_length(r, block_quote_marker_len(text@, index as int)),
{
    let start = skip_run(text, ByteClass::Space, index);
    if start - index >= 4 {
        return None;
    }
    if start < text.len() && text[start] == 0x3e {
        if start + 1 < text.len() && text[start + 1] == 0x20 {
            Some(start - index + 2)
        } else {
            Some(start - index + 1)
        }
    } else {
        None
    }
}

/// Counts how many of `depth` open block quotes find their marker from
/// `index` on, and returns the count and the index after the last marker found.
pub fn scan_container_markers(text: &[u8], index: usize, depth: usize) -> (r: (usize, usize))
    ensures
        r.0 == container_markers(text@, index as int, depth as nat).0,
        r.1 == container_markers(text@, index as int, depth as nat).1,
        r.0 <= depth,
        index <= r.1,
        index <= text@.len() ==> r.1 <= text@.len(),
{
    let mut count: usize = 0;
    let mut i: usize = index;
    proof {
        lemma_container_markers(text@, index as int, depth as nat);
    }
    while count < depth
        invariant
            count <= depth,
            index <= i,
            index <= text@.len() ==> i <= text@.len(),
            container_markers(text@, index as int, depth as nat).0 == count + container_markers(
                text@,
                i as int,
                (depth - count) as nat,
            ).0,
            container_markers(text@, index as int, depth as nat).1 == container_markers(
                text@,
                i as int,
                (depth - count) as nat,
            ).1,
        decreases depth - count,
    {
        proof {
            crate::text::lemma_len_fits(text);
            lemma_block_quote_marker_len(text@, i as int);
        }
        match scan_block_quote_marker(text, i) {
            Some(length) => {
                i += length;
                count += 1;
            },
            None => {
                return (count, i);
            },
        }
    }
    (count, i)
}

} // verus!
