//! The tags that open and close a container block in the event stream.
use crate::types::heading::HeadingLevel;
use vstd::prelude::*;
use vstd::string::StringSliceAdditionalSpecFns;

verus! {

/// The kind of a container block, as the event stream names it.
#[derive(Debug, PartialEq)]
pub enum Tag<'a> {
    BlockQuote,
    FencedCodeBlock(&'a str),
    Heading(HeadingLevel),
    IndentedCodeBlock,
    Paragraph,
}

/// What a tag stands for: its kind, and for a fenced code block the bytes of its info string.
pub enum TagView {
    BlockQuote,
    FencedCodeBlock(Seq<u8>),
    Heading(HeadingLevel),
    IndentedCodeBlock,
    Paragraph,
}

impl<'a> View for Tag<'a> {
    type V = TagView;

    open spec fn view(&self) -> TagView {
        match *self {
            Tag::BlockQuote => TagView::BlockQuote,
            Tag::FencedCodeBlock(info) => TagView::FencedCodeBlock(info.spec_bytes()),
            Tag::Heading(level) => TagView::Heading(level),
            Tag::IndentedCodeBlock => TagView::IndentedCodeBlock,
            Tag::Paragraph => TagView::Paragraph,
        }
    }
}

} // verus!
