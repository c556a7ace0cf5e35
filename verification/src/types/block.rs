//! Blocks: the regions of the input that the block tree is made of.
use crate::types::heading::HeadingLevel;
use crate::types::tag::TagView;
use vstd::prelude::*;
use vstd::string::StringSliceAdditionalSpecFns;

verus! {

/// A region of the input, from byte `begin` up to and including byte `end`,
/// together with what kind of block it is.
#[derive(Clone, Copy, Debug)]
pub struct Block<'a> {
    pub begin: usize,
    pub end: usize,
    pub kind: BlockKind<'a>,
}

/// The kinds of block. Block quotes, code blocks, headings and paragraphs
/// hold other blocks; the others are leaves.
#[derive(Clone, Copy, Debug)]
pub enum BlockKind<'a> {
    BlockQuote,
    FencedCodeBlock(&'a str),
    Heading(HeadingLevel),
    Html,
    IndentedCodeBlock,
    Paragraph,
    Text,
    ThematicBreak,
}

impl<'a> BlockKind<'a> {
    /// The tag under which a container shows in the event stream; a leaf has none.
    pub open spec fn tag(self) -> Option<TagView> {
        match self {
            BlockKind::BlockQuote => Some(TagView::BlockQuote),
            BlockKind::FencedCodeBlock(info) => Some(TagView::FencedCodeBlock(info.spec_bytes())),
            BlockKind::Heading(level) => Some(TagView::Heading(level)),
            BlockKind::IndentedCodeBlock => Some(TagView::IndentedCodeBlock),
            BlockKind::Paragraph => Some(TagView::Paragraph),
            BlockKind::Html => None,
            BlockKind::Text => None,
            BlockKind::ThematicBreak => None,
        }
    }

    /// Whether blocks of this kind hold other blocks.
    pub open spec fn is_container(self) -> bool {
        self.tag().is_some()
    }
}

} // verus!
