//! The events that a walk over the block tree gives out.
use crate::types::tag::{Tag, TagView};
use vstd::prelude::*;
use vstd::string::StringSliceAdditionalSpecFns;

verus! {

/// One step of the pre-order walk over the block tree.
#[derive(Debug, PartialEq)]
pub enum Event<'a> {
    Begin(Tag<'a>),
    End(Tag<'a>),
    Html(&'a str),
    Text(&'a str),
    ThematicBreak,
}

/// What an event stands for, with each slice of the input given by its bytes.
pub enum EventView {
    Begin(TagView),
    End(TagView),
    Html(Seq<u8>),
    Text(Seq<u8>),
    ThematicBreak,
}

impl<'a> View for Event<'a> {
    type V = EventView;

    open spec fn view(&self) -> EventView {
        match *self {
            Event::Begin(tag) => EventView::Begin(tag@),
            Event::End(tag) => EventView::End(tag@),
            Event::Html(slice) => EventView::Html(slice.spec_bytes()),
            Event::Text(slice) => EventView::Text(slice.spec_bytes()),
            Event::ThematicBreak => EventView::ThematicBreak,
        }
    }
}

} // verus!
