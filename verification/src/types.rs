//! The data the parser works on: blocks, tags, heading levels and events.
pub mod block;
pub mod event;
pub mod heading;
pub mod tag;

pub use block::{Block, BlockKind};
pub use event::{Event, EventView};
pub use heading::{HeadingLevel, InvalidHeadingLevel};
pub use tag::{Tag, TagView};
