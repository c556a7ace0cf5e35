//! The scanners: probes that look at the text from a byte offset and say
//! whether a construct starts there and how long it is. None of them changes
//! anything. Each is given by a specification function on the bytes, and by
//! an executable function that computes it.
pub mod container;
pub mod html;
pub mod interrupt;
pub mod leaf;
pub mod line;
