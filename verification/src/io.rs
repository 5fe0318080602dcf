//! Reading values from lines of text.
pub mod consumable;
pub mod input;

pub use consumable::{split_before, split_float, strip_prefix, Consumable, ParseError};
pub use input::{parse_all, EndOfInput, Input, InputPattern, Just, LineMatcher};
