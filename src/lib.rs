use vstd::prelude::*;

pub mod console_codes;
pub mod decoder;
pub mod framebuffer;
pub mod parser;

pub use parser::{try_parse_mouse_event, MouseEvent, ParseResult};

verus! {

} // verus!
