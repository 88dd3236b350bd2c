//! A small framebuffer text terminal: colors, an ANSI escape-sequence parser,
//! bitmap fonts, a double-buffered framebuffer and the terminal that draws
//! text onto it.
use vstd::prelude::*;

pub mod allocator;
pub mod ansi;
pub mod color;
pub mod fb;
pub mod font;
pub mod term;

pub use color::Color;
pub use term::Cursor;
pub use term::Padding;
pub use term::Terminal;
pub use term::TerminalConfig;

verus! {
}
