//! Strips furigana filler lines from Japanese clipboard text.
//!
//! The library is the text transform alone: a classifier that decides
//! whether a line consists only of kana and filler glyphs, and a rewriter
//! that splits clipboard text on line breaks, drops skippable interior
//! lines, and joins the survivors into one line. Reading and writing the
//! clipboard, and the Japanese-content test that gates the transform, are
//! left to the surrounding program, which hands their outcomes in as plain
//! values.

pub mod chars;
pub mod length;
pub mod rewrite;
pub mod segment;

pub use chars::contains_line_break;
pub use chars::is_furi_skip;
pub use rewrite::should_process;
