//! The textual notation.
pub mod ascii;
pub mod char;
pub mod print_display;
pub mod parse_display;
