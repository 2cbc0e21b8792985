//! Reading text.
pub mod scanner;
