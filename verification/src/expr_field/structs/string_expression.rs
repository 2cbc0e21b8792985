//! An expression that is still text.
use vstd::prelude::*;

verus! {

/// An expression that can be parsed, with the names it goes by.
pub struct StrExpr {
    pub ch: char,
    pub asc_ch: char,
    pub ascii: String,
    pub expr: StringOrField,
}

/// The body of a [`StrExpr`].
pub enum StringOrField {
    Str(String),
}

} // verus!
