//! How a node names itself in the textual notation.
use vstd::prelude::*;

verus! {

/// The glyph of a node: `ξ` for a value, the tag of a constant, `Σ`, `Π`,
/// `√`, and the clock faces `🕢`, `🕑`, `🕘` for sine, cosine and tangent.
pub trait Char {
    spec fn ch_spec(&self) -> char;

    fn ch(&self) -> (c: char)
        ensures
            c == self.ch_spec(),
    ;
}

/// The name of a node in plain ASCII.
pub trait AsciiString {
    spec fn ascii_spec(&self) -> Seq<char>;

    fn ascii(&self) -> (s: &str)
        ensures
            s@ == self.ascii_spec(),
    ;
}

} // verus!
