//! Names in plain ASCII.
use vstd::prelude::*;
use vstd::string::StrSliceExecFns;
use crate::io_traits::AsciiString;
use crate::term::FnKind;
use crate::expr_field::ExprFn;
use crate::expr_field::structs::Const;

verus! {

/// The name of a function kind.
pub open spec fn kind_name(k: FnKind) -> Seq<char> {
    match k {
        FnKind::Sqrt => "Sqrt"@,
        FnKind::Sin => "Sin"@,
        FnKind::Cos => "Cos"@,
        FnKind::Tan => "Tan"@,
    }
}

impl AsciiString for Const {
    open spec fn ascii_spec(&self) -> Seq<char> {
        self.ascii@
    }

    fn ascii(&self) -> (s: &str) {
        self.ascii
    }
}

impl AsciiString for ExprFn {
    open spec fn ascii_spec(&self) -> Seq<char> {
        kind_name(self.kind_spec())
    }

    fn ascii(&self) -> (s: &str) {
        match self {
            ExprFn::Sqrt(_) => "Sqrt",
            ExprFn::Sin(_) => "Sin",
            ExprFn::Cos(_) => "Cos",
            ExprFn::Tan(_) => "Tan",
        }
    }
}

/// The first character of the ASCII name.
pub trait AsciiChar {
    spec fn asc_ch_spec(&self) -> Option<char>;

    fn asc_ch(&self) -> (c: char)
        requires
            self.asc_ch_spec() is Some,
        ensures
            Some(c) == self.asc_ch_spec(),
    ;
}

impl AsciiChar for Const {
    open spec fn asc_ch_spec(&self) -> Option<char> {
        if self.ascii@.len() > 0 {
            Some(self.ascii@[0])
        } else {
            None
        }
    }

    fn asc_ch(&self) -> (c: char) {
        self.ascii.get_char(0)
    }
}

} // verus!
