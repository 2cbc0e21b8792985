//! Glyphs.
use vstd::prelude::*;
use crate::io_traits::Char;
use crate::term::FnKind;
use crate::expr_field::{Expr, ExprFn};
use crate::expr_field::structs::Const;
use crate::expr_field::structs::type_field::TypeField;

verus! {

/// The glyph of a function kind.
pub open spec fn kind_glyph(k: FnKind) -> char {
    match k {
        FnKind::Sqrt => '√',
        FnKind::Sin => '🕢',
        FnKind::Cos => '🕑',
        FnKind::Tan => '🕘',
    }
}

impl Char for Const {
    open spec fn ch_spec(&self) -> char {
        self.ch
    }

    fn ch(&self) -> (c: char) {
        self.ch
    }
}

impl Char for FnKind {
    open spec fn ch_spec(&self) -> char {
        kind_glyph(*self)
    }

    fn ch(&self) -> (c: char) {
        match self {
            FnKind::Sqrt => '√',
            FnKind::Sin => '🕢',
            FnKind::Cos => '🕑',
            FnKind::Tan => '🕘',
        }
    }
}

impl Char for ExprFn {
    open spec fn ch_spec(&self) -> char {
        kind_glyph(self.kind_spec())
    }

    fn ch(&self) -> (c: char) {
        self.kind().ch()
    }
}

/// The glyph of the expression `e` of the arena `a`.
pub open spec fn glyph(a: crate::expr_field::structs::type_field::Arena, e: Expr) -> char {
    match e {
        Expr::Zero(_) => 'O',
        Expr::One(_) => 'I',
        Expr::InDet(_) => '?',
        Expr::Infty(..) => '∞',
        Expr::Val(_) => 'ξ',
        Expr::Const(r) => a.consts[r.index as int].ch,
        Expr::Sum(_) => 'Σ',
        Expr::Prod(_) => 'Π',
        Expr::Fn(r) => kind_glyph(a.fns[r.index as int].kind_spec()),
    }
}

impl TypeField {
    /// The glyph of the expression `e`.
    pub fn ch(&self, e: Expr) -> (c: char)
        requires
            self@.owns(e),
        ensures
            c == glyph(self@, e),
    {
        match e {
            Expr::Zero(_) => 'O',
            Expr::One(_) => 'I',
            Expr::InDet(_) => '?',
            Expr::Infty(..) => '∞',
            Expr::Val(_) => 'ξ',
            Expr::Const(r) => self.get_const(r).ch(),
            Expr::Sum(_) => 'Σ',
            Expr::Prod(_) => 'Π',
            Expr::Fn(r) => self.get_fn(r).ch(),
        }
    }
}

} // verus!
