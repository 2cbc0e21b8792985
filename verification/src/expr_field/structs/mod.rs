//! The node types that an arena stores.
use vstd::prelude::*;
use crate::frac::Frac;
use crate::expr_field::{Expr, ExprFn};

pub mod type_field;
pub mod string_expression;

verus! {

/// A node that a store keeps once: two nodes with the same key are the same
/// node.
pub trait Stored: Sized {
    type Key;

    spec fn key(&self) -> Self::Key;

    fn same(&self, other: &Self) -> (r: bool)
        ensures
            r == (self.key() == other.key()),
    ;
}

impl Stored for Frac {
    type Key = Frac;

    open spec fn key(&self) -> Frac {
        *self
    }

    fn same(&self, other: &Self) -> (r: bool) {
        *self == *other
    }
}

impl Stored for Const {
    type Key = i64;

    open spec fn key(&self) -> i64 {
        self.approx
    }

    fn same(&self, other: &Self) -> (r: bool) {
        self.approx == other.approx
    }
}

impl Stored for ExprFn {
    type Key = ExprFn;

    open spec fn key(&self) -> ExprFn {
        *self
    }

    fn same(&self, other: &Self) -> (r: bool) {
        *self == *other
    }
}

impl Stored for Sum {
    type Key = Seq<(Frac, Expr)>;

    open spec fn key(&self) -> Seq<(Frac, Expr)> {
        self.terms@
    }

    fn same(&self, other: &Self) -> (r: bool) {
        if self.terms.len() != other.terms.len() {
            return false;
        }
        let mut k: usize = 0;
        while k < self.terms.len()
            invariant
                k <= self.terms.len(),
                self.terms.len() == other.terms.len(),
                forall|j: int| 0 <= j < k ==> self.terms@[j] == other.terms@[j],
            decreases self.terms.len() - k,
        {
            if !(self.terms[k].0 == other.terms[k].0 && self.terms[k].1 == other.terms[k].1) {
                return false;
            }
            k += 1;
        }
        assert(self.terms@ =~= other.terms@);
        true
    }
}

impl Stored for Prod {
    type Key = Seq<(Expr, Frac)>;

    open spec fn key(&self) -> Seq<(Expr, Frac)> {
        self.factors@
    }

    fn same(&self, other: &Self) -> (r: bool) {
        if self.factors.len() != other.factors.len() {
            return false;
        }
        let mut k: usize = 0;
        while k < self.factors.len()
            invariant
                k <= self.factors.len(),
                self.factors.len() == other.factors.len(),
                forall|j: int| 0 <= j < k ==> self.factors@[j] == other.factors@[j],
            decreases self.factors.len() - k,
        {
            if !(self.factors[k].0 == other.factors[k].0 && self.factors[k].1
                == other.factors[k].1) {
                return false;
            }
            k += 1;
        }
        assert(self.factors@ =~= other.factors@);
        true
    }
}

/// The keys of the nodes of a store.
pub open spec fn keys<T: Stored>(v: Seq<T>) -> Seq<T::Key> {
    Seq::new(v.len(), |i: int| v[i].key())
}

/// A named irrational constant. `approx` is the numeric approximation of
/// the constant in billionths, cut off after the ninth decimal. Equality and
/// order of constants go by the approximation alone.
#[derive(Clone, Copy, Debug)]
pub struct Const {
    pub ch: char,
    pub ascii: &'static str,
    pub approx: i64,
}

/// Coefficients and terms of a sum.
#[derive(Debug)]
pub struct Sum {
    pub terms: Vec<(Frac, Expr)>,
}

/// Bases and exponents of a product.
#[derive(Debug)]
pub struct Prod {
    pub factors: Vec<(Expr, Frac)>,
}

/// A node made of raw entries as they are, without any simplification.
pub trait FromRaw<T>: Sized {
    spec fn raw_spec(value: T) -> Self;

    fn from_raw(value: T) -> (r: Self)
        ensures
            r == Self::raw_spec(value),
    ;
}

impl FromRaw<Vec<(Frac, Expr)>> for Sum {
    open spec fn raw_spec(value: Vec<(Frac, Expr)>) -> Sum {
        Sum { terms: value }
    }

    fn from_raw(value: Vec<(Frac, Expr)>) -> (r: Sum) {
        Sum { terms: value }
    }
}

impl FromRaw<Vec<(Expr, Frac)>> for Prod {
    open spec fn raw_spec(value: Vec<(Expr, Frac)>) -> Prod {
        Prod { factors: value }
    }

    fn from_raw(value: Vec<(Expr, Frac)>) -> (r: Prod) {
        Prod { factors: value }
    }
}

} // verus!
