//! Expressions as handles into an arena.
use vstd::prelude::*;
use crate::frac::{Order, Sign, int_order};
use crate::term::{FnKind, Term, class, kind_rank, prod_order_from, sum_order_from, term_order};
use crate::expr_field::structs::type_field::{
    Arena, TypeField, lemma_term_fn, lemma_term_injective, lemma_term_prod, lemma_term_sum,
    lemma_val_storable,
};

pub mod structs;
pub mod simplify;
pub mod ops;
pub mod io;
pub mod shorthand;

verus! {

/// A reference into one of the stores of the arena with identity `field`.
#[derive(Clone, Copy, Debug, PartialEq, Eq, Structural)]
pub struct FieldRef {
    pub field: u64,
    pub index: usize,
}

/// A small copyable handle: a fundamental that carries only the identity of
/// its arena, or a reference to a stored node.
#[derive(Clone, Copy, Debug, PartialEq, Eq, Structural)]
pub enum Expr {
    InDet(u64),
    Infty(u64, Sign),
    Zero(u64),
    One(u64),
    Val(FieldRef),
    Const(FieldRef),
    Sum(FieldRef),
    Prod(FieldRef),
    Fn(FieldRef),
}

/// A reference that stands in for a stored node when the order of
/// variants is tried out.
#[derive(Clone, Copy, Debug, PartialEq, Eq, Structural)]
pub struct TestRef {
    pub f: u64,
    pub i: usize,
}

/// Two variants of which the first, which carries only the identity of an
/// arena, sorts before the second, which carries a reference.
#[derive(Clone, Copy, Debug, PartialEq, Eq, Structural)]
pub enum TestMe {
    Smaller(u64),
    Larger(TestRef),
}

impl TestMe {
    /// `Smaller` before `Larger`; two of one variant compare equal.
    pub open spec fn order_spec(self, other: TestMe) -> Order {
        match (self, other) {
            (TestMe::Smaller(_), TestMe::Larger(_)) => Order::Less,
            (TestMe::Larger(_), TestMe::Smaller(_)) => Order::Greater,
            _ => Order::Equal,
        }
    }

    /// The order of two values by their variants.
    pub fn order(&self, other: &TestMe) -> (r: Order)
        ensures
            r == self.order_spec(*other),
    {
        match (self, other) {
            (TestMe::Smaller(_), TestMe::Larger(_)) => Order::Less,
            (TestMe::Larger(_), TestMe::Smaller(_)) => Order::Greater,
            _ => Order::Equal,
        }
    }
}

/// An elementary function applied to one expression.
#[derive(Clone, Copy, Debug, PartialEq, Eq, Structural)]
pub enum ExprFn {
    Sqrt(Expr),
    Sin(Expr),
    Cos(Expr),
    Tan(Expr),
}

impl ExprFn {
    pub open spec fn kind_spec(self) -> FnKind {
        match self {
            ExprFn::Sqrt(_) => FnKind::Sqrt,
            ExprFn::Sin(_) => FnKind::Sin,
            ExprFn::Cos(_) => FnKind::Cos,
            ExprFn::Tan(_) => FnKind::Tan,
        }
    }

    pub open spec fn inner_spec(self) -> Expr {
        match self {
            ExprFn::Sqrt(e) => e,
            ExprFn::Sin(e) => e,
            ExprFn::Cos(e) => e,
            ExprFn::Tan(e) => e,
        }
    }
}

/// What every function node offers: its argument, to read and to replace.
pub trait ExprFnTrait: Sized {
    spec fn inner_of(&self) -> Expr;

    spec fn kind_of(&self) -> FnKind;

    fn inner(&self) -> (e: Expr)
        ensures
            e == self.inner_of(),
    ;

    fn set_inner(&mut self, e_new: Expr)
        ensures
            final(self).inner_of() == e_new,
            final(self).kind_of() == old(self).kind_of(),
    ;
}

impl ExprFnTrait for ExprFn {
    open spec fn inner_of(&self) -> Expr {
        self.inner_spec()
    }

    open spec fn kind_of(&self) -> FnKind {
        self.kind_spec()
    }

    fn inner(&self) -> (e: Expr) {
        match self {
            ExprFn::Sqrt(e) => *e,
            ExprFn::Sin(e) => *e,
            ExprFn::Cos(e) => *e,
            ExprFn::Tan(e) => *e,
        }
    }

    fn set_inner(&mut self, e_new: Expr) {
        match self {
            ExprFn::Sqrt(e) => {
                *e = e_new
            },
            ExprFn::Sin(e) => {
                *e = e_new
            },
            ExprFn::Cos(e) => {
                *e = e_new
            },
            ExprFn::Tan(e) => {
                *e = e_new
            },
        }
    }
}

/// The argument of a square root.
pub trait GetExpr {
    spec fn get_expr_spec(&self) -> Option<Expr>;

    /// The expression under the root, if `self` is a square root.
    fn get_expr(&self) -> (r: Option<Expr>)
        ensures
            r == self.get_expr_spec(),
    ;
}

impl GetExpr for ExprFn {
    open spec fn get_expr_spec(&self) -> Option<Expr> {
        match *self {
            ExprFn::Sqrt(e) => Some(e),
            _ => None,
        }
    }

    fn get_expr(&self) -> (r: Option<Expr>) {
        match *self {
            ExprFn::Sqrt(e) => Some(e),
            _ => None,
        }
    }
}

/// What every handle can tell without its arena.
pub trait ExprTrait: Sized {
    spec fn field_spec(&self) -> u64;

    /// The identity of the arena that the handle belongs to.
    fn field(&self) -> (f: u64)
        ensures
            f == self.field_spec(),
    ;
}

impl ExprTrait for Expr {
    open spec fn field_spec(&self) -> u64 {
        match *self {
            Expr::Zero(f) => f,
            Expr::One(f) => f,
            Expr::InDet(f) => f,
            Expr::Infty(f, _) => f,
            Expr::Val(r) => r.field,
            Expr::Const(r) => r.field,
            Expr::Sum(r) => r.field,
            Expr::Prod(r) => r.field,
            Expr::Fn(r) => r.field,
        }
    }

    fn field(&self) -> (f: u64) {
        match *self {
            Expr::Zero(f) => f,
            Expr::One(f) => f,
            Expr::InDet(f) => f,
            Expr::Infty(f, _) => f,
            Expr::Val(r) => r.field,
            Expr::Const(r) => r.field,
            Expr::Sum(r) => r.field,
            Expr::Prod(r) => r.field,
            Expr::Fn(r) => r.field,
        }
    }
}

impl Expr {
    /// Position of the variant in the canonical order.
    pub fn class(&self) -> (c: u8)
        ensures
            forall|a: Arena| c == class(#[trigger] a.term(*self)),
    {
        match self {
            Expr::InDet(_) => 0,
            Expr::Infty(..) => 1,
            Expr::Zero(_) => 2,
            Expr::One(_) => 3,
            Expr::Val(_) => 4,
            Expr::Const(_) => 5,
            Expr::Sum(_) => 6,
            Expr::Prod(_) => 7,
            Expr::Fn(_) => 8,
        }
    }
}

impl FnKind {
    /// Position of the kind in the canonical order.
    pub fn rank(&self) -> (r: u8)
        ensures
            r == kind_rank(*self),
    {
        match self {
            FnKind::Sqrt => 0,
            FnKind::Cos => 1,
            FnKind::Tan => 2,
            FnKind::Sin => 3,
        }
    }
}

impl ExprFn {
    pub fn kind(&self) -> (k: FnKind)
        ensures
            k == self.kind_spec(),
    {
        match self {
            ExprFn::Sqrt(_) => FnKind::Sqrt,
            ExprFn::Sin(_) => FnKind::Sin,
            ExprFn::Cos(_) => FnKind::Cos,
            ExprFn::Tan(_) => FnKind::Tan,
        }
    }

    /// The function of `kind` applied to `inner`.
    pub fn of(kind: FnKind, inner: Expr) -> (f: ExprFn)
        ensures
            f.kind_spec() == kind,
            f.inner_spec() == inner,
    {
        match kind {
            FnKind::Sqrt => ExprFn::Sqrt(inner),
            FnKind::Sin => ExprFn::Sin(inner),
            FnKind::Cos => ExprFn::Cos(inner),
            FnKind::Tan => ExprFn::Tan(inner),
        }
    }
}

/// The order of two small numbers.
pub fn order_of_ranks(a: u8, b: u8) -> (r: Order)
    ensures
        r == int_order(a as int, b as int),
{
    if a < b {
        Order::Less
    } else if a == b {
        Order::Equal
    } else {
        Order::Greater
    }
}

/// The order of two lengths.
pub fn order_of_lengths(a: usize, b: usize) -> (r: Order)
    ensures
        r == int_order(a as int, b as int),
{
    if a < b {
        Order::Less
    } else if a == b {
        Order::Equal
    } else {
        Order::Greater
    }
}

/// The order of two keys.
pub fn order_of_keys(a: i64, b: i64) -> (r: Order)
    ensures
        r == int_order(a as int, b as int),
{
    if a < b {
        Order::Less
    } else if a == b {
        Order::Equal
    } else {
        Order::Greater
    }
}

impl TypeField {
    /// The canonical order of two expressions of this arena. It governs the
    /// placement of entries in sums and products and says nothing of
    /// magnitude.
    pub fn compare(&self, a: Expr, b: Expr) -> (r: Order)
        requires
            self@.wf(),
            self@.owns(a),
            self@.owns(b),
        ensures
            r == term_order(self@.term(a), self@.term(b)),
        decreases self@.rank(a),
    {
        let ca = a.class();
        let cb = b.class();
        if ca != cb {
            return order_of_ranks(ca, cb);
        }
        match (a, b) {
            (Expr::Infty(_, s), Expr::Infty(_, o)) => s.compare(o),
            (Expr::Val(x), Expr::Val(y)) => {
                proof {
                    lemma_val_storable(self@, x);
                    lemma_val_storable(self@, y);
                }
                self.get_val(x).compare(self.get_val(y))
            },
            (Expr::Const(x), Expr::Const(y)) => order_of_keys(
                self.get_const(x).approx,
                self.get_const(y).approx,
            ),
            (Expr::Sum(x), Expr::Sum(y)) => {
                proof {
                    lemma_term_sum(self@, x);
                    lemma_term_sum(self@, y);
                }
                let s = self.get_sum(x);
                let t = self.get_sum(y);
                if s.terms.len() != t.terms.len() {
                    return order_of_lengths(s.terms.len(), t.terms.len());
                }
                let ghost ta = self@.term(a);
                let ghost tb = self@.term(b);
                let mut i: usize = 0;
                while i < s.terms.len()
                    invariant
                        i <= s.terms.len(),
                        s.terms.len() == t.terms.len(),
                        self@.wf(),
                        self@.owns_svec(s.terms@),
                        self@.owns_svec(t.terms@),
                        ta == Term::Sum(self@.svec(s.terms@)),
                        tb == Term::Sum(self@.svec(t.terms@)),
                        forall|k: int|
                            0 <= k < s.terms@.len() ==> self@.rank(#[trigger] s.terms@[k].1)
                                < self@.rank(a),
                        ta == self@.term(a),
                        tb == self@.term(b),
                        term_order(ta, tb) == sum_order_from(ta, tb, i as int),
                    decreases s.terms.len() - i,
                {
                    let p = s.terms[i];
                    let q = t.terms[i];
                    assert(self@.owns(s.terms@[i as int].1) && self@.owns(t.terms@[i as int].1));
                    assert(ta->Sum_0[i as int] == (p.0, self@.term(p.1)));
                    assert(tb->Sum_0[i as int] == (q.0, self@.term(q.1)));
                    let by_term = self.compare(p.1, q.1);
                    if by_term != Order::Equal {
                        return by_term;
                    }
                    let by_coefficient = p.0.compare(q.0);
                    if by_coefficient != Order::Equal {
                        return by_coefficient;
                    }
                    i += 1;
                }
                Order::Equal
            },
            (Expr::Prod(x), Expr::Prod(y)) => {
                proof {
                    lemma_term_prod(self@, x);
                    lemma_term_prod(self@, y);
                }
                let s = self.get_prod(x);
                let t = self.get_prod(y);
                if s.factors.len() != t.factors.len() {
                    return order_of_lengths(s.factors.len(), t.factors.len());
                }
                let ghost ta = self@.term(a);
                let ghost tb = self@.term(b);
                let mut i: usize = 0;
                while i < s.factors.len()
                    invariant
                        i <= s.factors.len(),
                        s.factors.len() == t.factors.len(),
                        self@.wf(),
                        self@.owns_pvec(s.factors@),
                        self@.owns_pvec(t.factors@),
                        ta == Term::Prod(self@.pvec(s.factors@)),
                        tb == Term::Prod(self@.pvec(t.factors@)),
                        forall|k: int|
                            0 <= k < s.factors@.len() ==> self@.rank(#[trigger] s.factors@[k].0)
                                < self@.rank(a),
                        ta == self@.term(a),
                        tb == self@.term(b),
                        term_order(ta, tb) == prod_order_from(ta, tb, i as int),
                    decreases s.factors.len() - i,
                {
                    let p = s.factors[i];
                    let q = t.factors[i];
                    assert(self@.owns(s.factors@[i as int].0) && self@.owns(
                        t.factors@[i as int].0,
                    ));
                    assert(ta->Prod_0[i as int] == (self@.term(p.0), p.1));
                    assert(tb->Prod_0[i as int] == (self@.term(q.0), q.1));
                    let by_base = self.compare(p.0, q.0);
                    if by_base != Order::Equal {
                        return by_base;
                    }
                    let by_exponent = p.1.compare(q.1);
                    if by_exponent != Order::Equal {
                        return by_exponent;
                    }
                    i += 1;
                }
                Order::Equal
            },
            (Expr::Fn(x), Expr::Fn(y)) => {
                proof {
                    lemma_term_fn(self@, x);
                    lemma_term_fn(self@, y);
                }
                let f = self.get_fn(x);
                let g = self.get_fn(y);
                if f.kind() != g.kind() {
                    order_of_ranks(f.kind().rank(), g.kind().rank())
                } else {
                    self.compare(f.inner(), g.inner())
                }
            },
            _ => Order::Equal,
        }
    }
}

impl TypeField {
    /// Two expressions of this arena are equal exactly when they are the
    /// same handle: every node is stored once.
    pub fn eq(&self, a: Expr, b: Expr) -> (r: bool)
        requires
            self@.wf(),
            self@.owns(a),
            self@.owns(b),
        ensures
            r == (self@.term(a) == self@.term(b)),
    {
        proof {
            if self@.term(a) == self@.term(b) {
                lemma_term_injective(self@, a, b);
            }
        }
        a == b
    }

    /// Structural equality of an expression of this arena and an
    /// expression of the arena `other`: fundamentals by variant, values by
    /// their rational, constants by their approximation, sums, products and
    /// functions node by node.
    pub fn equal(&self, a: Expr, other: &TypeField, b: Expr) -> (r: bool)
        requires
            self@.wf(),
            self@.owns(a),
            other@.wf(),
            other@.owns(b),
        ensures
            r == (self@.term(a) == other@.term(b)),
        decreases self@.rank(a),
    {
        match (a, b) {
            (Expr::Zero(_), Expr::Zero(_)) => true,
            (Expr::One(_), Expr::One(_)) => true,
            (Expr::InDet(_), Expr::InDet(_)) => true,
            (Expr::Infty(_, s), Expr::Infty(_, o)) => s == o,
            (Expr::Val(x), Expr::Val(y)) => self.get_val(x) == other.get_val(y),
            (Expr::Const(x), Expr::Const(y)) => self.get_const(x).approx == other.get_const(
                y,
            ).approx,
            (Expr::Sum(x), Expr::Sum(y)) => {
                proof {
                    lemma_term_sum(self@, x);
                    lemma_term_sum(other@, y);
                }
                let s = self.get_sum(x);
                let t = other.get_sum(y);
                let ghost ts = self@.svec(s.terms@);
                let ghost tt = other@.svec(t.terms@);
                if s.terms.len() != t.terms.len() {
                    assert(ts.len() != tt.len());
                    return false;
                }
                let mut i: usize = 0;
                while i < s.terms.len()
                    invariant
                        i <= s.terms.len(),
                        s.terms.len() == t.terms.len(),
                        self@.wf(),
                        other@.wf(),
                        self@.owns_svec(s.terms@),
                        other@.owns_svec(t.terms@),
                        ts == self@.svec(s.terms@),
                        tt == other@.svec(t.terms@),
                        self@.term(a) == Term::Sum(ts),
                        other@.term(b) == Term::Sum(tt),
                        forall|k: int|
                            0 <= k < s.terms@.len() ==> self@.rank(#[trigger] s.terms@[k].1)
                                < self@.rank(a),
                        forall|k: int| 0 <= k < i ==> ts[k] == tt[k],
                    decreases s.terms.len() - i,
                {
                    let p = s.terms[i];
                    let q = t.terms[i];
                    assert(self@.owns(s.terms@[i as int].1) && other@.owns(t.terms@[i as int].1));
                    assert(ts[i as int] == (p.0, self@.term(p.1)));
                    assert(tt[i as int] == (q.0, other@.term(q.1)));
                    if !(p.0 == q.0) {
                        return false;
                    }
                    if !self.equal(p.1, other, q.1) {
                        return false;
                    }
                    i += 1;
                }
                assert(ts =~= tt);
                true
            },
            (Expr::Prod(x), Expr::Prod(y)) => {
                proof {
                    lemma_term_prod(self@, x);
                    lemma_term_prod(other@, y);
                }
                let s = self.get_prod(x);
                let t = other.get_prod(y);
                let ghost ts = self@.pvec(s.factors@);
                let ghost tt = other@.pvec(t.factors@);
                if s.factors.len() != t.factors.len() {
                    assert(ts.len() != tt.len());
                    return false;
                }
                let mut i: usize = 0;
                while i < s.factors.len()
                    invariant
                        i <= s.factors.len(),
                        s.factors.len() == t.factors.len(),
                        self@.wf(),
                        other@.wf(),
                        self@.owns_pvec(s.factors@),
                        other@.owns_pvec(t.factors@),
                        ts == self@.pvec(s.factors@),
                        tt == other@.pvec(t.factors@),
                        self@.term(a) == Term::Prod(ts),
                        other@.term(b) == Term::Prod(tt),
                        forall|k: int|
                            0 <= k < s.factors@.len() ==> self@.rank(#[trigger] s.factors@[k].0)
                                < self@.rank(a),
                        forall|k: int| 0 <= k < i ==> ts[k] == tt[k],
                    decreases s.factors.len() - i,
                {
                    let p = s.factors[i];
                    let q = t.factors[i];
                    assert(self@.owns(s.factors@[i as int].0) && other@.owns(
                        t.factors@[i as int].0,
                    ));
                    assert(ts[i as int] == (self@.term(p.0), p.1));
                    assert(tt[i as int] == (other@.term(q.0), q.1));
                    if !(p.1 == q.1) {
                        return false;
                    }
                    if !self.equal(p.0, other, q.0) {
                        return false;
                    }
                    i += 1;
                }
                assert(ts =~= tt);
                true
            },
            (Expr::Fn(x), Expr::Fn(y)) => {
                proof {
                    lemma_term_fn(self@, x);
                    lemma_term_fn(other@, y);
                }
                let f = self.get_fn(x);
                let g = other.get_fn(y);
                if f.kind() != g.kind() {
                    false
                } else {
                    self.equal(f.inner(), other, g.inner())
                }
            },
            _ => false,
        }
    }
}

} // verus!
