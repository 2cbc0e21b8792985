//! The arena: append-only stores of values, constants, sums, products and
//! functions, each node stored once.
use vstd::prelude::*;
use crate::frac::Frac;
use crate::term::{Term, term_of_frac, term_wf};
use crate::expr_field::{Expr, ExprFn, ExprFnTrait, FieldRef};
use crate::expr_field::structs::{Const, Prod, Stored, Sum, keys};
use crate::expr_field::simplify::sum::is_canonical_sum;
use crate::expr_field::simplify::prod::is_canonical_prod;

verus! {

/// What an arena holds, as sequences.
pub struct Arena {
    pub id: u64,
    pub vals: Seq<Frac>,
    pub consts: Seq<Const>,
    pub sums: Seq<Seq<(Frac, Expr)>>,
    pub prods: Seq<Seq<(Expr, Frac)>>,
    pub fns: Seq<ExprFn>,
    /// For each sum, product and function the number of composite nodes
    /// that the arena held when it was added.
    pub sum_rank: Seq<nat>,
    pub prod_rank: Seq<nat>,
    pub fn_rank: Seq<nat>,
}

impl Arena {
    /// The handle points into this arena.
    pub open spec fn owns(self, e: Expr) -> bool {
        match e {
            Expr::InDet(f) => f == self.id,
            Expr::Infty(f, _) => f == self.id,
            Expr::Zero(f) => f == self.id,
            Expr::One(f) => f == self.id,
            Expr::Val(r) => r.field == self.id && r.index < self.vals.len(),
            Expr::Const(r) => r.field == self.id && r.index < self.consts.len(),
            Expr::Sum(r) => r.field == self.id && r.index < self.sums.len(),
            Expr::Prod(r) => r.field == self.id && r.index < self.prods.len(),
            Expr::Fn(r) => r.field == self.id && r.index < self.fns.len(),
        }
    }

    /// Some handle of this arena stands for the term `t`.
    pub open spec fn holds(self, t: Term) -> bool {
        exists|e: Expr| self.owns(e) && #[trigger] self.term(e) == t
    }

    /// Zero for a leaf; for a composite node one more than its stored rank.
    pub open spec fn rank(self, e: Expr) -> nat {
        match e {
            Expr::Sum(r) => if r.index < self.sum_rank.len() {
                self.sum_rank[r.index as int] + 1
            } else {
                0
            },
            Expr::Prod(r) => if r.index < self.prod_rank.len() {
                self.prod_rank[r.index as int] + 1
            } else {
                0
            },
            Expr::Fn(r) => if r.index < self.fn_rank.len() {
                self.fn_rank[r.index as int] + 1
            } else {
                0
            },
            _ => 0,
        }
    }

    /// The tree that a handle stands for.
    pub open spec fn term(self, e: Expr) -> Term
        decreases self.rank(e),
    {
        match e {
            Expr::InDet(_) => Term::InDet,
            Expr::Infty(_, s) => Term::Infty(s),
            Expr::Zero(_) => Term::Zero,
            Expr::One(_) => Term::One,
            Expr::Val(r) => Term::Val(self.vals[r.index as int]),
            Expr::Const(r) => Term::Const(self.consts[r.index as int].approx),
            Expr::Sum(r) => {
                let v = self.sums[r.index as int];
                Term::Sum(
                    Seq::new(
                        v.len(),
                        |k: int|
                            (
                                v[k].0,
                                if self.rank(v[k].1) < self.rank(e) {
                                    self.term(v[k].1)
                                } else {
                                    Term::Zero
                                },
                            ),
                    ),
                )
            },
            Expr::Prod(r) => {
                let v = self.prods[r.index as int];
                Term::Prod(
                    Seq::new(
                        v.len(),
                        |k: int|
                            (
                                if self.rank(v[k].0) < self.rank(e) {
                                    self.term(v[k].0)
                                } else {
                                    Term::Zero
                                },
                                v[k].1,
                            ),
                    ),
                )
            },
            Expr::Fn(r) => {
                let f = self.fns[r.index as int];
                Term::Fn(
                    f.kind_spec(),
                    Box::new(
                        if self.rank(f.inner_spec()) < self.rank(e) {
                            self.term(f.inner_spec())
                        } else {
                            Term::Zero
                        },
                    ),
                )
            },
        }
    }
    /// The terms that the entries of a raw sum vector stand for.
    pub open spec fn svec(self, v: Seq<(Frac, Expr)>) -> Seq<(Frac, Term)> {
        Seq::new(v.len(), |k: int| (v[k].0, self.term(v[k].1)))
    }

    /// The terms that the entries of a raw product vector stand for.
    pub open spec fn pvec(self, v: Seq<(Expr, Frac)>) -> Seq<(Term, Frac)> {
        Seq::new(v.len(), |k: int| (self.term(v[k].0), v[k].1))
    }

    /// Every entry holds a handle of this arena and a reduced coefficient.
    pub open spec fn owns_svec(self, v: Seq<(Frac, Expr)>) -> bool {
        forall|k: int| 0 <= k < v.len() ==> self.owns((#[trigger] v[k]).1) && v[k].0.wf()
    }

    /// Every entry holds a handle of this arena and a reduced exponent.
    pub open spec fn owns_pvec(self, v: Seq<(Expr, Frac)>) -> bool {
        forall|k: int| 0 <= k < v.len() ==> self.owns((#[trigger] v[k]).0) && v[k].1.wf()
    }

    /// Number of composite nodes.
    pub open spec fn composites(self) -> nat {
        self.sums.len() + self.prods.len() + self.fns.len()
    }

    /// A stored value is a reduced finite rational other than zero and one.
    pub open spec fn storable(v: Frac) -> bool {
        v.wf() && v is Rational && !v.is_zero_spec() && !v.is_one_spec()
    }

    /// Every stored handle points at an older node of the same arena, and no
    /// store holds a node twice.
    #[verifier::opaque]
    pub open spec fn linked(self) -> bool {
        &&& self.sum_rank.len() == self.sums.len()
        &&& self.prod_rank.len() == self.prods.len()
        &&& self.fn_rank.len() == self.fns.len()
        &&& forall|i: int| 0 <= i < self.vals.len() ==> Self::storable(#[trigger] self.vals[i])
        &&& forall|i: int, j: int|
            0 <= i < j < self.vals.len() ==> #[trigger] self.vals[i] != #[trigger] self.vals[j]
        &&& forall|i: int, j: int|
            0 <= i < j < self.consts.len() ==> (#[trigger] self.consts[i]).approx
                != (#[trigger] self.consts[j]).approx
        &&& forall|i: int|
            0 <= i < self.sums.len() ==> #[trigger] self.sum_rank[i] < self.composites()
                && self.owns_svec(self.sums[i])
        &&& forall|i: int, k: int|
            0 <= i < self.sums.len() && 0 <= k < self.sums[i].len() ==> self.rank(
                #[trigger] self.sums[i][k].1,
            ) <= self.sum_rank[i]
        &&& forall|i: int, j: int|
            0 <= i < j < self.sums.len() ==> #[trigger] self.sums[i] != #[trigger] self.sums[j]
        &&& forall|i: int|
            0 <= i < self.prods.len() ==> #[trigger] self.prod_rank[i] < self.composites()
                && self.owns_pvec(self.prods[i])
        &&& forall|i: int, k: int|
            0 <= i < self.prods.len() && 0 <= k < self.prods[i].len() ==> self.rank(
                #[trigger] self.prods[i][k].0,
            ) <= self.prod_rank[i]
        &&& forall|i: int, j: int|
            0 <= i < j < self.prods.len() ==> #[trigger] self.prods[i] != #[trigger] self.prods[j]
        &&& forall|i: int|
            0 <= i < self.fns.len() ==> #[trigger] self.fn_rank[i] < self.composites()
                && self.owns(self.fns[i].inner_spec()) && self.rank(self.fns[i].inner_spec())
                <= self.fn_rank[i]
        &&& forall|i: int, j: int|
            0 <= i < j < self.fns.len() ==> #[trigger] self.fns[i] != #[trigger] self.fns[j]
    }

    /// `self` has grown out of `old`: the same identity, and every store of
    /// `old` is a prefix of the store of `self`.
    pub open spec fn extends(self, old: Arena) -> bool {
        &&& self.id == old.id
        &&& old.vals.is_prefix_of(self.vals)
        &&& old.consts.is_prefix_of(self.consts)
        &&& old.sums.is_prefix_of(self.sums)
        &&& old.prods.is_prefix_of(self.prods)
        &&& old.fns.is_prefix_of(self.fns)
        &&& old.sum_rank.is_prefix_of(self.sum_rank)
        &&& old.prod_rank.is_prefix_of(self.prod_rank)
        &&& old.fn_rank.is_prefix_of(self.fn_rank)
    }

    /// Every stored sum and every stored product is in canonical form and is
    /// none that collapses to something simpler.
    #[verifier::opaque]
    pub open spec fn canonical(self) -> bool {
        &&& forall|i: int|
            0 <= i < self.sums.len() ==> stored_sum_ok(self.svec(#[trigger] self.sums[i]))
        &&& forall|i: int|
            0 <= i < self.prods.len() ==> stored_prod_ok(self.pvec(#[trigger] self.prods[i]))
    }

    /// The invariant of an arena: its nodes are linked to older nodes and
    /// stored once, and its sums and products are in canonical form.
    pub open spec fn wf(self) -> bool {
        self.linked() && self.canonical()
    }

    /// An arena with no nodes.
    pub open spec fn empty(id: u64) -> Arena {
        Arena {
            id,
            vals: Seq::empty(),
            consts: Seq::empty(),
            sums: Seq::empty(),
            prods: Seq::empty(),
            fns: Seq::empty(),
            sum_rank: Seq::empty(),
            prod_rank: Seq::empty(),
            fn_rank: Seq::empty(),
        }
    }
}

/// A stored sum stands for the sum of the terms of its entries.
pub proof fn lemma_term_sum(a: Arena, r: FieldRef)
    requires
        a.linked(),
        a.owns(Expr::Sum(r)),
    ensures
        a.term(Expr::Sum(r)) == Term::Sum(a.svec(a.sums[r.index as int])),
        a.owns_svec(a.sums[r.index as int]),
        a.sum_rank.len() == a.sums.len(),
        forall|k: int|
            0 <= k < a.sums[r.index as int].len() ==> a.rank(
                #[trigger] a.sums[r.index as int][k].1,
            ) < a.rank(Expr::Sum(r)),
{
    reveal(Arena::linked);
    let v = a.sums[r.index as int];
    assert(a.sum_rank[r.index as int] < a.composites());
    assert forall|k: int| 0 <= k < v.len() implies a.rank(#[trigger] v[k].1) < a.rank(
        Expr::Sum(r),
    ) by {
        assert(a.rank(a.sums[r.index as int][k].1) <= a.sum_rank[r.index as int]);
    }
    assert(a.term(Expr::Sum(r))->Sum_0 =~= a.svec(v));
}

/// A stored product stands for the product of the terms of its entries.
pub proof fn lemma_term_prod(a: Arena, r: FieldRef)
    requires
        a.linked(),
        a.owns(Expr::Prod(r)),
    ensures
        a.term(Expr::Prod(r)) == Term::Prod(a.pvec(a.prods[r.index as int])),
        a.owns_pvec(a.prods[r.index as int]),
        a.prod_rank.len() == a.prods.len(),
        forall|k: int|
            0 <= k < a.prods[r.index as int].len() ==> a.rank(
                #[trigger] a.prods[r.index as int][k].0,
            ) < a.rank(Expr::Prod(r)),
{
    reveal(Arena::linked);
    let v = a.prods[r.index as int];
    assert(a.prod_rank[r.index as int] < a.composites());
    assert forall|k: int| 0 <= k < v.len() implies a.rank(#[trigger] v[k].0) < a.rank(
        Expr::Prod(r),
    ) by {
        assert(a.rank(a.prods[r.index as int][k].0) <= a.prod_rank[r.index as int]);
    }
    assert(a.term(Expr::Prod(r))->Prod_0 =~= a.pvec(v));
}

/// A stored function stands for its kind applied to the term of its inner
/// expression.
pub proof fn lemma_term_fn(a: Arena, r: FieldRef)
    requires
        a.linked(),
        a.owns(Expr::Fn(r)),
    ensures
        a.term(Expr::Fn(r)) == Term::Fn(
            a.fns[r.index as int].kind_spec(),
            Box::new(a.term(a.fns[r.index as int].inner_spec())),
        ),
        a.owns(a.fns[r.index as int].inner_spec()),
        a.rank(a.fns[r.index as int].inner_spec()) < a.rank(Expr::Fn(r)),
        a.fn_rank.len() == a.fns.len(),
{
    reveal(Arena::linked);
    assert(a.fn_rank[r.index as int] < a.composites());
}

/// Growth keeps every handle and what it stands for.
pub proof fn lemma_extends(old: Arena, new: Arena, e: Expr)
    requires
        old.linked(),
        new.extends(old),
        old.owns(e),
    ensures
        new.owns(e),
        new.term(e) == old.term(e),
        new.rank(e) == old.rank(e),
    decreases old.rank(e),
{
    match e {
        Expr::Sum(r) => {
            lemma_term_sum(old, r);
            let v = old.sums[r.index as int];
            assert(new.sums[r.index as int] == v);
            assert(new.sum_rank[r.index as int] == old.sum_rank[r.index as int]);
            assert forall|k: int| 0 <= k < v.len() implies new.rank(v[k].1) == old.rank(v[k].1)
                && new.term(v[k].1) == old.term(v[k].1) by {
                lemma_extends(old, new, v[k].1);
            }
            assert(new.term(e)->Sum_0 =~= old.svec(v));
        },
        Expr::Prod(r) => {
            lemma_term_prod(old, r);
            let v = old.prods[r.index as int];
            assert(new.prods[r.index as int] == v);
            assert(new.prod_rank[r.index as int] == old.prod_rank[r.index as int]);
            assert forall|k: int| 0 <= k < v.len() implies new.rank(v[k].0) == old.rank(v[k].0)
                && new.term(v[k].0) == old.term(v[k].0) by {
                lemma_extends(old, new, v[k].0);
            }
            assert(new.term(e)->Prod_0 =~= old.pvec(v));
        },
        Expr::Fn(r) => {
            lemma_term_fn(old, r);
            assert(new.fns[r.index as int] == old.fns[r.index as int]);
            assert(new.fn_rank[r.index as int] == old.fn_rank[r.index as int]);
            lemma_extends(old, new, old.fns[r.index as int].inner_spec());
        },
        Expr::Val(r) => {
            assert(new.vals[r.index as int] == old.vals[r.index as int]);
        },
        Expr::Const(r) => {
            assert(new.consts[r.index as int] == old.consts[r.index as int]);
        },
        _ => {},
    }
}

/// An owned entry appended to an owned sum vector.
pub proof fn lemma_owns_svec_push(a: Arena, v: Seq<(Frac, Expr)>, x: (Frac, Expr))
    requires
        a.owns_svec(v),
        a.owns(x.1),
        x.0.wf(),
    ensures
        a.owns_svec(v.push(x)),
        a.svec(v.push(x)) == a.svec(v).push((x.0, a.term(x.1))),
{
    let w = v.push(x);
    assert forall|k: int| 0 <= k < w.len() implies a.owns((#[trigger] w[k]).1) && w[k].0.wf() by {
        if k < v.len() {
            assert(a.owns(v[k].1));
            assert(w[k] == v[k]);
        } else {
            assert(w[k] == x);
        }
    }
    assert(a.svec(w) =~= a.svec(v).push((x.0, a.term(x.1))));
}

/// An owned factor appended to an owned product vector.
pub proof fn lemma_owns_pvec_push(a: Arena, v: Seq<(Expr, Frac)>, x: (Expr, Frac))
    requires
        a.owns_pvec(v),
        a.owns(x.0),
        x.1.wf(),
    ensures
        a.owns_pvec(v.push(x)),
        a.pvec(v.push(x)) == a.pvec(v).push((a.term(x.0), x.1)),
{
    let w = v.push(x);
    assert forall|k: int| 0 <= k < w.len() implies a.owns((#[trigger] w[k]).0) && w[k].1.wf() by {
        if k < v.len() {
            assert(a.owns(v[k].0));
            assert(w[k] == v[k]);
        } else {
            assert(w[k] == x);
        }
    }
    assert(a.pvec(w) =~= a.pvec(v).push((a.term(x.0), x.1)));
}

/// Owned factors appended to owned factors.
pub proof fn lemma_owns_pvec_append(a: Arena, v: Seq<(Expr, Frac)>, w: Seq<(Expr, Frac)>)
    requires
        a.owns_pvec(v),
        a.owns_pvec(w),
    ensures
        a.owns_pvec(v + w),
        a.pvec(v + w) == a.pvec(v) + a.pvec(w),
{
    let u = v + w;
    assert forall|k: int| 0 <= k < u.len() implies a.owns((#[trigger] u[k]).0) && u[k].1.wf() by {
        if k < v.len() {
            assert(a.owns(v[k].0));
            assert(u[k] == v[k]);
        } else {
            assert(a.owns(w[k - v.len()].0));
            assert(u[k] == w[k - v.len()]);
        }
    }
    assert(a.pvec(u) =~= a.pvec(v) + a.pvec(w));
}

/// Growth of a grown arena is growth of the first.
pub proof fn lemma_extends_trans(a: Arena, b: Arena, c: Arena)
    requires
        b.extends(a),
        c.extends(b),
    ensures
        c.extends(a),
{
}

/// Growth keeps what raw vectors stand for.
pub proof fn lemma_extends_svec(old: Arena, new: Arena, v: Seq<(Frac, Expr)>)
    requires
        old.linked(),
        new.extends(old),
        old.owns_svec(v),
    ensures
        new.owns_svec(v),
        new.svec(v) == old.svec(v),
{
    assert forall|k: int| 0 <= k < v.len() implies new.owns(#[trigger] v[k].1) && new.term(
        v[k].1,
    ) == old.term(v[k].1) by {
        lemma_extends(old, new, v[k].1);
    }
    assert(new.svec(v) =~= old.svec(v));
}

/// Growth keeps what raw vectors stand for.
pub proof fn lemma_extends_pvec(old: Arena, new: Arena, v: Seq<(Expr, Frac)>)
    requires
        old.linked(),
        new.extends(old),
        old.owns_pvec(v),
    ensures
        new.owns_pvec(v),
        new.pvec(v) == old.pvec(v),
{
    assert forall|k: int| 0 <= k < v.len() implies new.owns(#[trigger] v[k].0) && new.term(
        v[k].0,
    ) == old.term(v[k].0) by {
        lemma_extends(old, new, v[k].0);
    }
    assert(new.pvec(v) =~= old.pvec(v));
}

/// No store of a well-formed arena holds a node twice.
pub proof fn lemma_distinct(a: Arena)
    requires
        a.linked(),
    ensures
        forall|i: int, j: int|
            0 <= i < a.vals.len() && 0 <= j < a.vals.len() && #[trigger] a.vals[i]
                == #[trigger] a.vals[j] ==> i == j,
        forall|i: int, j: int|
            0 <= i < a.consts.len() && 0 <= j < a.consts.len() && (#[trigger] a.consts[i]).approx
                == (#[trigger] a.consts[j]).approx ==> i == j,
        forall|i: int, j: int|
            0 <= i < a.sums.len() && 0 <= j < a.sums.len() && #[trigger] a.sums[i]
                == #[trigger] a.sums[j] ==> i == j,
        forall|i: int, j: int|
            0 <= i < a.prods.len() && 0 <= j < a.prods.len() && #[trigger] a.prods[i]
                == #[trigger] a.prods[j] ==> i == j,
        forall|i: int, j: int|
            0 <= i < a.fns.len() && 0 <= j < a.fns.len() && #[trigger] a.fns[i]
                == #[trigger] a.fns[j] ==> i == j,
{
    reveal(Arena::linked);
    assert forall|i: int, j: int|
        0 <= i < a.vals.len() && 0 <= j < a.vals.len() && #[trigger] a.vals[i]
            == #[trigger] a.vals[j] implies i == j by {
        if i < j {
        } else if j < i {
        }
    }
    assert forall|i: int, j: int|
        0 <= i < a.consts.len() && 0 <= j < a.consts.len() && (#[trigger] a.consts[i]).approx
            == (#[trigger] a.consts[j]).approx implies i == j by {
        if i < j {
        } else if j < i {
        }
    }
    assert forall|i: int, j: int|
        0 <= i < a.sums.len() && 0 <= j < a.sums.len() && #[trigger] a.sums[i]
            == #[trigger] a.sums[j] implies i == j by {
        if i < j {
        } else if j < i {
        }
    }
    assert forall|i: int, j: int|
        0 <= i < a.prods.len() && 0 <= j < a.prods.len() && #[trigger] a.prods[i]
            == #[trigger] a.prods[j] implies i == j by {
        if i < j {
        } else if j < i {
        }
    }
    assert forall|i: int, j: int|
        0 <= i < a.fns.len() && 0 <= j < a.fns.len() && #[trigger] a.fns[i]
            == #[trigger] a.fns[j] implies i == j by {
        if i < j {
        } else if j < i {
        }
    }
}

/// Within one arena two handles stand for the same term only if they are
/// the same handle: every node is stored once.
pub proof fn lemma_term_injective(a: Arena, x: Expr, y: Expr)
    requires
        a.linked(),
        a.owns(x),
        a.owns(y),
        a.term(x) == a.term(y),
    ensures
        x == y,
    decreases a.rank(x),
{
    match x {
        Expr::Sum(r) => {
            lemma_term_sum(a, r);
            let q = y->Sum_0;
            lemma_term_sum(a, q);
            let v = a.sums[r.index as int];
            let w = a.sums[q.index as int];
            assert(a.svec(v).len() == a.svec(w).len());
            assert forall|k: int| 0 <= k < v.len() implies v[k] == w[k] by {
                assert(a.svec(v)[k] == a.svec(w)[k]);
                lemma_term_injective(a, v[k].1, w[k].1);
            }
            assert(v =~= w);
            lemma_distinct(a);
        },
        Expr::Prod(r) => {
            lemma_term_prod(a, r);
            let q = y->Prod_0;
            lemma_term_prod(a, q);
            let v = a.prods[r.index as int];
            let w = a.prods[q.index as int];
            assert(a.pvec(v).len() == a.pvec(w).len());
            assert forall|k: int| 0 <= k < v.len() implies v[k] == w[k] by {
                assert(a.pvec(v)[k] == a.pvec(w)[k]);
                lemma_term_injective(a, v[k].0, w[k].0);
            }
            assert(v =~= w);
            lemma_distinct(a);
        },
        Expr::Fn(r) => {
            lemma_term_fn(a, r);
            let q = y->Fn_0;
            lemma_term_fn(a, q);
            let f = a.fns[r.index as int];
            let g = a.fns[q.index as int];
            lemma_term_injective(a, f.inner_spec(), g.inner_spec());
            assert(f == g);
            lemma_distinct(a);
        },
        Expr::Val(r) => {
            lemma_distinct(a);
            let q = y->Val_0;
            assert(a.vals[r.index as int] == a.vals[q.index as int]);
        },
        Expr::Const(r) => {
            lemma_distinct(a);
            let q = y->Const_0;
            assert(a.consts[r.index as int].approx == a.consts[q.index as int].approx);
        },
        _ => {},
    }
}


/// A term that an arena holds is held by every arena grown from it.
pub proof fn lemma_holds_kept(old: Arena, new: Arena, t: Term)
    requires
        old.linked(),
        new.extends(old),
        old.holds(t),
    ensures
        new.holds(t),
{
    let w = choose|w: Expr| old.owns(w) && #[trigger] old.term(w) == t;
    lemma_extends(old, new, w);
    assert(new.owns(w) && new.term(w) == t);
}

/// The handle of a term that the arena held before it grew is a handle of
/// the arena as it was.
pub proof fn lemma_held_handle(old: Arena, new: Arena, e: Expr)
    requires
        old.linked(),
        new.linked(),
        new.extends(old),
        new.owns(e),
        old.holds(new.term(e)),
    ensures
        old.owns(e),
{
    let t = new.term(e);
    let w = choose|w: Expr| old.owns(w) && #[trigger] old.term(w) == t;
    lemma_extends(old, new, w);
    lemma_term_injective(new, e, w);
}

/// An arena that holds a sum holds its terms, one that holds a product
/// holds its bases, and one that holds a function holds its argument.
pub proof fn lemma_holds_parts(a: Arena, t: Term)
    requires
        a.linked(),
        a.holds(t),
    ensures
        t matches Term::Sum(v) ==> forall|k: int| 0 <= k < v.len() ==> a.holds((#[trigger] v[k]).1),
        t matches Term::Prod(v) ==> forall|k: int|
            0 <= k < v.len() ==> a.holds((#[trigger] v[k]).0),
        t matches Term::Fn(_, x) ==> a.holds(*x),
{
    let w = choose|w: Expr| a.owns(w) && #[trigger] a.term(w) == t;
    match w {
        Expr::Sum(r) => {
            lemma_term_sum(a, r);
            let h = a.sums[r.index as int];
            let v = a.svec(h);
            assert forall|k: int| 0 <= k < v.len() implies a.holds((#[trigger] v[k]).1) by {
                assert(a.owns(h[k].1) && a.term(h[k].1) == v[k].1);
            }
        },
        Expr::Prod(r) => {
            lemma_term_prod(a, r);
            let h = a.prods[r.index as int];
            let v = a.pvec(h);
            assert forall|k: int| 0 <= k < v.len() implies a.holds((#[trigger] v[k]).0) by {
                assert(a.owns(h[k].0) && a.term(h[k].0) == v[k].0);
            }
        },
        Expr::Fn(r) => {
            lemma_term_fn(a, r);
            let inner = a.fns[r.index as int].inner_spec();
            assert(a.owns(inner) && a.term(inner) == a.term(inner));
        },
        _ => {},
    }
}

/// Growth keeps handles and the ranks of what they point at.
proof fn lemma_extends_owns(old: Arena, new: Arena)
    requires
        new.extends(old),
        old.sum_rank.len() == old.sums.len(),
        old.prod_rank.len() == old.prods.len(),
        old.fn_rank.len() == old.fns.len(),
    ensures
        forall|e: Expr| #[trigger] old.owns(e) ==> new.owns(e) && new.rank(e) == old.rank(e),
        forall|v: Seq<(Frac, Expr)>| #[trigger] old.owns_svec(v) ==> new.owns_svec(v),
        forall|v: Seq<(Expr, Frac)>| #[trigger] old.owns_pvec(v) ==> new.owns_pvec(v),
{
    assert forall|e: Expr| #[trigger] old.owns(e) implies new.owns(e) && new.rank(e) == old.rank(
        e,
    ) by {
        match e {
            Expr::Sum(r) => {
                assert(new.sum_rank[r.index as int] == old.sum_rank[r.index as int]);
            },
            Expr::Prod(r) => {
                assert(new.prod_rank[r.index as int] == old.prod_rank[r.index as int]);
            },
            Expr::Fn(r) => {
                assert(new.fn_rank[r.index as int] == old.fn_rank[r.index as int]);
            },
            _ => {},
        }
    }
    assert forall|v: Seq<(Frac, Expr)>| #[trigger] old.owns_svec(v) implies new.owns_svec(v) by {
        assert forall|k: int| 0 <= k < v.len() implies new.owns(#[trigger] v[k].1) && v[k].0.wf() by {
            assert(old.owns(v[k].1));
        }
    }
    assert forall|v: Seq<(Expr, Frac)>| #[trigger] old.owns_pvec(v) implies new.owns_pvec(v) by {
        assert forall|k: int| 0 <= k < v.len() implies new.owns(#[trigger] v[k].0) && v[k].1.wf() by {
            assert(old.owns(v[k].0));
        }
    }
}

/// Appending a new value keeps the invariant.
proof fn lemma_push_val(old: Arena, new: Arena, v: Frac)
    requires
        old.linked(),
        Arena::storable(v),
        forall|j: int| 0 <= j < old.vals.len() ==> old.vals[j] != v,
        new == (Arena { vals: old.vals.push(v), ..old }),
    ensures
        new.linked(),
        new.extends(old),
{
    reveal(Arena::linked);
    lemma_extends_owns(old, new);
    assert forall|i: int, k: int|
        0 <= i < new.sums.len() && 0 <= k < new.sums[i].len() implies new.rank(
        #[trigger] new.sums[i][k].1,
    ) <= new.sum_rank[i] by {
        assert(old.owns_svec(old.sums[i]));
        assert(old.owns(old.sums[i][k].1));
    }
    assert forall|i: int, k: int|
        0 <= i < new.prods.len() && 0 <= k < new.prods[i].len() implies new.rank(
        #[trigger] new.prods[i][k].0,
    ) <= new.prod_rank[i] by {
        assert(old.owns_pvec(old.prods[i]));
        assert(old.owns(old.prods[i][k].0));
    }
}

/// Appending a constant with a new approximation keeps the invariant.
proof fn lemma_push_const(old: Arena, new: Arena, c: Const)
    requires
        old.linked(),
        forall|j: int| 0 <= j < old.consts.len() ==> old.consts[j].approx != c.approx,
        new == (Arena { consts: old.consts.push(c), ..old }),
    ensures
        new.linked(),
        new.extends(old),
{
    reveal(Arena::linked);
    lemma_extends_owns(old, new);
    assert forall|i: int, k: int|
        0 <= i < new.sums.len() && 0 <= k < new.sums[i].len() implies new.rank(
        #[trigger] new.sums[i][k].1,
    ) <= new.sum_rank[i] by {
        assert(old.owns_svec(old.sums[i]));
        assert(old.owns(old.sums[i][k].1));
    }
    assert forall|i: int, k: int|
        0 <= i < new.prods.len() && 0 <= k < new.prods[i].len() implies new.rank(
        #[trigger] new.prods[i][k].0,
    ) <= new.prod_rank[i] by {
        assert(old.owns_pvec(old.prods[i]));
        assert(old.owns(old.prods[i][k].0));
    }
}

/// Appending a new sum over owned handles keeps the invariant.
proof fn lemma_push_sum(old: Arena, new: Arena, v: Seq<(Frac, Expr)>)
    requires
        old.linked(),
        old.owns_svec(v),
        forall|j: int| 0 <= j < old.sums.len() ==> old.sums[j] != v,
        new == (Arena {
            sums: old.sums.push(v),
            sum_rank: old.sum_rank.push(old.composites()),
            ..old
        }),
    ensures
        new.linked(),
        new.extends(old),
{
    reveal(Arena::linked);
    lemma_extends_owns(old, new);
    assert forall|i: int, k: int|
        0 <= i < new.sums.len() && 0 <= k < new.sums[i].len() implies new.rank(
        #[trigger] new.sums[i][k].1,
    ) <= new.sum_rank[i] by {
        if i < old.sums.len() {
            assert(old.owns_svec(old.sums[i]));
            assert(old.owns(old.sums[i][k].1));
        } else {
            assert(old.owns(v[k].1));
            lemma_rank_bound(old, v[k].1);
        }
    }
    assert forall|i: int, k: int|
        0 <= i < new.prods.len() && 0 <= k < new.prods[i].len() implies new.rank(
        #[trigger] new.prods[i][k].0,
    ) <= new.prod_rank[i] by {
        assert(old.owns_pvec(old.prods[i]));
        assert(old.owns(old.prods[i][k].0));
    }
    assert forall|i: int| 0 <= i < new.sums.len() implies #[trigger] new.sum_rank[i]
        < new.composites() && new.owns_svec(new.sums[i]) by {
        if i < old.sums.len() {
            assert(old.owns_svec(old.sums[i]));
        }
    }
}

/// Appending a new product over owned handles keeps the invariant.
proof fn lemma_push_prod(old: Arena, new: Arena, v: Seq<(Expr, Frac)>)
    requires
        old.linked(),
        old.owns_pvec(v),
        forall|j: int| 0 <= j < old.prods.len() ==> old.prods[j] != v,
        new == (Arena {
            prods: old.prods.push(v),
            prod_rank: old.prod_rank.push(old.composites()),
            ..old
        }),
    ensures
        new.linked(),
        new.extends(old),
{
    reveal(Arena::linked);
    lemma_extends_owns(old, new);
    assert forall|i: int, k: int|
        0 <= i < new.sums.len() && 0 <= k < new.sums[i].len() implies new.rank(
        #[trigger] new.sums[i][k].1,
    ) <= new.sum_rank[i] by {
        assert(old.owns_svec(old.sums[i]));
        assert(old.owns(old.sums[i][k].1));
    }
    assert forall|i: int, k: int|
        0 <= i < new.prods.len() && 0 <= k < new.prods[i].len() implies new.rank(
        #[trigger] new.prods[i][k].0,
    ) <= new.prod_rank[i] by {
        if i < old.prods.len() {
            assert(old.owns_pvec(old.prods[i]));
            assert(old.owns(old.prods[i][k].0));
        } else {
            assert(old.owns(v[k].0));
            lemma_rank_bound(old, v[k].0);
        }
    }
    assert forall|i: int| 0 <= i < new.prods.len() implies #[trigger] new.prod_rank[i]
        < new.composites() && new.owns_pvec(new.prods[i]) by {
        if i < old.prods.len() {
            assert(old.owns_pvec(old.prods[i]));
        }
    }
}

/// Appending a new function of an owned handle keeps the invariant.
proof fn lemma_push_fn(old: Arena, new: Arena, f: ExprFn)
    requires
        old.linked(),
        old.owns(f.inner_spec()),
        forall|j: int| 0 <= j < old.fns.len() ==> old.fns[j] != f,
        new == (Arena {
            fns: old.fns.push(f),
            fn_rank: old.fn_rank.push(old.composites()),
            ..old
        }),
    ensures
        new.linked(),
        new.extends(old),
{
    reveal(Arena::linked);
    lemma_extends_owns(old, new);
    assert forall|i: int, k: int|
        0 <= i < new.sums.len() && 0 <= k < new.sums[i].len() implies new.rank(
        #[trigger] new.sums[i][k].1,
    ) <= new.sum_rank[i] by {
        assert(old.owns_svec(old.sums[i]));
        assert(old.owns(old.sums[i][k].1));
    }
    assert forall|i: int, k: int|
        0 <= i < new.prods.len() && 0 <= k < new.prods[i].len() implies new.rank(
        #[trigger] new.prods[i][k].0,
    ) <= new.prod_rank[i] by {
        assert(old.owns_pvec(old.prods[i]));
        assert(old.owns(old.prods[i][k].0));
    }
    assert forall|i: int| 0 <= i < new.fns.len() implies #[trigger] new.fn_rank[i]
        < new.composites() && new.owns(new.fns[i].inner_spec()) && new.rank(
        new.fns[i].inner_spec(),
    ) <= new.fn_rank[i] by {
        if i < old.fns.len() {
            assert(old.fn_rank[i] < old.composites());
            assert(old.owns(old.fns[i].inner_spec()));
        } else {
            lemma_rank_bound(old, f.inner_spec());
        }
    }
}

/// A stored value is a reduced finite rational other than zero and one.
pub proof fn lemma_val_storable(a: Arena, r: FieldRef)
    requires
        a.linked(),
        a.owns(Expr::Val(r)),
    ensures
        Arena::storable(a.vals[r.index as int]),
{
    reveal(Arena::linked);
}

/// The rank of a handle is at most the number of composite nodes.
pub proof fn lemma_rank_bound(a: Arena, e: Expr)
    requires
        a.linked(),
        a.owns(e),
    ensures
        a.rank(e) <= a.composites(),
{
    reveal(Arena::linked);
    match e {
        Expr::Sum(r) => {
            assert(a.sum_rank[r.index as int] < a.composites());
        },
        Expr::Prod(r) => {
            assert(a.prod_rank[r.index as int] < a.composites());
        },
        Expr::Fn(r) => {
            assert(a.fn_rank[r.index as int] < a.composites());
        },
        _ => {},
    }
}

/// A sum vector that may be stored: in canonical form, and neither empty
/// nor a lone entry that stands for a rational or for its bare term.
pub open spec fn stored_sum_ok(v: Seq<(Frac, Term)>) -> bool {
    &&& is_canonical_sum(v)
    &&& v.len() >= 1
    &&& !(v.len() == 1 && (v[0].1 is One || v[0].0.is_one_spec()))
}

/// A product vector that may be stored: in canonical form, and neither
/// empty nor a lone factor with the exponent one.
pub open spec fn stored_prod_ok(v: Seq<(Term, Frac)>) -> bool {
    &&& is_canonical_prod(v)
    &&& v.len() >= 1
    &&& !(v.len() == 1 && v[0].1.is_one_spec())
}

/// The stored sums and products of a well-formed arena are in canonical
/// form.
pub proof fn lemma_stored_canonical(a: Arena)
    requires
        a.wf(),
    ensures
        forall|i: int| 0 <= i < a.sums.len() ==> stored_sum_ok(a.svec(#[trigger] a.sums[i])),
        forall|i: int| 0 <= i < a.prods.len() ==> stored_prod_ok(a.pvec(#[trigger] a.prods[i])),
{
    reveal(Arena::canonical);
}

/// The entries of every stored sum and product are owned.
pub proof fn lemma_stored_owned(a: Arena)
    requires
        a.linked(),
    ensures
        forall|i: int| 0 <= i < a.sums.len() ==> a.owns_svec(#[trigger] a.sums[i]),
        forall|i: int| 0 <= i < a.prods.len() ==> a.owns_pvec(#[trigger] a.prods[i]),
{
    reveal(Arena::linked);
    assert forall|i: int| 0 <= i < a.sums.len() implies a.owns_svec(#[trigger] a.sums[i]) by {
        assert(a.sum_rank[i] < a.composites());
    }
    assert forall|i: int| 0 <= i < a.prods.len() implies a.owns_pvec(#[trigger] a.prods[i]) by {
        assert(a.prod_rank[i] < a.composites());
    }
}

/// Growth that adds no sum and no product keeps the canonical form.
pub proof fn lemma_canonical_kept(old: Arena, new: Arena)
    requires
        old.wf(),
        new.extends(old),
        new.sums == old.sums,
        new.prods == old.prods,
    ensures
        new.canonical(),
{
    reveal(Arena::canonical);
    assert forall|i: int| 0 <= i < new.sums.len() implies stored_sum_ok(
        new.svec(#[trigger] new.sums[i]),
    ) by {
        lemma_stored_owned(old);
        lemma_extends_svec(old, new, old.sums[i]);
    }
    assert forall|i: int| 0 <= i < new.prods.len() implies stored_prod_ok(
        new.pvec(#[trigger] new.prods[i]),
    ) by {
        lemma_stored_owned(old);
        lemma_extends_pvec(old, new, old.prods[i]);
    }
}

/// Growth by one sum in canonical form keeps the canonical form.
pub proof fn lemma_canonical_sum_added(old: Arena, new: Arena, v: Seq<(Frac, Expr)>)
    requires
        old.wf(),
        new.extends(old),
        new.sums == old.sums.push(v),
        new.prods == old.prods,
        old.owns_svec(v),
        stored_sum_ok(old.svec(v)),
    ensures
        new.canonical(),
{
    reveal(Arena::canonical);
    assert forall|i: int| 0 <= i < new.sums.len() implies stored_sum_ok(
        new.svec(#[trigger] new.sums[i]),
    ) by {
        if i < old.sums.len() {
            lemma_stored_owned(old);
            assert(new.sums[i] == old.sums[i]);
            lemma_extends_svec(old, new, old.sums[i]);
        } else {
            lemma_extends_svec(old, new, v);
        }
    }
    assert forall|i: int| 0 <= i < new.prods.len() implies stored_prod_ok(
        new.pvec(#[trigger] new.prods[i]),
    ) by {
        lemma_stored_owned(old);
        lemma_extends_pvec(old, new, old.prods[i]);
    }
}

/// Growth by one product in canonical form keeps the canonical form.
pub proof fn lemma_canonical_prod_added(old: Arena, new: Arena, v: Seq<(Expr, Frac)>)
    requires
        old.wf(),
        new.extends(old),
        new.sums == old.sums,
        new.prods == old.prods.push(v),
        old.owns_pvec(v),
        stored_prod_ok(old.pvec(v)),
    ensures
        new.canonical(),
{
    reveal(Arena::canonical);
    assert forall|i: int| 0 <= i < new.sums.len() implies stored_sum_ok(
        new.svec(#[trigger] new.sums[i]),
    ) by {
        lemma_stored_owned(old);
        lemma_extends_svec(old, new, old.sums[i]);
    }
    assert forall|i: int| 0 <= i < new.prods.len() implies stored_prod_ok(
        new.pvec(#[trigger] new.prods[i]),
    ) by {
        if i < old.prods.len() {
            lemma_stored_owned(old);
            assert(new.prods[i] == old.prods[i]);
            lemma_extends_pvec(old, new, old.prods[i]);
        } else {
            lemma_extends_pvec(old, new, v);
        }
    }
}

/// Every term of a linked arena is in lowest terms.
pub proof fn lemma_term_wf(a: Arena, e: Expr)
    requires
        a.linked(),
        a.owns(e),
    ensures
        term_wf(a.term(e)),
    decreases a.rank(e),
{
    match e {
        Expr::Sum(r) => {
            lemma_term_sum(a, r);
            let v = a.sums[r.index as int];
            assert forall|k: int| 0 <= k < v.len() implies (#[trigger] a.svec(v)[k]).0.wf()
                && term_wf(a.svec(v)[k].1) by {
                assert(a.owns(v[k].1));
                lemma_term_wf(a, v[k].1);
            }
        },
        Expr::Prod(r) => {
            lemma_term_prod(a, r);
            let v = a.prods[r.index as int];
            assert forall|k: int| 0 <= k < v.len() implies (#[trigger] a.pvec(v)[k]).1.wf()
                && term_wf(a.pvec(v)[k].0) by {
                assert(a.owns(v[k].0));
                lemma_term_wf(a, v[k].0);
            }
        },
        Expr::Fn(r) => {
            lemma_term_fn(a, r);
            lemma_term_wf(a, a.fns[r.index as int].inner_spec());
        },
        Expr::Val(r) => {
            lemma_val_storable(a, r);
        },
        _ => {},
    }
}

/// The terms of owned entries are in lowest terms.
pub proof fn lemma_svec_wf(a: Arena, v: Seq<(Frac, Expr)>)
    requires
        a.linked(),
        a.owns_svec(v),
    ensures
        forall|k: int| 0 <= k < v.len() ==> (#[trigger] a.svec(v)[k]).0.wf() && term_wf(
            a.svec(v)[k].1,
        ),
{
    assert forall|k: int| 0 <= k < v.len() implies (#[trigger] a.svec(v)[k]).0.wf() && term_wf(
        a.svec(v)[k].1,
    ) by {
        assert(a.owns(v[k].1));
        lemma_term_wf(a, v[k].1);
    }
}

/// The terms of owned factors are in lowest terms.
pub proof fn lemma_pvec_wf(a: Arena, v: Seq<(Expr, Frac)>)
    requires
        a.linked(),
        a.owns_pvec(v),
    ensures
        forall|k: int| 0 <= k < v.len() ==> (#[trigger] a.pvec(v)[k]).1.wf() && term_wf(
            a.pvec(v)[k].0,
        ),
{
    assert forall|k: int| 0 <= k < v.len() implies (#[trigger] a.pvec(v)[k]).1.wf() && term_wf(
        a.pvec(v)[k].0,
    ) by {
        assert(a.owns(v[k].0));
        lemma_term_wf(a, v[k].0);
    }
}

/// The arena. It owns every node that is not a fundamental; handles are
/// plain indices, so they stay valid while the arena grows.
pub struct TypeField {
    id: u64,
    vals: Vec<Frac>,
    consts: Vec<Const>,
    sums: Vec<Sum>,
    prods: Vec<Prod>,
    fns: Vec<ExprFn>,
    sum_rank: Ghost<Seq<nat>>,
    prod_rank: Ghost<Seq<nat>>,
    fn_rank: Ghost<Seq<nat>>,
}

impl View for TypeField {
    type V = Arena;

    closed spec fn view(&self) -> Arena {
        Arena {
            id: self.id,
            vals: self.vals@,
            consts: self.consts@,
            sums: keys(self.sums@),
            prods: keys(self.prods@),
            fns: self.fns@,
            sum_rank: self.sum_rank@,
            prod_rank: self.prod_rank@,
            fn_rank: self.fn_rank@,
        }
    }
}

impl TypeField {
    /// An empty arena with the identity `id`.
    pub fn new(id: u64) -> (f: TypeField)
        ensures
            f@ == Arena::empty(id),
            f@.wf(),
    {
        let f = TypeField {
            id,
            vals: Vec::new(),
            consts: Vec::new(),
            sums: Vec::new(),
            prods: Vec::new(),
            fns: Vec::new(),
            sum_rank: Ghost(Seq::empty()),
            prod_rank: Ghost(Seq::empty()),
            fn_rank: Ghost(Seq::empty()),
        };
        proof {
            reveal(Arena::linked);
            reveal(Arena::canonical);
            assert(f@.sums =~= Seq::empty());
            assert(f@.prods =~= Seq::empty());
        }
        f
    }

    /// The identity of this arena.
    pub fn id(&self) -> (r: u64)
        ensures
            r == self@.id,
    {
        self.id
    }

    /// How many values, constants, sums, products and functions the arena
    /// stores, in that order.
    pub fn sizes(&self) -> (r: (usize, usize, usize, usize, usize))
        ensures
            r.0 == self@.vals.len(),
            r.1 == self@.consts.len(),
            r.2 == self@.sums.len(),
            r.3 == self@.prods.len(),
            r.4 == self@.fns.len(),
    {
        (self.vals.len(), self.consts.len(), self.sums.len(), self.prods.len(), self.fns.len())
    }

    /// Finds `t` in the store `v`, or appends it: the index of the first
    /// node with the key of `t`.
    pub fn maybe_add<T: Stored>(v: &mut Vec<T>, t: T) -> (i: usize)
        ensures
            i < final(v).len(),
            final(v)@[i as int].key() == t.key(),
            forall|j: int| 0 <= j < i ==> old(v)@[j].key() != t.key(),
            i < old(v).len() ==> final(v)@ == old(v)@,
            i >= old(v).len() ==> i == old(v).len() && final(v)@ == old(v)@.push(t),
    {
        let mut k: usize = 0;
        while k < v.len()
            invariant
                k <= v.len(),
                v@ == old(v)@,
                forall|j: int| 0 <= j < k ==> v@[j].key() != t.key(),
            decreases v.len() - k,
        {
            if v[k].same(&t) {
                return k;
            }
            k += 1;
        }
        v.push(t);
        k
    }

    pub fn get_val(&self, r: FieldRef) -> (v: Frac)
        requires
            self@.owns(Expr::Val(r)),
        ensures
            v == self@.vals[r.index as int],
    {
        self.vals[r.index]
    }

    pub fn get_const(&self, r: FieldRef) -> (c: Const)
        requires
            self@.owns(Expr::Const(r)),
        ensures
            c == self@.consts[r.index as int],
    {
        self.consts[r.index]
    }

    pub fn get_fn(&self, r: FieldRef) -> (f: ExprFn)
        requires
            self@.owns(Expr::Fn(r)),
        ensures
            f == self@.fns[r.index as int],
    {
        self.fns[r.index]
    }

    pub fn get_sum(&self, r: FieldRef) -> (s: &Sum)
        requires
            self@.owns(Expr::Sum(r)),
        ensures
            s.terms@ == self@.sums[r.index as int],
    {
        &self.sums[r.index]
    }

    pub fn get_prod(&self, r: FieldRef) -> (p: &Prod)
        requires
            self@.owns(Expr::Prod(r)),
        ensures
            p.factors@ == self@.prods[r.index as int],
    {
        &self.prods[r.index]
    }

    /// The handle of the rational `v`: a fundamental for one, zero,
    /// not-a-number and the infinities, else the stored value. The arena
    /// stays as it is where it holds the value already, and else gets this
    /// one value more.
    pub fn add_val(&mut self, v: Frac) -> (e: Expr)
        requires
            old(self)@.wf(),
            v.wf(),
        ensures
            final(self)@.wf(),
            final(self)@.extends(old(self)@),
            final(self)@.owns(e),
            final(self)@.term(e) == term_of_frac(v),
            old(self)@.holds(term_of_frac(v)) ==> final(self)@ == old(self)@,
            !old(self)@.holds(term_of_frac(v)) ==> final(self)@ == (Arena {
                vals: old(self)@.vals.push(v),
                ..old(self)@
            }),
    {
        if v.is_one() {
            assert(self@.owns(Expr::One(self.id)) && self@.term(Expr::One(self.id)) == Term::One);
            Expr::One(self.id)
        } else if v.is_zero() {
            assert(self@.owns(Expr::Zero(self.id)) && self@.term(Expr::Zero(self.id))
                == Term::Zero);
            Expr::Zero(self.id)
        } else {
            match v {
                Frac::NaN => {
                    assert(self@.owns(Expr::InDet(self.id)) && self@.term(Expr::InDet(self.id))
                        == Term::InDet);
                    Expr::InDet(self.id)
                },
                Frac::Infinity(s) => {
                    assert(self@.owns(Expr::Infty(self.id, s)) && self@.term(
                        Expr::Infty(self.id, s),
                    ) == Term::Infty(s));
                    Expr::Infty(self.id, s)
                },
                Frac::Rational(..) => {
                    let index = Self::maybe_add(&mut self.vals, v);
                    let e = Expr::Val(FieldRef { field: self.id, index });
                    proof {
                        if index >= old(self)@.vals.len() {
                            lemma_push_val(old(self)@, self@, v);
                            lemma_canonical_kept(old(self)@, self@);
                            if old(self)@.holds(term_of_frac(v)) {
                                lemma_held_handle(old(self)@, self@, e);
                            }
                        } else {
                            assert(self@ == old(self)@);
                            assert(self@.owns(e) && self@.term(e) == term_of_frac(v));
                        }
                    }
                    e
                },
            }
        }
    }

    /// The handle of the constant with the approximation of `c`. A constant
    /// that the arena does not know yet is stored as `c`; a known one keeps
    /// the name it was stored under.
    pub fn add_const(&mut self, c: Const) -> (e: Expr)
        requires
            old(self)@.wf(),
        ensures
            final(self)@.wf(),
            final(self)@.extends(old(self)@),
            final(self)@.owns(e),
            e is Const,
            final(self)@.term(e) == Term::Const(c.approx),
            old(self)@.holds(Term::Const(c.approx)) ==> final(self)@ == old(self)@,
            !old(self)@.holds(Term::Const(c.approx)) ==> final(self)@ == (Arena {
                consts: old(self)@.consts.push(c),
                ..old(self)@
            }),
    {
        let index = Self::maybe_add(&mut self.consts, c);
        let e = Expr::Const(FieldRef { field: self.id, index });
        proof {
            if index >= old(self)@.consts.len() {
                lemma_push_const(old(self)@, self@, c);
                lemma_canonical_kept(old(self)@, self@);
                if old(self)@.holds(Term::Const(c.approx)) {
                    lemma_held_handle(old(self)@, self@, e);
                }
            } else {
                assert(self@ == old(self)@);
                assert(self@.owns(e) && self@.term(e) == Term::Const(c.approx));
            }
        }
        e
    }

    /// The handle of the function node `f`, stored as it is. The arena stays
    /// as it is where it holds the node already, and else gets this one node
    /// more.
    pub fn add_fn(&mut self, f: ExprFn) -> (e: Expr)
        requires
            old(self)@.wf(),
            old(self)@.owns(f.inner_spec()),
        ensures
            final(self)@.wf(),
            final(self)@.extends(old(self)@),
            final(self)@.owns(e),
            e is Fn,
            final(self)@.term(e) == Term::Fn(
                f.kind_spec(),
                Box::new(old(self)@.term(f.inner_spec())),
            ),
            old(self)@.holds(Term::Fn(f.kind_spec(), Box::new(old(self)@.term(f.inner_spec()))))
                ==> final(self)@ == old(self)@,
            !old(self)@.holds(Term::Fn(f.kind_spec(), Box::new(old(self)@.term(f.inner_spec()))))
                ==> final(self)@ == (Arena {
                fns: old(self)@.fns.push(f),
                fn_rank: old(self)@.fn_rank.push(old(self)@.composites()),
                ..old(self)@
            }),
    {
        let ghost n = self@.composites();
        let before = self.fns.len();
        let index = Self::maybe_add(&mut self.fns, f);
        if index >= before {
            proof {
                self.fn_rank@ = self.fn_rank@.push(n);
            }
        }
        proof {
            if index >= before {
                lemma_push_fn(old(self)@, self@, f);
                lemma_canonical_kept(old(self)@, self@);
            } else {
                assert(self@ == old(self)@);
            }
            lemma_term_fn(self@, FieldRef { field: self.id, index });
            lemma_extends(old(self)@, self@, f.inner_spec());
            let e = Expr::Fn(FieldRef { field: self.id, index });
            let t = Term::Fn(f.kind_spec(), Box::new(old(self)@.term(f.inner_spec())));
            if index >= before {
                if old(self)@.holds(t) {
                    lemma_held_handle(old(self)@, self@, e);
                }
                assert(self@.fns =~= old(self)@.fns.push(f));
            } else {
                assert(old(self)@.owns(e) && old(self)@.term(e) == t);
            }
        }
        Expr::Fn(FieldRef { field: self.id, index })
    }

    /// Stores the sum with the entries `terms` unless it is there already.
    pub(crate) fn intern_sum(&mut self, terms: Vec<(Frac, Expr)>) -> (e: Expr)
        requires
            old(self)@.wf(),
            old(self)@.owns_svec(terms@),
            stored_sum_ok(old(self)@.svec(terms@)),
        ensures
            final(self)@.wf(),
            final(self)@.extends(old(self)@),
            final(self)@.owns(e),
            e is Sum,
            final(self)@.term(e) == Term::Sum(old(self)@.svec(terms@)),
            old(self)@.holds(Term::Sum(old(self)@.svec(terms@))) ==> final(self)@ == old(self)@,
            !old(self)@.holds(Term::Sum(old(self)@.svec(terms@))) ==> final(self)@ == (Arena {
                sums: old(self)@.sums.push(terms@),
                sum_rank: old(self)@.sum_rank.push(old(self)@.composites()),
                ..old(self)@
            }),
    {
        let ghost n = self@.composites();
        let ghost v = terms@;
        let before = self.sums.len();
        let index = Self::maybe_add(&mut self.sums, Sum { terms });
        if index >= before {
            proof {
                self.sum_rank@ = self.sum_rank@.push(n);
            }
        }
        proof {
            if index >= before {
                assert(self@.sums =~= old(self)@.sums.push(v));
                lemma_push_sum(old(self)@, self@, v);
                lemma_canonical_sum_added(old(self)@, self@, v);
            } else {
                assert(self@ == old(self)@);
            }
            lemma_term_sum(self@, FieldRef { field: self.id, index });
            lemma_extends_svec(old(self)@, self@, v);
            let e = Expr::Sum(FieldRef { field: self.id, index });
            let t = Term::Sum(old(self)@.svec(v));
            if index >= before {
                if old(self)@.holds(t) {
                    lemma_held_handle(old(self)@, self@, e);
                }
            } else {
                assert(old(self)@.owns(e) && old(self)@.term(e) == t);
            }
        }
        Expr::Sum(FieldRef { field: self.id, index })
    }

    /// Stores the product with the entries `factors` unless it is there
    /// already.
    pub(crate) fn intern_prod(&mut self, factors: Vec<(Expr, Frac)>) -> (e: Expr)
        requires
            old(self)@.wf(),
            old(self)@.owns_pvec(factors@),
            stored_prod_ok(old(self)@.pvec(factors@)),
        ensures
            final(self)@.wf(),
            final(self)@.extends(old(self)@),
            final(self)@.owns(e),
            e is Prod,
            final(self)@.term(e) == Term::Prod(old(self)@.pvec(factors@)),
            old(self)@.holds(Term::Prod(old(self)@.pvec(factors@))) ==> final(self)@ == old(
                self,
            )@,
            !old(self)@.holds(Term::Prod(old(self)@.pvec(factors@))) ==> final(self)@ == (Arena {
                prods: old(self)@.prods.push(factors@),
                prod_rank: old(self)@.prod_rank.push(old(self)@.composites()),
                ..old(self)@
            }),
    {
        let ghost n = self@.composites();
        let ghost v = factors@;
        let before = self.prods.len();
        let index = Self::maybe_add(&mut self.prods, Prod { factors });
        if index >= before {
            proof {
                self.prod_rank@ = self.prod_rank@.push(n);
            }
        }
        proof {
            if index >= before {
                assert(self@.prods =~= old(self)@.prods.push(v));
                lemma_push_prod(old(self)@, self@, v);
                lemma_canonical_prod_added(old(self)@, self@, v);
            } else {
                assert(self@ == old(self)@);
            }
            lemma_term_prod(self@, FieldRef { field: self.id, index });
            lemma_extends_pvec(old(self)@, self@, v);
            let e = Expr::Prod(FieldRef { field: self.id, index });
            let t = Term::Prod(old(self)@.pvec(v));
            if index >= before {
                if old(self)@.holds(t) {
                    lemma_held_handle(old(self)@, self@, e);
                }
            } else {
                assert(old(self)@.owns(e) && old(self)@.term(e) == t);
            }
        }
        Expr::Prod(FieldRef { field: self.id, index })
    }
}

impl TypeField {
    /// A copy of the entries of the stored sum `r`.
    pub fn sum_terms(&self, r: FieldRef) -> (v: Vec<(Frac, Expr)>)
        requires
            self@.owns(Expr::Sum(r)),
        ensures
            v@ == self@.sums[r.index as int],
    {
        let s = &self.get_sum(r).terms;
        let mut out: Vec<(Frac, Expr)> = Vec::new();
        let mut i: usize = 0;
        while i < s.len()
            invariant
                i <= s.len(),
                out@ == s@.take(i as int),
            decreases s.len() - i,
        {
            out.push(s[i]);
            assert(s@.take(i as int + 1) =~= s@.take(i as int).push(s@[i as int]));
            i += 1;
        }
        assert(s@.take(s.len() as int) =~= s@);
        out
    }

    /// A copy of the factors of the stored product `r`.
    pub fn prod_factors(&self, r: FieldRef) -> (v: Vec<(Expr, Frac)>)
        requires
            self@.owns(Expr::Prod(r)),
        ensures
            v@ == self@.prods[r.index as int],
    {
        let s = &self.get_prod(r).factors;
        let mut out: Vec<(Expr, Frac)> = Vec::new();
        let mut i: usize = 0;
        while i < s.len()
            invariant
                i <= s.len(),
                out@ == s@.take(i as int),
            decreases s.len() - i,
        {
            out.push(s[i]);
            assert(s@.take(i as int + 1) =~= s@.take(i as int).push(s@[i as int]));
            i += 1;
        }
        assert(s@.take(s.len() as int) =~= s@);
        out
    }

    /// Copies the expression `expr` of the arena `src` into this arena: the
    /// whole tree is interned again, node by node, so that a node that this
    /// arena holds already is found and not stored twice. The result stands
    /// for the same term, and the arena stays as it is where it holds that
    /// term already.
    pub fn gulp(&mut self, src: &TypeField, expr: Expr) -> (e: Expr)
        requires
            old(self)@.wf(),
            src@.wf(),
            src@.owns(expr),
        ensures
            final(self)@.wf(),
            final(self)@.extends(old(self)@),
            final(self)@.owns(e),
            final(self)@.term(e) == src@.term(expr),
            old(self)@.holds(src@.term(expr)) ==> final(self)@ == old(self)@,
        decreases src@.rank(expr),
    {
        proof {
            if old(self)@.holds(src@.term(expr)) {
                lemma_holds_parts(old(self)@, src@.term(expr));
            }
        }
        match expr {
            Expr::Sum(r) => {
                proof {
                    lemma_term_sum(src@, r);
                }
                let s = src.sum_terms(r);
                let ghost target = src@.svec(s@);
                let mut out: Vec<(Frac, Expr)> = Vec::new();
                let mut k: usize = 0;
                assert(self@.svec(out@) =~= target.take(0));
                proof {
                    let t = src@.term(expr);
                    assert(t == Term::Sum(target));
                    if old(self)@.holds(t) {
                        assert(t->Sum_0 == target);
                        assert forall|j: int| 0 <= j < target.len() implies old(self)@.holds(
                            (#[trigger] target[j]).1,
                        ) by {
                            assert(old(self)@.holds((t->Sum_0)[j].1));
                        }
                    }
                }
                while k < s.len()
                    invariant
                        k <= s.len(),
                        old(self)@.wf(),
                        self@.wf(),
                        self@.extends(old(self)@),
                        src@.wf(),
                        src@.owns_svec(s@),
                        s@ == src@.sums[r.index as int],
                        expr == Expr::Sum(r),
                        src@.owns(expr),
                        target == src@.svec(s@),
                        self@.owns_svec(out@),
                        self@.svec(out@) == target.take(k as int),
                        old(self)@.holds(src@.term(expr)) ==> self@ == old(self)@,
                        old(self)@.holds(src@.term(expr)) ==> forall|j: int|
                            0 <= j < target.len() ==> old(self)@.holds((#[trigger] target[j]).1),
                    decreases s.len() - k,
                {
                    let entry = s[k];
                    let ghost mid = self@;
                    proof {
                        lemma_term_sum(src@, r);
                        assert(src@.owns(s@[k as int].1));
                        assert(target[k as int].1 == src@.term(entry.1));
                    }
                    let copy = self.gulp(src, entry.1);
                    let ghost before = out@;
                    proof {
                        lemma_extends_svec(mid, self@, before);
                        lemma_extends_trans(old(self)@, mid, self@);
                    }
                    out.push((entry.0, copy));
                    proof {
                        lemma_owns_svec_push(self@, before, (entry.0, copy));
                        assert(target.take(k as int + 1) =~= target.take(k as int).push(
                            (entry.0, self@.term(copy)),
                        ));
                    }
                    k += 1;
                }
                assert(target.take(s.len() as int) =~= target);
                let ghost mid = self@;
                proof {
                    lemma_stored_canonical(src@);
                }
                let e = self.intern_sum(out);
                proof {
                    lemma_extends_trans(old(self)@, mid, self@);
                }
                e
            },
            Expr::Prod(r) => {
                proof {
                    lemma_term_prod(src@, r);
                }
                let s = src.prod_factors(r);
                let ghost target = src@.pvec(s@);
                let mut out: Vec<(Expr, Frac)> = Vec::new();
                let mut k: usize = 0;
                assert(self@.pvec(out@) =~= target.take(0));
                proof {
                    let t = src@.term(expr);
                    assert(t == Term::Prod(target));
                    if old(self)@.holds(t) {
                        assert(t->Prod_0 == target);
                        assert forall|j: int| 0 <= j < target.len() implies old(self)@.holds(
                            (#[trigger] target[j]).0,
                        ) by {
                            assert(old(self)@.holds((t->Prod_0)[j].0));
                        }
                    }
                }
                while k < s.len()
                    invariant
                        k <= s.len(),
                        old(self)@.wf(),
                        self@.wf(),
                        self@.extends(old(self)@),
                        src@.wf(),
                        src@.owns_pvec(s@),
                        s@ == src@.prods[r.index as int],
                        expr == Expr::Prod(r),
                        src@.owns(expr),
                        target == src@.pvec(s@),
                        self@.owns_pvec(out@),
                        self@.pvec(out@) == target.take(k as int),
                        old(self)@.holds(src@.term(expr)) ==> self@ == old(self)@,
                        old(self)@.holds(src@.term(expr)) ==> forall|j: int|
                            0 <= j < target.len() ==> old(self)@.holds((#[trigger] target[j]).0),
                    decreases s.len() - k,
                {
                    let entry = s[k];
                    let ghost mid = self@;
                    proof {
                        lemma_term_prod(src@, r);
                        assert(src@.owns(s@[k as int].0));
                        assert(target[k as int].0 == src@.term(entry.0));
                    }
                    let copy = self.gulp(src, entry.0);
                    let ghost before = out@;
                    proof {
                        lemma_extends_pvec(mid, self@, before);
                        lemma_extends_trans(old(self)@, mid, self@);
                    }
                    out.push((copy, entry.1));
                    proof {
                        lemma_owns_pvec_push(self@, before, (copy, entry.1));
                        assert(target.take(k as int + 1) =~= target.take(k as int).push(
                            (self@.term(copy), entry.1),
                        ));
                    }
                    k += 1;
                }
                assert(target.take(s.len() as int) =~= target);
                let ghost mid = self@;
                proof {
                    lemma_stored_canonical(src@);
                }
                let e = self.intern_prod(out);
                proof {
                    lemma_extends_trans(old(self)@, mid, self@);
                }
                e
            },
            Expr::Fn(r) => {
                proof {
                    lemma_term_fn(src@, r);
                }
                let mut f = src.get_fn(r);
                let inner = self.gulp(src, f.inner());
                let ghost mid = self@;
                f.set_inner(inner);
                let e = self.add_fn(f);
                proof {
                    lemma_extends_trans(old(self)@, mid, self@);
                }
                e
            },
            Expr::Val(r) => {
                proof {
                    lemma_val_storable(src@, r);
                }
                self.add_val(src.get_val(r))
            },
            Expr::Const(r) => self.add_const(src.get_const(r)),
            Expr::Zero(_) => Expr::Zero(self.id),
            Expr::One(_) => Expr::One(self.id),
            Expr::InDet(_) => Expr::InDet(self.id),
            Expr::Infty(_, s) => Expr::Infty(self.id, s),
        }
    }
}

} // verus!
