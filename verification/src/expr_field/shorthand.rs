//! Short ways to the expressions that are used most.
use vstd::prelude::*;
use crate::frac::{Frac, Sign, frac_half};
use crate::term::{FnKind, Term, term_of_frac};
use crate::expr_field::{Expr, ExprFn};
use crate::expr_field::structs::Const;
use crate::expr_field::structs::type_field::{TypeField, lemma_extends, lemma_extends_trans};
use crate::expr_field::simplify::sum::{canon_sum, sum_term};
use crate::expr_field::simplify::prod::canon_prod;
use crate::io::scanner::{E_APPROX, PI_APPROX};

verus! {

/// The whole number `n` as a rational.
pub open spec fn whole(n: u32) -> Frac {
    Frac::Rational(Sign::Plus, n, 1)
}

/// The term of π.
pub open spec fn term_pi() -> Term {
    Term::Const(PI_APPROX)
}

/// The term of the square root of `t`.
pub open spec fn term_sqrt(t: Term) -> Term {
    Term::Fn(FnKind::Sqrt, Box::new(t))
}

impl TypeField {
    /// The whole number `i`.
    pub fn val_i(&mut self, i: u32) -> (e: Expr)
        requires
            old(self)@.wf(),
        ensures
            final(self)@.wf(),
            final(self)@.extends(old(self)@),
            final(self)@.owns(e),
            final(self)@.term(e) == term_of_frac(whole(i)),
    {
        self.add_val(Frac::from_int(i))
    }

    /// The rational `f`.
    pub fn val_frac(&mut self, f: Frac) -> (e: Expr)
        requires
            old(self)@.wf(),
            f.wf(),
        ensures
            final(self)@.wf(),
            final(self)@.extends(old(self)@),
            final(self)@.owns(e),
            final(self)@.term(e) == term_of_frac(f),
    {
        self.add_val(f)
    }

    /// The constant π.
    pub fn c_pi(&mut self) -> (e: Expr)
        requires
            old(self)@.wf(),
        ensures
            final(self)@.wf(),
            final(self)@.extends(old(self)@),
            final(self)@.owns(e),
            final(self)@.term(e) == term_pi(),
    {
        self.add_const(Const { ch: 'π', ascii: "pi", approx: PI_APPROX })
    }

    /// The constant e.
    pub fn c_e(&mut self) -> (e: Expr)
        requires
            old(self)@.wf(),
        ensures
            final(self)@.wf(),
            final(self)@.extends(old(self)@),
            final(self)@.owns(e),
            final(self)@.term(e) == Term::Const(E_APPROX),
    {
        self.add_const(Const { ch: 'e', ascii: "e", approx: E_APPROX })
    }

    /// The square root of the expression `expr`.
    pub fn sqrt_expr(&mut self, expr: Expr) -> (e: Expr)
        requires
            old(self)@.wf(),
            old(self)@.owns(expr),
        ensures
            final(self)@.wf(),
            final(self)@.extends(old(self)@),
            final(self)@.owns(e),
            final(self)@.term(e) == term_sqrt(old(self)@.term(expr)),
    {
        self.add_fn(ExprFn::Sqrt(expr))
    }

    /// The square root of the rational `f`.
    pub fn sqrt_frac(&mut self, f: Frac) -> (e: Expr)
        requires
            old(self)@.wf(),
            f.wf(),
        ensures
            final(self)@.wf(),
            final(self)@.extends(old(self)@),
            final(self)@.owns(e),
            final(self)@.term(e) == term_sqrt(term_of_frac(f)),
    {
        let v = self.add_val(f);
        let ghost mid = self@;
        let e = self.add_fn(ExprFn::Sqrt(v));
        proof {
            lemma_extends_trans(old(self)@, mid, self@);
        }
        e
    }

    /// The square root of the whole number `i`.
    pub fn sqrt_i(&mut self, i: u32) -> (e: Expr)
        requires
            old(self)@.wf(),
        ensures
            final(self)@.wf(),
            final(self)@.extends(old(self)@),
            final(self)@.owns(e),
            final(self)@.term(e) == term_sqrt(term_of_frac(whole(i))),
    {
        self.sqrt_frac(Frac::from_int(i))
    }

    /// `i` times the expression `expr`.
    pub fn sum_i_expr(&mut self, i: u32, expr: Expr) -> (e: Expr)
        requires
            old(self)@.wf(),
            old(self)@.owns(expr),
        ensures
            final(self)@.wf(),
            final(self)@.extends(old(self)@),
            final(self)@.owns(e),
            final(self)@.term(e) == sum_term(canon_sum(seq![(whole(i), old(self)@.term(expr))])),
    {
        let mut v: Vec<(Frac, Expr)> = Vec::new();
        v.push((Frac::from_int(i), expr));
        assert(self@.svec(v@) =~= seq![(whole(i), self@.term(expr))]);
        self.add_svec(v)
    }

    /// `i` times π.
    pub fn sum_i_pi(&mut self, i: u32) -> (e: Expr)
        requires
            old(self)@.wf(),
        ensures
            final(self)@.wf(),
            final(self)@.extends(old(self)@),
            final(self)@.owns(e),
            final(self)@.term(e) == sum_term(canon_sum(seq![(whole(i), term_pi())])),
    {
        let pi = self.c_pi();
        let ghost mid = self@;
        let e = self.sum_i_expr(i, pi);
        proof {
            lemma_extends_trans(old(self)@, mid, self@);
        }
        e
    }

    /// `i` plus π.
    pub fn sum_i_plus_pi(&mut self, i: u32) -> (e: Expr)
        requires
            old(self)@.wf(),
        ensures
            final(self)@.wf(),
            final(self)@.extends(old(self)@),
            final(self)@.owns(e),
            final(self)@.term(e) == sum_term(
                canon_sum(seq![(whole(i), Term::One), (whole(1), term_pi())]),
            ),
    {
        let pi = self.c_pi();
        let ghost mid = self@;
        let mut v: Vec<(Frac, Expr)> = Vec::new();
        v.push((Frac::from_int(i), Expr::One(self.id())));
        v.push((Frac::one(), pi));
        assert(self@.svec(v@) =~= seq![(whole(i), Term::One), (whole(1), term_pi())]);
        let e = self.add_svec(v);
        proof {
            lemma_extends_trans(old(self)@, mid, self@);
        }
        e
    }

    /// The golden ratio, a half plus half the square root of five.
    pub fn sum_phi(&mut self) -> (e: Expr)
        requires
            old(self)@.wf(),
        ensures
            final(self)@.wf(),
            final(self)@.extends(old(self)@),
            final(self)@.owns(e),
            final(self)@.term(e) == sum_term(
                canon_sum(
                    seq![
                        (frac_half(), Term::One),
                        (frac_half(), term_sqrt(term_of_frac(whole(5)))),
                    ],
                ),
            ),
    {
        let root = self.sqrt_i(5);
        let ghost mid = self@;
        let mut v: Vec<(Frac, Expr)> = Vec::new();
        v.push((Frac::half(), Expr::One(self.id())));
        v.push((Frac::half(), root));
        assert(self@.svec(v@) =~= seq![
            (frac_half(), Term::One),
            (frac_half(), term_sqrt(term_of_frac(whole(5)))),
        ]);
        let e = self.add_svec(v);
        proof {
            lemma_extends_trans(old(self)@, mid, self@);
        }
        e
    }

    /// π to the power `i`.
    pub fn prod_pi_i(&mut self, i: u32) -> (e: Expr)
        requires
            old(self)@.wf(),
        ensures
            final(self)@.wf(),
            final(self)@.extends(old(self)@),
            final(self)@.owns(e),
            final(self)@.term(e) == canon_prod(seq![(term_pi(), whole(i))]),
    {
        let pi = self.c_pi();
        let ghost mid = self@;
        let mut v: Vec<(Expr, Frac)> = Vec::new();
        v.push((pi, Frac::from_int(i)));
        assert(self@.pvec(v@) =~= seq![(term_pi(), whole(i))]);
        let e = self.add_pvec(v);
        proof {
            lemma_extends_trans(old(self)@, mid, self@);
        }
        e
    }

    /// π times the square root of `i`.
    pub fn prod_pi_times_sqrt_i(&mut self, i: u32) -> (e: Expr)
        requires
            old(self)@.wf(),
        ensures
            final(self)@.wf(),
            final(self)@.extends(old(self)@),
            final(self)@.owns(e),
            final(self)@.term(e) == canon_prod(
                seq![(term_pi(), whole(1)), (term_sqrt(term_of_frac(whole(i))), whole(1))],
            ),
    {
        let pi = self.c_pi();
        let ghost first = self@;
        let root = self.sqrt_i(i);
        let ghost mid = self@;
        proof {
            lemma_extends(first, mid, pi);
            lemma_extends_trans(old(self)@, first, mid);
        }
        let mut v: Vec<(Expr, Frac)> = Vec::new();
        v.push((pi, Frac::one()));
        v.push((root, Frac::one()));
        assert(self@.pvec(v@) =~= seq![
            (term_pi(), whole(1)),
            (term_sqrt(term_of_frac(whole(i))), whole(1)),
        ]);
        let e = self.add_pvec(v);
        proof {
            lemma_extends_trans(old(self)@, mid, self@);
        }
        e
    }
}

} // verus!
