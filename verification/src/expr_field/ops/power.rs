//! Whole powers of sums, and the sums among the factors of a product
//! multiplied out.
use vstd::prelude::*;
use crate::frac::{Frac, Sign};
use crate::term::Term;
use crate::expr_field::Expr;
use crate::expr_field::structs::type_field::{
    TypeField, lemma_extends, lemma_extends_trans, lemma_owns_pvec_push, lemma_term_sum,
};
use crate::expr_field::ops::mul::term_mul;
use crate::expr_field::simplify::kept;

verus! {

/// The term `t` multiplied with itself `n` times over; the term itself for
/// a power below two.
pub open spec fn term_power(t: Term, n: nat) -> Term
    decreases n,
{
    if n <= 1 {
        t
    } else {
        term_mul(term_power(t, (n - 1) as nat), t)
    }
}

/// A sum to a positive whole power.
pub open spec fn is_sum_power(p: (Term, Frac)) -> bool {
    p.0 is Sum && (p.1 matches Frac::Rational(Sign::Plus, n, d) && d == 1 && n >= 1)
}

pub open spec fn sum_power() -> spec_fn((Term, Frac)) -> bool {
    |p: (Term, Frac)| is_sum_power(p)
}

pub open spec fn no_sum_power() -> spec_fn((Term, Frac)) -> bool {
    |p: (Term, Frac)| !is_sum_power(p)
}

/// The product of the factors `s`, each a term to a whole power, multiplied
/// out from the left; one for no factors.
pub open spec fn powers_product(s: Seq<(Term, Frac)>) -> Term
    decreases s.len(),
{
    if s.len() == 0 {
        Term::One
    } else {
        term_mul(
            powers_product(s.drop_last()),
            term_power(s.last().0, s.last().1->Rational_1 as nat),
        )
    }
}

impl TypeField {
    /// The expression `base` to the whole power `exp`, multiplied out; a
    /// power below two is the expression itself.
    pub fn svec_powi(&mut self, base: Expr, exp: u32) -> (e: Expr)
        requires
            old(self)@.wf(),
            old(self)@.owns(base),
        ensures
            final(self)@.wf(),
            final(self)@.extends(old(self)@),
            final(self)@.owns(e),
            final(self)@.term(e) == term_power(old(self)@.term(base), exp as nat),
    {
        let ghost tb = self@.term(base);
        let mut res = base;
        let mut k: u32 = 1;
        while k < exp
            invariant
                1 <= k,
                k <= exp || (exp == 0 && k == 1),
                old(self)@.wf(),
                old(self)@.owns(base),
                self@.wf(),
                self@.extends(old(self)@),
                self@.owns(res),
                tb == old(self)@.term(base),
                self@.term(res) == term_power(tb, k as nat),
            decreases exp - k,
        {
            let ghost mid = self@;
            proof {
                lemma_extends(old(self)@, mid, base);
            }
            res = self.mul(res, base);
            proof {
                lemma_extends_trans(old(self)@, mid, self@);
            }
            k += 1;
        }
        proof {
            if exp == 0 {
                assert(k == 1);
                assert(term_power(tb, 0) == tb);
                assert(term_power(tb, 1) == tb);
            }
        }
        res
    }

    /// Multiplies out the sums among the factors `v` that are raised to a
    /// positive whole power: their product, where there is any, and the
    /// factors that are left, in their order.
    pub fn distribute_prods(&mut self, v: &Vec<(Expr, Frac)>) -> (r: (
        Option<Expr>,
        Vec<(Expr, Frac)>,
    ))
        requires
            old(self)@.wf(),
            old(self)@.owns_pvec(v@),
        ensures
            final(self)@.wf(),
            final(self)@.extends(old(self)@),
            final(self)@.owns_pvec(r.1@),
            final(self)@.pvec(r.1@) == kept(old(self)@.pvec(v@), no_sum_power()),
            r.0 is Some <==> kept(old(self)@.pvec(v@), sum_power()).len() > 0,
            r.0 matches Some(e) ==> final(self)@.owns(e) && final(self)@.term(e) == powers_product(
                kept(old(self)@.pvec(v@), sum_power()),
            ),
    {
        let ghost whole = self@.pvec(v@);
        let mut acc: Option<Expr> = None;
        let mut rest: Vec<(Expr, Frac)> = Vec::new();
        let mut i: usize = 0;
        assert(whole.take(0) =~= Seq::empty());
        assert(self@.pvec(rest@) =~= Seq::empty());
        while i < v.len()
            invariant
                i <= v.len(),
                old(self)@.wf(),
                old(self)@.owns_pvec(v@),
                whole == old(self)@.pvec(v@),
                self@.wf(),
                self@.extends(old(self)@),
                old(self)@.owns_pvec(rest@),
                old(self)@.pvec(rest@) == kept(whole.take(i as int), no_sum_power()),
                acc is Some <==> kept(whole.take(i as int), sum_power()).len() > 0,
                acc matches Some(e) ==> self@.owns(e) && self@.term(e) == powers_product(
                    kept(whole.take(i as int), sum_power()),
                ),
            decreases v.len() - i,
        {
            let p = v[i];
            let ghost tp = (old(self)@.term(p.0), p.1);
            let ghost mid = self@;
            let ghost before = rest@;
            proof {
                assert(old(self)@.owns(v@[i as int].0));
                assert(whole[i as int] == tp);
                assert(whole.take(i as int + 1).drop_last() =~= whole.take(i as int));
                assert(whole.take(i as int + 1).last() == tp);
                lemma_extends(old(self)@, mid, p.0);
            }
            let power: Option<u32> = match (p.0, p.1) {
                (Expr::Sum(r), Frac::Rational(Sign::Plus, n, d)) => {
                    proof {
                        lemma_term_sum(old(self)@, r);
                    }
                    if d == 1 && n >= 1 {
                        Some(n)
                    } else {
                        None
                    }
                },
                (Expr::Sum(r), _) => {
                    proof {
                        lemma_term_sum(old(self)@, r);
                    }
                    None
                },
                _ => None,
            };
            assert(power is Some <==> is_sum_power(tp));
            match power {
                Some(n) => {
                    let raised = self.svec_powi(p.0, n);
                    let ghost late = self@;
                    let ghost done = kept(whole.take(i as int), sum_power());
                    let next = match acc {
                        Some(e) => {
                            proof {
                                lemma_extends(mid, late, e);
                            }
                            self.mul(e, raised)
                        },
                        None => {
                            assert(done.len() == 0);
                            assert(powers_product(done) == Term::One);
                            raised
                        },
                    };
                    proof {
                        lemma_extends_trans(mid, late, self@);
                        lemma_extends_trans(old(self)@, mid, self@);
                        assert(kept(whole.take(i as int + 1), sum_power()) == done.push(tp));
                        assert(done.push(tp).drop_last() =~= done);
                        assert(done.push(tp).last() == tp);
                    }
                    acc = Some(next);
                },
                None => {
                    rest.push(p);
                    proof {
                        lemma_owns_pvec_push(old(self)@, before, p);
                    }
                },
            }
            i += 1;
        }
        proof {
            assert(whole.take(v.len() as int) =~= whole);
            assert forall|k: int| 0 <= k < rest.len() implies self@.owns((#[trigger] rest@[k]).0)
                && rest@[k].1.wf() by {
                assert(old(self)@.owns(rest@[k].0));
                lemma_extends(old(self)@, self@, rest@[k].0);
            }
            crate::expr_field::structs::type_field::lemma_extends_pvec(old(self)@, self@, rest@);
        }
        (acc, rest)
    }
}

} // verus!
