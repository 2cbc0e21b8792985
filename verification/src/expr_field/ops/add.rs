//! Addition.
use vstd::prelude::*;
use crate::frac::{Frac, Sign};
use crate::term::{Term, term_wf};
use crate::expr_field::Expr;
use crate::expr_field::structs::type_field::{
    Arena, TypeField, lemma_extends, lemma_extends_trans, lemma_stored_canonical, lemma_term_sum,
    lemma_term_wf,
};
use crate::expr_field::simplify::sum::{folded_entry, lemma_canon_sum_idempotent};
use crate::expr_field::simplify::sum::{canon_sum, folded, like_terms, sum_term};
use crate::expr_field::simplify::is_collected;
use crate::expr_field::simplify::sum_laws::{all_wf, lemma_canon_sum_commutes};

verus! {

/// The entries that a term adds to a sum: its own entries when it is a sum,
/// else itself once.
pub open spec fn addends(t: Term) -> Seq<(Frac, Term)> {
    match t {
        Term::Sum(v) => v,
        _ => seq![(Frac::Rational(Sign::Plus, 1, 1), t)],
    }
}

/// The sum of two terms.
///
/// Indeterminate absorbs; zero is the identity; two infinities of one sign
/// are that infinity and of opposite signs indeterminate; an infinity
/// absorbs anything else; every other pair is the canonical sum of the
/// entries of both.
pub open spec fn term_add(a: Term, b: Term) -> Term {
    if a is InDet || b is InDet {
        Term::InDet
    } else if a is Zero {
        b
    } else if b is Zero {
        a
    } else {
        match (a, b) {
            (Term::Infty(s), Term::Infty(o)) => if s == o {
                a
            } else {
                Term::InDet
            },
            (Term::Infty(_), _) => a,
            (_, Term::Infty(_)) => b,
            _ => sum_term(canon_sum(addends(a) + addends(b))),
        }
    }
}

impl TypeField {
    /// The entries that `e` adds to a sum.
    pub fn addends(&self, e: Expr) -> (v: Vec<(Frac, Expr)>)
        requires
            self@.wf(),
            self@.owns(e),
        ensures
            self@.owns_svec(v@),
            self@.svec(v@) == addends(self@.term(e)),
    {
        match e {
            Expr::Sum(r) => {
                proof {
                    lemma_term_sum(self@, r);
                }
                self.sum_terms(r)
            },
            _ => {
                let mut v: Vec<(Frac, Expr)> = Vec::new();
                v.push((Frac::one(), e));
                assert(self@.svec(v@) =~= addends(self@.term(e)));
                v
            },
        }
    }

    /// The sum of `a` and `b`, in canonical form.
    pub fn add(&mut self, a: Expr, b: Expr) -> (e: Expr)
        requires
            old(self)@.wf(),
            old(self)@.owns(a),
            old(self)@.owns(b),
        ensures
            final(self)@.wf(),
            final(self)@.extends(old(self)@),
            final(self)@.owns(e),
            final(self)@.term(e) == term_add(old(self)@.term(a), old(self)@.term(b)),
    {
        match (a, b) {
            (Expr::InDet(_), _) => a,
            (_, Expr::InDet(_)) => b,
            (Expr::Zero(_), _) => b,
            (_, Expr::Zero(_)) => a,
            (Expr::Infty(_, s), Expr::Infty(_, o)) => if s == o {
                a
            } else {
                Expr::InDet(self.id())
            },
            (Expr::Infty(..), _) => a,
            (_, Expr::Infty(..)) => b,
            _ => {
                let mut v = self.addends(a);
                let mut w = self.addends(b);
                let ghost left = v@;
                let ghost right = w@;
                v.append(&mut w);
                proof {
                    assert(self@.svec(left + right) =~= self@.svec(left) + self@.svec(right));
                    assert forall|k: int| 0 <= k < v.len() implies self@.owns(#[trigger] v@[k].1)
                        && v@[k].0.wf() by {
                        if k < left.len() {
                            assert(self@.owns(left[k].1));
                        } else {
                            assert(self@.owns(right[k - left.len()].1));
                        }
                    }
                }
                self.add_svec(v)
            },
        }
    }
}

/// Zero is the identity of addition, on either side.
pub proof fn lemma_add_zero(a: Term)
    ensures
        term_add(a, Term::Zero) == a,
        term_add(Term::Zero, a) == a,
{
}

impl TypeField {
    /// The sum of `a` and the expression `b` of the arena `src`: `b` is
    /// copied into this arena first, and the result belongs to this arena.
    pub fn add_from(&mut self, a: Expr, src: &TypeField, b: Expr) -> (e: Expr)
        requires
            old(self)@.wf(),
            old(self)@.owns(a),
            src@.wf(),
            src@.owns(b),
        ensures
            final(self)@.wf(),
            final(self)@.extends(old(self)@),
            final(self)@.owns(e),
            final(self)@.term(e) == term_add(old(self)@.term(a), src@.term(b)),
    {
        let copy = self.gulp(src, b);
        let ghost mid = self@;
        proof {
            lemma_extends(old(self)@, mid, a);
        }
        let e = self.add(a, copy);
        proof {
            lemma_extends_trans(old(self)@, mid, self@);
        }
        e
    }
}

/// A term whose entries, if it is a sum, hold no term twice once bare
/// values are folded into their coefficients. Every sum in canonical form
/// is such a term, and so is every term that is no sum.
pub open spec fn addable(t: Term) -> bool {
    t matches Term::Sum(s) ==> is_collected(folded(s), like_terms())
}

/// The entries that a term in lowest terms adds to a sum are in lowest
/// terms, and an addable term adds no term twice.
pub proof fn lemma_addends(t: Term)
    requires
        term_wf(t),
        addable(t),
    ensures
        all_wf(addends(t)),
        is_collected(folded(addends(t)), like_terms()),
{
    match t {
        Term::Sum(s) => {
            assert forall|i: int| 0 <= i < s.len() implies (#[trigger] s[i]).0.wf() && term_wf(
                s[i].1,
            ) by {}
        },
        _ => {
            assert(Frac::Rational(Sign::Plus, 1, 1).wf()) by {
                reveal_with_fuel(crate::frac::gcd, 3);
            }
            assert(addends(t).len() == 1);
            assert(addends(t)[0] == (Frac::Rational(Sign::Plus, 1, 1), t));
        },
    }
}

/// Addition does not depend on the order of its operands: for all terms in
/// lowest terms whose sums hold no term twice.
pub proof fn lemma_add_commutative(a: Term, b: Term)
    requires
        term_wf(a),
        term_wf(b),
        addable(a),
        addable(b),
    ensures
        term_add(a, b) == term_add(b, a),
{
    lemma_addends(a);
    lemma_addends(b);
    lemma_canon_sum_commutes(addends(a), addends(b));
}

/// Every expression of a well-formed arena is in lowest terms and addable.
pub proof fn lemma_arena_addable(f: Arena, e: Expr)
    requires
        f.wf(),
        f.owns(e),
    ensures
        term_wf(f.term(e)),
        addable(f.term(e)),
{
    lemma_term_wf(f, e);
    match e {
        Expr::Sum(r) => {
            lemma_term_sum(f, r);
            lemma_stored_canonical(f);
            let s = f.svec(f.sums[r.index as int]);
            assert(folded(s) =~= s) by {
                assert forall|k: int| 0 <= k < s.len() implies folded_entry(#[trigger] s[k])
                    == s[k] by {
                    assert(!(s[k].1 is Val));
                }
            }
        },
        _ => {},
    }
}

/// Addition does not depend on the order of its operands, whichever arena
/// holds each of them and whichever holds the result.
pub proof fn lemma_add_commutes_across(f: Arena, a: Expr, g: Arena, b: Expr)
    requires
        f.wf(),
        f.owns(a),
        g.wf(),
        g.owns(b),
    ensures
        term_add(f.term(a), g.term(b)) == term_add(g.term(b), f.term(a)),
{
    lemma_arena_addable(f, a);
    lemma_arena_addable(g, b);
    lemma_add_commutative(f.term(a), g.term(b));
}

/// A stored sum is a fixed point of the simplification: its entries, run
/// through the simplification again, give the same sum.
pub proof fn lemma_stored_sum_fixed(f: Arena, e: Expr)
    requires
        f.wf(),
        f.owns(e),
        e is Sum,
    ensures
        sum_term(canon_sum(f.term(e)->Sum_0)) == f.term(e),
{
    let r = e->Sum_0;
    lemma_term_sum(f, r);
    lemma_stored_canonical(f);
    lemma_canon_sum_idempotent(f.svec(f.sums[r.index as int]));
}

} // verus!
