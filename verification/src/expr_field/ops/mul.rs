//! Multiplication.
use vstd::prelude::*;
use crate::frac::{
    Frac, Sign, frac_half, frac_int_power, frac_pow, frac_product, lemma_frac_product_commutative,
    lemma_frac_product_one, lemma_two_halves, sign_product,
};
use crate::term::{FnKind, Term, term_of_frac};
use crate::expr_field::{Expr, FieldRef};
use crate::expr_field::structs::type_field::{
    TypeField, lemma_extends, lemma_extends_svec, lemma_extends_trans, lemma_owns_svec_push,
    lemma_term_injective, lemma_term_prod, lemma_term_sum, lemma_val_storable,
};
use crate::expr_field::simplify::sum::{canon_sum, sum_term};
use crate::expr_field::simplify::prod::{
    canon_factors, canon_prod, coefficient, expand_fn, expanded, factor_before, factors_collected,
    factors_merged, factors_parted, factors_resolved, factors_rooted, halved, is_plain,
    lemma_coefficient_small, lemma_flat_push, lemma_flat_small, like_factors, merge_factors,
    nonzero_factor, normalised, part_fn, parted, resolve_fn, resolved, scalar, scaled_term,
    symbolic,
};
use crate::expr_field::simplify::{
    kept, lemma_collected_one, lemma_collected_two, lemma_empty_stays, lemma_kept_small,
};
use crate::expr_field::simplify::root::{like_numbers, merge_numbers, root_fn, rooted};

verus! {

/// The factors that a term brings to a product: its own factors when it is
/// a product, else itself to the power one.
pub open spec fn factors(t: Term) -> Seq<(Term, Frac)> {
    match t {
        Term::Prod(v) => v,
        _ => seq![(t, Frac::Rational(Sign::Plus, 1, 1))],
    }
}

/// The entries of a sum with every coefficient multiplied by `x`.
pub open spec fn scaled(v: Seq<(Frac, Term)>, x: Frac) -> Seq<(Frac, Term)> {
    Seq::new(v.len(), |k: int| (frac_product(v[k].0, x), v[k].1))
}

/// Every exponent is a whole number.
pub open spec fn whole_exponents(v: Seq<(Term, Frac)>) -> bool {
    forall|k: int| 0 <= k < v.len() ==> (#[trigger] v[k]).1.is_integer_spec()
}

/// One of the factors has the base `t`.
pub open spec fn has_base(v: Seq<(Term, Frac)>, t: Term) -> bool {
    exists|k: int| 0 <= k < v.len() && (#[trigger] v[k]).0 == t
}

/// A sum is multiplied into a product term by term where every exponent of
/// the product is a whole number and the sum is not itself one of its bases.
pub open spec fn distributes(sum: Term, q: Seq<(Term, Frac)>) -> bool {
    whole_exponents(q) && !has_base(q, sum)
}

/// The product of two terms.
///
/// Indeterminate absorbs. Two infinities multiply their signs; an infinity
/// times zero is indeterminate; an infinity times anything else is that
/// infinity. Zero absorbs and one is the identity. Two values multiply as
/// rationals; a value scales the coefficients of a sum and becomes the
/// coefficient of anything else. Two sums multiply term by term. A sum and
/// an atom multiply by distributing over the terms of the sum, and so do a
/// sum and a product with whole exponents of which the sum is no base.
/// Every other pair is the canonical product of the factors of both.
pub open spec fn term_mul(a: Term, b: Term) -> Term
    decreases a, b, 1nat, 0nat,
{
    if a is InDet || b is InDet {
        Term::InDet
    } else {
        match (a, b) {
            (Term::Infty(s), Term::Infty(o)) => Term::Infty(sign_product(s, o)),
            (Term::Infty(_), Term::Zero) => Term::InDet,
            (Term::Zero, Term::Infty(_)) => Term::InDet,
            (Term::Infty(_), _) => a,
            (_, Term::Infty(_)) => b,
            (Term::Zero, _) => Term::Zero,
            (_, Term::Zero) => Term::Zero,
            (Term::One, _) => b,
            (_, Term::One) => a,
            (Term::Val(x), Term::Val(y)) => term_of_frac(frac_product(x, y)),
            (Term::Val(x), Term::Sum(t)) => sum_term(canon_sum(scaled(t, x))),
            (Term::Sum(s), Term::Val(y)) => sum_term(canon_sum(scaled(s, y))),
            (Term::Val(x), _) => sum_term(canon_sum(seq![(x, b)])),
            (_, Term::Val(y)) => sum_term(canon_sum(seq![(y, a)])),
            (Term::Sum(s), Term::Sum(_)) => sum_term(canon_sum(cross_rows(a, b, s.len()))),
            (Term::Sum(_), Term::Prod(q)) => if distributes(a, q) {
                sum_term(canon_sum(distributed(a, b, true)))
            } else {
                canon_prod(factors(a) + factors(b))
            },
            (Term::Prod(q), Term::Sum(_)) => if distributes(b, q) {
                sum_term(canon_sum(distributed(a, b, false)))
            } else {
                canon_prod(factors(a) + factors(b))
            },
            (Term::Sum(_), _) => sum_term(canon_sum(distributed(a, b, true))),
            (_, Term::Sum(_)) => sum_term(canon_sum(distributed(a, b, false))),
            _ => canon_prod(factors(a) + factors(b)),
        }
    }
}

/// The entries of the sum among `a` and `b` (`a` when `sum_left`), each
/// term multiplied with the other operand.
pub open spec fn distributed(a: Term, b: Term, sum_left: bool) -> Seq<(Frac, Term)>
    decreases a, b, 0nat, 0nat,
{
    if sum_left {
        match a {
            Term::Sum(s) => Seq::new(
                s.len(),
                |k: int|
                    (
                        s[k].0,
                        if 0 <= k < s.len() {
                            term_mul(s[k].1, b)
                        } else {
                            Term::Zero
                        },
                    ),
            ),
            _ => Seq::empty(),
        }
    } else {
        match b {
            Term::Sum(t) => Seq::new(
                t.len(),
                |k: int|
                    (
                        t[k].0,
                        if 0 <= k < t.len() {
                            term_mul(a, t[k].1)
                        } else {
                            Term::Zero
                        },
                    ),
            ),
            _ => Seq::empty(),
        }
    }
}

/// The products of entry `i` of the sum `a` with every entry of the sum
/// `b`.
pub open spec fn cross_row(a: Term, b: Term, i: int) -> Seq<(Frac, Term)>
    decreases a, b, 0nat, 0nat,
{
    match (a, b) {
        (Term::Sum(s), Term::Sum(t)) => Seq::new(
            t.len(),
            |j: int|
                (
                    frac_product(s[i].0, t[j].0),
                    if 0 <= i < s.len() && 0 <= j < t.len() {
                        term_mul(s[i].1, t[j].1)
                    } else {
                        Term::Zero
                    },
                ),
        ),
        _ => Seq::empty(),
    }
}

/// The products of the first `n` entries of the sum `a` with every entry of
/// the sum `b`, row by row.
pub open spec fn cross_rows(a: Term, b: Term, n: nat) -> Seq<(Frac, Term)>
    decreases a, b, 0nat, n + 1,
{
    if n == 0 {
        Seq::empty()
    } else {
        cross_rows(a, b, (n - 1) as nat) + cross_row(a, b, n - 1)
    }
}

impl TypeField {
    /// The factors that `e` brings to a product.
    pub fn factors(&self, e: Expr) -> (v: Vec<(Expr, Frac)>)
        requires
            self@.wf(),
            self@.owns(e),
        ensures
            self@.owns_pvec(v@),
            self@.pvec(v@) == factors(self@.term(e)),
    {
        match e {
            Expr::Prod(r) => {
                proof {
                    lemma_term_prod(self@, r);
                }
                self.prod_factors(r)
            },
            _ => {
                let mut v: Vec<(Expr, Frac)> = Vec::new();
                v.push((e, Frac::one()));
                assert(self@.pvec(v@) =~= factors(self@.term(e)));
                v
            },
        }
    }

    /// The entries `s` with every coefficient multiplied by `x`.
    pub fn scale(&self, s: &Vec<(Frac, Expr)>, x: Frac) -> (v: Vec<(Frac, Expr)>)
        requires
            self@.wf(),
            self@.owns_svec(s@),
            x.wf(),
        ensures
            self@.owns_svec(v@),
            self@.svec(v@) == scaled(self@.svec(s@), x),
    {
        let mut out: Vec<(Frac, Expr)> = Vec::new();
        let mut k: usize = 0;
        assert(self@.svec(out@) =~= scaled(self@.svec(s@), x).take(0));
        while k < s.len()
            invariant
                k <= s.len(),
                x.wf(),
                self@.owns_svec(s@),
                self@.owns_svec(out@),
                self@.svec(out@) == scaled(self@.svec(s@), x).take(k as int),
            decreases s.len() - k,
        {
            let entry = s[k];
            assert(self@.owns(s@[k as int].1));
            let ghost before = out@;
            let scaled_entry = (entry.0.mul(x), entry.1);
            out.push(scaled_entry);
            proof {
                lemma_owns_svec_push(self@, before, scaled_entry);
                assert(scaled(self@.svec(s@), x).take(k as int + 1) =~= scaled(
                    self@.svec(s@),
                    x,
                ).take(k as int).push((scaled_entry.0, self@.term(scaled_entry.1))));
            }
            k += 1;
        }
        assert(scaled(self@.svec(s@), x).take(s.len() as int) =~= scaled(self@.svec(s@), x));
        out
    }

    /// Every exponent of the stored product `r` is a whole number.
    pub fn has_whole_exponents(&self, r: FieldRef) -> (whole: bool)
        requires
            self@.wf(),
            self@.owns(Expr::Prod(r)),
        ensures
            whole == whole_exponents(self@.pvec(self@.prods[r.index as int])),
    {
        let p = &self.get_prod(r).factors;
        let ghost tp = self@.pvec(p@);
        let mut k: usize = 0;
        while k < p.len()
            invariant
                k <= p.len(),
                tp == self@.pvec(p@),
                tp == self@.pvec(self@.prods[r.index as int]),
                forall|j: int| 0 <= j < k ==> (#[trigger] tp[j]).1.is_integer_spec(),
            decreases p.len() - k,
        {
            if !p[k].1.is_integer() {
                assert(tp[k as int] == (self@.term(p@[k as int].0), p@[k as int].1));
                assert(!(tp[k as int]).1.is_integer_spec());
                return false;
            }
            k += 1;
        }
        true
    }

    /// One of the factors of the stored product `r` has the base `e`.
    pub fn has_base(&self, r: FieldRef, e: Expr) -> (found: bool)
        requires
            self@.wf(),
            self@.owns(Expr::Prod(r)),
            self@.owns(e),
        ensures
            found == has_base(self@.pvec(self@.prods[r.index as int]), self@.term(e)),
    {
        proof {
            lemma_term_prod(self@, r);
        }
        let p = &self.get_prod(r).factors;
        let ghost tp = self@.pvec(p@);
        let mut k: usize = 0;
        while k < p.len()
            invariant
                k <= p.len(),
                self@.wf(),
                self@.owns(e),
                self@.owns_pvec(p@),
                tp == self@.pvec(p@),
                tp == self@.pvec(self@.prods[r.index as int]),
                forall|j: int| 0 <= j < k ==> (#[trigger] tp[j]).0 != self@.term(e),
            decreases p.len() - k,
        {
            assert(self@.owns(p@[k as int].0));
            assert(tp[k as int] == (self@.term(p@[k as int].0), p@[k as int].1));
            if p[k].0 == e {
                return true;
            }
            proof {
                if self@.term(p@[k as int].0) == self@.term(e) {
                    lemma_term_injective(self@, p@[k as int].0, e);
                }
            }
            k += 1;
        }
        false
    }

    /// The product of `a` and `b`, in canonical form.
    pub fn mul(&mut self, a: Expr, b: Expr) -> (e: Expr)
        requires
            old(self)@.wf(),
            old(self)@.owns(a),
            old(self)@.owns(b),
        ensures
            final(self)@.wf(),
            final(self)@.extends(old(self)@),
            final(self)@.owns(e),
            final(self)@.term(e) == term_mul(old(self)@.term(a), old(self)@.term(b)),
        decreases old(self)@.term(a), old(self)@.term(b), 1nat, 0nat,
    {
        match (a, b) {
            (Expr::InDet(_), _) => a,
            (_, Expr::InDet(_)) => b,
            (Expr::Infty(_, s), Expr::Infty(_, o)) => Expr::Infty(self.id(), s.times(o)),
            (Expr::Infty(..), Expr::Zero(_)) => Expr::InDet(self.id()),
            (Expr::Zero(_), Expr::Infty(..)) => Expr::InDet(self.id()),
            (Expr::Infty(..), _) => a,
            (_, Expr::Infty(..)) => b,
            (Expr::Zero(_), _) => a,
            (_, Expr::Zero(_)) => b,
            (Expr::One(_), _) => b,
            (_, Expr::One(_)) => a,
            (Expr::Val(x), Expr::Val(y)) => {
                proof {
                    lemma_val_storable(self@, x);
                    lemma_val_storable(self@, y);
                }
                let product = self.get_val(x).mul(self.get_val(y));
                self.add_val(product)
            },
            (Expr::Val(x), Expr::Sum(t)) => {
                proof {
                    lemma_val_storable(self@, x);
                    lemma_term_sum(self@, t);
                }
                let terms = self.sum_terms(t);
                let v = self.scale(&terms, self.get_val(x));
                self.add_svec(v)
            },
            (Expr::Sum(s), Expr::Val(y)) => {
                proof {
                    lemma_val_storable(self@, y);
                    lemma_term_sum(self@, s);
                }
                let terms = self.sum_terms(s);
                let v = self.scale(&terms, self.get_val(y));
                self.add_svec(v)
            },
            (Expr::Val(x), _) => {
                proof {
                    lemma_val_storable(self@, x);
                }
                let mut v: Vec<(Frac, Expr)> = Vec::new();
                v.push((self.get_val(x), b));
                assert(self@.svec(v@) =~= seq![(self@.vals[x.index as int], self@.term(b))]);
                self.add_svec(v)
            },
            (_, Expr::Val(y)) => {
                proof {
                    lemma_val_storable(self@, y);
                }
                let mut v: Vec<(Frac, Expr)> = Vec::new();
                v.push((self.get_val(y), a));
                assert(self@.svec(v@) =~= seq![(self@.vals[y.index as int], self@.term(a))]);
                self.add_svec(v)
            },
            (Expr::Sum(_), Expr::Sum(_)) => {
                let v = self.svecs_mul(a, b);
                let ghost mid = self@;
                let e = self.add_svec(v);
                proof {
                    lemma_extends_trans(old(self)@, mid, self@);
                    lemma_term_sum(old(self)@, a->Sum_0);
                }
                e
            },
            (Expr::Sum(_), Expr::Prod(q)) => {
                proof {
                    lemma_term_prod(self@, q);
                }
                if self.has_whole_exponents(q) && !self.has_base(q, a) {
                    let v = self.svec_mul(a, b);
                    let ghost mid = self@;
                    let e = self.add_svec(v);
                    proof {
                        lemma_extends_trans(old(self)@, mid, self@);
                    }
                    e
                } else {
                    self.mul_factors(a, b)
                }
            },
            (Expr::Prod(q), Expr::Sum(_)) => {
                proof {
                    lemma_term_prod(self@, q);
                }
                if self.has_whole_exponents(q) && !self.has_base(q, b) {
                    let v = self.mul_svec(a, b);
                    let ghost mid = self@;
                    let e = self.add_svec(v);
                    proof {
                        lemma_extends_trans(old(self)@, mid, self@);
                    }
                    e
                } else {
                    self.mul_factors(a, b)
                }
            },
            (Expr::Sum(_), _) => {
                let v = self.svec_mul(a, b);
                let ghost mid = self@;
                let e = self.add_svec(v);
                proof {
                    lemma_extends_trans(old(self)@, mid, self@);
                }
                e
            },
            (_, Expr::Sum(_)) => {
                let v = self.mul_svec(a, b);
                let ghost mid = self@;
                let e = self.add_svec(v);
                proof {
                    lemma_extends_trans(old(self)@, mid, self@);
                }
                e
            },
            _ => self.mul_factors(a, b),
        }
    }

    /// The canonical product of the factors of `a` and of `b`.
    pub fn mul_factors(&mut self, a: Expr, b: Expr) -> (e: Expr)
        requires
            old(self)@.wf(),
            old(self)@.owns(a),
            old(self)@.owns(b),
        ensures
            final(self)@.wf(),
            final(self)@.extends(old(self)@),
            final(self)@.owns(e),
            final(self)@.term(e) == canon_prod(
                factors(old(self)@.term(a)) + factors(old(self)@.term(b)),
            ),
    {
        let mut v = self.factors(a);
        let mut w = self.factors(b);
        let ghost left = v@;
        let ghost right = w@;
        v.append(&mut w);
        proof {
            assert(self@.pvec(left + right) =~= self@.pvec(left) + self@.pvec(right));
            assert forall|k: int| 0 <= k < v.len() implies self@.owns(#[trigger] v@[k].0)
                && v@[k].1.wf() by {
                if k < left.len() {
                    assert(self@.owns(left[k].0));
                } else {
                    assert(self@.owns(right[k - left.len()].0));
                }
            }
        }
        self.add_pvec(v)
    }

    /// The entries of the sum `a`, each term multiplied with `b`.
    pub fn svec_mul(&mut self, a: Expr, b: Expr) -> (v: Vec<(Frac, Expr)>)
        requires
            old(self)@.wf(),
            old(self)@.owns(a),
            old(self)@.owns(b),
            a is Sum,
        ensures
            final(self)@.wf(),
            final(self)@.extends(old(self)@),
            final(self)@.owns_svec(v@),
            final(self)@.svec(v@) == distributed(old(self)@.term(a), old(self)@.term(b), true),
        decreases old(self)@.term(a), old(self)@.term(b), 0nat, 0nat,
    {
        let ghost ta = self@.term(a);
        let ghost tb = self@.term(b);
        let r = match a {
            Expr::Sum(r) => r,
            _ => FieldRef { field: 0, index: 0 },
        };
        proof {
            lemma_term_sum(self@, r);
        }
        let s = self.sum_terms(r);
        let ghost ts = self@.svec(s@);
        let ghost target = distributed(ta, tb, true);
        let mut out: Vec<(Frac, Expr)> = Vec::new();
        let mut k: usize = 0;
        assert(self@.svec(out@) =~= target.take(0));
        while k < s.len()
            invariant
                k <= s.len(),
                old(self)@.wf(),
                old(self)@.owns(a),
                old(self)@.owns(b),
                old(self)@.owns_svec(s@),
                self@.wf(),
                self@.extends(old(self)@),
                ta == old(self)@.term(a),
                tb == old(self)@.term(b),
                ts == old(self)@.svec(s@),
                ta == Term::Sum(ts),
                target == distributed(ta, tb, true),
                target.len() == s.len(),
                self@.owns_svec(out@),
                self@.svec(out@) == target.take(k as int),
            decreases s.len() - k,
        {
            let entry = s[k];
            let ghost mid = self@;
            proof {
                assert(old(self)@.owns(s@[k as int].1));
                lemma_extends(old(self)@, mid, entry.1);
                lemma_extends(old(self)@, mid, a);
                lemma_extends(old(self)@, mid, b);
                assert(ts[k as int] == (entry.0, old(self)@.term(entry.1)));
                assert(decreases_to!(ta => ts[k as int].1));
            }
            let e = self.mul(entry.1, b);
            let ghost before = out@;
            proof {
                lemma_extends_svec(mid, self@, before);
                lemma_extends_trans(old(self)@, mid, self@);
            }
            out.push((entry.0, e));
            proof {
                lemma_owns_svec_push(self@, before, (entry.0, e));
                assert(target[k as int] == (entry.0, self@.term(e)));
                assert(target.take(k as int + 1) =~= target.take(k as int).push(
                    (entry.0, self@.term(e)),
                ));
            }
            k += 1;
        }
        assert(target.take(s.len() as int) =~= target);
        out
    }

    /// The entries of the sum `b`, each term multiplied with `a` from the left.
    pub fn mul_svec(&mut self, a: Expr, b: Expr) -> (v: Vec<(Frac, Expr)>)
        requires
            old(self)@.wf(),
            old(self)@.owns(a),
            old(self)@.owns(b),
            b is Sum,
        ensures
            final(self)@.wf(),
            final(self)@.extends(old(self)@),
            final(self)@.owns_svec(v@),
            final(self)@.svec(v@) == distributed(old(self)@.term(a), old(self)@.term(b), false),
        decreases old(self)@.term(a), old(self)@.term(b), 0nat, 0nat,
    {
        let ghost ta = self@.term(a);
        let ghost tb = self@.term(b);
        let r = match b {
            Expr::Sum(r) => r,
            _ => FieldRef { field: 0, index: 0 },
        };
        proof {
            lemma_term_sum(self@, r);
        }
        let s = self.sum_terms(r);
        let ghost ts = self@.svec(s@);
        let ghost target = distributed(ta, tb, false);
        let mut out: Vec<(Frac, Expr)> = Vec::new();
        let mut k: usize = 0;
        assert(self@.svec(out@) =~= target.take(0));
        while k < s.len()
            invariant
                k <= s.len(),
                old(self)@.wf(),
                old(self)@.owns(a),
                old(self)@.owns(b),
                old(self)@.owns_svec(s@),
                self@.wf(),
                self@.extends(old(self)@),
                ta == old(self)@.term(a),
                tb == old(self)@.term(b),
                ts == old(self)@.svec(s@),
                tb == Term::Sum(ts),
                target == distributed(ta, tb, false),
                target.len() == s.len(),
                self@.owns_svec(out@),
                self@.svec(out@) == target.take(k as int),
            decreases s.len() - k,
        {
            let entry = s[k];
            let ghost mid = self@;
            proof {
                assert(old(self)@.owns(s@[k as int].1));
                lemma_extends(old(self)@, mid, entry.1);
                lemma_extends(old(self)@, mid, a);
                lemma_extends(old(self)@, mid, b);
                assert(ts[k as int] == (entry.0, old(self)@.term(entry.1)));
                assert(decreases_to!(tb => ts[k as int].1));
            }
            let e = self.mul(a, entry.1);
            let ghost before = out@;
            proof {
                lemma_extends_svec(mid, self@, before);
                lemma_extends_trans(old(self)@, mid, self@);
            }
            out.push((entry.0, e));
            proof {
                lemma_owns_svec_push(self@, before, (entry.0, e));
                assert(target[k as int] == (entry.0, self@.term(e)));
                assert(target.take(k as int + 1) =~= target.take(k as int).push(
                    (entry.0, self@.term(e)),
                ));
            }
            k += 1;
        }
        assert(target.take(s.len() as int) =~= target);
        out
    }

    /// The products of every entry of the sum `a` with every entry of the
    /// sum `b`, row by row.
    pub fn svecs_mul(&mut self, a: Expr, b: Expr) -> (v: Vec<(Frac, Expr)>)
        requires
            old(self)@.wf(),
            old(self)@.owns(a),
            old(self)@.owns(b),
            a is Sum,
            b is Sum,
        ensures
            final(self)@.wf(),
            final(self)@.extends(old(self)@),
            final(self)@.owns_svec(v@),
            final(self)@.svec(v@) == cross_rows(
                old(self)@.term(a),
                old(self)@.term(b),
                old(self)@.sums[a->Sum_0.index as int].len(),
            ),
        decreases old(self)@.term(a), old(self)@.term(b), 0nat, 0nat,
    {
        let ghost ta = self@.term(a);
        let ghost tb = self@.term(b);
        let (x, y) = match (a, b) {
            (Expr::Sum(x), Expr::Sum(y)) => (x, y),
            _ => (FieldRef { field: 0, index: 0 }, FieldRef { field: 0, index: 0 }),
        };
        proof {
            lemma_term_sum(self@, x);
            lemma_term_sum(self@, y);
        }
        let s = self.sum_terms(x);
        let t = self.sum_terms(y);
        let ghost ts = self@.svec(s@);
        let ghost tt = self@.svec(t@);
        let mut out: Vec<(Frac, Expr)> = Vec::new();
        let mut i: usize = 0;
        assert(self@.svec(out@) =~= cross_rows(ta, tb, 0));
        while i < s.len()
            invariant
                i <= s.len(),
                old(self)@.wf(),
                old(self)@.owns_svec(s@),
                old(self)@.owns_svec(t@),
                self@.wf(),
                self@.extends(old(self)@),
                ta == old(self)@.term(a),
                tb == old(self)@.term(b),
                ts == old(self)@.svec(s@),
                tt == old(self)@.svec(t@),
                ta == Term::Sum(ts),
                tb == Term::Sum(tt),
                self@.owns_svec(out@),
                self@.svec(out@) == cross_rows(ta, tb, i as nat),
            decreases s.len() - i,
        {
            let p = s[i];
            let ghost done = self@.svec(out@);
            let ghost row = cross_row(ta, tb, i as int);
            let mut j: usize = 0;
            assert(done + row.take(0) =~= done);
            while j < t.len()
                invariant
                    j <= t.len(),
                    i < s.len(),
                    p == s@[i as int],
                    old(self)@.wf(),
                    old(self)@.owns_svec(s@),
                    old(self)@.owns_svec(t@),
                    self@.wf(),
                    self@.extends(old(self)@),
                    ta == old(self)@.term(a),
                    tb == old(self)@.term(b),
                    ts == old(self)@.svec(s@),
                    tt == old(self)@.svec(t@),
                    ta == Term::Sum(ts),
                    tb == Term::Sum(tt),
                    row == cross_row(ta, tb, i as int),
                    row.len() == t.len(),
                    self@.owns_svec(out@),
                    self@.svec(out@) == done + row.take(j as int),
                decreases t.len() - j,
            {
                let q = t[j];
                let ghost mid = self@;
                proof {
                    assert(old(self)@.owns(s@[i as int].1));
                    assert(old(self)@.owns(t@[j as int].1));
                    lemma_extends(old(self)@, mid, p.1);
                    lemma_extends(old(self)@, mid, q.1);
                    assert(ts[i as int] == (p.0, old(self)@.term(p.1)));
                    assert(tt[j as int] == (q.0, old(self)@.term(q.1)));
                }
                let c = p.0.mul(q.0);
                let e = self.mul(p.1, q.1);
                let ghost before = out@;
                proof {
                    lemma_extends_svec(mid, self@, before);
                    lemma_extends_trans(old(self)@, mid, self@);
                }
                out.push((c, e));
                proof {
                    lemma_owns_svec_push(self@, before, (c, e));
                    assert(row.take(j as int + 1) =~= row.take(j as int).push(
                        (c, self@.term(e)),
                    ));
                    assert(done + row.take(j as int + 1) =~= (done + row.take(j as int)).push(
                        (c, self@.term(e)),
                    ));
                }
                j += 1;
            }
            assert(row.take(t.len() as int) =~= row);
            i += 1;
        }
        out
    }
}

/// One is the identity of multiplication, on either side.
pub proof fn lemma_mul_one(a: Term)
    ensures
        term_mul(a, Term::One) == a,
        term_mul(Term::One, a) == a,
{
}

/// Zero absorbs every term that is neither infinite nor indeterminate; an
/// infinity times zero is indeterminate, and so is the indeterminate.
pub proof fn lemma_mul_zero(a: Term)
    ensures
        !(a is Infty) && !(a is InDet) ==> term_mul(a, Term::Zero) == Term::Zero && term_mul(
            Term::Zero,
            a,
        ) == Term::Zero,
        a is Infty || a is InDet ==> term_mul(a, Term::Zero) == Term::InDet && term_mul(
            Term::Zero,
            a,
        ) == Term::InDet,
{
}

/// The number that a rational to the power one is, is that rational.
proof fn lemma_scalar_of_rational(n: Frac)
    requires
        n.wf(),
        n is Rational,
    ensures
        scalar((term_of_frac(n), Frac::Rational(Sign::Plus, 1, 1))) == Some(n),
{
    let one = Frac::Rational(Sign::Plus, 1, 1);
    let zero = Frac::Rational(Sign::Plus, 0, 1);
    lemma_frac_product_one(n);
    assert(frac_int_power(n, one) == n) by {
        reveal_with_fuel(frac_pow, 2);
    }
    assert(zero.wf()) by {
        reveal_with_fuel(crate::frac::gcd, 2);
    }
    lemma_frac_product_one(zero);
    assert(frac_int_power(zero, one) == zero) by {
        reveal_with_fuel(frac_pow, 2);
    }
    if n.is_zero_spec() {
        let d = n->Rational_2 as nat;
        assert(crate::frac::gcd(0, d) == d) by {
            reveal_with_fuel(crate::frac::gcd, 3);
            assert(0nat % d == 0);
        }
        assert(n == zero);
    }
}

/// Two square roots of one term, as factors, normalise to two half powers.
proof fn lemma_roots_normalised(x: Term)
    requires
        !(x is Prod),
        !(x is Sum),
    ensures
        normalised(
            seq![
                (Term::Fn(FnKind::Sqrt, Box::new(x)), Frac::Rational(Sign::Plus, 1, 1)),
                (Term::Fn(FnKind::Sqrt, Box::new(x)), Frac::Rational(Sign::Plus, 1, 1)),
            ],
        ) == seq![(x, frac_half()), (x, frac_half())],
{
    let one = Frac::Rational(Sign::Plus, 1, 1);
    let root = Term::Fn(FnKind::Sqrt, Box::new(x));
    lemma_two_halves();
    lemma_frac_product_one(frac_half());
    let h = (x, frac_half());
    assert(halved((root, one)) == h);
    assert(expanded((root, one)) == seq![h]);
    lemma_flat_small((root, one), (root, one), expand_fn());
    assert(seq![h] + seq![h] =~= seq![h, h]);
}

/// The canonical product of factors that collect to a single number to the
/// power one is that number.
proof fn lemma_canon_single_number(v: Seq<(Term, Frac)>, x: Term, n: Frac)
    requires
        factors_collected(v) == seq![(x, Frac::Rational(Sign::Plus, 1, 1))],
        scalar((x, Frac::Rational(Sign::Plus, 1, 1))) == Some(n),
        n.wf(),
    ensures
        canon_prod(v) == scaled_term(n, Seq::empty()),
{
    let one = Frac::Rational(Sign::Plus, 1, 1);
    let whole = (x, one);
    lemma_collected_one(whole, like_numbers(), merge_numbers());
    assert(factors_merged(v) == seq![whole]);
    lemma_flat_small(whole, whole, root_fn());
    assert(rooted(whole) == seq![whole]);
    assert(factors_rooted(v) == seq![whole]);
    lemma_flat_small(whole, whole, resolve_fn());
    assert(resolved(whole) == seq![whole]);
    assert(factors_resolved(v) == seq![whole]);
    assert(parted(whole) == seq![whole]);
    lemma_flat_small(whole, whole, part_fn());
    assert(factors_parted(v) == seq![whole]);
    lemma_coefficient_small(whole);
    lemma_frac_product_one(n);
    assert(coefficient(seq![whole]) == n);
    lemma_kept_small(whole, symbolic());
    assert(kept(seq![whole], symbolic()) == Seq::<(Term, Frac)>::empty());
    lemma_empty_stays(like_factors(), merge_factors(), nonzero_factor(), factor_before());
    assert(canon_factors(v) == Seq::<(Term, Frac)>::empty());
    reveal(canon_prod);
}

/// Two terms of which each is a constant, a product or a function multiply
/// as the canonical product of their factors.
pub proof fn lemma_mul_as_factors(a: Term, b: Term)
    requires
        a is Const || a is Prod || a is Fn,
        b is Const || b is Prod || b is Fn,
    ensures
        term_mul(a, b) == canon_prod(factors(a) + factors(b)),
{
}

/// The square root of a rational, squared, is that rational: for every
/// finite rational `n` in lowest terms the product of the root of `n` with
/// itself is the term of `n`.
pub proof fn lemma_root_squared(n: Frac)
    requires
        n.wf(),
        n is Rational,
    ensures
        term_mul(
            Term::Fn(FnKind::Sqrt, Box::new(term_of_frac(n))),
            Term::Fn(FnKind::Sqrt, Box::new(term_of_frac(n))),
        ) == term_of_frac(n),
{
    let x = term_of_frac(n);
    let root = Term::Fn(FnKind::Sqrt, Box::new(x));
    let one = Frac::Rational(Sign::Plus, 1, 1);
    let v = factors(root) + factors(root);
    assert(v =~= seq![(root, one), (root, one)]);
    lemma_roots_normalised(x);
    let h = (x, frac_half());
    lemma_two_halves();
    lemma_collected_two(h, h, like_factors(), merge_factors());
    assert(factors_collected(v) == seq![(x, one)]);
    lemma_scalar_of_rational(n);
    lemma_canon_single_number(v, x, n);
    lemma_mul_as_factors(root, root);
}

/// The product with a fundamental does not depend on the order: for zero,
/// one, an infinity or the indeterminate `f` and any term `a`.
pub proof fn lemma_mul_fundamental_commutative(f: Term, a: Term)
    requires
        f is Zero || f is One || f is Infty || f is InDet,
    ensures
        term_mul(f, a) == term_mul(a, f),
{
}

impl TypeField {
    /// The product of `a` and the expression `b` of the arena `src`: `b` is
    /// copied into this arena first, and the result belongs to this arena.
    pub fn mul_from(&mut self, a: Expr, src: &TypeField, b: Expr) -> (e: Expr)
        requires
            old(self)@.wf(),
            old(self)@.owns(a),
            src@.wf(),
            src@.owns(b),
        ensures
            final(self)@.wf(),
            final(self)@.extends(old(self)@),
            final(self)@.owns(e),
            final(self)@.term(e) == term_mul(old(self)@.term(a), src@.term(b)),
    {
        let copy = self.gulp(src, b);
        let ghost mid = self@;
        proof {
            lemma_extends(old(self)@, mid, a);
        }
        let e = self.mul(a, copy);
        proof {
            lemma_extends_trans(old(self)@, mid, self@);
        }
        e
    }
}

/// The product with a value does not depend on the order, whatever the
/// other operand is.
pub proof fn lemma_mul_value_commutative(x: Frac, b: Term)
    ensures
        term_mul(Term::Val(x), b) == term_mul(b, Term::Val(x)),
{
    match b {
        Term::Val(y) => {
            lemma_frac_product_commutative(x, y);
        },
        _ => {},
    }
}

/// The canonical product of factors that collect to a plain base to the
/// power one and a rational to the power one, in either order, is the
/// rational times the base.
proof fn lemma_canon_scaled_base(v: Seq<(Term, Frac)>, x: Term, n: Frac, first: bool)
    requires
        is_plain(x),
        n.wf(),
        n is Rational,
        !n.is_zero_spec(),
        !n.is_one_spec(),
        factors_collected(v) == if first {
            seq![(x, Frac::Rational(Sign::Plus, 1, 1)), (Term::Val(n), Frac::Rational(Sign::Plus, 1, 1))]
        } else {
            seq![(Term::Val(n), Frac::Rational(Sign::Plus, 1, 1)), (x, Frac::Rational(Sign::Plus, 1, 1))]
        },
    ensures
        canon_prod(v) == Term::Sum(seq![(n, x)]),
{
    let one = Frac::Rational(Sign::Plus, 1, 1);
    let p = (x, one);
    let q = (Term::Val(n), one);
    let t = factors_collected(v);
    let (a, b) = if first {
        (p, q)
    } else {
        (q, p)
    };
    assert(t == seq![a, b]);
    lemma_scalar_of_rational(n);
    lemma_frac_product_one(n);
    assert(scalar(q) == Some(n));
    assert(scalar(p) is None);
    lemma_collected_two(a, b, like_numbers(), merge_numbers());
    assert(factors_merged(v) == t);
    assert(rooted(a) == seq![a] && rooted(b) == seq![b]);
    lemma_flat_small(a, b, root_fn());
    assert(seq![a] + seq![b] =~= t);
    assert(factors_rooted(v) == t);
    assert(resolved(a) == seq![a] && resolved(b) == seq![b]);
    lemma_flat_small(a, b, resolve_fn());
    assert(factors_resolved(v) == t);
    assert(parted(a) == seq![a] && parted(b) == seq![b]);
    lemma_flat_small(a, b, part_fn());
    assert(factors_parted(v) == t);
    assert(coefficient(t) == n) by {
        reveal_with_fuel(coefficient, 3);
        assert(t.drop_last() =~= seq![a]);
        assert(seq![a].drop_last() =~= Seq::<(Term, Frac)>::empty());
    }
    crate::expr_field::simplify::lemma_kept_one_of_two(a, b, symbolic());
    assert(kept(t, symbolic()) == seq![p]);
    lemma_collected_one(p, like_factors(), merge_factors());
    lemma_kept_small(p, nonzero_factor());
    crate::expr_field::simplify::lemma_sorted_small(p, factor_before());
    assert(canon_factors(v) == seq![p]);
    assert(seq![p][0] == p);
    let entry = (n, x);
    assert(crate::expr_field::simplify::sum::folded(seq![entry]) =~= seq![entry]);
    lemma_collected_one(
        entry,
        crate::expr_field::simplify::sum::like_terms(),
        crate::expr_field::simplify::sum::merge_terms(),
    );
    lemma_kept_small(entry, crate::expr_field::simplify::sum::nonzero_term());
    crate::expr_field::simplify::lemma_sorted_small(
        entry,
        crate::expr_field::simplify::sum::entry_before(),
    );
    assert(canon_sum(seq![entry]) == seq![entry]) by {
        reveal(canon_sum);
    }
    assert(seq![entry][0] == entry);
    reveal(canon_prod);
}

/// The product of a plain base and the square root of a rational, times
/// that root once more, is the rational times the base, in either order:
/// the two roots cancel.
pub proof fn lemma_root_cancels(x: Term, n: Frac)
    requires
        is_plain(x),
        n.wf(),
        n is Rational,
        !n.is_zero_spec(),
        !n.is_one_spec(),
    ensures
        term_mul(
            Term::Prod(
                seq![
                    (x, Frac::Rational(Sign::Plus, 1, 1)),
                    (Term::Fn(FnKind::Sqrt, Box::new(Term::Val(n))), Frac::Rational(Sign::Plus, 1, 1)),
                ],
            ),
            Term::Fn(FnKind::Sqrt, Box::new(Term::Val(n))),
        ) == Term::Sum(seq![(n, x)]),
        term_mul(
            Term::Fn(FnKind::Sqrt, Box::new(Term::Val(n))),
            Term::Prod(
                seq![
                    (x, Frac::Rational(Sign::Plus, 1, 1)),
                    (Term::Fn(FnKind::Sqrt, Box::new(Term::Val(n))), Frac::Rational(Sign::Plus, 1, 1)),
                ],
            ),
        ) == Term::Sum(seq![(n, x)]),
{
    let one = Frac::Rational(Sign::Plus, 1, 1);
    let half = frac_half();
    let value = Term::Val(n);
    let root = Term::Fn(FnKind::Sqrt, Box::new(value));
    let p = (x, one);
    let r = (root, one);
    let h = (value, half);
    let product = Term::Prod(seq![p, r]);
    lemma_mul_as_factors(product, root);
    lemma_mul_as_factors(root, product);
    lemma_two_halves();
    lemma_frac_product_one(half);
    assert(halved(r) == h);
    assert(expanded(r) == seq![h]);
    assert(expanded(p) == seq![p]);
    let left = factors(product) + factors(root);
    let right = factors(root) + factors(product);
    assert(left =~= seq![p, r, r]);
    assert(right =~= seq![r, p, r]);
    lemma_flat_small(p, r, expand_fn());
    lemma_flat_push(seq![p, r], r, expand_fn());
    assert(seq![p, r].push(r) =~= seq![p, r, r]);
    assert(seq![p] + seq![h] + seq![h] =~= seq![p, h, h]);
    assert(normalised(left) == seq![p, h, h]);
    lemma_flat_small(r, p, expand_fn());
    lemma_flat_push(seq![r, p], r, expand_fn());
    assert(seq![r, p].push(r) =~= seq![r, p, r]);
    assert(seq![h] + seq![p] + seq![h] =~= seq![h, p, h]);
    assert(normalised(right) == seq![h, p, h]);
    crate::expr_field::simplify::lemma_collected_pair(p, h, h, like_factors(), merge_factors());
    crate::expr_field::simplify::lemma_collected_pair(h, p, h, like_factors(), merge_factors());
    lemma_canon_scaled_base(left, x, n, true);
    lemma_canon_scaled_base(right, x, n, false);
}

} // verus!
