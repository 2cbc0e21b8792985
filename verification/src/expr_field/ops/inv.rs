//! The multiplicative inverse.
use vstd::prelude::*;
use crate::frac::{
    Frac, Sign, frac_half, frac_neg, frac_product, frac_recip, frac_sum, gcd,
    lemma_frac_product_one, lemma_frac_sum_negation, lemma_gcd_self, lemma_half_arithmetic,
    lemma_two_halves,
};
use crate::term::{FnKind, Term, term_of_frac};
use crate::expr_field::Expr;
use crate::expr_field::structs::type_field::{TypeField, lemma_owns_pvec_push, lemma_val_storable};
use crate::expr_field::simplify::prod::{
    canon_factors, canon_prod, coefficient, expand_fn, expanded, factor_before, factors_collected,
    factors_merged, factors_parted, factors_resolved, factors_rooted, halved,
    lemma_coefficient_small, lemma_flat_push, lemma_flat_small, like_factors, merge_factors,
    nonzero_factor, normalised, part_fn, parted, resolve_fn, resolved, scalar, symbolic,
};
use crate::expr_field::simplify::{
    kept, lemma_collected_one, lemma_collected_three, lemma_collected_two, lemma_kept_fixed,
    lemma_kept_small, lemma_sorted_small, lemma_sorted_two, sorted,
};
use crate::expr_field::ops::mul::{factors, has_base, lemma_mul_as_factors, term_mul};
use crate::expr_field::simplify::root::{like_numbers, merge_numbers, root_fn, rooted};

verus! {

/// The factors `v` with every exponent negated.
pub open spec fn negated(v: Seq<(Term, Frac)>) -> Seq<(Term, Frac)> {
    Seq::new(v.len(), |k: int| (v[k].0, frac_neg(v[k].1)))
}

/// The inverse of a term: the reciprocal of a value, zero for an infinity
/// and positive infinity for zero, and for everything else the canonical
/// product of its factors with negated exponents.
pub open spec fn term_inv(a: Term) -> Term {
    match a {
        Term::InDet => Term::InDet,
        Term::Infty(_) => Term::Zero,
        Term::Zero => Term::Infty(Sign::Plus),
        Term::One => Term::One,
        Term::Val(x) => term_of_frac(frac_recip(x)),
        _ => canon_prod(negated(factors(a))),
    }
}

impl TypeField {
    /// The inverse of `a`, in canonical form.
    pub fn inv(&mut self, a: Expr) -> (e: Expr)
        requires
            old(self)@.wf(),
            old(self)@.owns(a),
        ensures
            final(self)@.wf(),
            final(self)@.extends(old(self)@),
            final(self)@.owns(e),
            final(self)@.term(e) == term_inv(old(self)@.term(a)),
    {
        match a {
            Expr::InDet(_) => a,
            Expr::Infty(..) => Expr::Zero(self.id()),
            Expr::Zero(_) => Expr::Infty(self.id(), Sign::Plus),
            Expr::One(_) => a,
            Expr::Val(r) => {
                proof {
                    lemma_val_storable(self@, r);
                }
                let x = self.get_val(r).recip();
                self.add_val(x)
            },
            _ => {
                let v = self.factors(a);
                let out = self.negate(&v);
                self.add_pvec(out)
            },
        }
    }

    /// The factors `v` with every exponent negated.
    pub fn negate(&self, v: &Vec<(Expr, Frac)>) -> (out: Vec<(Expr, Frac)>)
        requires
            self@.owns_pvec(v@),
        ensures
            self@.owns_pvec(out@),
            self@.pvec(out@) == negated(self@.pvec(v@)),
    {
        let ghost tv = self@.pvec(v@);
        let mut out: Vec<(Expr, Frac)> = Vec::new();
        let mut k: usize = 0;
        assert(self@.pvec(out@) =~= negated(tv).take(0));
        while k < v.len()
            invariant
                k <= v.len(),
                self@.owns_pvec(v@),
                self@.owns_pvec(out@),
                tv == self@.pvec(v@),
                self@.pvec(out@) == negated(tv).take(k as int),
            decreases v.len() - k,
        {
            let p = v[k];
            assert(self@.owns(v@[k as int].0));
            let q = (p.0, p.1.neg());
            let ghost before = out@;
            out.push(q);
            proof {
                lemma_owns_pvec_push(self@, before, q);
                assert(negated(tv).take(k as int + 1) =~= negated(tv).take(k as int).push(
                    (self@.term(q.0), q.1),
                ));
            }
            k += 1;
        }
        assert(negated(tv).take(v.len() as int) =~= negated(tv));
        out
    }
}

/// A finite rational other than zero times its reciprocal is one.
pub proof fn lemma_recip_product(x: Frac)
    requires
        x.wf(),
        x is Rational,
        !x.is_zero_spec(),
    ensures
        frac_product(x, frac_recip(x)) == Frac::Rational(Sign::Plus, 1, 1),
        frac_product(frac_recip(x), x) == Frac::Rational(Sign::Plus, 1, 1),
{
    let n = x->Rational_1 as nat;
    let d = x->Rational_2 as nat;
    lemma_gcd_self(n);
    lemma_gcd_self(d);
    assert(n / n == 1 && d / d == 1) by (nonlinear_arith)
        requires
            n > 0,
            d > 0,
    ;
    assert(gcd(1, 1) == 1) by {
        reveal_with_fuel(gcd, 3);
    }
    assert(1nat * 1nat == 1);
}

/// A value times its inverse is one.
pub proof fn lemma_value_times_inverse(x: Frac)
    requires
        x.wf(),
        x is Rational,
        !x.is_zero_spec(),
        !x.is_one_spec(),
    ensures
        term_mul(Term::Val(x), term_inv(Term::Val(x))) == Term::One,
        term_mul(term_inv(Term::Val(x)), Term::Val(x)) == Term::One,
{
    lemma_recip_product(x);
}

/// A term that is a whole on its own: a constant, a sum of other than one
/// entry, or a function other than the square root.
pub open spec fn is_atom(a: Term) -> bool {
    a is Const || (a matches Term::Sum(s) && s.len() != 1) || (a matches Term::Fn(k, _) && k
        != FnKind::Sqrt)
}

/// The inverse of an atom is the atom to the power minus one.
pub proof fn lemma_atom_inverse(a: Term)
    requires
        is_atom(a),
    ensures
        term_inv(a) == Term::Prod(seq![(a, Frac::Rational(Sign::Minus, 1, 1))]),
{
    let minus = Frac::Rational(Sign::Minus, 1, 1);
    let p = (a, minus);
    let v = negated(factors(a));
    assert(v =~= seq![p]);
    assert(halved(p) == p);
    assert(expanded(p) == seq![p]);
    lemma_flat_small(p, p, expand_fn());
    lemma_collected_one(p, like_factors(), merge_factors());
    assert(factors_collected(v) == seq![p]);
    lemma_collected_one(p, like_numbers(), merge_numbers());
    assert(factors_merged(v) == seq![p]);
    lemma_flat_small(p, p, root_fn());
    assert(rooted(p) == seq![p]);
    assert(factors_rooted(v) == seq![p]);
    lemma_flat_small(p, p, resolve_fn());
    assert(resolved(p) == seq![p]);
    assert(factors_resolved(v) == seq![p]);
    assert(parted(p) == seq![p]);
    lemma_flat_small(p, p, part_fn());
    assert(factors_parted(v) == seq![p]);
    lemma_coefficient_small(p);
    assert(scalar(p) is None);
    lemma_kept_small(p, symbolic());
    lemma_collected_one(p, like_factors(), merge_factors());
    lemma_kept_small(p, nonzero_factor());
    lemma_sorted_small(p, factor_before());
    assert(canon_factors(v) == seq![p]);
    assert(seq![p].len() == 1);
    assert(seq![p][0] == p);
    reveal(canon_prod);
}

/// The canonical product of factors that collect to a single atom to the
/// power zero is one.
proof fn lemma_canon_single_zero(v: Seq<(Term, Frac)>, a: Term)
    requires
        is_atom(a),
        factors_collected(v) == seq![(a, Frac::Rational(Sign::Plus, 0, 1))],
    ensures
        canon_prod(v) == Term::One,
{
    let z = (a, Frac::Rational(Sign::Plus, 0, 1));
    lemma_collected_one(z, like_numbers(), merge_numbers());
    assert(factors_merged(v) == seq![z]);
    lemma_flat_small(z, z, root_fn());
    assert(rooted(z) == seq![z]);
    assert(factors_rooted(v) == seq![z]);
    lemma_flat_small(z, z, resolve_fn());
    assert(resolved(z) == seq![z]);
    assert(factors_resolved(v) == seq![z]);
    assert(parted(z) == seq![z]);
    lemma_flat_small(z, z, part_fn());
    assert(factors_parted(v) == seq![z]);
    assert(scalar(z) is None);
    lemma_coefficient_small(z);
    lemma_kept_small(z, symbolic());
    assert(kept(seq![z], symbolic()) == seq![z]);
    lemma_collected_one(z, like_factors(), merge_factors());
    lemma_kept_small(z, nonzero_factor());
    assert(kept(seq![z], nonzero_factor()) == Seq::<(Term, Frac)>::empty());
    lemma_sorted_small(z, factor_before());
    assert(canon_factors(v) == Seq::<(Term, Frac)>::empty());
    reveal(canon_prod);
}

/// An atom to the power one and to the power minus one collect to the atom
/// to the power zero, in either order.
proof fn lemma_collect_opposites(a: Term)
    requires
        is_atom(a),
    ensures
        factors_collected(
            seq![(a, Frac::Rational(Sign::Plus, 1, 1)), (a, Frac::Rational(Sign::Minus, 1, 1))],
        ) == seq![(a, Frac::Rational(Sign::Plus, 0, 1))],
        factors_collected(
            seq![(a, Frac::Rational(Sign::Minus, 1, 1)), (a, Frac::Rational(Sign::Plus, 1, 1))],
        ) == seq![(a, Frac::Rational(Sign::Plus, 0, 1))],
{
    let one = Frac::Rational(Sign::Plus, 1, 1);
    let minus = Frac::Rational(Sign::Minus, 1, 1);
    let p = (a, one);
    let q = (a, minus);
    assert(one.wf()) by {
        reveal_with_fuel(gcd, 3);
    }
    lemma_frac_sum_negation(one);
    assert(frac_neg(one) == minus);
    assert(expanded(p) == seq![p] && expanded(q) == seq![q]);
    lemma_flat_small(p, q, expand_fn());
    assert(seq![p] + seq![q] =~= seq![p, q]);
    lemma_collected_two(p, q, like_factors(), merge_factors());
    lemma_flat_small(q, p, expand_fn());
    assert(seq![q] + seq![p] =~= seq![q, p]);
    lemma_collected_two(q, p, like_factors(), merge_factors());
}

/// The canonical product of a term that is no number with its own inverse
/// power is one, in either order.
proof fn lemma_cancel(a: Term)
    requires
        is_atom(a),
    ensures
        canon_prod(
            seq![(a, Frac::Rational(Sign::Plus, 1, 1)), (a, Frac::Rational(Sign::Minus, 1, 1))],
        ) == Term::One,
        canon_prod(
            seq![(a, Frac::Rational(Sign::Minus, 1, 1)), (a, Frac::Rational(Sign::Plus, 1, 1))],
        ) == Term::One,
{
    lemma_collect_opposites(a);
    lemma_canon_single_zero(
        seq![(a, Frac::Rational(Sign::Plus, 1, 1)), (a, Frac::Rational(Sign::Minus, 1, 1))],
        a,
    );
    lemma_canon_single_zero(
        seq![(a, Frac::Rational(Sign::Minus, 1, 1)), (a, Frac::Rational(Sign::Plus, 1, 1))],
        a,
    );
}

/// An atom times its inverse is one, in either order.
pub proof fn lemma_atom_times_inverse(a: Term)
    requires
        is_atom(a),
    ensures
        term_mul(a, term_inv(a)) == Term::One,
        term_mul(term_inv(a), a) == Term::One,
{
    let one = Frac::Rational(Sign::Plus, 1, 1);
    let minus = Frac::Rational(Sign::Minus, 1, 1);
    let q = seq![(a, minus)];
    lemma_atom_inverse(a);
    lemma_cancel(a);
    let inverse = Term::Prod(q);
    assert(q[0] == (a, minus));
    assert(has_base(q, a));
    assert(factors(a) + factors(inverse) =~= seq![(a, one), (a, minus)]);
    assert(factors(inverse) + factors(a) =~= seq![(a, minus), (a, one)]);
}

/// The inverse of the square root of an atom: the atom to the power minus
/// one and the root itself, in their order.
pub proof fn lemma_root_inverse(x: Term)
    requires
        is_atom(x),
    ensures
        term_inv(Term::Fn(FnKind::Sqrt, Box::new(x))) == Term::Prod(
            sorted(
                seq![
                    (x, Frac::Rational(Sign::Minus, 1, 1)),
                    (Term::Fn(FnKind::Sqrt, Box::new(x)), Frac::Rational(Sign::Plus, 1, 1)),
                ],
                factor_before(),
            ),
        ),
{
    let one = Frac::Rational(Sign::Plus, 1, 1);
    let minus = Frac::Rational(Sign::Minus, 1, 1);
    let root = Term::Fn(FnKind::Sqrt, Box::new(x));
    let p = (root, minus);
    let h = (x, Frac::Rational(Sign::Minus, 1, 2));
    let w = (x, minus);
    let r = (root, one);
    let v = negated(factors(root));
    assert(v =~= seq![p]);
    lemma_half_arithmetic();
    assert(halved(p) == h);
    assert(expanded(p) == seq![h]);
    lemma_flat_small(p, p, expand_fn());
    lemma_collected_one(h, like_factors(), merge_factors());
    assert(factors_collected(v) == seq![h]);
    lemma_collected_one(h, like_numbers(), merge_numbers());
    assert(factors_merged(v) == seq![h]);
    assert(rooted(h) == seq![h]);
    lemma_flat_small(h, h, root_fn());
    assert(factors_rooted(v) == seq![h]);
    assert(resolved(h) == seq![w, r]);
    lemma_flat_small(h, h, resolve_fn());
    assert(factors_resolved(v) == seq![w, r]);
    lemma_canon_pair(v, w, r);
}

/// The canonical product of factors that resolve to two symbolic factors
/// with different bases and exponents other than zero is the product of
/// the two in their order.
proof fn lemma_canon_pair(v: Seq<(Term, Frac)>, w: (Term, Frac), r: (Term, Frac))
    requires
        factors_resolved(v) == seq![w, r],
        scalar(w) is None,
        scalar(r) is None,
        !(w.0 is Val),
        !(r.0 is Val),
        w.0 != r.0,
        !w.1.is_zero_spec(),
        !r.1.is_zero_spec(),
    ensures
        canon_prod(v) == Term::Prod(sorted(seq![w, r], factor_before())),
{
    let one = Frac::Rational(Sign::Plus, 1, 1);
    let t = seq![w, r];
    assert(parted(w) == seq![w] && parted(r) == seq![r]);
    lemma_flat_small(w, r, part_fn());
    assert(seq![w] + seq![r] =~= t);
    assert(factors_parted(v) == t);
    assert(coefficient(t) == one) by {
        reveal_with_fuel(coefficient, 3);
        assert(t.drop_last() =~= seq![w]);
        assert(seq![w].drop_last() =~= Seq::<(Term, Frac)>::empty());
    }
    assert forall|i: int| 0 <= i < t.len() implies symbolic()(#[trigger] t[i]) by {}
    lemma_kept_fixed(t, symbolic());
    lemma_collected_two(w, r, like_factors(), merge_factors());
    assert forall|i: int| 0 <= i < t.len() implies nonzero_factor()(#[trigger] t[i]) by {}
    lemma_kept_fixed(t, nonzero_factor());
    lemma_sorted_two(w, r, factor_before());
    let s = sorted(t, factor_before());
    assert(canon_factors(v) == s);
    assert(s.len() == 2);
    reveal(canon_prod);
}

/// The canonical product of three factors that are powers of one atom, with
/// exponents that add up to zero in their order, is one.
proof fn lemma_cancel_three(
    x: Term,
    a: (Term, Frac),
    b: (Term, Frac),
    c: (Term, Frac),
    e: Frac,
    f: Frac,
    g: Frac,
)
    requires
        is_atom(x),
        expanded(a) == seq![(x, e)],
        expanded(b) == seq![(x, f)],
        expanded(c) == seq![(x, g)],
        frac_sum(frac_sum(e, f), g) == Frac::Rational(Sign::Plus, 0, 1),
    ensures
        canon_prod(seq![a, b, c]) == Term::One,
{
    let v = seq![a, b, c];
    lemma_flat_small(a, b, expand_fn());
    lemma_flat_push(seq![a, b], c, expand_fn());
    assert(seq![a, b].push(c) =~= v);
    assert(seq![(x, e)] + seq![(x, f)] + seq![(x, g)] =~= seq![(x, e), (x, f), (x, g)]);
    assert(normalised(v) == seq![(x, e), (x, f), (x, g)]);
    lemma_collected_three((x, e), (x, f), (x, g), like_factors(), merge_factors());
    lemma_canon_single_zero(v, x);
}

/// The square root of an atom times its inverse is one, in either order.
pub proof fn lemma_root_times_inverse(x: Term)
    requires
        is_atom(x),
    ensures
        term_mul(
            Term::Fn(FnKind::Sqrt, Box::new(x)),
            term_inv(Term::Fn(FnKind::Sqrt, Box::new(x))),
        ) == Term::One,
        term_mul(
            term_inv(Term::Fn(FnKind::Sqrt, Box::new(x))),
            Term::Fn(FnKind::Sqrt, Box::new(x)),
        ) == Term::One,
{
    let one = Frac::Rational(Sign::Plus, 1, 1);
    let minus = Frac::Rational(Sign::Minus, 1, 1);
    let half = frac_half();
    let root = Term::Fn(FnKind::Sqrt, Box::new(x));
    let w = (x, minus);
    let r = (root, one);
    lemma_root_inverse(x);
    lemma_sorted_two(w, r, factor_before());
    let s = sorted(seq![w, r], factor_before());
    let inverse = Term::Prod(s);
    lemma_mul_as_factors(root, inverse);
    lemma_mul_as_factors(inverse, root);
    lemma_half_arithmetic();
    lemma_two_halves();
    lemma_frac_product_one(half);
    assert(halved(r) == (x, half));
    assert(expanded(r) == seq![(x, half)]);
    assert(expanded(w) == seq![w]);
    assert(factors(root) =~= seq![r]);
    if s == seq![w, r] {
        assert(factors(root) + factors(inverse) =~= seq![r, w, r]);
        assert(factors(inverse) + factors(root) =~= seq![w, r, r]);
        lemma_cancel_three(x, r, w, r, half, minus, half);
        lemma_cancel_three(x, w, r, r, minus, half, half);
    } else {
        assert(s == seq![r, w]);
        assert(factors(root) + factors(inverse) =~= seq![r, r, w]);
        assert(factors(inverse) + factors(root) =~= seq![r, w, r]);
        lemma_cancel_three(x, r, r, w, half, half, minus);
        lemma_cancel_three(x, r, w, r, half, minus, half);
    }
}

} // verus!
