//! The product of two monomials does not depend on their order.
//!
//! A monomial is a product of atoms, each atom once and to a power of its
//! own. Joined in either order, the factors of two monomials collect to the
//! same factors: a base that both have gets the sum of its two exponents,
//! which does not depend on the order of the two. Every later step works on
//! the factors one by one, and sorting settles the order.
use vstd::prelude::*;
use crate::frac::{Frac, Sign, lemma_frac_sum_wf, lemma_gcd_one};
use crate::term::{FnKind, Term, term_wf};
use crate::expr_field::Expr;
use crate::expr_field::structs::type_field::{
    Arena, lemma_stored_canonical, lemma_term_fn, lemma_term_prod, lemma_term_sum, lemma_term_wf,
    stored_prod_ok,
};
use crate::expr_field::ops::inv::is_atom;
use crate::expr_field::ops::mul::{factors, lemma_mul_as_factors, term_mul};
use crate::expr_field::simplify::{
    collected, is_collected, kept, lemma_collected_fixed, lemma_collected_keys, lemma_collected_map,
    lemma_kept_all, lemma_kept_collected, lemma_sorted_is_sorted, sorted,
};
use crate::expr_field::simplify::prod::{
    canon_factors, canon_prod, coefficient, expand_fn, expanded, factor_before, factor_wf,
    factors_collected, factors_merged, factors_parted, factors_resolved, factors_rooted, flat,
    halved, is_plain, lemma_factor_order_decides, lemma_factor_order_strict, lemma_flat_fixed,
    lemma_flat_members, lemma_parted_fixed, like_factors, merge_factors, nonzero_factor, normalised,
    pvec_simplified, resolve_fn, resolved, scalar, symbolic,
};
use crate::expr_field::simplify::root::{like_numbers, merge_numbers, root_fn, rooted};
use crate::expr_field::simplify::sum::{like_terms, merge_terms, terms_collected};
use crate::expr_field::simplify::sum_laws::lemma_collected_commutes;
use crate::expr_field::simplify::unique::{
    decides, lemma_kept_exactly, lemma_sorted_members, lemma_sorted_no_repeats, lemma_sorted_unique,
    same_members,
};

verus! {

/// A factor in lowest terms whose base is an atom.
pub open spec fn atom_factor() -> spec_fn((Term, Frac)) -> bool {
    |p: (Term, Frac)| is_atom(p.0) && term_wf(p.0) && p.1.wf()
}

/// Every factor is an atom to a power.
pub open spec fn all_atoms(v: Seq<(Term, Frac)>) -> bool {
    forall|i: int| 0 <= i < v.len() ==> atom_factor()(#[trigger] v[i])
}

/// The factors of a monomial: atoms to powers, no atom twice.
pub open spec fn atom_factors(v: Seq<(Term, Frac)>) -> bool {
    all_atoms(v) && is_collected(v, like_factors())
}

/// A factor as the entry of a sum: the exponent in the place of the
/// coefficient.
pub open spec fn turned() -> spec_fn((Term, Frac)) -> (Frac, Term) {
    |p: (Term, Frac)| (p.1, p.0)
}

/// Like factors collect as like terms do.
proof fn lemma_collected_turned(v: Seq<(Term, Frac)>)
    ensures
        collected(v, like_factors(), merge_factors()).map_values(turned()) == terms_collected(
            v.map_values(turned()),
        ),
{
    let any = |p: (Term, Frac)| true;
    lemma_collected_map(
        v,
        turned(),
        any,
        like_factors(),
        merge_factors(),
        like_terms(),
        merge_terms(),
    );
}

/// Joined in either order and collected, the factors of two monomials are
/// the same factors, atoms to powers with no atom twice.
pub proof fn lemma_collected_factors_commute(x: Seq<(Term, Frac)>, y: Seq<(Term, Frac)>)
    requires
        atom_factors(x),
        atom_factors(y),
    ensures
        same_members(
            collected(x + y, like_factors(), merge_factors()),
            collected(y + x, like_factors(), merge_factors()),
        ),
        atom_factors(collected(x + y, like_factors(), merge_factors())),
        atom_factors(collected(y + x, like_factors(), merge_factors())),
{
    let f = turned();
    let sx = x.map_values(f);
    let sy = y.map_values(f);
    assert forall|i: int| 0 <= i < sx.len() implies (#[trigger] sx[i]).0.wf() && term_wf(
        sx[i].1,
    ) by {
        assert(atom_factor()(x[i]));
    }
    assert forall|i: int| 0 <= i < sy.len() implies (#[trigger] sy[i]).0.wf() && term_wf(
        sy[i].1,
    ) by {
        assert(atom_factor()(y[i]));
    }
    assert forall|i: int, j: int| 0 <= i < j < sx.len() implies !like_terms()(
        #[trigger] sx[i],
        #[trigger] sx[j],
    ) by {
        assert(!like_factors()(x[i], x[j]));
    }
    assert forall|i: int, j: int| 0 <= i < j < sy.len() implies !like_terms()(
        #[trigger] sy[i],
        #[trigger] sy[j],
    ) by {
        assert(!like_factors()(y[i], y[j]));
    }
    lemma_collected_commutes(sx, sy);
    let u = x + y;
    let w = y + x;
    let cu = collected(u, like_factors(), merge_factors());
    let cw = collected(w, like_factors(), merge_factors());
    lemma_collected_turned(u);
    lemma_collected_turned(w);
    assert(u.map_values(f) =~= sx + sy);
    assert(w.map_values(f) =~= sy + sx);
    let tu = terms_collected(sx + sy);
    let tw = terms_collected(sy + sx);
    assert(cu.map_values(f) == tu);
    assert(cw.map_values(f) == tw);
    assert forall|e: (Term, Frac)| #[trigger] cu.contains(e) <==> cw.contains(e) by {
        if cu.contains(e) {
            let i = choose|i: int| 0 <= i < cu.len() && cu[i] == e;
            assert(tu[i] == f(e));
            assert(tu.contains(f(e)));
            assert(tw.contains(f(e)));
            let j = choose|j: int| 0 <= j < tw.len() && tw[j] == f(e);
            assert(tw[j] == f(cw[j]));
            assert(cw[j] == e);
        }
        if cw.contains(e) {
            let i = choose|i: int| 0 <= i < cw.len() && cw[i] == e;
            assert(tw[i] == f(e));
            assert(tw.contains(f(e)));
            assert(tu.contains(f(e)));
            let j = choose|j: int| 0 <= j < tu.len() && tu[j] == f(e);
            assert(tu[j] == f(cu[j]));
            assert(cu[j] == e);
        }
    }
    let key = |p: (Term, Frac)| p.0;
    assert forall|a: (Term, Frac), b: (Term, Frac)| atom_factor()(a) && atom_factor()(b) implies key(
        #[trigger] merge_factors()(a, b),
    ) == key(a) && atom_factor()(merge_factors()(a, b)) by {
        lemma_frac_sum_wf(a.1, b.1);
    }
    assert forall|a: (Term, Frac), b: (Term, Frac)| #[trigger] like_factors()(a, b) == (key(a)
        == key(b)) by {}
    assert forall|i: int| 0 <= i < u.len() implies atom_factor()(#[trigger] u[i]) by {
        if i < x.len() {
            assert(atom_factor()(x[i]));
        } else {
            assert(atom_factor()(y[i - x.len()]));
        }
    }
    assert forall|i: int| 0 <= i < w.len() implies atom_factor()(#[trigger] w[i]) by {
        if i < y.len() {
            assert(atom_factor()(y[i]));
        } else {
            assert(atom_factor()(x[i - y.len()]));
        }
    }
    lemma_collected_keys(u, like_factors(), merge_factors(), key, atom_factor());
    lemma_collected_keys(w, like_factors(), merge_factors(), key, atom_factor());
}

/// Atoms to powers pass the first steps of the simplification unchanged:
/// there is nothing to flatten, no number to merge and no root to take.
pub proof fn lemma_atoms_pass(v: Seq<(Term, Frac)>)
    requires
        all_atoms(v),
    ensures
        normalised(v) == v,
        collected(v, like_numbers(), merge_numbers()) == v,
        flat(v, root_fn()) == v,
{
    assert forall|i: int| 0 <= i < v.len() implies expand_fn()(#[trigger] v[i]) == seq![v[i]] by {
        assert(atom_factor()(v[i]));
        assert(halved(v[i]) == v[i]);
        assert(expanded(v[i]) == seq![v[i]]);
    }
    lemma_flat_fixed(v, expand_fn());
    assert forall|i: int, j: int| 0 <= i < j < v.len() implies !like_numbers()(
        #[trigger] v[i],
        #[trigger] v[j],
    ) by {
        assert(atom_factor()(v[i]));
    }
    lemma_collected_fixed(v, like_numbers(), merge_numbers());
    assert forall|i: int| 0 <= i < v.len() implies root_fn()(#[trigger] v[i]) == seq![v[i]] by {
        assert(atom_factor()(v[i]));
        assert(rooted(v[i]) == seq![v[i]]);
    }
    lemma_flat_fixed(v, root_fn());
}

/// The resolved factors of atoms to powers are the collected factors, each
/// with its halves split off.
pub proof fn lemma_atoms_resolved(v: Seq<(Term, Frac)>)
    requires
        all_atoms(v),
    ensures
        factors_resolved(v) == flat(
            collected(v, like_factors(), merge_factors()),
            resolve_fn(),
        ),
        all_atoms(collected(v, like_factors(), merge_factors())),
{
    lemma_atoms_pass(v);
    let c = collected(v, like_factors(), merge_factors());
    let key = |p: (Term, Frac)| p.0;
    assert forall|a: (Term, Frac), b: (Term, Frac)| atom_factor()(a) && atom_factor()(b) implies key(
        #[trigger] merge_factors()(a, b),
    ) == key(a) && atom_factor()(merge_factors()(a, b)) by {
        lemma_frac_sum_wf(a.1, b.1);
    }
    assert forall|a: (Term, Frac), b: (Term, Frac)| #[trigger] like_factors()(a, b) == (key(a)
        == key(b)) by {}
    lemma_collected_keys(v, like_factors(), merge_factors(), key, atom_factor());
    assert(factors_collected(v) == c);
    lemma_atoms_pass(c);
    assert(factors_merged(v) == c);
    assert(factors_rooted(v) == c);
}

/// Sequences with the same entries have the same entries once each entry is
/// replaced.
pub proof fn lemma_flat_same_members<T, U>(a: Seq<T>, b: Seq<T>, each: spec_fn(T) -> Seq<U>)
    requires
        same_members(a, b),
    ensures
        same_members(flat(a, each), flat(b, each)),
{
    lemma_flat_members(a, each);
    lemma_flat_members(b, each);
    assert forall|e: U| #[trigger] flat(a, each).contains(e) <==> flat(b, each).contains(e) by {
        if flat(a, each).contains(e) {
            let i = choose|i: int| 0 <= i < a.len() && (#[trigger] each(a[i])).contains(e);
            assert(a.contains(a[i]));
            assert(b.contains(a[i]));
            let j = choose|j: int| 0 <= j < b.len() && b[j] == a[i];
            assert(each(b[j]).contains(e));
        }
        if flat(b, each).contains(e) {
            let i = choose|i: int| 0 <= i < b.len() && (#[trigger] each(b[i])).contains(e);
            assert(b.contains(b[i]));
            assert(a.contains(b[i]));
            let j = choose|j: int| 0 <= j < a.len() && a[j] == b[i];
            assert(each(a[j]).contains(e));
        }
    }
}

/// The atom that a resolved factor came from: the argument of a square
/// root, or the base itself.
pub open spec fn origin(e: (Term, Frac)) -> Term {
    match e.0 {
        Term::Fn(FnKind::Sqrt, x) => *x,
        _ => e.0,
    }
}

/// What holds of the resolved factors of atoms: each is in lowest terms and
/// is a number only as not-a-number.
pub open spec fn resolved_ok() -> spec_fn((Term, Frac)) -> bool {
    |e: (Term, Frac)| factor_wf()(e) && (scalar(e) is None || scalar(e) == Some(Frac::NaN))
}

/// An atom to a power resolves to one or two factors that come from that
/// atom, with different bases, in lowest terms. They are numbers, and then
/// not-a-number, exactly when the power is no finite rational.
proof fn lemma_resolved_atom(p: (Term, Frac))
    requires
        atom_factor()(p),
    ensures
        1 <= resolved(p).len() <= 2,
        is_collected(resolved(p), like_factors()),
        forall|k: int|
            0 <= k < resolved(p).len() ==> origin(#[trigger] resolved(p)[k]) == p.0
                && resolved_ok()(resolved(p)[k]) && (scalar(resolved(p)[k]) is Some <==> p.1
                is NaN) && !(resolved(p)[k].0 is Val),
{
    match p.1 {
        Frac::Rational(s, n, d) => {
            if d == 2 {
                let k: int = if s == Sign::Plus {
                    n as int / 2
                } else {
                    n as int / 2 + 1
                };
                let root = (Term::Fn(FnKind::Sqrt, Box::new(p.0)), Frac::Rational(Sign::Plus, 1, 1));
                lemma_gcd_one(1);
                assert(origin(root) == p.0);
                assert(resolved_ok()(root));
                if k != 0 {
                    let whole = (p.0, Frac::Rational(s, k as u32, 1));
                    lemma_gcd_one(k as u32 as nat);
                    assert(resolved(p) == seq![whole, root]);
                    assert(resolved_ok()(whole));
                    assert(whole.0 != root.0);
                } else {
                    assert(resolved(p) == seq![root]);
                }
            } else {
                assert(resolved(p) == seq![p]);
            }
        },
        _ => {
            assert(resolved(p) == seq![p]);
        },
    }
}

/// The resolved factors of a monomial: no base twice, every factor in
/// lowest terms and a number only as not-a-number.
pub proof fn lemma_resolved_collected(c: Seq<(Term, Frac)>)
    requires
        atom_factors(c),
    ensures
        is_collected(flat(c, resolve_fn()), like_factors()),
        forall|k: int|
            0 <= k < flat(c, resolve_fn()).len() ==> resolved_ok()(
                #[trigger] flat(c, resolve_fn())[k],
            ) && !(flat(c, resolve_fn())[k].0 is Val),
    decreases c.len(),
{
    if c.len() > 0 {
        let rest = c.drop_last();
        let last = c.last();
        assert forall|i: int| 0 <= i < rest.len() implies atom_factor()(#[trigger] rest[i]) by {
            assert(atom_factor()(c[i]));
        }
        assert forall|i: int, j: int| 0 <= i < j < rest.len() implies !like_factors()(
            #[trigger] rest[i],
            #[trigger] rest[j],
        ) by {
            assert(!like_factors()(c[i], c[j]));
        }
        lemma_resolved_collected(rest);
        assert(atom_factor()(c[c.len() - 1]));
        lemma_resolved_atom(last);
        lemma_flat_members(rest, resolve_fn());
        let r = flat(rest, resolve_fn());
        let t = resolved(last);
        let all = flat(c, resolve_fn());
        assert(all == r + t);
        assert forall|k: int| 0 <= k < r.len() implies origin(#[trigger] r[k]) != last.0 by {
            assert(r.contains(r[k]));
            let i = choose|i: int|
                0 <= i < rest.len() && (#[trigger] resolve_fn()(rest[i])).contains(r[k]);
            let m = choose|m: int| 0 <= m < resolved(rest[i]).len() && resolved(rest[i])[m] == r[k];
            lemma_resolved_atom(rest[i]);
            assert(origin(resolved(rest[i])[m]) == rest[i].0);
            assert(!like_factors()(c[i], c[c.len() - 1]));
        }
        assert forall|i: int, j: int| 0 <= i < j < all.len() implies !like_factors()(
            #[trigger] all[i],
            #[trigger] all[j],
        ) by {
            if j < r.len() {
                assert(!like_factors()(r[i], r[j]));
            } else if i < r.len() {
                assert(origin(r[i]) != last.0);
                assert(origin(t[j - r.len()]) == last.0);
            } else {
                assert(!like_factors()(t[i - r.len()], t[j - r.len()]));
            }
        }
        assert forall|k: int| 0 <= k < all.len() implies resolved_ok()(#[trigger] all[k]) && !(
        all[k].0 is Val) by {
            if k < r.len() {
                assert(resolved_ok()(r[k]));
            } else {
                assert(resolved_ok()(t[k - r.len()]));
            }
        }
    }
}

/// One of the factors is a number.
pub open spec fn has_number(v: Seq<(Term, Frac)>) -> bool {
    exists|i: int| 0 <= i < v.len() && scalar(#[trigger] v[i]) is Some
}

/// The coefficient of factors that are numbers only as not-a-number: one
/// where none is a number, else not-a-number.
pub proof fn lemma_coefficient_lost(v: Seq<(Term, Frac)>)
    requires
        forall|i: int| 0 <= i < v.len() ==> resolved_ok()(#[trigger] v[i]),
    ensures
        coefficient(v) == if has_number(v) {
            Frac::NaN
        } else {
            Frac::Rational(Sign::Plus, 1, 1)
        },
    decreases v.len(),
{
    if v.len() > 0 {
        let rest = v.drop_last();
        assert forall|i: int| 0 <= i < rest.len() implies resolved_ok()(#[trigger] rest[i]) by {
            assert(resolved_ok()(v[i]));
        }
        lemma_coefficient_lost(rest);
        assert(resolved_ok()(v[v.len() - 1]));
        if has_number(rest) {
            let i = choose|i: int| 0 <= i < rest.len() && scalar(#[trigger] rest[i]) is Some;
            assert(scalar(v[i]) is Some);
        }
        if has_number(v) && !has_number(rest) {
            let i = choose|i: int| 0 <= i < v.len() && scalar(#[trigger] v[i]) is Some;
            if i < rest.len() {
                assert(scalar(rest[i]) is Some);
            }
        }
    }
}

/// Two vectors with the same factors, no base twice, have the same
/// simplified form.
pub proof fn lemma_simplified_by_members(a: Seq<(Term, Frac)>, b: Seq<(Term, Frac)>)
    requires
        same_members(a, b),
        is_collected(a, like_factors()),
        is_collected(b, like_factors()),
        forall|i: int| 0 <= i < a.len() ==> factor_wf()(#[trigger] a[i]),
        forall|i: int| 0 <= i < b.len() ==> factor_wf()(#[trigger] b[i]),
    ensures
        pvec_simplified(a) == pvec_simplified(b),
{
    lemma_collected_fixed(a, like_factors(), merge_factors());
    lemma_collected_fixed(b, like_factors(), merge_factors());
    assert forall|i: int, j: int| 0 <= i < j < a.len() implies #[trigger] a[i]
        != #[trigger] a[j] by {
        assert(!like_factors()(a[i], a[j]));
    }
    assert forall|i: int, j: int| 0 <= i < j < b.len() implies #[trigger] b[i]
        != #[trigger] b[j] by {
        assert(!like_factors()(b[i], b[j]));
    }
    let ka = kept(a, nonzero_factor());
    let kb = kept(b, nonzero_factor());
    lemma_kept_exactly(a, nonzero_factor());
    lemma_kept_exactly(b, nonzero_factor());
    lemma_kept_all(a, nonzero_factor(), factor_wf());
    lemma_kept_all(b, nonzero_factor(), factor_wf());
    let sa = sorted(ka, factor_before());
    let sb = sorted(kb, factor_before());
    lemma_sorted_members(ka, factor_before());
    lemma_sorted_members(kb, factor_before());
    lemma_sorted_no_repeats(ka, factor_before());
    lemma_sorted_no_repeats(kb, factor_before());
    lemma_factor_order_strict();
    lemma_factor_order_decides();
    lemma_sorted_is_sorted(ka, factor_before(), factor_wf());
    lemma_sorted_is_sorted(kb, factor_before(), factor_wf());
    assert forall|e: (Term, Frac)| #[trigger] sa.contains(e) <==> sb.contains(e) by {
        assert(sa.contains(e) <==> ka.contains(e));
        assert(sb.contains(e) <==> kb.contains(e));
        assert(a.contains(e) <==> b.contains(e));
    }
    assert(decides(factor_before(), factor_wf()));
    lemma_sorted_unique(sa, sb, factor_before(), factor_wf());
}

/// The canonical product of the factors of two monomials joined does not
/// depend on the order in which they are joined.
pub proof fn lemma_canon_prod_commutes(x: Seq<(Term, Frac)>, y: Seq<(Term, Frac)>)
    requires
        atom_factors(x),
        atom_factors(y),
    ensures
        canon_prod(x + y) == canon_prod(y + x),
{
    let u = x + y;
    let w = y + x;
    assert forall|i: int| 0 <= i < u.len() implies atom_factor()(#[trigger] u[i]) by {
        if i < x.len() {
            assert(atom_factor()(x[i]));
        } else {
            assert(atom_factor()(y[i - x.len()]));
        }
    }
    assert forall|i: int| 0 <= i < w.len() implies atom_factor()(#[trigger] w[i]) by {
        if i < y.len() {
            assert(atom_factor()(y[i]));
        } else {
            assert(atom_factor()(x[i - y.len()]));
        }
    }
    lemma_collected_factors_commute(x, y);
    lemma_atoms_resolved(u);
    lemma_atoms_resolved(w);
    let cu = collected(u, like_factors(), merge_factors());
    let cw = collected(w, like_factors(), merge_factors());
    let ru = flat(cu, resolve_fn());
    let rw = flat(cw, resolve_fn());
    assert(factors_resolved(u) == ru);
    assert(factors_resolved(w) == rw);
    lemma_flat_same_members(cu, cw, resolve_fn());
    lemma_resolved_collected(cu);
    lemma_resolved_collected(cw);
    lemma_parted_fixed(ru);
    lemma_parted_fixed(rw);
    assert(factors_parted(u) == ru);
    assert(factors_parted(w) == rw);
    lemma_coefficient_lost(ru);
    lemma_coefficient_lost(rw);
    assert(has_number(ru) == has_number(rw)) by {
        if has_number(ru) {
            let i = choose|i: int| 0 <= i < ru.len() && scalar(#[trigger] ru[i]) is Some;
            assert(ru.contains(ru[i]));
            assert(rw.contains(ru[i]));
            let j = choose|j: int| 0 <= j < rw.len() && rw[j] == ru[i];
            assert(scalar(rw[j]) is Some);
        }
        if has_number(rw) {
            let i = choose|i: int| 0 <= i < rw.len() && scalar(#[trigger] rw[i]) is Some;
            assert(rw.contains(rw[i]));
            assert(ru.contains(rw[i]));
            let j = choose|j: int| 0 <= j < ru.len() && ru[j] == rw[i];
            assert(scalar(ru[j]) is Some);
        }
    }
    let ku = kept(ru, symbolic());
    let kw = kept(rw, symbolic());
    lemma_kept_exactly(ru, symbolic());
    lemma_kept_exactly(rw, symbolic());
    lemma_kept_collected(ru, symbolic(), like_factors());
    lemma_kept_collected(rw, symbolic(), like_factors());
    lemma_kept_all(ru, symbolic(), resolved_ok());
    lemma_kept_all(rw, symbolic(), resolved_ok());
    assert forall|e: (Term, Frac)| #[trigger] ku.contains(e) <==> kw.contains(e) by {
        assert(ru.contains(e) <==> rw.contains(e));
    }
    assert forall|i: int| 0 <= i < ku.len() implies factor_wf()(#[trigger] ku[i]) by {
        assert(resolved_ok()(ku[i]));
    }
    assert forall|i: int| 0 <= i < kw.len() implies factor_wf()(#[trigger] kw[i]) by {
        assert(resolved_ok()(kw[i]));
    }
    lemma_simplified_by_members(ku, kw);
    assert(canon_factors(u) == canon_factors(w));
    reveal(canon_prod);
}

/// A monomial: a constant, a function other than the square root, or a
/// product of atoms to powers that holds no atom twice; in lowest terms.
pub open spec fn is_monomial(t: Term) -> bool {
    term_wf(t) && match t {
        Term::Prod(v) => atom_factors(v),
        _ => is_plain(t),
    }
}

/// The product of two monomials does not depend on their order.
pub proof fn lemma_mul_monomials_commutative(a: Term, b: Term)
    requires
        is_monomial(a),
        is_monomial(b),
    ensures
        term_mul(a, b) == term_mul(b, a),
{
    lemma_mul_as_factors(a, b);
    lemma_mul_as_factors(b, a);
    lemma_monomial_factors(a);
    lemma_monomial_factors(b);
    lemma_canon_prod_commutes(factors(a), factors(b));
}

/// The factors of a monomial are atoms to powers, no atom twice.
pub proof fn lemma_monomial_factors(t: Term)
    requires
        is_monomial(t),
    ensures
        atom_factors(factors(t)),
{
    match t {
        Term::Prod(v) => {},
        _ => {
            lemma_gcd_one(1);
            let one = Frac::Rational(Sign::Plus, 1, 1);
            assert(factors(t) == seq![(t, one)]);
            assert(atom_factor()((t, one)));
        },
    }
}

/// Every base of the term, where it is a product, is an atom; where it is
/// no product, the term is a constant or a function other than the square
/// root.
pub open spec fn atom_bases(t: Term) -> bool {
    match t {
        Term::Prod(v) => forall|i: int| 0 <= i < v.len() ==> is_atom((#[trigger] v[i]).0),
        _ => is_plain(t),
    }
}

/// An expression of a well-formed arena whose bases are atoms is a
/// monomial.
pub proof fn lemma_arena_monomial(f: Arena, e: Expr)
    requires
        f.wf(),
        f.owns(e),
        atom_bases(f.term(e)),
    ensures
        is_monomial(f.term(e)),
{
    lemma_term_wf(f, e);
    match e {
        Expr::Prod(r) => {
            lemma_term_prod(f, r);
            lemma_stored_canonical(f);
            let v = f.pvec(f.prods[r.index as int]);
            assert(stored_prod_ok(v));
            let t = f.term(e);
            assert(t == Term::Prod(v));
            assert(t->Prod_0 == v);
            assert(term_wf(t));
            assert forall|i: int| 0 <= i < v.len() implies atom_factor()(#[trigger] v[i]) by {
                assert(is_atom(v[i].0));
                assert(v[i].1.wf() && term_wf(v[i].0));
            }
        },
        Expr::Sum(r) => {
            lemma_term_sum(f, r);
        },
        Expr::Fn(r) => {
            lemma_term_fn(f, r);
        },
        _ => {},
    }
}

/// The product of two monomials does not depend on their order, whichever
/// arena holds each of them.
pub proof fn lemma_mul_commutes_across(f: Arena, a: Expr, g: Arena, b: Expr)
    requires
        f.wf(),
        f.owns(a),
        atom_bases(f.term(a)),
        g.wf(),
        g.owns(b),
        atom_bases(g.term(b)),
    ensures
        term_mul(f.term(a), g.term(b)) == term_mul(g.term(b), f.term(a)),
{
    lemma_arena_monomial(f, a);
    lemma_arena_monomial(g, b);
    lemma_mul_monomials_commutative(f.term(a), g.term(b));
}

} // verus!
