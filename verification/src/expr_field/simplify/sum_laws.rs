//! What the simplification of sums does not depend on.
//!
//! The canonical form of two vectors joined is the same in either order,
//! where none of the two holds a term twice: a term that both hold gets the
//! sum of its two coefficients, and sorting settles the order.
use vstd::prelude::*;
use crate::frac::{
    Frac, Order, frac_order, frac_sum, lemma_frac_order_equal, lemma_frac_order_flip,
    lemma_frac_product_wf, lemma_frac_sum_commutative, lemma_frac_sum_wf,
};
use crate::term::{Term, lemma_term_order_equal, lemma_term_order_flip, term_order, term_wf};
use crate::expr_field::simplify::{
    absorb, collected, is_collected, kept, lemma_collected_keys, lemma_kept_all,
    lemma_kept_collected, lemma_sorted_is_sorted, lemma_sorted_keeps, sorted,
};
use crate::expr_field::simplify::sum::{
    canon_sum, entry_before, entry_wf, folded, folded_entry, is_canonical_sum,
    lemma_canon_sum_idempotent, lemma_entry_order_strict, like_terms, merge_terms, nonzero_term,
    svec_simplified, terms_collected,
};
use crate::expr_field::simplify::unique::{
    decides, lemma_kept_exactly, lemma_sorted_members, lemma_sorted_no_repeats,
    lemma_sorted_unique, no_repeats, same_members,
};

verus! {

/// The coefficient that the term `t` has once the entries of `v` are
/// collected: the coefficients of the entries with that term, added up in
/// their order; none if no entry has the term.
pub open spec fn coeff_of(v: Seq<(Frac, Term)>, t: Term) -> Option<Frac>
    decreases v.len(),
{
    if v.len() == 0 {
        None
    } else {
        let prev = coeff_of(v.drop_last(), t);
        if v.last().1 == t {
            match prev {
                Some(c) => Some(frac_sum(c, v.last().0)),
                None => Some(v.last().0),
            }
        } else {
            prev
        }
    }
}

/// Two coefficients of one term put together: their sum, or the one that is
/// there.
pub open spec fn joined(c: Option<Frac>, d: Option<Frac>) -> Option<Frac> {
    match (c, d) {
        (Some(x), Some(y)) => Some(frac_sum(x, y)),
        (Some(x), None) => Some(x),
        (None, _) => d,
    }
}

/// Every coefficient is in lowest terms and so is every term.
pub open spec fn all_wf(v: Seq<(Frac, Term)>) -> bool {
    forall|i: int| 0 <= i < v.len() ==> (#[trigger] v[i]).0.wf() && term_wf(v[i].1)
}

/// What absorbing does to a vector without like entries: the entry with the
/// term of `x`, if there is one, gets the coefficient of `x` added, and
/// else `x` is appended.
proof fn lemma_absorb_form(acc: Seq<(Frac, Term)>, x: (Frac, Term), from: int)
    requires
        is_collected(acc, like_terms()),
        0 <= from <= acc.len(),
        forall|k: int| 0 <= k < from ==> (#[trigger] acc[k]).1 != x.1,
    ensures
        ({
            let r = absorb(acc, x, like_terms(), merge_terms(), from);
            &&& acc.len() <= r.len() <= acc.len() + 1
            &&& forall|k: int|
                0 <= k < acc.len() ==> #[trigger] r[k] == (if acc[k].1 == x.1 {
                    (frac_sum(acc[k].0, x.0), x.1)
                } else {
                    acc[k]
                })
            &&& (r.len() == acc.len() + 1) <==> (forall|k: int|
                0 <= k < acc.len() ==> (#[trigger] acc[k]).1 != x.1)
            &&& r.len() == acc.len() + 1 ==> r[acc.len() as int] == x
        }),
    decreases acc.len() - from,
{
    let r = absorb(acc, x, like_terms(), merge_terms(), from);
    if from >= acc.len() {
        assert(r == acc.push(x));
        assert forall|k: int| 0 <= k < acc.len() implies #[trigger] r[k] == (if acc[k].1 == x.1 {
            (frac_sum(acc[k].0, x.0), x.1)
        } else {
            acc[k]
        }) by {
            assert(acc[k].1 != x.1);
        }
    } else if like_terms()(acc[from], x) {
        let merged = merge_terms()(acc[from], x);
        assert(r == acc.update(from, merged));
        assert(acc[from].1 == x.1);
        assert(merged == (frac_sum(acc[from].0, x.0), x.1));
        assert forall|k: int| 0 <= k < acc.len() implies #[trigger] r[k] == (if acc[k].1 == x.1 {
            (frac_sum(acc[k].0, x.0), x.1)
        } else {
            acc[k]
        }) by {
            if k < from {
                assert(acc[k].1 != x.1);
                assert(acc.update(from, merged)[k] == acc[k]);
            } else if k > from {
                assert(!like_terms()(acc[from], acc[k]));
                assert(acc[from].1 != acc[k].1);
                assert(acc.update(from, merged)[k] == acc[k]);
            } else {
                assert(acc.update(from, merged)[from] == merged);
            }
        }
    } else {
        assert(acc[from].1 != x.1);
        assert forall|k: int| 0 <= k < from + 1 implies (#[trigger] acc[k]).1 != x.1 by {
            if k < from {
                assert(acc[k].1 != x.1);
            }
        }
        lemma_absorb_form(acc, x, from + 1);
    }
}

/// No entry has the term: the term has no coefficient.
proof fn lemma_coeff_none(v: Seq<(Frac, Term)>, t: Term)
    requires
        forall|i: int| 0 <= i < v.len() ==> (#[trigger] v[i]).1 != t,
    ensures
        coeff_of(v, t) is None,
    decreases v.len(),
{
    if v.len() > 0 {
        let rest = v.drop_last();
        assert forall|i: int| 0 <= i < rest.len() implies (#[trigger] rest[i]).1 != t by {
            assert(v[i].1 != t);
        }
        lemma_coeff_none(rest, t);
        assert(v[v.len() - 1].1 != t);
    }
}

/// In a vector without like entries the coefficient of a term is that of
/// its one entry.
proof fn lemma_coeff_single(v: Seq<(Frac, Term)>, i: int)
    requires
        is_collected(v, like_terms()),
        0 <= i < v.len(),
    ensures
        coeff_of(v, v[i].1) == Some(v[i].0),
    decreases v.len(),
{
    let rest = v.drop_last();
    let t = v[i].1;
    assert forall|p: int, q: int| 0 <= p < q < rest.len() implies !like_terms()(
        #[trigger] rest[p],
        #[trigger] rest[q],
    ) by {
        assert(!like_terms()(v[p], v[q]));
    }
    if i == v.len() - 1 {
        assert forall|k: int| 0 <= k < rest.len() implies (#[trigger] rest[k]).1 != t by {
            assert(!like_terms()(v[k], v[i]));
        }
        lemma_coeff_none(rest, t);
    } else {
        assert(!like_terms()(v[i], v[v.len() - 1]));
        assert(rest[i] == v[i]);
        lemma_coeff_single(rest, i);
    }
}

/// The collected entries: no two are alike, each carries the coefficient of
/// its term, and every term that has a coefficient is there.
pub proof fn lemma_collected_coeffs(v: Seq<(Frac, Term)>)
    ensures
        is_collected(terms_collected(v), like_terms()),
        forall|i: int|
            0 <= i < terms_collected(v).len() ==> coeff_of(
                v,
                (#[trigger] terms_collected(v)[i]).1,
            ) == Some(terms_collected(v)[i].0),
        forall|t: Term|
            (#[trigger] coeff_of(v, t)) is Some ==> exists|i: int|
                0 <= i < terms_collected(v).len() && (#[trigger] terms_collected(v)[i]).1 == t,
    decreases v.len(),
{
    if v.len() > 0 {
        let rest = v.drop_last();
        let x = v.last();
        lemma_collected_coeffs(rest);
        let acc = terms_collected(rest);
        let r = terms_collected(v);
        lemma_absorb_form(acc, x, 0);
        assert(r == absorb(acc, x, like_terms(), merge_terms(), 0));
        assert forall|i: int, j: int| 0 <= i < j < r.len() implies !like_terms()(
            #[trigger] r[i],
            #[trigger] r[j],
        ) by {
            if j < acc.len() {
                assert(!like_terms()(acc[i], acc[j]));
            } else {
                assert(acc[i].1 != x.1);
            }
        }
        assert forall|i: int| 0 <= i < r.len() implies coeff_of(v, (#[trigger] r[i]).1) == Some(
            r[i].0,
        ) by {
            if i < acc.len() {
                assert(coeff_of(rest, acc[i].1) == Some(acc[i].0));
            } else {
                assert forall|k: int| 0 <= k < acc.len() implies (#[trigger] acc[k]).1
                    != x.1 by {}
                if coeff_of(rest, x.1) is Some {
                    let k = choose|k: int| 0 <= k < acc.len() && (#[trigger] acc[k]).1 == x.1;
                    assert(false);
                }
            }
        }
        assert forall|t: Term| (#[trigger] coeff_of(v, t)) is Some implies exists|i: int|
            0 <= i < r.len() && (#[trigger] r[i]).1 == t by {
            if coeff_of(rest, t) is Some {
                let k = choose|k: int| 0 <= k < acc.len() && (#[trigger] acc[k]).1 == t;
                assert(r[k].1 == t);
            } else {
                assert(x.1 == t);
                if r.len() == acc.len() + 1 {
                    assert(r[acc.len() as int].1 == t);
                } else {
                    let k = choose|k: int| 0 <= k < acc.len() && (#[trigger] acc[k]).1 == x.1;
                    assert(r[k].1 == t);
                }
            }
        }
    }
}

/// The collected entries are exactly the terms with their coefficients.
pub proof fn lemma_collected_members(v: Seq<(Frac, Term)>)
    ensures
        forall|c: Frac, t: Term|
            #[trigger] terms_collected(v).contains((c, t)) <==> coeff_of(v, t) == Some(c),
        no_repeats(terms_collected(v)),
{
    lemma_collected_coeffs(v);
    let r = terms_collected(v);
    assert forall|c: Frac, t: Term| #[trigger] r.contains((c, t)) <==> coeff_of(v, t) == Some(
        c,
    ) by {
        if r.contains((c, t)) {
            let i = choose|i: int| 0 <= i < r.len() && r[i] == (c, t);
            assert(coeff_of(v, r[i].1) == Some(r[i].0));
        }
        if coeff_of(v, t) == Some(c) {
            let i = choose|i: int| 0 <= i < r.len() && (#[trigger] r[i]).1 == t;
            assert(coeff_of(v, r[i].1) == Some(r[i].0));
            assert(r[i] == (c, t));
        }
    }
    assert forall|i: int, j: int| 0 <= i < j < r.len() implies #[trigger] r[i]
        != #[trigger] r[j] by {
        assert(!like_terms()(r[i], r[j]));
    }
}

/// The coefficient of a term in two vectors joined, of which the second
/// holds no term twice, is its coefficients in the two put together.
proof fn lemma_coeff_joined(x: Seq<(Frac, Term)>, y: Seq<(Frac, Term)>, t: Term)
    requires
        is_collected(y, like_terms()),
    ensures
        coeff_of(x + y, t) == joined(coeff_of(x, t), coeff_of(y, t)),
    decreases y.len(),
{
    if y.len() == 0 {
        assert(x + y =~= x);
    } else {
        let rest = y.drop_last();
        let last = y.last();
        assert((x + y).drop_last() =~= x + rest);
        assert((x + y).last() == last);
        assert forall|p: int, q: int| 0 <= p < q < rest.len() implies !like_terms()(
            #[trigger] rest[p],
            #[trigger] rest[q],
        ) by {
            assert(!like_terms()(y[p], y[q]));
        }
        lemma_coeff_joined(x, rest, t);
        if last.1 == t {
            assert forall|k: int| 0 <= k < rest.len() implies (#[trigger] rest[k]).1 != t by {
                assert(!like_terms()(y[k], y[y.len() - 1]));
            }
            lemma_coeff_none(rest, t);
        }
    }
}

/// A coefficient of a vector without like entries belongs to an entry.
proof fn lemma_coeff_is_entry(v: Seq<(Frac, Term)>, t: Term)
    requires
        is_collected(v, like_terms()),
        coeff_of(v, t) is Some,
    ensures
        exists|i: int| 0 <= i < v.len() && #[trigger] v[i] == (coeff_of(v, t)->Some_0, t),
{
    if forall|i: int| 0 <= i < v.len() ==> (#[trigger] v[i]).1 != t {
        lemma_coeff_none(v, t);
    } else {
        let i = choose|i: int| 0 <= i < v.len() && (#[trigger] v[i]).1 == t;
        lemma_coeff_single(v, i);
        assert(v[i] == (coeff_of(v, t)->Some_0, t));
    }
}

/// Joined in either order, two vectors that hold no term twice give every
/// term the same coefficient.
proof fn lemma_coeff_commutes(x: Seq<(Frac, Term)>, y: Seq<(Frac, Term)>, t: Term)
    requires
        is_collected(x, like_terms()),
        is_collected(y, like_terms()),
        all_wf(x),
        all_wf(y),
    ensures
        coeff_of(x + y, t) == coeff_of(y + x, t),
{
    lemma_coeff_joined(x, y, t);
    lemma_coeff_joined(y, x, t);
    if coeff_of(x, t) is Some && coeff_of(y, t) is Some {
        lemma_coeff_is_entry(x, t);
        lemma_coeff_is_entry(y, t);
        let i = choose|i: int| 0 <= i < x.len() && #[trigger] x[i] == (coeff_of(x, t)->Some_0, t);
        let j = choose|j: int| 0 <= j < y.len() && #[trigger] y[j] == (coeff_of(y, t)->Some_0, t);
        assert(x[i].0.wf() && y[j].0.wf());
        lemma_frac_sum_commutative(x[i].0, y[j].0);
    }
}

/// Collecting keeps coefficients and terms in lowest terms.
proof fn lemma_collected_wf(v: Seq<(Frac, Term)>)
    requires
        all_wf(v),
    ensures
        all_wf(terms_collected(v)),
    decreases v.len(),
{
    if v.len() > 0 {
        let rest = v.drop_last();
        let x = v.last();
        assert forall|i: int| 0 <= i < rest.len() implies (#[trigger] rest[i]).0.wf() && term_wf(
            rest[i].1,
        ) by {
            assert(v[i].0.wf());
        }
        lemma_collected_wf(rest);
        lemma_collected_coeffs(rest);
        let acc = terms_collected(rest);
        let r = terms_collected(v);
        lemma_absorb_form(acc, x, 0);
        assert(v[v.len() - 1].0.wf() && term_wf(v[v.len() - 1].1));
        assert forall|i: int| 0 <= i < r.len() implies (#[trigger] r[i]).0.wf() && term_wf(
            r[i].1,
        ) by {
            if i < acc.len() {
                assert(acc[i].0.wf() && term_wf(acc[i].1));
                lemma_frac_sum_wf(acc[i].0, x.0);
            }
        }
    }
}

/// Collected in either order, two vectors joined give the same entries,
/// where neither holds a term twice: no two of them alike, all in lowest
/// terms.
pub proof fn lemma_collected_commutes(x: Seq<(Frac, Term)>, y: Seq<(Frac, Term)>)
    requires
        all_wf(x),
        all_wf(y),
        is_collected(x, like_terms()),
        is_collected(y, like_terms()),
    ensures
        same_members(terms_collected(x + y), terms_collected(y + x)),
        is_collected(terms_collected(x + y), like_terms()),
        is_collected(terms_collected(y + x), like_terms()),
        all_wf(terms_collected(x + y)),
        all_wf(terms_collected(y + x)),
{
    let u = x + y;
    let w = y + x;
    assert forall|i: int| 0 <= i < u.len() implies (#[trigger] u[i]).0.wf() && term_wf(
        u[i].1,
    ) by {
        if i < x.len() {
            assert(x[i].0.wf());
        } else {
            assert(y[i - x.len()].0.wf());
        }
    }
    assert forall|i: int| 0 <= i < w.len() implies (#[trigger] w[i]).0.wf() && term_wf(
        w[i].1,
    ) by {
        if i < y.len() {
            assert(y[i].0.wf());
        } else {
            assert(x[i - y.len()].0.wf());
        }
    }
    lemma_collected_wf(u);
    lemma_collected_wf(w);
    lemma_collected_members(u);
    lemma_collected_members(w);
    lemma_collected_coeffs(u);
    lemma_collected_coeffs(w);
    let cu = terms_collected(u);
    let cw = terms_collected(w);
    assert forall|e: (Frac, Term)| #[trigger] cu.contains(e) <==> cw.contains(e) by {
        lemma_coeff_commutes(x, y, e.1);
        assert(cu.contains((e.0, e.1)) <==> coeff_of(u, e.1) == Some(e.0));
        assert(cw.contains((e.0, e.1)) <==> coeff_of(w, e.1) == Some(e.0));
        assert(e == (e.0, e.1));
    }
}

/// The order of the entries of a sum decides between any two different
/// entries in lowest terms.
pub proof fn lemma_entry_order_decides()
    ensures
        decides(entry_before(), entry_wf()),
{
    assert forall|a: (Frac, Term), b: (Frac, Term)|
        entry_wf()(a) && entry_wf()(b) && a != b implies #[trigger] entry_before()(a, b)
        || #[trigger] entry_before()(b, a) by {
        lemma_term_order_flip(a.1, b.1);
        lemma_frac_order_flip(a.0, b.0);
        if term_order(a.1, b.1) == Order::Equal {
            lemma_term_order_equal(a.1, b.1);
            if frac_order(a.0, b.0) == Order::Equal {
                lemma_frac_order_equal(a.0, b.0);
            }
        }
    }
}

/// Two vectors with the same coefficient for every term have the same
/// simplified form.
proof fn lemma_simplified_by_coeffs(v: Seq<(Frac, Term)>, w: Seq<(Frac, Term)>)
    requires
        all_wf(v),
        all_wf(w),
        forall|t: Term| coeff_of(v, t) == coeff_of(w, t),
    ensures
        svec_simplified(v) == svec_simplified(w),
{
    let cv = terms_collected(v);
    let cw = terms_collected(w);
    lemma_collected_members(v);
    lemma_collected_members(w);
    lemma_collected_wf(v);
    lemma_collected_wf(w);
    let kv = kept(cv, nonzero_term());
    let kw = kept(cw, nonzero_term());
    lemma_kept_exactly(cv, nonzero_term());
    lemma_kept_exactly(cw, nonzero_term());
    assert forall|e: (Frac, Term)| #[trigger] kv.contains(e) <==> kw.contains(e) by {
        assert(cv.contains((e.0, e.1)) <==> coeff_of(v, e.1) == Some(e.0));
        assert(cw.contains((e.0, e.1)) <==> coeff_of(w, e.1) == Some(e.0));
        assert(e == (e.0, e.1));
    }
    let sv = sorted(kv, entry_before());
    let sw = sorted(kw, entry_before());
    lemma_sorted_members(kv, entry_before());
    lemma_sorted_members(kw, entry_before());
    lemma_sorted_no_repeats(kv, entry_before());
    lemma_sorted_no_repeats(kw, entry_before());
    lemma_entry_order_strict();
    lemma_entry_order_decides();
    assert forall|i: int| 0 <= i < kv.len() implies entry_wf()(#[trigger] kv[i]) by {
        assert(kv.contains(kv[i]));
        assert(cv.contains(kv[i]));
        let k = choose|k: int| 0 <= k < cv.len() && cv[k] == kv[i];
        assert(cv[k].0.wf() && term_wf(cv[k].1));
    }
    assert forall|i: int| 0 <= i < kw.len() implies entry_wf()(#[trigger] kw[i]) by {
        assert(kw.contains(kw[i]));
        assert(cw.contains(kw[i]));
        let k = choose|k: int| 0 <= k < cw.len() && cw[k] == kw[i];
        assert(cw[k].0.wf() && term_wf(cw[k].1));
    }
    lemma_sorted_is_sorted(kv, entry_before(), entry_wf());
    lemma_sorted_is_sorted(kw, entry_before(), entry_wf());
    assert forall|e: (Frac, Term)| #[trigger] sv.contains(e) <==> sw.contains(e) by {
        assert(sv.contains(e) <==> kv.contains(e));
        assert(sw.contains(e) <==> kw.contains(e));
    }
    lemma_sorted_unique(sv, sw, entry_before(), entry_wf());
}

/// The canonical form of two vectors joined does not depend on the order
/// in which they are joined, where neither holds a term twice once bare
/// values are folded into their coefficients.
pub proof fn lemma_canon_sum_commutes(x: Seq<(Frac, Term)>, y: Seq<(Frac, Term)>)
    requires
        all_wf(x),
        all_wf(y),
        is_collected(folded(x), like_terms()),
        is_collected(folded(y), like_terms()),
    ensures
        canon_sum(x + y) == canon_sum(y + x),
{
    reveal(canon_sum);
    let fx = folded(x);
    let fy = folded(y);
    assert(folded(x + y) =~= fx + fy);
    assert(folded(y + x) =~= fy + fx);
    lemma_folded_wf(x);
    lemma_folded_wf(y);
    assert forall|t: Term| coeff_of(fx + fy, t) == coeff_of(fy + fx, t) by {
        lemma_coeff_commutes(fx, fy, t);
    }
    assert forall|i: int| 0 <= i < (fx + fy).len() implies (#[trigger] (fx + fy)[i]).0.wf()
        && term_wf((fx + fy)[i].1) by {
        if i < fx.len() {
            assert(fx[i].0.wf());
        } else {
            assert(fy[i - fx.len()].0.wf());
        }
    }
    assert forall|i: int| 0 <= i < (fy + fx).len() implies (#[trigger] (fy + fx)[i]).0.wf()
        && term_wf((fy + fx)[i].1) by {
        if i < fy.len() {
            assert(fy[i].0.wf());
        } else {
            assert(fx[i - fy.len()].0.wf());
        }
    }
    lemma_simplified_by_coeffs(fx + fy, fy + fx);
}

/// Folding bare values into their coefficients keeps everything in lowest
/// terms.
pub proof fn lemma_folded_wf(v: Seq<(Frac, Term)>)
    requires
        all_wf(v),
    ensures
        all_wf(folded(v)),
{
    assert forall|i: int| 0 <= i < v.len() implies (#[trigger] folded(v)[i]).0.wf() && term_wf(
        folded(v)[i].1,
    ) by {
        assert(v[i].0.wf() && term_wf(v[i].1));
        match v[i].1 {
            Term::Val(x) => {
                lemma_frac_product_wf(v[i].0, x);
            },
            _ => {},
        }
    }
}

/// An entry in lowest terms whose term is no bare value.
pub open spec fn folded_ok() -> spec_fn((Frac, Term)) -> bool {
    |p: (Frac, Term)| p.0.wf() && term_wf(p.1) && !(p.1 is Val)
}

/// An entry in lowest terms whose term is no bare value and whose
/// coefficient is not zero.
pub open spec fn kept_ok() -> spec_fn((Frac, Term)) -> bool {
    |p: (Frac, Term)| p.0.wf() && term_wf(p.1) && !(p.1 is Val) && !p.0.is_zero_spec()
}

/// The simplification of sums yields a vector in canonical form, in lowest
/// terms.
pub proof fn lemma_canon_sum_canonical(x: Seq<(Frac, Term)>)
    requires
        all_wf(x),
    ensures
        is_canonical_sum(canon_sum(x)),
        all_wf(canon_sum(x)),
{
    reveal(canon_sum);
    let fx = folded(x);
    lemma_folded_wf(x);
    let p = folded_ok();
    assert forall|i: int| 0 <= i < fx.len() implies p(#[trigger] fx[i]) by {
        assert(fx[i].0.wf() && term_wf(fx[i].1));
        assert(fx[i] == folded_entry(x[i]));
    }
    let key = |e: (Frac, Term)| e.1;
    assert forall|a: (Frac, Term), b: (Frac, Term)| p(a) && p(b) implies key(
        #[trigger] merge_terms()(a, b),
    ) == key(a) && p(merge_terms()(a, b)) by {
        lemma_frac_sum_wf(a.0, b.0);
    }
    assert forall|a: (Frac, Term), b: (Frac, Term)| #[trigger] like_terms()(a, b) == (key(a)
        == key(b)) by {}
    lemma_collected_keys(fx, like_terms(), merge_terms(), key, p);
    let c = terms_collected(fx);
    lemma_kept_collected(c, nonzero_term(), like_terms());
    lemma_kept_all(c, nonzero_term(), p);
    let k = kept(c, nonzero_term());
    let q = kept_ok();
    assert forall|i: int| 0 <= i < k.len() implies q(#[trigger] k[i]) by {
        assert(p(k[i]) && nonzero_term()(k[i]));
    }
    assert forall|a: (Frac, Term), b: (Frac, Term)| #[trigger] like_terms()(a, b) == like_terms()(
        b,
        a,
    ) by {}
    lemma_sorted_keeps(k, entry_before(), like_terms(), q);
    lemma_entry_order_strict();
    assert forall|i: int| 0 <= i < k.len() implies entry_wf()(#[trigger] k[i]) by {
        assert(q(k[i]));
    }
    lemma_sorted_is_sorted(k, entry_before(), entry_wf());
    let s = sorted(k, entry_before());
    assert(s == canon_sum(x));
    assert forall|i: int| 0 <= i < s.len() implies !((#[trigger] s[i]).1 is Val)
        && !s[i].0.is_zero_spec() && s[i].0.wf() && term_wf(s[i].1) by {
        assert(q(s[i]));
    }
}

/// The simplification of sums is idempotent: run on its own result it
/// changes nothing.
pub proof fn lemma_canon_sum_twice(x: Seq<(Frac, Term)>)
    requires
        all_wf(x),
    ensures
        canon_sum(canon_sum(x)) == canon_sum(x),
{
    lemma_canon_sum_canonical(x);
    lemma_canon_sum_idempotent(canon_sum(x));
}

} // verus!
