//! The canonical form of a sum.
//!
//! A raw sum vector is brought to canonical form in four steps: a term that
//! is a bare value is folded into its coefficient, like terms are collected,
//! entries with a zero coefficient are dropped, and the rest is sorted by
//! term and then by coefficient.
use vstd::prelude::*;
use crate::frac::{
    Frac, Order, frac_order, frac_product, frac_sum, lemma_frac_order_flip,
    lemma_frac_order_transitive,
};
use crate::term::{
    Term, lemma_term_order_equal, lemma_term_order_flip, lemma_term_order_reflexive,
    lemma_term_order_transitive, term_of_frac, term_order, term_wf,
};
use crate::expr_field::Expr;
use crate::expr_field::structs::type_field::{
    Arena, TypeField, lemma_svec_wf, lemma_term_injective, lemma_val_storable,
};
use crate::expr_field::simplify::{
    Like, collect_like, collected, is_collected, is_sorted, is_strict_order, kept,
    lemma_collected_fixed, lemma_collected_map, lemma_kept_fixed, lemma_kept_map,
    lemma_sorted_fixed, lemma_sorted_is_sorted, like_of, merge_of, place, sorted,
};

verus! {

impl Like for (Frac, Expr) {
    open spec fn like(self, other: Self) -> bool {
        self.1 == other.1
    }

    open spec fn merged(self, other: Self) -> Self {
        (frac_sum(self.0, other.0), self.1)
    }

    open spec fn mergeable(self) -> bool {
        self.0.wf()
    }

    fn is_like(&self, other: &Self) -> (r: bool) {
        self.1 == other.1
    }

    fn merge(&self, other: &Self) -> (r: Self) {
        (self.0.add(other.0), self.1)
    }
}

/// Two entries of a sum are alike when their terms are equal.
pub open spec fn like_terms() -> spec_fn((Frac, Term), (Frac, Term)) -> bool {
    |a: (Frac, Term), b: (Frac, Term)| a.1 == b.1
}

/// Like entries are merged by adding their coefficients.
pub open spec fn merge_terms() -> spec_fn((Frac, Term), (Frac, Term)) -> (Frac, Term) {
    |a: (Frac, Term), b: (Frac, Term)| (frac_sum(a.0, b.0), a.1)
}

/// An entry stays when its coefficient is not zero.
pub open spec fn nonzero_term() -> spec_fn((Frac, Term)) -> bool {
    |p: (Frac, Term)| !p.0.is_zero_spec()
}

/// An entry of handles stays when its coefficient is not zero.
pub open spec fn nonzero_entry() -> spec_fn((Frac, Expr)) -> bool {
    |p: (Frac, Expr)| !p.0.is_zero_spec()
}

/// Order of two entries of a sum: by term, then by coefficient.
pub open spec fn entry_order(p: (Frac, Term), q: (Frac, Term)) -> Order {
    term_order(p.1, q.1).or(frac_order(p.0, q.0))
}

pub open spec fn entry_before() -> spec_fn((Frac, Term), (Frac, Term)) -> bool {
    |p: (Frac, Term), q: (Frac, Term)| entry_order(p, q) == Order::Less
}

/// An entry whose term is a bare value `x` becomes the entry of the term
/// one with the coefficient multiplied by `x`.
pub open spec fn folded_entry(p: (Frac, Term)) -> (Frac, Term) {
    match p.1 {
        Term::Val(x) => (frac_product(p.0, x), Term::One),
        _ => p,
    }
}

/// Every bare value folded into its coefficient.
pub open spec fn folded(v: Seq<(Frac, Term)>) -> Seq<(Frac, Term)> {
    Seq::new(v.len(), |k: int| folded_entry(v[k]))
}

/// Like terms collected.
pub open spec fn terms_collected(v: Seq<(Frac, Term)>) -> Seq<(Frac, Term)> {
    collected(v, like_terms(), merge_terms())
}

/// Like terms collected, zero coefficients dropped, the rest sorted.
pub open spec fn svec_simplified(v: Seq<(Frac, Term)>) -> Seq<(Frac, Term)> {
    sorted(kept(terms_collected(v), nonzero_term()), entry_before())
}

/// The canonical form of the raw sum vector `v`.
#[verifier::opaque]
pub open spec fn canon_sum(v: Seq<(Frac, Term)>) -> Seq<(Frac, Term)> {
    svec_simplified(folded(v))
}

/// The term of a canonical sum vector: zero for the empty vector, the bare
/// coefficient for a lone entry of the term one, the bare term for a lone
/// entry with the coefficient one, a sum otherwise.
pub open spec fn sum_term(v: Seq<(Frac, Term)>) -> Term {
    if v.len() == 0 {
        Term::Zero
    } else if v.len() == 1 && v[0].1 == Term::One {
        term_of_frac(v[0].0)
    } else if v.len() == 1 && v[0].0.is_one_spec() {
        v[0].1
    } else {
        Term::Sum(v)
    }
}

impl Arena {
    /// The map from an entry of handles to the entry of terms.
    pub open spec fn sum_entry(self) -> spec_fn((Frac, Expr)) -> (Frac, Term) {
        |p: (Frac, Expr)| (p.0, self.term(p.1))
    }

    /// The entry holds a handle of this arena.
    pub open spec fn owns_entry(self) -> spec_fn((Frac, Expr)) -> bool {
        |p: (Frac, Expr)| self.owns(p.1)
    }
}

/// Collecting like handles is collecting like terms: in one arena equal
/// terms are equal handles.
pub proof fn lemma_collect_terms(a: Arena, v: Seq<(Frac, Expr)>)
    requires
        a.wf(),
        a.owns_svec(v),
    ensures
        a.svec(collected(v, like_of::<(Frac, Expr)>(), merge_of::<(Frac, Expr)>()))
            == terms_collected(a.svec(v)),
        forall|k: int|
            0 <= k < collected(v, like_of::<(Frac, Expr)>(), merge_of::<(Frac, Expr)>()).len()
                ==> a.owns(
                (#[trigger] collected(v, like_of::<(Frac, Expr)>(), merge_of::<(Frac, Expr)>())[k]).1,
            ),
{
    let f = a.sum_entry();
    let ok = a.owns_entry();
    let like_t = like_of::<(Frac, Expr)>();
    let merge_t = merge_of::<(Frac, Expr)>();
    assert forall|x: (Frac, Expr), y: (Frac, Expr)| ok(x) && ok(y) implies #[trigger] like_t(x, y)
        == like_terms()(f(x), f(y)) by {
        if a.term(x.1) == a.term(y.1) {
            lemma_term_injective(a, x.1, y.1);
        }
    }
    assert forall|k: int| 0 <= k < v.len() implies ok(#[trigger] v[k]) by {
        assert(a.owns(v[k].1));
    }
    lemma_collected_map(v, f, ok, like_t, merge_t, like_terms(), merge_terms());
    let c = collected(v, like_t, merge_t);
    assert(c.map_values(f) =~= a.svec(c));
    assert(v.map_values(f) =~= a.svec(v));
    assert forall|k: int| 0 <= k < c.len() implies a.owns((#[trigger] c[k]).1) by {
        assert(ok(c[k]));
    }
}

/// Dropping zero coefficients of handles is dropping them of terms.
pub proof fn lemma_strip_terms(a: Arena, v: Seq<(Frac, Expr)>)
    ensures
        a.svec(kept(v, nonzero_entry())) == kept(a.svec(v), nonzero_term()),
{
    let f = a.sum_entry();
    lemma_kept_map(v, f, nonzero_entry(), nonzero_term());
    assert(kept(v, nonzero_entry()).map_values(f) =~= a.svec(kept(v, nonzero_entry())));
    assert(v.map_values(f) =~= a.svec(v));
}

/// Folds every term that is a bare value into its coefficient: the
/// coefficient is multiplied by the value and the term becomes one.
pub fn val_to_coeff(field: &TypeField, v: &mut Vec<(Frac, Expr)>)
    requires
        field@.wf(),
        field@.owns_svec(old(v)@),
    ensures
        field@.owns_svec(final(v)@),
        field@.svec(final(v)@) == folded(field@.svec(old(v)@)),
{
    let mut i: usize = 0;
    while i < v.len()
        invariant
            i <= v.len(),
            v.len() == old(v).len(),
            field@.wf(),
            field@.owns_svec(old(v)@),
            field@.owns_svec(v@),
            forall|k: int| i <= k < v.len() ==> v@[k] == old(v)@[k],
            forall|k: int|
                0 <= k < i ==> (#[trigger] v@[k].0, field@.term(v@[k].1)) == folded_entry(
                    (old(v)@[k].0, field@.term(old(v)@[k].1)),
                ),
        decreases v.len() - i,
    {
        let entry = v[i];
        assert(field@.owns(v@[i as int].1));
        match entry.1 {
            Expr::Val(r) => {
                proof {
                    lemma_val_storable(field@, r);
                }
                let c = entry.0.mul(field.get_val(r));
                let ghost before = v@;
                v.set(i, (c, Expr::One(field.id())));
                assert forall|k: int| 0 <= k < v.len() implies field@.owns(#[trigger] v@[k].1)
                    && v@[k].0.wf() by {
                    if k != i {
                        assert(field@.owns(before[k].1));
                    }
                }
            },
            _ => {},
        }
        i += 1;
    }
    assert(field@.svec(v@) =~= folded(field@.svec(old(v)@)));
}

/// Merges entries with equal terms, adding their coefficients.
pub fn collect_like_terms(v: Vec<(Frac, Expr)>) -> (r: Vec<(Frac, Expr)>)
    requires
        forall|i: int| 0 <= i < v.len() ==> (#[trigger] v@[i]).0.wf(),
    ensures
        r@ == collected(v@, like_of::<(Frac, Expr)>(), merge_of::<(Frac, Expr)>()),
        forall|i: int| 0 <= i < r.len() ==> (#[trigger] r@[i]).0.wf(),
{
    collect_like(v)
}

/// Drops the entries whose coefficient is zero.
pub fn strip_zeros(v: Vec<(Frac, Expr)>) -> (r: Vec<(Frac, Expr)>)
    ensures
        r@ == kept(v@, nonzero_entry()),
{
    let mut out: Vec<(Frac, Expr)> = Vec::new();
    let mut i: usize = 0;
    while i < v.len()
        invariant
            i <= v.len(),
            out@ == kept(v@.take(i as int), nonzero_entry()),
        decreases v.len() - i,
    {
        let entry = v[i];
        proof {
            assert(v@.take(i as int + 1).drop_last() =~= v@.take(i as int));
            assert(v@.take(i as int + 1).last() == entry);
        }
        if !entry.0.is_zero() {
            out.push(entry);
        }
        i += 1;
    }
    proof {
        assert(v@.take(v.len() as int) =~= v@);
    }
    out
}

/// Sorts the entries by the canonical order of their terms and then by
/// their coefficients; entries that compare equal keep their order.
pub fn sort_svec(field: &TypeField, v: &mut Vec<(Frac, Expr)>)
    requires
        field@.wf(),
        field@.owns_svec(old(v)@),
    ensures
        field@.owns_svec(final(v)@),
        field@.svec(final(v)@) == sorted(field@.svec(old(v)@), entry_before()),
{
    let mut out: Vec<(Frac, Expr)> = Vec::new();
    let mut i: usize = 0;
    assert(field@.svec(out@) =~= Seq::empty());
    assert(v@.take(0) =~= Seq::empty());
    assert(field@.svec(v@.take(0)) =~= Seq::empty());
    while i < v.len()
        invariant
            i <= v.len(),
            v@ == old(v)@,
            field@.wf(),
            field@.owns_svec(v@),
            field@.owns_svec(out@),
            field@.svec(out@) == sorted(field@.svec(v@.take(i as int)), entry_before()),
        decreases v.len() - i,
    {
        let x = v[i];
        assert(field@.owns(v@[i as int].1));
        let ghost s = field@.svec(out@);
        let ghost tx = (x.0, field@.term(x.1));
        let mut k: usize = 0;
        let mut found = false;
        while k < out.len() && !found
            invariant
                k <= out.len(),
                field@.wf(),
                field@.owns_svec(out@),
                field@.owns(x.1),
                x.0.wf(),
                s == field@.svec(out@),
                tx == (x.0, field@.term(x.1)),
                place(s, tx, entry_before(), 0) == place(s, tx, entry_before(), k as int),
                found ==> k < out.len() && entry_before()(tx, s[k as int]),
            decreases out.len() - k + (if found { 0int } else { 1int }),
        {
            let y = out[k];
            assert(field@.owns(out@[k as int].1));
            assert(s[k as int] == (y.0, field@.term(y.1)));
            let by_term = field.compare(x.1, y.1);
            let before = match by_term {
                Order::Less => true,
                Order::Equal => match x.0.compare(y.0) {
                    Order::Less => true,
                    _ => false,
                },
                Order::Greater => false,
            };
            if before {
                found = true;
            } else {
                k += 1;
            }
        }
        let ghost old_out = out@;
        out.insert(k, x);
        proof {
            assert(place(s, tx, entry_before(), 0) == k);
            assert(field@.svec(out@) =~= s.insert(k as int, tx));
            assert(v@.take(i as int + 1).drop_last() =~= v@.take(i as int));
            assert(field@.svec(v@.take(i as int + 1)).drop_last() =~= field@.svec(
                v@.take(i as int),
            ));
            assert(field@.svec(v@.take(i as int + 1)).last() == tx);
            assert forall|j: int| 0 <= j < out.len() implies field@.owns(#[trigger] out@[j].1)
                && out@[j].0.wf() by {
                if j < k {
                    assert(field@.owns(old_out[j].1));
                } else if j > k {
                    assert(field@.owns(old_out[j - 1].1));
                }
            }
        }
        i += 1;
    }
    proof {
        assert(v@.take(v.len() as int) =~= v@);
    }
    *v = out;
}

/// Collects like terms, drops the entries that have become zero, and sorts.
pub fn simplify_svec(field: &TypeField, v: Vec<(Frac, Expr)>) -> (r: Vec<(Frac, Expr)>)
    requires
        field@.wf(),
        field@.owns_svec(v@),
    ensures
        field@.owns_svec(r@),
        field@.svec(r@) == svec_simplified(field@.svec(v@)),
{
    proof {
        lemma_collect_terms(field@, v@);
        assert forall|i: int| 0 <= i < v.len() implies (#[trigger] v@[i]).0.wf() by {
            assert(field@.owns(v@[i].1));
        }
    }
    let collected = collect_like_terms(v);
    proof {
        lemma_strip_terms(field@, collected@);
        crate::expr_field::simplify::lemma_kept_members(collected@, nonzero_entry());
    }
    let mut res = strip_zeros(collected);
    assert forall|k: int| 0 <= k < res.len() implies field@.owns(#[trigger] res@[k].1)
        && res@[k].0.wf() by {
        let x = res@[k];
        assert(collected@.contains(x));
        let j = choose|j: int| 0 <= j < collected@.len() && collected@[j] == x;
        assert(field@.owns(collected@[j].1));
    }
    sort_svec(field, &mut res);
    res
}

impl TypeField {
    /// The handle of the sum with the raw entries `s`: the entries are
    /// brought to canonical form; an empty result is zero, a lone multiple
    /// of one is that rational, a lone term with the coefficient one is that
    /// term, and anything else is stored as a sum. The arena stays as it is
    /// where it holds the result already.
    pub fn add_svec(&mut self, s: Vec<(Frac, Expr)>) -> (e: Expr)
        requires
            old(self)@.wf(),
            old(self)@.owns_svec(s@),
        ensures
            final(self)@.wf(),
            final(self)@.extends(old(self)@),
            final(self)@.owns(e),
            final(self)@.term(e) == sum_term(canon_sum(old(self)@.svec(s@))),
            old(self)@.holds(sum_term(canon_sum(old(self)@.svec(s@)))) ==> final(self)@ == old(
                self,
            )@,
    {
        proof {
            reveal(canon_sum);
        }
        let mut raw = s;
        val_to_coeff(self, &mut raw);
        let v = simplify_svec(self, raw);
        if v.len() == 0 {
            return Expr::Zero(self.id());
        }
        assert(self@.owns(v@[0].1));
        assert(self@.svec(v@)[0] == (v@[0].0, self@.term(v@[0].1)));
        if v.len() == 1 {
            match v[0].1 {
                Expr::One(_) => {
                    return self.add_val(v[0].0);
                },
                _ => {},
            }
            if v[0].0.is_one() {
                return v[0].1;
            }
        }
        proof {
            lemma_svec_wf(old(self)@, s@);
            crate::expr_field::simplify::sum_laws::lemma_canon_sum_canonical(
                old(self)@.svec(s@),
            );
        }
        self.intern_sum(v)
    }
}

/// An entry of a sum whose rationals are all in lowest terms.
pub open spec fn entry_wf() -> spec_fn((Frac, Term)) -> bool {
    |p: (Frac, Term)| p.0.wf() && term_wf(p.1)
}

/// The order of the entries of a sum is strict: never both ways, and
/// transitive.
pub proof fn lemma_entry_order_strict()
    ensures
        is_strict_order(entry_before(), entry_wf()),
{
    assert forall|a: (Frac, Term), b: (Frac, Term)|
        entry_wf()(a) && entry_wf()(b) && #[trigger] entry_before()(a, b) implies !entry_before()(
        b,
        a,
    ) by {
        lemma_term_order_flip(a.1, b.1);
        lemma_frac_order_flip(a.0, b.0);
    }
    assert forall|a: (Frac, Term), b: (Frac, Term), c: (Frac, Term)|
        entry_wf()(a) && entry_wf()(b) && entry_wf()(c) && #[trigger] entry_before()(a, b)
            && #[trigger] entry_before()(b, c) implies entry_before()(a, c) by {
        lemma_entry_order_transitive(a, b, c);
    }
}

/// The order of the entries of a sum is transitive.
pub proof fn lemma_entry_order_transitive(a: (Frac, Term), b: (Frac, Term), c: (Frac, Term))
    requires
        a.0.wf() && term_wf(a.1),
        b.0.wf() && term_wf(b.1),
        c.0.wf() && term_wf(c.1),
        entry_order(a, b) == Order::Less,
        entry_order(b, c) == Order::Less,
    ensures
        entry_order(a, c) == Order::Less,
{
    let ab = term_order(a.1, b.1);
    let bc = term_order(b.1, c.1);
    if ab == Order::Less && bc == Order::Less {
        lemma_term_order_transitive(a.1, b.1, c.1);
    } else if ab == Order::Less && bc == Order::Equal {
        lemma_term_order_equal(b.1, c.1);
    } else if ab == Order::Equal && bc == Order::Less {
        lemma_term_order_equal(a.1, b.1);
    } else if ab == Order::Equal && bc == Order::Equal {
        lemma_term_order_equal(a.1, b.1);
        lemma_term_order_equal(b.1, c.1);
        lemma_term_order_reflexive(a.1);
        lemma_frac_order_transitive(a.0, b.0, c.0);
    }
}

/// Sorting the entries of a sum is a fixed point on a second pass.
pub proof fn lemma_sort_twice(v: Seq<(Frac, Term)>)
    requires
        forall|i: int| 0 <= i < v.len() ==> (#[trigger] v[i]).0.wf() && term_wf(v[i].1),
    ensures
        sorted(sorted(v, entry_before()), entry_before()) == sorted(v, entry_before()),
        is_sorted(sorted(v, entry_before()), entry_before()),
{
    lemma_entry_order_strict();
    assert forall|i: int| 0 <= i < v.len() implies entry_wf()(#[trigger] v[i]) by {
        assert(v[i].0.wf() && term_wf(v[i].1));
    }
    lemma_sorted_is_sorted(v, entry_before(), entry_wf());
    lemma_sorted_fixed(sorted(v, entry_before()), entry_before());
}

/// A sum vector in canonical form: no term is a bare value, no two entries
/// share a term, no coefficient is zero, and the entries are sorted.
pub open spec fn is_canonical_sum(v: Seq<(Frac, Term)>) -> bool {
    &&& forall|i: int| 0 <= i < v.len() ==> !((#[trigger] v[i]).1 is Val)
    &&& forall|i: int| 0 <= i < v.len() ==> !(#[trigger] v[i]).0.is_zero_spec()
    &&& is_collected(v, like_terms())
    &&& is_sorted(v, entry_before())
}

/// Running the simplification of sums on a vector that is in canonical form
/// leaves it unchanged.
pub proof fn lemma_canon_sum_idempotent(v: Seq<(Frac, Term)>)
    requires
        is_canonical_sum(v),
    ensures
        canon_sum(v) == v,
{
    reveal(canon_sum);
    assert(folded(v) =~= v) by {
        assert forall|k: int| 0 <= k < v.len() implies folded_entry(#[trigger] v[k]) == v[k] by {
            assert(!(v[k].1 is Val));
        }
    }
    lemma_collected_fixed(v, like_terms(), merge_terms());
    assert forall|i: int| 0 <= i < v.len() implies nonzero_term()(#[trigger] v[i]) by {
        assert(!v[i].0.is_zero_spec());
    }
    lemma_kept_fixed(v, nonzero_term());
    lemma_sorted_fixed(v, entry_before());
}

} // verus!
