//! The canonical form of a product.
//!
//! A raw product vector is brought to canonical form in these steps. A
//! square root becomes a power of one half; a factor that is itself a
//! product is replaced by its factors with the exponents distributed, and a
//! sum of a single entry by its coefficient and its term. Like bases are
//! collected. Positive values under one and the same fractional power are
//! multiplied into one, and their roots are taken. An exponent of so many
//! halves is split into a whole power and an explicit square root. The whole
//! part of every other fractional power of a value is split off. Factors
//! that are numbers to a whole power are multiplied into one rational
//! coefficient. In what is left, like bases are collected once more, factors
//! with the exponent zero are dropped, and the rest is sorted by base and
//! then by exponent.
use vstd::prelude::*;
use crate::frac::{
    Frac, Order, Sign, frac_endless_power, frac_floor, frac_half, frac_int_power, frac_order,
    frac_product, frac_rest, frac_sum, lemma_frac_order_equal, lemma_frac_order_flip,
    lemma_frac_order_transitive, lemma_frac_sum_wf, lemma_gcd_one,
};
use crate::term::{
    FnKind, Term, lemma_term_order_equal, lemma_term_order_flip, lemma_term_order_reflexive,
    lemma_term_order_transitive, term_of_frac, term_order, term_wf,
};
use crate::expr_field::{Expr, ExprFn};
use crate::expr_field::structs::type_field::{
    Arena, TypeField, lemma_extends, lemma_extends_pvec, lemma_extends_trans, lemma_holds_kept,
    lemma_owns_pvec_append, lemma_owns_pvec_push, lemma_pvec_wf, lemma_term_fn,
    lemma_term_injective, lemma_term_prod, lemma_term_sum, lemma_val_storable,
};
use crate::expr_field::simplify::{
    Like, collect_like, collected, is_collected, is_sorted, is_strict_order, kept,
    lemma_collected_fixed, lemma_collected_keys, lemma_collected_map, lemma_kept_all,
    lemma_kept_collected, lemma_kept_fixed, lemma_kept_map, lemma_kept_members, lemma_sorted_fixed,
    lemma_sorted_is_sorted, lemma_sorted_keeps, like_of, merge_of, place, sorted,
};
use crate::expr_field::simplify::sum::{canon_sum, sum_term};
use crate::expr_field::simplify::root::{
    collect_like_num_powers, like_numbers, merge_numbers, merges_held, root_fn, take_roots,
};

verus! {

impl Like for (Expr, Frac) {
    open spec fn like(self, other: Self) -> bool {
        self.0 == other.0
    }

    open spec fn merged(self, other: Self) -> Self {
        (self.0, frac_sum(self.1, other.1))
    }

    open spec fn mergeable(self) -> bool {
        self.1.wf()
    }

    fn is_like(&self, other: &Self) -> (r: bool) {
        self.0 == other.0
    }

    fn merge(&self, other: &Self) -> (r: Self) {
        (self.0, self.1.add(other.1))
    }
}

/// Two factors are alike when their bases are equal.
pub open spec fn like_factors() -> spec_fn((Term, Frac), (Term, Frac)) -> bool {
    |a: (Term, Frac), b: (Term, Frac)| a.0 == b.0
}

/// Like factors are merged by adding their exponents.
pub open spec fn merge_factors() -> spec_fn((Term, Frac), (Term, Frac)) -> (Term, Frac) {
    |a: (Term, Frac), b: (Term, Frac)| (a.0, frac_sum(a.1, b.1))
}

/// A factor stays when its exponent is not zero.
pub open spec fn nonzero_factor() -> spec_fn((Term, Frac)) -> bool {
    |p: (Term, Frac)| !p.1.is_zero_spec()
}

/// A factor of handles stays when its exponent is not zero.
pub open spec fn nonzero_power() -> spec_fn((Expr, Frac)) -> bool {
    |p: (Expr, Frac)| !p.1.is_zero_spec()
}

/// Order of two factors: by base, then by exponent.
pub open spec fn factor_order(p: (Term, Frac), q: (Term, Frac)) -> Order {
    term_order(p.0, q.0).or(frac_order(p.1, q.1))
}

pub open spec fn factor_before() -> spec_fn((Term, Frac), (Term, Frac)) -> bool {
    |p: (Term, Frac), q: (Term, Frac)| factor_order(p, q) == Order::Less
}

/// The concatenation of what `each` makes of every entry.
pub open spec fn flat<T, U>(v: Seq<T>, each: spec_fn(T) -> Seq<U>) -> Seq<U>
    decreases v.len(),
{
    if v.len() == 0 {
        Seq::empty()
    } else {
        flat(v.drop_last(), each) + each(v.last())
    }
}

/// A square root to the power `e` is its argument to the power `e / 2`.
pub open spec fn halved(p: (Term, Frac)) -> (Term, Frac) {
    match p.0 {
        Term::Fn(FnKind::Sqrt, x) => (*x, frac_product(p.1, frac_half())),
        _ => p,
    }
}

/// The factors `fs` of a product that is itself raised to the power `e`.
pub open spec fn scaled_factors(fs: Seq<(Term, Frac)>, e: Frac) -> Seq<(Term, Frac)> {
    Seq::new(fs.len(), |k: int| halved((fs[k].0, frac_product(fs[k].1, e))))
}

/// The term `t` to the power `e` as factors: the factors of a product with
/// the exponent distributed, else the term itself with a square root turned
/// into a power.
pub open spec fn spread(t: Term, e: Frac) -> Seq<(Term, Frac)> {
    match t {
        Term::Prod(fs) => scaled_factors(fs, e),
        _ => seq![halved((t, e))],
    }
}

/// What a factor is replaced by: a square root becomes a power; the factors
/// of a product take its place with the exponent distributed; a sum of a
/// single entry is its coefficient times its term; every other factor stays.
pub open spec fn expanded(p: (Term, Frac)) -> Seq<(Term, Frac)> {
    let q = halved(p);
    match q.0 {
        Term::Prod(fs) => scaled_factors(fs, q.1),
        Term::Sum(s) => if s.len() == 1 {
            seq![(term_of_frac(s[0].0), q.1)] + spread(s[0].1, q.1)
        } else {
            seq![q]
        },
        _ => seq![q],
    }
}

pub open spec fn expand_fn() -> spec_fn((Term, Frac)) -> Seq<(Term, Frac)> {
    |p: (Term, Frac)| expanded(p)
}

/// Nested products flattened one level, square roots as powers.
pub open spec fn normalised(v: Seq<(Term, Frac)>) -> Seq<(Term, Frac)> {
    flat(v, expand_fn())
}

/// The rational that a factor is, where it is a number to a whole or an
/// infinite power.
///
/// An exponent that is not-a-number makes the factor not-a-number, and so
/// does an indeterminate base. To a finite exponent: one to any power is
/// one; zero, an infinity and a value are raised to a whole exponent; zero
/// and an infinity to a fractional exponent are not-a-number; a value to a
/// fractional exponent stays a factor. To an infinite exponent: zero and one
/// are not-a-number; a value or an infinity is infinite or zero, as it is
/// above one or not and the exponent positive or not. Every other base
/// stays a factor.
pub open spec fn scalar(p: (Term, Frac)) -> Option<Frac> {
    match p.1 {
        Frac::NaN => Some(Frac::NaN),
        Frac::Infinity(s) => match p.0 {
            Term::InDet => Some(Frac::NaN),
            Term::One => Some(Frac::NaN),
            Term::Zero => Some(Frac::NaN),
            Term::Infty(o) => Some(frac_endless_power(Frac::Infinity(o), s)),
            Term::Val(x) => if x is NaN || x.is_zero_spec() || x.is_one_spec() {
                Some(Frac::NaN)
            } else {
                Some(frac_endless_power(x, s))
            },
            _ => None,
        },
        Frac::Rational(..) => match p.0 {
            Term::InDet => Some(Frac::NaN),
            Term::One => Some(Frac::Rational(Sign::Plus, 1, 1)),
            Term::Zero => Some(frac_int_power(Frac::Rational(Sign::Plus, 0, 1), p.1)),
            Term::Infty(s) => Some(frac_int_power(Frac::Infinity(s), p.1)),
            Term::Val(x) => if p.1.is_integer_spec() {
                Some(frac_int_power(x, p.1))
            } else {
                None
            },
            _ => None,
        },
    }
}

/// A value to a fractional power of which the floor is not zero, as two
/// factors: the value to the floor of the exponent, and the value to what
/// is left of the exponent. Every other factor stays as it is.
pub open spec fn parted(p: (Term, Frac)) -> Seq<(Term, Frac)> {
    if p.0 is Val && p.1 is Rational && !p.1.is_integer_spec() && !frac_floor(
        p.1,
    ).is_zero_spec() {
        seq![(p.0, frac_floor(p.1)), (p.0, frac_rest(p.1))]
    } else {
        seq![p]
    }
}

pub open spec fn part_fn() -> spec_fn((Term, Frac)) -> Seq<(Term, Frac)> {
    |p: (Term, Frac)| parted(p)
}

/// The product of the factors that are numbers.
pub open spec fn coefficient(v: Seq<(Term, Frac)>) -> Frac
    decreases v.len(),
{
    if v.len() == 0 {
        Frac::Rational(Sign::Plus, 1, 1)
    } else {
        let c = coefficient(v.drop_last());
        match scalar(v.last()) {
            Some(x) => frac_product(c, x),
            None => c,
        }
    }
}

/// A factor stays symbolic when it is no number.
pub open spec fn symbolic() -> spec_fn((Term, Frac)) -> bool {
    |p: (Term, Frac)| scalar(p) is None
}

/// A fundamental: the indeterminate, an infinity, zero or one.
pub open spec fn is_fundamental(t: Term) -> bool {
    t is InDet || t is Infty || t is Zero || t is One
}

/// A factor with an exponent of `n` halves becomes the base to the whole
/// part of the exponent (left out when that is zero) and the square root of
/// the base. A fundamental to such a power stays as it is.
pub open spec fn resolved(p: (Term, Frac)) -> Seq<(Term, Frac)> {
    match p.1 {
        Frac::Rational(s, n, d) => if d == 2 && !is_fundamental(p.0) {
            let k: int = if s == Sign::Plus {
                n as int / 2
            } else {
                n as int / 2 + 1
            };
            let root = (Term::Fn(FnKind::Sqrt, Box::new(p.0)), Frac::Rational(Sign::Plus, 1, 1));
            if k == 0 {
                seq![root]
            } else {
                seq![(p.0, Frac::Rational(s, k as u32, 1)), root]
            }
        } else {
            seq![p]
        },
        _ => seq![p],
    }
}

pub open spec fn resolve_fn() -> spec_fn((Term, Frac)) -> Seq<(Term, Frac)> {
    |p: (Term, Frac)| resolved(p)
}

/// Like factors of the normalised vector collected.
pub open spec fn factors_collected(v: Seq<(Term, Frac)>) -> Seq<(Term, Frac)> {
    collected(normalised(v), like_factors(), merge_factors())
}

/// The collected factors with the positive values that are raised to one
/// and the same fractional power multiplied into one.
pub open spec fn factors_merged(v: Seq<(Term, Frac)>) -> Seq<(Term, Frac)> {
    collected(factors_collected(v), like_numbers(), merge_numbers())
}

/// The merged factors with the roots of the positive values taken.
pub open spec fn factors_rooted(v: Seq<(Term, Frac)>) -> Seq<(Term, Frac)> {
    flat(factors_merged(v), root_fn())
}

/// The rooted factors with every exponent of so many halves split.
pub open spec fn factors_resolved(v: Seq<(Term, Frac)>) -> Seq<(Term, Frac)> {
    flat(factors_rooted(v), resolve_fn())
}

/// The resolved factors with the whole part of every fractional power of a
/// value split off.
pub open spec fn factors_parted(v: Seq<(Term, Frac)>) -> Seq<(Term, Frac)> {
    flat(factors_resolved(v), part_fn())
}

/// The symbolic factors of the canonical form of `v`: what is left of the
/// parted factors when the numbers are taken out, simplified once more.
pub open spec fn canon_factors(v: Seq<(Term, Frac)>) -> Seq<(Term, Frac)> {
    pvec_simplified(kept(factors_parted(v), symbolic()))
}

/// Like factors collected, zero exponents dropped, the rest sorted.
pub open spec fn pvec_simplified(v: Seq<(Term, Frac)>) -> Seq<(Term, Frac)> {
    sorted(
        kept(collected(v, like_factors(), merge_factors()), nonzero_factor()),
        factor_before(),
    )
}

/// The term of canonical factors: one for none, the bare base for a lone
/// factor with the exponent one, a product otherwise.
pub open spec fn prod_term(r: Seq<(Term, Frac)>) -> Term {
    if r.len() == 0 {
        Term::One
    } else if r.len() == 1 && r[0].1.is_one_spec() {
        r[0].0
    } else {
        Term::Prod(r)
    }
}

/// The coefficient `c` times the canonical factors `r`: indeterminate,
/// infinite or zero as the coefficient is; the bare coefficient when there
/// are no factors; the bare product when the coefficient is one; else the
/// one-term sum of the coefficient and the product.
pub open spec fn scaled_term(c: Frac, r: Seq<(Term, Frac)>) -> Term {
    match c {
        Frac::NaN => Term::InDet,
        Frac::Infinity(s) => Term::Infty(s),
        Frac::Rational(..) => if c.is_zero_spec() {
            Term::Zero
        } else if r.len() == 0 {
            term_of_frac(c)
        } else if c.is_one_spec() {
            prod_term(r)
        } else {
            sum_term(canon_sum(seq![(c, prod_term(r))]))
        },
    }
}

/// The canonical form of the raw product vector `v`.
#[verifier::opaque]
pub open spec fn canon_prod(v: Seq<(Term, Frac)>) -> Term {
    scaled_term(coefficient(factors_parted(v)), canon_factors(v))
}

impl Arena {
    /// The map from a factor of handles to the factor of terms.
    pub open spec fn prod_entry(self) -> spec_fn((Expr, Frac)) -> (Term, Frac) {
        |p: (Expr, Frac)| (self.term(p.0), p.1)
    }

    /// The factor holds a handle of this arena.
    pub open spec fn owns_factor(self) -> spec_fn((Expr, Frac)) -> bool {
        |p: (Expr, Frac)| self.owns(p.0)
    }

    /// The factor of handles stands for a symbolic factor.
    pub open spec fn symbolic_entry(self) -> spec_fn((Expr, Frac)) -> bool {
        |p: (Expr, Frac)| scalar((self.term(p.0), p.1)) is None
    }

    /// The arena holds the base of every factor of `v`.
    pub open spec fn holds_bases(self, v: Seq<(Term, Frac)>) -> bool {
        forall|k: int| 0 <= k < v.len() ==> self.holds((#[trigger] v[k]).0)
    }
}

/// What the concatenation holds: what `each` makes of some entry holds it.
pub proof fn lemma_flat_members<T, U>(v: Seq<T>, each: spec_fn(T) -> Seq<U>)
    ensures
        forall|e: U| #[trigger]
            flat(v, each).contains(e) <==> exists|i: int|
                0 <= i < v.len() && (#[trigger] each(v[i])).contains(e),
    decreases v.len(),
{
    if v.len() == 0 {
        assert forall|e: U| !(#[trigger] flat(v, each).contains(e)) by {}
    } else {
        let rest = v.drop_last();
        let last = each(v.last());
        lemma_flat_members(rest, each);
        let r = flat(rest, each);
        assert(flat(v, each) == r + last);
        assert forall|e: U| #[trigger]
            flat(v, each).contains(e) <==> exists|i: int|
                0 <= i < v.len() && (#[trigger] each(v[i])).contains(e) by {
            if flat(v, each).contains(e) {
                let k = choose|k: int| 0 <= k < (r + last).len() && (r + last)[k] == e;
                if k < r.len() {
                    assert(r[k] == e);
                    assert(r.contains(e));
                    let i = choose|i: int|
                        0 <= i < rest.len() && (#[trigger] each(rest[i])).contains(e);
                    assert(rest[i] == v[i]);
                    assert(each(v[i]).contains(e));
                } else {
                    assert(last[k - r.len()] == e);
                    assert(each(v[v.len() - 1]).contains(e));
                }
            }
            if exists|i: int| 0 <= i < v.len() && (#[trigger] each(v[i])).contains(e) {
                let i = choose|i: int| 0 <= i < v.len() && (#[trigger] each(v[i])).contains(e);
                if i < rest.len() {
                    assert(rest[i] == v[i]);
                    assert(each(rest[i]).contains(e));
                    assert(r.contains(e));
                    let k = choose|k: int| 0 <= k < r.len() && r[k] == e;
                    assert((r + last)[k] == e);
                } else {
                    let k = choose|k: int| 0 <= k < last.len() && last[k] == e;
                    assert((r + last)[r.len() + k] == e);
                }
            }
        }
    }
}

/// An arena that holds every base of a concatenation holds every base of
/// what is made of each entry.
pub proof fn lemma_part_held(
    a: Arena,
    v: Seq<(Term, Frac)>,
    each: spec_fn((Term, Frac)) -> Seq<(Term, Frac)>,
    i: int,
)
    requires
        a.holds_bases(flat(v, each)),
        0 <= i < v.len(),
    ensures
        a.holds_bases(each(v[i])),
{
    lemma_flat_members(v, each);
    let part = each(v[i]);
    let all = flat(v, each);
    assert forall|k: int| 0 <= k < part.len() implies a.holds((#[trigger] part[k]).0) by {
        assert(part.contains(part[k]));
        assert(all.contains(part[k]));
        let j = choose|j: int| 0 <= j < all.len() && all[j] == part[k];
        assert(a.holds(all[j].0));
    }
}

/// An arena holds the bases of factors whose handles it owns, and keeps
/// holding bases when it grows.
pub proof fn lemma_bases_held(old: Arena, new: Arena, h: Seq<(Expr, Frac)>)
    requires
        old.linked(),
        old.owns_pvec(h),
        new.extends(old),
    ensures
        new.holds_bases(old.pvec(h)),
{
    let v = old.pvec(h);
    assert forall|k: int| 0 <= k < v.len() implies new.holds((#[trigger] v[k]).0) by {
        assert(old.owns(h[k].0));
        lemma_extends(old, new, h[k].0);
        assert(new.owns(h[k].0) && new.term(h[k].0) == v[k].0);
    }
}

/// The concatenation over one entry or two.
pub proof fn lemma_flat_small<T, U>(x: T, y: T, each: spec_fn(T) -> Seq<U>)
    ensures
        flat(seq![x], each) == each(x),
        flat(seq![x, y], each) == each(x) + each(y),
{
    reveal_with_fuel(flat, 3);
    assert(seq![x].drop_last() =~= Seq::<T>::empty());
    assert(seq![x, y].drop_last() =~= seq![x]);
    assert(Seq::<U>::empty() + each(x) =~= each(x));
}

/// The coefficient of no factors is one, and one more factor multiplies it
/// by the number that the factor is.
pub proof fn lemma_coefficient_small(x: (Term, Frac))
    ensures
        coefficient(Seq::empty()) == Frac::Rational(Sign::Plus, 1, 1),
        scalar(x) is Some ==> coefficient(seq![x]) == frac_product(
            Frac::Rational(Sign::Plus, 1, 1),
            scalar(x)->Some_0,
        ),
        scalar(x) is None ==> coefficient(seq![x]) == Frac::Rational(Sign::Plus, 1, 1),
{
    reveal_with_fuel(coefficient, 2);
    assert(seq![x].drop_last() =~= Seq::<(Term, Frac)>::empty());
}

pub proof fn lemma_flat_push<T, U>(v: Seq<T>, x: T, each: spec_fn(T) -> Seq<U>)
    ensures
        flat(v.push(x), each) == flat(v, each) + each(x),
{
    assert(v.push(x).drop_last() =~= v);
}

/// Collecting like handles is collecting like bases.
pub proof fn lemma_collect_factors(a: Arena, v: Seq<(Expr, Frac)>)
    requires
        a.wf(),
        a.owns_pvec(v),
    ensures
        a.pvec(collected(v, like_of::<(Expr, Frac)>(), merge_of::<(Expr, Frac)>())) == collected(
            a.pvec(v),
            like_factors(),
            merge_factors(),
        ),
        forall|k: int|
            0 <= k < collected(v, like_of::<(Expr, Frac)>(), merge_of::<(Expr, Frac)>()).len()
                ==> a.owns(
                (#[trigger] collected(v, like_of::<(Expr, Frac)>(), merge_of::<(Expr, Frac)>())[k]).0,
            ),
{
    let f = a.prod_entry();
    let ok = a.owns_factor();
    let like_t = like_of::<(Expr, Frac)>();
    let merge_t = merge_of::<(Expr, Frac)>();
    assert forall|x: (Expr, Frac), y: (Expr, Frac)| ok(x) && ok(y) implies #[trigger] like_t(x, y)
        == like_factors()(f(x), f(y)) by {
        if a.term(x.0) == a.term(y.0) {
            lemma_term_injective(a, x.0, y.0);
        }
    }
    assert forall|k: int| 0 <= k < v.len() implies ok(#[trigger] v[k]) by {
        assert(a.owns(v[k].0));
    }
    lemma_collected_map(v, f, ok, like_t, merge_t, like_factors(), merge_factors());
    let c = collected(v, like_t, merge_t);
    assert(c.map_values(f) =~= a.pvec(c));
    assert(v.map_values(f) =~= a.pvec(v));
    assert forall|k: int| 0 <= k < c.len() implies a.owns((#[trigger] c[k]).0) by {
        assert(ok(c[k]));
    }
}

/// Turns a square root to the power `e` into its argument to the power
/// `e / 2`.
pub fn halve(field: &TypeField, p: (Expr, Frac)) -> (q: (Expr, Frac))
    requires
        field@.wf(),
        field@.owns(p.0),
        p.1.wf(),
    ensures
        field@.owns(q.0),
        q.1.wf(),
        (field@.term(q.0), q.1) == halved((field@.term(p.0), p.1)),
{
    match p.0 {
        Expr::Fn(r) => {
            proof {
                lemma_term_fn(field@, r);
            }
            match field.get_fn(r) {
                ExprFn::Sqrt(x) => (x, p.1.mul(Frac::half())),
                _ => p,
            }
        },
        _ => p,
    }
}

/// The expression `t` to the power `e` as factors.
pub fn spread_factors(field: &TypeField, t: Expr, e: Frac) -> (r: Vec<(Expr, Frac)>)
    requires
        field@.wf(),
        field@.owns(t),
        e.wf(),
    ensures
        field@.owns_pvec(r@),
        field@.pvec(r@) == spread(field@.term(t), e),
{
    let mut out: Vec<(Expr, Frac)> = Vec::new();
    match t {
        Expr::Prod(r) => {
            proof {
                lemma_term_prod(field@, r);
            }
            let fs = &field.get_prod(r).factors;
            let ghost tfs = field@.pvec(fs@);
            let mut j: usize = 0;
            assert(field@.pvec(out@) =~= scaled_factors(tfs, e).take(0));
            while j < fs.len()
                invariant
                    j <= fs.len(),
                    field@.wf(),
                    e.wf(),
                    field@.owns_pvec(fs@),
                    field@.owns_pvec(out@),
                    tfs == field@.pvec(fs@),
                    field@.pvec(out@) == scaled_factors(tfs, e).take(j as int),
                decreases fs.len() - j,
            {
                let f = fs[j];
                assert(field@.owns(fs@[j as int].0));
                let h = halve(field, (f.0, f.1.mul(e)));
                let ghost before = out@;
                out.push(h);
                proof {
                    lemma_owns_pvec_push(field@, before, h);
                    assert(tfs[j as int] == (field@.term(f.0), f.1));
                    assert(scaled_factors(tfs, e).take(j as int + 1) =~= scaled_factors(
                        tfs,
                        e,
                    ).take(j as int).push((field@.term(h.0), h.1)));
                }
                j += 1;
            }
            assert(scaled_factors(tfs, e).take(fs.len() as int) =~= scaled_factors(tfs, e));
        },
        _ => {
            let h = halve(field, (t, e));
            out.push(h);
            proof {
                lemma_owns_pvec_push(field@, Seq::empty(), h);
                assert(out@ =~= Seq::empty().push(h));
                assert(field@.pvec(out@) =~= seq![(field@.term(h.0), h.1)]);
            }
        },
    }
    out
}

/// What the factor `p` is replaced by when nested products are flattened.
pub fn expand_entry(field: &mut TypeField, p: (Expr, Frac)) -> (r: Vec<(Expr, Frac)>)
    requires
        old(field)@.wf(),
        old(field)@.owns(p.0),
        p.1.wf(),
    ensures
        final(field)@.wf(),
        final(field)@.extends(old(field)@),
        final(field)@.owns_pvec(r@),
        final(field)@.pvec(r@) == expanded((old(field)@.term(p.0), p.1)),
        old(field)@.holds_bases(expanded((old(field)@.term(p.0), p.1))) ==> final(field)@ == old(
            field,
        )@,
{
    let q = halve(field, p);
    match q.0 {
        Expr::Prod(_) => spread_factors(field, q.0, q.1),
        Expr::Sum(r) => {
            proof {
                lemma_term_sum(field@, r);
            }
            if field.get_sum(r).terms.len() == 1 {
                let entry = field.get_sum(r).terms[0];
                let ghost ts = field@.svec(field@.sums[r.index as int]);
                assert(field@.owns(field@.sums[r.index as int][0].1));
                assert(ts[0] == (entry.0, field@.term(entry.1)));
                proof {
                    let whole = expanded((field@.term(p.0), p.1));
                    assert(whole[0].0 == term_of_frac(entry.0));
                }
                let c = field.add_val(entry.0);
                proof {
                    lemma_extends(old(field)@, field@, entry.1);
                }
                let mut out: Vec<(Expr, Frac)> = Vec::new();
                let first = (c, q.1);
                out.push(first);
                let mut rest = spread_factors(field, entry.1, q.1);
                proof {
                    lemma_owns_pvec_push(field@, Seq::empty(), first);
                    assert(out@ =~= Seq::empty().push(first));
                    lemma_owns_pvec_append(field@, out@, rest@);
                    assert(field@.pvec(out@) =~= seq![(field@.term(c), q.1)]);
                }
                out.append(&mut rest);
                out
            } else {
                let mut out: Vec<(Expr, Frac)> = Vec::new();
                out.push(q);
                proof {
                    lemma_owns_pvec_push(field@, Seq::empty(), q);
                    assert(out@ =~= Seq::empty().push(q));
                    assert(field@.pvec(out@) =~= seq![(field@.term(q.0), q.1)]);
                }
                out
            }
        },
        _ => {
            let mut out: Vec<(Expr, Frac)> = Vec::new();
            out.push(q);
            proof {
                lemma_owns_pvec_push(field@, Seq::empty(), q);
                assert(out@ =~= Seq::empty().push(q));
                assert(field@.pvec(out@) =~= seq![(field@.term(q.0), q.1)]);
            }
            out
        },
    }
}

/// Flattens nested products one level, takes a sum of a single entry as
/// its coefficient times its term, and turns square roots into powers.
pub fn normalise(field: &mut TypeField, v: &Vec<(Expr, Frac)>) -> (r: Vec<(Expr, Frac)>)
    requires
        old(field)@.wf(),
        old(field)@.owns_pvec(v@),
    ensures
        final(field)@.wf(),
        final(field)@.extends(old(field)@),
        final(field)@.owns_pvec(r@),
        final(field)@.pvec(r@) == normalised(old(field)@.pvec(v@)),
        old(field)@.holds_bases(normalised(old(field)@.pvec(v@))) ==> final(field)@ == old(
            field,
        )@,
{
    let mut out: Vec<(Expr, Frac)> = Vec::new();
    let mut i: usize = 0;
    assert(field@.pvec(out@) =~= Seq::empty());
    assert(field@.pvec(v@.take(0)) =~= Seq::empty());
    while i < v.len()
        invariant
            i <= v.len(),
            old(field)@.wf(),
            old(field)@.owns_pvec(v@),
            field@.wf(),
            field@.extends(old(field)@),
            field@.owns_pvec(out@),
            field@.pvec(out@) == normalised(old(field)@.pvec(v@.take(i as int))),
            old(field)@.holds_bases(normalised(old(field)@.pvec(v@))) ==> field@ == old(field)@,
        decreases v.len() - i,
    {
        let p = v[i];
        let ghost start = field@;
        let ghost tp = (old(field)@.term(p.0), p.1);
        let ghost before = out@;
        proof {
            assert(old(field)@.owns(v@[i as int].0));
            lemma_extends(old(field)@, start, p.0);
            if old(field)@.holds_bases(normalised(old(field)@.pvec(v@))) {
                assert(old(field)@.pvec(v@)[i as int] == tp);
                lemma_part_held(old(field)@, old(field)@.pvec(v@), expand_fn(), i as int);
            }
            assert(old(field)@.pvec(v@.take(i as int + 1)) =~= old(field)@.pvec(
                v@.take(i as int),
            ).push(tp));
            lemma_flat_push(old(field)@.pvec(v@.take(i as int)), tp, expand_fn());
        }
        let mut part = expand_entry(field, p);
        proof {
            lemma_extends_pvec(start, field@, before);
            lemma_extends_trans(old(field)@, start, field@);
            lemma_owns_pvec_append(field@, before, part@);
        }
        out.append(&mut part);
        i += 1;
    }
    assert(v@.take(v.len() as int) =~= v@);
    out
}

/// Merges factors with equal bases, adding their exponents.
pub fn collect_like_factors(v: Vec<(Expr, Frac)>) -> (r: Vec<(Expr, Frac)>)
    requires
        forall|i: int| 0 <= i < v.len() ==> (#[trigger] v@[i]).1.wf(),
    ensures
        r@ == collected(v@, like_of::<(Expr, Frac)>(), merge_of::<(Expr, Frac)>()),
        forall|i: int| 0 <= i < r.len() ==> (#[trigger] r@[i]).1.wf(),
{
    collect_like(v)
}

/// The rational that the factor `p` is, where it is a number to a whole or
/// an infinite power.
pub fn scalar_of(field: &TypeField, p: (Expr, Frac)) -> (r: Option<Frac>)
    requires
        field@.wf(),
        field@.owns(p.0),
        p.1.wf(),
    ensures
        r == scalar((field@.term(p.0), p.1)),
        r matches Some(x) ==> x.wf(),
{
    match p.1 {
        Frac::NaN => Some(Frac::NaN),
        Frac::Infinity(s) => match p.0 {
            Expr::InDet(_) => Some(Frac::NaN),
            Expr::One(_) => Some(Frac::NaN),
            Expr::Zero(_) => Some(Frac::NaN),
            Expr::Infty(_, o) => Some(Frac::Infinity(o).endless_power(s)),
            Expr::Val(r) => {
                proof {
                    lemma_val_storable(field@, r);
                }
                Some(field.get_val(r).endless_power(s))
            },
            _ => None,
        },
        Frac::Rational(..) => match p.0 {
            Expr::InDet(_) => Some(Frac::NaN),
            Expr::One(_) => Some(Frac::one()),
            Expr::Zero(_) => Some(Frac::zero().int_power(p.1)),
            Expr::Infty(_, s) => Some(Frac::Infinity(s).int_power(p.1)),
            Expr::Val(r) => {
                proof {
                    lemma_val_storable(field@, r);
                }
                if p.1.is_integer() {
                    Some(field.get_val(r).int_power(p.1))
                } else {
                    None
                }
            },
            _ => None,
        },
    }
}

/// Splits the whole part off every fractional power of a value: the value
/// to the floor of the exponent, then the value to what is left.
pub fn part_powers(field: &TypeField, v: &Vec<(Expr, Frac)>) -> (r: Vec<(Expr, Frac)>)
    requires
        field@.wf(),
        field@.owns_pvec(v@),
    ensures
        field@.owns_pvec(r@),
        field@.pvec(r@) == flat(field@.pvec(v@), part_fn()),
{
    let mut out: Vec<(Expr, Frac)> = Vec::new();
    let mut i: usize = 0;
    assert(field@.pvec(out@) =~= Seq::empty());
    assert(field@.pvec(v@.take(0)) =~= Seq::empty());
    while i < v.len()
        invariant
            i <= v.len(),
            field@.wf(),
            field@.owns_pvec(v@),
            field@.owns_pvec(out@),
            field@.pvec(out@) == flat(field@.pvec(v@.take(i as int)), part_fn()),
        decreases v.len() - i,
    {
        let p = v[i];
        let ghost tp = (field@.term(p.0), p.1);
        let ghost done = field@.pvec(out@);
        let ghost before = out@;
        proof {
            assert(field@.owns(v@[i as int].0));
            assert(field@.pvec(v@.take(i as int + 1)) =~= field@.pvec(v@.take(i as int)).push(tp));
            lemma_flat_push(field@.pvec(v@.take(i as int)), tp, part_fn());
        }
        let mut split = false;
        match p.0 {
            Expr::Val(r) => {
                proof {
                    lemma_val_storable(field@, r);
                }
                if !p.1.is_nan() && !p.1.is_infinite() && !p.1.is_integer() {
                    let whole = p.1.floor();
                    if !whole.is_zero() {
                        split = true;
                        let left = p.1.rest();
                        out.push((p.0, whole));
                        proof {
                            lemma_owns_pvec_push(field@, before, (p.0, whole));
                        }
                        let ghost middle = out@;
                        out.push((p.0, left));
                        proof {
                            lemma_owns_pvec_push(field@, middle, (p.0, left));
                            assert(field@.pvec(out@) =~= done + parted(tp));
                        }
                    }
                }
            },
            _ => {},
        }
        if !split {
            out.push(p);
            proof {
                lemma_owns_pvec_push(field@, before, p);
                assert(field@.pvec(out@) =~= done + parted(tp));
            }
        }
        i += 1;
    }
    assert(v@.take(v.len() as int) =~= v@);
    out
}

/// Takes the numbers out of the factors: the whole part of every fractional
/// power of a value is split off first, and the result is the product of
/// the factors that are numbers, with the factors that are left.
pub fn take_out_vals(field: &TypeField, v: &Vec<(Expr, Frac)>) -> (r: (Frac, Vec<(Expr, Frac)>))
    requires
        field@.wf(),
        field@.owns_pvec(v@),
    ensures
        r.0.wf(),
        r.0 == coefficient(flat(field@.pvec(v@), part_fn())),
        field@.owns_pvec(r.1@),
        field@.pvec(r.1@) == kept(flat(field@.pvec(v@), part_fn()), symbolic()),
{
    let parts = part_powers(field, v);
    split_numbers(field, &parts)
}

/// Splits the factors into the product of those that are numbers and the
/// rest.
pub fn split_numbers(field: &TypeField, v: &Vec<(Expr, Frac)>) -> (r: (Frac, Vec<(Expr, Frac)>))
    requires
        field@.wf(),
        field@.owns_pvec(v@),
    ensures
        r.0.wf(),
        r.0 == coefficient(field@.pvec(v@)),
        field@.owns_pvec(r.1@),
        field@.pvec(r.1@) == kept(field@.pvec(v@), symbolic()),
{
    let mut coeff = Frac::one();
    let mut rest: Vec<(Expr, Frac)> = Vec::new();
    let mut i: usize = 0;
    assert(field@.pvec(v@.take(0)) =~= Seq::empty());
    while i < v.len()
        invariant
            i <= v.len(),
            field@.wf(),
            field@.owns_pvec(v@),
            field@.owns_pvec(rest@),
            coeff.wf(),
            coeff == coefficient(field@.pvec(v@.take(i as int))),
            rest@ == kept(v@.take(i as int), field@.symbolic_entry()),
        decreases v.len() - i,
    {
        let p = v[i];
        assert(field@.owns(v@[i as int].0));
        proof {
            assert(v@.take(i as int + 1).drop_last() =~= v@.take(i as int));
            assert(v@.take(i as int + 1).last() == p);
            assert(field@.pvec(v@.take(i as int + 1)).drop_last() =~= field@.pvec(
                v@.take(i as int),
            ));
            assert(field@.pvec(v@.take(i as int + 1)).last() == (field@.term(p.0), p.1));
        }
        match scalar_of(field, p) {
            Some(x) => {
                coeff = coeff.mul(x);
            },
            None => {
                let ghost before = rest@;
                rest.push(p);
                assert forall|k: int| 0 <= k < rest.len() implies field@.owns(
                    #[trigger] rest@[k].0,
                ) && rest@[k].1.wf() by {
                    if k < before.len() {
                        assert(field@.owns(before[k].0));
                    }
                }
            },
        }
        i += 1;
    }
    proof {
        assert(v@.take(v.len() as int) =~= v@);
        let f = field@.prod_entry();
        lemma_kept_map(v@, f, field@.symbolic_entry(), symbolic());
        assert(kept(v@, field@.symbolic_entry()).map_values(f) =~= field@.pvec(rest@));
        assert(v@.map_values(f) =~= field@.pvec(v@));
    }
    (coeff, rest)
}

/// Drops the factors whose exponent is zero.
pub fn strip_zero_powers(v: Vec<(Expr, Frac)>) -> (r: Vec<(Expr, Frac)>)
    ensures
        r@ == kept(v@, nonzero_power()),
{
    let mut out: Vec<(Expr, Frac)> = Vec::new();
    let mut i: usize = 0;
    while i < v.len()
        invariant
            i <= v.len(),
            out@ == kept(v@.take(i as int), nonzero_power()),
        decreases v.len() - i,
    {
        let entry = v[i];
        proof {
            assert(v@.take(i as int + 1).drop_last() =~= v@.take(i as int));
            assert(v@.take(i as int + 1).last() == entry);
        }
        if !entry.1.is_zero() {
            out.push(entry);
        }
        i += 1;
    }
    proof {
        assert(v@.take(v.len() as int) =~= v@);
    }
    out
}

/// Dropping zero exponents of handles is dropping them of terms.
pub proof fn lemma_strip_factors(a: Arena, v: Seq<(Expr, Frac)>)
    requires
        a.owns_pvec(v),
    ensures
        a.pvec(kept(v, nonzero_power())) == kept(a.pvec(v), nonzero_factor()),
        a.owns_pvec(kept(v, nonzero_power())),
{
    let f = a.prod_entry();
    lemma_kept_map(v, f, nonzero_power(), nonzero_factor());
    assert(kept(v, nonzero_power()).map_values(f) =~= a.pvec(kept(v, nonzero_power())));
    assert(v.map_values(f) =~= a.pvec(v));
    lemma_kept_members(v, nonzero_power());
    let r = kept(v, nonzero_power());
    assert forall|k: int| 0 <= k < r.len() implies a.owns(#[trigger] r[k].0) && r[k].1.wf() by {
        let x = r[k];
        assert(v.contains(x));
        let j = choose|j: int| 0 <= j < v.len() && v[j] == x;
        assert(a.owns(v[j].0));
    }
}

/// Sorts the factors by the canonical order of their bases and then by
/// their exponents; factors that compare equal keep their order.
pub fn sort_pvec(field: &TypeField, v: &mut Vec<(Expr, Frac)>)
    requires
        field@.wf(),
        field@.owns_pvec(old(v)@),
    ensures
        field@.owns_pvec(final(v)@),
        field@.pvec(final(v)@) == sorted(field@.pvec(old(v)@), factor_before()),
{
    let mut out: Vec<(Expr, Frac)> = Vec::new();
    let mut i: usize = 0;
    assert(field@.pvec(out@) =~= Seq::empty());
    assert(field@.pvec(v@.take(0)) =~= Seq::empty());
    while i < v.len()
        invariant
            i <= v.len(),
            v@ == old(v)@,
            field@.wf(),
            field@.owns_pvec(v@),
            field@.owns_pvec(out@),
            field@.pvec(out@) == sorted(field@.pvec(v@.take(i as int)), factor_before()),
        decreases v.len() - i,
    {
        let x = v[i];
        assert(field@.owns(v@[i as int].0));
        let ghost s = field@.pvec(out@);
        let ghost tx = (field@.term(x.0), x.1);
        let mut k: usize = 0;
        let mut found = false;
        while k < out.len() && !found
            invariant
                k <= out.len(),
                field@.wf(),
                field@.owns_pvec(out@),
                field@.owns(x.0),
                x.1.wf(),
                s == field@.pvec(out@),
                tx == (field@.term(x.0), x.1),
                place(s, tx, factor_before(), 0) == place(s, tx, factor_before(), k as int),
                found ==> k < out.len() && factor_before()(tx, s[k as int]),
            decreases out.len() - k + (if found { 0int } else { 1int }),
        {
            let y = out[k];
            assert(field@.owns(out@[k as int].0));
            assert(s[k as int] == (field@.term(y.0), y.1));
            let by_base = field.compare(x.0, y.0);
            let before = match by_base {
                Order::Less => true,
                Order::Equal => match x.1.compare(y.1) {
                    Order::Less => true,
                    _ => false,
                },
                Order::Greater => false,
            };
            if before {
                found = true;
            } else {
                k += 1;
            }
        }
        let ghost old_out = out@;
        out.insert(k, x);
        proof {
            assert(place(s, tx, factor_before(), 0) == k);
            assert(field@.pvec(out@) =~= s.insert(k as int, tx));
            assert(v@.take(i as int + 1).drop_last() =~= v@.take(i as int));
            assert(field@.pvec(v@.take(i as int + 1)).drop_last() =~= field@.pvec(
                v@.take(i as int),
            ));
            assert(field@.pvec(v@.take(i as int + 1)).last() == tx);
            assert forall|j: int| 0 <= j < out.len() implies field@.owns(#[trigger] out@[j].0)
                && out@[j].1.wf() by {
                if j < k {
                    assert(field@.owns(old_out[j].0));
                } else if j > k {
                    assert(field@.owns(old_out[j - 1].0));
                }
            }
        }
        i += 1;
    }
    proof {
        assert(v@.take(v.len() as int) =~= v@);
    }
    *v = out;
}

/// Collects like factors, drops the factors whose exponent has become zero,
/// and sorts.
pub fn simplify_pvec(field: &TypeField, v: Vec<(Expr, Frac)>) -> (r: Vec<(Expr, Frac)>)
    requires
        field@.wf(),
        field@.owns_pvec(v@),
    ensures
        field@.owns_pvec(r@),
        field@.pvec(r@) == pvec_simplified(field@.pvec(v@)),
{
    proof {
        lemma_collect_factors(field@, v@);
        assert forall|i: int| 0 <= i < v.len() implies (#[trigger] v@[i]).1.wf() by {
            assert(field@.owns(v@[i].0));
        }
    }
    let collected = collect_like_factors(v);
    proof {
        assert forall|k: int| 0 <= k < collected.len() implies field@.owns(
            #[trigger] collected@[k].0,
        ) && collected@[k].1.wf() by {
            assert(field@.owns((collected@[k]).0));
            assert((collected@[k]).1.wf());
        }
        lemma_strip_factors(field@, collected@);
    }
    let mut res = strip_zero_powers(collected);
    sort_pvec(field, &mut res);
    res
}

/// Splits every exponent of so many halves into a whole power of the base
/// and the square root of the base, which is added to the arena.
pub fn convert_to_sqrt(field: &mut TypeField, v: &Vec<(Expr, Frac)>) -> (r: Vec<(Expr, Frac)>)
    requires
        old(field)@.wf(),
        old(field)@.owns_pvec(v@),
    ensures
        final(field)@.wf(),
        final(field)@.extends(old(field)@),
        final(field)@.owns_pvec(r@),
        final(field)@.pvec(r@) == flat(old(field)@.pvec(v@), resolve_fn()),
        old(field)@.holds_bases(flat(old(field)@.pvec(v@), resolve_fn())) ==> final(field)@
            == old(field)@,
{
    let mut out: Vec<(Expr, Frac)> = Vec::new();
    let mut i: usize = 0;
    assert(field@.pvec(out@) =~= Seq::empty());
    assert(field@.pvec(v@.take(0)) =~= Seq::empty());
    while i < v.len()
        invariant
            i <= v.len(),
            old(field)@.wf(),
            old(field)@.owns_pvec(v@),
            field@.wf(),
            field@.extends(old(field)@),
            field@.owns_pvec(out@),
            field@.pvec(out@) == flat(old(field)@.pvec(v@.take(i as int)), resolve_fn()),
            old(field)@.holds_bases(flat(old(field)@.pvec(v@), resolve_fn())) ==> field@ == old(
                field,
            )@,
        decreases v.len() - i,
    {
        let p = v[i];
        let ghost start = field@;
        let ghost tp = (old(field)@.term(p.0), p.1);
        let ghost done = field@.pvec(out@);
        let ghost before = out@;
        proof {
            assert(old(field)@.owns(v@[i as int].0));
            lemma_extends(old(field)@, start, p.0);
            if old(field)@.holds_bases(flat(old(field)@.pvec(v@), resolve_fn())) {
                assert(old(field)@.pvec(v@)[i as int] == tp);
                lemma_part_held(old(field)@, old(field)@.pvec(v@), resolve_fn(), i as int);
            }
            assert(old(field)@.pvec(v@.take(i as int + 1)) =~= old(field)@.pvec(
                v@.take(i as int),
            ).push(tp));
            lemma_flat_push(old(field)@.pvec(v@.take(i as int)), tp, resolve_fn());
        }
        let mut split = false;
        match p.1 {
            Frac::Rational(s, n, d) => {
                let fundamental = match p.0 {
                    Expr::InDet(_) => true,
                    Expr::Infty(..) => true,
                    Expr::Zero(_) => true,
                    Expr::One(_) => true,
                    _ => false,
                };
                if d == 2 && !fundamental {
                    split = true;
                    let k: u32 = match s {
                        Sign::Plus => n / 2,
                        Sign::Minus => n / 2 + 1,
                    };
                    proof {
                        let parts = resolved(tp);
                        assert(parts[parts.len() - 1].0 == Term::Fn(
                            FnKind::Sqrt,
                            Box::new(start.term(p.0)),
                        ));
                    }
                    let root = field.add_fn(ExprFn::Sqrt(p.0));
                    proof {
                        lemma_extends_pvec(start, field@, before);
                        lemma_extends_trans(old(field)@, start, field@);
                        lemma_extends(start, field@, p.0);
                        lemma_gcd_one(k as nat);
                    }
                    if k != 0 {
                        let whole = (p.0, Frac::Rational(s, k, 1));
                        out.push(whole);
                        proof {
                            lemma_owns_pvec_push(field@, before, whole);
                        }
                    }
                    let ghost middle = out@;
                    let half = (root, Frac::one());
                    out.push(half);
                    proof {
                        lemma_owns_pvec_push(field@, middle, half);
                        assert(field@.pvec(out@) =~= done + resolved(tp));
                    }
                }
            },
            _ => {},
        }
        if !split {
            out.push(p);
            proof {
                lemma_owns_pvec_push(field@, before, p);
                assert(field@.pvec(out@) =~= done + resolved(tp));
            }
        }
        i += 1;
    }
    assert(v@.take(v.len() as int) =~= v@);
    out
}

/// The arena holds every node that bringing the raw factors `v` to canonical
/// form stores: the bases of the normalised factors, of the merged numbers,
/// of the roots taken and of the square roots split off, the product of what
/// is left where the coefficient is a finite rational other than zero, and
/// the result.
pub open spec fn knows_prod(a: Arena, v: Seq<(Term, Frac)>) -> bool {
    &&& a.holds_bases(normalised(v))
    &&& merges_held(a, factors_collected(v))
    &&& a.holds_bases(factors_rooted(v))
    &&& a.holds_bases(factors_resolved(v))
    &&& (coefficient(factors_parted(v)) is Rational && !coefficient(
        factors_parted(v),
    ).is_zero_spec() ==> a.holds(prod_term(canon_factors(v))))
    &&& a.holds(canon_prod(v))
}

impl TypeField {
    /// The handle of the coefficient `coeff` times the canonical factors
    /// `rest`.
    pub fn assemble(&mut self, coeff: Frac, rest: Vec<(Expr, Frac)>) -> (e: Expr)
        requires
            old(self)@.wf(),
            coeff.wf(),
            old(self)@.owns_pvec(rest@),
            is_canonical_prod(old(self)@.pvec(rest@)),
        ensures
            final(self)@.wf(),
            final(self)@.extends(old(self)@),
            final(self)@.owns(e),
            final(self)@.term(e) == scaled_term(coeff, old(self)@.pvec(rest@)),
            coeff is Rational && !coeff.is_zero_spec() ==> final(self)@.holds(
                prod_term(old(self)@.pvec(rest@)),
            ),
            (coeff is Rational && !coeff.is_zero_spec() ==> old(self)@.holds(
                prod_term(old(self)@.pvec(rest@)),
            )) && old(self)@.holds(scaled_term(coeff, old(self)@.pvec(rest@))) ==> final(self)@
                == old(self)@,
    {
        let ghost factors = self@.pvec(rest@);
        match coeff {
            Frac::NaN => Expr::InDet(self.id()),
            Frac::Infinity(s) => Expr::Infty(self.id(), s),
            Frac::Rational(..) => {
                if coeff.is_zero() {
                    Expr::Zero(self.id())
                } else if rest.len() == 0 {
                    assert(self@.owns(Expr::One(self@.id)) && self@.term(Expr::One(self@.id))
                        == prod_term(factors));
                    let ghost mid = self@;
                    let e = self.add_val(coeff);
                    proof {
                        lemma_holds_kept(mid, self@, prod_term(factors));
                    }
                    e
                } else {
                    let ghost mid = self@;
                    assert(factors[0] == (mid.term(rest@[0].0), rest@[0].1));
                    assert(mid.owns(rest@[0].0));
                    let product = if rest.len() == 1 && rest[0].1.is_one() {
                        rest[0].0
                    } else {
                        self.intern_prod(rest)
                    };
                    let ghost late = self@;
                    assert(late.owns(product) && late.term(product) == prod_term(factors));
                    if coeff.is_one() {
                        product
                    } else {
                        let mut single: Vec<(Frac, Expr)> = Vec::new();
                        single.push((coeff, product));
                        assert(late.svec(single@) =~= seq![(coeff, prod_term(factors))]);
                        let e = self.add_svec(single);
                        proof {
                            lemma_extends_trans(old(self)@, late, self@);
                            lemma_holds_kept(late, self@, prod_term(factors));
                            if old(self)@.holds(prod_term(factors)) && old(self)@.holds(
                                scaled_term(coeff, factors),
                            ) {
                                assert(late == old(self)@);
                            }
                        }
                        e
                    }
                }
            },
        }
    }

    /// The handle of the product with the raw factors `p`, in canonical
    /// form: indeterminate, infinite or zero as the numbers among the
    /// factors make it, a bare rational when no other factor is left, the
    /// bare product when the numbers multiply to one, and else the one-term
    /// sum of the rational coefficient and the product of the rest. A
    /// product of no factors is one, and a lone factor with the exponent one
    /// is its base. The arena stays as it is where it holds already every
    /// node that the steps store, and after the call it holds them all.
    pub fn add_pvec(&mut self, p: Vec<(Expr, Frac)>) -> (e: Expr)
        requires
            old(self)@.wf(),
            old(self)@.owns_pvec(p@),
        ensures
            final(self)@.wf(),
            final(self)@.extends(old(self)@),
            final(self)@.owns(e),
            final(self)@.term(e) == canon_prod(old(self)@.pvec(p@)),
            knows_prod(old(self)@, old(self)@.pvec(p@)) ==> final(self)@ == old(self)@,
            knows_prod(final(self)@, old(self)@.pvec(p@)),
    {
        let ghost pv = self@.pvec(p@);
        let flat_factors = normalise(self, &p);
        let ghost flattened = self@;
        proof {
            lemma_collect_factors(self@, flat_factors@);
            assert forall|i: int| 0 <= i < flat_factors.len() implies (
            #[trigger] flat_factors@[i]).1.wf() by {
                assert(self@.owns(flat_factors@[i].0));
            }
        }
        let gathered = collect_like_factors(flat_factors);
        proof {
            assert forall|k: int| 0 <= k < gathered.len() implies self@.owns(
                #[trigger] gathered@[k].0,
            ) && gathered@[k].1.wf() by {
                assert(self@.owns((gathered@[k]).0));
                assert((gathered@[k]).1.wf());
            }
            assert(flattened.pvec(gathered@) == factors_collected(pv));
        }
        let merged = collect_like_num_powers(self, &gathered);
        let ghost joined = self@;
        proof {
            lemma_extends_trans(old(self)@, flattened, joined);
        }
        let rooted = take_roots(self, &merged);
        let ghost grown = self@;
        proof {
            lemma_extends_trans(old(self)@, joined, grown);
            lemma_extends_trans(flattened, joined, grown);
        }
        let resolved = convert_to_sqrt(self, &rooted);
        let ghost split = self@;
        proof {
            lemma_extends_trans(old(self)@, grown, split);
            lemma_extends_trans(flattened, grown, split);
            lemma_extends_trans(joined, grown, split);
        }
        let (coeff, rest) = take_out_vals(self, &resolved);
        assert(self@.pvec(rest@) == kept(factors_parted(pv), symbolic()));
        proof {
            lemma_pvec_wf(self@, rest@);
            lemma_pvec_simplified_canonical(self@.pvec(rest@));
        }
        let rest = simplify_pvec(self, rest);
        assert(self@.pvec(rest@) == canon_factors(pv));
        proof {
            reveal(canon_prod);
        }
        let e = self.assemble(coeff, rest);
        proof {
            lemma_extends_trans(old(self)@, split, self@);
            lemma_extends_trans(flattened, split, self@);
            lemma_extends_trans(joined, split, self@);
            lemma_extends_trans(grown, split, self@);
            lemma_bases_held(flattened, self@, flat_factors@);
            lemma_bases_held(grown, self@, rooted@);
            lemma_bases_held(split, self@, resolved@);
            let whole = factors_collected(pv);
            assert forall|k: int| 0 <= k <= whole.len() implies self@.holds_bases(
                #[trigger] collected(whole.take(k), like_numbers(), merge_numbers()),
            ) by {
                let c = collected(whole.take(k), like_numbers(), merge_numbers());
                assert(joined.holds_bases(c));
                assert forall|m: int| 0 <= m < c.len() implies self@.holds((#[trigger] c[m]).0) by {
                    lemma_holds_kept(joined, self@, c[m].0);
                }
            }
        }
        e
    }
}

/// A factor whose rationals are all in lowest terms.
pub open spec fn factor_wf() -> spec_fn((Term, Frac)) -> bool {
    |p: (Term, Frac)| p.1.wf() && term_wf(p.0)
}

/// A factor in lowest terms whose exponent is not zero.
pub open spec fn factor_kept() -> spec_fn((Term, Frac)) -> bool {
    |p: (Term, Frac)| p.1.wf() && term_wf(p.0) && !p.1.is_zero_spec()
}

/// The order of the factors of a product is transitive.
pub proof fn lemma_factor_order_transitive(a: (Term, Frac), b: (Term, Frac), c: (Term, Frac))
    requires
        a.1.wf() && term_wf(a.0),
        b.1.wf() && term_wf(b.0),
        c.1.wf() && term_wf(c.0),
        factor_order(a, b) == Order::Less,
        factor_order(b, c) == Order::Less,
    ensures
        factor_order(a, c) == Order::Less,
{
    let ab = term_order(a.0, b.0);
    let bc = term_order(b.0, c.0);
    if ab == Order::Less && bc == Order::Less {
        lemma_term_order_transitive(a.0, b.0, c.0);
    } else if ab == Order::Less && bc == Order::Equal {
        lemma_term_order_equal(b.0, c.0);
    } else if ab == Order::Equal && bc == Order::Less {
        lemma_term_order_equal(a.0, b.0);
    } else if ab == Order::Equal && bc == Order::Equal {
        lemma_term_order_equal(a.0, b.0);
        lemma_term_order_equal(b.0, c.0);
        lemma_term_order_reflexive(a.0);
        lemma_frac_order_transitive(a.1, b.1, c.1);
    }
}

/// The order of the factors of a product is strict: never both ways, and
/// transitive.
pub proof fn lemma_factor_order_strict()
    ensures
        is_strict_order(factor_before(), factor_wf()),
{
    assert forall|a: (Term, Frac), b: (Term, Frac)|
        factor_wf()(a) && factor_wf()(b) && #[trigger] factor_before()(a, b) implies
        !factor_before()(b, a) by {
        lemma_term_order_flip(a.0, b.0);
        lemma_frac_order_flip(a.1, b.1);
    }
    assert forall|a: (Term, Frac), b: (Term, Frac), c: (Term, Frac)|
        factor_wf()(a) && factor_wf()(b) && factor_wf()(c) && #[trigger] factor_before()(a, b)
            && #[trigger] factor_before()(b, c) implies factor_before()(a, c) by {
        lemma_factor_order_transitive(a, b, c);
    }
}

/// A product vector in canonical form: no two factors share a base, no
/// exponent is zero, and the factors are sorted.
pub open spec fn is_canonical_prod(v: Seq<(Term, Frac)>) -> bool {
    &&& forall|i: int| 0 <= i < v.len() ==> !(#[trigger] v[i]).1.is_zero_spec()
    &&& is_collected(v, like_factors())
    &&& is_sorted(v, factor_before())
}

/// Every exponent is in lowest terms and so is every base.
pub open spec fn all_factors_wf(v: Seq<(Term, Frac)>) -> bool {
    forall|i: int| 0 <= i < v.len() ==> (#[trigger] v[i]).1.wf() && term_wf(v[i].0)
}

/// Collecting like factors, dropping zero exponents and sorting yields a
/// vector in canonical form, in lowest terms.
pub proof fn lemma_pvec_simplified_canonical(x: Seq<(Term, Frac)>)
    requires
        all_factors_wf(x),
    ensures
        is_canonical_prod(pvec_simplified(x)),
        all_factors_wf(pvec_simplified(x)),
{
    let p = factor_wf();
    assert forall|i: int| 0 <= i < x.len() implies p(#[trigger] x[i]) by {
        assert(x[i].1.wf() && term_wf(x[i].0));
    }
    let key = |e: (Term, Frac)| e.0;
    assert forall|a: (Term, Frac), b: (Term, Frac)| p(a) && p(b) implies key(
        #[trigger] merge_factors()(a, b),
    ) == key(a) && p(merge_factors()(a, b)) by {
        lemma_frac_sum_wf(a.1, b.1);
    }
    assert forall|a: (Term, Frac), b: (Term, Frac)| #[trigger] like_factors()(a, b) == (key(a)
        == key(b)) by {}
    lemma_collected_keys(x, like_factors(), merge_factors(), key, p);
    let c = collected(x, like_factors(), merge_factors());
    lemma_kept_collected(c, nonzero_factor(), like_factors());
    lemma_kept_all(c, nonzero_factor(), p);
    let k = kept(c, nonzero_factor());
    let q = factor_kept();
    assert forall|i: int| 0 <= i < k.len() implies q(#[trigger] k[i]) by {
        assert(p(k[i]) && nonzero_factor()(k[i]));
    }
    assert forall|a: (Term, Frac), b: (Term, Frac)| #[trigger] like_factors()(a, b)
        == like_factors()(b, a) by {}
    lemma_sorted_keeps(k, factor_before(), like_factors(), q);
    lemma_factor_order_strict();
    assert forall|i: int| 0 <= i < k.len() implies factor_wf()(#[trigger] k[i]) by {
        assert(q(k[i]));
    }
    lemma_sorted_is_sorted(k, factor_before(), factor_wf());
    let s = sorted(k, factor_before());
    assert forall|i: int| 0 <= i < s.len() implies !(#[trigger] s[i]).1.is_zero_spec()
        && s[i].1.wf() && term_wf(s[i].0) by {
        assert(q(s[i]));
    }
}

/// Collecting like factors, dropping zero exponents and sorting leaves a
/// vector in canonical form unchanged.
pub proof fn lemma_pvec_simplified_idempotent(v: Seq<(Term, Frac)>)
    requires
        is_canonical_prod(v),
    ensures
        pvec_simplified(v) == v,
{
    lemma_collected_fixed(v, like_factors(), merge_factors());
    assert forall|i: int| 0 <= i < v.len() implies nonzero_factor()(#[trigger] v[i]) by {
        assert(!v[i].1.is_zero_spec());
    }
    lemma_kept_fixed(v, nonzero_factor());
    lemma_sorted_fixed(v, factor_before());
}

/// The order of the factors of a product decides between any two
/// different factors in lowest terms.
pub proof fn lemma_factor_order_decides()
    ensures
        forall|a: (Term, Frac), b: (Term, Frac)|
            factor_wf()(a) && factor_wf()(b) && a != b ==> #[trigger] factor_before()(a, b)
                || #[trigger] factor_before()(b, a),
{
    assert forall|a: (Term, Frac), b: (Term, Frac)|
        factor_wf()(a) && factor_wf()(b) && a != b implies #[trigger] factor_before()(a, b)
        || #[trigger] factor_before()(b, a) by {
        lemma_term_order_flip(a.0, b.0);
        lemma_frac_order_flip(a.1, b.1);
        if term_order(a.0, b.0) == Order::Equal {
            lemma_term_order_equal(a.0, b.0);
            if frac_order(a.1, b.1) == Order::Equal {
                lemma_frac_order_equal(a.1, b.1);
            }
        }
    }
}

/// A base that the simplification of products leaves alone: a constant or
/// a function other than the square root.
pub open spec fn is_plain(t: Term) -> bool {
    t is Const || (t matches Term::Fn(k, _) && k != FnKind::Sqrt)
}

/// The canonical product of two different plain bases, each to the power
/// one, is the product of the two in their order.
pub proof fn lemma_canon_two_plain(a: Term, b: Term)
    requires
        is_plain(a),
        is_plain(b),
        term_wf(a),
        term_wf(b),
        a != b,
    ensures
        canon_prod(
            seq![(a, Frac::Rational(Sign::Plus, 1, 1)), (b, Frac::Rational(Sign::Plus, 1, 1))],
        ) == Term::Prod(
            sorted(
                seq![(a, Frac::Rational(Sign::Plus, 1, 1)), (b, Frac::Rational(Sign::Plus, 1, 1))],
                factor_before(),
            ),
        ),
        sorted(
            seq![(a, Frac::Rational(Sign::Plus, 1, 1)), (b, Frac::Rational(Sign::Plus, 1, 1))],
            factor_before(),
        ).len() == 2,
{
    let one = Frac::Rational(Sign::Plus, 1, 1);
    let p = (a, one);
    let q = (b, one);
    let v = seq![p, q];
    assert(expanded(p) == seq![p] && expanded(q) == seq![q]);
    lemma_flat_small(p, q, expand_fn());
    assert(seq![p] + seq![q] =~= v);
    assert(normalised(v) == v);
    crate::expr_field::simplify::lemma_collected_two(p, q, like_factors(), merge_factors());
    assert(factors_collected(v) == v);
    crate::expr_field::simplify::lemma_collected_two(p, q, like_numbers(), merge_numbers());
    assert(factors_merged(v) == v);
    assert(crate::expr_field::simplify::root::rooted(p) == seq![p]);
    assert(crate::expr_field::simplify::root::rooted(q) == seq![q]);
    lemma_flat_small(p, q, root_fn());
    assert(factors_rooted(v) == v);
    assert(resolved(p) == seq![p] && resolved(q) == seq![q]);
    lemma_flat_small(p, q, resolve_fn());
    assert(factors_resolved(v) == v);
    lemma_parted_fixed(v);
    assert(factors_parted(v) == v);
    assert(scalar(p) is None && scalar(q) is None);
    assert(coefficient(v) == one) by {
        reveal_with_fuel(coefficient, 3);
        assert(v.drop_last() =~= seq![p]);
        assert(seq![p].drop_last() =~= Seq::<(Term, Frac)>::empty());
    }
    assert forall|i: int| 0 <= i < v.len() implies symbolic()(#[trigger] v[i]) by {}
    lemma_kept_fixed(v, symbolic());
    assert forall|i: int| 0 <= i < v.len() implies nonzero_factor()(#[trigger] v[i]) by {}
    lemma_kept_fixed(v, nonzero_factor());
    crate::expr_field::simplify::lemma_sorted_two(p, q, factor_before());
    let s = sorted(v, factor_before());
    assert(canon_factors(v) == s);
    assert(s.len() == 2);
    reveal(canon_prod);
}

/// The concatenation changes nothing where every entry is replaced by
/// itself.
pub proof fn lemma_flat_fixed<T>(v: Seq<T>, each: spec_fn(T) -> Seq<T>)
    requires
        forall|i: int| 0 <= i < v.len() ==> each(#[trigger] v[i]) == seq![v[i]],
    ensures
        flat(v, each) == v,
    decreases v.len(),
{
    if v.len() > 0 {
        let rest = v.drop_last();
        assert forall|i: int| 0 <= i < rest.len() implies each(#[trigger] rest[i])
            == seq![rest[i]] by {
            assert(each(v[i]) == seq![v[i]]);
        }
        lemma_flat_fixed(rest, each);
        assert(each(v[v.len() - 1]) == seq![v[v.len() - 1]]);
        assert(rest + seq![v.last()] =~= v);
    }
}

/// Factors that hold no value to a fractional power are left as they are
/// when whole parts are split off.
pub proof fn lemma_parted_fixed(v: Seq<(Term, Frac)>)
    requires
        forall|i: int|
            0 <= i < v.len() ==> !((#[trigger] v[i]).0 is Val) || !(v[i].1 is Rational)
                || v[i].1.is_integer_spec() || frac_floor(v[i].1).is_zero_spec(),
    ensures
        flat(v, part_fn()) == v,
{
    assert forall|i: int| 0 <= i < v.len() implies part_fn()(#[trigger] v[i]) == seq![v[i]] by {
        assert(parted(v[i]) == seq![v[i]]);
    }
    lemma_flat_fixed(v, part_fn());
}

/// The coefficient of factors of which none is a number is one.
pub proof fn lemma_coefficient_symbolic(v: Seq<(Term, Frac)>)
    requires
        forall|i: int| 0 <= i < v.len() ==> scalar(#[trigger] v[i]) is None,
    ensures
        coefficient(v) == Frac::Rational(Sign::Plus, 1, 1),
    decreases v.len(),
{
    if v.len() > 0 {
        let rest = v.drop_last();
        assert forall|i: int| 0 <= i < rest.len() implies scalar(#[trigger] rest[i]) is None by {
            assert(scalar(v[i]) is None);
        }
        lemma_coefficient_symbolic(rest);
        assert(scalar(v[v.len() - 1]) is None);
    }
}

/// A product vector of plain bases: every base is a constant or a function
/// other than the square root, and no exponent counts halves.
pub open spec fn is_plain_prod(v: Seq<(Term, Frac)>) -> bool {
    forall|i: int|
        0 <= i < v.len() ==> is_plain((#[trigger] v[i]).0) && (v[i].1 matches Frac::Rational(
            _,
            _,
            d,
        ) && d != 2)
}

/// Running the simplification of products on a vector of plain bases that
/// is in canonical form leaves it unchanged: the result is the product of
/// the very same factors.
pub proof fn lemma_canon_prod_idempotent(v: Seq<(Term, Frac)>)
    requires
        is_canonical_prod(v),
        is_plain_prod(v),
    ensures
        canon_factors(v) == v,
        canon_prod(v) == prod_term(v),
{
    assert forall|i: int| 0 <= i < v.len() implies expand_fn()(#[trigger] v[i]) == seq![v[i]] by {
        assert(is_plain(v[i].0));
        assert(halved(v[i]) == v[i]);
    }
    lemma_flat_fixed(v, expand_fn());
    assert(normalised(v) == v);
    lemma_collected_fixed(v, like_factors(), merge_factors());
    assert(factors_collected(v) == v);
    assert forall|i: int, j: int| 0 <= i < j < v.len() implies !like_numbers()(
        #[trigger] v[i],
        #[trigger] v[j],
    ) by {
        assert(is_plain(v[i].0));
    }
    lemma_collected_fixed(v, like_numbers(), merge_numbers());
    assert(factors_merged(v) == v);
    assert forall|i: int| 0 <= i < v.len() implies root_fn()(#[trigger] v[i]) == seq![v[i]] by {
        assert(is_plain(v[i].0));
    }
    lemma_flat_fixed(v, root_fn());
    assert(factors_rooted(v) == v);
    assert forall|i: int| 0 <= i < v.len() implies resolve_fn()(#[trigger] v[i]) == seq![v[i]] by {
        assert(is_plain(v[i].0) && v[i].1 is Rational);
    }
    lemma_flat_fixed(v, resolve_fn());
    assert(factors_resolved(v) == v);
    assert forall|i: int| 0 <= i < v.len() implies !((#[trigger] v[i]).0 is Val) by {
        assert(is_plain(v[i].0));
    }
    lemma_parted_fixed(v);
    assert(factors_parted(v) == v);
    assert forall|i: int| 0 <= i < v.len() implies scalar(#[trigger] v[i]) is None by {
        assert(is_plain(v[i].0) && v[i].1 is Rational);
    }
    lemma_coefficient_symbolic(v);
    assert forall|i: int| 0 <= i < v.len() implies symbolic()(#[trigger] v[i]) by {
        assert(scalar(v[i]) is None);
    }
    lemma_kept_fixed(v, symbolic());
    lemma_pvec_simplified_idempotent(v);
    reveal(canon_prod);
    assert(Frac::Rational(Sign::Plus, 1, 1).is_one_spec());
    if v.len() == 0 {
        assert(prod_term(v) == Term::One);
    }
}

} // verus!
