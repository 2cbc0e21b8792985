//! Taking roots of rationals.
//!
//! A positive rational to a fractional power `a/q` is split into a rational
//! coefficient and a whole number under the `q`-th root: numerator and
//! denominator are factored into primes, and a prime that occurs `k` times
//! gives its `(k·a) div q`-th power to the coefficient and keeps its
//! `(k·a) mod q`-th power under the root. A prime of the denominator, or of
//! the numerator of a negative power, gives one power more of its reciprocal
//! to the coefficient where needed, so that nothing under the root is
//! inverted.
use vstd::prelude::*;
use crate::frac::{Frac, Sign, frac_pow, frac_product, frac_recip, lemma_gcd_one_left};
use crate::term::{Term, term_of_frac};
use crate::expr_field::Expr;
use crate::expr_field::structs::type_field::{
    Arena, TypeField, lemma_extends, lemma_extends_pvec, lemma_extends_trans, lemma_holds_kept,
    lemma_owns_pvec_append, lemma_owns_pvec_push, lemma_val_storable,
};
use crate::expr_field::simplify::prod::{flat, lemma_bases_held, lemma_flat_push, lemma_part_held};
use crate::expr_field::simplify::{absorb, collected};

verus! {

/// The primes of a number, each with the number of times it occurs, the
/// smallest prime first, as the `prime_factorization` crate finds them.
pub uninterp spec fn prime_factors(n: u32) -> Seq<(u32, u32)>;

/// `prime_factorization::Factorization::<u32>::run` followed by
/// `prime_factor_repr`.
///
/// The outside crate decomposes a number into its prime factors and gives
/// each prime with its count, the smallest first. The decomposition depends
/// on the number alone and goes by the name [`prime_factors`].
#[verifier::external_body]
pub(crate) fn factorize(n: u32) -> (r: Vec<(u32, u32)>)
    requires
        n >= 1,
    ensures
        r@ == prime_factors(n),
{
    prime_factorization::Factorization::<u32>::run(n).prime_factor_repr()
}

/// The whole number `n` as a rational.
pub open spec fn whole(n: u32) -> Frac {
    Frac::Rational(Sign::Plus, n, 1)
}

/// How often a prime that occurs `k` times in a number that is raised to
/// the power `a/q`, or to `-a/q` when `negative`, leaves the root as a whole
/// power (`outside`; for a negative power, of its reciprocal) or stays under
/// it. The part under the root never has a negative power: for a negative
/// power the whole part is rounded up.
pub open spec fn root_count(k: u32, a: u32, q: u32, negative: bool, outside: bool) -> nat {
    let e = k as nat * a as nat;
    let size = q as nat;
    if outside {
        if negative {
            (e + size - 1) as nat / size
        } else {
            e / size
        }
    } else {
        if negative {
            ((size - e % size) as nat) % size
        } else {
            e % size
        }
    }
}

/// The part of the prime powers `f`, raised to `a/q` (or `-a/q`), that
/// leaves the root or stays under it: the product over the primes of the
/// prime, or of its reciprocal when it leaves the root of a negative power,
/// to its [`root_count`].
pub open spec fn root_part(
    f: Seq<(u32, u32)>,
    a: u32,
    q: u32,
    negative: bool,
    outside: bool,
) -> Frac
    decreases f.len(),
{
    if f.len() == 0 {
        Frac::Rational(Sign::Plus, 1, 1)
    } else {
        let base = if outside && negative {
            frac_recip(whole(f.last().0))
        } else {
            whole(f.last().0)
        };
        frac_product(
            root_part(f.drop_last(), a, q, negative, outside),
            frac_pow(base, root_count(f.last().1, a, q, negative, outside)),
        )
    }
}

/// The part of `num / den`, raised to `a/q` (or `-a/q`), that leaves the
/// root or stays under it. The denominator is raised to the opposite power.
pub open spec fn root_share(
    num: u32,
    den: u32,
    a: u32,
    q: u32,
    negative: bool,
    outside: bool,
) -> Frac {
    frac_product(
        root_part(prime_factors(num), a, q, negative, outside),
        root_part(prime_factors(den), a, q, !negative, outside),
    )
}

/// What a factor is replaced by when roots are taken: a positive value to a
/// fractional power becomes its rational coefficient to the power one and
/// the rest, a whole number, under the root. Every other factor stays.
pub open spec fn rooted(p: (Term, Frac)) -> Seq<(Term, Frac)> {
    match p {
        (Term::Val(Frac::Rational(Sign::Plus, n, d)), Frac::Rational(s, a, q)) => if q > 1 && n
            >= 1 && d >= 1 {
            seq![
                (
                    term_of_frac(root_share(n, d, a, q, s == Sign::Minus, true)),
                    Frac::Rational(Sign::Plus, 1, 1),
                ),
                (
                    term_of_frac(root_share(n, d, a, q, s == Sign::Minus, false)),
                    Frac::Rational(Sign::Plus, 1, q),
                ),
            ]
        } else {
            seq![p]
        },
        _ => seq![p],
    }
}

pub open spec fn root_fn() -> spec_fn((Term, Frac)) -> Seq<(Term, Frac)> {
    |p: (Term, Frac)| rooted(p)
}

/// How often a prime that occurs `k` times leaves the root or stays under
/// it.
pub fn root_count_of(k: u32, a: u32, q: u32, negative: bool, outside: bool) -> (n: u64)
    requires
        q > 0,
    ensures
        n == root_count(k, a, q, negative, outside),
{
    assert(k as nat * a as nat <= 0xffff_ffff * 0xffff_ffff) by (nonlinear_arith)
        requires
            k <= 0xffff_ffff,
            a <= 0xffff_ffff,
    ;
    let e: u64 = (k as u64) * (a as u64);
    let size: u64 = q as u64;
    if outside {
        if negative {
            (e + size - 1) / size
        } else {
            e / size
        }
    } else {
        if negative {
            (size - e % size) % size
        } else {
            e % size
        }
    }
}

/// The part of the prime powers `f`, raised to `a/q` (or `-a/q`), that
/// leaves the root or stays under it.
pub fn root_part_of(f: &Vec<(u32, u32)>, a: u32, q: u32, negative: bool, outside: bool) -> (r:
    Frac)
    requires
        q > 0,
    ensures
        r == root_part(f@, a, q, negative, outside),
        r.wf(),
{
    let mut acc = Frac::one();
    let mut i: usize = 0;
    assert(f@.take(0) =~= Seq::empty());
    while i < f.len()
        invariant
            i <= f.len(),
            q > 0,
            acc.wf(),
            acc == root_part(f@.take(i as int), a, q, negative, outside),
        decreases f.len() - i,
    {
        let (prime, count) = f[i];
        let n = root_count_of(count, a, q, negative, outside);
        let base = if outside && negative {
            Frac::from_int(prime).recip()
        } else {
            Frac::from_int(prime)
        };
        proof {
            assert(f@.take(i as int + 1).drop_last() =~= f@.take(i as int));
            assert(f@.take(i as int + 1).last() == f@[i as int]);
        }
        acc = acc.mul(base.pow(n));
        i += 1;
    }
    assert(f@.take(f.len() as int) =~= f@);
    acc
}

/// Splits `num / den` to the power `a/q` (or `-a/q`) into the rational that
/// leaves the root and the whole number that stays under it.
pub fn factor_root(num: u32, den: u32, a: u32, q: u32, negative: bool) -> (r: (Frac, Frac))
    requires
        num >= 1,
        den >= 1,
        q > 0,
    ensures
        r.0 == root_share(num, den, a, q, negative, true),
        r.1 == root_share(num, den, a, q, negative, false),
        r.0.wf(),
        r.1.wf(),
{
    let f_num = factorize(num);
    let f_den = factorize(den);
    let coeff = root_part_of(&f_num, a, q, negative, true).mul(
        root_part_of(&f_den, a, q, !negative, true),
    );
    let rest = root_part_of(&f_num, a, q, negative, false).mul(
        root_part_of(&f_den, a, q, !negative, false),
    );
    (coeff, rest)
}

/// What the factor `p` is replaced by when roots are taken.
pub fn rooted_entry(field: &mut TypeField, p: (Expr, Frac)) -> (r: Vec<(Expr, Frac)>)
    requires
        old(field)@.wf(),
        old(field)@.owns(p.0),
        p.1.wf(),
    ensures
        final(field)@.wf(),
        final(field)@.extends(old(field)@),
        final(field)@.owns_pvec(r@),
        final(field)@.pvec(r@) == rooted((old(field)@.term(p.0), p.1)),
        old(field)@.holds_bases(rooted((old(field)@.term(p.0), p.1))) ==> final(field)@ == old(
            field,
        )@,
{
    let mut out: Vec<(Expr, Frac)> = Vec::new();
    assert(field@.owns_pvec(out@));
    match (p.0, p.1) {
        (Expr::Val(r), Frac::Rational(s, a, q)) => {
            proof {
                lemma_val_storable(field@, r);
            }
            match field.get_val(r) {
                Frac::Rational(Sign::Plus, n, d) => {
                    if q > 1 && n >= 1 && d >= 1 {
                        let (coeff, rest) = factor_root(n, d, a, q, s.is_minus());
                        proof {
                            let parts = rooted((field@.term(p.0), p.1));
                            assert(parts[0].0 == term_of_frac(coeff));
                            assert(parts[1].0 == term_of_frac(rest));
                        }
                        let c = field.add_val(coeff);
                        let ghost mid = field@;
                        let x = field.add_val(rest);
                        proof {
                            lemma_extends_trans(old(field)@, mid, field@);
                            lemma_extends(mid, field@, c);
                            lemma_gcd_one_left(q as nat);
                        }
                        let first = (c, Frac::one());
                        let second = (x, Frac::Rational(Sign::Plus, 1, q));
                        out.push(first);
                        out.push(second);
                        proof {
                            lemma_owns_pvec_push(field@, Seq::empty(), first);
                            lemma_owns_pvec_push(field@, seq![first], second);
                            assert(out@ =~= seq![first].push(second));
                            assert(field@.pvec(out@) =~= rooted((old(field)@.term(p.0), p.1)));
                        }
                        return out;
                    }
                },
                _ => {},
            }
        },
        _ => {},
    }
    out.push(p);
    proof {
        lemma_owns_pvec_push(field@, Seq::empty(), p);
        assert(out@ =~= Seq::empty().push(p));
        assert(field@.pvec(out@) =~= rooted((old(field)@.term(p.0), p.1)));
    }
    out
}

/// Takes the roots of the positive values among the factors: each such
/// value to a fractional power is replaced by its rational coefficient and
/// the rest under the root.
pub fn take_roots(field: &mut TypeField, v: &Vec<(Expr, Frac)>) -> (r: Vec<(Expr, Frac)>)
    requires
        old(field)@.wf(),
        old(field)@.owns_pvec(v@),
    ensures
        final(field)@.wf(),
        final(field)@.extends(old(field)@),
        final(field)@.owns_pvec(r@),
        final(field)@.pvec(r@) == flat(old(field)@.pvec(v@), root_fn()),
        old(field)@.holds_bases(flat(old(field)@.pvec(v@), root_fn())) ==> final(field)@ == old(
            field,
        )@,
{
    let mut out: Vec<(Expr, Frac)> = Vec::new();
    let mut i: usize = 0;
    assert(field@.pvec(out@) =~= Seq::empty());
    assert(field@.pvec(v@.take(0)) =~= Seq::empty());
    while i < v.len()
        invariant
            i <= v.len(),
            old(field)@.wf(),
            old(field)@.owns_pvec(v@),
            field@.wf(),
            field@.extends(old(field)@),
            field@.owns_pvec(out@),
            field@.pvec(out@) == flat(old(field)@.pvec(v@.take(i as int)), root_fn()),
            old(field)@.holds_bases(flat(old(field)@.pvec(v@), root_fn())) ==> field@ == old(
                field,
            )@,
        decreases v.len() - i,
    {
        let p = v[i];
        let ghost start = field@;
        let ghost tp = (old(field)@.term(p.0), p.1);
        let ghost before = out@;
        proof {
            assert(old(field)@.owns(v@[i as int].0));
            lemma_extends(old(field)@, start, p.0);
            if old(field)@.holds_bases(flat(old(field)@.pvec(v@), root_fn())) {
                assert(old(field)@.pvec(v@)[i as int] == tp);
                lemma_part_held(old(field)@, old(field)@.pvec(v@), root_fn(), i as int);
            }
            assert(old(field)@.pvec(v@.take(i as int + 1)) =~= old(field)@.pvec(
                v@.take(i as int),
            ).push(tp));
            lemma_flat_push(old(field)@.pvec(v@.take(i as int)), tp, root_fn());
        }
        let mut part = rooted_entry(field, p);
        proof {
            lemma_extends_pvec(start, field@, before);
            lemma_extends_trans(old(field)@, start, field@);
            lemma_owns_pvec_append(field@, before, part@);
        }
        out.append(&mut part);
        i += 1;
    }
    assert(v@.take(v.len() as int) =~= v@);
    out
}

/// A positive value to a fractional power.
pub open spec fn is_number_power(p: (Term, Frac)) -> bool {
    p.0 matches Term::Val(Frac::Rational(Sign::Plus, _, _)) && p.1 is Rational
        && !p.1.is_integer_spec()
}

/// Two positive values to one and the same fractional power are alike:
/// they combine under the one root.
pub open spec fn like_numbers() -> spec_fn((Term, Frac), (Term, Frac)) -> bool {
    |a: (Term, Frac), b: (Term, Frac)| is_number_power(a) && is_number_power(b) && a.1 == b.1
}

/// Like number powers are merged by multiplying the values.
pub open spec fn merge_numbers() -> spec_fn((Term, Frac), (Term, Frac)) -> (Term, Frac) {
    |a: (Term, Frac), b: (Term, Frac)|
        match (a.0, b.0) {
            (Term::Val(x), Term::Val(y)) => (term_of_frac(frac_product(x, y)), a.1),
            _ => a,
        }
}

/// The positive value that the factor `p` raises to a fractional power, if
/// it is such a factor.
pub fn number_power_of(field: &TypeField, p: (Expr, Frac)) -> (r: Option<Frac>)
    requires
        field@.wf(),
        field@.owns(p.0),
        p.1.wf(),
    ensures
        r is Some <==> is_number_power((field@.term(p.0), p.1)),
        r matches Some(x) ==> field@.term(p.0) == Term::Val(x) && x.wf(),
{
    match (p.0, p.1) {
        (Expr::Val(r), Frac::Rational(_, _, d)) => {
            proof {
                lemma_val_storable(field@, r);
            }
            let x = field.get_val(r);
            match x {
                Frac::Rational(Sign::Plus, _, _) => if d != 1 {
                    Some(x)
                } else {
                    None
                },
                _ => None,
            }
        },
        _ => None,
    }
}

/// The arena holds the bases of the factors `v` merged as far as any of
/// their first entries goes.
pub open spec fn merges_held(a: Arena, v: Seq<(Term, Frac)>) -> bool {
    forall|k: int|
        0 <= k <= v.len() ==> a.holds_bases(
            #[trigger] collected(v.take(k), like_numbers(), merge_numbers()),
        )
}

/// Multiplies the positive values that are raised to one and the same
/// fractional power into one value under that power: each is merged into
/// the first earlier factor that is such a power.
pub fn collect_like_num_powers(field: &mut TypeField, v: &Vec<(Expr, Frac)>) -> (r: Vec<
    (Expr, Frac),
>)
    requires
        old(field)@.wf(),
        old(field)@.owns_pvec(v@),
    ensures
        final(field)@.wf(),
        final(field)@.extends(old(field)@),
        final(field)@.owns_pvec(r@),
        final(field)@.pvec(r@) == collected(old(field)@.pvec(v@), like_numbers(), merge_numbers()),
        merges_held(old(field)@, old(field)@.pvec(v@)) ==> final(field)@ == old(field)@,
        merges_held(final(field)@, old(field)@.pvec(v@)),
{
    let mut acc: Vec<(Expr, Frac)> = Vec::new();
    let mut i: usize = 0;
    assert(field@.pvec(acc@) =~= Seq::empty());
    assert(old(field)@.pvec(v@.take(0)) =~= Seq::empty());
    while i < v.len()
        invariant
            i <= v.len(),
            old(field)@.wf(),
            old(field)@.owns_pvec(v@),
            field@.wf(),
            field@.extends(old(field)@),
            field@.owns_pvec(acc@),
            field@.pvec(acc@) == collected(
                old(field)@.pvec(v@.take(i as int)),
                like_numbers(),
                merge_numbers(),
            ),
            merges_held(old(field)@, old(field)@.pvec(v@)) ==> field@ == old(field)@,
            forall|k: int|
                0 <= k <= i ==> field@.holds_bases(
                    #[trigger] collected(
                        old(field)@.pvec(v@).take(k),
                        like_numbers(),
                        merge_numbers(),
                    ),
                ),
        decreases v.len() - i,
    {
        let item = v[i];
        let ghost start = field@;
        let ghost titem = (old(field)@.term(item.0), item.1);
        let ghost before = acc@;
        let ghost tbefore = start.pvec(before);
        let ghost whole = old(field)@.pvec(v@);
        let ghost next = collected(whole.take(i as int + 1), like_numbers(), merge_numbers());
        proof {
            assert(old(field)@.owns(v@[i as int].0));
            lemma_extends(old(field)@, start, item.0);
            assert(whole.take(i as int + 1) =~= old(field)@.pvec(v@.take(i as int + 1)));
            assert(whole.take(i as int) =~= old(field)@.pvec(v@.take(i as int)));
            assert(whole.take(i as int + 1).drop_last() =~= whole.take(i as int));
            assert(whole.take(i as int + 1).last() == titem);
            assert(tbefore == collected(whole.take(i as int), like_numbers(), merge_numbers()));
            assert(next == absorb(tbefore, titem, like_numbers(), merge_numbers(), 0));
            if merges_held(old(field)@, whole) {
                assert(old(field)@.holds_bases(next));
            }
            assert(old(field)@.pvec(v@.take(i as int + 1)).drop_last() =~= old(field)@.pvec(
                v@.take(i as int),
            ));
            assert(old(field)@.pvec(v@.take(i as int + 1)).last() == titem);
        }
        let number = number_power_of(field, item);
        let mut j: usize = 0;
        let mut found = false;
        while j < acc.len() && !found
            invariant
                j <= acc.len(),
                start.wf(),
                field@.wf(),
                field@.extends(start),
                start.owns(item.0),
                item.1.wf(),
                titem == (start.term(item.0), item.1),
                number is Some <==> is_number_power(titem),
                number matches Some(x) ==> titem.0 == Term::Val(x) && x.wf(),
                start.owns_pvec(before),
                tbefore == start.pvec(before),
                field@.owns_pvec(acc@),
                next == absorb(tbefore, titem, like_numbers(), merge_numbers(), 0),
                start.holds_bases(next) ==> field@ == start,
                !found ==> field@ == start && acc@ == before && absorb(
                    tbefore,
                    titem,
                    like_numbers(),
                    merge_numbers(),
                    0,
                ) == absorb(tbefore, titem, like_numbers(), merge_numbers(), j as int),
                found ==> field@.pvec(acc@) == absorb(
                    tbefore,
                    titem,
                    like_numbers(),
                    merge_numbers(),
                    0,
                ),
            decreases acc.len() - j + (if found { 0int } else { 1int }),
        {
            let other = acc[j];
            assert(start.owns(before[j as int].0));
            assert(tbefore[j as int] == (start.term(other.0), other.1));
            let mut merged = false;
            match number {
                Some(x) => {
                    if other.1 == item.1 {
                        match number_power_of(field, other) {
                            Some(y) => {
                                merged = true;
                                proof {
                                    assert(next == tbefore.update(
                                        j as int,
                                        merge_numbers()(tbefore[j as int], titem),
                                    ));
                                    assert(next[j as int].0 == term_of_frac(frac_product(y, x)));
                                }
                                let product = field.add_val(y.mul(x));
                                proof {
                                    lemma_extends_pvec(start, field@, before);
                                }
                                acc.set(j, (product, other.1));
                                proof {
                                    assert forall|k: int| 0 <= k < acc.len() implies field@.owns(
                                        (#[trigger] acc@[k]).0,
                                    ) && acc@[k].1.wf() by {
                                        if k != j {
                                            assert(field@.owns(before[k].0));
                                            assert(acc@[k] == before[k]);
                                        }
                                    }
                                    assert(field@.pvec(acc@) =~= tbefore.update(
                                        j as int,
                                        merge_numbers()(tbefore[j as int], titem),
                                    ));
                                }
                                found = true;
                            },
                            None => {},
                        }
                    }
                },
                None => {},
            }
            if !merged {
                j += 1;
            }
        }
        if !found {
            acc.push(item);
            proof {
                lemma_owns_pvec_push(field@, before, item);
            }
        }
        proof {
            lemma_extends_trans(old(field)@, start, field@);
            assert(field@.pvec(acc@) == next);
            lemma_bases_held(field@, field@, acc@);
            assert forall|k: int| 0 <= k <= i + 1 implies field@.holds_bases(
                #[trigger] collected(whole.take(k), like_numbers(), merge_numbers()),
            ) by {
                if k <= i {
                    let c = collected(whole.take(k), like_numbers(), merge_numbers());
                    assert(start.holds_bases(c));
                    assert forall|m: int| 0 <= m < c.len() implies field@.holds(
                        (#[trigger] c[m]).0,
                    ) by {
                        lemma_holds_kept(start, field@, c[m].0);
                    }
                }
            }
        }
        i += 1;
    }
    assert(v@.take(v.len() as int) =~= v@);
    assert(old(field)@.pvec(v@).len() == v.len());
    acc
}

} // verus!
