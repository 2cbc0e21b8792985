//! Printing in the textual notation.
//!
//! `O`, `I`, `?` and `∞` are the fundamentals; a value is its fraction; a
//! constant is its tag; a sum is `Σ` and a product `Π` followed by its
//! entries, a single entry as `(x,y)` and several as `[(x,y),…]`; a function
//! is its glyph followed by its argument.
use vstd::prelude::*;
use crate::io_traits::Char;
use crate::frac::{Frac, Sign};
use crate::expr_field::{Expr, ExprFnTrait, FieldRef};
use crate::expr_field::io::char::kind_glyph;
use crate::expr_field::structs::Const;
use crate::io::scanner::{known_constant, known_constants, lookup};
use crate::expr_field::structs::type_field::{
    Arena, TypeField, lemma_term_fn, lemma_term_prod, lemma_term_sum,
};

verus! {

/// The text that the `fraction` crate prints for a rational.
pub uninterp spec fn frac_text(f: Frac) -> Seq<char>;

/// `Display` of `fraction::GenericFraction<u32>`, as characters.
///
/// The outside formatter is long; the text it yields for a value depends on
/// the value alone and goes by the name [`frac_text`].
#[verifier::external_body]
pub(crate) fn frac_chars(f: Frac) -> (r: Vec<char>)
    requires
        f.wf(),
    ensures
        r@ == frac_text(f),
{
    let g = match f {
        Frac::NaN => fraction::GenericFraction::<u32>::NaN,
        Frac::Infinity(Sign::Plus) => fraction::GenericFraction::<u32>::infinity(),
        Frac::Infinity(Sign::Minus) => fraction::GenericFraction::<u32>::neg_infinity(),
        Frac::Rational(Sign::Plus, n, d) => fraction::GenericFraction::<u32>::new(n, d),
        Frac::Rational(Sign::Minus, n, d) => fraction::GenericFraction::<u32>::new_neg(n, d),
    };
    format!("{}", g).chars().collect()
}

/// `String::from_iter` on characters.
#[verifier::external_body]
pub(crate) fn string_of(chars: &Vec<char>) -> (r: String)
    ensures
        r@ == chars@,
{
    String::from_iter(chars.iter())
}

/// The character of the decimal digit `d`.
pub open spec fn digit_char(d: int) -> char {
    if d == 0 {
        '0'
    } else if d == 1 {
        '1'
    } else if d == 2 {
        '2'
    } else if d == 3 {
        '3'
    } else if d == 4 {
        '4'
    } else if d == 5 {
        '5'
    } else if d == 6 {
        '6'
    } else if d == 7 {
        '7'
    } else if d == 8 {
        '8'
    } else {
        '9'
    }
}

/// The decimal digits of `n`, the first of them not zero unless `n` is
/// below ten.
pub open spec fn digits_text(n: nat) -> Seq<char>
    decreases n,
{
    if n < 10 {
        seq![digit_char(n as int)]
    } else {
        digits_text(n / 10).push(digit_char((n % 10) as int))
    }
}

/// The last `places` decimal digits of `n`, zeros included.
pub open spec fn places_text(n: nat, places: nat) -> Seq<char>
    decreases places,
{
    if places == 0 {
        Seq::empty()
    } else {
        places_text(n / 10, (places - 1) as nat).push(digit_char((n % 10) as int))
    }
}

/// The decimal text of so many billionths: a minus sign where they are
/// negative, the whole part, a point, and nine decimals.
pub open spec fn decimal_text(k: i64) -> Seq<char> {
    let m: nat = if k < 0 {
        (-k) as nat
    } else {
        k as nat
    };
    (if k < 0 {
        seq!['-']
    } else {
        Seq::empty()
    }) + digits_text(m / 1_000_000_000) + seq!['.'] + places_text(m % 1_000_000_000, 9)
}

/// The text of a constant: its tag alone where the notation knows the
/// constant by that tag, else the tag and the approximation in parentheses.
pub open spec fn const_text(c: Const) -> Seq<char> {
    match lookup(known_constants(), c.ch) {
        Some(k) => if k.approx == c.approx {
            seq![c.ch]
        } else {
            seq![c.ch, '('] + decimal_text(c.approx) + seq![')']
        },
        None => seq![c.ch, '('] + decimal_text(c.approx) + seq![')'],
    }
}

/// The character of the decimal digit `d`.
pub fn digit_glyph(d: u64) -> (c: char)
    requires
        d <= 9,
    ensures
        c == digit_char(d as int),
{
    if d == 0 {
        '0'
    } else if d == 1 {
        '1'
    } else if d == 2 {
        '2'
    } else if d == 3 {
        '3'
    } else if d == 4 {
        '4'
    } else if d == 5 {
        '5'
    } else if d == 6 {
        '6'
    } else if d == 7 {
        '7'
    } else if d == 8 {
        '8'
    } else {
        '9'
    }
}

/// Appends the decimal digits of `n`.
pub fn push_digits(out: &mut Vec<char>, n: u64)
    ensures
        final(out)@ == old(out)@ + digits_text(n as nat),
    decreases n,
{
    if n >= 10 {
        push_digits(out, n / 10);
        out.push(digit_glyph(n % 10));
        assert(out@ =~= old(out)@ + digits_text(n as nat));
    } else {
        out.push(digit_glyph(n));
        assert(out@ =~= old(out)@ + digits_text(n as nat));
    }
}

/// Appends the last `places` decimal digits of `n`.
pub fn push_places(out: &mut Vec<char>, n: u64, places: u8)
    ensures
        final(out)@ == old(out)@ + places_text(n as nat, places as nat),
    decreases places,
{
    if places > 0 {
        push_places(out, n / 10, places - 1);
        out.push(digit_glyph(n % 10));
        assert(out@ =~= old(out)@ + places_text(n as nat, places as nat));
    } else {
        assert(out@ =~= old(out)@ + places_text(n as nat, places as nat));
    }
}

/// The decimal text of so many billionths.
pub fn decimal_chars(k: i64) -> (r: Vec<char>)
    ensures
        r@ == decimal_text(k),
{
    let mut out: Vec<char> = Vec::new();
    let m: u64 = if k < 0 {
        out.push('-');
        (-(k + 1)) as u64 + 1
    } else {
        k as u64
    };
    let ghost sign = out@;
    push_digits(&mut out, m / 1_000_000_000);
    out.push('.');
    push_places(&mut out, m % 1_000_000_000, 9);
    assert(out@ =~= decimal_text(k));
    out
}

/// The text of a constant.
pub fn const_chars(c: Const) -> (r: Vec<char>)
    ensures
        r@ == const_text(c),
{
    let mut out: Vec<char> = Vec::new();
    out.push(c.ch);
    match known_constant(c.ch) {
        Some(k) => {
            if k.approx == c.approx {
                assert(out@ =~= const_text(c));
                return out;
            }
        },
        None => {},
    }
    out.push('(');
    let mut digits = decimal_chars(c.approx);
    out.append(&mut digits);
    out.push(')');
    assert(out@ =~= const_text(c));
    out
}

/// One entry `(x,y)`.
pub open spec fn tuple_text(p: (Seq<char>, Seq<char>)) -> Seq<char> {
    seq!['('] + p.0 + seq![','] + p.1 + seq![')']
}

/// The entries from `i` on, each with a comma in front.
pub open spec fn tuples_from(v: Seq<(Seq<char>, Seq<char>)>, i: int) -> Seq<char>
    decreases v.len() - i,
{
    if 0 <= i < v.len() {
        seq![','] + tuple_text(v[i]) + tuples_from(v, i + 1)
    } else {
        Seq::empty()
    }
}

/// The entries of a sum or product: `()` for none, `(x,y)` for one,
/// `[(x,y),…]` for several.
pub open spec fn tuple_list(v: Seq<(Seq<char>, Seq<char>)>) -> Seq<char> {
    if v.len() == 0 {
        seq!['(', ')']
    } else if v.len() == 1 {
        tuple_text(v[0])
    } else {
        seq!['['] + tuple_text(v[0]) + tuples_from(v, 1) + seq![']']
    }
}

impl Arena {
    /// The text of an expression.
    pub open spec fn text(self, e: Expr) -> Seq<char>
        decreases self.rank(e), 1nat,
    {
        match e {
            Expr::Zero(_) => seq!['O'],
            Expr::One(_) => seq!['I'],
            Expr::InDet(_) => seq!['?'],
            Expr::Infty(_, s) => if s == Sign::Minus {
                seq!['-', '∞']
            } else {
                seq!['∞']
            },
            Expr::Const(r) => const_text(self.consts[r.index as int]),
            Expr::Val(r) => frac_text(self.vals[r.index as int]),
            Expr::Sum(r) => seq!['Σ'] + tuple_list(self.entry_texts(e)),
            Expr::Prod(r) => seq!['Π'] + tuple_list(self.entry_texts(e)),
            Expr::Fn(r) => {
                let f = self.fns[r.index as int];
                seq![kind_glyph(f.kind_spec())] + (if self.rank(f.inner_spec()) < self.rank(e) {
                    self.text(f.inner_spec())
                } else {
                    Seq::empty()
                })
            },
        }
    }

    /// The texts of the entries of a stored sum or product.
    pub open spec fn entry_texts(self, e: Expr) -> Seq<(Seq<char>, Seq<char>)>
        decreases self.rank(e), 0nat,
    {
        match e {
            Expr::Sum(r) => {
                let v = self.sums[r.index as int];
                Seq::new(
                    v.len(),
                    |k: int|
                        (
                            frac_text(v[k].0),
                            if self.rank(v[k].1) < self.rank(e) {
                                self.text(v[k].1)
                            } else {
                                Seq::empty()
                            },
                        ),
                )
            },
            Expr::Prod(r) => {
                let v = self.prods[r.index as int];
                Seq::new(
                    v.len(),
                    |k: int|
                        (
                            if self.rank(v[k].0) < self.rank(e) {
                                self.text(v[k].0)
                            } else {
                                Seq::empty()
                            },
                            frac_text(v[k].1),
                        ),
                )
            },
            _ => Seq::empty(),
        }
    }

    /// The texts of the entries of a raw sum vector.
    pub open spec fn svec_texts(self, v: Seq<(Frac, Expr)>) -> Seq<(Seq<char>, Seq<char>)> {
        Seq::new(v.len(), |k: int| (frac_text(v[k].0), self.text(v[k].1)))
    }

    /// The texts of the entries of a raw product vector.
    pub open spec fn pvec_texts(self, v: Seq<(Expr, Frac)>) -> Seq<(Seq<char>, Seq<char>)> {
        Seq::new(v.len(), |k: int| (self.text(v[k].0), frac_text(v[k].1)))
    }
}

/// Appends the characters of `part` to `out`.
pub fn push_all(out: &mut Vec<char>, part: &Vec<char>)
    ensures
        final(out)@ == old(out)@ + part@,
{
    let mut i: usize = 0;
    assert(out@ =~= old(out)@ + part@.take(0));
    while i < part.len()
        invariant
            i <= part.len(),
            out@ == old(out)@ + part@.take(i as int),
        decreases part.len() - i,
    {
        out.push(part[i]);
        assert(part@.take(i as int + 1) =~= part@.take(i as int).push(part@[i as int]));
        assert(out@ =~= old(out)@ + part@.take(i as int + 1));
        i += 1;
    }
    assert(part@.take(part.len() as int) =~= part@);
}

/// Appends one entry `(x,y)` to `out`.
fn push_tuple(out: &mut Vec<char>, p: &(Vec<char>, Vec<char>))
    ensures
        final(out)@ == old(out)@ + tuple_text((p.0@, p.1@)),
{
    out.push('(');
    push_all(out, &p.0);
    out.push(',');
    push_all(out, &p.1);
    out.push(')');
    assert(out@ =~= old(out)@ + tuple_text((p.0@, p.1@)));
}

/// The views of rendered entries.
pub open spec fn rendered(v: Seq<(Vec<char>, Vec<char>)>) -> Seq<(Seq<char>, Seq<char>)> {
    Seq::new(v.len(), |k: int| (v[k].0@, v[k].1@))
}

/// Appends the entries of a sum or product to `out`: `()` for none, `(x,y)`
/// for one, `[(x,y),…]` for several.
pub fn fmt_tuple_vec(v: &Vec<(Vec<char>, Vec<char>)>, out: &mut Vec<char>)
    ensures
        final(out)@ == old(out)@ + tuple_list(rendered(v@)),
{
    let ghost parts = rendered(v@);
    if v.len() == 0 {
        out.push('(');
        out.push(')');
        assert(out@ =~= old(out)@ + tuple_list(parts));
    } else if v.len() == 1 {
        assert(parts[0] == (v@[0].0@, v@[0].1@));
        push_tuple(out, &v[0]);
    } else {
        out.push('[');
        assert(parts[0] == (v@[0].0@, v@[0].1@));
        push_tuple(out, &v[0]);
        let ghost head = out@;
        let mut i: usize = 1;
        assert(head =~= head + Seq::<char>::empty());
        while i < v.len()
            invariant
                1 <= i <= v.len(),
                parts == rendered(v@),
                out@ + tuples_from(parts, i as int) == head + tuples_from(parts, 1),
            decreases v.len() - i,
        {
            let ghost before = out@;
            assert(parts[i as int] == (v@[i as int].0@, v@[i as int].1@));
            out.push(',');
            push_tuple(out, &v[i]);
            assert(out@ + tuples_from(parts, i as int + 1) =~= before + tuples_from(
                parts,
                i as int,
            ));
            i += 1;
        }
        assert(tuples_from(parts, v.len() as int) =~= Seq::<char>::empty());
        assert(out@ =~= head + tuples_from(parts, 1));
        out.push(']');
        assert(out@ =~= old(out)@ + tuple_list(parts));
    }
}

/// The text of a stored sum.
pub proof fn lemma_text_sum(a: Arena, r: FieldRef)
    requires
        a.wf(),
        a.owns(Expr::Sum(r)),
    ensures
        a.text(Expr::Sum(r)) == seq!['Σ'] + tuple_list(a.svec_texts(a.sums[r.index as int])),
{
    lemma_term_sum(a, r);
    assert(a.entry_texts(Expr::Sum(r)) =~= a.svec_texts(a.sums[r.index as int]));
}

/// The text of a stored product.
pub proof fn lemma_text_prod(a: Arena, r: FieldRef)
    requires
        a.wf(),
        a.owns(Expr::Prod(r)),
    ensures
        a.text(Expr::Prod(r)) == seq!['Π'] + tuple_list(a.pvec_texts(a.prods[r.index as int])),
{
    lemma_term_prod(a, r);
    assert(a.entry_texts(Expr::Prod(r)) =~= a.pvec_texts(a.prods[r.index as int]));
}

impl TypeField {
    /// The characters of the text of `e`.
    pub fn chars(&self, e: Expr) -> (r: Vec<char>)
        requires
            self@.wf(),
            self@.owns(e),
        ensures
            r@ == self@.text(e),
        decreases self@.rank(e),
    {
        let mut out: Vec<char> = Vec::new();
        match e {
            Expr::Zero(_) => {
                out.push('O');
            },
            Expr::One(_) => {
                out.push('I');
            },
            Expr::InDet(_) => {
                out.push('?');
            },
            Expr::Infty(_, s) => {
                match s {
                    Sign::Minus => {
                        out.push('-');
                    },
                    Sign::Plus => {},
                }
                out.push('∞');
            },
            Expr::Const(r) => {
                out = const_chars(self.get_const(r));
            },
            Expr::Val(r) => {
                proof {
                    crate::expr_field::structs::type_field::lemma_val_storable(self@, r);
                }
                out = frac_chars(self.get_val(r));
            },
            Expr::Sum(r) => {
                proof {
                    lemma_term_sum(self@, r);
                    lemma_text_sum(self@, r);
                }
                let s = &self.get_sum(r).terms;
                let mut parts: Vec<(Vec<char>, Vec<char>)> = Vec::new();
                let mut k: usize = 0;
                assert(rendered(parts@) =~= self@.svec_texts(s@).take(0));
                while k < s.len()
                    invariant
                        k <= s.len(),
                        self@.wf(),
                        self@.owns_svec(s@),
                        forall|j: int|
                            0 <= j < s@.len() ==> self@.rank(#[trigger] s@[j].1) < self@.rank(e),
                        rendered(parts@) == self@.svec_texts(s@).take(k as int),
                    decreases s.len() - k,
                {
                    let entry = s[k];
                    assert(self@.owns(s@[k as int].1));
                    let c = frac_chars(entry.0);
                    let t = self.chars(entry.1);
                    let ghost before = rendered(parts@);
                    parts.push((c, t));
                    assert(rendered(parts@) =~= before.push((c@, t@)));
                    assert(self@.svec_texts(s@).take(k as int + 1) =~= self@.svec_texts(
                        s@,
                    ).take(k as int).push((c@, t@)));
                    k += 1;
                }
                assert(self@.svec_texts(s@).take(s.len() as int) =~= self@.svec_texts(s@));
                out.push('Σ');
                fmt_tuple_vec(&parts, &mut out);
            },
            Expr::Prod(r) => {
                proof {
                    lemma_term_prod(self@, r);
                    lemma_text_prod(self@, r);
                }
                let s = &self.get_prod(r).factors;
                let mut parts: Vec<(Vec<char>, Vec<char>)> = Vec::new();
                let mut k: usize = 0;
                assert(rendered(parts@) =~= self@.pvec_texts(s@).take(0));
                while k < s.len()
                    invariant
                        k <= s.len(),
                        self@.wf(),
                        self@.owns_pvec(s@),
                        forall|j: int|
                            0 <= j < s@.len() ==> self@.rank(#[trigger] s@[j].0) < self@.rank(e),
                        rendered(parts@) == self@.pvec_texts(s@).take(k as int),
                    decreases s.len() - k,
                {
                    let entry = s[k];
                    assert(self@.owns(s@[k as int].0));
                    let t = self.chars(entry.0);
                    let c = frac_chars(entry.1);
                    let ghost before = rendered(parts@);
                    parts.push((t, c));
                    assert(rendered(parts@) =~= before.push((t@, c@)));
                    assert(self@.pvec_texts(s@).take(k as int + 1) =~= self@.pvec_texts(
                        s@,
                    ).take(k as int).push((t@, c@)));
                    k += 1;
                }
                assert(self@.pvec_texts(s@).take(s.len() as int) =~= self@.pvec_texts(s@));
                out.push('Π');
                fmt_tuple_vec(&parts, &mut out);
            },
            Expr::Fn(r) => {
                proof {
                    lemma_term_fn(self@, r);
                }
                let f = self.get_fn(r);
                out.push(f.ch());
                let inner = self.chars(f.inner());
                push_all(&mut out, &inner);
            },
        }
        assert(out@ =~= self@.text(e));
        out
    }

    /// The text of `e` in the textual notation.
    pub fn print(&self, e: Expr) -> (r: String)
        requires
            self@.wf(),
            self@.owns(e),
        ensures
            r@ == self@.text(e),
    {
        let chars = self.chars(e);
        string_of(&chars)
    }
}

} // verus!
