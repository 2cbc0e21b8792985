//! The mathematical model of an expression: a finite tree.
//!
//! Every handle into an arena stands for one [`Term`]. Contracts of the
//! arena and of the operators are stated over terms, so they do not depend
//! on where a node happens to be stored.
use vstd::prelude::*;
use crate::frac::{
    Frac, Order, Sign, frac_order, int_order, lemma_frac_order_equal, lemma_frac_order_transitive,
    sign_order,
};

verus! {

/// The elementary functions.
#[derive(Clone, Copy, Debug, PartialEq, Eq, Structural)]
pub enum FnKind {
    Sqrt,
    Sin,
    Cos,
    Tan,
}

/// An expression as a tree.
pub enum Term {
    InDet,
    Infty(Sign),
    Zero,
    One,
    /// A rational that is none of the fundamentals above.
    Val(Frac),
    /// A named constant, identified by the key of its approximation.
    Const(i64),
    /// Coefficients and terms.
    Sum(Seq<(Frac, Term)>),
    /// Bases and exponents.
    Prod(Seq<(Term, Frac)>),
    Fn(FnKind, Box<Term>),
}

/// The term of a rational: the fundamentals for one, zero, not-a-number and
/// the infinities, a value otherwise.
pub open spec fn term_of_frac(v: Frac) -> Term {
    match v {
        Frac::NaN => Term::InDet,
        Frac::Infinity(s) => Term::Infty(s),
        Frac::Rational(_, _, _) => if v.is_one_spec() {
            Term::One
        } else if v.is_zero_spec() {
            Term::Zero
        } else {
            Term::Val(v)
        },
    }
}

/// Position of a variant in the canonical order.
pub open spec fn class(t: Term) -> int {
    match t {
        Term::InDet => 0,
        Term::Infty(_) => 1,
        Term::Zero => 2,
        Term::One => 3,
        Term::Val(_) => 4,
        Term::Const(_) => 5,
        Term::Sum(_) => 6,
        Term::Prod(_) => 7,
        Term::Fn(..) => 8,
    }
}

/// Position of a function kind: by the code point of its glyph.
pub open spec fn kind_rank(k: FnKind) -> int {
    match k {
        FnKind::Sqrt => 0,
        FnKind::Cos => 1,
        FnKind::Tan => 2,
        FnKind::Sin => 3,
    }
}

/// The canonical order of terms: by variant, then within a variant.
///
/// Sums and products compare by length first and then entry by entry, each
/// entry by its term (or base) and then by its coefficient (or exponent).
pub open spec fn term_order(a: Term, b: Term) -> Order
    decreases a, 1nat, 0nat,
{
    if class(a) != class(b) {
        int_order(class(a), class(b))
    } else {
        match (a, b) {
            (Term::Infty(s), Term::Infty(o)) => sign_order(s, o),
            (Term::Val(x), Term::Val(y)) => frac_order(x, y),
            (Term::Const(x), Term::Const(y)) => int_order(x as int, y as int),
            (Term::Sum(s), Term::Sum(t)) => if s.len() != t.len() {
                int_order(s.len() as int, t.len() as int)
            } else {
                sum_order_from(a, b, 0)
            },
            (Term::Prod(s), Term::Prod(t)) => if s.len() != t.len() {
                int_order(s.len() as int, t.len() as int)
            } else {
                prod_order_from(a, b, 0)
            },
            (Term::Fn(k, x), Term::Fn(l, y)) => if k != l {
                int_order(kind_rank(k), kind_rank(l))
            } else {
                term_order(*x, *y)
            },
            _ => Order::Equal,
        }
    }
}

/// Entry-by-entry order of two sums of equal length, from entry `i` on.
pub open spec fn sum_order_from(a: Term, b: Term, i: int) -> Order
    decreases a, 0nat, (if a is Sum { a->Sum_0.len() - i } else { 0 }),
{
    if a is Sum && b is Sum && 0 <= i < a->Sum_0.len() && i < b->Sum_0.len() {
        let x = a->Sum_0[i];
        let y = b->Sum_0[i];
        term_order(x.1, y.1).or(frac_order(x.0, y.0)).or(sum_order_from(a, b, i + 1))
    } else {
        Order::Equal
    }
}

/// Entry-by-entry order of two products of equal length, from entry `i` on.
pub open spec fn prod_order_from(a: Term, b: Term, i: int) -> Order
    decreases a, 0nat, (if a is Prod { a->Prod_0.len() - i } else { 0 }),
{
    if a is Prod && b is Prod && 0 <= i < a->Prod_0.len() && i < b->Prod_0.len() {
        let x = a->Prod_0[i];
        let y = b->Prod_0[i];
        term_order(x.0, y.0).or(frac_order(x.1, y.1)).or(prod_order_from(a, b, i + 1))
    } else {
        Order::Equal
    }
}

/// Every rational in the term is in lowest terms.
pub open spec fn term_wf(t: Term) -> bool
    decreases t,
{
    match t {
        Term::Val(x) => x.wf(),
        Term::Sum(s) => forall|k: int|
            0 <= k < s.len() ==> (#[trigger] s[k]).0.wf() && term_wf(s[k].1),
        Term::Prod(s) => forall|k: int|
            0 <= k < s.len() ==> (#[trigger] s[k]).1.wf() && term_wf(s[k].0),
        Term::Fn(_, x) => term_wf(*x),
        _ => true,
    }
}

/// Every term compares equal to itself.
pub proof fn lemma_term_order_reflexive(a: Term)
    ensures
        term_order(a, a) == Order::Equal,
    decreases a, 1nat, 0nat,
{
    match a {
        Term::Sum(_) => {
            lemma_sum_order_reflexive(a, 0);
        },
        Term::Prod(_) => {
            lemma_prod_order_reflexive(a, 0);
        },
        Term::Fn(_, x) => {
            lemma_term_order_reflexive(*x);
        },
        _ => {},
    }
}

/// Exchanging the operands reverses the canonical order.
pub proof fn lemma_term_order_flip(a: Term, b: Term)
    ensures
        term_order(b, a) == term_order(a, b).flip(),
    decreases a, 1nat, 0nat,
{
    if class(a) == class(b) {
        match (a, b) {
            (Term::Sum(s), Term::Sum(t)) => {
                if s.len() == t.len() {
                    lemma_sum_order_flip(a, b, 0);
                }
            },
            (Term::Prod(s), Term::Prod(t)) => {
                if s.len() == t.len() {
                    lemma_prod_order_flip(a, b, 0);
                }
            },
            (Term::Fn(k, x), Term::Fn(l, y)) => {
                if k == l {
                    lemma_term_order_flip(*x, *y);
                }
            },
            _ => {},
        }
    }
}

/// Two terms that compare equal are the same term: the canonical order and
/// equality agree.
pub proof fn lemma_term_order_equal(a: Term, b: Term)
    requires
        term_wf(a),
        term_wf(b),
        term_order(a, b) == Order::Equal,
    ensures
        a == b,
    decreases a, 1nat, 0nat,
{
    match (a, b) {
        (Term::Val(x), Term::Val(y)) => {
            lemma_frac_order_equal(x, y);
        },
        (Term::Sum(s), Term::Sum(t)) => {
            lemma_sum_order_equal(a, b, 0);
            assert(s =~= t);
        },
        (Term::Prod(s), Term::Prod(t)) => {
            lemma_prod_order_equal(a, b, 0);
            assert(s =~= t);
        },
        (Term::Fn(k, x), Term::Fn(l, y)) => {
            lemma_term_order_equal(*x, *y);
        },
        _ => {},
    }
}

/// The canonical order is transitive.
pub proof fn lemma_term_order_transitive(a: Term, b: Term, c: Term)
    requires
        term_wf(a),
        term_wf(b),
        term_wf(c),
        term_order(a, b) == Order::Less,
        term_order(b, c) == Order::Less,
    ensures
        term_order(a, c) == Order::Less,
    decreases a, 1nat, 0nat,
{
    if class(a) == class(b) && class(b) == class(c) {
        match (a, b, c) {
            (Term::Val(x), Term::Val(y), Term::Val(z)) => {
                lemma_frac_order_transitive(x, y, z);
            },
            (Term::Sum(s), Term::Sum(t), Term::Sum(u)) => {
                if s.len() == t.len() && t.len() == u.len() {
                    lemma_sum_order_transitive(a, b, c, 0);
                }
            },
            (Term::Prod(s), Term::Prod(t), Term::Prod(u)) => {
                if s.len() == t.len() && t.len() == u.len() {
                    lemma_prod_order_transitive(a, b, c, 0);
                }
            },
            (Term::Fn(k, x), Term::Fn(l, y), Term::Fn(m, z)) => {
                if k == l && l == m {
                    lemma_term_order_transitive(*x, *y, *z);
                } else if k == l {
                } else if l == m {
                }
            },
            _ => {},
        }
    }
}

proof fn lemma_sum_order_reflexive(a: Term, i: int)
    requires
        a is Sum,
        0 <= i,
    ensures
        sum_order_from(a, a, i) == Order::Equal,
    decreases a, 0nat, a->Sum_0.len() - i,
{
    if i < a->Sum_0.len() {
        lemma_term_order_reflexive(a->Sum_0[i].1);
        lemma_sum_order_reflexive(a, i + 1);
    }
}

proof fn lemma_sum_order_flip(a: Term, b: Term, i: int)
    requires
        a is Sum,
        b is Sum,
        a->Sum_0.len() == b->Sum_0.len(),
        0 <= i,
    ensures
        sum_order_from(b, a, i) == sum_order_from(a, b, i).flip(),
    decreases a, 0nat, a->Sum_0.len() - i,
{
    if i < a->Sum_0.len() {
        lemma_term_order_flip(a->Sum_0[i].1, b->Sum_0[i].1);
        lemma_sum_order_flip(a, b, i + 1);
    }
}

proof fn lemma_sum_order_equal(a: Term, b: Term, i: int)
    requires
        a is Sum,
        b is Sum,
        term_wf(a),
        term_wf(b),
        a->Sum_0.len() == b->Sum_0.len(),
        0 <= i,
        sum_order_from(a, b, i) == Order::Equal,
    ensures
        forall|k: int| i <= k < a->Sum_0.len() ==> a->Sum_0[k] == b->Sum_0[k],
    decreases a, 0nat, a->Sum_0.len() - i,
{
    if i < a->Sum_0.len() {
        let x = a->Sum_0[i];
        let y = b->Sum_0[i];
        assert(term_wf(x.1) && x.0.wf());
        assert(term_wf(y.1) && y.0.wf());
        lemma_term_order_equal(x.1, y.1);
        lemma_frac_order_equal(x.0, y.0);
        lemma_sum_order_equal(a, b, i + 1);
        assert forall|k: int| i <= k < a->Sum_0.len() implies a->Sum_0[k] == b->Sum_0[k] by {
            if k == i {
                assert(x == y);
            }
        }
    }
}

proof fn lemma_sum_order_transitive(a: Term, b: Term, c: Term, i: int)
    requires
        a is Sum,
        b is Sum,
        c is Sum,
        term_wf(a),
        term_wf(b),
        term_wf(c),
        a->Sum_0.len() == b->Sum_0.len(),
        b->Sum_0.len() == c->Sum_0.len(),
        0 <= i,
        sum_order_from(a, b, i) == Order::Less,
        sum_order_from(b, c, i) == Order::Less,
    ensures
        sum_order_from(a, c, i) == Order::Less,
    decreases a, 0nat, a->Sum_0.len() - i,
{
    if i < a->Sum_0.len() {
        let x = a->Sum_0[i];
        let y = b->Sum_0[i];
        let z = c->Sum_0[i];
        assert(term_wf(x.1) && x.0.wf());
        assert(term_wf(y.1) && y.0.wf());
        assert(term_wf(z.1) && z.0.wf());
        let xy = term_order(x.1, y.1);
        let yz = term_order(y.1, z.1);
        if xy == Order::Less && yz == Order::Less {
            lemma_term_order_transitive(x.1, y.1, z.1);
        } else if xy == Order::Less && yz == Order::Equal {
            lemma_term_order_equal(y.1, z.1);
        } else if xy == Order::Equal && yz == Order::Less {
            lemma_term_order_equal(x.1, y.1);
        } else if xy == Order::Equal && yz == Order::Equal {
            lemma_term_order_equal(x.1, y.1);
            lemma_term_order_equal(y.1, z.1);
            lemma_term_order_reflexive(x.1);
            let pq = frac_order(x.0, y.0);
            let qr = frac_order(y.0, z.0);
            if pq == Order::Less && qr == Order::Less {
                lemma_frac_order_transitive(x.0, y.0, z.0);
            } else if pq == Order::Less && qr == Order::Equal {
                lemma_frac_order_equal(y.0, z.0);
            } else if pq == Order::Equal && qr == Order::Less {
                lemma_frac_order_equal(x.0, y.0);
            } else if pq == Order::Equal && qr == Order::Equal {
                lemma_frac_order_equal(x.0, y.0);
                lemma_frac_order_equal(y.0, z.0);
                lemma_sum_order_transitive(a, b, c, i + 1);
            }
        }
    }
}

proof fn lemma_prod_order_reflexive(a: Term, i: int)
    requires
        a is Prod,
        0 <= i,
    ensures
        prod_order_from(a, a, i) == Order::Equal,
    decreases a, 0nat, a->Prod_0.len() - i,
{
    if i < a->Prod_0.len() {
        lemma_term_order_reflexive(a->Prod_0[i].0);
        lemma_prod_order_reflexive(a, i + 1);
    }
}

proof fn lemma_prod_order_flip(a: Term, b: Term, i: int)
    requires
        a is Prod,
        b is Prod,
        a->Prod_0.len() == b->Prod_0.len(),
        0 <= i,
    ensures
        prod_order_from(b, a, i) == prod_order_from(a, b, i).flip(),
    decreases a, 0nat, a->Prod_0.len() - i,
{
    if i < a->Prod_0.len() {
        lemma_term_order_flip(a->Prod_0[i].0, b->Prod_0[i].0);
        lemma_prod_order_flip(a, b, i + 1);
    }
}

proof fn lemma_prod_order_equal(a: Term, b: Term, i: int)
    requires
        a is Prod,
        b is Prod,
        term_wf(a),
        term_wf(b),
        a->Prod_0.len() == b->Prod_0.len(),
        0 <= i,
        prod_order_from(a, b, i) == Order::Equal,
    ensures
        forall|k: int| i <= k < a->Prod_0.len() ==> a->Prod_0[k] == b->Prod_0[k],
    decreases a, 0nat, a->Prod_0.len() - i,
{
    if i < a->Prod_0.len() {
        let x = a->Prod_0[i];
        let y = b->Prod_0[i];
        assert(term_wf(x.0) && x.1.wf());
        assert(term_wf(y.0) && y.1.wf());
        lemma_term_order_equal(x.0, y.0);
        lemma_frac_order_equal(x.1, y.1);
        lemma_prod_order_equal(a, b, i + 1);
        assert forall|k: int| i <= k < a->Prod_0.len() implies a->Prod_0[k] == b->Prod_0[k] by {
            if k == i {
                assert(x == y);
            }
        }
    }
}

proof fn lemma_prod_order_transitive(a: Term, b: Term, c: Term, i: int)
    requires
        a is Prod,
        b is Prod,
        c is Prod,
        term_wf(a),
        term_wf(b),
        term_wf(c),
        a->Prod_0.len() == b->Prod_0.len(),
        b->Prod_0.len() == c->Prod_0.len(),
        0 <= i,
        prod_order_from(a, b, i) == Order::Less,
        prod_order_from(b, c, i) == Order::Less,
    ensures
        prod_order_from(a, c, i) == Order::Less,
    decreases a, 0nat, a->Prod_0.len() - i,
{
    if i < a->Prod_0.len() {
        let x = a->Prod_0[i];
        let y = b->Prod_0[i];
        let z = c->Prod_0[i];
        assert(term_wf(x.0) && x.1.wf());
        assert(term_wf(y.0) && y.1.wf());
        assert(term_wf(z.0) && z.1.wf());
        let xy = term_order(x.0, y.0);
        let yz = term_order(y.0, z.0);
        if xy == Order::Less && yz == Order::Less {
            lemma_term_order_transitive(x.0, y.0, z.0);
        } else if xy == Order::Less && yz == Order::Equal {
            lemma_term_order_equal(y.0, z.0);
        } else if xy == Order::Equal && yz == Order::Less {
            lemma_term_order_equal(x.0, y.0);
        } else if xy == Order::Equal && yz == Order::Equal {
            lemma_term_order_equal(x.0, y.0);
            lemma_term_order_equal(y.0, z.0);
            lemma_term_order_reflexive(x.0);
            let pq = frac_order(x.1, y.1);
            let qr = frac_order(y.1, z.1);
            if pq == Order::Less && qr == Order::Less {
                lemma_frac_order_transitive(x.1, y.1, z.1);
            } else if pq == Order::Less && qr == Order::Equal {
                lemma_frac_order_equal(y.1, z.1);
            } else if pq == Order::Equal && qr == Order::Less {
                lemma_frac_order_equal(x.1, y.1);
            } else if pq == Order::Equal && qr == Order::Equal {
                lemma_frac_order_equal(x.1, y.1);
                lemma_frac_order_equal(y.1, z.1);
                lemma_prod_order_transitive(a, b, c, i + 1);
            }
        }
    }
}

} // verus!
