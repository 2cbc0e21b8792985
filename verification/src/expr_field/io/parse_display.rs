//! Parsing the textual notation.
//!
//! The grammar is read with one character of lookahead. `O`, `I`, `?` and
//! `∞` are the fundamentals. `ξ` followed by a fraction, or a bare fraction
//! `[-]digits[/digits]`, is a value. `Σ` is followed by one entry
//! `(fraction,expression)` or by a list `[(…),(…)]` of entries, `Π` by
//! entries `(expression,fraction)`. `√` and the clock faces apply a function
//! to the expression that follows. Any other character is the tag of a
//! constant: a known one stands alone, a new one is followed by its
//! approximation in parentheses. An empty text is zero.
use vstd::prelude::*;
use vstd::string::StringExecFns;
use crate::frac::{Frac, Sign};
use crate::term::{FnKind, Term, term_of_frac};
use crate::expr_field::{Expr, ExprFn};
use crate::expr_field::structs::Const;
use crate::expr_field::structs::type_field::{
    Arena, TypeField, lemma_extends_pvec, lemma_extends_svec, lemma_extends_trans,
    lemma_owns_pvec_push, lemma_owns_svec_push,
};
use crate::expr_field::simplify::sum::{canon_sum, sum_term};
use crate::expr_field::simplify::prod::canon_prod;
use crate::expr_field::io::print_display::string_of;
use crate::io::scanner::{ExprScanner, known_constants, lookup};

verus! {

/// Why a text is not an expression.
#[derive(Clone, Copy, Debug, PartialEq, Eq, Structural)]
pub enum Error {
    /// The text ends where more is expected.
    EndOfLine,
    /// The character at this position is not the delimiter expected there.
    Character(usize),
    /// The text from this position on is not a fraction.
    Fraction(usize),
    /// The text from this position on is not a decimal approximation.
    Constant(usize),
}

/// The text that the `fraction` crate reads as a rational, and the rational
/// it reads.
pub uninterp spec fn frac_of_text(text: Seq<char>) -> Option<Frac>;

/// A character of a fraction: a digit, the slash, the minus sign, or the
/// sign of infinity.
pub open spec fn is_frac_char(c: char) -> bool {
    c == '-' || c == '/' || c == '∞' || ('0' <= c && c <= '9')
}

/// A character that a bare fraction may start with.
pub open spec fn is_frac_start(c: char) -> bool {
    c == '-' || c == '/' || ('0' <= c && c <= '9')
}

/// The end of the run of fraction characters that starts at `i`.
pub open spec fn frac_end(c: Seq<char>, i: int) -> int
    decreases c.len() - i,
{
    if 0 <= i < c.len() && is_frac_char(c[i]) {
        frac_end(c, i + 1)
    } else {
        i
    }
}

/// The rational that the run of fraction characters at `i` stands for: an
/// infinity when the run holds the sign of infinity, negative when it starts
/// with a minus sign; else what the `fraction` crate reads, with a zero made
/// positive.
pub open spec fn parse_frac(c: Seq<char>, i: int) -> Result<(Frac, int), Error> {
    let j = frac_end(c, i);
    let text = c.subrange(i, j);
    if text.contains('∞') {
        Ok(
            (
                Frac::Infinity(
                    if text[0] == '-' {
                        Sign::Minus
                    } else {
                        Sign::Plus
                    },
                ),
                j,
            ),
        )
    } else {
        match frac_of_text(text) {
            Some(f) => Ok((f.normal_spec(), j)),
            None => Err(Error::Fraction(i as usize)),
        }
    }
}

/// The value of a decimal digit.
pub open spec fn digit(c: char) -> Option<int> {
    if '0' <= c && c <= '9' {
        Some(c as int - '0' as int)
    } else {
        None
    }
}

/// Ten to the power `n`.
pub open spec fn pow10(n: nat) -> int
    decreases n,
{
    if n == 0 {
        1
    } else {
        10 * pow10((n - 1) as nat)
    }
}

/// The decimal from `i` on in billionths, given the digits read so far as
/// `acc` and the number `places` of decimals among them (`-1` before the
/// point). Decimals after the ninth are cut off.
pub open spec fn decimal_from(c: Seq<char>, i: int, acc: int, places: int) -> Option<int>
    decreases c.len() - i,
{
    if i < 0 || i >= c.len() {
        Some(
            acc * pow10(
                if places < 0 {
                    9
                } else {
                    (9 - places) as nat
                },
            ),
        )
    } else if c[i] == '.' && places < 0 {
        decimal_from(c, i + 1, acc, 0)
    } else {
        match digit(c[i]) {
            Some(d) => if places < 0 {
                decimal_from(c, i + 1, acc * 10 + d, -1)
            } else if places < 9 {
                decimal_from(c, i + 1, acc * 10 + d, places + 1)
            } else {
                decimal_from(c, i + 1, acc, places)
            },
            None => None,
        }
    }
}

/// The approximation that a decimal text `[-]digits[.digits]` stands for, in
/// billionths; none for a text that is empty, holds another character, or
/// stands for more than 64 bits hold.
pub open spec fn decimal_key(text: Seq<char>) -> Option<i64> {
    let start: int = if text.len() > 0 && text[0] == '-' {
        1
    } else {
        0
    };
    if text.len() <= start {
        None
    } else {
        match decimal_from(text, start, 0, -1) {
            Some(v) => if v > i64::MAX {
                None
            } else if start == 1 {
                Some((-v) as i64)
            } else {
                Some(v as i64)
            },
            None => None,
        }
    }
}

/// The first place from `i` on that holds `target`; the length when there
/// is none.
pub open spec fn find(c: Seq<char>, target: char, i: int) -> int
    decreases c.len() - i,
{
    if 0 <= i < c.len() && c[i] != target {
        find(c, target, i + 1)
    } else {
        i
    }
}

/// What is found at `i` where the character `target` is expected.
pub open spec fn expect(c: Seq<char>, i: int, target: char) -> Option<Error> {
    if i < 0 || i >= c.len() {
        Some(Error::EndOfLine)
    } else if c[i] != target {
        Some(Error::Character(i as usize))
    } else {
        None
    }
}

/// The function that a glyph stands for.
pub open spec fn kind_of_glyph(c: char) -> Option<FnKind> {
    if c == '√' {
        Some(FnKind::Sqrt)
    } else if c == '🕢' {
        Some(FnKind::Sin)
    } else if c == '🕑' {
        Some(FnKind::Cos)
    } else if c == '🕘' {
        Some(FnKind::Tan)
    } else {
        None
    }
}

/// The constant at `i`: a known tag alone, or a new tag followed by its
/// approximation in parentheses.
pub open spec fn parse_const(c: Seq<char>, i: int, table: Map<u32, Const>) -> Result<(Term, int), Error> {
    match lookup(table, c[i]) {
        Some(known) => Ok((Term::Const(known.approx), i + 1)),
        None => match expect(c, i + 1, '(') {
            Some(e) => Err(e),
            None => {
                let j = find(c, ')', i + 2);
                match decimal_key(c.subrange(i + 2, j)) {
                    None => Err(Error::Constant((i + 2) as usize)),
                    Some(k) => if j >= c.len() {
                        Err(Error::EndOfLine)
                    } else {
                        Ok((Term::Const(k), j + 1))
                    },
                }
            },
        },
    }
}

/// The expression at `i` and where it ends, or why there is none.
pub open spec fn parse_expr(c: Seq<char>, i: int, table: Map<u32, Const>) -> Result<(Term, int), Error>
    decreases c.len() - i, 3nat, 0nat,
{
    if i < 0 || i >= c.len() {
        Ok((Term::Zero, i))
    } else if c[i] == 'O' {
        Ok((Term::Zero, i + 1))
    } else if c[i] == 'I' {
        Ok((Term::One, i + 1))
    } else if c[i] == '?' {
        Ok((Term::InDet, i + 1))
    } else if c[i] == '∞' {
        Ok((Term::Infty(Sign::Plus), i + 1))
    } else if c[i] == 'ξ' {
        match parse_frac(c, i + 1) {
            Ok((f, j)) => Ok((term_of_frac(f), j)),
            Err(e) => Err(e),
        }
    } else if is_frac_start(c[i]) {
        match parse_frac(c, i) {
            Ok((f, j)) => Ok((term_of_frac(f), j)),
            Err(e) => Err(e),
        }
    } else if c[i] == 'Σ' {
        if i + 1 < c.len() && c[i + 1] == '[' {
            parse_sum_list(c, i + 2, table, Seq::empty())
        } else {
            match parse_sum_tuple(c, i + 1, table) {
                Ok((p, j)) => Ok((sum_term(canon_sum(seq![p])), j)),
                Err(e) => Err(e),
            }
        }
    } else if c[i] == 'Π' {
        if i + 1 < c.len() && c[i + 1] == '[' {
            parse_prod_list(c, i + 2, table, Seq::empty())
        } else {
            match parse_prod_tuple(c, i + 1, table) {
                Ok((p, j)) => Ok((canon_prod(seq![p]), j)),
                Err(e) => Err(e),
            }
        }
    } else {
        match kind_of_glyph(c[i]) {
            Some(kind) => match parse_expr(c, i + 1, table) {
                Ok((t, j)) => Ok((Term::Fn(kind, Box::new(t)), j)),
                Err(e) => Err(e),
            },
            None => parse_const(c, i, table),
        }
    }
}

/// The entry `(fraction,expression)` of a sum at `i`.
pub open spec fn parse_sum_tuple(c: Seq<char>, i: int, table: Map<u32, Const>) -> Result<
    ((Frac, Term), int),
    Error,
>
    decreases c.len() - i, 1nat, 0nat,
{
    match expect(c, i, '(') {
        Some(e) => Err(e),
        None => match parse_frac(c, i + 1) {
            Err(e) => Err(e),
            Ok((f, j)) => match expect(c, j, ',') {
                Some(e) => Err(e),
                None => if j + 1 <= i {
                    Err(Error::EndOfLine)
                } else {
                    match parse_expr(c, j + 1, table) {
                        Err(e) => Err(e),
                        Ok((t, k)) => match expect(c, k, ')') {
                            Some(e) => Err(e),
                            None => Ok(((f, t), k + 1)),
                        },
                    }
                },
            },
        },
    }
}

/// The rest of a list of entries of a sum from `i` on, after the entries
/// `acc`: entries up to the closing bracket, each followed by an optional
/// comma.
pub open spec fn parse_sum_list(
    c: Seq<char>,
    i: int,
    table: Map<u32, Const>,
    acc: Seq<(Frac, Term)>,
) -> Result<(Term, int), Error>
    decreases c.len() - i, 2nat, 0nat,
{
    if i < 0 || i >= c.len() {
        Err(Error::EndOfLine)
    } else if c[i] == ']' {
        Ok((sum_term(canon_sum(acc)), i + 1))
    } else {
        match parse_sum_tuple(c, i, table) {
            Err(e) => Err(e),
            Ok((p, j)) => {
                let k = if j < c.len() && c[j] == ',' {
                    j + 1
                } else {
                    j
                };
                if k <= i || k > c.len() {
                    Err(Error::EndOfLine)
                } else {
                    parse_sum_list(c, k, table, acc.push(p))
                }
            },
        }
    }
}

/// The entry `(expression,fraction)` of a product at `i`.
pub open spec fn parse_prod_tuple(c: Seq<char>, i: int, table: Map<u32, Const>) -> Result<
    ((Term, Frac), int),
    Error,
>
    decreases c.len() - i, 1nat, 0nat,
{
    match expect(c, i, '(') {
        Some(e) => Err(e),
        None => match parse_expr(c, i + 1, table) {
            Err(e) => Err(e),
            Ok((t, j)) => match expect(c, j, ',') {
                Some(e) => Err(e),
                None => match parse_frac(c, j + 1) {
                    Err(e) => Err(e),
                    Ok((f, k)) => match expect(c, k, ')') {
                        Some(e) => Err(e),
                        None => Ok(((t, f), k + 1)),
                    },
                },
            },
        },
    }
}

/// The rest of a list of entries of a product from `i` on, after the
/// entries `acc`.
pub open spec fn parse_prod_list(
    c: Seq<char>,
    i: int,
    table: Map<u32, Const>,
    acc: Seq<(Term, Frac)>,
) -> Result<(Term, int), Error>
    decreases c.len() - i, 2nat, 0nat,
{
    if i < 0 || i >= c.len() {
        Err(Error::EndOfLine)
    } else if c[i] == ']' {
        Ok((canon_prod(acc), i + 1))
    } else {
        match parse_prod_tuple(c, i, table) {
            Err(e) => Err(e),
            Ok((p, j)) => {
                let k = if j < c.len() && c[j] == ',' {
                    j + 1
                } else {
                    j
                };
                if k <= i || k > c.len() {
                    Err(Error::EndOfLine)
                } else {
                    parse_prod_list(c, k, table, acc.push(p))
                }
            },
        }
    }
}

/// `fraction::error::ParseError`, why the `fraction` crate does not read a
/// text as a rational.
#[verifier::external_type_specification]
#[verifier::external_body]
pub struct ExFractionParseError(fraction::error::ParseError);

/// `fraction::GenericFraction::<u32>::from_str`.
///
/// The outside reader takes an optional sign, digits, and a denominator
/// after a slash, and reduces. What it reads depends on the text alone and
/// goes by the name [`frac_of_text`]; the result is in lowest terms, and a
/// zero may carry a minus sign.
#[verifier::external_body]
fn frac_from_str(text: &str) -> (r: Result<Frac, fraction::error::ParseError>)
    ensures
        r is Ok <==> frac_of_text(text@) is Some,
        r matches Ok(f) ==> frac_of_text(text@) == Some(f) && f.reduced_spec(),
{
    match <fraction::GenericFraction<u32> as std::str::FromStr>::from_str(text)? {
        fraction::GenericFraction::Rational(fraction::Sign::Plus, q) => Ok(Frac::Rational(Sign::Plus, *q.numer(), *q.denom())),
        fraction::GenericFraction::Rational(fraction::Sign::Minus, q) => Ok(Frac::Rational(Sign::Minus, *q.numer(), *q.denom())),
        fraction::GenericFraction::Infinity(fraction::Sign::Plus) => Ok(Frac::Infinity(Sign::Plus)),
        fraction::GenericFraction::Infinity(fraction::Sign::Minus) => Ok(Frac::Infinity(Sign::Minus)),
        fraction::GenericFraction::NaN => Ok(Frac::NaN),
    }
}

/// Whether `c` is a character of a fraction.
pub fn frac_char(c: char) -> (r: bool)
    ensures
        r == is_frac_char(c),
{
    c == '-' || c == '/' || c == '∞' || ('0' <= c && c <= '9')
}

/// Whether a bare fraction may start with `c`.
pub fn frac_start(c: char) -> (r: bool)
    ensures
        r == is_frac_start(c),
{
    c == '-' || c == '/' || ('0' <= c && c <= '9')
}

/// The function that the glyph `c` stands for.
pub fn glyph_kind(c: char) -> (r: Option<FnKind>)
    ensures
        r == kind_of_glyph(c),
{
    if c == '√' {
        Some(FnKind::Sqrt)
    } else if c == '🕢' {
        Some(FnKind::Sin)
    } else if c == '🕑' {
        Some(FnKind::Cos)
    } else if c == '🕘' {
        Some(FnKind::Tan)
    } else {
        None
    }
}

/// How an outcome of parsing matches what the grammar says: on success the
/// handle stands for the term of the grammar and the scanner is where the
/// grammar ends; on failure the error is that of the grammar.
pub open spec fn parsed(
    r: Result<Expr, Error>,
    grammar: Result<(Term, int), Error>,
    field: Arena,
    pos: int,
) -> bool {
    match grammar {
        Ok((t, j)) => r is Ok && field.owns(r->Ok_0) && field.term(r->Ok_0) == t && pos == j,
        Err(e) => r == Err::<Expr, Error>(e),
    }
}

/// Passes the character `target`, or says what is there instead.
pub fn err_or_eq(sc: &mut ExprScanner, target: char) -> (r: Result<(), Error>)
    ensures
        final(sc).chars() == old(sc).chars(),
        final(sc).table() == old(sc).table(),
        match expect(old(sc).chars(), old(sc).pos(), target) {
            None => r is Ok && final(sc).pos() == old(sc).pos() + 1,
            Some(e) => r == Err::<(), Error>(e),
        },
{
    let at = sc.cursor();
    if sc.take(target) {
        Ok(())
    } else {
        match sc.peek() {
            None => Err(Error::EndOfLine),
            Some(_) => Err(Error::Character(at)),
        }
    }
}

/// Reads the run of fraction characters at the cursor.
pub fn scan(sc: &mut ExprScanner) -> (text: Vec<char>)
    ensures
        final(sc).chars() == old(sc).chars(),
        final(sc).table() == old(sc).table(),
        final(sc).pos() == frac_end(old(sc).chars(), old(sc).pos()),
        old(sc).pos() <= final(sc).pos() <= old(sc).chars().len(),
        text@ == old(sc).chars().subrange(old(sc).pos(), final(sc).pos()),
{
    let mut text: Vec<char> = Vec::new();
    let ghost c = sc.chars();
    let ghost start = sc.pos();
    let _ = sc.cursor();
    assert(text@ =~= c.subrange(start, start));
    loop
        invariant
            sc.chars() == c,
            sc.table() == old(sc).table(),
            0 <= start <= sc.pos() <= c.len(),
            frac_end(c, start) == frac_end(c, sc.pos()),
            text@ == c.subrange(start, sc.pos()),
        ensures
            sc.chars() == c,
            sc.table() == old(sc).table(),
            0 <= start <= sc.pos() <= c.len(),
            sc.pos() == frac_end(c, start),
            text@ == c.subrange(start, sc.pos()),
        decreases c.len() - sc.pos(),
    {
        match sc.peek() {
            Some(ch) => {
                if frac_char(ch) {
                    let ghost before = sc.pos();
                    let _ = sc.pop();
                    text.push(ch);
                    assert(text@ =~= c.subrange(start, before + 1));
                } else {
                    break ;
                }
            },
            None => {
                break ;
            },
        }
    }
    text
}

/// Whether `text` holds the character `target`.
pub fn holds(text: &Vec<char>, target: char) -> (r: bool)
    ensures
        r == text@.contains(target),
{
    let mut k: usize = 0;
    while k < text.len()
        invariant
            k <= text.len(),
            forall|j: int| 0 <= j < k ==> text@[j] != target,
        decreases text.len() - k,
    {
        if text[k] == target {
            return true;
        }
        k += 1;
    }
    false
}

/// Reads a fraction at the cursor.
pub fn pd_frac(sc: &mut ExprScanner) -> (r: Result<Frac, Error>)
    ensures
        final(sc).chars() == old(sc).chars(),
        final(sc).table() == old(sc).table(),
        old(sc).pos() <= final(sc).pos() <= old(sc).chars().len(),
        match parse_frac(old(sc).chars(), old(sc).pos()) {
            Ok((f, j)) => r == Ok::<Frac, Error>(f) && f.wf() && final(sc).pos() == j,
            Err(e) => r == Err::<Frac, Error>(e),
        },
{
    let start = sc.cursor();
    let text = scan(sc);
    if holds(&text, '∞') {
        if text[0] == '-' {
            Ok(Frac::Infinity(Sign::Minus))
        } else {
            Ok(Frac::Infinity(Sign::Plus))
        }
    } else {
        let s = string_of(&text);
        match frac_from_str(s.as_str()) {
            Ok(f) => Ok(f.normal()),
            Err(_) => Err(Error::Fraction(start)),
        }
    }
}

/// Reads the characters up to the next `target`, which is left in place.
pub fn scan_until(sc: &mut ExprScanner, target: char) -> (text: Vec<char>)
    ensures
        final(sc).chars() == old(sc).chars(),
        final(sc).table() == old(sc).table(),
        final(sc).pos() == find(old(sc).chars(), target, old(sc).pos()),
        old(sc).pos() <= final(sc).pos() <= old(sc).chars().len(),
        final(sc).pos() < old(sc).chars().len() ==> old(sc).chars()[final(sc).pos()] == target,
        text@ == old(sc).chars().subrange(old(sc).pos(), final(sc).pos()),
{
    let mut text: Vec<char> = Vec::new();
    let ghost c = sc.chars();
    let ghost start = sc.pos();
    let _ = sc.cursor();
    assert(text@ =~= c.subrange(start, start));
    loop
        invariant
            sc.chars() == c,
            sc.table() == old(sc).table(),
            0 <= start <= sc.pos() <= c.len(),
            find(c, target, start) == find(c, target, sc.pos()),
            text@ == c.subrange(start, sc.pos()),
        ensures
            sc.chars() == c,
            sc.table() == old(sc).table(),
            0 <= start <= sc.pos() <= c.len(),
            sc.pos() == find(c, target, start),
            sc.pos() < c.len() ==> c[sc.pos()] == target,
            text@ == c.subrange(start, sc.pos()),
        decreases c.len() - sc.pos(),
    {
        match sc.peek() {
            Some(ch) => {
                if ch != target {
                    let ghost before = sc.pos();
                    let _ = sc.pop();
                    text.push(ch);
                    assert(text@ =~= c.subrange(start, before + 1));
                } else {
                    break ;
                }
            },
            None => {
                break ;
            },
        }
    }
    text
}

/// The value of the decimal digit `c`.
pub fn digit_of(c: char) -> (r: Option<u8>)
    ensures
        r matches Some(d) ==> digit(c) == Some(d as int) && d <= 9,
        r is None ==> digit(c) is None,
{
    if '0' <= c && c <= '9' {
        Some((c as u32 - '0' as u32) as u8)
    } else {
        None
    }
}

proof fn lemma_pow10_positive(n: nat)
    ensures
        pow10(n) >= 1,
        n >= 1 ==> pow10(n) >= 10,
    decreases n,
{
    if n > 0 {
        lemma_pow10_positive((n - 1) as nat);
    }
}

/// A decimal is at least the digits read so far.
proof fn lemma_decimal_bound(c: Seq<char>, i: int, acc: int, places: int)
    requires
        acc >= 0,
        places <= 9,
    ensures
        decimal_from(c, i, acc, places) matches Some(v) ==> v >= acc,
    decreases c.len() - i,
{
    if i < 0 || i >= c.len() {
        let n: nat = if places < 0 {
            9
        } else {
            (9 - places) as nat
        };
        lemma_pow10_positive(n);
        assert(acc * pow10(n) >= acc) by (nonlinear_arith)
            requires
                acc >= 0,
                pow10(n) >= 1,
        ;
    } else if c[i] == '.' && places < 0 {
        lemma_decimal_bound(c, i + 1, acc, 0);
    } else {
        match digit(c[i]) {
            Some(d) => {
                if places < 0 {
                    lemma_decimal_bound(c, i + 1, acc * 10 + d, -1);
                } else if places < 9 {
                    lemma_decimal_bound(c, i + 1, acc * 10 + d, places + 1);
                } else {
                    lemma_decimal_bound(c, i + 1, acc, places);
                }
            },
            None => {},
        }
    }
}

/// Reads a decimal approximation `[-]digits[.digits]` in billionths.
pub fn decimal_key_of(text: &Vec<char>) -> (r: Option<i64>)
    ensures
        r == decimal_key(text@),
{
    let negative = text.len() > 0 && text[0] == '-';
    let start: usize = if negative {
        1
    } else {
        0
    };
    if text.len() <= start {
        return None;
    }
    let mut acc: u64 = 0;
    let mut after_point = false;
    let mut places: u8 = 0;
    let mut i: usize = start;
    let ghost whole = decimal_from(text@, start as int, 0, -1);
    while i < text.len()
        invariant
            start <= i <= text.len(),
            acc <= i64::MAX,
            places <= 9,
            !after_point ==> places == 0,
            text.len() > start,
            start as int == (if text@.len() > 0 && text@[0] == '-' {
                1int
            } else {
                0int
            }),
            whole == decimal_from(text@, start as int, 0, -1),
            whole == decimal_from(
                text@,
                i as int,
                acc as int,
                if after_point {
                    places as int
                } else {
                    -1
                },
            ),
        decreases text.len() - i,
    {
        let c = text[i];
        if c == '.' && !after_point {
            after_point = true;
        } else {
            match digit_of(c) {
                Some(d) => {
                    if places < 9 {
                        if acc > (i64::MAX as u64 - d as u64) / 10 {
                            proof {
                                lemma_decimal_bound(
                                    text@,
                                    i as int + 1,
                                    acc * 10 + d,
                                    if after_point {
                                        places as int + 1
                                    } else {
                                        -1
                                    },
                                );
                            }
                            return None;
                        }
                        acc = acc * 10 + d as u64;
                        if after_point {
                            places += 1;
                        }
                    }
                },
                None => {
                    return None;
                },
            }
        }
        i += 1;
    }
    let mut k: u8 = if after_point {
        9 - places
    } else {
        9
    };
    let ghost target = acc * pow10(k as nat);
    assert(whole == Some(target));
    let mut v: u64 = acc;
    while k > 0
        invariant
            k <= 9,
            v <= i64::MAX,
            v * pow10(k as nat) == target,
            whole == Some(target),
            text.len() > start,
            start as int == (if text@.len() > 0 && text@[0] == '-' {
                1int
            } else {
                0int
            }),
            whole == decimal_from(text@, start as int, 0, -1),
        decreases k,
    {
        if v > (i64::MAX as u64) / 10 {
            proof {
                lemma_pow10_positive(k as nat);
                assert(v * pow10(k as nat) > i64::MAX) by (nonlinear_arith)
                    requires
                        v > i64::MAX / 10,
                        pow10(k as nat) >= 10,
                ;
            }
            return None;
        }
        proof {
            assert(v * pow10(k as nat) == (v * 10) * pow10((k - 1) as nat)) by (nonlinear_arith)
                requires
                    pow10(k as nat) == 10 * pow10((k - 1) as nat),
            ;
        }
        v = v * 10;
        k -= 1;
    }
    assert(v == target) by (nonlinear_arith)
        requires
            v * pow10(0) == target,
            pow10(0) == 1,
    ;
    if negative {
        Some(-(v as i64))
    } else {
        Some(v as i64)
    }
}

/// Reads a constant at the cursor.
#[verifier::rlimit(60)]
pub fn pd_const(sc: &mut ExprScanner, field: &mut TypeField) -> (r: Result<Expr, Error>)
    requires
        old(field)@.wf(),
        0 <= old(sc).pos() < old(sc).chars().len(),
    ensures
        final(sc).chars() == old(sc).chars(),
        final(sc).table() == old(sc).table(),
        final(field)@.wf(),
        final(field)@.extends(old(field)@),
        parsed(
            r,
            parse_const(old(sc).chars(), old(sc).pos(), old(sc).table()),
            final(field)@,
            final(sc).pos(),
        ),
{
    let tag = match sc.pop() {
        Some(c) => c,
        None => ' ',
    };
    match sc.get_const(tag) {
        Some(known) => Ok(field.add_const(known)),
        None => {
            match err_or_eq(sc, '(') {
                Err(e) => {
                    return Err(e);
                },
                Ok(()) => {},
            }
            let at = sc.cursor();
            let text = scan_until(sc, ')');
            match decimal_key_of(&text) {
                None => Err(Error::Constant(at)),
                Some(approx) => {
                    if sc.take(')') {
                        Ok(field.add_const(Const { ch: tag, ascii: "", approx }))
                    } else {
                        Err(Error::EndOfLine)
                    }
                },
            }
        },
    }
}

/// Reads an expression at the cursor into the arena `field`.
#[verifier::rlimit(60)]
pub fn pd_expr(sc: &mut ExprScanner, field: &mut TypeField) -> (r: Result<Expr, Error>)
    requires
        old(field)@.wf(),
    ensures
        final(sc).chars() == old(sc).chars(),
        final(sc).table() == old(sc).table(),
        final(field)@.wf(),
        final(field)@.extends(old(field)@),
        parsed(
            r,
            parse_expr(old(sc).chars(), old(sc).pos(), old(sc).table()),
            final(field)@,
            final(sc).pos(),
        ),
    decreases old(sc).chars().len() - old(sc).pos(), 3nat, 0nat,
{
    let c = match sc.peek() {
        None => {
            return Ok(Expr::Zero(field.id()));
        },
        Some(c) => c,
    };
    if c == 'O' {
        let _ = sc.pop();
        Ok(Expr::Zero(field.id()))
    } else if c == 'I' {
        let _ = sc.pop();
        Ok(Expr::One(field.id()))
    } else if c == '?' {
        let _ = sc.pop();
        Ok(Expr::InDet(field.id()))
    } else if c == '∞' {
        let _ = sc.pop();
        Ok(Expr::Infty(field.id(), Sign::Plus))
    } else if c == 'ξ' {
        let _ = sc.pop();
        match pd_frac(sc) {
            Ok(f) => Ok(field.add_val(f)),
            Err(e) => Err(e),
        }
    } else if frac_start(c) {
        match pd_frac(sc) {
            Ok(f) => Ok(field.add_val(f)),
            Err(e) => Err(e),
        }
    } else if c == 'Σ' {
        let _ = sc.pop();
        pd_sum(sc, field)
    } else if c == 'Π' {
        let _ = sc.pop();
        pd_prod(sc, field)
    } else {
        match glyph_kind(c) {
            Some(kind) => {
                let _ = sc.pop();
                match pd_expr(sc, field) {
                    Ok(inner) => {
                        let ghost mid = field@;
                        let e = field.add_fn(ExprFn::of(kind, inner));
                        proof {
                            lemma_extends_trans(old(field)@, mid, field@);
                        }
                        Ok(e)
                    },
                    Err(e) => Err(e),
                }
            },
            None => pd_const(sc, field),
        }
    }
}

/// How a parsed entry of a sum matches what the grammar says.
pub open spec fn parsed_sum_tuple(
    r: Result<(Frac, Expr), Error>,
    grammar: Result<((Frac, Term), int), Error>,
    field: Arena,
    pos: int,
) -> bool {
    match grammar {
        Ok((p, j)) => r is Ok && r->Ok_0.0 == p.0 && p.0.wf() && field.owns(r->Ok_0.1)
            && field.term(r->Ok_0.1) == p.1 && pos == j,
        Err(e) => r == Err::<(Frac, Expr), Error>(e),
    }
}

/// How a parsed entry of a product matches what the grammar says.
pub open spec fn parsed_prod_tuple(
    r: Result<(Expr, Frac), Error>,
    grammar: Result<((Term, Frac), int), Error>,
    field: Arena,
    pos: int,
) -> bool {
    match grammar {
        Ok((p, j)) => r is Ok && r->Ok_0.1 == p.1 && p.1.wf() && field.owns(r->Ok_0.0)
            && field.term(r->Ok_0.0) == p.0 && pos == j,
        Err(e) => r == Err::<(Expr, Frac), Error>(e),
    }
}

/// Reads what follows `Σ`: one entry, or a list of entries in brackets.
#[verifier::rlimit(60)]
fn pd_sum(sc: &mut ExprScanner, field: &mut TypeField) -> (r: Result<Expr, Error>)
    requires
        old(field)@.wf(),
        0 < old(sc).pos(),
        old(sc).chars()[old(sc).pos() - 1] == 'Σ',
    ensures
        final(sc).chars() == old(sc).chars(),
        final(sc).table() == old(sc).table(),
        final(field)@.wf(),
        final(field)@.extends(old(field)@),
        parsed(
            r,
            parse_expr(old(sc).chars(), old(sc).pos() - 1, old(sc).table()),
            final(field)@,
            final(sc).pos(),
        ),
    decreases old(sc).chars().len() - old(sc).pos(), 4nat, 0nat,
{
    let ghost c = sc.chars();
    let ghost table = sc.table();
    let ghost start = sc.pos();
    if sc.take('[') {
        let mut v: Vec<(Frac, Expr)> = Vec::new();
        let ghost whole = parse_sum_list(c, start + 1, table, Seq::empty());
        assert(field@.svec(v@) =~= Seq::empty());
        loop
            invariant
                sc.chars() == c,
                sc.table() == table,
                start < sc.pos() <= c.len(),
                old(field)@.wf(),
                field@.wf(),
                field@.extends(old(field)@),
                field@.owns_svec(v@),
                whole == parse_sum_list(c, sc.pos(), table, field@.svec(v@)),
                c == old(sc).chars(),
                table == old(sc).table(),
                start == old(sc).pos(),
                whole == parse_expr(c, start - 1, table),
            decreases c.len() - sc.pos(),
        {
            match sc.peek() {
                None => {
                    return Err(Error::EndOfLine);
                },
                Some(ch) => {
                    if ch == ']' {
                        let _ = sc.pop();
                        let ghost mid = field@;
                        let e = field.add_svec(v);
                        proof {
                            lemma_extends_trans(old(field)@, mid, field@);
                        }
                        return Ok(e);
                    }
                },
            }
            let at = sc.cursor();
            let ghost mid = field@;
            let ghost before = v@;
            match pd_sum_tuple(sc, field) {
                Err(e) => {
                    return Err(e);
                },
                Ok(p) => {
                    proof {
                        lemma_extends_svec(mid, field@, before);
                        lemma_extends_trans(old(field)@, mid, field@);
                    }
                    v.push(p);
                    proof {
                        lemma_owns_svec_push(field@, before, p);
                    }
                    let _ = sc.take(',');
                    if sc.cursor() <= at {
                        return Err(Error::EndOfLine);
                    }
                },
            }
        }
    } else {
        match pd_sum_tuple(sc, field) {
            Err(e) => Err(e),
            Ok(p) => {
                let ghost mid = field@;
                let mut v: Vec<(Frac, Expr)> = Vec::new();
                v.push(p);
                assert(mid.svec(v@) =~= seq![(p.0, mid.term(p.1))]);
                let e = field.add_svec(v);
                proof {
                    lemma_extends_trans(old(field)@, mid, field@);
                }
                Ok(e)
            },
        }
    }
}

/// Reads one entry `(fraction,expression)` of a sum.
#[verifier::rlimit(60)]
fn pd_sum_tuple(sc: &mut ExprScanner, field: &mut TypeField) -> (r: Result<(Frac, Expr), Error>)
    requires
        old(field)@.wf(),
    ensures
        final(sc).chars() == old(sc).chars(),
        final(sc).table() == old(sc).table(),
        final(field)@.wf(),
        final(field)@.extends(old(field)@),
        parsed_sum_tuple(
            r,
            parse_sum_tuple(old(sc).chars(), old(sc).pos(), old(sc).table()),
            final(field)@,
            final(sc).pos(),
        ),
    decreases old(sc).chars().len() - old(sc).pos(), 1nat, 0nat,
{
    let _ = sc.cursor();
    match err_or_eq(sc, '(') {
        Err(e) => {
            return Err(e);
        },
        Ok(()) => {},
    }
    let f = match pd_frac(sc) {
        Err(e) => {
            return Err(e);
        },
        Ok(f) => f,
    };
    match err_or_eq(sc, ',') {
        Err(e) => {
            return Err(e);
        },
        Ok(()) => {},
    }
    let t = match pd_expr(sc, field) {
        Err(e) => {
            return Err(e);
        },
        Ok(t) => t,
    };
    match err_or_eq(sc, ')') {
        Err(e) => {
            return Err(e);
        },
        Ok(()) => {},
    }
    Ok((f, t))
}

/// Reads what follows `Π`: one entry, or a list of entries in brackets.
#[verifier::rlimit(60)]
fn pd_prod(sc: &mut ExprScanner, field: &mut TypeField) -> (r: Result<Expr, Error>)
    requires
        old(field)@.wf(),
        0 < old(sc).pos(),
        old(sc).chars()[old(sc).pos() - 1] == 'Π',
    ensures
        final(sc).chars() == old(sc).chars(),
        final(sc).table() == old(sc).table(),
        final(field)@.wf(),
        final(field)@.extends(old(field)@),
        parsed(
            r,
            parse_expr(old(sc).chars(), old(sc).pos() - 1, old(sc).table()),
            final(field)@,
            final(sc).pos(),
        ),
    decreases old(sc).chars().len() - old(sc).pos(), 4nat, 0nat,
{
    let ghost c = sc.chars();
    let ghost table = sc.table();
    let ghost start = sc.pos();
    if sc.take('[') {
        let mut v: Vec<(Expr, Frac)> = Vec::new();
        let ghost whole = parse_prod_list(c, start + 1, table, Seq::empty());
        assert(field@.pvec(v@) =~= Seq::empty());
        loop
            invariant
                sc.chars() == c,
                sc.table() == table,
                start < sc.pos() <= c.len(),
                old(field)@.wf(),
                field@.wf(),
                field@.extends(old(field)@),
                field@.owns_pvec(v@),
                whole == parse_prod_list(c, sc.pos(), table, field@.pvec(v@)),
                c == old(sc).chars(),
                table == old(sc).table(),
                start == old(sc).pos(),
                whole == parse_expr(c, start - 1, table),
            decreases c.len() - sc.pos(),
        {
            match sc.peek() {
                None => {
                    return Err(Error::EndOfLine);
                },
                Some(ch) => {
                    if ch == ']' {
                        let _ = sc.pop();
                        let ghost mid = field@;
                        let e = field.add_pvec(v);
                        proof {
                            lemma_extends_trans(old(field)@, mid, field@);
                        }
                        return Ok(e);
                    }
                },
            }
            let at = sc.cursor();
            let ghost mid = field@;
            let ghost before = v@;
            match pd_prod_tuple(sc, field) {
                Err(e) => {
                    return Err(e);
                },
                Ok(p) => {
                    proof {
                        lemma_extends_pvec(mid, field@, before);
                        lemma_extends_trans(old(field)@, mid, field@);
                    }
                    v.push(p);
                    proof {
                        lemma_owns_pvec_push(field@, before, p);
                    }
                    let _ = sc.take(',');
                    if sc.cursor() <= at {
                        return Err(Error::EndOfLine);
                    }
                },
            }
        }
    } else {
        match pd_prod_tuple(sc, field) {
            Err(e) => Err(e),
            Ok(p) => {
                let ghost mid = field@;
                let mut v: Vec<(Expr, Frac)> = Vec::new();
                v.push(p);
                assert(mid.pvec(v@) =~= seq![(mid.term(p.0), p.1)]);
                let e = field.add_pvec(v);
                proof {
                    lemma_extends_trans(old(field)@, mid, field@);
                }
                Ok(e)
            },
        }
    }
}

/// Reads one entry `(expression,fraction)` of a product.
#[verifier::rlimit(60)]
fn pd_prod_tuple(sc: &mut ExprScanner, field: &mut TypeField) -> (r: Result<(Expr, Frac), Error>)
    requires
        old(field)@.wf(),
    ensures
        final(sc).chars() == old(sc).chars(),
        final(sc).table() == old(sc).table(),
        final(field)@.wf(),
        final(field)@.extends(old(field)@),
        parsed_prod_tuple(
            r,
            parse_prod_tuple(old(sc).chars(), old(sc).pos(), old(sc).table()),
            final(field)@,
            final(sc).pos(),
        ),
    decreases old(sc).chars().len() - old(sc).pos(), 1nat, 0nat,
{
    let _ = sc.cursor();
    match err_or_eq(sc, '(') {
        Err(e) => {
            return Err(e);
        },
        Ok(()) => {},
    }
    let t = match pd_expr(sc, field) {
        Err(e) => {
            return Err(e);
        },
        Ok(t) => t,
    };
    match err_or_eq(sc, ',') {
        Err(e) => {
            return Err(e);
        },
        Ok(()) => {},
    }
    let f = match pd_frac(sc) {
        Err(e) => {
            return Err(e);
        },
        Ok(f) => f,
    };
    match err_or_eq(sc, ')') {
        Err(e) => {
            return Err(e);
        },
        Ok(()) => {},
    }
    Ok((t, f))
}

impl TypeField {
    /// Reads the expression that `input` starts with into this arena.
    pub fn parse(&mut self, input: &str) -> (r: Result<Expr, Error>)
        requires
            old(self)@.wf(),
        ensures
            final(self)@.wf(),
            final(self)@.extends(old(self)@),
            match parse_expr(input@, 0, known_constants()) {
                Ok((t, _)) => r is Ok && final(self)@.owns(r->Ok_0) && final(self)@.term(r->Ok_0)
                    == t,
                Err(e) => r == Err::<Expr, Error>(e),
            },
    {
        let mut sc = ExprScanner::new(input);
        pd_expr(&mut sc, self)
    }
}

/// A parse failure in words.
#[derive(Debug)]
pub struct SyntaxError {
    pub message: String,
    pub level: String,
}

impl SyntaxError {
    /// A failure of the parser with the given message.
    pub fn new_parse_error(message: String) -> (e: SyntaxError)
        ensures
            e.message@ == message@,
            e.level@ == "Parse"@,
    {
        SyntaxError { message, level: String::from_str("Parse") }
    }

    /// The level, the word `Error` and the message.
    pub fn text(&self) -> (s: String)
        ensures
            s@ == self.level@ + " Error "@ + self.message@,
    {
        let s = self.level.clone();
        let s = s.concat(" Error ");
        s.concat(self.message.as_str())
    }
}

impl Error {
    /// What went wrong, in words.
    pub open spec fn message(self) -> Seq<char> {
        match self {
            Error::EndOfLine => "the text ends where more is expected"@,
            Error::Character(_) => "a delimiter is missing"@,
            Error::Fraction(_) => "a fraction cannot be read"@,
            Error::Constant(_) => "the approximation of a constant cannot be read"@,
        }
    }

    /// The failure as a [`SyntaxError`].
    pub fn syntax_error(&self) -> (e: SyntaxError)
        ensures
            e.message@ == self.message(),
            e.level@ == "Parse"@,
    {
        let message = match self {
            Error::EndOfLine => "the text ends where more is expected",
            Error::Character(_) => "a delimiter is missing",
            Error::Fraction(_) => "a fraction cannot be read",
            Error::Constant(_) => "the approximation of a constant cannot be read",
        };
        SyntaxError::new_parse_error(String::from_str(message))
    }
}

/// A fundamental printed and read again is the same fundamental, and the
/// whole text is read.
pub proof fn lemma_round_trip_fundamental(a: Arena, e: Expr, table: Map<u32, Const>)
    requires
        e is Zero || e is One || e is InDet || e is Infty,
    ensures
        parse_expr(a.text(e), 0, table) == Ok::<(Term, int), Error>(
            (a.term(e), a.text(e).len() as int),
        ),
{
    let c = a.text(e);
    match e {
        Expr::Infty(_, Sign::Minus) => {
            assert(c == seq!['-', '∞']);
            assert(c[0] == '-' && c[1] == '∞');
            assert(frac_end(c, 0) == 2) by {
                reveal_with_fuel(frac_end, 3);
            }
            let text = c.subrange(0, 2);
            assert(text[1] == '∞');
            assert(text.contains('∞'));
            assert(text[0] == '-');
        },
        _ => {},
    }
}

/// A constant that the notation knows by its tag, printed and read again
/// with the table of the known constants, is the same constant, and the
/// whole text is read.
pub proof fn lemma_round_trip_known_constant(a: Arena, e: Expr)
    requires
        a.owns(e),
        e matches Expr::Const(r) && lookup(known_constants(), a.consts[r.index as int].ch)
            matches Some(k) && k.approx == a.consts[r.index as int].approx,
    ensures
        parse_expr(a.text(e), 0, known_constants()) == Ok::<(Term, int), Error>(
            (a.term(e), a.text(e).len() as int),
        ),
{
    let c = a.consts[e->Const_0.index as int];
    assert(c.ch == 'π' || c.ch == 'e');
    assert(a.text(e) == seq![c.ch]);
}

} // verus!
