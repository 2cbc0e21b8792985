//! A scanner over the characters of a text with one character of
//! lookahead, and the table of the constants that are known by their tag.
use vstd::prelude::*;
use std::collections::HashMap;
use crate::expr_field::structs::Const;

verus! {

/// `lyn::Scanner`, a cursor into the characters of a string.
#[verifier::external_type_specification]
#[verifier::external_body]
pub struct ExLynScanner(lyn::Scanner);

/// The characters that a `lyn::Scanner` was made of.
pub uninterp spec fn scanner_chars(s: lyn::Scanner) -> Seq<char>;

/// The cursor of a `lyn::Scanner`: how many characters it has passed.
pub uninterp spec fn scanner_cursor(s: lyn::Scanner) -> nat;

/// `lyn::Scanner::new`: a scanner at the start of the characters of
/// `string`.
#[verifier::external_body]
fn lyn_new(string: &str) -> (s: lyn::Scanner)
    ensures
        scanner_chars(s) == string@,
        scanner_cursor(s) == 0,
{
    lyn::Scanner::new(string)
}

/// `lyn::Scanner::cursor`.
#[verifier::external_body]
fn lyn_cursor(s: &lyn::Scanner) -> (r: usize)
    ensures
        r == scanner_cursor(*s),
        r <= scanner_chars(*s).len(),
{
    s.cursor()
}

/// `lyn::Scanner::peek`: the character at the cursor, if there is one; the
/// scanner is not changed.
#[verifier::external_body]
fn lyn_peek(s: &lyn::Scanner) -> (r: Option<char>)
    ensures
        r == if scanner_cursor(*s) < scanner_chars(*s).len() {
            Some(scanner_chars(*s)[scanner_cursor(*s) as int])
        } else {
            None
        },
{
    s.peek().copied()
}

/// `lyn::Scanner::pop`: the character at the cursor, if there is one, and
/// the cursor moves past it.
#[verifier::external_body]
fn lyn_pop(s: &mut lyn::Scanner) -> (r: Option<char>)
    ensures
        scanner_chars(*final(s)) == scanner_chars(*old(s)),
        r == if scanner_cursor(*old(s)) < scanner_chars(*old(s)).len() {
            Some(scanner_chars(*old(s))[scanner_cursor(*old(s)) as int])
        } else {
            None
        },
        scanner_cursor(*final(s)) == if r is Some {
            scanner_cursor(*old(s)) + 1
        } else {
            scanner_cursor(*old(s))
        },
{
    s.pop().copied()
}

/// `lyn::Scanner::take`: whether `target` is at the cursor; if so the
/// cursor moves past it.
#[verifier::external_body]
fn lyn_take(s: &mut lyn::Scanner, target: char) -> (r: bool)
    ensures
        scanner_chars(*final(s)) == scanner_chars(*old(s)),
        r == (scanner_cursor(*old(s)) < scanner_chars(*old(s)).len() && scanner_chars(
            *old(s),
        )[scanner_cursor(*old(s)) as int] == target),
        scanner_cursor(*final(s)) == if r {
            scanner_cursor(*old(s)) + 1
        } else {
            scanner_cursor(*old(s))
        },
{
    s.take(&target)
}

/// A scanner with the constants that the notation knows by their tag.
pub struct ExprScanner {
    inner: lyn::Scanner,
    c_map: HashMap<u32, Const>,
}

/// The approximation of π in billionths.
pub const PI_APPROX: i64 = 3_141_592_653;

/// The approximation of e in billionths.
pub const E_APPROX: i64 = 2_718_281_828;

/// The constants that the notation knows by their tag, `π` and `e`, each
/// under the number of its tag.
pub open spec fn known_constants() -> Map<u32, Const> {
    Map::<u32, Const>::empty().insert(
        'π' as u32,
        Const { ch: 'π', ascii: "pi", approx: PI_APPROX },
    ).insert('e' as u32, Const { ch: 'e', ascii: "e", approx: E_APPROX })
}

/// The constant that the table holds under the tag `ch`.
pub open spec fn lookup(table: Map<u32, Const>, ch: char) -> Option<Const> {
    if table.contains_key(ch as u32) {
        Some(table[ch as u32])
    } else {
        None
    }
}

/// The constant that the notation knows by the tag `c`.
pub fn known_constant(c: char) -> (r: Option<Const>)
    ensures
        r == lookup(known_constants(), c),
{
    if c == 'π' {
        Some(Const { ch: 'π', ascii: "pi", approx: PI_APPROX })
    } else if c == 'e' {
        Some(Const { ch: 'e', ascii: "e", approx: E_APPROX })
    } else {
        None
    }
}

impl ExprScanner {
    /// The characters of the text.
    pub closed spec fn chars(&self) -> Seq<char> {
        scanner_chars(self.inner)
    }

    /// How many characters have been passed.
    pub closed spec fn pos(&self) -> int {
        scanner_cursor(self.inner) as int
    }

    /// The constants known by their tag.
    pub closed spec fn table(&self) -> Map<u32, Const> {
        self.c_map@
    }

    /// A scanner at the start of `string` that knows `π` and `e`.
    pub fn new(string: &str) -> (s: ExprScanner)
        ensures
            s.chars() == string@,
            s.pos() == 0,
            s.table() == known_constants(),
    {
        ExprScanner { inner: lyn_new(string), c_map: Self::c_map() }
    }

    /// The constants that the notation knows by their tag.
    pub fn c_map() -> (m: HashMap<u32, Const>)
        ensures
            m@ == known_constants(),
    {
        broadcast use vstd::std_specs::hash::group_hash_axioms;

        let mut m: HashMap<u32, Const> = HashMap::new();
        m.insert('π' as u32, Const { ch: 'π', ascii: "pi", approx: PI_APPROX });
        m.insert('e' as u32, Const { ch: 'e', ascii: "e", approx: E_APPROX });
        assert(m@ =~= known_constants());
        m
    }

    /// Whether a constant with the tag `c` is known.
    pub fn has(&self, c: char) -> (r: bool)
        ensures
            r == (lookup(self.table(), c) is Some),
    {
        self.get_const(c).is_some()
    }

    /// The constant known by the tag `c`.
    pub fn get_const(&self, c: char) -> (r: Option<Const>)
        ensures
            r == lookup(self.table(), c),
    {
        broadcast use vstd::std_specs::hash::group_hash_axioms;

        let key = c as u32;
        match self.c_map.get(&key) {
            Some(k) => Some(*k),
            None => None,
        }
    }

    /// How many characters have been passed.
    pub fn cursor(&self) -> (r: usize)
        ensures
            r == self.pos(),
            0 <= self.pos() <= self.chars().len(),
    {
        lyn_cursor(&self.inner)
    }

    /// The next character, which stays where it is.
    pub fn peek(&self) -> (r: Option<char>)
        ensures
            0 <= self.pos() <= self.chars().len(),
            r == if self.pos() < self.chars().len() {
                Some(self.chars()[self.pos()])
            } else {
                None
            },
    {
        let _ = lyn_cursor(&self.inner);
        lyn_peek(&self.inner)
    }

    /// The next character, which is passed.
    pub fn pop(&mut self) -> (r: Option<char>)
        ensures
            final(self).chars() == old(self).chars(),
            final(self).table() == old(self).table(),
            0 <= old(self).pos() <= old(self).chars().len(),
            r == if old(self).pos() < old(self).chars().len() {
                Some(old(self).chars()[old(self).pos()])
            } else {
                None
            },
            final(self).pos() == if r is Some {
                old(self).pos() + 1
            } else {
                old(self).pos()
            },
    {
        let _ = lyn_cursor(&self.inner);
        lyn_pop(&mut self.inner)
    }

    /// Passes the next character if it is `target`.
    pub fn take(&mut self, target: char) -> (r: bool)
        ensures
            final(self).chars() == old(self).chars(),
            final(self).table() == old(self).table(),
            0 <= old(self).pos() <= old(self).chars().len(),
            r == (old(self).pos() < old(self).chars().len() && old(self).chars()[old(
                self,
            ).pos()] == target),
            final(self).pos() == if r {
                old(self).pos() + 1
            } else {
                old(self).pos()
            },
    {
        let _ = lyn_cursor(&self.inner);
        lyn_take(&mut self.inner, target)
    }
}

} // verus!
