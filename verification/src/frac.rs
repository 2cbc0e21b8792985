//! Rational numbers with not-a-number and signed infinity states.
//!
//! A [`Frac`] holds a sign and a reduced pair of 32-bit magnitudes. Sums and
//! products of two finite values are computed by the `fraction` crate; a
//! result that does not fit the 32-bit magnitudes is not a number.
use vstd::prelude::*;
use fraction::{CheckedAdd, CheckedMul};

verus! {

/// Outcome of comparing two values in a total order.
#[derive(Clone, Copy, Debug, PartialEq, Eq, Structural)]
pub enum Order {
    Less,
    Equal,
    Greater,
}

impl Order {
    /// The outcome with the operands exchanged.
    pub open spec fn flip(self) -> Order {
        match self {
            Order::Less => Order::Greater,
            Order::Equal => Order::Equal,
            Order::Greater => Order::Less,
        }
    }

    /// Lexicographic combination: `self` decides unless it is `Equal`.
    pub open spec fn or(self, next: Order) -> Order {
        if self == Order::Equal {
            next
        } else {
            self
        }
    }
}

/// Order of two integers.
pub open spec fn int_order(a: int, b: int) -> Order {
    if a < b {
        Order::Less
    } else if a == b {
        Order::Equal
    } else {
        Order::Greater
    }
}

/// Sign of a rational or of an infinity.
#[derive(Clone, Copy, Debug, PartialEq, Eq, Structural)]
pub enum Sign {
    Plus,
    Minus,
}

/// An exact rational, a signed infinity, or not-a-number.
#[derive(Clone, Copy, Debug, PartialEq, Eq, Structural)]
pub enum Frac {
    NaN,
    Infinity(Sign),
    /// Sign, numerator and denominator.
    Rational(Sign, u32, u32),
}

/// Greatest common divisor, with `gcd(a, 0) == a`.
pub open spec fn gcd(a: nat, b: nat) -> nat
    decreases b,
{
    if b == 0 {
        a
    } else {
        gcd(b, a % b)
    }
}

/// The rational `n / d` brought to lowest terms; zero is `+0/1`.
pub open spec fn reduced(sign: Sign, n: nat, d: nat) -> Frac {
    let g = gcd(n, d);
    Frac::Rational(
        if n == 0 {
            Sign::Plus
        } else {
            sign
        },
        (n / g) as u32,
        (d / g) as u32,
    )
}

pub open spec fn sign_product(a: Sign, b: Sign) -> Sign {
    if a == b {
        Sign::Plus
    } else {
        Sign::Minus
    }
}

/// Sum of two finite rationals `±an/ad` and `±bn/bd` over their least common
/// denominator; not-a-number when a scaled numerator, the common denominator
/// or the sum of the magnitudes exceeds 32 bits.
pub open spec fn ratio_sum(
    a_sign: Sign,
    an: nat,
    ad: nat,
    b_sign: Sign,
    bn: nat,
    bd: nat,
) -> Frac {
    let l = (ad / gcd(ad, bd)) * bd;
    let x = (l / ad) * an;
    let y = (l / bd) * bn;
    if l > u32::MAX || x > u32::MAX || y > u32::MAX {
        Frac::NaN
    } else if a_sign == b_sign {
        if x + y > u32::MAX {
            Frac::NaN
        } else {
            reduced(a_sign, x + y, l)
        }
    } else if x < y {
        reduced(b_sign, (y - x) as nat, l)
    } else {
        reduced(a_sign, (x - y) as nat, l)
    }
}

/// Product of two finite rationals after cross-cancellation; not-a-number
/// when the cancelled numerator or denominator product exceeds 32 bits.
pub open spec fn ratio_product(
    a_sign: Sign,
    an: nat,
    ad: nat,
    b_sign: Sign,
    bn: nat,
    bd: nat,
) -> Frac {
    let g1 = gcd(an, bd);
    let g2 = gcd(ad, bn);
    let n = (an / g1) * (bn / g2);
    let d = (ad / g2) * (bd / g1);
    if n > u32::MAX || d > u32::MAX {
        Frac::NaN
    } else {
        reduced(sign_product(a_sign, b_sign), n, d)
    }
}

/// Sum of two values of any state.
pub open spec fn frac_sum(a: Frac, b: Frac) -> Frac {
    match (a, b) {
        (Frac::NaN, _) => Frac::NaN,
        (_, Frac::NaN) => Frac::NaN,
        (Frac::Infinity(s), Frac::Infinity(o)) => if s == o {
            a
        } else {
            Frac::NaN
        },
        (Frac::Infinity(_), Frac::Rational(..)) => a,
        (Frac::Rational(..), Frac::Infinity(_)) => b,
        (Frac::Rational(s, an, ad), Frac::Rational(o, bn, bd)) => ratio_sum(
            s,
            an as nat,
            ad as nat,
            o,
            bn as nat,
            bd as nat,
        ),
    }
}

/// Product of two values of any state.
pub open spec fn frac_product(a: Frac, b: Frac) -> Frac {
    match (a, b) {
        (Frac::NaN, _) => Frac::NaN,
        (_, Frac::NaN) => Frac::NaN,
        (Frac::Infinity(s), Frac::Infinity(o)) => Frac::Infinity(sign_product(s, o)),
        (Frac::Infinity(s), Frac::Rational(o, n, _)) => if n == 0 {
            Frac::NaN
        } else {
            Frac::Infinity(sign_product(s, o))
        },
        (Frac::Rational(s, n, _), Frac::Infinity(o)) => if n == 0 {
            Frac::NaN
        } else {
            Frac::Infinity(sign_product(s, o))
        },
        (Frac::Rational(s, an, ad), Frac::Rational(o, bn, bd)) => ratio_product(
            s,
            an as nat,
            ad as nat,
            o,
            bn as nat,
            bd as nat,
        ),
    }
}

/// `Minus` sorts before `Plus`.
pub open spec fn sign_order(a: Sign, b: Sign) -> Order {
    match (a, b) {
        (Sign::Minus, Sign::Plus) => Order::Less,
        (Sign::Plus, Sign::Minus) => Order::Greater,
        _ => Order::Equal,
    }
}

/// Numerator of a finite rational with its sign applied.
pub open spec fn signed_numer(sign: Sign, n: u32) -> int {
    if sign == Sign::Minus {
        -(n as int)
    } else {
        n as int
    }
}

/// Order by value: not-a-number first, then negative infinity, the finite
/// rationals by magnitude and sign, then positive infinity.
pub open spec fn frac_order(a: Frac, b: Frac) -> Order {
    match (a, b) {
        (Frac::NaN, Frac::NaN) => Order::Equal,
        (Frac::NaN, _) => Order::Less,
        (_, Frac::NaN) => Order::Greater,
        (Frac::Infinity(s), Frac::Infinity(o)) => sign_order(s, o),
        (Frac::Infinity(Sign::Plus), Frac::Rational(..)) => Order::Greater,
        (Frac::Infinity(Sign::Minus), Frac::Rational(..)) => Order::Less,
        (Frac::Rational(..), Frac::Infinity(Sign::Plus)) => Order::Less,
        (Frac::Rational(..), Frac::Infinity(Sign::Minus)) => Order::Greater,
        (Frac::Rational(s, an, ad), Frac::Rational(o, bn, bd)) => int_order(
            signed_numer(s, an) * bd,
            signed_numer(o, bn) * ad,
        ),
    }
}

impl Frac {
    /// Lowest terms, positive denominator, and a single zero `+0/1`.
    pub open spec fn wf(self) -> bool {
        match self {
            Frac::Rational(s, n, d) => d > 0 && gcd(n as nat, d as nat) == 1 && (n == 0 ==> s
                == Sign::Plus),
            _ => true,
        }
    }

    /// Lowest terms and a positive denominator; zero may carry either sign.
    pub open spec fn reduced_spec(self) -> bool {
        match self {
            Frac::Rational(_, n, d) => d > 0 && gcd(n as nat, d as nat) == 1,
            _ => true,
        }
    }

    /// The value with a zero made positive.
    pub open spec fn normal_spec(self) -> Frac {
        match self {
            Frac::Rational(s, n, d) => if n == 0 {
                Frac::Rational(Sign::Plus, n, d)
            } else {
                self
            },
            _ => self,
        }
    }

    /// Whether the value is in lowest terms with a positive denominator and
    /// a zero of positive sign: what the operations ask of their operands.
    pub fn is_reduced(self) -> (r: bool)
        ensures
            r == self.wf(),
    {
        match self {
            Frac::Rational(s, n, d) => d > 0 && gcd_of(n, d) == 1 && (n != 0 || s.is_minus()
                == false),
            _ => true,
        }
    }

    /// Gives a zero the positive sign.
    pub fn normal(self) -> (r: Frac)
        requires
            self.reduced_spec(),
        ensures
            r == self.normal_spec(),
            r.wf(),
    {
        match self {
            Frac::Rational(s, n, d) => if n == 0 {
                Frac::Rational(Sign::Plus, n, d)
            } else {
                self
            },
            _ => self,
        }
    }

    pub open spec fn is_zero_spec(self) -> bool {
        self matches Frac::Rational(_, n, _) && n == 0
    }

    /// A finite rational whose denominator is one.
    pub open spec fn is_integer_spec(self) -> bool {
        self matches Frac::Rational(_, _, d) && d == 1
    }

    pub open spec fn is_one_spec(self) -> bool {
        self == Frac::Rational(Sign::Plus, 1, 1)
    }

    pub fn zero() -> (r: Frac)
        ensures
            r == Frac::Rational(Sign::Plus, 0, 1),
            r.wf(),
    {
        assert(gcd(0, 1) == 1) by {
            reveal_with_fuel(gcd, 2);
        }
        Frac::Rational(Sign::Plus, 0, 1)
    }

    pub fn one() -> (r: Frac)
        ensures
            r == Frac::Rational(Sign::Plus, 1, 1),
            r.wf(),
    {
        assert(gcd(1, 1) == 1) by {
            reveal_with_fuel(gcd, 3);
        }
        Frac::Rational(Sign::Plus, 1, 1)
    }

    pub fn is_zero(self) -> (r: bool)
        ensures
            r == self.is_zero_spec(),
    {
        match self {
            Frac::Rational(_, n, _) => n == 0,
            _ => false,
        }
    }

    pub fn is_one(self) -> (r: bool)
        ensures
            r == self.is_one_spec(),
    {
        match self {
            Frac::Rational(Sign::Plus, n, d) => n == 1 && d == 1,
            _ => false,
        }
    }

    pub fn is_nan(self) -> (r: bool)
        ensures
            r == (self is NaN),
    {
        match self {
            Frac::NaN => true,
            _ => false,
        }
    }

    pub fn is_infinite(self) -> (r: bool)
        ensures
            r == (self is Infinity),
    {
        match self {
            Frac::Infinity(_) => true,
            _ => false,
        }
    }

    /// True for a finite rational whose denominator is one.
    pub fn is_integer(self) -> (r: bool)
        ensures
            r == self.is_integer_spec(),
    {
        match self {
            Frac::Rational(_, _, d) => d == 1,
            _ => false,
        }
    }

    /// The whole number `n`.
    pub fn from_int(n: u32) -> (r: Frac)
        ensures
            r == Frac::Rational(Sign::Plus, n, 1),
            r.wf(),
    {
        proof {
            lemma_gcd_one(n as nat);
        }
        Frac::Rational(Sign::Plus, n, 1)
    }

    /// The value with the opposite sign; zero and not-a-number are unchanged.
    pub fn neg(self) -> (r: Frac)
        requires
            self.wf(),
        ensures
            r == frac_neg(self),
            r.wf(),
    {
        match self {
            Frac::NaN => Frac::NaN,
            Frac::Infinity(s) => Frac::Infinity(s.opposite()),
            Frac::Rational(s, n, d) => if n == 0 {
                self
            } else {
                Frac::Rational(s.opposite(), n, d)
            },
        }
    }

    /// One half.
    pub fn half() -> (r: Frac)
        ensures
            r == frac_half(),
            r.wf(),
    {
        assert(gcd(1, 2) == 1) by {
            reveal_with_fuel(gcd, 4);
        }
        Frac::Rational(Sign::Plus, 1, 2)
    }

    /// The reciprocal.
    pub fn recip(self) -> (r: Frac)
        requires
            self.wf(),
        ensures
            r == frac_recip(self),
            r.wf(),
    {
        match self {
            Frac::NaN => Frac::NaN,
            Frac::Infinity(_) => Frac::zero(),
            Frac::Rational(s, n, d) => if n == 0 {
                Frac::Infinity(Sign::Plus)
            } else {
                proof {
                    lemma_gcd_symmetric(n as nat, d as nat);
                }
                Frac::Rational(s, d, n)
            },
        }
    }

    /// `self` multiplied `n` times. The powers of zero, of one and minus one,
    /// of the infinities and of not-a-number are found at once; every other
    /// power either fits or is not-a-number after at most 32 steps.
    pub fn pow(self, n: u64) -> (r: Frac)
        requires
            self.wf(),
        ensures
            r == frac_pow(self, n as nat),
            r.wf(),
    {
        if n == 0 {
            return Frac::one();
        }
        proof {
            lemma_pow_fixed(self, n as nat);
        }
        let odd = n % 2 == 1;
        match self {
            Frac::NaN => {
                return Frac::NaN;
            },
            Frac::Infinity(s) => {
                return if odd {
                    self
                } else {
                    Frac::Infinity(Sign::Plus)
                };
            },
            Frac::Rational(s, num, den) => {
                if num == 0 {
                    return self;
                }
                if num == 1 && den == 1 {
                    return if odd {
                        self
                    } else {
                        Frac::one()
                    };
                }
            },
        }
        let mut acc = Frac::one();
        let mut i: u64 = 0;
        while i < n
            invariant
                i <= n,
                self.wf(),
                acc.wf(),
                acc == frac_pow(self, i as nat),
            decreases n - i,
        {
            if acc.is_nan() {
                proof {
                    lemma_pow_stays_nan(self, i as nat, n as nat);
                }
                return acc;
            }
            acc = acc.mul(self);
            i += 1;
        }
        acc
    }

    /// The greatest whole number that is not above `self`.
    pub fn floor(self) -> (r: Frac)
        requires
            self.wf(),
        ensures
            r == frac_floor(self),
            r.wf(),
    {
        match self {
            Frac::Rational(s, n, d) => if d <= 1 {
                self
            } else {
                let k: u32 = n / d;
                proof {
                    lemma_gcd_one(k as nat);
                    lemma_gcd_one((k + 1) as nat);
                    assert(n / d <= n / 2) by (nonlinear_arith)
                        requires
                            d >= 2,
                    ;
                }
                if s.is_minus() {
                    Frac::Rational(Sign::Minus, k + 1, 1)
                } else {
                    Frac::Rational(Sign::Plus, k, 1)
                }
            },
            _ => self,
        }
    }

    /// What is left of `self` above its floor.
    pub fn rest(self) -> (r: Frac)
        requires
            self.wf(),
        ensures
            r == frac_rest(self),
            r.wf(),
    {
        self.add(self.floor().neg())
    }

    /// The power of `self` to an infinite exponent of the sign `s`.
    pub fn endless_power(self, s: Sign) -> (r: Frac)
        requires
            self.wf(),
        ensures
            r == frac_endless_power(self, s),
            r.wf(),
    {
        let above = match self.compare(Frac::one()) {
            Order::Greater => true,
            _ => false,
        };
        if above == !s.is_minus() {
            Frac::Infinity(Sign::Plus)
        } else {
            Frac::zero()
        }
    }

    /// `self` to the whole power `e`.
    pub fn int_power(self, e: Frac) -> (r: Frac)
        requires
            self.wf(),
            e.wf(),
        ensures
            r == frac_int_power(self, e),
            r.wf(),
    {
        match e {
            Frac::Rational(s, n, d) => if d != 1 {
                Frac::NaN
            } else if n == 0 {
                if self.is_infinite() || self.is_nan() {
                    Frac::NaN
                } else {
                    Frac::one()
                }
            } else {
                match s {
                    Sign::Plus => self.pow(n as u64),
                    Sign::Minus => self.recip().pow(n as u64),
                }
            },
            _ => Frac::NaN,
        }
    }

    /// Order of `self` and `other` by value.
    pub fn compare(self, other: Frac) -> (r: Order)
        requires
            self.wf(),
            other.wf(),
        ensures
            r == frac_order(self, other),
    {
        match (self, other) {
            (Frac::NaN, Frac::NaN) => Order::Equal,
            (Frac::NaN, _) => Order::Less,
            (_, Frac::NaN) => Order::Greater,
            (Frac::Infinity(s), Frac::Infinity(o)) => s.compare(o),
            (Frac::Infinity(Sign::Plus), Frac::Rational(..)) => Order::Greater,
            (Frac::Infinity(Sign::Minus), Frac::Rational(..)) => Order::Less,
            (Frac::Rational(..), Frac::Infinity(Sign::Plus)) => Order::Less,
            (Frac::Rational(..), Frac::Infinity(Sign::Minus)) => Order::Greater,
            (Frac::Rational(s, an, ad), Frac::Rational(o, bn, bd)) => {
                let x = wide_product(an, bd);
                let y = wide_product(bn, ad);
                proof {
                    assert((-(an as int)) * bd == -(an * bd)) by (nonlinear_arith);
                    assert((-(bn as int)) * ad == -(bn * ad)) by (nonlinear_arith);
                    assert(an * bd >= 0 && bn * ad >= 0) by (nonlinear_arith);
                }
                match (s, o) {
                    (Sign::Plus, Sign::Plus) => order_of(x, y),
                    (Sign::Minus, Sign::Minus) => order_of(y, x),
                    (Sign::Minus, Sign::Plus) => {
                        assert(an * bd > 0) by (nonlinear_arith)
                            requires
                                an > 0,
                                bd > 0,
                        ;
                        Order::Less
                    },
                    (Sign::Plus, Sign::Minus) => {
                        assert(bn * ad > 0) by (nonlinear_arith)
                            requires
                                bn > 0,
                                ad > 0,
                        ;
                        Order::Greater
                    },
                }
            },
        }
    }

    /// Sum of `self` and `other`.
    pub fn add(self, other: Frac) -> (r: Frac)
        requires
            self.wf(),
            other.wf(),
        ensures
            r == frac_sum(self, other),
            r.wf(),
    {
        proof {
            lemma_frac_sum_wf(self, other);
        }
        match (self, other) {
            (Frac::NaN, _) => Frac::NaN,
            (_, Frac::NaN) => Frac::NaN,
            (Frac::Infinity(s), Frac::Infinity(o)) => if s == o {
                self
            } else {
                Frac::NaN
            },
            (Frac::Infinity(_), Frac::Rational(..)) => self,
            (Frac::Rational(..), Frac::Infinity(_)) => other,
            (Frac::Rational(s, an, ad), Frac::Rational(o, bn, bd)) => {
                match checked_sum(s.is_minus(), an, ad, o.is_minus(), bn, bd) {
                    Some(q) => Frac::Rational(Sign::of_flag(q.0), q.1, q.2),
                    None => Frac::NaN,
                }
            },
        }
    }

    /// Product of `self` and `other`.
    pub fn mul(self, other: Frac) -> (r: Frac)
        requires
            self.wf(),
            other.wf(),
        ensures
            r == frac_product(self, other),
            r.wf(),
    {
        proof {
            lemma_frac_product_wf(self, other);
        }
        match (self, other) {
            (Frac::NaN, _) => Frac::NaN,
            (_, Frac::NaN) => Frac::NaN,
            (Frac::Infinity(s), Frac::Infinity(o)) => Frac::Infinity(s.times(o)),
            (Frac::Infinity(s), Frac::Rational(o, n, _)) => if n == 0 {
                Frac::NaN
            } else {
                Frac::Infinity(s.times(o))
            },
            (Frac::Rational(s, n, _), Frac::Infinity(o)) => if n == 0 {
                Frac::NaN
            } else {
                Frac::Infinity(s.times(o))
            },
            (Frac::Rational(s, an, ad), Frac::Rational(o, bn, bd)) => {
                match checked_product(s.is_minus(), an, ad, o.is_minus(), bn, bd) {
                    Some(q) => Frac::Rational(Sign::of_flag(q.0), q.1, q.2),
                    None => Frac::NaN,
                }
            },
        }
    }
}

/// The sign that a flag for "negative" stands for.
pub open spec fn sign_of(negative: bool) -> Sign {
    if negative {
        Sign::Minus
    } else {
        Sign::Plus
    }
}

impl Sign {
    pub fn is_minus(self) -> (r: bool)
        ensures
            sign_of(r) == self,
            r == (self == Sign::Minus),
    {
        match self {
            Sign::Minus => true,
            Sign::Plus => false,
        }
    }

    pub fn of_flag(negative: bool) -> (r: Sign)
        ensures
            r == sign_of(negative),
    {
        if negative {
            Sign::Minus
        } else {
            Sign::Plus
        }
    }

    pub fn opposite(self) -> (r: Sign)
        ensures
            r != self,
    {
        match self {
            Sign::Plus => Sign::Minus,
            Sign::Minus => Sign::Plus,
        }
    }

    pub fn compare(self, other: Sign) -> (r: Order)
        ensures
            r == sign_order(self, other),
    {
        match (self, other) {
            (Sign::Minus, Sign::Plus) => Order::Less,
            (Sign::Plus, Sign::Minus) => Order::Greater,
            _ => Order::Equal,
        }
    }

    pub fn times(self, other: Sign) -> (r: Sign)
        ensures
            r == sign_product(self, other),
    {
        if self == other {
            Sign::Plus
        } else {
            Sign::Minus
        }
    }
}

/// The value with the opposite sign.
pub open spec fn frac_neg(a: Frac) -> Frac {
    match a {
        Frac::NaN => Frac::NaN,
        Frac::Infinity(s) => Frac::Infinity(sign_product(s, Sign::Minus)),
        Frac::Rational(s, n, d) => if n == 0 {
            a
        } else {
            Frac::Rational(sign_product(s, Sign::Minus), n, d)
        },
    }
}

/// The reciprocal; the reciprocal of zero is positive infinity and that of
/// an infinity is zero.
pub open spec fn frac_recip(a: Frac) -> Frac {
    match a {
        Frac::NaN => Frac::NaN,
        Frac::Infinity(_) => Frac::Rational(Sign::Plus, 0, 1),
        Frac::Rational(s, n, d) => if n == 0 {
            Frac::Infinity(Sign::Plus)
        } else {
            Frac::Rational(s, d, n)
        },
    }
}

/// `x` multiplied `n` times, starting from one.
pub open spec fn frac_pow(x: Frac, n: nat) -> Frac
    decreases n,
{
    if n == 0 {
        Frac::Rational(Sign::Plus, 1, 1)
    } else {
        frac_product(frac_pow(x, (n - 1) as nat), x)
    }
}

/// The greatest whole number that is not above a finite rational; every
/// other value is its own.
pub open spec fn frac_floor(e: Frac) -> Frac {
    match e {
        Frac::Rational(s, n, d) => if d <= 1 {
            e
        } else if s == Sign::Plus {
            Frac::Rational(Sign::Plus, n / d, 1)
        } else {
            Frac::Rational(Sign::Minus, (n / d + 1) as u32, 1)
        },
        _ => e,
    }
}

/// What is left of a value above its floor.
pub open spec fn frac_rest(e: Frac) -> Frac {
    frac_sum(e, frac_neg(frac_floor(e)))
}

/// The power that a number other than one takes to an infinite exponent of
/// the sign `s`: infinite where the number is above one and the exponent is
/// positive, or neither; zero otherwise.
pub open spec fn frac_endless_power(x: Frac, s: Sign) -> Frac {
    if (frac_order(x, Frac::Rational(Sign::Plus, 1, 1)) == Order::Greater) == (s == Sign::Plus) {
        Frac::Infinity(Sign::Plus)
    } else {
        Frac::Rational(Sign::Plus, 0, 1)
    }
}

/// `x` to the whole power `e`: one for the exponent zero unless `x` is
/// infinite, the reciprocal multiplied up for a negative exponent.
/// Not-a-number for an exponent that is no whole number.
pub open spec fn frac_int_power(x: Frac, e: Frac) -> Frac {
    match e {
        Frac::Rational(s, n, d) => if d != 1 {
            Frac::NaN
        } else if n == 0 {
            if x is Infinity || x is NaN {
                Frac::NaN
            } else {
                Frac::Rational(Sign::Plus, 1, 1)
            }
        } else if s == Sign::Plus {
            frac_pow(x, n as nat)
        } else {
            frac_pow(frac_recip(x), n as nat)
        },
        _ => Frac::NaN,
    }
}

/// A power that is not-a-number stays so when multiplied on.
pub proof fn lemma_pow_stays_nan(x: Frac, i: nat, n: nat)
    requires
        i <= n,
        frac_pow(x, i) is NaN,
    ensures
        frac_pow(x, n) is NaN,
    decreases n - i,
{
    if i < n {
        lemma_pow_stays_nan(x, i, (n - 1) as nat);
    }
}

/// The powers of the values that multiplication maps among themselves:
/// zero and not-a-number stay, one stays, and minus one and the infinities
/// take their sign from the parity of the exponent.
pub proof fn lemma_pow_fixed(x: Frac, n: nat)
    requires
        x.wf(),
        n >= 1,
    ensures
        x is NaN ==> frac_pow(x, n) is NaN,
        x.is_zero_spec() ==> frac_pow(x, n) == x,
        x matches Frac::Infinity(_) ==> frac_pow(x, n) == (if n % 2 == 1 {
            x
        } else {
            Frac::Infinity(Sign::Plus)
        }),
        x matches Frac::Rational(_, 1, 1) ==> frac_pow(x, n) == (if n % 2 == 1 {
            x
        } else {
            Frac::Rational(Sign::Plus, 1, 1)
        }),
    decreases n,
{
    let one = Frac::Rational(Sign::Plus, 1, 1);
    assert(one.wf()) by {
        reveal_with_fuel(gcd, 3);
    }
    lemma_frac_product_one(x);
    if n == 1 {
        assert(frac_pow(x, 1) == frac_product(frac_pow(x, 0), x));
        assert(frac_pow(x, 0) == one);
    } else {
        lemma_pow_fixed(x, (n - 1) as nat);
        let prev = frac_pow(x, (n - 1) as nat);
        assert(frac_pow(x, n) == frac_product(prev, x));
        match x {
            Frac::Rational(s, num, den) => {
                if num == 0 {
                    assert(gcd(0, den as nat) == den) by {
                        reveal_with_fuel(gcd, 3);
                        assert(0nat % (den as nat) == 0);
                    }
                    assert(den == 1);
                    assert(gcd(0, 1) == 1 && gcd(1, 0) == 1) by {
                        reveal_with_fuel(gcd, 3);
                    }
                    assert(0nat / 1 == 0 && 1nat / 1 == 1 && 0nat * 0nat == 0 && 1nat * 1nat == 1);
                } else if num == 1 && den == 1 {
                    assert(gcd(1, 1) == 1) by {
                        reveal_with_fuel(gcd, 3);
                    }
                    assert(1nat / 1 == 1 && 1nat * 1nat == 1);
                }
            },
            _ => {},
        }
    }
}

/// One half.
pub open spec fn frac_half() -> Frac {
    Frac::Rational(Sign::Plus, 1, 2)
}

/// The greatest common divisor does not depend on the order.
pub proof fn lemma_gcd_symmetric(a: nat, b: nat)
    ensures
        gcd(a, b) == gcd(b, a),
{
    reveal_with_fuel(gcd, 3);
    if a < b {
        vstd::arithmetic::div_mod::lemma_small_mod(a, b);
    } else if b < a {
        vstd::arithmetic::div_mod::lemma_small_mod(b, a);
    }
}

/// The greatest common divisor of `a` and `b`.
pub fn gcd_of(a: u32, b: u32) -> (g: u32)
    ensures
        g == gcd(a as nat, b as nat),
{
    let mut x = a;
    let mut y = b;
    while y != 0
        invariant
            gcd(x as nat, y as nat) == gcd(a as nat, b as nat),
        decreases y,
    {
        let r = x % y;
        x = y;
        y = r;
    }
    x
}

fn wide_product(a: u32, b: u32) -> (r: u64)
    ensures
        r == a * b,
{
    assert(a * b <= 0xffff_ffff * 0xffff_ffff) by (nonlinear_arith)
        requires
            a <= 0xffff_ffff,
            b <= 0xffff_ffff,
    ;
    (a as u64) * (b as u64)
}

fn order_of(a: u64, b: u64) -> (r: Order)
    ensures
        r == int_order(a as int, b as int),
{
    if a < b {
        Order::Less
    } else if a == b {
        Order::Equal
    } else {
        Order::Greater
    }
}

/// `gcd(n, 1) == 1`.
pub proof fn lemma_gcd_one(n: nat)
    ensures
        gcd(n, 1) == 1,
{
    reveal_with_fuel(gcd, 3);
    assert(n % 1 == 0);
}

/// `fraction::GenericFraction::<u32>::checked_add` on two finite rationals,
/// each given as a flag for a negative sign, a numerator and a denominator.
///
/// The outside sum brings both operands to their least common denominator
/// with checked 32-bit multiplications, adds or subtracts the magnitudes
/// according to the signs, and reduces; it yields nothing when a checked step
/// overflows. The contract states that result: the parts of [`ratio_sum`]
/// where that is a rational, `None` where it is not-a-number.
#[verifier::external_body]
fn checked_sum(a_neg: bool, an: u32, ad: u32, b_neg: bool, bn: u32, bd: u32) -> (r: Option<
    (bool, u32, u32),
>)
    requires
        Frac::Rational(sign_of(a_neg), an, ad).wf(),
        Frac::Rational(sign_of(b_neg), bn, bd).wf(),
    ensures
        r matches Some(q) ==> Frac::Rational(sign_of(q.0), q.1, q.2) == ratio_sum(
            sign_of(a_neg),
            an as nat,
            ad as nat,
            sign_of(b_neg),
            bn as nat,
            bd as nat,
        ),
        r is None ==> ratio_sum(
            sign_of(a_neg),
            an as nat,
            ad as nat,
            sign_of(b_neg),
            bn as nat,
            bd as nat,
        ) is NaN,
{
    let a = if a_neg {
        fraction::GenericFraction::<u32>::new_neg(an, ad)
    } else {
        fraction::GenericFraction::<u32>::new(an, ad)
    };
    let b = if b_neg {
        fraction::GenericFraction::<u32>::new_neg(bn, bd)
    } else {
        fraction::GenericFraction::<u32>::new(bn, bd)
    };
    let sum = a.checked_add(&b)?;
    Some((sum.is_sign_negative(), *sum.numer()?, *sum.denom()?))
}

/// `fraction::GenericFraction::<u32>::checked_mul` on two finite rationals,
/// each given as a flag for a negative sign, a numerator and a denominator.
///
/// The outside product divides each numerator and the opposite denominator
/// by their greatest common divisor, multiplies with checked 32-bit
/// multiplications and reduces; it yields nothing when a multiplication
/// overflows. The contract states that result: the parts of
/// [`ratio_product`] where that is a rational, `None` where it is
/// not-a-number.
#[verifier::external_body]
fn checked_product(a_neg: bool, an: u32, ad: u32, b_neg: bool, bn: u32, bd: u32) -> (r: Option<
    (bool, u32, u32),
>)
    requires
        Frac::Rational(sign_of(a_neg), an, ad).wf(),
        Frac::Rational(sign_of(b_neg), bn, bd).wf(),
    ensures
        r matches Some(q) ==> Frac::Rational(sign_of(q.0), q.1, q.2) == ratio_product(
            sign_of(a_neg),
            an as nat,
            ad as nat,
            sign_of(b_neg),
            bn as nat,
            bd as nat,
        ),
        r is None ==> ratio_product(
            sign_of(a_neg),
            an as nat,
            ad as nat,
            sign_of(b_neg),
            bn as nat,
            bd as nat,
        ) is NaN,
{
    let a = if a_neg {
        fraction::GenericFraction::<u32>::new_neg(an, ad)
    } else {
        fraction::GenericFraction::<u32>::new(an, ad)
    };
    let b = if b_neg {
        fraction::GenericFraction::<u32>::new_neg(bn, bd)
    } else {
        fraction::GenericFraction::<u32>::new(bn, bd)
    };
    let product = a.checked_mul(&b)?;
    Some((product.is_sign_negative(), *product.numer()?, *product.denom()?))
}

/// A common factor can be taken out of a greatest common divisor.
pub proof fn lemma_gcd_scale(k: nat, a: nat, b: nat)
    requires
        k > 0,
    ensures
        gcd(k * a, k * b) == k * gcd(a, b),
    decreases b,
{
    if b == 0 {
        assert(k * b == 0) by (nonlinear_arith)
            requires
                b == 0,
        ;
    } else {
        vstd::arithmetic::div_mod::lemma_truncate_middle(a as int, k as int, b as int);
        assert(k * b > 0) by (nonlinear_arith)
            requires
                k > 0,
                b > 0,
        ;
        assert(a % b < b);
        lemma_gcd_scale(k, b, a % b);
        assert(gcd(k * a, k * b) == gcd(k * b, (k * a) % (k * b)));
        assert((k * a) % (k * b) == k * (a % b));
    }
}

/// Two fractions in lowest terms with equal cross products are the same.
pub proof fn lemma_lowest_terms_unique(an: nat, ad: nat, bn: nat, bd: nat)
    requires
        ad > 0,
        bd > 0,
        gcd(an, ad) == 1,
        gcd(bn, bd) == 1,
        an * bd == bn * ad,
    ensures
        an == bn,
        ad == bd,
{
    lemma_gcd_scale(bd, an, ad);
    lemma_gcd_scale(ad, bn, bd);
    assert(bd * an == an * bd) by (nonlinear_arith);
    assert(ad * bn == bn * ad) by (nonlinear_arith);
    assert(bd * ad == ad * bd) by (nonlinear_arith);
    assert(bd * 1 == bd && ad * 1 == ad);
    assert(gcd(bd * an, bd * ad) == bd * gcd(an, ad));
    assert(gcd(ad * bn, ad * bd) == ad * gcd(bn, bd));
    assert(bd == ad);
    assert(an == bn) by (nonlinear_arith)
        requires
            an * bd == bn * ad,
            bd == ad,
            ad > 0,
    ;
}

/// Exchanging the operands reverses the order.
pub proof fn lemma_frac_order_flip(a: Frac, b: Frac)
    ensures
        frac_order(b, a) == frac_order(a, b).flip(),
{
}

/// A value compares equal to itself.
pub proof fn lemma_frac_order_reflexive(a: Frac)
    ensures
        frac_order(a, a) == Order::Equal,
{
}

/// Two reduced values that compare equal are the same value.
pub proof fn lemma_frac_order_equal(a: Frac, b: Frac)
    requires
        a.wf(),
        b.wf(),
        frac_order(a, b) == Order::Equal,
    ensures
        a == b,
{
    match (a, b) {
        (Frac::Rational(s, an, ad), Frac::Rational(o, bn, bd)) => {
            let x = signed_numer(s, an) * bd;
            let y = signed_numer(o, bn) * ad;
            assert(x == y);
            assert((-(an as int)) * bd == -(an * bd)) by (nonlinear_arith);
            assert((-(bn as int)) * ad == -(bn * ad)) by (nonlinear_arith);
            assert(an * bd >= 0 && bn * ad >= 0) by (nonlinear_arith);
            assert(an > 0 ==> an * bd > 0) by (nonlinear_arith)
                requires
                    bd > 0,
            ;
            assert(bn > 0 ==> bn * ad > 0) by (nonlinear_arith)
                requires
                    ad > 0,
            ;
            assert(an == 0 ==> an * bd == 0) by (nonlinear_arith);
            assert(bn == 0 ==> bn * ad == 0) by (nonlinear_arith);
            assert(an * bd == bn * ad);
            lemma_lowest_terms_unique(an as nat, ad as nat, bn as nat, bd as nat);
        },
        _ => {},
    }
}

/// The order of values is transitive.
pub proof fn lemma_frac_order_transitive(a: Frac, b: Frac, c: Frac)
    requires
        a.wf(),
        b.wf(),
        c.wf(),
        frac_order(a, b) == Order::Less,
        frac_order(b, c) == Order::Less,
    ensures
        frac_order(a, c) == Order::Less,
{
    match (a, b, c) {
        (Frac::Rational(s, an, ad), Frac::Rational(o, bn, bd), Frac::Rational(u, cn, cd)) => {
            let x = signed_numer(s, an);
            let y = signed_numer(o, bn);
            let z = signed_numer(u, cn);
            assert(x * cd < z * ad) by (nonlinear_arith)
                requires
                    x * bd < y * ad,
                    y * cd < z * bd,
                    ad > 0,
                    bd > 0,
                    cd > 0,
            ;
        },
        _ => {},
    }
}

/// The greatest common divisor of a number with itself is that number.
pub proof fn lemma_gcd_self(n: nat)
    ensures
        gcd(n, n) == n,
{
    reveal_with_fuel(gcd, 3);
    if n > 0 {
        assert(n % n == 0) by (nonlinear_arith)
            requires
                n > 0,
        ;
    }
}

/// `gcd(1, n) == 1`.
pub proof fn lemma_gcd_one_left(n: nat)
    ensures
        gcd(1, n) == 1,
{
    lemma_gcd_one(n);
    lemma_gcd_symmetric(1, n);
}

/// The greatest common divisor divides both numbers.
pub proof fn lemma_gcd_divides(a: nat, b: nat)
    ensures
        gcd(a, b) > 0 ==> a % gcd(a, b) == 0 && b % gcd(a, b) == 0,
        gcd(a, b) == 0 ==> a == 0 && b == 0,
    decreases b,
{
    if b == 0 {
        if a > 0 {
            assert(a % a == 0) by (nonlinear_arith)
                requires
                    a > 0,
            ;
            assert(0nat % a == 0);
        }
    } else {
        lemma_gcd_divides(b, a % b);
        let g = gcd(a, b);
        assert(g == gcd(b, a % b));
        if g > 0 {
            vstd::arithmetic::div_mod::lemma_fundamental_div_mod(a as int, b as int);
            let k = a as int / b as int;
            let r = a as int % b as int;
            assert(a == b * k + r);
            vstd::arithmetic::div_mod::lemma_fundamental_div_mod(b as int, g as int);
            vstd::arithmetic::div_mod::lemma_fundamental_div_mod(r, g as int);
            let u = b as int / g as int;
            let w = r / g as int;
            assert(b == g * u);
            assert(r == g * w);
            assert(a == g * (u * k + w)) by (nonlinear_arith)
                requires
                    a == b * k + r,
                    b == g * u,
                    r == g * w,
            ;
            vstd::arithmetic::div_mod::lemma_mod_multiples_basic(u * k + w, g as int);
            assert((u * k + w) * g == g * (u * k + w)) by (nonlinear_arith);
        }
    }
}

/// The least common denominator does not depend on the order.
pub proof fn lemma_lcm_symmetric(a: nat, b: nat)
    requires
        a > 0,
        b > 0,
    ensures
        (a / gcd(a, b)) * b == (b / gcd(b, a)) * a,
        gcd(a, b) > 0,
        ((a / gcd(a, b)) * b) / a == b / gcd(a, b),
        ((a / gcd(a, b)) * b) / b == a / gcd(a, b),
{
    lemma_gcd_symmetric(a, b);
    lemma_gcd_divides(a, b);
    let g = gcd(a, b);
    vstd::arithmetic::div_mod::lemma_fundamental_div_mod(a as int, g as int);
    vstd::arithmetic::div_mod::lemma_fundamental_div_mod(b as int, g as int);
    let u = a / g;
    let w = b / g;
    assert(a == g * u);
    assert(b == g * w);
    assert(u * b == w * a) by (nonlinear_arith)
        requires
            a == g * u,
            b == g * w,
    ;
    assert(u > 0 && w > 0) by (nonlinear_arith)
        requires
            a == g * u,
            b == g * w,
            a > 0,
            b > 0,
            g > 0,
    ;
    assert(u * b == a * w) by (nonlinear_arith)
        requires
            u * b == w * a,
    ;
    vstd::arithmetic::div_mod::lemma_div_multiples_vanish(w as int, a as int);
    assert((a * w) / a == w) by {
        assert(w * a == a * w) by (nonlinear_arith);
    }
    vstd::arithmetic::div_mod::lemma_div_multiples_vanish(u as int, b as int);
}

/// The sum of two values does not depend on their order.
pub proof fn lemma_frac_sum_commutative(a: Frac, b: Frac)
    requires
        a.wf(),
        b.wf(),
    ensures
        frac_sum(a, b) == frac_sum(b, a),
{
    match (a, b) {
        (Frac::Rational(s, an, ad), Frac::Rational(o, bn, bd)) => {
            lemma_lcm_symmetric(ad as nat, bd as nat);
            lemma_lcm_symmetric(bd as nat, ad as nat);
            lemma_gcd_symmetric(ad as nat, bd as nat);
        },
        _ => {},
    }
}

/// The product of two values does not depend on their order.
pub proof fn lemma_frac_product_commutative(a: Frac, b: Frac)
    ensures
        frac_product(a, b) == frac_product(b, a),
{
    match (a, b) {
        (Frac::Rational(s, an, ad), Frac::Rational(o, bn, bd)) => {
            lemma_gcd_symmetric(an as nat, bd as nat);
            lemma_gcd_symmetric(ad as nat, bn as nat);
            let g1 = gcd(an as nat, bd as nat);
            let g2 = gcd(ad as nat, bn as nat);
            assert((an as nat / g1) * (bn as nat / g2) == (bn as nat / g2) * (an as nat / g1))
                by (nonlinear_arith);
            assert((ad as nat / g2) * (bd as nat / g1) == (bd as nat / g1) * (ad as nat / g2))
                by (nonlinear_arith);
        },
        _ => {},
    }
}

/// One times a reduced value is that value.
pub proof fn lemma_frac_product_one(x: Frac)
    requires
        x.wf(),
    ensures
        frac_product(Frac::Rational(Sign::Plus, 1, 1), x) == x,
        frac_product(x, Frac::Rational(Sign::Plus, 1, 1)) == x,
{
    match x {
        Frac::Rational(s, n, d) => {
            lemma_gcd_one_left(d as nat);
            lemma_gcd_one_left(n as nat);
            lemma_gcd_one(n as nat);
            lemma_gcd_one(d as nat);
            assert(1nat * (n as nat) == n && (n as nat) * 1nat == n);
            assert(1nat * (d as nat) == d && (d as nat) * 1nat == d);
            assert(n as nat / 1 == n && d as nat / 1 == d);
            assert(1nat / 1 == 1);
        },
        _ => {},
    }
}

/// A finite value and its negation add up to zero.
pub proof fn lemma_frac_sum_negation(x: Frac)
    requires
        x.wf(),
        x is Rational,
    ensures
        frac_sum(x, frac_neg(x)) == Frac::Rational(Sign::Plus, 0, 1),
        frac_sum(frac_neg(x), x) == Frac::Rational(Sign::Plus, 0, 1),
{
    let n = x->Rational_1 as nat;
    let d = x->Rational_2 as nat;
    lemma_gcd_self(d);
    assert(d / d == 1) by (nonlinear_arith)
        requires
            d > 0,
    ;
    assert(1 * d == d);
    assert(1 * n == n);
    assert(gcd(0, d) == d) by {
        reveal_with_fuel(gcd, 3);
        assert(0nat % d == 0);
    }
    assert(0nat / d == 0) by (nonlinear_arith)
        requires
            d > 0,
    ;
    if n == 0 {
        assert(gcd(0, 1) == 1) by {
            reveal_with_fuel(gcd, 3);
        }
    }
}

/// One half and one half are one.
pub proof fn lemma_two_halves()
    ensures
        frac_sum(frac_half(), frac_half()) == Frac::Rational(Sign::Plus, 1, 1),
        frac_half().wf(),
{
    lemma_gcd_self(2);
    assert(gcd(1, 2) == 1) by {
        reveal_with_fuel(gcd, 4);
    }
}

/// Minus one times one half, and one half put together with minus one, is
/// minus one half; minus one half and one half cancel, and so do one and
/// minus one.
pub proof fn lemma_half_arithmetic()
    ensures
        frac_product(Frac::Rational(Sign::Minus, 1, 1), frac_half()) == Frac::Rational(
            Sign::Minus,
            1,
            2,
        ),
        frac_sum(frac_half(), Frac::Rational(Sign::Minus, 1, 1)) == Frac::Rational(
            Sign::Minus,
            1,
            2,
        ),
        frac_sum(Frac::Rational(Sign::Minus, 1, 1), frac_half()) == Frac::Rational(
            Sign::Minus,
            1,
            2,
        ),
        frac_sum(Frac::Rational(Sign::Minus, 1, 2), frac_half()) == Frac::Rational(
            Sign::Plus,
            0,
            1,
        ),
        frac_sum(Frac::Rational(Sign::Plus, 1, 1), Frac::Rational(Sign::Minus, 1, 1))
            == Frac::Rational(Sign::Plus, 0, 1),
{
    lemma_two_halves();
    lemma_gcd_one(1);
    lemma_gcd_one(2);
    lemma_gcd_one_left(2);
    assert(2nat / 1 == 2 && 1nat / 1 == 1 && 2nat / 2 == 1);
    lemma_frac_sum_negation(frac_half());
    lemma_frac_sum_negation(Frac::Rational(Sign::Plus, 1, 1));
}

/// Dividing two numbers by their greatest common divisor leaves them
/// without a common divisor.
pub proof fn lemma_gcd_cancelled(n: nat, d: nat)
    requires
        d > 0,
    ensures
        gcd(n, d) > 0,
        gcd(n / gcd(n, d), d / gcd(n, d)) == 1,
        d / gcd(n, d) > 0,
        n > 0 ==> n / gcd(n, d) > 0,
        n / gcd(n, d) <= n,
        d / gcd(n, d) <= d,
{
    let g = gcd(n, d);
    lemma_gcd_divides(n, d);
    assert(g > 0);
    vstd::arithmetic::div_mod::lemma_fundamental_div_mod(n as int, g as int);
    vstd::arithmetic::div_mod::lemma_fundamental_div_mod(d as int, g as int);
    let u = n / g;
    let w = d / g;
    assert(n == g * u);
    assert(d == g * w);
    lemma_gcd_scale(g, u, w);
    assert(g * gcd(u, w) == g);
    assert(gcd(u, w) == 1) by (nonlinear_arith)
        requires
            g * gcd(u, w) == g,
            g > 0,
    ;
    assert(w > 0) by (nonlinear_arith)
        requires
            d == g * w,
            d > 0,
            g > 0,
    ;
    if n > 0 {
        assert(u > 0) by (nonlinear_arith)
            requires
                n == g * u,
                n > 0,
                g > 0,
        ;
    }
    assert(u <= n) by (nonlinear_arith)
        requires
            n == g * u,
            g > 0,
    ;
    assert(w <= d) by (nonlinear_arith)
        requires
            d == g * w,
            g > 0,
    ;
}

/// A fraction brought to lowest terms is in lowest terms.
pub proof fn lemma_reduced_wf(sign: Sign, n: nat, d: nat)
    requires
        d > 0,
        n <= u32::MAX,
        d <= u32::MAX,
    ensures
        reduced(sign, n, d).wf(),
{
    lemma_gcd_cancelled(n, d);
    if n == 0 {
        assert(0nat / gcd(n, d) == 0) by (nonlinear_arith)
            requires
                gcd(n, d) > 0,
        ;
    }
}

/// The sum of two reduced values is reduced.
pub proof fn lemma_frac_sum_wf(a: Frac, b: Frac)
    requires
        a.wf(),
        b.wf(),
    ensures
        frac_sum(a, b).wf(),
{
    match (a, b) {
        (Frac::Rational(s, an, ad), Frac::Rational(o, bn, bd)) => {
            lemma_gcd_cancelled(ad as nat, bd as nat);
            let l = (ad as nat / gcd(ad as nat, bd as nat)) * bd as nat;
            let x = (l / ad as nat) * an as nat;
            let y = (l / bd as nat) * bn as nat;
            assert(l > 0) by (nonlinear_arith)
                requires
                    l == (ad as nat / gcd(ad as nat, bd as nat)) * bd as nat,
                    ad as nat / gcd(ad as nat, bd as nat) > 0,
                    bd > 0,
            ;
            if l <= u32::MAX && x <= u32::MAX && y <= u32::MAX {
                if s == o {
                    if x + y <= u32::MAX {
                        lemma_reduced_wf(s, x + y, l);
                    }
                } else if x < y {
                    lemma_reduced_wf(o, (y - x) as nat, l);
                } else {
                    lemma_reduced_wf(s, (x - y) as nat, l);
                }
            }
        },
        _ => {},
    }
}

/// The product of two reduced values is reduced.
pub proof fn lemma_frac_product_wf(a: Frac, b: Frac)
    requires
        a.wf(),
        b.wf(),
    ensures
        frac_product(a, b).wf(),
{
    match (a, b) {
        (Frac::Rational(s, an, ad), Frac::Rational(o, bn, bd)) => {
            lemma_gcd_cancelled(an as nat, bd as nat);
            lemma_gcd_cancelled(bn as nat, ad as nat);
            lemma_gcd_symmetric(ad as nat, bn as nat);
            let g1 = gcd(an as nat, bd as nat);
            let g2 = gcd(ad as nat, bn as nat);
            let n = (an as nat / g1) * (bn as nat / g2);
            let d = (ad as nat / g2) * (bd as nat / g1);
            assert(d > 0) by (nonlinear_arith)
                requires
                    d == (ad as nat / g2) * (bd as nat / g1),
                    ad as nat / g2 > 0,
                    bd as nat / g1 > 0,
            ;
            if n <= u32::MAX && d <= u32::MAX {
                lemma_reduced_wf(sign_product(s, o), n, d);
            }
        },
        _ => {},
    }
}

} // verus!
