use exact::expr_field::io::ascii::AsciiChar;
use exact::expr_field::io::parse_display::{decimal_key_of, Error, SyntaxError};
use exact::expr_field::simplify::collect_like;
use exact::expr_field::simplify::prod::simplify_pvec;
use exact::expr_field::simplify::root::{factor_root, root_count_of};
use exact::expr_field::simplify::sum::{simplify_svec, val_to_coeff};
use exact::expr_field::structs::string_expression::{StrExpr, StringOrField};
use exact::expr_field::structs::type_field::TypeField;
use exact::expr_field::structs::Const;
use exact::expr_field::{Expr, ExprFn};
use exact::frac::{gcd_of, Frac, Order, Sign};
use exact::io::scanner::ExprScanner;
use exact::io_traits::{AsciiString, Char};
use exact::structs::only_read_grow_array::ArrayOnlyReadGrow;
use exact::term::FnKind;

fn frac(n: u32, d: u32) -> Frac {
    Frac::Rational(Sign::Plus, n, d)
}

fn minus(n: u32, d: u32) -> Frac {
    Frac::Rational(Sign::Minus, n, d)
}

#[test]
fn rationals_add() {
    assert_eq!(frac(1, 2).add(frac(1, 3)), frac(5, 6));
    assert_eq!(frac(1, 2).add(frac(1, 2)), frac(1, 1));
    assert_eq!(frac(1, 6).add(frac(1, 3)), frac(1, 2));
    assert_eq!(frac(1, 2).add(minus(1, 2)), frac(0, 1));
    assert_eq!(minus(1, 2).add(frac(1, 2)), frac(0, 1));
    assert_eq!(frac(1, 3).add(minus(1, 2)), minus(1, 6));
    assert_eq!(minus(1, 3).add(minus(1, 6)), minus(1, 2));
    assert_eq!(frac(u32::MAX, 1).add(frac(1, 1)), Frac::NaN);
    assert_eq!(frac(1, u32::MAX).add(frac(1, u32::MAX - 1)), Frac::NaN);
    assert_eq!(frac(u32::MAX, 1).add(minus(1, 1)), frac(u32::MAX - 1, 1));
    assert_eq!(Frac::NaN.add(frac(1, 2)), Frac::NaN);
    assert_eq!(Frac::Infinity(Sign::Plus).add(frac(1, 2)), Frac::Infinity(Sign::Plus));
    assert_eq!(frac(1, 2).add(Frac::Infinity(Sign::Minus)), Frac::Infinity(Sign::Minus));
    assert_eq!(Frac::Infinity(Sign::Plus).add(Frac::Infinity(Sign::Minus)), Frac::NaN);
    assert_eq!(Frac::Infinity(Sign::Minus).add(Frac::Infinity(Sign::Minus)), Frac::Infinity(Sign::Minus));
}

#[test]
fn rationals_multiply() {
    assert_eq!(frac(2, 3).mul(frac(3, 4)), frac(1, 2));
    assert_eq!(frac(2, 3).mul(minus(3, 2)), minus(1, 1));
    assert_eq!(minus(2, 3).mul(minus(3, 2)), frac(1, 1));
    assert_eq!(minus(2, 3).mul(frac(0, 1)), frac(0, 1));
    assert_eq!(frac(u32::MAX, 1).mul(frac(2, 1)), Frac::NaN);
    assert_eq!(frac(u32::MAX, 1).mul(frac(1, u32::MAX)), frac(1, 1));
    assert_eq!(frac(65536, 1).mul(frac(65536, 1)), Frac::NaN);
    assert_eq!(Frac::Infinity(Sign::Plus).mul(frac(0, 1)), Frac::NaN);
    assert_eq!(frac(0, 1).mul(Frac::Infinity(Sign::Minus)), Frac::NaN);
    assert_eq!(Frac::Infinity(Sign::Plus).mul(minus(1, 2)), Frac::Infinity(Sign::Minus));
    assert_eq!(Frac::Infinity(Sign::Minus).mul(Frac::Infinity(Sign::Minus)), Frac::Infinity(Sign::Plus));
    assert_eq!(Frac::NaN.mul(frac(0, 1)), Frac::NaN);
}

#[test]
fn rationals_have_powers_and_reciprocals() {
    assert_eq!(frac(2, 3).pow(3), frac(8, 27));
    assert_eq!(frac(2, 3).pow(0), frac(1, 1));
    assert_eq!(frac(2, 1).pow(32), Frac::NaN);
    assert_eq!(frac(2, 1).pow(u64::MAX), Frac::NaN);
    assert_eq!(frac(0, 1).pow(u64::MAX), frac(0, 1));
    assert_eq!(frac(1, 1).pow(u64::MAX), frac(1, 1));
    assert_eq!(minus(1, 1).pow(u64::MAX), minus(1, 1));
    assert_eq!(minus(1, 1).pow(u64::MAX - 1), frac(1, 1));
    assert_eq!(Frac::Infinity(Sign::Minus).pow(3), Frac::Infinity(Sign::Minus));
    assert_eq!(Frac::Infinity(Sign::Minus).pow(4), Frac::Infinity(Sign::Plus));
    assert_eq!(Frac::NaN.pow(7), Frac::NaN);
    assert_eq!(Frac::NaN.pow(0), frac(1, 1));
    assert_eq!(minus(1, 2).pow(3), minus(1, 8));
    assert_eq!(minus(1, 1).int_power(minus(4_294_967_295, 1)), minus(1, 1));
    assert_eq!(minus(2, 3).recip(), minus(3, 2));
    assert_eq!(frac(0, 1).recip(), Frac::Infinity(Sign::Plus));
    assert_eq!(Frac::Infinity(Sign::Minus).recip(), frac(0, 1));
    assert_eq!(frac(2, 3).int_power(minus(2, 1)), frac(9, 4));
    assert_eq!(frac(2, 3).int_power(frac(0, 1)), frac(1, 1));
    assert_eq!(frac(2, 3).int_power(frac(1, 2)), Frac::NaN);
    assert_eq!(Frac::Infinity(Sign::Plus).int_power(frac(0, 1)), Frac::NaN);
    assert_eq!(minus(2, 3).neg(), frac(2, 3));
    assert_eq!(frac(0, 1).neg(), frac(0, 1));
    assert_eq!(Frac::half(), frac(1, 2));
}

#[test]
fn rationals_are_ordered_by_value() {
    let ascending = [
        Frac::NaN,
        Frac::Infinity(Sign::Minus),
        minus(3, 1),
        minus(1, 2),
        frac(0, 1),
        frac(1, 3),
        frac(1, 2),
        frac(u32::MAX - 1, u32::MAX),
        frac(1, 1),
        frac(u32::MAX, 1),
        Frac::Infinity(Sign::Plus),
    ];
    for i in 0..ascending.len() {
        assert_eq!(ascending[i].compare(ascending[i]), Order::Equal);
        for j in i + 1..ascending.len() {
            assert_eq!(ascending[i].compare(ascending[j]), Order::Less);
            assert_eq!(ascending[j].compare(ascending[i]), Order::Greater);
        }
    }
}

#[test]
fn reduced_rationals_are_recognised() {
    assert!(frac(1, 2).is_reduced());
    assert!(!frac(2, 4).is_reduced());
    assert!(!frac(1, 0).is_reduced());
    assert!(!minus(0, 1).is_reduced());
    assert!(!frac(0, 2).is_reduced());
    assert!(frac(0, 1).is_reduced());
    assert!(Frac::NaN.is_reduced());
    assert_eq!(minus(0, 1).normal(), frac(0, 1));
    assert_eq!(gcd_of(12, 18), 6);
    assert_eq!(gcd_of(0, 7), 7);
    assert_eq!(gcd_of(7, 0), 7);
    assert!(frac(3, 1).is_integer());
    assert!(!frac(3, 2).is_integer());
    assert!(frac(1, 1).is_one());
    assert!(frac(0, 1).is_zero());
}

#[test]
fn the_array_only_grows() {
    let mut a: ArrayOnlyReadGrow<u32, 3> = ArrayOnlyReadGrow::new();
    assert_eq!(a.len(), 0);
    for i in 0..10 {
        a.add(i * i);
        assert_eq!(a.len(), i as usize + 1);
    }
    for i in 0..10 {
        assert_eq!(*a.index(i), (i * i) as u32);
    }
}

#[test]
fn like_entries_are_collected_in_place() {
    let one = Expr::One(1);
    let zero = Expr::Zero(1);
    let v = vec![(frac(1, 2), one), (frac(2, 1), zero), (frac(1, 3), one), (minus(2, 1), zero)];
    assert_eq!(collect_like(v), vec![(frac(5, 6), one), (frac(0, 1), zero)]);
    let v = vec![(one, frac(1, 2)), (zero, frac(1, 1)), (one, frac(1, 2))];
    assert_eq!(collect_like(v), vec![(one, frac(1, 1)), (zero, frac(1, 1))]);
    assert_eq!(collect_like(Vec::<(Frac, Expr)>::new()), vec![]);
}

#[test]
fn vectors_are_simplified() {
    let mut f = TypeField::new(1);
    let pi = f.c_pi();
    let e = f.c_e();
    let three = f.val_i(3);
    let mut v = vec![(frac(2, 1), three), (frac(1, 1), pi)];
    val_to_coeff(&f, &mut v);
    assert_eq!(v, vec![(frac(6, 1), Expr::One(1)), (frac(1, 1), pi)]);
    let v = vec![(frac(1, 1), pi), (frac(2, 1), e), (minus(1, 1), pi), (frac(3, 1), Expr::One(1)), (frac(1, 1), e)];
    let s = simplify_svec(&f, v);
    assert_eq!(s, vec![(frac(3, 1), Expr::One(1)), (frac(3, 1), e)]);
    assert_eq!(simplify_svec(&f, s.clone()), s);
    let v = vec![(pi, frac(1, 1)), (e, frac(2, 1)), (pi, minus(1, 1)), (e, frac(1, 2))];
    let p = simplify_pvec(&f, v);
    assert_eq!(p, vec![(e, frac(5, 2))]);
    assert_eq!(simplify_pvec(&f, p.clone()), p);
}

#[test]
fn roots_split_into_what_leaves_and_what_stays() {
    assert_eq!(factor_root(12, 1, 1, 2, false), (frac(2, 1), frac(3, 1)));
    assert_eq!(factor_root(8, 1, 2, 3, false), (frac(4, 1), frac(1, 1)));
    assert_eq!(factor_root(2, 1, 1, 2, true), (frac(1, 2), frac(2, 1)));
    assert_eq!(factor_root(5, 2, 1, 2, false), (frac(1, 2), frac(10, 1)));
    assert_eq!(factor_root(9, 4, 1, 2, false), (frac(3, 2), frac(1, 1)));
    assert_eq!(factor_root(9, 4, 1, 2, true), (frac(2, 3), frac(1, 1)));
    assert_eq!(factor_root(1, 1, 5, 7, true), (frac(1, 1), frac(1, 1)));
    assert_eq!(factor_root(4_294_836_225, 1, 1, 2, false), (frac(65_535, 1), frac(1, 1)));
    assert_eq!(factor_root(4_293_001_441, 1, 1, 2, false), (frac(65_521, 1), frac(1, 1)));
    assert_eq!(root_count_of(3, 1, 2, false, true), 1);
    assert_eq!(root_count_of(3, 1, 2, false, false), 1);
    assert_eq!(root_count_of(3, 1, 2, true, true), 2);
    assert_eq!(root_count_of(3, 1, 2, true, false), 1);
    assert_eq!(root_count_of(4, 1, 2, true, false), 0);
}

#[test]
fn decimals_are_read_in_billionths() {
    let key = |text: &str| decimal_key_of(&text.chars().collect());
    assert_eq!(key("1.618"), Some(1_618_000_000));
    assert_eq!(key("3.141592653589793"), Some(3_141_592_653));
    assert_eq!(key("-2.5"), Some(-2_500_000_000));
    assert_eq!(key("7"), Some(7_000_000_000));
    assert_eq!(key("7."), Some(7_000_000_000));
    assert_eq!(key(".5"), Some(500_000_000));
    assert_eq!(key("0.0000000009"), Some(0));
    assert_eq!(key(""), None);
    assert_eq!(key("-"), None);
    assert_eq!(key("1.2.3"), None);
    assert_eq!(key("1e5"), None);
    assert_eq!(key("9223372037"), None);
    assert_eq!(key("99999999999999999999999999"), None);
}

#[test]
fn the_scanner_looks_one_character_ahead() {
    let mut sc = ExprScanner::new("aπc");
    assert_eq!(sc.cursor(), 0);
    assert_eq!(sc.peek(), Some('a'));
    assert!(!sc.take('π'));
    assert_eq!(sc.cursor(), 0);
    assert_eq!(sc.pop(), Some('a'));
    assert!(sc.take('π'));
    assert_eq!(sc.cursor(), 2);
    assert_eq!(sc.pop(), Some('c'));
    assert_eq!(sc.pop(), None);
    assert_eq!(sc.peek(), None);
    assert_eq!(sc.cursor(), 3);
    assert!(sc.has('π'));
    assert!(sc.has('e'));
    assert!(!sc.has('φ'));
    assert_eq!(sc.get_const('e').map(|c| c.ascii), Some("e"));
    assert_eq!(ExprScanner::c_map().len(), 2);
}

#[test]
fn names_and_glyphs() {
    let c = Const { ch: 'π', ascii: "pi", approx: 3_141_592_653 };
    assert_eq!(c.ch(), 'π');
    assert_eq!(c.ascii(), "pi");
    assert_eq!(c.asc_ch(), 'p');
    assert_eq!(FnKind::Sqrt.ch(), '√');
    assert_eq!(FnKind::Sin.ch(), '🕢');
    assert_eq!(FnKind::Cos.ch(), '🕑');
    assert_eq!(FnKind::Tan.ch(), '🕘');
    let one = Expr::One(1);
    assert_eq!(exact::expr_field::ExprFn::Sin(one).ascii(), "Sin");
    assert_eq!(exact::expr_field::ExprFn::Sqrt(one).ascii(), "Sqrt");
    let text = StrExpr {
        ch: 'φ',
        asc_ch: 'p',
        ascii: "phi".to_string(),
        expr: StringOrField::Str("Σ[(1/2,I),(1/2,√5)]".to_string()),
    };
    let StringOrField::Str(body) = &text.expr;
    let mut f = TypeField::new(1);
    let phi = f.sum_phi();
    assert_eq!(f.parse(body), Ok(phi));
}

#[test]
fn failures_have_words() {
    let e = SyntaxError::new_parse_error("a delimiter is missing".to_string());
    assert_eq!(e.level, "Parse");
    assert_eq!(e.text(), "Parse Error a delimiter is missing");
    assert_eq!(Error::Character(3).syntax_error().text(), "Parse Error a delimiter is missing");
    assert_eq!(
        Error::EndOfLine.syntax_error().text(),
        "Parse Error the text ends where more is expected"
    );
    assert_eq!(Error::Fraction(0).syntax_error().message, "a fraction cannot be read");
    assert_eq!(
        Error::Constant(2).syntax_error().message,
        "the approximation of a constant cannot be read"
    );
}

#[test]
fn builders_agree_with_the_notation() {
    let mut f = TypeField::new(1);
    let built = f.prod_pi_times_sqrt_i(5);
    assert_eq!(f.parse("Π[(π,1),(√5,1)]"), Ok(built));
    let built = f.sum_i_plus_pi(2);
    assert_eq!(f.parse("Σ[(2,ξ1),(1,π)]"), Ok(built));
    let built = f.sqrt_frac(frac(5, 2));
    assert_eq!(f.print(built), "√5/2");
    let two_pi = f.sum_i_pi(2);
    let built = f.sqrt_expr(two_pi);
    assert_eq!(f.print(built), "√Σ(2,π)");
    let built = f.c_e();
    assert_eq!(f.print(built), "e");
    let built = f.val_frac(frac(5, 2));
    assert_eq!(f.print(built), "5/2");
    let built = f.sum_i_expr(3, two_pi);
    assert_eq!(f.print(built), "Σ(3,Σ(2,π))");
}

#[test]
fn laws_hold_on_samples() {
    let mut f = TypeField::new(1);
    let samples = [
        "O", "I", "?", "∞", "-∞", "2", "-3/4", "π", "e", "Σ(2,π)", "Σ[(1,I),(1,π)]",
        "Σ[(1/2,I),(1/2,√5)]", "Π(π,2)", "Π[(e,1),(π,-1)]", "√5", "√π", "🕢π",
    ];
    let exprs: Vec<Expr> = samples.iter().map(|t| f.parse(t).unwrap()).collect();
    for &a in &exprs {
        // identities
        assert_eq!(f.add(a, Expr::Zero(1)), a);
        assert_eq!(f.add(Expr::Zero(1), a), a);
        assert_eq!(f.mul(a, Expr::One(1)), a);
        assert_eq!(f.mul(Expr::One(1), a), a);
        let by_zero = f.mul(a, Expr::Zero(1));
        if matches!(a, Expr::Infty(..) | Expr::InDet(_)) {
            assert_eq!(by_zero, Expr::InDet(1));
        } else {
            assert_eq!(by_zero, Expr::Zero(1));
        }
        // the inverse
        if !matches!(a, Expr::Zero(_) | Expr::Infty(..) | Expr::InDet(_)) {
            let inverse = f.inv(a);
            assert_eq!(f.mul(a, inverse), Expr::One(1));
            assert_eq!(f.mul(inverse, a), Expr::One(1));
        }
        // printing and reading
        let text = f.print(a);
        assert_eq!(f.parse(&text), Ok(a));
        for &b in &exprs {
            // commutativity
            assert_eq!(f.add(a, b), f.add(b, a));
            assert_eq!(f.mul(a, b), f.mul(b, a));
            // the order and equality agree
            assert_eq!(f.compare(a, b) == Order::Equal, a == b);
            assert_eq!(f.compare(a, b) == Order::Less, f.compare(b, a) == Order::Greater);
            for &c in &exprs {
                if f.compare(a, b) == Order::Less && f.compare(b, c) == Order::Less {
                    assert_eq!(f.compare(a, c), Order::Less);
                }
            }
        }
    }
    // a root squared
    for n in [frac(0, 1), frac(1, 1), frac(2, 1), frac(5, 2), frac(49, 1)] {
        let root = f.sqrt_frac(n);
        let value = f.val_frac(n);
        assert_eq!(f.mul(root, root), value);
    }
}

#[test]
fn monomials_commute_and_roots_cancel() {
    let mut f = TypeField::new(1);
    let monomials = [
        "π", "e", "🕢π", "Π(π,2)", "Π(e,-1)", "Π[(e,2),(π,1/3)]", "Π[(e,-2),(π,2/3)]",
        "Π[(🕢π,1),(e,-1)]", "Π[(🕢π,-1),(π,5)]", "Π(π,4294967295)",
    ];
    let exprs: Vec<Expr> = monomials.iter().map(|t| f.parse(t).unwrap()).collect();
    for &a in &exprs {
        for &b in &exprs {
            assert_eq!(f.mul(a, b), f.mul(b, a));
        }
    }
    let a = f.parse("Π[(e,2),(π,1/3)]").unwrap();
    let b = f.parse("Π[(e,-2),(π,2/3)]").unwrap();
    let pi = f.c_pi();
    assert_eq!(f.mul(a, b), pi);
    let big = f.parse("Π(π,4294967295)").unwrap();
    assert_eq!(f.mul(big, pi), Expr::InDet(1));
    assert_eq!(f.mul(pi, big), Expr::InDet(1));
    for atom in ["π", "e", "🕢π", "Σ[(1,I),(1,π)]"] {
        let x = f.parse(atom).unwrap();
        let root = f.sqrt_expr(x);
        let inverse = f.inv(root);
        assert_eq!(f.mul(root, inverse), Expr::One(1));
        assert_eq!(f.mul(inverse, root), Expr::One(1));
    }
    let root = f.parse("√π").unwrap();
    let inverse = f.inv(root);
    assert_eq!(f.print(inverse), "Π[(π,-1),(√π,1)]");
}

#[test]
fn rationals_have_a_floor_and_a_rest() {
    assert_eq!(frac(5, 2).floor(), frac(2, 1));
    assert_eq!(frac(5, 2).rest(), frac(1, 2));
    assert_eq!(minus(5, 2).floor(), minus(3, 1));
    assert_eq!(minus(5, 2).rest(), frac(1, 2));
    assert_eq!(frac(1, 3).floor(), frac(0, 1));
    assert_eq!(frac(1, 3).rest(), frac(1, 3));
    assert_eq!(minus(1, 3).floor(), minus(1, 1));
    assert_eq!(minus(1, 3).rest(), frac(2, 3));
    assert_eq!(frac(7, 1).floor(), frac(7, 1));
    assert_eq!(frac(7, 1).rest(), frac(0, 1));
    assert_eq!(minus(7, 1).floor(), minus(7, 1));
    assert_eq!(Frac::NaN.floor(), Frac::NaN);
    assert_eq!(frac(u32::MAX, 2).floor(), frac(u32::MAX / 2, 1));
    assert_eq!(frac(3, 1).endless_power(Sign::Plus), Frac::Infinity(Sign::Plus));
    assert_eq!(frac(3, 1).endless_power(Sign::Minus), frac(0, 1));
    assert_eq!(frac(1, 3).endless_power(Sign::Plus), frac(0, 1));
    assert_eq!(frac(1, 3).endless_power(Sign::Minus), Frac::Infinity(Sign::Plus));
}

#[test]
fn a_second_interning_stores_nothing() {
    let mut f = TypeField::new(1);
    assert_eq!(f.sizes(), (0, 0, 0, 0, 0));
    let pi = f.c_pi();
    assert_eq!(f.sizes(), (0, 1, 0, 0, 0));
    assert_eq!(f.c_pi(), pi);
    assert_eq!(f.sizes(), (0, 1, 0, 0, 0));
    let two = f.add_val(frac(2, 1));
    assert_eq!(f.sizes(), (1, 1, 0, 0, 0));
    assert_eq!(f.add_val(frac(2, 1)), two);
    assert_eq!(f.add_val(frac(1, 1)), Expr::One(1));
    assert_eq!(f.add_val(frac(0, 1)), Expr::Zero(1));
    assert_eq!(f.add_val(Frac::NaN), Expr::InDet(1));
    assert_eq!(f.sizes(), (1, 1, 0, 0, 0));
    let root = f.add_fn(ExprFn::Sqrt(pi));
    assert_eq!(f.sizes(), (1, 1, 0, 0, 1));
    assert_eq!(f.add_fn(ExprFn::Sqrt(pi)), root);
    assert_eq!(f.sizes(), (1, 1, 0, 0, 1));
    // sums
    let s = vec![(frac(2, 1), pi), (frac(1, 1), Expr::One(1)), (frac(3, 1), pi)];
    let first = f.add_svec(s.clone());
    let n = f.sizes();
    assert_eq!(n, (1, 1, 1, 0, 1));
    assert_eq!(f.add_svec(s), first);
    assert_eq!(f.sizes(), n);
    // products, with numbers merged, roots taken and square roots split off
    let p = |f: &mut TypeField| {
        let a = f.val_i(54);
        let b = f.val_i(3);
        let c = f.c_pi();
        vec![(a, frac(1, 3)), (b, frac(1, 3)), (c, frac(5, 2)), (b, frac(2, 1))]
    };
    let raw = p(&mut f);
    let first = f.add_pvec(raw.clone());
    let n = f.sizes();
    assert_eq!(f.add_pvec(raw), first);
    assert_eq!(f.sizes(), n);
    // copies from another arena
    let mut g = TypeField::new(2);
    let foreign = g.parse("Σ[(1,I),(2,Π[(π,2),(√5,1)]),(1/2,🕢Σ(2,e))]").unwrap();
    let copy = f.gulp(&g, foreign);
    let n = f.sizes();
    assert_eq!(f.gulp(&g, foreign), copy);
    assert_eq!(f.sizes(), n);
    assert_eq!(f.print(copy), g.print(foreign));
}
