use exact::expr_field::io::parse_display::{pd_frac, Error};
use exact::expr_field::structs::type_field::TypeField;
use exact::expr_field::structs::Const;
use exact::expr_field::{Expr, ExprFn};
use exact::frac::{Frac, Sign};
use exact::io::scanner::{ExprScanner, E_APPROX, PI_APPROX};

fn c_pi() -> Const {
    Const { ch: 'π', ascii: "pi", approx: PI_APPROX }
}

fn c_e() -> Const {
    Const { ch: 'e', ascii: "e", approx: E_APPROX }
}

fn frac(n: u32, d: u32) -> Frac {
    Frac::Rational(Sign::Plus, n, d)
}

fn read(f: &mut TypeField, text: &str) -> Expr {
    f.parse(text).unwrap()
}

#[test]
fn parse_display_test_pd_frac() {
    let test_vec = vec![
        ("1", Frac::one()),
        ("-1", Frac::one().neg()),
        ("1/2", frac(1, 2)),
        ("-1/2", frac(1, 2).neg()),
    ];
    for (text, res) in test_vec {
        assert_eq!(pd_frac(&mut ExprScanner::new(text)), Ok(res));
    }
}

#[test]
fn test_parse_fundamentals() {
    let mut f = TypeField::new(1);
    let tv = vec![
        ("O", Expr::Zero(1)),
        ("I", Expr::One(1)),
        ("?", Expr::InDet(1)),
        ("∞", Expr::Infty(1, Sign::Plus)),
    ];
    for (t, res) in tv {
        assert_eq!(f.parse(t), Ok(res));
        assert_eq!(t, f.print(res));
    }
    assert_eq!(f.parse("-∞"), Ok(Expr::Infty(1, Sign::Minus)));
    assert_eq!(f.print(Expr::Infty(1, Sign::Minus)), "-∞");
    assert_eq!(f.parse(""), Ok(Expr::Zero(1)));
}

#[test]
fn parse_display_test_parse_val() {
    let test_vec = vec![("2", Frac::from_int(2)), ("5/2", frac(5, 2))];
    let mut f = TypeField::new(1);
    for (text, res) in test_vec {
        let v = f.add_val(res);
        assert_eq!(f.parse(text), Ok(v));
        assert_eq!(text, f.print(v));
    }
    let v = f.add_val(frac(5, 2));
    assert_eq!(f.parse("ξ5/2"), Ok(v));
    assert!(matches!(v, Expr::Val(_)));
}

#[test]
fn parse_display_test_parse_const() {
    let c_phi = Const { ch: 'φ', ascii: "phi", approx: 1_618_000_000 };
    let test_vec = vec![("π", c_pi()), ("e", c_e()), ("φ(1.618)", c_phi)];
    let mut f = TypeField::new(1);
    for (text, res) in test_vec {
        let c = f.add_const(res);
        assert_eq!(f.parse(text), Ok(c));
        assert!(matches!(c, Expr::Const(_)));
    }
}

#[test]
fn parse_display_test_parse_sum_single() {
    let mut f = TypeField::new(1);
    let pi = f.add_const(c_pi());
    let five = f.add_val(Frac::from_int(5));
    let sqrt5 = f.add_fn(ExprFn::Sqrt(five));
    let tv = vec![
        ("Σ(1/2,√5)", vec![(frac(1, 2), sqrt5)]),
        ("Σ(2,π)", vec![(Frac::from_int(2), pi)]),
    ];
    for (t, res) in tv {
        let s = f.add_svec(res);
        assert_eq!(f.parse(t), Ok(s));
        assert_eq!(t, f.print(s));
        assert!(matches!(s, Expr::Sum(_)));
    }
    let two_pi = f.add_svec(vec![(Frac::from_int(2), pi)]);
    assert_eq!(f.parse("Σ[(2,π)]"), Ok(two_pi));
}

#[test]
fn parse_display_test_parse_sum_multi() {
    let mut f = TypeField::new(1);
    let pi = f.add_const(c_pi());
    let one = Expr::One(1);
    let five = f.add_val(Frac::from_int(5));
    let sqrt5 = f.add_fn(ExprFn::Sqrt(five));
    let tv = vec![
        ("Σ[(1/2,I),(1/2,√5)]", vec![(frac(1, 2), one), (frac(1, 2), sqrt5)]),
        ("Σ[(2,I),(1,π)]", vec![(Frac::from_int(2), one), (Frac::one(), pi)]),
        ("Σ[(1/2,√5),(1/2,I)]", vec![(frac(1, 2), one), (frac(1, 2), sqrt5)]),
    ];
    for (t, res) in tv {
        let s = f.add_svec(res);
        assert_eq!(f.parse(t), Ok(s));
    }
    let phi = read(&mut f, "Σ[(1/2,I),(1/2,√5)]");
    assert_eq!(f.print(phi), "Σ[(1/2,I),(1/2,√5)]");
    assert_eq!(f.parse("Σ[(1/2,ξ1),(1/2,√5)]"), Ok(phi));
}

#[test]
fn parse_display_test_parse_prod_single() {
    let mut f = TypeField::new(1);
    let pi = f.add_const(c_pi());
    let tv = vec![("Π(π,2)", vec![(pi, Frac::from_int(2))])];
    for (t, res) in tv {
        let p = f.add_pvec(res);
        assert_eq!(f.parse(t), Ok(p));
        assert_eq!(t, f.print(p));
    }
    let square = f.add_pvec(vec![(pi, Frac::from_int(2))]);
    assert_eq!(f.parse("Π[(π,2)]"), Ok(square));
}

#[test]
fn parse_display_test_parse_prod_multi() {
    let mut f = TypeField::new(1);
    let pi = read(&mut f, "π");
    let sqrt5 = read(&mut f, "√5");
    let tv = vec![("Π[(π,1),(√5,1)]", vec![(pi, Frac::from_int(1)), (sqrt5, Frac::from_int(1))])];
    for (t, res) in tv {
        let p = f.add_pvec(res);
        assert_eq!(f.parse(t), Ok(p));
        assert_eq!(f.print(p), t);
    }
}

#[test]
fn parse_display_test_parse_sqrt() {
    let mut f = TypeField::new(1);
    let pi = f.add_const(c_pi());
    let five = f.add_val(Frac::from_int(5));
    let five_halves = f.add_val(frac(5, 2));
    let two_pi = f.add_svec(vec![(Frac::from_int(2), pi)]);
    let pi_squared = f.add_pvec(vec![(pi, Frac::from_int(2))]);
    let tv = vec![
        ("√5", five),
        ("√5/2", five_halves),
        ("√π", pi),
        ("√Σ(2,π)", two_pi),
        ("√Π(π,2)", pi_squared),
    ];
    for (t, res) in tv {
        let root = f.add_fn(ExprFn::Sqrt(res));
        assert_eq!(f.parse(t), Ok(root));
        assert_eq!(t, f.print(root));
    }
}

#[test]
fn parse_failures_are_errors() {
    let mut f = TypeField::new(1);
    assert_eq!(f.parse("Σ(2,π"), Err(Error::EndOfLine));
    assert_eq!(f.parse("Σ[2,π)"), Err(Error::Character(2)));
    assert_eq!(f.parse("Σ(2;π)"), Err(Error::Character(3)));
    assert_eq!(f.parse("Π(π,2"), Err(Error::EndOfLine));
    assert_eq!(f.parse("Σ[(2,π)"), Err(Error::EndOfLine));
    assert_eq!(f.parse("ξ1//2"), Err(Error::Fraction(1)));
    assert_eq!(f.parse("Σ(,π)"), Err(Error::Fraction(2)));
    assert_eq!(f.parse("φ"), Err(Error::EndOfLine));
    assert_eq!(f.parse("φ[1]"), Err(Error::Character(1)));
    assert_eq!(f.parse("φ(abc)"), Err(Error::Constant(2)));
    assert_eq!(f.parse("φ(1.5"), Err(Error::EndOfLine));
    assert_eq!(f.parse("φ()"), Err(Error::Constant(2)));
}

#[test]
fn inline_constants_are_read_in_billionths() {
    let mut f = TypeField::new(1);
    let phi = read(&mut f, "φ(1.618)");
    let Expr::Const(r) = phi else {
        panic!("a constant");
    };
    let c = f.get_const(r);
    assert_eq!(c.ch, 'φ');
    assert_eq!(c.approx, 1_618_000_000);
    let minus = read(&mut f, "μ(-0.0000000019)");
    let Expr::Const(r) = minus else {
        panic!("a constant");
    };
    assert_eq!(f.get_const(r).approx, -1);
    let big = read(&mut f, "β(9223372036.854775807)");
    let Expr::Const(r) = big else {
        panic!("a constant");
    };
    assert_eq!(f.get_const(r).approx, i64::MAX);
    assert_eq!(f.parse("γ(9223372036.854775808)"), Err(Error::Constant(2)));
    // a constant is known by its approximation: the first name stays
    let again = read(&mut f, "ψ(1.618)");
    assert_eq!(again, phi);
    // a constant that the notation does not know by its tag prints with its
    // approximation, and is read back as the same constant
    assert_eq!(f.print(again), "φ(1.618000000)");
    assert_eq!(f.print(minus), "μ(-0.000000001)");
    assert_eq!(f.print(big), "β(9223372036.854775807)");
    for e in [phi, minus, big] {
        let text = f.print(e);
        assert_eq!(read(&mut f, &text), e);
        let mut other = TypeField::new(2);
        let copy = other.parse(&text).unwrap();
        assert!(f.equal(e, &other, copy));
    }
    let nested = read(&mut f, "Σ[(1/2,I),(2,Π[(φ(1.618),2),(√μ(-0.000000001),1)])]");
    let text = f.print(nested);
    assert_eq!(text, "Σ[(1/2,I),(2,Π[(φ(1.618000000),2),(√μ(-0.000000001),1)])]");
    assert_eq!(read(&mut f, &text), nested);
    let zero = f.add_const(Const { ch: 'ζ', ascii: "zeta", approx: 0 });
    assert_eq!(f.print(zero), "ζ(0.000000000)");
    let pi = f.c_pi();
    assert_eq!(f.print(pi), "π");
}

#[test]
fn printing_and_parsing_round_trip() {
    let mut f = TypeField::new(1);
    for text in [
        "O",
        "I",
        "?",
        "∞",
        "-∞",
        "-1",
        "3/2",
        "π",
        "e",
        "Σ(2,π)",
        "Σ[(1,I),(1,π)]",
        "Π(π,2)",
        "Π[(e,1),(π,1)]",
        "√5",
        "√Σ[(1,I),(1,√5)]",
        "Σ(5,Π(π,2))",
        "Σ[(1/2,I),(-1/2,Π[(e,-1),(√π,1)])]",
        "🕢π",
        "🕑Σ(2,π)",
        "🕘3/2",
    ] {
        let e = read(&mut f, text);
        assert_eq!(f.print(e), text);
        let printed = f.print(e);
        let again = read(&mut f, &printed);
        assert_eq!(again, e);
        let mut other = TypeField::new(2);
        let copy = other.parse(&f.print(e)).unwrap();
        assert!(f.equal(e, &other, copy));
    }
}
