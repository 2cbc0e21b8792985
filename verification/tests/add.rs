use exact::expr_field::structs::type_field::TypeField;
use exact::expr_field::structs::Const;
use exact::expr_field::Expr;
use exact::frac::{Frac, Sign};
use exact::io::scanner::PI_APPROX;

fn pi() -> Const {
    Const { ch: 'π', ascii: "pi", approx: PI_APPROX }
}

#[test]
fn one_plus_zero_is_one() {
    let mut f = TypeField::new(1);
    let one = Expr::One(f.id());
    let zero = Expr::Zero(f.id());
    assert_eq!(f.add(one, zero), one);
    assert_eq!(f.add(zero, one), one);
}

#[test]
fn pi_minus_pi_is_zero() {
    let mut f = TypeField::new(1);
    let pi = f.add_const(pi());
    let minus_pi = f.add_svec(vec![(Frac::Rational(Sign::Minus, 1, 1), pi)]);
    assert_eq!(f.add(pi, minus_pi), Expr::Zero(1));
    assert_eq!(f.add(minus_pi, pi), Expr::Zero(1));
}

#[test]
fn one_plus_three_is_four() {
    let mut f = TypeField::new(7);
    let three = f.add_val(Frac::from_int(3));
    let four = f.add_val(Frac::from_int(4));
    let one = Expr::One(7);
    assert_eq!(f.add(one, three), four);
    assert_eq!(f.add(three, one), four);
    let two = f.add_val(Frac::from_int(2));
    assert_eq!(f.add(one, one), two);
}

#[test]
fn halves_add_up() {
    let mut f = TypeField::new(7);
    let half = f.add_val(Frac::Rational(Sign::Plus, 1, 2));
    assert_eq!(f.add(half, half), Expr::One(7));
    let third = f.add_val(Frac::Rational(Sign::Plus, 1, 3));
    let five_sixths = f.add_val(Frac::Rational(Sign::Plus, 5, 6));
    assert_eq!(f.add(half, third), five_sixths);
}

fn read(f: &mut TypeField, text: &str) -> Expr {
    f.parse(text).unwrap()
}

#[test]
fn add_test_add_zero() {
    let mut f = TypeField::new(1);
    let tv = vec![
        ("I", "O", "I"),
        ("I", "-1", "O"),
        ("π", "O", "π"),
        ("π", "Σ(-1,π)", "O"),
        ("Σ[(1,I),(1,π)]", "ξ-1", "π"),
        ("Σ[(1,I),(1,π)]", "Σ(-1,π)", "I"),
        ("ξ1", "ξ0", "ξ1"),
        ("ξ1", "ξ-1", "ξ0"),
        ("π", "ξ0", "π"),
        ("π", "Σ(-1,π)", "ξ0"),
        ("Σ[(1,ξ1),(1,π)]", "ξ-1", "π"),
        ("Σ[(1,ξ1),(1,π)]", "Σ(-1,π)", "ξ1"),
    ];
    for (a, b, ans) in tv {
        let (a, b, ans) = (read(&mut f, a), read(&mut f, b), read(&mut f, ans));
        assert_eq!(f.add(a, b), ans);
        assert_eq!(f.add(b, a), ans);
    }
}

#[test]
fn add_test_val_plus_val() {
    let mut f = TypeField::new(1);
    let test_vec = vec![("I", "I", "ξ2"), ("I", "ξ3", "ξ4"), ("ξ1", "ξ1", "ξ2"), ("ξ2", "ξ2", "ξ4")];
    for (a, b, ans) in test_vec {
        let (a, b, ans) = (read(&mut f, a), read(&mut f, b), read(&mut f, ans));
        assert_eq!(f.add(a, b), ans);
        assert_eq!(f.add(b, a), ans);
    }
}

#[test]
fn add_test_val_plus_sum() {
    let mut f = TypeField::new(1);
    let test_vec = vec![
        ("ξ2", "Σ(3,π)", "Σ[(3,π),(2,ξ1)]"),
        ("ξ2", "Σ[(3,π),(2,ξ1)]", "Σ[(3,π),(4,ξ1)]"),
    ];
    for (a, b, ans) in test_vec {
        let (a, b, ans) = (read(&mut f, a), read(&mut f, b), read(&mut f, ans));
        assert_eq!(f.add(a, b), ans);
        assert_eq!(f.add(b, a), ans);
    }
}

#[test]
fn sums_across_arenas_land_in_the_left_arena() {
    let mut f1 = TypeField::new(1);
    let mut f2 = TypeField::new(2);
    let a = read(&mut f1, "Σ[(1,I),(1,π)]");
    let b = read(&mut f2, "Σ(-1,π)");
    let left = f1.add_from(a, &f2, b);
    assert_eq!(left, Expr::One(1));
    let right = f2.add_from(b, &f1, a);
    assert_eq!(right, Expr::One(2));
    let c = read(&mut f2, "Σ[(2,e),(1/2,√5)]");
    let in_first = f1.add_from(a, &f2, c);
    let in_second = f2.add_from(c, &f1, a);
    assert!(f1.equal(in_first, &f2, in_second));
    assert_eq!(f1.print(in_first), "Σ[(1,I),(2,e),(1,π),(1/2,√5)]");
}

#[test]
fn infinities_and_the_indeterminate_add() {
    let mut f = TypeField::new(1);
    let plus = Expr::Infty(1, Sign::Plus);
    let minus = Expr::Infty(1, Sign::Minus);
    let pi = read(&mut f, "π");
    assert_eq!(f.add(plus, plus), plus);
    assert_eq!(f.add(plus, minus), Expr::InDet(1));
    assert_eq!(f.add(minus, plus), Expr::InDet(1));
    assert_eq!(f.add(plus, pi), plus);
    assert_eq!(f.add(pi, minus), minus);
    assert_eq!(f.add(pi, Expr::InDet(1)), Expr::InDet(1));
    assert_eq!(f.add(Expr::InDet(1), plus), Expr::InDet(1));
}
