use exact::expr_field::structs::type_field::TypeField;
use exact::expr_field::{Expr, ExprFn};
use exact::frac::{Frac, Sign};

fn half() -> Frac {
    Frac::Rational(Sign::Plus, 1, 2)
}

/// The golden ratio and its square share the node of the square root of five.
#[test]
fn from_test_from_shared_rc() {
    let mut f = TypeField::new(3);
    let five = f.add_val(Frac::from_int(5));
    let root5 = f.add_fn(ExprFn::Sqrt(five));
    let phi = f.add_svec(vec![(half(), Expr::One(3)), (half(), root5)]);
    let phi_squared = f.add_svec(vec![(Frac::Rational(Sign::Plus, 3, 2), Expr::One(3)), (half(), root5)]);
    let (Expr::Sum(r), Expr::Sum(q)) = (phi, phi_squared) else {
        panic!("both are sums");
    };
    assert_ne!(r, q);
    assert_eq!(f.get_sum(r).terms[1].1, root5);
    assert_eq!(f.get_sum(q).terms[1].1, root5);
}

/// Building the same expression twice yields the same handle.
#[test]
fn mod_test_from_shared_rc() {
    let mut f = TypeField::new(3);
    let five = f.add_val(Frac::from_int(5));
    let root5 = f.add_fn(ExprFn::Sqrt(five));
    let phi = f.add_svec(vec![(half(), Expr::One(3)), (half(), root5)]);
    let again_five = f.add_val(Frac::from_int(5));
    let again_root5 = f.add_fn(ExprFn::Sqrt(again_five));
    let again = f.add_svec(vec![(half(), again_root5), (half(), Expr::One(3))]);
    assert_eq!(five, again_five);
    assert_eq!(root5, again_root5);
    assert_eq!(phi, again);
    let square = f.mul(phi, phi);
    let expected = f.add_svec(vec![(Frac::Rational(Sign::Plus, 3, 2), Expr::One(3)), (half(), root5)]);
    assert_eq!(square, expected);
}
