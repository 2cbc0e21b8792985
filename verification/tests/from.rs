use exact::expr_field::simplify::prod::take_out_vals;
use exact::expr_field::structs::type_field::TypeField;
use exact::expr_field::structs::{Const, FromRaw, Prod, Sum};
use exact::expr_field::{Expr, ExprFn, GetExpr};
use exact::frac::{Frac, Sign};
use exact::io::scanner::PI_APPROX;

fn half() -> Frac {
    Frac::Rational(Sign::Plus, 1, 2)
}

fn build_phi(f: &mut TypeField) -> Expr {
    let val_1 = f.val_i(1);
    let val_5 = f.val_i(5);
    let sqrt_5 = f.sqrt_expr(val_5);
    f.add_svec(vec![(half(), val_1), (half(), sqrt_5)])
}

fn from_pvec_is(f: &mut TypeField, from: Vec<(Expr, Frac)>, ans: Expr) {
    assert_eq!(f.add_pvec(from), ans);
}

#[test]
fn from_test_from() {
    let mut f = TypeField::new(1);
    let pi = f.add_const(Const { ch: 'π', ascii: "pi", approx: PI_APPROX });
    assert_eq!(pi, f.c_pi());
    let phi = build_phi(&mut f);
    assert_eq!(phi, f.sum_phi());
}

#[test]
fn mod_test_from() {
    let mut f = TypeField::new(1);
    let pi = f.add_const(Const { ch: 'π', ascii: "", approx: PI_APPROX });
    assert_eq!(pi, f.c_pi());
    let phi = build_phi(&mut f);
    assert_eq!(phi, f.sum_phi());
    assert_eq!(f.print(phi), "Σ[(1/2,I),(1/2,√5)]");
}

#[test]
fn test_from_prod() {
    let mut f = TypeField::new(1);
    let pi = f.c_pi();
    let ans = f.prod_pi_i(2);
    from_pvec_is(&mut f, vec![(pi, Frac::from_int(2))], ans);
}

fn filter_0() {
    let mut f = TypeField::new(1);
    let pi = f.c_pi();
    let e = f.c_e();
    let one = f.val_i(1);
    from_pvec_is(&mut f, vec![(pi, Frac::zero())], one);
    from_pvec_is(&mut f, vec![(pi, Frac::zero()), (e, Frac::zero())], one);
    let pi_squared = f.prod_pi_i(2);
    from_pvec_is(&mut f, vec![(pi, Frac::from_int(2)), (e, Frac::zero())], pi_squared);
    from_pvec_is(&mut f, vec![(pi, Frac::one()), (e, Frac::zero())], pi);
}

fn strip_vals_to_val() {
    let i = 5;
    let mut f = TypeField::new(1);
    let five = f.val_i(i);
    let two = f.val_i(2);
    from_pvec_is(&mut f, vec![(five, Frac::one())], five);
    let ans = f.val_i(i * i);
    from_pvec_is(&mut f, vec![(five, Frac::from_int(2))], ans);
    let ans = f.val_i(i * 2);
    from_pvec_is(&mut f, vec![(five, Frac::one()), (two, Frac::one())], ans);
    let ans = f.val_i(i * 2 * 2);
    from_pvec_is(&mut f, vec![(five, Frac::one()), (two, Frac::from_int(2))], ans);
}

fn strip_vals_to_expr() {
    let mut f = TypeField::new(1);
    let pi = f.c_pi();
    let one = f.val_i(1);
    let two = f.val_i(2);
    let a_half = f.val_frac(half());
    from_pvec_is(&mut f, vec![(one, Frac::one()), (pi, Frac::one())], pi);
    from_pvec_is(&mut f, vec![(two, Frac::one()), (a_half, Frac::one()), (pi, Frac::one())], pi);
}

fn strip_vals_to_sum() {
    let i = 5;
    let mut f = TypeField::new(1);
    let pi = f.c_pi();
    let five = f.val_i(i);
    let two = f.val_i(2);
    let pi_squared = f.prod_pi_i(2);
    let ans = f.add_svec(vec![(Frac::from_int(i), pi_squared)]);
    from_pvec_is(&mut f, vec![(five, Frac::one()), (pi, Frac::from_int(2))], ans);
    let ans = f.add_svec(vec![(Frac::from_int(i), pi)]);
    from_pvec_is(&mut f, vec![(five, Frac::one()), (pi, Frac::one())], ans);
    let ans = f.sum_i_pi(25);
    from_pvec_is(&mut f, vec![(five, Frac::from_int(2)), (pi, Frac::one())], ans);
    let ans = f.add_svec(vec![(Frac::from_int(10), pi_squared)]);
    from_pvec_is(
        &mut f,
        vec![(five, Frac::one()), (two, Frac::one()), (pi, Frac::from_int(2))],
        ans,
    );
    let ans = f.add_svec(vec![(Frac::from_int(i * 2 * 2), pi)]);
    from_pvec_is(
        &mut f,
        vec![(five, Frac::one()), (two, Frac::from_int(2)), (pi, Frac::one())],
        ans,
    );
}

#[test]
fn prod_test_filter_0() {
    filter_0();
}

#[test]
fn pvec_test_filter_0() {
    filter_0();
}

#[test]
fn prod_test_strip_vals_to_val() {
    strip_vals_to_val();
}

#[test]
fn pvec_test_strip_vals_to_val() {
    strip_vals_to_val();
}

#[test]
fn prod_test_strip_vals_to_expr() {
    strip_vals_to_expr();
}

#[test]
fn pvec_test_strip_vals_to_expr() {
    strip_vals_to_expr();
}

#[test]
fn prod_test_strip_vals_to_sum() {
    strip_vals_to_sum();
}

#[test]
fn pvec_test_strip_vals_to_sum() {
    strip_vals_to_sum();
}

#[test]
fn raw_nodes_keep_their_entries() {
    let mut f = TypeField::new(1);
    let pi = f.c_pi();
    let sum = Sum::from_raw(vec![(Frac::zero(), pi), (Frac::one(), pi)]);
    assert_eq!(sum.terms, vec![(Frac::zero(), pi), (Frac::one(), pi)]);
    let prod = Prod::from_raw(vec![(pi, Frac::zero())]);
    assert_eq!(prod.factors, vec![(pi, Frac::zero())]);
    assert_eq!(ExprFn::Sqrt(pi).get_expr(), Some(pi));
    assert_eq!(ExprFn::Sin(pi).get_expr(), None);
}

#[test]
fn whole_powers_of_values_are_taken_out() {
    let mut f = TypeField::new(1);
    let six = f.val_i(6);
    let eight = f.val_i(8);
    let two = f.val_i(2);
    let pi = f.c_pi();
    let plus = |n: u32, d: u32| Frac::Rational(Sign::Plus, n, d);
    let minus = |n: u32, d: u32| Frac::Rational(Sign::Minus, n, d);
    // the whole part of the exponent leaves as a coefficient
    let (coeff, rest) = take_out_vals(&f, &vec![(six, plus(5, 2))]);
    assert_eq!(coeff, plus(36, 1));
    assert_eq!(rest, vec![(six, plus(1, 2))]);
    let (coeff, rest) = take_out_vals(&f, &vec![(eight, plus(1, 1))]);
    assert_eq!(coeff, plus(8, 1));
    assert_eq!(rest, vec![]);
    let (coeff, rest) = take_out_vals(&f, &vec![(two, minus(1, 2))]);
    assert_eq!(coeff, plus(1, 2));
    assert_eq!(rest, vec![(two, plus(1, 2))]);
    let (coeff, rest) = take_out_vals(&f, &vec![(six, minus(5, 2))]);
    assert_eq!(coeff, plus(1, 216));
    assert_eq!(rest, vec![(six, plus(1, 2))]);
    let (coeff, rest) = take_out_vals(&f, &vec![(six, plus(1, 3)), (pi, plus(5, 2))]);
    assert_eq!(coeff, plus(1, 1));
    assert_eq!(rest, vec![(six, plus(1, 3)), (pi, plus(5, 2))]);
    // infinite exponents
    let half = f.val_frac(plus(1, 2));
    let up = Frac::Infinity(Sign::Plus);
    let down = Frac::Infinity(Sign::Minus);
    assert_eq!(take_out_vals(&f, &vec![(two, up)]), (up, vec![]));
    assert_eq!(take_out_vals(&f, &vec![(two, down)]), (plus(0, 1), vec![]));
    assert_eq!(take_out_vals(&f, &vec![(half, up)]), (plus(0, 1), vec![]));
    assert_eq!(take_out_vals(&f, &vec![(half, down)]), (up, vec![]));
    assert_eq!(take_out_vals(&f, &vec![(Expr::One(1), up)]), (Frac::NaN, vec![]));
    assert_eq!(take_out_vals(&f, &vec![(Expr::Zero(1), up)]), (Frac::NaN, vec![]));
    assert_eq!(take_out_vals(&f, &vec![(pi, up)]), (plus(1, 1), vec![(pi, up)]));
    assert_eq!(take_out_vals(&f, &vec![(pi, Frac::NaN)]), (Frac::NaN, vec![]));
    // through the whole simplification
    assert_eq!(f.add_pvec(vec![(two, up)]), Expr::Infty(1, Sign::Plus));
    assert_eq!(f.add_pvec(vec![(two, down)]), Expr::Zero(1));
    assert_eq!(f.add_pvec(vec![(Expr::One(1), up)]), Expr::InDet(1));
    let a = f.add_pvec(vec![(six, plus(5, 2))]);
    assert_eq!(f.print(a), "Σ(36,√6)");
}
