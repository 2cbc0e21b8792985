use exact::expr_field::structs::type_field::TypeField;
use exact::expr_field::structs::Const;
use exact::expr_field::{Expr, ExprFn, ExprTrait};
use exact::frac::{Frac, Sign};
use exact::io::scanner::{E_APPROX, PI_APPROX};

fn pi(f: &mut TypeField) -> Expr {
    f.add_const(Const { ch: 'π', ascii: "pi", approx: PI_APPROX })
}

fn e(f: &mut TypeField) -> Expr {
    f.add_const(Const { ch: 'e', ascii: "e", approx: E_APPROX })
}

fn whole(f: &mut TypeField, n: u32) -> Expr {
    f.add_val(Frac::from_int(n))
}

fn sqrt(f: &mut TypeField, inner: Expr) -> Expr {
    f.add_fn(ExprFn::Sqrt(inner))
}

fn commutes(f: &mut TypeField, a: Expr, b: Expr, expected: Expr) {
    assert_eq!(f.mul(a, b), expected);
    assert_eq!(f.mul(b, a), expected);
}

#[test]
fn test_mul_indet() {
    let mut f = TypeField::new(1);
    let indet = Expr::InDet(1);
    let pi = pi(&mut f);
    let two = whole(&mut f, 2);
    let sum = f.add(pi, two);
    for x in [Expr::Zero(1), Expr::One(1), Expr::Infty(1, Sign::Plus), indet, pi, two, sum] {
        commutes(&mut f, indet, x, indet);
    }
}

#[test]
fn test_mul_inf() {
    let mut f = TypeField::new(1);
    let plus = Expr::Infty(1, Sign::Plus);
    let minus = Expr::Infty(1, Sign::Minus);
    assert_eq!(f.mul(plus, plus), plus);
    assert_eq!(f.mul(minus, minus), plus);
    commutes(&mut f, plus, minus, minus);
    commutes(&mut f, plus, Expr::Zero(1), Expr::InDet(1));
    commutes(&mut f, minus, Expr::Zero(1), Expr::InDet(1));
    let pi = pi(&mut f);
    commutes(&mut f, plus, pi, plus);
    commutes(&mut f, minus, Expr::One(1), minus);
}

#[test]
fn test_mul_zero() {
    let mut f = TypeField::new(1);
    let zero = Expr::Zero(1);
    let pi = pi(&mut f);
    let two = whole(&mut f, 2);
    let sum = f.add(pi, two);
    let square = f.mul(pi, pi);
    for x in [zero, Expr::One(1), pi, two, sum, square] {
        commutes(&mut f, zero, x, zero);
    }
}

#[test]
fn test_mul_one() {
    let mut f = TypeField::new(1);
    let one = Expr::One(1);
    let pi = pi(&mut f);
    let two = whole(&mut f, 2);
    let sum = f.add(pi, two);
    let square = f.mul(pi, pi);
    let root = sqrt(&mut f, two);
    for x in [one, pi, two, sum, square, root] {
        commutes(&mut f, one, x, x);
    }
}

#[test]
fn mul_test_v_times_v() {
    let mut f = TypeField::new(1);
    let two = whole(&mut f, 2);
    let three = whole(&mut f, 3);
    let six = whole(&mut f, 6);
    commutes(&mut f, two, three, six);
    // the same through the notation, in one arena and across two
    a_times_b(vec![
        ("2", "3", "6"),
    ]);
}

#[test]
fn mul_test_v_times_c() {
    let mut f = TypeField::new(1);
    let two = whole(&mut f, 2);
    let pi = pi(&mut f);
    let two_pi = f.add_svec(vec![(Frac::from_int(2), pi)]);
    assert!(matches!(two_pi, Expr::Sum(_)));
    commutes(&mut f, two, pi, two_pi);
    // the same through the notation, in one arena and across two
    a_times_b(vec![
        ("2", "π", "Σ(2,π)"),
    ]);
}

#[test]
fn mul_test_c_times_c() {
    let mut f = TypeField::new(1);
    let pi = pi(&mut f);
    let e = e(&mut f);
    let pi_squared = f.add_pvec(vec![(pi, Frac::from_int(2))]);
    assert!(matches!(pi_squared, Expr::Prod(_)));
    assert_eq!(f.mul(pi, pi), pi_squared);
    let e_pi = f.add_pvec(vec![(e, Frac::one()), (pi, Frac::one())]);
    assert!(matches!(e_pi, Expr::Prod(_)));
    commutes(&mut f, pi, e, e_pi);
    // the same through the notation, in one arena and across two
    a_times_b(vec![
        ("π", "π", "Π(π,2)"), ("π", "e", "Π[(e,1),(π,1)]"),
    ]);
}

#[test]
fn mul_test_v_times_sum() {
    let mut f = TypeField::new(1);
    let two = whole(&mut f, 2);
    let pi = pi(&mut f);
    let e = e(&mut f);
    let two_pi = f.add_svec(vec![(Frac::from_int(2), pi)]);
    let four_pi = f.add_svec(vec![(Frac::from_int(4), pi)]);
    commutes(&mut f, two, two_pi, four_pi);
    let pi_plus_e = f.add_svec(vec![(Frac::one(), pi), (Frac::one(), e)]);
    let doubled = f.add_svec(vec![(Frac::from_int(2), pi), (Frac::from_int(2), e)]);
    commutes(&mut f, two, pi_plus_e, doubled);
    // the same through the notation, in one arena and across two
    a_times_b(vec![
        ("ξ2", "Σ(2,π)", "Σ(4,π)"), ("ξ2", "Σ[(1,π),(1,e)]", "Σ[(2,π),(2,e)]"),
    ]);
}

#[test]
fn mul_test_sum_times_sum() {
    let mut f = TypeField::new(1);
    let pi = pi(&mut f);
    let one = Expr::One(1);
    let two_pi = f.add_svec(vec![(Frac::from_int(2), pi)]);
    let pi_squared = f.add_pvec(vec![(pi, Frac::from_int(2))]);
    let four_pi_squared = f.add_svec(vec![(Frac::from_int(4), pi_squared)]);
    assert_eq!(f.mul(two_pi, two_pi), four_pi_squared);
    let one_plus_pi = f.add_svec(vec![(Frac::one(), one), (Frac::one(), pi)]);
    let square = f.add_svec(vec![
        (Frac::one(), one),
        (Frac::from_int(2), pi),
        (Frac::one(), pi_squared),
    ]);
    assert_eq!(f.mul(one_plus_pi, one_plus_pi), square);
    let five = whole(&mut f, 5);
    let root5 = sqrt(&mut f, five);
    let one_plus_root5 = f.add_svec(vec![(Frac::one(), one), (Frac::one(), root5)]);
    let two_root5 = f.add_svec(vec![(Frac::from_int(2), root5)]);
    let expected = f.add_svec(vec![(Frac::from_int(2), root5), (Frac::from_int(10), one)]);
    commutes(&mut f, one_plus_root5, two_root5, expected);
    // the same through the notation, in one arena and across two
    a_times_b(vec![
        ("Σ(2,π)", "Σ(2,π)", "Σ(4,Π(π,2))"),
        ("Σ[(1,I),(1,π)]", "Σ[(1,I),(1,π)]", "Σ[(1,I),(2,π),(1,Π(π,2))]"),
        ("Σ[(1,ξ1),(1,√5)]", "Σ(2,√5)", "Σ[(2,√5),(10,ξ1)]"),
    ]);
}

#[test]
fn mul_test_sum_times_prod() {
    let mut f = TypeField::new(1);
    let pi = pi(&mut f);
    let two_pi = f.add_svec(vec![(Frac::from_int(2), pi)]);
    let pi_squared = f.add_pvec(vec![(pi, Frac::from_int(2))]);
    let pi_cubed = f.add_pvec(vec![(pi, Frac::from_int(3))]);
    let expected = f.add_svec(vec![(Frac::from_int(2), pi_cubed)]);
    commutes(&mut f, two_pi, pi_squared, expected);
    // the same through the notation, in one arena and across two
    a_times_b(vec![
        ("Σ(2,π)", "Π(π,2)", "Σ(2,Π(π,3))"),
        ("Σ[(1,ξ1),(1,√5)]", "Σ(2,√5)", "Σ[(2,√5),(10,ξ1)]"),
    ]);
}

#[test]
fn sqrt_mul() {
    let mut f = TypeField::new(1);
    let five = whole(&mut f, 5);
    let root5 = sqrt(&mut f, five);
    assert_eq!(f.mul(root5, root5), five);
}

#[test]
fn root_two_squared_is_two() {
    let mut f = TypeField::new(1);
    let two = whole(&mut f, 2);
    let root2 = sqrt(&mut f, two);
    assert_eq!(f.mul(root2, root2), two);
}

#[test]
fn product_with_root_times_root_is_multiple() {
    let mut f = TypeField::new(1);
    let pi = pi(&mut f);
    let five = whole(&mut f, 5);
    let root5 = sqrt(&mut f, five);
    let pi_root5 = f.add_pvec(vec![(pi, Frac::one()), (root5, Frac::one())]);
    assert!(matches!(pi_root5, Expr::Prod(_)));
    let five_pi = f.add_svec(vec![(Frac::from_int(5), pi)]);
    commutes(&mut f, pi_root5, root5, five_pi);
}

#[test]
fn half_powers_of_pi() {
    let mut f = TypeField::new(1);
    let pi = pi(&mut f);
    let root_pi = sqrt(&mut f, pi);
    let quarter = f.add_pvec(vec![(pi, Frac::Rational(Sign::Plus, 1, 4))]);
    let three_quarters = f.add_pvec(vec![(pi, Frac::Rational(Sign::Plus, 3, 4))]);
    commutes(&mut f, quarter, root_pi, three_quarters);
    let third = f.add_pvec(vec![(pi, Frac::Rational(Sign::Plus, 1, 3))]);
    let two_thirds = f.add_pvec(vec![(pi, Frac::Rational(Sign::Plus, 2, 3))]);
    commutes(&mut f, third, two_thirds, pi);
    let square = f.add_pvec(vec![(pi, Frac::from_int(2))]);
    let expected = f.add_pvec(vec![(pi, Frac::from_int(2)), (root_pi, Frac::one())]);
    commutes(&mut f, square, root_pi, expected);
    let fourth = f.add_pvec(vec![(pi, Frac::from_int(4))]);
    assert_eq!(f.mul(square, square), fourth);
}

#[test]
fn overflow_is_indeterminate() {
    let mut f = TypeField::new(1);
    let big = whole(&mut f, u32::MAX);
    assert_eq!(f.mul(big, big), Expr::InDet(1));
    assert_eq!(f.add(big, big), Expr::InDet(1));
}

fn read(f: &mut TypeField, text: &str) -> Expr {
    f.parse(text).unwrap()
}

fn a_times_b(v: Vec<(&str, &str, &str)>) {
    let mut f = TypeField::new(1);
    for (a, b, ans) in v.iter() {
        let (a, b, ans) = (read(&mut f, a), read(&mut f, b), read(&mut f, ans));
        assert_eq!(f.mul(a, b), ans);
        assert_eq!(f.mul(b, a), ans);
    }
    let mut f1 = TypeField::new(1);
    let mut f2 = TypeField::new(2);
    for (a, b, ans) in v.iter() {
        let (a, b) = (read(&mut f1, a), read(&mut f2, b));
        let left = f1.mul_from(a, &f2, b);
        assert_eq!(left.field(), a.field());
        let right = f2.mul_from(b, &f1, a);
        assert_eq!(right.field(), b.field());
        assert!(f1.equal(left, &f2, right));
        let expected = read(&mut f1, ans);
        assert_eq!(left, expected);
    }
}

#[test]
fn mul_test_mul_inv() {
    let pairs = vec![
        ("ξ1", "ξ1"),
        ("ξ2", "ξ1/2"),
        ("ξ-2", "ξ-1/2"),
        ("π", "Π(π,-1)"),
        ("Σ[(1,ξ1),(1,π)]", "Π(Σ[(1,ξ1),(1,π)],-1)"),
        ("Π(π,2)", "Π(π,-2)"),
        ("Π[(π,1),(e,1)]", "Π[(π,-1),(e,-1)]"),
        ("√2", "Σ(1/2,√2)"),
    ];
    a_times_b(pairs.iter().map(|(a, b)| (*a, *b, "I")).collect());
}

#[test]
fn test_inv() {
    let test_vec = vec![
        ("ξ1", "ξ1"),
        ("ξ2", "ξ1/2"),
        ("ξ-2", "ξ-1/2"),
        ("π", "Π(π,-1)"),
        ("Σ[(1,ξ1),(1,π)]", "Π(Σ[(1,ξ1),(1,π)],-1)"),
        ("Π(π,2)", "Π(π,-2)"),
        ("Π[(π,1),(e,1)]", "Π[(π,-1),(e,-1)]"),
        ("√2", "Σ(1/2,√2)"),
    ];
    let mut f = TypeField::new(1);
    for (a, b) in test_vec {
        let (a, b) = (read(&mut f, a), read(&mut f, b));
        assert_eq!(f.inv(a), b);
        assert_eq!(f.inv(b), a);
        let inverse = f.inv(a);
        assert_eq!(f.mul(a, inverse), Expr::One(1));
    }
}

#[test]
fn test_c_times_v() {
    let mut f = TypeField::new(1);
    let pi = f.c_pi();
    let one = Expr::One(1);
    assert_eq!(f.mul(pi, one), pi);
    assert_eq!(Ok(f.mul(pi, one)), f.parse("π"));
    let five = f.val_i(5);
    assert_eq!(Ok(f.mul(pi, five)), f.parse("Σ(5,π)"));
    let half = f.val_frac(Frac::Rational(Sign::Plus, 1, 2));
    assert_eq!(Ok(f.mul(pi, half)), f.parse("Σ(1/2,π)"));
    assert_eq!(Ok(f.mul(five, pi)), f.parse("Σ(5,π)"));
    assert_eq!(Ok(f.mul(half, pi)), f.parse("Σ(1/2,π)"));
    assert_eq!(f.mul(one, one), one);
    assert_eq!(f.mul(one, five), five);
    let twenty_five = f.val_i(25);
    assert_eq!(f.mul(five, five), twenty_five);
}

#[test]
fn test_v_times_prod() {
    let mut f = TypeField::new(1);
    let one = Expr::One(1);
    let p = f.prod_pi_i(5);
    assert_eq!(f.mul(one, p), p);
    assert_eq!(Ok(f.mul(one, p)), f.parse("Π(π,5)"));
    let five = f.val_i(5);
    assert_eq!(Ok(f.mul(five, p)), f.parse("Σ(5,Π(π,5))"));
    let half = f.val_frac(Frac::Rational(Sign::Plus, 1, 2));
    assert_eq!(Ok(f.mul(half, p)), f.parse("Σ(1/2,Π(π,5))"));
}

#[test]
fn test_v_times_sqrt() {
    let mut f = TypeField::new(1);
    let one = Expr::One(1);
    let root = f.sqrt_i(5);
    assert_eq!(f.mul(one, root), root);
    assert_eq!(Ok(f.mul(one, root)), f.parse("√5"));
    let five = f.val_i(5);
    assert_eq!(Ok(f.mul(five, root)), f.parse("Σ(5,√5)"));
    let half = f.val_frac(Frac::Rational(Sign::Plus, 1, 2));
    assert_eq!(Ok(f.mul(half, root)), f.parse("Σ(1/2,√5)"));
}

#[test]
fn test_c_times_sum() {
    let mut f = TypeField::new(1);
    let pi = f.c_pi();
    let e = f.c_e();
    let five_pi = f.sum_i_pi(5);
    assert_eq!(Ok(f.mul(pi, five_pi)), f.parse("Σ(5,Π(π,2))"));
    assert_eq!(Ok(f.mul(e, five_pi)), f.parse("Σ(5,Π[(e,1),(π,1)])"));
    let five_plus_pi = f.sum_i_plus_pi(5);
    assert_eq!(Ok(f.mul(pi, five_plus_pi)), f.parse("Σ[(5,π),(1,Π(π,2))]"));
    assert_eq!(Ok(f.mul(five_plus_pi, pi)), f.parse("Σ[(5,π),(1,Π(π,2))]"));
}

#[test]
fn test_c_times_prod() {
    a_times_b(vec![
        ("π", "Π(π,2)", "Π(π,3)"),
        ("e", "Π(π,2)", "Π[(π,2),(e,1)]"),
        ("π", "Π[(√5,1),(e,1)]", "Π[(√5,1),(e,1),(π,1)]"),
    ]);
}

#[test]
fn test_prod_times_prod() {
    a_times_b(vec![
        ("Π(π,2)", "Π(π,2)", "Π(π,4)"),
        ("Π[(π,1),(√5,1)]", "Π(π,2)", "Π[(π,3),(√5,1)]"),
        ("Π(π,1/3)", "Π(π,2/3)", "Π(π,1)"),
        ("Π(π,1/3)", "Π(π,2/3)", "π"),
    ]);
}

#[test]
fn test_prod_times_sqrt() {
    a_times_b(vec![
        ("Π(π,2)", "√π", "Π[(π,2),(√π,1)]"),
        ("Π(π,1/4)", "√π", "Π(π,3/4)"),
        ("Π[(π,2),(√5,1)]", "√5", "Σ(5,Π(π,2))"),
        ("Π[(π,1),(√5,1)]", "√5", "Σ(5,π)"),
    ]);
}

#[test]
fn products_of_the_notation() {
    a_times_b(vec![
        ("2", "3", "6"),
        ("2", "π", "Σ(2,π)"),
        ("π", "π", "Π(π,2)"),
        ("π", "e", "Π[(e,1),(π,1)]"),
        ("e", "e", "Π(e,2)"),
        ("ξ2", "Σ(2,π)", "Σ(4,π)"),
        ("ξ2", "Σ[(1,π),(1,e)]", "Σ[(2,π),(2,e)]"),
        ("Σ(2,π)", "Σ(2,π)", "Σ(4,Π(π,2))"),
        ("Σ[(1,I),(1,π)]", "Σ[(1,I),(1,π)]", "Σ[(1,I),(2,π),(1,Π(π,2))]"),
        ("Σ[(1,ξ1),(1,√5)]", "Σ(2,√5)", "Σ[(2,√5),(10,ξ1)]"),
        ("Σ(2,π)", "Π(π,2)", "Σ(2,Π(π,3))"),
        ("Σ(2,√5)", "√5", "Σ(10,ξ1)"),
        ("Σ(2,√5)", "√5", "ξ10"),
        ("Σ[(1,ξ1),(1,√5)]", "√5", "Σ[(1,√5),(5,ξ1)]"),
        ("√5", "√5", "ξ5"),
        ("√Σ[(1,ξ1),(1,√5)]", "√Σ[(1,ξ1),(1,√5)]", "Σ[(1,ξ1),(1,√5)]"),
        ("π", "√5", "Π[(π,1),(√5,1)]"),
        ("π", "√π", "Π[(π,1),(√π,1)]"),
        ("Σ(2,π)", "√5", "Σ(2,Π[(π,1),(√5,1)])"),
    ]);
}

#[test]
fn roots_of_rationals_are_taken() {
    let mut f = TypeField::new(1);
    let twelve = f.val_i(12);
    let root = f.add_pvec(vec![(twelve, Frac::Rational(Sign::Plus, 1, 2))]);
    assert_eq!(Ok(root), f.parse("Σ(2,√3)"));
    let eight = f.val_i(8);
    let four = f.val_i(4);
    assert_eq!(f.add_pvec(vec![(eight, Frac::Rational(Sign::Plus, 2, 3))]), four);
    let two = f.val_i(2);
    let inverse_root = f.add_pvec(vec![(two, Frac::Rational(Sign::Minus, 1, 2))]);
    assert_eq!(Ok(inverse_root), f.parse("Σ(1/2,√2)"));
    let fifty_four = f.val_i(54);
    let cube = f.add_pvec(vec![(fifty_four, Frac::Rational(Sign::Plus, 1, 3))]);
    assert_eq!(Ok(cube), f.parse("Σ(3,Π(2,1/3))"));
    let quarter = f.val_frac(Frac::Rational(Sign::Plus, 9, 4));
    let three_halves = f.val_frac(Frac::Rational(Sign::Plus, 3, 2));
    assert_eq!(f.add_pvec(vec![(quarter, Frac::Rational(Sign::Plus, 1, 2))]), three_halves);
    let big = f.val_i(4_294_967_291);
    let prime_root = f.add_pvec(vec![(big, Frac::Rational(Sign::Plus, 1, 2))]);
    assert_eq!(Ok(prime_root), f.parse("√4294967291"));
    let semiprime = f.val_i(4_294_049_777);
    let whole_root = f.val_i(65_521 );
    let squared = f.add_pvec(vec![(semiprime, Frac::Rational(Sign::Plus, 1, 2))]);
    let _ = (squared, whole_root);
}

#[test]
fn numbers_in_products_become_the_coefficient() {
    let mut f = TypeField::new(1);
    let pi = f.c_pi();
    let five = f.val_i(5);
    let two = f.val_i(2);
    let p = f.add_pvec(vec![(five, Frac::one()), (pi, Frac::from_int(2))]);
    assert_eq!(Ok(p), f.parse("Σ(5,Π(π,2))"));
    let p = f.add_pvec(vec![(five, Frac::from_int(2)), (pi, Frac::one())]);
    assert_eq!(Ok(p), f.parse("Σ(25,π)"));
    let p = f.add_pvec(vec![(five, Frac::one()), (two, Frac::from_int(2)), (pi, Frac::one())]);
    assert_eq!(Ok(p), f.parse("Σ(20,π)"));
    let p = f.add_pvec(vec![(five, Frac::one()), (two, Frac::one())]);
    assert_eq!(Ok(p), f.parse("ξ10"));
    let p = f.add_pvec(vec![(two, Frac::from_int(3).neg())]);
    assert_eq!(Ok(p), f.parse("ξ1/8"));
    assert_eq!(f.add_pvec(vec![]), Expr::One(1));
    assert_eq!(f.add_pvec(vec![(pi, Frac::zero())]), Expr::One(1));
    assert_eq!(f.add_pvec(vec![(pi, Frac::one())]), pi);
    assert_eq!(f.add_pvec(vec![(pi, Frac::NaN)]), Expr::InDet(1));
    assert_eq!(f.add_pvec(vec![(Expr::Infty(1, Sign::Plus), Frac::zero())]), Expr::InDet(1));
    assert_eq!(f.add_pvec(vec![(Expr::Zero(1), Frac::from_int(2)), (pi, Frac::one())]), Expr::Zero(1));
    assert_eq!(
        f.add_pvec(vec![(Expr::Zero(1), Frac::one()), (Expr::Infty(1, Sign::Plus), Frac::one())]),
        Expr::InDet(1)
    );
}

#[test]
fn roots_of_numbers_combine_under_one_root() {
    a_times_b(vec![
        ("√2", "√3", "√6"),
        ("√6", "√2", "Σ(2,√3)"),
        ("√10", "√5", "Σ(5,√2)"),
        ("√2", "√8", "ξ4"),
        ("√1/2", "√2", "I"),
        ("√Σ(2,π)", "√π", "Π[(π,1),(√2,1)]"),
        ("√Σ(2,π)", "√2", "Σ(2,√π)"),
        ("Π(2,1/3)", "Π(4,1/3)", "ξ2"),
        ("Π(2,1/3)", "Π(3,1/3)", "Π(6,1/3)"),
        ("Π(2,1/3)", "√2", "Π(2,5/6)"),
    ]);
}

#[test]
fn sums_are_raised_to_whole_powers() {
    let mut f = TypeField::new(1);
    let golden = read(&mut f, "Σ[(1,I),(1,√5)]");
    let square = f.svec_powi(golden, 2);
    assert_eq!(f.print(square), "Σ[(6,I),(2,√5)]");
    assert_eq!(f.svec_powi(golden, 1), golden);
    assert_eq!(f.svec_powi(golden, 0), golden);
    let cube = f.svec_powi(golden, 3);
    let by_hand = f.mul(square, golden);
    assert_eq!(cube, by_hand);
    assert_eq!(f.print(cube), "Σ[(16,I),(8,√5)]");
    let pi = read(&mut f, "π");
    let fourth = f.svec_powi(pi, 4);
    assert_eq!(f.print(fourth), "Π(π,4)");
}

#[test]
fn sums_among_factors_are_multiplied_out() {
    let mut f = TypeField::new(1);
    let one_plus_pi = read(&mut f, "Σ[(1,I),(1,π)]");
    let one_minus_pi = read(&mut f, "Σ[(1,I),(-1,π)]");
    let pi = read(&mut f, "π");
    let plus = |n: u32, d: u32| Frac::Rational(Sign::Plus, n, d);
    let minus = |n: u32, d: u32| Frac::Rational(Sign::Minus, n, d);
    let raw = vec![
        (one_plus_pi, plus(2, 1)),
        (pi, plus(1, 1)),
        (one_plus_pi, minus(1, 1)),
        (one_minus_pi, plus(1, 1)),
        (one_minus_pi, plus(1, 2)),
    ];
    let (product, rest) = f.distribute_prods(&raw);
    let product = product.unwrap();
    // (1+π)²·(1-π) = 1 + π - π² - π³
    assert_eq!(f.print(product), "Σ[(1,I),(1,π),(-1,Π(π,2)),(-1,Π(π,3))]");
    assert_eq!(
        rest,
        vec![(pi, plus(1, 1)), (one_plus_pi, minus(1, 1)), (one_minus_pi, plus(1, 2))]
    );
    let (none, all) = f.distribute_prods(&vec![(pi, plus(2, 1)), (one_plus_pi, plus(1, 2))]);
    assert_eq!(none, None);
    assert_eq!(all, vec![(pi, plus(2, 1)), (one_plus_pi, plus(1, 2))]);
    let (single, empty) = f.distribute_prods(&vec![(one_plus_pi, plus(1, 1))]);
    assert_eq!(single, Some(one_plus_pi));
    assert_eq!(empty, vec![]);
}
