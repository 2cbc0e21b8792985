use exact::expr_field::simplify::sum::sort_svec;
use exact::expr_field::structs::type_field::TypeField;
use exact::expr_field::structs::Const;
use exact::expr_field::{Expr, TestMe, TestRef};
use exact::frac::{Frac, Order};
use exact::io::scanner::{E_APPROX, PI_APPROX};
use exact::io_traits::Char;

fn read(f: &mut TypeField, text: &str) -> Expr {
    f.parse(text).unwrap()
}

#[test]
fn test_order_strict() {
    let tv = vec![
        "?", "-∞", "∞", "O", "I", "-1", "3/2", "2", "5", "e", "π", "Σ(2,π)", "Π(π,2)", "√5",
    ];
    let mut f = TypeField::new(1);
    let v: Vec<Expr> = tv.iter().map(|a| read(&mut f, a)).collect();
    for i in 0..v.len() {
        assert_eq!(f.compare(v[i], v[i]), Order::Equal);
        for j in i + 1..v.len() {
            println!("testing {}<{}", tv[i], tv[j]);
            assert_eq!(f.compare(v[i], v[j]), Order::Less);
            assert_eq!(f.compare(v[j], v[i]), Order::Greater);
        }
    }
    let mut v = v;
    v.sort_unstable_by(|a, b| match f.compare(*b, *a) {
        Order::Less => std::cmp::Ordering::Less,
        Order::Equal => std::cmp::Ordering::Equal,
        Order::Greater => std::cmp::Ordering::Greater,
    });
    for i in 0..v.len() {
        for j in i + 1..v.len() {
            assert_eq!(f.compare(v[i], v[j]), Order::Greater);
        }
    }
}

#[test]
fn testme_order_strict() {
    let tv = vec![TestMe::Smaller(1), TestMe::Larger(TestRef { f: 1, i: 0 })];
    for i in 0..tv.len() {
        for j in i + 1..tv.len() {
            assert_eq!(tv[i].order(&tv[j]), Order::Less);
        }
    }
    let mut v = tv;
    v.sort_unstable_by(|a, b| match b.order(a) {
        Order::Less => std::cmp::Ordering::Less,
        Order::Equal => std::cmp::Ordering::Equal,
        Order::Greater => std::cmp::Ordering::Greater,
    });
    for i in 0..v.len() {
        for j in i + 1..v.len() {
            assert_eq!(v[i].order(&v[j]), Order::Greater);
        }
    }
    let mut sv: Vec<(Frac, TestMe)> = v.iter().map(|e| (Frac::from_int(1), *e)).collect();
    sv.sort_unstable_by(|a, b| match a.1.order(&b.1) {
        Order::Less => std::cmp::Ordering::Less,
        Order::Equal => std::cmp::Ordering::Equal,
        Order::Greater => std::cmp::Ordering::Greater,
    });
    for i in 0..sv.len() {
        for j in i + 1..sv.len() {
            assert_eq!(sv[i].1.order(&sv[j].1), Order::Less);
        }
    }
    assert_eq!(TestMe::Smaller(1).order(&TestMe::Smaller(2)), Order::Equal);
}

#[test]
fn test_sort_svec() {
    let mut f = TypeField::new(1);
    let pi = read(&mut f, "π");
    let one = read(&mut f, "I");
    let tv = vec![(
        vec![(Frac::one(), pi), (Frac::one(), one)],
        vec![(Frac::one(), one), (Frac::one(), pi)],
    )];
    for (mut a, b) in tv {
        sort_svec(&f, &mut a);
        assert_eq!(a, b);
        sort_svec(&f, &mut a);
        assert_eq!(a, b);
    }
    let e = read(&mut f, "e");
    let mut ties = vec![(Frac::from_int(3), pi), (Frac::from_int(2), e), (Frac::from_int(2), pi)];
    sort_svec(&f, &mut ties);
    assert_eq!(ties, vec![(Frac::from_int(2), e), (Frac::from_int(2), pi), (Frac::from_int(3), pi)]);
}

#[test]
fn test_typefield_maybe_add() {
    let mut consts: Vec<Const> = Vec::new();
    assert_eq!(
        TypeField::maybe_add(&mut consts, Const { ch: 'π', ascii: "pi", approx: PI_APPROX }),
        0
    );
    assert_eq!(
        TypeField::maybe_add(&mut consts, Const { ch: 'π', ascii: "pi", approx: PI_APPROX }),
        0
    );
    assert_eq!(
        TypeField::maybe_add(&mut consts, Const { ch: 'e', ascii: "pi", approx: E_APPROX }),
        1
    );
    assert_eq!(consts.len(), 2);
}

#[test]
fn test_typeexpr_partialeq() {
    let mut f = TypeField::new(1);
    let tv = vec![
        ("I", "1"),
        ("O", "0"),
        ("Σ(2,π)", "Σ(2,π)"),
        ("Σ[(1,I),(1,π)]", "Σ[(1,I),(1,π)]"),
        ("Σ[(1,π),(1,I)]", "Σ[(1,π),(1,I)]"),
        ("Σ[(1,π),(1,I)]", "Σ[(1,I),(1,π)]"),
        ("Π(π,2)", "Π(π,2)"),
        ("Π[(π,1),(e,1)]", "Π[(π,1),(e,1)]"),
        ("Π[(π,1),(e,1)]", "Π[(e,1),(π,1)]"),
    ];
    for (t, res) in tv {
        let a = read(&mut f, t);
        let b = read(&mut f, res);
        assert_eq!(f.print(a), f.print(b));
        assert_eq!(a, b);
        assert!(f.eq(a, b));
    }
}

#[test]
fn test_typeexpr_partialeq_2fields() {
    let mut f1 = TypeField::new(1);
    let mut f2 = TypeField::new(2);
    let tv = vec![
        ("I", "I"),
        ("O", "O"),
        ("O", "0"),
        ("I", "1"),
        ("2", "2"),
        ("π", "π"),
        ("Σ(2,π)", "Σ(2,π)"),
        ("Σ[(1,π),(1,I)]", "Σ[(1,π),(1,I)]"),
        ("Σ[(1,π),(1,I)]", "Σ[(1,I),(1,π)]"),
        ("Π(π,2)", "Π(π,2)"),
        ("Π[(π,1),(e,1)]", "Π[(π,1),(e,1)]"),
        ("Π[(π,1),(e,1)]", "Π[(e,1),(π,1)]"),
        ("Σ(2,Π[(π,1),(e,1)])", "Σ(2,Π[(e,1),(π,1)])"),
        ("Σ(2,Π[(π,2),(e,1)])", "Σ(2,Π[(e,1),(π,2)])"),
    ];
    for (t, res) in tv {
        let a = read(&mut f1, t);
        let b = read(&mut f2, res);
        assert!(f1.equal(a, &f2, b));
        assert!(f2.equal(b, &f1, a));
    }
    let a = read(&mut f1, "Σ(2,π)");
    let b = read(&mut f2, "Σ(3,π)");
    assert!(!f1.equal(a, &f2, b));
    let c = read(&mut f2, "Π(π,2)");
    assert!(!f1.equal(a, &f2, c));
}

#[test]
fn test_set_eq() {
    let mut f = TypeField::new(1);
    let v = vec![
        ("Σ[(2,π),(1,ξ1)]", "Σ[(1,ξ1),(2,π)]"),
        ("Π[(π,2),(e,1)]", "Π[(e,1),(π,2)]"),
    ];
    for (a, b) in v {
        assert_eq!(f.parse(a), f.parse(b));
    }
}

#[test]
fn test_expr_char() {
    let mut f = TypeField::new(1);
    let two = f.val_i(2);
    let pi = f.c_pi();
    let two_pi = f.sum_i_pi(2);
    let pi_squared = f.prod_pi_i(2);
    let root = f.sqrt_i(5);
    assert_eq!(f.ch(two), 'ξ');
    assert_eq!(f.ch(pi), 'π');
    assert_eq!(f.ch(two_pi), 'Σ');
    assert_eq!(f.ch(pi_squared), 'Π');
    assert_eq!(f.ch(root), '√');
    assert_eq!(f.ch(Expr::Zero(1)), 'O');
    assert_eq!(f.ch(Expr::One(1)), 'I');
    assert_eq!(Const { ch: 'φ', ascii: "phi", approx: 1_618_000_000 }.ch(), 'φ');
}

#[test]
fn gulp_copies_into_the_other_arena() {
    let mut f1 = TypeField::new(1);
    let mut f2 = TypeField::new(2);
    let e = read(&mut f1, "Σ[(1/2,I),(-1/2,Π[(e,-1),(√π,1)])]");
    let _ = read(&mut f2, "Σ(7,√π)");
    let copy = f2.gulp(&f1, e);
    assert!(f1.equal(e, &f2, copy));
    assert_eq!(f2.print(copy), f1.print(e));
    let direct = read(&mut f2, "Σ[(1/2,I),(-1/2,Π[(e,-1),(√π,1)])]");
    assert_eq!(copy, direct);
    assert_eq!(f2.gulp(&f1, Expr::Zero(1)), Expr::Zero(2));
}
