use crusty_query::{
    colidx_expr, ByteCodeExpr, ByteCodes, CrustyError, Decimal, Field, Order, SortKey, SortedMap,
    Tuple,
};

fn f_int(i: i64) -> Field {
    Field::Int(i)
}

fn f_str(s: &str) -> Field {
    Field::String(s.to_string())
}

fn ratio(n: i128, d: i128) -> Field {
    Field::Decimal(Decimal::quotient(n, d).unwrap())
}

#[test]
fn decimals_are_in_lowest_terms() {
    assert_eq!(Decimal::quotient(6, 4).unwrap().parts(), (3, 2));
    assert_eq!(Decimal::quotient(-6, 4).unwrap().parts(), (-3, 2));
    assert_eq!(Decimal::quotient(6, -4).unwrap().parts(), (-3, 2));
    assert_eq!(Decimal::quotient(-6, -4).unwrap().parts(), (3, 2));
    assert_eq!(Decimal::quotient(0, -4).unwrap().parts(), (0, 1));
    assert_eq!(Decimal::from_int(-8).parts(), (-8, 1));
    assert_eq!(Decimal::quotient(i64::MIN as i128, 1).unwrap().parts(), (i64::MIN, 1));
    assert_eq!(Decimal::quotient(i64::MAX as i128 + 1, 1), None);
    assert_eq!(Decimal::quotient(1, i64::MAX as i128 + 1), None);
}

#[test]
fn equal_fractions_are_the_same_decimal() {
    assert_eq!(Decimal::quotient(2, 4), Decimal::quotient(1, 2));
    assert_eq!(Decimal::quotient(2, 4), Decimal::quotient(-35, -70));
    assert_eq!(ratio(6, 3), Field::Decimal(Decimal::from_int(2)));
    assert_ne!(Decimal::quotient(1, 2), Decimal::quotient(1, 3));
}

#[test]
fn sums() {
    assert_eq!(f_int(2).plus(&f_int(3)), Ok(f_int(5)));
    assert_eq!(ratio(1, 2).plus(&f_int(3)), Ok(ratio(7, 2)));
    assert_eq!(f_int(3).plus(&ratio(1, 3)), Ok(ratio(10, 3)));
    assert_eq!(ratio(1, 6).plus(&ratio(1, 3)), Ok(ratio(1, 2)));
    assert_eq!(f_int(i64::MIN).plus(&f_int(-1)), Err(CrustyError::Overflow));
    assert_eq!(ratio(i64::MAX as i128, 1).plus(&f_int(1)), Err(CrustyError::Overflow));
    assert_eq!(f_int(1).plus(&f_str("x")), Err(CrustyError::TypeMismatch));
    assert_eq!(f_str("x").plus(&f_str("y")), Err(CrustyError::TypeMismatch));
}

#[test]
fn quotients() {
    assert_eq!(ratio(17, 1).over(&f_int(4)), Ok(ratio(17, 4)));
    assert_eq!(f_int(6).over(&f_int(-4)), Ok(ratio(-3, 2)));
    assert_eq!(ratio(1, 2).over(&ratio(3, 4)), Ok(ratio(2, 3)));
    assert_eq!(f_int(1).over(&f_int(0)), Err(CrustyError::DivisionByZero));
    assert_eq!(f_str("x").over(&f_int(0)), Err(CrustyError::TypeMismatch));
    assert_eq!(f_int(i64::MIN).over(&f_int(-1)), Err(CrustyError::Overflow));
}

#[test]
fn order_of_fields() {
    let in_order = vec![
        f_int(-1),
        f_int(2),
        ratio(-1, 2),
        ratio(1, 3),
        ratio(1, 2),
        f_str(""),
        f_str("A"),
        f_str("AB"),
        f_str("B"),
        f_str("b"),
        f_str("\u{e9}"),
        f_str("\u{4e2d}"),
    ];
    for i in 0..in_order.len() {
        for j in 0..in_order.len() {
            let expected = if i < j {
                Order::Less
            } else if i == j {
                Order::Equal
            } else {
                Order::Greater
            };
            assert_eq!(in_order[i].compare(&in_order[j]), expected);
        }
    }
}

#[test]
fn order_of_text_is_that_of_strings() {
    let words = ["", "a", "ab", "b", "Z", "\u{e9}t\u{e9}", "\u{ffff}", "\u{10000}", "\u{4e2d}a"];
    for a in words {
        for b in words {
            assert_eq!(f_str(a).compare(&f_str(b)) == Order::Less, a < b);
            assert_eq!(f_str(a).compare(&f_str(b)) == Order::Equal, a == b);
        }
    }
}

#[test]
fn order_of_tuples() {
    let t = |v: Vec<i64>| Tuple::new(v.into_iter().map(f_int).collect());
    assert_eq!(t(vec![1, 2]).compare(&t(vec![1, 3])), Order::Less);
    assert_eq!(t(vec![1, 2]).compare(&t(vec![1])), Order::Greater);
    assert_eq!(t(vec![]).compare(&t(vec![0])), Order::Less);
    assert_eq!(t(vec![4, 5]).compare(&t(vec![4, 5])), Order::Equal);
}

#[test]
fn tuples_merge() {
    let a = Tuple::new(vec![f_int(1), f_str("x")]);
    let b = Tuple::new(vec![f_int(2)]);
    assert_eq!(a.merge(&b), Tuple::new(vec![f_int(1), f_str("x"), f_int(2)]));
    assert_eq!(b.merge(&Tuple::new(vec![])), b);
}

#[test]
fn expressions() {
    let t = Tuple::new(vec![f_int(5), f_str("x"), f_int(8)]);
    assert_eq!(colidx_expr(1).eval(&t), f_str("x"));
    let mut sum = ByteCodeExpr::new();
    for i in [0, 2] {
        sum.add_code(ByteCodes::PushField as usize);
        sum.add_code(i);
    }
    sum.add_code(ByteCodes::Add as usize);
    assert_eq!(sum.eval(&t), f_int(13));
}

#[test]
fn maps_keep_their_order() {
    let mut m: SortedMap<Field, i64> = SortedMap::new();
    for k in [5, 1, 9, 3] {
        assert_eq!(m.get(&f_int(k)), None);
        m.insert(f_int(k), k * 10);
    }
    assert_eq!(m.get(&f_int(9)), Some(&90));
    if let Some(v) = m.get_mut(&f_int(1)) {
        *v += 7;
    }
    assert!(m.get_mut(&f_int(2)).is_none());
    assert_eq!(
        m.drain(),
        vec![(f_int(1), 17), (f_int(3), 30), (f_int(5), 50), (f_int(9), 90)]
    );
    assert_eq!(m.get(&f_int(9)), None);
    m.insert(f_int(9), 1);
    m.clear();
    assert_eq!(m.drain(), vec![]);
}
