//! The values that tuples are made of.
use vstd::prelude::*;
use crate::decimal::{
    fits, is_fraction_of, lemma_lowest_terms_are_reduced, lemma_lowest_terms_keeps_value,
    lemma_reduced_fractions_are_one, lemma_representable, lowest_terms, reduced, representable,
    Decimal,
};
use crate::error::CrustyError;
use crate::order::{
    lemma_lexicographic_first_difference, lemma_lexicographic_is_strict_total,
    lemma_lexicographic_skips_common_prefix, lexicographic, strict_total_order, Order, SortKey,
};

verus! {

/// A field of a tuple.
#[derive(Debug, PartialEq, Eq)]
pub enum Field {
    /// A whole number.
    Int(i64),
    /// A decimal number.
    Decimal(Decimal),
    /// Text.
    String(String),
}

/// What a field stands for.
pub enum Value {
    Int(int),
    /// A fraction: its numerator and its denominator.
    Decimal(int, int),
    Text(Seq<char>),
}

impl View for Field {
    type V = Value;

    open spec fn view(&self) -> Value {
        match *self {
            Field::Int(i) => Value::Int(i as int),
            Field::Decimal(d) => Value::Decimal(d.num(), d.den()),
            Field::String(s) => Value::Text(s@),
        }
    }
}

/// Bytes by their size.
pub open spec fn byte_order() -> spec_fn(u8, u8) -> bool {
    |a: u8, b: u8| a < b
}

/// Text stands in dictionary order of its UTF-8 bytes.
pub open spec fn text_before(s: Seq<char>, t: Seq<char>) -> bool {
    lexicographic(vstd::utf8::encode_utf8(s), vstd::utf8::encode_utf8(t), byte_order())
}

/// The denominator of a fraction; what is no denominator counts as one.
pub open spec fn positive(d: int) -> int {
    if d > 0 {
        d
    } else {
        1
    }
}

/// Fractions stand in the order of the numbers they are; of two fractions of the same
/// number the one with the smaller denominator comes first.
pub open spec fn fraction_before(n1: int, d1: int, n2: int, d2: int) -> bool {
    let l = n1 * positive(d2);
    let r = n2 * positive(d1);
    l < r || (l == r && (d1 < d2 || (d1 == d2 && n1 < n2)))
}

/// Whole numbers come first, then decimals, then text.
pub open spec fn rank(v: Value) -> int {
    match v {
        Value::Int(_) => 0,
        Value::Decimal(_, _) => 1,
        Value::Text(_) => 2,
    }
}

/// The order of values.
pub open spec fn value_before(a: Value, b: Value) -> bool {
    match (a, b) {
        (Value::Int(x), Value::Int(y)) => x < y,
        (Value::Decimal(n1, d1), Value::Decimal(n2, d2)) => fraction_before(n1, d1, n2, d2),
        (Value::Text(s), Value::Text(t)) => text_before(s, t),
        _ => rank(a) < rank(b),
    }
}

/// The order of values, as a relation.
pub open spec fn value_order() -> spec_fn(Value, Value) -> bool {
    |a: Value, b: Value| value_before(a, b)
}

proof fn lemma_fraction_order_is_transitive(
    n1: int,
    d1: int,
    n2: int,
    d2: int,
    n3: int,
    d3: int,
)
    requires
        fraction_before(n1, d1, n2, d2),
        fraction_before(n2, d2, n3, d3),
    ensures
        fraction_before(n1, d1, n3, d3),
{
    let p1 = positive(d1);
    let p2 = positive(d2);
    let p3 = positive(d3);
    let a = n1 * p3;
    let c = n3 * p1;
    assert(a * p2 == (n1 * p2) * p3) by (nonlinear_arith)
        requires
            a == n1 * p3,
    ;
    assert(c * p2 == (n3 * p2) * p1) by (nonlinear_arith)
        requires
            c == n3 * p1,
    ;
    assert((n2 * p1) * p3 == (n2 * p3) * p1) by (nonlinear_arith);
    assert((n1 * p2) * p3 <= (n2 * p1) * p3) by (nonlinear_arith)
        requires
            n1 * p2 <= n2 * p1,
            p3 > 0,
    ;
    assert((n2 * p3) * p1 <= (n3 * p2) * p1) by (nonlinear_arith)
        requires
            n2 * p3 <= n3 * p2,
            p1 > 0,
    ;
    if n1 * p2 < n2 * p1 {
        assert((n1 * p2) * p3 < (n2 * p1) * p3) by (nonlinear_arith)
            requires
                n1 * p2 < n2 * p1,
                p3 > 0,
        ;
    }
    if n2 * p3 < n3 * p2 {
        assert((n2 * p3) * p1 < (n3 * p2) * p1) by (nonlinear_arith)
            requires
                n2 * p3 < n3 * p2,
                p1 > 0,
        ;
    }
    assert(a * p2 < c * p2 ==> a < c) by (nonlinear_arith)
        requires
            p2 > 0,
    ;
    assert(a * p2 == c * p2 ==> a == c) by (nonlinear_arith)
        requires
            p2 > 0,
    ;
}

proof fn lemma_fraction_order_is_total(n1: int, d1: int, n2: int, d2: int)
    ensures
        fraction_before(n1, d1, n2, d2) || (n1 == n2 && d1 == d2) || fraction_before(
            n2,
            d2,
            n1,
            d1,
        ),
{
}

/// Text order is a strict total order.
proof fn lemma_text_order_is_strict_total()
    ensures
        forall|s: Seq<char>| !#[trigger] text_before(s, s),
        forall|s: Seq<char>, t: Seq<char>, u: Seq<char>| #[trigger]
            text_before(s, t) && #[trigger] text_before(t, u) ==> text_before(s, u),
        forall|s: Seq<char>, t: Seq<char>| #[trigger]
            text_before(s, t) || s == t || text_before(t, s),
{
    assert(strict_total_order(byte_order()));
    lemma_lexicographic_is_strict_total(byte_order());
    assert forall|s: Seq<char>, t: Seq<char>| #[trigger]
        text_before(s, t) || s == t || text_before(t, s) by {
        lemma_encoding_is_injective(s, t);
    }
}

proof fn lemma_encoding_is_injective(s: Seq<char>, t: Seq<char>)
    ensures
        vstd::utf8::encode_utf8(s) == vstd::utf8::encode_utf8(t) ==> s == t,
{
    vstd::utf8::encode_utf8_decode_utf8(s);
    vstd::utf8::encode_utf8_decode_utf8(t);
}

/// The order of values is a strict total order.
pub proof fn lemma_value_order_is_strict_total()
    ensures
        strict_total_order(value_order()),
{
    lemma_text_order_is_strict_total();
    let lt = value_order();
    assert forall|a: Value, b: Value, c: Value| #[trigger] lt(a, b) && #[trigger] lt(
        b,
        c,
    ) implies lt(a, c) by {
        if let (Value::Decimal(n1, d1), Value::Decimal(n2, d2), Value::Decimal(n3, d3)) = (
            a,
            b,
            c,
        ) {
            lemma_fraction_order_is_transitive(n1, d1, n2, d2, n3, d3);
        }
    }
    assert forall|a: Value, b: Value| #[trigger] lt(a, b) || a == b || lt(b, a) by {
        if let (Value::Decimal(n1, d1), Value::Decimal(n2, d2)) = (a, b) {
            lemma_fraction_order_is_total(n1, d1, n2, d2);
        }
    }
}

/// How one text stands to another.
fn compare_text(a: &str, b: &str) -> (r: Order)
    ensures
        r is Less <==> text_before(a@, b@),
        r is Equal <==> a@ == b@,
        r is Greater <==> text_before(b@, a@),
{
    let x = a.as_bytes();
    let y = b.as_bytes();
    proof {
        lemma_text_order_is_strict_total();
        assert(!text_before(a@, a@));
        assert(text_before(a@, b@) ==> !text_before(b@, a@)) by {
            if text_before(a@, b@) && text_before(b@, a@) {
                assert(text_before(a@, a@));
            }
        }
        lemma_encoding_is_injective(a@, b@);
    }
    let mut i: usize = 0;
    while i < x.len() && i < y.len()
        invariant
            i <= x.len(),
            i <= y.len(),
            x@ == vstd::utf8::encode_utf8(a@),
            y@ == vstd::utf8::encode_utf8(b@),
            forall|j: int| 0 <= j < i ==> x@[j] == y@[j],
            text_before(a@, b@) ==> !text_before(b@, a@),
            !text_before(a@, a@),
        decreases x.len() - i,
    {
        if x[i] != y[i] {
            proof {
                lemma_lexicographic_skips_common_prefix(x@, y@, i as int, byte_order());
                lemma_lexicographic_skips_common_prefix(y@, x@, i as int, byte_order());
            }
            if x[i] < y[i] {
                return Order::Less;
            } else {
                return Order::Greater;
            }
        }
        i = i + 1;
    }
    proof {
        lemma_lexicographic_skips_common_prefix(x@, y@, i as int, byte_order());
        lemma_lexicographic_skips_common_prefix(y@, x@, i as int, byte_order());
    }
    if i < y.len() {
        Order::Less
    } else if i < x.len() {
        Order::Greater
    } else {
        assert(x@ =~= y@);
        Order::Equal
    }
}

/// How one decimal stands to another.
fn compare_decimal(a: &Decimal, b: &Decimal) -> (r: Order)
    ensures
        r is Less <==> fraction_before(a.num(), a.den(), b.num(), b.den()),
        r is Equal <==> a.num() == b.num() && a.den() == b.den(),
        r is Greater <==> fraction_before(b.num(), b.den(), a.num(), a.den()),
        r is Less <==> a.num() * b.den() < b.num() * a.den(),
        r is Equal <==> a.num() * b.den() == b.num() * a.den(),
{
    let (n1, d1) = a.parts();
    let (n2, d2) = b.parts();
    proof {
        lemma_product_in_range(n1, d2);
        lemma_product_in_range(n2, d1);
    }
    let l: i128 = (n1 as i128) * (d2 as i128);
    let r: i128 = (n2 as i128) * (d1 as i128);
    if l < r {
        Order::Less
    } else if r < l {
        Order::Greater
    } else {
        proof {
            lemma_reduced_fractions_are_one(n1 as int, d1 as int, n2 as int, d2 as int);
        }
        Order::Equal
    }
}

/// The product of two `i64` is well within an `i128`.
proof fn lemma_product_in_range(a: i64, b: i64)
    ensures
        -0x4000_0000_0000_0000_0000_0000_0000_0000 <= a * b
            <= 0x4000_0000_0000_0000_0000_0000_0000_0000,
        b > 0 && b <= i64::MAX ==> -0x4000_0000_0000_0000_0000_0000_0000_0000 < a * b
            < 0x4000_0000_0000_0000_0000_0000_0000_0000,
{
    assert(-0x4000_0000_0000_0000_0000_0000_0000_0000 <= a * b
        <= 0x4000_0000_0000_0000_0000_0000_0000_0000) by (nonlinear_arith)
        requires
            i64::MIN <= a <= i64::MAX,
            i64::MIN <= b <= i64::MAX,
    ;
    if b > 0 {
        assert(-0x4000_0000_0000_0000_0000_0000_0000_0000 < a * b
            < 0x4000_0000_0000_0000_0000_0000_0000_0000) by (nonlinear_arith)
            requires
                i64::MIN <= a <= i64::MAX,
                0 < b <= i64::MAX,
        ;
    }
}

impl SortKey for Field {
    open spec fn before(a: Value, b: Value) -> bool {
        value_before(a, b)
    }

    proof fn before_is_strict_total() {
        lemma_value_order_is_strict_total();
        let lt = value_order();
        assert forall|a: Value| !#[trigger] Self::before(a, a) by {
            assert(!lt(a, a));
        }
        assert forall|a: Value, b: Value, c: Value| #[trigger]
            Self::before(a, b) && #[trigger] Self::before(b, c) implies Self::before(a, c) by {
            assert(lt(a, b) && lt(b, c));
        }
        assert forall|a: Value, b: Value| #[trigger]
            Self::before(a, b) || a == b || Self::before(b, a) by {
            assert(lt(a, b) || a == b || lt(b, a));
        }
    }

    fn compare(&self, other: &Self) -> (r: Order)
        ensures
            (self@, other@) matches (Value::Decimal(n1, d1), Value::Decimal(n2, d2)) ==> {
                &&& r is Less <==> n1 * d2 < n2 * d1
                &&& r is Equal <==> n1 * d2 == n2 * d1
            },
    {
        match (self, other) {
            (Field::Int(x), Field::Int(y)) => if *x < *y {
                Order::Less
            } else if *y < *x {
                Order::Greater
            } else {
                Order::Equal
            },
            (Field::Decimal(x), Field::Decimal(y)) => compare_decimal(x, y),
            (Field::String(s), Field::String(t)) => compare_text(s.as_str(), t.as_str()),
            (Field::Int(_), _) => Order::Less,
            (_, Field::Int(_)) => Order::Greater,
            (Field::Decimal(_), _) => Order::Less,
            (Field::String(_), _) => Order::Greater,
        }
    }
}

/// The fraction that a number is; text is no number.
pub open spec fn number(v: Value) -> Option<(int, int)> {
    match v {
        Value::Int(i) => Some((i, 1)),
        Value::Decimal(n, d) => Some((n, d)),
        Value::Text(_) => None,
    }
}

/// The decimal `n / d`, where a decimal can hold it.
pub open spec fn fraction(n: int, d: int) -> Result<Value, CrustyError> {
    let (p, q) = lowest_terms(n, d);
    if fits(p) && fits(q) {
        Ok(Value::Decimal(p, q))
    } else {
        Err(CrustyError::Overflow)
    }
}

/// Whether a value is one that a field can stand for: a decimal is in lowest terms, and both
/// its parts fit.
pub open spec fn storable(v: Value) -> bool {
    match v {
        Value::Int(i) => fits(i),
        Value::Decimal(n, d) => reduced(n, d) && fits(n) && fits(d),
        Value::Text(_) => true,
    }
}

/// Two decimals that are the same number are the same value, so that they make the same
/// group and join with each other; and decimals stand in the order of the numbers they are.
pub proof fn lemma_equal_decimals_are_one_value(n1: int, d1: int, n2: int, d2: int)
    requires
        storable(Value::Decimal(n1, d1)),
        storable(Value::Decimal(n2, d2)),
    ensures
        Value::Decimal(n1, d1) == Value::Decimal(n2, d2) <==> n1 * d2 == n2 * d1,
        value_before(Value::Decimal(n1, d1), Value::Decimal(n2, d2)) <==> n1 * d2 < n2 * d1,
{
    if n1 * d2 == n2 * d1 {
        lemma_reduced_fractions_are_one(n1, d1, n2, d2);
    }
}

/// Sums and quotients of values that a field can stand for are such values.
pub proof fn lemma_arithmetic_is_storable(a: Value, b: Value)
    requires
        storable(a),
        storable(b),
    ensures
        value_sum(a, b) matches Ok(v) ==> storable(v),
        value_quotient(a, b) matches Ok(v) ==> storable(v),
{
    if let (Some((n1, d1)), Some((n2, d2))) = (number(a), number(b)) {
        assert(d1 * d2 > 0) by (nonlinear_arith)
            requires
                d1 > 0,
                d2 > 0,
        ;
        lemma_lowest_terms_are_reduced(n1 * d2 + n2 * d1, d1 * d2);
        if n2 != 0 {
            assert(d1 * n2 != 0) by (nonlinear_arith)
                requires
                    d1 > 0,
                    n2 != 0,
            ;
            lemma_lowest_terms_are_reduced(n1 * d2, d1 * n2);
        }
    }
}

/// The sum of two values. Whole numbers add up to a whole number; where a decimal takes
/// part the sum is a decimal. Text has no sum.
pub open spec fn value_sum(a: Value, b: Value) -> Result<Value, CrustyError> {
    match (a, b) {
        (Value::Int(x), Value::Int(y)) => if fits(x + y) {
            Ok(Value::Int(x + y))
        } else {
            Err(CrustyError::Overflow)
        },
        _ => match (number(a), number(b)) {
            (Some((n1, d1)), Some((n2, d2))) => fraction(n1 * d2 + n2 * d1, d1 * d2),
            _ => Err(CrustyError::TypeMismatch),
        },
    }
}

/// The quotient of two numbers, which is a decimal. Text has no quotient.
pub open spec fn value_quotient(a: Value, b: Value) -> Result<Value, CrustyError> {
    match (number(a), number(b)) {
        (Some((n1, d1)), Some((n2, d2))) => if n2 == 0 {
            Err(CrustyError::DivisionByZero)
        } else {
            fraction(n1 * d2, d1 * n2)
        },
        _ => Err(CrustyError::TypeMismatch),
    }
}

/// The sum of two whole numbers is a whole number, if the machine can hold it.
pub proof fn lemma_sum_of_whole_numbers(x: int, y: int)
    ensures
        value_sum(Value::Int(x), Value::Int(y)) == if i64::MIN <= x + y <= i64::MAX {
            Ok(Value::Int(x + y))
        } else {
            Err(CrustyError::Overflow)
        },
{
}

/// The numerator of a number, and the denominator; a whole number is over one.
pub open spec fn over_one(v: Value) -> (int, int) {
    match v {
        Value::Int(i) => (i, 1),
        Value::Decimal(n, d) => (n, d),
        Value::Text(_) => arbitrary(),
    }
}

/// The sum of two numbers of which one is a decimal is the decimal in lowest terms that they
/// add up to, if there is one; text has no sum. The order of the two does not matter.
pub proof fn lemma_sum_of_values(a: Value, b: Value)
    requires
        a matches Value::Decimal(_, d) ==> d > 0,
        b matches Value::Decimal(_, d) ==> d > 0,
    ensures
        value_sum(a, b) == value_sum(b, a),
        a is Text || b is Text <==> value_sum(a, b) == Err::<Value, CrustyError>(
            CrustyError::TypeMismatch,
        ),
        !(a is Text) && !(b is Text) && (a is Decimal || b is Decimal) ==> {
            let (n1, d1) = over_one(a);
            let (n2, d2) = over_one(b);
            match value_sum(a, b) {
                Ok(v) => v matches Value::Decimal(n, d) && reduced(n, d) && is_fraction_of(
                    n,
                    d,
                    n1 * d2 + n2 * d1,
                    d1 * d2,
                ) && representable(n1 * d2 + n2 * d1, d1 * d2),
                Err(e) => e == CrustyError::Overflow && !representable(
                    n1 * d2 + n2 * d1,
                    d1 * d2,
                ),
            }
        },
{
    if !(a is Text) && !(b is Text) {
        let (n1, d1) = over_one(a);
        let (n2, d2) = over_one(b);
        assert(d1 * d2 > 0) by (nonlinear_arith)
            requires
                d1 > 0,
                d2 > 0,
        ;
        assert(d1 * d2 == d2 * d1) by (nonlinear_arith);
        lemma_lowest_terms_keeps_value(n1 * d2 + n2 * d1, d1 * d2);
        lemma_lowest_terms_are_reduced(n1 * d2 + n2 * d1, d1 * d2);
        lemma_representable(n1 * d2 + n2 * d1, d1 * d2);
    }
}

/// The quotient of two numbers is the decimal in lowest terms that multiplied by the second
/// gives the first, if there is one; nothing is divided by nought, and text has no quotient.
pub proof fn lemma_quotient_of_values(a: Value, b: Value)
    requires
        a matches Value::Decimal(_, d) ==> d > 0,
        b matches Value::Decimal(_, d) ==> d > 0,
    ensures
        a is Text || b is Text <==> value_quotient(a, b) == Err::<Value, CrustyError>(
            CrustyError::TypeMismatch,
        ),
        !(a is Text) && !(b is Text) ==> {
            let (n1, d1) = over_one(a);
            let (n2, d2) = over_one(b);
            match value_quotient(a, b) {
                Ok(v) => n2 != 0 && (v matches Value::Decimal(n, d) && reduced(n, d)
                    && is_fraction_of(n, d, n1 * d2, d1 * n2) && representable(n1 * d2, d1 * n2)),
                Err(e) => if n2 == 0 {
                    e == CrustyError::DivisionByZero
                } else {
                    e == CrustyError::Overflow && !representable(n1 * d2, d1 * n2)
                },
            }
        },
{
    if !(a is Text) && !(b is Text) {
        let (n1, d1) = over_one(a);
        let (n2, d2) = over_one(b);
        if n2 != 0 {
            assert(d1 * n2 != 0) by (nonlinear_arith)
                requires
                    d1 > 0,
                    n2 != 0,
            ;
            lemma_lowest_terms_keeps_value(n1 * d2, d1 * n2);
            lemma_lowest_terms_are_reduced(n1 * d2, d1 * n2);
            lemma_representable(n1 * d2, d1 * n2);
        }
    }
}

/// Whole numbers stand by their size, decimals by the size of the numbers that they are, text
/// by the first byte in which it differs, or by its length where one text begins with the
/// other. Whole numbers stand before decimals, and these before text.
pub proof fn lemma_order_of_values(a: Value, b: Value)
    requires
        storable(a),
        storable(b),
    ensures
        (a, b) matches (Value::Int(x), Value::Int(y)) ==> (value_before(a, b) <==> x < y),
        (a, b) matches (Value::Decimal(n1, d1), Value::Decimal(n2, d2)) ==> d1 > 0 && d2 > 0 && (
        value_before(a, b) <==> n1 * d2 < n2 * d1),
        (a, b) matches (Value::Text(s), Value::Text(t)) ==> (value_before(a, b) <==> {
            let x = vstd::utf8::encode_utf8(s);
            let y = vstd::utf8::encode_utf8(t);
            exists|i: int|
                0 <= i <= x.len() && i < y.len() && x.take(i) == #[trigger] y.take(i) && (i
                    < x.len() ==> x[i] < y[i])
        }),
        a is Int && !(b is Int) ==> value_before(a, b) && !value_before(b, a),
        a is Decimal && b is Text ==> value_before(a, b) && !value_before(b, a),
{
    match (a, b) {
        (Value::Decimal(n1, d1), Value::Decimal(n2, d2)) => {
            lemma_equal_decimals_are_one_value(n1, d1, n2, d2);
        },
        (Value::Text(s), Value::Text(t)) => {
            let x = vstd::utf8::encode_utf8(s);
            let y = vstd::utf8::encode_utf8(t);
            lemma_lexicographic_first_difference(x, y, byte_order());
        },
        _ => {},
    }
}

/// What a computation that may fail came to.
pub open spec fn outcome(r: Result<Field, CrustyError>) -> Result<Value, CrustyError> {
    match r {
        Ok(f) => Ok(f@),
        Err(e) => Err(e),
    }
}

impl Clone for Field {
    fn clone(&self) -> (r: Self)
        ensures
            r == *self,
            storable(r@),
    {
        match self {
            Field::Int(i) => Field::Int(*i),
            Field::Decimal(d) => {
                proof {
                    use_type_invariant(d);
                }
                Field::Decimal(*d)
            },
            Field::String(s) => Field::String(s.clone()),
        }
    }
}

impl Field {
    /// The fraction that this field is, if it is a number.
    fn number(&self) -> (r: Option<(i64, i64)>)
        ensures
            match r {
                Some((n, d)) => number(self@) == Some((n as int, d as int)) && d > 0,
                None => number(self@) is None,
            },
    {
        match self {
            Field::Int(i) => Some((*i, 1)),
            Field::Decimal(d) => Some(d.parts()),
            Field::String(_) => None,
        }
    }

    /// The decimal `n / d`.
    fn fraction(n: i128, d: i128) -> (r: Result<Field, CrustyError>)
        requires
            d != 0,
            n != i128::MIN,
            d != i128::MIN,
        ensures
            outcome(r) == fraction(n as int, d as int),
            r matches Ok(f) ==> storable(f@),
    {
        match Decimal::quotient(n, d) {
            Some(x) => {
                proof {
                    use_type_invariant(&x);
                }
                Ok(Field::Decimal(x))
            },
            None => Err(CrustyError::Overflow),
        }
    }

    /// Adds two fields.
    pub fn plus(&self, other: &Field) -> (r: Result<Field, CrustyError>)
        ensures
            outcome(r) == value_sum(self@, other@),
            r matches Ok(f) ==> storable(f@),
    {
        if let (Field::Int(x), Field::Int(y)) = (self, other) {
            return match x.checked_add(*y) {
                Some(z) => Ok(Field::Int(z)),
                None => Err(CrustyError::Overflow),
            };
        }
        match (self.number(), other.number()) {
            (Some((n1, d1)), Some((n2, d2))) => {
                proof {
                    lemma_product_in_range(n1, d2);
                    lemma_product_in_range(n2, d1);
                    lemma_product_in_range(d1, d2);
                    assert(d1 * d2 > 0) by (nonlinear_arith)
                        requires
                            d1 > 0,
                            d2 > 0,
                    ;
                }
                let n: i128 = (n1 as i128) * (d2 as i128) + (n2 as i128) * (d1 as i128);
                let d: i128 = (d1 as i128) * (d2 as i128);
                Field::fraction(n, d)
            },
            _ => Err(CrustyError::TypeMismatch),
        }
    }

    /// Divides this field by another.
    pub fn over(&self, other: &Field) -> (r: Result<Field, CrustyError>)
        ensures
            outcome(r) == value_quotient(self@, other@),
            r matches Ok(f) ==> storable(f@),
    {
        match (self.number(), other.number()) {
            (Some((n1, d1)), Some((n2, d2))) => {
                if n2 == 0 {
                    return Err(CrustyError::DivisionByZero);
                }
                proof {
                    lemma_product_in_range(n1, d2);
                    lemma_product_in_range(d1, n2);
                    assert(d1 * n2 != 0) by (nonlinear_arith)
                        requires
                            d1 > 0,
                            n2 != 0,
                    ;
                }
                let n: i128 = (n1 as i128) * (d2 as i128);
                let d: i128 = (d1 as i128) * (n2 as i128);
                Field::fraction(n, d)
            },
            _ => Err(CrustyError::TypeMismatch),
        }
    }
}

} // verus!
