//! What the aggregation operations come to, in numbers.
use vstd::prelude::*;
use crate::aggregate::AggOp;
use crate::decimal::{
    is_fraction_of, lemma_lowest_terms_are_unique, lemma_representable, reduced, representable,
};
use crate::error::CrustyError;
use crate::field::{
    lemma_order_of_values, lemma_quotient_of_values, lemma_sum_of_values, over_one, storable,
    value_before, Value,
};
use crate::laws::{accumulate, lemma_max, lemma_min, result_of, whole};

verus! {

/// Whether a value, if it is a decimal, is over a positive number.
pub open spec fn proper(v: Value) -> bool {
    v matches Value::Decimal(_, d) ==> d > 0
}

/// Whether all values are numbers.
pub open spec fn numbers(vs: Seq<Value>) -> bool {
    forall|i: int| 0 <= i < vs.len() ==> !(#[trigger] vs[i] is Text) && proper(vs[i])
}

/// The product of the denominators of some numbers.
pub open spec fn denominators(vs: Seq<Value>) -> int
    decreases vs.len(),
{
    if vs.len() == 0 {
        1
    } else {
        denominators(vs.drop_last()) * over_one(vs.last()).1
    }
}

/// The numerators of some numbers, each times the denominators of the others, added up.
pub open spec fn numerators(vs: Seq<Value>) -> int
    decreases vs.len(),
{
    if vs.len() == 0 {
        0
    } else {
        numerators(vs.drop_last()) * over_one(vs.last()).1 + over_one(vs.last()).0 * denominators(
            vs.drop_last(),
        )
    }
}

/// Whether every sum of the first of the numbers can be held.
pub open spec fn holds_all_sums(vs: Seq<Value>) -> bool {
    forall|k: int|
        0 < k <= vs.len() ==> representable(
            numerators(#[trigger] vs.take(k)),
            denominators(vs.take(k)),
        )
}

/// Fractions of the same number are held alike.
proof fn lemma_held_alike(n1: int, d1: int, n2: int, d2: int)
    requires
        d1 != 0,
        d2 != 0,
        n1 * d2 == n2 * d1,
    ensures
        representable(n1, d1) == representable(n2, d2),
{
    lemma_lowest_terms_are_unique(n1, d1, n2, d2);
    lemma_representable(n1, d1);
    lemma_representable(n2, d2);
}

/// A fraction of a number is a fraction of every other fraction of it.
proof fn lemma_fractions_of_one_number(p: int, q: int, n1: int, d1: int, n2: int, d2: int)
    requires
        is_fraction_of(p, q, n1, d1),
        d1 != 0,
        n1 * d2 == n2 * d1,
    ensures
        is_fraction_of(p, q, n2, d2),
{
    assert(p * d2 == n2 * q) by (nonlinear_arith)
        requires
            p * d1 == n1 * q,
            d1 != 0,
            n1 * d2 == n2 * d1,
    {
        assert((p * d2) * d1 == (n2 * q) * d1) by (nonlinear_arith)
            requires
                p * d1 == n1 * q,
                n1 * d2 == n2 * d1,
        ;
    }
}

/// The sum of the values of a group takes in one value after the other. A number is added; one
/// whose sum could not be held is passed over, and so is text; a sum that began with text stays
/// with it.
pub proof fn lemma_sum_of_one_more(vs: Seq<Value>, v: Value)
    requires
        vs.len() > 0,
        forall|i: int| 0 <= i < vs.len() ==> proper(#[trigger] vs[i]),
        proper(v),
    ensures
        result_of(AggOp::Sum, seq![v]) == Ok::<Value, CrustyError>(v),
        result_of(AggOp::Sum, vs) is Ok,
        result_of(AggOp::Sum, vs.push(v)) is Ok,
        proper(result_of(AggOp::Sum, vs)->Ok_0),
        ({
            let a = result_of(AggOp::Sum, vs)->Ok_0;
            let b = result_of(AggOp::Sum, vs.push(v))->Ok_0;
            &&& a is Text || v is Text ==> b == a
            &&& (a, v) matches (Value::Int(x), Value::Int(y)) ==> b == if i64::MIN <= x + y
                <= i64::MAX {
                Value::Int(x + y)
            } else {
                a
            }
            &&& !(a is Text) && !(v is Text) && (a is Decimal || v is Decimal) ==> {
                let n = over_one(a).0 * over_one(v).1 + over_one(v).0 * over_one(a).1;
                let d = over_one(a).1 * over_one(v).1;
                if representable(n, d) {
                    b matches Value::Decimal(p, q) && reduced(p, q) && is_fraction_of(p, q, n, d)
                } else {
                    b == a
                }
            }
        }),
{
    let a = accumulate(AggOp::Sum, vs);
    lemma_sum_is_proper(vs);
    assert(vs.push(v).drop_last() =~= vs);
    lemma_sum_of_values(a, v);
}

proof fn lemma_sum_is_proper(vs: Seq<Value>)
    requires
        vs.len() > 0,
        forall|i: int| 0 <= i < vs.len() ==> proper(#[trigger] vs[i]),
    ensures
        proper(accumulate(AggOp::Sum, vs)),
    decreases vs.len(),
{
    assert(proper(vs[vs.len() - 1]));
    assert(proper(vs[0]));
    if vs.len() > 1 {
        let rest = vs.drop_last();
        assert forall|i: int| 0 <= i < rest.len() implies proper(#[trigger] rest[i]) by {
            assert(rest[i] == vs[i]);
        }
        lemma_sum_is_proper(rest);
        lemma_sum_of_values(accumulate(AggOp::Sum, rest), vs.last());
    }
}

proof fn lemma_denominators_are_positive(vs: Seq<Value>)
    requires
        numbers(vs),
    ensures
        denominators(vs) > 0,
    decreases vs.len(),
{
    if vs.len() > 0 {
        let rest = vs.drop_last();
        assert forall|i: int| 0 <= i < rest.len() implies !(#[trigger] rest[i] is Text)
            && proper(rest[i]) by {
            assert(rest[i] == vs[i]);
        }
        lemma_denominators_are_positive(rest);
        let d = over_one(vs[vs.len() - 1]).1;
        let e = denominators(rest);
        assert(e * d > 0) by (nonlinear_arith)
            requires
                e > 0,
                d > 0,
        ;
    }
}

/// The sum of numbers, whole or decimal, is the number that they add up to, where every sum on
/// the way can be held; it is a whole number exactly if all of them are.
pub proof fn lemma_sum_of_numbers(vs: Seq<Value>)
    requires
        vs.len() > 0,
        numbers(vs),
        holds_all_sums(vs),
    ensures
        result_of(AggOp::Sum, vs) is Ok,
        ({
            let v = result_of(AggOp::Sum, vs)->Ok_0;
            let (n, d) = over_one(v);
            &&& !(v is Text)
            &&& d > 0
            &&& n * denominators(vs) == d * numerators(vs)
            &&& v is Int <==> forall|i: int| 0 <= i < vs.len() ==> #[trigger] vs[i] is Int
        }),
    decreases vs.len(),
{
    let rest = vs.drop_last();
    let last = vs[vs.len() - 1];
    let (n2, d2) = over_one(last);
    assert(vs.last() == last);
    assert forall|i: int| 0 <= i < rest.len() implies !(#[trigger] rest[i] is Text)
        && proper(rest[i]) by {
        assert(rest[i] == vs[i]);
    }
    lemma_denominators_are_positive(rest);
    lemma_denominators_are_positive(vs);
    assert(vs.take(vs.len() as int) =~= vs);
    if vs.len() == 1 {
        assert(rest =~= Seq::empty());
        assert(denominators(rest) == 1 && numerators(rest) == 0);
        assert(denominators(vs) == d2);
        assert(numerators(vs) == n2) by {
            assert(0 * d2 == 0) by (nonlinear_arith);
            assert(n2 * 1 == n2);
        }
        assert(n2 * d2 == d2 * n2) by (nonlinear_arith);
        assert(vs =~= seq![last]);
    } else {
        assert forall|k: int| 0 < k <= rest.len() implies representable(
            numerators(#[trigger] rest.take(k)),
            denominators(rest.take(k)),
        ) by {
            assert(rest.take(k) =~= vs.take(k));
        }
        lemma_sum_of_numbers(rest);
        assert(rest.push(last) =~= vs);
        assert forall|i: int| 0 <= i < rest.len() implies proper(#[trigger] rest[i]) by {}
        lemma_sum_of_one_more(rest, last);
        let a = result_of(AggOp::Sum, rest)->Ok_0;
        let (n1, d1) = over_one(a);
        let bn = numerators(rest);
        let bd = denominators(rest);
        let sn = n1 * d2 + n2 * d1;
        let sd = d1 * d2;
        assert(sd > 0) by (nonlinear_arith)
            requires
                d1 > 0,
                d2 > 0,
                sd == d1 * d2,
        ;
        let tn = bn * d2 + n2 * bd;
        let td = bd * d2;
        assert(sn * td == tn * sd) by (nonlinear_arith)
            requires
                sn == n1 * d2 + n2 * d1,
                sd == d1 * d2,
                tn == bn * d2 + n2 * bd,
                td == bd * d2,
                n1 * bd == d1 * bn,
        ;
        assert(tn == numerators(vs) && td == denominators(vs));
        lemma_held_alike(sn, sd, tn, td);
        assert(representable(numerators(vs.take(vs.len() as int)), denominators(
            vs.take(vs.len() as int),
        )));
        let b = result_of(AggOp::Sum, vs)->Ok_0;
        let (n, d) = over_one(b);
        if a is Int && last is Int {
            let (p, q) = choose|p: int, q: int| #[trigger]
                is_fraction_of(p, q, sn, sd) && i64::MIN <= p <= i64::MAX && 0 < q <= i64::MAX;
            assert(sd == 1) by (nonlinear_arith)
                requires
                    sd == d1 * d2,
                    d1 == 1,
                    d2 == 1,
            ;
            assert(sn == n1 + n2) by (nonlinear_arith)
                requires
                    sn == n1 * d2 + n2 * d1,
                    d1 == 1,
                    d2 == 1,
            ;
            assert(i64::MIN <= sn <= i64::MAX) by (nonlinear_arith)
                requires
                    p * sd == sn * q,
                    sd == 1,
                    i64::MIN <= p <= i64::MAX,
                    0 < q,
            ;
            assert(is_fraction_of(sn, 1, sn, sd));
        }
        lemma_fractions_of_one_number(n, d, sn, sd, tn, td);
        assert(tn * d == d * tn) by (nonlinear_arith);
        assert(forall|i: int| 0 <= i < vs.len() - 1 ==> #[trigger] vs[i] == rest[i]);
    }
}

/// A value as it begins an average: a whole number becomes a decimal.
pub open spec fn as_decimal(v: Value) -> Value {
    match v {
        Value::Int(i) => Value::Decimal(i, 1),
        _ => v,
    }
}

/// An average is the sum, begun as a decimal, divided by the count. It fails exactly if the
/// sum is text, or if the quotient cannot be held.
pub proof fn lemma_average_is_sum_by_count(vs: Seq<Value>)
    requires
        vs.len() > 0,
        forall|i: int| 0 <= i < vs.len() ==> proper(#[trigger] vs[i]),
    ensures
        ({
            let sum = result_of(AggOp::Sum, vs.update(0, as_decimal(vs[0])))->Ok_0;
            let count = result_of(AggOp::Count, vs)->Ok_0;
            let average = result_of(AggOp::Avg, vs);
            &&& result_of(AggOp::Sum, vs.update(0, as_decimal(vs[0]))) is Ok
            &&& count matches Value::Int(c) && c > 0 && if sum is Text {
                average == Err::<Value, CrustyError>(CrustyError::TypeMismatch)
            } else {
                let (n, d) = over_one(sum);
                match average {
                    Ok(v) => v matches Value::Decimal(p, q) && reduced(p, q) && is_fraction_of(
                        p,
                        q,
                        n,
                        d * c,
                    ) && representable(n, d * c),
                    Err(e) => e == CrustyError::Overflow && !representable(n, d * c),
                }
            }
        }),
{
    let ws = vs.update(0, as_decimal(vs[0]));
    lemma_average_sums_up(vs);
    lemma_count_of_one_more(vs, vs[0]);
    let sum = accumulate(AggOp::Sum, ws);
    let count = accumulate(AggOp::Count, vs);
    assert(proper(vs[0]));
    assert forall|i: int| 0 <= i < ws.len() implies proper(#[trigger] ws[i]) by {
        assert(proper(vs[i]));
    }
    lemma_sum_is_proper(ws);
    lemma_quotient_of_values(sum, count);
    if !(sum is Text) {
        let n = over_one(sum).0;
        assert(n * 1 == n);
    }
}

proof fn lemma_average_sums_up(vs: Seq<Value>)
    requires
        vs.len() > 0,
    ensures
        accumulate(AggOp::Avg, vs) == accumulate(
            AggOp::Sum,
            vs.update(0, as_decimal(vs[0])),
        ),
    decreases vs.len(),
{
    let ws = vs.update(0, as_decimal(vs[0]));
    if vs.len() > 1 {
        lemma_average_sums_up(vs.drop_last());
        assert(ws.drop_last() =~= vs.drop_last().update(0, as_decimal(vs[0])));
    }
}

/// The first value of a group counts one, and every further value one more, as far as the
/// machine can count.
pub proof fn lemma_count_of_one_more(vs: Seq<Value>, v: Value)
    requires
        vs.len() > 0,
    ensures
        result_of(AggOp::Count, seq![v]) == Ok::<Value, CrustyError>(Value::Int(1)),
        result_of(AggOp::Count, vs) matches Ok(Value::Int(n)) && 0 < n <= i64::MAX && result_of(
            AggOp::Count,
            vs.push(v),
        ) == Ok::<Value, CrustyError>(
            Value::Int(
                if n < i64::MAX {
                    n + 1
                } else {
                    n
                },
            ),
        ),
    decreases vs.len(),
{
    assert(vs.push(v).drop_last() =~= vs);
    if vs.len() > 1 {
        let rest = vs.drop_last();
        lemma_count_of_one_more(rest, vs.last());
        assert(rest.push(vs.last()) =~= vs);
    }
}

/// The average of numbers, whole or decimal, is what they add up to, divided by how many they
/// are, where every sum on the way and the quotient can be held.
pub proof fn lemma_average_of_numbers(vs: Seq<Value>)
    requires
        0 < vs.len() <= i64::MAX,
        numbers(vs),
        holds_all_sums(vs),
        representable(numerators(vs), denominators(vs) * vs.len()),
    ensures
        result_of(AggOp::Avg, vs) matches Ok(Value::Decimal(n, d)) && reduced(n, d) && n * (
        denominators(vs) * vs.len()) == d * numerators(vs),
{
    let ws = vs.update(0, as_decimal(vs[0]));
    assert(!(vs[0] is Text));
    assert forall|i: int| 0 <= i < ws.len() implies !(#[trigger] ws[i] is Text) && proper(
        ws[i],
    ) by {
        assert(!(vs[i] is Text));
    }
    assert forall|k: int| 0 < k <= ws.len() implies representable(
        numerators(#[trigger] ws.take(k)),
        denominators(ws.take(k)),
    ) by {
        lemma_as_decimal_is_the_same(vs.take(k));
        assert(ws.take(k) =~= vs.take(k).update(0, as_decimal(vs.take(k)[0])));
    }
    lemma_as_decimal_is_the_same(vs);
    lemma_sum_of_numbers(ws);
    lemma_denominators_are_positive(vs);
    assert forall|i: int| 0 <= i < vs.len() implies proper(#[trigger] vs[i]) by {
        assert(!(vs[i] is Text));
    }
    lemma_average_is_sum_by_count(vs);
    crate::laws::lemma_count(vs);
    let c = vs.len() as int;
    let (n, d) = over_one(result_of(AggOp::Sum, ws)->Ok_0);
    let bn = numerators(vs);
    let bd = denominators(vs);
    assert(n * (bd * c) == bn * (d * c)) by (nonlinear_arith)
        requires
            n * bd == d * bn,
    ;
    assert(d * c > 0) by (nonlinear_arith)
        requires
            d > 0,
            c > 0,
    ;
    assert(bd * c > 0) by (nonlinear_arith)
        requires
            bd > 0,
            c > 0,
    ;
    lemma_held_alike(n, d * c, bn, bd * c);
    let average = result_of(AggOp::Avg, vs);
    assert(average is Ok);
    let (p, q) = over_one(average->Ok_0);
    lemma_fractions_of_one_number(p, q, n, d * c, bn, bd * c);
    assert(bn * q == q * bn) by (nonlinear_arith);
}

/// Whole numbers and decimals add up alike.
proof fn lemma_as_decimal_is_the_same(vs: Seq<Value>)
    requires
        vs.len() > 0,
        !(vs[0] is Text),
    ensures
        numerators(vs.update(0, as_decimal(vs[0]))) == numerators(vs),
        denominators(vs.update(0, as_decimal(vs[0]))) == denominators(vs),
    decreases vs.len(),
{
    let ws = vs.update(0, as_decimal(vs[0]));
    if vs.len() > 1 {
        lemma_as_decimal_is_the_same(vs.drop_last());
        assert(ws.drop_last() =~= vs.drop_last().update(0, as_decimal(vs[0])));
    } else {
        assert(ws.drop_last() =~= vs.drop_last());
    }
}

/// The maximum of whole numbers is one of them, and none is larger.
pub proof fn lemma_max_of_whole_numbers(ns: Seq<int>)
    requires
        ns.len() > 0,
        forall|i: int| 0 <= i < ns.len() ==> i64::MIN <= #[trigger] ns[i] <= i64::MAX,
    ensures
        result_of(AggOp::Max, whole(ns)) matches Ok(Value::Int(m)) && ns.contains(m) && forall|
            i: int,
        |
            0 <= i < ns.len() ==> #[trigger] ns[i] <= m,
{
    let vs = whole(ns);
    lemma_max(vs);
    let m = accumulate(AggOp::Max, vs);
    let k = vs.index_of(m);
    assert(m == Value::Int(ns[k]));
    assert forall|i: int| 0 <= i < ns.len() implies #[trigger] ns[i] <= ns[k] by {
        assert(vs[i] == Value::Int(ns[i]));
        assert(!value_before(m, vs[i]));
        lemma_order_of_values(m, vs[i]);
    }
}

/// The minimum of whole numbers is one of them, and none is smaller.
pub proof fn lemma_min_of_whole_numbers(ns: Seq<int>)
    requires
        ns.len() > 0,
        forall|i: int| 0 <= i < ns.len() ==> i64::MIN <= #[trigger] ns[i] <= i64::MAX,
    ensures
        result_of(AggOp::Min, whole(ns)) matches Ok(Value::Int(m)) && ns.contains(m) && forall|
            i: int,
        |
            0 <= i < ns.len() ==> m <= #[trigger] ns[i],
{
    let vs = whole(ns);
    lemma_min(vs);
    let m = accumulate(AggOp::Min, vs);
    let k = vs.index_of(m);
    assert(m == Value::Int(ns[k]));
    assert forall|i: int| 0 <= i < ns.len() implies ns[k] <= #[trigger] ns[i] by {
        assert(vs[i] == Value::Int(ns[i]));
        assert(!value_before(vs[i], m));
        lemma_order_of_values(vs[i], m);
    }
}

/// The maximum and the minimum of decimals are among them, and none is a larger number than the
/// one or a smaller number than the other.
pub proof fn lemma_max_and_min_of_decimals(vs: Seq<Value>)
    requires
        vs.len() > 0,
        forall|i: int| 0 <= i < vs.len() ==> #[trigger] vs[i] is Decimal && storable(vs[i]),
    ensures
        result_of(AggOp::Max, vs) matches Ok(Value::Decimal(n, d)) && vs.contains(
            Value::Decimal(n, d),
        ) && forall|i: int|
            0 <= i < vs.len() ==> over_one(#[trigger] vs[i]).0 * d <= n * over_one(vs[i]).1,
        result_of(AggOp::Min, vs) matches Ok(Value::Decimal(n, d)) && vs.contains(
            Value::Decimal(n, d),
        ) && forall|i: int|
            0 <= i < vs.len() ==> n * over_one(vs[i]).1 <= over_one(#[trigger] vs[i]).0 * d,
{
    lemma_max(vs);
    lemma_min(vs);
    let m = accumulate(AggOp::Max, vs);
    let l = accumulate(AggOp::Min, vs);
    assert(vs[vs.index_of(m)] == m);
    assert(vs[vs.index_of(l)] == l);
    assert forall|i: int| 0 <= i < vs.len() implies over_one(#[trigger] vs[i]).0 * over_one(m).1
        <= over_one(m).0 * over_one(vs[i]).1 && over_one(l).0 * over_one(vs[i]).1 <= over_one(
        vs[i],
    ).0 * over_one(l).1 by {
        assert(!value_before(m, vs[i]) && !value_before(vs[i], l));
        lemma_order_of_values(m, vs[i]);
        lemma_order_of_values(vs[i], l);
    }
}

} // verus!
