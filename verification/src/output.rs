//! What aggregations give, row by row and field by field.
use vstd::prelude::*;
use crate::aggregate::{in_order, merged, seed, AggOp, Aggregate, Plan};
use crate::bytecode_expr::ByteCodeExpr;
use crate::error::CrustyError;
use crate::field::{
    lemma_value_order_is_strict_total, value_before, value_order, value_sum, Field, Value,
};
use crate::laws::{
    aggregated, belonging, group_row, has_results, lemma_aggregate, lemma_aggregate_of_tuples,
    lemma_error_of_aggregate, lemma_group_has_a_row, lemma_group_result, lemma_rows_have_results,
    members, result_of,
};
use crate::opiterator::{
    feed_of, lemma_read_feed_of, lemma_read_up_to_error, Feed, OpIterator, Outcome, TupleIterator,
};
use crate::order::{lemma_lexicographic_first_difference, SortKey};
use crate::tuple::{row_before, Row, Tuple};

verus! {

/// The rows on which each of the expressions has the value that stands at its place.
pub open spec fn with_values(exprs: Seq<ByteCodeExpr>, vals: Seq<Value>) -> spec_fn(Row) -> bool {
    |r: Row| forall|h: int| 0 <= h < exprs.len() ==> (#[trigger] exprs[h]).value(r) == vals[h]
}

/// The values of an expression on those rows of `s` on which each of some other expressions has
/// the value that stands at its place.
pub open spec fn values_where(
    expr: ByteCodeExpr,
    s: Seq<Row>,
    exprs: Seq<ByteCodeExpr>,
    vals: Seq<Value>,
) -> Seq<Value> {
    s.filter(with_values(exprs, vals)).map_values(|r: Row| expr.value(r))
}

/// Whether one of two rows has at one of the first `n` places a value that stands before the
/// other's, and the two are alike at all places before.
pub open spec fn differ_in_order(a: Row, b: Row, n: int) -> bool {
    exists|i: int|
        0 <= i < n && (forall|h: int| 0 <= h < i ==> #[trigger] a[h] == b[h]) && value_before(
            #[trigger] a[i],
            b[i],
        )
}

proof fn lemma_members_have_values(plan: Plan, s: Seq<Row>, k: Row, row: Row)
    requires
        k.len() == plan.groupby.len(),
        forall|h: int| 0 <= h < k.len() ==> #[trigger] row[h] == k[h],
    ensures
        members(plan, s, k) == s.filter(with_values(plan.groupby, row)),
{
    assert forall|r: Row| #[trigger] belonging(plan, k)(r) == with_values(plan.groupby, row)(r) by {
        if plan.key(r) == k {
            assert forall|h: int| 0 <= h < plan.groupby.len() implies (
            #[trigger] plan.groupby[h]).value(r) == row[h] by {
                assert(plan.key(r)[h] == k[h]);
            }
        }
        if with_values(plan.groupby, row)(r) {
            assert forall|h: int| 0 <= h < k.len() implies plan.key(r)[h] == k[h] by {
                assert(plan.groupby[h].value(r) == row[h]);
            }
            assert(plan.key(r) =~= k);
        }
    }
    assert(belonging(plan, k) =~= with_values(plan.groupby, row));
}

/// Rows of the same length stand in the order of the first values in which they differ.
proof fn lemma_rows_differ_in_order(a: Row, b: Row)
    requires
        a.len() == b.len(),
        row_before(a, b),
    ensures
        differ_in_order(a, b, a.len() as int),
{
    lemma_value_order_is_strict_total();
    lemma_lexicographic_first_difference(a, b, value_order());
    let i = choose|i: int|
        0 <= i <= a.len() && i < b.len() && a.take(i) == #[trigger] b.take(i) && (i < a.len()
            ==> value_order()(a[i], b[i]));
    assert forall|h: int| 0 <= h < i implies #[trigger] a[h] == b[h] by {
        assert(a.take(i)[h] == b.take(i)[h]);
    }
    assert(value_before(a[i], b[i]));
}

/// One row stands before another exactly if the two are alike up to some place, and there the
/// first has ended and the second has not, or has the value that stands before.
pub proof fn lemma_order_of_rows(a: Row, b: Row)
    ensures
        row_before(a, b) <==> exists|i: int|
            0 <= i <= a.len() && i < b.len() && a.take(i) == #[trigger] b.take(i) && (i < a.len()
                ==> value_before(a[i], b[i])),
{
    lemma_value_order_is_strict_total();
    lemma_lexicographic_first_difference(a, b, value_order());
    let lt = value_order();
    if exists|i: int|
        0 <= i <= a.len() && i < b.len() && a.take(i) == #[trigger] b.take(i) && (i < a.len()
            ==> value_before(a[i], b[i])) {
        let i = choose|i: int|
            0 <= i <= a.len() && i < b.len() && a.take(i) == #[trigger] b.take(i) && (i < a.len()
                ==> value_before(a[i], b[i]));
        assert(i < a.len() ==> lt(a[i], b[i]));
    }
    if row_before(a, b) {
        let i = choose|i: int|
            0 <= i <= a.len() && i < b.len() && a.take(i) == #[trigger] b.take(i) && (i < a.len()
                ==> lt(a[i], b[i]));
        assert(a.take(i) == b.take(i));
        assert(i < a.len() ==> value_before(a[i], b[i]));
    }
}

/// The rows that an aggregation gives. Each has first the values of the group-by expressions on
/// some of the rows that went in, and then, for each operation, its result over the values of
/// its expression on exactly those rows. Every row that went in is accounted for by one of the
/// rows that are given, if the aggregation does not fail. No two rows that are given agree in
/// all values of the group-by expressions: they ascend by these, the first that differs
/// deciding.
pub proof fn lemma_rows_of_aggregate(plan: Plan, s: Seq<Row>)
    requires
        plan.ops.len() == plan.aggs.len(),
    ensures
        ({
            let (done, error) = plan.aggregate(Map::empty(), s);
            let g = plan.groupby.len() as int;
            &&& forall|j: int|
                0 <= j < done.len() ==> (#[trigger] done[j]).len() == g + plan.ops.len()
            &&& forall|j: int|
                0 <= j < done.len() ==> exists|r: int|
                    0 <= r < s.len() && with_values(plan.groupby, #[trigger] done[j])(
                        #[trigger] s[r],
                    )
            &&& error is None ==> forall|r: int|
                0 <= r < s.len() ==> exists|j: int|
                    0 <= j < done.len() && with_values(plan.groupby, #[trigger] done[j])(
                        #[trigger] s[r],
                    )
            &&& forall|j: int, k: int|
                0 <= j < k < done.len() ==> differ_in_order(
                    #[trigger] done[j],
                    #[trigger] done[k],
                    g,
                )
            &&& forall|j: int, i: int|
                0 <= j < done.len() && 0 <= i < plan.ops.len() ==> result_of(
                    #[trigger] plan.ops[i],
                    values_where(plan.aggs[i], s, plan.groupby, done[j]),
                ) == Ok::<Value, CrustyError>(#[trigger] done[j][g + i])
        }),
{
    let (done, error) = plan.aggregate(Map::empty(), s);
    let g = plan.groupby.len() as int;
    let groups = plan.absorb_all(Map::empty(), s);
    let q = in_order(groups.dom());
    lemma_aggregate(plan, s);
    lemma_rows_have_results(plan, s);
    assert forall|j: int| 0 <= j < q.len() implies (#[trigger] q[j]).len() == g by {
        assert(q.contains(q[j]));
        let r = choose|r: int| 0 <= r < s.len() && plan.key(#[trigger] s[r]) == q[j];
        assert(plan.key(s[r]).len() == g);
    }
    assert forall|j: int| 0 <= j < done.len() implies (#[trigger] done[j]).len() == g
        + plan.ops.len() by {
        assert(done[j] == group_row(plan, s, q[j]));
    }
    assert forall|j: int, h: int| 0 <= j < done.len() && 0 <= h < g implies #[trigger] done[j][h]
        == q[j][h] by {
        assert(done[j] == group_row(plan, s, q[j]));
    }
    assert forall|j: int| 0 <= j < done.len() implies exists|r: int|
        0 <= r < s.len() && with_values(plan.groupby, #[trigger] done[j])(#[trigger] s[r]) by {
        assert(q.contains(q[j]));
        let r = choose|r: int| 0 <= r < s.len() && plan.key(#[trigger] s[r]) == q[j];
        assert forall|h: int| 0 <= h < plan.groupby.len() implies (
        #[trigger] plan.groupby[h]).value(s[r]) == done[j][h] by {
            assert(plan.key(s[r])[h] == q[j][h]);
        }
        assert(with_values(plan.groupby, done[j])(s[r]));
    }
    if error is None {
        assert forall|r: int| 0 <= r < s.len() implies exists|j: int|
            0 <= j < done.len() && with_values(plan.groupby, #[trigger] done[j])(
                #[trigger] s[r],
            ) by {
            let k = plan.key(s[r]);
            assert(q.contains(k));
            let j = q.index_of(k);
            assert(done[j] == group_row(plan, s, q[j]));
            assert forall|h: int| 0 <= h < plan.groupby.len() implies (
            #[trigger] plan.groupby[h]).value(s[r]) == done[j][h] by {
                assert(k[h] == plan.groupby[h].value(s[r]));
                assert(done[j][h] == q[j][h]);
            }
            assert(with_values(plan.groupby, done[j])(s[r]));
        }
    }
    assert forall|j: int, k: int| 0 <= j < k < done.len() implies differ_in_order(
        #[trigger] done[j],
        #[trigger] done[k],
        g,
    ) by {
        assert(Tuple::before(q[j], q[k]));
        lemma_rows_differ_in_order(q[j], q[k]);
        let i = choose|i: int|
            0 <= i < g && (forall|h: int| 0 <= h < i ==> #[trigger] q[j][h] == q[k][h])
                && value_before(#[trigger] q[j][i], q[k][i]);
        assert forall|h: int| 0 <= h < i implies #[trigger] done[j][h] == done[k][h] by {
            assert(q[j][h] == q[k][h]);
        }
        assert(value_before(done[j][i], done[k][i]));
    }
    assert forall|j: int, i: int| 0 <= j < done.len() && 0 <= i < plan.ops.len() implies result_of(
        #[trigger] plan.ops[i],
        values_where(plan.aggs[i], s, plan.groupby, done[j]),
    ) == Ok::<Value, CrustyError>(#[trigger] done[j][g + i]) by {
        let k = q[j];
        assert(done[j] == group_row(plan, s, k));
        lemma_members_have_values(plan, s, k, done[j]);
        let m = members(plan, s, k);
        assert(aggregated(plan, m, i) =~= values_where(
            plan.aggs[i],
            s,
            plan.groupby,
            done[j],
        ));
        assert(has_results(plan, s, k));
        assert(result_of(plan.ops[i], aggregated(plan, m, i)) is Ok);
    }
}

/// The rows of the same group are those on which every group-by expression has the same value:
/// two rows that went in are accounted for by the same row that is given exactly then.
pub proof fn lemma_same_group(plan: Plan, s: Seq<Row>, a: int, b: int, j: int)
    requires
        plan.ops.len() == plan.aggs.len(),
        0 <= a < s.len(),
        0 <= b < s.len(),
        0 <= j < plan.aggregate(Map::empty(), s).0.len(),
        with_values(plan.groupby, plan.aggregate(Map::empty(), s).0[j])(s[a]),
    ensures
        with_values(plan.groupby, plan.aggregate(Map::empty(), s).0[j])(s[b]) <==> forall|i: int|
            0 <= i < plan.groupby.len() ==> (#[trigger] plan.groupby[i]).value(s[a])
                == plan.groupby[i].value(s[b]),
        plan.key(s[a]) == plan.key(s[b]) <==> forall|i: int|
            0 <= i < plan.groupby.len() ==> (#[trigger] plan.groupby[i]).value(s[a])
                == plan.groupby[i].value(s[b]),
{
    let row = plan.aggregate(Map::empty(), s).0[j];
    if forall|i: int|
        0 <= i < plan.groupby.len() ==> (#[trigger] plan.groupby[i]).value(s[a])
            == plan.groupby[i].value(s[b]) {
        assert(plan.key(s[a]) =~= plan.key(s[b]));
    }
    if plan.key(s[a]) == plan.key(s[b]) {
        assert forall|i: int| 0 <= i < plan.groupby.len() implies (
        #[trigger] plan.groupby[i]).value(s[a]) == plan.groupby[i].value(s[b]) by {
            assert(plan.key(s[a])[i] == plan.key(s[b])[i]);
        }
    }
}

/// An aggregation that fails does so for the first group, in the order of the groups, in which
/// some operation has no result, and with the error of the first such operation; the rows of
/// all groups before it are there.
pub proof fn lemma_failure_of_aggregate(plan: Plan, s: Seq<Row>)
    requires
        plan.ops.len() == plan.aggs.len(),
    ensures
        ({
            let (done, error) = plan.aggregate(Map::empty(), s);
            error matches Some(e) ==> exists|r: int, i: int|
                0 <= r < s.len() && 0 <= i < plan.ops.len() && fails_for(
                    plan,
                    s,
                    done,
                    #[trigger] s[r],
                    i,
                    e,
                ) && #[trigger] plan.ops[i] == AggOp::Avg
        }),
{
    let (done, error) = plan.aggregate(Map::empty(), s);
    if let Some(e) = error {
        let g = plan.groupby.len() as int;
        let groups = plan.absorb_all(Map::empty(), s);
        let q = in_order(groups.dom());
        lemma_aggregate(plan, s);
        let n = done.len() as int;
        lemma_error_of_aggregate(plan, s);
        let k = q[n];
        assert(q.contains(k));
        let r = choose|r: int| 0 <= r < s.len() && plan.key(#[trigger] s[r]) == k;
        let i = choose|i: int|
            0 <= i < plan.ops.len() && plan.result(groups[k], i) == Err::<Value, CrustyError>(e)
                && forall|h: int| 0 <= h < i ==> (#[trigger] plan.result(groups[k], h)) is Ok;
        lemma_group_has_a_row(plan, s, k);
        let vals = Seq::new(plan.groupby.len(), |h: int| plan.groupby[h].value(s[r]));
        assert(vals =~= k);
        lemma_members_have_values(plan, s, k, vals);
        assert forall|h: int| 0 <= h < plan.ops.len() implies result_of(
            #[trigger] plan.ops[h],
            values_where(plan.aggs[h], s, plan.groupby, vals),
        ) == plan.result(groups[k], h) by {
            lemma_group_result(plan, s, k, h);
            assert(aggregated(plan, members(plan, s, k), h) =~= values_where(
                plan.aggs[h],
                s,
                plan.groupby,
                vals,
            ));
        }
        assert forall|h: int| 0 <= h < i implies result_of(
            #[trigger] plan.ops[h],
            values_where(plan.aggs[h], s, plan.groupby, vals),
        ) is Ok by {
            assert(plan.result(groups[k], h) is Ok);
        }
        assert forall|j: int| 0 <= j < done.len() implies differ_in_order(
            #[trigger] done[j],
            vals,
            g,
        ) by {
            assert(q.contains(q[j]));
            let t = choose|t: int| 0 <= t < s.len() && plan.key(#[trigger] s[t]) == q[j];
            assert(Tuple::before(q[j], q[n]));
            assert(plan.key(s[t]).len() == g);
            lemma_rows_differ_in_order(q[j], k);
            assert(done[j] == group_row(plan, s, q[j]));
            let p = choose|p: int|
                0 <= p < g && (forall|h: int| 0 <= h < p ==> #[trigger] q[j][h] == k[h])
                    && value_before(#[trigger] q[j][p], k[p]);
            assert forall|h: int| 0 <= h < p implies #[trigger] done[j][h] == vals[h] by {
                assert(q[j][h] == k[h]);
            }
            assert(value_before(done[j][p], vals[p]));
        }
        assert forall|t: int|
            0 <= t < s.len() && differ_in_order(
                Seq::new(plan.groupby.len(), |h: int| plan.groupby[h].value(s[t])),
                vals,
                g,
            ) implies exists|j: int|
            0 <= j < done.len() && with_values(plan.groupby, #[trigger] done[j])(
                #[trigger] s[t],
            ) by {
            let x = Seq::new(plan.groupby.len(), |h: int| plan.groupby[h].value(s[t]));
            assert(x =~= plan.key(s[t]));
            assert(q.contains(x));
            let j = q.index_of(x);
            lemma_differ_in_order_is_before(x, k);
            Tuple::before_is_strict_total();
            if j > n {
                assert(Tuple::before(q[n], q[j]));
                assert(Tuple::before(x, k));
                assert(Tuple::before(k, k));
            }
            if j == n {
                assert(Tuple::before(k, k));
            }
            assert(done[j] == group_row(plan, s, q[j]));
            assert forall|h: int| 0 <= h < plan.groupby.len() implies (
            #[trigger] plan.groupby[h]).value(s[t]) == done[j][h] by {
                assert(x[h] == q[j][h]);
            }
            assert(with_values(plan.groupby, done[j])(s[t]));
        }
        assert(fails_for(plan, s, done, s[r], i, e));
        if plan.ops[i] != AggOp::Avg {
            assert(plan.result(groups[k], i) is Ok);
        }
    }
}

proof fn lemma_differ_in_order_is_before(a: Row, b: Row)
    requires
        a.len() == b.len(),
        differ_in_order(a, b, a.len() as int),
    ensures
        Tuple::before(a, b),
{
    let i = choose|i: int|
        0 <= i < a.len() && (forall|h: int| 0 <= h < i ==> #[trigger] a[h] == b[h])
            && value_before(#[trigger] a[i], b[i]);
    assert(a.take(i) =~= b.take(i));
    lemma_order_of_rows(a, b);
}

/// Whether an aggregation, having given `done`, fails with `e` for the group of the row `row`,
/// at its operation `i`.
pub open spec fn fails_for(
    plan: Plan,
    s: Seq<Row>,
    done: Seq<Row>,
    row: Row,
    i: int,
    e: CrustyError,
) -> bool {
    let g = plan.groupby.len() as int;
    let vals = Seq::new(plan.groupby.len(), |h: int| plan.groupby[h].value(row));
    &&& result_of(plan.ops[i], values_where(plan.aggs[i], s, plan.groupby, vals)) == Err::<
        Value,
        CrustyError,
    >(e)
    &&& forall|h: int|
        0 <= h < i ==> result_of(
            #[trigger] plan.ops[h],
            values_where(plan.aggs[h], s, plan.groupby, vals),
        ) is Ok
    &&& forall|j: int| 0 <= j < done.len() ==> differ_in_order(#[trigger] done[j], vals, g)
    &&& forall|t: int|
        0 <= t < s.len() && differ_in_order(
            Seq::new(plan.groupby.len(), |h: int| plan.groupby[h].value(s[t])),
            vals,
            g,
        ) ==> exists|j: int|
            0 <= j < done.len() && with_values(plan.groupby, #[trigger] done[j])(#[trigger] s[t])
}

/// An aggregation over tuples may be opened exactly if every one of its expressions has a value
/// on every tuple.
pub proof fn lemma_aggregate_may_be_opened(a: Aggregate<TupleIterator>)
    requires
        a.inv(),
        !a.is_open(),
        a.groups() == Map::<Row, Row>::empty(),
        !a.child().is_open(),
    ensures
        a.openable() <==> forall|r: int, i: int|
            #![trigger a.child().all()[r], a.plan().groupby[i]]
            #![trigger a.child().all()[r], a.plan().aggs[i]]
            0 <= r < a.child().all().len() ==> (0 <= i < a.plan().groupby.len()
                ==> a.plan().groupby[i].evaluates(a.child().all()[r])) && (0 <= i
                < a.plan().aggs.len() ==> a.plan().aggs[i].evaluates(a.child().all()[r])),
{
    lemma_aggregate_of_tuples(a);
    let all = a.child().all();
    let plan = a.plan();
    if a.openable() {
        assert forall|r: int, i: int|
            #![trigger all[r], plan.groupby[i]]
            #![trigger all[r], plan.aggs[i]]
            0 <= r < all.len() implies (0 <= i < plan.groupby.len()
            ==> plan.groupby[i].evaluates(all[r])) && (0 <= i < plan.aggs.len()
            ==> plan.aggs[i].evaluates(all[r])) by {
            assert(plan.evaluates(all[r]));
        }
    }
    if forall|r: int, i: int|
        #![trigger all[r], plan.groupby[i]]
        #![trigger all[r], plan.aggs[i]]
        0 <= r < all.len() ==> (0 <= i < plan.groupby.len() ==> plan.groupby[i].evaluates(all[r]))
            && (0 <= i < plan.aggs.len() ==> plan.aggs[i].evaluates(all[r])) {
        assert forall|r: int| 0 <= r < all.len() implies plan.evaluates(#[trigger] all[r]) by {
            assert forall|i: int| 0 <= i < plan.groupby.len() implies (
            #[trigger] plan.groupby[i]).evaluates(all[r]) by {}
            assert forall|i: int| 0 <= i < plan.aggs.len() implies (
            #[trigger] plan.aggs[i]).evaluates(all[r]) by {}
        }
    }
}

/// An aggregation passes on the error of its child, whether that comes when the child is opened
/// or after some rows; it gives what aggregating the child's rows comes to where there is none.
pub proof fn lemma_aggregate_over_child<C: OpIterator>(
    a: Aggregate<C>,
    s: Seq<Row>,
    rest: Feed,
    e: CrustyError,
)
    requires
        !a.is_open(),
        a.groups() == Map::<Row, Row>::empty(),
    ensures
        a.child().on_open() == Err::<Feed, CrustyError>(e) ==> a.on_open() == Err::<
            Feed,
            CrustyError,
        >(e),
        a.child().on_open() == Ok::<Feed, CrustyError>(
            feed_of(s) + seq![Outcome::Error(e)] + rest,
        ) ==> a.on_open() == Err::<Feed, CrustyError>(e),
        a.child().on_open() == Ok::<Feed, CrustyError>(feed_of(s)) ==> a.on_open() == match (
            a.plan().aggregate(Map::empty(), s)
        ) {
            (done, None) => Ok::<Feed, CrustyError>(feed_of(done)),
            (_, Some(error)) => Err(error),
        },
        a.on_close() == a.child().on_close(),
{
    lemma_read_feed_of(s);
    lemma_read_up_to_error(s, e, rest);
}

/// Tuples that were merged into an aggregation before it is opened count as if its child had
/// given them first.
pub proof fn lemma_merged_before_opening<C: OpIterator>(a: Aggregate<C>, s: Seq<Row>, t: Seq<Row>)
    requires
        !a.is_open(),
        a.groups() == a.plan().absorb_all(Map::empty(), s),
        a.child().on_open() == Ok::<Feed, CrustyError>(feed_of(t)),
    ensures
        a.on_open() == match a.plan().aggregate(Map::empty(), s + t) {
            (done, None) => Ok::<Feed, CrustyError>(feed_of(done)),
            (_, Some(error)) => Err(error),
        },
{
    lemma_read_feed_of(t);
    lemma_absorb_in_two_parts(a.plan(), s, t);
}

proof fn lemma_absorb_in_two_parts(plan: Plan, s: Seq<Row>, t: Seq<Row>)
    ensures
        plan.absorb_all(plan.absorb_all(Map::empty(), s), t) == plan.absorb_all(
            Map::empty(),
            s + t,
        ),
    decreases t.len(),
{
    if t.len() > 0 {
        lemma_absorb_in_two_parts(plan, s, t.drop_last());
        assert((s + t).drop_last() =~= s + t.drop_last());
        assert((s + t).last() == t.last());
    } else {
        assert(s + t =~= s);
    }
}

/// The accumulator that a value begins: a count begins with one, the sum that an average keeps
/// with the value as a decimal, every other accumulator with the value.
pub proof fn lemma_placing(op: AggOp, v: Value)
    ensures
        seed(AggOp::Count, v) == Value::Int(1),
        op == AggOp::Max || op == AggOp::Min || op == AggOp::Sum ==> seed(op, v) == v,
        match v {
            Value::Int(i) => seed(AggOp::Avg, v) == Value::Decimal(i, 1),
            _ => seed(AggOp::Avg, v) == v,
        },
{
}

/// What merging a value into an accumulator comes to. A count goes up by one, whatever the
/// value. A sum, and the sum that an average keeps, goes up by the value. Of the accumulator and
/// the value a maximum keeps one that the other does not stand after, a minimum one that the
/// other does not stand before.
pub proof fn lemma_merging(op: AggOp, v: Value, acc: Value)
    ensures
        merged(AggOp::Count, v, acc) == value_sum(acc, Value::Int(1)),
        merged(AggOp::Sum, v, acc) == value_sum(acc, v),
        merged(AggOp::Avg, v, acc) == value_sum(acc, v),
        merged(AggOp::Max, v, acc) matches Ok(m) && (m == v || m == acc) && !value_before(m, v)
            && !value_before(m, acc),
        merged(AggOp::Min, v, acc) matches Ok(m) && (m == v || m == acc) && !value_before(v, m)
            && !value_before(acc, m),
{
    Field::before_is_strict_total();
    assert(!Field::before(v, v) && !Field::before(acc, acc));
    if Field::before(acc, v) && Field::before(v, acc) {
        assert(Field::before(v, v));
    }
}

} // verus!
