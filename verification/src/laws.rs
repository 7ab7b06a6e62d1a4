//! What holds of aggregations and joins as a whole.
use vstd::prelude::*;
use crate::aggregate::{
    absorbed, all_values, expand, in_order, inputs, lemma_inputs_len, lemma_listing_is_unique,
    lists, seed, slot, slots_of, AggOp, Aggregate, Plan,
};
use crate::bytecode_expr::ByteCodeExpr;
use crate::decimal::{
    fits, lemma_lowest_terms_keeps_value, lemma_whole_number_is_reduced, lowest_terms,
};
use crate::error::CrustyError;
use crate::field::{fraction, value_before, value_quotient, value_sum, Field, Value};
use crate::hash_join::{
    having, joined, look_up, matched, partners, table_of, HashEqJoin,
};
use crate::opiterator::{
    feed_of, lemma_read_feed_of, Feed, OpIterator, Outcome, TupleIterator,
};
use crate::order::SortKey;
use crate::sorted_map::ascending;
use crate::tuple::{Row, Tuple};

verus! {

/// The accumulator of an operation over the values of a group, in the order in which they
/// came.
pub open spec fn accumulate(op: AggOp, vs: Seq<Value>) -> Value
    recommends
        vs.len() > 0,
    decreases vs.len(),
{
    if vs.len() <= 1 {
        seed(op, vs[0])
    } else {
        absorbed(op, vs.last(), accumulate(op, vs.drop_last()))
    }
}

/// The result of an operation over the values of a group.
pub open spec fn result_of(op: AggOp, vs: Seq<Value>) -> Result<Value, CrustyError> {
    if op == AggOp::Avg {
        value_quotient(accumulate(AggOp::Avg, vs), accumulate(AggOp::Count, vs))
    } else {
        Ok(accumulate(op, vs))
    }
}

/// The rows that belong to a group.
pub open spec fn belonging(plan: Plan, k: Row) -> spec_fn(Row) -> bool {
    |r: Row| plan.key(r) == k
}

/// The rows of `s` that belong to the group `k`, in the order of `s`.
pub open spec fn members(plan: Plan, s: Seq<Row>, k: Row) -> Seq<Row> {
    s.filter(belonging(plan, k))
}

/// What the accumulator at place `j` takes in of a run of rows.
pub open spec fn column(plan: Plan, s: Seq<Row>, j: int) -> Seq<Value> {
    s.map_values(|r: Row| plan.inputs(r)[j])
}

/// The values of the aggregated expression at place `i` on a run of rows.
pub open spec fn aggregated(plan: Plan, s: Seq<Row>, i: int) -> Seq<Value> {
    s.map_values(|r: Row| plan.aggs[i].value(r))
}

proof fn lemma_members_push(plan: Plan, s: Seq<Row>, row: Row, k: Row)
    ensures
        members(plan, s.push(row), k) == if plan.key(row) == k {
            members(plan, s, k).push(row)
        } else {
            members(plan, s, k)
        },
{
    assert(s.push(row).drop_last() =~= s);
    reveal(Seq::filter);
}

/// Grouping a run of rows gives one group for each key that a row has, and in each group
/// the accumulators of what its rows, and no others, have.
pub proof fn lemma_groups(plan: Plan, s: Seq<Row>, k: Row)
    ensures
        ({
            let groups = plan.absorb_all(Map::empty(), s);
            &&& groups.contains_key(k) <==> members(plan, s, k).len() > 0
            &&& groups.contains_key(k) ==> groups[k] == Seq::new(
                expand(plan.ops).len(),
                |j: int| accumulate(expand(plan.ops)[j], column(plan, members(plan, s, k), j)),
            )
        }),
    decreases s.len(),
{
    if s.len() == 0 {
        reveal(Seq::filter);
    } else {
        let row = s.last();
        let before = s.drop_last();
        let slots = expand(plan.ops);
        let groups = plan.absorb_all(Map::empty(), s);
        let old_groups = plan.absorb_all(Map::empty(), before);
        lemma_groups(plan, before, k);
        lemma_members_push(plan, before, row, k);
        assert(before.push(row) =~= s);
        if plan.key(row) == k {
            let m = members(plan, before, k);
            let now = members(plan, s, k);
            assert forall|j: int| 0 <= j < slots.len() implies #[trigger] groups[k][j]
                == accumulate(slots[j], column(plan, now, j)) by {
                let c = column(plan, now, j);
                assert(c.last() == plan.inputs(row)[j]);
                assert(c.drop_last() =~= column(plan, m, j));
                if m.len() > 0 {
                    assert(old_groups[k][j] == accumulate(slots[j], column(plan, m, j)));
                }
            }
            assert(groups[k] =~= Seq::new(
                slots.len(),
                |j: int| accumulate(slots[j], column(plan, now, j)),
            ));
        }
    }
}

/// A group is there exactly if some row belongs to it.
pub proof fn lemma_group_has_a_row(plan: Plan, s: Seq<Row>, k: Row)
    ensures
        plan.absorb_all(Map::empty(), s).contains_key(k) <==> exists|i: int|
            0 <= i < s.len() && plan.key(#[trigger] s[i]) == k,
    decreases s.len(),
{
    if s.len() > 0 {
        lemma_group_has_a_row(plan, s.drop_last(), k);
        if exists|i: int| 0 <= i < s.len() && plan.key(#[trigger] s[i]) == k {
            let i = choose|i: int| 0 <= i < s.len() && plan.key(#[trigger] s[i]) == k;
            if i < s.len() - 1 {
                assert(s.drop_last()[i] == s[i]);
            }
        }
        if exists|i: int| 0 <= i < s.len() - 1 && plan.key(#[trigger] s.drop_last()[i]) == k {
            let i = choose|i: int|
                0 <= i < s.len() - 1 && plan.key(#[trigger] s.drop_last()[i]) == k;
            assert(plan.key(s[i]) == k);
        }
        assert(s[s.len() - 1] == s.last());
    }
}

/// The accumulators of an operation take in the values of its expression.
proof fn lemma_inputs_at(ops: Seq<AggOp>, vals: Row, i: int)
    requires
        ops.len() == vals.len(),
        0 <= i < ops.len(),
    ensures
        inputs(ops, vals).len() == expand(ops).len(),
        slot(ops, i) + slots_of(ops[i]).len() <= expand(ops).len(),
        inputs(ops, vals)[slot(ops, i)] == vals[i],
        ops[i] == AggOp::Avg ==> inputs(ops, vals)[slot(ops, i) + 1] == vals[i],
        expand(ops)[slot(ops, i)] == ops[i],
        ops[i] == AggOp::Avg ==> expand(ops)[slot(ops, i) + 1] == AggOp::Count,
    decreases ops.len(),
{
    let ops1 = ops.drop_last();
    let vals1 = vals.drop_last();
    if i < ops.len() - 1 {
        lemma_inputs_at(ops1, vals1, i);
        assert(ops1.take(i) =~= ops.take(i));
    } else {
        lemma_inputs_len(ops1, vals1);
        assert(ops.take(i) =~= ops1);
    }
}

/// In each group, an operation comes to its result over the values that its expression has
/// on the rows of the group.
pub proof fn lemma_group_result(plan: Plan, s: Seq<Row>, k: Row, i: int)
    requires
        plan.ops.len() == plan.aggs.len(),
        0 <= i < plan.ops.len(),
        plan.absorb_all(Map::empty(), s).contains_key(k),
    ensures
        plan.result(plan.absorb_all(Map::empty(), s)[k], i) == result_of(
            plan.ops[i],
            aggregated(plan, members(plan, s, k), i),
        ),
{
    let m = members(plan, s, k);
    let j = slot(plan.ops, i);
    lemma_groups(plan, s, k);
    assert forall|r: Row| (#[trigger] plan.inputs(r))[j] == plan.aggs[i].value(r) && (plan.ops[i]
        == AggOp::Avg ==> plan.inputs(r)[j + 1] == plan.aggs[i].value(r)) by {
        lemma_inputs_at(plan.ops, all_values(plan.aggs, r), i);
    }
    lemma_inputs_at(plan.ops, all_values(plan.aggs, s[0]), i);
    assert(column(plan, m, j) =~= aggregated(plan, m, i));
    if plan.ops[i] == AggOp::Avg {
        assert(column(plan, m, j + 1) =~= aggregated(plan, m, i));
    }
}

/// The result row of a group that has results: what makes the group, then the result of
/// each operation over the group's rows.
pub open spec fn group_row(plan: Plan, s: Seq<Row>, k: Row) -> Row {
    k + Seq::new(
        plan.ops.len(),
        |i: int| result_of(plan.ops[i], aggregated(plan, members(plan, s, k), i))->Ok_0,
    )
}

/// Whether every operation has a result in a group.
pub open spec fn has_results(plan: Plan, s: Seq<Row>, k: Row) -> bool {
    forall|i: int|
        0 <= i < plan.ops.len() ==> (#[trigger] result_of(
            plan.ops[i],
            aggregated(plan, members(plan, s, k), i),
        )) is Ok
}

proof fn lemma_results_upto(plan: Plan, s: Seq<Row>, k: Row, n: int)
    requires
        plan.ops.len() == plan.aggs.len(),
        0 <= n <= plan.ops.len(),
        plan.absorb_all(Map::empty(), s).contains_key(k),
    ensures
        ({
            let r = plan.results_upto(plan.absorb_all(Map::empty(), s)[k], n);
            &&& r is Ok <==> forall|i: int|
                0 <= i < n ==> (#[trigger] result_of(
                    plan.ops[i],
                    aggregated(plan, members(plan, s, k), i),
                )) is Ok
            &&& r matches Ok(row) ==> row == Seq::new(
                n as nat,
                |i: int| result_of(plan.ops[i], aggregated(plan, members(plan, s, k), i))->Ok_0,
            )
        }),
    decreases n,
{
    let accs = plan.absorb_all(Map::empty(), s)[k];
    if n > 0 {
        lemma_results_upto(plan, s, k, n - 1);
        lemma_group_result(plan, s, k, n - 1);
        if plan.results_upto(accs, n) is Ok {
            let row = plan.results_upto(accs, n)->Ok_0;
            assert(row =~= Seq::new(
                n as nat,
                |i: int| result_of(plan.ops[i], aggregated(plan, members(plan, s, k), i))->Ok_0,
            ));
        }
        let last = result_of(plan.ops[n - 1], aggregated(plan, members(plan, s, k), n - 1));
        assert(plan.result(accs, n - 1) == last);
    } else {
        assert(plan.results_upto(accs, n)->Ok_0 =~= Seq::new(
            n as nat,
            |i: int| result_of(plan.ops[i], aggregated(plan, members(plan, s, k), i))->Ok_0,
        ));
    }
}

proof fn lemma_finish_rows(plan: Plan, s: Seq<Row>, q: Seq<Row>)
    requires
        plan.ops.len() == plan.aggs.len(),
        forall|j: int|
            0 <= j < q.len() ==> plan.absorb_all(Map::empty(), s).contains_key(#[trigger] q[j]),
    ensures
        ({
            let (done, error) = plan.finish(plan.absorb_all(Map::empty(), s), q);
            &&& done.len() <= q.len()
            &&& forall|j: int|
                0 <= j < done.len() ==> has_results(plan, s, #[trigger] q[j])
            &&& forall|j: int|
                0 <= j < done.len() ==> #[trigger] done[j] == group_row(plan, s, q[j])
            &&& error is None <==> done.len() == q.len()
            &&& error is Some ==> !has_results(plan, s, q[done.len() as int])
        }),
    decreases q.len(),
{
    if q.len() > 0 {
        let groups = plan.absorb_all(Map::empty(), s);
        let q1 = q.drop_last();
        lemma_finish_rows(plan, s, q1);
        let (done1, error1) = plan.finish(groups, q1);
        let (done, error) = plan.finish(groups, q);
        lemma_results_upto(plan, s, q.last(), plan.ops.len() as int);
        assert(q[q.len() - 1] == q.last());
        assert forall|j: int| 0 <= j < done.len() implies has_results(
            plan,
            s,
            #[trigger] q[j],
        ) by {
            if j < done1.len() {
                assert(q1[j] == q[j]);
            }
        }
        assert forall|j: int| 0 <= j < done.len() implies #[trigger] done[j] == group_row(
            plan,
            s,
            q[j],
        ) by {
            if j < done1.len() {
                assert(done1[j] == group_row(plan, s, q1[j]));
            } else {
                assert(done[j] =~= group_row(plan, s, q[j]));
            }
        }
        if error1 is Some {
            assert(q[done.len() as int] == q1[done.len() as int]);
        }
    }
}

/// Aggregating a run of rows either gives, in ascending order of what makes a group, one
/// row for each group, with the results of the operations over the group's rows; or it
/// fails, because some group lacks a result.
pub proof fn lemma_aggregate(plan: Plan, s: Seq<Row>)
    requires
        plan.ops.len() == plan.aggs.len(),
    ensures
        ({
            let (done, error) = plan.aggregate(Map::empty(), s);
            let q = in_order(plan.absorb_all(Map::empty(), s).dom());
            &&& ascending::<Tuple>(q)
            &&& forall|k: Row| #[trigger]
                q.contains(k) <==> exists|i: int| 0 <= i < s.len() && plan.key(#[trigger] s[i]) == k
            &&& done.len() <= q.len()
            &&& forall|j: int|
                0 <= j < done.len() ==> #[trigger] done[j] == group_row(plan, s, q[j])
            &&& error is None <==> done.len() == q.len()
            &&& error is None <==> forall|j: int|
                0 <= j < q.len() ==> has_results(plan, s, #[trigger] q[j])
        }),
{
    let groups = plan.absorb_all(Map::empty(), s);
    let q = in_order(groups.dom());
    lemma_keys_can_be_listed(plan, s);
    assert(lists(q, groups.dom()));
    assert forall|k: Row| #[trigger] q.contains(k) <==> groups.contains_key(k) by {
        assert(q.to_set().contains(k) <==> q.contains(k));
    }
    assert forall|k: Row| #[trigger] q.contains(k) <==> exists|i: int|
        0 <= i < s.len() && plan.key(#[trigger] s[i]) == k by {
        lemma_group_has_a_row(plan, s, k);
    }
    assert forall|j: int| 0 <= j < q.len() implies groups.contains_key(#[trigger] q[j]) by {
        assert(q.contains(q[j]));
    }
    lemma_finish_rows(plan, s, q);
}

/// Every row that is given belongs to a group that has results.
pub(crate) proof fn lemma_rows_have_results(plan: Plan, s: Seq<Row>)
    requires
        plan.ops.len() == plan.aggs.len(),
    ensures
        ({
            let done = plan.aggregate(Map::empty(), s).0;
            let q = in_order(plan.absorb_all(Map::empty(), s).dom());
            done.len() <= q.len() && forall|j: int|
                0 <= j < done.len() ==> has_results(plan, s, #[trigger] q[j])
        }),
{
    let groups = plan.absorb_all(Map::empty(), s);
    let q = in_order(groups.dom());
    lemma_keys_can_be_listed(plan, s);
    assert(lists(q, groups.dom()));
    assert forall|j: int| 0 <= j < q.len() implies groups.contains_key(#[trigger] q[j]) by {
        assert(q.to_set().contains(q[j]));
    }
    lemma_finish_rows(plan, s, q);
}

/// The error of an aggregation is that of the first operation without a result in the first
/// group that has one.
pub(crate) proof fn lemma_error_of_aggregate(plan: Plan, s: Seq<Row>)
    requires
        plan.ops.len() == plan.aggs.len(),
    ensures
        ({
            let (done, error) = plan.aggregate(Map::empty(), s);
            let groups = plan.absorb_all(Map::empty(), s);
            let q = in_order(groups.dom());
            error matches Some(e) ==> done.len() < q.len() && exists|i: int|
                0 <= i < plan.ops.len() && (#[trigger] plan.result(groups[q[done.len() as int]], i))
                    == Err::<Value, CrustyError>(e) && forall|h: int|
                    0 <= h < i ==> (#[trigger] plan.result(groups[q[done.len() as int]], h)) is Ok
        }),
{
    let (done, error) = plan.aggregate(Map::empty(), s);
    let groups = plan.absorb_all(Map::empty(), s);
    let q = in_order(groups.dom());
    if let Some(e) = error {
        lemma_error_of_finish(plan, groups, q);
        lemma_error_of_results(plan, groups[q[done.len() as int]], plan.ops.len() as int);
    }
}

proof fn lemma_error_of_finish(plan: Plan, groups: Map<Row, Row>, q: Seq<Row>)
    ensures
        ({
            let (done, error) = plan.finish(groups, q);
            &&& done.len() <= q.len()
            &&& error is None ==> done.len() == q.len()
            &&& error matches Some(e) ==> done.len() < q.len() && plan.results(
                groups[q[done.len() as int]],
            ) == Err::<Row, CrustyError>(e)
        }),
    decreases q.len(),
{
    if q.len() > 0 {
        let q1 = q.drop_last();
        lemma_error_of_finish(plan, groups, q1);
        let (done1, error1) = plan.finish(groups, q1);
        if error1 is Some {
            assert(q1[done1.len() as int] == q[done1.len() as int]);
        } else {
            assert(q[done1.len() as int] == q.last());
        }
    }
}

proof fn lemma_error_of_results(plan: Plan, accs: Row, n: int)
    ensures
        plan.results_upto(accs, n) matches Err(e) ==> exists|i: int|
            0 <= i < n && (#[trigger] plan.result(accs, i)) == Err::<Value, CrustyError>(e)
                && forall|h: int| 0 <= h < i ==> (#[trigger] plan.result(accs, h)) is Ok,
        plan.results_upto(accs, n) is Ok ==> forall|h: int|
            0 <= h < n ==> (#[trigger] plan.result(accs, h)) is Ok,
    decreases n,
{
    if n > 0 {
        lemma_error_of_results(plan, accs, n - 1);
        if plan.results_upto(accs, n) is Err && plan.results_upto(accs, n - 1) is Ok {
            assert(plan.result(accs, n - 1) is Err);
        }
    }
}

/// The keys of the groups of a run of rows can be listed in order.
proof fn lemma_keys_can_be_listed(plan: Plan, s: Seq<Row>)
    ensures
        exists|q: Seq<Row>| lists(q, plan.absorb_all(Map::empty(), s).dom()),
    decreases s.len(),
{
    let groups = plan.absorb_all(Map::empty(), s);
    if s.len() == 0 {
        let q = Seq::<Row>::empty();
        assert(q.to_set() =~= groups.dom());
        assert(lists(q, groups.dom()));
    } else {
        let before = plan.absorb_all(Map::empty(), s.drop_last());
        lemma_keys_can_be_listed(plan, s.drop_last());
        let q = choose|q: Seq<Row>| lists(q, before.dom());
        let k = plan.key(s.last());
        if before.contains_key(k) {
            assert(groups.dom() =~= before.dom());
            assert(lists(q, groups.dom()));
        } else {
            let p = lemma_insert_in_order(q, k);
            assert(groups.dom() =~= before.dom().insert(k));
            assert(p.to_set() =~= groups.dom()) by {
                assert forall|x: Row| p.to_set().contains(x) <==> groups.dom().contains(x) by {
                    assert(p.contains(x) <==> q.contains(x) || x == k);
                    assert(q.to_set().contains(x) <==> q.contains(x));
                }
            }
            assert(lists(p, groups.dom()));
        }
    }
}

/// A row that an ascending run lacks has its place in it.
proof fn lemma_insert_in_order(q: Seq<Row>, k: Row) -> (p: Seq<Row>)
    requires
        ascending::<Tuple>(q),
        !q.contains(k),
    ensures
        ascending::<Tuple>(p),
        forall|x: Row| #[trigger] p.contains(x) <==> q.contains(x) || x == k,
    decreases q.len(),
{
    Tuple::before_is_strict_total();
    if q.len() == 0 || Tuple::before(q.last(), k) {
        let p = q.push(k);
        assert forall|i: int, j: int| 0 <= i < j < p.len() implies Tuple::before(
            #[trigger] p[i],
            #[trigger] p[j],
        ) by {
            if j == q.len() {
                if i < q.len() - 1 {
                    assert(Tuple::before(q[i], q[q.len() - 1]));
                }
            } else {
                assert(Tuple::before(q[i], q[j]));
            }
        }
        assert forall|x: Row| #[trigger] p.contains(x) <==> q.contains(x) || x == k by {
            if q.contains(x) {
                assert(p[q.index_of(x)] == x);
            }
            if x == k {
                assert(p[q.len() as int] == k);
            }
            if p.contains(x) && x != k {
                assert(q[p.index_of(x)] == x);
            }
        }
        p
    } else {
        let q1 = q.drop_last();
        let last = q.last();
        assert(q[q.len() - 1] == last);
        assert(q.contains(last));
        assert(Tuple::before(k, last) || k == last || Tuple::before(last, k));
        assert forall|i: int, j: int| 0 <= i < j < q1.len() implies Tuple::before(
            #[trigger] q1[i],
            #[trigger] q1[j],
        ) by {
            assert(Tuple::before(q[i], q[j]));
        }
        assert(!q1.contains(k)) by {
            if q1.contains(k) {
                assert(q[q1.index_of(k)] == k);
                assert(q.contains(k));
            }
        }
        let p1 = lemma_insert_in_order(q1, k);
        let p = p1.push(last);
        assert forall|x: Row| p1.contains(x) implies Tuple::before(x, last) by {
            if x != k {
                assert(q1.contains(x));
                let i = q1.index_of(x);
                assert(Tuple::before(q[i], q[q.len() - 1]));
            }
        }
        assert forall|i: int, j: int| 0 <= i < j < p.len() implies Tuple::before(
            #[trigger] p[i],
            #[trigger] p[j],
        ) by {
            if j == p1.len() {
                assert(p1.contains(p1[i]));
            } else {
                assert(Tuple::before(p1[i], p1[j]));
            }
        }
        assert forall|x: Row| #[trigger] p.contains(x) <==> q.contains(x) || x == k by {
            if p1.contains(x) {
                assert(p[p1.index_of(x)] == x);
            }
            if x == last {
                assert(p[p1.len() as int] == x);
            }
            if p.contains(x) && x != last {
                assert(p1[p.index_of(x)] == x);
                assert(p1.contains(x));
            }
            if q1.contains(x) {
                assert(q[q1.index_of(x)] == x);
            }
            if q.contains(x) && x != last {
                assert(q1[q.index_of(x)] == x);
                assert(q1.contains(x));
                assert(p1.contains(x));
            }
        }
        p
    }
}

/// A count counts the rows of the group.
pub proof fn lemma_count(vs: Seq<Value>)
    requires
        0 < vs.len() <= i64::MAX,
    ensures
        result_of(AggOp::Count, vs) == Ok::<Value, CrustyError>(Value::Int(vs.len() as int)),
    decreases vs.len(),
{
    if vs.len() > 1 {
        lemma_count(vs.drop_last());
    }
}

/// A maximum is one of the values, and no value stands after it.
pub proof fn lemma_max(vs: Seq<Value>)
    requires
        vs.len() > 0,
    ensures
        ({
            let m = accumulate(AggOp::Max, vs);
            &&& result_of(AggOp::Max, vs) == Ok::<Value, CrustyError>(m)
            &&& vs.contains(m)
            &&& forall|i: int| 0 <= i < vs.len() ==> !value_before(m, #[trigger] vs[i])
        }),
    decreases vs.len(),
{
    Field::before_is_strict_total();
    let m = accumulate(AggOp::Max, vs);
    if vs.len() > 1 {
        let rest = vs.drop_last();
        lemma_max(rest);
        let n = accumulate(AggOp::Max, rest);
        assert(vs[rest.index_of(n)] == n);
        assert(vs[vs.len() - 1] == vs.last());
        assert forall|i: int| 0 <= i < vs.len() implies !value_before(m, #[trigger] vs[i]) by {
            if i < rest.len() {
                assert(rest[i] == vs[i]);
                if Field::before(m, vs[i]) && Field::before(n, m) {
                    assert(Field::before(n, vs[i]));
                }
            } else {
                assert(!Field::before(m, m));
            }
        }
    } else {
        assert(vs[0] == m);
        assert(!Field::before(m, m));
    }
}

/// A minimum is one of the values, and no value stands before it.
pub proof fn lemma_min(vs: Seq<Value>)
    requires
        vs.len() > 0,
    ensures
        ({
            let m = accumulate(AggOp::Min, vs);
            &&& result_of(AggOp::Min, vs) == Ok::<Value, CrustyError>(m)
            &&& vs.contains(m)
            &&& forall|i: int| 0 <= i < vs.len() ==> !value_before(#[trigger] vs[i], m)
        }),
    decreases vs.len(),
{
    Field::before_is_strict_total();
    let m = accumulate(AggOp::Min, vs);
    if vs.len() > 1 {
        let rest = vs.drop_last();
        lemma_min(rest);
        let n = accumulate(AggOp::Min, rest);
        assert(vs[rest.index_of(n)] == n);
        assert(vs[vs.len() - 1] == vs.last());
        assert forall|i: int| 0 <= i < vs.len() implies !value_before(#[trigger] vs[i], m) by {
            if i < rest.len() {
                assert(rest[i] == vs[i]);
                if Field::before(vs[i], m) && Field::before(m, n) {
                    assert(Field::before(vs[i], n));
                }
            } else {
                assert(!Field::before(m, m));
            }
        }
    } else {
        assert(vs[0] == m);
        assert(!Field::before(m, m));
    }
}

proof fn lemma_count_is_of_how_many(vs: Seq<Value>, ws: Seq<Value>)
    requires
        vs.len() == ws.len() > 0,
    ensures
        accumulate(AggOp::Count, vs) == accumulate(AggOp::Count, ws),
    decreases vs.len(),
{
    if vs.len() > 1 {
        lemma_count_is_of_how_many(vs.drop_last(), ws.drop_last());
    }
}

/// Whether the result of an operation does not depend on the order of the values.
pub open spec fn orderless(op: AggOp) -> bool {
    op == AggOp::Count || op == AggOp::Max || op == AggOp::Min
}

/// Counts, maxima and minima depend on nothing but which values there are and how many.
proof fn lemma_orderless(op: AggOp, vs: Seq<Value>, ws: Seq<Value>)
    requires
        vs.len() == ws.len() > 0,
        forall|x: Value| #[trigger] vs.contains(x) <==> ws.contains(x),
        orderless(op),
    ensures
        result_of(op, vs) == result_of(op, ws),
{
    if op == AggOp::Count {
        lemma_count_is_of_how_many(vs, ws);
    } else {
        Field::before_is_strict_total();
        let m = accumulate(op, vs);
        let n = accumulate(op, ws);
        if op == AggOp::Max {
            lemma_max(vs);
            lemma_max(ws);
        } else {
            lemma_min(vs);
            lemma_min(ws);
        }
        assert(vs.contains(m) && vs.contains(n));
        assert(ws[ws.index_of(m)] == m);
        assert(vs[vs.index_of(n)] == n);
        assert(Field::before(m, n) || m == n || Field::before(n, m));
    }
}

/// Counts, maxima and minima do not depend on the order in which the values came.
pub proof fn lemma_order_of_values_is_irrelevant(op: AggOp, vs: Seq<Value>, ws: Seq<Value>)
    requires
        vs.len() > 0,
        vs.to_multiset() == ws.to_multiset(),
        orderless(op),
    ensures
        result_of(op, vs) == result_of(op, ws),
{
    lemma_same_multiset(vs, ws);
    lemma_orderless(op, vs, ws);
}

proof fn lemma_same_multiset<A>(s: Seq<A>, t: Seq<A>)
    requires
        s.to_multiset() == t.to_multiset(),
    ensures
        s.len() == t.len(),
        forall|x: A| #[trigger] s.contains(x) <==> t.contains(x),
{
    s.to_multiset_ensures();
    t.to_multiset_ensures();
    assert forall|x: A| #[trigger] s.contains(x) <==> t.contains(x) by {
        vstd::seq_lib::to_multiset_contains(s, x);
        vstd::seq_lib::to_multiset_contains(t, x);
    }
}

proof fn lemma_filter_of_multiset<A>(s: Seq<A>, pred: spec_fn(A) -> bool)
    ensures
        s.filter(pred).to_multiset() == s.to_multiset().filter(pred),
    decreases s.len(),
{
    reveal(Seq::filter);
    if s.len() == 0 {
        s.to_multiset_ensures();
        s.filter(pred).to_multiset_ensures();
        assert(s.filter(pred).to_multiset() =~= s.to_multiset().filter(pred));
    } else {
        let rest = s.drop_last();
        let x = s.last();
        lemma_filter_of_multiset(rest, pred);
        rest.to_multiset_ensures();
        rest.filter(pred).to_multiset_ensures();
        assert(rest.push(x) =~= s);
        assert(s.to_multiset() == rest.to_multiset().insert(x));
        if pred(x) {
            assert(s.filter(pred) == rest.filter(pred).push(x));
        }
        assert(s.filter(pred).to_multiset() =~= s.to_multiset().filter(pred));
    }
}

/// The groups do not depend on the order in which the rows came, nor does what a count, a
/// maximum or a minimum comes to in any of them.
pub proof fn lemma_order_of_rows_in_a_group(plan: Plan, s: Seq<Row>, t: Seq<Row>, k: Row, i: int)
    requires
        plan.ops.len() == plan.aggs.len(),
        s.to_multiset() == t.to_multiset(),
    ensures
        plan.absorb_all(Map::empty(), s).contains_key(k) <==> plan.absorb_all(
            Map::empty(),
            t,
        ).contains_key(k),
        plan.absorb_all(Map::empty(), s).contains_key(k) && 0 <= i < plan.ops.len() && orderless(
            plan.ops[i],
        ) ==> result_of(plan.ops[i], aggregated(plan, members(plan, s, k), i)) == result_of(
            plan.ops[i],
            aggregated(plan, members(plan, t, k), i),
        ),
{
    let m = members(plan, s, k);
    let n = members(plan, t, k);
    lemma_filter_of_multiset(s, belonging(plan, k));
    lemma_filter_of_multiset(t, belonging(plan, k));
    lemma_same_multiset(m, n);
    lemma_groups(plan, s, k);
    lemma_groups(plan, t, k);
    if m.len() > 0 && 0 <= i < plan.ops.len() && orderless(plan.ops[i]) {
        let vs = aggregated(plan, m, i);
        let ws = aggregated(plan, n, i);
        assert forall|x: Value| #[trigger] vs.contains(x) <==> ws.contains(x) by {
            if vs.contains(x) {
                let r = m[vs.index_of(x)];
                assert(m.contains(r));
                assert(ws[n.index_of(r)] == x);
            }
            if ws.contains(x) {
                let r = n[ws.index_of(x)];
                assert(n.contains(r));
                assert(m.contains(r));
                assert(vs[m.index_of(r)] == x);
            }
        }
        lemma_orderless(plan.ops[i], vs, ws);
    }
}

/// An aggregation that only counts and takes maxima and minima cannot fail, and what it gives
/// does not depend on the order in which the rows came.
pub proof fn lemma_order_of_rows_is_irrelevant(plan: Plan, s: Seq<Row>, t: Seq<Row>)
    requires
        plan.ops.len() == plan.aggs.len(),
        s.to_multiset() == t.to_multiset(),
        forall|i: int| 0 <= i < plan.ops.len() ==> orderless(#[trigger] plan.ops[i]),
    ensures
        plan.aggregate(Map::empty(), s).1 is None,
        plan.aggregate(Map::empty(), s) == plan.aggregate(Map::empty(), t),
{
    lemma_aggregate(plan, s);
    lemma_aggregate(plan, t);
    let groups_s = plan.absorb_all(Map::empty(), s);
    let groups_t = plan.absorb_all(Map::empty(), t);
    assert forall|k: Row| groups_s.contains_key(k) == groups_t.contains_key(k) by {
        lemma_order_of_rows_in_a_group(plan, s, t, k, 0);
    }
    assert(groups_s.dom() =~= groups_t.dom());
    let q = in_order(groups_s.dom());
    assert forall|j: int| 0 <= j < q.len() implies has_results(plan, s, #[trigger] q[j])
        && has_results(plan, t, q[j]) && group_row(plan, s, q[j]) == group_row(plan, t, q[j]) by {
        let k = q[j];
        assert(q.contains(k));
        lemma_group_has_a_row(plan, s, k);
        lemma_groups(plan, s, k);
        lemma_groups(plan, t, k);
        assert forall|i: int| 0 <= i < plan.ops.len() implies (#[trigger] result_of(
            plan.ops[i],
            aggregated(plan, members(plan, s, k), i),
        )) is Ok && result_of(plan.ops[i], aggregated(plan, members(plan, s, k), i)) == result_of(
            plan.ops[i],
            aggregated(plan, members(plan, t, k), i),
        ) by {
            assert(orderless(plan.ops[i]));
            lemma_order_of_rows_in_a_group(plan, s, t, k, i);
        }
        assert(group_row(plan, s, k) =~= group_row(plan, t, k));
    }
    let done_s = plan.aggregate(Map::empty(), s).0;
    let done_t = plan.aggregate(Map::empty(), t).0;
    assert forall|j: int| 0 <= j < q.len() implies #[trigger] done_s[j] == done_t[j] by {
        assert(done_s[j] == group_row(plan, s, q[j]));
        assert(done_t[j] == group_row(plan, t, q[j]));
    }
    assert(done_s =~= done_t);
}

/// The whole numbers in column `c` of some rows, added up.
pub open spec fn column_total(s: Seq<Row>, c: int) -> int
    decreases s.len(),
{
    if s.len() == 0 {
        0
    } else {
        column_total(s.drop_last(), c) + s.last()[c]->Int_0
    }
}

/// How many rows of `s` belong to one of the groups `q`, each counted once for each place that
/// its group has in `q`.
spec fn membership(plan: Plan, s: Seq<Row>, q: Seq<Row>) -> int
    decreases q.len(),
{
    if q.len() == 0 {
        0
    } else {
        membership(plan, s, q.drop_last()) + members(plan, s, q.last()).len()
    }
}

/// One more row belongs to one more group, if that is among the groups.
proof fn lemma_membership_of_one_more(plan: Plan, s: Seq<Row>, row: Row, q: Seq<Row>)
    requires
        q.no_duplicates(),
    ensures
        membership(plan, s.push(row), q) == membership(plan, s, q) + if q.contains(plan.key(row)) {
            1int
        } else {
            0int
        },
    decreases q.len(),
{
    if q.len() > 0 {
        let q1 = q.drop_last();
        let k = plan.key(row);
        lemma_members_push(plan, s, row, q.last());
        lemma_membership_of_one_more(plan, s, row, q1);
        if q1.contains(k) {
            let i = q1.index_of(k);
            assert(q[i] == k);
            assert(q[q.len() - 1] == q.last());
        }
        if q.contains(k) {
            let i = q.index_of(k);
            if i < q.len() - 1 {
                assert(q1[i] == k);
            }
        } else {
            assert(q[q.len() - 1] == q.last());
        }
    }
}

/// Every row belongs to one group.
proof fn lemma_membership(plan: Plan, s: Seq<Row>, q: Seq<Row>)
    requires
        q.no_duplicates(),
        forall|i: int| 0 <= i < s.len() ==> q.contains(plan.key(#[trigger] s[i])),
    ensures
        membership(plan, s, q) == s.len(),
    decreases s.len(), q.len(),
{
    if s.len() == 0 {
        if q.len() > 0 {
            reveal(Seq::filter);
            lemma_membership(plan, s, q.drop_last());
        }
    } else {
        let rest = s.drop_last();
        assert(rest.push(s.last()) =~= s);
        assert forall|i: int| 0 <= i < rest.len() implies q.contains(
            plan.key(#[trigger] rest[i]),
        ) by {
            assert(rest[i] == s[i]);
        }
        lemma_membership(plan, rest, q);
        lemma_membership_of_one_more(plan, rest, s.last(), q);
        assert(q.contains(plan.key(s[s.len() - 1])));
    }
}

/// The counts of all groups add up to the number of rows.
pub proof fn lemma_counts_add_up(plan: Plan, s: Seq<Row>, i: int)
    requires
        plan.ops.len() == plan.aggs.len(),
        0 <= i < plan.ops.len(),
        plan.ops[i] == AggOp::Count,
        s.len() <= i64::MAX,
        plan.aggregate(Map::empty(), s).1 is None,
    ensures
        ({
            let done = plan.aggregate(Map::empty(), s).0;
            let c = plan.groupby.len() + i;
            &&& forall|j: int| 0 <= j < done.len() ==> (#[trigger] done[j])[c] is Int
            &&& column_total(done, c) == s.len()
        }),
{
    Tuple::before_is_strict_total();
    lemma_aggregate(plan, s);
    let done = plan.aggregate(Map::empty(), s).0;
    let c = plan.groupby.len() + i;
    let q = in_order(plan.absorb_all(Map::empty(), s).dom());
    assert(q.no_duplicates()) by {
        assert forall|a: int, b: int| 0 <= a < q.len() && 0 <= b < q.len() && a != b implies q[a]
            != q[b] by {
            if a < b {
                assert(Tuple::before(q[a], q[b]));
            } else {
                assert(Tuple::before(q[b], q[a]));
            }
        }
    }
    assert forall|r: int| 0 <= r < s.len() implies q.contains(plan.key(#[trigger] s[r])) by {}
    lemma_membership(plan, s, q);
    assert forall|j: int| 0 <= j < done.len() implies (#[trigger] done[j])[c] == Value::Int(
        members(plan, s, q[j]).len() as int,
    ) by {
        let k = q[j];
        assert(q.contains(k));
        let r = choose|r: int| 0 <= r < s.len() && plan.key(#[trigger] s[r]) == k;
        assert(k.len() == plan.groupby.len());
        lemma_group_has_a_row(plan, s, k);
        lemma_groups(plan, s, k);
        s.lemma_filter_len(belonging(plan, k));
        lemma_count(aggregated(plan, members(plan, s, k), i));
    }
    lemma_column_total(plan, s, q, done, c);
}

proof fn lemma_column_total(plan: Plan, s: Seq<Row>, q: Seq<Row>, done: Seq<Row>, c: int)
    requires
        q.len() == done.len(),
        forall|j: int|
            0 <= j < done.len() ==> (#[trigger] done[j])[c] == Value::Int(
                members(plan, s, q[j]).len() as int,
            ),
    ensures
        column_total(done, c) == membership(plan, s, q),
    decreases q.len(),
{
    if q.len() > 0 {
        let done1 = done.drop_last();
        assert forall|j: int| 0 <= j < done1.len() implies (#[trigger] done1[j])[c] == Value::Int(
            members(plan, s, q.drop_last()[j]).len() as int,
        ) by {
            assert(done[j][c] == Value::Int(members(plan, s, q[j]).len() as int));
        }
        lemma_column_total(plan, s, q.drop_last(), done1, c);
        assert(done[done.len() - 1][c] == Value::Int(
            members(plan, s, q[q.len() - 1]).len() as int,
        ));
    }
}

/// The values of whole numbers.
pub open spec fn whole(ns: Seq<int>) -> Seq<Value> {
    ns.map_values(|n: int| Value::Int(n))
}

/// The sum of whole numbers.
pub open spec fn total(ns: Seq<int>) -> int
    decreases ns.len(),
{
    if ns.len() == 0 {
        0
    } else {
        total(ns.drop_last()) + ns.last()
    }
}

/// Whether the numbers can be added up one by one without leaving the machine integers.
pub open spec fn adds_up(ns: Seq<int>) -> bool {
    forall|n: int| 0 <= n <= ns.len() ==> fits(total(#[trigger] ns.take(n)))
}

/// A sum of whole numbers is their sum.
pub proof fn lemma_sum(ns: Seq<int>)
    requires
        ns.len() > 0,
        adds_up(ns),
    ensures
        result_of(AggOp::Sum, whole(ns)) == Ok::<Value, CrustyError>(Value::Int(total(ns))),
    decreases ns.len(),
{
    let rest = ns.drop_last();
    assert(whole(ns).drop_last() =~= whole(rest));
    assert(ns.take(ns.len() as int) =~= ns);
    if ns.len() > 1 {
        assert forall|n: int| 0 <= n <= rest.len() implies fits(total(#[trigger] rest.take(n))) by {
            assert(rest.take(n) =~= ns.take(n));
        }
        lemma_sum(rest);
    } else {
        assert(rest =~= Seq::empty());
    }
}

proof fn lemma_average_adds_up(ns: Seq<int>)
    requires
        ns.len() > 0,
        adds_up(ns),
    ensures
        accumulate(AggOp::Avg, whole(ns)) == Value::Decimal(total(ns), 1),
    decreases ns.len(),
{
    let rest = ns.drop_last();
    assert(whole(ns).drop_last() =~= whole(rest));
    assert(ns.take(ns.len() as int) =~= ns);
    if ns.len() > 1 {
        assert forall|n: int| 0 <= n <= rest.len() implies fits(total(#[trigger] rest.take(n))) by {
            assert(rest.take(n) =~= ns.take(n));
        }
        lemma_average_adds_up(rest);
        lemma_whole_number_is_reduced(total(ns));
        let t = total(rest);
        let x = ns.last();
        assert(t * 1 + x * 1 == total(ns));
        assert(value_sum(Value::Decimal(t, 1), Value::Int(x)) == fraction(
            t * 1 + x * 1,
            1int * 1int,
        ));
    } else {
        assert(rest =~= Seq::empty());
    }
}

/// An average of whole numbers is their sum divided by how many they are, exactly.
pub proof fn lemma_average(ns: Seq<int>)
    requires
        0 < ns.len() <= i64::MAX,
        adds_up(ns),
    ensures
        ({
            let (p, q) = lowest_terms(total(ns), ns.len() as int);
            &&& result_of(AggOp::Avg, whole(ns)) == Ok::<Value, CrustyError>(Value::Decimal(p, q))
            &&& q > 0
            &&& p * ns.len() == total(ns) * q
        }),
{
    lemma_average_adds_up(ns);
    lemma_count(whole(ns));
    let t = total(ns);
    let n = ns.len() as int;
    assert(ns.take(n) =~= ns);
    lemma_lowest_terms_keeps_value(t, n);
    assert(t * 1 == t);
    assert(1 * n == n);
    assert(value_quotient(Value::Decimal(t, 1), Value::Int(n)) == fraction(t * 1, 1int * n));
    let (p, q) = lowest_terms(t, n);
    assert(whole(ns).len() == n);
    assert(fits(t));
    if t >= 0 {
        assert(p >= 0) by (nonlinear_arith)
            requires
                p * n == t * q,
                t >= 0,
                n > 0,
                q > 0,
        ;
    } else {
        assert(p <= 0) by (nonlinear_arith)
            requires
                p * n == t * q,
                t < 0,
                n > 0,
                q > 0,
        ;
    }
    assert(fits(p) && fits(q));
}

/// A group that starts with text has no average.
pub proof fn lemma_average_of_text(vs: Seq<Value>)
    requires
        vs.len() > 0,
        vs[0] is Text,
    ensures
        result_of(AggOp::Avg, vs) == Err::<Value, CrustyError>(CrustyError::TypeMismatch),
{
    lemma_text_stays(vs);
}

proof fn lemma_text_stays(vs: Seq<Value>)
    requires
        vs.len() > 0,
        vs[0] is Text,
    ensures
        accumulate(AggOp::Avg, vs) == vs[0],
    decreases vs.len(),
{
    if vs.len() > 1 {
        lemma_text_stays(vs.drop_last());
    }
}

proof fn lemma_count_is_positive(vs: Seq<Value>)
    requires
        vs.len() > 0,
    ensures
        accumulate(AggOp::Count, vs) matches Value::Int(n) && n > 0,
    decreases vs.len(),
{
    if vs.len() > 1 {
        lemma_count_is_positive(vs.drop_last());
    }
}

proof fn lemma_average_stays_a_number(vs: Seq<Value>)
    requires
        vs.len() > 0,
        !(vs[0] is Text),
    ensures
        !(accumulate(AggOp::Avg, vs) is Text),
    decreases vs.len(),
{
    if vs.len() > 1 {
        lemma_average_stays_a_number(vs.drop_last());
    }
}

/// Only averages can fail: for a group that starts with text, or for a quotient that does
/// not fit. No average divides by nought.
pub proof fn lemma_what_can_fail(op: AggOp, vs: Seq<Value>)
    requires
        vs.len() > 0,
    ensures
        op != AggOp::Avg ==> result_of(op, vs) is Ok,
        result_of(op, vs) == Err::<Value, CrustyError>(CrustyError::TypeMismatch) <==> op
            == AggOp::Avg && vs[0] is Text,
        result_of(op, vs) matches Err(e) ==> e == CrustyError::TypeMismatch || e
            == CrustyError::Overflow,
{
    if op == AggOp::Avg {
        lemma_count_is_positive(vs);
        if vs[0] is Text {
            lemma_text_stays(vs);
        } else {
            lemma_average_stays_a_number(vs);
        }
    }
}

/// Where there are no rows there are no groups, and no results.
pub proof fn lemma_nothing_to_aggregate(plan: Plan)
    ensures
        plan.aggregate(Map::empty(), Seq::empty()) == (Seq::<Row>::empty(), None::<CrustyError>),
{
    let groups = plan.absorb_all(Map::empty(), Seq::empty());
    let none = Seq::<Row>::empty();
    assert(none.to_set() =~= groups.dom());
    assert(lists(none, groups.dom()));
    lemma_listing_is_unique(none, in_order(groups.dom()), groups.dom());
}

/// Opening an aggregation of tuples out of memory gives the rows that aggregating them
/// comes to, or fails where that does; rewinding gives the same again. It may be opened
/// exactly if its expressions have a value on every tuple.
pub proof fn lemma_aggregate_of_tuples(a: Aggregate<TupleIterator>)
    requires
        a.inv(),
        !a.is_open(),
        a.groups() == Map::<Row, Row>::empty(),
        !a.child().is_open(),
    ensures
        a.on_open() == match a.plan().aggregate(Map::empty(), a.child().all()) {
            (done, None) => Ok::<Feed, CrustyError>(feed_of(done)),
            (_, Some(e)) => Err(e),
        },
        a.on_rewind() == a.on_open(),
        a.openable() <==> forall|i: int|
            0 <= i < a.child().all().len() ==> a.plan().evaluates(#[trigger] a.child().all()[i]),
        a.rewindable(),
{
    let all = a.child().all();
    a.lemma_inv();
    a.child().lemma_inv();
    assert(all.skip(0) =~= all);
    lemma_read_feed_of(all);
}

/// An aggregation over a child that starts over when it is reopened starts over itself: after
/// a close it gives what it gave when it was new, each time.
pub proof fn lemma_aggregate_starts_over<C: OpIterator>(a: Aggregate<C>, n: nat)
    requires
        !a.is_open(),
        a.groups() == Map::<Row, Row>::empty(),
        !a.child().is_open(),
        a.child().outlook(n).opened == a.child().on_open(),
        a.child().outlook(n).openable == a.child().openable(),
    ensures
        a.outlook(n).opened == a.on_open(),
        a.outlook(n).openable == a.openable(),
        a.outlook(n).rewound == a.on_rewind(),
        a.outlook(n).rewindable == a.rewindable(),
{
}

/// An aggregation of tuples out of memory, wherever it stands, gives when it has been closed
/// and is opened again the rows that aggregating all the tuples comes to, or fails where that
/// does; rewinding then gives the same again.
pub proof fn lemma_aggregate_of_tuples_starts_over(a: Aggregate<TupleIterator>, n: nat)
    ensures
        a.outlook(n).opened == match a.plan().aggregate(Map::empty(), a.child().all()) {
            (done, None) => Ok::<Feed, CrustyError>(feed_of(done)),
            (_, Some(e)) => Err(e),
        },
        a.outlook(n).rewound == a.outlook(n).opened,
        a.outlook(n).openable <==> forall|i: int|
            0 <= i < a.child().all().len() ==> a.plan().evaluates(#[trigger] a.child().all()[i]),
        a.outlook(n).rewindable,
{
    lemma_read_feed_of(a.child().all());
}

/// An aggregation that is rewound gives again what it gave when it was opened, whatever its
/// child would do: all that it gives is held in it.
pub proof fn lemma_aggregate_rewound<C: OpIterator>(a: Aggregate<C>)
    requires
        !a.is_open(),
    ensures
        a.on_rewind() == a.on_open(),
        a.rewindable(),
{
}

/// A join over children that start over when they are reopened starts over itself: after a
/// close it gives what it gave when it was new, each time.
pub proof fn lemma_join_starts_over<L: OpIterator, R: OpIterator>(j: HashEqJoin<L, R>, n: nat)
    requires
        !j.is_open(),
        !j.left().is_open(),
        !j.right().is_open(),
        j.left().outlook(n).opened == j.left().on_open(),
        j.left().outlook(n).openable == j.left().openable(),
        j.right().outlook(n).opened == j.right().on_open(),
        j.right().outlook(n).openable == j.right().openable(),
    ensures
        j.outlook(n).opened == j.on_open(),
        j.outlook(n).openable == j.openable(),
        j.on_open() is Ok && j.left().outlook(n).rewound == j.left().on_rewind()
            ==> j.outlook(n).rewound == j.on_rewind(),
        j.left().outlook(n).rewound == j.left().on_rewind() && j.left().outlook(n).rewindable
            == j.left().rewindable() ==> j.outlook(n).rewindable == j.rewindable(),
{
}

/// Left rows joined with right rows: each left row, in turn, with each right row that has
/// the same value, in turn.
pub open spec fn join_rows(
    lefts: Seq<Row>,
    rights: Seq<Row>,
    left_expr: ByteCodeExpr,
    right_expr: ByteCodeExpr,
) -> Seq<Row>
    decreases lefts.len(),
{
    if lefts.len() == 0 {
        Seq::empty()
    } else {
        let left = lefts[0];
        partners(rights, right_expr, left_expr.value(left)).map_values(
            |right: Row| left + right,
        ) + join_rows(lefts.drop_first(), rights, left_expr, right_expr)
    }
}

/// Whether an expression has a value on every one of some rows.
pub open spec fn evaluates_on_all(expr: ByteCodeExpr, s: Seq<Row>) -> bool {
    forall|i: int| 0 <= i < s.len() ==> expr.evaluates(#[trigger] s[i])
}

/// Joining a feed of left rows with the table of the right rows joins the rows, where the left
/// expression has a value on every left row.
pub proof fn lemma_join_is_of_rows(
    lefts: Seq<Row>,
    rights: Seq<Row>,
    left_expr: ByteCodeExpr,
    right_expr: ByteCodeExpr,
)
    requires
        evaluates_on_all(left_expr, lefts),
    ensures
        joined(feed_of(lefts), table_of(rights, right_expr), left_expr) == feed_of(
            join_rows(lefts, rights, left_expr, right_expr),
        ),
    decreases lefts.len(),
{
    let f = feed_of(lefts);
    let table = table_of(rights, right_expr);
    if lefts.len() > 0 {
        let rest = lefts.drop_first();
        lemma_join_is_of_rows(rest, rights, left_expr, right_expr);
        lemma_join_of_one_more(lefts, rights, left_expr, right_expr);
        assert(feed_of(join_rows(lefts, rights, left_expr, right_expr)) =~= joined(
            f,
            table,
            left_expr,
        ));
    } else {
        assert(joined(f, table, left_expr) =~= feed_of(
            join_rows(lefts, rights, left_expr, right_expr),
        ));
    }
}

/// A join whose left expression has no value on some left row gives the rows that the left
/// rows before it join to, and then must not be read on.
pub proof fn lemma_join_ends_at_a_row_without_value(
    lefts: Seq<Row>,
    rights: Seq<Row>,
    left_expr: ByteCodeExpr,
    right_expr: ByteCodeExpr,
    k: int,
)
    requires
        0 <= k < lefts.len(),
        evaluates_on_all(left_expr, lefts.take(k)),
        !left_expr.evaluates(lefts[k]),
    ensures
        joined(feed_of(lefts), table_of(rights, right_expr), left_expr) == feed_of(
            join_rows(lefts.take(k), rights, left_expr, right_expr),
        ).push(Outcome::Stuck),
    decreases lefts.len(),
{
    let f = feed_of(lefts);
    let table = table_of(rights, right_expr);
    let before = join_rows(lefts.take(k), rights, left_expr, right_expr);
    if k == 0 {
        assert(joined(f, table, left_expr) =~= feed_of(before).push(Outcome::Stuck));
    } else {
        let rest = lefts.drop_first();
        assert(rest.take(k - 1) =~= lefts.take(k).drop_first());
        assert(lefts.take(k)[0] == lefts[0]);
        lemma_join_ends_at_a_row_without_value(rest, rights, left_expr, right_expr, k - 1);
        lemma_join_of_one_more(lefts, rights, left_expr, right_expr);
        lemma_join_of_one_more(lefts.take(k), rights, left_expr, right_expr);
        assert(joined(f, table, left_expr) =~= feed_of(before).push(Outcome::Stuck));
    }
}

/// The first left row of a join and the rest.
proof fn lemma_join_of_one_more(
    lefts: Seq<Row>,
    rights: Seq<Row>,
    left_expr: ByteCodeExpr,
    right_expr: ByteCodeExpr,
)
    requires
        lefts.len() > 0,
        left_expr.evaluates(lefts[0]),
    ensures
        ({
            let table = table_of(rights, right_expr);
            let found = partners(rights, right_expr, left_expr.value(lefts[0]));
            let rest = lefts.drop_first();
            &&& joined(feed_of(lefts), table, left_expr) == matched(lefts[0], found) + joined(
                feed_of(rest),
                table,
                left_expr,
            )
            &&& feed_of(join_rows(lefts, rights, left_expr, right_expr)) == matched(
                lefts[0],
                found,
            ) + feed_of(join_rows(rest, rights, left_expr, right_expr))
        }),
{
    let f = feed_of(lefts);
    let table = table_of(rights, right_expr);
    let left = lefts[0];
    let rest = lefts.drop_first();
    assert(f.drop_first() =~= feed_of(rest));
    let k = left_expr.value(left);
    let found = partners(rights, right_expr, k);
    assert(look_up(table, k) =~= found);
    let first = found.map_values(|right: Row| left + right);
    assert(matched(left, found) =~= feed_of(first));
    assert(feed_of(first + join_rows(rest, rights, left_expr, right_expr)) =~= feed_of(first)
        + feed_of(join_rows(rest, rights, left_expr, right_expr)));
}

/// A row is in the join exactly if it is a left row followed by a right row that has the
/// same value.
pub proof fn lemma_join_has_all_pairs(
    lefts: Seq<Row>,
    rights: Seq<Row>,
    left_expr: ByteCodeExpr,
    right_expr: ByteCodeExpr,
    x: Row,
)
    ensures
        join_rows(lefts, rights, left_expr, right_expr).contains(x) <==> exists|i: int, j: int|
            0 <= i < lefts.len() && 0 <= j < rights.len() && left_expr.value(#[trigger] lefts[i])
                == right_expr.value(#[trigger] rights[j]) && x == lefts[i] + rights[j],
    decreases lefts.len(),
{
    let all = join_rows(lefts, rights, left_expr, right_expr);
    if lefts.len() > 0 {
        let left = lefts[0];
        let rest = lefts.drop_first();
        let k = left_expr.value(left);
        let found = partners(rights, right_expr, k);
        let first = found.map_values(|right: Row| left + right);
        let later = join_rows(rest, rights, left_expr, right_expr);
        lemma_join_has_all_pairs(rest, rights, left_expr, right_expr, x);
        let pred = having(right_expr, k);
        assert(all =~= first + later);
        if all.contains(x) {
            let n = all.index_of(x);
            if n < first.len() {
                rights.lemma_filter_pred(pred, n);
                assert(found.contains(found[n]));
                rights.lemma_filter_contains_rev(pred, found[n]);
                let j = rights.index_of(found[n]);
                assert(left_expr.value(lefts[0]) == right_expr.value(rights[j]) && x == lefts[0]
                    + rights[j]);
            } else {
                assert(later[n - first.len()] == x);
                assert(later.contains(x));
                let (i, j) = choose|i: int, j: int|
                    0 <= i < rest.len() && 0 <= j < rights.len() && left_expr.value(
                        #[trigger] rest[i],
                    ) == right_expr.value(#[trigger] rights[j]) && x == rest[i] + rights[j];
                assert(lefts[i + 1] == rest[i]);
                assert(left_expr.value(lefts[i + 1]) == right_expr.value(rights[j]));
            }
        }
        if exists|i: int, j: int|
            0 <= i < lefts.len() && 0 <= j < rights.len() && left_expr.value(#[trigger] lefts[i])
                == right_expr.value(#[trigger] rights[j]) && x == lefts[i] + rights[j] {
            let (i, j) = choose|i: int, j: int|
                0 <= i < lefts.len() && 0 <= j < rights.len() && left_expr.value(
                    #[trigger] lefts[i],
                ) == right_expr.value(#[trigger] rights[j]) && x == lefts[i] + rights[j];
            if i == 0 {
                assert(pred(rights[j]));
                rights.lemma_filter_contains(pred, j);
                let n = found.index_of(rights[j]);
                assert(first[n] == x);
                assert(all[n] == x);
            } else {
                assert(rest[i - 1] == lefts[i]);
                assert(left_expr.value(rest[i - 1]) == right_expr.value(rights[j]));
                assert(later.contains(x));
                let n = later.index_of(x);
                assert(all[first.len() + n] == x);
            }
        }
    }
}

/// A join over a left child that, rewound, gives again what it gave when it was opened gives,
/// rewound, again what it gave when it was opened.
pub proof fn lemma_join_rewound<L: OpIterator, R: OpIterator>(j: HashEqJoin<L, R>)
    requires
        !j.is_open(),
        j.on_open() is Ok,
        j.left().on_rewind() == j.left().on_open(),
    ensures
        j.on_rewind() == j.on_open(),
{
}

/// Opening a join of tuples out of memory gives the left tuples joined with the right ones;
/// rewinding gives the same again. Where the left expression has a value on every left tuple
/// these are the rows of the join. It may be opened exactly if the right expression has a
/// value on every right tuple and the left expression on the first left tuple.
pub proof fn lemma_join_of_tuples(j: HashEqJoin<TupleIterator, TupleIterator>)
    requires
        j.inv(),
        !j.is_open(),
        !j.left().is_open(),
        !j.right().is_open(),
    ensures
        j.on_open() == Ok::<Feed, CrustyError>(
            joined(
                feed_of(j.left().all()),
                table_of(j.right().all(), j.right_expr()),
                j.left_expr(),
            ),
        ),
        j.on_rewind() == j.on_open(),
        evaluates_on_all(j.left_expr(), j.left().all()) ==> j.on_open() == Ok::<
            Feed,
            CrustyError,
        >(feed_of(join_rows(j.left().all(), j.right().all(), j.left_expr(), j.right_expr()))),
        j.openable() <==> evaluates_on_all(j.right_expr(), j.right().all()) && (
        j.left().all().len() > 0 ==> j.left_expr().evaluates(j.left().all()[0])),
        j.rewindable() <==> (j.left().all().len() > 0 ==> j.left_expr().evaluates(
            j.left().all()[0],
        )),
{
    let lefts = j.left().all();
    let rights = j.right().all();
    j.lemma_inv();
    j.left().lemma_inv();
    j.right().lemma_inv();
    assert(lefts.skip(0) =~= lefts);
    assert(rights.skip(0) =~= rights);
    lemma_read_feed_of(lefts);
    lemma_read_feed_of(rights);
    if evaluates_on_all(j.left_expr(), lefts) {
        lemma_join_is_of_rows(lefts, rights, j.left_expr(), j.right_expr());
    }
}

/// A join of tuples out of memory, wherever it stands, gives when it has been closed and is
/// opened again all that it gave when it was new, from the first; rewinding then gives the
/// same again.
pub proof fn lemma_join_of_tuples_starts_over(
    j: HashEqJoin<TupleIterator, TupleIterator>,
    n: nat,
)
    ensures
        j.outlook(n).opened == Ok::<Feed, CrustyError>(
            joined(
                feed_of(j.left().all()),
                table_of(j.right().all(), j.right_expr()),
                j.left_expr(),
            ),
        ),
        j.outlook(n).rewound == j.outlook(n).opened,
        evaluates_on_all(j.left_expr(), j.left().all()) ==> j.outlook(n).opened == Ok::<
            Feed,
            CrustyError,
        >(feed_of(join_rows(j.left().all(), j.right().all(), j.left_expr(), j.right_expr()))),
        j.outlook(n).openable <==> evaluates_on_all(j.right_expr(), j.right().all()) && (
        j.left().all().len() > 0 ==> j.left_expr().evaluates(j.left().all()[0])),
        j.outlook(n).rewindable <==> (j.left().all().len() > 0 ==> j.left_expr().evaluates(
            j.left().all()[0],
        )),
{
    let lefts = j.left().all();
    let rights = j.right().all();
    lemma_read_feed_of(lefts);
    lemma_read_feed_of(rights);
    if evaluates_on_all(j.left_expr(), lefts) {
        lemma_join_is_of_rows(lefts, rights, j.left_expr(), j.right_expr());
    }
}

} // verus!
