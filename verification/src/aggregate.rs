//! Aggregation: one row for each group of a child's tuples.
use vstd::prelude::*;
use crate::bytecode_expr::ByteCodeExpr;
use crate::decimal::Decimal;
use crate::error::CrustyError;
use crate::field::{value_before, value_quotient, value_sum, Field, Value};
use crate::opiterator::{
    after_reading, feed_of, read, readable, Feed, OpIterator, Outcome, Outlook,
};
use crate::order::{Order, SortKey};
use crate::sorted_map::{ascending, keys, lemma_ascending_keys_differ, listed, SortedMap};
use crate::tuple::{clone_fields, rows, values, Row, TableSchema, Tuple};

verus! {

/// The aggregation operations.
#[derive(Clone, Copy, Debug, PartialEq, Eq, Structural)]
pub enum AggOp {
    Avg,
    Count,
    Max,
    Min,
    Sum,
}

/// The accumulators that an operation needs: an average has a sum and, after it, a count.
pub open spec fn slots_of(op: AggOp) -> Seq<AggOp> {
    if op == AggOp::Avg {
        seq![AggOp::Avg, AggOp::Count]
    } else {
        seq![op]
    }
}

/// The accumulators that a list of operations needs.
pub open spec fn expand(ops: Seq<AggOp>) -> Seq<AggOp>
    decreases ops.len(),
{
    if ops.len() == 0 {
        Seq::empty()
    } else {
        expand(ops.drop_last()) + slots_of(ops.last())
    }
}

/// The first accumulator of the operation at place `i`.
pub open spec fn slot(ops: Seq<AggOp>, i: int) -> int {
    expand(ops.take(i)).len() as int
}

/// What each accumulator takes in, given what each operation takes in.
pub open spec fn inputs(ops: Seq<AggOp>, vals: Row) -> Row
    decreases ops.len(),
{
    if ops.len() == 0 {
        Seq::empty()
    } else {
        inputs(ops.drop_last(), vals.drop_last()) + if ops.last() == AggOp::Avg {
            seq![vals.last(), vals.last()]
        } else {
            seq![vals.last()]
        }
    }
}

/// The accumulator after the first value of a group. An average of whole numbers is summed
/// up as a decimal.
pub open spec fn seed(op: AggOp, v: Value) -> Value {
    match op {
        AggOp::Count => Value::Int(1),
        AggOp::Avg => match v {
            Value::Int(i) => Value::Decimal(i, 1),
            _ => v,
        },
        _ => v,
    }
}

/// The accumulator `acc` after one more value, if the two can be merged.
pub open spec fn merged(op: AggOp, v: Value, acc: Value) -> Result<Value, CrustyError> {
    match op {
        AggOp::Count => value_sum(acc, Value::Int(1)),
        AggOp::Max => Ok(
            if value_before(acc, v) {
                v
            } else {
                acc
            },
        ),
        AggOp::Min => Ok(
            if value_before(v, acc) {
                v
            } else {
                acc
            },
        ),
        AggOp::Sum => value_sum(acc, v),
        AggOp::Avg => value_sum(acc, v),
    }
}

/// The accumulator `acc` after one more value; a value that cannot be merged leaves it as
/// it was.
pub open spec fn absorbed(op: AggOp, v: Value, acc: Value) -> Value {
    match merged(op, v, acc) {
        Ok(x) => x,
        Err(_) => acc,
    }
}

/// What an aggregation computes: the expressions whose values make a group, the expressions
/// whose values are aggregated, and the operation for each of these.
pub struct Plan {
    pub groupby: Seq<ByteCodeExpr>,
    pub aggs: Seq<ByteCodeExpr>,
    pub ops: Seq<AggOp>,
}

/// Whether all expressions have a value on a row.
pub open spec fn all_evaluate(exprs: Seq<ByteCodeExpr>, row: Row) -> bool {
    forall|i: int| 0 <= i < exprs.len() ==> (#[trigger] exprs[i]).evaluates(row)
}

/// The values of expressions on a row.
pub open spec fn all_values(exprs: Seq<ByteCodeExpr>, row: Row) -> Row {
    Seq::new(exprs.len(), |i: int| exprs[i].value(row))
}

impl Plan {
    /// Whether all expressions of the plan have a value on a row.
    pub open spec fn evaluates(self, row: Row) -> bool {
        all_evaluate(self.groupby, row) && all_evaluate(self.aggs, row)
    }

    /// The group that a row belongs to.
    pub open spec fn key(self, row: Row) -> Row {
        all_values(self.groupby, row)
    }

    /// What each accumulator of its group takes in of a row.
    pub open spec fn inputs(self, row: Row) -> Row {
        inputs(self.ops, all_values(self.aggs, row))
    }

    /// The groups, each with its accumulators, after one more row.
    pub open spec fn absorb(self, groups: Map<Row, Row>, row: Row) -> Map<Row, Row> {
        let key = self.key(row);
        let slots = expand(self.ops);
        let accs = if groups.contains_key(key) {
            Seq::new(
                slots.len(),
                |i: int| absorbed(slots[i], self.inputs(row)[i], groups[key][i]),
            )
        } else {
            Seq::new(slots.len(), |i: int| seed(slots[i], self.inputs(row)[i]))
        };
        groups.insert(key, accs)
    }

    /// The groups after a run of rows.
    pub open spec fn absorb_all(self, groups: Map<Row, Row>, s: Seq<Row>) -> Map<Row, Row>
        decreases s.len(),
    {
        if s.len() == 0 {
            groups
        } else {
            self.absorb(self.absorb_all(groups, s.drop_last()), s.last())
        }
    }

    /// The result of the operation at place `i`: an average is its sum divided by its
    /// count, any other operation has its result in its accumulator.
    pub open spec fn result(self, accs: Row, i: int) -> Result<Value, CrustyError> {
        let j = slot(self.ops, i);
        if self.ops[i] == AggOp::Avg {
            value_quotient(accs[j], accs[j + 1])
        } else {
            Ok(accs[j])
        }
    }

    /// The results of the first `n` operations, or the first error among them.
    pub open spec fn results_upto(self, accs: Row, n: int) -> Result<Row, CrustyError>
        decreases n,
    {
        if n <= 0 {
            Ok(Seq::empty())
        } else {
            match self.results_upto(accs, n - 1) {
                Err(e) => Err(e),
                Ok(r) => match self.result(accs, n - 1) {
                    Err(e) => Err(e),
                    Ok(v) => Ok(r.push(v)),
                },
            }
        }
    }

    /// The results of all operations, or the first error among them.
    pub open spec fn results(self, accs: Row) -> Result<Row, CrustyError> {
        self.results_upto(accs, self.ops.len() as int)
    }

    /// The rows of the groups `q`: each is what makes the group, followed by the results
    /// of the operations. They end at the first group whose results are an error.
    pub open spec fn finish(self, groups: Map<Row, Row>, q: Seq<Row>) -> (
        Seq<Row>,
        Option<CrustyError>,
    )
        decreases q.len(),
    {
        if q.len() == 0 {
            (Seq::empty(), None)
        } else {
            let (done, error) = self.finish(groups, q.drop_last());
            if error is Some {
                (done, error)
            } else {
                match self.results(groups[q.last()]) {
                    Err(e) => (done, Some(e)),
                    Ok(r) => (done.push(q.last() + r), None),
                }
            }
        }
    }

    /// The rows of all groups, in the order of what makes a group.
    pub open spec fn finish_all(self, groups: Map<Row, Row>) -> (
        Seq<Row>,
        Option<CrustyError>,
    ) {
        self.finish(groups, in_order(groups.dom()))
    }

    /// What aggregating a run of rows comes to, with `groups` to start from.
    pub open spec fn aggregate(self, groups: Map<Row, Row>, s: Seq<Row>) -> (
        Seq<Row>,
        Option<CrustyError>,
    ) {
        self.finish_all(self.absorb_all(groups, s))
    }

    /// What opening an aggregation comes to, with `groups` to start from, where opening its
    /// child comes to `child`.
    pub open spec fn opened(
        self,
        groups: Map<Row, Row>,
        child: Result<Feed, CrustyError>,
    ) -> Result<Feed, CrustyError> {
        match child {
            Err(e) => Err(e),
            Ok(f) => match read(f) {
                (_, Some(e)) => Err(e),
                (s, None) => match self.aggregate(groups, s) {
                    (_, Some(e)) => Err(e),
                    (done, None) => Ok(feed_of(done)),
                },
            },
        }
    }

    /// Whether a feed may be read until it ends or fails, and all expressions of the plan have
    /// a value on the rows that are then read.
    pub open spec fn evaluates_on(self, f: Feed) -> bool {
        &&& readable(f)
        &&& forall|i: int| 0 <= i < read(f).0.len() ==> self.evaluates(#[trigger] read(f).0[i])
    }
}

/// Whether `q` lists the rows of `s`, each once, in their order.
pub open spec fn lists(q: Seq<Row>, s: Set<Row>) -> bool {
    &&& ascending::<Tuple>(q)
    &&& q.to_set() == s
}

/// The rows of a set in their order.
pub open spec fn in_order(s: Set<Row>) -> Seq<Row> {
    choose|q: Seq<Row>| lists(q, s)
}

/// A set of rows is listed in one way only.
pub proof fn lemma_listing_is_unique(p: Seq<Row>, q: Seq<Row>, s: Set<Row>)
    requires
        lists(p, s),
        lists(q, s),
    ensures
        p == q,
    decreases p.len(),
{
    Tuple::before_is_strict_total();
    if p.len() == 0 {
        if q.len() > 0 {
            assert(q.to_set().contains(q[0]));
            assert(p.contains(q[0]));
        }
        assert(p =~= q);
    } else {
        assert(p.to_set().contains(p.last()));
        assert(q.contains(p.last()));
        let a = p.last();
        let b = q.last();
        let j = q.index_of(a);
        assert(q[j] == a);
        assert(q.to_set().contains(b));
        assert(p.contains(b));
        let i = p.index_of(b);
        assert(p[i] == b);
        if i < p.len() - 1 {
            assert(Tuple::before(p[i], p[p.len() - 1]));
            if j < q.len() - 1 {
                assert(Tuple::before(q[j], q[q.len() - 1]));
                assert(Tuple::before(a, a));
            }
        }
        assert(a == b);
        let p1 = p.drop_last();
        let q1 = q.drop_last();
        let s1 = s.remove(a);
        lemma_listing_drops_last(p, s);
        lemma_listing_drops_last(q, s);
        lemma_listing_is_unique(p1, q1, s1);
        assert(p =~= p1.push(a));
        assert(q =~= q1.push(a));
    }
}

proof fn lemma_listing_drops_last(p: Seq<Row>, s: Set<Row>)
    requires
        lists(p, s),
        p.len() > 0,
    ensures
        lists(p.drop_last(), s.remove(p.last())),
{
    Tuple::before_is_strict_total();
    let a = p.last();
    let p1 = p.drop_last();
    assert forall|x: Row| p1.to_set().contains(x) == s.remove(a).contains(x) by {
        if p1.contains(x) {
            let i = p1.index_of(x);
            assert(p[i] == x);
            assert(Tuple::before(p[i], p[p.len() - 1]));
            assert(p.to_set().contains(x));
        }
        if s.contains(x) && x != a {
            assert(p.to_set().contains(x));
            let i = p.index_of(x);
            assert(p1[i] == x);
        }
    }
    assert(p1.to_set() =~= s.remove(a));
    assert forall|i: int, j: int| 0 <= i < j < p1.len() implies Tuple::before(
        #[trigger] p1[i],
        #[trigger] p1[j],
    ) by {
        assert(Tuple::before(p[i], p[j]));
    }
}

/// The accumulators of the first operations are the first accumulators.
pub proof fn lemma_slots(ops: Seq<AggOp>, i: int)
    requires
        0 <= i < ops.len(),
    ensures
        slot(ops, i + 1) == slot(ops, i) + slots_of(ops[i]).len(),
        slot(ops, i + 1) <= expand(ops).len(),
        expand(ops)[slot(ops, i)] == ops[i],
        ops[i] == AggOp::Avg ==> expand(ops)[slot(ops, i) + 1] == AggOp::Count,
        slot(ops, ops.len() as int) == expand(ops).len(),
        slot(ops, 0) == 0,
    decreases ops.len(),
{
    assert(ops.take(ops.len() as int) =~= ops);
    assert(ops.take(i + 1).drop_last() =~= ops.take(i));
    assert(ops.take(i + 1).last() == ops[i]);
    if i < ops.len() - 1 {
        let rest = ops.drop_last();
        lemma_slots(rest, i);
        assert(rest.take(i) =~= ops.take(i));
        assert(rest.take(i + 1) =~= ops.take(i + 1));
    } else {
        assert(ops.drop_last() =~= ops.take(i));
    }
}

/// There is a value for each accumulator.
pub proof fn lemma_inputs_len(ops: Seq<AggOp>, vals: Row)
    requires
        ops.len() == vals.len(),
    ensures
        inputs(ops, vals).len() == expand(ops).len(),
    decreases ops.len(),
{
    if ops.len() > 0 {
        lemma_inputs_len(ops.drop_last(), vals.drop_last());
    }
}

/// The values of expressions on a tuple.
fn evaluate(exprs: &Vec<ByteCodeExpr>, tuple: &Tuple) -> (r: Vec<Field>)
    requires
        all_evaluate(exprs@, tuple@),
    ensures
        values(r@) == all_values(exprs@, tuple@),
{
    let mut r: Vec<Field> = Vec::new();
    let mut i: usize = 0;
    while i < exprs.len()
        invariant
            i <= exprs.len(),
            r@.len() == i,
            all_evaluate(exprs@, tuple@),
            forall|j: int| 0 <= j < i ==> (#[trigger] r@[j])@ == exprs@[j].value(tuple@),
        decreases exprs.len() - i,
    {
        r.push(exprs[i].eval(tuple));
        i = i + 1;
    }
    assert(values(r@) =~= all_values(exprs@, tuple@));
    r
}

/// The aggregate operator.
pub struct Aggregate<C: OpIterator> {
    /// Output schema: the columns that make a group, then the aggregated columns.
    schema: TableSchema,
    /// Group by fields.
    groupby_expr: Vec<ByteCodeExpr>,
    /// Aggregated fields.
    agg_expr: Vec<ByteCodeExpr>,
    /// Aggregation operations.
    ops: Vec<AggOp>,
    /// Child operator to get the data from.
    child: C,
    /// Whether the operator will be rewound.
    will_rewind: bool,
    open: bool,
    /// The groups, each with its accumulators.
    map: SortedMap<Tuple, Vec<Field>>,
    /// The operation of each accumulator.
    ops_other: Vec<AggOp>,
    /// The rows to give.
    results: Vec<Tuple>,
    /// How many of them have been given.
    index: usize,
}

impl<C: OpIterator> Aggregate<C> {
    /// What the operator computes.
    pub closed spec fn plan(&self) -> Plan {
        Plan { groupby: self.groupby_expr@, aggs: self.agg_expr@, ops: self.ops@ }
    }

    /// The operator that the data comes from.
    pub closed spec fn child(&self) -> C {
        self.child
    }

    /// The groups that have been built, each with its accumulators.
    pub closed spec fn groups(&self) -> Map<Row, Row> {
        self.map@.map_values(|v: Vec<Field>| values(v@))
    }

    /// The rows that the groups came to.
    pub closed spec fn results(&self) -> Seq<Row> {
        rows(self.results@)
    }

    /// How many of them have been given.
    pub closed spec fn position(&self) -> int {
        self.index as int
    }

    /// What the invariant says of the child, the plan and what has been computed.
    pub proof fn lemma_inv(&self)
        requires
            self.inv(),
        ensures
            self.child().inv(),
            self.plan().ops.len() == self.plan().aggs.len(),
            forall|k: Row| #[trigger]
                self.groups().contains_key(k) ==> self.groups()[k].len() == expand(
                    self.plan().ops,
                ).len(),
            0 <= self.position() <= self.results().len(),
            !self.is_open() ==> self.results().len() == 0,
    {
    }

    /// An aggregate operator over `child`. It is closed.
    pub fn new(
        groupby_expr: Vec<ByteCodeExpr>,
        agg_expr: Vec<ByteCodeExpr>,
        ops: Vec<AggOp>,
        schema: TableSchema,
        child: C,
    ) -> (r: Self)
        requires
            ops@.len() == agg_expr@.len(),
            child.inv(),
        ensures
            r.inv(),
            r.plan() == (Plan { groupby: groupby_expr@, aggs: agg_expr@, ops: ops@ }),
            r.schema() == schema,
            r.child() == child,
            !r.is_open(),
            !r.will_rewind(),
            r.groups() == Map::<Row, Row>::empty(),
            r.results() == Seq::<Row>::empty(),
            r.position() == 0,
    {
        let r = Aggregate {
            schema,
            groupby_expr,
            agg_expr,
            ops,
            child,
            will_rewind: false,
            open: false,
            map: SortedMap::new(),
            ops_other: Vec::new(),
            results: Vec::new(),
            index: 0,
        };
        assert(r.groups() =~= Map::<Row, Row>::empty());
        assert(r.results() =~= Seq::<Row>::empty());
        r
    }

    /// Merges a value into an accumulator. Where that fails the accumulator keeps what it
    /// had.
    pub fn merge_fields(op: AggOp, field_val: &Field, acc: &mut Field) -> (r: Result<
        (),
        CrustyError,
    >)
        ensures
            match merged(op, field_val@, old(acc)@) {
                Ok(v) => r is Ok && final(acc)@ == v,
                Err(e) => r == Err::<(), CrustyError>(e) && *final(acc) == *old(acc),
            },
    {
        let sum = match op {
            AggOp::Count => acc.plus(&Field::Int(1)),
            AggOp::Max => match acc.compare(field_val) {
                Order::Less => Ok(field_val.clone()),
                _ => {
                    return Ok(());
                },
            },
            AggOp::Min => match field_val.compare(acc) {
                Order::Less => Ok(field_val.clone()),
                _ => {
                    return Ok(());
                },
            },
            AggOp::Sum => acc.plus(field_val),
            AggOp::Avg => acc.plus(field_val),
        };
        match sum {
            Ok(v) => {
                *acc = v;
                Ok(())
            },
            Err(e) => Err(e),
        }
    }

    /// The accumulator that a group starts with.
    pub fn place_fields(op: AggOp, field_val: &Field) -> (r: Field)
        ensures
            r@ == seed(op, field_val@),
    {
        match op {
            AggOp::Count => Field::Int(1),
            AggOp::Avg => match field_val {
                Field::Int(v) => Field::Decimal(Decimal::from_int(*v)),
                _ => field_val.clone(),
            },
            _ => field_val.clone(),
        }
    }

    /// Merges a value into each accumulator of a group.
    fn merge_all(slots: &Vec<AggOp>, vals: &Vec<Field>, accs: &mut Vec<Field>)
        requires
            slots@.len() == vals@.len(),
            slots@.len() == old(accs)@.len(),
        ensures
            values(final(accs)@) == Seq::new(
                slots@.len(),
                |i: int| absorbed(slots@[i], values(vals@)[i], values(old(accs)@)[i]),
            ),
    {
        let ghost before = accs@;
        let mut i: usize = 0;
        while i < accs.len()
            invariant
                i <= slots@.len(),
                slots@.len() == vals@.len(),
                slots@.len() == accs@.len(),
                slots@.len() == before.len(),
                forall|j: int|
                    0 <= j < i ==> (#[trigger] accs@[j])@ == absorbed(
                        slots@[j],
                        vals@[j]@,
                        before[j]@,
                    ),
                forall|j: int| i <= j < accs@.len() ==> #[trigger] accs@[j] == before[j],
            decreases accs@.len() - i,
        {
            let _ = Self::merge_fields(slots[i], &vals[i], &mut accs[i]);
            i = i + 1;
        }
        assert(values(accs@) =~= Seq::new(
            slots@.len(),
            |i: int| absorbed(slots@[i], values(vals@)[i], values(before)[i]),
        ));
    }

    /// The accumulators of a new group.
    fn place_all(slots: &Vec<AggOp>, vals: &Vec<Field>) -> (r: Vec<Field>)
        requires
            slots@.len() == vals@.len(),
        ensures
            values(r@) == Seq::new(slots@.len(), |i: int| seed(slots@[i], values(vals@)[i])),
    {
        let mut r: Vec<Field> = Vec::new();
        let mut i: usize = 0;
        while i < vals.len()
            invariant
                i <= slots@.len(),
                slots@.len() == vals@.len(),
                r@.len() == i,
                forall|j: int| 0 <= j < i ==> (#[trigger] r@[j])@ == seed(slots@[j], vals@[j]@),
            decreases vals@.len() - i,
        {
            r.push(Self::place_fields(slots[i], &vals[i]));
            i = i + 1;
        }
        assert(values(r@) =~= Seq::new(
            slots@.len(),
            |i: int| seed(slots@[i], values(vals@)[i]),
        ));
        r
    }

    /// What each accumulator takes in of a tuple.
    fn agg_fields(&self, tuple: &Tuple) -> (r: Vec<Field>)
        requires
            self.inv(),
            self.plan().evaluates(tuple@),
        ensures
            values(r@) == self.plan().inputs(tuple@),
    {
        let ghost all = all_values(self.agg_expr@, tuple@);
        let mut r: Vec<Field> = Vec::new();
        let mut i: usize = 0;
        assert(values(r@) =~= inputs(self.ops@.take(0), all.take(0)));
        while i < self.agg_expr.len()
            invariant
                i <= self.agg_expr@.len(),
                self.agg_expr@.len() == self.ops@.len(),
                all == all_values(self.agg_expr@, tuple@),
                all_evaluate(self.agg_expr@, tuple@),
                values(r@) == inputs(self.ops@.take(i as int), all.take(i as int)),
            decreases self.agg_expr@.len() - i,
        {
            let field = self.agg_expr[i].eval(tuple);
            let op = self.ops[i];
            let ghost before = values(r@);
            let ghost v = field@;
            proof {
                let ops1 = self.ops@.take(i + 1);
                assert(ops1.drop_last() =~= self.ops@.take(i as int));
                assert(all.take(i + 1).drop_last() =~= all.take(i as int));
                assert(all.take(i + 1).last() == v);
            }
            if op == AggOp::Avg {
                r.push(field.clone());
                r.push(field);
                assert(values(r@) =~= before + seq![v, v]);
            } else {
                r.push(field);
                assert(values(r@) =~= before + seq![v]);
            }
            i = i + 1;
        }
        assert(self.ops@.take(i as int) =~= self.ops@);
        assert(all.take(i as int) =~= all);
        r
    }

    /// Takes a tuple into its group: a group that is there merges the tuple's values into
    /// its accumulators, any other starts with them.
    pub fn merge_tuple_into_group(&mut self, tuple: &Tuple)
        requires
            old(self).inv(),
            old(self).plan().evaluates(tuple@),
            old(self).is_open() || old(self).plan().ops.len() == 0,
        ensures
            final(self).inv(),
            final(self).groups() == old(self).plan().absorb(old(self).groups(), tuple@),
            final(self).plan() == old(self).plan(),
            final(self).schema() == old(self).schema(),
            final(self).child() == old(self).child(),
            final(self).is_open() == old(self).is_open(),
            final(self).will_rewind() == old(self).will_rewind(),
            final(self).results() == old(self).results(),
            final(self).position() == old(self).position(),
    {
        let groupby_fields = Tuple::new(evaluate(&self.groupby_expr, tuple));
        let agg_fields = self.agg_fields(tuple);
        let ghost before = self.map@;
        let ghost slots = expand(self.ops@);
        let ghost key = groupby_fields@;
        let ghost vals = values(agg_fields@);
        proof {
            lemma_inputs_len(self.ops@, all_values(self.agg_expr@, tuple@));
            assert(self.ops_other@ =~= slots);
        }
        match self.map.get_mut(&groupby_fields) {
            Some(fields) => {
                Self::merge_all(&self.ops_other, &agg_fields, fields);
            },
            None => {
                let init_fields = Self::place_all(&self.ops_other, &agg_fields);
                self.map.insert(groupby_fields, init_fields);
            },
        }
        assert(self.map@[key]@.len() == values(self.map@[key]@).len());
        assert(self.groups() =~= self.plan().absorb(old(self).groups(), tuple@));
    }

    /// Writes down the operation of each accumulator.
    fn expand_ops(&mut self)
        requires
            old(self).ops_other@.len() == 0,
        ensures
            *final(self) == (Aggregate { ops_other: final(self).ops_other, ..*old(self) }),
            final(self).ops_other@ == expand(old(self).ops@),
    {
        let mut i: usize = 0;
        assert(self.ops_other@ =~= expand(self.ops@.take(0)));
        while i < self.ops.len()
            invariant
                i <= self.ops@.len(),
                *self == (Aggregate { ops_other: self.ops_other, ..*old(self) }),
                self.ops_other@ == expand(self.ops@.take(i as int)),
            decreases self.ops@.len() - i,
        {
            let op = self.ops[i];
            proof {
                assert(self.ops@.take(i + 1).drop_last() =~= self.ops@.take(i as int));
            }
            let ghost before = self.ops_other@;
            self.ops_other.push(op);
            if op == AggOp::Avg {
                self.ops_other.push(AggOp::Count);
            }
            assert(self.ops_other@ =~= before + slots_of(op));
            i = i + 1;
        }
        assert(self.ops@.take(i as int) =~= self.ops@);
    }

    /// The row of a group: what makes the group, followed by the results of the operations.
    fn finish_group(&self, group_key: &Tuple, agg_vals: &Vec<Field>) -> (r: Result<
        Tuple,
        CrustyError,
    >)
        requires
            self.inv(),
            self.is_open(),
            agg_vals@.len() == expand(self.plan().ops).len(),
        ensures
            match self.plan().results(values(agg_vals@)) {
                Ok(row) => r matches Ok(t) && t@ == group_key@ + row,
                Err(e) => r == Err::<Tuple, CrustyError>(e),
            },
    {
        let ghost plan = self.plan();
        let ghost accs = values(agg_vals@);
        let mut fields = clone_fields(&group_key.field_vals);
        let mut i: usize = 0;
        let ghost mut n: int = 0;
        proof {
            assert(plan.ops.take(0) =~= Seq::empty());
            assert(values(fields@) =~= group_key@ + plan.results_upto(accs, 0)->Ok_0);
            if plan.ops.len() > 0 {
                lemma_slots(plan.ops, 0);
            }
        }
        while i < agg_vals.len()
            invariant
                self.inv(),
                self.is_open(),
                plan == self.plan(),
                accs == values(agg_vals@),
                agg_vals@.len() == expand(plan.ops).len(),
                0 <= n <= plan.ops.len(),
                i == slot(plan.ops, n),
                n == plan.ops.len() ==> i == agg_vals@.len(),
                plan.results_upto(accs, n) is Ok,
                values(fields@) == group_key@ + plan.results_upto(accs, n)->Ok_0,
            decreases agg_vals@.len() - i,
        {
            proof {
                lemma_slots(plan.ops, n);
                if n + 1 < plan.ops.len() {
                    lemma_slots(plan.ops, n + 1);
                }
            }
            let ghost before = values(fields@);
            let ghost upto = plan.results_upto(accs, n)->Ok_0;
            assert(self.ops_other@[i as int] == plan.ops[n]);
            if self.ops_other[i] == AggOp::Avg {
                match agg_vals[i].over(&agg_vals[i + 1]) {
                    Ok(avg) => {
                        let ghost v = avg@;
                        fields.push(avg);
                        assert(values(fields@) =~= before.push(v));
                        assert(group_key@ + upto.push(v) =~= before.push(v));
                        assert(plan.results_upto(accs, n + 1) == Ok::<Row, CrustyError>(
                            upto.push(v),
                        ));
                    },
                    Err(e) => {
                        proof {
                            assert(plan.results_upto(accs, n + 1) == Err::<Row, CrustyError>(e));
                            lemma_results_error_stays(plan, accs, n + 1, plan.ops.len() as int);
                        }
                        return Err(e);
                    },
                }
                i = i + 2;
            } else {
                let ghost v = accs[i as int];
                fields.push(agg_vals[i].clone());
                assert(values(fields@) =~= before.push(v));
                assert(group_key@ + upto.push(v) =~= before.push(v));
                assert(plan.results_upto(accs, n + 1) == Ok::<Row, CrustyError>(upto.push(v)));
                i = i + 1;
            }
            proof {
                n = n + 1;
            }
        }
        proof {
            if n < plan.ops.len() {
                lemma_slots(plan.ops, n);
            }
        }
        Ok(Tuple::new(fields))
    }

    /// Turns the groups into rows. It stops at the first group whose results are an error.
    fn finish_groups(&mut self, entries: &Vec<(Tuple, Vec<Field>)>) -> (r: Result<
        (),
        CrustyError,
    >)
        requires
            old(self).inv(),
            old(self).is_open(),
            old(self).results().len() == 0,
            ascending::<Tuple>(keys(entries@)),
            forall|j: int|
                0 <= j < entries@.len() ==> (#[trigger] entries@[j]).1@.len() == expand(
                    old(self).plan().ops,
                ).len(),
        ensures
            ({
                let groups = listed(entries@).map_values(|v: Vec<Field>| values(v@));
                let (done, error) = old(self).plan().finish_all(groups);
                &&& final(self).results() == done
                &&& match error {
                    Some(e) => r == Err::<(), CrustyError>(e),
                    None => r is Ok,
                }
            }),
            final(self).inv(),
            final(self).plan() == old(self).plan(),
            final(self).schema() == old(self).schema(),
            final(self).child() == old(self).child(),
            final(self).is_open(),
            final(self).will_rewind() == old(self).will_rewind(),
            final(self).groups() == old(self).groups(),
            final(self).position() == old(self).position(),
    {
        let ghost plan = self.plan();
        let ghost groups = listed(entries@).map_values(|v: Vec<Field>| values(v@));
        let ghost q = keys(entries@);
        proof {
            assert(q.to_set() =~= groups.dom());
            assert(lists(q, groups.dom()));
            lemma_listing_is_unique(q, in_order(groups.dom()), groups.dom());
            assert(q.take(0) =~= Seq::empty());
        }
        let mut j: usize = 0;
        while j < entries.len()
            invariant
                j <= entries@.len(),
                self.inv(),
                self.is_open(),
                plan == old(self).plan(),
                self.plan() == plan,
                self.schema() == old(self).schema(),
                self.child() == old(self).child(),
                self.will_rewind() == old(self).will_rewind(),
                self.groups() == old(self).groups(),
                self.position() == old(self).position(),
                q == keys(entries@),
                ascending::<Tuple>(q),
                q == in_order(groups.dom()),
                groups == listed(entries@).map_values(|v: Vec<Field>| values(v@)),
                forall|j: int|
                    0 <= j < entries@.len() ==> (#[trigger] entries@[j]).1@.len() == expand(
                        plan.ops,
                    ).len(),
                plan.finish(groups, q.take(j as int)) == (self.results(), None::<CrustyError>),
            decreases entries@.len() - j,
        {
            let ghost before = self.results();
            proof {
                lemma_ascending_keys_differ(entries@, j as int);
                assert(q.take(j + 1).drop_last() =~= q.take(j as int));
                assert(q.take(j + 1).last() == entries@[j as int].0@);
                assert(entries@[j as int].1@.len() == expand(plan.ops).len());
            }
            match self.finish_group(&entries[j].0, &entries[j].1) {
                Ok(t) => {
                    self.results.push(t);
                    assert(self.results() =~= before.push(t@));
                },
                Err(e) => {
                    proof {
                        lemma_finish_error_stays(plan, groups, q, j + 1);
                    }
                    return Err(e);
                },
            }
            j = j + 1;
        }
        assert(q.take(j as int) =~= q);
        Ok(())
    }
}

/// Once the results have come to an error they stay with it.
proof fn lemma_results_error_stays(plan: Plan, accs: Row, m: int, n: int)
    requires
        m <= n,
        plan.results_upto(accs, m) is Err,
    ensures
        plan.results_upto(accs, n) == plan.results_upto(accs, m),
    decreases n - m,
{
    if m < n {
        lemma_results_error_stays(plan, accs, m, n - 1);
    }
}

/// Once the rows of groups have come to an error they stay with it.
proof fn lemma_finish_error_stays(plan: Plan, groups: Map<Row, Row>, q: Seq<Row>, m: int)
    requires
        0 <= m <= q.len(),
        plan.finish(groups, q.take(m)).1 is Some,
    ensures
        plan.finish(groups, q) == plan.finish(groups, q.take(m)),
    decreases q.len(),
{
    if m < q.len() {
        assert(q.drop_last().take(m) =~= q.take(m));
        lemma_finish_error_stays(plan, groups, q.drop_last(), m);
    } else {
        assert(q.take(m) =~= q);
    }
}

impl<C: OpIterator> OpIterator for Aggregate<C> {
    closed spec fn inv(&self) -> bool {
        &&& self.child.inv()
        &&& self.ops@.len() == self.agg_expr@.len()
        &&& self.map.wf()
        &&& forall|k: Row| #[trigger]
            self.map@.contains_key(k) ==> self.map@[k]@.len() == expand(self.ops@).len()
        &&& self.index <= self.results@.len()
        &&& self.open ==> self.ops_other@ == expand(self.ops@)
        &&& !self.open ==> {
            &&& self.ops_other@.len() == 0
            &&& self.results@.len() == 0
        }
    }

    closed spec fn is_open(&self) -> bool {
        self.open
    }

    closed spec fn will_rewind(&self) -> bool {
        self.will_rewind
    }

    closed spec fn schema(&self) -> TableSchema {
        self.schema
    }

    open spec fn pending(&self) -> Feed {
        feed_of(self.results().skip(self.position()))
    }

    open spec fn on_open(&self) -> Result<Feed, CrustyError> {
        if self.is_open() {
            Ok(self.pending())
        } else {
            self.plan().opened(self.groups(), self.child().on_open())
        }
    }

    open spec fn on_close(&self) -> Result<(), CrustyError> {
        self.child().on_close()
    }

    open spec fn on_rewind(&self) -> Result<Feed, CrustyError> {
        if self.is_open() {
            Ok(feed_of(self.results()))
        } else {
            self.on_open()
        }
    }

    open spec fn openable(&self) -> bool {
        !self.is_open() ==> {
            &&& self.child().openable()
            &&& self.child().on_open() matches Ok(f) ==> self.plan().evaluates_on(f)
        }
    }

    open spec fn rewindable(&self) -> bool {
        true
    }

    open spec fn outlook(&self, n: nat) -> Outlook {
        let child = self.child().outlook(n);
        let opened = self.plan().opened(Map::empty(), child.opened);
        Outlook {
            opened,
            openable: child.openable && (child.opened matches Ok(f) ==> self.plan().evaluates_on(
                f,
            )),
            rewound: opened,
            rewindable: true,
        }
    }

    fn configure(&mut self, will_rewind: bool)
        ensures
            !final(self).child().will_rewind(),
            final(self).child().inv(),
            final(self).child().is_open() == old(self).child().is_open(),
            final(self).child().schema() == old(self).child().schema(),
            final(self).child().pending() == old(self).child().pending(),
            final(self).child().on_open() == old(self).child().on_open(),
            final(self).child().openable() == old(self).child().openable(),
            forall|n: nat|
                (#[trigger] final(self).child().outlook(n)).opened == old(self).child().outlook(
                    n,
                ).opened,
            forall|n: nat|
                (#[trigger] final(self).child().outlook(n)).openable == old(self).child().outlook(
                    n,
                ).openable,
            final(self).plan() == old(self).plan(),
            final(self).groups() == old(self).groups(),
            final(self).results() == old(self).results(),
            final(self).position() == old(self).position(),
    {
        self.will_rewind = will_rewind;
        // All that the child gives is held here, so the child is never rewound.
        self.child.configure(false);
    }

    fn open(&mut self) -> (r: Result<(), CrustyError>)
        ensures
            final(self).plan() == old(self).plan(),
            old(self).is_open() ==> r is Ok && *final(self) == *old(self),
            !old(self).is_open() ==> match old(self).child().on_open() {
                Err(_) => {
                    &&& !final(self).is_open()
                    &&& final(self).groups() == old(self).groups()
                    &&& final(self).results() == old(self).results()
                    &&& final(self).position() == old(self).position()
                },
                Ok(f) => {
                    &&& final(self).is_open()
                    &&& final(self).child().is_open()
                    &&& final(self).child().pending() == after_reading(f)
                    &&& final(self).position() == 0
                    &&& match read(f).1 {
                        Some(_) => {
                            &&& final(self).groups() == old(self).plan().absorb_all(
                                old(self).groups(),
                                read(f).0,
                            )
                            &&& final(self).results() == Seq::<Row>::empty()
                        },
                        None => {
                            &&& final(self).groups() == Map::<Row, Row>::empty()
                            &&& final(self).results() == old(self).plan().aggregate(
                                old(self).groups(),
                                read(f).0,
                            ).0
                        },
                    }
                },
            },
    {
        if self.open {
            return Ok(());
        }
        let ghost plan = self.plan();
        let ghost started = self.groups();
        let ghost base = *self;
        match self.child.open() {
            Err(e) => {
                return Err(e);
            },
            Ok(_) => {},
        }
        let ghost f = self.child.pending();
        self.open = true;
        self.expand_ops();
        let ghost mut done: Seq<Row> = Seq::empty();
        assert(done + read(f).0 =~= read(f).0);
        assert(f.skip(0) =~= f);
        loop
            invariant_except_break
                self.inv(),
                self.is_open(),
                readable(self.child().pending()),
                self.child().is_open(),
                forall|n: nat| #[trigger]
                    self.child().outlook(n) == base.child().outlook(n),
                self.plan() == plan,
                self.schema() == base.schema(),
                self.will_rewind() == base.will_rewind(),
                self.results().len() == 0,
                self.position() == 0,
                self.groups() == plan.absorb_all(started, done),
                read(f) == (done + read(self.child().pending()).0, read(
                    self.child().pending(),
                ).1),
                done.len() <= f.len(),
                self.child().pending() == f.skip(done.len() as int),
                forall|i: int| 0 <= i < read(f).0.len() ==> plan.evaluates(
                    #[trigger] read(f).0[i],
                ),
                plan == base.plan(),
                started == base.groups(),
                base == *old(self),
                !base.is_open(),
                base.child().on_open() == Ok::<Feed, CrustyError>(f),
            ensures
                self.inv(),
                self.is_open(),
                self.child().is_open(),
                forall|n: nat| #[trigger]
                    self.child().outlook(n) == base.child().outlook(n),
                self.child().pending().len() == 0,
                self.plan() == plan,
                self.schema() == base.schema(),
                self.will_rewind() == base.will_rewind(),
                self.results().len() == 0,
                self.position() == 0,
                self.groups() == plan.absorb_all(started, done),
                read(f) == (done, None::<CrustyError>),
            decreases self.child().pending().len(),
        {
            let ghost p = self.child.pending();
            match self.child.next() {
                Err(e) => {
                    proof {
                        assert(read(f) == (done, Some(e)));
                        assert(self.child.pending() =~= f.skip(done.len() as int + 1));
                    }
                    assert(self.results() =~= Seq::empty());
                    return Err(e);
                },
                Ok(None) => {
                    proof {
                        assert(done + read(p).0 =~= done);
                    }
                    break;
                },
                Ok(Some(tuple)) => {
                    proof {
                        let row = tuple@;
                        let rest = read(self.child.pending()).0;
                        assert(done + (seq![row] + rest) =~= done.push(row) + rest);
                        assert(read(f).0[done.len() as int] == row);
                        assert(done.push(row).drop_last() =~= done);
                        assert(self.child.pending() =~= f.skip(done.len() as int + 1));
                    }
                    self.merge_tuple_into_group(&tuple);
                    proof {
                        done = done.push(tuple@);
                    }
                },
            }
        }
        let ghost groups = self.groups();
        let entries = self.map.drain();
        proof {
            assert(listed(entries@).map_values(|v: Vec<Field>| values(v@)) =~= groups);
            assert(self.groups() =~= Map::<Row, Row>::empty());
            assert forall|j: int| 0 <= j < entries@.len() implies (
            #[trigger] entries@[j]).1@.len() == expand(plan.ops).len() by {
                lemma_ascending_keys_differ(entries@, j);
            }
        }
        let finished = self.finish_groups(&entries);
        proof {
            assert(self.results().skip(0) =~= self.results());
        }
        finished
    }

    fn next(&mut self) -> (r: Result<Option<Tuple>, CrustyError>)
        ensures
            final(self).plan() == old(self).plan(),
            final(self).child() == old(self).child(),
            final(self).groups() == old(self).groups(),
            final(self).results() == old(self).results(),
    {
        let ghost f = self.pending();
        if self.index < self.results.len() {
            let t = self.results[self.index].clone();
            self.index = self.index + 1;
            assert(f[0] == Outcome::Row(t@));
            assert(self.pending() =~= f.drop_first());
            Ok(Some(t))
        } else {
            Ok(None)
        }
    }

    fn close(&mut self) -> (r: Result<(), CrustyError>)
        ensures
            final(self).plan() == old(self).plan(),
            match r {
                Ok(_) => {
                    &&& !final(self).child().is_open()
                    &&& final(self).groups() == Map::<Row, Row>::empty()
                    &&& final(self).results() == Seq::<Row>::empty()
                    &&& final(self).position() == 0
                },
                Err(_) => {
                    &&& final(self).is_open() == old(self).is_open()
                    &&& final(self).groups() == old(self).groups()
                    &&& final(self).results() == old(self).results()
                    &&& final(self).position() == old(self).position()
                },
            },
    {
        let closed = self.child.close();
        if closed.is_ok() {
            self.open = false;
            self.index = 0;
            self.map.clear();
            self.ops_other.clear();
            self.results.clear();
            assert(self.groups() =~= Map::<Row, Row>::empty());
            assert(self.results() =~= Seq::<Row>::empty());
        }
        closed
    }

    fn rewind(&mut self) -> (r: Result<(), CrustyError>)
        ensures
            r is Ok,
            final(self).plan() == old(self).plan(),
            final(self).child() == old(self).child(),
            final(self).groups() == old(self).groups(),
            final(self).results() == old(self).results(),
            final(self).position() == 0,
    {
        self.index = 0;
        assert(self.results().skip(0) =~= self.results());
        Ok(())
    }

    fn get_schema(&self) -> (r: &TableSchema) {
        &self.schema
    }
}

} // verus!
