use crusty_query::{
    colidx_expr, AggOp, Aggregate, Attribute, ByteCodeExpr, CrustyError, DataType, Decimal, Field,
    OpIterator, TableSchema, Tuple, TupleIterator,
};

fn f_int(i: i64) -> Field {
    Field::Int(i)
}

fn f_str(s: &str) -> Field {
    Field::String(s.to_string())
}

fn f_decimal(f: f64) -> Field {
    let mut n = f;
    let mut d: i128 = 1;
    while n.fract() != 0.0 {
        n *= 2.0;
        d *= 2;
    }
    Field::Decimal(Decimal::quotient(n as i128, d).unwrap())
}

fn row(a: i64, b: i64, c: i64, d: &str) -> Tuple {
    Tuple::new(vec![f_int(a), f_int(b), f_int(c), f_str(d)])
}

// 1 1 3 E
// 2 1 3 G
// 3 1 4 A
// 4 2 4 G
// 5 2 5 G
// 6 2 5 G
fn test_tuples() -> Vec<Tuple> {
    vec![
        row(1, 1, 3, "E"),
        row(2, 1, 3, "G"),
        row(3, 1, 4, "A"),
        row(4, 2, 4, "G"),
        row(5, 2, 5, "G"),
        row(6, 2, 5, "G"),
    ]
}

fn test_schema() -> TableSchema {
    let int = |name: &str| Attribute { name: name.to_string(), dtype: DataType::Int };
    TableSchema::new(vec![
        int("a"),
        int("b"),
        int("c"),
        Attribute { name: "d".to_string(), dtype: DataType::String },
    ])
}

fn over(
    tuples: Vec<Tuple>,
    groupby_expr: Vec<ByteCodeExpr>,
    agg_expr: Vec<ByteCodeExpr>,
    ops: Vec<AggOp>,
) -> Aggregate<TupleIterator> {
    let child = TupleIterator::new(tuples, test_schema());
    Aggregate::new(groupby_expr, agg_expr, ops, TableSchema::new(vec![]), child)
}

fn get_iter(
    groupby_expr: Vec<ByteCodeExpr>,
    agg_expr: Vec<ByteCodeExpr>,
    ops: Vec<AggOp>,
) -> Box<dyn OpIterator> {
    let mut iter = Box::new(over(test_tuples(), groupby_expr, agg_expr, ops));
    iter.configure(false);
    iter
}

fn execute_iter(iter: &mut dyn OpIterator) -> Result<Vec<Tuple>, CrustyError> {
    iter.open()?;
    let mut tuples = Vec::new();
    while let Some(t) = iter.next()? {
        tuples.push(t);
    }
    Ok(tuples)
}

fn run_aggregate(
    groupby_expr: Vec<ByteCodeExpr>,
    agg_expr: Vec<ByteCodeExpr>,
    ops: Vec<AggOp>,
) -> Vec<Tuple> {
    let mut iter = get_iter(groupby_expr, agg_expr, ops);
    execute_iter(&mut *iter).unwrap()
}

#[test]
fn test_empty_group() {
    let group_by = vec![];
    let agg = vec![colidx_expr(0), colidx_expr(1), colidx_expr(2)];
    let ops = vec![AggOp::Count, AggOp::Max, AggOp::Avg];
    let t = run_aggregate(group_by, agg, ops);
    assert_eq!(t.len(), 1);
    assert_eq!(t[0], Tuple::new(vec![f_int(6), f_int(2), f_decimal(4.0)]));
}

#[test]
fn test_empty_aggregation() {
    let group_by = vec![colidx_expr(2)];
    let agg = vec![];
    let ops = vec![];
    let t = run_aggregate(group_by, agg, ops);
    assert_eq!(t.len(), 3);
    assert_eq!(t[0], Tuple::new(vec![f_int(3)]));
    assert_eq!(t[1], Tuple::new(vec![f_int(4)]));
    assert_eq!(t[2], Tuple::new(vec![f_int(5)]));
}

#[test]
fn test_count() {
    let group_by = vec![colidx_expr(1), colidx_expr(2)];
    let agg = vec![colidx_expr(0)];
    let ops = vec![AggOp::Count];
    let t = run_aggregate(group_by, agg, ops);
    assert_eq!(t.len(), 4);
    assert_eq!(t[0], Tuple::new(vec![f_int(1), f_int(3), f_int(2)]));
    assert_eq!(t[1], Tuple::new(vec![f_int(1), f_int(4), f_int(1)]));
    assert_eq!(t[2], Tuple::new(vec![f_int(2), f_int(4), f_int(1)]));
    assert_eq!(t[3], Tuple::new(vec![f_int(2), f_int(5), f_int(2)]));
}

#[test]
fn test_sum() {
    let group_by = vec![colidx_expr(1), colidx_expr(2)];
    let agg = vec![colidx_expr(0)];
    let ops = vec![AggOp::Sum];
    let tuples = run_aggregate(group_by, agg, ops);
    assert_eq!(tuples.len(), 4);
    assert_eq!(tuples[0], Tuple::new(vec![f_int(1), f_int(3), f_int(3)]));
    assert_eq!(tuples[1], Tuple::new(vec![f_int(1), f_int(4), f_int(3)]));
    assert_eq!(tuples[2], Tuple::new(vec![f_int(2), f_int(4), f_int(4)]));
    assert_eq!(tuples[3], Tuple::new(vec![f_int(2), f_int(5), f_int(11)]));
}

#[test]
fn test_max() {
    let group_by = vec![colidx_expr(1), colidx_expr(2)];
    let agg = vec![colidx_expr(3)];
    let ops = vec![AggOp::Max];
    let t = run_aggregate(group_by, agg, ops);
    assert_eq!(t.len(), 4);
    assert_eq!(t[0], Tuple::new(vec![f_int(1), f_int(3), f_str("G")]));
    assert_eq!(t[1], Tuple::new(vec![f_int(1), f_int(4), f_str("A")]));
    assert_eq!(t[2], Tuple::new(vec![f_int(2), f_int(4), f_str("G")]));
    assert_eq!(t[3], Tuple::new(vec![f_int(2), f_int(5), f_str("G")]));
}

#[test]
fn test_min() {
    let group_by = vec![colidx_expr(1), colidx_expr(2)];
    let agg = vec![colidx_expr(3)];
    let ops = vec![AggOp::Min];
    let t = run_aggregate(group_by, agg, ops);
    assert!(t.len() == 4);
    assert_eq!(t[0], Tuple::new(vec![f_int(1), f_int(3), f_str("E")]));
    assert_eq!(t[1], Tuple::new(vec![f_int(1), f_int(4), f_str("A")]));
    assert_eq!(t[2], Tuple::new(vec![f_int(2), f_int(4), f_str("G")]));
    assert_eq!(t[3], Tuple::new(vec![f_int(2), f_int(5), f_str("G")]));
}

#[test]
fn test_avg() {
    let group_by = vec![colidx_expr(1), colidx_expr(2)];
    let agg = vec![colidx_expr(0)];
    let ops = vec![AggOp::Avg];
    let t = run_aggregate(group_by, agg, ops);
    assert_eq!(t.len(), 4);
    assert_eq!(t[0], Tuple::new(vec![f_int(1), f_int(3), f_decimal(1.5)]));
    assert_eq!(t[1], Tuple::new(vec![f_int(1), f_int(4), f_decimal(3.0)]));
    assert_eq!(t[2], Tuple::new(vec![f_int(2), f_int(4), f_decimal(4.0)]));
    assert_eq!(t[3], Tuple::new(vec![f_int(2), f_int(5), f_decimal(5.5)]));
}

#[test]
fn test_multi_column_aggregation() {
    let group_by = vec![colidx_expr(3)];
    let agg = vec![colidx_expr(0), colidx_expr(1), colidx_expr(2)];
    let ops = vec![AggOp::Count, AggOp::Max, AggOp::Avg];
    let t = run_aggregate(group_by, agg, ops);
    assert_eq!(t.len(), 3);
    assert_eq!(t[0], Tuple::new(vec![f_str("A"), f_int(1), f_int(1), f_decimal(4.0)]));
    assert_eq!(t[1], Tuple::new(vec![f_str("E"), f_int(1), f_int(1), f_decimal(3.0)]));
    assert_eq!(t[2], Tuple::new(vec![f_str("G"), f_int(4), f_int(2), f_decimal(4.25)]));
}

#[test]
#[should_panic]
fn test_merge_tuples_not_int() {
    let group_by = vec![];
    let agg = vec![colidx_expr(3)];
    let ops = vec![AggOp::Avg];
    let _ = run_aggregate(group_by, agg, ops);
}

#[test]
fn aggregate_test_open() {
    let mut iter = get_iter(vec![], vec![], vec![]);
    iter.open().unwrap();
}

#[test]
fn aggregate_test_close() {
    let mut iter = get_iter(vec![], vec![], vec![]);
    iter.open().unwrap();
    iter.close().unwrap();
}

#[test]
fn aggregate_test_rewind() {
    let mut iter = get_iter(vec![colidx_expr(2)], vec![colidx_expr(0)], vec![AggOp::Max]);
    iter.configure(true);
    let t_before = execute_iter(&mut *iter).unwrap();
    iter.rewind().unwrap();
    let t_after = execute_iter(&mut *iter).unwrap();
    assert_eq!(t_before, t_after);
    assert_eq!(t_before.len(), 3);
}

#[test]
fn average_of_text_is_a_type_mismatch() {
    let mut iter = get_iter(vec![], vec![colidx_expr(3)], vec![AggOp::Avg]);
    assert_eq!(iter.open(), Err(CrustyError::TypeMismatch));
}

#[test]
fn rows_before_a_failed_group_are_kept() {
    // The group 1 has an average, the group 2 has none.
    let tuples = vec![
        Tuple::new(vec![f_int(2), f_str("x")]),
        Tuple::new(vec![f_int(1), f_int(8)]),
        Tuple::new(vec![f_int(1), f_int(9)]),
    ];
    let mut iter = over(tuples, vec![colidx_expr(0)], vec![colidx_expr(1)], vec![AggOp::Avg]);
    assert_eq!(iter.open(), Err(CrustyError::TypeMismatch));
    // The operator counts as open from here on.
    assert_eq!(iter.open(), Ok(()));
    assert_eq!(iter.next(), Ok(Some(Tuple::new(vec![f_int(1), f_decimal(8.5)]))));
    assert_eq!(iter.next(), Ok(None));
}

#[test]
fn no_rows_no_results() {
    let mut iter = over(vec![], vec![], vec![colidx_expr(0)], vec![AggOp::Count]);
    assert_eq!(execute_iter(&mut iter), Ok(vec![]));
}

#[test]
fn values_that_cannot_be_added_are_counted() {
    let tuples = vec![
        Tuple::new(vec![f_int(4)]),
        Tuple::new(vec![f_str("x")]),
        Tuple::new(vec![f_int(8)]),
    ];
    let mut iter = over(
        tuples,
        vec![],
        vec![colidx_expr(0), colidx_expr(0)],
        vec![AggOp::Sum, AggOp::Avg],
    );
    assert_eq!(execute_iter(&mut iter), Ok(vec![Tuple::new(vec![f_int(12), f_decimal(4.0)])]));
}

#[test]
fn sum_that_overflows_keeps_what_it_had() {
    let tuples = vec![
        Tuple::new(vec![f_int(i64::MAX)]),
        Tuple::new(vec![f_int(1)]),
        Tuple::new(vec![f_int(-1)]),
    ];
    let mut iter = over(tuples, vec![], vec![colidx_expr(0)], vec![AggOp::Sum]);
    assert_eq!(execute_iter(&mut iter), Ok(vec![Tuple::new(vec![f_int(i64::MAX - 1)])]));
}

#[test]
fn average_is_exact() {
    let tuples = vec![
        Tuple::new(vec![f_int(3)]),
        Tuple::new(vec![f_int(3)]),
        Tuple::new(vec![f_int(4)]),
    ];
    let mut iter = over(tuples, vec![], vec![colidx_expr(0)], vec![AggOp::Avg]);
    let third = Field::Decimal(Decimal::quotient(10, 3).unwrap());
    assert_eq!(execute_iter(&mut iter), Ok(vec![Tuple::new(vec![third])]));
}

#[test]
fn average_of_decimals() {
    let tuples = vec![
        Tuple::new(vec![f_decimal(0.5)]),
        Tuple::new(vec![f_int(2)]),
        Tuple::new(vec![f_decimal(1.25)]),
    ];
    let mut iter = over(tuples, vec![], vec![colidx_expr(0)], vec![AggOp::Avg]);
    assert_eq!(execute_iter(&mut iter), Ok(vec![Tuple::new(vec![f_decimal(1.25)])]));
}

#[test]
fn closed_aggregate_starts_anew() {
    let mut iter = over(test_tuples(), vec![colidx_expr(1)], vec![colidx_expr(0)], vec![AggOp::Avg]);
    let first = execute_iter(&mut iter).unwrap();
    iter.close().unwrap();
    let second = execute_iter(&mut iter).unwrap();
    assert_eq!(first, second);
    assert_eq!(first.len(), 2);
    assert_eq!(first[0], Tuple::new(vec![f_int(1), f_decimal(2.0)]));
}

#[test]
fn tuples_can_be_merged_one_by_one() {
    let mut iter = over(vec![], vec![colidx_expr(1)], vec![], vec![]);
    iter.merge_tuple_into_group(&row(1, 9, 3, "E"));
    iter.merge_tuple_into_group(&row(1, 2, 3, "E"));
    iter.merge_tuple_into_group(&row(7, 9, 3, "E"));
    let t = execute_iter(&mut iter).unwrap();
    assert_eq!(t, vec![Tuple::new(vec![f_int(2)]), Tuple::new(vec![f_int(9)])]);
}

#[test]
fn merging_and_placing_fields() {
    type A = Aggregate<TupleIterator>;
    let mut acc = f_int(5);
    assert_eq!(A::merge_fields(AggOp::Count, &f_str("x"), &mut acc), Ok(()));
    assert_eq!(acc, f_int(6));
    assert_eq!(A::merge_fields(AggOp::Max, &f_int(9), &mut acc), Ok(()));
    assert_eq!(acc, f_int(9));
    assert_eq!(A::merge_fields(AggOp::Min, &f_int(-2), &mut acc), Ok(()));
    assert_eq!(acc, f_int(-2));
    assert_eq!(A::merge_fields(AggOp::Sum, &f_int(4), &mut acc), Ok(()));
    assert_eq!(acc, f_int(2));
    assert_eq!(
        A::merge_fields(AggOp::Sum, &f_str("x"), &mut acc),
        Err(CrustyError::TypeMismatch)
    );
    assert_eq!(
        A::merge_fields(AggOp::Avg, &f_int(i64::MAX), &mut acc),
        Err(CrustyError::Overflow)
    );
    assert_eq!(acc, f_int(2));
    assert_eq!(A::place_fields(AggOp::Count, &f_str("x")), f_int(1));
    assert_eq!(A::place_fields(AggOp::Avg, &f_int(7)), f_decimal(7.0));
    assert_eq!(A::place_fields(AggOp::Avg, &f_str("x")), f_str("x"));
    assert_eq!(A::place_fields(AggOp::Max, &f_int(7)), f_int(7));
}

#[test]
fn schema_is_handed_through() {
    let child = TupleIterator::new(test_tuples(), test_schema());
    assert_eq!(*child.get_schema(), test_schema());
    let iter = Aggregate::new(vec![], vec![], vec![], test_schema(), child);
    assert_eq!(*iter.get_schema(), test_schema());
}

/// An operator that fails at a chosen call of `next`, and may fail to open and to close.
struct Faulty {
    tuples: Vec<Tuple>,
    fails_at: usize,
    index: usize,
    fails_to_open: bool,
    fails_to_close: bool,
    schema: TableSchema,
}

fn fault(s: &str) -> CrustyError {
    CrustyError::ExecutionError(s.to_string())
}

impl OpIterator for Faulty {
    fn configure(&mut self, _will_rewind: bool) {}

    fn open(&mut self) -> Result<(), CrustyError> {
        if self.fails_to_open {
            Err(fault("open"))
        } else {
            Ok(())
        }
    }

    fn next(&mut self) -> Result<Option<Tuple>, CrustyError> {
        let i = self.index;
        self.index += 1;
        if i == self.fails_at {
            Err(fault("next"))
        } else if i < self.tuples.len() {
            Ok(Some(self.tuples[i].clone()))
        } else {
            Ok(None)
        }
    }

    fn close(&mut self) -> Result<(), CrustyError> {
        if self.fails_to_close {
            Err(fault("close"))
        } else {
            Ok(())
        }
    }

    fn rewind(&mut self) -> Result<(), CrustyError> {
        self.index = 0;
        Ok(())
    }

    fn get_schema(&self) -> &TableSchema {
        &self.schema
    }
}

fn faulty(fails_at: usize, fails_to_open: bool, fails_to_close: bool) -> Aggregate<Faulty> {
    let child = Faulty {
        tuples: test_tuples(),
        fails_at,
        index: 0,
        fails_to_open,
        fails_to_close,
        schema: test_schema(),
    };
    Aggregate::new(
        vec![],
        vec![colidx_expr(0)],
        vec![AggOp::Count],
        TableSchema::new(vec![]),
        child,
    )
}

#[test]
fn errors_of_the_child_come_through() {
    let mut iter = faulty(99, true, false);
    assert_eq!(iter.open(), Err(fault("open")));
    assert_eq!(iter.open(), Err(fault("open")));
    let mut iter = faulty(2, false, false);
    assert_eq!(iter.open(), Err(fault("next")));
    // The operator counts as open, and has nothing to give.
    assert_eq!(iter.open(), Ok(()));
    assert_eq!(iter.next(), Ok(None));
    let mut iter = faulty(99, false, true);
    assert_eq!(iter.open(), Ok(()));
    assert_eq!(iter.close(), Err(fault("close")));
    // It is still open.
    assert_eq!(iter.next(), Ok(Some(Tuple::new(vec![f_int(6)]))));
}

#[test]
fn order_of_the_input_is_irrelevant() {
    let run = |tuples: Vec<Tuple>| {
        let mut iter = over(
            tuples,
            vec![colidx_expr(1)],
            vec![colidx_expr(0), colidx_expr(3), colidx_expr(3)],
            vec![AggOp::Count, AggOp::Max, AggOp::Min],
        );
        execute_iter(&mut iter).unwrap()
    };
    let mut backwards = test_tuples();
    backwards.reverse();
    let t = run(test_tuples());
    assert_eq!(t, run(backwards));
    assert_eq!(t[0], Tuple::new(vec![f_int(1), f_int(3), f_str("G"), f_str("A")]));
}

#[test]
fn equal_decimals_make_one_group() {
    let half = |n: i128| Field::Decimal(Decimal::quotient(n, 2 * n).unwrap());
    let tuples = vec![Tuple::new(vec![half(1)]), Tuple::new(vec![half(3)])];
    let mut iter = over(tuples, vec![colidx_expr(0)], vec![colidx_expr(0)], vec![AggOp::Count]);
    assert_eq!(execute_iter(&mut iter), Ok(vec![Tuple::new(vec![f_decimal(0.5), f_int(2)])]));
}

#[test]
fn counts_add_up_to_the_number_of_rows() {
    for columns in [vec![], vec![1], vec![2], vec![1, 2], vec![3]] {
        let groups = columns.iter().map(|c: &usize| colidx_expr(*c)).collect();
        let t = run_aggregate(groups, vec![colidx_expr(0)], vec![AggOp::Count]);
        let mut total = 0;
        for row in t {
            match row.field_vals[columns.len()] {
                Field::Int(n) => total += n,
                _ => panic!("a count is a whole number"),
            }
        }
        assert_eq!(total, 6);
    }
}
