use crusty_query::{
    colidx_expr, AggOp, Aggregate, ByteCodeExpr, ByteCodes, CrustyError, Field, HashEqJoin,
    OpIterator, TableSchema, Tuple, TupleIterator,
};
use std::cell::RefCell;
use std::rc::Rc;

fn row(a: i64, b: i64, c: i64, d: &str) -> Tuple {
    Tuple::new(vec![
        Field::Int(a),
        Field::Int(b),
        Field::Int(c),
        Field::String(d.to_string()),
    ])
}

fn test_tuples() -> Vec<Tuple> {
    vec![
        row(1, 1, 3, "E"),
        row(2, 1, 3, "G"),
        row(3, 1, 4, "A"),
        row(4, 2, 4, "G"),
        row(5, 2, 5, "G"),
        row(6, 2, 5, "G"),
    ]
}

fn schema() -> TableSchema {
    TableSchema::new(vec![])
}

fn get_join_predicate() -> (ByteCodeExpr, ByteCodeExpr) {
    // left(col(0) + col(1)) OP right(col(2))
    let mut left = ByteCodeExpr::new();
    left.add_code(ByteCodes::PushField as usize);
    left.add_code(0);
    left.add_code(ByteCodes::PushField as usize);
    left.add_code(1);
    left.add_code(ByteCodes::Add as usize);

    let mut right = ByteCodeExpr::new();
    right.add_code(ByteCodes::PushField as usize);
    right.add_code(2);

    (left, right)
}

type Join = HashEqJoin<TupleIterator, TupleIterator>;

fn join_of(
    left_expr: ByteCodeExpr,
    right_expr: ByteCodeExpr,
    lefts: Vec<Tuple>,
    rights: Vec<Tuple>,
) -> Join {
    HashEqJoin::new(
        schema(),
        left_expr,
        right_expr,
        TupleIterator::new(lefts, schema()),
        TupleIterator::new(rights, schema()),
    )
}

fn get_iter(left_expr: ByteCodeExpr, right_expr: ByteCodeExpr) -> Box<dyn OpIterator> {
    let mut iter = Box::new(join_of(left_expr, right_expr, test_tuples(), test_tuples()));
    iter.configure(false);
    iter
}

fn execute_iter(iter: &mut dyn OpIterator) -> Result<Vec<Tuple>, CrustyError> {
    iter.open()?;
    let mut tuples = Vec::new();
    while let Some(t) = iter.next()? {
        tuples.push(t);
    }
    Ok(tuples)
}

fn run_hash_eq_join(left_expr: ByteCodeExpr, right_expr: ByteCodeExpr) -> Vec<Tuple> {
    let mut iter = get_iter(left_expr, right_expr);
    execute_iter(&mut *iter).unwrap()
}

#[test]
#[should_panic]
fn test_empty_predicate_join() {
    let left_expr = ByteCodeExpr::new();
    let right_expr = ByteCodeExpr::new();
    let _ = run_hash_eq_join(left_expr, right_expr);
}

#[test]
fn test_join() {
    // Output:
    // 2 1 3 G 1 1 3 E
    // 2 1 3 G 2 1 3 G
    // 3 1 4 A 3 1 4 A
    // 3 1 4 A 4 2 4 G
    let (left_expr, right_expr) = get_join_predicate();
    let t = run_hash_eq_join(left_expr, right_expr);
    assert_eq!(t.len(), 4);
    assert_eq!(
        t[0],
        Tuple::new(vec![
            Field::Int(2),
            Field::Int(1),
            Field::Int(3),
            Field::String("G".to_string()),
            Field::Int(1),
            Field::Int(1),
            Field::Int(3),
            Field::String("E".to_string()),
        ])
    );
    assert_eq!(
        t[1],
        Tuple::new(vec![
            Field::Int(2),
            Field::Int(1),
            Field::Int(3),
            Field::String("G".to_string()),
            Field::Int(2),
            Field::Int(1),
            Field::Int(3),
            Field::String("G".to_string()),
        ])
    );
    assert_eq!(
        t[2],
        Tuple::new(vec![
            Field::Int(3),
            Field::Int(1),
            Field::Int(4),
            Field::String("A".to_string()),
            Field::Int(3),
            Field::Int(1),
            Field::Int(4),
            Field::String("A".to_string()),
        ])
    );
    assert_eq!(
        t[3],
        Tuple::new(vec![
            Field::Int(3),
            Field::Int(1),
            Field::Int(4),
            Field::String("A".to_string()),
            Field::Int(4),
            Field::Int(2),
            Field::Int(4),
            Field::String("G".to_string()),
        ])
    );
}

#[test]
fn hash_join_test_open() {
    let (left_expr, right_expr) = get_join_predicate();
    let mut iter = get_iter(left_expr, right_expr);
    iter.open().unwrap();
}

#[test]
fn hash_join_test_close() {
    let (left_expr, right_expr) = get_join_predicate();
    let mut iter = get_iter(left_expr, right_expr);
    iter.open().unwrap();
    iter.close().unwrap();
}

#[test]
fn hash_join_test_rewind() {
    let (left_expr, right_expr) = get_join_predicate();
    let mut iter = get_iter(left_expr, right_expr);
    iter.configure(true);
    let t_before = execute_iter(&mut *iter).unwrap();
    iter.rewind().unwrap();
    let t_after = execute_iter(&mut *iter).unwrap();
    assert_eq!(t_before, t_after);
}

#[test]
fn rewinding_in_the_middle_starts_over() {
    let (left_expr, right_expr) = get_join_predicate();
    let mut iter = get_iter(left_expr, right_expr);
    iter.open().unwrap();
    let first = iter.next().unwrap();
    iter.next().unwrap();
    iter.next().unwrap();
    iter.rewind().unwrap();
    assert_eq!(iter.next().unwrap(), first);
    assert!(first.is_some());
}

#[test]
fn closing_in_the_middle_starts_over() {
    let (left_expr, right_expr) = get_join_predicate();
    let mut iter = get_iter(left_expr, right_expr);
    iter.open().unwrap();
    iter.next().unwrap();
    iter.close().unwrap();
    assert_eq!(execute_iter(&mut *iter).unwrap().len(), 4);
}

#[test]
fn opening_again_changes_nothing() {
    let (left_expr, right_expr) = get_join_predicate();
    let mut iter = get_iter(left_expr, right_expr);
    iter.open().unwrap();
    iter.next().unwrap();
    iter.open().unwrap();
    let mut left = 0;
    while let Some(_) = iter.next().unwrap() {
        left += 1;
    }
    assert_eq!(left, 3);
}

#[test]
fn sides_may_be_empty() {
    let mut j = join_of(colidx_expr(0), colidx_expr(0), vec![], test_tuples());
    assert_eq!(execute_iter(&mut j), Ok(vec![]));
    let mut j = join_of(colidx_expr(0), colidx_expr(0), test_tuples(), vec![]);
    assert_eq!(execute_iter(&mut j), Ok(vec![]));
}

#[test]
fn values_of_different_types_do_not_join() {
    let lefts = vec![Tuple::new(vec![Field::Int(1)])];
    let rights = vec![Tuple::new(vec![Field::String("1".to_string())])];
    let mut j = join_of(colidx_expr(0), colidx_expr(0), lefts, rights);
    assert_eq!(execute_iter(&mut j), Ok(vec![]));
}

#[test]
fn operators_can_be_stacked() {
    let j = join_of(colidx_expr(2), colidx_expr(2), test_tuples(), test_tuples());
    let mut a = Aggregate::new(
        vec![colidx_expr(2)],
        vec![colidx_expr(0), colidx_expr(4)],
        vec![AggOp::Count, AggOp::Sum],
        schema(),
        j,
    );
    let t = execute_iter(&mut a).unwrap();
    let r = |k: i64, n: i64, s: i64| {
        Tuple::new(vec![Field::Int(k), Field::Int(n), Field::Int(s)])
    };
    assert_eq!(t, vec![r(3, 4, 6), r(4, 4, 14), r(5, 4, 22)]);
}

/// An operator that gives what it is told to.
struct Script {
    outcomes: Vec<Result<i64, String>>,
    index: usize,
    open_fault: Option<String>,
    close_fault: Option<String>,
    rewind_fault: Option<String>,
    schema: TableSchema,
}

fn script(outcomes: Vec<Result<i64, String>>) -> Script {
    Script {
        outcomes,
        index: 0,
        open_fault: None,
        close_fault: None,
        rewind_fault: None,
        schema: schema(),
    }
}

fn fault(s: &str) -> CrustyError {
    CrustyError::ExecutionError(s.to_string())
}

fn report(s: &Option<String>) -> Result<(), CrustyError> {
    match s {
        Some(s) => Err(fault(s)),
        None => Ok(()),
    }
}

impl OpIterator for Script {
    fn configure(&mut self, _will_rewind: bool) {}

    fn open(&mut self) -> Result<(), CrustyError> {
        report(&self.open_fault)
    }

    fn next(&mut self) -> Result<Option<Tuple>, CrustyError> {
        if self.index == self.outcomes.len() {
            return Ok(None);
        }
        self.index += 1;
        match &self.outcomes[self.index - 1] {
            Ok(i) => Ok(Some(Tuple::new(vec![Field::Int(*i)]))),
            Err(e) => Err(fault(e)),
        }
    }

    fn close(&mut self) -> Result<(), CrustyError> {
        report(&self.close_fault)
    }

    fn rewind(&mut self) -> Result<(), CrustyError> {
        report(&self.rewind_fault)?;
        self.index = 0;
        Ok(())
    }

    fn get_schema(&self) -> &TableSchema {
        &self.schema
    }
}

fn join_scripts(left: Script, right: Script) -> HashEqJoin<Script, Script> {
    HashEqJoin::new(schema(), colidx_expr(0), colidx_expr(0), left, right)
}

fn pair(i: i64) -> Tuple {
    Tuple::new(vec![Field::Int(i), Field::Int(i)])
}

#[test]
fn errors_of_the_children_come_through() {
    let mut left = script(vec![]);
    left.open_fault = Some("left".to_string());
    let mut right = script(vec![]);
    right.open_fault = Some("right".to_string());
    assert_eq!(join_scripts(left, right).open(), Err(fault("left")));
    let mut right = script(vec![]);
    right.open_fault = Some("right".to_string());
    assert_eq!(join_scripts(script(vec![]), right).open(), Err(fault("right")));
    let left = script(vec![Err("first".to_string())]);
    let right = script(vec![Err("table".to_string())]);
    assert_eq!(join_scripts(left, right).open(), Err(fault("first")));
    let left = script(vec![Ok(1)]);
    let right = script(vec![Ok(1), Err("table".to_string())]);
    let mut j = join_scripts(left, right);
    assert_eq!(j.open(), Err(fault("table")));
    // The join counts as open, and the left tuple has no matches.
    assert_eq!(j.open(), Ok(()));
    assert_eq!(j.next(), Ok(None));
}

#[test]
fn the_join_goes_on_after_an_error_on_the_left() {
    let left = script(vec![Ok(1), Err("gap".to_string()), Ok(2)]);
    let right = script(vec![Ok(2), Ok(1)]);
    let mut j = join_scripts(left, right);
    assert_eq!(j.open(), Ok(()));
    assert_eq!(j.next(), Ok(Some(pair(1))));
    assert_eq!(j.next(), Err(fault("gap")));
    assert_eq!(j.next(), Ok(Some(pair(2))));
    assert_eq!(j.next(), Ok(None));
}

#[test]
fn a_failed_rewind_or_close_leaves_the_join_where_it_was() {
    let mut left = script(vec![Ok(1), Ok(2)]);
    left.rewind_fault = Some("rewind".to_string());
    let mut right = script(vec![Ok(1), Ok(2)]);
    right.close_fault = Some("close".to_string());
    let mut j = join_scripts(left, right);
    assert_eq!(j.open(), Ok(()));
    assert_eq!(j.rewind(), Err(fault("rewind")));
    assert_eq!(j.next(), Ok(Some(pair(1))));
    assert_eq!(j.close(), Err(fault("close")));
    assert_eq!(j.next(), Ok(Some(pair(2))));
}

/// A script that notes down the calls that it gets.
struct Logged {
    name: String,
    log: Rc<RefCell<Vec<String>>>,
    script: Script,
}

impl Logged {
    fn note(&self, call: &str) {
        self.log.borrow_mut().push(format!("{} {}", self.name, call));
    }
}

impl OpIterator for Logged {
    fn configure(&mut self, will_rewind: bool) {
        self.note(if will_rewind { "configure to rewind" } else { "configure" });
        self.script.configure(will_rewind)
    }

    fn open(&mut self) -> Result<(), CrustyError> {
        self.note("open");
        self.script.open()
    }

    fn next(&mut self) -> Result<Option<Tuple>, CrustyError> {
        self.note("next");
        self.script.next()
    }

    fn close(&mut self) -> Result<(), CrustyError> {
        self.note("close");
        self.script.close()
    }

    fn rewind(&mut self) -> Result<(), CrustyError> {
        self.note("rewind");
        self.script.rewind()
    }

    fn get_schema(&self) -> &TableSchema {
        self.script.get_schema()
    }
}

/// What a call of `f` on a join of two scripts comes to, and the calls that the scripts get.
fn calls(
    left: Script,
    right: Script,
    f: fn(&mut HashEqJoin<Logged, Logged>) -> Result<(), CrustyError>,
) -> (Result<(), CrustyError>, Vec<String>) {
    let log = Rc::new(RefCell::new(Vec::new()));
    let logged = |name: &str, script: Script| Logged {
        name: name.to_string(),
        log: log.clone(),
        script,
    };
    let mut j = HashEqJoin::new(
        schema(),
        colidx_expr(0),
        colidx_expr(0),
        logged("left", left),
        logged("right", right),
    );
    let r = f(&mut j);
    let seen = log.borrow().clone();
    (r, seen)
}

#[test]
fn no_child_is_called_after_a_failed_call() {
    let open = |j: &mut HashEqJoin<Logged, Logged>| j.open();
    let mut left = script(vec![]);
    left.open_fault = Some("l".to_string());
    assert_eq!(
        calls(left, script(vec![]), open),
        (Err(fault("l")), vec!["left open".to_string()])
    );
    let mut right = script(vec![]);
    right.open_fault = Some("r".to_string());
    let (r, log) = calls(script(vec![]), right, open);
    assert_eq!(r, Err(fault("r")));
    assert_eq!(log, ["left open", "right open"]);
    let (r, log) = calls(script(vec![Err("first".to_string())]), script(vec![Ok(1)]), open);
    assert_eq!(r, Err(fault("first")));
    assert_eq!(log, ["left open", "right open", "left next"]);
    let right = script(vec![Ok(1), Err("table".to_string()), Ok(2)]);
    let (r, log) = calls(script(vec![Ok(1)]), right, open);
    assert_eq!(r, Err(fault("table")));
    assert_eq!(log, ["left open", "right open", "left next", "right next", "right next"]);
    let close = |j: &mut HashEqJoin<Logged, Logged>| j.close();
    let mut left = script(vec![]);
    left.close_fault = Some("close".to_string());
    let (r, log) = calls(left, script(vec![]), close);
    assert_eq!(r, Err(fault("close")));
    assert_eq!(log, ["left close"]);
    let (r, log) = calls(script(vec![]), script(vec![]), close);
    assert_eq!(r, Ok(()));
    assert_eq!(log, ["left close", "right close"]);
}

#[test]
fn the_right_child_is_read_once_to_its_end() {
    let (r, log) = calls(script(vec![Ok(1)]), script(vec![Ok(1), Ok(2)]), |j| {
        j.configure(true);
        j.open()?;
        while j.next()?.is_some() {}
        j.rewind()
    });
    assert_eq!(r, Ok(()));
    assert_eq!(
        log,
        [
            "left configure to rewind",
            "right configure",
            "left open",
            "right open",
            "left next",
            "right next",
            "right next",
            "right next",
            "left next",
            "left rewind",
            "left next",
        ]
    );
}

#[test]
fn a_reopened_join_starts_at_its_first_pair() {
    let t = |k: i64, s: &str| Tuple::new(vec![Field::Int(k), Field::String(s.to_string())]);
    let lefts = vec![t(1, "a")];
    let rights = vec![t(1, "x"), t(1, "y")];
    let first = t(1, "a").merge(&t(1, "x"));
    let mut j = join_of(colidx_expr(0), colidx_expr(0), lefts, rights);
    for _ in 0..3 {
        j.open().unwrap();
        assert_eq!(j.next(), Ok(Some(first.clone())));
        j.close().unwrap();
    }
    j.open().unwrap();
    j.next().unwrap();
    j.rewind().unwrap();
    assert_eq!(j.next(), Ok(Some(first)));
    assert_eq!(j.next(), Ok(Some(t(1, "a").merge(&t(1, "y")))));
    assert_eq!(j.next(), Ok(None));
}

#[test]
fn a_left_row_without_value_is_no_matter_until_it_is_reached() {
    let t = |v: Vec<i64>| Tuple::new(v.into_iter().map(Field::Int).collect());
    let lefts = vec![t(vec![1]), t(vec![])];
    let rights = vec![t(vec![1]), t(vec![1])];
    let mut j = join_of(colidx_expr(0), colidx_expr(0), lefts, rights);
    j.open().unwrap();
    assert_eq!(j.next(), Ok(Some(pair(1))));
    j.rewind().unwrap();
    assert_eq!(j.next(), Ok(Some(pair(1))));
    assert_eq!(j.next(), Ok(Some(pair(1))));
    j.close().unwrap();
}

#[test]
fn children_may_be_boxed() {
    let boxed = || -> Box<dyn OpIterator> {
        Box::new(TupleIterator::new(test_tuples(), schema()))
    };
    let (left_expr, right_expr) = get_join_predicate();
    let join: Box<dyn OpIterator> =
        Box::new(HashEqJoin::new(schema(), left_expr, right_expr, boxed(), boxed()));
    let mut a = Aggregate::new(
        vec![colidx_expr(2)],
        vec![colidx_expr(0)],
        vec![AggOp::Count],
        schema(),
        join,
    );
    a.configure(false);
    assert_eq!(a.get_schema(), &schema());
    let r = |k: i64, n: i64| Tuple::new(vec![Field::Int(k), Field::Int(n)]);
    for _ in 0..2 {
        assert_eq!(execute_iter(&mut a), Ok(vec![r(3, 2), r(4, 2)]));
        a.rewind().unwrap();
        assert_eq!(a.next(), Ok(Some(r(3, 2))));
        a.close().unwrap();
    }
}
