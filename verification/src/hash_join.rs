//! The equi-join: pairs of tuples from two children that agree on a value.
use vstd::prelude::*;
use crate::bytecode_expr::ByteCodeExpr;
use crate::error::CrustyError;
use crate::field::{Field, Value};
use crate::opiterator::{
    after_reading, head, lemma_never_stuck_is_readable, never_stuck, read, readable, stuck, tail,
    Feed, OpIterator, Outcome, Outlook,
};
use crate::sorted_map::SortedMap;
use crate::tuple::{clone_tuples, rows, Row, TableSchema, Tuple};

verus! {

/// The rows on which an expression has a given value.
pub open spec fn having(expr: ByteCodeExpr, k: Value) -> spec_fn(Row) -> bool {
    |r: Row| expr.value(r) == k
}

/// The rows of `s` on which the expression has the value `k`, in the order of `s`.
pub open spec fn partners(s: Seq<Row>, expr: ByteCodeExpr, k: Value) -> Seq<Row> {
    s.filter(having(expr, k))
}

/// The rows of `s` by the value of the expression on them.
pub open spec fn table_of(s: Seq<Row>, expr: ByteCodeExpr) -> Map<Value, Seq<Row>> {
    Map::new(
        |k: Value| partners(s, expr, k).len() > 0,
        |k: Value| partners(s, expr, k),
    )
}

/// The rows that a table has under a value.
pub open spec fn look_up(table: Map<Value, Seq<Row>>, k: Value) -> Seq<Row> {
    if table.contains_key(k) {
        table[k]
    } else {
        Seq::empty()
    }
}

/// A left row joined with each of its partners.
pub open spec fn matched(left: Row, found: Seq<Row>) -> Feed {
    found.map_values(|right: Row| Outcome::Row(left + right))
}

/// A feed of left rows joined with the rows of a table. An error on the left stands where
/// the row would have stood; a left row on which the expression has no value must not be
/// reached.
pub open spec fn joined(f: Feed, table: Map<Value, Seq<Row>>, expr: ByteCodeExpr) -> Feed
    decreases f.len(),
{
    if f.len() == 0 {
        Seq::empty()
    } else {
        let rest = joined(f.drop_first(), table, expr);
        match f[0] {
            Outcome::Row(left) => if expr.evaluates(left) {
                matched(left, look_up(table, expr.value(left))) + rest
            } else {
                seq![Outcome::Stuck]
            },
            Outcome::Error(e) => seq![Outcome::Error(e)] + rest,
            Outcome::Stuck => seq![Outcome::Stuck],
        }
    }
}

/// Whether the expression has a value on every row of a feed.
pub open spec fn evaluates_on(expr: ByteCodeExpr, f: Feed) -> bool {
    forall|i: int|
        0 <= i < f.len() ==> (#[trigger] f[i] matches Outcome::Row(row) ==> expr.evaluates(row))
}

/// Whether the first thing of a feed may be asked for, and the expression has a value on it
/// if it is a row.
pub open spec fn evaluates_on_first(expr: ByteCodeExpr, f: Feed) -> bool {
    &&& !stuck(f)
    &&& head(f) matches Some(Outcome::Row(row)) ==> expr.evaluates(row)
}

/// Whether the first thing that a feed gives is an error.
pub open spec fn fails_at_once(f: Feed) -> bool {
    f.len() > 0 && f[0] is Error
}

/// What opening a join comes to, where opening its children comes to `lefts` and `rights`.
pub open spec fn join_opened(
    lefts: Result<Feed, CrustyError>,
    rights: Result<Feed, CrustyError>,
    left_expr: ByteCodeExpr,
    right_expr: ByteCodeExpr,
) -> Result<Feed, CrustyError> {
    match (lefts, rights) {
        (Err(e), _) => Err(e),
        (_, Err(e)) => Err(e),
        (Ok(lefts), Ok(rights)) => match (head(lefts), read(rights).1) {
            (Some(Outcome::Error(e)), _) => Err(e),
            (_, Some(e)) => Err(e),
            _ => Ok(joined(lefts, table_of(read(rights).0, right_expr), left_expr)),
        },
    }
}

/// What rewinding a join comes to, where rewinding its left child comes to `lefts`.
pub open spec fn join_rewound(
    lefts: Result<Feed, CrustyError>,
    table: Map<Value, Seq<Row>>,
    left_expr: ByteCodeExpr,
) -> Result<Feed, CrustyError> {
    match lefts {
        Err(e) => Err(e),
        Ok(lefts) => match head(lefts) {
            Some(Outcome::Error(e)) => Err(e),
            _ => Ok(joined(lefts, table, left_expr)),
        },
    }
}

/// Whether a join may be opened where its children, opened, give `lefts` and `rights`. It asks
/// for the first left row. Where that is no error it reads the right child until it ends or
/// fails, and its right expression has a value on what it reads. Where that does not fail its
/// left expression has a value on the first left row.
pub open spec fn join_evaluates(
    lefts: Feed,
    rights: Feed,
    left_expr: ByteCodeExpr,
    right_expr: ByteCodeExpr,
) -> bool {
    &&& !stuck(lefts)
    &&& !fails_at_once(lefts) ==> {
        &&& readable(rights)
        &&& forall|i: int|
            0 <= i < read(rights).0.len() ==> right_expr.evaluates(#[trigger] read(rights).0[i])
        &&& read(rights).1 is None ==> evaluates_on_first(left_expr, lefts)
    }
}

/// Where neither expression lacks a value on any row, and the children can be read to their
/// ends, a join can be opened and read to its end.
pub proof fn lemma_join_can_be_read_to_its_end(
    lefts: Feed,
    rights: Feed,
    left_expr: ByteCodeExpr,
    right_expr: ByteCodeExpr,
)
    requires
        never_stuck(lefts),
        never_stuck(rights),
        evaluates_on(left_expr, lefts),
        evaluates_on(right_expr, rights),
    ensures
        join_evaluates(lefts, rights, left_expr, right_expr),
        forall|table: Map<Value, Seq<Row>>| never_stuck(
            #[trigger] joined(lefts, table, left_expr),
        ),
{
    lemma_never_stuck_is_readable(rights);
    lemma_evaluates_on_what_is_read(right_expr, rights);
    assert forall|table: Map<Value, Seq<Row>>| never_stuck(
        #[trigger] joined(lefts, table, left_expr),
    ) by {
        lemma_joined_is_never_stuck(lefts, table, left_expr);
    }
}

/// An expression that has a value on every row of a feed has one on those that are read.
proof fn lemma_evaluates_on_what_is_read(expr: ByteCodeExpr, f: Feed)
    requires
        evaluates_on(expr, f),
    ensures
        forall|i: int| 0 <= i < read(f).0.len() ==> expr.evaluates(#[trigger] read(f).0[i]),
    decreases f.len(),
{
    if f.len() > 0 {
        let rest = f.drop_first();
        assert forall|i: int| 0 <= i < rest.len() implies (#[trigger] rest[i] matches Outcome::Row(
            row,
        ) ==> expr.evaluates(row)) by {
            assert(rest[i] == f[i + 1]);
        }
        lemma_evaluates_on_what_is_read(expr, rest);
        assert forall|i: int| 0 <= i < read(f).0.len() implies expr.evaluates(
            #[trigger] read(f).0[i],
        ) by {
            if i > 0 {
                assert(read(f).0[i] == read(rest).0[i - 1]);
            } else {
                assert(f[0] == Outcome::Row(read(f).0[0]));
            }
        }
    }
}

proof fn lemma_joined_is_never_stuck(f: Feed, table: Map<Value, Seq<Row>>, expr: ByteCodeExpr)
    requires
        never_stuck(f),
        evaluates_on(expr, f),
    ensures
        never_stuck(joined(f, table, expr)),
    decreases f.len(),
{
    if f.len() > 0 {
        let rest = f.drop_first();
        assert forall|i: int| 0 <= i < rest.len() implies !(#[trigger] rest[i] is Stuck) && (
        rest[i] matches Outcome::Row(row) ==> expr.evaluates(row)) by {
            assert(rest[i] == f[i + 1]);
        }
        lemma_joined_is_never_stuck(rest, table, expr);
        assert(!(f[0] is Stuck));
    }
}

/// One more row in a table.
proof fn lemma_table_grows(s: Seq<Row>, expr: ByteCodeExpr, row: Row)
    ensures
        table_of(s.push(row), expr) == table_of(s, expr).insert(
            expr.value(row),
            look_up(table_of(s, expr), expr.value(row)).push(row),
        ),
{
    let k = expr.value(row);
    let before = table_of(s, expr);
    let after = table_of(s.push(row), expr);
    assert forall|x: Value|
        partners(s.push(row), expr, x) == if x == k {
            partners(s, expr, x).push(row)
        } else {
            partners(s, expr, x)
        } by {
        assert(s.push(row).drop_last() =~= s);
        reveal(Seq::filter);
    }
    assert(partners(s, expr, k).len() == 0 ==> partners(s, expr, k) =~= Seq::empty());
    assert(look_up(before, k) == partners(s, expr, k));
    assert(after =~= before.insert(k, look_up(before, k).push(row)));
}

/// The hash equi-join operator.
pub struct HashEqJoin<L: OpIterator, R: OpIterator> {
    schema: TableSchema,
    left_expr: ByteCodeExpr,
    right_expr: ByteCodeExpr,
    left_child: L,
    right_child: R,
    open: bool,
    /// The left tuple that is being joined.
    current_tuple: Option<Tuple>,
    /// The right tuples by the value of the right expression.
    map: Option<SortedMap<Field, Vec<Tuple>>>,
    /// The right tuples that join with the left tuple.
    current_matches: Vec<Tuple>,
    /// How many of them have been given.
    match_index: usize,
}

impl<L: OpIterator, R: OpIterator> HashEqJoin<L, R> {
    /// The expression whose value on a left row is joined on.
    pub closed spec fn left_expr(&self) -> ByteCodeExpr {
        self.left_expr
    }

    /// The expression whose value on a right row is joined on.
    pub closed spec fn right_expr(&self) -> ByteCodeExpr {
        self.right_expr
    }

    /// The operator that the left rows come from.
    pub closed spec fn left(&self) -> L {
        self.left_child
    }

    /// The operator that the right rows come from.
    pub closed spec fn right(&self) -> R {
        self.right_child
    }

    /// The left row that is being joined.
    pub closed spec fn current(&self) -> Option<Row> {
        match self.current_tuple {
            Some(t) => Some(t@),
            None => None,
        }
    }

    /// The right rows by the value of the right expression.
    pub closed spec fn table(&self) -> Map<Value, Seq<Row>> {
        match self.map {
            Some(m) => table_view(m),
            None => Map::empty(),
        }
    }

    /// The right rows by the value of the right expression, once the join is open.
    pub open spec fn table_once_open(&self) -> Map<Value, Seq<Row>> {
        if self.is_open() {
            self.table()
        } else {
            match self.right().on_open() {
                Ok(rights) => table_of(read(rights).0, self.right_expr()),
                Err(_) => self.table(),
            }
        }
    }

    /// The right rows that join with the left row.
    pub closed spec fn found(&self) -> Seq<Row> {
        rows(self.current_matches@)
    }

    /// How many of them have been given.
    pub closed spec fn position(&self) -> int {
        self.match_index as int
    }

    /// What the invariant says of the children and of the place among the right rows.
    pub proof fn lemma_inv(&self)
        requires
            self.inv(),
        ensures
            self.left().inv(),
            self.right().inv(),
            0 <= self.position() <= self.found().len(),
            !self.is_open() ==> self.position() == 0,
    {
    }

    /// Creates a join of two children. It is closed.
    ///
    /// # Arguments
    ///
    /// * `left_expr` - expression for the left field in the join condition.
    /// * `right_expr` - expression for the right field in the join condition.
    /// * `left_child` - left child of the join operator.
    /// * `right_child` - right child of the join operator.
    pub fn new(
        schema: TableSchema,
        left_expr: ByteCodeExpr,
        right_expr: ByteCodeExpr,
        left_child: L,
        right_child: R,
    ) -> (r: Self)
        requires
            left_child.inv(),
            right_child.inv(),
        ensures
            r.inv(),
            r.schema() == schema,
            r.left_expr() == left_expr,
            r.right_expr() == right_expr,
            r.left() == left_child,
            r.right() == right_child,
            !r.is_open(),
            r.current() is None,
            r.table() == Map::<Value, Seq<Row>>::empty(),
            r.found() == Seq::<Row>::empty(),
            r.position() == 0,
    {
        let r = HashEqJoin {
            schema,
            left_expr,
            right_expr,
            left_child,
            right_child,
            open: false,
            current_tuple: None,
            map: None,
            current_matches: Vec::new(),
            match_index: 0,
        };
        assert(r.found() =~= Seq::<Row>::empty());
        r
    }

    /// Reads the right child to its end, or to its first error, into a table.
    fn build(right_child: &mut R, right_expr: &ByteCodeExpr) -> (r: (
        SortedMap<Field, Vec<Tuple>>,
        Result<(), CrustyError>,
    ))
        requires
            old(right_child).inv(),
            old(right_child).is_open(),
            readable(old(right_child).pending()),
            forall|i: int|
                0 <= i < read(old(right_child).pending()).0.len() ==> right_expr.evaluates(
                    #[trigger] read(old(right_child).pending()).0[i],
                ),
        ensures
            final(right_child).inv(),
            final(right_child).is_open(),
            final(right_child).pending() == after_reading(old(right_child).pending()),
            forall|n: nat| #[trigger]
                final(right_child).outlook(n) == old(right_child).outlook(n),
            r.0.wf(),
            table_view(r.0) == table_of(read(old(right_child).pending()).0, *right_expr),
            match read(old(right_child).pending()).1 {
                Some(e) => r.1 == Err::<(), CrustyError>(e),
                None => r.1 is Ok,
            },
    {
        let ghost f = right_child.pending();
        let mut map: SortedMap<Field, Vec<Tuple>> = SortedMap::new();
        let ghost mut done: Seq<Row> = Seq::empty();
        proof {
            reveal(Seq::filter);
            assert(done + read(f).0 =~= read(f).0);
            assert(f.skip(0) =~= f);
            assert(table_view(map) =~= table_of(done, *right_expr));
        }
        loop
            invariant
                right_child.inv(),
                right_child.is_open(),
                readable(right_child.pending()),
                forall|n: nat| #[trigger]
                    right_child.outlook(n) == old(right_child).outlook(n),
                done.len() <= f.len(),
                right_child.pending() == f.skip(done.len() as int),
                map.wf(),
                table_view(map) == table_of(done, *right_expr),
                read(f) == (done + read(right_child.pending()).0, read(
                    right_child.pending(),
                ).1),
                forall|i: int| 0 <= i < read(f).0.len() ==> right_expr.evaluates(
                    #[trigger] read(f).0[i],
                ),
                f == old(right_child).pending(),
            decreases right_child.pending().len(),
        {
            let ghost p = right_child.pending();
            match right_child.next() {
                Err(e) => {
                    assert(done + read(p).0 =~= done);
                    assert(right_child.pending() =~= f.skip(done.len() as int + 1));
                    return (map, Err(e));
                },
                Ok(None) => {
                    assert(done + read(p).0 =~= done);
                    return (map, Ok(()));
                },
                Ok(Some(right_tuple)) => {
                    let ghost row = right_tuple@;
                    let ghost before = map@;
                    proof {
                        let rest = read(right_child.pending()).0;
                        assert(done + (seq![row] + rest) =~= done.push(row) + rest);
                        assert(read(f).0[done.len() as int] == row);
                        assert(right_child.pending() =~= f.skip(done.len() as int + 1));
                        lemma_table_grows(done, *right_expr, row);
                    }
                    let right_val = right_expr.eval(&right_tuple);
                    let ghost k = right_val@;
                    assert(table_of(done, *right_expr).contains_key(k) == before.contains_key(k));
                    match map.get_mut(&right_val) {
                        Some(tuples) => {
                            let ghost had = tuples@;
                            tuples.push(right_tuple);
                            assert(rows(tuples@) =~= rows(had).push(row));
                        },
                        None => {
                            let mut tuples: Vec<Tuple> = Vec::new();
                            tuples.push(right_tuple);
                            assert(rows(tuples@) =~= Seq::<Row>::empty().push(row));
                            map.insert(right_val, tuples);
                        },
                    }
                    assert(table_view(map) =~= table_of(done.push(row), *right_expr));
                    proof {
                        done = done.push(row);
                    }
                },
            }
        }
    }

    /// The right tuples that join with a left tuple.
    fn matches_of(&self, left_tuple: &Tuple) -> (r: Vec<Tuple>)
        requires
            self.inv(),
            self.map is Some,
            self.left_expr().evaluates(left_tuple@),
        ensures
            rows(r@) == look_up(self.table(), self.left_expr().value(left_tuple@)),
    {
        let left_val = self.left_expr.eval(left_tuple);
        match &self.map {
            Some(m) => match m.get(&left_val) {
                Some(tuples) => clone_tuples(tuples),
                None => {
                    let r: Vec<Tuple> = Vec::new();
                    assert(rows(r@) =~= Seq::<Row>::empty());
                    r
                },
            },
            None => Vec::new(),
        }
    }
}

/// What a table of tuples stands for.
pub open spec fn table_view(m: SortedMap<Field, Vec<Tuple>>) -> Map<Value, Seq<Row>> {
    m@.map_values(|v: Vec<Tuple>| rows(v@))
}

impl<L: OpIterator, R: OpIterator> OpIterator for HashEqJoin<L, R> {
    closed spec fn inv(&self) -> bool {
        &&& self.left_child.inv()
        &&& self.right_child.inv()
        &&& self.match_index <= self.current_matches@.len()
        &&& self.map matches Some(m) ==> m.wf()
        &&& self.open ==> self.map is Some
        &&& !self.open ==> self.match_index == 0
    }

    closed spec fn is_open(&self) -> bool {
        self.open
    }

    closed spec fn will_rewind(&self) -> bool {
        self.left_child.will_rewind()
    }

    closed spec fn schema(&self) -> TableSchema {
        self.schema
    }

    open spec fn pending(&self) -> Feed {
        match self.current() {
            Some(left) => matched(left, self.found().skip(self.position())) + if self.left()
                .is_open() {
                joined(self.left().pending(), self.table(), self.left_expr())
            } else {
                seq![Outcome::Stuck]
            },
            None => Seq::empty(),
        }
    }

    open spec fn on_open(&self) -> Result<Feed, CrustyError> {
        if self.is_open() {
            Ok(self.pending())
        } else {
            join_opened(
                self.left().on_open(),
                self.right().on_open(),
                self.left_expr(),
                self.right_expr(),
            )
        }
    }

    open spec fn on_close(&self) -> Result<(), CrustyError> {
        match self.left().on_close() {
            Err(e) => Err(e),
            Ok(_) => self.right().on_close(),
        }
    }

    open spec fn on_rewind(&self) -> Result<Feed, CrustyError> {
        join_rewound(self.left().on_rewind(), self.table_once_open(), self.left_expr())
    }

    open spec fn openable(&self) -> bool {
        !self.is_open() ==> {
            &&& self.left().openable()
            &&& self.left().on_open() matches Ok(lefts) ==> {
                &&& self.right().openable()
                &&& self.right().on_open() matches Ok(rights) ==> join_evaluates(
                    lefts,
                    rights,
                    self.left_expr(),
                    self.right_expr(),
                )
            }
        }
    }

    open spec fn rewindable(&self) -> bool {
        &&& self.is_open() ==> self.left().is_open()
        &&& self.left().rewindable()
        &&& self.left().on_rewind() matches Ok(lefts) ==> evaluates_on_first(
            self.left_expr(),
            lefts,
        )
    }

    open spec fn outlook(&self, n: nat) -> Outlook {
        let left = self.left().outlook(n);
        let right = self.right().outlook(n);
        let table = match right.opened {
            Ok(rights) => table_of(read(rights).0, self.right_expr()),
            Err(_) => Map::empty(),
        };
        Outlook {
            opened: join_opened(
                left.opened,
                right.opened,
                self.left_expr(),
                self.right_expr(),
            ),
            openable: left.openable && (left.opened matches Ok(lefts) ==> right.openable && (
            right.opened matches Ok(rights) ==> join_evaluates(
                lefts,
                rights,
                self.left_expr(),
                self.right_expr(),
            ))),
            rewound: join_rewound(left.rewound, table, self.left_expr()),
            rewindable: left.rewindable && (left.rewound matches Ok(lefts) ==> evaluates_on_first(
                self.left_expr(),
                lefts,
            )),
        }
    }

    fn configure(&mut self, will_rewind: bool)
        ensures
            final(self).left().will_rewind() == will_rewind,
            !final(self).right().will_rewind(),
            final(self).left().inv(),
            final(self).left().is_open() == old(self).left().is_open(),
            final(self).left().schema() == old(self).left().schema(),
            final(self).left().pending() == old(self).left().pending(),
            final(self).left().on_open() == old(self).left().on_open(),
            final(self).left().openable() == old(self).left().openable(),
            forall|n: nat|
                (#[trigger] final(self).left().outlook(n)).opened == old(self).left().outlook(
                    n,
                ).opened,
            forall|n: nat|
                (#[trigger] final(self).left().outlook(n)).openable == old(self).left().outlook(
                    n,
                ).openable,
            will_rewind ==> {
                &&& final(self).left().on_rewind() == old(self).left().on_rewind()
                &&& final(self).left().rewindable() == old(self).left().rewindable()
                &&& forall|n: nat| #[trigger]
                    final(self).left().outlook(n) == old(self).left().outlook(n)
            },
            final(self).right().inv(),
            final(self).right().is_open() == old(self).right().is_open(),
            final(self).right().schema() == old(self).right().schema(),
            final(self).right().pending() == old(self).right().pending(),
            final(self).right().on_open() == old(self).right().on_open(),
            final(self).right().openable() == old(self).right().openable(),
            forall|n: nat|
                (#[trigger] final(self).right().outlook(n)).opened == old(self).right().outlook(
                    n,
                ).opened,
            forall|n: nat|
                (#[trigger] final(self).right().outlook(n)).openable == old(self).right().outlook(
                    n,
                ).openable,
            final(self).left_expr() == old(self).left_expr(),
            final(self).right_expr() == old(self).right_expr(),
            final(self).current() == old(self).current(),
            final(self).table() == old(self).table(),
            final(self).found() == old(self).found(),
            final(self).position() == old(self).position(),
    {
        // The left child is rewound whenever the join is.
        self.left_child.configure(will_rewind);
        // The right child is read once, when the join is opened.
        self.right_child.configure(false);
    }

    fn open(&mut self) -> (r: Result<(), CrustyError>)
        ensures
            final(self).left_expr() == old(self).left_expr(),
            final(self).right_expr() == old(self).right_expr(),
            old(self).is_open() ==> r is Ok && *final(self) == *old(self),
            !old(self).is_open() ==> match (
                old(self).left().on_open(),
                old(self).right().on_open(),
            ) {
                (Ok(lefts), Ok(rights)) if !fails_at_once(lefts) => {
                    &&& final(self).is_open()
                    &&& final(self).left().is_open()
                    &&& final(self).right().is_open()
                    &&& final(self).left().pending() == tail(lefts)
                    &&& final(self).right().pending() == after_reading(rights)
                    &&& final(self).current() == match head(lefts) {
                        Some(Outcome::Row(left)) => Some(left),
                        _ => None,
                    }
                    &&& final(self).table() == table_of(read(rights).0, old(self).right_expr())
                    &&& final(self).found() == match final(self).current() {
                        Some(left) if read(rights).1 is None => look_up(
                            final(self).table(),
                            old(self).left_expr().value(left),
                        ),
                        _ => old(self).found(),
                    }
                    &&& final(self).position() == 0
                },
                (lefts, rights) => {
                    &&& !final(self).is_open()
                    &&& final(self).current() == old(self).current()
                    &&& final(self).table() == old(self).table()
                    &&& final(self).found() == old(self).found()
                    &&& final(self).position() == old(self).position()
                    &&& match (lefts, rights) {
                        (Err(_), _) => final(self).right() == old(self).right(),
                        (Ok(lefts), Err(_)) => {
                            &&& final(self).left().is_open()
                            &&& final(self).left().pending() == lefts
                        },
                        (Ok(lefts), Ok(rights)) => {
                            &&& final(self).left().is_open()
                            &&& final(self).right().is_open()
                            &&& final(self).left().pending() == tail(lefts)
                            &&& final(self).right().pending() == rights
                        },
                    }
                },
            },
    {
        if self.open {
            return Ok(());
        }
        let ghost base = *self;
        match self.left_child.open() {
            Err(e) => {
                return Err(e);
            },
            Ok(_) => {},
        }
        let ghost lefts = self.left_child.pending();
        match self.right_child.open() {
            Err(e) => {
                return Err(e);
            },
            Ok(_) => {},
        }
        let ghost rights = self.right_child.pending();
        match self.left_child.next() {
            Err(e) => {
                return Err(e);
            },
            Ok(t) => {
                self.current_tuple = t;
            },
        }
        self.open = true;
        let (map, built) = Self::build(&mut self.right_child, &self.right_expr);
        self.map = Some(map);
        match built {
            Err(e) => {
                return Err(e);
            },
            Ok(_) => {},
        }
        if let Some(left_tuple) = &self.current_tuple {
            self.current_matches = self.matches_of(left_tuple);
        }
        proof {
            assert(self.found().skip(0) =~= self.found());
            assert(self.pending() =~= joined(lefts, self.table(), self.left_expr()));
        }
        Ok(())
    }

    fn next(&mut self) -> (r: Result<Option<Tuple>, CrustyError>)
        ensures
            final(self).left_expr() == old(self).left_expr(),
            final(self).right_expr() == old(self).right_expr(),
            final(self).right() == old(self).right(),
            final(self).table() == old(self).table(),
    {
        let ghost f = self.pending();
        loop
            invariant
                self.inv(),
                self.pending() == f,
                !stuck(f),
                f == old(self).pending(),
                self.is_open(),
                old(self).is_open(),
                self.schema() == old(self).schema(),
                self.will_rewind() == old(self).will_rewind(),
                self.left_expr() == old(self).left_expr(),
                self.right_expr() == old(self).right_expr(),
                self.right() == old(self).right(),
                self.table() == old(self).table(),
                self.on_rewind() == old(self).on_rewind(),
                self.rewindable() == old(self).rewindable(),
                forall|n: nat| #[trigger] self.left().outlook(n) == old(self).left().outlook(n),
            decreases
                    self.left().pending().len(),
                    if self.current() is Some {
                        1int
                    } else {
                        0int
                    },
        {
            match &self.current_tuple {
                None => {
                    return Ok(None);
                },
                Some(left_tuple) => {
                    if self.match_index < self.current_matches.len() {
                        // Still have matches for the current left tuple.
                        let t = left_tuple.merge(&self.current_matches[self.match_index]);
                        let ghost k = self.position();
                        self.match_index = self.match_index + 1;
                        proof {
                            let found = self.found();
                            let left = self.current()->0;
                            assert(found[k] == self.current_matches@[k]@);
                            assert(f[0] == Outcome::Row(t@));
                            assert(matched(left, found.skip(k + 1)) =~= matched(
                                left,
                                found.skip(k),
                            ).drop_first());
                            assert(self.pending() =~= f.drop_first());
                        }
                        return Ok(Some(t));
                    }
                },
            }
            // The matches are used up: on to the next left tuple.
            let ghost lefts = self.left_child.pending();
            proof {
                assert(f =~= joined(lefts, self.table(), self.left_expr()));
            }
            match self.left_child.next() {
                Err(e) => {
                    proof {
                        assert(self.pending() =~= joined(
                            lefts.drop_first(),
                            self.table(),
                            self.left_expr(),
                        ));
                        assert(f.drop_first() =~= self.pending());
                    }
                    return Err(e);
                },
                Ok(t) => {
                    self.current_tuple = t;
                },
            }
            if let Some(left_tuple) = &self.current_tuple {
                self.current_matches = self.matches_of(left_tuple);
            }
            self.match_index = 0;
            proof {
                assert(self.found().skip(0) =~= self.found());
                assert(self.pending() =~= f);
            }
        }
    }

    fn close(&mut self) -> (r: Result<(), CrustyError>)
        ensures
            final(self).left_expr() == old(self).left_expr(),
            final(self).right_expr() == old(self).right_expr(),
            match r {
                Ok(_) => {
                    &&& !final(self).left().is_open()
                    &&& !final(self).right().is_open()
                    &&& final(self).current() is None
                    &&& final(self).table() == Map::<Value, Seq<Row>>::empty()
                    &&& final(self).found() == Seq::<Row>::empty()
                    &&& final(self).position() == 0
                },
                Err(_) => {
                    &&& final(self).is_open() == old(self).is_open()
                    &&& final(self).current() == old(self).current()
                    &&& final(self).table() == old(self).table()
                    &&& final(self).found() == old(self).found()
                    &&& final(self).position() == old(self).position()
                    &&& match old(self).left().on_close() {
                        Err(_) => final(self).right() == old(self).right(),
                        Ok(_) => !final(self).left().is_open(),
                    }
                },
            },
    {
        match self.left_child.close() {
            Err(e) => {
                return Err(e);
            },
            Ok(_) => {},
        }
        let closed = self.right_child.close();
        if closed.is_ok() {
            self.open = false;
            self.current_tuple = None;
            self.map = None;
            self.current_matches.clear();
            self.match_index = 0;
            assert(self.found() =~= Seq::<Row>::empty());
        }
        closed
    }

    fn rewind(&mut self) -> (r: Result<(), CrustyError>)
        ensures
            final(self).left_expr() == old(self).left_expr(),
            final(self).right_expr() == old(self).right_expr(),
            final(self).right() == old(self).right(),
            final(self).table() == old(self).table(),
            old(self).left().on_rewind() matches Ok(lefts) ==> {
                &&& final(self).left().is_open()
                &&& final(self).left().pending() == tail(lefts)
            },
            r is Err ==> {
                &&& final(self).current() == old(self).current()
                &&& final(self).found() == old(self).found()
                &&& final(self).position() == old(self).position()
            },
    {
        match self.left_child.rewind() {
            Err(e) => {
                return Err(e);
            },
            Ok(_) => {},
        }
        let ghost lefts = self.left_child.pending();
        match self.left_child.next() {
            Err(e) => {
                return Err(e);
            },
            Ok(t) => {
                self.current_tuple = t;
            },
        }
        if let Some(left_tuple) = &self.current_tuple {
            self.current_matches = self.matches_of(left_tuple);
        }
        self.match_index = 0;
        proof {
            assert(self.found().skip(0) =~= self.found());
            assert(self.pending() =~= joined(lefts, self.table(), self.left_expr()));
        }
        Ok(())
    }

    fn get_schema(&self) -> (r: &TableSchema) {
        &self.schema
    }
}

} // verus!
