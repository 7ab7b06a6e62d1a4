//! Operators: what a query plan is made of.
use vstd::prelude::*;
use crate::error::CrustyError;
use crate::tuple::{rows, Row, TableSchema, Tuple};

verus! {

/// What becomes of a call of `next` before the end is reached.
pub enum Outcome {
    /// The call gives a row.
    Row(Row),
    /// The call fails.
    Error(CrustyError),
    /// The call must not be made: something that it would compute has no value.
    Stuck,
}

/// What an operator has yet to give: the outcome of each call of `next`, up to the point from
/// which on there is nothing more.
pub type Feed = Seq<Outcome>;

/// The feed that gives the rows, one after the other, without an error.
pub open spec fn feed_of(s: Seq<Row>) -> Feed {
    s.map_values(|r: Row| Outcome::Row(r))
}

/// Whether `next` must not be called on this feed.
pub open spec fn stuck(f: Feed) -> bool {
    f.len() > 0 && f[0] is Stuck
}

/// Whether `next` may be called on this feed again and again.
pub open spec fn never_stuck(f: Feed) -> bool {
    forall|i: int| 0 <= i < f.len() ==> !(#[trigger] f[i] is Stuck)
}

/// Whether a feed may be read until it ends or fails.
pub open spec fn readable(f: Feed) -> bool
    decreases f.len(),
{
    f.len() > 0 ==> match f[0] {
        Outcome::Row(_) => readable(f.drop_first()),
        Outcome::Error(_) => true,
        Outcome::Stuck => false,
    }
}

/// What comes of reading a feed until it ends or fails: the rows, and the error if there is one.
pub open spec fn read(f: Feed) -> (Seq<Row>, Option<CrustyError>)
    decreases f.len(),
{
    if f.len() == 0 {
        (Seq::empty(), None)
    } else {
        match f[0] {
            Outcome::Row(r) => (seq![r] + read(f.drop_first()).0, read(f.drop_first()).1),
            Outcome::Error(e) => (Seq::empty(), Some(e)),
            Outcome::Stuck => (Seq::empty(), None),
        }
    }
}

/// What is left of a feed when it has been read until it ended or failed.
pub open spec fn after_reading(f: Feed) -> Feed {
    match read(f) {
        (s, Some(_)) => f.skip(s.len() as int + 1),
        (_, None) => Seq::empty(),
    }
}

/// Reading a feed without errors gives its rows.
pub proof fn lemma_read_feed_of(s: Seq<Row>)
    ensures
        readable(feed_of(s)),
        never_stuck(feed_of(s)),
        read(feed_of(s)) == (s, None::<CrustyError>),
    decreases s.len(),
{
    if s.len() > 0 {
        lemma_read_feed_of(s.drop_first());
        assert(feed_of(s).drop_first() =~= feed_of(s.drop_first()));
        assert(seq![s[0]] + s.drop_first() =~= s);
    }
}

/// The feed of some rows has each of them at its place, and nothing else.
pub proof fn lemma_feed_of(s: Seq<Row>)
    ensures
        feed_of(s).len() == s.len(),
        forall|i: int| 0 <= i < s.len() ==> #[trigger] feed_of(s)[i] == Outcome::Row(s[i]),
{
}

/// A call must not be made exactly if the outcome that stands first says so; a feed may be read
/// exactly if no such outcome comes before its end or its first error.
pub proof fn lemma_readable(f: Feed)
    ensures
        stuck(f) <==> f.len() > 0 && f[0] == Outcome::Stuck,
        readable(f) <==> forall|i: int|
            0 <= i < f.len() && #[trigger] f[i] is Stuck ==> exists|h: int|
                0 <= h < i && #[trigger] f[h] is Error,
    decreases f.len(),
{
    if f.len() > 0 {
        let rest = f.drop_first();
        lemma_readable(rest);
        if f[0] is Row {
            if readable(rest) {
                assert forall|i: int| 0 <= i < f.len() && #[trigger] f[i] is Stuck implies exists|
                    h: int,
                |
                    0 <= h < i && #[trigger] f[h] is Error by {
                    assert(rest[i - 1] == f[i]);
                    let h = choose|h: int| 0 <= h < i - 1 && #[trigger] rest[h] is Error;
                    assert(f[h + 1] is Error);
                }
            }
            if forall|i: int|
                0 <= i < f.len() && #[trigger] f[i] is Stuck ==> exists|h: int|
                    0 <= h < i && #[trigger] f[h] is Error {
                assert forall|i: int|
                    0 <= i < rest.len() && #[trigger] rest[i] is Stuck implies exists|h: int|
                    0 <= h < i && #[trigger] rest[h] is Error by {
                    assert(f[i + 1] is Stuck);
                    let h = choose|h: int| 0 <= h < i + 1 && #[trigger] f[h] is Error;
                    assert(rest[h - 1] is Error);
                }
            }
        }
    }
}

/// Reading a feed up to an error gives the rows before it.
pub proof fn lemma_read_up_to_error(s: Seq<Row>, e: CrustyError, rest: Feed)
    ensures
        readable(feed_of(s) + seq![Outcome::Error(e)] + rest),
        read(feed_of(s) + seq![Outcome::Error(e)] + rest) == (s, Some(e)),
    decreases s.len(),
{
    let f = feed_of(s) + seq![Outcome::Error(e)] + rest;
    if s.len() > 0 {
        lemma_read_up_to_error(s.drop_first(), e, rest);
        assert(f.drop_first() =~= feed_of(s.drop_first()) + seq![Outcome::Error(e)] + rest);
        assert(f[0] == Outcome::Row(s[0]));
        assert(seq![s[0]] + s.drop_first() =~= s);
    } else {
        assert(f[0] == Outcome::Error(e));
        assert(s =~= Seq::empty());
    }
}

/// A feed without errors gives no other rows than its own.
pub proof fn lemma_feed_of_is_injective(s: Seq<Row>, t: Seq<Row>)
    requires
        feed_of(s) == feed_of(t),
    ensures
        s == t,
{
    lemma_read_feed_of(s);
    lemma_read_feed_of(t);
}

/// A feed on which `next` may be called again and again may be read until it ends or fails.
pub proof fn lemma_never_stuck_is_readable(f: Feed)
    requires
        never_stuck(f),
    ensures
        readable(f),
    decreases f.len(),
{
    if f.len() > 0 {
        assert forall|i: int| 0 <= i < f.drop_first().len() implies !(
        #[trigger] f.drop_first()[i] is Stuck) by {
            assert(f.drop_first()[i] == f[i + 1]);
        }
        lemma_never_stuck_is_readable(f.drop_first());
    }
}

/// What a call of `next` came to.
pub open spec fn fetched(r: Result<Option<Tuple>, CrustyError>) -> Option<Outcome> {
    match r {
        Ok(Some(t)) => Some(Outcome::Row(t@)),
        Ok(None) => None,
        Err(e) => Some(Outcome::Error(e)),
    }
}

/// The first thing that a feed gives, if it gives anything.
pub open spec fn head(f: Feed) -> Option<Outcome> {
    if f.len() > 0 {
        Some(f[0])
    } else {
        None
    }
}

/// What is left of a feed when its first thing is gone.
pub open spec fn tail(f: Feed) -> Feed {
    if f.len() > 0 {
        f.drop_first()
    } else {
        f
    }
}

/// What an operator will come to once it has been closed.
pub struct Outlook {
    /// What `open` would come to: the feed that it starts, or its error.
    pub opened: Result<Feed, CrustyError>,
    /// Whether the operator may be opened.
    pub openable: bool,
    /// What `rewind` would come to, once the operator is open: the feed that it starts, or
    /// its error.
    pub rewound: Result<Feed, CrustyError>,
    /// Whether the operator, once it is open, may be rewound.
    pub rewindable: bool,
}

/// An operator of a query plan. It gives tuples, one at each call of `next`, between `open`
/// and `close`; every call may fail, and which ones do is up to the operator.
///
/// The spec functions say what the operator will come to; they stand for it in contracts.
/// An operator that is not itself verified need not define them.
pub trait OpIterator {
    /// What holds of the operator between calls.
    open spec fn inv(&self) -> bool {
        arbitrary()
    }

    /// Whether the operator is open.
    open spec fn is_open(&self) -> bool {
        arbitrary()
    }

    /// Whether the operator was last told that it will be rewound.
    open spec fn will_rewind(&self) -> bool {
        arbitrary()
    }

    /// The columns of the tuples that the operator gives.
    open spec fn schema(&self) -> TableSchema {
        arbitrary()
    }

    /// What `next` has yet to give.
    open spec fn pending(&self) -> Feed {
        arbitrary()
    }

    /// What `open` would come to: the feed that it starts, or its error.
    open spec fn on_open(&self) -> Result<Feed, CrustyError> {
        arbitrary()
    }

    /// What `close` would come to.
    open spec fn on_close(&self) -> Result<(), CrustyError> {
        arbitrary()
    }

    /// What `rewind` would come to, once the operator is open: the feed that it starts, or
    /// its error.
    open spec fn on_rewind(&self) -> Result<Feed, CrustyError> {
        arbitrary()
    }

    /// Whether `open` may be called: all that it would compute has a value.
    open spec fn openable(&self) -> bool {
        arbitrary()
    }

    /// Whether `rewind` may be called, once the operator is open: all that it would compute
    /// has a value.
    open spec fn rewindable(&self) -> bool {
        arbitrary()
    }

    /// What the operator will come to when it has been closed `n` times and then once more.
    /// Reading and rewinding it do not change this.
    open spec fn outlook(&self, n: nat) -> Outlook {
        arbitrary()
    }

    /// Tells the operator whether it will be rewound. What it gives does not depend on it.
    fn configure(&mut self, will_rewind: bool)
        requires
            old(self).inv(),
        ensures
            final(self).inv(),
            final(self).will_rewind() == will_rewind,
            final(self).is_open() == old(self).is_open(),
            final(self).schema() == old(self).schema(),
            final(self).pending() == old(self).pending(),
            final(self).on_open() == old(self).on_open(),
            final(self).openable() == old(self).openable(),
            forall|n: nat|
                (#[trigger] final(self).outlook(n)).opened == old(self).outlook(n).opened,
            forall|n: nat|
                (#[trigger] final(self).outlook(n)).openable == old(self).outlook(n).openable,
            will_rewind ==> {
                &&& final(self).on_rewind() == old(self).on_rewind()
                &&& final(self).rewindable() == old(self).rewindable()
                &&& forall|n: nat| #[trigger] final(self).outlook(n) == old(self).outlook(n)
            },
    ;

    /// Opens the operator. One that is open already stays as it is.
    fn open(&mut self) -> (r: Result<(), CrustyError>)
        requires
            old(self).inv(),
            old(self).openable(),
        ensures
            final(self).inv(),
            final(self).will_rewind() == old(self).will_rewind(),
            final(self).schema() == old(self).schema(),
            forall|n: nat| #[trigger] final(self).outlook(n) == old(self).outlook(n),
            match r {
                Ok(_) => {
                    &&& final(self).is_open()
                    &&& old(self).on_open() == Ok::<Feed, CrustyError>(final(self).pending())
                    &&& final(self).on_rewind() == old(self).on_rewind()
                    &&& final(self).rewindable() == old(self).rewindable()
                },
                Err(e) => old(self).on_open() == Err::<Feed, CrustyError>(e),
            },
    ;

    /// Gives the next tuple, or nothing when there is no more.
    fn next(&mut self) -> (r: Result<Option<Tuple>, CrustyError>)
        requires
            old(self).inv(),
            old(self).is_open(),
            !stuck(old(self).pending()),
        ensures
            final(self).inv(),
            final(self).is_open(),
            final(self).will_rewind() == old(self).will_rewind(),
            final(self).schema() == old(self).schema(),
            fetched(r) == head(old(self).pending()),
            final(self).pending() == tail(old(self).pending()),
            old(self).pending().len() == 0 ==> {
                &&& r matches Ok(t) && t is None
                &&& final(self).pending().len() == 0
            },
            old(self).pending().len() > 0 ==> {
                &&& old(self).pending()[0] matches Outcome::Row(row) ==> (r matches Ok(Some(t))
                    && t@ == row)
                &&& old(self).pending()[0] matches Outcome::Error(e) ==> r == Err::<
                    Option<Tuple>,
                    CrustyError,
                >(e)
                &&& final(self).pending() == old(self).pending().subrange(
                    1,
                    old(self).pending().len() as int,
                )
            },
            final(self).on_rewind() == old(self).on_rewind(),
            final(self).rewindable() == old(self).rewindable(),
            forall|n: nat| #[trigger] final(self).outlook(n) == old(self).outlook(n),
    ;

    /// Closes the operator.
    fn close(&mut self) -> (r: Result<(), CrustyError>)
        requires
            old(self).inv(),
        ensures
            final(self).inv(),
            final(self).will_rewind() == old(self).will_rewind(),
            final(self).schema() == old(self).schema(),
            r == old(self).on_close(),
            r is Ok ==> {
                &&& !final(self).is_open()
                &&& final(self).on_open() == old(self).outlook(0).opened
                &&& final(self).openable() == old(self).outlook(0).openable
                &&& final(self).on_rewind() == old(self).outlook(0).rewound
                &&& final(self).rewindable() == old(self).outlook(0).rewindable
                &&& forall|n: nat| #[trigger]
                    final(self).outlook(n) == old(self).outlook(n + 1)
            },
    ;

    /// Takes the operator back to its first tuple.
    fn rewind(&mut self) -> (r: Result<(), CrustyError>)
        requires
            old(self).inv(),
            old(self).is_open(),
            old(self).rewindable(),
        ensures
            final(self).inv(),
            final(self).is_open(),
            final(self).will_rewind() == old(self).will_rewind(),
            final(self).schema() == old(self).schema(),
            forall|n: nat| #[trigger] final(self).outlook(n) == old(self).outlook(n),
            match r {
                Ok(_) => {
                    &&& old(self).on_rewind() == Ok::<Feed, CrustyError>(final(self).pending())
                    &&& final(self).on_rewind() == old(self).on_rewind()
                    &&& final(self).rewindable()
                },
                Err(e) => old(self).on_rewind() == Err::<Feed, CrustyError>(e),
            },
    ;

    /// The columns of the tuples that the operator gives.
    fn get_schema(&self) -> (r: &TableSchema)
        ensures
            *r == self.schema(),
    ;
}

/// The operator that gives tuples out of memory.
pub struct TupleIterator {
    tuples: Vec<Tuple>,
    schema: TableSchema,
    will_rewind: bool,
    open: bool,
    index: usize,
}

impl TupleIterator {
    /// All the rows that the operator gives.
    pub closed spec fn all(&self) -> Seq<Row> {
        rows(self.tuples@)
    }

    /// How many of them it has given.
    pub closed spec fn position(&self) -> int {
        self.index as int
    }

    /// While the operator is closed it has given no rows.
    pub proof fn lemma_inv(&self)
        requires
            self.inv(),
        ensures
            0 <= self.position() <= self.all().len(),
            !self.is_open() ==> self.position() == 0,
    {
    }

    /// The operator that gives `tuples`. It is closed.
    pub fn new(tuples: Vec<Tuple>, schema: TableSchema) -> (r: TupleIterator)
        ensures
            r.inv(),
            !r.is_open(),
            !r.will_rewind(),
            r.all() == rows(tuples@),
            r.all().len() == tuples@.len(),
            forall|i: int| 0 <= i < tuples@.len() ==> #[trigger] r.all()[i] == tuples@[i]@,
            r.position() == 0,
            r.schema() == schema,
    {
        TupleIterator { tuples, schema, will_rewind: false, open: false, index: 0 }
    }
}

/// The operator gives each of its tuples once, in their order: when it is opened, when it is
/// rewound, and when it is opened or rewound after it has been closed any number of times.
pub proof fn lemma_tuple_iterator(t: TupleIterator, n: nat)
    requires
        t.inv(),
        !t.is_open(),
    ensures
        t.openable(),
        t.rewindable(),
        t.on_open() == Ok::<Feed, CrustyError>(feed_of(t.all())),
        t.on_rewind() == Ok::<Feed, CrustyError>(feed_of(t.all())),
        t.outlook(n).opened == Ok::<Feed, CrustyError>(feed_of(t.all())),
        t.outlook(n).rewound == Ok::<Feed, CrustyError>(feed_of(t.all())),
        t.outlook(n).openable,
        t.outlook(n).rewindable,
        t.on_close() is Ok,
{
    t.lemma_inv();
    assert(t.all().skip(0) =~= t.all());
}

impl OpIterator for TupleIterator {
    closed spec fn inv(&self) -> bool {
        &&& self.index <= self.tuples@.len()
        &&& !self.open ==> self.index == 0
    }

    closed spec fn is_open(&self) -> bool {
        self.open
    }

    closed spec fn will_rewind(&self) -> bool {
        self.will_rewind
    }

    closed spec fn schema(&self) -> TableSchema {
        self.schema
    }

    open spec fn pending(&self) -> Feed {
        feed_of(self.all().skip(self.position()))
    }

    open spec fn on_open(&self) -> Result<Feed, CrustyError> {
        Ok(self.pending())
    }

    open spec fn on_close(&self) -> Result<(), CrustyError> {
        Ok(())
    }

    open spec fn on_rewind(&self) -> Result<Feed, CrustyError> {
        Ok(feed_of(self.all()))
    }

    open spec fn openable(&self) -> bool {
        true
    }

    open spec fn rewindable(&self) -> bool {
        true
    }

    open spec fn outlook(&self, n: nat) -> Outlook {
        Outlook {
            opened: Ok(feed_of(self.all())),
            openable: true,
            rewound: Ok(feed_of(self.all())),
            rewindable: true,
        }
    }

    fn configure(&mut self, will_rewind: bool)
        ensures
            final(self).all() == old(self).all(),
            final(self).position() == old(self).position(),
    {
        self.will_rewind = will_rewind;
    }

    fn open(&mut self) -> (r: Result<(), CrustyError>)
        ensures
            final(self).all() == old(self).all(),
            final(self).position() == old(self).position(),
    {
        self.open = true;
        Ok(())
    }

    fn next(&mut self) -> (r: Result<Option<Tuple>, CrustyError>)
        ensures
            final(self).all() == old(self).all(),
    {
        let ghost f = self.pending();
        if self.index < self.tuples.len() {
            let t = self.tuples[self.index].clone();
            self.index = self.index + 1;
            assert(f[0] == Outcome::Row(t@));
            assert(self.pending() =~= f.drop_first());
            Ok(Some(t))
        } else {
            Ok(None)
        }
    }

    fn close(&mut self) -> (r: Result<(), CrustyError>)
        ensures
            final(self).all() == old(self).all(),
            final(self).position() == 0,
    {
        self.open = false;
        self.index = 0;
        assert(self.all().skip(0) =~= self.all());
        Ok(())
    }

    fn rewind(&mut self) -> (r: Result<(), CrustyError>)
        ensures
            final(self).all() == old(self).all(),
            final(self).position() == 0,
    {
        self.index = 0;
        assert(self.all().skip(0) =~= self.all());
        Ok(())
    }

    fn get_schema(&self) -> (r: &TableSchema) {
        &self.schema
    }
}

/// An operator in a box is the operator in the box, so that a plan can be put together while
/// the program runs.
impl<O: OpIterator + ?Sized> OpIterator for Box<O> {
    open spec fn inv(&self) -> bool {
        (**self).inv()
    }

    open spec fn is_open(&self) -> bool {
        (**self).is_open()
    }

    open spec fn will_rewind(&self) -> bool {
        (**self).will_rewind()
    }

    open spec fn schema(&self) -> TableSchema {
        (**self).schema()
    }

    open spec fn pending(&self) -> Feed {
        (**self).pending()
    }

    open spec fn on_open(&self) -> Result<Feed, CrustyError> {
        (**self).on_open()
    }

    open spec fn on_close(&self) -> Result<(), CrustyError> {
        (**self).on_close()
    }

    open spec fn on_rewind(&self) -> Result<Feed, CrustyError> {
        (**self).on_rewind()
    }

    open spec fn openable(&self) -> bool {
        (**self).openable()
    }

    open spec fn rewindable(&self) -> bool {
        (**self).rewindable()
    }

    open spec fn outlook(&self, n: nat) -> Outlook {
        (**self).outlook(n)
    }

    fn configure(&mut self, will_rewind: bool) {
        (**self).configure(will_rewind)
    }

    fn open(&mut self) -> (r: Result<(), CrustyError>) {
        (**self).open()
    }

    fn next(&mut self) -> (r: Result<Option<Tuple>, CrustyError>) {
        (**self).next()
    }

    fn close(&mut self) -> (r: Result<(), CrustyError>) {
        (**self).close()
    }

    fn rewind(&mut self) -> (r: Result<(), CrustyError>) {
        (**self).rewind()
    }

    fn get_schema(&self) -> (r: &TableSchema) {
        (**self).get_schema()
    }
}

} // verus!
