//! What joins give, pair by pair.
use vstd::prelude::*;
use crate::bytecode_expr::ByteCodeExpr;
use crate::error::CrustyError;
use crate::field::Value;
use crate::hash_join::{
    evaluates_on, having, joined, partners, table_of, HashEqJoin,
};
use crate::laws::{
    evaluates_on_all, join_rows, lemma_join_is_of_rows, lemma_join_of_tuples,
    lemma_join_of_tuples_starts_over,
};
use crate::opiterator::{
    feed_of, lemma_read_feed_of, lemma_read_up_to_error, never_stuck, Feed, OpIterator,
    Outcome, TupleIterator,
};
use crate::tuple::Row;

verus! {

/// Whether a feed gives the pairs that stand at the places `at`, each a left row followed by a
/// right row, and nothing else.
pub open spec fn gives_pairs(
    f: Feed,
    at: Seq<(int, int)>,
    lefts: Seq<Row>,
    rights: Seq<Row>,
) -> bool {
    &&& f.len() == at.len()
    &&& forall|n: int|
        0 <= n < at.len() ==> 0 <= (#[trigger] at[n]).0 < lefts.len() && 0 <= at[n].1
            < rights.len()
    &&& forall|n: int|
        0 <= n < at.len() ==> #[trigger] f[n] == Outcome::Row(lefts[at[n].0] + rights[at[n].1])
}

/// Whether places stand in order: by the left row, and for the same left row by the right row.
pub open spec fn in_nested_order(at: Seq<(int, int)>) -> bool {
    forall|m: int, n: int|
        0 <= m < n < at.len() ==> (#[trigger] at[m]).0 < (#[trigger] at[n]).0 || (at[m].0
            == at[n].0 && at[m].1 < at[n].1)
}

/// Whether the places are those, and only those, of a left and a right row on which the two
/// expressions have the same value.
pub open spec fn where_values_agree(
    at: Seq<(int, int)>,
    lefts: Seq<Row>,
    rights: Seq<Row>,
    left_expr: ByteCodeExpr,
    right_expr: ByteCodeExpr,
) -> bool {
    forall|i: int, j: int|
        0 <= i < lefts.len() && 0 <= j < rights.len() ==> (at.contains((i, j)) <==> left_expr.value(
            #[trigger] lefts[i],
        ) == right_expr.value(#[trigger] rights[j]))
}

/// A join of tuples out of memory, opened for the first time or after it has been closed any
/// number of times, and rewound, gives each left tuple followed by each right tuple on which
/// the two expressions have the same value: every such pair once, no other, in the order of the
/// left tuples and for each of them in the order of the right tuples.
pub proof fn lemma_join_gives_all_pairs(
    j: HashEqJoin<TupleIterator, TupleIterator>,
    n: nat,
)
    requires
        forall|i: int|
            0 <= i < j.left().all().len() ==> j.left_expr().evaluates(
                #[trigger] j.left().all()[i],
            ),
    ensures
        exists|at: Seq<(int, int)>|
            #![trigger in_nested_order(at)]
            {
                let lefts = j.left().all();
                let rights = j.right().all();
                &&& in_nested_order(at)
                &&& where_values_agree(at, lefts, rights, j.left_expr(), j.right_expr())
                &&& j.outlook(n).opened matches Ok(f) && gives_pairs(f, at, lefts, rights)
                &&& j.outlook(n).rewound matches Ok(f) && gives_pairs(f, at, lefts, rights)
                &&& j.inv() && !j.is_open() && !j.left().is_open() && !j.right().is_open() ==> {
                    &&& j.on_open() matches Ok(f) && gives_pairs(f, at, lefts, rights)
                    &&& j.on_rewind() matches Ok(f) && gives_pairs(f, at, lefts, rights)
                }
            },
{
    let lefts = j.left().all();
    let rights = j.right().all();
    assert(evaluates_on_all(j.left_expr(), lefts));
    lemma_join_of_tuples_starts_over(j, n);
    if j.inv() && !j.is_open() && !j.left().is_open() && !j.right().is_open() {
        lemma_join_of_tuples(j);
    }
    let at = lemma_places(lefts, rights, j.left_expr(), j.right_expr());
    assert(in_nested_order(at));
}

/// The places of the rows of a join.
proof fn lemma_places(
    lefts: Seq<Row>,
    rights: Seq<Row>,
    left_expr: ByteCodeExpr,
    right_expr: ByteCodeExpr,
) -> (at: Seq<(int, int)>)
    ensures
        in_nested_order(at),
        where_values_agree(at, lefts, rights, left_expr, right_expr),
        gives_pairs(
            feed_of(join_rows(lefts, rights, left_expr, right_expr)),
            at,
            lefts,
            rights,
        ),
    decreases lefts.len(),
{
    if lefts.len() == 0 {
        Seq::empty()
    } else {
        let left = lefts[0];
        let rest = lefts.drop_first();
        let k = left_expr.value(left);
        let found = partners(rights, right_expr, k);
        let first = found.map_values(|right: Row| left + right);
        let idx = lemma_filter_places(rights, having(right_expr, k));
        let later = lemma_places(rest, rights, left_expr, right_expr);
        let head = Seq::new(idx.len(), |n: int| (0int, idx[n]));
        let tail = Seq::new(later.len(), |n: int| (later[n].0 + 1, later[n].1));
        let at = head + tail;
        let all = join_rows(lefts, rights, left_expr, right_expr);
        let others = join_rows(rest, rights, left_expr, right_expr);
        assert(all =~= first + others);
        assert forall|n: int| 0 <= n < at.len() implies 0 <= (#[trigger] at[n]).0 < lefts.len()
            && 0 <= at[n].1 < rights.len() && feed_of(all)[n] == Outcome::Row(
            lefts[at[n].0] + rights[at[n].1],
        ) by {
            if n < head.len() {
                assert(found[n] == rights[idx[n]]);
                assert(all[n] == left + found[n]);
            } else {
                let m = n - head.len();
                assert(at[n] == (later[m].0 + 1, later[m].1));
                assert(rest[later[m].0] == lefts[later[m].0 + 1]);
                assert(all[n] == others[m]);
                assert(feed_of(others)[m] == Outcome::Row(
                    rest[later[m].0] + rights[later[m].1],
                ));
            }
        }
        assert forall|m: int, n: int| 0 <= m < n < at.len() implies (#[trigger] at[m]).0 < (
        #[trigger] at[n]).0 || (at[m].0 == at[n].0 && at[m].1 < at[n].1) by {
            if n < head.len() {
                assert(idx[m] < idx[n]);
            } else {
                assert(at[n] == (later[n - head.len()].0 + 1, later[n - head.len()].1));
                assert(0 <= later[n - head.len()].0);
                if m >= head.len() {
                    assert(at[m] == (later[m - head.len()].0 + 1, later[m - head.len()].1));
                }
            }
        }
        assert forall|i: int, j: int| 0 <= i < lefts.len() && 0 <= j < rights.len() implies (
        at.contains((i, j)) <==> left_expr.value(#[trigger] lefts[i]) == right_expr.value(
            #[trigger] rights[j],
        )) by {
            if i == 0 {
                if at.contains((i, j)) {
                    let n = at.index_of((i, j));
                    if n >= head.len() {
                        assert(0 <= later[n - head.len()].0);
                    }
                    assert(idx[n] == j);
                    assert(having(right_expr, k)(rights[j]));
                }
                if k == right_expr.value(rights[j]) {
                    assert(having(right_expr, k)(rights[j]));
                    assert(idx.contains(j));
                    let n = idx.index_of(j);
                    assert(at[n] == (i, j));
                }
            } else {
                assert(rest[i - 1] == lefts[i]);
                assert(later.contains((i - 1, j)) <==> left_expr.value(rest[i - 1])
                    == right_expr.value(rights[j]));
                if at.contains((i, j)) {
                    let n = at.index_of((i, j));
                    assert(n >= head.len());
                    assert(later[n - head.len()] == (i - 1, j));
                }
                if later.contains((i - 1, j)) {
                    let n = later.index_of((i - 1, j));
                    assert(at[head.len() + n] == (i, j));
                }
            }
        }
        at
    }
}

/// The places of what is kept of a sequence.
proof fn lemma_filter_places<A>(s: Seq<A>, pred: spec_fn(A) -> bool) -> (idx: Seq<int>)
    ensures
        idx.len() == s.filter(pred).len(),
        forall|n: int|
            0 <= n < idx.len() ==> 0 <= #[trigger] idx[n] < s.len() && s.filter(pred)[n]
                == s[idx[n]] && pred(s[idx[n]]),
        forall|m: int, n: int| 0 <= m < n < idx.len() ==> #[trigger] idx[m] < #[trigger] idx[n],
        forall|j: int| 0 <= j < s.len() && pred(#[trigger] s[j]) ==> idx.contains(j),
    decreases s.len(),
{
    reveal(Seq::filter);
    if s.len() == 0 {
        Seq::empty()
    } else {
        let rest = s.drop_last();
        let before = lemma_filter_places(rest, pred);
        let last = s.len() - 1;
        let idx = if pred(s.last()) {
            before.push(last)
        } else {
            before
        };
        assert forall|j: int| 0 <= j < s.len() && pred(#[trigger] s[j]) implies idx.contains(j) by {
            if j < last {
                assert(rest[j] == s[j]);
                let n = before.index_of(j);
                assert(idx[n] == j);
            } else {
                assert(idx[idx.len() - 1] == j);
            }
        }
        idx
    }
}

/// Joining a feed of left rows in two parts comes to the same as joining it at once; an error
/// among the left rows is given at its place, and what comes after it is joined all the same.
pub proof fn lemma_join_of_parts(
    f: Feed,
    g: Feed,
    table: Map<Value, Seq<Row>>,
    expr: ByteCodeExpr,
    e: CrustyError,
)
    requires
        never_stuck(f),
        evaluates_on(expr, f),
    ensures
        joined(f + g, table, expr) == joined(f, table, expr) + joined(g, table, expr),
        joined(seq![Outcome::Error(e)], table, expr) == seq![Outcome::Error(e)],
        joined(Seq::empty(), table, expr) == Seq::<Outcome>::empty(),
        joined(f + seq![Outcome::Error(e)] + g, table, expr) == joined(f, table, expr) + seq![
            Outcome::Error(e),
        ] + joined(g, table, expr),
    decreases f.len(),
{
    lemma_join_in_two_parts(f, g, table, expr);
    let one = seq![Outcome::Error(e)];
    assert(one.drop_first() =~= Seq::empty());
    assert(joined(one.drop_first(), table, expr) =~= Seq::empty());
    assert(joined(one, table, expr) =~= one);
    lemma_join_in_two_parts(one, g, table, expr);
    lemma_join_in_two_parts(f, one + g, table, expr);
    assert(f + one + g =~= f + (one + g));
    assert(joined(f, table, expr) + one + joined(g, table, expr) =~= joined(f, table, expr) + (one
        + joined(g, table, expr)));
}

proof fn lemma_join_in_two_parts(
    f: Feed,
    g: Feed,
    table: Map<Value, Seq<Row>>,
    expr: ByteCodeExpr,
)
    requires
        never_stuck(f),
        evaluates_on(expr, f),
    ensures
        joined(f + g, table, expr) == joined(f, table, expr) + joined(g, table, expr),
    decreases f.len(),
{
    if f.len() == 0 {
        assert(f + g =~= g);
        assert(joined(f, table, expr) + joined(g, table, expr) =~= joined(g, table, expr));
    } else {
        let rest = f.drop_first();
        assert forall|i: int| 0 <= i < rest.len() implies !(#[trigger] rest[i] is Stuck) && (
        rest[i] matches Outcome::Row(row) ==> expr.evaluates(row)) by {
            assert(rest[i] == f[i + 1]);
        }
        lemma_join_in_two_parts(rest, g, table, expr);
        assert((f + g).drop_first() =~= rest + g);
        assert((f + g)[0] == f[0]);
        assert(!(f[0] is Stuck));
        assert(joined(f + g, table, expr) =~= joined(f, table, expr) + joined(g, table, expr));
    }
}

/// A left row that is given to a join finds its partners among the right rows: its pairs are
/// exactly those with the right rows on which the right expression has the value that the left
/// expression has on it, in the order of the right rows.
pub proof fn lemma_join_of_one_row(
    left: Row,
    rights: Seq<Row>,
    left_expr: ByteCodeExpr,
    right_expr: ByteCodeExpr,
)
    requires
        left_expr.evaluates(left),
    ensures
        exists|at: Seq<(int, int)>|
            #![trigger in_nested_order(at)]
            {
                &&& in_nested_order(at)
                &&& where_values_agree(at, seq![left], rights, left_expr, right_expr)
                &&& gives_pairs(
                    joined(
                        seq![Outcome::Row(left)],
                        table_of(rights, right_expr),
                        left_expr,
                    ),
                    at,
                    seq![left],
                    rights,
                )
            },
{
    let lefts = seq![left];
    lemma_join_is_of_rows(lefts, rights, left_expr, right_expr);
    assert(feed_of(lefts) =~= seq![Outcome::Row(left)]);
    let at = lemma_places(lefts, rights, left_expr, right_expr);
    assert(in_nested_order(at));
}

/// What opening a join comes to, over children of any kind. The first that fails decides: opening
/// the left child, opening the right child, asking for the first left row, reading the right
/// rows. Where none fails, the left rows are joined with the right rows. Closing fails with the
/// left child, and only then with the right one.
pub proof fn lemma_join_over_children<L: OpIterator, R: OpIterator>(
    j: HashEqJoin<L, R>,
    lefts: Feed,
    rights: Seq<Row>,
    rest: Feed,
    e: CrustyError,
)
    requires
        !j.is_open(),
    ensures
        j.left().on_open() == Err::<Feed, CrustyError>(e) ==> j.on_open() == Err::<
            Feed,
            CrustyError,
        >(e),
        j.left().on_open() is Ok && j.right().on_open() == Err::<Feed, CrustyError>(e)
            ==> j.on_open() == Err::<Feed, CrustyError>(e),
        j.left().on_open() == Ok::<Feed, CrustyError>(seq![Outcome::Error(e)] + rest)
            && j.right().on_open() is Ok ==> j.on_open() == Err::<Feed, CrustyError>(e),
        j.left().on_open() == Ok::<Feed, CrustyError>(lefts) && !(lefts.len() > 0
            && lefts[0] is Error) && j.right().on_open() == Ok::<Feed, CrustyError>(
            feed_of(rights) + seq![Outcome::Error(e)] + rest,
        ) ==> j.on_open() == Err::<Feed, CrustyError>(e),
        j.left().on_open() == Ok::<Feed, CrustyError>(lefts) && !(lefts.len() > 0
            && lefts[0] is Error) && j.right().on_open() == Ok::<Feed, CrustyError>(
            feed_of(rights),
        ) ==> j.on_open() == Ok::<Feed, CrustyError>(
            joined(lefts, table_of(rights, j.right_expr()), j.left_expr()),
        ),
        j.left().on_close() == Err::<(), CrustyError>(e) ==> j.on_close() == Err::<
            (),
            CrustyError,
        >(e),
        j.left().on_close() is Ok ==> j.on_close() == j.right().on_close(),
{
    lemma_read_feed_of(rights);
    lemma_read_up_to_error(rights, e, rest);
    assert((seq![Outcome::Error(e)] + rest)[0] == Outcome::Error(e));
}

/// What rewinding an open join comes to: the error of rewinding its left child or of asking for
/// the first left row, or else all left rows joined anew.
pub proof fn lemma_join_rewound_over_child<L: OpIterator, R: OpIterator>(
    j: HashEqJoin<L, R>,
    lefts: Feed,
    rest: Feed,
    e: CrustyError,
)
    requires
        j.is_open(),
    ensures
        j.left().on_rewind() == Err::<Feed, CrustyError>(e) ==> j.on_rewind() == Err::<
            Feed,
            CrustyError,
        >(e),
        j.left().on_rewind() == Ok::<Feed, CrustyError>(seq![Outcome::Error(e)] + rest)
            ==> j.on_rewind() == Err::<Feed, CrustyError>(e),
        j.left().on_rewind() == Ok::<Feed, CrustyError>(lefts) && !(lefts.len() > 0
            && lefts[0] is Error) ==> j.on_rewind() == Ok::<Feed, CrustyError>(
            joined(lefts, j.table(), j.left_expr()),
        ),
{
    assert((seq![Outcome::Error(e)] + rest)[0] == Outcome::Error(e));
}

} // verus!
