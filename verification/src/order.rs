//! Strict total orders, and the dictionary order that one gives on sequences.
use vstd::prelude::*;

verus! {

/// How one key stands to another.
#[derive(Clone, Copy, Debug, PartialEq, Eq)]
pub enum Order {
    Less,
    Equal,
    Greater,
}

/// Of any two elements that differ one stands before the other, never both, and what
/// stands before an element stands before all that come after it.
pub open spec fn strict_total_order<A>(lt: spec_fn(A, A) -> bool) -> bool {
    &&& forall|a: A| !#[trigger] lt(a, a)
    &&& forall|a: A, b: A, c: A| #[trigger] lt(a, b) && #[trigger] lt(b, c) ==> lt(a, c)
    &&& forall|a: A, b: A| #[trigger] lt(a, b) || a == b || lt(b, a)
}

/// Dictionary order: the first place where the sequences differ decides, and a sequence
/// stands before every longer one that begins with it.
pub open spec fn lexicographic<A>(s: Seq<A>, t: Seq<A>, lt: spec_fn(A, A) -> bool) -> bool
    decreases s.len(),
{
    if t.len() == 0 {
        false
    } else if s.len() == 0 {
        true
    } else if s[0] == t[0] {
        lexicographic(s.drop_first(), t.drop_first(), lt)
    } else {
        lt(s[0], t[0])
    }
}

proof fn lemma_lexicographic_irreflexive<A>(s: Seq<A>, lt: spec_fn(A, A) -> bool)
    ensures
        !lexicographic(s, s, lt),
    decreases s.len(),
{
    if s.len() > 0 {
        lemma_lexicographic_irreflexive(s.drop_first(), lt);
    }
}

proof fn lemma_lexicographic_transitive<A>(
    s: Seq<A>,
    t: Seq<A>,
    u: Seq<A>,
    lt: spec_fn(A, A) -> bool,
)
    requires
        strict_total_order(lt),
        lexicographic(s, t, lt),
        lexicographic(t, u, lt),
    ensures
        lexicographic(s, u, lt),
    decreases s.len(),
{
    if s.len() > 0 {
        if s[0] == t[0] && t[0] == u[0] {
            lemma_lexicographic_transitive(s.drop_first(), t.drop_first(), u.drop_first(), lt);
        } else {
            assert(lt(s[0], t[0]) || s[0] == t[0]);
            assert(lt(t[0], u[0]) || t[0] == u[0]);
            assert(!lt(s[0], s[0]));
        }
    }
}

proof fn lemma_lexicographic_total<A>(s: Seq<A>, t: Seq<A>, lt: spec_fn(A, A) -> bool)
    requires
        strict_total_order(lt),
    ensures
        lexicographic(s, t, lt) || s == t || lexicographic(t, s, lt),
    decreases s.len(),
{
    if s.len() == 0 || t.len() == 0 {
        assert(s.len() == 0 && t.len() == 0 ==> s =~= t);
    } else if s[0] == t[0] {
        lemma_lexicographic_total(s.drop_first(), t.drop_first(), lt);
        if s.drop_first() == t.drop_first() {
            assert(s =~= seq![s[0]] + s.drop_first());
            assert(t =~= seq![t[0]] + t.drop_first());
        }
    } else {
        assert(lt(s[0], t[0]) || lt(t[0], s[0]));
    }
}

/// Where two sequences begin alike, what follows decides their order.
pub proof fn lemma_lexicographic_skips_common_prefix<A>(
    s: Seq<A>,
    t: Seq<A>,
    n: int,
    lt: spec_fn(A, A) -> bool,
)
    requires
        0 <= n <= s.len(),
        n <= t.len(),
        forall|i: int| 0 <= i < n ==> s[i] == t[i],
    ensures
        lexicographic(s, t, lt) == lexicographic(s.skip(n), t.skip(n), lt),
    decreases n,
{
    if n == 0 {
        assert(s.skip(0) =~= s);
        assert(t.skip(0) =~= t);
    } else {
        lemma_lexicographic_skips_common_prefix(s.drop_first(), t.drop_first(), n - 1, lt);
        assert(s.drop_first().skip(n - 1) =~= s.skip(n));
        assert(t.drop_first().skip(n - 1) =~= t.skip(n));
    }
}

/// One sequence stands before another exactly if the two are alike up to some place, and there
/// the first has ended and the second has not, or has the lesser element.
pub proof fn lemma_lexicographic_first_difference<A>(
    s: Seq<A>,
    t: Seq<A>,
    lt: spec_fn(A, A) -> bool,
)
    requires
        strict_total_order(lt),
    ensures
        lexicographic(s, t, lt) <==> exists|i: int|
            0 <= i <= s.len() && i < t.len() && s.take(i) == #[trigger] t.take(i) && (i < s.len()
                ==> lt(s[i], t[i])),
    decreases s.len(),
{
    if lexicographic(s, t, lt) {
        let i = lemma_first_difference(s, t, lt);
        assert(s.take(i) == t.take(i));
    }
    if exists|i: int|
        0 <= i <= s.len() && i < t.len() && s.take(i) == #[trigger] t.take(i) && (i < s.len()
            ==> lt(s[i], t[i])) {
        let i = choose|i: int|
            0 <= i <= s.len() && i < t.len() && s.take(i) == #[trigger] t.take(i) && (i < s.len()
                ==> lt(s[i], t[i]));
        assert forall|j: int| 0 <= j < i implies s[j] == t[j] by {
            assert(s.take(i)[j] == t.take(i)[j]);
        }
        lemma_lexicographic_skips_common_prefix(s, t, i, lt);
        let a = s.skip(i);
        let b = t.skip(i);
        if i < s.len() {
            assert(a[0] == s[i] && b[0] == t[i]);
            assert(!lt(t[i], t[i]));
        }
    }
}

/// The first place where two sequences differ of which one stands before the other.
proof fn lemma_first_difference<A>(s: Seq<A>, t: Seq<A>, lt: spec_fn(A, A) -> bool) -> (i: int)
    requires
        lexicographic(s, t, lt),
    ensures
        0 <= i <= s.len(),
        i < t.len(),
        s.take(i) == t.take(i),
        i < s.len() ==> lt(s[i], t[i]),
    decreases s.len(),
{
    if s.len() > 0 && s[0] == t[0] && !lt(s[0], t[0]) {
        let i = lemma_first_difference(s.drop_first(), t.drop_first(), lt);
        assert forall|j: int| 0 <= j < i + 1 implies s[j] == t[j] by {
            if j > 0 {
                assert(s.drop_first().take(i)[j - 1] == t.drop_first().take(i)[j - 1]);
            }
        }
        assert(s.take(i + 1) =~= t.take(i + 1));
        i + 1
    } else {
        assert(s.take(0) =~= t.take(0));
        0
    }
}

/// Dictionary order is a strict total order wherever the order of the elements is one.
pub proof fn lemma_lexicographic_is_strict_total<A>(lt: spec_fn(A, A) -> bool)
    requires
        strict_total_order(lt),
    ensures
        forall|s: Seq<A>| !#[trigger] lexicographic(s, s, lt),
        forall|s: Seq<A>, t: Seq<A>, u: Seq<A>| #[trigger]
            lexicographic(s, t, lt) && #[trigger] lexicographic(t, u, lt) ==> lexicographic(
                s,
                u,
                lt,
            ),
        forall|s: Seq<A>, t: Seq<A>| #[trigger]
            lexicographic(s, t, lt) || s == t || lexicographic(t, s, lt),
{
    assert forall|s: Seq<A>| !#[trigger] lexicographic(s, s, lt) by {
        lemma_lexicographic_irreflexive(s, lt);
    }
    assert forall|s: Seq<A>, t: Seq<A>, u: Seq<A>| #[trigger]
        lexicographic(s, t, lt) && #[trigger] lexicographic(t, u, lt) implies lexicographic(
        s,
        u,
        lt,
    ) by {
        lemma_lexicographic_transitive(s, t, u, lt);
    }
    assert forall|s: Seq<A>, t: Seq<A>| #[trigger]
        lexicographic(s, t, lt) || s == t || lexicographic(t, s, lt) by {
        lemma_lexicographic_total(s, t, lt);
    }
}

/// A type whose values can be put in order by what they stand for.
pub trait SortKey: View {
    /// Whether `a` stands before `b`.
    spec fn before(a: Self::V, b: Self::V) -> bool;

    /// `before` is a strict total order.
    proof fn before_is_strict_total()
        ensures
            forall|a: Self::V| !#[trigger] Self::before(a, a),
            forall|a: Self::V, b: Self::V, c: Self::V| #[trigger]
                Self::before(a, b) && #[trigger] Self::before(b, c) ==> Self::before(a, c),
            forall|a: Self::V, b: Self::V| #[trigger]
                Self::before(a, b) || a == b || Self::before(b, a),
    ;

    /// How `self` stands to `other`.
    fn compare(&self, other: &Self) -> (r: Order)
        ensures
            r is Less <==> Self::before(self@, other@),
            r is Equal <==> self@ == other@,
            r is Greater <==> Self::before(other@, self@),
    ;
}

} // verus!
