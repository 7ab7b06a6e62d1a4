//! A map whose entries are kept in the order of their keys.
use vstd::prelude::*;
use crate::order::{Order, SortKey};

verus! {

/// Each element stands before all that follow it.
pub open spec fn ascending<K: SortKey>(q: Seq<K::V>) -> bool {
    forall|i: int, j: int| 0 <= i < j < q.len() ==> K::before(#[trigger] q[i], #[trigger] q[j])
}

/// The keys of a run of entries.
pub open spec fn keys<K: SortKey, V>(entries: Seq<(K, V)>) -> Seq<K::V> {
    entries.map_values(|e: (K, V)| e.0@)
}

/// The map that a run of entries lists.
pub open spec fn listed<K: SortKey, V>(entries: Seq<(K, V)>) -> Map<K::V, V> {
    Map::new(
        |k: K::V| keys(entries).contains(k),
        |k: K::V| entries[keys(entries).index_of(k)].1,
    )
}

/// A map from keys to values.
#[verifier::reject_recursive_types(K)]
pub struct SortedMap<K: SortKey, V> {
    entries: Vec<(K, V)>,
}

impl<K: SortKey, V> View for SortedMap<K, V> {
    type V = Map<K::V, V>;

    closed spec fn view(&self) -> Map<K::V, V> {
        listed(self.entries@)
    }
}

/// Among ascending keys each stands in one place.
pub proof fn lemma_ascending_keys_differ<K: SortKey, V>(entries: Seq<(K, V)>, i: int)
    requires
        ascending::<K>(keys(entries)),
        0 <= i < entries.len(),
    ensures
        listed(entries).contains_key(entries[i].0@),
        listed(entries)[entries[i].0@] == entries[i].1,
{
    let q = keys(entries);
    let k = entries[i].0@;
    assert(q[i] == k);
    assert(q.contains(k));
    let j = q.index_of(k);
    K::before_is_strict_total();
    assert(q[j] == k);
    if j < i {
        assert(K::before(q[j], q[i]));
    } else if i < j {
        assert(K::before(q[i], q[j]));
    }
}

/// Changing the value of an entry changes what its key maps to, and nothing else.
proof fn lemma_value_replaced<K: SortKey, V>(entries: Seq<(K, V)>, i: int, v: V)
    requires
        ascending::<K>(keys(entries)),
        0 <= i < entries.len(),
    ensures
        ({
            let after = entries.update(i, (entries[i].0, v));
            &&& ascending::<K>(keys(after))
            &&& listed(after) == listed(entries).insert(entries[i].0@, v)
        }),
{
    let after = entries.update(i, (entries[i].0, v));
    let q = keys(entries);
    assert(keys(after) =~= q);
    assert(q[i] == entries[i].0@);
    assert forall|x: K::V| q.contains(x) implies listed(after)[x] == (listed(entries).insert(
        entries[i].0@,
        v,
    ))[x] by {
        let j = q.index_of(x);
        assert(entries[j].0@ == q[j]);
        lemma_ascending_keys_differ(entries, j);
        lemma_ascending_keys_differ(entries, i);
        lemma_ascending_keys_differ(after, j);
        lemma_ascending_keys_differ(after, i);
    }
    assert(listed(after) =~= listed(entries).insert(entries[i].0@, v));
}

impl<K: SortKey, V> SortedMap<K, V> {
    /// The entries stand in the order of their keys.
    pub closed spec fn wf(&self) -> bool {
        ascending::<K>(keys(self.entries@))
    }

    /// The empty map.
    pub fn new() -> (r: Self)
        ensures
            r.wf(),
            r@ == Map::<K::V, V>::empty(),
    {
        let r = SortedMap { entries: Vec::new() };
        assert(r@ =~= Map::<K::V, V>::empty());
        r
    }

    /// Where a key stands, or where it would have to stand.
    fn find(&self, key: &K) -> (r: Result<usize, usize>)
        requires
            self.wf(),
        ensures
            match r {
                Ok(i) => i < self.entries@.len() && self.entries@[i as int].0@ == key@,
                Err(i) => {
                    &&& i <= self.entries@.len()
                    &&& !self@.contains_key(key@)
                    &&& forall|j: int|
                        0 <= j < i ==> K::before(#[trigger] keys(self.entries@)[j], key@)
                    &&& forall|j: int|
                        i <= j < self.entries@.len() ==> K::before(
                            key@,
                            #[trigger] keys(self.entries@)[j],
                        )
                },
            },
    {
        let ghost q = keys(self.entries@);
        let mut lo: usize = 0;
        let mut hi: usize = self.entries.len();
        proof {
            K::before_is_strict_total();
        }
        while lo < hi
            invariant
                lo <= hi <= self.entries@.len(),
                q == keys(self.entries@),
                ascending::<K>(q),
                forall|a: K::V, b: K::V, c: K::V| #[trigger]
                    K::before(a, b) && #[trigger] K::before(b, c) ==> K::before(a, c),
                forall|j: int| 0 <= j < lo ==> K::before(#[trigger] q[j], key@),
                forall|j: int| hi <= j < q.len() ==> K::before(key@, #[trigger] q[j]),
            decreases hi - lo,
        {
            let mid: usize = lo + (hi - lo) / 2;
            let order = self.entries[mid].0.compare(key);
            assert(q[mid as int] == self.entries@[mid as int].0@);
            match order {
                Order::Less => {
                    assert forall|j: int| 0 <= j < mid + 1 implies K::before(
                        #[trigger] q[j],
                        key@,
                    ) by {
                        if j < mid {
                            assert(K::before(q[j], q[mid as int]));
                        }
                    }
                    lo = mid + 1;
                },
                Order::Greater => {
                    assert forall|j: int| mid <= j < q.len() implies K::before(
                        key@,
                        #[trigger] q[j],
                    ) by {
                        if mid < j {
                            assert(K::before(q[mid as int], q[j]));
                        }
                    }
                    hi = mid;
                },
                Order::Equal => {
                    return Ok(mid);
                },
            }
        }
        proof {
            assert(!q.contains(key@)) by {
                if q.contains(key@) {
                    let j = q.index_of(key@);
                    assert(q[j] == key@);
                    assert(!K::before(key@, key@));
                }
            }
        }
        Err(lo)
    }

    /// The value of a key.
    pub fn get(&self, key: &K) -> (r: Option<&V>)
        requires
            self.wf(),
        ensures
            match r {
                Some(v) => self@.contains_key(key@) && *v == self@[key@],
                None => !self@.contains_key(key@),
            },
    {
        match self.find(key) {
            Ok(i) => {
                proof {
                    lemma_ascending_keys_differ(self.entries@, i as int);
                }
                Some(&self.entries[i].1)
            },
            Err(_) => None,
        }
    }

    /// The value of a key, to be changed in place.
    pub fn get_mut(&mut self, key: &K) -> (r: Option<&mut V>)
        requires
            old(self).wf(),
        ensures
            match r {
                Some(v) => {
                    &&& old(self)@.contains_key(key@)
                    &&& *v == old(self)@[key@]
                    &&& final(self).wf()
                    &&& final(self)@ == old(self)@.insert(key@, *final(v))
                },
                None => !old(self)@.contains_key(key@) && *final(self) == *old(self),
            },
    {
        match self.find(key) {
            Ok(i) => {
                proof {
                    let entries = self.entries@;
                    lemma_ascending_keys_differ(entries, i as int);
                    assert forall|v: V|
                        ({
                            let after = #[trigger] entries.update(
                                i as int,
                                (entries[i as int].0, v),
                            );
                            &&& ascending::<K>(keys(after))
                            &&& listed(after) == listed(entries).insert(key@, v)
                        }) by {
                        lemma_value_replaced(entries, i as int, v);
                    }
                }
                Some(&mut self.entries[i].1)
            },
            Err(_) => None,
        }
    }

    /// Adds an entry under a key that the map has not.
    pub fn insert(&mut self, key: K, value: V)
        requires
            old(self).wf(),
            !old(self)@.contains_key(key@),
        ensures
            final(self).wf(),
            final(self)@ == old(self)@.insert(key@, value),
    {
        let ghost before = self.entries@;
        let ghost k = key@;
        match self.find(&key) {
            Ok(i) => {
                proof {
                    lemma_ascending_keys_differ(self.entries@, i as int);
                }
            },
            Err(i) => {
                self.entries.insert(i, (key, value));
                proof {
                    let after = self.entries@;
                    let p = keys(before);
                    let q = keys(after);
                    assert(q =~= p.insert(i as int, k));
                    assert(ascending::<K>(q));
                    assert forall|x: K::V| q.contains(x) == (p.contains(x) || x == k) by {
                        if p.contains(x) {
                            let j = p.index_of(x);
                            assert(q[if j < i {
                                j
                            } else {
                                j + 1
                            }] == x);
                        }
                        if x == k {
                            assert(q[i as int] == k);
                        }
                        if q.contains(x) && x != k {
                            let j = q.index_of(x);
                            assert(p[if j < i {
                                j
                            } else {
                                j - 1
                            }] == x);
                        }
                    }
                    assert forall|x: K::V| q.contains(x) implies listed(after)[x] == (
                    listed(before).insert(k, value))[x] by {
                        let j = q.index_of(x);
                        lemma_ascending_keys_differ(after, j);
                        assert(after[j].0@ == q[j]);
                        if x == k {
                            lemma_ascending_keys_differ(after, i as int);
                        } else {
                            let m = if j < i {
                                j
                            } else {
                                j - 1
                            };
                            assert(after[j] == before[m]);
                            lemma_ascending_keys_differ(before, m);
                        }
                    }
                    assert(listed(after) =~= listed(before).insert(k, value));
                }
            },
        }
    }

    /// Empties the map into its entries, in the order of their keys.
    pub fn drain(&mut self) -> (r: Vec<(K, V)>)
        requires
            old(self).wf(),
        ensures
            final(self).wf(),
            final(self)@ == Map::<K::V, V>::empty(),
            ascending::<K>(keys(r@)),
            listed(r@) == old(self)@,
    {
        let mut r: Vec<(K, V)> = Vec::new();
        std::mem::swap(&mut r, &mut self.entries);
        assert(self@ =~= Map::<K::V, V>::empty());
        r
    }

    /// Empties the map.
    pub fn clear(&mut self)
        ensures
            final(self).wf(),
            final(self)@ == Map::<K::V, V>::empty(),
    {
        self.entries.clear();
        assert(self@ =~= Map::<K::V, V>::empty());
    }
}

} // verus!
