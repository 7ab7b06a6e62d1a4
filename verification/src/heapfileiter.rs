//! Scans of a heap file, page by page.
use vstd::prelude::*;
use crate::ids::{slot_id, ContainerId, PageId, SlotId, TransactionId, ValueId};

verus! {

/// A stored value and the slot that it lies in.
pub type Record = (Seq<u8>, SlotId);

/// A value that a scan gives, and where it is stored.
pub type Item = (Seq<u8>, ValueId);

/// The records that a page gives, in the order in which it gives them.
pub open spec fn records(page: Seq<(Vec<u8>, SlotId)>) -> Seq<Record> {
    page.map_values(|r: (Vec<u8>, SlotId)| (r.0@, r.1))
}

/// What is left of a page's records when those that lie before `slot` have been passed over:
/// the first that does not, and all that follow it.
pub open spec fn from_slot(page: Seq<Record>, slot: SlotId) -> Seq<Record>
    decreases page.len(),
{
    if page.len() > 0 && page[0].1 < slot {
        from_slot(page.drop_first(), slot)
    } else {
        page
    }
}

/// A heap file: what each of its pages holds; nothing is known of one that cannot be read.
pub type HeapFile = Seq<Option<Seq<Record>>>;

/// Where a scan stands.
pub struct Scan {
    /// The container that is scanned.
    pub container: ContainerId,
    /// The page that is to be read next.
    pub page: PageId,
    /// What is left of the page that was read last.
    pub rest: Option<Seq<Record>>,
}

impl Scan {
    /// A scan from the first page on.
    pub open spec fn start(container: ContainerId) -> Scan {
        Scan { container, page: 0, rest: None }
    }

    /// The page that a scan from `value_id` on starts with.
    pub open spec fn start_page(value_id: ValueId) -> PageId {
        match value_id.page_id {
            Some(p) => p,
            None => 0,
        }
    }

    /// The slot that a scan from `value_id` on starts with.
    pub open spec fn start_slot(value_id: ValueId) -> SlotId {
        match value_id.slot_id {
            Some(s) => s,
            None => 0,
        }
    }

    /// A scan from `value_id` on, given what its page holds. A page that could not be read
    /// is passed over.
    pub open spec fn start_from(
        container: ContainerId,
        value_id: ValueId,
        page: Option<Seq<Record>>,
    ) -> Scan {
        Scan {
            container,
            page: (Scan::start_page(value_id) + 1) as PageId,
            rest: match page {
                Some(records) => Some(from_slot(records, Scan::start_slot(value_id))),
                None => None,
            },
        }
    }

    /// Whether a page that is being given has been read.
    pub open spec fn valid(self) -> bool {
        self.rest is Some ==> self.page > 0
    }

    /// The next value that is left on the page that was read last, if one is left, and
    /// where the scan then stands.
    pub open spec fn take(self) -> (Option<Item>, Scan) {
        match self.rest {
            Some(rest) if rest.len() > 0 => (
                Some((rest[0].0, slot_id(self.container, (self.page - 1) as PageId, rest[0].1))),
                Scan { rest: Some(rest.drop_first()), ..self },
            ),
            _ => (None, self),
        }
    }

    /// The page that is to be read next in a file of `num_pages` pages, if it has one.
    pub open spec fn wanted(self, num_pages: int) -> Option<PageId> {
        if self.page >= num_pages {
            None
        } else {
            Some(self.page)
        }
    }

    /// Where the scan stands when the page it asked for has been read. One that could not
    /// be read leaves it where it was.
    pub open spec fn supplied(self, page: Option<Seq<Record>>) -> Scan {
        match page {
            Some(records) => Scan {
                page: (self.page + 1) as PageId,
                rest: Some(records),
                ..self
            },
            None => self,
        }
    }

    /// Where the scan stands when pages that it asked for have been read one after the other.
    pub open spec fn fed(self, pages: Seq<Seq<Record>>) -> Scan
        decreases pages.len(),
    {
        if pages.len() == 0 {
            self
        } else {
            self.fed(pages.drop_last()).supplied(Some(pages.last()))
        }
    }
}

impl Scan {
    /// The next value that the scan of a file comes to, if it comes to one, and where it
    /// then stands.
    pub open spec fn next_in(self, file: HeapFile) -> (Option<Item>, Scan)
        decreases file.len() - self.page,
    {
        match self.take() {
            (Some(item), then) => (Some(item), then),
            (None, _) => match self.wanted(file.len() as int) {
                Some(p) if file[p as int] is Some && p < PageId::MAX => self.supplied(
                    file[p as int],
                ).next_in(file),
                _ => (None, self),
            },
        }
    }

    /// All values that the scan of a file has yet to come to: those left on the page that
    /// was read last, then those of the pages that follow.
    pub open spec fn upcoming(self, file: HeapFile) -> Seq<Item> {
        let rest = match self.rest {
            Some(rest) => located(rest, self.container, (self.page - 1) as PageId),
            None => Seq::empty(),
        };
        rest + from_page(file, self.container, self.page as int)
    }
}

/// The values of a page's records, with where they are stored.
pub open spec fn located(page: Seq<Record>, container: ContainerId, p: PageId) -> Seq<Item> {
    page.map_values(|r: Record| (r.0, slot_id(container, p, r.1)))
}

/// The values of a file from page `p` up to the first page that cannot be read.
pub open spec fn from_page(file: HeapFile, container: ContainerId, p: int) -> Seq<Item>
    decreases file.len() - p,
{
    if 0 <= p < file.len() && file[p] is Some {
        located(file[p]->0, container, p as PageId) + from_page(file, container, p + 1)
    } else {
        Seq::empty()
    }
}

/// Each call of `next` gives the first of the upcoming values and leaves the others upcoming;
/// it gives nothing exactly when none is upcoming, and then none will be.
pub proof fn lemma_next_gives_upcoming(scan: Scan, file: HeapFile)
    requires
        scan.valid(),
        file.len() <= PageId::MAX,
    ensures
        ({
            let (item, then) = scan.next_in(file);
            let upcoming = scan.upcoming(file);
            &&& then.valid()
            &&& item == if upcoming.len() > 0 {
                Some(upcoming[0])
            } else {
                None
            }
            &&& then.upcoming(file) == if upcoming.len() > 0 {
                upcoming.drop_first()
            } else {
                upcoming
            }
        }),
    decreases file.len() - scan.page,
{
    let p = scan.page as int;
    match scan.take() {
        (Some(item), then) => {
            let rest = scan.rest->0;
            let here = located(rest, scan.container, (scan.page - 1) as PageId);
            assert(located(rest.drop_first(), scan.container, (scan.page - 1) as PageId)
                =~= here.drop_first());
            assert(scan.upcoming(file)[0] == item);
            assert(then.upcoming(file) =~= scan.upcoming(file).drop_first());
        },
        (None, _) => {
            if p < file.len() && file[p] is Some {
                let after = scan.supplied(file[p]);
                assert(after.upcoming(file) =~= scan.upcoming(file));
                lemma_next_gives_upcoming(after, file);
            } else {
                assert(scan.upcoming(file) =~= Seq::empty());
            }
        },
    }
}

/// What a call of `next` gives, and what it leaves, depends on no page but those that it reads.
/// So a scan goes on with what a file has come to be: a page that could not be read and now can,
/// and pages that were not there before, are given as if they had been there all along.
pub proof fn lemma_scan_goes_on(scan: Scan, file: HeapFile, now: HeapFile)
    requires
        scan.valid(),
        file.len() <= now.len() <= PageId::MAX,
        forall|q: int| 0 <= q < file.len() && file[q] is Some ==> #[trigger] now[q] == file[q],
    ensures
        ({
            let (item, then) = scan.next_in(file);
            let upcoming = scan.upcoming(now);
            &&& then.valid()
            &&& item is Some ==> upcoming.len() > 0 && item == Some(upcoming[0])
                && then.upcoming(now) == upcoming.subrange(1, upcoming.len() as int)
            &&& item is None ==> then.upcoming(now) == upcoming
        }),
    decreases file.len() - scan.page,
{
    let p = scan.page as int;
    match scan.take() {
        (Some(item), then) => {
            let rest = scan.rest->0;
            let here = located(rest, scan.container, (scan.page - 1) as PageId);
            assert(located(rest.drop_first(), scan.container, (scan.page - 1) as PageId)
                =~= here.drop_first());
            assert(scan.upcoming(now)[0] == item);
            assert(then.upcoming(now) =~= scan.upcoming(now).drop_first());
            assert(scan.upcoming(now).drop_first() =~= scan.upcoming(now).subrange(
                1,
                scan.upcoming(now).len() as int,
            ));
        },
        (None, _) => {
            if p < file.len() && file[p] is Some {
                let after = scan.supplied(file[p]);
                assert(now[p] == file[p]);
                assert(after.upcoming(now) =~= scan.upcoming(now));
                lemma_scan_goes_on(after, file, now);
            }
        },
    }
}

/// A scan from the start gives a value exactly if some page holds it and neither that page
/// nor one before it is unreadable; each comes with the place that it is stored at.
pub proof fn lemma_scan_is_complete(container: ContainerId, file: HeapFile, x: Item)
    requires
        file.len() <= PageId::MAX,
    ensures
        Scan::start(container).upcoming(file).contains(x) <==> exists|p: int, i: int|
            #![trigger file[p]->0[i]]
            0 <= p < file.len() && (forall|q: int| 0 <= q <= p ==> #[trigger] file[q] is Some)
                && 0 <= i < file[p]->0.len() && x == (
                file[p]->0[i].0,
                slot_id(container, p as PageId, file[p]->0[i].1),
            ),
{
    assert(Scan::start(container).upcoming(file) =~= from_page(file, container, 0));
    lemma_from_page_is_complete(container, file, 0, x);
}

/// The same of a scan from page `start` on.
proof fn lemma_from_page_is_complete(container: ContainerId, file: HeapFile, start: int, x: Item)
    requires
        0 <= start,
        file.len() <= PageId::MAX,
    ensures
        from_page(file, container, start).contains(x) <==> exists|p: int, i: int|
            #![trigger file[p]->0[i]]
            start <= p < file.len() && (forall|q: int|
                start <= q <= p ==> #[trigger] file[q] is Some) && 0 <= i < file[p]->0.len() && x
                == (file[p]->0[i].0, slot_id(container, p as PageId, file[p]->0[i].1)),
    decreases file.len() - start,
{
    let all = from_page(file, container, start);
    if start < file.len() && file[start] is Some {
        let page = file[start]->0;
        let here = located(page, container, start as PageId);
        let later = from_page(file, container, start + 1);
        lemma_from_page_is_complete(container, file, start + 1, x);
        assert(all =~= here + later);
        if all.contains(x) {
            let k = all.index_of(x);
            if k < here.len() {
                assert(file[start]->0[k] == page[k]);
            } else {
                assert(later[k - here.len()] == x);
                assert(later.contains(x));
            }
        }
        if exists|p: int, i: int|
            #![trigger file[p]->0[i]]
            start <= p < file.len() && (forall|q: int|
                start <= q <= p ==> #[trigger] file[q] is Some) && 0 <= i < file[p]->0.len() && x
                == (file[p]->0[i].0, slot_id(container, p as PageId, file[p]->0[i].1)) {
            let (p, i) = choose|p: int, i: int|
                #![trigger file[p]->0[i]]
                start <= p < file.len() && (forall|q: int|
                    start <= q <= p ==> #[trigger] file[q] is Some) && 0 <= i < file[p]->0.len()
                    && x == (
                    file[p]->0[i].0,
                    slot_id(container, p as PageId, file[p]->0[i].1),
                );
            if p == start {
                assert(all[i] == x);
            } else {
                assert(later.contains(x));
                let k = later.index_of(x);
                assert(all[here.len() + k] == x);
            }
        }
    }
}

/// Whether values are those that stand at the places `at`, a page and a place among its records:
/// each is what the record holds, with the container, the page and the slot that it lies in.
pub open spec fn are_at(
    items: Seq<Item>,
    at: Seq<(int, int)>,
    container: ContainerId,
    file: HeapFile,
) -> bool {
    &&& items.len() == at.len()
    &&& forall|n: int|
        0 <= n < at.len() ==> 0 <= (#[trigger] at[n]).0 < file.len() && file[at[n].0] is Some
            && 0 <= at[n].1 < file[at[n].0]->0.len()
    &&& forall|n: int|
        0 <= n < at.len() ==> {
            let record = file[at[n].0]->0[at[n].1];
            &&& (#[trigger] items[n]).0 == record.0
            &&& items[n].1.container_id == container
            &&& items[n].1.segment_id is None
            &&& items[n].1.page_id == Some(at[n].0 as PageId)
            &&& items[n].1.slot_id == Some(record.1)
        }
}

/// Whether places stand in order: by the page, and on the same page by the place there.
pub open spec fn in_file_order(at: Seq<(int, int)>) -> bool {
    forall|m: int, n: int|
        0 <= m < n < at.len() ==> (#[trigger] at[m]).0 < (#[trigger] at[n]).0 || (at[m].0
            == at[n].0 && at[m].1 < at[n].1)
}

/// A scan from an identifier on, whatever the identifier names. Without a page it starts with
/// the first page, without a slot with slot nought. It gives no value of a page before the one
/// that it starts with. Of that page it gives the first record whose slot is not before the
/// slot that it starts with, and all records that follow; then it gives all records of the
/// pages after it, up to the first that cannot be read. It gives each of them once, in the
/// order of the file, and no other.
pub proof fn lemma_scan_gives_the_rest(
    container: ContainerId,
    file: HeapFile,
    value_id: ValueId,
    p: PageId,
    slot: SlotId,
)
    requires
        file.len() <= PageId::MAX,
        p < PageId::MAX,
        value_id.page_id == Some(p) || (value_id.page_id is None && p == 0),
        value_id.slot_id == Some(slot) || (value_id.slot_id is None && slot == 0),
    ensures
        Scan::start_page(value_id) == p,
        exists|at: Seq<(int, int)>|
            #![trigger in_file_order(at)]
            {
                let page = if p < file.len() {
                    file[p as int]
                } else {
                    None
                };
                &&& in_file_order(at)
                &&& are_at(
                    Scan::start_from(container, value_id, page).upcoming(file),
                    at,
                    container,
                    file,
                )
                &&& forall|q: int, i: int| #[trigger]
                    at.contains((q, i)) <==> p <= q < file.len() && file[q] is Some && 0 <= i
                        < file[q]->0.len() && if q == p {
                        exists|h: int| 0 <= h <= i && slot <= (#[trigger] file[q]->0[h]).1
                    } else {
                        forall|o: int| p < o <= q ==> #[trigger] file[o] is Some
                    }
            },
{
    let page = if p < file.len() {
        file[p as int]
    } else {
        None
    };
    let scan = Scan::start_from(container, value_id, page);
    let later = lemma_places_from_page(container, file, p + 1);
    let items = from_page(file, container, p + 1);
    match page {
        None => {
            assert(scan.upcoming(file) =~= items);
            assert(in_file_order(later));
        },
        Some(records) => {
            let skipped = lemma_from_slot_skips(records, slot);
            let kept = (records.len() - skipped) as nat;
            let here = Seq::new(kept, |n: int| (p as int, skipped + n));
            let at = here + later;
            let first = located(records.skip(skipped), container, p);
            assert(scan.upcoming(file) =~= first + items);
            assert forall|n: int| 0 <= n < at.len() implies {
                let record = file[at[n].0]->0[at[n].1];
                let item = scan.upcoming(file)[n];
                &&& 0 <= (#[trigger] at[n]).0 < file.len() && file[at[n].0] is Some && 0
                    <= at[n].1 < file[at[n].0]->0.len()
                &&& item.0 == record.0 && item.1 == slot_id(
                    container,
                    at[n].0 as PageId,
                    record.1,
                )
            } by {
                if n < kept {
                    assert(first[n].0 == records[skipped + n].0);
                } else {
                    assert(at[n] == later[n - kept]);
                    assert(scan.upcoming(file)[n] == items[n - kept]);
                }
            }
            assert forall|m: int, n: int| 0 <= m < n < at.len() implies (#[trigger] at[m]).0 < (
            #[trigger] at[n]).0 || (at[m].0 == at[n].0 && at[m].1 < at[n].1) by {
                if n >= kept {
                    assert(at[n] == later[n - kept]);
                    assert(later.contains(later[n - kept]));
                    if m >= kept {
                        assert(at[m] == later[m - kept]);
                    }
                }
            }
            assert forall|q: int, i: int| #[trigger]
                at.contains((q, i)) <==> p <= q < file.len() && file[q] is Some && 0 <= i
                    < file[q]->0.len() && if q == p {
                    exists|h: int| 0 <= h <= i && slot <= (#[trigger] file[q]->0[h]).1
                } else {
                    forall|o: int| p < o <= q ==> #[trigger] file[o] is Some
                } by {
                if at.contains((q, i)) {
                    let n = at.index_of((q, i));
                    if n < kept {
                        assert(slot <= file[q]->0[skipped].1);
                    } else {
                        assert(later[n - kept] == (q, i));
                        assert(later.contains((q, i)));
                    }
                }
                if p <= q < file.len() && file[q] is Some && 0 <= i < file[q]->0.len() && if q
                    == p {
                    exists|h: int| 0 <= h <= i && slot <= (#[trigger] file[q]->0[h]).1
                } else {
                    forall|o: int| p < o <= q ==> #[trigger] file[o] is Some
                } {
                    if q == p {
                        let h = choose|h: int|
                            0 <= h <= i && slot <= (#[trigger] file[q]->0[h]).1;
                        assert(skipped <= h);
                        assert(at[i - skipped] == (q, i));
                    } else {
                        assert(later.contains((q, i)));
                        assert(at[kept + later.index_of((q, i))] == (q, i));
                    }
                }
            }
            assert(in_file_order(at));
        },
    }
}

/// A scan from the start gives every record of every page, up to the first page that cannot be
/// read: each once, in the order of the file, and no other.
pub proof fn lemma_scan_gives_all(container: ContainerId, file: HeapFile)
    requires
        file.len() <= PageId::MAX,
    ensures
        exists|at: Seq<(int, int)>|
            #![trigger in_file_order(at)]
            {
                &&& in_file_order(at)
                &&& are_at(Scan::start(container).upcoming(file), at, container, file)
                &&& forall|q: int, i: int| #[trigger]
                    at.contains((q, i)) <==> 0 <= q < file.len() && file[q] is Some && 0 <= i
                        < file[q]->0.len() && forall|o: int|
                        0 <= o <= q ==> #[trigger] file[o] is Some
            },
{
    let at = lemma_places_from_page(container, file, 0);
    assert(Scan::start(container).upcoming(file) =~= from_page(file, container, 0));
    assert(in_file_order(at));
}

/// The places of the records of a file from page `start` on.
proof fn lemma_places_from_page(container: ContainerId, file: HeapFile, start: int) -> (at: Seq<
    (int, int),
>)
    requires
        0 <= start,
        file.len() <= PageId::MAX,
    ensures
        in_file_order(at),
        are_at(from_page(file, container, start), at, container, file),
        forall|q: int, i: int| #[trigger]
            at.contains((q, i)) <==> start <= q < file.len() && file[q] is Some && 0 <= i
                < file[q]->0.len() && forall|o: int|
                start <= o <= q ==> #[trigger] file[o] is Some,
    decreases file.len() - start,
{
    if start < file.len() && file[start] is Some {
        let page = file[start]->0;
        let later = lemma_places_from_page(container, file, start + 1);
        let here = Seq::new(page.len(), |n: int| (start, n));
        let at = here + later;
        let all = from_page(file, container, start);
        let first = located(page, container, start as PageId);
        let items = from_page(file, container, start + 1);
        assert(all =~= first + items);
        assert forall|n: int| 0 <= n < at.len() implies {
            let record = file[at[n].0]->0[at[n].1];
            &&& 0 <= (#[trigger] at[n]).0 < file.len() && file[at[n].0] is Some && 0 <= at[n].1
                < file[at[n].0]->0.len()
            &&& all[n].0 == record.0 && all[n].1 == slot_id(
                container,
                at[n].0 as PageId,
                record.1,
            )
        } by {
            if n < here.len() {
                assert(first[n].0 == page[n].0);
            } else {
                assert(at[n] == later[n - here.len()]);
                assert(all[n] == items[n - here.len()]);
            }
        }
        assert forall|m: int, n: int| 0 <= m < n < at.len() implies (#[trigger] at[m]).0 < (
        #[trigger] at[n]).0 || (at[m].0 == at[n].0 && at[m].1 < at[n].1) by {
            if n >= here.len() {
                assert(at[n] == later[n - here.len()]);
                assert(later.contains(later[n - here.len()]));
                if m >= here.len() {
                    assert(at[m] == later[m - here.len()]);
                }
            }
        }
        assert forall|q: int, i: int| #[trigger]
            at.contains((q, i)) <==> start <= q < file.len() && file[q] is Some && 0 <= i
                < file[q]->0.len() && forall|o: int|
                start <= o <= q ==> #[trigger] file[o] is Some by {
            if at.contains((q, i)) {
                let n = at.index_of((q, i));
                if n >= here.len() {
                    assert(later[n - here.len()] == (q, i));
                    assert(later.contains((q, i)));
                }
            }
            if start <= q < file.len() && file[q] is Some && 0 <= i < file[q]->0.len() && forall|
                o: int,
            |
                start <= o <= q ==> #[trigger] file[o] is Some {
                if q == start {
                    assert(at[i] == (q, i));
                } else {
                    assert(later.contains((q, i)));
                    assert(at[here.len() + later.index_of((q, i))] == (q, i));
                }
            }
        }
        at
    } else {
        let at = Seq::<(int, int)>::empty();
        assert forall|q: int, i: int| #[trigger]
            at.contains((q, i)) <==> start <= q < file.len() && file[q] is Some && 0 <= i
                < file[q]->0.len() && forall|o: int|
                start <= o <= q ==> #[trigger] file[o] is Some by {
            if start <= q < file.len() && forall|o: int|
                start <= o <= q ==> #[trigger] file[o] is Some {
                assert(file[start] is Some);
            }
        }
        at
    }
}

/// How many records are passed over: all that come before the first whose slot is not before
/// `slot`.
proof fn lemma_from_slot_skips(page: Seq<Record>, slot: SlotId) -> (n: int)
    ensures
        0 <= n <= page.len(),
        from_slot(page, slot) == page.skip(n),
        forall|h: int| 0 <= h < n ==> (#[trigger] page[h]).1 < slot,
        n < page.len() ==> slot <= page[n].1,
    decreases page.len(),
{
    if page.len() > 0 && page[0].1 < slot {
        let rest = page.drop_first();
        let n = lemma_from_slot_skips(rest, slot);
        assert(rest.skip(n) =~= page.skip(n + 1));
        assert forall|h: int| 0 <= h < n + 1 implies (#[trigger] page[h]).1 < slot by {
            if h > 0 {
                assert(rest[h - 1] == page[h]);
            }
        }
        n + 1
    } else {
        assert(page.skip(0) =~= page);
        0
    }
}

/// A scan from a value on, where the slots of its page ascend, gives that value first and
/// then all that a scan from the start gives after it.
pub proof fn lemma_scan_from_value(container: ContainerId, file: HeapFile, p: int, i: int)
    requires
        file.len() <= PageId::MAX,
        0 <= p < file.len(),
        file[p] is Some,
        0 <= i < file[p]->0.len(),
        forall|j: int, k: int|
            0 <= j < k < file[p]->0.len() ==> #[trigger] file[p]->0[j].1
                < #[trigger] file[p]->0[k].1,
    ensures
        ({
            let id = slot_id(container, p as PageId, file[p]->0[i].1);
            let scan = Scan::start_from(container, id, file[p]);
            &&& scan.valid()
            &&& scan.upcoming(file) == from_page(file, container, p).skip(i)
            &&& scan.upcoming(file)[0] == (file[p]->0[i].0, id)
        }),
{
    let page = file[p]->0;
    lemma_from_slot_finds(page, i);
    let here = located(page, container, p as PageId);
    assert(located(page.skip(i), container, p as PageId) =~= here.skip(i));
    let id = slot_id(container, p as PageId, page[i].1);
    let scan = Scan::start_from(container, id, file[p]);
    assert(scan.upcoming(file) =~= from_page(file, container, p).skip(i));
}

/// Whether a value is stored on page `p` at `slot`, or after that.
pub open spec fn at_or_after(p: PageId, slot: SlotId) -> spec_fn(Item) -> bool {
    |x: Item|
        match (x.1.page_id, x.1.slot_id) {
            (Some(q), Some(s)) => q > p || (q == p && s >= slot),
            _ => false,
        }
}

/// What a page of a file holds, if the file has the page and it can be read.
pub open spec fn page_of(file: HeapFile, p: int) -> Option<Seq<Record>> {
    if 0 <= p < file.len() {
        file[p]
    } else {
        None
    }
}

/// A scan from any identifier on, where the slots of its page ascend, gives the values of its
/// page that are stored there or after, and then those of the pages that follow; a page that
/// cannot be read, or that the file has not, is passed over. Where that page and those before
/// it can be read as far as the file has them, this is what a scan from the start gives there
/// or after.
pub proof fn lemma_scan_from_identifier(
    container: ContainerId,
    file: HeapFile,
    value_id: ValueId,
)
    requires
        file.len() <= PageId::MAX,
        Scan::start_page(value_id) < PageId::MAX,
        page_of(file, Scan::start_page(value_id) as int) matches Some(page) ==> forall|
            j: int,
            k: int,
        |
            0 <= j < k < page.len() ==> #[trigger] page[j].1 < #[trigger] page[k].1,
    ensures
        ({
            let p = Scan::start_page(value_id);
            let there = at_or_after(p, Scan::start_slot(value_id));
            let scan = Scan::start_from(container, value_id, page_of(file, p as int));
            let here = match page_of(file, p as int) {
                Some(page) => located(page, container, p).filter(there),
                None => Seq::empty(),
            };
            &&& scan.valid()
            &&& scan.upcoming(file) == here + from_page(file, container, p + 1)
            &&& (forall|q: int| 0 <= q <= p && q < file.len() ==> #[trigger] file[q] is Some)
                ==> scan.upcoming(file) == Scan::start(container).upcoming(file).filter(there)
        }),
{
    let p = Scan::start_page(value_id);
    let slot = Scan::start_slot(value_id);
    let pred = at_or_after(p, slot);
    let scan = Scan::start_from(container, value_id, page_of(file, p as int));
    let later = from_page(file, container, p + 1);
    assert(Scan::start(container).upcoming(file) =~= from_page(file, container, 0));
    match page_of(file, p as int) {
        Some(page) => {
            lemma_from_slot_filters(page, container, p, slot);
            if forall|q: int| 0 <= q <= p && q < file.len() ==> #[trigger] file[q] is Some {
                lemma_pages_before(container, file, 0, p, slot);
                Seq::filter_distributes_over_add(located(page, container, p), later, pred);
                lemma_pages_after(container, file, p + 1, p, slot);
            }
        },
        None => {
            assert(scan.upcoming(file) =~= Seq::empty() + later);
            if forall|q: int| 0 <= q <= p && q < file.len() ==> #[trigger] file[q] is Some {
                assert(p >= file.len());
                lemma_pages_before(container, file, 0, p, slot);
                reveal(Seq::filter);
                assert(scan.upcoming(file) =~= Seq::empty());
            }
        },
    }
}

/// Of the pages before `p` nothing is stored at `p` or after.
proof fn lemma_pages_before(
    container: ContainerId,
    file: HeapFile,
    start: int,
    p: PageId,
    slot: SlotId,
)
    requires
        0 <= start <= p,
        file.len() <= PageId::MAX,
        forall|q: int| 0 <= q <= p && q < file.len() ==> #[trigger] file[q] is Some,
    ensures
        from_page(file, container, start).filter(at_or_after(p, slot)) == from_page(
            file,
            container,
            p as int,
        ).filter(at_or_after(p, slot)),
    decreases p - start,
{
    if start < p {
        if start < file.len() {
            let pred = at_or_after(p, slot);
            let here = located(file[start]->0, container, start as PageId);
            let later = from_page(file, container, start + 1);
            assert(file[start] is Some);
            Seq::filter_distributes_over_add(here, later, pred);
            lemma_filter_of_none(here, pred);
            assert(here.filter(pred) + later.filter(pred) =~= later.filter(pred));
        }
        lemma_pages_before(container, file, start + 1, p, slot);
    }
}

/// Of the pages after `p` all is stored after `p`.
proof fn lemma_pages_after(
    container: ContainerId,
    file: HeapFile,
    start: int,
    p: PageId,
    slot: SlotId,
)
    requires
        p < start,
        file.len() <= PageId::MAX,
    ensures
        from_page(file, container, start).filter(at_or_after(p, slot)) == from_page(
            file,
            container,
            start,
        ),
    decreases file.len() - start,
{
    let pred = at_or_after(p, slot);
    if start < file.len() && file[start] is Some {
        let here = located(file[start]->0, container, start as PageId);
        let later = from_page(file, container, start + 1);
        Seq::filter_distributes_over_add(here, later, pred);
        lemma_filter_of_all(here, pred);
        lemma_pages_after(container, file, start + 1, p, slot);
    } else {
        lemma_filter_of_all(from_page(file, container, start), pred);
    }
}

/// Among ascending slots, passing over those before `slot` leaves those that are not.
proof fn lemma_from_slot_filters(
    page: Seq<Record>,
    container: ContainerId,
    p: PageId,
    slot: SlotId,
)
    requires
        forall|j: int, k: int|
            0 <= j < k < page.len() ==> #[trigger] page[j].1 < #[trigger] page[k].1,
    ensures
        located(from_slot(page, slot), container, p) == located(page, container, p).filter(
            at_or_after(p, slot),
        ),
    decreases page.len(),
{
    let pred = at_or_after(p, slot);
    let all = located(page, container, p);
    if page.len() > 0 && page[0].1 < slot {
        let rest = page.drop_first();
        assert forall|j: int, k: int| 0 <= j < k < rest.len() implies #[trigger] rest[j].1
            < #[trigger] rest[k].1 by {
            assert(page[j + 1].1 < page[k + 1].1);
        }
        lemma_from_slot_filters(rest, container, p, slot);
        let first = all.take(1);
        let later = located(rest, container, p);
        assert(all =~= first + later);
        Seq::filter_distributes_over_add(first, later, pred);
        lemma_filter_of_none(first, pred);
        assert(first.filter(pred) + later.filter(pred) =~= later.filter(pred));
    } else {
        assert forall|i: int| 0 <= i < all.len() implies pred(#[trigger] all[i]) by {
            if i > 0 {
                assert(page[0].1 < page[i].1);
            }
        }
        lemma_filter_of_all(all, pred);
    }
}

/// Keeping what all have keeps all.
proof fn lemma_filter_of_all<A>(s: Seq<A>, pred: spec_fn(A) -> bool)
    requires
        forall|i: int| 0 <= i < s.len() ==> pred(#[trigger] s[i]),
    ensures
        s.filter(pred) == s,
    decreases s.len(),
{
    reveal(Seq::filter);
    if s.len() > 0 {
        lemma_filter_of_all(s.drop_last(), pred);
        assert(s.drop_last().push(s.last()) =~= s);
    }
}

/// Keeping what none has keeps nothing.
proof fn lemma_filter_of_none<A>(s: Seq<A>, pred: spec_fn(A) -> bool)
    requires
        forall|i: int| 0 <= i < s.len() ==> !pred(#[trigger] s[i]),
    ensures
        s.filter(pred) == Seq::<A>::empty(),
    decreases s.len(),
{
    reveal(Seq::filter);
    if s.len() > 0 {
        lemma_filter_of_none(s.drop_last(), pred);
    }
}

/// A scan from an identifier that names neither a page nor a slot gives what a scan from the
/// start gives, where the first page can be read.
pub proof fn lemma_scan_from_nowhere(container: ContainerId, file: HeapFile, value_id: ValueId)
    requires
        value_id.page_id is None,
        value_id.slot_id is None,
        file.len() > 0,
        file[0] is Some,
    ensures
        Scan::start_from(container, value_id, file[0]).upcoming(file) == Scan::start(
            container,
        ).upcoming(file),
{
    let page = file[0]->0;
    assert(from_slot(page, 0) == page);
    assert(Scan::start_from(container, value_id, file[0]).upcoming(file) =~= Scan::start(
        container,
    ).upcoming(file));
}

/// Among ascending slots, passing over those before the slot of a record leads to it.
proof fn lemma_from_slot_finds(page: Seq<Record>, i: int)
    requires
        0 <= i < page.len(),
        forall|j: int, k: int|
            0 <= j < k < page.len() ==> #[trigger] page[j].1 < #[trigger] page[k].1,
    ensures
        from_slot(page, page[i].1) == page.skip(i),
    decreases i,
{
    if i == 0 {
        assert(page.skip(0) =~= page);
    } else {
        let rest = page.drop_first();
        assert forall|j: int, k: int| 0 <= j < k < rest.len() implies #[trigger] rest[j].1
            < #[trigger] rest[k].1 by {
            assert(page[j + 1].1 < page[k + 1].1);
        }
        lemma_from_slot_finds(rest, i - 1);
        assert(page[0].1 < page[i].1);
        assert(rest.skip(i - 1) =~= page.skip(i));
    }
}

/// The records of a page, if it could be read.
pub open spec fn page_records(page: Option<Vec<(Vec<u8>, SlotId)>>) -> Option<Seq<Record>> {
    match page {
        Some(p) => Some(records(p@)),
        None => None,
    }
}

/// What a call of `next` came to.
pub open spec fn item(r: Option<(Vec<u8>, ValueId)>) -> Option<Item> {
    match r {
        Some((bytes, id)) => Some((bytes@, id)),
        None => None,
    }
}

/// Whether two functions tell of this file how many pages it has and what they hold.
pub open spec fn read_from<
    N: Fn() -> PageId,
    R: Fn(PageId) -> Option<Vec<(Vec<u8>, SlotId)>>,
>(num_pages: N, read_page: R, file: HeapFile) -> bool {
    &&& forall|n: PageId| call_ensures(num_pages, (), n) ==> n == file.len()
    &&& forall|p: PageId, page: Option<Vec<(Vec<u8>, SlotId)>>|
        p < file.len() && call_ensures(read_page, (p,), page) ==> page_records(page)
            == file[p as int]
}

/// Whether the file may have been said to have the page that the scan asks for.
pub open spec fn may_have_page<N: Fn() -> PageId>(num_pages: N, scan: Scan) -> bool {
    exists|n: PageId| #[trigger] call_ensures(num_pages, (), n) && scan.wanted(n as int) is Some
}

/// Whether the file may have been said not to have the page that the scan asks for.
pub open spec fn may_be_at_end<N: Fn() -> PageId>(num_pages: N, scan: Scan) -> bool {
    exists|n: PageId| #[trigger] call_ensures(num_pages, (), n) && scan.wanted(n as int) is None
}

/// Whether reading the page that the scan asks for may have come to this.
pub open spec fn may_read<R: Fn(PageId) -> Option<Vec<(Vec<u8>, SlotId)>>>(
    read_page: R,
    scan: Scan,
    held: Option<Seq<Record>>,
) -> bool {
    exists|page: Option<Vec<(Vec<u8>, SlotId)>>| #[trigger]
        call_ensures(read_page, (scan.page,), page) && page_records(page) == held
}

/// Whether the scan may have read these pages, one after the other: each time no value was
/// left, the file was said to have the page, and the page was read.
pub open spec fn may_read_in_turn<
    N: Fn() -> PageId,
    R: Fn(PageId) -> Option<Vec<(Vec<u8>, SlotId)>>,
>(num_pages: N, read_page: R, scan: Scan, pages: Seq<Seq<Record>>) -> bool
    decreases pages.len(),
{
    pages.len() > 0 ==> {
        let before = scan.fed(pages.drop_last());
        &&& may_read_in_turn(num_pages, read_page, scan, pages.drop_last())
        &&& before.take().0 is None
        &&& may_have_page(num_pages, before)
        &&& may_read(read_page, before, Some(pages.last()))
    }
}

/// Whether a call of `next` may come to `item` and leave the scan at `then`, whatever the two
/// functions answer from one time to the next: pages are read until a value is left, which is
/// given; or until the file is said to have no more pages, or the next one cannot be read,
/// and then nothing is given.
pub open spec fn may_give<
    N: Fn() -> PageId,
    R: Fn(PageId) -> Option<Vec<(Vec<u8>, SlotId)>>,
>(num_pages: N, read_page: R, scan: Scan, item: Option<Item>, then: Scan) -> bool {
    exists|pages: Seq<Seq<Record>>| #[trigger]
        may_read_in_turn(num_pages, read_page, scan, pages) && (item, then) == scan.fed(
            pages,
        ).take() && (item is None ==> may_be_at_end(num_pages, then) || (may_have_page(
            num_pages,
            then,
        ) && may_read(read_page, then, None)))
}

/// Where the two functions only ever answer with the pages of a file, they tell of the file: how
/// many pages it has, and of each page the bytes and the slot of every record, in order.
pub proof fn lemma_read_from<
    N: Fn() -> PageId,
    R: Fn(PageId) -> Option<Vec<(Vec<u8>, SlotId)>>,
>(num_pages: N, read_page: R, file: HeapFile)
    requires
        forall|n: PageId| call_ensures(num_pages, (), n) ==> n == file.len(),
        forall|p: PageId, page: Option<Vec<(Vec<u8>, SlotId)>>|
            p < file.len() && call_ensures(read_page, (p,), page) ==> (page is Some
                <==> file[p as int] is Some),
        forall|p: PageId, page: Vec<(Vec<u8>, SlotId)>|
            p < file.len() && call_ensures(read_page, (p,), Some(page))
                ==> file[p as int]->0.len() == page@.len(),
        forall|p: PageId, page: Vec<(Vec<u8>, SlotId)>, i: int|
            p < file.len() && #[trigger] call_ensures(read_page, (p,), Some(page)) && 0 <= i
                < page@.len() ==> file[p as int]->0[i] == ((#[trigger] page@[i]).0@, page@[i].1),
    ensures
        read_from(num_pages, read_page, file),
{
    assert forall|p: PageId, page: Option<Vec<(Vec<u8>, SlotId)>>|
        p < file.len() && call_ensures(read_page, (p,), page) implies page_records(page)
        == file[p as int] by {
        if let Some(records) = page {
            assert(call_ensures(read_page, (p,), Some(records)));
            assert(page_records(page)->0 =~= file[p as int]->0);
        }
    }
}

/// Whether a page may have been read that held no records.
pub open spec fn may_be_empty<R: Fn(PageId) -> Option<Vec<(Vec<u8>, SlotId)>>>(
    read_page: R,
    q: PageId,
) -> bool {
    exists|page: Vec<(Vec<u8>, SlotId)>| #[trigger]
        call_ensures(read_page, (q,), Some(page)) && page@.len() == 0
}

/// Whatever the two functions answer from one time to the next: where no value is left of the
/// page that was read last, a value that is given is the first record of a page that was read
/// in this call, neither before the one that was next nor skipped over without being read, and
/// the scan stands right behind it. Where nothing is given, the file was said to have no page
/// where the scan then stands, or the page there could not be read.
pub proof fn lemma_what_may_be_given<
    N: Fn() -> PageId,
    R: Fn(PageId) -> Option<Vec<(Vec<u8>, SlotId)>>,
>(num_pages: N, read_page: R, scan: Scan, item: Option<Item>, then: Scan)
    requires
        may_give(num_pages, read_page, scan, item, then),
        scan.rest matches Some(rest) ==> rest.len() == 0,
    ensures
        scan.page <= then.page,
        then.container == scan.container,
        item matches Some(x) ==> then.page > 0 && scan.page < then.page && exists|
            page: Vec<(Vec<u8>, SlotId)>,
        |
            {
                &&& #[trigger] call_ensures(read_page, ((then.page - 1) as PageId,), Some(page))
                &&& page@.len() > 0
                &&& x.0 == page@[0].0@
                &&& x.1.container_id == scan.container
                &&& x.1.page_id == Some((then.page - 1) as PageId)
                &&& x.1.slot_id == Some(page@[0].1)
                &&& then.rest matches Some(rest) && rest.len() == page@.len() - 1 && forall|
                    i: int,
                |
                    0 <= i < rest.len() ==> #[trigger] rest[i] == (
                        page@[i + 1].0@,
                        page@[i + 1].1,
                    )
            },
        item is None ==> (exists|n: PageId| #[trigger]
            call_ensures(num_pages, (), n) && n <= then.page) || call_ensures(
            read_page,
            (then.page,),
            None,
        ),
        forall|q: PageId|
            scan.page <= q && q + 1 < then.page ==> #[trigger] may_be_empty(read_page, q),
{
    let pages = choose|pages: Seq<Seq<Record>>| #[trigger]
        may_read_in_turn(num_pages, read_page, scan, pages) && (item, then) == scan.fed(
            pages,
        ).take() && (item is None ==> may_be_at_end(num_pages, then) || (may_have_page(
            num_pages,
            then,
        ) && may_read(read_page, then, None)));
    let last = scan.fed(pages);
    lemma_fed(num_pages, read_page, scan, pages);
    if item is Some {
        assert(pages.len() > 0);
        let before = scan.fed(pages.drop_last());
        assert(may_read(read_page, before, Some(pages.last())));
        let read = choose|page: Option<Vec<(Vec<u8>, SlotId)>>| #[trigger]
            call_ensures(read_page, (before.page,), page) && page_records(page) == Some(
                pages.last(),
            );
        let page = read->0;
        assert(records(page@) == pages.last());
        assert(call_ensures(read_page, ((then.page - 1) as PageId,), Some(page)));
        let rest = then.rest->0;
        assert forall|i: int| 0 <= i < rest.len() implies #[trigger] rest[i] == (
            page@[i + 1].0@,
            page@[i + 1].1,
        ) by {
            assert(rest[i] == pages.last()[i + 1]);
        }
        assert(pages.last()[0] == (page@[0].0@, page@[0].1));
    } else {
        if may_be_at_end(num_pages, then) {
            let n = choose|n: PageId| #[trigger]
                call_ensures(num_pages, (), n) && then.wanted(n as int) is None;
            assert(n <= then.page);
        } else {
            let page = choose|page: Option<Vec<(Vec<u8>, SlotId)>>| #[trigger]
                call_ensures(read_page, (then.page,), page) && page_records(page) == None::<
                    Seq<Record>,
                >;
            assert(page is None);
        }
    }
}

/// Where a scan stands when pages have been read in turn: one page on for each, and all but the
/// last held no records.
proof fn lemma_fed<N: Fn() -> PageId, R: Fn(PageId) -> Option<Vec<(Vec<u8>, SlotId)>>>(
    num_pages: N,
    read_page: R,
    scan: Scan,
    pages: Seq<Seq<Record>>,
)
    requires
        may_read_in_turn(num_pages, read_page, scan, pages),
        scan.rest matches Some(rest) ==> rest.len() == 0,
    ensures
        scan.fed(pages).page == scan.page + pages.len(),
        scan.fed(pages).container == scan.container,
        pages.len() == 0 ==> scan.fed(pages) == scan,
        pages.len() > 0 ==> scan.fed(pages).rest == Some(pages.last()),
        forall|q: PageId|
            scan.page <= q && q + 1 < scan.fed(pages).page ==> #[trigger] may_be_empty(
                read_page,
                q,
            ),
    decreases pages.len(),
{
    if pages.len() > 0 {
        let earlier = pages.drop_last();
        let before = scan.fed(earlier);
        lemma_fed(num_pages, read_page, scan, earlier);
        let n = choose|n: PageId| #[trigger]
            call_ensures(num_pages, (), n) && before.wanted(n as int) is Some;
        assert(before.page < n);
        assert forall|q: PageId| scan.page <= q && q + 1 < scan.fed(pages).page implies
            #[trigger] may_be_empty(read_page, q) by {
            if q + 1 == before.page {
                assert(earlier.len() > 0);
                assert(may_read_in_turn(num_pages, read_page, scan, earlier));
                reveal_with_fuel(may_read_in_turn, 2);
                let earliest = scan.fed(earlier.drop_last());
                lemma_fed(num_pages, read_page, scan, earlier.drop_last());
                assert(may_read(read_page, earliest, Some(earlier.last())));
                let read = choose|page: Option<Vec<(Vec<u8>, SlotId)>>| #[trigger]
                    call_ensures(read_page, (earliest.page,), page) && page_records(page) == Some(
                        earlier.last(),
                    );
                assert(earliest.page == q);
                assert(before.rest == Some(earlier.last()));
                assert(earlier.last().len() == 0);
                assert(call_ensures(read_page, (q,), Some(read->0)));
                assert(records(read->0@).len() == 0);
            }
        }
    }
}

/// The records of a page, given one after the other.
struct PageIter {
    records: Vec<(Vec<u8>, SlotId)>,
    index: usize,
}

impl PageIter {
    spec fn inv(&self) -> bool {
        self.index <= self.records@.len()
    }

    /// The records yet to be given.
    spec fn rest(&self) -> Seq<Record> {
        records(self.records@).skip(self.index as int)
    }

    fn new(records: Vec<(Vec<u8>, SlotId)>) -> (r: PageIter)
        ensures
            r.inv(),
            r.rest() == crate::heapfileiter::records(records@),
    {
        let r = PageIter { records, index: 0 };
        assert(r.rest() =~= crate::heapfileiter::records(records@));
        r
    }

    /// Passes over the records that lie before `slot`.
    fn skip_to(&mut self, slot: SlotId)
        requires
            old(self).inv(),
        ensures
            final(self).inv(),
            final(self).rest() == from_slot(old(self).rest(), slot),
    {
        while self.index < self.records.len() && self.records[self.index].1 < slot
            invariant
                self.inv(),
                from_slot(self.rest(), slot) == from_slot(old(self).rest(), slot),
            decreases self.records@.len() - self.index,
        {
            let ghost before = self.rest();
            self.index = self.index + 1;
            assert(self.rest() =~= before.drop_first());
        }
    }

    fn next(&mut self) -> (r: Option<(Vec<u8>, SlotId)>)
        requires
            old(self).inv(),
        ensures
            final(self).inv(),
            old(self).rest().len() == 0 ==> r is None && *final(self) == *old(self),
            old(self).rest().len() > 0 ==> {
                &&& r matches Some(record)
                &&& (record.0@, record.1) == old(self).rest()[0]
                &&& final(self).rest() == old(self).rest().drop_first()
            },
    {
        if self.index < self.records.len() {
            let ghost before = self.rest();
            let mut bytes: Vec<u8> = Vec::new();
            let slot: SlotId = self.records[self.index].1;
            std::mem::swap(&mut bytes, &mut self.records[self.index].0);
            self.index = self.index + 1;
            assert(self.rest() =~= before.drop_first());
            Some((bytes, slot))
        } else {
            None
        }
    }
}

/// Goes through the values of a heap file. It holds no file: it says which page it needs,
/// and is handed what that page holds.
pub struct HeapFileIterator {
    container_id: ContainerId,
    tid: TransactionId,
    current_page_id: PageId,
    page_iter: Option<PageIter>,
}

impl View for HeapFileIterator {
    type V = Scan;

    closed spec fn view(&self) -> Scan {
        Scan {
            container: self.container_id,
            page: self.current_page_id,
            rest: match self.page_iter {
                Some(iter) => Some(iter.rest()),
                None => None,
            },
        }
    }
}

impl HeapFileIterator {
    /// What holds of the iterator between calls.
    pub closed spec fn inv(&self) -> bool {
        &&& self@.valid()
        &&& self.page_iter matches Some(iter) ==> iter.inv()
    }

    /// The transaction that the scan is part of.
    pub closed spec fn tid(&self) -> TransactionId {
        self.tid
    }

    /// The scan that the iterator stands for is valid.
    pub proof fn lemma_inv(&self)
        requires
            self.inv(),
        ensures
            self@.valid(),
    {
    }

    /// An iterator over all values of a container.
    pub fn new(tid: TransactionId, container_id: ContainerId) -> (r: Self)
        ensures
            r.inv(),
            r.tid() == tid,
            r@ == Scan::start(container_id),
    {
        HeapFileIterator { container_id, tid, current_page_id: 0, page_iter: None }
    }

    /// The page that has to be read for an iterator that starts at `value_id`.
    pub fn start_page(value_id: ValueId) -> (r: PageId)
        ensures
            r == Scan::start_page(value_id),
            value_id.page_id matches Some(p) ==> r == p,
            value_id.page_id is None ==> r == 0,
    {
        match value_id.page_id {
            Some(p) => p,
            None => 0,
        }
    }

    /// An iterator over the values of a container from `value_id` on, given what the page
    /// of `value_id` holds, or nothing if it could not be read.
    pub fn new_from(
        tid: TransactionId,
        container_id: ContainerId,
        value_id: ValueId,
        page: Option<Vec<(Vec<u8>, SlotId)>>,
    ) -> (r: Self)
        requires
            Scan::start_page(value_id) < PageId::MAX,
        ensures
            r.inv(),
            r.tid() == tid,
            r@ == Scan::start_from(
                container_id,
                value_id,
                page_records(page),
            ),
    {
        let start_page: PageId = Self::start_page(value_id);
        let start_slot: SlotId = match value_id.slot_id {
            Some(s) => s,
            None => 0,
        };
        let page_iter = match page {
            Some(p) => {
                let mut iter = PageIter::new(p);
                iter.skip_to(start_slot);
                Some(iter)
            },
            None => None,
        };
        HeapFileIterator { container_id, tid, current_page_id: start_page + 1, page_iter }
    }

    /// The next value of the page that was read last, if one is left.
    pub fn take(&mut self) -> (r: Option<(Vec<u8>, ValueId)>)
        requires
            old(self).inv(),
        ensures
            final(self).inv(),
            final(self).tid() == old(self).tid(),
            (item(r), final(self)@) == old(self)@.take(),
    {
        if let Some(iter) = &mut self.page_iter {
            if let Some((bytes, slot_id)) = iter.next() {
                let page_id: PageId = self.current_page_id - 1;
                let value_id = ValueId::new_slot(self.container_id, page_id, slot_id);
                return Some((bytes, value_id));
            }
        }
        None
    }

    /// The page that is to be read next, if a file that now has `num_pages` pages has it.
    pub fn wanted(&self, num_pages: PageId) -> (r: Option<PageId>)
        ensures
            r == self@.wanted(num_pages as int),
    {
        if self.current_page_id >= num_pages {
            None
        } else {
            Some(self.current_page_id)
        }
    }

    /// Takes over what the page that was wanted holds, or nothing if it could not be
    /// read. Says whether the search goes on: a page that could not be read ends it.
    pub fn supply(&mut self, page: Option<Vec<(Vec<u8>, SlotId)>>) -> (more: bool)
        requires
            old(self).inv(),
            old(self)@.page < PageId::MAX,
        ensures
            final(self).inv(),
            final(self).tid() == old(self).tid(),
            more == page is Some,
            final(self)@ == old(self)@.supplied(
                page_records(page),
            ),
    {
        match page {
            Some(p) => {
                self.current_page_id = self.current_page_id + 1;
                self.page_iter = Some(PageIter::new(p));
                true
            },
            None => false,
        }
    }

    /// The next value of a file, or nothing when there is no more or a page cannot be read.
    /// `num_pages` tells how many pages the file has, `read_page` what one of them holds.
    pub fn next<N: Fn() -> PageId, R: Fn(PageId) -> Option<Vec<(Vec<u8>, SlotId)>>>(
        &mut self,
        num_pages: N,
        read_page: R,
    ) -> (r: Option<(Vec<u8>, ValueId)>)
        requires
            old(self).inv(),
            call_requires(num_pages, ()),
            forall|p: PageId| call_requires(read_page, (p,)),
        ensures
            final(self).inv(),
            final(self).tid() == old(self).tid(),
            final(self)@.container == old(self)@.container,
            forall|file: HeapFile| #[trigger]
                read_from(num_pages, read_page, file) ==> (item(r), final(self)@)
                    == old(self)@.next_in(file),
            may_give(num_pages, read_page, old(self)@, item(r), final(self)@),
            old(self)@.take().0 is Some ==> (item(r), final(self)@) == old(self)@.take(),
            r is None ==> {
                &&& final(self)@.take().0 is None
                &&& may_be_at_end(num_pages, final(self)@) || may_read(
                    read_page,
                    final(self)@,
                    None,
                )
            },
    {
        let ghost mut pages: Seq<Seq<Record>> = Seq::empty();
        loop
            invariant
                self.inv(),
                self.tid() == old(self).tid(),
                self@.container == old(self)@.container,
                call_requires(num_pages, ()),
                forall|p: PageId| call_requires(read_page, (p,)),
                forall|file: HeapFile| #[trigger]
                    read_from(num_pages, read_page, file) ==> self@.next_in(file)
                        == old(self)@.next_in(file),
                may_read_in_turn(num_pages, read_page, old(self)@, pages),
                self@ == old(self)@.fed(pages),
                old(self)@.take().0 is Some ==> self@ == old(self)@,
            decreases PageId::MAX - self@.page,
        {
            if let Some(x) = self.take() {
                return Some(x);
            }
            let ghost here = self@;
            let n: PageId = num_pages();
            assert(call_ensures(num_pages, (), n));
            match self.wanted(n) {
                None => {
                    return None;
                },
                Some(p) => {
                    let page = read_page(p);
                    let ghost held = page_records(page);
                    assert(call_ensures(read_page, (here.page,), page));
                    assert(may_have_page(num_pages, here) && may_read(read_page, here, held));
                    assert forall|file: HeapFile| #[trigger]
                        read_from(num_pages, read_page, file) implies held == file[p as int] by {
                        assert(n == file.len());
                    }
                    if !self.supply(page) {
                        return None;
                    }
                    proof {
                        let more = pages.push(held->0);
                        assert(more.drop_last() =~= pages);
                        pages = more;
                    }
                },
            }
        }
    }
}

} // verus!
