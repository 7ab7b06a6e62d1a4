use crusty_query::{HeapFileIterator, PageId, SlotId, TransactionId, ValueId};

type Page = Vec<(Vec<u8>, SlotId)>;

const CONTAINER: u16 = 7;

fn tid() -> TransactionId {
    TransactionId { id: 1 }
}

fn id(page: PageId, slot: SlotId) -> ValueId {
    ValueId::new_slot(CONTAINER, page, slot)
}

// Page 0: slots 0, 1, 3. Page 1 is empty. Page 2: slot 5.
fn file() -> Vec<Option<Page>> {
    vec![
        Some(vec![(vec![10], 0), (vec![11, 12], 1), (vec![13], 3)]),
        Some(vec![]),
        Some(vec![(vec![20], 5)]),
    ]
}

fn next_of(it: &mut HeapFileIterator, file: &Vec<Option<Page>>) -> Option<(Vec<u8>, ValueId)> {
    it.next(|| file.len() as PageId, |p: PageId| file[p as usize].clone())
}

fn drain(it: &mut HeapFileIterator, file: &Vec<Option<Page>>) -> Vec<(Vec<u8>, ValueId)> {
    let mut r = Vec::new();
    while let Some(x) = next_of(it, file) {
        r.push(x);
    }
    r
}

fn start(file: &Vec<Option<Page>>, value_id: ValueId) -> HeapFileIterator {
    let p = HeapFileIterator::start_page(value_id);
    let page = match file.get(p as usize) {
        Some(page) => page.clone(),
        None => None,
    };
    HeapFileIterator::new_from(tid(), CONTAINER, value_id, page)
}

#[test]
fn scan_gives_every_value() {
    let f = file();
    let mut it = HeapFileIterator::new(tid(), CONTAINER);
    assert_eq!(
        drain(&mut it, &f),
        vec![
            (vec![10], id(0, 0)),
            (vec![11, 12], id(0, 1)),
            (vec![13], id(0, 3)),
            (vec![20], id(2, 5)),
        ]
    );
    assert_eq!(next_of(&mut it, &f), None);
}

#[test]
fn scan_of_an_empty_file() {
    let mut it = HeapFileIterator::new(tid(), CONTAINER);
    assert_eq!(drain(&mut it, &vec![]), vec![]);
}

#[test]
fn scan_from_a_value() {
    let f = file();
    let mut it = start(&f, id(0, 1));
    assert_eq!(
        drain(&mut it, &f),
        vec![(vec![11, 12], id(0, 1)), (vec![13], id(0, 3)), (vec![20], id(2, 5))]
    );
    // Slot 2 is empty: the scan starts with the first slot after it.
    let mut it = start(&f, id(0, 2));
    assert_eq!(drain(&mut it, &f), vec![(vec![13], id(0, 3)), (vec![20], id(2, 5))]);
    // All slots of the page lie before it.
    let mut it = start(&f, id(0, 9));
    assert_eq!(drain(&mut it, &f), vec![(vec![20], id(2, 5))]);
}

#[test]
fn scan_from_no_page_or_slot_starts_at_the_beginning() {
    let f = file();
    let nowhere = ValueId { container_id: CONTAINER, segment_id: None, page_id: None, slot_id: None };
    assert_eq!(HeapFileIterator::start_page(nowhere), 0);
    let mut it = start(&f, nowhere);
    let mut all = HeapFileIterator::new(tid(), CONTAINER);
    assert_eq!(drain(&mut it, &f), drain(&mut all, &f));
}

#[test]
fn records_are_passed_over_only_at_the_front() {
    let f: Vec<Option<Page>> = vec![Some(vec![(vec![1], 4), (vec![2], 1)])];
    let mut it = start(&f, id(0, 3));
    assert_eq!(drain(&mut it, &f), vec![(vec![1], id(0, 4)), (vec![2], id(0, 1))]);
}

#[test]
fn an_unreadable_page_ends_the_scan() {
    let mut f = file();
    f[1] = None;
    let mut it = HeapFileIterator::new(tid(), CONTAINER);
    assert_eq!(drain(&mut it, &f).len(), 3);
    // Once the page can be read the scan goes on with it.
    assert_eq!(drain(&mut it, &file()), vec![(vec![20], id(2, 5))]);
}

#[test]
fn an_unreadable_first_page_is_passed_over() {
    let mut f = file();
    f[0] = None;
    let mut it = start(&f, id(0, 1));
    assert_eq!(drain(&mut it, &f), vec![(vec![20], id(2, 5))]);
}

#[test]
fn pages_are_asked_for_and_handed_over() {
    let mut it = HeapFileIterator::new(tid(), CONTAINER);
    assert_eq!(it.take(), None);
    assert_eq!(it.wanted(0), None);
    assert_eq!(it.wanted(2), Some(0));
    assert_eq!(it.supply(None), false);
    assert_eq!(it.wanted(2), Some(0));
    assert_eq!(it.supply(Some(vec![(vec![1], 8)])), true);
    assert_eq!(it.take(), Some((vec![1], id(0, 8))));
    assert_eq!(it.take(), None);
    assert_eq!(it.wanted(2), Some(1));
    assert_eq!(it.wanted(1), None);
}

#[test]
fn values_that_are_left_need_no_file() {
    let f = file();
    let mut it = start(&f, id(0, 1));
    let x = it.next(|| panic!("no count is needed"), |_p: PageId| panic!("no page is needed"));
    assert_eq!(x, Some((vec![11, 12], id(0, 1))));
}

#[test]
fn a_file_may_grow_while_it_is_scanned() {
    let mut it = HeapFileIterator::new(tid(), CONTAINER);
    let mut f: Vec<Option<Page>> = vec![Some(vec![(vec![1], 0)])];
    assert_eq!(drain(&mut it, &f), vec![(vec![1], id(0, 0))]);
    f.push(Some(vec![(vec![2], 6)]));
    assert_eq!(drain(&mut it, &f), vec![(vec![2], id(1, 6))]);
    // It may grow within a call, too.
    let asked = std::cell::Cell::new(0);
    let mut it = HeapFileIterator::new(tid(), CONTAINER);
    let x = it.next(
        || {
            asked.set(asked.get() + 1);
            asked.get()
        },
        |p: PageId| Some(if p < 3 { vec![] } else { vec![(vec![9], 0)] }),
    );
    assert_eq!(x, Some((vec![9], id(3, 0))));
    assert_eq!(asked.get(), 4);
}

#[test]
fn scan_from_a_page_past_the_end() {
    let f = file();
    let mut it = start(&f, id(3, 0));
    assert_eq!(drain(&mut it, &f), vec![]);
    let mut it = start(&f, id(900, 4));
    assert_eq!(drain(&mut it, &f), vec![]);
}
