use recstore::pager::{Page, Pager};
use recstore::types::PageId;

#[test]
fn read_unknown() {
    let s = Pager::new();
    assert_eq!(s.read(PageId(12)), None)
}

#[test]
fn insert_read() {
    let mut s = Pager::new();
    assert_eq!(s.read(PageId(0)), None);

    s.store_new(vec![1, 2, 3]);
    assert_eq!(s.read(PageId(0)), Some(&Page::new(vec![1, 2, 3])));

    s.store_new(vec![4, 5, 6]);
    assert_eq!(s.read(PageId(0)), Some(&Page::new(vec![1, 2, 3])));
    assert_eq!(s.read(PageId(1)), Some(&Page::new(vec![4, 5, 6])));
}

#[test]
fn modify() {
    let mut s = Pager::new();
    s.store_new(vec![1, 2, 3]);
    s.store_new(vec![4, 5, 6]);

    assert_eq!(s.read(PageId(0)), Some(&Page::new(vec![1, 2, 3])));
    assert_eq!(s.read(PageId(1)), Some(&Page::new(vec![4, 5, 6])));

    s.update(PageId(0), vec![87]).unwrap();
    assert_eq!(s.read(PageId(0)), Some(&Page::new(vec![87])));
    assert_eq!(s.read(PageId(1)), Some(&Page::new(vec![4, 5, 6])));
}

#[test]
fn modify_same_page() {
    let mut s = Pager::new();
    s.store_new(vec![1, 2, 3]);
    s.store_new(vec![4, 5, 6]);

    assert_eq!(s.read(PageId(0)), Some(&Page::new(vec![1, 2, 3])));

    s.update(PageId(0), vec![87]).unwrap();
    assert_eq!(s.read(PageId(0)), Some(&Page::new(vec![87])));
}

#[test]
fn modify_unknown() {
    let mut s = Pager::new();
    s.store_new(vec![1, 2, 3]);
    s.store_new(vec![4, 5, 6]);

    assert_eq!(s.read(PageId(0)), Some(&Page::new(vec![1, 2, 3])));
    assert_eq!(s.read(PageId(1)), Some(&Page::new(vec![4, 5, 6])));

    assert!(s.update(PageId(2), vec![87]).is_err());
}

#[test]
fn sequential_ids_from_zero() {
    let mut s = Pager::new();
    assert_eq!(s.store_new(vec![]), PageId(0));
    assert_eq!(s.store_new(vec![9]), PageId(1));
    assert_eq!(s.store_new(vec![7, 8]), PageId(2));
    assert_eq!(s.page_count(), 3);
}

#[test]
fn update_keeps_identity_and_size() {
    let mut s = Pager::new();
    s.store_new(vec![1, 2, 3]);
    s.update(PageId(0), vec![4, 5]).unwrap();
    let page = s.read(PageId(0)).unwrap();
    assert_eq!(page.head.size, 2);
    assert_eq!(page.data, vec![4, 5]);
    assert_eq!(s.page_count(), 1);
}
