use frame::error::StorageError;
use frame::file::{structure_text, Frames, BLOCK_SIZE_KIB, PAGE_SIZE};
use frame::order::{key_less_or_equal, str_lt};
use frame::store::Store;

#[test]
fn path_is_kept() {
    let f = Frames::path("some/where.db").unwrap();
    assert_eq!(f.file_path().unwrap(), "some/where.db".to_string());
}

#[test]
fn path_with_nul_is_refused() {
    assert!(matches!(Frames::path("bad\0path"), Err(StorageError::NulError)));
}

#[test]
fn sizes_are_the_engine_defaults() {
    let f = Frames::path("x").unwrap();
    assert_eq!(f.block_size().unwrap(), 1024 * 1024);
    assert_eq!(f.page_size().unwrap(), 4096);
    assert_eq!(BLOCK_SIZE_KIB, 1024);
    assert_eq!(PAGE_SIZE, 4096);
}

#[test]
fn compact_has_no_work_and_info_is_empty() {
    let mut f = Frames::path("x").unwrap();
    assert_eq!(f.compact().unwrap(), false);
    assert!(matches!(f.info(), Err(StorageError::Empty)));
}

#[test]
fn store_keeps_keys_in_order() {
    let mut s = Store::new();
    s.set("b".to_string(), vec![2]);
    s.set("a".to_string(), vec![1]);
    s.set("c".to_string(), vec![3]);
    s.set("b".to_string(), vec![9]);
    assert_eq!(s.len(), 3);
    assert_eq!(s.key(0), "a");
    assert_eq!(s.key(1), "b");
    assert_eq!(s.value(1), &[9u8][..]);
    assert_eq!(s.key(2), "c");
    assert_eq!(s.lower_bound("bb"), 2);
    assert_eq!(s.lower_bound(""), 0);
}

#[test]
fn store_cut_removes_a_half_open_range() {
    let mut s = Store::new();
    for k in ["a", "b", "c", "d"] {
        s.set(k.to_string(), vec![]);
    }
    s.cut("b", "d");
    assert_eq!(s.len(), 2);
    assert_eq!(s.key(0), "a");
    assert_eq!(s.key(1), "d");
}

#[test]
fn store_splice_replaces_positions() {
    let mut s = Store::new();
    for k in ["a", "b", "c"] {
        s.set(k.to_string(), vec![]);
    }
    s.splice(1, 2, vec![("b1".to_string(), vec![1]), ("b2".to_string(), vec![2])]);
    assert_eq!(s.len(), 4);
    assert_eq!(s.key(1), "b1");
    assert_eq!(s.key(2), "b2");
    assert_eq!(s.key(3), "c");
}

#[test]
fn store_levels_nest() {
    let mut s = Store::new();
    s.set("a".to_string(), vec![]);
    s.begin(2);
    assert_eq!(s.open_levels(), 2);
    s.set("b".to_string(), vec![]);
    s.commit(1);
    assert_eq!(s.open_levels(), 1);
    assert_eq!(s.len(), 2);
    s.rollback(1);
    assert_eq!(s.open_levels(), 1);
    assert_eq!(s.len(), 1);
    s.rollback(0);
    assert_eq!(s.open_levels(), 0);
    s.begin(0);
    assert_eq!(s.open_levels(), 0);
}

#[test]
fn rollback_of_an_unopened_level_does_nothing() {
    let mut s = Store::new();
    s.set("a".to_string(), vec![]);
    s.rollback(3);
    assert_eq!(s.len(), 1);
}

#[test]
fn range_cursor_walks_its_keys() {
    let mut f = Frames::path("x").unwrap();
    let mut t = f.txn().unwrap();
    for name in ["p", "q", "r"] {
        let e = t.entry(name).unwrap();
        e.or_insert(frame::batch::RecordBatch::new(vec![vec![1]])).unwrap();
    }
    t.commit().unwrap();
    let r = f.range("q".."r\u{10FFFF}").unwrap();
    assert_eq!(r.start().unwrap(), "q\u{F0001}");
    assert_eq!(r.end().unwrap(), "r\u{F0001}");
    let mut r = f.range("q".."r").unwrap();
    let (k, v) = r.next().unwrap();
    assert_eq!(k, "q\u{F0001}");
    assert!(!v.is_empty());
    assert!(r.next().is_none());
    let last = f.range("a".."z").unwrap().last().unwrap();
    assert_eq!(last.0, "r\u{F0001}");
}

#[test]
fn range_start_is_the_key_under_the_cursor() {
    let mut f = Frames::path("x").unwrap();
    let mut t = f.txn().unwrap();
    for name in ["p", "q"] {
        let e = t.entry(name).unwrap();
        e.or_insert(frame::batch::RecordBatch::new(vec![vec![1]])).unwrap();
    }
    t.commit().unwrap();
    let r = f.range("a".."b").unwrap();
    assert_eq!(r.start().unwrap(), "p\u{F0001}");
    let mut r = f.range("p".."q").unwrap();
    assert!(r.next().is_some());
    assert_eq!(r.start().unwrap(), "q\u{F0001}");
    assert!(r.next().is_none());
    assert_eq!(r.start().unwrap(), "q\u{F0001}");
    let r = f.range("z".."zz").unwrap();
    assert!(matches!(r.start(), Err(StorageError::Empty)));
}

#[test]
fn range_end_is_the_greatest_key_at_or_before_the_end() {
    let mut f = Frames::path("x").unwrap();
    let mut t = f.txn().unwrap();
    for name in ["p", "q"] {
        let e = t.entry(name).unwrap();
        e.or_insert(frame::batch::RecordBatch::new(vec![vec![1]])).unwrap();
    }
    t.commit().unwrap();
    assert_eq!(f.range("a".."q\u{F0001}").unwrap().end().unwrap(), "q\u{F0001}");
    assert_eq!(f.range("a".."q").unwrap().end().unwrap(), "p\u{F0001}");
    assert_eq!(f.range("x".."z").unwrap().end().unwrap(), "q\u{F0001}");
    assert!(matches!(f.range("a".."b").unwrap().end(), Err(StorageError::Empty)));
}

#[test]
fn empty_range_has_no_ends() {
    let mut f = Frames::path("x").unwrap();
    let r = f.range("a".."b").unwrap();
    assert!(matches!(r.start(), Err(StorageError::Empty)));
    assert!(matches!(r.end(), Err(StorageError::Empty)));
    assert!(f.range("a".."b").unwrap().last().is_none());
}

#[test]
fn str_order_is_by_code_point() {
    assert!(str_lt("a", "b"));
    assert!(!str_lt("b", "a"));
    assert!(!str_lt("a", "a"));
    assert!(str_lt("a", "ab"));
    assert!(str_lt("z", "\u{F0000}"));
    assert!(str_lt("\u{F0000}", "\u{10FFFF}"));
    assert!(str_lt("\u{FFFF}", "\u{10000}"));
    assert!(key_less_or_equal("a", "a"));
    assert!(key_less_or_equal("a", "b"));
    assert!(!key_less_or_equal("b", "a"));
}

#[test]
fn structure_report_reads_as_text() {
    assert!(matches!(structure_text(None), Err(StorageError::Empty)));
    assert_eq!(structure_text(Some(b"{0 {1 2}}".to_vec())).unwrap(), "{0 {1 2}}".to_string());
    assert_eq!(structure_text(Some(vec![b'a', 0xFF, b'b'])).unwrap(), "a\u{FFFD}b".to_string());
}
