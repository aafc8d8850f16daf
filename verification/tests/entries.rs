use frame::batch::RecordBatch;
use frame::entry::{Entry, Interval};
use frame::error::StorageError;
use frame::file::{Frames, Txn};
use frame::rows::Bound;

fn batch(rows: &[&[u8]]) -> RecordBatch {
    RecordBatch::new(rows.iter().map(|r| r.to_vec()).collect())
}

fn rows(b: RecordBatch) -> Vec<Vec<u8>> {
    b.into_rows()
}

fn keys(f: &mut Frames, start: &str, end: &str) -> Vec<String> {
    let mut range = f.range(start..end).unwrap();
    let mut out = Vec::new();
    while let Some((k, _)) = range.next() {
        out.push(k.to_owned());
    }
    out
}

#[test]
fn first_batch_goes_under_the_first_suffix() {
    let mut f = Frames::path("store").unwrap();
    let mut t = f.txn().unwrap();
    {
        let e = t.entry("a").unwrap();
        assert!(matches!(e, Entry::Vacant(_)));
        e.or_insert(batch(&[b"x"])).unwrap();
    }
    t.commit().unwrap();
    assert_eq!(keys(&mut f, "a\u{F0000}", "a\u{10FFFF}"), vec!["a\u{F0001}".to_string()]);
}

#[test]
fn append_reads_back_after_existing_rows() {
    let mut f = Frames::path("store").unwrap();
    let mut t = f.txn().unwrap();
    {
        let e = t.entry("frame").unwrap();
        let mut o = e.or_insert(batch(&[b"r0", b"r1"])).unwrap();
        o.insert_entry(batch(&[b"r2"])).unwrap();
        let batches: Vec<Vec<Vec<u8>>> = o.iter().unwrap().into_iter().map(rows).collect();
        assert_eq!(batches, vec![vec![b"r0".to_vec(), b"r1".to_vec()], vec![b"r2".to_vec()]]);
        let all = o.range(Bound::Unbounded, Bound::Unbounded).unwrap();
        assert_eq!(all, vec![b"r0".to_vec(), b"r1".to_vec(), b"r2".to_vec()]);
    }
    t.commit().unwrap();
    assert_eq!(
        keys(&mut f, "frame\u{F0000}", "frame\u{10FFFF}"),
        vec!["frame\u{F0001}".to_string(), "frame\u{F0002}".to_string()]
    );
}

#[test]
fn occupied_entry_is_found_again() {
    let mut f = Frames::path("store").unwrap();
    let mut t = f.txn().unwrap();
    {
        t.entry("k").unwrap().or_insert(batch(&[b"v"])).unwrap();
    }
    let e = t.entry("k").unwrap();
    assert!(matches!(e, Entry::Occupied(_)));
    assert_eq!(e.key(), "k");
}

#[test]
fn or_insert_keeps_an_occupied_entry() {
    let mut f = Frames::path("store").unwrap();
    let mut t = f.txn().unwrap();
    {
        t.entry("k").unwrap().or_insert(batch(&[b"v"])).unwrap();
    }
    let o = t.entry("k").unwrap().or_insert(batch(&[b"w"])).unwrap();
    let batches: Vec<Vec<Vec<u8>>> = o.iter().unwrap().into_iter().map(rows).collect();
    assert_eq!(batches, vec![vec![b"v".to_vec()]]);
}

#[test]
fn or_insert_with_calls_the_default_only_when_vacant() {
    let mut f = Frames::path("store").unwrap();
    let mut t = f.txn().unwrap();
    let o = t.entry("k").unwrap().or_insert_with(|| batch(&[b"made"])).unwrap();
    assert_eq!(o.range(Bound::Unbounded, Bound::Unbounded).unwrap(), vec![b"made".to_vec()]);
}

#[test]
fn or_insert_with_key_passes_the_key() {
    let mut f = Frames::path("store").unwrap();
    let mut t = f.txn().unwrap();
    let o = t
        .entry("name")
        .unwrap()
        .or_insert_with_key(|k| RecordBatch::new(vec![k.into_bytes()]))
        .unwrap();
    assert_eq!(o.key(), "name");
    assert_eq!(o.range(Bound::Unbounded, Bound::Unbounded).unwrap(), vec![b"name".to_vec()]);
}

#[test]
fn vacant_entry_gives_its_key() {
    let mut f = Frames::path("store").unwrap();
    let mut t = f.txn().unwrap();
    match t.entry("nothing").unwrap() {
        Entry::Vacant(v) => {
            assert_eq!(v.key(), "nothing");
            assert_eq!(v.into_key(), "nothing".to_string());
        }
        Entry::Occupied(_) => panic!("expected a vacant entry"),
    }
}

#[test]
fn removed_entry_is_vacant() {
    let mut f = Frames::path("store").unwrap();
    let mut t = f.txn().unwrap();
    {
        let mut o = t.entry("gone").unwrap().or_insert(batch(&[b"1"])).unwrap();
        o.insert_entry(batch(&[b"2"])).unwrap();
        let v = o.remove_entry().unwrap();
        assert_eq!(v.key(), "gone");
    }
    {
        t.entry("kept").unwrap().or_insert(batch(&[b"3"])).unwrap();
    }
    assert!(matches!(t.entry("gone").unwrap(), Entry::Vacant(_)));
    assert!(matches!(t.entry("kept").unwrap(), Entry::Occupied(_)));
}

#[test]
fn entries_with_a_common_prefix_stay_apart() {
    let mut f = Frames::path("store").unwrap();
    let mut t = f.txn().unwrap();
    {
        t.entry("ab").unwrap().or_insert(batch(&[b"long"])).unwrap();
    }
    assert!(matches!(t.entry("a").unwrap(), Entry::Vacant(_)));
    {
        t.entry("a").unwrap().or_insert(batch(&[b"short"])).unwrap();
    }
    let o = t.entry("ab").unwrap().or_insert(batch(&[])).unwrap();
    assert_eq!(o.range(Bound::Unbounded, Bound::Unbounded).unwrap(), vec![b"long".to_vec()]);
}

#[test]
fn range_gives_the_rows_between_the_bounds() {
    let mut f = Frames::path("store").unwrap();
    let mut t = f.txn().unwrap();
    let mut o = t.entry("r").unwrap().or_insert(batch(&[b"0", b"1"])).unwrap();
    o.insert_entry(batch(&[b"2", b"3"])).unwrap();
    assert_eq!(
        o.range(Bound::Included(1), Bound::Excluded(3)).unwrap(),
        vec![b"1".to_vec(), b"2".to_vec()]
    );
    assert_eq!(
        o.range(Bound::Excluded(0), Bound::Included(1)).unwrap(),
        vec![b"1".to_vec()]
    );
    assert_eq!(
        o.range(Bound::Included(2), Bound::Included(usize::MAX)).unwrap(),
        vec![b"2".to_vec(), b"3".to_vec()]
    );
    assert!(o.range(Bound::Included(9), Bound::Unbounded).unwrap().is_empty());
    assert!(o.range(Bound::Included(3), Bound::Excluded(1)).unwrap().is_empty());
}

#[test]
fn remove_rows_takes_out_window() {
    let mut f = Frames::path("store").unwrap();
    let mut t = f.txn().unwrap();
    let mut o = t.entry("r").unwrap().or_insert(batch(&[b"0", b"1"])).unwrap();
    o.insert_entry(batch(&[b"2", b"3"])).unwrap();
    o.remove(Bound::Included(1), Bound::Included(2)).unwrap();
    assert_eq!(
        o.range(Bound::Unbounded, Bound::Unbounded).unwrap(),
        vec![b"0".to_vec(), b"3".to_vec()]
    );
    let batches: Vec<Vec<Vec<u8>>> = o.iter().unwrap().into_iter().map(rows).collect();
    assert_eq!(batches, vec![vec![b"0".to_vec()], vec![b"3".to_vec()]]);
}

#[test]
fn remove_drops_batches_left_empty() {
    let mut f = Frames::path("store").unwrap();
    let mut t = f.txn().unwrap();
    let mut o = t.entry("r").unwrap().or_insert(batch(&[b"0", b"1"])).unwrap();
    o.insert_entry(batch(&[b"2"])).unwrap();
    o.insert_entry(batch(&[b"3"])).unwrap();
    o.remove(Bound::Excluded(0), Bound::Excluded(3)).unwrap();
    let batches: Vec<Vec<Vec<u8>>> = o.iter().unwrap().into_iter().map(rows).collect();
    assert_eq!(batches, vec![vec![b"0".to_vec()], vec![b"3".to_vec()]]);
}

#[test]
fn remove_everything_leaves_no_batch() {
    let mut f = Frames::path("store").unwrap();
    let mut t = f.txn().unwrap();
    let mut o = t.entry("r").unwrap().or_insert(batch(&[b"0", b"1"])).unwrap();
    o.insert_entry(batch(&[b"2"])).unwrap();
    o.remove(Bound::Unbounded, Bound::Unbounded).unwrap();
    assert!(o.iter().unwrap().is_empty());
}

#[test]
fn remove_up_to_included_max_removes_nothing() {
    let mut f = Frames::path("store").unwrap();
    let mut t = f.txn().unwrap();
    let mut o = t.entry("r").unwrap().or_insert(batch(&[b"0", b"1"])).unwrap();
    o.remove(Bound::Included(0), Bound::Included(usize::MAX)).unwrap();
    assert_eq!(
        o.range(Bound::Unbounded, Bound::Unbounded).unwrap(),
        vec![b"0".to_vec(), b"1".to_vec()]
    );
}

#[test]
fn all_keys_lists_each_name_once() {
    let mut f = Frames::path("store").unwrap();
    let mut t = f.txn().unwrap();
    {
        let mut o = t.entry("a").unwrap().or_insert(batch(&[b"1"])).unwrap();
        o.insert_entry(batch(&[b"2"])).unwrap();
    }
    {
        t.entry("b").unwrap().or_insert(batch(&[b"3"])).unwrap();
    }
    {
        t.entry("ab").unwrap().or_insert(batch(&[b"4"])).unwrap();
    }
    t.commit().unwrap();
    assert_eq!(
        f.all_keys().unwrap(),
        vec!["ab".to_string(), "a".to_string(), "b".to_string()]
    );
}

#[test]
fn all_keys_of_an_empty_store_is_empty() {
    let mut f = Frames::path("store").unwrap();
    assert!(f.all_keys().unwrap().is_empty());
}

#[test]
fn all_keys_lists_every_name_whose_interval_holds_a_key() {
    let mut f = Frames::path("store").unwrap();
    let mut t = f.txn().unwrap();
    {
        t.entry("\u{F0010}").unwrap().or_insert(batch(&[b"1"])).unwrap();
    }
    assert!(matches!(t.entry("").unwrap(), Entry::Occupied(_)));
    t.commit().unwrap();
    assert_eq!(f.all_keys().unwrap(), vec!["\u{F0010}".to_string(), "".to_string()]);
}

#[test]
fn interval_over_a_name() {
    let i = Interval::over("n".to_string()).unwrap();
    assert_eq!(i.min(), "n\u{F0000}");
    assert_eq!(i.max(), "n\u{10FFFF}");
    assert_eq!(i.as_ref(), "n");
    let r = i.range();
    assert_eq!(r.start, "n\u{F0000}");
    assert_eq!(r.end, "n\u{10FFFF}");
    assert_eq!(i.into_key(), "n".to_string());
}

#[test]
fn interval_open_moves_to_the_next_character() {
    let i = Interval::open("n\u{F0001}".to_string(), "n\u{10FFFF}".to_string()).unwrap();
    assert_eq!(i.min(), "n\u{F0002}");
    assert_eq!(i.max(), "n\u{10FFFF}");
    assert_eq!(i.as_ref(), "n");
}

#[test]
fn interval_open_is_full_without_a_next_character() {
    assert!(matches!(
        Interval::open("n\u{10FFFF}".to_string(), "z".to_string()),
        Err(StorageError::Full)
    ));
    assert!(matches!(
        Interval::open("n\u{D7FF}".to_string(), "z".to_string()),
        Err(StorageError::Full)
    ));
}

#[test]
fn txn_level_beyond_the_engine_range_is_refused() {
    let mut f = Frames::path("store").unwrap();
    assert!(matches!(Txn::new(&mut f, i32::MAX as u32), Err(StorageError::Limits(_))));
    let t = Txn::new(&mut f, 1).unwrap();
    assert_eq!(t.level, 2);
}
