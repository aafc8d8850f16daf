use frame::batch::RecordBatch;
use frame::entry::Entry;
use frame::file::Frames;
use frame::rows::Bound;

fn batch(rows: &[&[u8]]) -> RecordBatch {
    RecordBatch::new(rows.iter().map(|r| r.to_vec()).collect())
}

fn rows_of(f: &mut Frames, name: &str) -> Option<Vec<Vec<u8>>> {
    let mut t = f.txn().unwrap();
    let found = match t.entry(name).unwrap() {
        Entry::Occupied(o) => Some(o.range(Bound::Unbounded, Bound::Unbounded).unwrap()),
        Entry::Vacant(_) => None,
    };
    t.commit().unwrap();
    found
}

#[test]
fn txn_commit_keeps_writes() {
    let mut f = Frames::path("store").unwrap();
    let mut t = f.txn().unwrap();
    {
        t.entry("a").unwrap().or_insert(batch(&[b"1"])).unwrap();
    }
    t.commit().unwrap();
    assert_eq!(rows_of(&mut f, "a"), Some(vec![b"1".to_vec()]));
}

#[test]
fn txn_rollback_discards_writes() {
    let mut f = Frames::path("store").unwrap();
    let mut t = f.txn().unwrap();
    {
        t.entry("a").unwrap().or_insert(batch(&[b"1"])).unwrap();
    }
    t.rollback().unwrap();
    assert_eq!(rows_of(&mut f, "a"), None);
}

#[test]
fn rollback_restores_earlier_commits() {
    let mut f = Frames::path("store").unwrap();
    let mut t = f.txn().unwrap();
    {
        t.entry("a").unwrap().or_insert(batch(&[b"1"])).unwrap();
    }
    t.commit().unwrap();
    let mut t = f.txn().unwrap();
    {
        let mut o = t.entry("a").unwrap().or_insert(batch(&[])).unwrap();
        o.insert_entry(batch(&[b"2"])).unwrap();
    }
    t.rollback().unwrap();
    assert_eq!(rows_of(&mut f, "a"), Some(vec![b"1".to_vec()]));
}

#[test]
fn nested_commit_then_outer_rollback() {
    let mut f = Frames::path("store").unwrap();
    let mut outer = f.txn().unwrap();
    {
        let mut inner = outer.txn().unwrap();
        assert_eq!(inner.level, 2);
        {
            inner.entry("a").unwrap().or_insert(batch(&[b"1"])).unwrap();
        }
        inner.commit().unwrap();
    }
    assert!(matches!(outer.entry("a").unwrap(), Entry::Occupied(_)));
    outer.rollback().unwrap();
    assert_eq!(rows_of(&mut f, "a"), None);
}

#[test]
fn nested_rollback_keeps_outer_writes() {
    let mut f = Frames::path("store").unwrap();
    let mut outer = f.txn().unwrap();
    {
        outer.entry("a").unwrap().or_insert(batch(&[b"1"])).unwrap();
    }
    {
        let mut inner = outer.txn().unwrap();
        {
            inner.entry("b").unwrap().or_insert(batch(&[b"2"])).unwrap();
        }
        inner.rollback().unwrap();
    }
    assert!(matches!(outer.entry("b").unwrap(), Entry::Vacant(_)));
    outer.commit().unwrap();
    assert_eq!(rows_of(&mut f, "a"), Some(vec![b"1".to_vec()]));
    assert_eq!(rows_of(&mut f, "b"), None);
}

#[test]
fn top_level_txn_has_level_one() {
    let mut f = Frames::path("store").unwrap();
    let t = f.txn().unwrap();
    assert_eq!(t.level, 1);
}

#[test]
fn inner_rollback_closes_and_a_later_inner_keeps_outer_writes() {
    let mut f = Frames::path("store").unwrap();
    let mut outer = f.txn().unwrap();
    {
        let mut inner = outer.txn().unwrap();
        {
            inner.entry("x").unwrap().or_insert(batch(&[b"1"])).unwrap();
        }
        inner.rollback().unwrap();
    }
    {
        outer.entry("b").unwrap().or_insert(batch(&[b"2"])).unwrap();
    }
    {
        let mut inner = outer.txn().unwrap();
        {
            inner.entry("y").unwrap().or_insert(batch(&[b"3"])).unwrap();
        }
        inner.rollback().unwrap();
    }
    assert!(matches!(outer.entry("b").unwrap(), Entry::Occupied(_)));
    assert!(matches!(outer.entry("x").unwrap(), Entry::Vacant(_)));
    assert!(matches!(outer.entry("y").unwrap(), Entry::Vacant(_)));
    outer.commit().unwrap();
    assert_eq!(rows_of(&mut f, "b"), Some(vec![b"2".to_vec()]));
}

#[test]
fn dropped_nested_transaction_is_undone() {
    let mut f = Frames::path("store").unwrap();
    let mut outer = f.txn().unwrap();
    {
        outer.entry("kept").unwrap().or_insert(batch(&[b"1"])).unwrap();
    }
    {
        let mut inner = outer.txn().unwrap();
        inner.entry("dropped").unwrap().or_insert(batch(&[b"2"])).unwrap();
    }
    assert!(matches!(outer.entry("dropped").unwrap(), Entry::Vacant(_)));
    outer.commit().unwrap();
    assert_eq!(rows_of(&mut f, "kept"), Some(vec![b"1".to_vec()]));
    assert_eq!(rows_of(&mut f, "dropped"), None);
}

#[test]
fn dropped_top_level_transaction_is_undone_by_the_next() {
    let mut f = Frames::path("store").unwrap();
    {
        let mut t = f.txn().unwrap();
        t.entry("dropped").unwrap().or_insert(batch(&[b"1"])).unwrap();
    }
    assert_eq!(rows_of(&mut f, "dropped"), None);
}

#[test]
fn dropped_transaction_is_not_seen_by_cursors_or_listings() {
    let mut f = Frames::path("store").unwrap();
    {
        let mut t = f.txn().unwrap();
        t.entry("gone").unwrap().or_insert(batch(&[b"1"])).unwrap();
    }
    assert!(f.range("".."\u{10FFFF}").unwrap().next().is_none());
    assert!(f.all_keys().unwrap().is_empty());
}

#[test]
fn committed_writes_survive_a_later_dropped_transaction() {
    let mut f = Frames::path("store").unwrap();
    let mut t = f.txn().unwrap();
    {
        t.entry("kept").unwrap().or_insert(batch(&[b"1"])).unwrap();
    }
    t.commit().unwrap();
    {
        let mut t = f.txn().unwrap();
        let mut o = t.entry("kept").unwrap().or_insert(batch(&[])).unwrap();
        o.insert_entry(batch(&[b"2"])).unwrap();
    }
    assert_eq!(f.all_keys().unwrap(), vec!["kept".to_string()]);
    assert_eq!(rows_of(&mut f, "kept"), Some(vec![b"1".to_vec()]));
}
