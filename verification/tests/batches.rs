use frame::batch::RecordBatch;
use frame::cli::{Info, Units, Verb};
use frame::error::StorageError;
use frame::file::Frames;
use frame::lsm;
use frame::text::{char_from_u32, decimal_string, pop_char, push_char, successor};

#[test]
fn compress_then_decompress_roundtrip() {
    let b = RecordBatch::new(vec![b"one".to_vec(), vec![], b"three".to_vec()]);
    let bytes = RecordBatch::compress(&b).unwrap();
    let back = RecordBatch::decompress(&bytes).unwrap();
    assert_eq!(back.into_rows(), vec![b"one".to_vec(), vec![], b"three".to_vec()]);
}

#[test]
fn compressed_rows_are_length_prefixed() {
    let b = RecordBatch::new(vec![vec![7, 8]]);
    assert_eq!(RecordBatch::compress(&b).unwrap(), vec![2, 0, 0, 0, 0, 0, 0, 0, 7, 8]);
    assert!(RecordBatch::compress(&RecordBatch::default()).unwrap().is_empty());
}

#[test]
fn malformed_bytes_fail_to_decompress() {
    assert!(matches!(RecordBatch::decompress(&[1, 2, 3]), Err(StorageError::Decompression(_))));
    assert!(matches!(
        RecordBatch::decompress(&[9, 0, 0, 0, 0, 0, 0, 0, 1]),
        Err(StorageError::Decompression(_))
    ));
    assert_eq!(RecordBatch::decompress(&[]).unwrap().num_rows(), 0);
}

#[test]
fn batch_slice_and_extend() {
    let b = RecordBatch::new(vec![vec![0], vec![1], vec![2], vec![3]]);
    assert_eq!(b.num_rows(), 4);
    assert_eq!(b.row(2), &[2u8][..]);
    let s = b.slice(1, 2);
    assert_eq!(s.into_rows(), vec![vec![1], vec![2]]);
    let mut e = RecordBatch::new(vec![vec![9]]);
    e.extend(&vec![RecordBatch::new(vec![vec![1]]), RecordBatch::new(vec![vec![2], vec![3]])]);
    assert_eq!(e.into_rows(), vec![vec![9], vec![1], vec![2], vec![3]]);
}

#[test]
fn engine_codes_turn_into_results() {
    assert_eq!(lsm::Error::Success.ok(), Ok(()));
    assert_eq!(lsm::Error::Busy.ok(), Err(lsm::Error::Busy));
}

#[test]
fn verbs_answer_with_messages() {
    let mut f = Frames::path("where/the.db").unwrap();
    assert_eq!(Verb::PageSize.with(&mut f, None).unwrap(), Some("4096".to_string()));
    assert_eq!(Verb::Path.with(&mut f, None).unwrap(), Some("where/the.db".to_string()));
    assert_eq!(Verb::Compact.with(&mut f, None).unwrap(), Some("no work to do".to_string()));
    assert_eq!(Verb::Size.with(&mut f, Some(12345)).unwrap(), Some("12345".to_string()));
    let info = Verb::Info(Info { sizes: Units::KB, si: true });
    assert_eq!(info.with(&mut f, None).unwrap(), Some(String::new()));
}

#[test]
fn numbers_print_in_decimal() {
    assert_eq!(decimal_string(0), "0");
    assert_eq!(decimal_string(10), "10");
    assert_eq!(decimal_string(u64::MAX), "18446744073709551615");
}

#[test]
fn characters_step_forward() {
    assert_eq!(successor('a'), Some('b'));
    assert_eq!(successor('\u{F0000}'), Some('\u{F0001}'));
    assert_eq!(successor('\u{D7FF}'), None);
    assert_eq!(successor('\u{10FFFF}'), None);
    assert_eq!(char_from_u32(0x41), Some('A'));
    assert_eq!(char_from_u32(0xD800), None);
}

#[test]
fn strings_grow_and_shrink_at_the_end() {
    let mut s = "ab".to_string();
    push_char(&mut s, 'c');
    assert_eq!(s, "abc");
    assert_eq!(pop_char(&mut s), Some('c'));
    assert_eq!(s, "ab");
    let mut e = String::new();
    assert_eq!(pop_char(&mut e), None);
}

#[test]
fn engine_codes_convert_into_storage_errors() {
    assert!(matches!(StorageError::from(lsm::Error::Busy), StorageError::Lsm(lsm::Error::Busy)));
    let io = std::io::Error::new(std::io::ErrorKind::NotFound, "missing");
    assert!(matches!(StorageError::from(io), StorageError::Io(_)));
}

#[test]
fn info_reports_each_frame_in_the_chosen_units() {
    let mut f = Frames::path("x").unwrap();
    {
        let mut t = f.txn().unwrap();
        {
            let e = t.entry("a").unwrap();
            e.or_insert(RecordBatch::new(vec![vec![0u8; 2000]])).unwrap();
        }
        {
            let e = t.entry("b").unwrap();
            e.or_insert(RecordBatch::new(vec![b"xyz".to_vec()])).unwrap();
        }
        t.commit().unwrap();
    }
    let bytes = Verb::Info(Info { sizes: Units::B, si: false });
    assert_eq!(bytes.with(&mut f, None).unwrap(), Some("a\t2008\nb\t11\n".to_string()));
    let kb = Verb::Info(Info { sizes: Units::KB, si: true });
    assert_eq!(kb.with(&mut f, None).unwrap(), Some("a\t2\nb\t0\n".to_string()));
    let kib = Verb::Info(Info { sizes: Units::KB, si: false });
    assert_eq!(kib.with(&mut f, None).unwrap(), Some("a\t1\nb\t0\n".to_string()));
}
