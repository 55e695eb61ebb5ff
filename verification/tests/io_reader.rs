use fixed_record::error::IoErrorKind;
use fixed_record::records::QuadRecord;
use fixed_record::{Error, Reader};

#[test]
fn reader_returns_none_on_clean_eof() {
    let mut reader = Reader::<QuadRecord>::new(Vec::new());

    assert!(reader.next().is_none());
}

#[test]
fn reader_returns_incomplete_record_on_short_tail() {
    let mut reader = Reader::<QuadRecord>::new(b"abc".to_vec());

    let err = reader.next().unwrap().unwrap_err();
    assert!(matches!(
        err,
        Error::IncompleteRecord {
            expected: 4,
            actual: 3
        }
    ));
}

#[test]
fn reader_returns_io_error_from_fill_buf() {
    let mut reader = Reader::<QuadRecord>::from_source(b"abcd".to_vec(), Some(IoErrorKind::Other));

    let err = reader.next().unwrap().unwrap_err();
    assert!(matches!(err, Error::Io(_)));
}

#[test]
fn lenient_reader_ends_quietly() {
    let mut short = Reader::<QuadRecord>::new(b"abc".to_vec()).lenient();
    assert!(short.next().is_none());

    let mut failing = Reader::<QuadRecord>::from_source(Vec::new(), Some(IoErrorKind::Other)).lenient();
    assert!(failing.next().is_none());

    let mut after = Reader::<QuadRecord>::from_source(b"abcd".to_vec(), Some(IoErrorKind::Other)).lenient();
    assert_eq!(after.next().unwrap().unwrap().bytes(), b"abcd");
    assert!(after.next().is_none());
}

#[test]
fn default_reader_skips_commas_like_line_breaks() {
    let mut reader = Reader::<QuadRecord>::new(b"abcd,efgh,\r\nijkl".to_vec());
    assert_eq!(reader.next().unwrap().unwrap().as_bytes(), b"abcd");
    assert_eq!(reader.next().unwrap().unwrap().as_bytes(), b"efgh");
    assert_eq!(reader.next().unwrap().unwrap().as_bytes(), b"ijkl");
    assert!(reader.next().is_none());
}

#[test]
fn empty_separator_reader_reads_commas_as_data() {
    let mut reader = Reader::<QuadRecord>::new(b"abcd,efg".to_vec()).with_separator(fixed_record::RecordSeparator::Empty);
    assert_eq!(reader.next().unwrap().unwrap().as_bytes(), b"abcd");
    assert_eq!(reader.next().unwrap().unwrap().as_bytes(), b",efg");
}
