use fixed_record::error::IoErrorKind;
use fixed_record::records::{
    Customer, CustomerField, SplitUtf8Record, SplitUtf8RecordField, TestRecord, TestRecordField, User, UserField,
};
use fixed_record::{Error, Fixed, Reader, RecordSeparator, Writer};

#[test]
fn set_then_trimmed_get_reads_the_value_back() {
    let mut rec = TestRecord::zeroed();
    rec.set_field_str(TestRecordField::Name, " Bob");
    assert_eq!(rec.name(), b" Bob      ");
    assert_eq!(rec.get_field_trimmed(TestRecordField::Name).unwrap(), "Bob");
    rec.set_field_bytes(TestRecordField::Code, b"XY");
    assert_eq!(rec.code(), b"XY   ");
    rec.set_field_bytes_no_clear(TestRecordField::Code, b"Q");
    assert_eq!(rec.code(), b"QY   ");
}

#[test]
fn writing_past_the_field_width_keeps_the_leading_bytes() {
    let mut rec = TestRecord::spaced();
    rec.set_field_str(TestRecordField::Code, "ABCDEFG");
    assert_eq!(rec.code(), b"ABCDE");
    assert_eq!(rec.name(), b"          ");
    assert_eq!(rec.amount(), b"        ");
}

#[test]
fn numbers_are_zero_padded_and_signed() {
    let rec = TestRecord::spaced().with_amount_int(42);
    assert_eq!(rec.amount(), b"00000042");
    let rec = TestRecord::spaced().with_amount_int(-42);
    assert_eq!(rec.amount(), b"00000-42");
    let rec = TestRecord::spaced().with_amount_int_signed(42);
    assert_eq!(rec.amount(), b"+0000042");
    let rec = TestRecord::spaced().with_amount_int_signed(-42);
    assert_eq!(rec.amount(), b"-0000042");
    let rec = TestRecord::spaced().try_with_amount_int(99999999).unwrap();
    assert_eq!(rec.amount(), b"99999999");
    let rec = TestRecord::spaced().try_with_code_int(-1234).unwrap();
    assert_eq!(rec.code(), b"-1234");
    let err = TestRecord::spaced().try_with_code_int(-12345).unwrap_err();
    assert_eq!(err, Error::FieldOverflow { field: "code", size: 5, actual: 6 });
    let err = TestRecord::spaced().try_with_code_int_signed(10000).unwrap_err();
    assert_eq!(err, Error::FieldOverflow { field: "code", size: 5, actual: 6 });
}

#[test]
fn parse_reports_short_input_and_reads_prefixes() {
    assert_eq!(TestRecord::parse(b"short").unwrap_err(), Error::TooShort);
    let rec = TestRecord::parse(b"HelloWorldABCDE12345678 trailing").unwrap();
    assert_eq!(rec.to_bytes(), b"HelloWorldABCDE12345678".to_vec());
    assert_eq!(TestRecord::parse_str("HelloWorldABCDE12345678").unwrap().code(), b"ABCDE");
    assert_eq!(TestRecord::ref_from_bytes(b"HelloWorldABCDE12345678x").unwrap_err(), Error::ParseError);
    assert_eq!(TestRecord::from_str_unchecked("HelloWorldABCDE12345678").unwrap().amount(), b"12345678");
}

#[test]
fn metadata_matches_the_layout() {
    assert_eq!(TestRecord::TOTAL_LEN, 23);
    assert_eq!(TestRecord::total_len(), 23);
    assert_eq!(TestRecord::offset_of(TestRecordField::Amount), 15);
    assert_eq!(TestRecord::size_of(TestRecordField::Code), 5);
    assert_eq!(TestRecord::name_of(TestRecordField::Amount), "amount");
    assert_eq!(TestRecordField::Code.as_str(), "code");
    assert_eq!(TestRecordField::Code.size(), 5);
    assert_eq!(TestRecord::byte_len_fields(&[TestRecordField::Name, TestRecordField::Amount]), 18);
    assert_eq!(TestRecord::all_fields().len(), 3);
    assert_eq!(User::TOTAL_LEN, 27);
    assert_eq!(User::offset_of(UserField::Age), 24);
    assert_eq!(Customer::size_of(CustomerField::Name), 12);
    assert_eq!(Customer::CLEAR_BYTE, 0);
}

#[test]
fn comparisons_follow_the_listed_fields() {
    let a = TestRecord::spaced().with_name("Amy").with_code("B0001");
    let b = TestRecord::spaced().with_name("Bob").with_code("A0001");
    assert_eq!(a.compare_all_fields(&b), std::cmp::Ordering::Less);
    assert_eq!(a.compare_by_fields(&b, &[TestRecordField::Code]), std::cmp::Ordering::Greater);
    assert_eq!(a.compare_by_fields(&b, &[TestRecordField::Amount]), std::cmp::Ordering::Equal);
    assert_eq!(a.compare_by_fields(&a, &[]), std::cmp::Ordering::Equal);
}

#[test]
fn dump_lists_every_field() {
    let rec = TestRecord::spaced().with_name("Alice").with_code("A0001").with_amount_int(7);
    let expected = format!(
        "--- TestRecord Dump ---\n{:<15}: [{}]\n{:<15}: [{}]\n{:<15}: [{}]\n------------------\n",
        "name", "Alice     ", "code", "A0001", "amount", "00000007"
    );
    assert_eq!(rec.to_dump_string(), expected);
    let split = SplitUtf8Record::parse("あいう ".as_bytes()).unwrap();
    let expected = format!(
        "--- SplitUtf8Record Dump ---\n{:<15}: [[Invalid UTF-8]]\n{:<15}: [[Invalid UTF-8]]\n------------------\n",
        "name", "rest"
    );
    assert_eq!(split.to_dump_string(), expected);
    assert!(split.get_field_trimmed(SplitUtf8RecordField::Rest).is_err());
}

#[test]
fn writer_blanks_nul_bytes_and_reader_reads_them_as_spaces() {
    let rec = TestRecord::zeroed().with_name("Al");
    let mut writer = Writer::new().with_separator(RecordSeparator::Comma);
    writer.write_record(&rec).unwrap();
    assert_eq!(writer.output().len(), 24);
    let bytes = writer.into_inner();
    assert_eq!(&bytes[..4], b"Al  ");
    let mut reader = Reader::<TestRecord>::new(bytes).with_separator(RecordSeparator::Comma);
    let back = reader.next().unwrap().unwrap();
    assert_eq!(back.name(), b"Al        ");
    assert!(reader.next().is_none());
}

#[test]
fn a_failing_source_reports_its_error_kind() {
    let mut reader = Reader::<TestRecord>::from_source(Vec::new(), Some(IoErrorKind::PermissionDenied));
    assert_eq!(reader.next().unwrap().unwrap_err(), Error::Io(IoErrorKind::PermissionDenied));
    let mut short = Reader::<TestRecord>::from_source(b"abc".to_vec(), Some(IoErrorKind::UnexpectedEof));
    assert_eq!(short.next().unwrap().unwrap_err(), Error::Io(IoErrorKind::UnexpectedEof));
}

#[test]
fn a_record_starting_with_a_newline_is_not_read_back() {
    let first = TestRecord::spaced().with_name("first");
    let second = TestRecord::spaced().with_name("\nline");
    let mut writer = Writer::new();
    writer.write_record(&first).unwrap();
    writer.write_record(&second).unwrap();
    let mut reader = Reader::<TestRecord>::new(writer.into_inner());
    assert_eq!(reader.next().unwrap().unwrap().name(), b"first     ");
    let shifted = reader.next().unwrap().unwrap();
    assert_eq!(shifted.name(), b"line      ");
    assert!(reader.next().is_none());
}

#[test]
fn sequence_check_by_vec_of_fields() {
    let first = TestRecord::spaced().with_code("A0002");
    let second = TestRecord::spaced().with_code("A0001");
    let mut bytes = first.to_bytes();
    bytes.push(b'\n');
    bytes.extend_from_slice(&second.to_bytes());
    let mut reader = Reader::<TestRecord>::new(bytes).with_sequence_check(vec![TestRecordField::Code]);
    assert!(reader.next().unwrap().is_ok());
    assert_eq!(
        reader.next().unwrap().unwrap_err(),
        Error::SequenceError {
            fields: vec!["code"],
            previous: vec![b"A0002".to_vec()],
            current: vec![b"A0001".to_vec()],
        }
    );
}

#[test]
fn fixed_buffers() {
    let f = Fixed::<4>::from_slice(b"abcdef").unwrap();
    assert_eq!(f.as_bytes(), b"abcd");
    assert_eq!(Fixed::<4>::from_slice(b"ab").unwrap_err(), Error::TooShort);
    let g = Fixed::<3>::from_slice_at(b"abcdef", 2).unwrap();
    assert_eq!(g.as_str().unwrap(), "cde");
    assert_eq!(Fixed::<3>::from_slice_at(b"abcdef", 4).unwrap_err(), Error::TooShort);
    let mut h = Fixed::<5>::spaced();
    h.write_bytes(b"xy");
    assert_eq!(h.as_bytes(), b"xy   ");
    h.fill_zero();
    assert_eq!(h.as_bytes(), &[0u8; 5]);
    assert_eq!(Fixed::<2>::filled(b'z').as_bytes(), b"zz");
    assert_eq!(Fixed::<2>::from([0xffu8, 0]).to_display_string(), "<?>");
    assert_eq!(Fixed::<2>::from(*b"ok").to_display_string(), "ok");
}

#[test]
fn fixed_from_arrays_and_far_offsets() {
    let a: fixed_record::Fixed<3> = fixed_record::Fixed::from(*b"abc");
    let b: fixed_record::Fixed<3> = fixed_record::Fixed::from(b"xyz");
    assert_eq!(a.as_bytes(), b"abc");
    assert_eq!(b.as_bytes(), b"xyz");
    assert_eq!(fixed_record::Fixed::<3>::from_slice_at(b"hello", usize::MAX).err(), Some(fixed_record::Error::TooShort));
    assert_eq!(fixed_record::Fixed::<3>::from_slice_at(b"hello", 2).unwrap().as_bytes(), b"llo");
}

#[test]
fn error_messages_describe_each_error() {
    assert_eq!(Error::TooShort.message(), "input data is too short for the fixed length");
    assert_eq!(
        Error::IncompleteRecord { expected: 23, actual: 3 }.message(),
        "incomplete fixed record: expected 23 bytes, got 3 bytes"
    );
    assert_eq!(
        Error::FieldOverflow { field: "code", size: 5, actual: 107 }.message(),
        "field `code` overflow: size 5 bytes, got 107 bytes"
    );
    assert_eq!(
        Error::Io(IoErrorKind::NotFound).message(),
        "I/O error while processing fixed record: NotFound"
    );
    assert_eq!(
        Error::InvalidRange { field: "code", start: b"B".to_vec(), end: b"AZ".to_vec() }.message(),
        "invalid range for field `code`: start [66] is greater than end [65, 90]"
    );
    assert_eq!(
        Error::SequenceError {
            fields: vec!["code", "amount"],
            previous: vec![b"B".to_vec(), Vec::new()],
            current: vec![b"A".to_vec(), b"0".to_vec()],
        }
        .message(),
        "sequence check failed on [\"code\", \"amount\"]: previous [[66], []], current [[65], [48]]"
    );
}
