use fixed_record::records::{
    NulClearTestRecord as TestRecord, NulClearTestRecordField as TestRecordField,
    NulClearTestRecordList as TestRecordList, SpaceClearRecord, SpaceClearRecordField, SplitUtf8Record,
    SplitUtf8RecordField,
};
use fixed_record::Error;
use fixed_record::{FixedRecord, Reader, Writer};

/// The bytes of a record, through the `FixedRecord` trait alone.
fn bytes_via_trait<T: FixedRecord>(record: &T) -> Vec<u8> {
    record.to_bytes()
}

#[test]
fn main_test_apply_closure() {
    let aa = TestRecord::builder().apply_str("test      ttte");

    let rec = TestRecord::spaced().apply(|r| {
        r.set_field_str(TestRecordField::Name, "Alice");
        r.set_field_str(TestRecordField::Code, "A001");
    });
    assert_eq!(aa.get_field_trimmed(TestRecordField::Name).unwrap(), "test");

    assert_eq!(
        rec.get_field_trimmed(TestRecordField::Name).unwrap(),
        "Alice"
    );
    assert_eq!(
        rec.get_field_trimmed(TestRecordField::Code).unwrap(),
        "A001"
    );
}

#[test]
fn main_test_apply_bytes_exact() {
    // ちょうど TOTAL_LEN (23) バイト
    let data = b"HelloWorldABCDE12345678";
    let rec = TestRecord::spaced().apply_bytes(data);

    assert_eq!(rec.name(), b"HelloWorld");
    assert_eq!(rec.code(), b"ABCDE");
    assert_eq!(rec.amount(), b"12345678");
}

#[test]
fn main_test_apply_bytes_shorter_than_total() {
    // データが途中で終わる場合 → 残りのフィールドはspaced のまま
    let data = b"HelloWorldABC"; // name(10) + code の途中(3)
    let rec = TestRecord::spaced().apply_bytes(data);

    assert_eq!(rec.name(), b"HelloWorld");
    assert_eq!(&rec.code()[..3], b"ABC");
    assert_eq!(&rec.code()[3..], &[0, 0]); // 到達したフィールドの残りはCLEAR_BYTE
    assert_eq!(rec.amount(), b"        "); // 未到達はspaced のまま
}

#[test]
fn main_test_apply_str() {
    let s = b"HelloWorldABCDE12345678";
    let rec = TestRecord::spaced().apply_bytes(s);

    assert_eq!(
        rec.get_field_trimmed(TestRecordField::Name).unwrap(),
        "HelloWorld"
    );
    assert_eq!(
        rec.get_field_trimmed(TestRecordField::Code).unwrap(),
        "ABCDE"
    );
    assert_eq!(
        rec.get_field_trimmed(TestRecordField::Amount).unwrap(),
        "12345678"
    );
}

#[test]
fn main_test_apply_bytes_from_first_field() {
    // 先頭から開始 → apply_bytes と同じ動作
    let data = b"HelloWorldABCDE12345678";
    let rec = TestRecord::spaced().apply_bytes_from(TestRecordField::Name, data);

    assert_eq!(rec.name(), b"HelloWorld");
    assert_eq!(rec.code(), b"ABCDE");
    assert_eq!(rec.amount(), b"12345678");
}

#[test]
fn main_test_apply_bytes_from_middle_field() {
    // code フィールドから開始 → name はspaced のまま
    let data = b"ABCDE12345678";
    let rec = TestRecord::spaced().apply_bytes_from(TestRecordField::Code, data);

    assert_eq!(rec.name(), b"          "); // 未変更
    assert_eq!(rec.code(), b"ABCDE");
    assert_eq!(rec.amount(), b"12345678");
}

#[test]
fn main_test_apply_bytes_from_last_field() {
    // amount フィールドのみ書き込み
    let data = b"99999999";
    let rec = TestRecord::spaced().apply_bytes_from(TestRecordField::Amount, data);

    assert_eq!(rec.name(), b"          "); // 未変更
    assert_eq!(rec.code(), b"     "); // 未変更
    assert_eq!(rec.amount(), b"99999999");
}

#[test]
fn main_test_apply_str_from_middle() {
    let s = "ABCDE12345678";
    let rec = TestRecord::spaced().apply_str_from(TestRecordField::Code, s);

    assert_eq!(rec.get_field_trimmed(TestRecordField::Name).unwrap(), "");
    assert_eq!(
        rec.get_field_trimmed(TestRecordField::Code).unwrap(),
        "ABCDE"
    );
    assert_eq!(
        rec.get_field_trimmed(TestRecordField::Amount).unwrap(),
        "12345678"
    );
}

#[test]
fn main_test_method_chain() {
    let rec = TestRecord::builder()
        .with_name("Alice")
        .with_code("A001")
        .with_amount_int(12345)
        .build();

    assert_eq!(
        rec.get_field_trimmed(TestRecordField::Name).unwrap(),
        "Alice"
    );
    assert_eq!(
        rec.get_field_trimmed(TestRecordField::Code).unwrap(),
        "A001"
    );
    assert_eq!(
        rec.get_field_trimmed(TestRecordField::Amount).unwrap(),
        "00012345"
    );
}

#[test]
fn test_set_field_str_clears_with_default_zero_before_write() {
    let mut rec = TestRecord::spaced();
    rec.set_field_str(TestRecordField::Name, "Bob");

    assert_eq!(rec.name(), b"Bob\0\0\0\0\0\0\0");
    assert_eq!(TestRecord::CLEAR_BYTE, 0x00);
}

#[test]
fn main_test_set_field_str_no_clear_keeps_existing_tail_bytes() {
    let mut rec = TestRecord::spaced().with_name("Alice");
    rec.set_field_str_no_clear(TestRecordField::Name, "Bo");

    assert_eq!(rec.name(), b"Boice     ");
}

#[test]
fn main_test_with_str_keeps_existing_tail_bytes() {
    let rec = TestRecord::spaced().with_name("Alice").with_name("Bo");

    assert_eq!(rec.name(), b"Boice     ");
}

#[test]
fn main_test_set_field_str_uses_configured_clear_byte() {
    let mut rec = SpaceClearRecord::zeroed();
    rec.set_field_str(SpaceClearRecordField::Name, "Bo");

    assert_eq!(SpaceClearRecord::CLEAR_BYTE, b' ');
    assert_eq!(rec.name(), b"Bo    ");
}

#[test]
fn main_test_builder_and_default_use_default_clear_byte() {
    assert_eq!(
        TestRecord::builder().name(),
        &[0; TestRecord::FIELD_SIZE_NAME]
    );
    assert_eq!(
        TestRecord::default().name(),
        &[0; TestRecord::FIELD_SIZE_NAME]
    );
    assert_eq!(
        TestRecord::cleared().name(),
        &[0; TestRecord::FIELD_SIZE_NAME]
    );
}

#[test]
fn main_test_builder_and_default_use_configured_clear_byte() {
    assert_eq!(SpaceClearRecord::builder().name(), b"      ");
    assert_eq!(SpaceClearRecord::default().name(), b"      ");
    assert_eq!(SpaceClearRecord::cleared().name(), b"      ");
}

#[test]
fn main_test_try_with_int_reports_field_overflow() {
    let err = TestRecord::builder()
        .try_with_amount_int(123456789)
        .unwrap_err();

    assert_eq!(
        err,
        Error::FieldOverflow {
            field: "amount",
            size: TestRecord::FIELD_SIZE_AMOUNT,
            actual: 9,
        }
    );
}

#[test]
fn main_test_try_with_signed_int_reports_field_overflow() {
    let err = TestRecord::builder()
        .try_with_amount_int_signed(12345678)
        .unwrap_err();

    assert_eq!(
        err,
        Error::FieldOverflow {
            field: "amount",
            size: TestRecord::FIELD_SIZE_AMOUNT,
            actual: 9,
        }
    );
}

#[test]
fn main_test_truncated_int_setter_keeps_existing_truncation_behavior() {
    let rec = TestRecord::builder()
        .with_amount_int_truncated(123456789)
        .build();

    assert_eq!(rec.amount(), b"12345678");
}

#[test]
fn main_test_truncated_signed_int_setter_keeps_existing_truncation_behavior() {
    let rec = TestRecord::builder()
        .with_amount_int_signed_truncated(-12345678)
        .build();

    assert_eq!(rec.amount(), b"-1234567");
}

#[test]
fn main_test_reader_writer_and_fixed_record_trait() {
    
    /// `FixedRecord` trait だけに依存してレコードをバイト列へ変換します。

    let first = TestRecord::builder()
        .with_name("Alice")
        .with_code("A0001")
        .with_amount_int(10)
        .build();
    let second = TestRecord::builder()
        .with_name("Bob")
        .with_code("B0001")
        .with_amount_int(20)
        .build();

    assert_eq!(bytes_via_trait(&first).len(), TestRecord::TOTAL_LEN);

    let mut writer = Writer::new().with_newline(b"\r\n");
    writer.write_record(&first).unwrap();
    writer.write_record(&second).unwrap();
    writer.flush().unwrap();
    let buf = writer.into_inner();

    let mut reader = Reader::<TestRecord>::new(buf);
    assert_eq!(
        reader
            .next()
            .unwrap()
            .unwrap()
            .get_field_trimmed(TestRecordField::Name)
            .unwrap(),
        "Alice"
    );
    assert_eq!(
        reader
            .next()
            .unwrap()
            .unwrap()
            .get_field_trimmed(TestRecordField::Name)
            .unwrap(),
        "Bob"
    );
    assert!(reader.next().is_none());
}

#[test]
fn main_test_generated_list_management() {
    let mut list = TestRecordList::new();

    let id_b = list.insert(
        TestRecord::builder()
            .with_name("Bob")
            .with_code("B0001")
            .with_amount_int(20)
            .build(),
    );
    let id_a = list.insert(
        TestRecord::builder()
            .with_name("Alice")
            .with_code("A0001")
            .with_amount_int(10)
            .build(),
    );

    assert_eq!(list.len(), 2);

    let found = list.find_by(TestRecordField::Code, b"A0001");
    assert_eq!(found.len(), 1);
    assert_eq!(
        found[0].get_field_trimmed(TestRecordField::Name).unwrap(),
        "Alice"
    );

    list.sort_by(&[TestRecordField::Name]);
    let names: Vec<_> = list
        .iter()
        .into_iter()
        .map(|record| {
            record
                .get_field_string_trimmed(TestRecordField::Name)
                .unwrap()
        })
        .collect();
    assert_eq!(names, vec!["Alice".to_string(), "Bob".to_string()]);

    let first_by_code = list.try_first_sorted_by(TestRecordField::Code).unwrap();
    assert_eq!(
        first_by_code
            .get_field_trimmed(TestRecordField::Code)
            .unwrap(),
        "A0001"
    );

    assert!(list.remove(id_b));
    assert_eq!(list.len(), 1);
    assert_eq!(list.all_ids().len(), 2);
    list.vacuum();
    assert_eq!(list.all_ids(), vec![id_a]);
}

#[test]
fn main_test_try_find_by_matches_short_value_with_zero_or_space_padding() {
    let mut list = TestRecordList::new();

    let space_padded = TestRecord::spaced()
        .with_name("Space")
        .with_code("A00")
        .with_amount_int(1)
        .build();

    let zero_padded = TestRecord::builder()
        .with_name("Zero")
        .with_code("A00")
        .with_amount_int(2)
        .build();

    let mut mixed_padded = TestRecord::spaced()
        .with_name("Mixed")
        .with_amount_int(3)
        .build();
    mixed_padded.set_field_bytes(TestRecordField::Code, b"A00 ");

    let other = TestRecord::spaced()
        .with_name("Other")
        .with_code("A00XX")
        .with_amount_int(4)
        .build();

    list.insert(space_padded);
    list.insert(zero_padded);
    list.insert(mixed_padded);
    list.insert(other);

    let found = list.try_find_by(TestRecordField::Code, b"A00").unwrap();
    let mut names: Vec<_> = found
        .iter()
        .map(|record| {
            record
                .get_field_string_trimmed(TestRecordField::Name)
                .unwrap()
        })
        .collect();
    names.sort();

    assert_eq!(
        names,
        vec!["Mixed".to_string(), "Space".to_string(), "Zero".to_string()]
    );
}

#[test]
fn main_test_try_find_by_reports_overflow_for_too_long_value() {
    let list = TestRecordList::new();
    let err = list
        .try_find_by(TestRecordField::Code, b"A00001")
        .unwrap_err();

    assert_eq!(
        err,
        Error::FieldOverflow {
            field: "code",
            size: TestRecord::FIELD_SIZE_CODE,
            actual: 6,
        }
    );
}

#[test]
fn main_test_try_first_by_matches_short_value_with_zero_or_space_padding() {
    let mut list = TestRecordList::new();

    let space_padded = TestRecord::spaced()
        .with_name("Space")
        .with_code("A00")
        .with_amount_int(1)
        .build();

    let zero_padded = TestRecord::builder()
        .with_name("Zero")
        .with_code("A00")
        .with_amount_int(2)
        .build();

    let other = TestRecord::spaced()
        .with_name("Other")
        .with_code("A00XX")
        .with_amount_int(3)
        .build();

    list.insert(space_padded);
    list.insert(zero_padded);
    list.insert(other);

    let found = list
        .try_first_by(TestRecordField::Code, b"A00")
        .unwrap()
        .unwrap();

    assert_eq!(
        found
            .get_field_string_trimmed(TestRecordField::Name)
            .unwrap(),
        "Zero"
    );
    assert!(
        list.try_first_by(TestRecordField::Code, b"A00X")
            .unwrap()
            .is_none()
    );
}

#[test]
fn main_test_try_first_by_reports_overflow_for_too_long_value() {
    let list = TestRecordList::new();
    let err = list
        .try_first_by(TestRecordField::Code, b"A00001")
        .unwrap_err();

    assert_eq!(
        err,
        Error::FieldOverflow {
            field: "code",
            size: TestRecord::FIELD_SIZE_CODE,
            actual: 6,
        }
    );
}

#[test]
fn main_test_try_find_by_prefix_matches_any_trailing_bytes() {
    let mut list = TestRecordList::new();

    let space_padded = TestRecord::spaced()
        .with_name("Space")
        .with_code("A00")
        .with_amount_int(1)
        .build();

    let zero_padded = TestRecord::builder()
        .with_name("Zero")
        .with_code("A00")
        .with_amount_int(2)
        .build();

    let other = TestRecord::spaced()
        .with_name("Other")
        .with_code("A00XX")
        .with_amount_int(3)
        .build();

    let different_prefix = TestRecord::spaced()
        .with_name("Different")
        .with_code("B00XX")
        .with_amount_int(4)
        .build();

    list.insert(space_padded);
    list.insert(zero_padded);
    list.insert(other);
    list.insert(different_prefix);

    let found = list
        .try_find_by_prefix(TestRecordField::Code, b"A00")
        .unwrap();
    let mut names: Vec<_> = found
        .iter()
        .map(|record| {
            record
                .get_field_string_trimmed(TestRecordField::Name)
                .unwrap()
        })
        .collect();
    names.sort();

    assert_eq!(
        names,
        vec!["Other".to_string(), "Space".to_string(), "Zero".to_string()]
    );
}

#[test]
fn main_test_try_find_by_prefix_reports_overflow_for_too_long_value() {
    let list = TestRecordList::new();
    let err = list
        .try_find_by_prefix(TestRecordField::Code, b"A00001")
        .unwrap_err();

    assert_eq!(
        err,
        Error::FieldOverflow {
            field: "code",
            size: TestRecord::FIELD_SIZE_CODE,
            actual: 6,
        }
    );
}

#[test]
fn main_test_try_first_by_prefix_returns_first_matching_record() {
    let mut list = TestRecordList::new();

    let later = TestRecord::spaced()
        .with_name("Later")
        .with_code("A01AA")
        .with_amount_int(1)
        .build();

    let first = TestRecord::spaced()
        .with_name("First")
        .with_code("A00")
        .with_amount_int(2)
        .build();

    let with_suffix = TestRecord::spaced()
        .with_name("Suffix")
        .with_code("A00XX")
        .with_amount_int(3)
        .build();

    let different_prefix = TestRecord::spaced()
        .with_name("Different")
        .with_code("B00XX")
        .with_amount_int(4)
        .build();

    list.insert(later);
    list.insert(first);
    list.insert(with_suffix);
    list.insert(different_prefix);

    let found = list
        .try_first_by_prefix(TestRecordField::Code, b"A0")
        .unwrap()
        .unwrap();

    assert_eq!(
        found
            .get_field_string_trimmed(TestRecordField::Name)
            .unwrap(),
        "First"
    );
    assert_eq!(
        found
            .get_field_string_trimmed(TestRecordField::Code)
            .unwrap(),
        "A00"
    );
}

#[test]
fn main_test_try_first_by_prefix_reports_overflow_for_too_long_value() {
    let list = TestRecordList::new();
    let err = list
        .try_first_by_prefix(TestRecordField::Code, b"A00001")
        .unwrap_err();

    assert_eq!(
        err,
        Error::FieldOverflow {
            field: "code",
            size: TestRecord::FIELD_SIZE_CODE,
            actual: 6,
        }
    );
}

#[test]
fn main_test_apply_idempotent() {
    // 同じデータを2回 apply しても結果は同じ
    let data = b"HelloWorldABCDE12345678";
    let rec1 = TestRecord::spaced().apply_bytes(data);
    let rec2 = TestRecord::spaced().apply_bytes(data).apply_bytes(data);

    assert_eq!(rec1.to_bytes(), rec2.to_bytes());
}

#[test]
fn main_test_utf8_field_keeps_exact_bytes_and_trims_padding_spaces() {
    let mut record = TestRecord::builder().build();
    record.fill_space();
    record.set_field_str(TestRecordField::Name, "あいう ");

    let expected = "あいう ".as_bytes();

    assert_eq!(expected.len(), TestRecord::FIELD_SIZE_NAME);
    assert_eq!(record.name().len(), TestRecord::FIELD_SIZE_NAME);
    assert_eq!(record.name(), expected);
    assert_eq!(
        record.name(),
        &[0xe3, 0x81, 0x82, 0xe3, 0x81, 0x84, 0xe3, 0x81, 0x86, b' ']
    );
    let name_text = record.name_str().unwrap();
    assert_eq!(name_text, "あいう ");
    assert_eq!(name_text.len(), TestRecord::FIELD_SIZE_NAME);
    assert_eq!(name_text.chars().count(), 4);
    assert_eq!(
        record.get_field_trimmed(TestRecordField::Name).unwrap(),
        "あいう"
    );
    assert_eq!(
        record
            .get_field_string_trimmed(TestRecordField::Name)
            .unwrap(),
        "あいう".to_string()
    );
}

#[test]
fn main_test_utf8_reader_reads_fixed_byte_records_exactly() {
    
    let first = TestRecord::builder()
        .with_name("あいう ")
        .with_code("JP001")
        .with_amount_int(1)
        .build();
    let second = TestRecord::builder()
        .with_name("Rust")
        .with_code("EN001")
        .with_amount_int(2)
        .build();

    let mut bytes = Vec::new();
    bytes.extend_from_slice(&first.to_bytes());
    bytes.extend_from_slice(b"\n");
    bytes.extend_from_slice(&second.to_bytes());

    let mut reader = Reader::<TestRecord>::new(bytes);

    let read_first = reader.next().unwrap().unwrap();
    assert_eq!(read_first.name(), "あいう ".as_bytes());
    assert_eq!(read_first.name().len(), TestRecord::FIELD_SIZE_NAME);
    assert_eq!(
        read_first.get_field_trimmed(TestRecordField::Name).unwrap(),
        "あいう"
    );
    assert_eq!(read_first.code(), b"JP001");
    assert_eq!(read_first.amount(), b"00000001");

    let read_second = reader.next().unwrap().unwrap();
    assert_eq!(
        read_second
            .get_field_trimmed(TestRecordField::Name)
            .unwrap(),
        "Rust"
    );
    assert_eq!(read_second.code(), b"EN001");
    assert_eq!(read_second.amount(), b"00000002");

    assert!(reader.next().is_none());
}

#[test]
fn main_test_utf8_field_split_at_byte_boundary_reports_utf8_error() {
    let record = SplitUtf8Record::parse("あいう ".as_bytes()).unwrap();

    assert_eq!(SplitUtf8Record::TOTAL_LEN, 10);
    assert_eq!(record.name(), &"あいう ".as_bytes()[..8]);
    assert_eq!(record.rest(), &"あいう ".as_bytes()[8..10]);
    assert!(matches!(record.name_str(), Err(Error::Utf8Error)));
    assert!(matches!(
        record.get_field_str(SplitUtf8RecordField::Name),
        Err(Error::Utf8Error)
    ));
}

#[test]
fn main_test_utf8_writer_reader_round_trip_when_field_width_is_large_enough() {
    
    let record = TestRecord::builder()
        .with_name("あいう ")
        .with_code("JP002")
        .with_amount_int(300)
        .build();

    let mut writer = Writer::new();
    writer.write_record(&record).unwrap();
    writer.flush().unwrap();
    let bytes = writer.into_inner();

    let mut reader = Reader::<TestRecord>::new(bytes);
    let read_back = reader.next().unwrap().unwrap();

    assert_eq!(read_back.name(), "あいう ".as_bytes());
    assert_eq!(read_back.name_str().unwrap(), "あいう ");
    assert_eq!(
        read_back.get_field_trimmed(TestRecordField::Name).unwrap(),
        "あいう"
    );
    assert_eq!(read_back.code(), b"JP002");
    assert_eq!(read_back.amount(), b"00000300");
}

#[test]
fn test_unchecked_feature_methods_are_available() {
    let data = b"HelloWorldABCDE12345678";

    let rec = TestRecord::parse_unchecked(data).unwrap();
    assert_eq!(rec.to_bytes(), *data);

    let rec_ref = TestRecord::from_bytes_unchecked(data).unwrap();
    assert_eq!(rec_ref.name(), b"HelloWorld");

    let raw = rec.as_bytes_unchecked();
    assert_eq!(raw, data);
}
