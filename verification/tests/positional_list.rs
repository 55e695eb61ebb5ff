use fixed_record::list::KeyBound;
use fixed_record::positional::PositionalList;
use fixed_record::records::{TestRecord, TestRecordField};
use fixed_record::{Error, Reader, Writer};

fn rec(name: &str, code: &str, amount: i64) -> TestRecord {
    TestRecord::builder()
        .with_name(name)
        .with_code(code)
        .with_amount_int(amount)
        .build()
}

fn names_of(records: &[&TestRecord]) -> Vec<String> {
    records
        .iter()
        .map(|r| r.get_field_string_trimmed(TestRecordField::Name).unwrap())
        .collect()
}

fn sample() -> PositionalList<TestRecordField> {
    PositionalList::from_records(vec![
        rec("Alice", "A0001", 10),
        rec("Bob", "B0001", 20),
        rec("Carol", "A0002", 30),
    ])
}

#[test]
fn positional_push_insert_remove_pop_shift_positions() {
    let mut list = PositionalList::new();
    assert!(list.is_empty());
    assert_eq!(list.push(rec("Alice", "A0001", 1)), 0);
    assert_eq!(list.push(rec("Carol", "C0001", 3)), 1);
    assert!(list.insert(1, rec("Bob", "B0001", 2)));
    assert!(!list.insert(4, rec("Zed", "Z0001", 9)));
    assert_eq!(names_of(&list.iter()), vec!["Alice", "Bob", "Carol"]);
    assert!(list.remove(0));
    assert!(!list.remove(2));
    assert_eq!(names_of(&list.iter()), vec!["Bob", "Carol"]);
    assert_eq!(list.get(0).unwrap().code(), b"B0001");
    let last = list.pop().unwrap();
    assert_eq!(last.code(), b"C0001");
    assert_eq!(list.len(), 1);
    assert!(list.update(0, rec("Dave", "D0001", 4)));
    assert!(!list.update(1, rec("Eve", "E0001", 5)));
    assert_eq!(list.first().unwrap().code(), b"D0001");
    assert_eq!(list.all_ids(), vec![0]);
    list.clear();
    assert!(list.pop().is_none());
    assert!(list.first().is_none());
}

#[test]
fn positional_exact_search_needs_the_full_width() {
    let list = sample();
    assert!(matches!(list.try_find_by(TestRecordField::Code, b"A00"), Err(Error::TooShort)));
    assert_eq!(
        list.try_find_by(TestRecordField::Code, b"A000001").err(),
        Some(Error::FieldOverflow { field: "code", size: 5, actual: 7 })
    );
    assert_eq!(names_of(&list.try_find_by(TestRecordField::Code, b"A0002").unwrap()), vec!["Carol"]);
    assert!(list.try_find_by(TestRecordField::Code, b"Z9999").unwrap().is_empty());
    assert_eq!(
        list.try_first_by(TestRecordField::Code, b"B0001").unwrap().unwrap().code(),
        b"B0001"
    );
    assert!(matches!(list.try_first_by(TestRecordField::Code, b"B"), Err(Error::TooShort)));
}

#[test]
fn positional_padded_and_prefix_searches_keep_list_order() {
    let list = PositionalList::from_records(vec![
        rec("Carol", "A0002", 30),
        rec("Alice", "A0001", 10),
        rec("Al", "B0001", 20),
    ]);
    assert_eq!(names_of(&list.try_find_by_prefix(TestRecordField::Code, b"A").unwrap()), vec!["Carol", "Alice"]);
    assert_eq!(names_of(&list.try_find_by_padded(TestRecordField::Name, b"Al").unwrap()), vec!["Al"]);
    assert_eq!(
        list.try_find_by_padded(TestRecordField::Name, b"Alice123456").err(),
        Some(Error::FieldOverflow { field: "name", size: 10, actual: 11 })
    );
}

#[test]
fn positional_range_pads_bounds_and_reports_reversed_ranges() {
    let list = sample();
    let hits = list
        .try_find_range_by(TestRecordField::Code, &KeyBound::Included(b"A".to_vec()), &KeyBound::Included(b"A".to_vec()))
        .unwrap();
    assert_eq!(names_of(&hits), vec!["Alice", "Carol"]);
    let all = list
        .try_find_range_by(TestRecordField::Code, &KeyBound::Unbounded, &KeyBound::Excluded(b"B0001".to_vec()))
        .unwrap();
    assert_eq!(names_of(&all), vec!["Alice", "Carol"]);
    assert_eq!(
        list.try_find_range_by(TestRecordField::Code, &KeyBound::Included(b"B".to_vec()), &KeyBound::Included(b"A".to_vec()))
            .err(),
        Some(Error::InvalidRange { field: "code", start: b"B".to_vec(), end: b"A".to_vec() })
    );
    assert!(list
        .try_find_range_by(
            TestRecordField::Code,
            &KeyBound::Excluded(b"A0001".to_vec()),
            &KeyBound::Excluded(b"A0001".to_vec())
        )
        .unwrap()
        .is_empty());
    assert_eq!(
        list.try_find_range_by(TestRecordField::Code, &KeyBound::Included(b"A000001".to_vec()), &KeyBound::Unbounded)
            .err(),
        Some(Error::FieldOverflow { field: "code", size: 5, actual: 7 })
    );
}

#[test]
fn positional_edits_count_the_matching_records() {
    let mut list = sample();
    let n = list
        .try_edit_by_prefix(TestRecordField::Code, b"A", |r: &mut TestRecord| r.set_field_str(TestRecordField::Name, "Zed"))
        .unwrap();
    assert_eq!(n, 2);
    assert_eq!(names_of(&list.iter()), vec!["Zed", "Bob", "Zed"]);
    assert!(matches!(
        list.try_edit_by(TestRecordField::Code, b"A", |r: &mut TestRecord| r.set_field_str(TestRecordField::Name, "X")),
        Err(Error::TooShort)
    ));
    let m = list
        .try_edit_by(TestRecordField::Code, b"B0001", |r: &mut TestRecord| r.set_field_str(TestRecordField::Name, "Bea"))
        .unwrap();
    assert_eq!(m, 1);
    let p = list
        .try_edit_by_padded(TestRecordField::Name, b"Zed", |r: &mut TestRecord| r.set_field_str(TestRecordField::Code, "Z0000"))
        .unwrap();
    assert_eq!(p, 2);
    list.for_each_mut(|r: &mut TestRecord| r.set_field_str(TestRecordField::Amount, "00000000"));
    assert!(list.iter().iter().all(|r| r.amount() == b"00000000"));
    list.retain(|r: &TestRecord| r.code() != b"Z0000");
    assert_eq!(names_of(&list.iter()), vec!["Bea"]);
}

#[test]
fn positional_read_from_collects_every_record_or_the_first_error() {
    let mut writer = Writer::new();
    writer.write_record(&rec("Alice", "A0001", 1)).unwrap();
    writer.write_record(&rec("Bob", "B0001", 2)).unwrap();
    let bytes = writer.into_inner();
    let list = PositionalList::read_from(Reader::<TestRecord>::new(bytes.clone())).unwrap();
    assert_eq!(names_of(&list.iter()), vec!["Alice", "Bob"]);
    let mut short = bytes;
    short.extend_from_slice(b"abc");
    assert_eq!(
        PositionalList::<TestRecordField>::read_from(Reader::<TestRecord>::new(short)).err(),
        Some(Error::IncompleteRecord { expected: 23, actual: 3 })
    );
}

#[test]
fn positional_sort_by_is_stable_and_sort_orders_bytes() {
    let mut list = PositionalList::from_records(vec![
        rec("Carol", "B0001", 30),
        rec("Alice", "A0001", 10),
        rec("Bob", "B0001", 20),
        rec("Dave", "A0001", 40),
    ]);
    list.sort_by(&[TestRecordField::Code]);
    assert_eq!(names_of(&list.iter()), vec!["Alice", "Dave", "Carol", "Bob"]);
    list.sort();
    assert_eq!(names_of(&list.iter()), vec!["Alice", "Bob", "Carol", "Dave"]);
}

#[test]
fn positional_read_from_skips_runs_of_line_breaks_and_commas() {
    let a = rec("Grace", "G0001", 70);
    let b = rec("Heidi", "H0001", 80);
    let mut bytes = Vec::new();
    bytes.extend_from_slice(a.as_bytes());
    bytes.extend_from_slice(b",\r\n\n");
    bytes.extend_from_slice(b.as_bytes());
    bytes.extend_from_slice(b",");
    let list = PositionalList::read_from(Reader::<TestRecord>::new(bytes)).unwrap();
    assert_eq!(names_of(&list.iter()), vec!["Grace", "Heidi"]);
}

#[test]
fn positional_sorted_views_and_first_matches_by_field() {
    let list = PositionalList::from_records(vec![
        rec("Carol", "B0002", 30),
        rec("Alice", "A0009", 10),
        rec("Bob", "A0001", 20),
        rec("Al", "A0001", 40),
    ]);
    assert_eq!(names_of(&list.iter_sorted_by(TestRecordField::Code)), vec!["Bob", "Al", "Alice", "Carol"]);
    assert_eq!(list.first_sorted_by(TestRecordField::Name).unwrap().code(), b"A0001");
    assert_eq!(
        list.try_first_by_prefix(TestRecordField::Code, b"A").unwrap().unwrap().get_field_string_trimmed(TestRecordField::Name).unwrap(),
        "Bob"
    );
    assert_eq!(
        list.try_first_by_padded(TestRecordField::Name, b"Al").unwrap().unwrap().code(),
        b"A0001"
    );
    assert!(list.try_first_by_padded(TestRecordField::Name, b"Zed").unwrap().is_none());
    assert!(list.try_first_by_prefix(TestRecordField::Code, b"A000001").is_err());
}

#[test]
fn positional_range_and_first_edits() {
    let mut list = sample();
    let n = list
        .try_edit_range_by(
            TestRecordField::Code,
            &KeyBound::Included(b"A".to_vec()),
            &KeyBound::Included(b"A0001".to_vec()),
            |r: &mut TestRecord| r.set_field_str(TestRecordField::Name, "Ann"),
        )
        .unwrap();
    assert_eq!(n, 1);
    assert_eq!(names_of(&list.iter()), vec!["Ann", "Bob", "Carol"]);
    assert_eq!(
        list.try_edit_range_by(
            TestRecordField::Code,
            &KeyBound::Included(b"B".to_vec()),
            &KeyBound::Excluded(b"A".to_vec()),
            |r: &mut TestRecord| r.set_field_str(TestRecordField::Name, "X"),
        )
        .err(),
        Some(Error::InvalidRange { field: "code", start: b"B".to_vec(), end: b"A".to_vec() })
    );
    assert!(list
        .try_edit_first_by(TestRecordField::Code, b"A0002", |r: &mut TestRecord| r.set_field_str(TestRecordField::Name, "Cara"))
        .unwrap());
    assert!(!list
        .try_edit_first_by(TestRecordField::Code, b"Z0000", |r: &mut TestRecord| r.set_field_str(TestRecordField::Name, "Z"))
        .unwrap());
    assert_eq!(names_of(&list.iter()), vec!["Ann", "Bob", "Cara"]);
}

#[test]
fn positional_from_vec_and_default() {
    let list: PositionalList<TestRecordField> = PositionalList::from_records(vec![rec("Alice", "A0001", 1), rec("Bob", "B0001", 2)]);
    assert_eq!(names_of(&list.iter()), vec!["Alice", "Bob"]);
    let empty: PositionalList<TestRecordField> = Default::default();
    assert!(empty.is_empty());
}

#[test]
fn positional_field_order_follows_every_change() {
    let mut list = PositionalList::new();
    list.push(rec("Carol", "C0001", 3));
    list.push(rec("Alice", "A0001", 1));
    assert!(list.insert(1, rec("Bob", "A0001", 2)));
    assert_eq!(names_of(&list.iter_sorted_by(TestRecordField::Code)), vec!["Bob", "Alice", "Carol"]);
    assert!(list.update(0, rec("Cara", "A0000", 9)));
    assert_eq!(names_of(&list.iter_sorted_by(TestRecordField::Code)), vec!["Cara", "Bob", "Alice"]);
    assert!(list.remove(1));
    assert_eq!(names_of(&list.iter_sorted_by(TestRecordField::Code)), vec!["Cara", "Alice"]);
    list.pop();
    assert_eq!(names_of(&list.iter_sorted_by(TestRecordField::Name)), vec!["Cara"]);
    list.clear();
    assert!(list.first_sorted_by(TestRecordField::Name).is_none());
}
