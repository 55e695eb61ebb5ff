use fixed_record::list::KeyBound;
use fixed_record::records::{TestRecord, TestRecordField, TestRecordList};
use fixed_record::Error;

fn record(name: &str, code: &str, amount: i64) -> TestRecord {
    TestRecord::builder()
        .with_name(name)
        .with_code(code)
        .with_amount_int(amount)
        .build()
}

fn names(records: &[&TestRecord]) -> Vec<String> {
    records
        .iter()
        .map(|r| r.get_field_string_trimmed(TestRecordField::Name).unwrap())
        .collect()
}

#[test]
fn insert_then_get_reads_the_record_back() {
    let mut list = TestRecordList::new();
    let a = list.insert(record("Alice", "A0001", 1));
    let b = list.insert(record("Bob", "B0001", 2));
    assert_eq!(a, 0);
    assert_eq!(b, 1);
    assert_eq!(list.get(a).unwrap().name(), b"Alice     ");
    assert_eq!(list.get(b).unwrap().code(), b"B0001");
    assert!(list.get(2).is_none());
}

#[test]
fn remove_hides_the_record_until_vacuum_drops_it() {
    let mut list = TestRecordList::new();
    let a = list.insert(record("Alice", "A0001", 1));
    let b = list.insert(record("Bob", "B0001", 2));
    assert!(list.remove(a));
    assert!(!list.remove(a));
    assert!(list.get(a).is_none());
    assert_eq!(list.len(), 1);
    assert_eq!(list.all_ids(), vec![a, b]);
    list.vacuum();
    assert_eq!(list.all_ids(), vec![b]);
    assert_eq!(list.get(b).unwrap().name(), b"Bob       ");
    assert_eq!(list.iter().len(), list.len());
}

#[test]
fn update_replaces_only_a_live_record() {
    let mut list = TestRecordList::new();
    let a = list.insert(record("Alice", "A0001", 1));
    assert!(list.update(a, record("Carol", "C0001", 3)));
    assert_eq!(list.get(a).unwrap().name(), b"Carol     ");
    assert!(!list.update(7, record("Dave", "D0001", 4)));
    assert!(list.remove(a));
    assert!(!list.update(a, record("Eve", "E0001", 5)));
    assert!(list.get(a).is_none());
}

#[test]
fn ids_keep_growing_after_removal_and_vacuum() {
    let mut list = TestRecordList::default();
    let a = list.insert(record("Alice", "A0001", 1));
    list.remove(a);
    list.vacuum();
    let b = list.insert(record("Bob", "B0001", 2));
    assert_eq!(b, 1);
    assert!(list.is_empty() == false);
    assert_eq!(list.first().unwrap().name(), b"Bob       ");
}

#[test]
fn iter_counts_each_live_record_once() {
    let mut list = TestRecordList::new();
    for (i, n) in ["Ann", "Ben", "Cat", "Dan"].iter().enumerate() {
        list.insert(record(n, "X0001", i as i64));
    }
    list.remove(1);
    assert_eq!(list.len(), 3);
    assert_eq!(names(&list.iter()), vec!["Ann", "Cat", "Dan"]);
    list.sort();
    assert_eq!(list.iter().len(), 3);
}

#[test]
fn sorted_by_field_is_ascending_with_ties_by_id() {
    let mut list = TestRecordList::new();
    list.insert(record("Zed", "B0001", 1));
    list.insert(record("Amy", "A0002", 2));
    list.insert(record("Bea", "A0002", 3));
    list.insert(record("Cal", "A0001", 4));
    let sorted = list.iter_sorted_by(TestRecordField::Code);
    assert_eq!(names(&sorted), vec!["Cal", "Amy", "Bea", "Zed"]);
    assert_eq!(list.first_by(TestRecordField::Code).unwrap().name(), b"Cal       ");
}

#[test]
fn sort_orders_by_all_bytes_and_is_stable() {
    let mut list = TestRecordList::new();
    list.insert(record("Bob", "B0001", 2));
    list.insert(record("Amy", "Z0001", 9));
    list.insert(record("Amy", "A0001", 1));
    list.sort();
    let codes: Vec<Vec<u8>> = list.iter().iter().map(|r| r.code().to_vec()).collect();
    assert_eq!(codes, vec![b"A0001".to_vec(), b"Z0001".to_vec(), b"B0001".to_vec()]);
    list.sort_by(&[TestRecordField::Amount]);
    let codes: Vec<Vec<u8>> = list.iter().iter().map(|r| r.code().to_vec()).collect();
    assert_eq!(codes, vec![b"A0001".to_vec(), b"B0001".to_vec(), b"Z0001".to_vec()]);
    list.sort_by(&[]);
    let codes: Vec<Vec<u8>> = list.iter().iter().map(|r| r.code().to_vec()).collect();
    assert_eq!(codes, vec![b"A0001".to_vec(), b"B0001".to_vec(), b"Z0001".to_vec()]);
}

#[test]
fn sort_drops_removed_ids_from_the_order() {
    let mut list = TestRecordList::new();
    list.insert(record("Bob", "B0001", 2));
    let a = list.insert(record("Amy", "A0001", 1));
    list.remove(a);
    list.sort();
    assert_eq!(names(&list.iter()), vec!["Bob"]);
    assert_eq!(list.all_ids().len(), 2);
}

#[test]
fn full_width_search_matches_exactly() {
    let mut list = TestRecordList::new();
    list.insert(record("Amy", "A0001", 1));
    list.insert(record("Bob", "A000", 2));
    let exact = list.find_by(TestRecordField::Code, b"A0001");
    let padded = list.try_find_by(TestRecordField::Code, b"A0001").unwrap();
    assert_eq!(names(&exact), vec!["Amy"]);
    assert_eq!(names(&padded), vec!["Amy"]);
    assert!(list.find_by(TestRecordField::Code, b"A00").is_empty());
    let short = list.try_find_by(TestRecordField::Code, b"A000").unwrap();
    assert_eq!(names(&short), vec!["Bob"]);
    let prefix = list.try_find_by_prefix(TestRecordField::Code, b"A000").unwrap();
    assert_eq!(names(&prefix), vec!["Bob", "Amy"]);
}

#[test]
fn range_search_respects_bounds() {
    let mut list = TestRecordList::new();
    list.insert(record("Amy", "A0001", 1));
    list.insert(record("Bob", "A0002", 2));
    list.insert(record("Cal", "A0003", 3));
    let inc = list.find_range_by(
        TestRecordField::Code,
        &KeyBound::Included(b"A0002".to_vec()),
        &KeyBound::Unbounded,
    );
    assert_eq!(names(&inc), vec!["Bob", "Cal"]);
    let exc = list.find_range_by(
        TestRecordField::Code,
        &KeyBound::Excluded(b"A0001".to_vec()),
        &KeyBound::Excluded(b"A0003".to_vec()),
    );
    assert_eq!(names(&exc), vec!["Bob"]);
    let wrong_width = list.find_range_by(
        TestRecordField::Code,
        &KeyBound::Included(b"A0".to_vec()),
        &KeyBound::Unbounded,
    );
    assert!(wrong_width.is_empty());
    let amount_range = list.find_range_by(
        TestRecordField::Amount,
        &KeyBound::Unbounded,
        &KeyBound::Included(b"00000002".to_vec()),
    );
    assert_eq!(names(&amount_range), vec!["Amy", "Bob"]);
}

#[test]
fn first_searches_follow_the_field_order() {
    let mut list = TestRecordList::new();
    list.insert(record("Late", "A01", 1));
    list.insert(record("Early", "A00", 2));
    assert_eq!(
        list.try_first_by(TestRecordField::Code, b"A0").unwrap().is_none(),
        true
    );
    let first = list.try_first_by_prefix(TestRecordField::Code, b"A0").unwrap().unwrap();
    assert_eq!(first.name(), b"Early     ");
    assert_eq!(list.try_first_sorted_by(TestRecordField::Name).unwrap().name(), b"Early     ");
    assert_eq!(
        list.try_first_by(TestRecordField::Code, b"A000000").unwrap_err(),
        Error::FieldOverflow { field: "code", size: 5, actual: 7 }
    );
}

#[test]
fn empty_list_searches_find_nothing() {
    let list = TestRecordList::new();
    assert!(list.first().is_none());
    assert!(list.first_by(TestRecordField::Name).is_none());
    assert!(list.iter_sorted_by(TestRecordField::Name).is_empty());
    assert!(list.try_find_by(TestRecordField::Name, b"").unwrap().is_empty());
    assert_eq!(list.len(), 0);
    assert!(list.is_empty());
}

#[test]
fn indexed_searches_follow_inserts_updates_and_removals() {
    let mut list = TestRecordList::new();
    let a = list.insert(record("Carol", "C0001", 3));
    let b = list.insert(record("Alice", "A0001", 1));
    let c = list.insert(record("Bob", "A0001", 2));
    assert_eq!(names(&list.iter_sorted_by(TestRecordField::Code)), vec!["Alice", "Bob", "Carol"]);
    assert!(list.update(a, record("Cara", "A0000", 9)));
    assert_eq!(names(&list.iter_sorted_by(TestRecordField::Code)), vec!["Cara", "Alice", "Bob"]);
    assert!(list.remove(b));
    assert_eq!(names(&list.try_find_by(TestRecordField::Code, b"A0001").unwrap()), vec!["Bob"]);
    assert!(list.update(c, record("Bo", "Z0001", 2)));
    assert_eq!(names(&list.iter_sorted_by(TestRecordField::Code)), vec!["Cara", "Bo"]);
    list.vacuum();
    assert_eq!(names(&list.iter_sorted_by(TestRecordField::Name)), vec!["Bo", "Cara"]);
}
