use memtable::value::{Entry, Row, Value};
use memtable::ValueType::{I64, U64};
use memtable::{TypeMismatchError, ValueType};

#[test]
fn test_entry() {
    let mut entry = Entry::new(I64);
    let r = entry.push(Row::new(100, Value::I64(10)));
    assert_eq!(r, Ok(()));

    assert_eq!(entry.len(), 1);

    let r = entry.push(Row::new(200, Value::U64(20)));
    assert_eq!(r, Err(TypeMismatchError::new(I64, U64)));
}

#[test]
fn push_keeps_call_order_and_counts_successes() {
    let mut entry = Entry::new(ValueType::I64);
    assert_eq!(entry.push(Row::new(3, Value::I64(30))), Ok(()));
    assert_eq!(entry.push(Row::new(1, Value::I64(10))), Ok(()));
    // a failed push neither counts nor disturbs the order
    assert!(entry.push(Row::new(2, Value::Bool(true))).is_err());
    assert_eq!(entry.push(Row::new(2, Value::I64(20))), Ok(()));

    assert_eq!(entry.len(), 3);
    assert_eq!(entry.row(0).unix_nano(), 3);
    assert_eq!(entry.row(1).unix_nano(), 1);
    assert_eq!(entry.row(2).unix_nano(), 2);
    assert!(matches!(entry.row(2).value(), Value::I64(20)));
}

#[test]
fn push_wrong_kind_fails_and_leaves_count() {
    let mut entry = Entry::new(ValueType::Str);
    assert_eq!(entry.push(Row::new(1, Value::Str("a".to_string()))), Ok(()));
    let r = entry.push(Row::new(2, Value::F64(0)));
    assert_eq!(r, Err(TypeMismatchError::new(ValueType::Str, ValueType::F64)));
    assert_eq!(entry.len(), 1);
}

#[test]
fn append_moves_rows_in_order() {
    let mut dst = Entry::new(ValueType::U64);
    assert_eq!(dst.push(Row::new(100, Value::U64(1))), Ok(()));
    let mut src = Entry::new(ValueType::U64);
    assert_eq!(src.push(Row::new(200, Value::U64(2))), Ok(()));
    assert_eq!(src.push(Row::new(300, Value::U64(3))), Ok(()));

    assert_eq!(dst.append(&mut src), Ok(()));
    assert_eq!(dst.len(), 3);
    assert_eq!(src.len(), 0);
    assert_eq!(dst.row(0).unix_nano(), 100);
    assert_eq!(dst.row(1).unix_nano(), 200);
    assert_eq!(dst.row(2).unix_nano(), 300);
}

#[test]
fn append_wrong_kind_fails_and_leaves_both() {
    let mut dst = Entry::new(ValueType::I64);
    assert_eq!(dst.push(Row::new(1, Value::I64(5))), Ok(()));
    let mut src = Entry::new(ValueType::Bool);
    assert_eq!(src.push(Row::new(2, Value::Bool(false))), Ok(()));

    let r = dst.append(&mut src);
    assert_eq!(r, Err(TypeMismatchError::new(ValueType::I64, ValueType::Bool)));
    assert_eq!(dst.len(), 1);
    assert_eq!(src.len(), 1);
}

#[test]
fn value_kinds_are_distinct() {
    assert_eq!(Value::F64(0).value_type(), ValueType::F64);
    assert_eq!(Value::I64(0).value_type(), ValueType::I64);
    assert_eq!(Value::U64(0).value_type(), ValueType::U64);
    assert_eq!(Value::Bool(false).value_type(), ValueType::Bool);
    assert_eq!(Value::Str(String::new()).value_type(), ValueType::Str);
    assert_ne!(ValueType::I64, ValueType::U64);
}

#[test]
fn mismatch_message_names_both_kinds() {
    let e = TypeMismatchError::new(ValueType::I64, ValueType::U64);
    assert_eq!(e.message(), "type mismatch expect: I64, got: U64");
}

#[test]
fn pre_epoch_timestamps_are_representable() {
    let mut entry = Entry::new(ValueType::I64);
    assert_eq!(entry.push(Row::new(-1_000_000_000, Value::I64(1))), Ok(()));
    assert_eq!(entry.push(Row::new(5, Value::I64(2))), Ok(()));
    assert_eq!(entry.row(0).unix_nano(), -1_000_000_000);
    assert_eq!(entry.row(1).unix_nano(), 5);
}
