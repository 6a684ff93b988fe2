use memtable::point::{FieldValue, Point};

#[test]
fn test_fields() {
    let mut p = Point::new("cpu".to_string(), 0);
    p.add_tag("host".to_string(), "A".to_string());
    p.add_tag("cpu".to_string(), "0".to_string());
    p.add_field("value".to_string(), FieldValue::I64(10));

    let fields = p.fields();
    assert_eq!(fields.len(), 1);
    assert_eq!(fields[0].series_id, "cpu,cpu=0,host=A#!~#value");
}

#[test]
fn fields_carries_the_value() {
    let mut p = Point::new("cpu".to_string(), 7);
    p.add_tag("host".to_string(), "A".to_string());
    p.add_field("value".to_string(), FieldValue::I64(10));

    let fields = p.fields();
    assert_eq!(fields.len(), 1);
    assert!(matches!(fields[0].value, FieldValue::I64(10)));
    assert_eq!(p.unix_nano(), 7);
}

#[test]
fn fields_is_deterministic_across_insertion_order() {
    let mut p1 = Point::new("cpu".to_string(), 0);
    p1.add_tag("host".to_string(), "A".to_string());
    p1.add_tag("cpu".to_string(), "0".to_string());
    p1.add_field("value".to_string(), FieldValue::I64(10));
    p1.add_field("usage".to_string(), FieldValue::U64(4));

    let mut p2 = Point::new("cpu".to_string(), 0);
    p2.add_field("usage".to_string(), FieldValue::U64(4));
    p2.add_field("value".to_string(), FieldValue::I64(10));
    p2.add_tag("cpu".to_string(), "0".to_string());
    p2.add_tag("host".to_string(), "A".to_string());

    let f1 = p1.fields();
    let f2 = p2.fields();
    assert_eq!(f1.len(), 2);
    assert_eq!(f1.len(), f2.len());
    for (a, b) in f1.iter().zip(f2.iter()) {
        assert_eq!(a.series_id, b.series_id);
        assert_eq!(a.value.value_type(), b.value.value_type());
    }
    // and calling it twice on one point yields the same identifiers again
    let f1b = p1.fields();
    for (a, b) in f1.iter().zip(f1b.iter()) {
        assert_eq!(a.series_id, b.series_id);
    }
}

#[test]
fn adding_a_tag_twice_replaces_it() {
    let mut p = Point::new("cpu".to_string(), 0);
    p.add_tag("host".to_string(), "A".to_string());
    p.add_tag("host".to_string(), "B".to_string());
    p.add_field("value".to_string(), FieldValue::Bool(true));

    let fields = p.fields();
    assert_eq!(fields.len(), 1);
    assert_eq!(fields[0].series_id, "cpu,host=B#!~#value");
}

#[test]
fn point_without_fields_yields_nothing() {
    let mut p = Point::new("cpu".to_string(), 0);
    p.add_tag("host".to_string(), "A".to_string());
    assert!(p.fields().is_empty());
}

#[test]
fn point_without_tags_keeps_the_separator_shape() {
    let mut p = Point::new("mem".to_string(), 0);
    p.add_field("free".to_string(), FieldValue::U64(1));
    let fields = p.fields();
    assert_eq!(fields.len(), 1);
    assert_eq!(fields[0].series_id, "mem,#!~#free");
}

#[test]
fn a_point_may_predate_the_epoch() {
    let mut p = Point::new("cpu".to_string(), -42);
    p.add_field("value".to_string(), FieldValue::I64(1));
    assert_eq!(p.unix_nano(), -42);
    assert_eq!(p.fields().len(), 1);
}
