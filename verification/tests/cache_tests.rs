use memtable::cache::Cache;
use memtable::point::{FieldValue, Point};
use memtable::{TypeMismatchError, ValueType};

fn cpu_point(value: FieldValue) -> Point {
    let mut p = Point::new("cpu".to_string(), 0);
    p.add_tag("host".to_string(), "A".to_string());
    p.add_tag("cpu".to_string(), "0".to_string());
    p.add_field("value".to_string(), value);
    p
}

#[test]
fn test_cache() {
    let cache = Cache::new();

    for _ in 0..10 {
        let cache = cache.clone();
        let batch = vec![cpu_point(FieldValue::I64(10))];
        cache.write_points(&batch).unwrap();
    }

    let series = cpu_point(FieldValue::I64(10)).fields()[0].series_id.clone();
    assert_eq!(cache.series_len(&series), Some(10));
}

#[test]
fn partition_offset_is_stable_and_matches_the_hash() {
    let cache = Cache::new();
    let id = "cpu,cpu=0,host=A#!~#value".to_string();

    let mut hasher = twox_hash::XxHash64::default();
    std::hash::Hash::hash(&id, &mut hasher);
    let h = std::hash::Hasher::finish(&hasher);

    let off = cache.get_partition_offset(&id);
    assert_eq!(off, (h % 16) as usize);
    assert_eq!(off, cache.get_partition_offset(&id));
    assert!(off < 16);
}

#[test]
fn one_batch_merges_rows_of_one_series_in_order() {
    let cache = Cache::new();
    let mut p1 = Point::new("cpu".to_string(), 100);
    p1.add_tag("host".to_string(), "A".to_string());
    p1.add_field("value".to_string(), FieldValue::I64(1));
    let mut p2 = Point::new("cpu".to_string(), 200);
    p2.add_tag("host".to_string(), "A".to_string());
    p2.add_field("value".to_string(), FieldValue::I64(2));
    let series = p1.fields()[0].series_id.clone();

    cache.write_points(&vec![p1, p2]).unwrap();
    assert_eq!(cache.series_len(&series), Some(2));

    let shared = cache.get(&series).unwrap();
    let guard = shared.acquire_read();
    let entry = guard.borrow();
    assert_eq!(entry.row(0).unix_nano(), 100);
    assert_eq!(entry.row(1).unix_nano(), 200);
    guard.release_read();
}

#[test]
fn mixed_kinds_in_one_batch_are_refused() {
    let cache = Cache::new();
    let batch = vec![cpu_point(FieldValue::I64(10)), cpu_point(FieldValue::U64(20))];
    let r = cache.write_points(&batch);
    assert_eq!(r, Err(TypeMismatchError::new(ValueType::I64, ValueType::U64)));

    // the mismatch surfaced in the local pass: nothing was merged
    let series = cpu_point(FieldValue::I64(10)).fields()[0].series_id.clone();
    assert_eq!(cache.series_len(&series), None);
}

#[test]
fn mismatch_against_the_stored_column_stops_the_merge() {
    let cache = Cache::new();
    cache.write_points(&vec![cpu_point(FieldValue::I64(10))]).unwrap();

    let r = cache.write_points(&vec![cpu_point(FieldValue::U64(20))]);
    assert_eq!(r, Err(TypeMismatchError::new(ValueType::I64, ValueType::U64)));

    let series = cpu_point(FieldValue::I64(10)).fields()[0].series_id.clone();
    assert_eq!(cache.series_len(&series), Some(1));
}

#[test]
fn distinct_series_land_in_distinct_columns() {
    let cache = Cache::new();
    let mut a = Point::new("cpu".to_string(), 1);
    a.add_tag("host".to_string(), "A".to_string());
    a.add_field("value".to_string(), FieldValue::F64(0));
    let mut b = Point::new("cpu".to_string(), 1);
    b.add_tag("host".to_string(), "B".to_string());
    b.add_field("value".to_string(), FieldValue::F64(0));
    let sa = a.fields()[0].series_id.clone();
    let sb = b.fields()[0].series_id.clone();

    cache.write_points(&vec![a, b]).unwrap();
    assert_eq!(cache.series_len(&sa), Some(1));
    assert_eq!(cache.series_len(&sb), Some(1));
    assert_ne!(sa, sb);
}

#[test]
fn a_point_with_two_fields_makes_two_series() {
    let cache = Cache::new();
    let mut p = Point::new("cpu".to_string(), 1);
    p.add_tag("host".to_string(), "A".to_string());
    p.add_field("user".to_string(), FieldValue::U64(3));
    p.add_field("system".to_string(), FieldValue::U64(4));
    let ids: Vec<String> = p.fields().into_iter().map(|f| f.series_id).collect();

    cache.write_points(&vec![p]).unwrap();
    assert_eq!(ids.len(), 2);
    for id in &ids {
        assert_eq!(cache.series_len(id), Some(1));
    }
}

#[test]
fn an_empty_batch_is_accepted() {
    let cache = Cache::new();
    assert_eq!(cache.write_points(&Vec::new()), Ok(()));
}
