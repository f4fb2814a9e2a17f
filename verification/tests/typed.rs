use oxgraph_db::id::PropertyKeyId;
use oxgraph_db::typed::{Assignable, Bool, Int, Key, Readable, Text, ValueType};
use oxgraph_db::value::{PropertyType, PropertyValue};

#[test]
fn markers_map_to_property_types() {
    assert_eq!(<Text as ValueType>::TYPE, PropertyType::Text);
    assert_eq!(<Int as ValueType>::TYPE, PropertyType::Integer);
    assert_eq!(<Bool as ValueType>::TYPE, PropertyType::Boolean);
}

#[test]
fn typed_keys_roundtrip_their_plain_ids() {
    let raw = PropertyKeyId::new(7);
    let key = Key::<Text>::from_id(raw);
    assert_eq!(key.id(), raw);
}

#[test]
fn assignable_checks_range_for_unsigned() {
    assert_eq!(
        Assignable::<Int>::into_value(5_u64).ok(),
        Some(PropertyValue::Integer(5))
    );
    assert!(Assignable::<Int>::into_value(u64::MAX).is_err());
    assert_eq!(
        Assignable::<Text>::into_value("hi").ok(),
        Some(PropertyValue::Text("hi".to_owned()))
    );
}

#[test]
fn readable_projects_matching_values() {
    assert_eq!(
        <i64 as Readable<Int>>::read(&PropertyValue::Integer(3)),
        Some(3)
    );
    assert_eq!(
        <String as Readable<Text>>::read(&PropertyValue::Integer(3)),
        None
    );
}

#[test]
fn usize_assignment_and_reads_respect_ranges() {
    assert_eq!(
        Assignable::<Int>::into_value(9_usize).ok(),
        Some(PropertyValue::Integer(9))
    );
    assert_eq!(
        Assignable::<Bool>::into_value(true).ok(),
        Some(PropertyValue::Boolean(true))
    );
    assert_eq!(
        <usize as Readable<Int>>::read(&PropertyValue::Integer(-1)),
        None
    );
    assert_eq!(
        <usize as Readable<Int>>::read(&PropertyValue::Integer(4)),
        Some(4)
    );
    assert_eq!(
        <bool as Readable<Bool>>::read(&PropertyValue::Boolean(false)),
        Some(false)
    );
    assert_eq!(
        <String as Readable<Text>>::read(&PropertyValue::Text("a".to_owned())),
        Some("a".to_owned())
    );
}
