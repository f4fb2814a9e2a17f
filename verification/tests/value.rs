use oxgraph_db::error::{DbError, QueryError};
use oxgraph_db::value::{order_values, PropertyType, PropertyValue};

#[test]
fn from_scalars_roundtrip_through_accessors() {
    assert_eq!(PropertyValue::from(true).as_bool(), Some(true));
    assert_eq!(PropertyValue::from(7_i64).as_int(), Some(7));
    assert_eq!(PropertyValue::from_str_slice("hi").as_text(), Some("hi"));
    assert_eq!(
        PropertyValue::from(String::from("hi")).as_text(),
        Some("hi")
    );
}

#[test]
fn accessors_reject_mismatched_types() {
    let text = PropertyValue::from_str_slice("x");
    assert_eq!(text.as_int(), None);
    assert_eq!(text.as_bool(), None);
    assert_eq!(text.as_count(), None);
}

#[test]
fn value_types_and_counts() {
    assert_eq!(PropertyValue::Integer(1).value_type(), PropertyType::Integer);
    assert_eq!(PropertyValue::Boolean(true).value_type(), PropertyType::Boolean);
    assert_eq!(PropertyValue::Integer(12).as_count(), Some(12));
    assert_eq!(PropertyValue::Integer(-12).as_count(), None);
}

#[test]
fn unsigned_conversions_check_range() {
    assert_eq!(PropertyValue::try_from_u64(42), Ok(PropertyValue::Integer(42)));
    assert_eq!(
        PropertyValue::try_from_u64(u64::MAX),
        Err(DbError::Query(QueryError::ValueOutOfRange))
    );
    assert_eq!(
        PropertyValue::try_from_u64(i64::MAX as u64),
        Ok(PropertyValue::Integer(i64::MAX))
    );
    assert_eq!(PropertyValue::try_from_usize(3), Ok(PropertyValue::Integer(3)));
}

#[test]
fn values_order_by_type_then_content() {
    let b = PropertyValue::Boolean(true);
    let i = PropertyValue::Integer(-3);
    let t = PropertyValue::from_str_slice("abc");
    assert_eq!(order_values(&b, &i), -1);
    assert_eq!(order_values(&i, &t), -1);
    assert_eq!(order_values(&t, &b), 1);
    assert_eq!(order_values(&PropertyValue::Integer(2), &PropertyValue::Integer(5)), -1);
    assert_eq!(order_values(&PropertyValue::Boolean(false), &PropertyValue::Boolean(true)), -1);
    assert_eq!(
        order_values(&PropertyValue::from_str_slice("ab"), &PropertyValue::from_str_slice("abc")),
        -1
    );
    assert_eq!(order_values(&t, &PropertyValue::from_str_slice("abc")), 0);
    assert_eq!(
        order_values(&PropertyValue::from_str_slice("b"), &PropertyValue::from_str_slice("abc")),
        1
    );
}
