use oxgraph_db::error::DbError;
use oxgraph_db::id::{ElementId, LabelId, PropertyKeyId, RoleId};
use oxgraph_db::read::{Element, Properties};
use oxgraph_db::schema::{Bound, Schema};
use oxgraph_db::typed::{Int, Key, Text};
use oxgraph_db::value::{PropertyType, PropertyValue};
use oxgraph_db::catalog::PropertyFamily;

#[test]
fn later_pairs_win_and_typed_reads_project() {
    let name = PropertyKeyId::new(1);
    let age = PropertyKeyId::new(2);
    let props = Properties::from_pairs(vec![
        (name, PropertyValue::from_str_slice("Ann")),
        (age, PropertyValue::Integer(30)),
        (name, PropertyValue::from_str_slice("Bea")),
    ]);
    assert_eq!(props.len(), 2);
    assert!(!props.is_empty());
    let name_key = Key::<Text>::from_id(name);
    let age_key = Key::<Int>::from_id(age);
    assert_eq!(props.get::<Text, String>(name_key), Some("Bea".to_owned()));
    assert_eq!(props.get::<Int, i64>(age_key), Some(30));
    assert_eq!(props.get::<Int, i64>(Key::<Int>::from_id(name)), None);
    assert_eq!(props.value(age), Some(&PropertyValue::Integer(30)));
    let listed: Vec<u64> = props.iter().iter().map(|(k, _)| k.get()).collect();
    assert_eq!(listed, vec![1, 2]);
}

#[test]
fn require_reports_missing_properties() {
    let props = Properties::from_pairs(Vec::new());
    assert!(props.is_empty());
    assert!(props.require::<Int, i64>(Key::<Int>::from_id(PropertyKeyId::new(5))).is_err());
}

#[test]
fn element_labels_are_searched() {
    let element = Element::new(
        ElementId::new(4),
        vec![LabelId::new(1), LabelId::new(3), LabelId::new(8)],
        Properties::from_pairs(Vec::new()),
    );
    assert!(element.has(LabelId::new(3)));
    assert!(element.has(LabelId::new(8)));
    assert!(!element.has(LabelId::new(2)));
    assert!(element.properties().is_empty());
}

#[test]
fn bound_schema_resolves_names() {
    let _schema = Schema::new()
        .role("member")
        .label("Person")
        .key::<Text>("name", PropertyFamily::Element);
    let mut bound = Bound::new();
    bound.bind_role("member".to_owned(), RoleId::new(2));
    bound.bind_key("name".to_owned(), PropertyKeyId::new(5), PropertyType::Text);
    assert_eq!(bound.role("member"), Ok(RoleId::new(2)));
    assert_eq!(
        bound.role("ghost"),
        Err(DbError::UnknownName { kind: "role", name: "ghost".to_owned() })
    );
    assert_eq!(bound.key::<Text>("name").map(|k| k.id()), Ok(PropertyKeyId::new(5)));
    assert!(matches!(bound.key::<Int>("name"), Err(DbError::SchemaConflict { .. })));
}
