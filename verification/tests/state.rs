use oxgraph_db::catalog::PropertyFamily;
use oxgraph_db::error::DbError;
use oxgraph_db::id::{ElementId, LabelId, PropertyKeyId, RelationId};
use oxgraph_db::state::{DatabaseState, PropertySubject};
use oxgraph_db::value::{PropertyType, PropertyValue};

fn populated() -> (DatabaseState, PropertyKeyId, LabelId) {
    let mut state = DatabaseState::empty();
    let label = state.register_label("Person".to_owned()).expect("label");
    let role = state.register_role("member".to_owned()).expect("role");
    let rtype = state.register_relation_type("knows".to_owned()).expect("rtype");
    let name = state
        .register_property_key("name".to_owned(), PropertyFamily::Element, PropertyType::Text)
        .expect("key");
    let e1 = state.create_element().expect("e1");
    let e2 = state.create_element().expect("e2");
    let r1 = state.create_relation().expect("r1");
    state.set_relation_type(r1, rtype).expect("type");
    state.create_incidence(r1, e1, role).expect("inc1");
    state.create_incidence(r1, e2, role).expect("inc2");
    state.add_element_label(e1, label).expect("label e1");
    state
        .set_property(PropertySubject::Element(e1), name, PropertyValue::from_str_slice("Ada"))
        .expect("set");
    (state, name, label)
}

#[test]
fn ids_are_allocated_from_one() {
    let mut state = DatabaseState::empty();
    assert_eq!(state.create_element(), Ok(ElementId::new(1)));
    assert_eq!(state.create_element(), Ok(ElementId::new(2)));
    assert_eq!(state.create_relation(), Ok(RelationId::new(1)));
    assert_eq!(state.element_count(), 2);
}

#[test]
fn set_then_read_property() {
    let (state, name, _) = populated();
    assert_eq!(
        state.property(PropertySubject::Element(ElementId::new(1)), name),
        Some(&PropertyValue::from_str_slice("Ada"))
    );
    assert_eq!(state.property(PropertySubject::Element(ElementId::new(2)), name), None);
    assert!(state.validate().is_ok());
}

#[test]
fn property_writes_are_checked() {
    let (mut state, name, _) = populated();
    assert_eq!(
        state.set_property(PropertySubject::Element(ElementId::new(1)), name, PropertyValue::Integer(1)),
        Err(DbError::PropertyTypeMismatch { expected: PropertyType::Text, actual: PropertyType::Integer })
    );
    assert_eq!(
        state.set_property(PropertySubject::Relation(RelationId::new(1)), name, PropertyValue::from_str_slice("x")),
        Err(DbError::WrongPropertyFamily { expected: PropertyFamily::Element, actual: PropertyFamily::Relation })
    );
    assert_eq!(
        state.set_property(PropertySubject::Element(ElementId::new(9)), name, PropertyValue::from_str_slice("x")),
        Err(DbError::UnknownElement { id: ElementId::new(9) })
    );
    assert_eq!(
        state.set_property(PropertySubject::Element(ElementId::new(1)), PropertyKeyId::new(77), PropertyValue::from_str_slice("x")),
        Err(DbError::UnknownPropertyKey { id: PropertyKeyId::new(77) })
    );
}

#[test]
fn tombstoning_an_element_cascades() {
    let (mut state, name, _) = populated();
    state.tombstone_element(ElementId::new(1)).expect("tombstone");
    assert!(!state.contains_element(ElementId::new(1)));
    assert_eq!(state.incidence_count(), 1);
    assert_eq!(state.property(PropertySubject::Element(ElementId::new(1)), name), None);
    assert_eq!(
        state.tombstone_element(ElementId::new(1)),
        Err(DbError::UnknownElement { id: ElementId::new(1) })
    );
    assert!(state.validate().is_ok());
}

#[test]
fn lookups_by_label_type_and_value() {
    let (state, name, label) = populated();
    assert_eq!(state.elements_with_label(label), vec![ElementId::new(1)]);
    assert_eq!(state.relation_incidences(RelationId::new(1)).len(), 2);
    assert_eq!(state.element_incidences(ElementId::new(2)).len(), 1);
    let hits = state.property_equal(name, &PropertyValue::from_str_slice("Ada"));
    assert_eq!(hits, vec![PropertySubject::Element(ElementId::new(1))]);
    assert!(state.property_equal(name, &PropertyValue::from_str_slice("Bob")).is_empty());
    assert_eq!(
        state.typed_property_equal(name, &PropertyValue::Integer(3)),
        Err(DbError::PropertyTypeMismatch { expected: PropertyType::Text, actual: PropertyType::Integer })
    );
}

#[test]
fn catalog_names_are_unique() {
    let mut state = DatabaseState::empty();
    state.register_label("Person".to_owned()).expect("label");
    assert_eq!(
        state.register_label("Person".to_owned()),
        Err(DbError::DuplicateCatalogName { name: "Person".to_owned() })
    );
}
