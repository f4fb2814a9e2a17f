use std::borrow::Cow;

use oxgraph_db::catalog::{Catalog, PropertyFamily};
use oxgraph_db::error::DbError;
use oxgraph_db::id::{ElementId, IncidenceId, PropertyKeyId, RelationId};
use oxgraph_db::overlay::log::blob_str;
use oxgraph_db::overlay::{BaseRecords, MergedState, Overlay, WriteOverlay};
use oxgraph_db::wire::{
    pack_flags, MutationOp, OP_CATALOG_DROP, OP_CATALOG_REGISTER_PROPERTY_KEY, OP_CATALOG_REGISTER_ROLE,
};
use oxgraph_db::state::{NextIds, PropertySubject};
use oxgraph_db::wire::base::{ElementWire, IncidenceWire, PropertyWire, RelationWire};
use oxgraph_db::value::{PropertyType, PropertyValue};

/// A base holding what one writer created over an empty base, with the
/// writer's watermark and catalog.
struct SmallBase {
    records: BaseRecords,
    next: NextIds,
    catalog: Catalog,
}

fn freeze_writer(write: WriteOverlay) -> SmallBase {
    let empty = BaseRecords::empty();
    let overlay = write.freeze();
    let view = MergedState::new(&empty, &overlay);
    SmallBase {
        records: view.to_base(),
        next: overlay.next_ids(),
        catalog: overlay.catalog().clone(),
    }
}

fn small_base() -> SmallBase {
    let mut write = WriteOverlay::new(NextIds::initial(), Catalog::empty());
    let base = BaseRecords::empty();
    let person = write.register_label("Person".to_owned()).expect("label");
    let _robot = write.register_label("Robot".to_owned()).expect("label");
    let calls = write.register_relation_type("calls".to_owned()).expect("rtype");
    let caller = write.register_role("caller".to_owned()).expect("role");
    let name = write
        .register_property_key("name".to_owned(), PropertyFamily::Element, PropertyType::Text)
        .expect("name key");
    let rank = write
        .register_property_key("rank".to_owned(), PropertyFamily::Element, PropertyType::Integer)
        .expect("rank key");
    let weight = write
        .register_property_key("weight".to_owned(), PropertyFamily::Relation, PropertyType::Integer)
        .expect("weight key");
    let slot = write
        .register_property_key("slot".to_owned(), PropertyFamily::Incidence, PropertyType::Integer)
        .expect("slot key");

    let e1 = write.create_element().expect("e1");
    let e2 = write.create_element().expect("e2");
    let _e3 = write.create_element().expect("e3");
    write.add_element_label(&base, e1, person);
    write.add_element_label(&base, e2, person);

    let r1 = write.create_relation().expect("r1");
    let _r2 = write.create_relation().expect("r2");
    write.set_relation_type(&base, r1, calls);
    let inc1 = write.create_incidence(r1, e1, caller).expect("inc1");
    write.create_incidence(r1, e2, caller).expect("inc2");

    write.set_property(&base, PropertySubject::Element(e1), name, PropertyValue::Text("Alice".to_owned()));
    write.set_property(&base, PropertySubject::Relation(r1), weight, PropertyValue::Integer(3));
    write.set_property(&base, PropertySubject::Incidence(inc1), slot, PropertyValue::Integer(1));
    write.set_property(&base, PropertySubject::Element(e1), rank, PropertyValue::Integer(-5));
    write.set_property(&base, PropertySubject::Element(e2), name, PropertyValue::Text("Bob".to_owned()));

    freeze_writer(write)
}

fn key(catalog: &Catalog, name: &str) -> PropertyKeyId {
    catalog.property_key_id(name).expect("property key")
}

#[test]
fn empty_overlay_borrows_base() {
    let base = small_base();
    let records = &base.records;
    let overlay = Overlay::empty(base.next, base.catalog.clone());
    let view = MergedState::new(records, &overlay);

    assert_eq!(view.element_count(), 3);
    for raw in 1u64..=3 {
        let record = view.element(ElementId::new(raw)).expect("element present");
        assert!(matches!(record, Cow::Borrowed(_)), "base read must borrow");
        assert_eq!(record.id, ElementId::new(raw));
    }
    assert_eq!(view.relation_count(), 2);
    assert_eq!(view.incidence_count(), 2);
}

#[test]
fn cow_borrowed_fast_path_owned_override() {
    let base = small_base();
    let records = &base.records;

    let mut write = WriteOverlay::new(base.next, base.catalog.clone());
    let robot = base.catalog.label_id("Robot").expect("robot");
    write.add_element_label(records, ElementId::new(2), robot);
    write.tombstone_element(records, ElementId::new(3));
    let fresh = write.create_element().expect("fresh element");
    let overlay = write.freeze();
    let view = MergedState::new(records, &overlay);

    let e1 = view.element(ElementId::new(1)).expect("e1");
    assert!(matches!(e1, Cow::Borrowed(_)), "base-only id must borrow");
    let e2 = view.element(ElementId::new(2)).expect("e2");
    assert!(matches!(e2, Cow::Owned(_)), "overridden id must be owned");
    assert!(e2.labels.contains(&robot.get()));
    assert!(view.element(ElementId::new(3)).is_none(), "tombstone hides");
    let fresh_read = view.element(fresh).expect("fresh present");
    assert!(matches!(fresh_read, Cow::Owned(_)), "fresh id must be owned");
}

#[test]
fn cow_property_fast_path() {
    let base = small_base();
    let records = &base.records;
    let name = key(&base.catalog, "name");
    let rank = key(&base.catalog, "rank");

    let mut write = WriteOverlay::new(base.next, base.catalog.clone());
    write.set_property(
        records,
        PropertySubject::Element(ElementId::new(1)),
        name,
        PropertyValue::from_str_slice("Alicia"),
    );
    write.remove_property(records, PropertySubject::Element(ElementId::new(1)), rank);
    let overlay = write.freeze();
    let view = MergedState::new(records, &overlay);

    let bob = view
        .property(PropertySubject::Element(ElementId::new(2)), name.get())
        .expect("bob name");
    assert!(matches!(bob, Cow::Borrowed(_)), "base property must borrow");
    assert_eq!(bob.into_owned(), PropertyValue::from_str_slice("Bob"));

    let alicia = view
        .property(PropertySubject::Element(ElementId::new(1)), name.get())
        .expect("alicia name");
    assert!(matches!(alicia, Cow::Owned(_)), "overlay property is owned");
    assert_eq!(alicia.into_owned(), PropertyValue::from_str_slice("Alicia"));

    assert!(
        view.property(PropertySubject::Element(ElementId::new(1)), rank.get()).is_none(),
        "removed property is hidden"
    );
}

#[test]
fn tombstone_idempotent() {
    let base = small_base();
    let records = &base.records;

    let mut write = WriteOverlay::new(base.next, base.catalog.clone());
    let absent = ElementId::new(999);
    write.tombstone_element(records, absent);
    write.tombstone_element(records, ElementId::new(1));
    write.tombstone_element(records, ElementId::new(1));
    let overlay = write.freeze();
    let view = MergedState::new(records, &overlay);

    assert!(view.element(absent).is_none(), "absent tombstone stays absent");
    assert!(view.element(ElementId::new(1)).is_none(), "double tombstone hides");
    assert_eq!(view.element_count(), 2);
}

#[test]
fn overlay_records_orphan_property_unvalidated() {
    let base = small_base();
    let records = &base.records;
    let name = key(&base.catalog, "name");
    let subject = PropertySubject::Element(ElementId::new(1));
    let orphan = PropertyValue::from_str_slice("ghost");

    let mut write = WriteOverlay::new(base.next, base.catalog.clone());
    write.tombstone_element(records, ElementId::new(1));
    write.set_property(records, subject, name, orphan.clone());
    let overlay = write.freeze();
    let view = MergedState::new(records, &overlay);

    assert!(view.element(ElementId::new(1)).is_none(), "subject tombstoned");
    assert_eq!(
        view.property(subject, name.get()).map(Cow::into_owned),
        Some(orphan.clone()),
        "orphan property is visible through point read"
    );
    let folded = view.to_base();
    assert_eq!(
        folded.property_keys(subject),
        vec![name.get()],
        "orphan property is visible through the property listing"
    );
    assert_eq!(folded.property(subject, name.get()), Some(&orphan));
}

#[test]
fn with_applied_leaves_parent_frozen() {
    let base = small_base();
    let records = &base.records;

    let mut parent_write = WriteOverlay::new(base.next, base.catalog.clone());
    parent_write.tombstone_element(records, ElementId::new(1));
    let parent = parent_write.freeze();

    let parent_view_before = MergedState::new(records, &parent);
    let parent_count_before = parent_view_before.element_count();

    let mut child_write = WriteOverlay::new(parent.next_ids(), parent.catalog().clone());
    let fresh = child_write.create_element().expect("fresh");
    child_write.tombstone_element(records, ElementId::new(2));
    let child = parent.with_applied(&child_write);

    let parent_view_after = MergedState::new(records, &parent);
    assert_eq!(parent_view_after.element_count(), parent_count_before);
    assert!(parent_view_after.element(ElementId::new(2)).is_some());
    assert!(parent_view_after.element(fresh).is_none());

    let child_view = MergedState::new(records, &child);
    assert!(child_view.element(ElementId::new(1)).is_none(), "parent tombstone carries");
    assert!(child_view.element(ElementId::new(2)).is_none(), "child tombstone");
    assert!(child_view.element(fresh).is_some(), "child create");

    assert!(child.next_ids().element > parent.next_ids().element);
}

#[test]
fn merged_ids_are_sorted_and_exact() {
    let base = small_base();
    let records = &base.records;
    let mut write = WriteOverlay::new(base.next, base.catalog.clone());
    write.tombstone_element(records, ElementId::new(2));
    let fresh = write.create_element().expect("fresh");
    let overlay = write.freeze();
    let view = MergedState::new(records, &overlay);
    assert_eq!(view.element_ids(), vec![1, 3, fresh.get()]);
    assert_eq!(view.relation_ids(), vec![1, 2]);
    assert!(view.contains_element(fresh));
    assert!(!view.contains_element(ElementId::new(2)));
}

#[test]
fn overlay_relation_tombstone_masks_only_the_relation() {
    let base = small_base();
    let records = &base.records;
    let mut write = WriteOverlay::new(base.next, base.catalog.clone());
    write.tombstone_relation(records, oxgraph_db::id::RelationId::new(1));
    let overlay = write.freeze();
    let view = MergedState::new(records, &overlay);
    assert_eq!(view.relation_count(), 1);
    assert!(!view.contains_relation(oxgraph_db::id::RelationId::new(1)));
    assert_eq!(view.incidence_count(), 2);
}

#[test]
fn registering_a_duplicate_name_fails() {
    let mut write = WriteOverlay::new(NextIds::initial(), Catalog::empty());
    let first = write.register_label("Person".to_owned()).expect("label");
    assert_eq!(first.get(), 1);
    assert!(write.register_label("Person".to_owned()).is_err());
}

#[test]
fn replaying_the_encoded_frame_reproduces_the_writer() {
    let base = BaseRecords::empty();
    let mut write = WriteOverlay::new(NextIds::initial(), Catalog::empty());
    let name = write
        .register_property_key("name".to_owned(), PropertyFamily::Element, PropertyType::Text)
        .expect("name key");
    let e1 = write.create_element().expect("e1");
    write.set_property(&base, PropertySubject::Element(e1), name, PropertyValue::from_str_slice("Zed"));
    let (ops, blob) = write.encode_frame();

    let mut replayed = WriteOverlay::new(NextIds::initial(), Catalog::empty());
    for op in &ops {
        replayed.apply_replay_op(&base, op, &blob, 1).expect("replay op");
    }
    let overlay = replayed.freeze();
    let view = MergedState::new(&base, &overlay);
    assert!(view.contains_element(e1));
    assert_eq!(
        view.property(PropertySubject::Element(e1), name.get()).map(Cow::into_owned),
        Some(PropertyValue::from_str_slice("Zed"))
    );
    assert_eq!(overlay.catalog().property_key_id("name"), Some(name));
}

/// A merged view over the small base with one writer's changes published on
/// top: e3 gains the Robot label, e2 gains a rank, e1 loses its rank, r2
/// gains the `calls` type and the second incidence is tombstoned.
fn layered_view_parts() -> (SmallBase, Overlay) {
    let base = small_base();
    let catalog = base.catalog.clone();
    let robot = catalog.label_id("Robot").expect("robot");
    let calls = catalog.relation_type_id("calls").expect("calls");
    let rank = key(&catalog, "rank");
    let mut write = WriteOverlay::new(base.next, catalog);
    write.add_element_label(&base.records, ElementId::new(3), robot);
    write.set_property(&base.records, PropertySubject::Element(ElementId::new(2)), rank, PropertyValue::Integer(7));
    write.remove_property(&base.records, PropertySubject::Element(ElementId::new(1)), rank);
    write.set_relation_type(&base.records, RelationId::new(2), calls);
    write.tombstone_incidence(&base.records, IncidenceId::new(2));
    let overlay = write.freeze();
    (base, overlay)
}

#[test]
fn merged_label_and_type_scans_follow_the_overlay() {
    let (base, overlay) = layered_view_parts();
    let view = MergedState::new(&base.records, &overlay);
    let person = base.catalog.label_id("Person").expect("person");
    let robot = base.catalog.label_id("Robot").expect("robot");
    let calls = base.catalog.relation_type_id("calls").expect("calls");
    assert_eq!(view.elements_with_label(person), vec![ElementId::new(1), ElementId::new(2)]);
    assert_eq!(view.elements_with_label(robot), vec![ElementId::new(3)]);
    assert_eq!(view.relations_with_type(calls), vec![RelationId::new(1), RelationId::new(2)]);
}

#[test]
fn merged_incidence_scans_hide_tombstones() {
    let (base, overlay) = layered_view_parts();
    let view = MergedState::new(&base.records, &overlay);
    let first = view.element_incidences(ElementId::new(1));
    assert_eq!(first.len(), 1);
    assert_eq!(first[0].id, IncidenceId::new(1));
    assert_eq!(first[0].relation, RelationId::new(1));
    assert!(view.element_incidences(ElementId::new(2)).is_empty());
    let of_relation: Vec<IncidenceId> =
        view.relation_incidences(RelationId::new(1)).iter().map(|r| r.id).collect();
    assert_eq!(of_relation, vec![IncidenceId::new(1)]);
}

#[test]
fn merged_property_scans_read_overlay_over_base() {
    let (base, overlay) = layered_view_parts();
    let view = MergedState::new(&base.records, &overlay);
    let name = key(&base.catalog, "name");
    let rank = key(&base.catalog, "rank");
    let e1 = PropertySubject::Element(ElementId::new(1));
    let e2 = PropertySubject::Element(ElementId::new(2));
    assert_eq!(view.property_equal(name, &PropertyValue::Text("Bob".to_owned())), vec![e2]);
    assert_eq!(view.property_range(rank, &PropertyValue::Integer(-10), &PropertyValue::Integer(10)), vec![e2]);
    assert_eq!(view.subject_properties(e1), vec![(name, PropertyValue::Text("Alice".to_owned()))]);
    assert_eq!(
        view.subject_properties(e2),
        vec![(name, PropertyValue::Text("Bob".to_owned())), (rank, PropertyValue::Integer(7))]
    );
    assert_eq!(
        view.typed_property_composite_equal(&[name], &[PropertyValue::Text("Alice".to_owned())]),
        Ok(vec![e1])
    );
}

#[test]
fn merged_typed_lookups_check_the_schema() {
    let (base, overlay) = layered_view_parts();
    let view = MergedState::new(&base.records, &overlay);
    let name = key(&base.catalog, "name");
    let rank = key(&base.catalog, "rank");
    let weight = key(&base.catalog, "weight");
    assert_eq!(
        view.typed_property_equal(name, &PropertyValue::Integer(1)),
        Err(DbError::PropertyTypeMismatch { expected: PropertyType::Text, actual: PropertyType::Integer })
    );
    let unknown = PropertyKeyId::new(999);
    assert_eq!(
        view.typed_property_equal(unknown, &PropertyValue::Integer(1)),
        Err(DbError::UnknownPropertyKey { id: unknown })
    );
    assert_eq!(
        view.typed_property_equal_for_family(weight, PropertyFamily::Element, &PropertyValue::Integer(3)),
        Err(DbError::WrongPropertyFamily { expected: PropertyFamily::Relation, actual: PropertyFamily::Element })
    );
    assert_eq!(view.typed_property_range(rank, &PropertyValue::Integer(5), &PropertyValue::Integer(1)), Ok(vec![]));
    assert!(matches!(
        view.typed_property_composite_equal(&[name, rank], &[PropertyValue::Integer(1)]),
        Err(DbError::Unsupported { .. })
    ));
}

#[test]
fn watermark_advances_under_apply() {
    let base = small_base();
    let parent = Overlay::empty(base.next, base.catalog.clone());
    let mut child_write = WriteOverlay::new(parent.next_ids(), parent.catalog().clone());
    let created = child_write.create_element().expect("create");
    assert_eq!(created, parent.next_ids().element);
    let child = parent.with_applied(&child_write);
    assert_eq!(child.next_ids().element.get(), parent.next_ids().element.get() + 1);
    assert_eq!(child.next_ids().relation, parent.next_ids().relation);
    assert_eq!(child.next_ids().role, parent.next_ids().role);
}

#[test]
fn setting_the_visible_value_again_logs_nothing() {
    let base = small_base();
    let name = key(&base.catalog, "name");
    let mut write = WriteOverlay::new(base.next, base.catalog.clone());
    let e1 = PropertySubject::Element(ElementId::new(1));
    write.set_property(&base.records, e1, name, PropertyValue::Text("Alice".to_owned()));
    assert!(write.is_empty());
    write.set_property(&base.records, e1, name, PropertyValue::Text("Carol".to_owned()));
    assert!(!write.is_empty());
    let overlay = write.freeze();
    let view = MergedState::new(&base.records, &overlay);
    assert_eq!(view.subject_properties(e1)[0].1, PropertyValue::Text("Carol".to_owned()));
}

fn zero_op(op_kind: u32, flags: u32, head: &[u64]) -> MutationOp {
    let mut payload = [0u64; 9];
    payload[..head.len()].copy_from_slice(head);
    MutationOp { op_kind, flags, payload }
}

#[test]
fn replaying_an_unknown_kind_reports_its_lsn() {
    let mut write = WriteOverlay::new(NextIds::initial(), Catalog::empty());
    let op = zero_op(OP_CATALOG_DROP, 0, &[]);
    assert_eq!(
        write.apply_replay_op(&BaseRecords::empty(), &op, &[], 4),
        Err(DbError::LogCorrupt { lsn: 4, reason: "unknown mutation op kind" })
    );
    assert!(write.catalog().property_key_id("rank").is_none());
}

#[test]
fn replaying_a_bad_family_tag_is_log_corrupt() {
    let mut write = WriteOverlay::new(NextIds::initial(), Catalog::empty());
    let op = zero_op(OP_CATALOG_REGISTER_PROPERTY_KEY, pack_flags(3, 1), &[1, 0, 4]);
    assert_eq!(
        write.apply_replay_op(&BaseRecords::empty(), &op, b"rank", 2),
        Err(DbError::LogCorrupt { lsn: 2, reason: "property-key family tag" })
    );
    assert!(write.catalog().property_key_id("rank").is_none());
}

#[test]
fn replaying_a_taken_name_is_a_duplicate() {
    let mut write = WriteOverlay::new(NextIds::initial(), Catalog::empty());
    write.register_role("src".to_owned()).expect("role");
    let op = zero_op(OP_CATALOG_REGISTER_ROLE, 0, &[9, 0, 3]);
    assert_eq!(
        write.apply_replay_op(&BaseRecords::empty(), &op, b"src", 5),
        Err(DbError::DuplicateCatalogName { name: "src".to_owned() })
    );
}

#[test]
fn blob_runs_report_their_fault() {
    assert_eq!(blob_str(b"hello", 2, 3, 7), Ok("llo".to_owned()));
    assert_eq!(
        blob_str(b"hello", 4, 2, 7),
        Err(DbError::LogCorrupt { lsn: 7, reason: "blob slice out of bounds" })
    );
    assert_eq!(
        blob_str(b"hello", u64::MAX, 2, 7),
        Err(DbError::LogCorrupt { lsn: 7, reason: "blob slice overflow" })
    );
    assert_eq!(
        blob_str(&[0xff, 0xfe], 0, 2, 7),
        Err(DbError::LogCorrupt { lsn: 7, reason: "blob slice is not UTF-8" })
    );
}

#[test]
fn replaying_a_frame_with_a_refused_registration_rebuilds_the_writer() {
    let base = BaseRecords::empty();
    let mut write = WriteOverlay::new(NextIds::initial(), Catalog::empty());
    let person = write.register_label("Person".to_owned()).expect("label");
    assert!(write.register_label("Person".to_owned()).is_err());
    let note = write
        .register_property_key("note".to_owned(), PropertyFamily::Element, PropertyType::Text)
        .expect("note key");
    let e1 = write.create_element().expect("e1");
    let e2 = write.create_element().expect("e2");
    write.add_element_label(&base, e1, person);
    write.set_property(&base, PropertySubject::Element(e2), note, PropertyValue::from_str_slice("second"));
    write.tombstone_element(&base, e1);
    let (ops, blob) = write.encode_frame();

    let mut replayed = WriteOverlay::new(NextIds::initial(), Catalog::empty());
    for op in &ops {
        replayed.apply_replay_op(&base, op, &blob, 1).expect("replay op");
    }
    assert_eq!(replayed.next_ids(), write.next_ids());
    let overlay = replayed.freeze();
    let view = MergedState::new(&base, &overlay);
    assert!(!view.contains_element(e1));
    assert!(view.contains_element(e2));
    assert_eq!(
        view.property(PropertySubject::Element(e2), note.get()).map(Cow::into_owned),
        Some(PropertyValue::from_str_slice("second"))
    );
    assert_eq!(overlay.catalog().label_id("Person"), Some(person));
    assert_eq!(overlay.catalog().property_key_id("note"), Some(note));
}

#[test]
fn a_pushed_op_keeps_its_first_nine_words() {
    let mut log = oxgraph_db::overlay::MutationLog::new();
    let words: Vec<u64> = (1..=11).collect();
    log.push(OP_CATALOG_DROP, 3, &words);
    log.push(OP_CATALOG_REGISTER_ROLE, 0, &[7, 8]);
    let (ops, blob) = log.frame();
    assert_eq!(ops.len(), 2);
    assert_eq!(ops[0].op_kind, OP_CATALOG_DROP);
    assert_eq!(ops[0].flags, 3);
    assert_eq!(ops[0].payload, [1, 2, 3, 4, 5, 6, 7, 8, 9]);
    assert_eq!(ops[1].payload, [7, 8, 0, 0, 0, 0, 0, 0, 0]);
    assert!(blob.is_empty());
}

fn wire_sample() -> (
    Vec<ElementWire>,
    Vec<u64>,
    Vec<RelationWire>,
    Vec<u64>,
    Vec<IncidenceWire>,
    Vec<PropertyWire>,
    Vec<u8>,
) {
    let elements = vec![
        ElementWire { id: 1, label_off: 0, label_len: 2 },
        ElementWire { id: 2, label_off: 2, label_len: 0 },
    ];
    let element_labels = vec![4, 5];
    let relations = vec![
        RelationWire { id: 1, relation_type: 3, label_off: 0, label_len: 1 },
        RelationWire { id: 2, relation_type: 0, label_off: 1, label_len: 0 },
    ];
    let relation_labels = vec![6];
    let incidences = vec![IncidenceWire { id: 9, relation: 1, element: 2, role: 7 }];
    let text = b"Ada".to_vec();
    let properties = vec![
        PropertyWire { subject_kind: 0, value_tag: 2, subject_id: 1, key: 10, scalar: 0, text_off: 0, text_len: 3 },
        PropertyWire { subject_kind: 1, value_tag: 1, subject_id: 1, key: 11, scalar: u64::MAX, text_off: 0, text_len: 0 },
        PropertyWire { subject_kind: 2, value_tag: 0, subject_id: 9, key: 12, scalar: 1, text_off: 0, text_len: 0 },
    ];
    (elements, element_labels, relations, relation_labels, incidences, properties, text)
}

#[test]
fn base_records_decode_from_their_wire_sections() {
    let (e, el, r, rl, i, p, t) = wire_sample();
    let base = BaseRecords::from_wire(&e, &el, &r, &rl, &i, &p, &t).expect("decodes");
    let e1 = base.element(ElementId::new(1)).expect("e1");
    assert_eq!(e1.labels.iter().copied().collect::<Vec<u64>>(), vec![4, 5]);
    assert!(base.element(ElementId::new(2)).expect("e2").labels.is_empty());
    assert_eq!(base.relation(RelationId::new(1)).expect("r1").relation_type.map(|t| t.get()), Some(3));
    assert_eq!(base.relation(RelationId::new(2)).expect("r2").relation_type, None);
    let inc = base.incidence(IncidenceId::new(9)).expect("i9");
    assert_eq!(inc.relation, RelationId::new(1));
    assert_eq!(inc.element, ElementId::new(2));
    assert_eq!(
        base.property(PropertySubject::Element(ElementId::new(1)), 10),
        Some(&PropertyValue::from_str_slice("Ada"))
    );
    assert_eq!(base.property(PropertySubject::Relation(RelationId::new(1)), 11), Some(&PropertyValue::Integer(-1)));
    assert_eq!(base.property(PropertySubject::Incidence(IncidenceId::new(9)), 12), Some(&PropertyValue::Boolean(true)));
}

fn invalid_store(reason: &'static str) -> DbError {
    DbError::Storage(oxgraph_db::error::StorageError::InvalidStore { reason })
}

#[test]
fn base_records_refuse_malformed_wire_sections() {
    let (mut e, el, r, rl, i, p, t) = wire_sample();
    e[1].label_len = 1;
    let mut bad_p = p.clone();
    bad_p[0].subject_kind = 7;
    assert_eq!(
        BaseRecords::from_wire(&e, &el, &r, &rl, &i, &bad_p, &t).err(),
        Some(invalid_store("base label run out of bounds"))
    );
    let (e, el, r, rl, i, p, t) = wire_sample();
    let mut bad_p = p.clone();
    bad_p[0].subject_kind = 7;
    assert_eq!(
        BaseRecords::from_wire(&e, &el, &r, &rl, &i, &bad_p, &t).err(),
        Some(invalid_store("base property subject kind out of range"))
    );
    let mut bad_p = p.clone();
    bad_p[1].value_tag = 5;
    assert_eq!(
        BaseRecords::from_wire(&e, &el, &r, &rl, &i, &bad_p, &t).err(),
        Some(invalid_store("base property value tag out of range"))
    );
    let mut bad_p = p.clone();
    bad_p[0].text_len = 4;
    assert_eq!(
        BaseRecords::from_wire(&e, &el, &r, &rl, &i, &bad_p, &t).err(),
        Some(invalid_store("base property text out of bounds"))
    );
    let bad_t = vec![0xFF, 0x41, 0x42];
    assert_eq!(
        BaseRecords::from_wire(&e, &el, &r, &rl, &i, &p, &bad_t).err(),
        Some(invalid_store("base property text is not UTF-8"))
    );
    let mut bad_r = r.clone();
    bad_r[0].label_off = 1;
    assert_eq!(
        BaseRecords::from_wire(&e, &el, &bad_r, &rl, &i, &p, &t).err(),
        Some(invalid_store("base label run out of bounds"))
    );
}
