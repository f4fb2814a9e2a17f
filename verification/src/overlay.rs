//! In-memory delta overlay layered over a base snapshot.
//!
//! A [`WriteOverlay`] is the mutable delta of one write transaction: it
//! records creates, tombstones, property sets/removes, and catalog
//! registrations into per-family delta maps without touching the base, and
//! logs every mutation for the WAL. [`WriteOverlay::freeze`] turns it into an
//! immutable published [`Overlay`]. A [`MergedState`] reads an overlay over a
//! [`BaseRecords`] snapshot: an overlay entry wins, a tombstone hides, and an
//! untouched id falls through to the base.
//!
//! Canonical ids are never reused: the overlay only adds records or
//! tombstones them, and the watermark only grows.
use crate::catalog::{
    Catalog, IndexDefinition, NamedEntry, PropertyFamily, PropertyKeyDefinition, ProjectionDefinition,
    ProjectionEntry, IndexEntry, named_has_id, named_has_name, keys_have_id, key_definition, projection_name,
};
use crate::error::DbError;
use crate::overlay::frame::replay_step;
use crate::overlay::log::{blob_str, op_with, words_bytes, watermark_words};
use crate::wire::{self, MutationOp};
use crate::id::{
    ElementId, IncidenceId, IndexId, LabelId, ProjectionId, PropertyKeyId, RelationId, RelationTypeId, RoleId,
};
use crate::state::{
    ElementRecord, ElementView, IncidenceRecord, NextIds, PropertySubject, RelationRecord,
    RelationView, ascending, lemma_prefix_step, lemma_sorted_listing, query_holds, sorted_keys, sorted_listing,
    subject_key, value_views, values_match, PropertyQuery, equal_match, range_match, composite_match, raw_keys,
    value_seq_views, key_pair_lt, subjects_ascending,
};
use crate::value::{PropertyType, PropertyValue, ValueView, order_values, value_order, value_type_of};
use std::borrow::Cow;
use std::collections::{BTreeMap, BTreeSet};
use vstd::prelude::*;

pub mod frame;
pub mod log;


pub use log::MutationLog;


verus! {

/// Overlays a delta on a base map: a delta entry wins (`None` hides the key),
/// an untouched key falls through to the base.
pub open spec fn merge_layer<K, V>(base: Map<K, V>, delta: Map<K, Option<V>>) -> Map<K, V> {
    Map::new(
        |k: K| if delta.contains_key(k) {
            delta[k] is Some
        } else {
            base.contains_key(k)
        },
        |k: K| if delta.contains_key(k) {
            delta[k].unwrap()
        } else {
            base[k]
        },
    )
}

/// Overlays a newer delta on an older one: a newer entry (set or tombstone)
/// replaces the older entry for its key.
pub open spec fn stack_deltas<K, V>(older: Map<K, Option<V>>, newer: Map<K, Option<V>>) -> Map<
    K,
    Option<V>,
> {
    older.union_prefer_right(newer)
}

/// The views of the records of a delta map.
pub open spec fn element_delta_views(m: Map<u64, Option<ElementRecord>>) -> Map<u64, Option<ElementView>> {
    Map::new(
        |k: u64| m.contains_key(k),
        |k: u64| match m[k] {
            Some(r) => Some(r@),
            None => None,
        },
    )
}

/// The views of the records of a delta map.
pub open spec fn relation_delta_views(m: Map<u64, Option<RelationRecord>>) -> Map<u64, Option<RelationView>> {
    Map::new(
        |k: u64| m.contains_key(k),
        |k: u64| match m[k] {
            Some(r) => Some(r@),
            None => None,
        },
    )
}

/// Every `((subject, key), entry)` of a two-level property delta.
pub open spec fn flatten_delta(m: Map<(u32, u64), BTreeMap<u64, Option<PropertyValue>>>) -> Map<
    ((u32, u64), u64),
    Option<ValueView>,
> {
    Map::new(
        |p: ((u32, u64), u64)| m.contains_key(p.0) && m[p.0]@.contains_key(p.1),
        |p: ((u32, u64), u64)| match m[p.0]@[p.1] {
            Some(v) => Some(v@),
            None => None,
        },
    )
}

/// Every `((subject, key), value)` of a two-level property map.
pub open spec fn flatten_values(m: Map<(u32, u64), BTreeMap<u64, PropertyValue>>) -> Map<
    ((u32, u64), u64),
    ValueView,
> {
    Map::new(
        |p: ((u32, u64), u64)| m.contains_key(p.0) && m[p.0]@.contains_key(p.1),
        |p: ((u32, u64), u64)| m[p.0]@[p.1]@,
    )
}

/// Copies an element record with its content.
pub fn copy_element(r: &ElementRecord) -> (c: ElementRecord)
    ensures
        c@ == r@,
{
    ElementRecord { id: r.id, labels: r.labels.clone() }
}

/// Copies a relation record with its content.
pub fn copy_relation(r: &RelationRecord) -> (c: RelationRecord)
    ensures
        c@ == r@,
{
    RelationRecord { id: r.id, relation_type: r.relation_type, labels: r.labels.clone() }
}

/// Copies a property value with its content.
pub fn copy_value(v: &PropertyValue) -> (c: PropertyValue)
    ensures
        c@ == v@,
{
    match v {
        PropertyValue::Boolean(b) => PropertyValue::Boolean(*b),
        PropertyValue::Integer(i) => PropertyValue::Integer(*i),
        PropertyValue::Text(s) => PropertyValue::Text(s.clone()),
    }
}

/// The immutable base snapshot the overlays are layered over.
#[derive(Clone, Debug)]
pub struct BaseRecords {
    /// Base elements keyed by raw id.
    elements: BTreeMap<u64, ElementRecord>,
    /// Base relations keyed by raw id.
    relations: BTreeMap<u64, RelationRecord>,
    /// Base incidences keyed by raw id.
    incidences: BTreeMap<u64, IncidenceRecord>,
    /// Base properties keyed by subject key, then raw property-key id.
    properties: BTreeMap<(u32, u64), BTreeMap<u64, PropertyValue>>,
}

impl BaseRecords {
    /// Base elements by raw id.
    pub closed spec fn elements_v(&self) -> Map<u64, ElementView> {
        crate::state::element_views(self.elements@)
    }

    /// Base relations by raw id.
    pub closed spec fn relations_v(&self) -> Map<u64, RelationView> {
        crate::state::relation_views(self.relations@)
    }

    /// Base incidences by raw id.
    pub closed spec fn incidences_v(&self) -> Map<u64, IncidenceRecord> {
        self.incidences@
    }

    /// Base properties keyed by `(subject key, raw key)`.
    pub closed spec fn props(&self) -> Map<((u32, u64), u64), ValueView> {
        flatten_values(self.properties@)
    }

    /// The base properties of one subject key.
    pub closed spec fn subject_keys(&self, s: (u32, u64)) -> Set<u64> {
        if self.properties@.contains_key(s) {
            self.properties@[s]@.dom()
        } else {
            Set::empty()
        }
    }

    /// An empty base.
    pub fn empty() -> (b: Self)
        ensures
            b.elements_v() == Map::<u64, ElementView>::empty(),
            b.relations_v() == Map::<u64, RelationView>::empty(),
            b.incidences_v() == Map::<u64, IncidenceRecord>::empty(),
            b.props() == Map::<((u32, u64), u64), ValueView>::empty(),
    {
        let b = BaseRecords {
            elements: BTreeMap::new(),
            relations: BTreeMap::new(),
            incidences: BTreeMap::new(),
            properties: BTreeMap::new(),
        };
        proof {
            assert(b.elements_v() =~= Map::<u64, ElementView>::empty());
            assert(b.relations_v() =~= Map::<u64, RelationView>::empty());
            assert(b.props() =~= Map::<((u32, u64), u64), ValueView>::empty());
        }
        b
    }

    /// Decodes a base from its record sections: the element, relation,
    /// incidence, and property records, the two label sections, and the text
    /// section. Elements are decoded first, then relations, incidences, and
    /// properties; the first record that does not decode gives the error.
    pub fn from_wire(
        elements: &[wire::base::ElementWire],
        element_labels: &[u64],
        relations: &[wire::base::RelationWire],
        relation_labels: &[u64],
        incidences: &[wire::base::IncidenceWire],
        properties: &[wire::base::PropertyWire],
        text: &[u8],
    ) -> (r: Result<BaseRecords, DbError>)
        ensures
            match (
                wire::base::spec_decode_elements(elements@, element_labels@),
                wire::base::spec_decode_relations(relations@, relation_labels@),
                wire::base::spec_decode_properties(properties@, text@),
            ) {
                (Err(e), _, _) => r == Err::<BaseRecords, DbError>(e),
                (Ok(_), Err(e), _) => r == Err::<BaseRecords, DbError>(e),
                (Ok(_), Ok(_), Err(e)) => r == Err::<BaseRecords, DbError>(e),
                (Ok(es), Ok(rs), Ok(ps)) => r matches Ok(b) && b.elements_v() == es && b.relations_v() == rs
                    && b.incidences_v() == wire::base::spec_decode_incidences(incidences@) && b.props() == ps,
            },
    {
        let elements = wire::base::decode_elements(elements, element_labels)?;
        let relations = wire::base::decode_relations(relations, relation_labels)?;
        let incidences = wire::base::decode_incidences(incidences);
        let properties = wire::base::decode_properties(properties, text)?;
        Ok(BaseRecords { elements, relations, incidences, properties })
    }

    /// Returns the base element `id`.
    pub fn element(&self, id: ElementId) -> (r: Option<&ElementRecord>)
        ensures
            match r {
                Some(rec) => self.elements_v().contains_key(id.0) && self.elements_v()[id.0] == rec@,
                None => !self.elements_v().contains_key(id.0),
            },
    {
        self.elements.get(&id.get())
    }

    /// Returns the base relation `id`.
    pub fn relation(&self, id: RelationId) -> (r: Option<&RelationRecord>)
        ensures
            match r {
                Some(rec) => self.relations_v().contains_key(id.0) && self.relations_v()[id.0] == rec@,
                None => !self.relations_v().contains_key(id.0),
            },
    {
        self.relations.get(&id.get())
    }

    /// Returns the base incidence `id`.
    pub fn incidence(&self, id: IncidenceId) -> (r: Option<&IncidenceRecord>)
        ensures
            match r {
                Some(rec) => self.incidences_v().contains_key(id.0) && self.incidences_v()[id.0] == *rec,
                None => !self.incidences_v().contains_key(id.0),
            },
    {
        self.incidences.get(&id.get())
    }

    /// Returns the base value of `(subject, key)`.
    pub fn property(&self, subject: PropertySubject, key: u64) -> (r: Option<&PropertyValue>)
        ensures
            match r {
                Some(v) => self.props().contains_key((subject_key(subject), key))
                    && self.props()[(subject_key(subject), key)] == v@,
                None => !self.props().contains_key((subject_key(subject), key)),
            },
    {
        match self.properties.get(&crate::state::subject_key_of(subject)) {
            Some(values) => values.get(&key),
            None => None,
        }
    }

    /// The base property keys of `subject`, once each.
    pub fn property_keys(&self, subject: PropertySubject) -> (keys: Vec<u64>)
        ensures
            keys@.to_set() == self.subject_keys(subject_key(subject)),
            keys@.no_duplicates(),
    {
        match self.properties.get(&crate::state::subject_key_of(subject)) {
            Some(values) => crate::state::map_keys(values),
            None => {
                let v: Vec<u64> = Vec::new();
                proof {
                    assert(v@.to_set() =~= Set::<u64>::empty());
                }
                v
            },
        }
    }

    /// Whether `key` is a base property of subject key `s`.
    pub proof fn lemma_subject_keys(&self, s: (u32, u64), key: u64)
        ensures
            self.subject_keys(s).contains(key) <==> self.props().contains_key((s, key)),
    {
    }
}

/// An element view with one more label.
pub open spec fn with_element_label(v: ElementView, label: u64) -> ElementView {
    ElementView { id: v.id, labels: v.labels.insert(label) }
}

/// A relation view with one more label.
pub open spec fn with_relation_label(v: RelationView, label: u64) -> RelationView {
    RelationView { labels: v.labels.insert(label), ..v }
}

/// A relation view with its type set.
pub open spec fn with_relation_type(v: RelationView, t: u64) -> RelationView {
    RelationView { relation_type: Some(t), ..v }
}

/// Applies `f` to the visible record `id`: an overlay record is updated in
/// place, a base-only record is copied into the overlay first, and a
/// tombstoned or absent record is left alone.
pub open spec fn touch_record<V>(d: Map<u64, Option<V>>, base: Map<u64, V>, id: u64, f: spec_fn(V) -> V) -> Map<
    u64,
    Option<V>,
> {
    if d.contains_key(id) {
        match d[id] {
            Some(v) => d.insert(id, Some(f(v))),
            None => d,
        }
    } else if base.contains_key(id) {
        d.insert(id, Some(f(base[id])))
    } else {
        d
    }
}

/// The element delta after adding `label` to the visible element `e`.
pub open spec fn element_label_added(
    d: Map<u64, Option<ElementView>>,
    base: Map<u64, ElementView>,
    e: u64,
    label: u64,
) -> Map<u64, Option<ElementView>> {
    touch_record(d, base, e, |v: ElementView| with_element_label(v, label))
}

/// The relation delta after adding `label` to the visible relation `r`.
pub open spec fn relation_label_added(
    d: Map<u64, Option<RelationView>>,
    base: Map<u64, RelationView>,
    r: u64,
    label: u64,
) -> Map<u64, Option<RelationView>> {
    touch_record(d, base, r, |v: RelationView| with_relation_label(v, label))
}

/// The relation delta after setting the type of the visible relation `r`.
pub open spec fn relation_type_set(
    d: Map<u64, Option<RelationView>>,
    base: Map<u64, RelationView>,
    r: u64,
    t: u64,
) -> Map<u64, Option<RelationView>> {
    touch_record(d, base, r, |v: RelationView| with_relation_type(v, t))
}

/// The property delta after tombstoning subject key `s` whose base keys are
/// `base_keys`: the subject's own delta entries are dropped and every base
/// property of the subject is masked.
pub open spec fn props_tombstoned(
    d: Map<((u32, u64), u64), Option<ValueView>>,
    s: (u32, u64),
    base_keys: Set<u64>,
) -> Map<((u32, u64), u64), Option<ValueView>> {
    Map::new(
        |p: ((u32, u64), u64)| (d.contains_key(p) && p.0 != s) || (p.0 == s && base_keys.contains(p.1)),
        |p: ((u32, u64), u64)| if p.0 == s {
            None
        } else {
            d[p]
        },
    )
}

/// The payload scalar of a property value: a boolean as `0`/`1`, an integer
/// as its two's-complement bits, and `0` for text.
pub open spec fn value_scalar(v: ValueView) -> u64 {
    match v {
        ValueView::Boolean(b) => if b {
            1
        } else {
            0
        },
        ValueView::Integer(i) => i as u64,
        ValueView::Text(_) => 0,
    }
}

/// The bytes a property value interns into the log blob: the UTF-8 of text,
/// nothing otherwise.
pub open spec fn value_blob(v: ValueView) -> Seq<u8> {
    match v {
        ValueView::Text(t) => vstd::utf8::encode_utf8(t),
        _ => Seq::empty(),
    }
}

/// The payload words of a logged property set, given the blob length before
/// the text was interned.
pub open spec fn set_property_words(subject: PropertySubject, key: u64, v: ValueView, blob_len: nat) -> Seq<u64> {
    match v {
        ValueView::Text(t) => seq![
            subject_key(subject).1,
            key,
            0,
            blob_len as u64,
            vstd::utf8::encode_utf8(t).len() as u64,
        ],
        _ => seq![subject_key(subject).1, key, value_scalar(v), 0, 0],
    }
}

/// The flags of a logged property set.
pub open spec fn set_property_flags(subject: PropertySubject, v: ValueView) -> u32 {
    wire::spec_pack_flags(subject_key(subject).0, wire::spec_type_tag(value_type_of(v)))
}

/// The family a stored tag names.
pub open spec fn tag_family(tag: u32) -> Option<PropertyFamily> {
    if tag == 0 {
        Some(PropertyFamily::Element)
    } else if tag == 1 {
        Some(PropertyFamily::Relation)
    } else if tag == 2 {
        Some(PropertyFamily::Incidence)
    } else {
        None
    }
}

/// The value type a stored tag names.
pub open spec fn tag_type(tag: u32) -> Option<PropertyType> {
    if tag == 0 {
        Some(PropertyType::Boolean)
    } else if tag == 1 {
        Some(PropertyType::Integer)
    } else if tag == 2 {
        Some(PropertyType::Text)
    } else {
        None
    }
}

/// The text a blob run holds, if it is in bounds and valid UTF-8.
pub open spec fn blob_text(blob: Seq<u8>, offset: u64, len: u64) -> Option<Seq<char>> {
    if crate::overlay::log::run_in(blob, offset, len) && vstd::utf8::valid_utf8(
        crate::overlay::log::run_of(blob, offset, len),
    ) {
        Some(vstd::utf8::decode_utf8(crate::overlay::log::run_of(blob, offset, len)))
    } else {
        None
    }
}

/// The value a replayed property-set op carries: from its value tag, its
/// scalar word, and (for text) its blob run.
pub open spec fn replayed_value(tag: u32, payload: Seq<u64>, blob: Seq<u8>) -> Option<ValueView> {
    match tag_type(tag) {
        Some(PropertyType::Boolean) => Some(ValueView::Boolean(payload[2] != 0)),
        Some(PropertyType::Integer) => Some(ValueView::Integer(payload[2] as i64)),
        Some(PropertyType::Text) => match blob_text(blob, payload[3], payload[4]) {
            Some(t) => Some(ValueView::Text(t)),
            None => None,
        },
        None => None,
    }
}

/// Whether a topology op kind names a create, tombstone, label, or type op.
pub open spec fn is_topology_kind(kind: u32) -> bool {
    1 <= kind <= 9
}

/// Whether a catalog op kind names a registration.
pub open spec fn is_catalog_kind(kind: u32) -> bool {
    12 <= kind <= 17
}

/// The element, relation, incidence, and property deltas after replaying
/// topology op `kind` with payload `w` against `base`, as
/// `(elements, relations, incidences, properties)`.
pub open spec fn topology_effect(
    elements: Map<u64, Option<ElementView>>,
    relations: Map<u64, Option<RelationView>>,
    incidences: Map<u64, Option<IncidenceRecord>>,
    props: Map<((u32, u64), u64), Option<ValueView>>,
    base: BaseRecords,
    kind: u32,
    w: Seq<u64>,
) -> (
    Map<u64, Option<ElementView>>,
    Map<u64, Option<RelationView>>,
    Map<u64, Option<IncidenceRecord>>,
    Map<((u32, u64), u64), Option<ValueView>>,
) {
    if kind == wire::OP_CREATE_ELEMENT {
        (elements.insert(w[0], Some(ElementView { id: w[0], labels: Set::empty() })), relations, incidences, props)
    } else if kind == wire::OP_CREATE_RELATION {
        (
            elements,
            relations.insert(w[0], Some(RelationView { id: w[0], relation_type: None, labels: Set::empty() })),
            incidences,
            props,
        )
    } else if kind == wire::OP_CREATE_INCIDENCE {
        (
            elements,
            relations,
            incidences.insert(
                w[0],
                Some(
                    IncidenceRecord {
                        id: IncidenceId(w[0]),
                        relation: RelationId(w[1]),
                        element: ElementId(w[2]),
                        role: RoleId(w[3]),
                    },
                ),
            ),
            props,
        )
    } else if kind == wire::OP_TOMBSTONE_ELEMENT {
        (
            elements.insert(w[0], None),
            relations,
            incidences,
            props_tombstoned(props, (0u32, w[0]), base.subject_keys((0u32, w[0]))),
        )
    } else if kind == wire::OP_TOMBSTONE_RELATION {
        (
            elements,
            relations.insert(w[0], None),
            incidences,
            props_tombstoned(props, (1u32, w[0]), base.subject_keys((1u32, w[0]))),
        )
    } else if kind == wire::OP_TOMBSTONE_INCIDENCE {
        (
            elements,
            relations,
            incidences.insert(w[0], None),
            props_tombstoned(props, (2u32, w[0]), base.subject_keys((2u32, w[0]))),
        )
    } else if kind == wire::OP_ADD_ELEMENT_LABEL {
        (element_label_added(elements, base.elements_v(), w[0], w[1]), relations, incidences, props)
    } else if kind == wire::OP_ADD_RELATION_LABEL {
        (elements, relation_label_added(relations, base.relations_v(), w[0], w[1]), incidences, props)
    } else {
        (elements, relation_type_set(relations, base.relations_v(), w[0], w[1]), incidences, props)
    }
}

/// The subject a property op names through its flags' low tag and its first
/// payload word.
pub open spec fn spec_decode_subject_of(op: MutationOp) -> Option<PropertySubject> {
    wire::spec_decode_subject(op.flags & 0xFFFF, op.payload@[0])
}

/// The catalog view after replaying registration op `kind` (flags `flags`,
/// payload `w`) whose name decodes to `name`, or `None` when the op is
/// refused: a malformed tag or definition body, or a taken name or id.
pub open spec fn catalog_replayed(
    c: crate::catalog::CatalogView,
    kind: u32,
    flags: u32,
    w: Seq<u64>,
    name: Seq<char>,
    blob: Seq<u8>,
) -> Option<crate::catalog::CatalogView> {
    let id = w[0];
    if kind == wire::OP_CATALOG_REGISTER_ROLE {
        if crate::catalog::view_has_name(c.roles, name) || crate::catalog::view_has_id(c.roles, id) {
            None
        } else {
            Some(crate::catalog::CatalogView { roles: c.roles.push((id, name)), ..c })
        }
    } else if kind == wire::OP_CATALOG_REGISTER_LABEL {
        if crate::catalog::view_has_name(c.labels, name) || crate::catalog::view_has_id(c.labels, id) {
            None
        } else {
            Some(crate::catalog::CatalogView { labels: c.labels.push((id, name)), ..c })
        }
    } else if kind == wire::OP_CATALOG_REGISTER_RELATION_TYPE {
        if crate::catalog::view_has_name(c.relation_types, name) || crate::catalog::view_has_id(c.relation_types, id) {
            None
        } else {
            Some(crate::catalog::CatalogView { relation_types: c.relation_types.push((id, name)), ..c })
        }
    } else if kind == wire::OP_CATALOG_REGISTER_PROPERTY_KEY {
        match (tag_family(flags & 0xFFFF), tag_type(flags >> 16)) {
            (Some(family), Some(value_type)) => if (exists|i: int|
                0 <= i < c.property_keys.len() && c.property_keys[i].1 == name) || (exists|i: int|
                0 <= i < c.property_keys.len() && c.property_keys[i].0 == id) {
                None
            } else {
                Some(
                    crate::catalog::CatalogView {
                        property_keys: c.property_keys.push((id, name, family, value_type)),
                        ..c
                    },
                )
            },
            _ => None,
        }
    } else if kind == wire::OP_CATALOG_REGISTER_PROJECTION {
        if !crate::overlay::log::run_in(blob, w[3], w[4]) || w[4] % 8 != 0 {
            None
        } else {
            match crate::wire::defs::spec_decode_projection(
                flags,
                name,
                crate::overlay::log::bytes_words(crate::overlay::log::run_of(blob, w[3], w[4])),
            ) {
                Ok(d) => if exists|i: int|
                    0 <= i < c.projections.len() && (crate::catalog::view_projection_name(c.projections[i].1)
                        == name || c.projections[i].0 == id) {
                    None
                } else {
                    Some(crate::catalog::CatalogView { projections: c.projections.push((id, d)), ..c })
                },
                Err(_) => None,
            }
        }
    } else {
        if !crate::overlay::log::run_in(blob, w[3], w[4]) || w[4] % 8 != 0 {
            None
        } else {
            match crate::wire::defs::spec_decode_index(
                flags,
                crate::overlay::log::bytes_words(crate::overlay::log::run_of(blob, w[3], w[4])),
            ) {
                Ok(d) => if exists|i: int|
                    0 <= i < c.indexes.len() && (c.indexes[i].1 == name || c.indexes[i].0 == id) {
                    None
                } else {
                    Some(crate::catalog::CatalogView { indexes: c.indexes.push((id, name, d)), ..c })
                },
                Err(_) => None,
            }
        }
    }
}

/// Whether `e` is the error that replaying registration op `kind` (flags
/// `flags`, payload `w`) whose name decodes to `name` reports at `lsn` when
/// the catalog `c` refuses it: a malformed tag, definition run, or
/// definition body is `LogCorrupt` with its reason; a taken name or id is
/// the catalog's duplicate error.
pub open spec fn catalog_refusal(
    c: crate::catalog::CatalogView,
    kind: u32,
    flags: u32,
    w: Seq<u64>,
    name: Seq<char>,
    blob: Seq<u8>,
    lsn: u64,
    e: DbError,
) -> bool {
    let id = w[0];
    if kind == wire::OP_CATALOG_REGISTER_ROLE {
        crate::catalog::named_refusal(c.roles, id, name, e)
    } else if kind == wire::OP_CATALOG_REGISTER_LABEL {
        crate::catalog::named_refusal(c.labels, id, name, e)
    } else if kind == wire::OP_CATALOG_REGISTER_RELATION_TYPE {
        crate::catalog::named_refusal(c.relation_types, id, name, e)
    } else if kind == wire::OP_CATALOG_REGISTER_PROPERTY_KEY {
        match tag_family(flags & 0xFFFF) {
            None => e == DbError::LogCorrupt { lsn, reason: "property-key family tag" },
            Some(_) => match tag_type(flags >> 16) {
                None => e == DbError::LogCorrupt { lsn, reason: "property-key value tag" },
                Some(_) => crate::catalog::scan_refusal(crate::catalog::key_pairs(c.property_keys), id, name, e),
            },
        }
    } else if !crate::overlay::log::run_in(blob, w[3], w[4]) || w[4] % 8 != 0 {
        e == crate::overlay::log::def_words_error(blob, w[3], w[4], lsn)
    } else if kind == wire::OP_CATALOG_REGISTER_PROJECTION {
        match crate::wire::defs::spec_decode_projection(
            flags,
            name,
            crate::overlay::log::bytes_words(crate::overlay::log::run_of(blob, w[3], w[4])),
        ) {
            Err(reason) => e == DbError::LogCorrupt { lsn, reason },
            Ok(_) => crate::catalog::scan_refusal(crate::catalog::projection_pairs(c.projections), id, name, e),
        }
    } else {
        match crate::wire::defs::spec_decode_index(
            flags,
            crate::overlay::log::bytes_words(crate::overlay::log::run_of(blob, w[3], w[4])),
        ) {
            Err(reason) => e == DbError::LogCorrupt { lsn, reason },
            Ok(_) => crate::catalog::scan_refusal(crate::catalog::index_pairs(c.indexes), id, name, e),
        }
    }
}

/// Whether `e` is the error that replaying `op` (with frame blob `blob`) at
/// `lsn` over catalog `c` reports: the reason the original writer gives for
/// a malformed subject, tag, or blob run, the catalog's refusal of a
/// registration, or an unknown op kind.
pub open spec fn replay_refusal(c: crate::catalog::CatalogView, op: MutationOp, blob: Seq<u8>, lsn: u64, e: DbError) -> bool {
    let kind = op.op_kind;
    let w = op.payload@;
    if is_topology_kind(kind) || kind == wire::OP_NEXT_ID_WATERMARK {
        false
    } else if kind == wire::OP_SET_PROPERTY {
        match spec_decode_subject_of(op) {
            None => e == DbError::LogCorrupt { lsn, reason: "set-property subject kind" },
            Some(_) => match tag_type(op.flags >> 16) {
                None => e == DbError::LogCorrupt { lsn, reason: "set-property value tag" },
                Some(_) => e == crate::overlay::log::blob_text_error(blob, w[3], w[4], lsn),
            },
        }
    } else if kind == wire::OP_REMOVE_PROPERTY {
        e == DbError::LogCorrupt { lsn, reason: "remove-property subject kind" }
    } else if is_catalog_kind(kind) {
        match blob_text(blob, w[1], w[2]) {
            None => e == crate::overlay::log::blob_text_error(blob, w[1], w[2], lsn),
            Some(name) => catalog_refusal(c, kind, op.flags, w, name, blob, lsn, e),
        }
    } else {
        e == DbError::LogCorrupt { lsn, reason: "unknown mutation op kind" }
    }
}

/// The watermark a watermark op's nine payload words spell.
pub open spec fn watermark_of(w: Seq<u64>) -> NextIds {
    NextIds {
        element: ElementId(w[0]),
        relation: RelationId(w[1]),
        incidence: IncidenceId(w[2]),
        role: RoleId(w[3]),
        label: LabelId(w[4]),
        relation_type: RelationTypeId(w[5]),
        property_key: PropertyKeyId(w[6]),
        projection: ProjectionId(w[7]),
        index: IndexId(w[8]),
    }
}

/// The per-family delta maps a writer accumulates and an overlay publishes:
/// `Some(record)` adds or overrides a record, `None` is a tombstone.
#[derive(Clone, Debug)]
pub struct DeltaMaps {
    /// Element delta.
    elements: BTreeMap<u64, Option<ElementRecord>>,
    /// Relation delta.
    relations: BTreeMap<u64, Option<RelationRecord>>,
    /// Incidence delta.
    incidences: BTreeMap<u64, Option<IncidenceRecord>>,
    /// Property delta: subject key, then raw key, to a set value or a removal.
    properties: BTreeMap<(u32, u64), BTreeMap<u64, Option<PropertyValue>>>,
}

impl DeltaMaps {
    /// Element entries.
    pub closed spec fn elements_d(&self) -> Map<u64, Option<ElementView>> {
        element_delta_views(self.elements@)
    }

    /// Relation entries.
    pub closed spec fn relations_d(&self) -> Map<u64, Option<RelationView>> {
        relation_delta_views(self.relations@)
    }

    /// Incidence entries.
    pub closed spec fn incidences_d(&self) -> Map<u64, Option<IncidenceRecord>> {
        self.incidences@
    }

    /// Property entries keyed by `(subject key, raw key)`.
    pub closed spec fn props_d(&self) -> Map<((u32, u64), u64), Option<ValueView>> {
        flatten_delta(self.properties@)
    }

    /// No entries.
    pub fn new() -> (d: Self)
        ensures
            d.elements_d() == Map::<u64, Option<ElementView>>::empty(),
            d.relations_d() == Map::<u64, Option<RelationView>>::empty(),
            d.incidences_d() == Map::<u64, Option<IncidenceRecord>>::empty(),
            d.props_d() == Map::<((u32, u64), u64), Option<ValueView>>::empty(),
    {
        let d = DeltaMaps {
            elements: BTreeMap::new(),
            relations: BTreeMap::new(),
            incidences: BTreeMap::new(),
            properties: BTreeMap::new(),
        };
        proof {
            assert(d.elements_d() =~= Map::<u64, Option<ElementView>>::empty());
            assert(d.relations_d() =~= Map::<u64, Option<RelationView>>::empty());
            assert(d.props_d() =~= Map::<((u32, u64), u64), Option<ValueView>>::empty());
        }
        d
    }

    /// A copy with the same entries.
    pub fn copy(&self) -> (d: Self)
        ensures
            d.elements_d() == self.elements_d(),
            d.relations_d() == self.relations_d(),
            d.incidences_d() == self.incidences_d(),
            d.props_d() == self.props_d(),
    {
        DeltaMaps {
            elements: self.elements.clone(),
            relations: self.relations.clone(),
            incidences: self.incidences.clone(),
            properties: self.properties.clone(),
        }
    }

    /// Records an element entry.
    fn put_element(&mut self, id: u64, entry: Option<ElementRecord>)
        ensures
            final(self).elements_d() == old(self).elements_d().insert(
                id,
                match entry {
                    Some(r) => Some(r@),
                    None => None,
                },
            ),
            final(self).relations_d() == old(self).relations_d(),
            final(self).incidences_d() == old(self).incidences_d(),
            final(self).props_d() == old(self).props_d(),
    {
        self.elements.insert(id, entry);
        proof {
            assert(self.elements_d() =~= old(self).elements_d().insert(
                id,
                match entry {
                    Some(r) => Some(r@),
                    None => None,
                },
            ));
        }
    }

    /// Records a relation entry.
    fn put_relation(&mut self, id: u64, entry: Option<RelationRecord>)
        ensures
            final(self).relations_d() == old(self).relations_d().insert(
                id,
                match entry {
                    Some(r) => Some(r@),
                    None => None,
                },
            ),
            final(self).elements_d() == old(self).elements_d(),
            final(self).incidences_d() == old(self).incidences_d(),
            final(self).props_d() == old(self).props_d(),
    {
        self.relations.insert(id, entry);
        proof {
            assert(self.relations_d() =~= old(self).relations_d().insert(
                id,
                match entry {
                    Some(r) => Some(r@),
                    None => None,
                },
            ));
        }
    }

    /// Records an incidence entry.
    fn put_incidence(&mut self, id: u64, entry: Option<IncidenceRecord>)
        ensures
            final(self).incidences_d() == old(self).incidences_d().insert(id, entry),
            final(self).elements_d() == old(self).elements_d(),
            final(self).relations_d() == old(self).relations_d(),
            final(self).props_d() == old(self).props_d(),
    {
        self.incidences.insert(id, entry);
    }

    /// Records a property entry.
    fn put_property(&mut self, s: (u32, u64), key: u64, entry: Option<PropertyValue>)
        ensures
            final(self).props_d() == old(self).props_d().insert(
                (s, key),
                match entry {
                    Some(v) => Some(v@),
                    None => None,
                },
            ),
            final(self).elements_d() == old(self).elements_d(),
            final(self).relations_d() == old(self).relations_d(),
            final(self).incidences_d() == old(self).incidences_d(),
    {
        let ghost view = match &entry {
            Some(v) => Some(v@),
            None => None,
        };
        let mut inner = match self.properties.remove(&s) {
            Some(m) => m,
            None => BTreeMap::new(),
        };
        inner.insert(key, entry);
        self.properties.insert(s, inner);
        proof {
            assert(self.props_d() =~= old(self).props_d().insert((s, key), view));
        }
    }

    /// Masks every property of subject key `s`: drops the subject's delta
    /// entries, then masks each of its base properties.
    fn tombstone_properties(&mut self, base: &BaseRecords, subject: PropertySubject)
        ensures
            final(self).props_d() == props_tombstoned(
                old(self).props_d(),
                subject_key(subject),
                base.subject_keys(subject_key(subject)),
            ),
            final(self).elements_d() == old(self).elements_d(),
            final(self).relations_d() == old(self).relations_d(),
            final(self).incidences_d() == old(self).incidences_d(),
    {
        let s = crate::state::subject_key_of(subject);
        self.properties.remove(&s);
        let keys = base.property_keys(subject);
        if keys.len() > 0 {
            let mut inner: BTreeMap<u64, Option<PropertyValue>> = BTreeMap::new();
            let mut i: usize = 0;
            while i < keys.len()
                invariant
                    i <= keys@.len(),
                    keys@.no_duplicates(),
                    inner@ == Map::new(|k: u64| keys@.take(i as int).contains(k), |k: u64| None::<PropertyValue>),
                decreases keys@.len() - i,
            {
                inner.insert(keys[i], None);
                proof {
                    crate::state::lemma_prefix_step(keys@, i as int);
                    assert(keys@.take(i + 1) =~= keys@.subrange(0, i + 1));
                    assert(keys@.take(i as int) =~= keys@.subrange(0, i as int));
                    assert(inner@ =~= Map::new(
                        |k: u64| keys@.take(i + 1).contains(k),
                        |k: u64| None::<PropertyValue>,
                    ));
                }
                i = i + 1;
            }
            proof {
                assert(keys@.take(i as int) =~= keys@);
            }
            self.properties.insert(s, inner);
        }
        proof {
            assert(self.props_d() =~= props_tombstoned(
                old(self).props_d(),
                subject_key(subject),
                base.subject_keys(subject_key(subject)),
            ));
        }
    }

    /// Applies a newer delta on top: each newer entry (set or tombstone)
    /// replaces the entry for its key.
    fn apply(&mut self, newer: &DeltaMaps)
        ensures
            final(self).elements_d() == stack_deltas(old(self).elements_d(), newer.elements_d()),
            final(self).relations_d() == stack_deltas(old(self).relations_d(), newer.relations_d()),
            final(self).incidences_d() == stack_deltas(old(self).incidences_d(), newer.incidences_d()),
            final(self).props_d() == stack_deltas(old(self).props_d(), newer.props_d()),
    {
        let keys = crate::state::map_keys(&newer.elements);
        let mut i: usize = 0;
        while i < keys.len()
            invariant
                i <= keys@.len(),
                keys@.to_set() == newer.elements@.dom(),
                keys@.no_duplicates(),
                self.elements_d() == stack_deltas(
                    old(self).elements_d(),
                    newer.elements_d().restrict(keys@.take(i as int).to_set()),
                ),
                self.relations_d() == old(self).relations_d(),
                self.incidences_d() == old(self).incidences_d(),
                self.props_d() == old(self).props_d(),
            decreases keys@.len() - i,
        {
            let k = keys[i];
            proof {
                assert(keys@.to_set().contains(k));
            }
            let entry = match newer.elements.get(&k) {
                Some(Some(r)) => Some(copy_element(r)),
                _ => None,
            };
            self.put_element(k, entry);
            proof {
                assert(keys@.take(i + 1).to_set() =~= keys@.take(i as int).to_set().insert(k)) by {
                    crate::state::lemma_prefix_step(keys@, i as int);
                    assert(keys@.take(i + 1) =~= keys@.subrange(0, i + 1));
                    assert(keys@.take(i as int) =~= keys@.subrange(0, i as int));
                }
                assert(self.elements_d() =~= stack_deltas(
                    old(self).elements_d(),
                    newer.elements_d().restrict(keys@.take(i + 1).to_set()),
                ));
            }
            i = i + 1;
        }
        proof {
            assert(keys@.take(i as int) =~= keys@);
            assert(newer.elements_d().restrict(keys@.to_set()) =~= newer.elements_d());
        }
        let keys = crate::state::map_keys(&newer.relations);
        let mut i: usize = 0;
        while i < keys.len()
            invariant
                i <= keys@.len(),
                keys@.to_set() == newer.relations@.dom(),
                keys@.no_duplicates(),
                self.relations_d() == stack_deltas(
                    old(self).relations_d(),
                    newer.relations_d().restrict(keys@.take(i as int).to_set()),
                ),
                self.elements_d() == stack_deltas(old(self).elements_d(), newer.elements_d()),
                self.incidences_d() == old(self).incidences_d(),
                self.props_d() == old(self).props_d(),
            decreases keys@.len() - i,
        {
            let k = keys[i];
            proof {
                assert(keys@.to_set().contains(k));
            }
            let entry = match newer.relations.get(&k) {
                Some(Some(r)) => Some(copy_relation(r)),
                _ => None,
            };
            self.put_relation(k, entry);
            proof {
                assert(keys@.take(i + 1).to_set() =~= keys@.take(i as int).to_set().insert(k)) by {
                    crate::state::lemma_prefix_step(keys@, i as int);
                    assert(keys@.take(i + 1) =~= keys@.subrange(0, i + 1));
                    assert(keys@.take(i as int) =~= keys@.subrange(0, i as int));
                }
                assert(self.relations_d() =~= stack_deltas(
                    old(self).relations_d(),
                    newer.relations_d().restrict(keys@.take(i + 1).to_set()),
                ));
            }
            i = i + 1;
        }
        proof {
            assert(keys@.take(i as int) =~= keys@);
            assert(newer.relations_d().restrict(keys@.to_set()) =~= newer.relations_d());
        }
        let keys = crate::state::map_keys(&newer.incidences);
        let mut i: usize = 0;
        while i < keys.len()
            invariant
                i <= keys@.len(),
                keys@.to_set() == newer.incidences@.dom(),
                keys@.no_duplicates(),
                self.incidences_d() == stack_deltas(
                    old(self).incidences_d(),
                    newer.incidences_d().restrict(keys@.take(i as int).to_set()),
                ),
                self.elements_d() == stack_deltas(old(self).elements_d(), newer.elements_d()),
                self.relations_d() == stack_deltas(old(self).relations_d(), newer.relations_d()),
                self.props_d() == old(self).props_d(),
            decreases keys@.len() - i,
        {
            let k = keys[i];
            proof {
                assert(keys@.to_set().contains(k));
            }
            let entry = match newer.incidences.get(&k) {
                Some(e) => *e,
                None => None,
            };
            self.put_incidence(k, entry);
            proof {
                assert(keys@.take(i + 1).to_set() =~= keys@.take(i as int).to_set().insert(k)) by {
                    crate::state::lemma_prefix_step(keys@, i as int);
                    assert(keys@.take(i + 1) =~= keys@.subrange(0, i + 1));
                    assert(keys@.take(i as int) =~= keys@.subrange(0, i as int));
                }
                assert(self.incidences_d() =~= stack_deltas(
                    old(self).incidences_d(),
                    newer.incidences_d().restrict(keys@.take(i + 1).to_set()),
                ));
            }
            i = i + 1;
        }
        proof {
            assert(keys@.take(i as int) =~= keys@);
            assert(newer.incidences_d().restrict(keys@.to_set()) =~= newer.incidences_d());
        }
        let subjects = crate::state::map_keys(&newer.properties);
        let mut i: usize = 0;
        while i < subjects.len()
            invariant
                i <= subjects@.len(),
                subjects@.to_set() == newer.properties@.dom(),
                subjects@.no_duplicates(),
                self.props_d() == stack_deltas(
                    old(self).props_d(),
                    newer.props_d().restrict(
                        Set::new(|p: ((u32, u64), u64)| subjects@.take(i as int).contains(p.0)),
                    ),
                ),
                self.elements_d() == stack_deltas(old(self).elements_d(), newer.elements_d()),
                self.relations_d() == stack_deltas(old(self).relations_d(), newer.relations_d()),
                self.incidences_d() == stack_deltas(old(self).incidences_d(), newer.incidences_d()),
            decreases subjects@.len() - i,
        {
            let sk = subjects[i];
            proof {
                assert(subjects@.to_set().contains(sk));
            }
            let inner = match newer.properties.get(&sk) {
                Some(m) => m,
                None => {
                    proof {
                        assert(false);
                    }
                    return;
                },
            };
            let keys = crate::state::map_keys(inner);
            let ghost mid = self.props_d();
            let mut j: usize = 0;
            while j < keys.len()
                invariant
                    j <= keys@.len(),
                    keys@.to_set() == inner@.dom(),
                    keys@.no_duplicates(),
                    newer.properties@.contains_key(sk),
                    newer.properties@[sk] == *inner,
                    self.props_d() == stack_deltas(
                        mid,
                        newer.props_d().restrict(
                            Set::new(|p: ((u32, u64), u64)| p.0 == sk && keys@.take(j as int).contains(p.1)),
                        ),
                    ),
                    self.elements_d() == stack_deltas(old(self).elements_d(), newer.elements_d()),
                    self.relations_d() == stack_deltas(old(self).relations_d(), newer.relations_d()),
                    self.incidences_d() == stack_deltas(old(self).incidences_d(), newer.incidences_d()),
                decreases keys@.len() - j,
            {
                let k = keys[j];
                proof {
                    assert(keys@.to_set().contains(k));
                }
                let entry = match inner.get(&k) {
                    Some(Some(v)) => Some(copy_value(v)),
                    _ => None,
                };
                self.put_property(sk, k, entry);
                proof {
                    crate::state::lemma_prefix_step(keys@, j as int);
                    assert(keys@.take(j + 1) =~= keys@.subrange(0, j + 1));
                    assert(keys@.take(j as int) =~= keys@.subrange(0, j as int));
                    assert(newer.props_d().contains_key((sk, k)));
                    assert(self.props_d() =~= stack_deltas(
                        mid,
                        newer.props_d().restrict(
                            Set::new(|p: ((u32, u64), u64)| p.0 == sk && keys@.take(j + 1).contains(p.1)),
                        ),
                    ));
                }
                j = j + 1;
            }
            proof {
                assert(keys@.take(j as int) =~= keys@);
                crate::state::lemma_prefix_step(subjects@, i as int);
                assert(subjects@.take(i + 1) =~= subjects@.subrange(0, i + 1));
                assert(subjects@.take(i as int) =~= subjects@.subrange(0, i as int));
                assert forall|p: ((u32, u64), u64)| p.0 == sk && newer.props_d().contains_key(p) implies keys@.contains(p.1) by {
                    assert(inner@.dom().contains(p.1));
                    assert(keys@.to_set().contains(p.1));
                }
                assert(self.props_d() =~= stack_deltas(
                    old(self).props_d(),
                    newer.props_d().restrict(
                        Set::new(|p: ((u32, u64), u64)| subjects@.take(i + 1).contains(p.0)),
                    ),
                ));
            }
            i = i + 1;
        }
        proof {
            assert(subjects@.take(i as int) =~= subjects@);
            assert(newer.props_d().restrict(Set::new(|p: ((u32, u64), u64)| subjects@.contains(p.0)))
                =~= newer.props_d()) by {
                assert forall|p: ((u32, u64), u64)| newer.props_d().contains_key(p) implies subjects@.contains(p.0) by {
                    assert(subjects@.to_set().contains(p.0));
                }
            }
        }
    }
}

/// Whether replaying `op` (with frame blob `blob`) against `base` turned
/// writer `old` into `new` with result `r`: a topology op applies its effect
/// with the explicit ids of its payload; a property op sets or removes the
/// value it carries; a registration inserts into the catalog; the watermark
/// op sets the allocators; a malformed or unknown op is `LogCorrupt`. The
/// log itself is untouched.
pub open spec fn replayed(
    old: WriteOverlay,
    new: WriteOverlay,
    base: BaseRecords,
    op: MutationOp,
    blob: Seq<u8>,
    r: Result<(), DbError>,
) -> bool {
    let kind = op.op_kind;
    let w = op.payload@;
    &&& new.log_ops() == old.log_ops()
    &&& new.log_blob() == old.log_blob()
    &&& if is_topology_kind(kind) {
        &&& r is Ok
        &&& (new.elements_d(), new.relations_d(), new.incidences_d(), new.props_d()) == topology_effect(
            old.elements_d(),
            old.relations_d(),
            old.incidences_d(),
            old.props_d(),
            base,
            kind,
            w,
        )
        &&& new.catalog_v() == old.catalog_v()
        &&& new.next_v() == old.next_v()
    } else if kind == wire::OP_SET_PROPERTY || kind == wire::OP_REMOVE_PROPERTY {
        &&& new.elements_d() == old.elements_d()
        &&& new.relations_d() == old.relations_d()
        &&& new.incidences_d() == old.incidences_d()
        &&& new.catalog_v() == old.catalog_v()
        &&& new.next_v() == old.next_v()
        &&& match spec_decode_subject_of(op) {
            None => r is Err && r->Err_0 is LogCorrupt && new.props_d() == old.props_d(),
            Some(subject) => if kind == wire::OP_REMOVE_PROPERTY {
                r is Ok && new.props_d() == old.props_d().insert((subject_key(subject), w[1]), None)
            } else {
                match replayed_value(op.flags >> 16, w, blob) {
                    None => r is Err && r->Err_0 is LogCorrupt && new.props_d() == old.props_d(),
                    Some(v) => r is Ok && new.props_d() == old.props_d().insert((subject_key(subject), w[1]), Some(v)),
                }
            },
        }
    } else if is_catalog_kind(kind) {
        &&& new.same_delta(&old)
        &&& new.next_v() == old.next_v()
        &&& match blob_text(blob, w[1], w[2]) {
            None => r is Err && r->Err_0 is LogCorrupt && new.catalog_v()@ == old.catalog_v()@,
            Some(name) => match catalog_replayed(old.catalog_v()@, kind, op.flags, w, name, blob) {
                Some(c) => r is Ok && new.catalog_v()@ == c,
                None => r is Err && new.catalog_v()@ == old.catalog_v()@,
            },
        }
    } else if kind == wire::OP_NEXT_ID_WATERMARK {
        &&& r is Ok
        &&& new.same_delta(&old)
        &&& new.catalog_v() == old.catalog_v()
        &&& new.next_v() == watermark_of(w)
    } else {
        &&& r is Err && r->Err_0 is LogCorrupt
        &&& new.same_delta(&old)
        &&& new.catalog_v() == old.catalog_v()
        &&& new.next_v() == old.next_v()
    }
}

/// Whether replaying the last op `new` logged, with `new`'s blob, on any
/// writer that holds `old`'s entries and catalog rebuilds exactly `new`'s
/// entries and catalog: recovery reproduces the mutation.
pub open spec fn replay_reproduces(old: WriteOverlay, new: WriteOverlay, base: BaseRecords) -> bool {
    forall|v0: WriteOverlay, v1: WriteOverlay, r: Result<(), DbError>|
        #![trigger replayed(v0, v1, base, new.log_ops().last(), new.log_blob(), r)]
        v0.same_delta(&old) && v0.catalog_v()@ == old.catalog_v()@ && replayed(
            v0,
            v1,
            base,
            new.log_ops().last(),
            new.log_blob(),
            r,
        ) ==> r is Ok && v1.same_delta(&new) && v1.catalog_v()@ == new.catalog_v()@
}

/// The mutable delta of one in-flight write transaction.
///
/// Every mutator records into the delta maps without touching the base, and
/// logs itself for the WAL. Catalog registrations append to the catalog and
/// advance the matching id allocator, so an issued id is never reissued.
#[derive(Clone, Debug)]
pub struct WriteOverlay {
    /// The accumulated delta.
    delta: DeltaMaps,
    /// The catalog: the parent's plus this writer's registrations.
    catalog: Catalog,
    /// The nine monotonic id allocators after this delta.
    next: NextIds,
    /// Ordered, replayable log of every mutation this writer applied.
    log: MutationLog,
}

impl WriteOverlay {
    /// Element entries.
    pub closed spec fn elements_d(&self) -> Map<u64, Option<ElementView>> {
        self.delta.elements_d()
    }

    /// Relation entries.
    pub closed spec fn relations_d(&self) -> Map<u64, Option<RelationView>> {
        self.delta.relations_d()
    }

    /// Incidence entries.
    pub closed spec fn incidences_d(&self) -> Map<u64, Option<IncidenceRecord>> {
        self.delta.incidences_d()
    }

    /// Property entries.
    pub closed spec fn props_d(&self) -> Map<((u32, u64), u64), Option<ValueView>> {
        self.delta.props_d()
    }

    /// The catalog.
    pub closed spec fn catalog_v(&self) -> Catalog {
        self.catalog
    }

    /// The watermark.
    pub closed spec fn next_v(&self) -> NextIds {
        self.next
    }

    /// The logged ops.
    pub closed spec fn log_ops(&self) -> Seq<MutationOp> {
        self.log.ops_v()
    }

    /// The log's interned bytes.
    pub closed spec fn log_blob(&self) -> Seq<u8> {
        self.log.blob_v()
    }

    /// Whether `self` and `other` hold the same record and property entries.
    pub open spec fn same_delta(&self, other: &WriteOverlay) -> bool {
        &&& self.elements_d() == other.elements_d()
        &&& self.relations_d() == other.relations_d()
        &&& self.incidences_d() == other.incidences_d()
        &&& self.props_d() == other.props_d()
    }

    /// Whether the log grew by exactly one op `o` and its blob is unchanged.
    pub open spec fn logged_one(&self, old: &WriteOverlay, kind: u32, flags: u32, words: Seq<u64>) -> bool {
        &&& self.log_ops().len() == old.log_ops().len() + 1
        &&& self.log_ops().drop_last() == old.log_ops()
        &&& op_with(self.log_ops().last(), kind, flags, words)
        &&& self.log_blob() == old.log_blob()
    }

    /// An empty writer delta whose watermark starts at `next` and whose
    /// catalog starts as `catalog`.
    pub fn new(next: NextIds, catalog: Catalog) -> (w: Self)
        ensures
            w.elements_d() == Map::<u64, Option<ElementView>>::empty(),
            w.relations_d() == Map::<u64, Option<RelationView>>::empty(),
            w.incidences_d() == Map::<u64, Option<IncidenceRecord>>::empty(),
            w.props_d() == Map::<((u32, u64), u64), Option<ValueView>>::empty(),
            w.catalog_v() == catalog,
            w.next_v() == next,
            w.log_ops() == Seq::<MutationOp>::empty(),
            w.log_blob() == Seq::<u8>::empty(),
    {
        WriteOverlay { delta: DeltaMaps::new(), catalog, next, log: MutationLog::new() }
    }

    /// Whether no mutation has been logged.
    pub fn is_empty(&self) -> (b: bool)
        ensures
            b == (self.log_ops().len() == 0),
    {
        self.log.is_empty()
    }

    /// The merged catalog (parent plus additions).
    pub fn catalog(&self) -> (c: &Catalog)
        ensures
            *c == self.catalog_v(),
    {
        &self.catalog
    }

    /// The watermark after this delta.
    pub fn next_ids(&self) -> (n: NextIds)
        ensures
            n == self.next_v(),
    {
        self.next
    }

    /// Overwrites the watermark (recovery sets the recovered watermark).
    pub fn set_next_ids(&mut self, next: NextIds)
        ensures
            final(self).next_v() == next,
            final(self).same_delta(old(self)),
            final(self).catalog_v() == old(self).catalog_v(),
            final(self).log_ops() == old(self).log_ops(),
            final(self).log_blob() == old(self).log_blob(),
    {
        self.next = next;
    }

    /// The WAL frame of this writer: the logged ops with the watermark
    /// appended as the final op, and the interned blob.
    pub fn encode_frame(&self) -> (r: (Vec<MutationOp>, Vec<u8>))
        ensures
            r.0@.len() == self.log_ops().len() + 1,
            r.0@.drop_last() == self.log_ops(),
            op_with(r.0@.last(), wire::OP_NEXT_ID_WATERMARK, 0, watermark_words(self.next_v())),
            r.1@ == self.log_blob(),
    {
        let mut log = self.log.copy();
        log.push_watermark(self.next);
        log.frame()
    }

    /// Records a fresh element, drawing its id from the watermark.
    pub fn create_element(&mut self) -> (r: Result<ElementId, DbError>)
        ensures
            forall|b: BaseRecords| #[trigger] replay_step(*old(self), *final(self), b),
            match r {
                Ok(id) => {
                    &&& id == old(self).next_v().element
                    &&& id.0 < u64::MAX
                    &&& final(self).next_v() == NextIds {
                        element: ElementId((id.0 + 1) as u64),
                        ..old(self).next_v()
                    }
                    &&& final(self).elements_d() == old(self).elements_d().insert(
                        id.0,
                        Some(ElementView { id: id.0, labels: Set::empty() }),
                    )
                    &&& final(self).relations_d() == old(self).relations_d()
                    &&& final(self).incidences_d() == old(self).incidences_d()
                    &&& final(self).props_d() == old(self).props_d()
                    &&& final(self).catalog_v() == old(self).catalog_v()
                    &&& final(self).logged_one(old(self), wire::OP_CREATE_ELEMENT, 0, seq![id.0])
                    &&& forall|b: BaseRecords| #[trigger] replay_reproduces(*old(self), *final(self), b)
                },
                Err(e) => e == DbError::IdOverflow && old(self).next_v().element.0 == u64::MAX
                    && *final(self) == *old(self),
            },
    {
        let id = self.next.element;
        let next = match id.checked_next() {
            Some(n) => n,
            None => return Err(DbError::IdOverflow),
        };
        self.next.element = next;
        self.delta.put_element(id.get(), Some(ElementRecord { id, labels: BTreeSet::new() }));
        let words = [id.get()];
        proof {
            assert(words@ =~= seq![id.0]);
        }
        self.log.push(wire::OP_CREATE_ELEMENT, 0, &words);
        Ok(id)
    }

    /// Records a fresh relation, drawing its id from the watermark.
    pub fn create_relation(&mut self) -> (r: Result<RelationId, DbError>)
        ensures
            forall|b: BaseRecords| #[trigger] replay_step(*old(self), *final(self), b),
            match r {
                Ok(id) => {
                    &&& id == old(self).next_v().relation
                    &&& id.0 < u64::MAX
                    &&& final(self).next_v() == NextIds {
                        relation: RelationId((id.0 + 1) as u64),
                        ..old(self).next_v()
                    }
                    &&& final(self).relations_d() == old(self).relations_d().insert(
                        id.0,
                        Some(RelationView { id: id.0, relation_type: None, labels: Set::empty() }),
                    )
                    &&& final(self).elements_d() == old(self).elements_d()
                    &&& final(self).incidences_d() == old(self).incidences_d()
                    &&& final(self).props_d() == old(self).props_d()
                    &&& final(self).catalog_v() == old(self).catalog_v()
                    &&& final(self).logged_one(old(self), wire::OP_CREATE_RELATION, 0, seq![id.0])
                    &&& forall|b: BaseRecords| #[trigger] replay_reproduces(*old(self), *final(self), b)
                },
                Err(e) => e == DbError::IdOverflow && old(self).next_v().relation.0 == u64::MAX
                    && *final(self) == *old(self),
            },
    {
        let id = self.next.relation;
        let next = match id.checked_next() {
            Some(n) => n,
            None => return Err(DbError::IdOverflow),
        };
        self.next.relation = next;
        self.delta.put_relation(
            id.get(),
            Some(RelationRecord { id, relation_type: None, labels: BTreeSet::new() }),
        );
        let words = [id.get()];
        proof {
            assert(words@ =~= seq![id.0]);
        }
        self.log.push(wire::OP_CREATE_RELATION, 0, &words);
        Ok(id)
    }

    /// Records a fresh incidence, drawing its id from the watermark. The
    /// delta is unvalidated: the relation, element, and role are recorded
    /// as given.
    pub fn create_incidence(&mut self, relation: RelationId, element: ElementId, role: RoleId) -> (r: Result<
        IncidenceId,
        DbError,
    >)
        ensures
            forall|b: BaseRecords| #[trigger] replay_step(*old(self), *final(self), b),
            match r {
                Ok(id) => {
                    &&& id == old(self).next_v().incidence
                    &&& id.0 < u64::MAX
                    &&& final(self).next_v() == NextIds {
                        incidence: IncidenceId((id.0 + 1) as u64),
                        ..old(self).next_v()
                    }
                    &&& final(self).incidences_d() == old(self).incidences_d().insert(
                        id.0,
                        Some(IncidenceRecord { id, relation, element, role }),
                    )
                    &&& final(self).elements_d() == old(self).elements_d()
                    &&& final(self).relations_d() == old(self).relations_d()
                    &&& final(self).props_d() == old(self).props_d()
                    &&& final(self).catalog_v() == old(self).catalog_v()
                    &&& final(self).logged_one(
                        old(self),
                        wire::OP_CREATE_INCIDENCE,
                        0,
                        seq![id.0, relation.0, element.0, role.0],
                    )
                    &&& forall|b: BaseRecords| #[trigger] replay_reproduces(*old(self), *final(self), b)
                },
                Err(e) => e == DbError::IdOverflow && old(self).next_v().incidence.0 == u64::MAX
                    && *final(self) == *old(self),
            },
    {
        let id = self.next.incidence;
        let next = match id.checked_next() {
            Some(n) => n,
            None => return Err(DbError::IdOverflow),
        };
        self.next.incidence = next;
        self.delta.put_incidence(id.get(), Some(IncidenceRecord { id, relation, element, role }));
        let words = [id.get(), relation.get(), element.get(), role.get()];
        proof {
            assert(words@ =~= seq![id.0, relation.0, element.0, role.0]);
        }
        self.log.push(wire::OP_CREATE_INCIDENCE, 0, &words);
        Ok(id)
    }

    /// Tombstones an element and masks every property of it (without
    /// logging): the effect a replayed tombstone has too.
    fn tombstone_element_inner(&mut self, base: &BaseRecords, id: ElementId)
        ensures
            final(self).elements_d() == old(self).elements_d().insert(id.0, None),
            final(self).props_d() == props_tombstoned(
                old(self).props_d(),
                (0u32, id.0),
                base.subject_keys((0u32, id.0)),
            ),
            final(self).relations_d() == old(self).relations_d(),
            final(self).incidences_d() == old(self).incidences_d(),
            final(self).catalog_v() == old(self).catalog_v(),
            final(self).next_v() == old(self).next_v(),
            final(self).log_ops() == old(self).log_ops(),
            final(self).log_blob() == old(self).log_blob(),
    {
        self.delta.put_element(id.get(), None);
        self.delta.tombstone_properties(base, PropertySubject::Element(id));
    }

    /// Tombstones an element: masks its record and every property whose
    /// subject it is. Idempotent in effect.
    pub fn tombstone_element(&mut self, base: &BaseRecords, id: ElementId)
        ensures
            replay_step(*old(self), *final(self), *base),
            final(self).elements_d() == old(self).elements_d().insert(id.0, None),
            final(self).props_d() == props_tombstoned(
                old(self).props_d(),
                (0u32, id.0),
                base.subject_keys((0u32, id.0)),
            ),
            final(self).relations_d() == old(self).relations_d(),
            final(self).incidences_d() == old(self).incidences_d(),
            final(self).catalog_v() == old(self).catalog_v(),
            final(self).next_v() == old(self).next_v(),
            final(self).logged_one(old(self), wire::OP_TOMBSTONE_ELEMENT, 0, seq![id.0]),
            replay_reproduces(*old(self), *final(self), *base),
    {
        self.tombstone_element_inner(base, id);
        let words = [id.get()];
        proof {
            assert(words@ =~= seq![id.0]);
        }
        self.log.push(wire::OP_TOMBSTONE_ELEMENT, 0, &words);
    }

    /// Tombstones a relation and its properties (without logging).
    fn tombstone_relation_inner(&mut self, base: &BaseRecords, id: RelationId)
        ensures
            final(self).relations_d() == old(self).relations_d().insert(id.0, None),
            final(self).props_d() == props_tombstoned(
                old(self).props_d(),
                (1u32, id.0),
                base.subject_keys((1u32, id.0)),
            ),
            final(self).elements_d() == old(self).elements_d(),
            final(self).incidences_d() == old(self).incidences_d(),
            final(self).catalog_v() == old(self).catalog_v(),
            final(self).next_v() == old(self).next_v(),
            final(self).log_ops() == old(self).log_ops(),
            final(self).log_blob() == old(self).log_blob(),
    {
        self.delta.put_relation(id.get(), None);
        self.delta.tombstone_properties(base, PropertySubject::Relation(id));
    }

    /// Tombstones a relation: masks its record and its properties.
    pub fn tombstone_relation(&mut self, base: &BaseRecords, id: RelationId)
        ensures
            replay_step(*old(self), *final(self), *base),
            final(self).relations_d() == old(self).relations_d().insert(id.0, None),
            final(self).props_d() == props_tombstoned(
                old(self).props_d(),
                (1u32, id.0),
                base.subject_keys((1u32, id.0)),
            ),
            final(self).elements_d() == old(self).elements_d(),
            final(self).incidences_d() == old(self).incidences_d(),
            final(self).catalog_v() == old(self).catalog_v(),
            final(self).next_v() == old(self).next_v(),
            final(self).logged_one(old(self), wire::OP_TOMBSTONE_RELATION, 0, seq![id.0]),
            replay_reproduces(*old(self), *final(self), *base),
    {
        self.tombstone_relation_inner(base, id);
        let words = [id.get()];
        proof {
            assert(words@ =~= seq![id.0]);
        }
        self.log.push(wire::OP_TOMBSTONE_RELATION, 0, &words);
    }

    /// Tombstones an incidence and its properties (without logging).
    fn tombstone_incidence_inner(&mut self, base: &BaseRecords, id: IncidenceId)
        ensures
            final(self).incidences_d() == old(self).incidences_d().insert(id.0, None),
            final(self).props_d() == props_tombstoned(
                old(self).props_d(),
                (2u32, id.0),
                base.subject_keys((2u32, id.0)),
            ),
            final(self).elements_d() == old(self).elements_d(),
            final(self).relations_d() == old(self).relations_d(),
            final(self).catalog_v() == old(self).catalog_v(),
            final(self).next_v() == old(self).next_v(),
            final(self).log_ops() == old(self).log_ops(),
            final(self).log_blob() == old(self).log_blob(),
    {
        self.delta.put_incidence(id.get(), None);
        self.delta.tombstone_properties(base, PropertySubject::Incidence(id));
    }

    /// Tombstones an incidence: masks its record and its properties.
    pub fn tombstone_incidence(&mut self, base: &BaseRecords, id: IncidenceId)
        ensures
            replay_step(*old(self), *final(self), *base),
            final(self).incidences_d() == old(self).incidences_d().insert(id.0, None),
            final(self).props_d() == props_tombstoned(
                old(self).props_d(),
                (2u32, id.0),
                base.subject_keys((2u32, id.0)),
            ),
            final(self).elements_d() == old(self).elements_d(),
            final(self).relations_d() == old(self).relations_d(),
            final(self).catalog_v() == old(self).catalog_v(),
            final(self).next_v() == old(self).next_v(),
            final(self).logged_one(old(self), wire::OP_TOMBSTONE_INCIDENCE, 0, seq![id.0]),
            replay_reproduces(*old(self), *final(self), *base),
    {
        self.tombstone_incidence_inner(base, id);
        let words = [id.get()];
        proof {
            assert(words@ =~= seq![id.0]);
        }
        self.log.push(wire::OP_TOMBSTONE_INCIDENCE, 0, &words);
    }

    /// Adds a label to a visible element (without logging): an overlay
    /// record gains it in place, a base record is copied into the overlay
    /// first, a tombstoned or absent element is left alone.
    fn add_element_label_inner(&mut self, base: &BaseRecords, element: ElementId, label: LabelId)
        ensures
            final(self).elements_d() == element_label_added(
                old(self).elements_d(),
                base.elements_v(),
                element.0,
                label.0,
            ),
            final(self).relations_d() == old(self).relations_d(),
            final(self).incidences_d() == old(self).incidences_d(),
            final(self).props_d() == old(self).props_d(),
            final(self).catalog_v() == old(self).catalog_v(),
            final(self).next_v() == old(self).next_v(),
            final(self).log_ops() == old(self).log_ops(),
            final(self).log_blob() == old(self).log_blob(),
    {
        let updated = match self.delta.elements.get(&element.get()) {
            Some(Some(record)) => {
                let mut copy = copy_element(record);
                copy.labels.insert(label.get());
                Some(copy)
            },
            Some(None) => None,
            None => match base.element(element) {
                Some(record) => {
                    let mut copy = copy_element(record);
                    copy.labels.insert(label.get());
                    Some(copy)
                },
                None => None,
            },
        };
        match updated {
            Some(record) => {
                self.delta.put_element(element.get(), Some(record));
            },
            None => {},
        }
        proof {
            assert(self.elements_d() =~= element_label_added(
                old(self).elements_d(),
                base.elements_v(),
                element.0,
                label.0,
            ));
        }
    }

    /// Adds a label to a visible element.
    pub fn add_element_label(&mut self, base: &BaseRecords, element: ElementId, label: LabelId)
        ensures
            replay_step(*old(self), *final(self), *base),
            final(self).elements_d() == element_label_added(
                old(self).elements_d(),
                base.elements_v(),
                element.0,
                label.0,
            ),
            final(self).relations_d() == old(self).relations_d(),
            final(self).incidences_d() == old(self).incidences_d(),
            final(self).props_d() == old(self).props_d(),
            final(self).catalog_v() == old(self).catalog_v(),
            final(self).next_v() == old(self).next_v(),
            final(self).logged_one(old(self), wire::OP_ADD_ELEMENT_LABEL, 0, seq![element.0, label.0]),
            replay_reproduces(*old(self), *final(self), *base),
    {
        self.add_element_label_inner(base, element, label);
        let words = [element.get(), label.get()];
        proof {
            assert(words@ =~= seq![element.0, label.0]);
        }
        self.log.push(wire::OP_ADD_ELEMENT_LABEL, 0, &words);
    }

    /// Adds a label to a visible relation (without logging).
    fn add_relation_label_inner(&mut self, base: &BaseRecords, relation: RelationId, label: LabelId)
        ensures
            final(self).relations_d() == relation_label_added(
                old(self).relations_d(),
                base.relations_v(),
                relation.0,
                label.0,
            ),
            final(self).elements_d() == old(self).elements_d(),
            final(self).incidences_d() == old(self).incidences_d(),
            final(self).props_d() == old(self).props_d(),
            final(self).catalog_v() == old(self).catalog_v(),
            final(self).next_v() == old(self).next_v(),
            final(self).log_ops() == old(self).log_ops(),
            final(self).log_blob() == old(self).log_blob(),
    {
        let updated = match self.delta.relations.get(&relation.get()) {
            Some(Some(record)) => {
                let mut copy = copy_relation(record);
                copy.labels.insert(label.get());
                Some(copy)
            },
            Some(None) => None,
            None => match base.relation(relation) {
                Some(record) => {
                    let mut copy = copy_relation(record);
                    copy.labels.insert(label.get());
                    Some(copy)
                },
                None => None,
            },
        };
        match updated {
            Some(record) => {
                self.delta.put_relation(relation.get(), Some(record));
            },
            None => {},
        }
        proof {
            assert(self.relations_d() =~= relation_label_added(
                old(self).relations_d(),
                base.relations_v(),
                relation.0,
                label.0,
            ));
        }
    }

    /// Adds a label to a visible relation.
    pub fn add_relation_label(&mut self, base: &BaseRecords, relation: RelationId, label: LabelId)
        ensures
            replay_step(*old(self), *final(self), *base),
            final(self).relations_d() == relation_label_added(
                old(self).relations_d(),
                base.relations_v(),
                relation.0,
                label.0,
            ),
            final(self).elements_d() == old(self).elements_d(),
            final(self).incidences_d() == old(self).incidences_d(),
            final(self).props_d() == old(self).props_d(),
            final(self).catalog_v() == old(self).catalog_v(),
            final(self).next_v() == old(self).next_v(),
            final(self).logged_one(old(self), wire::OP_ADD_RELATION_LABEL, 0, seq![relation.0, label.0]),
            replay_reproduces(*old(self), *final(self), *base),
    {
        self.add_relation_label_inner(base, relation, label);
        let words = [relation.get(), label.get()];
        proof {
            assert(words@ =~= seq![relation.0, label.0]);
        }
        self.log.push(wire::OP_ADD_RELATION_LABEL, 0, &words);
    }

    /// Sets the type of a visible relation (without logging).
    fn set_relation_type_inner(&mut self, base: &BaseRecords, relation: RelationId, relation_type: RelationTypeId)
        ensures
            final(self).relations_d() == relation_type_set(
                old(self).relations_d(),
                base.relations_v(),
                relation.0,
                relation_type.0,
            ),
            final(self).elements_d() == old(self).elements_d(),
            final(self).incidences_d() == old(self).incidences_d(),
            final(self).props_d() == old(self).props_d(),
            final(self).catalog_v() == old(self).catalog_v(),
            final(self).next_v() == old(self).next_v(),
            final(self).log_ops() == old(self).log_ops(),
            final(self).log_blob() == old(self).log_blob(),
    {
        let updated = match self.delta.relations.get(&relation.get()) {
            Some(Some(record)) => {
                let mut copy = copy_relation(record);
                copy.relation_type = Some(relation_type);
                Some(copy)
            },
            Some(None) => None,
            None => match base.relation(relation) {
                Some(record) => {
                    let mut copy = copy_relation(record);
                    copy.relation_type = Some(relation_type);
                    Some(copy)
                },
                None => None,
            },
        };
        match updated {
            Some(record) => {
                self.delta.put_relation(relation.get(), Some(record));
            },
            None => {},
        }
        proof {
            assert(self.relations_d() =~= relation_type_set(
                old(self).relations_d(),
                base.relations_v(),
                relation.0,
                relation_type.0,
            ));
        }
    }

    /// Sets the type of a visible relation.
    pub fn set_relation_type(&mut self, base: &BaseRecords, relation: RelationId, relation_type: RelationTypeId)
        ensures
            replay_step(*old(self), *final(self), *base),
            final(self).relations_d() == relation_type_set(
                old(self).relations_d(),
                base.relations_v(),
                relation.0,
                relation_type.0,
            ),
            final(self).elements_d() == old(self).elements_d(),
            final(self).incidences_d() == old(self).incidences_d(),
            final(self).props_d() == old(self).props_d(),
            final(self).catalog_v() == old(self).catalog_v(),
            final(self).next_v() == old(self).next_v(),
            final(self).logged_one(
                old(self),
                wire::OP_SET_RELATION_TYPE,
                0,
                seq![relation.0, relation_type.0],
            ),
            replay_reproduces(*old(self), *final(self), *base),
    {
        self.set_relation_type_inner(base, relation, relation_type);
        let words = [relation.get(), relation_type.get()];
        proof {
            assert(words@ =~= seq![relation.0, relation_type.0]);
        }
        self.log.push(wire::OP_SET_RELATION_TYPE, 0, &words);
    }

    /// Sets a property value (without logging).
    fn set_property_inner(&mut self, subject: PropertySubject, key: PropertyKeyId, value: PropertyValue)
        ensures
            final(self).props_d() == old(self).props_d().insert((subject_key(subject), key.0), Some(value@)),
            final(self).elements_d() == old(self).elements_d(),
            final(self).relations_d() == old(self).relations_d(),
            final(self).incidences_d() == old(self).incidences_d(),
            final(self).catalog_v() == old(self).catalog_v(),
            final(self).next_v() == old(self).next_v(),
            final(self).log_ops() == old(self).log_ops(),
            final(self).log_blob() == old(self).log_blob(),
    {
        self.delta.put_property(crate::state::subject_key_of(subject), key.get(), Some(value));
    }

    /// The value of `(subject key, key)` visible through this writer over
    /// `base`: the overlay's entry when it has one (a removal shows nothing),
    /// else the base value.
    pub open spec fn visible_prop(&self, base: BaseRecords, s: (u32, u64), key: u64) -> Option<ValueView> {
        if self.props_d().contains_key((s, key)) {
            self.props_d()[(s, key)]
        } else if base.props().contains_key((s, key)) {
            Some(base.props()[(s, key)])
        } else {
            None
        }
    }

    /// Whether the value of `(subject, key)` visible through this writer over
    /// `base` already equals `value`.
    fn visible_property_is(&self, base: &BaseRecords, subject: PropertySubject, key: PropertyKeyId, value: &PropertyValue) -> (b:
        bool)
        ensures
            b == (self.visible_prop(*base, subject_key(subject), key.0) == Some(value@)),
    {
        let sk = crate::state::subject_key_of(subject);
        let entry = match self.delta.properties.get(&sk) {
            Some(inner) => inner.get(&key.get()),
            None => None,
        };
        match entry {
            Some(Some(v)) => *v == *value,
            Some(None) => false,
            None => match base.property(subject, key.get()) {
                Some(v) => *v == *value,
                None => false,
            },
        }
    }

    /// Records a property set: `(subject, key)` maps to `value`, overriding
    /// any base or overlay value. Re-asserting the value already visible is a
    /// no-op: nothing is logged and nothing changes. The delta is
    /// unvalidated: neither the subject nor the key schema is checked here.
    pub fn set_property(&mut self, base: &BaseRecords, subject: PropertySubject, key: PropertyKeyId, value: PropertyValue)
        ensures
            replay_step(*old(self), *final(self), *base),
            old(self).visible_prop(*base, subject_key(subject), key.0) == Some(value@) ==> *final(self) == *old(self),
            old(self).visible_prop(*base, subject_key(subject), key.0) != Some(value@) ==> {
                &&& final(self).props_d() == old(self).props_d().insert((subject_key(subject), key.0), Some(value@))
                &&& final(self).elements_d() == old(self).elements_d()
                &&& final(self).relations_d() == old(self).relations_d()
                &&& final(self).incidences_d() == old(self).incidences_d()
                &&& final(self).catalog_v() == old(self).catalog_v()
                &&& final(self).next_v() == old(self).next_v()
                &&& final(self).log_ops().len() == old(self).log_ops().len() + 1
                &&& final(self).log_ops().drop_last() == old(self).log_ops()
                &&& op_with(
                    final(self).log_ops().last(),
                    wire::OP_SET_PROPERTY,
                    set_property_flags(subject, value@),
                    set_property_words(subject, key.0, value@, old(self).log_blob().len()),
                )
                &&& final(self).log_blob() == old(self).log_blob() + value_blob(value@)
                &&& replay_reproduces(*old(self), *final(self), *base)
            },
    {
        if self.visible_property_is(base, subject, key, &value) {
            return;
        }
        let (kind, id) = wire::encode_subject(subject);
        let tag = wire::property_type_tag(value.value_type());
        let (scalar, text_off, text_len) = match &value {
            PropertyValue::Boolean(flag) => (if *flag {
                1u64
            } else {
                0u64
            }, 0u64, 0u64),
            PropertyValue::Integer(number) => (*number as u64, 0u64, 0u64),
            PropertyValue::Text(text) => {
                let (off, len) = self.log.intern(text.as_str().as_bytes());
                (0u64, off, len)
            },
        };
        let words = [id, key.get(), scalar, text_off, text_len];
        proof {
            assert(words@ =~= set_property_words(subject, key.0, value@, old(self).log_blob().len()));
            assert(self.log_blob() =~= old(self).log_blob() + value_blob(value@));
        }
        let ghost v = value@;
        self.log.push(wire::OP_SET_PROPERTY, wire::pack_flags(kind, tag), &words);
        self.set_property_inner(subject, key, value);
        proof {
            wire::lemma_flags_roundtrip(kind, tag);
            wire::lemma_subject_roundtrip(subject);
            let o = self.log_ops().last();
            let blob = self.log_blob();
            assert(spec_decode_subject_of(o) == Some(subject));
            assert(o.flags >> 16 == tag);
            match v {
                ValueView::Integer(i) => {
                    assert((i as u64) as i64 == i) by (bit_vector);
                },
                ValueView::Text(t) => {
                    let enc = vstd::utf8::encode_utf8(t);
                    let start = old(self).log_blob().len();
                    vstd::utf8::encode_utf8_valid_utf8(t);
                    vstd::utf8::encode_utf8_decode_utf8(t);
                    assert(blob.subrange(start as int, (start + enc.len()) as int) =~= enc);
                    assert(o.payload@[3] == start as u64);
                    assert(o.payload@[4] == enc.len() as u64);
                    assert(blob_text(blob, o.payload@[3], o.payload@[4]) == Some(t));
                },
                _ => {},
            }
            assert(replayed_value(o.flags >> 16, o.payload@, blob) == Some(v));
        }
    }

    /// Removes a property value (without logging): `(subject, key)` maps to
    /// a removal that masks any base value.
    fn remove_property_inner(&mut self, subject: PropertySubject, key: PropertyKeyId)
        ensures
            final(self).props_d() == old(self).props_d().insert((subject_key(subject), key.0), None),
            final(self).elements_d() == old(self).elements_d(),
            final(self).relations_d() == old(self).relations_d(),
            final(self).incidences_d() == old(self).incidences_d(),
            final(self).catalog_v() == old(self).catalog_v(),
            final(self).next_v() == old(self).next_v(),
            final(self).log_ops() == old(self).log_ops(),
            final(self).log_blob() == old(self).log_blob(),
    {
        self.delta.put_property(crate::state::subject_key_of(subject), key.get(), None);
    }

    /// Records a property removal. Idempotent in effect.
    pub fn remove_property(&mut self, base: &BaseRecords, subject: PropertySubject, key: PropertyKeyId)
        ensures
            replay_step(*old(self), *final(self), *base),
            final(self).props_d() == old(self).props_d().insert((subject_key(subject), key.0), None),
            final(self).elements_d() == old(self).elements_d(),
            final(self).relations_d() == old(self).relations_d(),
            final(self).incidences_d() == old(self).incidences_d(),
            final(self).catalog_v() == old(self).catalog_v(),
            final(self).next_v() == old(self).next_v(),
            final(self).logged_one(
                old(self),
                wire::OP_REMOVE_PROPERTY,
                wire::spec_pack_flags(subject_key(subject).0, 0),
                seq![subject_key(subject).1, key.0],
            ),
            replay_reproduces(*old(self), *final(self), *base),
    {
        let (kind, id) = wire::encode_subject(subject);
        let words = [id, key.get()];
        proof {
            assert(words@ =~= seq![subject_key(subject).1, key.0]);
        }
        self.log.push(wire::OP_REMOVE_PROPERTY, wire::pack_flags(kind, 0), &words);
        self.remove_property_inner(subject, key);
        proof {
            wire::lemma_flags_roundtrip(subject_key(subject).0, 0);
            wire::lemma_subject_roundtrip(subject);
            let o = self.log_ops().last();
            assert(o.payload@[0] == subject_key(subject).1);
            assert(o.payload@[1] == key.0);
            assert(spec_decode_subject_of(o) == Some(subject));
        }
    }

    /// Registers a role under `name`, drawing its id from the watermark.
    /// The allocator advances and the name is interned before the catalog
    /// insert, so a refused name still burns the id; the op is logged only on
    /// success.
    pub fn register_role(&mut self, name: String) -> (r: Result<RoleId, DbError>)
        ensures
            forall|b: BaseRecords| #[trigger] replay_step(*old(self), *final(self), b),
            final(self).same_delta(old(self)),
            old(self).next_v().role.0 == u64::MAX ==> r == Err::<RoleId, DbError>(DbError::IdOverflow)
                && *final(self) == *old(self),
            old(self).next_v().role.0 < u64::MAX ==> {
                let id = old(self).next_v().role;
                &&& final(self).next_v() == NextIds { role: RoleId((id.0 + 1) as u64), ..old(self).next_v() }
                &&& final(self).log_blob() == old(self).log_blob() + vstd::utf8::encode_utf8(name@)
                &&& (r is Ok <==> !named_has_name(old(self).catalog_v().roles@, name@) && !named_has_id(
                    old(self).catalog_v().roles@,
                    id.0,
                ))
                &&& r is Ok ==> r == Ok::<RoleId, DbError>(id) && final(self).catalog_v().roles@ == old(
                    self,
                ).catalog_v().roles@.push(NamedEntry { id: id.0, name }) && final(self).log_ops().len()
                    == old(self).log_ops().len() + 1 && final(self).log_ops().drop_last() == old(self).log_ops()
                    && op_with(
                    final(self).log_ops().last(),
                    wire::OP_CATALOG_REGISTER_ROLE,
                    0,
                    seq![id.0, old(self).log_blob().len() as u64, vstd::utf8::encode_utf8(name@).len() as u64],
                ) && forall|b: BaseRecords| #[trigger] replay_reproduces(*old(self), *final(self), b)
                &&& r is Err ==> final(self).catalog_v().roles@ == old(self).catalog_v().roles@
                    && final(self).log_ops() == old(self).log_ops()
                &&& final(self).catalog_v() == Catalog { roles: final(self).catalog_v().roles, ..old(self).catalog_v() }
            },
    {
        let id = self.next.role;
        let next = match id.checked_next() {
            Some(n) => n,
            None => return Err(DbError::IdOverflow),
        };
        self.next.role = next;
        let ghost name_view = name@;
        let (off, len) = self.log.intern(name.as_str().as_bytes());
        self.catalog.insert_role(id, name)?;
        let words = [id.get(), off, len];
        proof {
            assert(words@ =~= seq![id.0, old(self).log_blob().len() as u64, vstd::utf8::encode_utf8(name@).len() as u64]);
        }
        self.log.push(wire::OP_CATALOG_REGISTER_ROLE, 0, &words);
        proof {
            let blob = self.log_blob();
            let enc = vstd::utf8::encode_utf8(name_view);
            let start = old(self).log_blob().len();
            vstd::utf8::encode_utf8_valid_utf8(name_view);
            vstd::utf8::encode_utf8_decode_utf8(name_view);
            assert(blob.subrange(start as int, (start + enc.len()) as int) =~= enc);
            let o = self.log_ops().last();
            assert(blob_text(blob, o.payload@[1], o.payload@[2]) == Some(name_view));
            crate::catalog::lemma_named_views(old(self).catalog.roles@);
            crate::catalog::lemma_named_views_push(old(self).catalog.roles@, NamedEntry { id: id.0, name: self.catalog.roles@.last().name });
            assert(self.catalog.roles@ =~= old(self).catalog.roles@.push(self.catalog.roles@.last()));
        }
        Ok(id)
    }

    /// Registers a label under `name`, drawing its id from the watermark.
    /// The allocator advances and the name is interned before the catalog
    /// insert, so a refused name still burns the id; the op is logged only on
    /// success.
    pub fn register_label(&mut self, name: String) -> (r: Result<LabelId, DbError>)
        ensures
            forall|b: BaseRecords| #[trigger] replay_step(*old(self), *final(self), b),
            final(self).same_delta(old(self)),
            old(self).next_v().label.0 == u64::MAX ==> r == Err::<LabelId, DbError>(DbError::IdOverflow)
                && *final(self) == *old(self),
            old(self).next_v().label.0 < u64::MAX ==> {
                let id = old(self).next_v().label;
                &&& final(self).next_v() == NextIds { label: LabelId((id.0 + 1) as u64), ..old(self).next_v() }
                &&& final(self).log_blob() == old(self).log_blob() + vstd::utf8::encode_utf8(name@)
                &&& (r is Ok <==> !named_has_name(old(self).catalog_v().labels@, name@) && !named_has_id(
                    old(self).catalog_v().labels@,
                    id.0,
                ))
                &&& r is Ok ==> r == Ok::<LabelId, DbError>(id) && final(self).catalog_v().labels@ == old(
                    self,
                ).catalog_v().labels@.push(NamedEntry { id: id.0, name }) && final(self).log_ops().len()
                    == old(self).log_ops().len() + 1 && final(self).log_ops().drop_last() == old(self).log_ops()
                    && op_with(
                    final(self).log_ops().last(),
                    wire::OP_CATALOG_REGISTER_LABEL,
                    0,
                    seq![id.0, old(self).log_blob().len() as u64, vstd::utf8::encode_utf8(name@).len() as u64],
                ) && forall|b: BaseRecords| #[trigger] replay_reproduces(*old(self), *final(self), b)
                &&& r is Err ==> final(self).catalog_v().labels@ == old(self).catalog_v().labels@
                    && final(self).log_ops() == old(self).log_ops()
                &&& final(self).catalog_v() == Catalog { labels: final(self).catalog_v().labels, ..old(self).catalog_v() }
            },
    {
        let id = self.next.label;
        let next = match id.checked_next() {
            Some(n) => n,
            None => return Err(DbError::IdOverflow),
        };
        self.next.label = next;
        let ghost name_view = name@;
        let (off, len) = self.log.intern(name.as_str().as_bytes());
        self.catalog.insert_label(id, name)?;
        let words = [id.get(), off, len];
        proof {
            assert(words@ =~= seq![id.0, old(self).log_blob().len() as u64, vstd::utf8::encode_utf8(name@).len() as u64]);
        }
        self.log.push(wire::OP_CATALOG_REGISTER_LABEL, 0, &words);
        proof {
            let blob = self.log_blob();
            let enc = vstd::utf8::encode_utf8(name_view);
            let start = old(self).log_blob().len();
            vstd::utf8::encode_utf8_valid_utf8(name_view);
            vstd::utf8::encode_utf8_decode_utf8(name_view);
            assert(blob.subrange(start as int, (start + enc.len()) as int) =~= enc);
            let o = self.log_ops().last();
            assert(blob_text(blob, o.payload@[1], o.payload@[2]) == Some(name_view));
            crate::catalog::lemma_named_views(old(self).catalog.labels@);
            crate::catalog::lemma_named_views_push(old(self).catalog.labels@, NamedEntry { id: id.0, name: self.catalog.labels@.last().name });
            assert(self.catalog.labels@ =~= old(self).catalog.labels@.push(self.catalog.labels@.last()));
        }
        Ok(id)
    }

    /// Registers a relation type under `name`, drawing its id from the watermark.
    /// The allocator advances and the name is interned before the catalog
    /// insert, so a refused name still burns the id; the op is logged only on
    /// success.
    pub fn register_relation_type(&mut self, name: String) -> (r: Result<RelationTypeId, DbError>)
        ensures
            forall|b: BaseRecords| #[trigger] replay_step(*old(self), *final(self), b),
            final(self).same_delta(old(self)),
            old(self).next_v().relation_type.0 == u64::MAX ==> r == Err::<RelationTypeId, DbError>(DbError::IdOverflow)
                && *final(self) == *old(self),
            old(self).next_v().relation_type.0 < u64::MAX ==> {
                let id = old(self).next_v().relation_type;
                &&& final(self).next_v() == NextIds { relation_type: RelationTypeId((id.0 + 1) as u64), ..old(self).next_v() }
                &&& final(self).log_blob() == old(self).log_blob() + vstd::utf8::encode_utf8(name@)
                &&& (r is Ok <==> !named_has_name(old(self).catalog_v().relation_types@, name@) && !named_has_id(
                    old(self).catalog_v().relation_types@,
                    id.0,
                ))
                &&& r is Ok ==> r == Ok::<RelationTypeId, DbError>(id) && final(self).catalog_v().relation_types@ == old(
                    self,
                ).catalog_v().relation_types@.push(NamedEntry { id: id.0, name }) && final(self).log_ops().len()
                    == old(self).log_ops().len() + 1 && final(self).log_ops().drop_last() == old(self).log_ops()
                    && op_with(
                    final(self).log_ops().last(),
                    wire::OP_CATALOG_REGISTER_RELATION_TYPE,
                    0,
                    seq![id.0, old(self).log_blob().len() as u64, vstd::utf8::encode_utf8(name@).len() as u64],
                ) && forall|b: BaseRecords| #[trigger] replay_reproduces(*old(self), *final(self), b)
                &&& r is Err ==> final(self).catalog_v().relation_types@ == old(self).catalog_v().relation_types@
                    && final(self).log_ops() == old(self).log_ops()
                &&& final(self).catalog_v() == Catalog { relation_types: final(self).catalog_v().relation_types, ..old(self).catalog_v() }
            },
    {
        let id = self.next.relation_type;
        let next = match id.checked_next() {
            Some(n) => n,
            None => return Err(DbError::IdOverflow),
        };
        self.next.relation_type = next;
        let ghost name_view = name@;
        let (off, len) = self.log.intern(name.as_str().as_bytes());
        self.catalog.insert_relation_type(id, name)?;
        let words = [id.get(), off, len];
        proof {
            assert(words@ =~= seq![id.0, old(self).log_blob().len() as u64, vstd::utf8::encode_utf8(name@).len() as u64]);
        }
        self.log.push(wire::OP_CATALOG_REGISTER_RELATION_TYPE, 0, &words);
        proof {
            let blob = self.log_blob();
            let enc = vstd::utf8::encode_utf8(name_view);
            let start = old(self).log_blob().len();
            vstd::utf8::encode_utf8_valid_utf8(name_view);
            vstd::utf8::encode_utf8_decode_utf8(name_view);
            assert(blob.subrange(start as int, (start + enc.len()) as int) =~= enc);
            let o = self.log_ops().last();
            assert(blob_text(blob, o.payload@[1], o.payload@[2]) == Some(name_view));
            crate::catalog::lemma_named_views(old(self).catalog.relation_types@);
            crate::catalog::lemma_named_views_push(old(self).catalog.relation_types@, NamedEntry { id: id.0, name: self.catalog.relation_types@.last().name });
            assert(self.catalog.relation_types@ =~= old(self).catalog.relation_types@.push(self.catalog.relation_types@.last()));
        }
        Ok(id)
    }

    /// Registers a property key under `name` for `family` with `value_type`,
    /// drawing its id from the watermark. The allocator advances and the name
    /// is interned before the catalog insert; the op is logged only on
    /// success.
    pub fn register_property_key(&mut self, name: String, family: PropertyFamily, value_type: PropertyType) -> (r:
        Result<PropertyKeyId, DbError>)
        ensures
            forall|b: BaseRecords| #[trigger] replay_step(*old(self), *final(self), b),
            final(self).same_delta(old(self)),
            old(self).next_v().property_key.0 == u64::MAX ==> r == Err::<PropertyKeyId, DbError>(
                DbError::IdOverflow,
            ) && *final(self) == *old(self),
            old(self).next_v().property_key.0 < u64::MAX ==> {
                let id = old(self).next_v().property_key;
                &&& final(self).next_v() == NextIds {
                    property_key: PropertyKeyId((id.0 + 1) as u64),
                    ..old(self).next_v()
                }
                &&& final(self).log_blob() == old(self).log_blob() + vstd::utf8::encode_utf8(name@)
                &&& (r is Ok <==> (forall|i: int|
                    0 <= i < old(self).catalog_v().property_keys@.len() ==> old(
                        self,
                    ).catalog_v().property_keys@[i].name@ != name@) && !keys_have_id(
                    old(self).catalog_v().property_keys@,
                    id.0,
                ))
                &&& r is Ok ==> r == Ok::<PropertyKeyId, DbError>(id)
                    && final(self).catalog_v().property_keys@ == old(self).catalog_v().property_keys@.push(
                    PropertyKeyDefinition { id, name, family, value_type },
                ) && final(self).log_ops().len() == old(self).log_ops().len() + 1
                    && final(self).log_ops().drop_last() == old(self).log_ops() && op_with(
                    final(self).log_ops().last(),
                    wire::OP_CATALOG_REGISTER_PROPERTY_KEY,
                    wire::spec_pack_flags(wire::spec_family_tag(family), wire::spec_type_tag(value_type)),
                    seq![id.0, old(self).log_blob().len() as u64, vstd::utf8::encode_utf8(name@).len() as u64],
                ) && forall|b: BaseRecords| #[trigger] replay_reproduces(*old(self), *final(self), b)
                &&& r is Err ==> final(self).catalog_v().property_keys@ == old(self).catalog_v().property_keys@
                    && final(self).log_ops() == old(self).log_ops()
                &&& final(self).catalog_v() == Catalog {
                    property_keys: final(self).catalog_v().property_keys,
                    ..old(self).catalog_v()
                }
            },
    {
        let id = self.next.property_key;
        let next = match id.checked_next() {
            Some(n) => n,
            None => return Err(DbError::IdOverflow),
        };
        self.next.property_key = next;
        let ghost name_view = name@;
        let (off, len) = self.log.intern(name.as_str().as_bytes());
        self.catalog.insert_property_key(PropertyKeyDefinition { id, name, family, value_type })?;
        let words = [id.get(), off, len];
        proof {
            assert(words@ =~= seq![id.0, old(self).log_blob().len() as u64, vstd::utf8::encode_utf8(name@).len() as u64]);
        }
        let flags = wire::pack_flags(wire::property_family_tag(family), wire::property_type_tag(value_type));
        self.log.push(wire::OP_CATALOG_REGISTER_PROPERTY_KEY, flags, &words);
        proof {
            let blob = self.log_blob();
            let enc = vstd::utf8::encode_utf8(name_view);
            let start = old(self).log_blob().len();
            vstd::utf8::encode_utf8_valid_utf8(name_view);
            vstd::utf8::encode_utf8_decode_utf8(name_view);
            assert(blob.subrange(start as int, (start + enc.len()) as int) =~= enc);
            let o = self.log_ops().last();
            assert(blob_text(blob, o.payload@[1], o.payload@[2]) == Some(name_view));
            wire::lemma_family_tag_roundtrip(family, family);
            wire::lemma_type_tag_roundtrip(value_type, value_type);
            wire::lemma_flags_roundtrip(wire::spec_family_tag(family), wire::spec_type_tag(value_type));
            assert(tag_family(o.flags & 0xFFFF) == Some(family));
            assert(tag_type(o.flags >> 16) == Some(value_type));
            let c0 = old(self).catalog;
            crate::catalog::lemma_catalog_view_facts(c0);
            crate::catalog::lemma_catalog_view_facts(self.catalog);
            assert(!(exists|i: int| 0 <= i < c0@.property_keys.len() && c0@.property_keys[i].1 == name_view));
            assert(!(exists|i: int| 0 <= i < c0@.property_keys.len() && c0@.property_keys[i].0 == id.0));
            assert(self.catalog@.property_keys =~= c0@.property_keys.push((id.0, name_view, family, value_type)));
        }
        Ok(id)
    }

    /// Registers a projection definition, drawing its id from the
    /// watermark. The allocator advances and the name and definition body
    /// are interned before the catalog insert; the op is logged only on
    /// success.
    pub fn register_projection(&mut self, definition: ProjectionDefinition) -> (r: Result<ProjectionId, DbError>)
        ensures
            forall|b: BaseRecords| #[trigger] replay_step(*old(self), *final(self), b),
            final(self).same_delta(old(self)),
            old(self).next_v().projection.0 == u64::MAX ==> r == Err::<ProjectionId, DbError>(
                DbError::IdOverflow,
            ) && *final(self) == *old(self),
            old(self).next_v().projection.0 < u64::MAX ==> {
                let id = old(self).next_v().projection;
                let name = projection_name(definition);
                &&& final(self).next_v() == NextIds {
                    projection: ProjectionId((id.0 + 1) as u64),
                    ..old(self).next_v()
                }
                &&& exists|kind: u32, words: Seq<u64>|
                    {
                        &&& crate::wire::defs::projection_body_ok(definition, kind, words)
                        &&& final(self).log_blob() == old(self).log_blob() + vstd::utf8::encode_utf8(name)
                            + words_bytes(words)
                        &&& r is Ok ==> op_with(
                            final(self).log_ops().last(),
                            wire::OP_CATALOG_REGISTER_PROJECTION,
                            kind,
                            seq![
                                id.0,
                                old(self).log_blob().len() as u64,
                                vstd::utf8::encode_utf8(name).len() as u64,
                                (old(self).log_blob().len() + vstd::utf8::encode_utf8(name).len()) as u64,
                                words_bytes(words).len() as u64,
                            ],
                        )
                    }
                &&& (r is Ok <==> forall|i: int|
                    0 <= i < old(self).catalog_v().projections@.len() ==> projection_name(
                        old(self).catalog_v().projections@[i].definition,
                    ) != name && old(self).catalog_v().projections@[i].id != id)
                &&& r is Ok ==> r == Ok::<ProjectionId, DbError>(id)
                    && final(self).catalog_v().projections@ == old(self).catalog_v().projections@.push(
                    ProjectionEntry { id, definition },
                ) && final(self).log_ops().len() == old(self).log_ops().len() + 1
                    && final(self).log_ops().drop_last() == old(self).log_ops() && forall|b: BaseRecords| #[trigger]
                    replay_reproduces(*old(self), *final(self), b)
                &&& r is Err ==> final(self).catalog_v().projections@ == old(self).catalog_v().projections@
                    && final(self).log_ops() == old(self).log_ops()
                &&& final(self).catalog_v() == Catalog {
                    projections: final(self).catalog_v().projections,
                    ..old(self).catalog_v()
                }
            },
    {
        let id = self.next.projection;
        let next = match id.checked_next() {
            Some(n) => n,
            None => return Err(DbError::IdOverflow),
        };
        self.next.projection = next;
        let ghost def_view = definition;
        let (name_off, name_len) = self.log.intern(definition.name().as_str().as_bytes());
        let (kind, words) = crate::wire::defs::encode_projection_body(&definition);
        let (def_off, def_len) = self.log.intern_words(&words);
        let ghost blob_after = self.log.blob_v();
        self.catalog.insert_projection(id, definition)?;
        let payload = [id.get(), name_off, name_len, def_off, def_len];
        self.log.push(wire::OP_CATALOG_REGISTER_PROJECTION, kind, &payload);
        proof {
            let name_view = projection_name(def_view);
            let blob = self.log_blob();
            let enc = vstd::utf8::encode_utf8(name_view);
            let wb = words_bytes(words@);
            let start = old(self).log_blob().len();
            vstd::utf8::encode_utf8_valid_utf8(name_view);
            vstd::utf8::encode_utf8_decode_utf8(name_view);
            crate::overlay::log::lemma_words_bytes_len(words@);
            crate::overlay::log::lemma_bytes_words_roundtrip(words@);
            crate::wire::defs::lemma_projection_body_roundtrip(def_view, kind, words@);
            assert(blob.subrange(start as int, (start + enc.len()) as int) =~= enc);
            assert(blob.subrange((start + enc.len()) as int, (start + enc.len() + wb.len()) as int) =~= wb);
            let o = self.log_ops().last();
            assert(blob_text(blob, o.payload@[1], o.payload@[2]) == Some(name_view));
            assert(crate::overlay::log::run_of(blob, o.payload@[3], o.payload@[4]) =~= wb);
            let c0 = old(self).catalog_v();
            crate::catalog::lemma_catalog_view_facts(c0);
            crate::catalog::lemma_catalog_view_facts(self.catalog);
            assert(self.catalog@.projections =~= c0@.projections.push((id.0, def_view@)));
            assert(!(exists|i: int|
                0 <= i < c0@.projections.len() && (crate::catalog::view_projection_name(c0@.projections[i].1)
                    == name_view || c0@.projections[i].0 == id.0))) by {
                if exists|i: int|
                    0 <= i < c0@.projections.len() && (crate::catalog::view_projection_name(c0@.projections[i].1)
                        == name_view || c0@.projections[i].0 == id.0) {
                    let i = choose|i: int|
                        0 <= i < c0@.projections.len() && (crate::catalog::view_projection_name(c0@.projections[i].1)
                            == name_view || c0@.projections[i].0 == id.0);
                    assert(crate::catalog::view_projection_name(c0@.projections[i].1) == projection_name(
                        c0.projections@[i].definition,
                    ));
                }
            }
            assert(catalog_replayed(c0@, wire::OP_CATALOG_REGISTER_PROJECTION, kind, o.payload@, name_view, blob) == Some(self.catalog@));
        }
        proof {
            let name = projection_name(definition);
            assert(payload@ =~= seq![
                id.0,
                old(self).log_blob().len() as u64,
                vstd::utf8::encode_utf8(name).len() as u64,
                (old(self).log_blob().len() + vstd::utf8::encode_utf8(name).len()) as u64,
                words_bytes(words@).len() as u64,
            ]);
        }
        Ok(id)
    }

    /// Registers an index named `name`, drawing its id from the watermark.
    /// The allocator advances and the name and definition body are interned
    /// before the catalog insert; the op is logged only on success.
    pub fn register_index(&mut self, name: String, definition: IndexDefinition) -> (r: Result<IndexId, DbError>)
        ensures
            forall|b: BaseRecords| #[trigger] replay_step(*old(self), *final(self), b),
            final(self).same_delta(old(self)),
            old(self).next_v().index.0 == u64::MAX ==> r == Err::<IndexId, DbError>(DbError::IdOverflow)
                && *final(self) == *old(self),
            old(self).next_v().index.0 < u64::MAX ==> {
                let id = old(self).next_v().index;
                let body = crate::wire::defs::spec_index_body(definition@);
                &&& final(self).next_v() == NextIds { index: IndexId((id.0 + 1) as u64), ..old(self).next_v() }
                &&& final(self).log_blob() == old(self).log_blob() + vstd::utf8::encode_utf8(name@) + words_bytes(
                    body.1,
                )
                &&& (r is Ok <==> forall|i: int|
                    0 <= i < old(self).catalog_v().indexes@.len() ==> old(self).catalog_v().indexes@[i].name@
                        != name@ && old(self).catalog_v().indexes@[i].id != id)
                &&& r is Ok ==> r == Ok::<IndexId, DbError>(id) && final(self).catalog_v().indexes@ == old(
                    self,
                ).catalog_v().indexes@.push(IndexEntry { id, name, definition })
                    && final(self).log_ops().len() == old(self).log_ops().len() + 1
                    && final(self).log_ops().drop_last() == old(self).log_ops() && op_with(
                    final(self).log_ops().last(),
                    wire::OP_CATALOG_REGISTER_INDEX,
                    body.0,
                    seq![
                        id.0,
                        old(self).log_blob().len() as u64,
                        vstd::utf8::encode_utf8(name@).len() as u64,
                        (old(self).log_blob().len() + vstd::utf8::encode_utf8(name@).len()) as u64,
                        words_bytes(body.1).len() as u64,
                    ],
                ) && forall|b: BaseRecords| #[trigger] replay_reproduces(*old(self), *final(self), b)
                &&& r is Err ==> final(self).catalog_v().indexes@ == old(self).catalog_v().indexes@
                    && final(self).log_ops() == old(self).log_ops()
                &&& final(self).catalog_v() == Catalog { indexes: final(self).catalog_v().indexes, ..old(self).catalog_v() }
            },
    {
        let id = self.next.index;
        let next = match id.checked_next() {
            Some(n) => n,
            None => return Err(DbError::IdOverflow),
        };
        self.next.index = next;
        let ghost name_view = name@;
        let ghost def_view = definition@;
        let (name_off, name_len) = self.log.intern(name.as_str().as_bytes());
        let (kind, words) = crate::wire::defs::encode_index_body(&definition);
        let (def_off, def_len) = self.log.intern_words(&words);
        self.catalog.insert_index(id, name, definition)?;
        let payload = [id.get(), name_off, name_len, def_off, def_len];
        proof {
            assert(payload@ =~= seq![
                id.0,
                old(self).log_blob().len() as u64,
                vstd::utf8::encode_utf8(name@).len() as u64,
                (old(self).log_blob().len() + vstd::utf8::encode_utf8(name@).len()) as u64,
                words_bytes(words@).len() as u64,
            ]);
        }
        self.log.push(wire::OP_CATALOG_REGISTER_INDEX, kind, &payload);
        proof {
            let blob = self.log_blob();
            let enc = vstd::utf8::encode_utf8(name_view);
            let wb = words_bytes(words@);
            let start = old(self).log_blob().len();
            vstd::utf8::encode_utf8_valid_utf8(name_view);
            vstd::utf8::encode_utf8_decode_utf8(name_view);
            crate::overlay::log::lemma_words_bytes_len(words@);
            crate::overlay::log::lemma_bytes_words_roundtrip(words@);
            crate::wire::defs::lemma_index_body_roundtrip(def_view);
            assert(blob.subrange(start as int, (start + enc.len()) as int) =~= enc);
            assert(blob.subrange((start + enc.len()) as int, (start + enc.len() + wb.len()) as int) =~= wb);
            let o = self.log_ops().last();
            assert(blob_text(blob, o.payload@[1], o.payload@[2]) == Some(name_view));
            assert(crate::overlay::log::run_of(blob, o.payload@[3], o.payload@[4]) =~= wb);
            let c0 = old(self).catalog_v();
            crate::catalog::lemma_catalog_view_facts(c0);
            crate::catalog::lemma_catalog_view_facts(self.catalog);
            assert(self.catalog@.indexes =~= c0@.indexes.push((id.0, name_view, def_view)));
            assert(!(exists|i: int|
                0 <= i < c0@.indexes.len() && (c0@.indexes[i].1 == name_view || c0@.indexes[i].0 == id.0))) by {
                if exists|i: int| 0 <= i < c0@.indexes.len() && (c0@.indexes[i].1 == name_view || c0@.indexes[i].0 == id.0) {
                    let i = choose|i: int|
                        0 <= i < c0@.indexes.len() && (c0@.indexes[i].1 == name_view || c0@.indexes[i].0 == id.0);
                    assert(c0@.indexes[i] == (c0.indexes@[i].id.0, c0.indexes@[i].name@, c0.indexes@[i].definition@));
                }
            }
            assert(catalog_replayed(c0@, wire::OP_CATALOG_REGISTER_INDEX, kind, o.payload@, name_view, blob) == Some(self.catalog@));
        }
        Ok(id)
    }

    /// Replays one topology op (create, tombstone, label, type) with the
    /// explicit ids of its payload.
    fn apply_topology_op(&mut self, kind: u32, base: &BaseRecords, op: &MutationOp)
        requires
            is_topology_kind(kind),
        ensures
            (final(self).elements_d(), final(self).relations_d(), final(self).incidences_d(), final(self).props_d())
                == topology_effect(
                old(self).elements_d(),
                old(self).relations_d(),
                old(self).incidences_d(),
                old(self).props_d(),
                *base,
                kind,
                op.payload@,
            ),
            final(self).catalog_v() == old(self).catalog_v(),
            final(self).next_v() == old(self).next_v(),
            final(self).log_ops() == old(self).log_ops(),
            final(self).log_blob() == old(self).log_blob(),
    {
        let w0 = op.payload[0];
        let w1 = op.payload[1];
        if kind == wire::OP_CREATE_ELEMENT {
            self.delta.put_element(w0, Some(ElementRecord { id: ElementId::new(w0), labels: BTreeSet::new() }));
        } else if kind == wire::OP_CREATE_RELATION {
            self.delta.put_relation(
                w0,
                Some(RelationRecord { id: RelationId::new(w0), relation_type: None, labels: BTreeSet::new() }),
            );
        } else if kind == wire::OP_CREATE_INCIDENCE {
            let record = IncidenceRecord {
                id: IncidenceId::new(w0),
                relation: RelationId::new(w1),
                element: ElementId::new(op.payload[2]),
                role: RoleId::new(op.payload[3]),
            };
            self.delta.put_incidence(w0, Some(record));
        } else if kind == wire::OP_TOMBSTONE_ELEMENT {
            self.tombstone_element_inner(base, ElementId::new(w0));
        } else if kind == wire::OP_TOMBSTONE_RELATION {
            self.tombstone_relation_inner(base, RelationId::new(w0));
        } else if kind == wire::OP_TOMBSTONE_INCIDENCE {
            self.tombstone_incidence_inner(base, IncidenceId::new(w0));
        } else if kind == wire::OP_ADD_ELEMENT_LABEL {
            self.add_element_label_inner(base, ElementId::new(w0), LabelId::new(w1));
        } else if kind == wire::OP_ADD_RELATION_LABEL {
            self.add_relation_label_inner(base, RelationId::new(w0), LabelId::new(w1));
        } else {
            self.set_relation_type_inner(base, RelationId::new(w0), RelationTypeId::new(w1));
        }
    }

    /// Replays a property-set op: the subject from the flags' low tag and
    /// the first payload word, the value from the flags' high tag, the
    /// scalar word, and (for text) the blob run.
    fn apply_set_property(&mut self, op: &MutationOp, blob: &[u8], lsn: u64) -> (r: Result<(), DbError>)
        requires
            op.op_kind == wire::OP_SET_PROPERTY,
        ensures
            r matches Err(e) ==> replay_refusal(old(self).catalog_v()@, *op, blob@, lsn, e),
            match spec_decode_subject_of(*op) {
                None => r is Err && r->Err_0 is LogCorrupt && *final(self) == *old(self),
                Some(subject) => match replayed_value(op.flags >> 16, op.payload@, blob@) {
                    None => r is Err && r->Err_0 is LogCorrupt && *final(self) == *old(self),
                    Some(v) => r is Ok && final(self).props_d() == old(self).props_d().insert(
                        (subject_key(subject), op.payload@[1]),
                        Some(v),
                    ) && final(self).elements_d() == old(self).elements_d() && final(self).relations_d()
                        == old(self).relations_d() && final(self).incidences_d() == old(self).incidences_d()
                        && final(self).catalog_v() == old(self).catalog_v() && final(self).next_v() == old(
                        self,
                    ).next_v() && final(self).log_ops() == old(self).log_ops() && final(self).log_blob() == old(
                        self,
                    ).log_blob(),
                },
            },
    {
        let (subject_kind, value_tag) = wire::unpack_flags(op.flags);
        let subject = match wire::decode_subject(subject_kind, op.payload[0]) {
            Some(s) => s,
            None => return Err(DbError::LogCorrupt { lsn, reason: "set-property subject kind" }),
        };
        let value_type = match wire::property_type_from_tag(value_tag) {
            Some(t) => t,
            None => return Err(DbError::LogCorrupt { lsn, reason: "set-property value tag" }),
        };
        let value = match value_type {
            PropertyType::Boolean => PropertyValue::Boolean(op.payload[2] != 0),
            PropertyType::Integer => PropertyValue::Integer(op.payload[2] as i64),
            PropertyType::Text => PropertyValue::Text(blob_str(blob, op.payload[3], op.payload[4], lsn)?),
        };
        self.set_property_inner(subject, PropertyKeyId::new(op.payload[1]), value);
        Ok(())
    }

    /// Replays a catalog registration op with the explicit id of its
    /// payload and the name of its blob run.
    fn apply_catalog_op(&mut self, kind: u32, op: &MutationOp, blob: &[u8], lsn: u64) -> (r: Result<(), DbError>)
        requires
            is_catalog_kind(kind),
            op.op_kind == kind,
        ensures
            r matches Err(e) ==> replay_refusal(old(self).catalog_v()@, *op, blob@, lsn, e),
            final(self).same_delta(old(self)),
            final(self).next_v() == old(self).next_v(),
            final(self).log_ops() == old(self).log_ops(),
            final(self).log_blob() == old(self).log_blob(),
            match blob_text(blob@, op.payload@[1], op.payload@[2]) {
                None => r is Err && r->Err_0 is LogCorrupt && final(self).catalog_v()@ == old(self).catalog_v()@,
                Some(name) => match catalog_replayed(old(self).catalog_v()@, kind, op.flags, op.payload@, name, blob@) {
                    Some(c) => r is Ok && final(self).catalog_v()@ == c,
                    None => r is Err && final(self).catalog_v()@ == old(self).catalog_v()@,
                },
            },
    {
        let name = blob_str(blob, op.payload[1], op.payload[2], lsn)?;
        let id = op.payload[0];
        let ghost c0 = self.catalog;
        let ghost nm = name@;
        proof {
            crate::catalog::lemma_catalog_view_facts(c0);
            crate::catalog::lemma_named_views(c0.roles@);
            crate::catalog::lemma_named_views(c0.labels@);
            crate::catalog::lemma_named_views(c0.relation_types@);
        }
        if kind == wire::OP_CATALOG_REGISTER_ROLE {
            let ghost entry = NamedEntry { id, name };
            let r = self.catalog.insert_role(RoleId::new(id), name);
            proof {
                crate::catalog::lemma_named_views_push(c0.roles@, entry);
                assert(self.catalog@.labels == c0@.labels);
            }
            proof {
                assert(r is Ok ==> catalog_replayed(c0@, kind, op.flags, op.payload@, nm, blob@) == Some(self.catalog@));
                assert(r is Err ==> catalog_replayed(c0@, kind, op.flags, op.payload@, nm, blob@) is None);
                assert(r is Err ==> self.catalog@ == c0@);
            }
            r
        } else if kind == wire::OP_CATALOG_REGISTER_LABEL {
            let ghost entry = NamedEntry { id, name };
            let r = self.catalog.insert_label(LabelId::new(id), name);
            proof {
                crate::catalog::lemma_named_views_push(c0.labels@, entry);
            }
            proof {
                assert(r is Ok ==> catalog_replayed(c0@, kind, op.flags, op.payload@, nm, blob@) == Some(self.catalog@));
                assert(r is Err ==> catalog_replayed(c0@, kind, op.flags, op.payload@, nm, blob@) is None);
                assert(r is Err ==> self.catalog@ == c0@);
            }
            r
        } else if kind == wire::OP_CATALOG_REGISTER_RELATION_TYPE {
            let ghost entry = NamedEntry { id, name };
            let r = self.catalog.insert_relation_type(RelationTypeId::new(id), name);
            proof {
                crate::catalog::lemma_named_views_push(c0.relation_types@, entry);
            }
            proof {
                assert(r is Ok ==> catalog_replayed(c0@, kind, op.flags, op.payload@, nm, blob@) == Some(self.catalog@));
                assert(r is Err ==> catalog_replayed(c0@, kind, op.flags, op.payload@, nm, blob@) is None);
                assert(r is Err ==> self.catalog@ == c0@);
            }
            r
        } else if kind == wire::OP_CATALOG_REGISTER_PROPERTY_KEY {
            let (family_tag, value_tag) = wire::unpack_flags(op.flags);
            let family = match wire::property_family_from_tag(family_tag) {
                Some(f) => f,
                None => return Err(DbError::LogCorrupt { lsn, reason: "property-key family tag" }),
            };
            let value_type = match wire::property_type_from_tag(value_tag) {
                Some(t) => t,
                None => return Err(DbError::LogCorrupt { lsn, reason: "property-key value tag" }),
            };
            let definition = PropertyKeyDefinition { id: PropertyKeyId::new(id), name, family, value_type };
            let ghost def = definition;
            let r = self.catalog.insert_property_key(definition);
            proof {
                assert(tag_family(family_tag) == Some(family));
                assert(tag_type(value_tag) == Some(value_type));
                if r is Err {
                    if exists|i: int| 0 <= i < c0.property_keys@.len() && c0.property_keys@[i].name@ == nm {
                        let i = choose|i: int| 0 <= i < c0.property_keys@.len() && c0.property_keys@[i].name@ == nm;
                        assert(c0@.property_keys[i].1 == nm);
                    } else {
                        let i = choose|i: int| 0 <= i < c0.property_keys@.len() && c0.property_keys@[i].id.0 == id;
                        assert(c0@.property_keys[i].0 == id);
                    }
                }
                if r is Ok {
                    assert(self.catalog@.property_keys =~= c0@.property_keys.push(
                        (id, def.name@, family, value_type),
                    ));
                }
            }
            proof {
                assert(r is Ok ==> catalog_replayed(c0@, kind, op.flags, op.payload@, nm, blob@) == Some(self.catalog@));
                assert(r is Err ==> catalog_replayed(c0@, kind, op.flags, op.payload@, nm, blob@) is None);
                assert(r is Err ==> self.catalog@ == c0@);
            }
            r
        } else if kind == wire::OP_CATALOG_REGISTER_PROJECTION {
            let words = crate::overlay::log::decode_def_words(blob, op.payload[3], op.payload[4], lsn)?;
            let definition = match crate::wire::defs::decode_projection_body(op.flags, name, &words) {
                Ok(d) => d,
                Err(e) => return Err(DbError::LogCorrupt { lsn, reason: e.reason }),
            };
            let ghost def = definition;
            let r = self.catalog.insert_projection(ProjectionId::new(id), definition);
            proof {
                if r is Ok {
                    assert(self.catalog@.projections =~= c0@.projections.push((id, def@)));
                } else {
                    let i = choose|i: int|
                        0 <= i < c0.projections@.len() && !(projection_name(c0.projections@[i].definition)
                            != projection_name(def) && c0.projections@[i].id != ProjectionId(id));
                    assert(projection_name(def) == nm);
                    assert(c0@.projections[i].0 == c0.projections@[i].id.0);
                }
            }
            proof {
                assert(r is Ok ==> catalog_replayed(c0@, kind, op.flags, op.payload@, nm, blob@) == Some(self.catalog@));
                assert(r is Err ==> catalog_replayed(c0@, kind, op.flags, op.payload@, nm, blob@) is None);
                assert(r is Err ==> self.catalog@ == c0@);
            }
            r
        } else {
            let words = crate::overlay::log::decode_def_words(blob, op.payload[3], op.payload[4], lsn)?;
            let definition = match crate::wire::defs::decode_index_body(op.flags, &words) {
                Ok(d) => d,
                Err(e) => return Err(DbError::LogCorrupt { lsn, reason: e.reason }),
            };
            let ghost def = definition;
            let r = self.catalog.insert_index(IndexId::new(id), name, definition);
            proof {
                if r is Ok {
                    assert(self.catalog@.indexes =~= c0@.indexes.push((id, nm, def@)));
                } else {
                    let i = choose|i: int|
                        0 <= i < c0.indexes@.len() && !(c0.indexes@[i].name@ != nm && c0.indexes@[i].id != IndexId(id));
                    assert(c0@.indexes[i] == (c0.indexes@[i].id.0, c0.indexes@[i].name@, c0.indexes@[i].definition@));
                }
            }
            proof {
                assert(r is Ok ==> catalog_replayed(c0@, kind, op.flags, op.payload@, nm, blob@) == Some(self.catalog@));
                assert(r is Err ==> catalog_replayed(c0@, kind, op.flags, op.payload@, nm, blob@) is None);
                assert(r is Err ==> self.catalog@ == c0@);
            }
            r
        }
    }

    /// Applies one decoded replay op against `base`, reconstructing the
    /// mutation it recorded: creates take the explicit ids of the payload
    /// (recovery never reallocates), and the watermark op sets the
    /// allocators directly. Malformed and unknown ops are `LogCorrupt`.
    pub fn apply_replay_op(&mut self, base: &BaseRecords, op: &MutationOp, blob: &[u8], lsn: u64) -> (r: Result<
        (),
        DbError,
    >)
        ensures
            replayed(*old(self), *final(self), *base, *op, blob@, r),
            r matches Err(e) ==> replay_refusal(old(self).catalog_v()@, *op, blob@, lsn, e),
    {
        let kind = op.op_kind;
        if 1 <= kind && kind <= 9 {
            self.apply_topology_op(kind, base, op);
            Ok(())
        } else if kind == wire::OP_SET_PROPERTY {
            self.apply_set_property(op, blob, lsn)
        } else if kind == wire::OP_REMOVE_PROPERTY {
            let (subject_kind, _high) = wire::unpack_flags(op.flags);
            let subject = match wire::decode_subject(subject_kind, op.payload[0]) {
                Some(s) => s,
                None => return Err(DbError::LogCorrupt { lsn, reason: "remove-property subject kind" }),
            };
            self.remove_property_inner(subject, PropertyKeyId::new(op.payload[1]));
            Ok(())
        } else if 12 <= kind && kind <= 17 {
            self.apply_catalog_op(kind, op, blob, lsn)
        } else if kind == wire::OP_NEXT_ID_WATERMARK {
            self.next = NextIds {
                element: ElementId::new(op.payload[0]),
                relation: RelationId::new(op.payload[1]),
                incidence: IncidenceId::new(op.payload[2]),
                role: RoleId::new(op.payload[3]),
                label: LabelId::new(op.payload[4]),
                relation_type: RelationTypeId::new(op.payload[5]),
                property_key: PropertyKeyId::new(op.payload[6]),
                projection: ProjectionId::new(op.payload[7]),
                index: IndexId::new(op.payload[8]),
            };
            Ok(())
        } else {
            Err(DbError::LogCorrupt { lsn, reason: "unknown mutation op kind" })
        }
    }

    /// Freezes this writer delta into an immutable published overlay; the
    /// log is not carried.
    pub fn freeze(self) -> (o: Overlay)
        ensures
            o.elements_d() == self.elements_d(),
            o.relations_d() == self.relations_d(),
            o.incidences_d() == self.incidences_d(),
            o.props_d() == self.props_d(),
            o.catalog_v() == self.catalog_v(),
            o.next_v() == self.next_v(),
    {
        Overlay { delta: self.delta, catalog: self.catalog, next: self.next }
    }

    /// Seeds a fresh writer from a published overlay: the writer starts with
    /// the overlay's entries, catalog, and watermark, and an empty log.
    pub fn from_overlay(parent: &Overlay) -> (w: Self)
        ensures
            w.elements_d() == parent.elements_d(),
            w.relations_d() == parent.relations_d(),
            w.incidences_d() == parent.incidences_d(),
            w.props_d() == parent.props_d(),
            w.catalog_v()@ == parent.catalog_v()@,
            w.next_v() == parent.next_v(),
            w.log_ops() == Seq::<MutationOp>::empty(),
            w.log_blob() == Seq::<u8>::empty(),
    {
        WriteOverlay {
            delta: parent.delta.copy(),
            catalog: parent.catalog.copy(),
            next: parent.next,
            log: MutationLog::new(),
        }
    }
}

/// The immutable, published delta: the entries, catalog, and watermark of a
/// frozen writer.
#[derive(Clone, Debug)]
pub struct Overlay {
    /// The published delta.
    delta: DeltaMaps,
    /// The catalog after this delta.
    catalog: Catalog,
    /// The watermark after this delta.
    next: NextIds,
}

impl Overlay {
    /// Element entries.
    pub closed spec fn elements_d(&self) -> Map<u64, Option<ElementView>> {
        self.delta.elements_d()
    }

    /// Relation entries.
    pub closed spec fn relations_d(&self) -> Map<u64, Option<RelationView>> {
        self.delta.relations_d()
    }

    /// Incidence entries.
    pub closed spec fn incidences_d(&self) -> Map<u64, Option<IncidenceRecord>> {
        self.delta.incidences_d()
    }

    /// Property entries.
    pub closed spec fn props_d(&self) -> Map<((u32, u64), u64), Option<ValueView>> {
        self.delta.props_d()
    }

    /// The catalog.
    pub closed spec fn catalog_v(&self) -> Catalog {
        self.catalog
    }

    /// The watermark.
    pub closed spec fn next_v(&self) -> NextIds {
        self.next
    }

    /// An overlay with no entries over a base whose watermark is `next` and
    /// whose catalog is `catalog`.
    pub fn empty(next: NextIds, catalog: Catalog) -> (o: Self)
        ensures
            o.elements_d() == Map::<u64, Option<ElementView>>::empty(),
            o.relations_d() == Map::<u64, Option<RelationView>>::empty(),
            o.incidences_d() == Map::<u64, Option<IncidenceRecord>>::empty(),
            o.props_d() == Map::<((u32, u64), u64), Option<ValueView>>::empty(),
            o.catalog_v() == catalog,
            o.next_v() == next,
    {
        Overlay { delta: DeltaMaps::new(), catalog, next }
    }

    /// The watermark after this overlay.
    pub fn next_ids(&self) -> (n: NextIds)
        ensures
            n == self.next_v(),
    {
        self.next
    }

    /// The catalog after this overlay.
    pub fn catalog(&self) -> (c: &Catalog)
        ensures
            *c == self.catalog_v(),
    {
        &self.catalog
    }

    /// The next published overlay: this one with `delta`'s entries applied
    /// on top (a newer entry, set or tombstone, replaces an older one), and
    /// `delta`'s catalog and watermark.
    pub fn with_applied(&self, delta: &WriteOverlay) -> (o: Self)
        ensures
            o.elements_d() == stack_deltas(self.elements_d(), delta.elements_d()),
            o.relations_d() == stack_deltas(self.relations_d(), delta.relations_d()),
            o.incidences_d() == stack_deltas(self.incidences_d(), delta.incidences_d()),
            o.props_d() == stack_deltas(self.props_d(), delta.props_d()),
            o.catalog_v()@ == delta.catalog_v()@,
            o.next_v() == delta.next_v(),
    {
        let mut maps = self.delta.copy();
        maps.apply(&delta.delta);
        Overlay { delta: maps, catalog: delta.catalog.copy(), next: delta.next }
    }
}

/// Whether `ids` lists, once each and in strictly ascending order, exactly
/// the keys of `m`.
pub open spec fn lists_ascending<V>(ids: Seq<u64>, m: Map<u64, V>) -> bool {
    &&& ids.no_duplicates()
    &&& forall|i: int, j: int| 0 <= i < j < ids.len() ==> ids[i] < ids[j]
    &&& forall|k: u64| #[trigger] ids.contains(k) <==> m.contains_key(k)
}

/// The ids visible through `delta` over a base with keys `base`, once each
/// and ascending.
fn merged_ids<R, S>(base: &BTreeMap<u64, R>, delta: &BTreeMap<u64, Option<S>>) -> (ids: Vec<u64>)
    ensures
        ids@.no_duplicates(),
        forall|i: int, j: int| 0 <= i < j < ids@.len() ==> ids@[i] < ids@[j],
        forall|k: u64| #[trigger]
            ids@.contains(k) <==> if delta@.contains_key(k) {
                delta@[k] is Some
            } else {
                base@.contains_key(k)
            },
{
    let mut visible: BTreeSet<u64> = BTreeSet::new();
    let keys = crate::state::map_keys(base);
    let mut i: usize = 0;
    while i < keys.len()
        invariant
            i <= keys@.len(),
            keys@.to_set() == base@.dom(),
            keys@.no_duplicates(),
            forall|k: u64| #[trigger]
                visible@.contains(k) <==> keys@.take(i as int).contains(k) && !delta@.contains_key(k),
        decreases keys@.len() - i,
    {
        let k = keys[i];
        if !delta.contains_key(&k) {
            visible.insert(k);
        }
        proof {
            crate::state::lemma_prefix_step(keys@, i as int);
            assert(keys@.take(i + 1) =~= keys@.subrange(0, i + 1));
            assert(keys@.take(i as int) =~= keys@.subrange(0, i as int));
        }
        i = i + 1;
    }
    proof {
        assert(keys@.take(i as int) =~= keys@);
        assert forall|k: u64| base@.contains_key(k) implies #[trigger] keys@.contains(k) by {
            assert(keys@.to_set().contains(k));
        }
    }
    let dkeys = crate::state::map_keys(delta);
    let mut j: usize = 0;
    while j < dkeys.len()
        invariant
            j <= dkeys@.len(),
            dkeys@.to_set() == delta@.dom(),
            dkeys@.no_duplicates(),
            forall|k: u64| #[trigger]
                visible@.contains(k) <==> (base@.contains_key(k) && !delta@.contains_key(k)) || (
                dkeys@.take(j as int).contains(k) && delta@[k] is Some),
        decreases dkeys@.len() - j,
    {
        let k = dkeys[j];
        proof {
            assert(dkeys@.to_set().contains(k));
        }
        match delta.get(&k) {
            Some(Some(_)) => {
                visible.insert(k);
            },
            _ => {},
        }
        proof {
            crate::state::lemma_prefix_step(dkeys@, j as int);
            assert(dkeys@.take(j + 1) =~= dkeys@.subrange(0, j + 1));
            assert(dkeys@.take(j as int) =~= dkeys@.subrange(0, j as int));
        }
        j = j + 1;
    }
    proof {
        assert(dkeys@.take(j as int) =~= dkeys@);
        assert forall|k: u64| delta@.contains_key(k) implies #[trigger] dkeys@.contains(k) by {
            assert(dkeys@.to_set().contains(k));
        }
    }
    let ids = crate::state::sorted_members(&visible);
    proof {
        assert forall|k: u64| #[trigger] ids@.contains(k) <==> visible@.contains(k) by {
            assert(ids@.to_set().contains(k) <==> ids@.contains(k));
        }
    }
    ids
}

/// The incidence a copy-on-write read holds.
pub open spec fn cow_incidence(c: Cow<IncidenceRecord>) -> IncidenceRecord {
    match c {
        Cow::Borrowed(b) => *b,
        Cow::Owned(o) => o,
    }
}

/// The merged read view of an overlay over a base snapshot: a lookup sees
/// the overlay first and falls through to the base.
pub struct MergedState<'a> {
    /// The base snapshot.
    base: &'a BaseRecords,
    /// The overlay layered on top.
    overlay: &'a Overlay,
}

impl<'a> MergedState<'a> {
    /// The base this view reads through to.
    pub closed spec fn base_v(&self) -> BaseRecords {
        *self.base
    }

    /// The overlay this view reads first.
    pub closed spec fn overlay_v(&self) -> Overlay {
        *self.overlay
    }

    /// Visible elements.
    pub open spec fn elements_v(&self) -> Map<u64, ElementView> {
        merge_layer(self.base_v().elements_v(), self.overlay_v().elements_d())
    }

    /// Visible relations.
    pub open spec fn relations_v(&self) -> Map<u64, RelationView> {
        merge_layer(self.base_v().relations_v(), self.overlay_v().relations_d())
    }

    /// Visible incidences.
    pub open spec fn incidences_v(&self) -> Map<u64, IncidenceRecord> {
        merge_layer(self.base_v().incidences_v(), self.overlay_v().incidences_d())
    }

    /// Visible properties.
    pub open spec fn props(&self) -> Map<((u32, u64), u64), ValueView> {
        merge_layer(self.base_v().props(), self.overlay_v().props_d())
    }

    /// Layers `overlay` over `base`.
    pub fn new(base: &'a BaseRecords, overlay: &'a Overlay) -> (m: Self)
        ensures
            m.base_v() == *base,
            m.overlay_v() == *overlay,
    {
        MergedState { base, overlay }
    }

    /// Reads element `id`: an overlay record is owned, a base-only record is
    /// borrowed from the base, a tombstoned or absent one is `None`.
    pub fn element(&self, id: ElementId) -> (r: Option<Cow<'a, ElementRecord>>)
        ensures
            match r {
                Some(c) => self.elements_v().contains_key(id.0) && c@ == self.elements_v()[id.0] && (c is Borrowed
                    <==> !self.overlay_v().elements_d().contains_key(id.0)),
                None => !self.elements_v().contains_key(id.0),
            },
    {
        match self.overlay.delta.elements.get(&id.get()) {
            Some(Some(record)) => Some(Cow::Owned(copy_element(record))),
            Some(None) => None,
            None => match self.base.element(id) {
                Some(record) => Some(Cow::Borrowed(record)),
                None => None,
            },
        }
    }

    /// Reads relation `id` (overlay owned, base borrowed, tombstone hidden).
    pub fn relation(&self, id: RelationId) -> (r: Option<Cow<'a, RelationRecord>>)
        ensures
            match r {
                Some(c) => self.relations_v().contains_key(id.0) && c@ == self.relations_v()[id.0] && (c is Borrowed
                    <==> !self.overlay_v().relations_d().contains_key(id.0)),
                None => !self.relations_v().contains_key(id.0),
            },
    {
        match self.overlay.delta.relations.get(&id.get()) {
            Some(Some(record)) => Some(Cow::Owned(copy_relation(record))),
            Some(None) => None,
            None => match self.base.relation(id) {
                Some(record) => Some(Cow::Borrowed(record)),
                None => None,
            },
        }
    }

    /// Reads incidence `id` (overlay owned, base borrowed, tombstone hidden).
    pub fn incidence(&self, id: IncidenceId) -> (r: Option<Cow<'a, IncidenceRecord>>)
        ensures
            match r {
                Some(c) => self.incidences_v().contains_key(id.0) && cow_incidence(c) == self.incidences_v()[id.0]
                    && (c is Borrowed <==> !self.overlay_v().incidences_d().contains_key(id.0)),
                None => !self.incidences_v().contains_key(id.0),
            },
    {
        match self.overlay.delta.incidences.get(&id.get()) {
            Some(Some(record)) => Some(Cow::Owned(*record)),
            Some(None) => None,
            None => match self.base.incidence(id) {
                Some(record) => Some(Cow::Borrowed(record)),
                None => None,
            },
        }
    }

    /// Reads `(subject, key)` (overlay owned, base borrowed, removal hidden).
    pub fn property(&self, subject: PropertySubject, key: u64) -> (r: Option<Cow<'a, PropertyValue>>)
        ensures
            match r {
                Some(c) => self.props().contains_key((subject_key(subject), key)) && c@ == self.props()[(
                    subject_key(subject),
                    key,
                )] && (c is Borrowed <==> !self.overlay_v().props_d().contains_key((subject_key(subject), key))),
                None => !self.props().contains_key((subject_key(subject), key)),
            },
    {
        let sk = crate::state::subject_key_of(subject);
        let entry = match self.overlay.delta.properties.get(&sk) {
            Some(inner) => inner.get(&key),
            None => None,
        };
        match entry {
            Some(Some(value)) => Some(Cow::Owned(copy_value(value))),
            Some(None) => None,
            None => match self.base.property(subject, key) {
                Some(value) => Some(Cow::Borrowed(value)),
                None => None,
            },
        }
    }

    /// Whether element `id` is visible.
    pub fn contains_element(&self, id: ElementId) -> (b: bool)
        ensures
            b == self.elements_v().contains_key(id.0),
    {
        self.element(id).is_some()
    }

    /// Whether relation `id` is visible.
    pub fn contains_relation(&self, id: RelationId) -> (b: bool)
        ensures
            b == self.relations_v().contains_key(id.0),
    {
        self.relation(id).is_some()
    }

    /// Whether incidence `id` is visible.
    pub fn contains_incidence(&self, id: IncidenceId) -> (b: bool)
        ensures
            b == self.incidences_v().contains_key(id.0),
    {
        self.incidence(id).is_some()
    }

    /// The visible element ids, once each, in strictly ascending order:
    /// exactly the ids with an overlay record, or a base record and no
    /// overlay entry.
    pub fn element_ids(&self) -> (ids: Vec<u64>)
        ensures
            lists_ascending(ids@, self.elements_v()),
    {
        merged_ids(&self.base.elements, &self.overlay.delta.elements)
    }

    /// The visible relation ids, once each, ascending.
    pub fn relation_ids(&self) -> (ids: Vec<u64>)
        ensures
            lists_ascending(ids@, self.relations_v()),
    {
        merged_ids(&self.base.relations, &self.overlay.delta.relations)
    }

    /// The visible incidence ids, once each, ascending.
    pub fn incidence_ids(&self) -> (ids: Vec<u64>)
        ensures
            lists_ascending(ids@, self.incidences_v()),
    {
        merged_ids(&self.base.incidences, &self.overlay.delta.incidences)
    }

    /// The number of visible elements.
    pub fn element_count(&self) -> (n: usize)
        ensures
            n == self.elements_v().dom().len(),
    {
        let ids = self.element_ids();
        proof {
            ids@.unique_seq_to_set();
            assert(ids@.to_set() =~= self.elements_v().dom());
        }
        ids.len()
    }

    /// The number of visible relations.
    pub fn relation_count(&self) -> (n: usize)
        ensures
            n == self.relations_v().dom().len(),
    {
        let ids = self.relation_ids();
        proof {
            ids@.unique_seq_to_set();
            assert(ids@.to_set() =~= self.relations_v().dom());
        }
        ids.len()
    }

    /// The number of visible incidences.
    pub fn incidence_count(&self) -> (n: usize)
        ensures
            n == self.incidences_v().dom().len(),
    {
        let ids = self.incidence_ids();
        proof {
            ids@.unique_seq_to_set();
            assert(ids@.to_set() =~= self.incidences_v().dom());
        }
        ids.len()
    }

    /// Folds the merged view into a new base snapshot holding exactly the
    /// visible records and properties.
    pub fn to_base(&self) -> (b: BaseRecords)
        ensures
            b.elements_v() == self.elements_v(),
            b.relations_v() == self.relations_v(),
            b.incidences_v() == self.incidences_v(),
            b.props() == self.props(),
    {
        let mut elements = self.base.elements.clone();
        let keys = crate::state::map_keys(&self.overlay.delta.elements);
        let mut i: usize = 0;
        while i < keys.len()
            invariant
                i <= keys@.len(),
                keys@.to_set() == self.overlay.delta.elements@.dom(),
                keys@.no_duplicates(),
                crate::state::element_views(elements@) == merge_layer(
                    self.base_v().elements_v(),
                    self.overlay_v().elements_d().restrict(keys@.take(i as int).to_set()),
                ),
            decreases keys@.len() - i,
        {
            let k = keys[i];
            proof {
                assert(keys@.to_set().contains(k));
                crate::state::lemma_prefix_step(keys@, i as int);
                assert(keys@.take(i + 1) =~= keys@.subrange(0, i + 1));
                assert(keys@.take(i as int) =~= keys@.subrange(0, i as int));
            }
            match self.overlay.delta.elements.get(&k) {
                Some(Some(r)) => {
                    let c = copy_element(r);
                    let ghost before = elements@;
                    elements.insert(k, c);
                    proof {
                        assert(self.overlay_v().elements_d()[k] == Some(r@));
                        assert(elements@ == before.insert(k, c));
                        assert(crate::state::element_views(elements@) =~= crate::state::element_views(before).insert(k, r@));
                    }
                },
                _ => {
                    let ghost before = elements@;
                    elements.remove(&k);
                    proof {
                        assert(self.overlay_v().elements_d()[k] is None);
                        assert(crate::state::element_views(elements@) =~= crate::state::element_views(before).remove(k));
                    }
                },
            }
            proof {
                assert(crate::state::element_views(elements@) =~= merge_layer(
                    self.base_v().elements_v(),
                    self.overlay_v().elements_d().restrict(keys@.take(i + 1).to_set()),
                ));
            }
            i = i + 1;
        }
        proof {
            assert(keys@.take(i as int) =~= keys@);
            assert(self.overlay_v().elements_d().restrict(keys@.to_set()) =~= self.overlay_v().elements_d());
        }
        let mut relations = self.base.relations.clone();
        let keys = crate::state::map_keys(&self.overlay.delta.relations);
        let mut i: usize = 0;
        while i < keys.len()
            invariant
                i <= keys@.len(),
                keys@.to_set() == self.overlay.delta.relations@.dom(),
                keys@.no_duplicates(),
                crate::state::relation_views(relations@) == merge_layer(
                    self.base_v().relations_v(),
                    self.overlay_v().relations_d().restrict(keys@.take(i as int).to_set()),
                ),
            decreases keys@.len() - i,
        {
            let k = keys[i];
            proof {
                assert(keys@.to_set().contains(k));
                crate::state::lemma_prefix_step(keys@, i as int);
                assert(keys@.take(i + 1) =~= keys@.subrange(0, i + 1));
                assert(keys@.take(i as int) =~= keys@.subrange(0, i as int));
            }
            match self.overlay.delta.relations.get(&k) {
                Some(Some(r)) => {
                    let c = copy_relation(r);
                    let ghost before = relations@;
                    relations.insert(k, c);
                    proof {
                        assert(self.overlay_v().relations_d()[k] == Some(r@));
                        assert(crate::state::relation_views(relations@) =~= crate::state::relation_views(before).insert(k, r@));
                    }
                },
                _ => {
                    let ghost before = relations@;
                    relations.remove(&k);
                    proof {
                        assert(self.overlay_v().relations_d()[k] is None);
                        assert(crate::state::relation_views(relations@) =~= crate::state::relation_views(before).remove(k));
                    }
                },
            }
            proof {
                assert(crate::state::relation_views(relations@) =~= merge_layer(
                    self.base_v().relations_v(),
                    self.overlay_v().relations_d().restrict(keys@.take(i + 1).to_set()),
                ));
            }
            i = i + 1;
        }
        proof {
            assert(keys@.take(i as int) =~= keys@);
            assert(self.overlay_v().relations_d().restrict(keys@.to_set()) =~= self.overlay_v().relations_d());
        }
        let mut incidences = self.base.incidences.clone();
        let keys = crate::state::map_keys(&self.overlay.delta.incidences);
        let mut i: usize = 0;
        while i < keys.len()
            invariant
                i <= keys@.len(),
                keys@.to_set() == self.overlay.delta.incidences@.dom(),
                keys@.no_duplicates(),
                incidences@ == merge_layer(
                    self.base_v().incidences_v(),
                    self.overlay_v().incidences_d().restrict(keys@.take(i as int).to_set()),
                ),
            decreases keys@.len() - i,
        {
            let k = keys[i];
            proof {
                assert(keys@.to_set().contains(k));
                crate::state::lemma_prefix_step(keys@, i as int);
                assert(keys@.take(i + 1) =~= keys@.subrange(0, i + 1));
                assert(keys@.take(i as int) =~= keys@.subrange(0, i as int));
            }
            match self.overlay.delta.incidences.get(&k) {
                Some(Some(r)) => {
                    incidences.insert(k, *r);
                },
                _ => {
                    incidences.remove(&k);
                },
            }
            proof {
                assert(incidences@ =~= merge_layer(
                    self.base_v().incidences_v(),
                    self.overlay_v().incidences_d().restrict(keys@.take(i + 1).to_set()),
                ));
            }
            i = i + 1;
        }
        proof {
            assert(keys@.take(i as int) =~= keys@);
            assert(self.overlay_v().incidences_d().restrict(keys@.to_set()) =~= self.overlay_v().incidences_d());
        }
        let mut properties = self.base.properties.clone();
        let subjects = crate::state::map_keys(&self.overlay.delta.properties);
        let mut i: usize = 0;
        while i < subjects.len()
            invariant
                i <= subjects@.len(),
                subjects@.to_set() == self.overlay.delta.properties@.dom(),
                subjects@.no_duplicates(),
                flatten_values(properties@) == merge_layer(
                    self.base_v().props(),
                    self.overlay_v().props_d().restrict(
                        Set::new(|p: ((u32, u64), u64)| subjects@.take(i as int).contains(p.0)),
                    ),
                ),
            decreases subjects@.len() - i,
        {
            let sk = subjects[i];
            proof {
                assert(subjects@.to_set().contains(sk));
            }

            let inner_opt = self.overlay.delta.properties.get(&sk);
            if let Some(inner) = inner_opt {
            let keys = crate::state::map_keys(inner);
            let ghost mid = flatten_values(properties@);
            let mut j: usize = 0;
            while j < keys.len()
                invariant
                    j <= keys@.len(),
                    keys@.to_set() == inner@.dom(),
                    keys@.no_duplicates(),
                    self.overlay.delta.properties@.contains_key(sk),
                    self.overlay.delta.properties@[sk] == *inner,
                    flatten_values(properties@) == merge_layer(
                        mid,
                        self.overlay_v().props_d().restrict(
                            Set::new(|p: ((u32, u64), u64)| p.0 == sk && keys@.take(j as int).contains(p.1)),
                        ),
                    ),
                decreases keys@.len() - j,
            {
                let k = keys[j];
                proof {
                    assert(keys@.to_set().contains(k));
                    crate::state::lemma_prefix_step(keys@, j as int);
                    assert(keys@.take(j + 1) =~= keys@.subrange(0, j + 1));
                    assert(keys@.take(j as int) =~= keys@.subrange(0, j as int));
                }
                let ghost before = flatten_values(properties@);
                let mut values = match properties.remove(&sk) {
                    Some(m) => m,
                    None => BTreeMap::new(),
                };
                let ghost removed = properties@;
                match inner.get(&k) {
                    Some(Some(v)) => {
                        values.insert(k, copy_value(v));
                        properties.insert(sk, values);
                        proof {
                            assert(self.overlay_v().props_d()[(sk, k)] == Some(v@));
                            assert(flatten_values(properties@) =~= before.insert((sk, k), v@));
                        }
                    },
                    _ => {
                        values.remove(&k);
                        properties.insert(sk, values);
                        proof {
                            assert(self.overlay_v().props_d()[(sk, k)] is None);
                            assert(flatten_values(properties@) =~= before.remove((sk, k)));
                        }
                    },
                }
                proof {
                    assert(flatten_values(properties@) =~= merge_layer(
                        mid,
                        self.overlay_v().props_d().restrict(
                            Set::new(|p: ((u32, u64), u64)| p.0 == sk && keys@.take(j + 1).contains(p.1)),
                        ),
                    ));
                }
                j = j + 1;
            }
            proof {
                assert(keys@.take(j as int) =~= keys@);
                crate::state::lemma_prefix_step(subjects@, i as int);
                assert(subjects@.take(i + 1) =~= subjects@.subrange(0, i + 1));
                assert(subjects@.take(i as int) =~= subjects@.subrange(0, i as int));
                assert forall|p: ((u32, u64), u64)| p.0 == sk && self.overlay_v().props_d().contains_key(p) implies keys@.contains(
                    p.1,
                ) by {
                    assert(inner@.dom().contains(p.1));
                    assert(keys@.to_set().contains(p.1));
                }
                assert(flatten_values(properties@) =~= merge_layer(
                    self.base_v().props(),
                    self.overlay_v().props_d().restrict(
                        Set::new(|p: ((u32, u64), u64)| subjects@.take(i + 1).contains(p.0)),
                    ),
                ));
            }
            } else {
                proof {
                    assert(false);
                }
            }
            i = i + 1;
        }
        proof {
            assert(subjects@.take(i as int) =~= subjects@);
            assert(self.overlay_v().props_d().restrict(
                Set::new(|p: ((u32, u64), u64)| subjects@.contains(p.0)),
            ) =~= self.overlay_v().props_d()) by {
                assert forall|p: ((u32, u64), u64)| self.overlay_v().props_d().contains_key(p) implies subjects@.contains(
                    p.0,
                ) by {
                    assert(subjects@.to_set().contains(p.0));
                }
            }
        }
        let b = BaseRecords { elements, relations, incidences, properties };
        proof {
            assert(b.elements_v() =~= self.elements_v());
            assert(b.relations_v() =~= self.relations_v());
            assert(b.props() =~= self.props());
        }
        b
    }

    /// The visible elements carrying `label`, ascending by id.
    pub fn elements_with_label(&self, label: LabelId) -> (r: Vec<ElementId>)
        ensures
            r@.map_values(|e: ElementId| e.0) == sorted_listing(labelled(self.elements_v(), label.0)),
    {
        let ids = self.element_ids();
        let ghost sel = labelled(self.elements_v(), label.0);
        let mut out: Vec<ElementId> = Vec::new();
        let ghost mut ks: Seq<u64> = Seq::empty();
        let mut i: usize = 0;
        proof {
            assert(ks.to_set() =~= sel.intersect(ids@.take(0).to_set()));
        }
        while i < ids.len()
            invariant
                lists_ascending(ids@, self.elements_v()),
                i <= ids@.len(),
                ascending(ks),
                ks.to_set() == sel.intersect(ids@.take(i as int).to_set()),
                out@.map_values(|e: ElementId| e.0) == ks,
                sel == labelled(self.elements_v(), label.0),
            decreases ids@.len() - i,
        {
            let k = ids[i];
            proof {
                assert(ids@.contains(k));
            }
            let hit = match self.element(ElementId::new(k)) {
                Some(Cow::Borrowed(record)) => record.labels.contains(&label.get()),
                Some(Cow::Owned(record)) => record.labels.contains(&label.get()),
                None => false,
            };
            proof {
                lemma_select_step(ids@, i as int, ks, sel);
            }
            if hit {
                proof {
                    assert(sel.contains(k));
                    ks = ks.push(k);
                }
                out.push(ElementId::new(k));
                proof {
                    assert(out@.map_values(|e: ElementId| e.0) =~= ks);
                }
            } else {
                proof {
                    assert(!sel.contains(k));
                }
            }
            i = i + 1;
        }
        proof {
            lemma_select_done(ids@, ks, sel, self.elements_v().dom());
        }
        out
    }

    /// The visible relations of type `relation_type`, ascending by id.
    pub fn relations_with_type(&self, relation_type: RelationTypeId) -> (r: Vec<RelationId>)
        ensures
            r@.map_values(|e: RelationId| e.0) == sorted_listing(typed(self.relations_v(), relation_type.0)),
    {
        let ids = self.relation_ids();
        let ghost sel = typed(self.relations_v(), relation_type.0);
        let mut out: Vec<RelationId> = Vec::new();
        let ghost mut ks: Seq<u64> = Seq::empty();
        let mut i: usize = 0;
        proof {
            assert(ks.to_set() =~= sel.intersect(ids@.take(0).to_set()));
        }
        while i < ids.len()
            invariant
                lists_ascending(ids@, self.relations_v()),
                i <= ids@.len(),
                ascending(ks),
                ks.to_set() == sel.intersect(ids@.take(i as int).to_set()),
                out@.map_values(|e: RelationId| e.0) == ks,
                sel == typed(self.relations_v(), relation_type.0),
            decreases ids@.len() - i,
        {
            let k = ids[i];
            proof {
                assert(ids@.contains(k));
            }
            let found = match self.relation(RelationId::new(k)) {
                Some(Cow::Borrowed(record)) => Some(record.relation_type),
                Some(Cow::Owned(record)) => Some(record.relation_type),
                None => None,
            };
            let hit = match found {
                Some(Some(t)) => t.get() == relation_type.get(),
                _ => false,
            };
            proof {
                lemma_select_step(ids@, i as int, ks, sel);
            }
            if hit {
                proof {
                    assert(sel.contains(k));
                    ks = ks.push(k);
                }
                out.push(RelationId::new(k));
                proof {
                    assert(out@.map_values(|e: RelationId| e.0) =~= ks);
                }
            } else {
                proof {
                    assert(!sel.contains(k));
                }
            }
            i = i + 1;
        }
        proof {
            lemma_select_done(ids@, ks, sel, self.relations_v().dom());
        }
        out
    }

    /// The visible incidences whose element (when `by_element`) or relation
    /// (otherwise) is `owner`, ascending by incidence id.
    fn incidences_owned_by(&self, owner: u64, by_element: bool) -> (r: Vec<IncidenceRecord>)
        ensures
            r@ == sorted_listing(owned_by(self.incidences_v(), owner, by_element)).map_values(
                |k: u64| self.incidences_v()[k],
            ),
    {
        let ids = self.incidence_ids();
        let ghost sel = owned_by(self.incidences_v(), owner, by_element);
        let mut out: Vec<IncidenceRecord> = Vec::new();
        let ghost mut ks: Seq<u64> = Seq::empty();
        let mut i: usize = 0;
        proof {
            assert(ks.to_set() =~= sel.intersect(ids@.take(0).to_set()));
        }
        while i < ids.len()
            invariant
                lists_ascending(ids@, self.incidences_v()),
                i <= ids@.len(),
                ascending(ks),
                ks.to_set() == sel.intersect(ids@.take(i as int).to_set()),
                out@ == ks.map_values(|k: u64| self.incidences_v()[k]),
                sel == owned_by(self.incidences_v(), owner, by_element),
            decreases ids@.len() - i,
        {
            let k = ids[i];
            proof {
                assert(ids@.contains(k));
            }
            let found = self.incidence(IncidenceId::new(k));
            proof {
                lemma_select_step(ids@, i as int, ks, sel);
            }
            match found {
                Some(c) => {
                    let record: IncidenceRecord = match c {
                        Cow::Borrowed(b) => *b,
                        Cow::Owned(o) => o,
                    };
                    let hit = if by_element {
                        record.element.get() == owner
                    } else {
                        record.relation.get() == owner
                    };
                    if hit {
                        proof {
                            assert(sel.contains(k));
                            ks = ks.push(k);
                        }
                        out.push(record);
                        proof {
                            assert(out@ =~= ks.map_values(|k: u64| self.incidences_v()[k]));
                        }
                    } else {
                        proof {
                            assert(!sel.contains(k));
                        }
                    }
                },
                None => {
                    proof {
                        assert(!sel.contains(k));
                    }
                },
            }
            i = i + 1;
        }
        proof {
            lemma_select_done(ids@, ks, sel, self.incidences_v().dom());
        }
        out
    }

    /// The visible incidences attaching `element`, ascending by incidence id.
    pub fn element_incidences(&self, element: ElementId) -> (r: Vec<IncidenceRecord>)
        ensures
            r@ == sorted_listing(owned_by(self.incidences_v(), element.0, true)).map_values(
                |k: u64| self.incidences_v()[k],
            ),
    {
        self.incidences_owned_by(element.get(), true)
    }

    /// The visible incidences of `relation`, ascending by incidence id.
    pub fn relation_incidences(&self, relation: RelationId) -> (r: Vec<IncidenceRecord>)
        ensures
            r@ == sorted_listing(owned_by(self.incidences_v(), relation.0, false)).map_values(
                |k: u64| self.incidences_v()[k],
            ),
    {
        self.incidences_owned_by(relation.get(), false)
    }

    /// The visible properties of the subject with map key `sk`.
    pub open spec fn subject_props_k(&self, sk: (u32, u64)) -> Map<u64, ValueView> {
        Map::new(|k: u64| self.props().contains_key((sk, k)), |k: u64| self.props()[(sk, k)])
    }

    /// The visible properties of `subject`.
    pub open spec fn subject_props(&self, subject: PropertySubject) -> Map<u64, ValueView> {
        self.subject_props_k(subject_key(subject))
    }

    /// Builds the visible property map of the subject with map key `sk`:
    /// its base values, overridden or hidden by the overlay's entries.
    fn merged_subject_map(&self, sk: (u32, u64)) -> (m: BTreeMap<u64, PropertyValue>)
        ensures
            value_views(m@) == self.subject_props_k(sk),
    {
        let ghost base_part = Map::new(
            |k: u64| self.base_v().props().contains_key((sk, k)),
            |k: u64| self.base_v().props()[(sk, k)],
        );
        let ghost delta_part = Map::new(
            |k: u64| self.overlay_v().props_d().contains_key((sk, k)),
            |k: u64| self.overlay_v().props_d()[(sk, k)],
        );
        let mut m: BTreeMap<u64, PropertyValue> = BTreeMap::new();
        match self.base.properties.get(&sk) {
            Some(inner) => {
                let keys = sorted_keys(inner);
                let mut i: usize = 0;
                proof {
                    assert(value_views(m@) =~= value_views(inner@).restrict(keys@.take(0).to_set()));
                }
                while i < keys.len()
                    invariant
                        i <= keys@.len(),
                        keys@.to_set() == inner@.dom(),
                        keys@.no_duplicates(),
                        value_views(m@) == value_views(inner@).restrict(keys@.take(i as int).to_set()),
                    decreases keys@.len() - i,
                {
                    let k = keys[i];
                    proof {
                        assert(keys@.to_set().contains(k));
                        lemma_prefix_step(keys@, i as int);
                        assert(keys@.take(i + 1) =~= keys@.subrange(0, i + 1));
                        assert(keys@.take(i as int) =~= keys@.subrange(0, i as int));
                    }
                    let ghost before = m@;
                    match inner.get(&k) {
                        Some(v) => {
                            m.insert(k, copy_value(v));
                        },
                        None => {},
                    }
                    proof {
                        assert(inner@.contains_key(k));
                        assert(value_views(m@) =~= value_views(before).insert(k, inner@[k]@));
                        assert(keys@.take(i + 1).to_set() =~= keys@.take(i as int).to_set().insert(k)) by {
                            assert forall|x: u64| keys@.take(i + 1).to_set().contains(x) <==> keys@.take(
                                i as int,
                            ).to_set().contains(x) || x == k by {
                                assert(keys@.take(i + 1).contains(x) == keys@.subrange(0, i + 1).contains(x));
                                assert(keys@.take(i as int).contains(x) == keys@.subrange(0, i as int).contains(x));
                            }
                        }
                        assert(value_views(m@) =~= value_views(inner@).restrict(keys@.take(i + 1).to_set()));
                    }
                    i = i + 1;
                }
                proof {
                    assert(keys@.take(i as int) =~= keys@);
                    assert(value_views(m@) =~= base_part);
                }
            },
            None => {
                proof {
                    assert(value_views(m@) =~= base_part);
                }
            },
        }
        match self.overlay.delta.properties.get(&sk) {
            Some(inner) => {
                let keys = sorted_keys(inner);
                let mut j: usize = 0;
                proof {
                    assert(value_views(m@) =~= merge_layer(base_part, delta_part.restrict(keys@.take(0).to_set())));
                }
                while j < keys.len()
                    invariant
                        j <= keys@.len(),
                        keys@.to_set() == inner@.dom(),
                        keys@.no_duplicates(),
                        self.overlay.delta.properties@.contains_key(sk),
                        self.overlay.delta.properties@[sk] == *inner,
                        base_part == Map::new(
                            |k: u64| self.base_v().props().contains_key((sk, k)),
                            |k: u64| self.base_v().props()[(sk, k)],
                        ),
                        delta_part == Map::new(
                            |k: u64| self.overlay_v().props_d().contains_key((sk, k)),
                            |k: u64| self.overlay_v().props_d()[(sk, k)],
                        ),
                        value_views(m@) == merge_layer(base_part, delta_part.restrict(keys@.take(j as int).to_set())),
                    decreases keys@.len() - j,
                {
                    let k = keys[j];
                    proof {
                        assert(keys@.to_set().contains(k));
                        lemma_prefix_step(keys@, j as int);
                        assert(keys@.take(j + 1) =~= keys@.subrange(0, j + 1));
                        assert(keys@.take(j as int) =~= keys@.subrange(0, j as int));
                    }
                    let ghost before = m@;
                    match inner.get(&k) {
                        Some(Some(v)) => {
                            m.insert(k, copy_value(v));
                            proof {
                                assert(value_views(m@) =~= value_views(before).insert(k, v@));
                            }
                        },
                        _ => {
                            m.remove(&k);
                            proof {
                                assert(value_views(m@) =~= value_views(before).remove(k));
                            }
                        },
                    }
                    proof {
                        assert(keys@.take(j + 1).to_set() =~= keys@.take(j as int).to_set().insert(k)) by {
                            assert forall|x: u64| keys@.take(j + 1).to_set().contains(x) <==> keys@.take(
                                j as int,
                            ).to_set().contains(x) || x == k by {
                                assert(keys@.take(j + 1).contains(x) == keys@.subrange(0, j + 1).contains(x));
                                assert(keys@.take(j as int).contains(x) == keys@.subrange(0, j as int).contains(x));
                            }
                        }
                        assert(inner@.contains_key(k));
                        assert(delta_part.contains_key(k));
                        assert(value_views(m@) =~= merge_layer(
                            base_part,
                            delta_part.restrict(keys@.take(j + 1).to_set()),
                        ));
                    }
                    j = j + 1;
                }
                proof {
                    assert(keys@.take(j as int) =~= keys@);
                    assert(delta_part.restrict(keys@.to_set()) =~= delta_part);
                    assert(value_views(m@) =~= self.subject_props_k(sk));
                }
            },
            None => {
                proof {
                    assert(delta_part =~= Map::<u64, Option<ValueView>>::empty());
                    assert(value_views(m@) =~= self.subject_props_k(sk));
                }
            },
        }
        m
    }

    /// The visible properties of `subject`, ascending by key.
    pub fn subject_properties(&self, subject: PropertySubject) -> (r: Vec<(PropertyKeyId, PropertyValue)>)
        ensures
            r@.map_values(|p: (PropertyKeyId, PropertyValue)| p.0.0) == sorted_listing(
                self.subject_props(subject).dom(),
            ),
            forall|t: int|
                0 <= t < r@.len() ==> (#[trigger] r@[t]).1@ == self.subject_props(subject)[r@[t].0.0],
    {
        let m = self.merged_subject_map(crate::state::subject_key_of(subject));
        let keys = sorted_keys(&m);
        let mut out: Vec<(PropertyKeyId, PropertyValue)> = Vec::new();
        let mut i: usize = 0;
        while i < keys.len()
            invariant
                i <= keys@.len(),
                keys@.to_set() == m@.dom(),
                forall|a: int, b: int| 0 <= a < b < keys@.len() ==> keys@[a] < keys@[b],
                value_views(m@) == self.subject_props(subject),
                out@.map_values(|p: (PropertyKeyId, PropertyValue)| p.0.0) == keys@.take(i as int),
                forall|t: int| 0 <= t < out@.len() ==> (#[trigger] out@[t]).1@ == self.subject_props(subject)[out@[t].0.0],
            decreases keys@.len() - i,
        {
            let k = keys[i];
            proof {
                assert(keys@.to_set().contains(k));
            }
            let v = match m.get(&k) {
                Some(v) => copy_value(v),
                None => {
                    proof {
                        assert(false);
                    }
                    return out;
                },
            };
            let ghost before = out@;
            out.push((PropertyKeyId::new(k), v));
            proof {
                assert(out@ == before.push((PropertyKeyId(k), v)));
                assert(keys@.take(i + 1) =~= keys@.take(i as int).push(k));
                assert(out@.map_values(|p: (PropertyKeyId, PropertyValue)| p.0.0) =~= before.map_values(
                    |p: (PropertyKeyId, PropertyValue)| p.0.0,
                ).push(k));
                assert(out@.map_values(|p: (PropertyKeyId, PropertyValue)| p.0.0) =~= keys@.take(i + 1));
            }
            i = i + 1;
        }
        proof {
            assert(keys@.take(i as int) =~= keys@);
            assert(m@.dom() =~= self.subject_props(subject).dom());
            lemma_sorted_listing(keys@);
        }
        out
    }

    /// Lists, once each, the subjects whose visible properties satisfy `q`.
    fn scan_subjects(&self, q: &PropertyQuery) -> (r: Vec<PropertySubject>)
        requires
            q matches PropertyQuery::Composite { keys, values } ==> keys@.len() == values@.len(),
        ensures
            r@.no_duplicates(),
            subjects_ascending(r@),
            forall|s: PropertySubject| #[trigger] r@.contains(s) <==> query_holds(*q, self.subject_props(s)),
    {
        let keys = self.property_subject_keys();
        let mut out: Vec<PropertySubject> = Vec::new();
        let mut i: usize = 0;
        while i < keys.len()
            invariant
                q matches PropertyQuery::Composite { keys, values } ==> keys@.len() == values@.len(),
                i <= keys@.len(),
                keys@.to_set() == self.base.properties@.dom() + self.overlay.delta.properties@.dom(),
                keys@.no_duplicates(),
                forall|a: int, b: int| 0 <= a < b < keys@.len() ==> key_pair_lt(keys@[a], keys@[b]),
                out@.no_duplicates(),
                subjects_ascending(out@),
                forall|s: PropertySubject| #[trigger]
                    out@.contains(s) <==> keys@.subrange(0, i as int).contains(subject_key(s)) && query_holds(
                        *q,
                        self.subject_props(s),
                    ),
            decreases keys@.len() - i,
        {
            let k = keys[i];
            let ghost s0 = keys@.subrange(0, i as int);
            let ghost s1 = keys@.subrange(0, i as int + 1);
            proof {
                assert forall|j: (u32, u64)| #[trigger] s1.contains(j) <==> (s0.contains(j) || j == k) by {
                    if s1.contains(j) {
                        let x = choose|x: int| 0 <= x < s1.len() && #[trigger] s1[x] == j;
                        if x < s0.len() {
                            assert(s0[x] == j);
                        }
                    }
                    if s0.contains(j) {
                        let x = choose|x: int| 0 <= x < s0.len() && #[trigger] s0[x] == j;
                        assert(s1[x] == j);
                    }
                    if j == k {
                        assert(s1[s0.len() as int] == j);
                    }
                }
                assert(!s0.contains(k)) by {
                    if s0.contains(k) {
                        let x = choose|x: int| 0 <= x < s0.len() && #[trigger] s0[x] == k;
                        assert(keys@[x] == keys@[i as int]);
                    }
                }
            }
            match crate::wire::decode_subject(k.0, k.1) {
                Some(subject) => {
                    proof {
                        assert(subject_key(subject) == k);
                    }
                    let values = self.merged_subject_map(k);
                    if values_match(&values, q) {
                        proof {
                            assert(!out@.contains(subject));
                            assert forall|t: int| 0 <= t < out@.len() implies key_pair_lt(
                                subject_key(#[trigger] out@[t]),
                                k,
                            ) by {
                                assert(out@.contains(out@[t]));
                                let x = choose|x: int| 0 <= x < s0.len() && #[trigger] s0[x] == subject_key(out@[t]);
                                assert(keys@[x] == s0[x]);
                            }
                        }
                        let ghost before = out@;
                        out.push(subject);
                        proof {
                            assert forall|a: int, b: int| 0 <= a < b < out@.len() implies key_pair_lt(
                                subject_key(out@[a]),
                                subject_key(out@[b]),
                            ) by {
                                if b == before.len() {
                                    assert(out@[a] == before[a]);
                                } else {
                                    assert(out@[a] == before[a] && out@[b] == before[b]);
                                }
                            }
                            assert forall|s: PropertySubject| #[trigger]
                                out@.contains(s) <==> s1.contains(subject_key(s)) && query_holds(
                                    *q,
                                    self.subject_props(s),
                                ) by {
                                if s == subject {
                                    assert(out@[before.len() as int] == subject);
                                } else {
                                    assert(out@.contains(s) <==> before.contains(s)) by {
                                        if out@.contains(s) {
                                            let x = choose|x: int| 0 <= x < out@.len() && #[trigger] out@[x] == s;
                                            assert(x < before.len());
                                            assert(before[x] == s);
                                        }
                                        if before.contains(s) {
                                            let x = choose|x: int| 0 <= x < before.len() && #[trigger] before[x] == s;
                                            assert(out@[x] == s);
                                        }
                                    }
                                    crate::wire::lemma_subject_roundtrip(s);
                                    crate::wire::lemma_subject_roundtrip(subject);
                                }
                            }
                        }
                    } else {
                        proof {
                            assert forall|s: PropertySubject| #[trigger]
                                out@.contains(s) <==> s1.contains(subject_key(s)) && query_holds(
                                    *q,
                                    self.subject_props(s),
                                ) by {
                                if subject_key(s) == k {
                                    crate::wire::lemma_subject_roundtrip(s);
                                    crate::wire::lemma_subject_roundtrip(subject);
                                }
                            }
                        }
                    }
                },
                None => {
                    proof {
                        assert forall|s: PropertySubject| #[trigger]
                            out@.contains(s) <==> s1.contains(subject_key(s)) && query_holds(
                                *q,
                                self.subject_props(s),
                            ) by {
                            crate::wire::lemma_subject_roundtrip(s);
                        }
                    }
                },
            }
            i = i + 1;
        }
        proof {
            assert(keys@.subrange(0, i as int) =~= keys@);
            assert forall|s: PropertySubject| #[trigger] query_holds(*q, self.subject_props(s)) implies keys@.contains(
                subject_key(s),
            ) by {
                let sk = subject_key(s);
                let m = self.subject_props(s);
                let k = choose|k: u64| m.contains_key(k);
                assert(m.contains_key(k)) by {
                    match *q {
                        PropertyQuery::Composite { keys, values } => {
                            assert(!m.dom().is_empty());
                            let w = m.dom().choose();
                            assert(m.dom().contains(w));
                        },
                        _ => {},
                    }
                }
                assert(self.props().contains_key((sk, k)));
                if self.overlay_v().props_d().contains_key((sk, k)) {
                    assert(self.overlay.delta.properties@.contains_key(sk));
                } else {
                    assert(self.base_v().props().contains_key((sk, k)));
                    assert(self.base.properties@.contains_key(sk));
                }
                assert(keys@.to_set().contains(sk));
            }
        }
        out
    }

    /// Subjects whose visible property `key` equals `value`, once each, in ascending subject order.
    pub fn property_equal(&self, key: PropertyKeyId, value: &PropertyValue) -> (r: Vec<PropertySubject>)
        ensures
            r@.no_duplicates(),
            subjects_ascending(r@),
            forall|s: PropertySubject| #[trigger]
                r@.contains(s) <==> equal_match(self.subject_props(s), key.0, value@),
    {
        self.scan_subjects(&PropertyQuery::Equal { key: key.get(), value })
    }

    /// Subjects whose visible property `key` lies in the inclusive range
    /// `[min, max]` of the value order, once each, in ascending subject order.
    pub fn property_range(&self, key: PropertyKeyId, min: &PropertyValue, max: &PropertyValue) -> (r: Vec<
        PropertySubject,
    >)
        ensures
            r@.no_duplicates(),
            subjects_ascending(r@),
            forall|s: PropertySubject| #[trigger]
                r@.contains(s) <==> range_match(self.subject_props(s), key.0, min@, max@),
    {
        self.scan_subjects(&PropertyQuery::Range { key: key.get(), min, max })
    }

    /// The error, if any, that checking a lookup value against key `key` in
    /// the merged catalog reports: an unknown key, or a value of another type.
    pub open spec fn lookup_error(&self, key: PropertyKeyId, value: ValueView) -> Option<DbError> {
        match key_definition(self.overlay_v().catalog_v().property_keys@, key.0) {
            None => Some(DbError::UnknownPropertyKey { id: key }),
            Some(d) => if d.value_type != value_type_of(value) {
                Some(DbError::PropertyTypeMismatch { expected: d.value_type, actual: value_type_of(value) })
            } else {
                None
            },
        }
    }

    /// The error, if any, that checking a lookup value and a subject family
    /// against key `key` in the merged catalog reports.
    pub open spec fn family_lookup_error(&self, key: PropertyKeyId, family: PropertyFamily, value: ValueView) -> Option<
        DbError,
    > {
        match key_definition(self.overlay_v().catalog_v().property_keys@, key.0) {
            None => Some(DbError::UnknownPropertyKey { id: key }),
            Some(d) => if d.family != family {
                Some(DbError::WrongPropertyFamily { expected: d.family, actual: family })
            } else if d.value_type != value_type_of(value) {
                Some(DbError::PropertyTypeMismatch { expected: d.value_type, actual: value_type_of(value) })
            } else {
                None
            },
        }
    }

    /// Checks a lookup value against its key's declared type.
    pub fn validate_lookup_value(&self, key: PropertyKeyId, value: &PropertyValue) -> (r: Result<(), DbError>)
        ensures
            match self.lookup_error(key, value@) {
                Some(e) => r == Err::<(), DbError>(e),
                None => r is Ok,
            },
    {
        let definition = match self.overlay.catalog.property_key(key) {
            Some(d) => d,
            None => return Err(DbError::UnknownPropertyKey { id: key }),
        };
        let actual = value.value_type();
        if definition.value_type != actual {
            return Err(DbError::PropertyTypeMismatch { expected: definition.value_type, actual });
        }
        Ok(())
    }

    /// Checks a lookup value and a subject family against a key's schema.
    pub fn validate_lookup_value_for_family(&self, key: PropertyKeyId, family: PropertyFamily, value: &PropertyValue) -> (r:
        Result<(), DbError>)
        ensures
            match self.family_lookup_error(key, family, value@) {
                Some(e) => r == Err::<(), DbError>(e),
                None => r is Ok,
            },
    {
        let definition = match self.overlay.catalog.property_key(key) {
            Some(d) => d,
            None => return Err(DbError::UnknownPropertyKey { id: key }),
        };
        if definition.family != family {
            return Err(DbError::WrongPropertyFamily { expected: definition.family, actual: family });
        }
        let actual = value.value_type();
        if definition.value_type != actual {
            return Err(DbError::PropertyTypeMismatch { expected: definition.value_type, actual });
        }
        Ok(())
    }

    /// Subjects whose visible property `key` equals `value`, after checking
    /// the value against the key's declared type.
    pub fn typed_property_equal(&self, key: PropertyKeyId, value: &PropertyValue) -> (r: Result<
        Vec<PropertySubject>,
        DbError,
    >)
        ensures
            match self.lookup_error(key, value@) {
                Some(e) => r == Err::<Vec<PropertySubject>, DbError>(e),
                None => r matches Ok(v) && v@.no_duplicates() && subjects_ascending(v@) && forall|s: PropertySubject| #[trigger]
                    v@.contains(s) <==> equal_match(self.subject_props(s), key.0, value@),
            },
    {
        self.validate_lookup_value(key, value)?;
        Ok(self.property_equal(key, value))
    }

    /// Subjects whose visible property `key` equals `value`, after checking
    /// the value and the family `family` against the key's schema.
    pub fn typed_property_equal_for_family(&self, key: PropertyKeyId, family: PropertyFamily, value: &PropertyValue) -> (r:
        Result<Vec<PropertySubject>, DbError>)
        ensures
            match self.family_lookup_error(key, family, value@) {
                Some(e) => r == Err::<Vec<PropertySubject>, DbError>(e),
                None => r matches Ok(v) && v@.no_duplicates() && subjects_ascending(v@) && forall|s: PropertySubject| #[trigger]
                    v@.contains(s) <==> equal_match(self.subject_props(s), key.0, value@),
            },
    {
        self.validate_lookup_value_for_family(key, family, value)?;
        Ok(self.property_equal(key, value))
    }

    /// Subjects whose visible property `key` lies in `[min, max]`, after
    /// checking both bounds against the key's declared type; an empty range
    /// (`min > max`) selects nothing.
    pub fn typed_property_range(&self, key: PropertyKeyId, min: &PropertyValue, max: &PropertyValue) -> (r: Result<
        Vec<PropertySubject>,
        DbError,
    >)
        ensures
            self.lookup_error(key, min@) is Some ==> r == Err::<Vec<PropertySubject>, DbError>(
                self.lookup_error(key, min@).unwrap(),
            ),
            self.lookup_error(key, min@) is None && self.lookup_error(key, max@) is Some ==> r == Err::<
                Vec<PropertySubject>,
                DbError,
            >(self.lookup_error(key, max@).unwrap()),
            self.lookup_error(key, min@) is None && self.lookup_error(key, max@) is None ==> (r matches Ok(v)
                && v@.no_duplicates() && subjects_ascending(v@) && forall|s: PropertySubject| #[trigger]
                v@.contains(s) <==> value_order(min@, max@) <= 0 && range_match(
                    self.subject_props(s),
                    key.0,
                    min@,
                    max@,
                )),
    {
        self.validate_lookup_value(key, min)?;
        self.validate_lookup_value(key, max)?;
        if order_values(min, max) > 0 {
            return Ok(Vec::new());
        }
        Ok(self.property_range(key, min, max))
    }

    /// Subjects whose visible properties match every `(keys[i], values[i])`
    /// pair, after checking each value against its key's declared type.
    pub fn typed_property_composite_equal(&self, keys: &[PropertyKeyId], values: &[PropertyValue]) -> (r: Result<
        Vec<PropertySubject>,
        DbError,
    >)
        ensures
            keys@.len() != values@.len() ==> (r matches Err(DbError::Unsupported { reason }) && reason@
                == "composite equality tuple arity mismatch"@),
            keys@.len() == values@.len() ==> {
                &&& (forall|i: int| 0 <= i < keys@.len() ==> #[trigger] self.lookup_error(keys@[i], values@[i]@) is None)
                    ==> (r matches Ok(v) && v@.no_duplicates() && subjects_ascending(v@) && forall|s: PropertySubject| #[trigger]
                    v@.contains(s) <==> composite_match(
                        self.subject_props(s),
                        raw_keys(keys@),
                        value_seq_views(values@),
                    ))
                &&& forall|i: int|
                    0 <= i < keys@.len() && #[trigger] self.lookup_error(keys@[i], values@[i]@) is Some && (
                    forall|j: int| 0 <= j < i ==> #[trigger] self.lookup_error(keys@[j], values@[j]@) is None)
                        ==> r == Err::<Vec<PropertySubject>, DbError>(
                        self.lookup_error(keys@[i], values@[i]@).unwrap(),
                    )
            },
    {
        if keys.len() != values.len() {
            return Err(DbError::unsupported("composite equality tuple arity mismatch"));
        }
        let mut i: usize = 0;
        while i < keys.len()
            invariant
                keys@.len() == values@.len(),
                i <= keys@.len(),
                forall|j: int| 0 <= j < i ==> #[trigger] self.lookup_error(keys@[j], values@[j]@) is None,
            decreases keys@.len() - i,
        {
            if let Err(e) = self.validate_lookup_value(keys[i], &values[i]) {
                proof {
                    assert forall|a: int|
                        0 <= a < keys@.len() && #[trigger] self.lookup_error(keys@[a], values@[a]@) is Some && (
                        forall|j: int| 0 <= j < a ==> #[trigger] self.lookup_error(keys@[j], values@[j]@) is None)
                        implies Err::<Vec<PropertySubject>, DbError>(e) == Err::<Vec<PropertySubject>, DbError>(
                        self.lookup_error(keys@[a], values@[a]@).unwrap(),
                    ) by {
                        if a < i {
                        } else if a > i {
                            assert(self.lookup_error(keys@[i as int], values@[i as int]@) is None);
                        }
                    }
                }
                return Err(e);
            }
            i = i + 1;
        }
        Ok(self.scan_subjects(&PropertyQuery::Composite { keys, values }))
    }

    /// The subject keys that hold base properties or overlay property
    /// entries, once each, ascending.
    fn property_subject_keys(&self) -> (keys: Vec<(u32, u64)>)
        ensures
            keys@.to_set() == self.base.properties@.dom() + self.overlay.delta.properties@.dom(),
            keys@.no_duplicates(),
            forall|a: int, b: int| 0 <= a < b < keys@.len() ==> key_pair_lt(keys@[a], keys@[b]),
    {
        broadcast use vstd::std_specs::btree::group_btree_axioms;
        let mut set: BTreeSet<(u32, u64)> = BTreeSet::new();
        let first = crate::state::map_keys(&self.base.properties);
        let second = crate::state::map_keys(&self.overlay.delta.properties);
        let mut i: usize = 0;
        proof {
            assert(set@ =~= first@.take(0).to_set());
        }
        while i < first.len()
            invariant
                i <= first@.len(),
                set@ == first@.take(i as int).to_set(),
            decreases first@.len() - i,
        {
            set.insert(first[i]);
            proof {
                assert(first@.take(i + 1) =~= first@.take(i as int).push(first@[i as int]));
                first@.take(i as int).lemma_push_to_set_commute(first@[i as int]);
            }
            i = i + 1;
        }
        let mut j: usize = 0;
        proof {
            assert(first@.take(i as int) =~= first@);
            assert(set@ =~= first@.to_set() + second@.take(0).to_set());
        }
        while j < second.len()
            invariant
                j <= second@.len(),
                set@ == first@.to_set() + second@.take(j as int).to_set(),
            decreases second@.len() - j,
        {
            set.insert(second[j]);
            proof {
                assert(second@.take(j + 1) =~= second@.take(j as int).push(second@[j as int]));
                second@.take(j as int).lemma_push_to_set_commute(second@[j as int]);
                assert(set@ =~= first@.to_set() + second@.take(j + 1).to_set());
            }
            j = j + 1;
        }
        proof {
            assert(second@.take(j as int) =~= second@);
        }
        crate::state::sorted_subject_members(&set)
    }

    /// The merged catalog (the overlay's).
    pub fn catalog(&self) -> (c: &Catalog)
        ensures
            *c == self.overlay_v().catalog_v(),
    {
        &self.overlay.catalog
    }

    /// The merged watermark (the overlay's).
    pub fn next_ids(&self) -> (n: NextIds)
        ensures
            n == self.overlay_v().next_v(),
    {
        self.overlay.next
    }
}

/// The ids of the elements in `m` that carry `label`.
pub open spec fn labelled(m: Map<u64, ElementView>, label: u64) -> Set<u64> {
    Set::new(|k: u64| m.contains_key(k) && m[k].labels.contains(label))
}

/// The ids of the relations in `m` of type `relation_type`.
pub open spec fn typed(m: Map<u64, RelationView>, relation_type: u64) -> Set<u64> {
    Set::new(|k: u64| m.contains_key(k) && m[k].relation_type == Some(relation_type))
}

/// The ids of the incidences in `m` whose element (when `by_element`) or
/// relation (otherwise) is `owner`.
pub open spec fn owned_by(m: Map<u64, IncidenceRecord>, owner: u64, by_element: bool) -> Set<u64> {
    Set::new(
        |k: u64|
            m.contains_key(k) && if by_element {
                m[k].element.0 == owner
            } else {
                m[k].relation.0 == owner
            },
    )
}

/// Scanning one more entry of an ascending id list keeps the selection so far
/// ascending, and it gains exactly that entry when it is selected.
proof fn lemma_select_step(ids: Seq<u64>, i: int, ks: Seq<u64>, sel: Set<u64>)
    requires
        forall|a: int, b: int| 0 <= a < b < ids.len() ==> ids[a] < ids[b],
        0 <= i < ids.len(),
        ascending(ks),
        ks.to_set() == sel.intersect(ids.take(i).to_set()),
    ensures
        sel.contains(ids[i]) ==> ascending(ks.push(ids[i])) && ks.push(ids[i]).to_set() == sel.intersect(
            ids.take(i + 1).to_set(),
        ),
        !sel.contains(ids[i]) ==> ks.to_set() == sel.intersect(ids.take(i + 1).to_set()),
{
    let k = ids[i];
    let pre0 = ids.take(i);
    let pre1 = ids.take(i + 1);
    assert forall|x: u64| #[trigger] pre1.to_set().contains(x) <==> pre0.to_set().contains(x) || x == k by {
        if pre1.to_set().contains(x) {
            let t = choose|t: int| 0 <= t < pre1.len() && pre1[t] == x;
            if t < i {
                assert(pre0[t] == x);
            }
        }
        if pre0.to_set().contains(x) {
            let t = choose|t: int| 0 <= t < pre0.len() && pre0[t] == x;
            assert(pre1[t] == x);
        }
        if x == k {
            assert(pre1[i] == x);
        }
    }
    if sel.contains(k) {
        let n = ks.push(k);
        assert forall|a: int, b: int| 0 <= a < b < n.len() implies n[a] < n[b] by {
            if b == ks.len() {
                assert(ks.to_set().contains(ks[a]));
                assert(pre0.to_set().contains(ks[a]));
                let t = choose|t: int| 0 <= t < pre0.len() && pre0[t] == ks[a];
                assert(ids[t] == ks[a]);
            } else {
                assert(n[a] == ks[a] && n[b] == ks[b]);
            }
        }
        assert forall|x: u64| #[trigger] n.to_set().contains(x) <==> ks.to_set().contains(x) || x == k by {
            if n.to_set().contains(x) {
                let t = choose|t: int| 0 <= t < n.len() && n[t] == x;
                if t < ks.len() {
                    assert(ks[t] == x);
                }
            }
            if ks.to_set().contains(x) {
                let t = choose|t: int| 0 <= t < ks.len() && ks[t] == x;
                assert(n[t] == x);
            }
            if x == k {
                assert(n[ks.len() as int] == x);
            }
        }
        assert(n.to_set() =~= sel.intersect(pre1.to_set()));
    } else {
        assert(ks.to_set() =~= sel.intersect(pre1.to_set()));
    }
}

/// A selection scanned over a whole ascending id list that lists a map's keys
/// is the ascending listing of the selected keys.
proof fn lemma_select_done(ids: Seq<u64>, ks: Seq<u64>, sel: Set<u64>, dom: Set<u64>)
    requires
        forall|k: u64| #[trigger] ids.contains(k) <==> dom.contains(k),
        sel.subset_of(dom),
        ascending(ks),
        ks.to_set() == sel.intersect(ids.take(ids.len() as int).to_set()),
    ensures
        ks == sorted_listing(sel),
{
    assert(ids.take(ids.len() as int) =~= ids);
    assert forall|x: u64| #[trigger] ks.to_set().contains(x) <==> sel.contains(x) by {
        if sel.contains(x) {
            assert(dom.contains(x));
            assert(ids.contains(x));
            assert(ids.to_set().contains(x));
        }
    }
    assert(ks.to_set() =~= sel);
    lemma_sorted_listing(ks);
}

/// Reading through a delta stacked on a parent delta is reading through the
/// parent and then through the delta: publishing `parent.with_applied(delta)`
/// over a base shows exactly the delta layered over the parent's merged view.
pub proof fn lemma_stacked_merge<K, V>(base: Map<K, V>, parent: Map<K, Option<V>>, delta: Map<K, Option<V>>)
    ensures
        merge_layer(base, stack_deltas(parent, delta)) == merge_layer(merge_layer(base, parent), delta),
{
    assert(merge_layer(base, stack_deltas(parent, delta)) =~= merge_layer(merge_layer(base, parent), delta));
}

/// A tombstoned record is hidden from the merged view whatever the base
/// holds, and every other record reads as before.
pub proof fn lemma_tombstone_hides<V>(base: Map<u64, V>, delta: Map<u64, Option<V>>, id: u64)
    ensures
        !merge_layer(base, delta.insert(id, None)).contains_key(id),
        merge_layer(base, delta.insert(id, None)) == merge_layer(base, delta).remove(id),
{
    assert(merge_layer(base, delta.insert(id, None)) =~= merge_layer(base, delta).remove(id));
}

/// Tombstoning a subject hides every one of its properties from the merged
/// view, and leaves every other subject's properties as they were.
pub proof fn lemma_tombstone_hides_properties(
    base: BaseRecords,
    delta: Map<((u32, u64), u64), Option<ValueView>>,
    s: (u32, u64),
)
    ensures
        forall|k: u64|
            !#[trigger] merge_layer(base.props(), props_tombstoned(delta, s, base.subject_keys(s))).contains_key(
                (s, k),
            ),
        merge_layer(base.props(), props_tombstoned(delta, s, base.subject_keys(s))) == merge_layer(
            base.props(),
            delta,
        ).restrict(Set::new(|p: ((u32, u64), u64)| p.0 != s)),
{
    assert(merge_layer(base.props(), props_tombstoned(delta, s, base.subject_keys(s))) =~= merge_layer(
        base.props(),
        delta,
    ).restrict(Set::new(|p: ((u32, u64), u64)| p.0 != s)));
}

/// Tombstoning is idempotent: a second tombstone of the same record and
/// subject leaves the delta as the first one left it.
pub proof fn lemma_tombstone_idempotent<V>(
    delta: Map<u64, Option<V>>,
    props: Map<((u32, u64), u64), Option<ValueView>>,
    id: u64,
    s: (u32, u64),
    base_keys: Set<u64>,
)
    ensures
        delta.insert(id, None).insert(id, None) == delta.insert(id, None),
        props_tombstoned(props_tombstoned(props, s, base_keys), s, base_keys) == props_tombstoned(
            props,
            s,
            base_keys,
        ),
{
    assert(delta.insert(id, None).insert(id, None) =~= delta.insert(id, None));
    assert(props_tombstoned(props_tombstoned(props, s, base_keys), s, base_keys) =~= props_tombstoned(
        props,
        s,
        base_keys,
    ));
}

/// A property that was set reads back as the value set, and a removed one
/// reads as absent, whatever the base holds.
pub proof fn lemma_property_set_then_read(
    base: Map<((u32, u64), u64), ValueView>,
    delta: Map<((u32, u64), u64), Option<ValueView>>,
    p: ((u32, u64), u64),
    v: ValueView,
)
    ensures
        merge_layer(base, delta.insert(p, Some(v))).contains_key(p),
        merge_layer(base, delta.insert(p, Some(v)))[p] == v,
        !merge_layer(base, delta.insert(p, None)).contains_key(p),
{
}

} // verus!

