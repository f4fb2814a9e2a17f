//! Canonical incidence-first database state.
//!
//! Elements, relations, and incidences are keyed by their raw canonical id;
//! properties are keyed by subject (as its `(kind, id)` wire pair) and then by
//! raw property-key id. Ids are drawn from nine monotonic allocators and are
//! never reused: every live record's id lies below its family's allocator.
use crate::catalog::{
    IndexEntry, IndexView,
    projection_name, ProjectionEntry, ProjectionView,
    key_definition, keys_have_id, named_has_id, named_has_name, NamedEntry, Catalog, IndexDefinition, ProjectionDefinition,
    PropertyFamily, PropertyKeyDefinition,
};
use crate::error::DbError;
use crate::id::{
    ElementId, IncidenceId, IndexId, LabelId, ProjectionId, PropertyKeyId, RelationId,
    RelationTypeId, RoleId,
};
use crate::value::{order_values, value_order, value_type_of, PropertyType, PropertyValue, ValueView};
use crate::wire::{spec_decode_subject, spec_encode_subject};
use crate::wire::defs::{lists_set, set_members};
use std::collections::{BTreeMap, BTreeSet};
use vstd::prelude::*;

verus! {

/// One visible canonical element.
#[derive(Clone, Debug)]
pub struct ElementRecord {
    /// Stable element identifier.
    pub id: ElementId,
    /// Raw ids of the labels assigned to this element.
    pub labels: BTreeSet<u64>,
}

/// The content of an element record.
pub struct ElementView {
    /// Raw element id.
    pub id: u64,
    /// Raw label ids.
    pub labels: Set<u64>,
}

impl View for ElementRecord {
    type V = ElementView;

    open spec fn view(&self) -> ElementView {
        ElementView { id: self.id.0, labels: self.labels@ }
    }
}

/// One visible canonical relation.
#[derive(Clone, Debug)]
pub struct RelationRecord {
    /// Stable relation identifier.
    pub id: RelationId,
    /// Optional relation type.
    pub relation_type: Option<RelationTypeId>,
    /// Raw ids of the labels assigned to this relation.
    pub labels: BTreeSet<u64>,
}

/// The content of a relation record.
pub struct RelationView {
    /// Raw relation id.
    pub id: u64,
    /// Raw relation-type id, if set.
    pub relation_type: Option<u64>,
    /// Raw label ids.
    pub labels: Set<u64>,
}

impl View for RelationRecord {
    type V = RelationView;

    open spec fn view(&self) -> RelationView {
        RelationView {
            id: self.id.0,
            relation_type: match self.relation_type {
                Some(t) => Some(t.0),
                None => None,
            },
            labels: self.labels@,
        }
    }
}

/// One visible incidence in canonical database coordinates.
#[derive(Clone, Copy, Debug, PartialEq, Eq, Structural)]
pub struct IncidenceRecord {
    /// Stable incidence id.
    pub id: IncidenceId,
    /// Stable relation id containing the incidence.
    pub relation: RelationId,
    /// Stable element id participating in the relation.
    pub element: ElementId,
    /// Structural role of the incidence.
    pub role: RoleId,
}

/// Subject that can own properties.
#[derive(Clone, Copy, Debug, PartialEq, Eq, Structural, Hash, PartialOrd, Ord)]
pub enum PropertySubject {
    /// Element property subject.
    Element(ElementId),
    /// Relation property subject.
    Relation(RelationId),
    /// Incidence property subject.
    Incidence(IncidenceId),
}

/// The family of a subject.
pub open spec fn subject_family(subject: PropertySubject) -> PropertyFamily {
    match subject {
        PropertySubject::Element(_) => PropertyFamily::Element,
        PropertySubject::Relation(_) => PropertyFamily::Relation,
        PropertySubject::Incidence(_) => PropertyFamily::Incidence,
    }
}

impl PropertySubject {
    /// Returns the property family for this subject.
    pub fn family(self) -> (f: PropertyFamily)
        ensures
            f == subject_family(self),
    {
        match self {
            PropertySubject::Element(_) => PropertyFamily::Element,
            PropertySubject::Relation(_) => PropertyFamily::Relation,
            PropertySubject::Incidence(_) => PropertyFamily::Incidence,
        }
    }
}

/// The map key of a subject: its `(kind, id)` wire pair.
pub open spec fn subject_key(subject: PropertySubject) -> (u32, u64) {
    spec_encode_subject(subject)
}

/// Computes the map key of a subject.
pub fn subject_key_of(subject: PropertySubject) -> (k: (u32, u64))
    ensures
        k == subject_key(subject),
{
    crate::wire::encode_subject(subject)
}

/// The nine monotonic id allocators, in store-header order.
#[derive(Clone, Copy, Debug, PartialEq, Eq, Structural)]
pub struct NextIds {
    /// Next element id candidate.
    pub element: ElementId,
    /// Next relation id candidate.
    pub relation: RelationId,
    /// Next incidence id candidate.
    pub incidence: IncidenceId,
    /// Next role id candidate.
    pub role: RoleId,
    /// Next label id candidate.
    pub label: LabelId,
    /// Next relation-type id candidate.
    pub relation_type: RelationTypeId,
    /// Next property-key id candidate.
    pub property_key: PropertyKeyId,
    /// Next projection id candidate.
    pub projection: ProjectionId,
    /// Next index id candidate.
    pub index: IndexId,
}

impl NextIds {
    /// Every allocator at its first id, `1`.
    pub fn initial() -> (n: NextIds)
        ensures
            n == NextIds::spec_initial(),
    {
        NextIds {
            element: ElementId::new(1),
            relation: RelationId::new(1),
            incidence: IncidenceId::new(1),
            role: RoleId::new(1),
            label: LabelId::new(1),
            relation_type: RelationTypeId::new(1),
            property_key: PropertyKeyId::new(1),
            projection: ProjectionId::new(1),
            index: IndexId::new(1),
        }
    }

    /// Every allocator at its first id, `1`.
    pub open spec fn spec_initial() -> NextIds {
        NextIds {
            element: ElementId(1),
            relation: RelationId(1),
            incidence: IncidenceId(1),
            role: RoleId(1),
            label: LabelId(1),
            relation_type: RelationTypeId(1),
            property_key: PropertyKeyId(1),
            projection: ProjectionId(1),
            index: IndexId(1),
        }
    }
}

/// The views of the records of a map.
pub open spec fn element_views(m: Map<u64, ElementRecord>) -> Map<u64, ElementView> {
    Map::new(|k: u64| m.contains_key(k), |k: u64| m[k]@)
}

/// The views of the records of a map.
pub open spec fn relation_views(m: Map<u64, RelationRecord>) -> Map<u64, RelationView> {
    Map::new(|k: u64| m.contains_key(k), |k: u64| m[k]@)
}

/// The value views of one subject's property map.
pub open spec fn value_views(m: Map<u64, PropertyValue>) -> Map<u64, ValueView> {
    Map::new(|k: u64| m.contains_key(k), |k: u64| m[k]@)
}

/// The visible property of `(subject key, property key)`, if any.
pub open spec fn prop_of(
    props: Map<(u32, u64), BTreeMap<u64, PropertyValue>>,
    s: (u32, u64),
    k: u64,
) -> Option<ValueView> {
    if props.contains_key(s) && props[s]@.contains_key(k) {
        Some(props[s]@[k]@)
    } else {
        None
    }
}

/// Every `((subject, key), value)` held by a two-level property map.
spec fn flatten_props(m: Map<(u32, u64), BTreeMap<u64, PropertyValue>>) -> Map<
    ((u32, u64), u64),
    ValueView,
> {
    Map::new(
        |p: ((u32, u64), u64)| prop_of(m, p.0, p.1).is_some(),
        |p: ((u32, u64), u64)| prop_of(m, p.0, p.1).unwrap(),
    )
}

/// Dropping one subject from the two-level map drops exactly its entries.
proof fn lemma_flatten_remove_subject(m: Map<(u32, u64), BTreeMap<u64, PropertyValue>>, s: (u32, u64))
    ensures
        flatten_props(m.remove(s)) == Map::new(
            |p: ((u32, u64), u64)| flatten_props(m).contains_key(p) && p.0 != s,
            |p: ((u32, u64), u64)| flatten_props(m)[p],
        ),
{
    assert(flatten_props(m.remove(s)) =~= Map::new(
        |p: ((u32, u64), u64)| flatten_props(m).contains_key(p) && p.0 != s,
        |p: ((u32, u64), u64)| flatten_props(m)[p],
    ));
}

/// Raw ids of a key tuple.
pub open spec fn raw_keys(keys: Seq<PropertyKeyId>) -> Seq<u64> {
    keys.map_values(|k: PropertyKeyId| k.0)
}

/// Views of a value tuple.
pub open spec fn value_seq_views(values: Seq<PropertyValue>) -> Seq<ValueView> {
    values.map_values(|v: PropertyValue| v@)
}

/// Whether one subject's properties hold `value` under `key`.
pub open spec fn equal_match(m: Map<u64, ValueView>, key: u64, value: ValueView) -> bool {
    m.contains_key(key) && m[key] == value
}

/// Whether one subject's property under `key` lies in `[min, max]`.
pub open spec fn range_match(m: Map<u64, ValueView>, key: u64, min: ValueView, max: ValueView) -> bool {
    m.contains_key(key) && value_order(min, m[key]) <= 0 && value_order(m[key], max) <= 0
}

/// An inclusive range keeps both of its ends: when `min` sorts no later
/// than `max`, a subject whose value under `key` is `min`, or is `max`, is in
/// the range.
pub proof fn lemma_range_includes_ends(m: Map<u64, ValueView>, key: u64, min: ValueView, max: ValueView)
    requires
        value_order(min, max) <= 0,
    ensures
        m.contains_key(key) && m[key] == min ==> range_match(m, key, min, max),
        m.contains_key(key) && m[key] == max ==> range_match(m, key, min, max),
{
    crate::value::lemma_value_order_reflexive(min);
    crate::value::lemma_value_order_reflexive(max);
}

/// Whether one subject that has properties holds `values[i]` under every
/// `keys[i]`.
pub open spec fn composite_match(m: Map<u64, ValueView>, keys: Seq<u64>, values: Seq<ValueView>) -> bool {
    &&& !m.dom().is_empty()
    &&& forall|i: int| 0 <= i < keys.len() ==> #[trigger] m.contains_key(keys[i]) && m[keys[i]] == values[i]
}

/// A lookup over one subject's property values.
pub(crate) enum PropertyQuery<'a> {
    /// Equality on one key.
    Equal { key: u64, value: &'a PropertyValue },
    /// Inclusive range on one key.
    Range { key: u64, min: &'a PropertyValue, max: &'a PropertyValue },
    /// Equality on every key of a tuple.
    Composite { keys: &'a [PropertyKeyId], values: &'a [PropertyValue] },
}

/// Whether the lookup `q` selects a subject with properties `m`.
pub(crate) open spec fn query_holds(q: PropertyQuery, m: Map<u64, ValueView>) -> bool {
    match q {
        PropertyQuery::Equal { key, value } => equal_match(m, key, value@),
        PropertyQuery::Range { key, min, max } => range_match(m, key, min@, max@),
        PropertyQuery::Composite { keys, values } => composite_match(
            m,
            raw_keys(keys@),
            value_seq_views(values@),
        ),
    }
}

/// Tests one subject's property map against a lookup.
pub(crate) fn values_match(values: &BTreeMap<u64, PropertyValue>, q: &PropertyQuery) -> (b: bool)
    requires
        q matches PropertyQuery::Composite { keys, values } ==> keys@.len() == values@.len(),
    ensures
        b == query_holds(*q, value_views(values@)),
{
    match q {
        PropertyQuery::Equal { key, value } => match values.get(key) {
            Some(v) => *v == **value,
            None => false,
        },
        PropertyQuery::Range { key, min, max } => match values.get(key) {
            Some(v) => order_values(min, v) <= 0 && order_values(v, max) <= 0,
            None => false,
        },
        PropertyQuery::Composite { keys, values: wanted } => composite_values_match(values, keys, wanted),
    }
}

/// Tests one subject's property map against a key tuple and a value tuple.
fn composite_values_match(values: &BTreeMap<u64, PropertyValue>, keys: &[PropertyKeyId], wanted: &[PropertyValue]) -> (b:
    bool)
    requires
        keys@.len() == wanted@.len(),
    ensures
        b == composite_match(value_views(values@), raw_keys(keys@), value_seq_views(wanted@)),
{
    let ghost m = value_views(values@);
    let ghost ks = raw_keys(keys@);
    let ghost vs = value_seq_views(wanted@);
    proof {
        assert(m.dom() =~= values@.dom());
    }
    if values.is_empty() {
        return false;
    }
    let mut i: usize = 0;
    while i < keys.len()
        invariant
            i <= keys@.len(),
            keys@.len() == wanted@.len(),
            m == value_views(values@),
            ks == raw_keys(keys@),
            vs == value_seq_views(wanted@),
            forall|j: int| 0 <= j < i ==> #[trigger] m.contains_key(ks[j]) && m[ks[j]] == vs[j],
        decreases keys@.len() - i,
    {
        let k = keys[i].get();
        let hit = match values.get(&k) {
            Some(v) => *v == wanted[i],
            None => false,
        };
        proof {
            assert(ks[i as int] == k);
            assert(vs[i as int] == wanted@[i as int]@);
        }
        if !hit {
            proof {
                assert(!(m.contains_key(ks[i as int]) && m[ks[i as int]] == vs[i as int]));
                assert(ks.len() == keys@.len());
                assert(!composite_match(m, ks, vs));
            }
            return false;
        }
        proof {
            assert(values@.contains_key(k));
            assert(m.contains_key(k));
            assert(m[k] == values@[k]@);
            assert(values@[k]@ == wanted@[i as int]@);
            assert(m.contains_key(ks[i as int]) && m[ks[i as int]] == vs[i as int]);
            assert forall|j: int| 0 <= j < i + 1 implies #[trigger] m.contains_key(ks[j]) && m[ks[j]]
                == vs[j] by {
                if j < i {
                } else {
                    assert(j == i);
                }
            }
        }
        i = i + 1;
    }
    true
}

/// Which incidences a cascading tombstone removes.
#[derive(Clone, Copy)]
enum IncidencePick {
    /// Incidences of one element.
    OfElement(ElementId),
    /// Incidences of one relation.
    OfRelation(RelationId),
}

/// Whether `pick` selects the incidence `record`.
spec fn picks(pick: IncidencePick, record: IncidenceRecord) -> bool {
    match pick {
        IncidencePick::OfElement(e) => record.element == e,
        IncidencePick::OfRelation(r) => record.relation == r,
    }
}

/// Whether the incidence `record` belongs to `element`.
pub open spec fn incidence_of_element(record: IncidenceRecord, element: ElementId) -> bool {
    record.element == element
}

/// Whether the incidence `record` belongs to `relation`.
pub open spec fn incidence_of_relation(record: IncidenceRecord, relation: RelationId) -> bool {
    record.relation == relation
}

/// Growing a prefix of `keys` by one position adds exactly `keys[i]`, which
/// the shorter prefix lacks when `keys` has no duplicates.
pub proof fn lemma_prefix_step<K>(keys: Seq<K>, i: int)
    requires
        0 <= i < keys.len(),
        keys.no_duplicates(),
    ensures
        forall|j: K| #[trigger]
            keys.subrange(0, i + 1).contains(j) <==> (keys.subrange(0, i).contains(j) || j == keys[i]),
        !keys.subrange(0, i).contains(keys[i]),
{
    let s0 = keys.subrange(0, i);
    let s1 = keys.subrange(0, i + 1);
    assert forall|j: K| #[trigger] s1.contains(j) <==> (s0.contains(j) || j == keys[i]) by {
        if s1.contains(j) {
            let x = choose|x: int| 0 <= x < s1.len() && #[trigger] s1[x] == j;
            if x < s0.len() {
                assert(s0[x] == j);
            }
        }
        if s0.contains(j) {
            let x = choose|x: int| 0 <= x < s0.len() && #[trigger] s0[x] == j;
            assert(s1[x] == j);
        }
        if j == keys[i] {
            assert(s1[i] == j);
        }
    }
    if s0.contains(keys[i]) {
        let x = choose|x: int| 0 <= x < s0.len() && #[trigger] s0[x] == keys[i];
        assert(keys[x] == keys[i]);
    }
}

/// Pushing a new item keeps a sequence free of duplicates and adds exactly it.
pub proof fn lemma_push_fresh<T>(before: Seq<T>, x: T)
    requires
        before.no_duplicates(),
        !before.contains(x),
    ensures
        before.push(x).no_duplicates(),
        forall|y: T| #[trigger] before.push(x).contains(y) <==> (before.contains(y) || y == x),
{
    let after = before.push(x);
    assert forall|y: T| #[trigger] after.contains(y) <==> (before.contains(y) || y == x) by {
        if after.contains(y) {
            let k = choose|k: int| 0 <= k < after.len() && #[trigger] after[k] == y;
            if k < before.len() {
                assert(before[k] == y);
            }
        }
        if before.contains(y) {
            let k = choose|k: int| 0 <= k < before.len() && #[trigger] before[k] == y;
            assert(after[k] == y);
        }
        if y == x {
            assert(after[before.len() as int] == y);
        }
    }
    assert forall|a: int, b: int| 0 <= a < b < after.len() implies #[trigger] after[a] != #[trigger] after[b] by {
        if b == before.len() {
            assert(before[a] == after[a]);
        }
    }
}

/// Whether a sequence of raw ids is strictly increasing.
pub open spec fn ascending(s: Seq<u64>) -> bool {
    forall|i: int, j: int| 0 <= i < j < s.len() ==> s[i] < s[j]
}

/// The ascending listing of a finite set of raw ids.
pub open spec fn sorted_listing(set: Set<u64>) -> Seq<u64> {
    choose|s: Seq<u64>| ascending(s) && s.to_set() == set
}

/// Two strictly increasing sequences with the same members are equal.
pub proof fn lemma_ascending_unique(a: Seq<u64>, b: Seq<u64>)
    requires
        ascending(a),
        ascending(b),
        a.to_set() == b.to_set(),
    ensures
        a == b,
    decreases a.len(),
{
    if a.len() == 0 {
        if b.len() > 0 {
            assert(b.to_set().contains(b[0]));
            assert(!a.to_set().contains(b[0]));
        }
        assert(a =~= b);
    } else if b.len() == 0 {
        assert(a.to_set().contains(a[0]));
        assert(!b.to_set().contains(a[0]));
    } else {
        assert(a.to_set().contains(a[0]));
        assert(b.to_set().contains(a[0]));
        let k = choose|k: int| 0 <= k < b.len() && b[k] == a[0];
        assert(b.to_set().contains(b[0]));
        assert(a.to_set().contains(b[0]));
        let m = choose|m: int| 0 <= m < a.len() && a[m] == b[0];
        assert(a[0] == b[0]) by {
            if k > 0 {
                assert(b[0] < b[k]);
            }
            if m > 0 {
                assert(a[0] < a[m]);
            }
        }
        let a1 = a.drop_first();
        let b1 = b.drop_first();
        assert forall|x: u64| a1.to_set().contains(x) implies b1.to_set().contains(x) by {
            let i = choose|i: int| 0 <= i < a1.len() && a1[i] == x;
            assert(a[i + 1] == x);
            assert(a.to_set().contains(x));
            assert(b.to_set().contains(x));
            let j = choose|j: int| 0 <= j < b.len() && b[j] == x;
            assert(a[0] < x);
            assert(j != 0);
            assert(b1[j - 1] == x);
        }
        assert forall|x: u64| b1.to_set().contains(x) implies a1.to_set().contains(x) by {
            let i = choose|i: int| 0 <= i < b1.len() && b1[i] == x;
            assert(b[i + 1] == x);
            assert(b.to_set().contains(x));
            assert(a.to_set().contains(x));
            let j = choose|j: int| 0 <= j < a.len() && a[j] == x;
            assert(b[0] < x);
            assert(j != 0);
            assert(a1[j - 1] == x);
        }
        assert(a1.to_set() =~= b1.to_set());
        lemma_ascending_unique(a1, b1);
        assert(a.len() == b.len());
        assert forall|i: int| 0 <= i < a.len() implies a[i] == b[i] by {
            if i > 0 {
                assert(a[i] == a1[i - 1]);
                assert(b[i] == b1[i - 1]);
            }
        }
        assert(a =~= b);
    }
}

/// An ascending sequence is the ascending listing of its members.
pub proof fn lemma_sorted_listing(s: Seq<u64>)
    requires
        ascending(s),
    ensures
        sorted_listing(s.to_set()) == s,
{
    let c = sorted_listing(s.to_set());
    assert(ascending(s) && s.to_set() == s.to_set());
    lemma_ascending_unique(c, s);
}

/// Lists the keys of a map once each, in ascending order.
pub fn sorted_keys<V>(m: &BTreeMap<u64, V>) -> (keys: Vec<u64>)
    ensures
        keys@.to_set() == m@.dom(),
        keys@.no_duplicates(),
        forall|i: int, j: int| 0 <= i < j < keys@.len() ==> keys@[i] < keys@[j],
{
    broadcast use vstd::std_specs::btree::group_btree_axioms;
    let mut out: Vec<u64> = Vec::new();
    let ghost listing = vstd::std_specs::iter::IteratorSpec::remaining(
        &vstd::std_specs::btree::spec_keys_iter(m),
    );
    proof {
        assert(vstd::std_specs::btree::increasing_seq(listing));
    }
    for k in it: m.keys()
        invariant
            it.seq() == listing,
            listing == vstd::std_specs::iter::IteratorSpec::remaining(
                &vstd::std_specs::btree::spec_keys_iter(m),
            ),
            out@ == it.seq().take(it.index()).unref(),
    {
        proof {
            assert(it.seq().take(it.index() + 1).unref() =~= it.seq().take(it.index()).unref().push(*k));
        }
        out.push(*k);
    }
    proof {
        assert(out@ =~= listing.unref());
        assert forall|i: int, j: int| 0 <= i < j < out@.len() implies out@[i] < out@[j] by {
            assert(vstd::std_specs::cmp::OrdSpec::cmp_spec(&listing[i], &listing[j]) is Less);
        }
    }
    out
}

/// Lists the members of a set once each, in ascending order.
pub fn sorted_members(set: &BTreeSet<u64>) -> (members: Vec<u64>)
    ensures
        members@.to_set() == set@,
        members@.no_duplicates(),
        forall|i: int, j: int| 0 <= i < j < members@.len() ==> members@[i] < members@[j],
{
    broadcast use vstd::std_specs::btree::group_btree_axioms;
    let mut out: Vec<u64> = Vec::new();
    let ghost listing = vstd::std_specs::iter::IteratorSpec::remaining(
        &vstd::std_specs::btree::spec_btree_keys_iter(set),
    );
    for k in it: set.iter()
        invariant
            it.seq() == listing,
            listing == vstd::std_specs::iter::IteratorSpec::remaining(
                &vstd::std_specs::btree::spec_btree_keys_iter(set),
            ),
            out@ == it.seq().take(it.index()).unref(),
    {
        proof {
            assert(it.seq().take(it.index() + 1).unref() =~= it.seq().take(it.index()).unref().push(*k));
        }
        out.push(*k);
    }
    proof {
        assert(out@ =~= listing.unref());
        assert forall|i: int, j: int| 0 <= i < j < out@.len() implies out@[i] < out@[j] by {
            assert(vstd::std_specs::cmp::OrdSpec::cmp_spec(&listing[i], &listing[j]) is Less);
        }
    }
    out
}

/// Lexicographic order of subject map keys: by subject kind, then by raw id.
pub open spec fn key_pair_lt(a: (u32, u64), b: (u32, u64)) -> bool {
    a.0 < b.0 || (a.0 == b.0 && a.1 < b.1)
}

/// Subjects listed strictly ascending by kind, then raw id.
pub open spec fn subjects_ascending(r: Seq<PropertySubject>) -> bool {
    forall|a: int, b: int| 0 <= a < b < r.len() ==> key_pair_lt(subject_key(r[a]), subject_key(r[b]))
}

/// Lists the subject keys of a map once each, in ascending order.
pub fn sorted_subject_keys<V>(m: &BTreeMap<(u32, u64), V>) -> (keys: Vec<(u32, u64)>)
    ensures
        keys@.to_set() == m@.dom(),
        keys@.no_duplicates(),
        forall|i: int, j: int| 0 <= i < j < keys@.len() ==> key_pair_lt(keys@[i], keys@[j]),
{
    broadcast use vstd::std_specs::btree::group_btree_axioms;
    broadcast use vstd::laws_cmp::group_laws_cmp;
    let mut out: Vec<(u32, u64)> = Vec::new();
    let ghost listing = vstd::std_specs::iter::IteratorSpec::remaining(
        &vstd::std_specs::btree::spec_keys_iter(m),
    );
    proof {
        assert(vstd::std_specs::btree::increasing_seq(listing));
    }
    for k in it: m.keys()
        invariant
            it.seq() == listing,
            listing == vstd::std_specs::iter::IteratorSpec::remaining(
                &vstd::std_specs::btree::spec_keys_iter(m),
            ),
            out@ == it.seq().take(it.index()).unref(),
    {
        proof {
            assert(it.seq().take(it.index() + 1).unref() =~= it.seq().take(it.index()).unref().push(*k));
        }
        out.push(*k);
    }
    proof {
        assert(out@ =~= listing.unref());
        assert forall|i: int, j: int| 0 <= i < j < out@.len() implies key_pair_lt(out@[i], out@[j]) by {
            assert(vstd::std_specs::cmp::OrdSpec::cmp_spec(&listing[i], &listing[j]) is Less);
        }
    }
    out
}

/// Lists the members of a set of subject keys once each, in ascending order.
pub fn sorted_subject_members(set: &BTreeSet<(u32, u64)>) -> (members: Vec<(u32, u64)>)
    ensures
        members@.to_set() == set@,
        members@.no_duplicates(),
        forall|i: int, j: int| 0 <= i < j < members@.len() ==> key_pair_lt(members@[i], members@[j]),
{
    broadcast use vstd::std_specs::btree::group_btree_axioms;
    broadcast use vstd::laws_cmp::group_laws_cmp;
    let mut out: Vec<(u32, u64)> = Vec::new();
    let ghost listing = vstd::std_specs::iter::IteratorSpec::remaining(
        &vstd::std_specs::btree::spec_btree_keys_iter(set),
    );
    for k in it: set.iter()
        invariant
            it.seq() == listing,
            listing == vstd::std_specs::iter::IteratorSpec::remaining(
                &vstd::std_specs::btree::spec_btree_keys_iter(set),
            ),
            out@ == it.seq().take(it.index()).unref(),
    {
        proof {
            assert(it.seq().take(it.index() + 1).unref() =~= it.seq().take(it.index()).unref().push(*k));
        }
        out.push(*k);
    }
    proof {
        assert(out@ =~= listing.unref());
        assert forall|i: int, j: int| 0 <= i < j < out@.len() implies key_pair_lt(out@[i], out@[j]) by {
            assert(vstd::std_specs::cmp::OrdSpec::cmp_spec(&listing[i], &listing[j]) is Less);
        }
    }
    out
}

/// Lists the keys of a map once each.
pub fn map_keys<K: Copy + Ord, V>(m: &BTreeMap<K, V>) -> (keys: Vec<K>)
    requires
        vstd::laws_cmp::obeys_cmp::<K>(),
    ensures
        keys@.to_set() == m@.dom(),
        keys@.no_duplicates(),
{
    let mut out: Vec<K> = Vec::new();
    let ghost listing = vstd::std_specs::iter::IteratorSpec::remaining(
        &vstd::std_specs::btree::spec_keys_iter(m),
    ).unref();
    for k in it: m.keys()
        invariant
            it.seq() == vstd::std_specs::iter::IteratorSpec::remaining(
                &vstd::std_specs::btree::spec_keys_iter(m),
            ),
            out@ == it.seq().take(it.index()).unref(),
    {
        proof {
            assert(it.seq().take(it.index() + 1).unref() =~= it.seq().take(it.index()).unref().push(*k));
        }
        out.push(*k);
    }
    proof {
        assert(out@ =~= listing);
    }
    out
}

/// Durable canonical database state.
#[derive(Clone, Debug)]
pub struct DatabaseState {
    /// Visible elements keyed by raw id.
    elements: BTreeMap<u64, ElementRecord>,
    /// Visible relations keyed by raw id.
    relations: BTreeMap<u64, RelationRecord>,
    /// Visible incidences keyed by raw id.
    incidences: BTreeMap<u64, IncidenceRecord>,
    /// Property values keyed by subject key, then raw property-key id.
    properties: BTreeMap<(u32, u64), BTreeMap<u64, PropertyValue>>,
    /// Catalog metadata.
    catalog: Catalog,
    /// The nine monotonic id allocators.
    next: NextIds,
}

impl DatabaseState {
    /// Visible elements by raw id.
    pub closed spec fn elements_v(&self) -> Map<u64, ElementView> {
        element_views(self.elements@)
    }

    /// Visible relations by raw id.
    pub closed spec fn relations_v(&self) -> Map<u64, RelationView> {
        relation_views(self.relations@)
    }

    /// Visible incidences by raw id.
    pub closed spec fn incidences_v(&self) -> Map<u64, IncidenceRecord> {
        self.incidences@
    }

    /// Every visible property, keyed by `(subject key, raw property-key id)`.
    pub closed spec fn props(&self) -> Map<((u32, u64), u64), ValueView> {
        flatten_props(self.properties@)
    }

    /// The visible value of `(subject, key)`, if any.
    pub open spec fn property_v(&self, subject: PropertySubject, key: u64) -> Option<ValueView> {
        if self.props().contains_key((subject_key(subject), key)) {
            Some(self.props()[(subject_key(subject), key)])
        } else {
            None
        }
    }

    /// Whether the subject of a property exists.
    pub open spec fn subject_exists(&self, subject: PropertySubject) -> bool {
        match subject {
            PropertySubject::Element(id) => self.elements_v().contains_key(id.0),
            PropertySubject::Relation(id) => self.relations_v().contains_key(id.0),
            PropertySubject::Incidence(id) => self.incidences_v().contains_key(id.0),
        }
    }

    /// Catalog metadata.
    pub closed spec fn catalog_v(&self) -> Catalog {
        self.catalog
    }

    /// The id allocators.
    pub closed spec fn next_v(&self) -> NextIds {
        self.next
    }

    /// Internal consistency: every record sits under its own id, below its
    /// family's allocator.
    pub closed spec fn wf(&self) -> bool {
        &&& forall|k: u64| #[trigger]
            self.elements@.contains_key(k) ==> self.elements@[k].id.0 == k && k < self.next.element.0
        &&& forall|k: u64| #[trigger]
            self.relations@.contains_key(k) ==> self.relations@[k].id.0 == k && k
                < self.next.relation.0
        &&& forall|k: u64| #[trigger]
            self.incidences@.contains_key(k) ==> self.incidences@[k].id.0 == k && k
                < self.next.incidence.0
        &&& forall|s: (u32, u64)| #[trigger]
            self.properties@.contains_key(s) ==> !self.properties@[s]@.dom().is_empty() && s.0 <= 2
    }

    /// Creates an empty canonical state.
    pub fn empty() -> (s: Self)
        ensures
            s.wf(),
            s.elements_v() == Map::<u64, ElementView>::empty(),
            s.relations_v() == Map::<u64, RelationView>::empty(),
            s.incidences_v() == Map::<u64, IncidenceRecord>::empty(),
            s.props() == Map::<((u32, u64), u64), ValueView>::empty(),
            s.next_v() == NextIds::spec_initial(),
            s.catalog_v().roles@.len() == 0,
            s.catalog_v().labels@.len() == 0,
            s.catalog_v().relation_types@.len() == 0,
            s.catalog_v().property_keys@.len() == 0,
            s.catalog_v().projections@.len() == 0,
            s.catalog_v().indexes@.len() == 0,
    {
        let s = DatabaseState {
            elements: BTreeMap::new(),
            relations: BTreeMap::new(),
            incidences: BTreeMap::new(),
            properties: BTreeMap::new(),
            catalog: Catalog::empty(),
            next: NextIds::initial(),
        };
        proof {
            assert(s.elements_v() =~= Map::<u64, ElementView>::empty());
            assert(s.relations_v() =~= Map::<u64, RelationView>::empty());
            assert(s.props() =~= Map::<((u32, u64), u64), ValueView>::empty());
        }
        s
    }

    /// Returns catalog metadata.
    pub fn catalog(&self) -> (c: &Catalog)
        ensures
            *c == self.catalog_v(),
    {
        &self.catalog
    }

    /// Returns the nine id allocators.
    pub fn next_ids(&self) -> (n: NextIds)
        ensures
            n == self.next_v(),
    {
        self.next
    }

    /// Returns whether an element exists.
    pub fn contains_element(&self, id: ElementId) -> (b: bool)
        ensures
            b == self.elements_v().contains_key(id.0),
    {
        self.elements.contains_key(&id.get())
    }

    /// Returns whether a relation exists.
    pub fn contains_relation(&self, id: RelationId) -> (b: bool)
        ensures
            b == self.relations_v().contains_key(id.0),
    {
        self.relations.contains_key(&id.get())
    }

    /// Returns whether an incidence exists.
    pub fn contains_incidence(&self, id: IncidenceId) -> (b: bool)
        ensures
            b == self.incidences_v().contains_key(id.0),
    {
        self.incidences.contains_key(&id.get())
    }

    /// Returns the number of visible elements.
    pub fn element_count(&self) -> (n: usize)
        ensures
            n == self.elements_v().len(),
    {
        proof {
            assert(self.elements_v().dom() =~= self.elements@.dom());
        }
        self.elements.len()
    }

    /// Returns the number of visible relations.
    pub fn relation_count(&self) -> (n: usize)
        ensures
            n == self.relations_v().len(),
    {
        proof {
            assert(self.relations_v().dom() =~= self.relations@.dom());
        }
        self.relations.len()
    }

    /// Returns the number of visible incidences.
    pub fn incidence_count(&self) -> (n: usize)
        ensures
            n == self.incidences_v().len(),
    {
        self.incidences.len()
    }

    /// Returns one element record.
    pub fn element(&self, id: ElementId) -> (r: Option<&ElementRecord>)
        ensures
            match r {
                Some(rec) => self.elements_v().contains_key(id.0) && rec@ == self.elements_v()[id.0],
                None => !self.elements_v().contains_key(id.0),
            },
    {
        self.elements.get(&id.get())
    }

    /// Returns one relation record.
    pub fn relation(&self, id: RelationId) -> (r: Option<&RelationRecord>)
        ensures
            match r {
                Some(rec) => self.relations_v().contains_key(id.0) && rec@ == self.relations_v()[id.0],
                None => !self.relations_v().contains_key(id.0),
            },
    {
        self.relations.get(&id.get())
    }

    /// Returns one incidence record.
    pub fn incidence(&self, id: IncidenceId) -> (r: Option<&IncidenceRecord>)
        ensures
            match r {
                Some(rec) => self.incidences_v().contains_key(id.0) && *rec
                    == self.incidences_v()[id.0],
                None => !self.incidences_v().contains_key(id.0),
            },
    {
        self.incidences.get(&id.get())
    }

    /// Returns one property value.
    pub fn property(&self, subject: PropertySubject, key: PropertyKeyId) -> (r: Option<&PropertyValue>)
        ensures
            match r {
                Some(v) => self.property_v(subject, key.0) == Some(v@),
                None => self.property_v(subject, key.0).is_none(),
            },
    {
        match self.properties.get(&subject_key_of(subject)) {
            Some(values) => values.get(&key.get()),
            None => None,
        }
    }

    /// The error naming a missing subject.
    pub open spec fn missing_subject_error(subject: PropertySubject) -> DbError {
        match subject {
            PropertySubject::Element(id) => DbError::UnknownElement { id },
            PropertySubject::Relation(id) => DbError::UnknownRelation { id },
            PropertySubject::Incidence(id) => DbError::UnknownIncidence { id },
        }
    }

    /// Requires an element to exist.
    fn require_element(&self, id: ElementId) -> (r: Result<(), DbError>)
        ensures
            r is Ok <==> self.elements_v().contains_key(id.0),
            r is Err ==> r == Err::<(), DbError>(DbError::UnknownElement { id }),
    {
        if self.elements.contains_key(&id.get()) {
            Ok(())
        } else {
            Err(DbError::UnknownElement { id })
        }
    }

    /// Requires a relation to exist.
    fn require_relation(&self, id: RelationId) -> (r: Result<(), DbError>)
        ensures
            r is Ok <==> self.relations_v().contains_key(id.0),
            r is Err ==> r == Err::<(), DbError>(DbError::UnknownRelation { id }),
    {
        if self.relations.contains_key(&id.get()) {
            Ok(())
        } else {
            Err(DbError::UnknownRelation { id })
        }
    }

    /// Requires an incidence to exist.
    fn require_incidence(&self, id: IncidenceId) -> (r: Result<(), DbError>)
        ensures
            r is Ok <==> self.incidences_v().contains_key(id.0),
            r is Err ==> r == Err::<(), DbError>(DbError::UnknownIncidence { id }),
    {
        if self.incidences.contains_key(&id.get()) {
            Ok(())
        } else {
            Err(DbError::UnknownIncidence { id })
        }
    }

    /// Requires a property subject to exist.
    fn require_subject(&self, subject: PropertySubject) -> (r: Result<(), DbError>)
        ensures
            r is Ok <==> self.subject_exists(subject),
            r is Err ==> r == Err::<(), DbError>(Self::missing_subject_error(subject)),
    {
        match subject {
            PropertySubject::Element(id) => self.require_element(id),
            PropertySubject::Relation(id) => self.require_relation(id),
            PropertySubject::Incidence(id) => self.require_incidence(id),
        }
    }

    /// Requires a role to exist.
    fn require_role(&self, id: RoleId) -> (r: Result<(), DbError>)
        ensures
            r is Ok <==> named_has_id(self.catalog.roles@, id.0),
            r is Err ==> r == Err::<(), DbError>(DbError::UnknownRole { id }),
    {
        if self.catalog.has_role(id) {
            Ok(())
        } else {
            Err(DbError::UnknownRole { id })
        }
    }

    /// Requires a label to exist.
    fn require_label(&self, id: LabelId) -> (r: Result<(), DbError>)
        ensures
            r is Ok <==> named_has_id(self.catalog.labels@, id.0),
            r is Err ==> r == Err::<(), DbError>(DbError::UnknownLabel { id }),
    {
        if self.catalog.has_label(id) {
            Ok(())
        } else {
            Err(DbError::UnknownLabel { id })
        }
    }

    /// Requires a relation type to exist.
    fn require_relation_type(&self, id: RelationTypeId) -> (r: Result<(), DbError>)
        ensures
            r is Ok <==> named_has_id(self.catalog.relation_types@, id.0),
            r is Err ==> r == Err::<(), DbError>(DbError::UnknownRelationType { id }),
    {
        if self.catalog.has_relation_type(id) {
            Ok(())
        } else {
            Err(DbError::UnknownRelationType { id })
        }
    }

    /// Requires a property key to exist.
    fn require_property_key(&self, id: PropertyKeyId) -> (r: Result<(), DbError>)
        ensures
            r is Ok <==> key_definition(self.catalog.property_keys@, id.0).is_some(),
            r is Err ==> r == Err::<(), DbError>(DbError::UnknownPropertyKey { id }),
    {
        if self.catalog.property_key(id).is_some() {
            Ok(())
        } else {
            Err(DbError::UnknownPropertyKey { id })
        }
    }

    /// Creates an element, drawing its id from the element allocator.
    pub fn create_element(&mut self) -> (r: Result<ElementId, DbError>)
        requires
            old(self).wf(),
        ensures
            final(self).wf(),
            match r {
                Ok(id) => {
                    &&& id == old(self).next_v().element
                    &&& id.0 < u64::MAX
                    &&& final(self).elements_v() == old(self).elements_v().insert(
                        id.0,
                        ElementView { id: id.0, labels: Set::empty() },
                    )
                    &&& final(self).next_v() == NextIds {
                        element: ElementId((id.0 + 1) as u64),
                        ..old(self).next_v()
                    }
                    &&& final(self).relations_v() == old(self).relations_v()
                    &&& final(self).incidences_v() == old(self).incidences_v()
                    &&& final(self).props() == old(self).props()
                    &&& final(self).catalog_v() == old(self).catalog_v()
                },
                Err(e) => e == DbError::IdOverflow && old(self).next_v().element.0 == u64::MAX
                    && *final(self) == *old(self),
            },
    {
        let id = self.next.element;
        let next = match id.checked_next() {
            Some(n) => n,
            None => return Err(DbError::IdOverflow),
        };
        self.next.element = next;
        let previous = self.elements.insert(id.get(), ElementRecord { id, labels: BTreeSet::new() });
        if previous.is_some() {
            return Err(DbError::DuplicateId);
        }
        proof {
            assert(self.elements_v() =~= old(self).elements_v().insert(
                id.0,
                ElementView { id: id.0, labels: Set::empty() },
            ));
        }
        Ok(id)
    }

    /// Creates a relation, drawing its id from the relation allocator.
    pub fn create_relation(&mut self) -> (r: Result<RelationId, DbError>)
        requires
            old(self).wf(),
        ensures
            final(self).wf(),
            match r {
                Ok(id) => {
                    &&& id == old(self).next_v().relation
                    &&& id.0 < u64::MAX
                    &&& final(self).relations_v() == old(self).relations_v().insert(
                        id.0,
                        RelationView { id: id.0, relation_type: None, labels: Set::empty() },
                    )
                    &&& final(self).next_v() == NextIds {
                        relation: RelationId((id.0 + 1) as u64),
                        ..old(self).next_v()
                    }
                    &&& final(self).elements_v() == old(self).elements_v()
                    &&& final(self).incidences_v() == old(self).incidences_v()
                    &&& final(self).props() == old(self).props()
                    &&& final(self).catalog_v() == old(self).catalog_v()
                },
                Err(e) => e == DbError::IdOverflow && old(self).next_v().relation.0 == u64::MAX
                    && *final(self) == *old(self),
            },
    {
        let id = self.next.relation;
        let next = match id.checked_next() {
            Some(n) => n,
            None => return Err(DbError::IdOverflow),
        };
        self.next.relation = next;
        let previous = self.relations.insert(
            id.get(),
            RelationRecord { id, relation_type: None, labels: BTreeSet::new() },
        );
        if previous.is_some() {
            return Err(DbError::DuplicateId);
        }
        proof {
            assert(self.relations_v() =~= old(self).relations_v().insert(
                id.0,
                RelationView { id: id.0, relation_type: None, labels: Set::empty() },
            ));
        }
        Ok(id)
    }

    /// Creates an incidence of `element` in `relation` under `role`, drawing
    /// its id from the incidence allocator. The relation, the element, and
    /// the role must exist, checked in that order.
    pub fn create_incidence(&mut self, relation: RelationId, element: ElementId, role: RoleId) -> (r:
        Result<IncidenceId, DbError>)
        requires
            old(self).wf(),
        ensures
            final(self).wf(),
            !old(self).relations_v().contains_key(relation.0) ==> r == Err::<IncidenceId, DbError>(
                DbError::UnknownRelation { id: relation },
            ),
            old(self).relations_v().contains_key(relation.0) && !old(self).elements_v().contains_key(
                element.0,
            ) ==> r == Err::<IncidenceId, DbError>(DbError::UnknownElement { id: element }),
            old(self).relations_v().contains_key(relation.0) && old(self).elements_v().contains_key(
                element.0,
            ) && !named_has_id(old(self).catalog_v().roles@, role.0) ==> r == Err::<
                IncidenceId,
                DbError,
            >(DbError::UnknownRole { id: role }),
            old(self).relations_v().contains_key(relation.0) && old(self).elements_v().contains_key(
                element.0,
            ) && named_has_id(old(self).catalog_v().roles@, role.0) && old(self).next_v().incidence.0
                == u64::MAX ==> r == Err::<IncidenceId, DbError>(DbError::IdOverflow),
            r is Err ==> *final(self) == *old(self),
            match r {
                Ok(id) => {
                    &&& id == old(self).next_v().incidence
                    &&& final(self).incidences_v() == old(self).incidences_v().insert(
                        id.0,
                        IncidenceRecord { id, relation, element, role },
                    )
                    &&& final(self).next_v() == NextIds {
                        incidence: IncidenceId((id.0 + 1) as u64),
                        ..old(self).next_v()
                    }
                    &&& final(self).elements_v() == old(self).elements_v()
                    &&& final(self).relations_v() == old(self).relations_v()
                    &&& final(self).props() == old(self).props()
                    &&& final(self).catalog_v() == old(self).catalog_v()
                },
                Err(_) => !(old(self).relations_v().contains_key(relation.0)
                    && old(self).elements_v().contains_key(element.0) && named_has_id(
                    old(self).catalog_v().roles@,
                    role.0,
                ) && old(self).next_v().incidence.0 < u64::MAX),
            },
    {
        self.require_relation(relation)?;
        self.require_element(element)?;
        self.require_role(role)?;
        let id = self.next.incidence;
        let next = match id.checked_next() {
            Some(n) => n,
            None => return Err(DbError::IdOverflow),
        };
        self.next.incidence = next;
        let previous = self.incidences.insert(id.get(), IncidenceRecord { id, relation, element, role });
        if previous.is_some() {
            return Err(DbError::DuplicateId);
        }
        Ok(id)
    }

    /// The outcome a property write on `(subject, key)` with a value of type
    /// `actual` owes: the subject must exist, the key must be declared for the
    /// subject's family, and the value must have the declared type, checked in
    /// that order.
    pub open spec fn set_property_outcome(
        &self,
        subject: PropertySubject,
        key: PropertyKeyId,
        actual: PropertyType,
    ) -> Result<(), DbError> {
        if !self.subject_exists(subject) {
            Err(Self::missing_subject_error(subject))
        } else {
            match key_definition(self.catalog_v().property_keys@, key.0) {
                None => Err(DbError::UnknownPropertyKey { id: key }),
                Some(def) => if def.family != subject_family(subject) {
                    Err(DbError::WrongPropertyFamily {
                        expected: def.family,
                        actual: subject_family(subject),
                    })
                } else if def.value_type != actual {
                    Err(DbError::PropertyTypeMismatch { expected: def.value_type, actual })
                } else {
                    Ok(())
                },
            }
        }
    }

    /// Sets a typed property value.
    pub fn set_property(&mut self, subject: PropertySubject, key: PropertyKeyId, value: PropertyValue) -> (r:
        Result<(), DbError>)
        requires
            old(self).wf(),
        ensures
            final(self).wf(),
            r == old(self).set_property_outcome(subject, key, value_type_of(value@)),
            r is Ok ==> final(self).props() == old(self).props().insert(
                (subject_key(subject), key.0),
                value@,
            ) && final(self).elements_v() == old(self).elements_v() && final(self).relations_v()
                == old(self).relations_v() && final(self).incidences_v() == old(self).incidences_v()
                && final(self).catalog_v() == old(self).catalog_v() && final(self).next_v() == old(self).next_v(),
            r is Err ==> *final(self) == *old(self),
    {
        self.require_subject(subject)?;
        let definition = match self.catalog.property_key(key) {
            Some(d) => d,
            None => return Err(DbError::UnknownPropertyKey { id: key }),
        };
        let family = subject.family();
        if definition.family != family {
            return Err(DbError::WrongPropertyFamily { expected: definition.family, actual: family });
        }
        let actual = value.value_type();
        if definition.value_type != actual {
            return Err(DbError::PropertyTypeMismatch { expected: definition.value_type, actual });
        }
        let sk = subject_key_of(subject);
        let ghost view = value@;
        let mut values = match self.properties.remove(&sk) {
            Some(m) => m,
            None => BTreeMap::new(),
        };
        values.insert(key.get(), value);
        proof {
            assert(values@.dom().contains(key.0));
        }
        self.properties.insert(sk, values);
        proof {
            assert(self.props() =~= old(self).props().insert((sk, key.0), view));
        }
        Ok(())
    }

    /// Removes one property value. The subject and the key must exist,
    /// checked in that order; removing an absent value is a no-op.
    pub fn remove_property(&mut self, subject: PropertySubject, key: PropertyKeyId) -> (r: Result<(), DbError>)
        requires
            old(self).wf(),
        ensures
            final(self).wf(),
            !old(self).subject_exists(subject) ==> r == Err::<(), DbError>(
                Self::missing_subject_error(subject),
            ),
            old(self).subject_exists(subject) && key_definition(
                old(self).catalog_v().property_keys@,
                key.0,
            ).is_none() ==> r == Err::<(), DbError>(DbError::UnknownPropertyKey { id: key }),
            old(self).subject_exists(subject) && key_definition(
                old(self).catalog_v().property_keys@,
                key.0,
            ).is_some() ==> r is Ok,
            r is Ok ==> final(self).props() == old(self).props().remove((subject_key(subject), key.0))
                && final(self).elements_v() == old(self).elements_v() && final(self).relations_v()
                == old(self).relations_v() && final(self).incidences_v() == old(self).incidences_v()
                && final(self).catalog_v() == old(self).catalog_v() && final(self).next_v() == old(self).next_v(),
            r is Err ==> *final(self) == *old(self),
    {
        self.require_subject(subject)?;
        self.require_property_key(key)?;
        let sk = subject_key_of(subject);
        match self.properties.remove(&sk) {
            Some(mut values) => {
                values.remove(&key.get());
                if !values.is_empty() {
                    self.properties.insert(sk, values);
                }
            },
            None => {},
        }
        proof {
            assert(self.props() =~= old(self).props().remove((sk, key.0)));
        }
        Ok(())
    }

    /// Assigns a label to an element; the label must be registered and the
    /// element must exist, checked in that order.
    pub fn add_element_label(&mut self, element: ElementId, label: LabelId) -> (r: Result<(), DbError>)
        requires
            old(self).wf(),
        ensures
            final(self).wf(),
            !named_has_id(old(self).catalog_v().labels@, label.0) ==> r == Err::<(), DbError>(
                DbError::UnknownLabel { id: label },
            ),
            named_has_id(old(self).catalog_v().labels@, label.0) && !old(self).elements_v().contains_key(element.0) ==> r == Err::<(), DbError>(
                DbError::UnknownElement { id: element },
            ),
            named_has_id(old(self).catalog_v().labels@, label.0) && old(self).elements_v().contains_key(element.0) ==> r is Ok,
            r is Ok ==> final(self).elements_v() == old(self).elements_v().insert(
                element.0,
                ElementView {
                    id: element.0,
                    labels: old(self).elements_v()[element.0].labels.insert(label.0),
                },
            ) && final(self).relations_v() == old(self).relations_v() && final(self).incidences_v()
                == old(self).incidences_v() && final(self).props() == old(self).props() && final(self).catalog_v() == old(self).catalog_v() && final(self).next_v() == old(self).next_v(),
            r is Err ==> *final(self) == *old(self),
    {
        self.require_label(label)?;
        if !self.elements.contains_key(&element.get()) {
            return Err(DbError::UnknownElement { id: element });
        }
        let mut record = match self.elements.remove(&element.get()) {
            Some(rec) => rec,
            None => return Err(DbError::UnknownElement { id: element }),
        };
        record.labels.insert(label.get());
        self.elements.insert(element.get(), record);
        proof {
            assert(self.elements_v() =~= old(self).elements_v().insert(
                element.0,
                ElementView {
                    id: element.0,
                    labels: old(self).elements_v()[element.0].labels.insert(label.0),
                },
            ));
        }
        Ok(())
    }

    /// Assigns a label to a relation; the label must be registered and the
    /// relation must exist, checked in that order.
    pub fn add_relation_label(&mut self, relation: RelationId, label: LabelId) -> (r: Result<(), DbError>)
        requires
            old(self).wf(),
        ensures
            final(self).wf(),
            !named_has_id(old(self).catalog_v().labels@, label.0) ==> r == Err::<(), DbError>(
                DbError::UnknownLabel { id: label },
            ),
            named_has_id(old(self).catalog_v().labels@, label.0) && !old(self).relations_v().contains_key(relation.0) ==> r == Err::<(), DbError>(
                DbError::UnknownRelation { id: relation },
            ),
            named_has_id(old(self).catalog_v().labels@, label.0) && old(self).relations_v().contains_key(relation.0) ==> r is Ok,
            r is Ok ==> final(self).relations_v() == old(self).relations_v().insert(
                relation.0,
                RelationView {
                    labels: old(self).relations_v()[relation.0].labels.insert(label.0),
                    ..old(self).relations_v()[relation.0]
                },
            ) && final(self).elements_v() == old(self).elements_v() && final(self).incidences_v()
                == old(self).incidences_v() && final(self).props() == old(self).props() && final(self).catalog_v() == old(self).catalog_v() && final(self).next_v() == old(self).next_v(),
            r is Err ==> *final(self) == *old(self),
    {
        self.require_label(label)?;
        if !self.relations.contains_key(&relation.get()) {
            return Err(DbError::UnknownRelation { id: relation });
        }
        let mut record = match self.relations.remove(&relation.get()) {
            Some(rec) => rec,
            None => return Err(DbError::UnknownRelation { id: relation }),
        };
        record.labels.insert(label.get());
        self.relations.insert(relation.get(), record);
        proof {
            assert(self.relations_v() =~= old(self).relations_v().insert(
                relation.0,
                RelationView {
                    labels: old(self).relations_v()[relation.0].labels.insert(label.0),
                    ..old(self).relations_v()[relation.0]
                },
            ));
        }
        Ok(())
    }

    /// Sets a relation's type; the type must be registered and the relation
    /// must exist, checked in that order.
    pub fn set_relation_type(&mut self, relation: RelationId, relation_type: RelationTypeId) -> (r:
        Result<(), DbError>)
        requires
            old(self).wf(),
        ensures
            final(self).wf(),
            !named_has_id(old(self).catalog_v().relation_types@, relation_type.0) ==> r == Err::<
                (),
                DbError,
            >(DbError::UnknownRelationType { id: relation_type }),
            named_has_id(old(self).catalog_v().relation_types@, relation_type.0) && !old(self).relations_v().contains_key(relation.0) ==> r == Err::<(), DbError>(
                DbError::UnknownRelation { id: relation },
            ),
            named_has_id(old(self).catalog_v().relation_types@, relation_type.0) && old(self).relations_v().contains_key(relation.0) ==> r is Ok,
            r is Ok ==> final(self).relations_v() == old(self).relations_v().insert(
                relation.0,
                RelationView {
                    relation_type: Some(relation_type.0),
                    ..old(self).relations_v()[relation.0]
                },
            ) && final(self).elements_v() == old(self).elements_v() && final(self).incidences_v()
                == old(self).incidences_v() && final(self).props() == old(self).props() && final(self).catalog_v() == old(self).catalog_v() && final(self).next_v() == old(self).next_v(),
            r is Err ==> *final(self) == *old(self),
    {
        self.require_relation_type(relation_type)?;
        if !self.relations.contains_key(&relation.get()) {
            return Err(DbError::UnknownRelation { id: relation });
        }
        let mut record = match self.relations.remove(&relation.get()) {
            Some(rec) => rec,
            None => return Err(DbError::UnknownRelation { id: relation }),
        };
        record.relation_type = Some(relation_type);
        self.relations.insert(relation.get(), record);
        proof {
            assert(self.relations_v() =~= old(self).relations_v().insert(
                relation.0,
                RelationView {
                    relation_type: Some(relation_type.0),
                    ..old(self).relations_v()[relation.0]
                },
            ));
        }
        Ok(())
    }

    /// Registers a role under `name`. The role allocator advances before the
    /// catalog insert, so a refused name still burns the id.
    pub fn register_role(&mut self, name: String) -> (r: Result<RoleId, DbError>)
        requires
            old(self).wf(),
        ensures
            final(self).wf(),
            final(self).elements_v() == old(self).elements_v(),
            final(self).relations_v() == old(self).relations_v(),
            final(self).incidences_v() == old(self).incidences_v(),
            final(self).props() == old(self).props(),
            old(self).next_v().role.0 == u64::MAX ==> r == Err::<RoleId, DbError>(DbError::IdOverflow)
                && *final(self) == *old(self),
            old(self).next_v().role.0 < u64::MAX ==> {
                &&& final(self).next_v() == NextIds {
                    role: RoleId((old(self).next_v().role.0 + 1) as u64),
                    ..old(self).next_v()
                }
                &&& (r is Ok <==> !named_has_name(old(self).catalog_v().roles@, name@) && !named_has_id(
                    old(self).catalog_v().roles@,
                    old(self).next_v().role.0,
                ))
                &&& r is Ok ==> r == Ok::<RoleId, DbError>(old(self).next_v().role)
                    && final(self).catalog_v().roles@ == old(self).catalog_v().roles@.push(
                    NamedEntry { id: old(self).next_v().role.0, name },
                )
                &&& r is Err ==> final(self).catalog_v().roles@ == old(self).catalog_v().roles@
                &&& final(self).catalog_v() == Catalog {
                    roles: final(self).catalog_v().roles,
                    ..old(self).catalog_v()
                }
            },
    {
        let id = self.next.role;
        let next = match id.checked_next() {
            Some(n) => n,
            None => return Err(DbError::IdOverflow),
        };
        self.next.role = next;
        self.catalog.insert_role(id, name)?;
        Ok(id)
    }

    /// Registers a label under `name`. The label allocator advances before
    /// the catalog insert, so a refused name still burns the id.
    pub fn register_label(&mut self, name: String) -> (r: Result<LabelId, DbError>)
        requires
            old(self).wf(),
        ensures
            final(self).wf(),
            final(self).elements_v() == old(self).elements_v(),
            final(self).relations_v() == old(self).relations_v(),
            final(self).incidences_v() == old(self).incidences_v(),
            final(self).props() == old(self).props(),
            old(self).next_v().label.0 == u64::MAX ==> r == Err::<LabelId, DbError>(
                DbError::IdOverflow,
            ) && *final(self) == *old(self),
            old(self).next_v().label.0 < u64::MAX ==> {
                &&& final(self).next_v() == NextIds {
                    label: LabelId((old(self).next_v().label.0 + 1) as u64),
                    ..old(self).next_v()
                }
                &&& (r is Ok <==> !named_has_name(old(self).catalog_v().labels@, name@) && !named_has_id(
                    old(self).catalog_v().labels@,
                    old(self).next_v().label.0,
                ))
                &&& r is Ok ==> r == Ok::<LabelId, DbError>(old(self).next_v().label)
                    && final(self).catalog_v().labels@ == old(self).catalog_v().labels@.push(
                    NamedEntry { id: old(self).next_v().label.0, name },
                )
                &&& r is Err ==> final(self).catalog_v().labels@ == old(self).catalog_v().labels@
                &&& final(self).catalog_v() == Catalog {
                    labels: final(self).catalog_v().labels,
                    ..old(self).catalog_v()
                }
            },
    {
        let id = self.next.label;
        let next = match id.checked_next() {
            Some(n) => n,
            None => return Err(DbError::IdOverflow),
        };
        self.next.label = next;
        self.catalog.insert_label(id, name)?;
        Ok(id)
    }

    /// Registers a relation type under `name`. The relation-type allocator
    /// advances before the catalog insert, so a refused name still burns the id.
    pub fn register_relation_type(&mut self, name: String) -> (r: Result<RelationTypeId, DbError>)
        requires
            old(self).wf(),
        ensures
            final(self).wf(),
            final(self).elements_v() == old(self).elements_v(),
            final(self).relations_v() == old(self).relations_v(),
            final(self).incidences_v() == old(self).incidences_v(),
            final(self).props() == old(self).props(),
            old(self).next_v().relation_type.0 == u64::MAX ==> r == Err::<RelationTypeId, DbError>(
                DbError::IdOverflow,
            ) && *final(self) == *old(self),
            old(self).next_v().relation_type.0 < u64::MAX ==> {
                &&& final(self).next_v() == NextIds {
                    relation_type: RelationTypeId((old(self).next_v().relation_type.0 + 1) as u64),
                    ..old(self).next_v()
                }
                &&& (r is Ok <==> !named_has_name(old(self).catalog_v().relation_types@, name@)
                    && !named_has_id(
                    old(self).catalog_v().relation_types@,
                    old(self).next_v().relation_type.0,
                ))
                &&& r is Ok ==> r == Ok::<RelationTypeId, DbError>(old(self).next_v().relation_type)
                    && final(self).catalog_v().relation_types@
                    == old(self).catalog_v().relation_types@.push(
                    NamedEntry { id: old(self).next_v().relation_type.0, name },
                )
                &&& r is Err ==> final(self).catalog_v().relation_types@ == old(self).catalog_v().relation_types@
                &&& final(self).catalog_v() == Catalog {
                    relation_types: final(self).catalog_v().relation_types,
                    ..old(self).catalog_v()
                }
            },
    {
        let id = self.next.relation_type;
        let next = match id.checked_next() {
            Some(n) => n,
            None => return Err(DbError::IdOverflow),
        };
        self.next.relation_type = next;
        self.catalog.insert_relation_type(id, name)?;
        Ok(id)
    }

    /// Registers a property key under `name` for `family` with `value_type`.
    /// The allocator advances before the catalog insert, so a refused name
    /// still burns the id.
    pub fn register_property_key(&mut self, name: String, family: PropertyFamily, value_type: PropertyType) -> (r:
        Result<PropertyKeyId, DbError>)
        requires
            old(self).wf(),
        ensures
            final(self).wf(),
            final(self).elements_v() == old(self).elements_v(),
            final(self).relations_v() == old(self).relations_v(),
            final(self).incidences_v() == old(self).incidences_v(),
            final(self).props() == old(self).props(),
            old(self).next_v().property_key.0 == u64::MAX ==> r == Err::<PropertyKeyId, DbError>(
                DbError::IdOverflow,
            ) && *final(self) == *old(self),
            old(self).next_v().property_key.0 < u64::MAX ==> {
                &&& final(self).next_v() == NextIds {
                    property_key: PropertyKeyId((old(self).next_v().property_key.0 + 1) as u64),
                    ..old(self).next_v()
                }
                &&& (r is Ok <==> (forall|i: int|
                    0 <= i < old(self).catalog_v().property_keys@.len() ==> old(
                        self,
                    ).catalog_v().property_keys@[i].name@ != name@) && !keys_have_id(
                    old(self).catalog_v().property_keys@,
                    old(self).next_v().property_key.0,
                ))
                &&& r is Ok ==> r == Ok::<PropertyKeyId, DbError>(old(self).next_v().property_key)
                    && final(self).catalog_v().property_keys@
                    == old(self).catalog_v().property_keys@.push(
                    PropertyKeyDefinition {
                        id: old(self).next_v().property_key,
                        name,
                        family,
                        value_type,
                    },
                )
                &&& r is Err ==> final(self).catalog_v().property_keys@ == old(self).catalog_v().property_keys@
                &&& final(self).catalog_v() == Catalog {
                    property_keys: final(self).catalog_v().property_keys,
                    ..old(self).catalog_v()
                }
            },
    {
        let id = self.next.property_key;
        let next = match id.checked_next() {
            Some(n) => n,
            None => return Err(DbError::IdOverflow),
        };
        self.next.property_key = next;
        self.catalog.insert_property_key(PropertyKeyDefinition { id, name, family, value_type })?;
        Ok(id)
    }

    /// Whether every raw id of `ids` names a registered role.
    pub open spec fn roles_known(&self, ids: Set<u64>) -> bool {
        forall|x: u64| #[trigger] ids.contains(x) ==> named_has_id(self.catalog_v().roles@, x)
    }

    /// Whether every raw id of `ids` names a registered relation type.
    pub open spec fn relation_types_known(&self, ids: Set<u64>) -> bool {
        forall|x: u64| #[trigger] ids.contains(x) ==> named_has_id(self.catalog_v().relation_types@, x)
    }

    /// Whether every reference of a projection definition resolves.
    pub open spec fn projection_refs_ok(&self, d: ProjectionView) -> bool {
        match d {
            ProjectionView::Graph { relation_types, source_role, target_role, .. } => {
                &&& named_has_id(self.catalog_v().roles@, source_role)
                &&& named_has_id(self.catalog_v().roles@, target_role)
                &&& self.relation_types_known(relation_types)
            },
            ProjectionView::Hypergraph { relation_types, source_roles, target_roles, .. } => {
                &&& self.roles_known(source_roles)
                &&& self.roles_known(target_roles)
                &&& self.relation_types_known(relation_types)
            },
        }
    }

    /// Whether `e` is the error that validation reports for a definition
    /// whose references do not all resolve.
    pub open spec fn projection_ref_error(&self, d: ProjectionView, e: DbError) -> bool {
        let roles = self.catalog_v().roles@;
        let types = self.catalog_v().relation_types@;
        match d {
            ProjectionView::Graph { relation_types, source_role, target_role, .. } => {
                if !named_has_id(roles, source_role) {
                    e == DbError::UnknownRole { id: RoleId(source_role) }
                } else if !named_has_id(roles, target_role) {
                    e == DbError::UnknownRole { id: RoleId(target_role) }
                } else {
                    exists|t: u64|
                        relation_types.contains(t) && !named_has_id(types, t) && e
                            == DbError::UnknownRelationType { id: RelationTypeId(t) }
                }
            },
            ProjectionView::Hypergraph { relation_types, source_roles, target_roles, .. } => {
                if !self.roles_known(source_roles) {
                    exists|x: u64|
                        source_roles.contains(x) && !named_has_id(roles, x) && e
                            == DbError::UnknownRole { id: RoleId(x) }
                } else if !self.roles_known(target_roles) {
                    exists|x: u64|
                        target_roles.contains(x) && !named_has_id(roles, x) && e
                            == DbError::UnknownRole { id: RoleId(x) }
                } else {
                    exists|t: u64|
                        relation_types.contains(t) && !named_has_id(types, t) && e
                            == DbError::UnknownRelationType { id: RelationTypeId(t) }
                }
            },
        }
    }

    /// Requires every role of a raw id set to exist.
    fn require_roles(&self, ids: &BTreeSet<u64>) -> (r: Result<(), DbError>)
        ensures
            r is Ok <==> self.roles_known(ids@),
            r is Err ==> exists|x: u64|
                ids@.contains(x) && !named_has_id(self.catalog_v().roles@, x) && r == Err::<
                    (),
                    DbError,
                >(DbError::UnknownRole { id: RoleId(x) }),
    {
        let members = set_members(ids);
        let mut i: usize = 0;
        while i < members.len()
            invariant
                lists_set(members@, ids@),
                i <= members@.len(),
                forall|j: int| 0 <= j < i ==> named_has_id(self.catalog_v().roles@, #[trigger] members@[j]),
            decreases members@.len() - i,
        {
            let x = members[i];
            proof {
                assert(members@.to_set().contains(x));
            }
            if let Err(e) = self.require_role(RoleId::new(x)) {
                return Err(e);
            }
            i = i + 1;
        }
        proof {
            assert forall|x: u64| #[trigger] ids@.contains(x) implies named_has_id(self.catalog_v().roles@, x) by {
                assert(members@.to_set().contains(x));
                let j = choose|j: int| 0 <= j < members@.len() && members@[j] == x;
            }
        }
        Ok(())
    }

    /// Requires every relation type of a raw id set to exist.
    fn require_relation_types(&self, ids: &BTreeSet<u64>) -> (r: Result<(), DbError>)
        ensures
            r is Ok <==> self.relation_types_known(ids@),
            r is Err ==> exists|x: u64|
                ids@.contains(x) && !named_has_id(self.catalog_v().relation_types@, x) && r == Err::<
                    (),
                    DbError,
                >(DbError::UnknownRelationType { id: RelationTypeId(x) }),
    {
        let members = set_members(ids);
        let mut i: usize = 0;
        while i < members.len()
            invariant
                lists_set(members@, ids@),
                i <= members@.len(),
                forall|j: int|
                    0 <= j < i ==> named_has_id(self.catalog_v().relation_types@, #[trigger] members@[j]),
            decreases members@.len() - i,
        {
            let x = members[i];
            proof {
                assert(members@.to_set().contains(x));
            }
            if let Err(e) = self.require_relation_type(RelationTypeId::new(x)) {
                return Err(e);
            }
            i = i + 1;
        }
        proof {
            assert forall|x: u64| #[trigger] ids@.contains(x) implies named_has_id(
                self.catalog_v().relation_types@,
                x,
            ) by {
                assert(members@.to_set().contains(x));
                let j = choose|j: int| 0 <= j < members@.len() && members@[j] == x;
            }
        }
        Ok(())
    }

    /// Validates the references of one projection definition.
    fn validate_projection_definition(&self, definition: &ProjectionDefinition) -> (r: Result<(), DbError>)
        ensures
            r is Ok <==> self.projection_refs_ok(definition@),
            r matches Err(e) ==> self.projection_ref_error(definition@, e),
    {
        match definition {
            ProjectionDefinition::Graph(graph) => {
                self.require_role(graph.source_role)?;
                self.require_role(graph.target_role)?;
                self.require_relation_types(&graph.relation_types)
            },
            ProjectionDefinition::Hypergraph(hypergraph) => {
                self.require_roles(&hypergraph.source_roles)?;
                self.require_roles(&hypergraph.target_roles)?;
                self.require_relation_types(&hypergraph.relation_types)
            },
        }
    }

    /// Defines a physical projection. References are validated first; the
    /// projection allocator then advances before the catalog insert.
    pub fn define_projection(&mut self, definition: ProjectionDefinition) -> (r: Result<ProjectionId, DbError>)
        requires
            old(self).wf(),
        ensures
            final(self).wf(),
            final(self).elements_v() == old(self).elements_v(),
            final(self).relations_v() == old(self).relations_v(),
            final(self).incidences_v() == old(self).incidences_v(),
            final(self).props() == old(self).props(),
            !old(self).projection_refs_ok(definition@) ==> (r matches Err(e)
                && old(self).projection_ref_error(definition@, e)) && *final(self) == *old(self),
            old(self).projection_refs_ok(definition@) && old(self).next_v().projection.0 == u64::MAX
                ==> r == Err::<ProjectionId, DbError>(DbError::IdOverflow) && *final(self) == *old(self),
            old(self).projection_refs_ok(definition@) && old(self).next_v().projection.0 < u64::MAX ==> {
                let id = old(self).next_v().projection;
                &&& final(self).next_v() == NextIds {
                    projection: ProjectionId((id.0 + 1) as u64),
                    ..old(self).next_v()
                }
                &&& (r is Ok <==> forall|i: int|
                    0 <= i < old(self).catalog_v().projections@.len() ==> projection_name(
                        old(self).catalog_v().projections@[i].definition,
                    ) != projection_name(definition) && old(self).catalog_v().projections@[i].id
                        != id)
                &&& r is Ok ==> r == Ok::<ProjectionId, DbError>(id)
                    && final(self).catalog_v().projections@ == old(self).catalog_v().projections@.push(
                    ProjectionEntry { id, definition },
                )
                &&& r is Err ==> final(self).catalog_v().projections@ == old(self).catalog_v().projections@
                &&& final(self).catalog_v() == Catalog {
                    projections: final(self).catalog_v().projections,
                    ..old(self).catalog_v()
                }
            },
    {
        self.validate_projection_definition(&definition)?;
        let id = self.next.projection;
        let next = match id.checked_next() {
            Some(n) => n,
            None => return Err(DbError::IdOverflow),
        };
        self.next.projection = next;
        self.catalog.insert_projection(id, definition)?;
        Ok(id)
    }

    /// Whether a projection id is registered.
    pub open spec fn projection_known(&self, id: u64) -> bool {
        exists|i: int|
            0 <= i < self.catalog_v().projections@.len() && self.catalog_v().projections@[i].id.0 == id
    }

    /// Whether every reference of an index definition resolves.
    pub open spec fn index_refs_ok(&self, d: IndexView) -> bool {
        let keys = self.catalog_v().property_keys@;
        match d {
            IndexView::Label(l) => named_has_id(self.catalog_v().labels@, l),
            IndexView::RelationType(t) => named_has_id(self.catalog_v().relation_types@, t),
            IndexView::PropertyEquality(k) => key_definition(keys, k).is_some(),
            IndexView::PropertyRange(k) => key_definition(keys, k).is_some(),
            IndexView::CompositeEquality(ks) => ks.len() > 0 && forall|i: int|
                0 <= i < ks.len() ==> #[trigger] key_definition(keys, ks[i]).is_some(),
            IndexView::Projection(p) => self.projection_known(p),
        }
    }

    /// The error that validation reports for an index definition whose
    /// references do not all resolve.
    pub open spec fn index_ref_error(&self, d: IndexView, e: DbError) -> bool {
        let keys = self.catalog_v().property_keys@;
        match d {
            IndexView::Label(l) => e == DbError::UnknownLabel { id: LabelId(l) },
            IndexView::RelationType(t) => e == DbError::UnknownRelationType { id: RelationTypeId(t) },
            IndexView::PropertyEquality(k) => e == DbError::UnknownPropertyKey { id: PropertyKeyId(k) },
            IndexView::PropertyRange(k) => e == DbError::UnknownPropertyKey { id: PropertyKeyId(k) },
            IndexView::CompositeEquality(ks) => if ks.len() == 0 {
                e is Unsupported
            } else {
                exists|i: int|
                    0 <= i < ks.len() && key_definition(keys, ks[i]).is_none() && (forall|j: int|
                        0 <= j < i ==> #[trigger] key_definition(keys, ks[j]).is_some()) && e
                        == DbError::UnknownPropertyKey { id: PropertyKeyId(ks[i]) }
            },
            IndexView::Projection(p) => e == DbError::UnknownProjection { id: ProjectionId(p) },
        }
    }

    /// Validates the references of one index definition.
    fn validate_index_definition(&self, definition: &IndexDefinition) -> (r: Result<(), DbError>)
        ensures
            r is Ok <==> self.index_refs_ok(definition@),
            r matches Err(e) ==> self.index_ref_error(definition@, e),
    {
        match definition {
            IndexDefinition::Label { label } => self.require_label(*label),
            IndexDefinition::RelationType { relation_type } => self.require_relation_type(*relation_type),
            IndexDefinition::PropertyEquality { key } => self.require_property_key(*key),
            IndexDefinition::PropertyRange { key } => self.require_property_key(*key),
            IndexDefinition::CompositeEquality { keys } => {
                if keys.len() == 0 {
                    return Err(DbError::unsupported("composite equality index requires at least one key"));
                }
                let ghost ks = match definition@ {
                    IndexView::CompositeEquality(v) => v,
                    _ => Seq::empty(),
                };
                let mut i: usize = 0;
                while i < keys.len()
                    invariant
                        i <= keys@.len(),
                        definition@ == IndexView::CompositeEquality(ks),
                        ks.len() == keys@.len(),
                        forall|j: int| 0 <= j < ks.len() ==> ks[j] == (#[trigger] keys@[j]).0,
                        forall|j: int|
                            0 <= j < i ==> #[trigger] key_definition(
                                self.catalog_v().property_keys@,
                                ks[j],
                            ).is_some(),
                    decreases keys@.len() - i,
                {
                    if let Err(e) = self.require_property_key(keys[i]) {
                        proof {
                            assert(ks[i as int] == keys@[i as int].0);
                            assert(key_definition(self.catalog_v().property_keys@, ks[i as int]).is_none());
                            assert(PropertyKeyId(ks[i as int]) == keys@[i as int]);
                            assert(self.index_ref_error(definition@, e));
                        }
                        return Err(e);
                    }
                    i = i + 1;
                }
                Ok(())
            },
            IndexDefinition::Projection { projection } => {
                if self.catalog.projection(*projection).is_some() {
                    Ok(())
                } else {
                    Err(DbError::UnknownProjection { id: *projection })
                }
            },
        }
    }

    /// Defines an index named `name`. References are validated first; the
    /// index allocator then advances before the catalog insert.
    pub fn define_index(&mut self, name: String, definition: IndexDefinition) -> (r: Result<IndexId, DbError>)
        requires
            old(self).wf(),
        ensures
            final(self).wf(),
            final(self).elements_v() == old(self).elements_v(),
            final(self).relations_v() == old(self).relations_v(),
            final(self).incidences_v() == old(self).incidences_v(),
            final(self).props() == old(self).props(),
            !old(self).index_refs_ok(definition@) ==> (r matches Err(e) && old(self).index_ref_error(
                definition@,
                e,
            )) && *final(self) == *old(self),
            old(self).index_refs_ok(definition@) && old(self).next_v().index.0 == u64::MAX ==> r == Err::<
                IndexId,
                DbError,
            >(DbError::IdOverflow) && *final(self) == *old(self),
            old(self).index_refs_ok(definition@) && old(self).next_v().index.0 < u64::MAX ==> {
                let id = old(self).next_v().index;
                &&& final(self).next_v() == NextIds { index: IndexId((id.0 + 1) as u64), ..old(self).next_v() }
                &&& (r is Ok <==> forall|i: int|
                    0 <= i < old(self).catalog_v().indexes@.len() ==> old(self).catalog_v().indexes@[i].name@
                        != name@ && old(self).catalog_v().indexes@[i].id != id)
                &&& r is Ok ==> r == Ok::<IndexId, DbError>(id) && final(self).catalog_v().indexes@ == old(
                    self,
                ).catalog_v().indexes@.push(IndexEntry { id, name, definition })
                &&& r is Err ==> final(self).catalog_v().indexes@ == old(self).catalog_v().indexes@
                &&& final(self).catalog_v() == Catalog {
                    indexes: final(self).catalog_v().indexes,
                    ..old(self).catalog_v()
                }
            },
    {
        self.validate_index_definition(&definition)?;
        let id = self.next.index;
        let next = match id.checked_next() {
            Some(n) => n,
            None => return Err(DbError::IdOverflow),
        };
        self.next.index = next;
        self.catalog.insert_index(id, name, definition)?;
        Ok(id)
    }

    /// The visible properties of one subject, keyed by raw property-key id.
    pub open spec fn subject_props(&self, subject: PropertySubject) -> Map<u64, ValueView> {
        Map::new(
            |key: u64| self.props().contains_key((subject_key(subject), key)),
            |key: u64| self.props()[(subject_key(subject), key)],
        )
    }

    /// A subject's visible properties are the views of its inner map, or
    /// nothing when it has none.
    proof fn lemma_subject_props(&self, subject: PropertySubject)
        ensures
            self.properties@.contains_key(subject_key(subject)) ==> self.subject_props(subject)
                == value_views(self.properties@[subject_key(subject)]@),
            !self.properties@.contains_key(subject_key(subject)) ==> self.subject_props(subject)
                == Map::<u64, ValueView>::empty(),
    {
        if self.properties@.contains_key(subject_key(subject)) {
            assert(self.subject_props(subject) =~= value_views(self.properties@[subject_key(subject)]@));
        } else {
            assert(self.subject_props(subject) =~= Map::<u64, ValueView>::empty());
        }
    }

    /// Lists, once each, the subjects whose properties satisfy `q`.
    fn scan_subjects(&self, q: &PropertyQuery) -> (r: Vec<PropertySubject>)
        requires
            self.wf(),
            q matches PropertyQuery::Composite { keys, values } ==> keys@.len() == values@.len(),
        ensures
            r@.no_duplicates(),
            subjects_ascending(r@),
            forall|s: PropertySubject| #[trigger] r@.contains(s) <==> query_holds(*q, self.subject_props(s)),
    {
        let keys = sorted_subject_keys(&self.properties);
        let mut out: Vec<PropertySubject> = Vec::new();
        let mut i: usize = 0;
        while i < keys.len()
            invariant
                self.wf(),
                q matches PropertyQuery::Composite { keys, values } ==> keys@.len() == values@.len(),
                i <= keys@.len(),
                keys@.to_set() == self.properties@.dom(),
                keys@.no_duplicates(),
                forall|a: int, b: int| 0 <= a < b < keys@.len() ==> key_pair_lt(keys@[a], keys@[b]),
                out@.no_duplicates(),
                subjects_ascending(out@),
                forall|s: PropertySubject| #[trigger]
                    out@.contains(s) <==> keys@.subrange(0, i as int).contains(subject_key(s)) && query_holds(
                        *q,
                        self.subject_props(s),
                    ),
            decreases keys@.len() - i,
        {
            let k = keys[i];
            let ghost s0 = keys@.subrange(0, i as int);
            let ghost s1 = keys@.subrange(0, i as int + 1);
            proof {
                assert(keys@.to_set().contains(k));
                assert forall|j: (u32, u64)| #[trigger] s1.contains(j) <==> (s0.contains(j) || j == k) by {
                    if s1.contains(j) {
                        let x = choose|x: int| 0 <= x < s1.len() && #[trigger] s1[x] == j;
                        if x < s0.len() {
                            assert(s0[x] == j);
                        }
                    }
                    if s0.contains(j) {
                        let x = choose|x: int| 0 <= x < s0.len() && #[trigger] s0[x] == j;
                        assert(s1[x] == j);
                    }
                    if j == k {
                        assert(s1[s0.len() as int] == j);
                    }
                }
                assert(!s0.contains(k)) by {
                    if s0.contains(k) {
                        let x = choose|x: int| 0 <= x < s0.len() && #[trigger] s0[x] == k;
                        assert(keys@[x] == keys@[i as int]);
                    }
                }
            }
            match crate::wire::decode_subject(k.0, k.1) {
                Some(subject) => {
                    proof {
                        assert(subject_key(subject) == k);
                        self.lemma_subject_props(subject);
                    }
                    let values = match self.properties.get(&k) {
                        Some(v) => v,
                        None => {
                            proof {
                                assert(false);
                            }
                            return out;
                        },
                    };
                    if values_match(values, q) {
                        proof {
                            assert(!out@.contains(subject));
                            assert forall|t: int| 0 <= t < out@.len() implies key_pair_lt(
                                subject_key(#[trigger] out@[t]),
                                k,
                            ) by {
                                assert(out@.contains(out@[t]));
                                let x = choose|x: int| 0 <= x < s0.len() && #[trigger] s0[x] == subject_key(out@[t]);
                                assert(keys@[x] == s0[x]);
                            }
                        }
                        let ghost before = out@;
                        out.push(subject);
                        proof {
                            assert forall|a: int, b: int| 0 <= a < b < out@.len() implies key_pair_lt(
                                subject_key(out@[a]),
                                subject_key(out@[b]),
                            ) by {
                                if b == before.len() {
                                    assert(out@[a] == before[a]);
                                } else {
                                    assert(out@[a] == before[a] && out@[b] == before[b]);
                                }
                            }
                            assert forall|s: PropertySubject| #[trigger]
                                out@.contains(s) <==> s1.contains(subject_key(s)) && query_holds(
                                    *q,
                                    self.subject_props(s),
                                ) by {
                                if s == subject {
                                    assert(out@[before.len() as int] == subject);
                                    assert(values@ == self.properties@[k]@);
                                    assert(query_holds(*q, self.subject_props(s)));
                                } else {
                                    assert(out@.contains(s) <==> before.contains(s)) by {
                                        if out@.contains(s) {
                                            let x = choose|x: int| 0 <= x < out@.len() && #[trigger] out@[x] == s;
                                            assert(x < before.len());
                                            assert(before[x] == s);
                                        }
                                        if before.contains(s) {
                                            let x = choose|x: int| 0 <= x < before.len() && #[trigger] before[x] == s;
                                            assert(out@[x] == s);
                                        }
                                    }
                                    crate::wire::lemma_subject_roundtrip(s);
                                    crate::wire::lemma_subject_roundtrip(subject);
                                }
                            }
                        }
                    } else {
                        proof {
                            assert forall|s: PropertySubject| #[trigger]
                                out@.contains(s) <==> s1.contains(subject_key(s)) && query_holds(
                                    *q,
                                    self.subject_props(s),
                                ) by {
                                if subject_key(s) == k {
                                    crate::wire::lemma_subject_roundtrip(s);
                                    crate::wire::lemma_subject_roundtrip(subject);
                                }
                            }
                        }
                    }
                },
                None => {
                    proof {
                        assert forall|s: PropertySubject| #[trigger]
                            out@.contains(s) <==> s1.contains(subject_key(s)) && query_holds(
                                *q,
                                self.subject_props(s),
                            ) by {
                            crate::wire::lemma_subject_roundtrip(s);
                        }
                    }
                },
            }
            i = i + 1;
        }
        proof {
            assert(keys@.subrange(0, i as int) =~= keys@);
            assert forall|s: PropertySubject| #[trigger] query_holds(*q, self.subject_props(s)) implies keys@.contains(
                subject_key(s),
            ) by {
                self.lemma_subject_props(s);
                if !self.properties@.contains_key(subject_key(s)) {
                    assert(self.subject_props(s).dom() =~= Set::<u64>::empty());
                } else {
                    assert(keys@.to_set().contains(subject_key(s)));
                }
            }
        }
        out
    }

    /// Subjects whose property `key` equals `value`, once each, in ascending subject order.
    pub fn property_equal(&self, key: PropertyKeyId, value: &PropertyValue) -> (r: Vec<PropertySubject>)
        requires
            self.wf(),
        ensures
            r@.no_duplicates(),
            subjects_ascending(r@),
            forall|s: PropertySubject| #[trigger]
                r@.contains(s) <==> equal_match(self.subject_props(s), key.0, value@),
    {
        self.scan_subjects(&PropertyQuery::Equal { key: key.get(), value })
    }

    /// Subjects whose property `key` lies in the inclusive range
    /// `[min, max]` of the value order, once each, in ascending subject order.
    pub fn property_range(&self, key: PropertyKeyId, min: &PropertyValue, max: &PropertyValue) -> (r: Vec<
        PropertySubject,
    >)
        requires
            self.wf(),
        ensures
            r@.no_duplicates(),
            subjects_ascending(r@),
            forall|s: PropertySubject| #[trigger]
                r@.contains(s) <==> range_match(self.subject_props(s), key.0, min@, max@),
    {
        self.scan_subjects(&PropertyQuery::Range { key: key.get(), min, max })
    }

    /// The error, if any, that checking a lookup value against key `key`
    /// reports: an unknown key, or a value of another type.
    pub open spec fn lookup_error(&self, key: PropertyKeyId, value: ValueView) -> Option<DbError> {
        match key_definition(self.catalog_v().property_keys@, key.0) {
            None => Some(DbError::UnknownPropertyKey { id: key }),
            Some(d) => if d.value_type != value_type_of(value) {
                Some(DbError::PropertyTypeMismatch { expected: d.value_type, actual: value_type_of(value) })
            } else {
                None
            },
        }
    }

    /// The error, if any, that checking a lookup value and a subject family
    /// against key `key` reports.
    pub open spec fn family_lookup_error(&self, key: PropertyKeyId, family: PropertyFamily, value: ValueView) -> Option<
        DbError,
    > {
        match key_definition(self.catalog_v().property_keys@, key.0) {
            None => Some(DbError::UnknownPropertyKey { id: key }),
            Some(d) => if d.family != family {
                Some(DbError::WrongPropertyFamily { expected: d.family, actual: family })
            } else if d.value_type != value_type_of(value) {
                Some(DbError::PropertyTypeMismatch { expected: d.value_type, actual: value_type_of(value) })
            } else {
                None
            },
        }
    }

    /// Checks a lookup value against its key's declared type.
    fn validate_lookup_value(&self, key: PropertyKeyId, value: &PropertyValue) -> (r: Result<(), DbError>)
        ensures
            match self.lookup_error(key, value@) {
                Some(e) => r == Err::<(), DbError>(e),
                None => r is Ok,
            },
    {
        let definition = match self.catalog.property_key(key) {
            Some(d) => d,
            None => return Err(DbError::UnknownPropertyKey { id: key }),
        };
        let actual = value.value_type();
        if definition.value_type != actual {
            return Err(DbError::PropertyTypeMismatch { expected: definition.value_type, actual });
        }
        Ok(())
    }

    /// Checks a lookup value and a subject family against a key's schema.
    pub fn validate_lookup_value_for_family(&self, key: PropertyKeyId, family: PropertyFamily, value: &PropertyValue) -> (r:
        Result<(), DbError>)
        ensures
            match self.family_lookup_error(key, family, value@) {
                Some(e) => r == Err::<(), DbError>(e),
                None => r is Ok,
            },
    {
        let definition = match self.catalog.property_key(key) {
            Some(d) => d,
            None => return Err(DbError::UnknownPropertyKey { id: key }),
        };
        if definition.family != family {
            return Err(DbError::WrongPropertyFamily { expected: definition.family, actual: family });
        }
        let actual = value.value_type();
        if definition.value_type != actual {
            return Err(DbError::PropertyTypeMismatch { expected: definition.value_type, actual });
        }
        Ok(())
    }

    /// Subjects whose property `key` equals `value`, after checking the
    /// value against the key's declared type.
    pub fn typed_property_equal(&self, key: PropertyKeyId, value: &PropertyValue) -> (r: Result<
        Vec<PropertySubject>,
        DbError,
    >)
        requires
            self.wf(),
        ensures
            match self.lookup_error(key, value@) {
                Some(e) => r == Err::<Vec<PropertySubject>, DbError>(e),
                None => r matches Ok(v) && v@.no_duplicates() && subjects_ascending(v@) && forall|s: PropertySubject| #[trigger]
                    v@.contains(s) <==> equal_match(self.subject_props(s), key.0, value@),
            },
    {
        self.validate_lookup_value(key, value)?;
        Ok(self.property_equal(key, value))
    }

    /// Subjects whose property `key` equals `value`, after checking the
    /// value and the family `family` against the key's schema.
    pub fn typed_property_equal_for_family(&self, key: PropertyKeyId, family: PropertyFamily, value: &PropertyValue) -> (r:
        Result<Vec<PropertySubject>, DbError>)
        requires
            self.wf(),
        ensures
            match self.family_lookup_error(key, family, value@) {
                Some(e) => r == Err::<Vec<PropertySubject>, DbError>(e),
                None => r matches Ok(v) && v@.no_duplicates() && subjects_ascending(v@) && forall|s: PropertySubject| #[trigger]
                    v@.contains(s) <==> equal_match(self.subject_props(s), key.0, value@),
            },
    {
        self.validate_lookup_value_for_family(key, family, value)?;
        Ok(self.property_equal(key, value))
    }

    /// Subjects whose property `key` lies in `[min, max]`, after checking
    /// both bounds against the key's declared type; an empty range
    /// (`min > max`) selects nothing.
    pub fn typed_property_range(&self, key: PropertyKeyId, min: &PropertyValue, max: &PropertyValue) -> (r: Result<
        Vec<PropertySubject>,
        DbError,
    >)
        requires
            self.wf(),
        ensures
            self.lookup_error(key, min@) is Some ==> r == Err::<Vec<PropertySubject>, DbError>(
                self.lookup_error(key, min@).unwrap(),
            ),
            self.lookup_error(key, min@) is None && self.lookup_error(key, max@) is Some ==> r == Err::<
                Vec<PropertySubject>,
                DbError,
            >(self.lookup_error(key, max@).unwrap()),
            self.lookup_error(key, min@) is None && self.lookup_error(key, max@) is None ==> (r matches Ok(v)
                && v@.no_duplicates() && subjects_ascending(v@) && forall|s: PropertySubject| #[trigger]
                v@.contains(s) <==> value_order(min@, max@) <= 0 && range_match(
                    self.subject_props(s),
                    key.0,
                    min@,
                    max@,
                )),
    {
        self.validate_lookup_value(key, min)?;
        self.validate_lookup_value(key, max)?;
        if order_values(min, max) > 0 {
            return Ok(Vec::new());
        }
        Ok(self.property_range(key, min, max))
    }

    /// Subjects whose properties match every `(keys[i], values[i])` pair,
    /// after checking each value against its key's declared type.
    pub fn typed_property_composite_equal(&self, keys: &[PropertyKeyId], values: &[PropertyValue]) -> (r: Result<
        Vec<PropertySubject>,
        DbError,
    >)
        requires
            self.wf(),
        ensures
            keys@.len() != values@.len() ==> (r matches Err(DbError::Unsupported { reason }) && reason@
                == "composite equality tuple arity mismatch"@),
            keys@.len() == values@.len() ==> {
                &&& (forall|i: int| 0 <= i < keys@.len() ==> #[trigger] self.lookup_error(keys@[i], values@[i]@) is None)
                    ==> (r matches Ok(v) && v@.no_duplicates() && subjects_ascending(v@) && forall|s: PropertySubject| #[trigger]
                    v@.contains(s) <==> composite_match(
                        self.subject_props(s),
                        raw_keys(keys@),
                        value_seq_views(values@),
                    ))
                &&& forall|i: int|
                    0 <= i < keys@.len() && #[trigger] self.lookup_error(keys@[i], values@[i]@) is Some && (
                    forall|j: int| 0 <= j < i ==> #[trigger] self.lookup_error(keys@[j], values@[j]@) is None)
                        ==> r == Err::<Vec<PropertySubject>, DbError>(
                        self.lookup_error(keys@[i], values@[i]@).unwrap(),
                    )
            },
    {
        if keys.len() != values.len() {
            return Err(DbError::unsupported("composite equality tuple arity mismatch"));
        }
        let mut i: usize = 0;
        while i < keys.len()
            invariant
                keys@.len() == values@.len(),
                i <= keys@.len(),
                forall|j: int| 0 <= j < i ==> #[trigger] self.lookup_error(keys@[j], values@[j]@) is None,
            decreases keys@.len() - i,
        {
            if let Err(e) = self.validate_lookup_value(keys[i], &values[i]) {
                proof {
                    assert forall|a: int|
                        0 <= a < keys@.len() && #[trigger] self.lookup_error(keys@[a], values@[a]@) is Some && (
                        forall|j: int| 0 <= j < a ==> #[trigger] self.lookup_error(keys@[j], values@[j]@) is None)
                        implies Err::<Vec<PropertySubject>, DbError>(e) == Err::<Vec<PropertySubject>, DbError>(
                        self.lookup_error(keys@[a], values@[a]@).unwrap(),
                    ) by {
                        if a < i {
                        } else if a > i {
                            assert(self.lookup_error(keys@[i as int], values@[i as int]@) is None);
                        }
                    }
                }
                return Err(e);
            }
            i = i + 1;
        }
        Ok(self.scan_subjects(&PropertyQuery::Composite { keys, values }))
    }

    /// Elements that carry `label`, once each.
    pub fn elements_with_label(&self, label: LabelId) -> (r: Vec<ElementId>)
        ensures
            r@.no_duplicates(),
            forall|id: ElementId| #[trigger]
                r@.contains(id) <==> self.elements_v().contains_key(id.0) && self.elements_v()[id.0].labels.contains(
                    label.0,
                ),
            forall|a: int, b: int| 0 <= a < b < r@.len() ==> r@[a].0 < r@[b].0,
    {
        let keys = sorted_keys(&self.elements);
        let mut out: Vec<ElementId> = Vec::new();
        let mut i: usize = 0;
        while i < keys.len()
            invariant
                i <= keys@.len(),
                keys@.to_set() == self.elements@.dom(),
                keys@.no_duplicates(),
                out@.no_duplicates(),
                forall|a: int, b: int| 0 <= a < b < keys@.len() ==> keys@[a] < keys@[b],
                forall|t: int| 0 <= t < out@.len() ==> #[trigger] keys@.subrange(0, i as int).contains(out@[t].0),
                forall|a: int, b: int| 0 <= a < b < out@.len() ==> out@[a].0 < out@[b].0,
                forall|id: ElementId| #[trigger]
                    out@.contains(id) <==> keys@.subrange(0, i as int).contains(id.0) && self.elements_v().contains_key(id.0)
                        && self.elements_v()[id.0].labels.contains(label.0),
            decreases keys@.len() - i,
        {
            let k = keys[i];
            proof {
                lemma_prefix_step(keys@, i as int);
                assert(keys@.to_set().contains(k));
            }
            let hit = match self.elements.get(&k) {
                Some(record) => record.labels.contains(&label.get()),
                None => false,
            };
            let ghost before = out@;
            if hit {
                proof {
                    lemma_push_fresh(out@, ElementId(k));
                    assert forall|t: int| 0 <= t < out@.len() implies out@[t].0 < k by {
                        assert(keys@.subrange(0, i as int).contains(out@[t].0));
                        let x = choose|x: int| 0 <= x < i && keys@.subrange(0, i as int)[x] == out@[t].0;
                        assert(keys@[x] == out@[t].0);
                    }
                }
                out.push(ElementId::new(k));
            }
            proof {
                assert forall|t: int| 0 <= t < out@.len() implies #[trigger] keys@.subrange(0, i + 1).contains(
                    out@[t].0,
                ) by {
                    if t < before.len() {
                        assert(out@[t] == before[t]);
                        assert(keys@.subrange(0, i as int).contains(before[t].0));
                        let x = choose|x: int| 0 <= x < i && keys@.subrange(0, i as int)[x] == before[t].0;
                        assert(keys@.subrange(0, i + 1)[x] == before[t].0);
                    } else {
                        assert(keys@.subrange(0, i + 1)[i as int] == k);
                    }
                }
            }
            i = i + 1;
        }
        proof {
            assert(keys@.subrange(0, i as int) =~= keys@);
            assert forall|id: ElementId| self.elements_v().contains_key(id.0) implies #[trigger] keys@.contains(id.0) by {
                assert(keys@.to_set().contains(id.0));
            }
        }
        out
    }

    /// Relations whose type is `relation_type`, once each.
    pub fn relations_with_type(&self, relation_type: RelationTypeId) -> (r: Vec<RelationId>)
        ensures
            r@.no_duplicates(),
            forall|id: RelationId| #[trigger]
                r@.contains(id) <==> self.relations_v().contains_key(id.0)
                    && self.relations_v()[id.0].relation_type == Some(relation_type.0),
            forall|a: int, b: int| 0 <= a < b < r@.len() ==> r@[a].0 < r@[b].0,
    {
        let keys = sorted_keys(&self.relations);
        let mut out: Vec<RelationId> = Vec::new();
        let mut i: usize = 0;
        while i < keys.len()
            invariant
                i <= keys@.len(),
                keys@.to_set() == self.relations@.dom(),
                keys@.no_duplicates(),
                out@.no_duplicates(),
                forall|a: int, b: int| 0 <= a < b < keys@.len() ==> keys@[a] < keys@[b],
                forall|t: int| 0 <= t < out@.len() ==> #[trigger] keys@.subrange(0, i as int).contains(out@[t].0),
                forall|a: int, b: int| 0 <= a < b < out@.len() ==> out@[a].0 < out@[b].0,
                forall|id: RelationId| #[trigger]
                    out@.contains(id) <==> keys@.subrange(0, i as int).contains(id.0) && self.relations_v().contains_key(
                        id.0,
                    ) && self.relations_v()[id.0].relation_type == Some(relation_type.0),
            decreases keys@.len() - i,
        {
            let k = keys[i];
            proof {
                lemma_prefix_step(keys@, i as int);
                assert(keys@.to_set().contains(k));
            }
            let hit = match self.relations.get(&k) {
                Some(record) => match record.relation_type {
                    Some(t) => t.get() == relation_type.get(),
                    None => false,
                },
                None => false,
            };
            let ghost before = out@;
            if hit {
                proof {
                    lemma_push_fresh(out@, RelationId(k));
                    assert forall|t: int| 0 <= t < out@.len() implies out@[t].0 < k by {
                        assert(keys@.subrange(0, i as int).contains(out@[t].0));
                        let x = choose|x: int| 0 <= x < i && keys@.subrange(0, i as int)[x] == out@[t].0;
                        assert(keys@[x] == out@[t].0);
                    }
                }
                out.push(RelationId::new(k));
            }
            proof {
                assert forall|t: int| 0 <= t < out@.len() implies #[trigger] keys@.subrange(0, i + 1).contains(
                    out@[t].0,
                ) by {
                    if t < before.len() {
                        assert(out@[t] == before[t]);
                        assert(keys@.subrange(0, i as int).contains(before[t].0));
                        let x = choose|x: int| 0 <= x < i && keys@.subrange(0, i as int)[x] == before[t].0;
                        assert(keys@.subrange(0, i + 1)[x] == before[t].0);
                    } else {
                        assert(keys@.subrange(0, i + 1)[i as int] == k);
                    }
                }
            }
            i = i + 1;
        }
        proof {
            assert(keys@.subrange(0, i as int) =~= keys@);
            assert forall|id: RelationId| self.relations_v().contains_key(id.0) implies #[trigger] keys@.contains(id.0) by {
                assert(keys@.to_set().contains(id.0));
            }
        }
        out
    }

    /// The visible element ids in ascending order.
    pub open spec fn element_order(&self) -> Seq<u64> {
        sorted_listing(self.elements_v().dom())
    }

    /// Every visible element id, ascending.
    pub fn element_listing(&self) -> (r: Vec<ElementId>)
        requires
            self.wf(),
        ensures
            r@.map_values(|e: ElementId| e.0) == self.element_order(),
    {
        let keys = sorted_keys(&self.elements);
        let mut out: Vec<ElementId> = Vec::new();
        let mut i: usize = 0;
        while i < keys.len()
            invariant
                i <= keys@.len(),
                out@.len() == i,
                forall|t: int| 0 <= t < i ==> (#[trigger] out@[t]).0 == keys@[t],
            decreases keys@.len() - i,
        {
            out.push(ElementId::new(keys[i]));
            i = i + 1;
        }
        proof {
            assert(out@.map_values(|e: ElementId| e.0) =~= keys@);
            assert(ascending(keys@));
            lemma_sorted_listing(keys@);
            assert(self.elements_v().dom() =~= self.elements@.dom());
        }
        out
    }

    /// The visible incidence ids in ascending order.
    pub open spec fn incidence_id_order(&self) -> Seq<u64> {
        sorted_listing(self.incidences_v().dom())
    }

    /// Every visible incidence, ascending by id.
    pub fn incidence_listing(&self) -> (r: Vec<IncidenceRecord>)
        requires
            self.wf(),
        ensures
            r@ == self.incidence_id_order().map_values(|k: u64| self.incidences_v()[k]),
    {
        let keys = sorted_keys(&self.incidences);
        let mut out: Vec<IncidenceRecord> = Vec::new();
        let mut i: usize = 0;
        while i < keys.len()
            invariant
                i <= keys@.len(),
                keys@.to_set() == self.incidences@.dom(),
                out@ == keys@.take(i as int).map_values(|k: u64| self.incidences_v()[k]),
            decreases keys@.len() - i,
        {
            let k = keys[i];
            proof {
                assert(keys@.to_set().contains(k));
            }
            match self.incidences.get(&k) {
                Some(record) => {
                    out.push(*record);
                },
                None => {},
            }
            proof {
                assert(out@ =~= keys@.take(i + 1).map_values(|k: u64| self.incidences_v()[k]));
            }
            i = i + 1;
        }
        proof {
            assert(keys@.take(i as int) =~= keys@);
            assert(ascending(keys@));
            lemma_sorted_listing(keys@);
        }
        out
    }

    /// The visible relation ids in ascending order.
    pub open spec fn relation_order(&self) -> Seq<u64> {
        sorted_listing(self.relations_v().dom())
    }

    /// Every visible relation with its type, in ascending relation-id order.
    pub fn relation_listing(&self) -> (r: Vec<(RelationId, Option<RelationTypeId>)>)
        requires
            self.wf(),
        ensures
            r@.len() == self.relation_order().len(),
            ascending(self.relation_order()),
            self.relation_order().to_set() == self.relations_v().dom(),
            forall|i: int|
                0 <= i < r@.len() ==> (#[trigger] r@[i]).0.0 == self.relation_order()[i]
                    && self.relations_v()[r@[i].0.0].relation_type == match r@[i].1 {
                    Some(t) => Some(t.0),
                    None => None,
                },
    {
        let keys = sorted_keys(&self.relations);
        let mut out: Vec<(RelationId, Option<RelationTypeId>)> = Vec::new();
        let mut i: usize = 0;
        while i < keys.len()
            invariant
                i <= keys@.len(),
                keys@.to_set() == self.relations@.dom(),
                self.wf(),
                out@.len() == i,
                forall|t: int|
                    0 <= t < i ==> (#[trigger] out@[t]).0.0 == keys@[t]
                        && self.relations_v()[out@[t].0.0].relation_type == match out@[t].1 {
                        Some(x) => Some(x.0),
                        None => None,
                    },
            decreases keys@.len() - i,
        {
            let k = keys[i];
            proof {
                assert(keys@.to_set().contains(k));
            }
            let t = match self.relations.get(&k) {
                Some(record) => record.relation_type,
                None => None,
            };
            out.push((RelationId::new(k), t));
            i = i + 1;
        }
        proof {
            assert(ascending(keys@));
            lemma_sorted_listing(keys@);
            assert(self.relations_v().dom() =~= self.relations@.dom());
        }
        out
    }

    /// The incidences of `relation` (`by_relation`) or of the element with
    /// raw id `owner`, once each, in ascending incidence-id order.
    fn incidences_of(&self, owner: u64, by_relation: bool) -> (r: Vec<IncidenceRecord>)
        requires
            self.wf(),
        ensures
            r@.no_duplicates(),
            forall|rec: IncidenceRecord| #[trigger]
                r@.contains(rec) <==> self.incidences_v().contains_key(rec.id.0) && self.incidences_v()[rec.id.0]
                    == rec && (if by_relation {
                    rec.relation.0 == owner
                } else {
                    rec.element.0 == owner
                }),
            forall|a: int, b: int| 0 <= a < b < r@.len() ==> r@[a].id.0 < r@[b].id.0,
    {
        let keys = sorted_keys(&self.incidences);
        let mut out: Vec<IncidenceRecord> = Vec::new();
        let mut i: usize = 0;
        while i < keys.len()
            invariant
                i <= keys@.len(),
                keys@.to_set() == self.incidences@.dom(),
                keys@.no_duplicates(),
                forall|a: int, b: int| 0 <= a < b < keys@.len() ==> keys@[a] < keys@[b],
                out@.no_duplicates(),
                self.wf(),
                forall|rec: IncidenceRecord| #[trigger]
                    out@.contains(rec) <==> keys@.subrange(0, i as int).contains(rec.id.0)
                        && self.incidences_v().contains_key(rec.id.0) && self.incidences_v()[rec.id.0] == rec && (
                    if by_relation {
                        rec.relation.0 == owner
                    } else {
                        rec.element.0 == owner
                    }),
                forall|t: int| 0 <= t < out@.len() ==> #[trigger] keys@.subrange(0, i as int).contains(out@[t].id.0),
                forall|a: int, b: int| 0 <= a < b < out@.len() ==> out@[a].id.0 < out@[b].id.0,
            decreases keys@.len() - i,
        {
            let k = keys[i];
            proof {
                lemma_prefix_step(keys@, i as int);
                assert(keys@.to_set().contains(k));
            }
            let ghost before = out@;
            match self.incidences.get(&k) {
                Some(record) => {
                    let hit = if by_relation {
                        record.relation.get() == owner
                    } else {
                        record.element.get() == owner
                    };
                    if hit {
                        proof {
                            lemma_push_fresh(out@, *record);
                            assert forall|t: int| 0 <= t < out@.len() implies out@[t].id.0 < k by {
                                assert(keys@.subrange(0, i as int).contains(out@[t].id.0));
                                let x = choose|x: int| 0 <= x < i && keys@.subrange(0, i as int)[x] == out@[t].id.0;
                                assert(keys@[x] == out@[t].id.0);
                            }
                        }
                        out.push(*record);
                    }
                },
                None => {},
            }
            proof {
                assert forall|t: int| 0 <= t < out@.len() implies #[trigger] keys@.subrange(0, i + 1).contains(
                    out@[t].id.0,
                ) by {
                    if t < before.len() {
                        assert(out@[t] == before[t]);
                        assert(keys@.subrange(0, i as int).contains(before[t].id.0));
                    }
                }
            }
            i = i + 1;
        }
        proof {
            assert(keys@.subrange(0, i as int) =~= keys@);
            assert forall|rec: IncidenceRecord| self.incidences_v().contains_key(rec.id.0) implies #[trigger] keys@.contains(
                rec.id.0,
            ) by {
                assert(keys@.to_set().contains(rec.id.0));
            }
        }
        out
    }

    /// The incidences of relation `relation`, in ascending incidence-id
    /// order.
    pub open spec fn incidence_order(&self, relation: u64) -> Seq<IncidenceRecord> {
        sorted_listing(
            Set::new(
                |k: u64| self.incidences_v().contains_key(k) && self.incidences_v()[k].relation.0 == relation,
            ),
        ).map_values(|k: u64| self.incidences_v()[k])
    }

    /// The incidences that belong to `relation`, once each, in ascending
    /// incidence-id order.
    pub fn relation_incidences(&self, relation: RelationId) -> (r: Vec<IncidenceRecord>)
        requires
            self.wf(),
        ensures
            r@ == self.incidence_order(relation.0),
            r@.no_duplicates(),
            forall|rec: IncidenceRecord| #[trigger]
                r@.contains(rec) <==> self.incidences_v().contains_key(rec.id.0) && self.incidences_v()[rec.id.0]
                    == rec && rec.relation == relation,
    {
        let r = self.incidences_of(relation.get(), true);
        proof {
            let ids = r@.map_values(|x: IncidenceRecord| x.id.0);
            let set = Set::new(
                |k: u64| self.incidences_v().contains_key(k) && self.incidences_v()[k].relation.0 == relation.0,
            );
            assert forall|k: u64| #[trigger] ids.to_set().contains(k) <==> set.contains(k) by {
                if ids.to_set().contains(k) {
                    let t = choose|t: int| 0 <= t < ids.len() && ids[t] == k;
                    assert(r@.contains(r@[t]));
                }
                if set.contains(k) {
                    let rec = self.incidences_v()[k];
                    assert(self.incidences@[k].id.0 == k);
                    assert(r@.contains(rec));
                    let t = choose|t: int| 0 <= t < r@.len() && r@[t] == rec;
                    assert(ids[t] == k);
                }
            }
            assert(ids.to_set() =~= set);
            lemma_sorted_listing(ids);
            assert forall|t: int| 0 <= t < r@.len() implies r@[t] == self.incidences_v()[ids[t]] by {
                assert(r@.contains(r@[t]));
            }
            assert(r@ =~= self.incidence_order(relation.0));
        }
        r
    }

    /// The incidences attaching `element`, in ascending incidence id.
    pub open spec fn attachment_order(&self, element: u64) -> Seq<IncidenceRecord> {
        sorted_listing(
            Set::new(
                |k: u64| self.incidences_v().contains_key(k) && self.incidences_v()[k].element.0 == element,
            ),
        ).map_values(|k: u64| self.incidences_v()[k])
    }

    /// The incidences that attach `element`, once each, in ascending
    /// incidence-id order.
    pub fn element_incidences(&self, element: ElementId) -> (r: Vec<IncidenceRecord>)
        requires
            self.wf(),
        ensures
            r@ == self.attachment_order(element.0),
            r@.no_duplicates(),
            forall|rec: IncidenceRecord| #[trigger]
                r@.contains(rec) <==> self.incidences_v().contains_key(rec.id.0) && self.incidences_v()[rec.id.0]
                    == rec && rec.element == element,
    {
        let r = self.incidences_of(element.get(), false);
        proof {
            let ids = r@.map_values(|x: IncidenceRecord| x.id.0);
            let set = Set::new(
                |k: u64| self.incidences_v().contains_key(k) && self.incidences_v()[k].element.0 == element.0,
            );
            assert forall|k: u64| #[trigger] ids.to_set().contains(k) <==> set.contains(k) by {
                if ids.to_set().contains(k) {
                    let t = choose|t: int| 0 <= t < ids.len() && ids[t] == k;
                    assert(r@.contains(r@[t]));
                }
                if set.contains(k) {
                    let rec = self.incidences_v()[k];
                    assert(self.incidences@[k].id.0 == k);
                    assert(r@.contains(rec));
                    let t = choose|t: int| 0 <= t < r@.len() && r@[t] == rec;
                    assert(ids[t] == k);
                }
            }
            assert(ids.to_set() =~= set);
            lemma_sorted_listing(ids);
            assert forall|t: int| 0 <= t < r@.len() implies r@[t] == self.incidences_v()[ids[t]] by {
                assert(r@.contains(r@[t]));
            }
            assert(r@ =~= self.attachment_order(element.0));
        }
        r
    }

    /// Whether every raw id of `ids` names a registered label.
    pub open spec fn labels_known(&self, ids: Set<u64>) -> bool {
        forall|x: u64| #[trigger] ids.contains(x) ==> named_has_id(self.catalog_v().labels@, x)
    }

    /// Whether one stored property `(subject key, key) -> value` is
    /// consistent with its subject and the catalog schema.
    pub open spec fn property_ok(&self, s: (u32, u64), key: u64, value: ValueView) -> bool {
        match spec_decode_subject(s.0, s.1) {
            None => false,
            Some(subject) => {
                &&& self.subject_exists(subject)
                &&& key_definition(self.catalog_v().property_keys@, key) matches Some(d)
                &&& d.family == subject_family(subject)
                &&& d.value_type == value_type_of(value)
            },
        }
    }

    /// Whether every persisted reference resolves.
    pub open spec fn refs_valid(&self) -> bool {
        &&& forall|k: u64| #[trigger]
            self.incidences_v().contains_key(k) ==> {
                let rec = self.incidences_v()[k];
                &&& self.relations_v().contains_key(rec.relation.0)
                &&& self.elements_v().contains_key(rec.element.0)
                &&& named_has_id(self.catalog_v().roles@, rec.role.0)
            }
        &&& forall|k: u64| #[trigger]
            self.elements_v().contains_key(k) ==> self.labels_known(self.elements_v()[k].labels)
        &&& forall|k: u64| #[trigger]
            self.relations_v().contains_key(k) ==> self.labels_known(self.relations_v()[k].labels) && (
            self.relations_v()[k].relation_type matches Some(t) ==> named_has_id(
                self.catalog_v().relation_types@,
                t,
            ))
        &&& forall|p: ((u32, u64), u64)| #[trigger]
            self.props().contains_key(p) ==> self.property_ok(p.0, p.1, self.props()[p])
        &&& forall|i: int|
            0 <= i < self.catalog_v().projections@.len() ==> #[trigger] self.projection_refs_ok(
                self.catalog_v().projections@[i].definition@,
            )
        &&& forall|i: int|
            0 <= i < self.catalog_v().indexes@.len() ==> #[trigger] self.index_refs_ok(
                self.catalog_v().indexes@[i].definition@,
            )
    }

    /// Requires every label of a raw id set to exist.
    fn require_labels(&self, ids: &BTreeSet<u64>) -> (r: Result<(), DbError>)
        ensures
            r is Ok <==> self.labels_known(ids@),
    {
        let members = set_members(ids);
        let mut i: usize = 0;
        while i < members.len()
            invariant
                lists_set(members@, ids@),
                i <= members@.len(),
                forall|j: int| 0 <= j < i ==> named_has_id(self.catalog_v().labels@, #[trigger] members@[j]),
            decreases members@.len() - i,
        {
            let x = members[i];
            proof {
                assert(members@.to_set().contains(x));
            }
            if let Err(e) = self.require_label(LabelId::new(x)) {
                return Err(e);
            }
            i = i + 1;
        }
        proof {
            assert forall|x: u64| #[trigger] ids@.contains(x) implies named_has_id(self.catalog_v().labels@, x) by {
                assert(members@.to_set().contains(x));
                let j = choose|j: int| 0 <= j < members@.len() && members@[j] == x;
            }
        }
        Ok(())
    }

    /// Checks one stored property against its subject and the schema.
    fn validate_property_value(&self, subject: PropertySubject, key: u64, value: &PropertyValue) -> (r: Result<
        (),
        DbError,
    >)
        ensures
            r is Ok <==> self.property_ok(subject_key(subject), key, value@),
    {
        proof {
            crate::wire::lemma_subject_roundtrip(subject);
        }
        self.require_subject(subject)?;
        let definition = match self.catalog.property_key(PropertyKeyId::new(key)) {
            Some(d) => d,
            None => return Err(DbError::UnknownPropertyKey { id: PropertyKeyId::new(key) }),
        };
        let family = subject.family();
        if definition.family != family {
            return Err(DbError::WrongPropertyFamily { expected: definition.family, actual: family });
        }
        let actual = value.value_type();
        if definition.value_type != actual {
            return Err(DbError::PropertyTypeMismatch { expected: definition.value_type, actual });
        }
        Ok(())
    }

    /// Checks every stored property.
    fn validate_properties(&self) -> (r: Result<(), DbError>)
        requires
            self.wf(),
        ensures
            r is Ok <==> forall|p: ((u32, u64), u64)| #[trigger]
                self.props().contains_key(p) ==> self.property_ok(p.0, p.1, self.props()[p]),
    {
        let subjects = map_keys(&self.properties);
        let mut i: usize = 0;
        while i < subjects.len()
            invariant
                self.wf(),
                i <= subjects@.len(),
                subjects@.to_set() == self.properties@.dom(),
                forall|p: ((u32, u64), u64)| #[trigger]
                    self.props().contains_key(p) && subjects@.subrange(0, i as int).contains(p.0) ==> self.property_ok(
                        p.0,
                        p.1,
                        self.props()[p],
                    ),
            decreases subjects@.len() - i,
        {
            let sk = subjects[i];
            proof {
                assert(subjects@.to_set().contains(sk));
                assert forall|j: (u32, u64)| #[trigger] subjects@.subrange(0, i as int + 1).contains(j) implies (
                subjects@.subrange(0, i as int).contains(j) || j == sk) by {
                    let s1 = subjects@.subrange(0, i as int + 1);
                    let s0 = subjects@.subrange(0, i as int);
                    if s1.contains(j) {
                        let x = choose|x: int| 0 <= x < s1.len() && #[trigger] s1[x] == j;
                        if x < s0.len() {
                            assert(s0[x] == j);
                        }
                    }
                }
            }
            let subject = match crate::wire::decode_subject(sk.0, sk.1) {
                Some(s) => s,
                None => {
                    proof {
                        assert(false);
                    }
                    return Err(DbError::unsupported("unknown property subject kind"));
                },
            };
            let values = match self.properties.get(&sk) {
                Some(v) => v,
                None => {
                    proof {
                        assert(false);
                    }
                    return Err(DbError::unsupported("unknown property subject kind"));
                },
            };
            let keys = map_keys(values);
            let mut j: usize = 0;
            while j < keys.len()
                invariant
                    self.wf(),
                    i < subjects@.len(),
                    sk == subjects@[i as int],
                    subject_key(subject) == sk,
                    self.properties@.contains_key(sk),
                    *values == self.properties@[sk],
                    j <= keys@.len(),
                    keys@.to_set() == values@.dom(),
                    forall|k: u64| #[trigger]
                        keys@.subrange(0, j as int).contains(k) ==> self.property_ok(sk, k, values@[k]@),
                decreases keys@.len() - j,
            {
                let k = keys[j];
                proof {
                    assert(keys@.to_set().contains(k));
                    assert forall|x: u64| #[trigger] keys@.subrange(0, j as int + 1).contains(x) implies (
                    keys@.subrange(0, j as int).contains(x) || x == k) by {
                        let s1 = keys@.subrange(0, j as int + 1);
                        let s0 = keys@.subrange(0, j as int);
                        if s1.contains(x) {
                            let y = choose|y: int| 0 <= y < s1.len() && #[trigger] s1[y] == x;
                            if y < s0.len() {
                                assert(s0[y] == x);
                            }
                        }
                    }
                }
                let value = match values.get(&k) {
                    Some(v) => v,
                    None => {
                        proof {
                            assert(false);
                        }
                        return Err(DbError::unsupported("unknown property subject kind"));
                    },
                };
                if let Err(e) = self.validate_property_value(subject, k, value) {
                    proof {
                        assert(self.props().contains_key((sk, k)));
                        assert(!self.property_ok((sk, k).0, (sk, k).1, self.props()[(sk, k)]));
                    }
                    return Err(e);
                }
                j = j + 1;
            }
            proof {
                assert(keys@.subrange(0, j as int) =~= keys@);
                assert forall|p: ((u32, u64), u64)| #[trigger]
                    self.props().contains_key(p) && subjects@.subrange(0, i as int + 1).contains(p.0) implies self.property_ok(
                    p.0,
                    p.1,
                    self.props()[p],
                ) by {
                    if p.0 == sk {
                        assert(values@.dom().contains(p.1));
                        assert(keys@.to_set().contains(p.1));
                        assert(keys@.contains(p.1));
                    }
                }
            }
            i = i + 1;
        }
        proof {
            assert(subjects@.subrange(0, i as int) =~= subjects@);
            assert forall|p: ((u32, u64), u64)| #[trigger] self.props().contains_key(p) implies self.property_ok(
                p.0,
                p.1,
                self.props()[p],
            ) by {
                assert(self.properties@.contains_key(p.0));
                assert(subjects@.to_set().contains(p.0));
            }
        }
        Ok(())
    }

    /// Validates every persisted reference: incidences, labels, relation
    /// types, properties, and catalog definitions.
    pub fn validate(&self) -> (r: Result<(), DbError>)
        requires
            self.wf(),
        ensures
            r is Ok <==> self.refs_valid(),
    {
        let inc = map_keys(&self.incidences);
        let mut i: usize = 0;
        while i < inc.len()
            invariant
                i <= inc@.len(),
                inc@.to_set() == self.incidences@.dom(),
                forall|k: u64| #[trigger]
                    inc@.subrange(0, i as int).contains(k) ==> {
                        let rec = self.incidences_v()[k];
                        &&& self.relations_v().contains_key(rec.relation.0)
                        &&& self.elements_v().contains_key(rec.element.0)
                        &&& named_has_id(self.catalog_v().roles@, rec.role.0)
                    },
            decreases inc@.len() - i,
        {
            let k = inc[i];
            proof {
                assert(inc@.to_set().contains(k));
                assert forall|x: u64| #[trigger] inc@.subrange(0, i as int + 1).contains(x) implies (
                inc@.subrange(0, i as int).contains(x) || x == k) by {
                    let s1 = inc@.subrange(0, i as int + 1);
                    let s0 = inc@.subrange(0, i as int);
                    if s1.contains(x) {
                        let y = choose|y: int| 0 <= y < s1.len() && #[trigger] s1[y] == x;
                        if y < s0.len() {
                            assert(s0[y] == x);
                        }
                    }
                }
            }
            if let Some(record) = self.incidences.get(&k) {
                let checked = match self.require_relation(record.relation) {
                    Ok(()) => match self.require_element(record.element) {
                        Ok(()) => self.require_role(record.role),
                        Err(e) => Err(e),
                    },
                    Err(e) => Err(e),
                };
                if checked.is_err() {
                    proof {
                        assert(self.incidences_v().contains_key(k));
                        assert(self.incidences_v()[k] == *record);
                    }
                    return checked;
                }
            }
            i = i + 1;
        }
        proof {
            assert(inc@.subrange(0, i as int) =~= inc@);
            assert forall|k: u64| #[trigger] self.incidences_v().contains_key(k) implies inc@.contains(k) by {
                assert(inc@.to_set().contains(k));
            }
        }
        let els = map_keys(&self.elements);
        let mut i: usize = 0;
        while i < els.len()
            invariant
                i <= els@.len(),
                els@.to_set() == self.elements@.dom(),
                forall|k: u64| #[trigger]
                    els@.subrange(0, i as int).contains(k) ==> self.labels_known(self.elements_v()[k].labels),
            decreases els@.len() - i,
        {
            let k = els[i];
            proof {
                assert(els@.to_set().contains(k));
                assert forall|x: u64| #[trigger] els@.subrange(0, i as int + 1).contains(x) implies (
                els@.subrange(0, i as int).contains(x) || x == k) by {
                    let s1 = els@.subrange(0, i as int + 1);
                    let s0 = els@.subrange(0, i as int);
                    if s1.contains(x) {
                        let y = choose|y: int| 0 <= y < s1.len() && #[trigger] s1[y] == x;
                        if y < s0.len() {
                            assert(s0[y] == x);
                        }
                    }
                }
            }
            if let Some(record) = self.elements.get(&k) {
                let checked = self.require_labels(&record.labels);
                if checked.is_err() {
                    proof {
                        assert(self.elements_v().contains_key(k));
                        assert(self.elements_v()[k].labels == record.labels@);
                    }
                    return checked;
                }
            }
            i = i + 1;
        }
        proof {
            assert(els@.subrange(0, i as int) =~= els@);
            assert forall|k: u64| #[trigger] self.elements_v().contains_key(k) implies els@.contains(k) by {
                assert(els@.to_set().contains(k));
            }
        }
        let rels = map_keys(&self.relations);
        let mut i: usize = 0;
        while i < rels.len()
            invariant
                i <= rels@.len(),
                rels@.to_set() == self.relations@.dom(),
                forall|k: u64| #[trigger]
                    rels@.subrange(0, i as int).contains(k) ==> self.labels_known(self.relations_v()[k].labels) && (
                    self.relations_v()[k].relation_type matches Some(t) ==> named_has_id(
                        self.catalog_v().relation_types@,
                        t,
                    )),
            decreases rels@.len() - i,
        {
            let k = rels[i];
            proof {
                assert(rels@.to_set().contains(k));
                assert forall|x: u64| #[trigger] rels@.subrange(0, i as int + 1).contains(x) implies (
                rels@.subrange(0, i as int).contains(x) || x == k) by {
                    let s1 = rels@.subrange(0, i as int + 1);
                    let s0 = rels@.subrange(0, i as int);
                    if s1.contains(x) {
                        let y = choose|y: int| 0 <= y < s1.len() && #[trigger] s1[y] == x;
                        if y < s0.len() {
                            assert(s0[y] == x);
                        }
                    }
                }
            }
            if let Some(record) = self.relations.get(&k) {
                let checked = match self.require_labels(&record.labels) {
                    Ok(()) => match record.relation_type {
                        Some(t) => self.require_relation_type(t),
                        None => Ok(()),
                    },
                    Err(e) => Err(e),
                };
                if checked.is_err() {
                    proof {
                        assert(self.relations_v().contains_key(k));
                        assert(self.relations_v()[k] == record@);
                    }
                    return checked;
                }
            }
            i = i + 1;
        }
        proof {
            assert(rels@.subrange(0, i as int) =~= rels@);
            assert forall|k: u64| #[trigger] self.relations_v().contains_key(k) implies rels@.contains(k) by {
                assert(rels@.to_set().contains(k));
            }
        }
        self.validate_properties()?;
        let mut i: usize = 0;
        while i < self.catalog.projections.len()
            invariant
                i <= self.catalog_v().projections@.len(),
                forall|j: int|
                    0 <= j < i ==> #[trigger] self.projection_refs_ok(self.catalog_v().projections@[j].definition@),
            decreases self.catalog_v().projections@.len() - i,
        {
            self.validate_projection_definition(&self.catalog.projections[i].definition)?;
            i = i + 1;
        }
        let mut i: usize = 0;
        while i < self.catalog.indexes.len()
            invariant
                i <= self.catalog_v().indexes@.len(),
                forall|j: int|
                    0 <= j < i ==> #[trigger] self.index_refs_ok(self.catalog_v().indexes@[j].definition@),
            decreases self.catalog_v().indexes@.len() - i,
        {
            self.validate_index_definition(&self.catalog.indexes[i].definition)?;
            i = i + 1;
        }
        Ok(())
    }

    /// Tombstones an element: drops its record, its properties, and every
    /// incidence that attaches it (with their properties).
    pub fn tombstone_element(&mut self, id: ElementId) -> (r: Result<(), DbError>)
        requires
            old(self).wf(),
        ensures
            final(self).wf(),
            r is Err <==> !old(self).elements_v().contains_key(id.0),
            r is Err ==> r == Err::<(), DbError>(DbError::UnknownElement { id })
                && *final(self) == *old(self),
            r is Ok ==> {
                &&& final(self).elements_v() == old(self).elements_v().remove(id.0)
                &&& final(self).incidences_v() == Map::new(
                    |k: u64|
                        old(self).incidences_v().contains_key(k) && !incidence_of_element(
                            old(self).incidences_v()[k],
                            id,
                        ),
                    |k: u64| old(self).incidences_v()[k],
                )
                &&& final(self).props() == Map::new(
                    |p: ((u32, u64), u64)|
                        old(self).props().contains_key(p) && p.0 != (0u32, id.0) && !(p.0.0 == 2
                            && old(self).incidences_v().contains_key(p.0.1) && incidence_of_element(
                            old(self).incidences_v()[p.0.1],
                            id,
                        )),
                    |p: ((u32, u64), u64)| old(self).props()[p],
                )
                &&& final(self).relations_v() == old(self).relations_v()
                &&& final(self).catalog_v() == old(self).catalog_v()
                &&& final(self).next_v() == old(self).next_v()
            },
    {
        if !self.elements.contains_key(&id.get()) {
            return Err(DbError::UnknownElement { id });
        }
        let ghost props0 = self.properties@;
        self.elements.remove(&id.get());
        self.properties.remove(&(0u32, id.get()));
        proof {
            lemma_flatten_remove_subject(props0, (0u32, id.0));
            assert(self.elements_v() =~= old(self).elements_v().remove(id.0));
        }
        self.remove_incidences(IncidencePick::OfElement(id));
        proof {
            assert(self.props() =~= Map::new(
                |p: ((u32, u64), u64)|
                    old(self).props().contains_key(p) && p.0 != (0u32, id.0) && !(p.0.0 == 2
                        && old(self).incidences_v().contains_key(p.0.1) && incidence_of_element(
                        old(self).incidences_v()[p.0.1],
                        id,
                    )),
                |p: ((u32, u64), u64)| old(self).props()[p],
            ));
        }
        Ok(())
    }

    /// Tombstones a relation: drops its record, its properties, and every
    /// incidence that belongs to it (with their properties).
    pub fn tombstone_relation(&mut self, id: RelationId) -> (r: Result<(), DbError>)
        requires
            old(self).wf(),
        ensures
            final(self).wf(),
            r is Err <==> !old(self).relations_v().contains_key(id.0),
            r is Err ==> r == Err::<(), DbError>(DbError::UnknownRelation { id })
                && *final(self) == *old(self),
            r is Ok ==> {
                &&& final(self).relations_v() == old(self).relations_v().remove(id.0)
                &&& final(self).incidences_v() == Map::new(
                    |k: u64|
                        old(self).incidences_v().contains_key(k) && !incidence_of_relation(
                            old(self).incidences_v()[k],
                            id,
                        ),
                    |k: u64| old(self).incidences_v()[k],
                )
                &&& final(self).props() == Map::new(
                    |p: ((u32, u64), u64)|
                        old(self).props().contains_key(p) && p.0 != (1u32, id.0) && !(p.0.0 == 2
                            && old(self).incidences_v().contains_key(p.0.1) && incidence_of_relation(
                            old(self).incidences_v()[p.0.1],
                            id,
                        )),
                    |p: ((u32, u64), u64)| old(self).props()[p],
                )
                &&& final(self).elements_v() == old(self).elements_v()
                &&& final(self).catalog_v() == old(self).catalog_v()
                &&& final(self).next_v() == old(self).next_v()
            },
    {
        if !self.relations.contains_key(&id.get()) {
            return Err(DbError::UnknownRelation { id });
        }
        let ghost props0 = self.properties@;
        self.relations.remove(&id.get());
        self.properties.remove(&(1u32, id.get()));
        proof {
            lemma_flatten_remove_subject(props0, (1u32, id.0));
            assert(self.relations_v() =~= old(self).relations_v().remove(id.0));
        }
        self.remove_incidences(IncidencePick::OfRelation(id));
        proof {
            assert(self.props() =~= Map::new(
                |p: ((u32, u64), u64)|
                    old(self).props().contains_key(p) && p.0 != (1u32, id.0) && !(p.0.0 == 2
                        && old(self).incidences_v().contains_key(p.0.1) && incidence_of_relation(
                        old(self).incidences_v()[p.0.1],
                        id,
                    )),
                |p: ((u32, u64), u64)| old(self).props()[p],
            ));
        }
        Ok(())
    }

    /// Tombstones one incidence and its properties.
    pub fn tombstone_incidence(&mut self, id: IncidenceId) -> (r: Result<(), DbError>)
        requires
            old(self).wf(),
        ensures
            final(self).wf(),
            r is Err <==> !old(self).incidences_v().contains_key(id.0),
            r is Err ==> r == Err::<(), DbError>(DbError::UnknownIncidence { id })
                && *final(self) == *old(self),
            r is Ok ==> {
                &&& final(self).incidences_v() == old(self).incidences_v().remove(id.0)
                &&& final(self).props() == Map::new(
                    |p: ((u32, u64), u64)| old(self).props().contains_key(p) && p.0 != (2u32, id.0),
                    |p: ((u32, u64), u64)| old(self).props()[p],
                )
                &&& final(self).elements_v() == old(self).elements_v()
                &&& final(self).relations_v() == old(self).relations_v()
                &&& final(self).catalog_v() == old(self).catalog_v()
                &&& final(self).next_v() == old(self).next_v()
            },
    {
        if !self.incidences.contains_key(&id.get()) {
            return Err(DbError::UnknownIncidence { id });
        }
        let ghost props0 = self.properties@;
        self.incidences.remove(&id.get());
        self.properties.remove(&(2u32, id.get()));
        proof {
            lemma_flatten_remove_subject(props0, (2u32, id.0));
        }
        Ok(())
    }

    /// Removes every incidence `pick` selects, and the properties of each.
    fn remove_incidences(&mut self, pick: IncidencePick)
        requires
            old(self).wf(),
        ensures
            final(self).wf(),
            final(self).incidences_v() == Map::new(
                |k: u64|
                    old(self).incidences_v().contains_key(k) && !picks(
                        pick,
                        old(self).incidences_v()[k],
                    ),
                |k: u64| old(self).incidences_v()[k],
            ),
            final(self).props() == Map::new(
                |p: ((u32, u64), u64)|
                    old(self).props().contains_key(p) && !(p.0.0 == 2 && old(
                        self,
                    ).incidences_v().contains_key(p.0.1) && picks(
                        pick,
                        old(self).incidences_v()[p.0.1],
                    )),
                |p: ((u32, u64), u64)| old(self).props()[p],
            ),
            final(self).elements_v() == old(self).elements_v(),
            final(self).relations_v() == old(self).relations_v(),
            final(self).catalog_v() == old(self).catalog_v(),
            final(self).next_v() == old(self).next_v(),
    {
        let keys = map_keys(&self.incidences);
        let ghost inc0 = self.incidences@;
        let ghost props0 = self.props();
        let mut i: usize = 0;
        while i < keys.len()
            invariant
                old(self).wf(),
                i <= keys@.len(),
                keys@.to_set() == inc0.dom(),
                keys@.no_duplicates(),
                inc0 == old(self).incidences@,
                props0 == old(self).props(),
                forall|s: (u32, u64)| #[trigger]
                    self.properties@.contains_key(s) ==> !self.properties@[s]@.dom().is_empty() && s.0 <= 2,
                self.elements == old(self).elements,
                self.relations == old(self).relations,
                self.catalog == old(self).catalog,
                self.next == old(self).next,
                self.incidences@ == Map::new(
                    |k: u64|
                        inc0.contains_key(k) && !(picks(pick, inc0[k]) && keys@.subrange(
                            0,
                            i as int,
                        ).contains(k)),
                    |k: u64| inc0[k],
                ),
                self.props() == Map::new(
                    |p: ((u32, u64), u64)|
                        props0.contains_key(p) && !(p.0.0 == 2 && inc0.contains_key(p.0.1) && picks(
                            pick,
                            inc0[p.0.1],
                        ) && keys@.subrange(0, i as int).contains(p.0.1)),
                    |p: ((u32, u64), u64)| props0[p],
                ),
            decreases keys@.len() - i,
        {
            let k = keys[i];
            proof {
                assert(keys@.to_set().contains(k));
                let s0 = keys@.subrange(0, i as int);
                let s1 = keys@.subrange(0, i as int + 1);
                assert(s1 =~= s0.push(k));
                assert forall|j: u64| #[trigger] s1.contains(j) <==> (s0.contains(j) || j == k) by {
                    if s1.contains(j) {
                        let x = choose|x: int| 0 <= x < s1.len() && #[trigger] s1[x] == j;
                        if x < s0.len() {
                            assert(s0[x] == j);
                        }
                    }
                    if s0.contains(j) {
                        let x = choose|x: int| 0 <= x < s0.len() && #[trigger] s0[x] == j;
                        assert(s1[x] == j);
                    }
                    if j == k {
                        assert(s1[s0.len() as int] == j);
                    }
                }
                assert(!s0.contains(k)) by {
                    if s0.contains(k) {
                        let x = choose|x: int| 0 <= x < s0.len() && #[trigger] s0[x] == k;
                        assert(keys@[x] == keys@[i as int]);
                    }
                }
            }
            let hit = match self.incidences.get(&k) {
                Some(record) => match pick {
                    IncidencePick::OfElement(e) => record.element.get() == e.get(),
                    IncidencePick::OfRelation(r) => record.relation.get() == r.get(),
                },
                None => false,
            };
            let ghost before = self.properties@;
            if hit {
                self.incidences.remove(&k);
                self.properties.remove(&(2u32, k));
                proof {
                    lemma_flatten_remove_subject(before, (2u32, k));
                }
            }
            proof {
                assert(self.incidences@ =~= Map::new(
                    |j: u64|
                        inc0.contains_key(j) && !(picks(pick, inc0[j]) && keys@.subrange(
                            0,
                            i as int + 1,
                        ).contains(j)),
                    |j: u64| inc0[j],
                ));
                assert(self.props() =~= Map::new(
                    |p: ((u32, u64), u64)|
                        props0.contains_key(p) && !(p.0.0 == 2 && inc0.contains_key(p.0.1) && picks(
                            pick,
                            inc0[p.0.1],
                        ) && keys@.subrange(0, i as int + 1).contains(p.0.1)),
                    |p: ((u32, u64), u64)| props0[p],
                ));
            }
            i = i + 1;
        }
        proof {
            assert(keys@.subrange(0, i as int) =~= keys@);
            assert forall|j: u64| inc0.contains_key(j) implies #[trigger] keys@.contains(j) by {
                assert(keys@.to_set().contains(j));
            }
            assert(self.incidences@ =~= Map::new(
                |k: u64| inc0.contains_key(k) && !picks(pick, inc0[k]),
                |k: u64| inc0[k],
            ));
            assert(self.props() =~= Map::new(
                |p: ((u32, u64), u64)|
                    props0.contains_key(p) && !(p.0.0 == 2 && inc0.contains_key(p.0.1) && picks(
                        pick,
                        inc0[p.0.1],
                    )),
                |p: ((u32, u64), u64)| props0[p],
            ));
        }
    }
}

} // verus!
